//! Night-mode keyboard backlight control: a time-of-day window predicate,
//! a polling scheduler decision, and fault-tolerant configuration persistence.

pub mod config;
pub mod configtext;
pub mod daytime;
pub mod digits;
pub mod scheduler;
