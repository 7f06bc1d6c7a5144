[package]
name = "keyboard_controller"
version = "0.1.0"
edition = "2021"
publish = false

[dependencies]
dbus = "*"
time = { version = "*", features = ["local-offset"] }
