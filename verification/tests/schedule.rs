use keyboard_controller::daytime::Time;
use keyboard_controller::scheduler::scheduler_tick;

fn t(hours: i32, minutes: i32) -> Time {
    Time { hours, minutes }
}

#[test]
fn disabled_commands_zero_whatever_the_window() {
    assert_eq!(scheduler_tick(false, 3, &t(23, 0), &t(22, 0), &t(6, 0)), 0);
    assert_eq!(scheduler_tick(false, 3, &t(12, 0), &t(22, 0), &t(6, 0)), 0);
}

#[test]
fn enabled_inside_window_commands_the_level() {
    assert_eq!(scheduler_tick(true, 3, &t(23, 0), &t(22, 0), &t(6, 0)), 3);
    assert_eq!(scheduler_tick(true, 1, &t(6, 59), &t(22, 0), &t(6, 0)), 1);
}

#[test]
fn enabled_outside_window_commands_zero() {
    assert_eq!(scheduler_tick(true, 3, &t(12, 0), &t(22, 0), &t(6, 0)), 0);
    assert_eq!(scheduler_tick(true, 3, &t(7, 0), &t(22, 0), &t(6, 0)), 0);
}
