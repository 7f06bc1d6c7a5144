use keyboard_controller::daytime::{is_night_time, IsBetween, Time};

fn t(hours: i32, minutes: i32) -> Time {
    Time { hours, minutes }
}

#[test]
fn same_day_start_boundary_checks_start_minute() {
    // At the start hour of a later-ending window only the lower minute
    // bound is consulted.
    assert!(is_night_time(&t(9, 0), &t(9, 0), &t(17, 0)));
    assert!(is_night_time(&t(9, 59), &t(9, 30), &t(17, 0)));
    assert!(!is_night_time(&t(9, 29), &t(9, 30), &t(17, 0)));
}

#[test]
fn same_day_end_boundary_checks_end_minute() {
    assert!(is_night_time(&t(17, 0), &t(9, 0), &t(17, 0)));
    assert!(is_night_time(&t(17, 30), &t(9, 0), &t(17, 30)));
    assert!(!is_night_time(&t(17, 31), &t(9, 0), &t(17, 30)));
}

#[test]
fn same_day_mid_window_uses_minute_fallback() {
    // The fallback branch compares the minute against both bounds even
    // in the middle of the window: at noon a 9:00..17:00 window contains
    // minute 0 (0 >= 0 && 0 <= 0) but not minute 1 (1 <= 0 fails),
    // exactly as the branch logic has it.
    assert!(!is_night_time(&t(12, 1), &t(9, 0), &t(17, 0)));
    assert!(is_night_time(&t(12, 0), &t(9, 0), &t(17, 0)));
    assert!(is_night_time(&t(12, 15), &t(9, 10), &t(17, 20)));
    assert!(!is_night_time(&t(12, 25), &t(9, 10), &t(17, 20)));
}

#[test]
fn same_day_outside_hours_still_uses_minute_fallback() {
    // Hours entirely outside the window also fall through to the minute
    // comparison, kept as the branch logic has it.
    assert!(is_night_time(&t(20, 15), &t(9, 10), &t(17, 20)));
    assert!(!is_night_time(&t(20, 5), &t(9, 10), &t(17, 20)));
}

#[test]
fn wrapping_window_late_evening_is_inside() {
    assert!(is_night_time(&t(23, 30), &t(22, 0), &t(6, 0)));
}

#[test]
fn wrapping_window_noon_is_outside() {
    assert!(!is_night_time(&t(12, 0), &t(22, 0), &t(6, 0)));
}

#[test]
fn wrapping_window_end_hour_ignores_minutes() {
    assert!(is_night_time(&t(6, 0), &t(22, 0), &t(6, 0)));
    assert!(is_night_time(&t(6, 59), &t(22, 0), &t(6, 0)));
    assert!(!is_night_time(&t(7, 0), &t(22, 0), &t(6, 0)));
}

#[test]
fn trait_method_matches_free_function() {
    let now = t(23, 30);
    assert_eq!(
        now.is_between(&t(22, 0), &t(6, 0)),
        is_night_time(&now, &t(22, 0), &t(6, 0))
    );
}
