use keyboard_controller::daytime::Time;

#[test]
fn to_string_is_compact() {
    assert_eq!(Time { hours: 9, minutes: 5 }.to_string(), "9:5");
    assert_eq!(Time { hours: 21, minutes: 0 }.to_string(), "21:0");
    assert_eq!(Time { hours: 0, minutes: 0 }.to_string(), "0:0");
    assert_eq!(Time { hours: -1, minutes: 30 }.to_string(), "-1:30");
}

#[test]
fn from_string_round_trips_well_formed_times() {
    let t = Time { hours: 9, minutes: 5 };
    assert_eq!(Time::from_string(t.to_string()), t);
    let u = Time { hours: 23, minutes: 59 };
    assert_eq!(Time::from_string(u.to_string()), u);
}

#[test]
fn from_string_without_colon_gives_zero_time() {
    assert_eq!(Time::from_string("bad".to_string()), Time { hours: 0, minutes: 0 });
    assert_eq!(Time::from_string("".to_string()), Time { hours: 0, minutes: 0 });
}

#[test]
fn from_string_with_too_many_fields_gives_zero_time() {
    assert_eq!(Time::from_string("1:2:3".to_string()), Time { hours: 0, minutes: 0 });
    assert_eq!(Time::from_string("::".to_string()), Time { hours: 0, minutes: 0 });
}

#[test]
fn from_string_defaults_each_field_on_its_own() {
    assert_eq!(Time::from_string("9:bad".to_string()), Time { hours: 9, minutes: 0 });
    assert_eq!(Time::from_string("bad:5".to_string()), Time { hours: 0, minutes: 5 });
}

#[test]
fn from_string_accepts_signs_and_leading_zeros() {
    assert_eq!(Time::from_string("007:09".to_string()), Time { hours: 7, minutes: 9 });
    assert_eq!(Time::from_string("+5:6".to_string()), Time { hours: 5, minutes: 6 });
    assert_eq!(Time::from_string("-1:0".to_string()), Time { hours: -1, minutes: 0 });
}

#[test]
fn from_string_zeroes_fields_too_large_for_the_type() {
    assert_eq!(
        Time::from_string("99999999999:30".to_string()),
        Time { hours: 0, minutes: 30 }
    );
    assert_eq!(
        Time::from_string("2147483647:-2147483648".to_string()),
        Time { hours: 2147483647, minutes: -2147483648 }
    );
    assert_eq!(
        Time::from_string("2147483648:1".to_string()),
        Time { hours: 0, minutes: 1 }
    );
}
