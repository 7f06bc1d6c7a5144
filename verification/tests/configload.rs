use keyboard_controller::config::{get_configuration, Configuration};
use keyboard_controller::daytime::Time;

fn defaults() -> Configuration {
    Configuration {
        enabled: false,
        backlighting_level: 0,
        start_time: Time { hours: 21, minutes: 0 },
        end_time: Time { hours: 7, minutes: 0 },
    }
}

#[test]
fn unreadable_store_gives_full_defaults() {
    assert_eq!(get_configuration(None), defaults());
}

#[test]
fn empty_file_gives_full_defaults() {
    assert_eq!(get_configuration(Some("")), defaults());
}

#[test]
fn corrupt_file_gives_full_defaults() {
    assert_eq!(get_configuration(Some("not a configuration")), defaults());
    assert_eq!(get_configuration(Some("{\"enabled\":true")), defaults());
    assert_eq!(get_configuration(Some("[1,2,3]")), defaults());
}

#[test]
fn well_formed_file_is_decoded() {
    let text = "{\"enabled\":true,\"backlighting_level\":2,\"start_time\":\"22:30\",\"end_time\":\"6:15\"}";
    let c = get_configuration(Some(text));
    assert_eq!(
        c,
        Configuration {
            enabled: true,
            backlighting_level: 2,
            start_time: Time { hours: 22, minutes: 30 },
            end_time: Time { hours: 6, minutes: 15 },
        }
    );
}

#[test]
fn empty_object_defaults_each_field_to_zero() {
    // An object with no keys decodes, so each field falls back on its
    // own: flag off, level zero, both times the zero time.
    let c = get_configuration(Some("{}"));
    assert_eq!(
        c,
        Configuration {
            enabled: false,
            backlighting_level: 0,
            start_time: Time { hours: 0, minutes: 0 },
            end_time: Time { hours: 0, minutes: 0 },
        }
    );
}

#[test]
fn missing_time_keys_fall_back_to_zero_time() {
    let c = get_configuration(Some("{\"enabled\":true,\"backlighting_level\":3}"));
    assert_eq!(
        c,
        Configuration {
            enabled: true,
            backlighting_level: 3,
            start_time: Time { hours: 0, minutes: 0 },
            end_time: Time { hours: 0, minutes: 0 },
        }
    );
}

#[test]
fn wrongly_typed_field_falls_back_alone() {
    let text = "{\"enabled\":true,\"backlighting_level\":\"high\",\"start_time\":\"1:2\",\"end_time\":\"3:4\"}";
    let c = get_configuration(Some(text));
    assert_eq!(
        c,
        Configuration {
            enabled: true,
            backlighting_level: 0,
            start_time: Time { hours: 1, minutes: 2 },
            end_time: Time { hours: 3, minutes: 4 },
        }
    );
}

#[test]
fn fractional_level_is_not_an_integer() {
    let text = "{\"enabled\":true,\"backlighting_level\":1.5,\"start_time\":\"1:2\",\"end_time\":\"3:4\"}";
    let c = get_configuration(Some(text));
    assert_eq!(c.enabled, true);
    assert_eq!(c.backlighting_level, 0);
    assert_eq!(c.start_time, Time { hours: 1, minutes: 2 });
}

#[test]
fn malformed_time_string_defaults_per_field() {
    let text = "{\"start_time\":\"bad\",\"end_time\":\"7:x\"}";
    let c = get_configuration(Some(text));
    assert_eq!(c.start_time, Time { hours: 0, minutes: 0 });
    assert_eq!(c.end_time, Time { hours: 7, minutes: 0 });
}

#[test]
fn oversized_level_is_not_an_integer() {
    let text = "{\"backlighting_level\":99999999999,\"enabled\":true}";
    let c = get_configuration(Some(text));
    assert_eq!(c.backlighting_level, 0);
    assert_eq!(c.enabled, true);
}

#[test]
fn negative_level_is_kept() {
    let c = get_configuration(Some("{\"backlighting_level\":-4}"));
    assert_eq!(c.backlighting_level, -4);
}

#[test]
fn later_duplicate_key_wins() {
    let text = "{\"backlighting_level\":1,\"backlighting_level\":2}";
    let c = get_configuration(Some(text));
    assert_eq!(c.backlighting_level, 2);
}

#[test]
fn unknown_keys_are_ignored() {
    let text = "{\"theme\":\"dark\",\"enabled\":true,\"end_time\":\"6:0\"}";
    let c = get_configuration(Some(text));
    assert_eq!(c.enabled, true);
    assert_eq!(c.backlighting_level, 0);
    assert_eq!(c.end_time, Time { hours: 6, minutes: 0 });
}

#[test]
fn trailing_text_after_object_is_corrupt() {
    assert_eq!(get_configuration(Some("{\"enabled\":true}x")), defaults());
}
