use keyboard_controller::config::{Configuration, ConfigurationBuilder};
use keyboard_controller::daytime::Time;

#[test]
fn to_json_renders_the_stored_form() {
    let c = Configuration {
        enabled: true,
        backlighting_level: 2,
        start_time: Time { hours: 21, minutes: 0 },
        end_time: Time { hours: 7, minutes: 0 },
    };
    assert_eq!(
        c.to_json(),
        "{\"enabled\":true,\"backlighting_level\":2,\"start_time\":\"21:0\",\"end_time\":\"7:0\"}"
    );
}

#[test]
fn to_json_renders_defaults() {
    let c = ConfigurationBuilder::new().finalize();
    assert_eq!(
        c.to_json(),
        "{\"enabled\":false,\"backlighting_level\":0,\"start_time\":\"21:0\",\"end_time\":\"7:0\"}"
    );
}

#[test]
fn save_then_load_round_trips() {
    let c = Configuration {
        enabled: true,
        backlighting_level: 3,
        start_time: Time { hours: 22, minutes: 45 },
        end_time: Time { hours: 6, minutes: 30 },
    };
    assert_eq!(Configuration::from_text(c.to_json().as_str()), c);
}

#[test]
fn save_then_load_round_trips_odd_values() {
    let c = Configuration {
        enabled: false,
        backlighting_level: -7,
        start_time: Time { hours: -3, minutes: 99 },
        end_time: Time { hours: 2147483647, minutes: -2147483648 },
    };
    assert_eq!(Configuration::from_text(c.to_json().as_str()), c);
}

#[test]
fn builder_defaults_every_field() {
    let c = ConfigurationBuilder::new().finalize();
    assert_eq!(c.enabled, false);
    assert_eq!(c.backlighting_level, 0);
    assert_eq!(c.start_time, Time { hours: 21, minutes: 0 });
    assert_eq!(c.end_time, Time { hours: 7, minutes: 0 });
}

#[test]
fn builder_overrides_only_what_is_set() {
    let c = ConfigurationBuilder::new()
        .enabled(true)
        .backlight_level(2)
        .start_time(Time { hours: 23, minutes: 15 })
        .end_time(Time { hours: 5, minutes: 45 })
        .finalize();
    assert_eq!(c.enabled, true);
    assert_eq!(c.backlighting_level, 2);
    assert_eq!(c.start_time, Time { hours: 23, minutes: 15 });
    assert_eq!(c.end_time, Time { hours: 5, minutes: 45 });

    let d = ConfigurationBuilder::new().backlight_level(9).finalize();
    assert_eq!(d.enabled, false);
    assert_eq!(d.backlighting_level, 9);
    assert_eq!(d.start_time, Time { hours: 21, minutes: 0 });
    assert_eq!(d.end_time, Time { hours: 7, minutes: 0 });
}
