use keylight::error::DeviceError;
use keylight::light::{
    adjust_brightness, first_light, limit_temperature, Light, Operation, MAX_BRIGHTNESS,
    MAX_TEMPERATURE, MIN_TEMPERATURE,
};

fn light(on: u8, brightness: u8, temperature: u16) -> Light {
    Light { on, brightness, temperature }
}

#[test]
fn brightness_saturates_at_the_top() {
    assert_eq!(adjust_brightness(95, 20), 100);
    assert_eq!(adjust_brightness(100, 1), 100);
    assert_eq!(adjust_brightness(100, 127), 100);
    assert_eq!(adjust_brightness(255, 127), 100);
    assert_eq!(adjust_brightness(200, -50), 100);
}

#[test]
fn brightness_saturates_at_the_bottom() {
    assert_eq!(adjust_brightness(5, -20), 0);
    assert_eq!(adjust_brightness(0, -1), 0);
    assert_eq!(adjust_brightness(0, -128), 0);
    assert_eq!(adjust_brightness(100, -128), 0);
}

#[test]
fn brightness_within_the_range_is_the_sum() {
    assert_eq!(adjust_brightness(50, 20), 70);
    assert_eq!(adjust_brightness(50, -20), 30);
    assert_eq!(adjust_brightness(0, 100), 100);
    assert_eq!(adjust_brightness(100, -100), 0);
    assert_eq!(adjust_brightness(10, 0), 10);
    assert_eq!(adjust_brightness(228, -128), 100);
    assert_eq!(adjust_brightness(227, -128), 99);
}

#[test]
fn temperature_is_held_within_the_range_of_the_device() {
    assert_eq!((MIN_TEMPERATURE, MAX_TEMPERATURE, MAX_BRIGHTNESS), (143, 344, 100));
    assert_eq!(limit_temperature(0), 143);
    assert_eq!(limit_temperature(142), 143);
    assert_eq!(limit_temperature(143), 143);
    assert_eq!(limit_temperature(200), 200);
    assert_eq!(limit_temperature(344), 344);
    assert_eq!(limit_temperature(345), 344);
    assert_eq!(limit_temperature(u16::MAX), 344);
}

#[test]
fn switching_on_sets_everything() {
    let on = Operation::On { brightness: 10, temperature: 290 };
    assert_eq!(on.apply(light(0, 77, 150)), light(1, 10, 290));
    assert_eq!(on.fixed(), Some(light(1, 10, 290)));
    let bright = Operation::On { brightness: 250, temperature: 9000 };
    assert_eq!(bright.apply(light(1, 1, 200)), light(1, 100, 344));
    assert_eq!(bright.fixed(), Some(light(1, 100, 344)));
}

#[test]
fn switching_off_keeps_the_rest() {
    assert_eq!(Operation::Off.apply(light(1, 40, 200)), light(0, 40, 200));
    assert_eq!(Operation::Off.apply(light(0, 40, 200)), light(0, 40, 200));
    assert_eq!(Operation::Off.fixed(), None);
}

#[test]
fn changing_brightness_switches_on() {
    let up = Operation::Brightness { delta: 20 };
    assert_eq!(up.apply(light(0, 95, 200)), light(1, 100, 200));
    assert_eq!(up.apply(light(1, 30, 200)), light(1, 50, 200));
    assert_eq!(Operation::Brightness { delta: -40 }.apply(light(0, 30, 200)), light(1, 0, 200));
    assert_eq!(up.fixed(), None);
}

#[test]
fn changing_temperature_switches_on() {
    let warm = Operation::Temperature { temperature: 300 };
    assert_eq!(warm.apply(light(0, 30, 200)), light(1, 30, 300));
    assert_eq!(Operation::Temperature { temperature: 10 }.apply(light(1, 30, 200)), light(1, 30, 143));
    assert_eq!(warm.fixed(), None);
}

#[test]
fn asking_for_the_status_changes_nothing() {
    assert_eq!(Operation::Status.apply(light(0, 30, 200)), light(0, 30, 200));
    assert!(!Operation::Status.is_change());
    assert!(Operation::Off.is_change());
    assert!(Operation::On { brightness: 1, temperature: 200 }.is_change());
    assert!(Operation::Brightness { delta: 0 }.is_change());
    assert!(Operation::Temperature { temperature: 200 }.is_change());
    assert_eq!(Operation::Status.fixed(), None);
}

#[test]
fn the_first_light_of_a_document_counts() {
    assert_eq!(first_light(&vec![]), Err(DeviceError::EmptyResponse));
    assert_eq!(first_light(&vec![light(1, 2, 3)]), Ok(light(1, 2, 3)));
    assert_eq!(first_light(&vec![light(1, 2, 3), light(0, 5, 6)]), Ok(light(1, 2, 3)));
    assert!(light(1, 2, 3).is_on());
    assert!(light(255, 2, 3).is_on());
    assert!(!light(0, 2, 3).is_on());
}
