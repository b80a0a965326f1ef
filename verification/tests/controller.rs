use brightctl::class::Class;
use brightctl::controller::{Controller, Error, Outcome, Request};
use brightctl::device::Device;
use brightctl::error::{Cause, PathError};
use brightctl::number::read_brightness;

fn backlight(brightness: u16, max_brightness: u16) -> Device {
    Device {
        name: "intel_backlight".to_string(),
        path: "/sys/class/backlight/intel_backlight".to_string(),
        class: Class::Backlight,
        brightness,
        max_brightness,
    }
}

#[test]
fn a_controller_remembers_its_way() {
    assert!(Controller::new(true).session());
    assert!(!Controller::new(false).session());
}

#[test]
fn without_the_service_the_file_is_written() {
    let controller = Controller::new(false);
    assert_eq!(
        controller.request(&backlight(10, 100), 16),
        Request::Write {
            path: "/sys/class/backlight/intel_backlight/brightness".to_string(),
            contents: "16".to_string(),
        }
    );
}

#[test]
fn with_the_service_the_service_is_asked() {
    let controller = Controller::new(true);
    assert_eq!(
        controller.request(&backlight(10, 100), 16),
        Request::Session {
            class: Class::Backlight,
            name: "intel_backlight".to_string(),
            brightness: 16,
        }
    );
}

#[test]
fn never_more_than_the_maximum_is_asked_for() {
    for session in [false, true] {
        let controller = Controller::new(session);
        for max_brightness in [0u16, 1, 100, 255, 65535] {
            for value in [0u16, 1, 99, 100, 101, 256, 65535] {
                let expected = value.min(max_brightness);
                match controller.request(&backlight(0, max_brightness), value) {
                    Request::Session { brightness, .. } => assert_eq!(brightness, expected as u32),
                    Request::Write { contents, .. } => {
                        assert_eq!(contents, expected.to_string());
                        assert_eq!(read_brightness(&contents), Ok(expected));
                    }
                }
            }
        }
    }
}

#[test]
fn the_device_has_what_was_set_not_what_was_asked() {
    let controller = Controller::new(false);
    let mut device = backlight(10, 100);
    assert_eq!(controller.set_brightness(&mut device, 250, Outcome::Done), Ok(100));
    assert_eq!(device, backlight(100, 100));
    assert_eq!(controller.set_brightness(&mut device, 60, Outcome::Done), Ok(60));
    assert_eq!(device, backlight(60, 100));
    assert_eq!(Controller::new(true).set_brightness(&mut device, 0, Outcome::Done), Ok(0));
    assert_eq!(device, backlight(0, 100));
}

#[test]
fn a_failed_write_names_the_file() {
    let controller = Controller::new(false);
    let mut device = backlight(10, 100);
    let result = controller.set_brightness(
        &mut device,
        20,
        Outcome::Failed("Permission denied (os error 13)".to_string()),
    );
    let expected = Error::IO(PathError::new(
        Cause::Io("Permission denied (os error 13)".to_string()),
        "/sys/class/backlight/intel_backlight/brightness".to_string(),
    ));
    assert_eq!(result.as_ref(), Err(&expected));
    assert_eq!(device, backlight(10, 100));
    assert_eq!(
        expected.message(),
        "Permission denied (os error 13): \"/sys/class/backlight/intel_backlight/brightness\""
    );
}

#[test]
fn a_refusal_of_the_service_is_handed_on() {
    let controller = Controller::new(true);
    let mut device = backlight(10, 100);
    let result = controller.set_brightness(
        &mut device,
        20,
        Outcome::Failed("org.freedesktop.DBus.Error.AccessDenied".to_string()),
    );
    let expected = Error::DBus("org.freedesktop.DBus.Error.AccessDenied".to_string());
    assert_eq!(result.as_ref(), Err(&expected));
    assert_eq!(device, backlight(10, 100));
    assert_eq!(expected.message(), "org.freedesktop.DBus.Error.AccessDenied");
}

#[test]
fn a_failure_at_a_path_is_a_failure_to_set() {
    let failure = || PathError::new(Cause::Io("gone".to_string()), "/f".to_string());
    assert_eq!(Error::from(failure()), Error::IO(failure()));
}
