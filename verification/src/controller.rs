//! Setting the brightness of a device, through the session service where
//! one was reached and by writing the device's file where none was.
//!
//! The controller decides what is to be done and what follows from the
//! result; carrying out a request is left to the caller.

use vstd::prelude::*;
use crate::class::Class;
use crate::device::{brightness_file, spec_brightness_file, Device, DeviceView};
use crate::error::{path_error_text, Cause, CauseView, PathError, PathErrorView};
use crate::number::{
    decimal, decimal_text, lemma_decimal_round_trip, spec_read_brightness, Brightness,
};

verus! {

/// Why the brightness was not set.
#[derive(Debug, PartialEq, Eq)]
pub enum Error {
    /// Writing the device's file failed.
    IO(PathError),
    /// The session service was reached and refused; its message is kept.
    DBus(String),
}

/// A controller `Error` as a mathematical value.
pub enum ErrorView {
    IO(PathErrorView),
    DBus(Seq<char>),
}

impl View for Error {
    type V = ErrorView;

    open spec fn view(&self) -> ErrorView {
        match *self {
            Error::IO(e) => ErrorView::IO(e@),
            Error::DBus(message) => ErrorView::DBus(message@),
        }
    }
}

impl From<PathError> for Error {
    fn from(value: PathError) -> (r: Self) {
        Error::IO(value)
    }
}

impl vstd::std_specs::convert::FromSpecImpl<PathError> for Error {
    open spec fn obeys_from_spec() -> bool {
        true
    }

    open spec fn from_spec(value: PathError) -> Self {
        Error::IO(value)
    }
}

/// What is to be done to set a brightness.
#[derive(Debug, PartialEq, Eq)]
pub enum Request {
    /// Ask the session service to set the brightness of the named device.
    Session { class: Class, name: String, brightness: u32 },
    /// Write `contents` to the file at `path`.
    Write { path: String, contents: String },
}

/// A `Request` as a mathematical value.
pub enum RequestView {
    Session { class: Class, name: Seq<char>, brightness: u32 },
    Write { path: Seq<char>, contents: Seq<char> },
}

impl View for Request {
    type V = RequestView;

    open spec fn view(&self) -> RequestView {
        match *self {
            Request::Session { class, name, brightness } => RequestView::Session {
                class,
                name: name@,
                brightness,
            },
            Request::Write { path, contents } => RequestView::Write {
                path: path@,
                contents: contents@,
            },
        }
    }
}

/// What carrying out a request gave.
#[derive(Debug, PartialEq, Eq)]
pub enum Outcome {
    /// The brightness is set.
    Done,
    /// The request failed, with this message.
    Failed(String),
}

/// The brightness that is set when `value` is asked of a device whose
/// greatest brightness is `max_brightness`.
pub open spec fn applied(value: Brightness, max_brightness: Brightness) -> Brightness {
    if value <= max_brightness {
        value
    } else {
        max_brightness
    }
}

/// What is to be done to set the brightness of `device` to `value`.
pub open spec fn spec_request(session: bool, device: DeviceView, value: Brightness) -> RequestView {
    let brightness = applied(value, device.max_brightness);
    if session {
        RequestView::Session {
            class: device.class,
            name: device.name,
            brightness: brightness as u32,
        }
    } else {
        RequestView::Write {
            path: spec_brightness_file(device.path),
            contents: decimal(brightness as nat),
        }
    }
}

/// The failure that a message stands for, by the way that was taken.
pub open spec fn spec_failure(session: bool, device: DeviceView, message: Seq<char>) -> ErrorView {
    if session {
        ErrorView::DBus(message)
    } else {
        ErrorView::IO(
            PathErrorView {
                cause: CauseView::Io(message),
                path: spec_brightness_file(device.path),
            },
        )
    }
}

/// The brightness that a request sets: the number handed to the session
/// service, or the number that the device reads from what is written.
pub open spec fn requested_brightness(r: RequestView) -> Result<int, crate::number::ParseError> {
    match r {
        RequestView::Session { brightness, .. } => Ok(brightness as int),
        RequestView::Write { contents, .. } => match spec_read_brightness(contents) {
            Ok(value) => Ok(value as int),
            Err(e) => Err(e),
        },
    }
}

/// The words for a failure.
pub open spec fn error_text(e: ErrorView) -> Seq<char> {
    match e {
        ErrorView::IO(e) => path_error_text(e),
        ErrorView::DBus(message) => message,
    }
}

/// Whatever brightness is asked for, the one that a request sets is the
/// lesser of it and the device's greatest brightness.
pub proof fn lemma_request_within_range(session: bool, device: DeviceView, value: Brightness)
    ensures
        requested_brightness(spec_request(session, device, value)) == Ok::<
            int,
            crate::number::ParseError,
        >(applied(value, device.max_brightness) as int),
        applied(value, device.max_brightness) <= device.max_brightness,
        applied(value, device.max_brightness) <= value,
{
    lemma_decimal_round_trip(applied(value, device.max_brightness));
}

/// Sets the brightness of devices.
#[derive(Debug, PartialEq, Eq)]
pub struct Controller {
    session: bool,
}

impl Controller {
    /// The controller goes through the session service.
    pub closed spec fn uses_session(&self) -> bool {
        self.session
    }

    /// A controller that goes through the session service if `session`
    /// says that the service was reached, and writes the device's file if
    /// not.
    pub fn new(session: bool) -> (r: Self)
        ensures
            r.uses_session() == session,
    {
        Controller { session }
    }

    /// Whether the controller goes through the session service.
    pub fn session(&self) -> (r: bool)
        ensures
            r == self.uses_session(),
    {
        self.session
    }

    /// What is to be done to set the brightness of `device` to `value`, or
    /// to the device's greatest brightness if `value` is above it.
    pub fn request(&self, device: &Device, value: Brightness) -> (r: Request)
        ensures
            r@ == spec_request(self.uses_session(), device@, value),
    {
        let brightness = if value <= device.max_brightness {
            value
        } else {
            device.max_brightness
        };
        if self.session {
            Request::Session {
                class: device.class,
                name: device.name.clone(),
                brightness: brightness as u32,
            }
        } else {
            Request::Write {
                path: brightness_file(device.path.as_str()),
                contents: decimal_text(brightness as u32),
            }
        }
    }

    /// Takes note of what carrying out the request for `value` gave. Where
    /// it is done the device has the brightness that was set, which is
    /// returned; where it failed the device is as before and the failure is
    /// returned.
    pub fn set_brightness(&self, device: &mut Device, value: Brightness, outcome: Outcome) -> (r:
        Result<Brightness, Error>)
        ensures
            match outcome {
                Outcome::Done => {
                    &&& r == Ok::<Brightness, Error>(applied(value, old(device).max_brightness))
                    &&& final(device)@ == (DeviceView {
                        brightness: applied(value, old(device).max_brightness),
                        ..old(device)@
                    })
                    &&& final(device)@.consistent()
                },
                Outcome::Failed(message) => {
                    &&& final(device)@ == old(device)@
                    &&& r matches Err(e)
                    &&& e@ == spec_failure(self.uses_session(), old(device)@, message@)
                },
            },
    {
        match outcome {
            Outcome::Done => {
                let brightness = if value <= device.max_brightness {
                    value
                } else {
                    device.max_brightness
                };
                device.brightness = brightness;
                Ok(brightness)
            },
            Outcome::Failed(message) => {
                if self.session {
                    Err(Error::DBus(message))
                } else {
                    let path = brightness_file(device.path.as_str());
                    Err(Error::from(PathError::new(Cause::Io(message), path)))
                }
            },
        }
    }
}

impl Error {
    /// The words for the failure.
    pub fn message(&self) -> (r: String)
        ensures
            r@ == error_text(self@),
    {
        match self {
            Error::IO(e) => e.message(),
            Error::DBus(message) => message.clone(),
        }
    }
}

} // verus!
