//! A device as the file system shows it: a directory named after the
//! device, with one file for the brightness and one for its maximum.

use vstd::prelude::*;
use vstd::string::StringExecFns;
use crate::class::Class;
use crate::error::{Cause, CauseView, PathError, PathErrorView};
use crate::number::{read_brightness, spec_read_brightness, Brightness};
use crate::path::{
    file_name, is_plain_name, join, lemma_file_name_of_join, lemma_parent_of_join, names, parent,
    segment_start, spec_file_name, spec_join, spec_parent,
};
use crate::text::equal;

verus! {

/// What reading a file gave: its contents, or the message of the failure.
pub type FileRead = Result<String, String>;

/// A `FileRead` as a mathematical value.
pub open spec fn read_view(r: FileRead) -> Result<Seq<char>, Seq<char>> {
    match r {
        Ok(contents) => Ok(contents@),
        Err(message) => Err(message@),
    }
}

/// Why a directory is no device.
#[derive(Debug, PartialEq, Eq)]
pub struct Error(pub PathError);

impl View for Error {
    type V = PathErrorView;

    open spec fn view(&self) -> PathErrorView {
        self.0@
    }
}

impl DeepView for Error {
    type V = PathErrorView;

    open spec fn deep_view(&self) -> PathErrorView {
        self.0@
    }
}

impl From<PathError> for Error {
    fn from(value: PathError) -> (r: Self) {
        Error(value)
    }
}

impl vstd::std_specs::convert::FromSpecImpl<PathError> for Error {
    open spec fn obeys_from_spec() -> bool {
        true
    }

    open spec fn from_spec(value: PathError) -> Self {
        Error(value)
    }
}

/// A device whose brightness can be read and set.
#[derive(Debug, PartialEq, Eq)]
pub struct Device {
    /// The name of the device, the last name of its path.
    pub name: String,
    /// The directory of the device.
    pub path: String,
    pub class: Class,
    pub brightness: Brightness,
    pub max_brightness: Brightness,
}

/// A `Device` as a mathematical value.
pub struct DeviceView {
    pub name: Seq<char>,
    pub path: Seq<char>,
    pub class: Class,
    pub brightness: Brightness,
    pub max_brightness: Brightness,
}

impl View for Device {
    type V = DeviceView;

    open spec fn view(&self) -> DeviceView {
        DeviceView {
            name: self.name@,
            path: self.path@,
            class: self.class,
            brightness: self.brightness,
            max_brightness: self.max_brightness,
        }
    }
}

impl DeepView for Device {
    type V = DeviceView;

    open spec fn deep_view(&self) -> DeviceView {
        self@
    }
}

impl DeviceView {
    /// The brightness is within the device's range.
    pub open spec fn consistent(self) -> bool {
        self.brightness <= self.max_brightness
    }
}

/// The file that holds a device's brightness.
pub open spec fn spec_brightness_file(path: Seq<char>) -> Seq<char> {
    spec_join(path, "brightness"@)
}

/// The file that holds a device's greatest brightness.
pub open spec fn spec_max_brightness_file(path: Seq<char>) -> Seq<char> {
    spec_join(path, "max_brightness"@)
}

/// The class of the device at `path`: that of the directory which holds
/// it.
pub open spec fn spec_class_of(path: Seq<char>) -> Class {
    match spec_parent(path) {
        Some(dir) => Class::spec_from_directory(spec_file_name(dir)),
        None => Class::Backlight,
    }
}

/// The value in the file at `path`, given what reading the file gave. A
/// failed reading and contents that are no number are failures at `path`.
pub open spec fn spec_parse_brightness(
    path: Seq<char>,
    contents: Result<Seq<char>, Seq<char>>,
) -> Result<Brightness, PathErrorView> {
    match contents {
        Err(message) => Err(PathErrorView { cause: CauseView::Io(message), path }),
        Ok(text) => match spec_read_brightness(text) {
            Ok(value) => Ok(value),
            Err(e) => Err(PathErrorView { cause: CauseView::Parse(e), path }),
        },
    }
}

/// The device at `path`, given what reading its two files gave. The checks
/// come in this order: the path has a name; the brightness file was read and
/// holds a number; so for the file of the maximum; the brightness is no
/// greater than the maximum.
pub open spec fn spec_from_path(
    path: Seq<char>,
    brightness: Result<Seq<char>, Seq<char>>,
    max_brightness: Result<Seq<char>, Seq<char>>,
) -> Result<DeviceView, PathErrorView> {
    match spec_file_name(path) {
        None => Err(PathErrorView { cause: CauseView::NoName, path }),
        Some(name) => match spec_parse_brightness(spec_brightness_file(path), brightness) {
            Err(e) => Err(e),
            Ok(b) => match spec_parse_brightness(spec_max_brightness_file(path), max_brightness) {
                Err(e) => Err(e),
                Ok(m) => if b > m {
                    Err(
                        PathErrorView {
                            cause: CauseView::Integrity { brightness: b, max_brightness: m },
                            path,
                        },
                    )
                } else {
                    Ok(
                        DeviceView {
                            name,
                            path,
                            class: spec_class_of(path),
                            brightness: b,
                            max_brightness: m,
                        },
                    )
                },
            },
        },
    }
}

/// The file that holds the brightness of the device at `path`.
pub fn brightness_file(path: &str) -> (r: String)
    ensures
        r@ == spec_brightness_file(path@),
{
    join(path, "brightness")
}

/// The file that holds the greatest brightness of the device at `path`.
pub fn max_brightness_file(path: &str) -> (r: String)
    ensures
        r@ == spec_max_brightness_file(path@),
{
    join(path, "max_brightness")
}

/// The class of the device at `path`.
pub fn class_of(path: &str) -> (r: Class)
    ensures
        r == spec_class_of(path@),
{
    match parent(path) {
        None => Class::Backlight,
        Some(dir) => match file_name(dir.as_str()) {
            None => Class::Backlight,
            Some(name) => if equal(name.as_str(), "leds") {
                Class::Leds
            } else {
                Class::Backlight
            },
        },
    }
}

/// The value in the file at `path`, given what reading the file gave.
pub fn parse_brightness(path: &str, contents: &FileRead) -> (r: Result<Brightness, Error>)
    ensures
        match r {
            Ok(value) => spec_parse_brightness(path@, read_view(*contents)) == Ok::<
                Brightness,
                PathErrorView,
            >(value),
            Err(e) => spec_parse_brightness(path@, read_view(*contents)) == Err::<
                Brightness,
                PathErrorView,
            >(e@),
        },
{
    match contents {
        Err(message) => Err(
            Error(PathError::new(Cause::Io(message.clone()), String::from_str(path))),
        ),
        Ok(text) => match read_brightness(text.as_str()) {
            Ok(value) => Ok(value),
            Err(e) => Err(Error::from_parse_err(e, path)),
        },
    }
}

impl Error {
    fn from_no_name(path: &str) -> (r: Self)
        ensures
            r@ == (PathErrorView { cause: CauseView::NoName, path: path@ }),
    {
        Error(PathError::new(Cause::NoName, String::from_str(path)))
    }

    fn from_parse_err(err: crate::number::ParseError, path: &str) -> (r: Self)
        ensures
            r@ == (PathErrorView { cause: CauseView::Parse(err), path: path@ }),
    {
        Error(PathError::new(Cause::Parse(err), String::from_str(path)))
    }

    /// The words for the failure.
    pub fn message(&self) -> (r: String)
        ensures
            r@ == crate::error::path_error_text(self@),
    {
        self.0.message()
    }
}

impl Device {
    /// The device at `path`, given what reading its two files gave.
    pub fn from_path(path: &str, brightness: &FileRead, max_brightness: &FileRead) -> (r: Result<
        Device,
        Error,
    >)
        ensures
            match r {
                Ok(device) => spec_from_path(
                    path@,
                    read_view(*brightness),
                    read_view(*max_brightness),
                ) == Ok::<DeviceView, PathErrorView>(device@),
                Err(e) => spec_from_path(path@, read_view(*brightness), read_view(*max_brightness))
                    == Err::<DeviceView, PathErrorView>(e@),
            },
            r matches Ok(device) ==> device@.consistent(),
    {
        let name = match file_name(path) {
            Some(name) => name,
            None => {
                return Err(Error::from_no_name(path));
            },
        };
        let b = match parse_brightness(brightness_file(path).as_str(), brightness) {
            Ok(b) => b,
            Err(e) => {
                return Err(e);
            },
        };
        let m = match parse_brightness(max_brightness_file(path).as_str(), max_brightness) {
            Ok(m) => m,
            Err(e) => {
                return Err(e);
            },
        };
        if b > m {
            return Err(
                Error(
                    PathError::new(
                        Cause::Integrity { brightness: b, max_brightness: m },
                        String::from_str(path),
                    ),
                ),
            );
        }
        Ok(
            Device {
                name,
                path: String::from_str(path),
                class: class_of(path),
                brightness: b,
                max_brightness: m,
            },
        )
    }
}

/// The directory of a class is named after the class.
pub proof fn lemma_class_directory(class: Class)
    ensures
        spec_file_name(class.spec_prefix()) == Some(class.spec_label()),
        segment_start(class.spec_prefix(), class.spec_prefix().len() as int) == 11,
        class.spec_label().len() > 1,
{
    reveal_strlit("/sys/class/leds");
    reveal_strlit("/sys/class/backlight");
    reveal_strlit("leds");
    reveal_strlit("backlight");
    let p = class.spec_prefix();
    reveal_with_fuel(segment_start, 12);
    assert(segment_start(p, p.len() as int) == 11);
    assert(p.subrange(11, p.len() as int) =~= class.spec_label());
    assert(names(p).last() == class.spec_label());
}

/// An entry of the directory of a class, under a plain name, is taken for
/// a device of that class with that name.
pub proof fn lemma_class_of_entry(class: Class, name: Seq<char>)
    requires
        is_plain_name(name),
    ensures
        spec_class_of(spec_join(class.spec_prefix(), name)) == class,
        spec_file_name(spec_join(class.spec_prefix(), name)) == Some(name),
{
    let dir = class.spec_prefix();
    lemma_class_directory(class);
    assert(dir.subrange(11, dir.len() as int) =~= class.spec_label()) by {
        reveal_strlit("/sys/class/leds");
        reveal_strlit("/sys/class/backlight");
        reveal_strlit("leds");
        reveal_strlit("backlight");
    }
    lemma_parent_of_join(dir, name);
    lemma_file_name_of_join(dir, name);
    assert(class.spec_label() == "leds"@ <==> class == Class::Leds) by {
        reveal_strlit("leds");
        reveal_strlit("backlight");
    }
}

} // verus!
