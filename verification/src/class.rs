//! The classes of devices and the directories that list them.

use vstd::prelude::*;

verus! {

/// A kind of device whose brightness can be set.
#[derive(Debug, Clone, Copy, PartialEq, Eq, Structural)]
pub enum Class {
    /// Indicator lights.
    Leds,
    /// Display backlights.
    Backlight,
}

impl Class {
    /// The directory whose entries are the devices of the class.
    pub open spec fn spec_prefix(self) -> Seq<char> {
        match self {
            Class::Leds => "/sys/class/leds"@,
            Class::Backlight => "/sys/class/backlight"@,
        }
    }

    /// The name of the class, which is also the name of its directory.
    pub open spec fn spec_label(self) -> Seq<char> {
        match self {
            Class::Leds => "leds"@,
            Class::Backlight => "backlight"@,
        }
    }

    /// The class whose directory has the given name, the backlights for any
    /// name but `leds`.
    pub open spec fn spec_from_directory(name: Option<Seq<char>>) -> Class {
        if name == Some("leds"@) {
            Class::Leds
        } else {
            Class::Backlight
        }
    }

    /// The directory whose entries are the devices of the class.
    pub fn prefix(self) -> (r: &'static str)
        ensures
            r@ == self.spec_prefix(),
    {
        match self {
            Class::Leds => "/sys/class/leds",
            Class::Backlight => "/sys/class/backlight",
        }
    }

    /// The name of the class.
    pub fn label(self) -> (r: &'static str)
        ensures
            r@ == self.spec_label(),
    {
        match self {
            Class::Leds => "leds",
            Class::Backlight => "backlight",
        }
    }
}

} // verus!
