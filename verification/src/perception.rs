//! Brightness as it is perceived. A percentage and a raw brightness are
//! related by a logarithmic curve, so that equal steps of the percentage
//! look like equal steps to the eye. The points of the curve are handed
//! in; this module holds what is decided about them: when the curve is not
//! consulted at all, and what becomes of a point of it.

use vstd::prelude::*;
use crate::number::Brightness;
use crate::percent::{is_percent, is_zero, lemma_percent_patterns, Percent, HUNDRED};

verus! {

/// How the percentage of a raw brightness is obtained.
#[derive(Debug, Clone, Copy, PartialEq, Eq, Structural)]
pub enum PercentRule {
    /// It is 0.
    Zero,
    /// It is 100.
    Full,
    /// It is 100 times the logarithm of the brightness to the base of the
    /// greatest brightness.
    Logarithm,
}

/// How the raw brightness for a percentage is obtained.
#[derive(Debug, Clone, Copy, PartialEq, Eq, Structural)]
pub enum BrightnessRule {
    /// It is 0.
    Zero,
    /// It is the greatest brightness raised to the hundredth part of the
    /// percentage, rounded.
    Power,
}

/// The rule for the percentage of `brightness`. No brightness is 0 percent.
/// A device whose greatest brightness is at most 1 has a single step, and
/// is at 100 percent once its brightness has reached that greatest value.
pub open spec fn spec_percent_rule(
    brightness: Brightness,
    max_brightness: Brightness,
) -> PercentRule {
    if brightness == 0 {
        PercentRule::Zero
    } else if max_brightness <= 1 {
        if brightness < max_brightness {
            PercentRule::Zero
        } else {
            PercentRule::Full
        }
    } else {
        PercentRule::Logarithm
    }
}

/// The rule for the brightness of a percentage: 0 for 0 percent and for a
/// device whose greatest brightness is 0.
pub open spec fn spec_brightness_rule(
    percent_is_zero: bool,
    max_brightness: Brightness,
) -> BrightnessRule {
    if percent_is_zero || max_brightness == 0 {
        BrightnessRule::Zero
    } else {
        BrightnessRule::Power
    }
}

/// The raw brightness nearest to a whole number: the number itself where it
/// is one, else the end of the range on its side.
pub open spec fn spec_saturate(rounded: int) -> Brightness {
    if rounded < 0 {
        0
    } else if rounded > Brightness::MAX {
        Brightness::MAX
    } else {
        rounded as Brightness
    }
}

/// The raw brightness for a percentage, where `power` is the greatest
/// brightness raised to the hundredth part of the percentage and rounded.
pub open spec fn spec_brightness_from_percent(
    percent: u32,
    max_brightness: Brightness,
    power: int,
) -> Brightness {
    match spec_brightness_rule(is_zero(percent), max_brightness) {
        BrightnessRule::Zero => 0,
        BrightnessRule::Power => spec_saturate(power),
    }
}

/// The pattern of the percentage for a raw brightness, where `logarithm`
/// is the pattern of 100 times the logarithm of the brightness to the base
/// of the greatest brightness. There is none where the rule asks for the
/// logarithm and what is handed in is no percentage.
pub open spec fn spec_brightness_to_percent(
    brightness: Brightness,
    max_brightness: Brightness,
    logarithm: u32,
) -> Option<u32> {
    match spec_percent_rule(brightness, max_brightness) {
        PercentRule::Zero => Some(0u32),
        PercentRule::Full => Some(HUNDRED),
        PercentRule::Logarithm => if is_percent(logarithm) {
            Some(logarithm)
        } else {
            None
        },
    }
}

/// The rule for the percentage of `brightness`.
pub fn percent_rule(brightness: Brightness, max_brightness: Brightness) -> (r: PercentRule)
    ensures
        r == spec_percent_rule(brightness, max_brightness),
        brightness == 0 ==> r == PercentRule::Zero,
        max_brightness == 1 && brightness >= 1 ==> r == PercentRule::Full,
        r == PercentRule::Logarithm <==> brightness >= 1 && max_brightness > 1,
{
    if brightness == 0 {
        PercentRule::Zero
    } else if max_brightness <= 1 {
        if brightness < max_brightness {
            PercentRule::Zero
        } else {
            PercentRule::Full
        }
    } else {
        PercentRule::Logarithm
    }
}

/// The rule for the brightness of a percentage, of which only this is
/// asked: whether it is 0.
pub fn brightness_rule(percent_is_zero: bool, max_brightness: Brightness) -> (r: BrightnessRule)
    ensures
        r == spec_brightness_rule(percent_is_zero, max_brightness),
        percent_is_zero ==> r == BrightnessRule::Zero,
        max_brightness == 0 ==> r == BrightnessRule::Zero,
{
    if percent_is_zero || max_brightness == 0 {
        BrightnessRule::Zero
    } else {
        BrightnessRule::Power
    }
}

/// The raw brightness nearest to `rounded`.
pub fn saturate(rounded: i64) -> (r: Brightness)
    ensures
        r == spec_saturate(rounded as int),
        0 <= rounded <= Brightness::MAX ==> r == rounded,
{
    if rounded < 0 {
        0
    } else if rounded > 65535 {
        65535
    } else {
        rounded as Brightness
    }
}

/// The raw brightness for `percent`, where `power` is the greatest
/// brightness raised to the hundredth part of the percentage and rounded.
/// The power counts only where the percentage is not 0 and the device has
/// a range, and is cut to the range of a brightness.
pub fn brightness_from_percent(percent: &Percent, max_brightness: Brightness, power: i64) -> (r:
    Brightness)
    ensures
        r == spec_brightness_from_percent(percent@, max_brightness, power as int),
        is_zero(percent@) ==> r == 0,
        max_brightness == 0 ==> r == 0,
{
    match brightness_rule(percent.is_zero(), max_brightness) {
        BrightnessRule::Zero => 0,
        BrightnessRule::Power => saturate(power),
    }
}

/// The percentage for `brightness`, where `logarithm` is the pattern of
/// 100 times the logarithm of the brightness to the base of the greatest
/// brightness. The logarithm counts only where the brightness is not 0 and
/// the device has more than one step; there is no percentage where it
/// counts and is none.
pub fn brightness_to_percent(
    brightness: Brightness,
    max_brightness: Brightness,
    logarithm: u32,
) -> (r: Option<Percent>)
    ensures
        match r {
            Some(p) => spec_brightness_to_percent(brightness, max_brightness, logarithm) == Some(
                p@,
            ),
            None => spec_brightness_to_percent(brightness, max_brightness, logarithm) is None,
        },
        brightness == 0 ==> r is Some && r->Some_0@ == 0,
        max_brightness <= 1 && brightness >= 1 ==> r is Some && r->Some_0@ == HUNDRED,
{
    match percent_rule(brightness, max_brightness) {
        PercentRule::Zero => Some(Percent::min()),
        PercentRule::Full => Some(Percent::max()),
        PercentRule::Logarithm => Percent::new(logarithm),
    }
}

/// No percent is no brightness, whatever the device; and a device without
/// a range has no brightness, whatever the percentage.
pub proof fn lemma_no_brightness(percent: u32, max_brightness: Brightness, power: int)
    requires
        is_zero(percent) || max_brightness == 0,
    ensures
        spec_brightness_from_percent(percent, max_brightness, power) == 0,
{
}

/// No brightness is 0 percent, whatever the device.
pub proof fn lemma_no_percent(max_brightness: Brightness, logarithm: u32)
    ensures
        spec_brightness_to_percent(0, max_brightness, logarithm) == Some(0u32),
{
}

/// A device with a single step is at 0 percent below that step and at 100
/// percent from it on.
pub proof fn lemma_single_step(brightness: Brightness, logarithm: u32)
    ensures
        brightness < 1 ==> spec_brightness_to_percent(brightness, 1, logarithm) == Some(0u32),
        brightness >= 1 ==> spec_brightness_to_percent(brightness, 1, logarithm) == Some(HUNDRED),
{
}

/// What comes out for a brightness is a percentage.
pub proof fn lemma_percent_of_brightness(
    brightness: Brightness,
    max_brightness: Brightness,
    logarithm: u32,
)
    ensures
        spec_brightness_to_percent(brightness, max_brightness, logarithm) matches Some(p)
            ==> is_percent(p),
{
    lemma_percent_patterns(0);
    lemma_percent_patterns(HUNDRED);
}

} // verus!
