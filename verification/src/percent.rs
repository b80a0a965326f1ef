//! Percentages.
//!
//! A percentage is a number from 0 to 100 that need not be whole. It is
//! held as the bit pattern of a binary floating-point number of single
//! precision: one bit for the sign, eight for the exponent, twenty-three for
//! the fraction. This module tells which patterns are percentages; it does
//! no arithmetic on them.

use vstd::prelude::*;
use vstd::string::StringExecFns;
use vstd::arithmetic::power2::{
    lemma2_to64, lemma_pow2_adds, lemma_pow2_pos, lemma_pow2_strictly_increases, pow2,
};

verus! {

/// The pattern of the number 100.
pub const HUNDRED: u32 = 0x42c8_0000;

/// The pattern of zero with the sign set.
pub const NEGATIVE_ZERO: u32 = 0x8000_0000;

/// The sign of a pattern is set.
pub open spec fn sign(bits: u32) -> bool {
    bits >= 0x8000_0000
}

/// A pattern without its sign.
pub open spec fn unsigned(bits: u32) -> nat {
    if bits >= 0x8000_0000 {
        (bits - 0x8000_0000) as nat
    } else {
        bits as nat
    }
}

/// The exponent field of a pattern.
pub open spec fn exponent(bits: u32) -> nat {
    unsigned(bits) / 0x80_0000
}

/// The fraction field of a pattern.
pub open spec fn fraction(bits: u32) -> nat {
    unsigned(bits) % 0x80_0000
}

/// The pattern denotes a number.
pub open spec fn is_finite(bits: u32) -> bool {
    exponent(bits) < 255
}

/// The pattern denotes an infinity.
pub open spec fn is_infinite(bits: u32) -> bool {
    exponent(bits) == 255 && fraction(bits) == 0
}

/// The pattern denotes no number at all.
pub open spec fn is_nan(bits: u32) -> bool {
    exponent(bits) == 255 && fraction(bits) != 0
}

/// The size of the number that a finite pattern denotes, counted in
/// units of 2 to the power of -149, in which every such number is whole.
pub open spec fn magnitude(bits: u32) -> nat {
    if exponent(bits) == 0 {
        fraction(bits)
    } else {
        (0x80_0000 + fraction(bits)) * pow2((exponent(bits) - 1) as nat)
    }
}

/// The number 100 in the same units.
pub open spec fn hundred() -> nat {
    100 * pow2(149)
}

/// The pattern denotes a number from 0 to 100. A zero may have its sign
/// set.
pub open spec fn is_percent(bits: u32) -> bool {
    &&& is_finite(bits)
    &&& magnitude(bits) <= hundred()
    &&& sign(bits) ==> magnitude(bits) == 0
}

/// The pattern denotes zero.
pub open spec fn is_zero(bits: u32) -> bool {
    is_finite(bits) && magnitude(bits) == 0
}

proof fn lemma_magnitude_grows(e: nat, f: nat)
    requires
        f < 0x80_0000,
        1 <= e,
    ensures
        e <= 132 ==> (0x80_0000 + f) * pow2((e - 1) as nat) <= hundred(),
        e == 133 ==> ((0x80_0000 + f) * pow2((e - 1) as nat) <= hundred() <==> f <= 0x48_0000),
        e >= 134 ==> (0x80_0000 + f) * pow2((e - 1) as nat) > hundred(),
        (0x80_0000 + f) * pow2((e - 1) as nat) > 0,
{
    lemma2_to64();
    let m = 0x80_0000 + f;
    let p = pow2((e - 1) as nat);
    lemma_pow2_pos((e - 1) as nat);
    assert(m * p > 0) by (nonlinear_arith)
        requires
            m > 0,
            p > 0,
    ;
    // 100 lies between 2 to the power of 6 and 2 to the power of 7
    lemma_pow2_adds(6, 149);
    lemma_pow2_adds(7, 149);
    lemma_pow2_pos(149);
    assert(pow2(155) <= hundred() < pow2(156)) by (nonlinear_arith)
        requires
            pow2(155) == 64 * pow2(149),
            pow2(156) == 128 * pow2(149),
            hundred() == 100 * pow2(149),
            pow2(149) > 0,
    ;
    if e <= 132 {
        if e - 1 < 131 {
            lemma_pow2_strictly_increases((e - 1) as nat, 131);
        }
        lemma_pow2_adds(24, 131);
        assert(m * p <= pow2(155)) by (nonlinear_arith)
            requires
                0 < m <= 0x100_0000,
                0 < p <= pow2(131),
                pow2(155) == 0x100_0000 * pow2(131),
        ;
    } else if e == 133 {
        lemma_pow2_adds(17, 132);
        lemma_pow2_pos(132);
        assert(m * p <= hundred() <==> m <= 13107200) by (nonlinear_arith)
            requires
                p == pow2(132),
                p > 0,
                hundred() == 100 * pow2(149),
                pow2(149) == 0x2_0000 * pow2(132),
        ;
    } else {
        if 133 < e - 1 {
            lemma_pow2_strictly_increases(133, (e - 1) as nat);
        }
        lemma_pow2_adds(23, 133);
        assert(m * p >= pow2(156)) by (nonlinear_arith)
            requires
                m >= 0x80_0000,
                p >= pow2(133),
                pow2(133) > 0,
                pow2(156) == 0x80_0000 * pow2(133),
        ;
    }
}

/// Which patterns are percentages: those that denote a number from 0 to
/// 100 are the patterns up to that of 100, and the zero with its sign set.
/// So no infinity is one, nothing that is no number, no number below zero
/// and none above 100.
pub proof fn lemma_percent_patterns(bits: u32)
    ensures
        is_percent(bits) <==> bits <= HUNDRED || bits == NEGATIVE_ZERO,
        is_zero(bits) <==> bits == 0 || bits == NEGATIVE_ZERO,
        is_nan(bits) || is_infinite(bits) ==> !is_percent(bits),
        sign(bits) && !is_zero(bits) ==> !is_percent(bits),
        is_finite(bits) && magnitude(bits) > hundred() ==> !is_percent(bits),
        is_finite(bits) && !sign(bits) && magnitude(bits) <= hundred() ==> is_percent(bits),
{
    let u = unsigned(bits);
    let e = exponent(bits);
    let f = fraction(bits);
    assert(u == e * 0x80_0000 + f && f < 0x80_0000 && e <= 255) by {
        assert(u < 0x8000_0000);
        assert(u == 0x80_0000 * (u / 0x80_0000) + u % 0x80_0000);
    }
    if e >= 1 {
        lemma_magnitude_grows(e, f);
    } else {
        lemma2_to64();
        lemma_pow2_adds(23, 126);
        lemma_pow2_pos(126);
        lemma_pow2_pos(149);
        assert(f <= hundred()) by (nonlinear_arith)
            requires
                f < 0x80_0000,
                hundred() == 100 * pow2(149),
                pow2(149) == 0x80_0000 * pow2(126),
                pow2(126) > 0,
        ;
    }
}

/// A percentage.
#[derive(Debug, Clone, Copy)]
pub struct Percent {
    bits: u32,
}

impl View for Percent {
    type V = u32;

    closed spec fn view(&self) -> u32 {
        self.bits
    }
}

impl Percent {
    #[verifier::type_invariant]
    spec fn is_valid(self) -> bool {
        is_percent(self.bits)
    }

    /// The percentage with the given pattern, if the pattern denotes a
    /// number from 0 to 100.
    pub fn new(bits: u32) -> (r: Option<Percent>)
        ensures
            r is Some <==> is_percent(bits),
            r matches Some(p) ==> p@ == bits,
    {
        proof {
            lemma_percent_patterns(bits);
        }
        if bits <= HUNDRED || bits == NEGATIVE_ZERO {
            Some(Percent { bits })
        } else {
            None
        }
    }

    /// 0 percent.
    pub fn min() -> (r: Percent)
        ensures
            r@ == 0,
    {
        proof {
            lemma_percent_patterns(0);
        }
        Percent { bits: 0 }
    }

    /// 100 percent.
    pub fn max() -> (r: Percent)
        ensures
            r@ == HUNDRED,
    {
        proof {
            lemma_percent_patterns(HUNDRED);
        }
        Percent { bits: HUNDRED }
    }

    /// The pattern of the percentage.
    pub fn get(self) -> (r: u32)
        ensures
            r == self@,
            is_percent(r),
    {
        proof {
            use_type_invariant(&self);
        }
        self.bits
    }

    /// The percentage is 0.
    pub fn is_zero(self) -> (r: bool)
        ensures
            r == is_zero(self@),
    {
        proof {
            lemma_percent_patterns(self.bits);
        }
        self.bits == 0 || self.bits == NEGATIVE_ZERO
    }

    /// The percentage that a sum comes to: the sum itself where it is a
    /// percentage, and 100 percent where it is none.
    pub fn saturating_sum(sum: u32) -> (r: Percent)
        ensures
            r@ == (if is_percent(sum) {
                sum
            } else {
                HUNDRED
            }),
    {
        match Percent::new(sum) {
            Some(p) => p,
            None => Percent::max(),
        }
    }

    /// The percentage that a difference comes to: the difference itself
    /// where it is a percentage, and 0 percent where it is none.
    pub fn saturating_difference(difference: u32) -> (r: Percent)
        ensures
            r@ == (if is_percent(difference) {
                difference
            } else {
                0
            }),
    {
        match Percent::new(difference) {
            Some(p) => p,
            None => Percent::min(),
        }
    }
}

/// The percentage that an argument of the command line stands for, where
/// `parsed` is the pattern of the number that the argument was read as, if
/// it was read as a number.
pub open spec fn spec_clap_parser(parsed: Option<u32>) -> Result<u32, Seq<char>> {
    match parsed {
        None => Err("not a percentage"@),
        Some(bits) => if is_percent(bits) {
            Ok(bits)
        } else {
            Err("not a percentage between 0 and 100"@)
        },
    }
}

/// The percentage that an argument of the command line stands for.
pub fn clap_parser(parsed: Option<u32>) -> (r: Result<Percent, String>)
    ensures
        match r {
            Ok(p) => spec_clap_parser(parsed) == Ok::<u32, Seq<char>>(p@),
            Err(message) => spec_clap_parser(parsed) == Err::<u32, Seq<char>>(message@),
        },
{
    match parsed {
        None => Err(String::from_str("not a percentage")),
        Some(bits) => match Percent::new(bits) {
            Some(p) => Ok(p),
            None => Err(String::from_str("not a percentage between 0 and 100")),
        },
    }
}

impl PartialEq for Percent {
    fn eq(&self, other: &Percent) -> (r: bool) {
        self.bits == other.bits || (self.is_zero() && other.is_zero())
    }
}

impl vstd::std_specs::cmp::PartialEqSpecImpl for Percent {
    open spec fn obeys_eq_spec() -> bool {
        true
    }

    open spec fn eq_spec(&self, other: &Percent) -> bool {
        self@ == other@ || (is_zero(self@) && is_zero(other@))
    }
}

} // verus!
