//! Numbers of the IEEE 754 binary32 format, held by their bit pattern.

use crate::number::{Format, Num, Value};
use vstd::arithmetic::power2::pow2;
use vstd::prelude::*;

verus! {

/// A single-precision number. Its arithmetic rounds to nearest, ties to even.
#[derive(Clone, Copy, Debug)]
pub struct Single {
    /// Sign, exponent and fraction, from the top.
    pub bits: u32,
}

/// What a bit pattern denotes.
pub open spec fn single_num(bits: u32) -> Num {
    let neg = bits >= 0x8000_0000;
    let rest = bits % 0x8000_0000;
    let exponent = rest / 0x80_0000;
    let fraction = rest % 0x80_0000;
    if exponent == 255 {
        if fraction == 0 {
            Num::Infinite { neg }
        } else {
            Num::NotANumber
        }
    } else if exponent == 0 {
        Num::Finite { neg, mag: fraction as nat }
    } else {
        Num::Finite { neg, mag: (0x80_0000 + fraction) as nat * pow2((exponent - 1) as nat) }
    }
}

impl View for Single {
    type V = Num;

    open spec fn view(&self) -> Num {
        single_num(self.bits)
    }
}

impl Single {
    /// The number with the given bit pattern.
    pub fn from_bits(bits: u32) -> (r: Single)
        ensures
            r.bits == bits,
            r@ == single_num(bits),
    {
        Single { bits }
    }

    /// The bit pattern.
    pub fn to_bits(self) -> (r: u32)
        ensures
            r == self.bits,
    {
        self.bits
    }

    pub(crate) fn unpacked(self) -> (r: Value)
        ensures
            r.wf(Format::Single),
            r@ == self@,
    {
        proof {
            vstd::arithmetic::power2::lemma2_to64();
            vstd::arithmetic::power2::lemma2_to64_rest();
        }
        let neg = self.bits >= 0x8000_0000;
        let rest: u32 = self.bits % 0x8000_0000;
        let exponent: u32 = rest / 0x80_0000;
        let fraction: u32 = rest % 0x80_0000;
        if exponent == 255 {
            if fraction == 0 {
                Value::Infinite { neg }
            } else {
                Value::NotANumber
            }
        } else if exponent == 0 {
            assert(fraction as nat * pow2(0) == fraction) by (nonlinear_arith)
                requires
                    pow2(0) == 1,
            ;
            Value::Finite { neg, m: fraction as u64, e: 0 }
        } else {
            Value::Finite { neg, m: (0x80_0000 + fraction) as u64, e: (exponent - 1) as u32 }
        }
    }

    pub(crate) fn packed(v: Value) -> (r: Single)
        requires
            v.wf(Format::Single),
        ensures
            r@ == v@,
    {
        proof {
            vstd::arithmetic::power2::lemma2_to64();
            vstd::arithmetic::power2::lemma2_to64_rest();
        }
        match v {
            Value::NotANumber => Single { bits: 0x7fc0_0000 },
            Value::Infinite { neg } => {
                let sign: u32 = if neg {
                    0x8000_0000
                } else {
                    0
                };
                Single { bits: sign + 0x7f80_0000 }
            },
            Value::Finite { neg, m, e } => {
                let sign: u32 = if neg {
                    0x8000_0000
                } else {
                    0
                };
                // The leading digit of `m`, where there is one, adds one to the
                // exponent field.
                let rest: u32 = (e as u32) * 0x80_0000 + m as u32;
                assert(rest < 0x7f80_0000);
                proof {
                    if m < 0x80_0000 {
                        assert(m as nat * pow2(0) == m) by (nonlinear_arith)
                            requires
                                pow2(0) == 1,
                        ;
                    } else {
                        assert(rest == (e + 1) * 0x80_0000 + (m - 0x80_0000));
                        assert(rest / 0x80_0000 == e + 1);
                        assert(rest % 0x80_0000 == m - 0x80_0000);
                    }
                }
                Single { bits: sign + rest }
            },
        }
    }

    /// The number nearest to an integer.
    pub fn of_int(n: u64) -> (r: Single)
        ensures
            r@ == Num::of_int(Format::Single, n as int),
    {
        Single::packed(Value::of_int(Format::Single, false, n))
    }

    /// `self + other`.
    pub fn plus(self, other: Single) -> (r: Single)
        ensures
            r@ == self@.plus(Format::Single, other@),
    {
        Single::packed(self.unpacked().plus(Format::Single, other.unpacked()))
    }

    /// `self - other`.
    pub fn minus(self, other: Single) -> (r: Single)
        ensures
            r@ == self@.minus(Format::Single, other@),
    {
        Single::packed(self.unpacked().plus(Format::Single, other.unpacked().negated()))
    }

    /// `self * other`.
    pub fn times(self, other: Single) -> (r: Single)
        ensures
            r@ == self@.times(Format::Single, other@),
    {
        Single::packed(self.unpacked().times(Format::Single, other.unpacked()))
    }

    /// `self / other`.
    pub fn over(self, other: Single) -> (r: Single)
        ensures
            r@ == self@.over(Format::Single, other@),
    {
        Single::packed(self.unpacked().over(Format::Single, other.unpacked()))
    }

    /// `self >= other`.
    pub fn at_least(self, other: Single) -> (r: bool)
        ensures
            r == self@.at_least(other@),
    {
        self.unpacked().at_least(Format::Single, other.unpacked())
    }

    /// `self > other`.
    pub fn above(self, other: Single) -> (r: bool)
        ensures
            r == self@.above(other@),
    {
        self.at_least(other) && !other.at_least(self)
    }

    /// `self` kept between `low` and `high`.
    pub fn clamped(self, low: Single, high: Single) -> (r: Single)
        ensures
            r@ == self@.clamped(low@, high@),
    {
        if low.above(self) {
            low
        } else if self.above(high) {
            high
        } else {
            self
        }
    }

    /// The integer part, held to the range `0..=max`; zero for what is not a
    /// number.
    pub fn whole(self, max: u64) -> (r: u64)
        ensures
            r == self@.whole(Format::Single, max as nat),
    {
        self.unpacked().whole(Format::Single, max)
    }

    /// The nearest integer, halves upwards in size, held to the range
    /// `0..=max`; zero for what is not a number.
    pub fn nearest_whole(self, max: u64) -> (r: u64)
        ensures
            r == self@.nearest_whole(Format::Single, max as nat),
    {
        self.unpacked().nearest_whole(Format::Single, max)
    }

    /// The larger of the two; the other one where one is not a number.
    pub fn larger(self, other: Single) -> (r: Single)
        ensures
            r@ == self@.larger(other@),
    {
        if self.at_least(other) || !other.at_least(other) {
            self
        } else {
            other
        }
    }

    /// The size, without the sign.
    pub fn abs(self) -> (r: Single)
        ensures
            r@ == self@.abs(),
    {
        Single { bits: self.bits % 0x8000_0000 }
    }

    /// The same number in the double format.
    pub fn widened(self) -> (r: crate::double::Double)
        ensures
            r@ == self@.widened(),
    {
        crate::double::Double::packed(self.unpacked().widened())
    }
}

/// The comparison of the standard: both zeros are equal, and nothing equals
/// what is not a number.
impl PartialEq for Single {
    fn eq(&self, other: &Single) -> (r: bool) {
        self.at_least(*other) && other.at_least(*self)
    }
}

impl vstd::std_specs::cmp::PartialEqSpecImpl for Single {
    open spec fn obeys_eq_spec() -> bool {
        true
    }

    open spec fn eq_spec(&self, other: &Single) -> bool {
        self@.same(other@)
    }
}

} // verus!
