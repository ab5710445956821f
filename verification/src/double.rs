//! Numbers of the IEEE 754 binary64 format, held by their bit pattern.

use crate::number::{Format, Num, Value};
use vstd::arithmetic::power2::pow2;
use vstd::prelude::*;

verus! {

/// A double-precision number. Its arithmetic rounds to nearest, ties to even.
#[derive(Clone, Copy, Debug)]
pub struct Double {
    /// Sign, exponent and fraction, from the top.
    pub bits: u64,
}

/// What a bit pattern denotes.
pub open spec fn double_num(bits: u64) -> Num {
    let neg = bits >= 0x8000_0000_0000_0000;
    let rest = bits % 0x8000_0000_0000_0000;
    let exponent = rest / 0x10_0000_0000_0000;
    let fraction = rest % 0x10_0000_0000_0000;
    if exponent == 2047 {
        if fraction == 0 {
            Num::Infinite { neg }
        } else {
            Num::NotANumber
        }
    } else if exponent == 0 {
        Num::Finite { neg, mag: fraction as nat }
    } else {
        Num::Finite { neg, mag: (0x10_0000_0000_0000 + fraction) as nat * pow2((exponent - 1) as nat) }
    }
}

impl View for Double {
    type V = Num;

    open spec fn view(&self) -> Num {
        double_num(self.bits)
    }
}

impl Double {
    /// The number with the given bit pattern.
    pub fn from_bits(bits: u64) -> (r: Double)
        ensures
            r.bits == bits,
            r@ == double_num(bits),
    {
        Double { bits }
    }

    /// The bit pattern.
    pub fn to_bits(self) -> (r: u64)
        ensures
            r == self.bits,
    {
        self.bits
    }

    pub(crate) fn unpacked(self) -> (r: Value)
        ensures
            r.wf(Format::Double),
            r@ == self@,
    {
        proof {
            vstd::arithmetic::power2::lemma2_to64();
            vstd::arithmetic::power2::lemma2_to64_rest();
        }
        let neg = self.bits >= 0x8000_0000_0000_0000;
        let rest: u64 = self.bits % 0x8000_0000_0000_0000;
        let exponent: u64 = rest / 0x10_0000_0000_0000;
        let fraction: u64 = rest % 0x10_0000_0000_0000;
        if exponent == 2047 {
            if fraction == 0 {
                Value::Infinite { neg }
            } else {
                Value::NotANumber
            }
        } else if exponent == 0 {
            assert(fraction as nat * pow2(0) == fraction) by (nonlinear_arith)
                requires
                    pow2(0) == 1,
            ;
            Value::Finite { neg, m: fraction as u64, e: 0 }
        } else {
            Value::Finite { neg, m: (0x10_0000_0000_0000 + fraction) as u64, e: (exponent - 1) as u32 }
        }
    }

    pub(crate) fn packed(v: Value) -> (r: Double)
        requires
            v.wf(Format::Double),
        ensures
            r@ == v@,
    {
        proof {
            vstd::arithmetic::power2::lemma2_to64();
            vstd::arithmetic::power2::lemma2_to64_rest();
        }
        match v {
            Value::NotANumber => Double { bits: 0x7ff8_0000_0000_0000 },
            Value::Infinite { neg } => {
                let sign: u64 = if neg {
                    0x8000_0000_0000_0000
                } else {
                    0
                };
                Double { bits: sign + 0x7ff0_0000_0000_0000 }
            },
            Value::Finite { neg, m, e } => {
                let sign: u64 = if neg {
                    0x8000_0000_0000_0000
                } else {
                    0
                };
                // The leading digit of `m`, where there is one, adds one to the
                // exponent field.
                let rest: u64 = (e as u64) * 0x10_0000_0000_0000 + m as u64;
                assert(rest < 0x7ff0_0000_0000_0000);
                proof {
                    if m < 0x10_0000_0000_0000 {
                        assert(m as nat * pow2(0) == m) by (nonlinear_arith)
                            requires
                                pow2(0) == 1,
                        ;
                    } else {
                        assert(rest == (e + 1) * 0x10_0000_0000_0000 + (m - 0x10_0000_0000_0000));
                        assert(rest / 0x10_0000_0000_0000 == e + 1);
                        assert(rest % 0x10_0000_0000_0000 == m - 0x10_0000_0000_0000);
                    }
                }
                Double { bits: sign + rest }
            },
        }
    }

    /// The number nearest to an integer.
    pub fn of_int(n: i64) -> (r: Double)
        ensures
            r@ == Num::of_int(Format::Double, n as int),
    {
        if n < 0 {
            let size: u64 = (-(n as i128)) as u64;
            Double::packed(Value::of_int(Format::Double, true, size))
        } else {
            Double::packed(Value::of_int(Format::Double, false, n as u64))
        }
    }

    /// The number nearest to a count.
    pub fn of_count(n: u64) -> (r: Double)
        ensures
            r@ == Num::of_int(Format::Double, n as int),
    {
        Double::packed(Value::of_int(Format::Double, false, n))
    }

    /// `self + other`.
    pub fn plus(self, other: Double) -> (r: Double)
        ensures
            r@ == self@.plus(Format::Double, other@),
    {
        Double::packed(self.unpacked().plus(Format::Double, other.unpacked()))
    }

    /// `self - other`.
    pub fn minus(self, other: Double) -> (r: Double)
        ensures
            r@ == self@.minus(Format::Double, other@),
    {
        Double::packed(self.unpacked().plus(Format::Double, other.unpacked().negated()))
    }

    /// `self * other`.
    pub fn times(self, other: Double) -> (r: Double)
        ensures
            r@ == self@.times(Format::Double, other@),
    {
        Double::packed(self.unpacked().times(Format::Double, other.unpacked()))
    }

    /// `self / other`.
    pub fn over(self, other: Double) -> (r: Double)
        ensures
            r@ == self@.over(Format::Double, other@),
    {
        Double::packed(self.unpacked().over(Format::Double, other.unpacked()))
    }

    /// `self % other`.
    pub fn remainder(self, other: Double) -> (r: Double)
        ensures
            r@ == self@.remainder(other@),
    {
        Double::packed(self.unpacked().remainder(Format::Double, other.unpacked()))
    }

    /// `self >= other`.
    pub fn at_least(self, other: Double) -> (r: bool)
        ensures
            r == self@.at_least(other@),
    {
        self.unpacked().at_least(Format::Double, other.unpacked())
    }

    /// `self > other`.
    pub fn above(self, other: Double) -> (r: bool)
        ensures
            r == self@.above(other@),
    {
        self.at_least(other) && !other.at_least(self)
    }

    /// `self` kept between `low` and `high`.
    pub fn clamped(self, low: Double, high: Double) -> (r: Double)
        ensures
            r@ == self@.clamped(low@, high@),
    {
        if low.above(self) {
            low
        } else if self.above(high) {
            high
        } else {
            self
        }
    }

    /// The integer part, held to the range `0..=max`; zero for what is not a
    /// number.
    pub fn whole(self, max: u64) -> (r: u64)
        ensures
            r == self@.whole(Format::Double, max as nat),
    {
        self.unpacked().whole(Format::Double, max)
    }

    /// The nearest number of the single format.
    pub fn narrowed(self) -> (r: crate::single::Single)
        ensures
            r@ == self@.narrowed(),
    {
        crate::single::Single::packed(self.unpacked().narrowed())
    }
}

/// The comparison of the standard: both zeros are equal, and nothing equals
/// what is not a number.
impl PartialEq for Double {
    fn eq(&self, other: &Double) -> (r: bool) {
        self.at_least(*other) && other.at_least(*self)
    }
}

impl vstd::std_specs::cmp::PartialEqSpecImpl for Double {
    open spec fn obeys_eq_spec() -> bool {
        true
    }

    open spec fn eq_spec(&self, other: &Double) -> bool {
        self@.same(other@)
    }
}

} // verus!
