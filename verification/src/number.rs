//! Binary floating-point numbers as mathematical values, and their arithmetic.
//!
//! A [`Num`] is what a number of the IEEE 754 binary32 or binary64 format
//! denotes. The arithmetic is that of the standard: the exact result, rounded
//! to nearest with ties to even. [`Value`] is the executable counterpart, and
//! computes on integers only.

use crate::rounding::{
    bit_length, bit_length_of, lemma_bit_length_bounds, lemma_round_to_exact,
    lemma_round_to_idempotent, nearest_even, power_of_two, round_scaled, round_to, Scaled,
};
use vstd::arithmetic::mul::{lemma_mul_inequality, lemma_mul_strictly_positive};
use vstd::arithmetic::power2::{
    lemma_pow2_adds, lemma_pow2_pos, lemma_pow2_strictly_increases, lemma_pow2_unfold, pow2,
};
use vstd::prelude::*;

verus! {

/// One of the two binary formats.
#[derive(Clone, Copy)]
pub enum Format {
    /// binary32: 24 significant bits.
    Single,
    /// binary64: 53 significant bits.
    Double,
}

impl Format {
    /// The number of significant bits.
    pub open spec fn precision(self) -> nat {
        match self {
            Format::Single => 24,
            Format::Double => 53,
        }
    }

    /// The smallest positive number is two to minus this power. Magnitudes are
    /// counted in it.
    pub open spec fn unit(self) -> nat {
        match self {
            Format::Single => 149,
            Format::Double => 1074,
        }
    }

    /// How often the smallest unit in the last place can be doubled.
    pub open spec fn top(self) -> nat {
        match self {
            Format::Single => 253,
            Format::Double => 2045,
        }
    }

    /// The first magnitude, in units, that is too large for the format.
    pub open spec fn limit(self) -> nat {
        pow2(self.precision() + self.top())
    }

    /// The magnitude one, in units.
    pub open spec fn one(self) -> nat {
        pow2(self.unit())
    }
}

/// What a floating-point number denotes. The magnitude of a finite one is
/// counted in the smallest positive number of its format.
pub ghost enum Num {
    NotANumber,
    Infinite { neg: bool },
    Finite { neg: bool, mag: nat },
}

impl Num {
    /// The number `num / den` units, rounded; too large a one is infinite.
    pub open spec fn rounded(f: Format, neg: bool, num: nat, den: nat) -> Num {
        let mag = round_to(f.precision(), num, den);
        if mag >= f.limit() {
            Num::Infinite { neg }
        } else {
            Num::Finite { neg, mag }
        }
    }

    /// The number of the format nearest to the integer `n`.
    pub open spec fn of_int(f: Format, n: int) -> Num {
        let size = if n < 0 {
            (-n) as nat
        } else {
            n as nat
        };
        Num::rounded(f, n < 0, size * f.one(), 1)
    }

    pub open spec fn zero() -> Num {
        Num::Finite { neg: false, mag: 0 }
    }

    pub open spec fn negated(self) -> Num {
        match self {
            Num::NotANumber => Num::NotANumber,
            Num::Infinite { neg } => Num::Infinite { neg: !neg },
            Num::Finite { neg, mag } => Num::Finite { neg: !neg, mag },
        }
    }

    pub open spec fn abs(self) -> Num {
        match self {
            Num::NotANumber => Num::NotANumber,
            Num::Infinite { neg } => Num::Infinite { neg: false },
            Num::Finite { neg, mag } => Num::Finite { neg: false, mag },
        }
    }

    /// `self + other`.
    pub open spec fn plus(self, f: Format, other: Num) -> Num {
        match (self, other) {
            (Num::NotANumber, _) => Num::NotANumber,
            (_, Num::NotANumber) => Num::NotANumber,
            (Num::Infinite { neg: a }, Num::Infinite { neg: b }) => if a == b {
                self
            } else {
                Num::NotANumber
            },
            (Num::Infinite { .. }, Num::Finite { .. }) => self,
            (Num::Finite { .. }, Num::Infinite { .. }) => other,
            (Num::Finite { neg: a, mag: x }, Num::Finite { neg: b, mag: y }) => if a == b {
                Num::rounded(f, a, x + y, 1)
            } else if x > y {
                Num::rounded(f, a, (x - y) as nat, 1)
            } else if x < y {
                Num::rounded(f, b, (y - x) as nat, 1)
            } else {
                Num::zero()
            },
        }
    }

    /// `self - other`.
    pub open spec fn minus(self, f: Format, other: Num) -> Num {
        self.plus(f, other.negated())
    }

    /// `self * other`.
    pub open spec fn times(self, f: Format, other: Num) -> Num {
        match (self, other) {
            (Num::NotANumber, _) => Num::NotANumber,
            (_, Num::NotANumber) => Num::NotANumber,
            (Num::Infinite { neg: a }, Num::Infinite { neg: b }) => Num::Infinite { neg: a != b },
            (Num::Infinite { neg: a }, Num::Finite { neg: b, mag }) => if mag == 0 {
                Num::NotANumber
            } else {
                Num::Infinite { neg: a != b }
            },
            (Num::Finite { neg: a, mag }, Num::Infinite { neg: b }) => if mag == 0 {
                Num::NotANumber
            } else {
                Num::Infinite { neg: a != b }
            },
            (Num::Finite { neg: a, mag: x }, Num::Finite { neg: b, mag: y }) => Num::rounded(
                f,
                a != b,
                x * y,
                f.one(),
            ),
        }
    }

    /// `self / other`.
    pub open spec fn over(self, f: Format, other: Num) -> Num {
        match (self, other) {
            (Num::NotANumber, _) => Num::NotANumber,
            (_, Num::NotANumber) => Num::NotANumber,
            (Num::Infinite { .. }, Num::Infinite { .. }) => Num::NotANumber,
            (Num::Infinite { neg: a }, Num::Finite { neg: b, .. }) => Num::Infinite { neg: a != b },
            (Num::Finite { neg: a, .. }, Num::Infinite { neg: b }) => Num::Finite {
                neg: a != b,
                mag: 0,
            },
            (Num::Finite { neg: a, mag: x }, Num::Finite { neg: b, mag: y }) => if y > 0 {
                Num::rounded(f, a != b, x * f.one(), y)
            } else if x > 0 {
                Num::Infinite { neg: a != b }
            } else {
                Num::NotANumber
            },
        }
    }

    /// `self % other`: what is left of `self` after taking away `other` as often
    /// as it goes, with the sign of `self`. It is exact.
    pub open spec fn remainder(self, other: Num) -> Num {
        match (self, other) {
            (Num::NotANumber, _) => Num::NotANumber,
            (_, Num::NotANumber) => Num::NotANumber,
            (Num::Infinite { .. }, _) => Num::NotANumber,
            (Num::Finite { .. }, Num::Infinite { .. }) => self,
            (Num::Finite { neg, mag: x }, Num::Finite { mag: y, .. }) => if y == 0 {
                Num::NotANumber
            } else {
                Num::Finite { neg, mag: x % y }
            },
        }
    }

    /// The magnitude with its sign.
    pub open spec fn signed(self) -> int {
        match self {
            Num::Finite { neg, mag } => if neg {
                -(mag as int)
            } else {
                mag as int
            },
            _ => 0,
        }
    }

    /// `self >= other`; never so when one of them is not a number.
    pub open spec fn at_least(self, other: Num) -> bool {
        match (self, other) {
            (Num::NotANumber, _) => false,
            (_, Num::NotANumber) => false,
            (Num::Infinite { neg: a }, Num::Infinite { neg: b }) => !a || b,
            (Num::Infinite { neg: a }, Num::Finite { .. }) => !a,
            (Num::Finite { .. }, Num::Infinite { neg: b }) => b,
            (Num::Finite { .. }, Num::Finite { .. }) => self.signed() >= other.signed(),
        }
    }

    /// `self > other`.
    pub open spec fn above(self, other: Num) -> bool {
        self.at_least(other) && !other.at_least(self)
    }

    /// `self == other` as the standard compares: both zeros are equal, and
    /// nothing equals what is not a number.
    pub open spec fn same(self, other: Num) -> bool {
        self.at_least(other) && other.at_least(self)
    }

    /// `self` kept between `low` and `high`.
    pub open spec fn clamped(self, low: Num, high: Num) -> Num {
        if low.above(self) {
            low
        } else if self.above(high) {
            high
        } else {
            self
        }
    }

    /// The larger of the two; the other one where one is not a number.
    pub open spec fn larger(self, other: Num) -> Num {
        if self.at_least(other) || other is NotANumber {
            self
        } else {
            other
        }
    }

    /// The integer part, held to the range `0..=max`; zero for what is not a
    /// number.
    pub open spec fn whole(self, f: Format, max: nat) -> nat {
        match self {
            Num::NotANumber => 0,
            Num::Infinite { neg } => if neg {
                0
            } else {
                max
            },
            Num::Finite { neg, mag } => if neg {
                0
            } else if mag / f.one() > max {
                max
            } else {
                mag / f.one()
            },
        }
    }

    /// The nearest integer, halves upwards in size, held to the range `0..=max`;
    /// zero for what is not a number.
    pub open spec fn nearest_whole(self, f: Format, max: nat) -> nat {
        match self {
            Num::Finite { neg: false, mag } => {
                let n = (2 * mag + f.one()) / (2 * f.one());
                if n > max {
                    max
                } else {
                    n
                }
            },
            _ => self.whole(f, max),
        }
    }

    /// The number of the single format that stands for the same, as one of the
    /// double format.
    pub open spec fn widened(self) -> Num {
        match self {
            Num::Finite { neg, mag } => Num::Finite { neg, mag: mag * pow2(925) },
            _ => self,
        }
    }

    /// The number of the double format, rounded to the single one.
    pub open spec fn narrowed(self) -> Num {
        match self {
            Num::Finite { neg, mag } => Num::rounded(Format::Single, neg, mag, pow2(925)),
            _ => self,
        }
    }
}

impl Num {
    /// The format has this number.
    pub open spec fn in_format(self, f: Format) -> bool {
        match self {
            Num::Finite { mag, .. } => mag < f.limit() && round_to(f.precision(), mag, 1) == mag,
            _ => true,
        }
    }
}

/// What has been rounded to a format is in it.
pub proof fn lemma_rounded_in_format(f: Format, neg: bool, num: nat, den: nat)
    requires
        den > 0,
    ensures
        Num::rounded(f, neg, num, den).in_format(f),
{
    lemma_round_to_idempotent(f.precision(), num, den);
}

/// The order of the numbers is transitive.
pub proof fn lemma_at_least_transitive(a: Num, b: Num, c: Num)
    requires
        a.at_least(b),
        b.at_least(c),
    ensures
        a.at_least(c),
{
}

/// Adding zero to a number of the format gives the same number; only the
/// negative zero becomes the positive one.
pub proof fn lemma_plus_zero(f: Format, x: Num)
    requires
        x.in_format(f),
    ensures
        x.plus(f, Num::zero()) == (if x == (Num::Finite { neg: true, mag: 0 }) {
            Num::zero()
        } else {
            x
        }),
{
}

/// A magnitude with no more digits than the format has is in the format.
pub proof fn lemma_representable(f: Format, neg: bool, m: nat, e: nat)
    requires
        m < pow2(f.precision()),
        e <= f.top(),
    ensures
        Num::rounded(f, neg, m * pow2(e), 1) == (Num::Finite { neg, mag: m * pow2(e) }),
{
    lemma_round_to_exact(f.precision(), m, e);
    lemma_pow2_pos(e);
    lemma_pow2_adds(f.precision(), e);
    assert(m * pow2(e) < pow2(f.precision()) * pow2(e)) by (nonlinear_arith)
        requires
            m < pow2(f.precision()),
            pow2(e) > 0,
    ;
    if e < f.top() {
        lemma_pow2_strictly_increases(f.precision() + e, f.precision() + f.top());
    }
}

/// The digits of a magnitude of the format.
pub proof fn lemma_digits_of(f: Format, mag: nat) -> (d: (nat, nat))
    requires
        (Num::Finite { neg: false, mag }).in_format(f),
    ensures
        mag == d.0 * pow2(d.1),
        d.0 < pow2(f.precision()),
        d.1 <= f.top(),
        d.1 > 0 ==> d.0 >= pow2((f.precision() - 1) as nat),
{
    let p = f.precision();
    let bits = bit_length(mag);
    assert(mag / 1 == mag);
    lemma_bit_length_bounds(mag);
    vstd::arithmetic::power2::lemma2_to64();
    if bits <= p {
        if bits < p {
            lemma_pow2_strictly_increases(bits, p);
        }
        assert(mag * pow2(0) == mag);
        (mag, 0)
    } else {
        let g = (bits - p) as nat;
        let grid = pow2(g);
        lemma_pow2_pos(g);
        assert(bits <= p + f.top()) by {
            if bits > p + f.top() {
                if p + f.top() < bits - 1 {
                    lemma_pow2_strictly_increases(p + f.top(), (bits - 1) as nat);
                }
            }
        }
        let n = nearest_even(mag, 1 * grid);
        assert(mag == n * grid);
        lemma_pow2_adds(p, g);
        lemma_pow2_adds((p - 1) as nat, g);
        assert(n < pow2(p)) by (nonlinear_arith)
            requires
                n * grid < pow2(p) * grid,
                grid > 0,
        ;
        assert(n >= pow2((p - 1) as nat)) by (nonlinear_arith)
            requires
                n * grid >= pow2((p - 1) as nat) * grid,
                grid > 0,
        ;
        (n, g)
    }
}

/// An integer with no more digits than the format has is in the format.
pub proof fn lemma_small_int(f: Format, n: nat)
    requires
        n < pow2(f.precision()),
    ensures
        Num::of_int(f, n as int) == (Num::Finite { neg: false, mag: n * f.one() }),
{
    lemma_representable(f, false, n, f.unit());
}

/// A number taken apart: a finite one is `m * 2^e` units.
#[derive(Clone, Copy)]
pub(crate) enum Value {
    NotANumber,
    Infinite { neg: bool },
    Finite { neg: bool, m: u64, e: u32 },
}

impl Value {
    pub(crate) open spec fn view(&self) -> Num {
        match *self {
            Value::NotANumber => Num::NotANumber,
            Value::Infinite { neg } => Num::Infinite { neg },
            Value::Finite { neg, m, e } => Num::Finite { neg, mag: m as nat * pow2(e as nat) },
        }
    }

    /// The digits are those of the format, and all but the smallest numbers
    /// have the leading one.
    pub(crate) open spec fn wf(&self, f: Format) -> bool {
        match *self {
            Value::Finite { m, e, .. } => digits_wf(f, m, e),
            _ => true,
        }
    }
}

pub(crate) open spec fn digits_wf(f: Format, m: u64, e: u32) -> bool {
    &&& m < pow2(f.precision())
    &&& e <= f.top()
    &&& e > 0 ==> m >= pow2((f.precision() - 1) as nat)
}

/// Canonical digits order as the pairs of exponent and significand do.
proof fn lemma_digits_order(f: Format, ma: u64, ea: u32, mb: u64, eb: u32)
    requires
        digits_wf(f, ma, ea),
        digits_wf(f, mb, eb),
        ea > eb,
    ensures
        ma as nat * pow2(ea as nat) > mb as nat * pow2(eb as nat),
{
    let d = (ea - eb) as nat;
    lemma_pow2_pos(eb as nat);
    lemma_pow2_adds(eb as nat, d);
    lemma_pow2_unfold(f.precision());
    lemma_pow2_pos((d - 1) as nat);
    lemma_pow2_unfold(d);
    assert(ma as nat * pow2(ea as nat) > mb as nat * pow2(eb as nat)) by (nonlinear_arith)
        requires
            pow2(ea as nat) == pow2(eb as nat) * pow2(d),
            pow2(d) >= 2,
            2 * ma > mb,
            pow2(eb as nat) > 0,
            ma >= 0,
    ;
}

proof fn lemma_small_powers()
    ensures
        pow2(0) == 1,
        pow2(23) == 0x80_0000,
        pow2(24) == 0x100_0000,
        pow2(25) == 0x200_0000,
        pow2(52) == 0x10_0000_0000_0000,
        pow2(53) == 0x20_0000_0000_0000,
        pow2(54) == 0x40_0000_0000_0000,
        pow2(64) == 0x1_0000_0000_0000_0000,
        pow2(127) == 0x8000_0000_0000_0000_0000_0000_0000_0000,
{
    vstd::arithmetic::power2::lemma2_to64();
    vstd::arithmetic::power2::lemma2_to64_rest();
    lemma_pow2_adds(64, 63);
    assert(pow2(64) * pow2(63) == 0x8000_0000_0000_0000_0000_0000_0000_0000) by (nonlinear_arith)
        requires
            pow2(64) == 0x1_0000_0000_0000_0000,
            pow2(63) == 0x8000_0000_0000_0000,
    ;
}

/// Two to the precision of the format, and the precision.
fn precision_of(f: Format) -> (r: (u32, u64))
    ensures
        r.0 == f.precision(),
        r.1 == pow2(f.precision()),
        r.1 == 2 * pow2((f.precision() - 1) as nat),
        r.0 == 24 || r.0 == 53,
{
    proof {
        lemma_small_powers();
    }
    match f {
        Format::Single => (24, 0x100_0000),
        Format::Double => (53, 0x20_0000_0000_0000),
    }
}

fn top_of(f: Format) -> (r: u32)
    ensures
        r == f.top(),
{
    match f {
        Format::Single => 253,
        Format::Double => 2045,
    }
}

fn unit_of(f: Format) -> (r: u32)
    ensures
        r == f.unit(),
{
    match f {
        Format::Single => 149,
        Format::Double => 1074,
    }
}

/// The value with the digits of a rounding.
fn finish(f: Format, neg: bool, digits: (u64, u32), Ghost(num): Ghost<nat>, Ghost(den): Ghost<nat>) -> (r:
    Value)
    requires
        digits.0 <= pow2(f.precision()),
        digits.1 == 0 || digits.0 >= pow2((f.precision() - 1) as nat),
        digits.1 <= 9000,
        digits.0 * pow2(digits.1 as nat) == round_to(f.precision(), num, den),
    ensures
        r.wf(f),
        r@ == Num::rounded(f, neg, num, den),
{
    let (_, full) = precision_of(f);
    let top: u32 = top_of(f);
    let mut m: u64 = digits.0;
    let mut e: u32 = digits.1;
    proof {
        lemma_pow2_pos((f.precision() - 1) as nat);
    }
    if m == full {
        m = full / 2;
        e = e + 1;
        proof {
            lemma_pow2_unfold(e as nat);
            assert(m * pow2(e as nat) == digits.0 * pow2(digits.1 as nat)) by (nonlinear_arith)
                requires
                    digits.0 == 2 * m,
                    pow2(e as nat) == 2 * pow2(digits.1 as nat),
            ;
        }
    }
    proof {
        lemma_limit(f, m, e);
    }
    if e > top {
        Value::Infinite { neg }
    } else {
        Value::Finite { neg, m, e }
    }
}

/// The exponent alone tells whether digits are too large.
proof fn lemma_limit(f: Format, m: u64, e: u32)
    requires
        m < pow2(f.precision()),
        e > 0 ==> m >= pow2((f.precision() - 1) as nat),
    ensures
        e > f.top() <==> m as nat * pow2(e as nat) >= f.limit(),
{
    let p = f.precision();
    lemma_pow2_pos(e as nat);
    if e > f.top() {
        lemma_pow2_adds((p - 1) as nat, e as nat);
        lemma_mul_inequality(pow2((p - 1) as nat) as int, m as int, pow2(e as nat) as int);
        if p - 1 + e > p + f.top() {
            lemma_pow2_strictly_increases(p + f.top(), (p - 1 + e) as nat);
        }
    } else {
        lemma_pow2_adds(p, e as nat);
        assert(m as nat * pow2(e as nat) < pow2(p) * pow2(e as nat)) by (nonlinear_arith)
            requires
                m < pow2(p),
                pow2(e as nat) > 0,
        ;
        if p + e < p + f.top() {
            lemma_pow2_strictly_increases((p + e) as nat, p + f.top());
        }
    }
}

/// The exact sum of two magnitudes, rounded.
fn add_digits(f: Format, neg: bool, ma: u64, ea: u32, mb: u64, eb: u32) -> (r: Value)
    requires
        digits_wf(f, ma, ea),
        digits_wf(f, mb, eb),
        ea >= eb,
    ensures
        r.wf(f),
        r@ == Num::rounded(
            f,
            neg,
            (ma as nat * pow2(ea as nat) + mb as nat * pow2(eb as nat)) as nat,
            1,
        ),
{
    let (p, full) = precision_of(f);
    let diff: u32 = ea - eb;
    let ghost num = (ma as nat * pow2(ea as nat) + mb as nat * pow2(eb as nat)) as nat;
    proof {
        lemma_small_powers();
        lemma_pow2_pos(eb as nat);
        lemma_pow2_pos(ea as nat);
        if diff < 64 {
            lemma_pow2_strictly_increases(diff as nat, 64);
        }
    }
    if diff <= 64 {
        let g: u128 = power_of_two(diff);
        proof {
            lemma_pow2_adds(diff as nat, eb as nat);
            assert(ma * g <= 0x20_0000_0000_0000 * 0x1_0000_0000_0000_0000) by (nonlinear_arith)
                requires
                    0 <= ma <= 0x20_0000_0000_0000,
                    0 <= g <= 0x1_0000_0000_0000_0000,
            ;
        }
        let t: u128 = ma as u128 * g + mb as u128;
        let ghost x = Scaled { num, den: 1, a: 0, b: eb as nat, rest: 0 };
        proof {
            assert(num * pow2(0) == t * (1 * pow2(eb as nat)) + 0) by (nonlinear_arith)
                requires
                    pow2(0) == 1,
                    num == ma as nat * pow2(ea as nat) + mb as nat * pow2(eb as nat),
                    pow2(ea as nat) == g * pow2(eb as nat),
                    t == ma * g + mb,
            ;
        }
        let digits = round_scaled(p, t, eb as i32, false, Ghost(x));
        finish(f, neg, digits, Ghost(num), Ghost(1))
    } else {
        let sh: u32 = diff - 64;
        let (high, low) = split_low(mb, sh);
        let t: u128 = ma as u128 * 0x1_0000_0000_0000_0000 + high as u128;
        let ghost rest = (low as nat * pow2(eb as nat)) as nat;
        let ghost x = Scaled { num, den: 1, a: 0, b: (ea - 64) as nat, rest };
        proof {
            lemma_pow2_adds(sh as nat, eb as nat);
            lemma_pow2_adds(64, (ea - 64) as nat);
            let gb = pow2((ea - 64) as nat);
            assert(num * pow2(0) == t * (1 * gb) + rest) by (nonlinear_arith)
                requires
                    pow2(0) == 1,
                    num == ma as nat * pow2(ea as nat) + mb as nat * pow2(eb as nat),
                    pow2(ea as nat) == 0x1_0000_0000_0000_0000 * gb,
                    gb == pow2(sh as nat) * pow2(eb as nat),
                    mb == high * pow2(sh as nat) + low,
                    rest == low * pow2(eb as nat),
                    t == ma * 0x1_0000_0000_0000_0000 + high,
            ;
            assert(rest < 1 * gb) by (nonlinear_arith)
                requires
                    gb == pow2(sh as nat) * pow2(eb as nat),
                    low < pow2(sh as nat),
                    rest == low * pow2(eb as nat),
                    pow2(eb as nat) > 0,
            ;
            assert(low != 0 <==> rest != 0) by (nonlinear_arith)
                requires
                    rest == low * pow2(eb as nat),
                    pow2(eb as nat) > 0,
            ;
        }
        let digits = round_scaled(p, t, (ea - 64) as i32, low != 0, Ghost(x));
        finish(f, neg, digits, Ghost(num), Ghost(1))
    }
}

/// The last `sh` binary digits of `m`, and what stands before them.
fn split_low(m: u64, sh: u32) -> (r: (u64, u64))
    ensures
        m == r.0 * pow2(sh as nat) + r.1,
        r.1 < pow2(sh as nat),
{
    proof {
        lemma_small_powers();
        lemma_pow2_pos(sh as nat);
    }
    if sh < 64 {
        let g: u128 = power_of_two(sh);
        proof {
            vstd::arithmetic::div_mod::lemma_fundamental_div_mod(m as int, g as int);
            vstd::arithmetic::div_mod::lemma_div_is_ordered_by_denominator(m as int, 1, g as int);
            vstd::arithmetic::div_mod::lemma_mod_decreases(m as nat, g as nat);
            assert(m == (m as u128 / g) * g + m as u128 % g) by (nonlinear_arith)
                requires
                    m == g * (m as int / g as int) + m as int % g as int,
                    m as u128 / g == m as int / g as int,
                    m as u128 % g == m as int % g as int,
            ;
        }
        ((m as u128 / g) as u64, (m as u128 % g) as u64)
    } else {
        proof {
            if sh > 64 {
                lemma_pow2_strictly_increases(64, sh as nat);
            }
            assert(0 * pow2(sh as nat) == 0) by (nonlinear_arith);
        }
        (0, m)
    }
}

/// The exact difference of two magnitudes, of which the first is the larger,
/// rounded.
fn sub_digits(f: Format, neg: bool, ma: u64, ea: u32, mb: u64, eb: u32) -> (r: Value)
    requires
        digits_wf(f, ma, ea),
        digits_wf(f, mb, eb),
        ea > eb || (ea == eb && ma > mb),
    ensures
        r.wf(f),
        ma as nat * pow2(ea as nat) > mb as nat * pow2(eb as nat),
        r@ == Num::rounded(
            f,
            neg,
            (ma as nat * pow2(ea as nat) - mb as nat * pow2(eb as nat)) as nat,
            1,
        ),
{
    let (p, full) = precision_of(f);
    let diff: u32 = ea - eb;
    let ghost num = (ma as nat * pow2(ea as nat) - mb as nat * pow2(eb as nat)) as nat;
    proof {
        lemma_small_powers();
        lemma_pow2_pos(eb as nat);
        lemma_pow2_pos(ea as nat);
        if diff < 64 {
            lemma_pow2_strictly_increases(diff as nat, 64);
        }
        if ea > eb {
            lemma_digits_order(f, ma, ea, mb, eb);
        } else {
            assert(ma as nat * pow2(ea as nat) > mb as nat * pow2(eb as nat)) by (nonlinear_arith)
                requires
                    ma > mb,
                    ea == eb,
                    pow2(eb as nat) > 0,
            ;
        }
        assert(num == ma * pow2(ea as nat) - mb * pow2(eb as nat));
    }
    if diff <= 64 {
        let g: u128 = power_of_two(diff);
        proof {
            lemma_pow2_adds(diff as nat, eb as nat);
            assert(ma * g <= 0x20_0000_0000_0000 * 0x1_0000_0000_0000_0000) by (nonlinear_arith)
                requires
                    0 <= ma <= 0x20_0000_0000_0000,
                    0 <= g <= 0x1_0000_0000_0000_0000,
            ;
            assert(ma * g >= mb) by (nonlinear_arith)
                requires
                    ma * pow2(ea as nat) > mb * pow2(eb as nat),
                    pow2(ea as nat) == g * pow2(eb as nat),
                    pow2(eb as nat) > 0,
            ;
        }
        let t: u128 = ma as u128 * g - mb as u128;
        let ghost x = Scaled { num, den: 1, a: 0, b: eb as nat, rest: 0 };
        proof {
            assert(num * pow2(0) == t * (1 * pow2(eb as nat)) + 0) by (nonlinear_arith)
                requires
                    pow2(0) == 1,
                    num == ma * pow2(ea as nat) - mb * pow2(eb as nat),
                    pow2(ea as nat) == g * pow2(eb as nat),
                    t == ma * g - mb,
            ;
        }
        let digits = round_scaled(p, t, eb as i32, false, Ghost(x));
        finish(f, neg, digits, Ghost(num), Ghost(1))
    } else {
        let sh: u32 = diff - 64;
        let (high, low) = split_low(mb, sh);
        let ghost g = pow2(sh as nat);
        let borrow: u64 = if low != 0 {
            1
        } else {
            0
        };
        let t: u128 = ma as u128 * 0x1_0000_0000_0000_0000 - high as u128 - borrow as u128;
        let ghost kept = if low != 0 {
            g - low
        } else {
            0
        };
        let ghost rest = (kept * pow2(eb as nat)) as nat;
        let ghost x = Scaled { num, den: 1, a: 0, b: (ea - 64) as nat, rest };
        proof {
            lemma_pow2_adds(sh as nat, eb as nat);
            lemma_pow2_adds(64, (ea - 64) as nat);
            let gb = pow2((ea - 64) as nat);
            assert(kept == borrow * g - low) by (nonlinear_arith)
                requires
                    low != 0 ==> borrow == 1 && kept == g - low,
                    low == 0 ==> borrow == 0 && kept == 0,
            ;
            assert(kept * pow2(eb as nat) >= 0) by (nonlinear_arith)
                requires
                    kept >= 0,
                    pow2(eb as nat) > 0,
            ;
            assert(num * pow2(0) == t * (1 * gb) + rest) by (nonlinear_arith)
                requires
                    pow2(0) == 1,
                    num == ma * pow2(ea as nat) - mb * pow2(eb as nat),
                    pow2(ea as nat) == 0x1_0000_0000_0000_0000 * gb,
                    gb == g * pow2(eb as nat),
                    mb == high * g + low,
                    rest == kept * pow2(eb as nat),
                    kept == borrow * g - low,
                    t == ma * 0x1_0000_0000_0000_0000 - high - borrow,
            ;
            assert(rest < 1 * gb) by (nonlinear_arith)
                requires
                    gb == g * pow2(eb as nat),
                    kept < g,
                    rest == kept * pow2(eb as nat),
                    pow2(eb as nat) > 0,
            ;
            assert(kept != 0 <==> rest != 0) by (nonlinear_arith)
                requires
                    rest == kept * pow2(eb as nat),
                    pow2(eb as nat) > 0,
            ;
        }
        let digits = round_scaled(p, t, (ea - 64) as i32, low != 0, Ghost(x));
        finish(f, neg, digits, Ghost(num), Ghost(1))
    }
}

/// The exact product of two magnitudes, rounded.
fn mul_digits(f: Format, neg: bool, ma: u64, ea: u32, mb: u64, eb: u32) -> (r: Value)
    requires
        digits_wf(f, ma, ea),
        digits_wf(f, mb, eb),
    ensures
        r.wf(f),
        r@ == Num::rounded(
            f,
            neg,
            (ma as nat * pow2(ea as nat)) * (mb as nat * pow2(eb as nat)),
            f.one(),
        ),
{
    let (p, _) = precision_of(f);
    let unit: u32 = unit_of(f);
    let ghost num = (ma as nat * pow2(ea as nat)) * (mb as nat * pow2(eb as nat));
    proof {
        lemma_small_powers();
        assert(ma * mb <= 0x20_0000_0000_0000 * 0x20_0000_0000_0000) by (nonlinear_arith)
            requires
                0 <= ma <= 0x20_0000_0000_0000,
                0 <= mb <= 0x20_0000_0000_0000,
        ;
    }
    let t: u128 = ma as u128 * mb as u128;
    let k: i32 = ea as i32 + eb as i32 - unit as i32;
    let ghost b = (ea + eb) as nat;
    let ghost x = Scaled { num, den: f.one(), a: f.unit(), b, rest: 0 };
    proof {
        lemma_pow2_pos(f.unit());
        lemma_pow2_pos(b);
        lemma_pow2_adds(ea as nat, eb as nat);
        assert(num * pow2(f.unit()) == t * (f.one() * pow2(b)) + 0) by (nonlinear_arith)
            requires
                num == (ma as nat * pow2(ea as nat)) * (mb as nat * pow2(eb as nat)),
                pow2(b) == pow2(ea as nat) * pow2(eb as nat),
                t == ma * mb,
                f.one() == pow2(f.unit()),
        ;
        lemma_mul_strictly_positive(f.one() as int, pow2(b) as int);
    }
    let digits = round_scaled(p, t, k, false, Ghost(x));
    finish(f, neg, digits, Ghost(num), Ghost(f.one()))
}

/// What is left of a magnitude after taking away another one as often as it
/// goes.
fn rem_digits(f: Format, neg: bool, ma: u64, ea: u32, mb: u64, eb: u32) -> (r: Value)
    requires
        digits_wf(f, ma, ea),
        digits_wf(f, mb, eb),
        mb > 0,
    ensures
        r.wf(f),
        r@ == (Num::Finite {
            neg,
            mag: (ma as nat * pow2(ea as nat)) % (mb as nat * pow2(eb as nat)),
        }),
{
    let ghost big = ma as nat * pow2(ea as nat);
    let ghost small = mb as nat * pow2(eb as nat);
    if ea < eb {
        proof {
            lemma_digits_order(f, mb, eb, ma, ea);
            vstd::arithmetic::div_mod::lemma_small_mod(big, small);
        }
        return Value::Finite { neg, m: ma, e: ea };
    }
    let (p, _) = precision_of(f);
    let mut left: u64 = ma % mb;
    let mut i: u32 = 0;
    proof {
        lemma_small_powers();
        assert(ma as nat * pow2(0) == ma) by (nonlinear_arith)
            requires
                pow2(0) == 1,
        ;
    }
    while i < ea - eb
        invariant
            eb <= ea,
            i <= ea - eb,
            0 < mb < 0x20_0000_0000_0000,
            left < mb,
            left == (ma as nat * pow2(i as nat)) % (mb as nat),
        decreases ea - eb - i,
    {
        proof {
            let x = ma as nat * pow2(i as nat);
            lemma_pow2_unfold((i + 1) as nat);
            assert(ma as nat * pow2((i + 1) as nat) == 2 * x) by (nonlinear_arith)
                requires
                    pow2((i + 1) as nat) == 2 * pow2(i as nat),
                    x == ma as nat * pow2(i as nat),
            ;
            vstd::arithmetic::div_mod::lemma_mul_mod_noop_right(2, x as int, mb as int);
        }
        left = (2 * left) % mb;
        i = i + 1;
    }
    let ghost rest = left as nat * pow2(eb as nat);
    let ghost x = Scaled { num: rest, den: 1, a: 0, b: eb as nat, rest: 0 };
    proof {
        let d = (ea - eb) as nat;
        let c = pow2(eb as nat);
        lemma_pow2_pos(eb as nat);
        lemma_pow2_adds(d, eb as nat);
        let scaled = ma as nat * pow2(d);
        assert(big == c * scaled && small == c * mb) by (nonlinear_arith)
            requires
                big == ma as nat * pow2(ea as nat),
                small == mb as nat * c,
                pow2(ea as nat) == pow2(d) * c,
                scaled == ma as nat * pow2(d),
        ;
        lemma_mul_strictly_positive(c as int, mb as int);
        vstd::arithmetic::div_mod::lemma_truncate_middle(scaled as int, c as int, mb as int);
        assert(rest == c * left) by (nonlinear_arith)
            requires
                rest == left as nat * c,
        ;
        assert(big % small == rest);
        lemma_representable(f, neg, left as nat, eb as nat);
        assert(rest * pow2(0) == left as nat * (1 * c) + 0) by (nonlinear_arith)
            requires
                rest == left as nat * c,
                pow2(0) == 1,
        ;
        assert(left < pow2(127));
    }
    let digits = round_scaled(p, left as u128, eb as i32, false, Ghost(x));
    finish(f, neg, digits, Ghost(rest), Ghost(1))
}

/// The exact quotient of two magnitudes, rounded.
fn div_digits(f: Format, neg: bool, ma: u64, ea: u32, mb: u64, eb: u32) -> (r: Value)
    requires
        digits_wf(f, ma, ea),
        digits_wf(f, mb, eb),
        mb > 0,
    ensures
        r.wf(f),
        r@ == Num::rounded(
            f,
            neg,
            (ma as nat * pow2(ea as nat)) * f.one(),
            mb as nat * pow2(eb as nat),
        ),
{
    let (p, _) = precision_of(f);
    let unit: u32 = unit_of(f);
    let ghost num = (ma as nat * pow2(ea as nat)) * f.one();
    let ghost den = mb as nat * pow2(eb as nat);
    proof {
        lemma_small_powers();
        lemma_bit_length_bounds(ma as nat);
        lemma_pow2_pos(eb as nat);
        lemma_mul_strictly_positive(mb as int, pow2(eb as nat) as int);
    }
    let len: u32 = bit_length_of(ma as u128);
    assert(len <= 53) by {
        if len > 54 {
            lemma_pow2_strictly_increases(53, (len - 1) as nat);
        }
    }
    let sh: u32 = 117 - len;
    let g: u128 = power_of_two(sh);
    proof {
        lemma_pow2_adds(len as nat, sh as nat);
        lemma_pow2_pos(sh as nat);
        lemma_pow2_strictly_increases(117, 127);
        assert(ma * g < pow2(117)) by (nonlinear_arith)
            requires
                ma < pow2(len as nat),
                pow2(117) == pow2(len as nat) * g,
                g > 0,
        ;
    }
    let dividend: u128 = ma as u128 * g;
    let t: u128 = dividend / mb as u128;
    let low: u128 = dividend % mb as u128;
    let k: i32 = ea as i32 + unit as i32 - eb as i32 - sh as i32;
    let ghost a = (eb + sh) as nat;
    let ghost b = (ea + f.unit()) as nat;
    let ghost rest = (low as nat * (pow2(eb as nat) * pow2(b))) as nat;
    let ghost x = Scaled { num, den, a, b, rest };
    proof {
        vstd::arithmetic::div_mod::lemma_fundamental_div_mod(dividend as int, mb as int);
        lemma_pow2_pos(b);
        lemma_pow2_adds(eb as nat, sh as nat);
        lemma_pow2_adds(ea as nat, f.unit());
        let scale = pow2(eb as nat) * pow2(b);
        assert(num * pow2(a) == (ma * g) * scale) by (nonlinear_arith)
            requires
                num == (ma as nat * pow2(ea as nat)) * f.one(),
                pow2(a) == pow2(eb as nat) * g,
                scale == pow2(eb as nat) * (pow2(ea as nat) * f.one()),
        ;
        assert(t * (den * pow2(b)) + rest == (mb * t + low) * scale) by (nonlinear_arith)
            requires
                den == mb as nat * pow2(eb as nat),
                scale == pow2(eb as nat) * pow2(b),
                rest == low as nat * scale,
        ;
        lemma_mul_strictly_positive(pow2(eb as nat) as int, pow2(b) as int);
        assert(rest < den * pow2(b)) by (nonlinear_arith)
            requires
                rest == low as nat * scale,
                den == mb as nat * pow2(eb as nat),
                scale == pow2(eb as nat) * pow2(b),
                low < mb,
                scale > 0,
        ;
        assert(low != 0 <==> rest != 0) by (nonlinear_arith)
            requires
                rest == low as nat * scale,
                scale > 0,
        ;
        vstd::arithmetic::div_mod::lemma_div_is_ordered_by_denominator(
            dividend as int,
            1,
            mb as int,
        );
        if low != 0 {
            assert(len > 0) by {
                if len == 0 {
                    assert(0 * g == 0) by (nonlinear_arith);
                    assert(dividend == 0);
                }
            }
            // The dividend has its leading digit in place, so the quotient
            // keeps more digits than the format has.
            lemma_pow2_adds((len - 1) as nat, sh as nat);
            lemma_pow2_adds(53, 63);
            assert(dividend >= pow2(116)) by (nonlinear_arith)
                requires
                    dividend == ma * g,
                    ma >= pow2((len - 1) as nat),
                    pow2(116) == pow2((len - 1) as nat) * g,
                    g > 0,
            ;
            assert(t >= pow2(54)) by {
                lemma_pow2_strictly_increases(54, 63);
                if t < pow2(54) {
                    assert(mb * t + low < pow2(53) * pow2(63)) by (nonlinear_arith)
                        requires
                            0 < mb < pow2(53),
                            low < mb,
                            0 <= t,
                            t + 1 <= pow2(63),
                    ;
                }
            }
            lemma_pow2_strictly_increases(25, 54);
        }
    }
    let digits = round_scaled(p, t, k, low != 0, Ghost(x));
    finish(f, neg, digits, Ghost(num), Ghost(den))
}

impl Value {
    /// The number nearest to an integer.
    pub(crate) fn of_int(f: Format, neg: bool, n: u64) -> (r: Value)
        ensures
            r.wf(f),
            r@ == Num::rounded(f, neg, n as nat * f.one(), 1),
    {
        let (p, _) = precision_of(f);
        let unit: u32 = unit_of(f);
        let ghost num = n as nat * f.one();
        let ghost x = Scaled { num, den: 1, a: 0, b: f.unit(), rest: 0 };
        proof {
            lemma_small_powers();
            lemma_pow2_pos(f.unit());
            assert(num * pow2(0) == n as nat * (1 * pow2(f.unit())) + 0) by (nonlinear_arith)
                requires
                    pow2(0) == 1,
                    num == n as nat * f.one(),
                    f.one() == pow2(f.unit()),
            ;
        }
        let digits = round_scaled(p, n as u128, unit as i32, false, Ghost(x));
        finish(f, neg, digits, Ghost(num), Ghost(1))
    }

    pub(crate) fn negated(self) -> (r: Value)
        ensures
            forall|f: Format| self.wf(f) ==> r.wf(f),
            r@ == self@.negated(),
    {
        match self {
            Value::NotANumber => Value::NotANumber,
            Value::Infinite { neg } => Value::Infinite { neg: !neg },
            Value::Finite { neg, m, e } => Value::Finite { neg: !neg, m, e },
        }
    }

    pub(crate) fn plus(self, f: Format, other: Value) -> (r: Value)
        requires
            self.wf(f),
            other.wf(f),
        ensures
            r.wf(f),
            r@ == self@.plus(f, other@),
    {
        match (self, other) {
            (Value::NotANumber, _) => Value::NotANumber,
            (_, Value::NotANumber) => Value::NotANumber,
            (Value::Infinite { neg: a }, Value::Infinite { neg: b }) => if a == b {
                self
            } else {
                Value::NotANumber
            },
            (Value::Infinite { .. }, Value::Finite { .. }) => self,
            (Value::Finite { .. }, Value::Infinite { .. }) => other,
            (Value::Finite { neg: a, m: ma, e: ea }, Value::Finite { neg: b, m: mb, e: eb }) => {
                if a == b {
                    if ea >= eb {
                        add_digits(f, a, ma, ea, mb, eb)
                    } else {
                        add_digits(f, a, mb, eb, ma, ea)
                    }
                } else if ea > eb || (ea == eb && ma > mb) {
                    sub_digits(f, a, ma, ea, mb, eb)
                } else if ea < eb || (ea == eb && ma < mb) {
                    sub_digits(f, b, mb, eb, ma, ea)
                } else {
                    proof {
                        lemma_small_powers();
                        lemma_pow2_pos((f.precision() - 1) as nat);
                        lemma_pow2_pos(f.precision());
                        assert(0 * pow2(0) == 0);
                    }
                    Value::Finite { neg: false, m: 0, e: 0 }
                }
            },
        }
    }

    pub(crate) fn times(self, f: Format, other: Value) -> (r: Value)
        requires
            self.wf(f),
            other.wf(f),
        ensures
            r.wf(f),
            r@ == self@.times(f, other@),
    {
        match (self, other) {
            (Value::NotANumber, _) => Value::NotANumber,
            (_, Value::NotANumber) => Value::NotANumber,
            (Value::Infinite { neg: a }, Value::Infinite { neg: b }) => Value::Infinite {
                neg: a != b,
            },
            (Value::Infinite { neg: a }, Value::Finite { neg: b, m, e }) => {
                proof {
                    lemma_mag_zero(m, e);
                }
                if m == 0 {
                    Value::NotANumber
                } else {
                    Value::Infinite { neg: a != b }
                }
            },
            (Value::Finite { neg: a, m, e }, Value::Infinite { neg: b }) => {
                proof {
                    lemma_mag_zero(m, e);
                }
                if m == 0 {
                    Value::NotANumber
                } else {
                    Value::Infinite { neg: a != b }
                }
            },
            (Value::Finite { neg: a, m: ma, e: ea }, Value::Finite { neg: b, m: mb, e: eb }) => {
                mul_digits(f, a != b, ma, ea, mb, eb)
            },
        }
    }

    pub(crate) fn over(self, f: Format, other: Value) -> (r: Value)
        requires
            self.wf(f),
            other.wf(f),
        ensures
            r.wf(f),
            r@ == self@.over(f, other@),
    {
        match (self, other) {
            (Value::NotANumber, _) => Value::NotANumber,
            (_, Value::NotANumber) => Value::NotANumber,
            (Value::Infinite { .. }, Value::Infinite { .. }) => Value::NotANumber,
            (Value::Infinite { neg: a }, Value::Finite { neg: b, .. }) => Value::Infinite {
                neg: a != b,
            },
            (Value::Finite { neg: a, .. }, Value::Infinite { neg: b }) => {
                proof {
                    lemma_mag_zero(0, 0);
                    lemma_pow2_pos(f.precision());
                }
                Value::Finite { neg: a != b, m: 0, e: 0 }
            },
            (Value::Finite { neg: a, m: ma, e: ea }, Value::Finite { neg: b, m: mb, e: eb }) => {
                proof {
                    lemma_mag_zero(ma, ea);
                    lemma_mag_zero(mb, eb);
                }
                if mb > 0 {
                    div_digits(f, a != b, ma, ea, mb, eb)
                } else if ma > 0 {
                    Value::Infinite { neg: a != b }
                } else {
                    Value::NotANumber
                }
            },
        }
    }

    pub(crate) fn remainder(self, f: Format, other: Value) -> (r: Value)
        requires
            self.wf(f),
            other.wf(f),
        ensures
            r.wf(f),
            r@ == self@.remainder(other@),
    {
        match (self, other) {
            (Value::NotANumber, _) => Value::NotANumber,
            (_, Value::NotANumber) => Value::NotANumber,
            (Value::Infinite { .. }, _) => Value::NotANumber,
            (Value::Finite { .. }, Value::Infinite { .. }) => self,
            (Value::Finite { neg, m: ma, e: ea }, Value::Finite { m: mb, e: eb, .. }) => {
                proof {
                    lemma_mag_zero(mb, eb);
                }
                if mb == 0 {
                    Value::NotANumber
                } else {
                    rem_digits(f, neg, ma, ea, mb, eb)
                }
            },
        }
    }

    pub(crate) fn at_least(self, f: Format, other: Value) -> (r: bool)
        requires
            self.wf(f),
            other.wf(f),
        ensures
            r == self@.at_least(other@),
    {
        match (self, other) {
            (Value::NotANumber, _) => false,
            (_, Value::NotANumber) => false,
            (Value::Infinite { neg: a }, Value::Infinite { neg: b }) => !a || b,
            (Value::Infinite { neg: a }, Value::Finite { .. }) => !a,
            (Value::Finite { .. }, Value::Infinite { neg: b }) => b,
            (Value::Finite { neg: a, m: ma, e: ea }, Value::Finite { neg: b, m: mb, e: eb }) => {
                proof {
                    lemma_mag_zero(ma, ea);
                    lemma_mag_zero(mb, eb);
                    if ea > eb {
                        lemma_digits_order(f, ma, ea, mb, eb);
                    } else if ea < eb {
                        lemma_digits_order(f, mb, eb, ma, ea);
                    } else {
                        lemma_pow2_pos(ea as nat);
                        lemma_same_exponent(ma, mb, ea);
                    }
                }
                let above = ea > eb || (ea == eb && ma > mb);
                let below = ea < eb || (ea == eb && ma < mb);
                if a && b {
                    !above
                } else if a {
                    ma == 0 && mb == 0
                } else if b {
                    true
                } else {
                    !below
                }
            },
        }
    }

    /// The integer part, held to the range `0..=max`.
    pub(crate) fn whole(self, f: Format, max: u64) -> (r: u64)
        requires
            self.wf(f),
        ensures
            r == self@.whole(f, max as nat),
    {
        match self {
            Value::NotANumber => 0,
            Value::Infinite { neg } => if neg {
                0
            } else {
                max
            },
            Value::Finite { neg, m, e } => {
                if neg {
                    0
                } else {
                    let n: u128 = whole_digits(f, m, e, false);
                    if n > max as u128 {
                        max
                    } else {
                        n as u64
                    }
                }
            },
        }
    }

    /// The nearest integer, halves upwards in size, held to the range `0..=max`.
    pub(crate) fn nearest_whole(self, f: Format, max: u64) -> (r: u64)
        requires
            self.wf(f),
        ensures
            r == self@.nearest_whole(f, max as nat),
    {
        match self {
            Value::Finite { neg, m, e } => {
                if neg {
                    0
                } else {
                    let n: u128 = whole_digits(f, m, e, true);
                    if n > max as u128 {
                        max
                    } else {
                        n as u64
                    }
                }
            },
            _ => self.whole(f, max),
        }
    }

    pub(crate) fn widened(self) -> (r: Value)
        requires
            self.wf(Format::Single),
        ensures
            r.wf(Format::Double),
            r@ == self@.widened(),
    {
        match self {
            Value::NotANumber => Value::NotANumber,
            Value::Infinite { neg } => Value::Infinite { neg },
            Value::Finite { neg, m, e } => widen_digits(neg, m, e),
        }
    }

    pub(crate) fn narrowed(self) -> (r: Value)
        requires
            self.wf(Format::Double),
        ensures
            r.wf(Format::Single),
            r@ == self@.narrowed(),
    {
        match self {
            Value::NotANumber => Value::NotANumber,
            Value::Infinite { neg } => Value::Infinite { neg },
            Value::Finite { neg, m, e } => {
                let ghost num = m as nat * pow2(e as nat);
                let ghost den = pow2(925);
                let ghost x = Scaled { num, den, a: 925, b: e as nat, rest: 0 };
                proof {
                    lemma_small_powers();
                    lemma_pow2_pos(925);
                    lemma_pow2_pos(e as nat);
                    lemma_mul_strictly_positive(pow2(925) as int, pow2(e as nat) as int);
                    assert(num * pow2(925) == m as nat * (den * pow2(e as nat)) + 0)
                        by (nonlinear_arith)
                        requires
                            num == m as nat * pow2(e as nat),
                            den == pow2(925),
                    ;
                }
                let digits = round_scaled(24, m as u128, e as i32 - 925, false, Ghost(x));
                finish(Format::Single, neg, digits, Ghost(num), Ghost(den))
            },
        }
    }
}

/// The integer part of a magnitude, or the nearest integer where `nearest` asks
/// for it; anything above the range of `u64` comes out as something above it.
fn whole_digits(f: Format, m: u64, e: u32, nearest: bool) -> (r: u128)
    requires
        digits_wf(f, m, e),
    ensures
        ({
            let mag = m as nat * pow2(e as nat);
            let exact = if nearest {
                (2 * mag + f.one()) / (2 * f.one())
            } else {
                mag / f.one()
            };
            r == exact || (r > u64::MAX && exact > u64::MAX)
        }),
{
    let unit: u32 = unit_of(f);
    let ghost mag = m as nat * pow2(e as nat);
    proof {
        lemma_small_powers();
        lemma_pow2_pos(e as nat);
        lemma_pow2_pos(f.unit());
    }
    if e >= unit {
        let d: u32 = e - unit;
        proof {
            lemma_pow2_adds(d as nat, f.unit());
            lemma_pow2_pos(d as nat);
            let n = m as nat * pow2(d as nat);
            assert(mag == n * f.one()) by (nonlinear_arith)
                requires
                    mag == m as nat * pow2(e as nat),
                    pow2(e as nat) == pow2(d as nat) * f.one(),
                    n == m as nat * pow2(d as nat),
            ;
            vstd::arithmetic::div_mod::lemma_div_multiples_vanish(n as int, f.one() as int);
            assert(2 * mag + f.one() == n * (2 * f.one()) + f.one()) by (nonlinear_arith)
                requires
                    mag == n * f.one(),
            ;
            vstd::arithmetic::div_mod::lemma_fundamental_div_mod_converse(
                (2 * mag + f.one()) as int,
                (2 * f.one()) as int,
                n as int,
                f.one() as int,
            );
            assert(n * f.one() == f.one() * n) by (nonlinear_arith);
        }
        if d < 64 {
            let g: u128 = power_of_two(d);
            proof {
                lemma_pow2_strictly_increases(d as nat, 64);
                assert(m * g <= 0x20_0000_0000_0000 * 0x1_0000_0000_0000_0000) by (nonlinear_arith)
                    requires
                        0 <= m <= 0x20_0000_0000_0000,
                        0 <= g <= 0x1_0000_0000_0000_0000,
                ;
            }
            m as u128 * g
        } else {
            proof {
                lemma_pow2_pos((f.precision() - 1) as nat);
                if d > 64 {
                    lemma_pow2_strictly_increases(64, d as nat);
                }
                assert(m as nat * pow2(d as nat) > u64::MAX) by (nonlinear_arith)
                    requires
                        m >= 1,
                        pow2(d as nat) >= 0x1_0000_0000_0000_0000,
                ;
            }
            0x1_0000_0000_0000_0000
        }
    } else {
        let sh: u32 = unit - e;
        proof {
            lemma_pow2_adds(e as nat, sh as nat);
            lemma_pow2_pos(sh as nat);
            lemma_pow2_unfold(sh as nat);
            lemma_pow2_pos((sh - 1) as nat);
        }
        let ghost g = pow2(sh as nat);
        let ghost half = pow2((sh - 1) as nat);
        if nearest {
            proof {
                assert(2 * mag + f.one() == (m as nat + half) * (2 * pow2(e as nat)))
                    by (nonlinear_arith)
                    requires
                        mag == m as nat * pow2(e as nat),
                        f.one() == pow2(e as nat) * g,
                        g == 2 * half,
                ;
                assert(2 * f.one() == g * (2 * pow2(e as nat))) by (nonlinear_arith)
                    requires
                        f.one() == pow2(e as nat) * g,
                ;
                lemma_div_scale((m as nat + half) as nat, g, (2 * pow2(e as nat)) as nat);
            }
            if sh > 64 {
                proof {
                    if sh > 65 {
                        lemma_pow2_strictly_increases(64, (sh - 1) as nat);
                    }
                    vstd::arithmetic::div_mod::lemma_basic_div((m + half) as int, g as int);
                }
                0
            } else {
                proof {
                    if sh < 64 {
                        lemma_pow2_strictly_increases(sh as nat, 64);
                    }
                }
                (m as u128 + power_of_two(sh - 1)) / power_of_two(sh)
            }
        } else {
            let (high, low) = split_low(m, sh);
            proof {
                assert(f.one() == g * pow2(e as nat)) by (nonlinear_arith)
                    requires
                        f.one() == pow2(e as nat) * g,
                ;
                lemma_div_scale(m as nat, g, pow2(e as nat));
                vstd::arithmetic::div_mod::lemma_fundamental_div_mod_converse(
                    m as int,
                    g as int,
                    high as int,
                    low as int,
                );
            }
            high as u128
        }
    }
}

proof fn lemma_div_scale(a: nat, b: nat, c: nat)
    requires
        b > 0,
        c > 0,
    ensures
        (a * c) / (b * c) == a / b,
{
    vstd::arithmetic::div_mod::lemma_div_multiples_vanish_quotient(c as int, a as int, b as int);
    assert(c * a == a * c) by (nonlinear_arith);
    assert(c * b == b * c) by (nonlinear_arith);
}

/// The same magnitude in the double format, in which it is exact.
fn widen_digits(neg: bool, m: u64, e: u32) -> (r: Value)
    requires
        digits_wf(Format::Single, m, e),
    ensures
        r.wf(Format::Double),
        r@ == (Num::Finite { neg, mag: (m as nat * pow2(e as nat)) * pow2(925) }),
{
    proof {
        lemma_small_powers();
        lemma_bit_length_bounds(m as nat);
        lemma_mag_zero(0, 0);
        assert(0 * pow2(925) == 0) by (nonlinear_arith);
        lemma_mag_zero(m, e);
    }
    if m == 0 {
        return Value::Finite { neg, m: 0, e: 0 };
    }
    let len: u32 = bit_length_of(m as u128);
    assert(len <= 24) by {
        if len > 25 {
            lemma_pow2_strictly_increases(24, (len - 1) as nat);
        }
    }
    let sh: u32 = 53 - len;
    let g: u128 = power_of_two(sh);
    proof {
        lemma_pow2_pos(sh as nat);
        lemma_pow2_adds(len as nat, sh as nat);
        lemma_pow2_adds((len - 1) as nat, sh as nat);
        assert(m * g < pow2(53)) by (nonlinear_arith)
            requires
                m < pow2(len as nat),
                pow2(53) == pow2(len as nat) * g,
                g > 0,
        ;
        assert(m * g >= pow2(52)) by (nonlinear_arith)
            requires
                m >= pow2((len - 1) as nat),
                pow2(52) == pow2((len - 1) as nat) * g,
                g > 0,
        ;
        lemma_pow2_adds(e as nat, 925);
        lemma_pow2_adds(sh as nat, (e + 925 - sh) as nat);
        let top = pow2((e + 925 - sh) as nat);
        assert((m * g) * top == (m as nat * pow2(e as nat)) * pow2(925)) by (nonlinear_arith)
            requires
                g * top == pow2(e as nat) * pow2(925),
        ;
    }
    Value::Finite { neg, m: (m as u128 * g) as u64, e: e + 925 - sh }
}

proof fn lemma_mag_zero(m: u64, e: u32)
    ensures
        m == 0 <==> m as nat * pow2(e as nat) == 0,
        pow2(0) == 1,
{
    lemma_small_powers();
    lemma_pow2_pos(e as nat);
    assert(m == 0 <==> m as nat * pow2(e as nat) == 0) by (nonlinear_arith)
        requires
            pow2(e as nat) > 0,
    ;
}

proof fn lemma_same_exponent(ma: u64, mb: u64, e: u32)
    ensures
        ma > mb <==> ma as nat * pow2(e as nat) > mb as nat * pow2(e as nat),
        ma < mb <==> (ma as nat * pow2(e as nat)) < mb as nat * pow2(e as nat),
{
    lemma_pow2_pos(e as nat);
    assert(ma > mb <==> ma as nat * pow2(e as nat) > mb as nat * pow2(e as nat)) by (nonlinear_arith)
        requires
            pow2(e as nat) > 0,
    ;
    assert(ma < mb <==> (ma as nat * pow2(e as nat)) < mb as nat * pow2(e as nat))
        by (nonlinear_arith)
        requires
            pow2(e as nat) > 0,
    ;
}

} // verus!
