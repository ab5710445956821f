//! What holds of the floating-point arithmetic for all numbers: each operation
//! gives the number of the format that is nearest to the exact result.

use crate::double::double_num;
use crate::number::{lemma_digits_of, Format, Num};
use crate::rounding::{lemma_round_to_nearest, lemma_round_to_relative, lemma_round_to_scale};
use crate::single::single_num;
use vstd::arithmetic::power2::{lemma_pow2_adds, lemma_pow2_pos, lemma_pow2_unfold, pow2};
use vstd::prelude::*;

verus! {

/// How far apart two integers are.
pub open spec fn distance(a: int, b: int) -> int {
    if a < b {
        b - a
    } else {
        a - b
    }
}

/// A number is infinite only where the exact magnitude, `num / den` units, is
/// beyond the format but for one part in two to the precision.
pub open spec fn too_large(f: Format, num: int, den: int) -> bool {
    (pow2(f.precision()) + 1) * num >= pow2(f.precision()) * (f.limit() * den)
}

/// Rounding keeps the sign, and no number of the format is nearer to `num / den`
/// than the one that it gives.
pub proof fn lemma_rounded_nearest(f: Format, neg: bool, num: nat, den: nat, c: Num)
    requires
        den > 0,
        c is Finite,
        c.in_format(f),
    ensures
        match Num::rounded(f, neg, num, den) {
            Num::Finite { neg: n, mag } => n == neg && distance((mag * den) as int, num as int)
                <= distance((c->mag * den) as int, num as int),
            Num::Infinite { neg: n } => n == neg && too_large(f, num as int, den as int),
            Num::NotANumber => false,
        },
{
    let p = f.precision();
    let mag = Num::rounded(f, neg, num, den);
    let (m, e) = lemma_digits_of(f, c->mag);
    lemma_round_to_nearest(p, num, den, m, e);
    if mag is Infinite {
        lemma_round_to_relative(p, num, den);
        let r = crate::rounding::round_to(p, num, den);
        let limit = f.limit();
        lemma_pow2_pos(p);
        lemma_pow2_adds(p, f.top());
        let top = pow2(f.top());
        lemma_pow2_pos((f.top() - 1) as nat);
        lemma_pow2_unfold(f.top());
        let whole = pow2(p);
        let half = pow2((p - 1) as nat);
        lemma_pow2_pos((p - 1) as nat);
        lemma_pow2_unfold(p);
        assert(r * den >= limit * den) by (nonlinear_arith)
            requires
                r >= limit,
                den > 0,
        ;
        if num < den * whole {
            // Then rounding would stay far below the limit.
            let slack = num + half * den;
            assert(whole * (r * den) - whole * num <= slack) by (nonlinear_arith)
                requires
                    whole * (r * den - num) <= slack,
            ;
            assert(limit * den == whole * (top * den)) by (nonlinear_arith)
                requires
                    limit == whole * top,
            ;
            let td = top * den;
            assert(td >= 2 * den) by (nonlinear_arith)
                requires
                    top >= 2,
                    td == top * den,
            ;
            assert(whole * (r * den) >= whole * (whole * td)) by (nonlinear_arith)
                requires
                    r * den >= whole * td,
                    whole > 0,
            ;
            assert(whole * (whole * td) >= 2 * (whole * (whole * den))) by (nonlinear_arith)
                requires
                    td >= 2 * den,
                    whole > 0,
            ;
            let wd = whole * den;
            assert(whole * num <= whole * wd) by (nonlinear_arith)
                requires
                    num <= wd,
                    whole > 0,
            ;
            assert(half * den <= wd) by (nonlinear_arith)
                requires
                    wd == whole * den,
                    whole == 2 * half,
            ;
            assert(whole * wd >= 2 * wd) by (nonlinear_arith)
                requires
                    whole >= 2,
                    wd >= 0,
            ;
            assert(wd > 0) by (nonlinear_arith)
                requires
                    wd == whole * den,
                    whole > 0,
                    den > 0,
            ;
            assert(num <= wd);
            assert(false);
        }
        assert((whole + 1) * num >= whole * (limit * den)) by (nonlinear_arith)
            requires
                whole * (r * den - num) <= num,
                r * den >= limit * den,
                whole > 0,
        ;
    }
}

/// No magnitude of the format is nearer to `num / den` than `mag`.
pub open spec fn nearest_to(f: Format, mag: nat, num: nat, den: nat) -> bool {
    forall|c: Num|
        c is Finite && #[trigger] c.in_format(f) ==> distance((mag * den) as int, num as int)
            <= distance((c->mag * den) as int, num as int)
}

/// What rounding gives is the nearest there is.
pub proof fn lemma_nearest_to(f: Format, neg: bool, num: nat, den: nat)
    requires
        den > 0,
        Num::rounded(f, neg, num, den) is Finite,
    ensures
        nearest_to(f, Num::rounded(f, neg, num, den)->mag, num, den),
{
    let mag = Num::rounded(f, neg, num, den)->mag;
    assert forall|c: Num| c is Finite && #[trigger] c.in_format(f) implies distance(
        (mag * den) as int,
        num as int,
    ) <= distance((c->mag * den) as int, num as int) by {
        lemma_rounded_nearest(f, neg, num, den, c);
    }
}

/// A sum of finite numbers is the number of the format nearest to the exact sum.
pub proof fn lemma_plus_nearest(f: Format, a: Num, b: Num, c: Num)
    requires
        a is Finite,
        b is Finite,
        c is Finite,
        c.in_format(f),
    ensures
        ({
            let exact = a.signed() + b.signed();
            let r = a.plus(f, b);
            match r {
                Num::Finite { .. } => distance(r.signed(), exact) <= distance(c.signed(), exact),
                Num::Infinite { neg } => neg == (exact < 0) && too_large(f, distance(exact, 0), 1),
                Num::NotANumber => false,
            }
        }),
{
    let x = a->mag;
    let y = b->mag;
    let zero = Num::Finite { neg: false, mag: 0 };
    assert(zero.in_format(f)) by {
        lemma_pow2_pos(f.precision() + f.top());
    }
    let (neg, num): (bool, nat) = if a->Finite_neg == b->Finite_neg {
        (a->Finite_neg, x + y)
    } else if x > y {
        (a->Finite_neg, (x - y) as nat)
    } else {
        (b->Finite_neg, (y - x) as nat)
    };
    lemma_rounded_nearest(f, neg, num, 1, c);
    lemma_rounded_nearest(f, neg, num, 1, zero);
    if num == 0 {
        lemma_pow2_pos(f.precision() + f.top());
    }
    if Num::rounded(f, neg, num, 1) is Infinite && num == 0 {
        assert((pow2(f.precision()) + 1) * 0 == 0) by (nonlinear_arith);
        assert(pow2(f.precision()) * (f.limit() * 1) > 0) by (nonlinear_arith)
            requires
                f.limit() > 0,
                pow2(f.precision()) > 0,
        ;
    }
}

/// A difference of finite numbers is the number of the format nearest to the
/// exact difference.
pub proof fn lemma_minus_nearest(f: Format, a: Num, b: Num, c: Num)
    requires
        a is Finite,
        b is Finite,
        c is Finite,
        c.in_format(f),
    ensures
        ({
            let exact = a.signed() - b.signed();
            let r = a.minus(f, b);
            match r {
                Num::Finite { .. } => distance(r.signed(), exact) <= distance(c.signed(), exact),
                Num::Infinite { neg } => neg == (exact < 0) && too_large(f, distance(exact, 0), 1),
                Num::NotANumber => false,
            }
        }),
{
    lemma_plus_nearest(f, a, b.negated(), c);
}

/// A product of finite numbers has the sign of the exact product, and its
/// magnitude is the one of the format nearest to the exact magnitude. (A product
/// of two magnitudes counts in units of units.)
pub proof fn lemma_times_nearest(f: Format, a: Num, b: Num, c: Num)
    requires
        a is Finite,
        b is Finite,
        c is Finite,
        c.in_format(f),
    ensures
        ({
            let exact = (a->mag * b->mag) as int;
            let one = pow2(f.unit());
            let negative = a->Finite_neg != b->Finite_neg;
            match a.times(f, b) {
                Num::Finite { neg, mag } => neg == negative && distance((mag * one) as int, exact)
                    <= distance((c->mag * one) as int, exact),
                Num::Infinite { neg } => neg == negative && too_large(f, exact, one as int),
                Num::NotANumber => false,
            }
        }),
{
    lemma_pow2_pos(f.unit());
    lemma_rounded_nearest(
        f,
        a->Finite_neg != b->Finite_neg,
        a->mag * b->mag,
        pow2(f.unit()),
        c,
    );
}

/// A quotient of finite numbers has the sign of the exact quotient, and its
/// magnitude is the one of the format nearest to the exact magnitude. Divided by
/// zero, everything but zero is infinite.
pub proof fn lemma_over_nearest(f: Format, a: Num, b: Num, c: Num)
    requires
        a is Finite,
        b is Finite,
        c is Finite,
        c.in_format(f),
    ensures
        ({
            let exact = (a->mag * pow2(f.unit())) as int;
            let negative = a->Finite_neg != b->Finite_neg;
            match a.over(f, b) {
                Num::Finite { neg, mag } => b->mag > 0 && neg == negative && distance(
                    (mag * b->mag) as int,
                    exact,
                ) <= distance((c->mag * b->mag) as int, exact),
                Num::Infinite { neg } => neg == negative && (b->mag == 0 && a->mag > 0 || too_large(
                    f,
                    exact,
                    b->mag as int,
                )),
                Num::NotANumber => a->mag == 0 && b->mag == 0,
            }
        }),
{
    if b->mag > 0 {
        lemma_rounded_nearest(
            f,
            a->Finite_neg != b->Finite_neg,
            a->mag * pow2(f.unit()),
            b->mag,
            c,
        );
    }
}

/// An integer becomes the number of the format nearest to it.
pub proof fn lemma_of_int_nearest(f: Format, n: int, c: Num)
    requires
        c is Finite,
        c.in_format(f),
    ensures
        ({
            let exact = n * pow2(f.unit());
            let r = Num::of_int(f, n);
            match r {
                Num::Finite { .. } => distance(r.signed(), exact) <= distance(c.signed(), exact),
                Num::Infinite { neg } => neg == (n < 0) && too_large(f, distance(exact, 0), 1),
                Num::NotANumber => false,
            }
        }),
{
    let one = pow2(f.unit());
    lemma_pow2_pos(f.unit());
    let size = distance(n, 0) as nat;
    let num = size * one;
    assert(n >= 0 ==> n * one == num) by (nonlinear_arith)
        requires
            n >= 0 ==> n == size,
            num == size * one,
    ;
    assert(n < 0 ==> n * one == -num) by (nonlinear_arith)
        requires
            n < 0 ==> n == -size,
            num == size * one,
    ;
    let zero = Num::Finite { neg: false, mag: 0 };
    assert(zero.in_format(f)) by {
        lemma_pow2_pos(f.precision() + f.top());
    }
    assert(num >= 0);
    lemma_rounded_nearest(f, n < 0, num, 1, c);
    lemma_rounded_nearest(f, n < 0, num, 1, zero);
}

/// A double becomes the single that is nearest to it.
pub proof fn lemma_narrowed_nearest(a: Num, c: Num)
    requires
        a is Finite,
        c is Finite,
        c.in_format(Format::Single),
    ensures
        match a.narrowed() {
            Num::Finite { neg, mag } => neg == a->Finite_neg && distance(
                (mag * pow2(925)) as int,
                a->mag as int,
            ) <= distance((c->mag * pow2(925)) as int, a->mag as int),
            Num::Infinite { neg } => neg == a->Finite_neg && too_large(
                Format::Single,
                a->mag as int,
                pow2(925) as int,
            ),
            Num::NotANumber => false,
        },
{
    lemma_pow2_pos(925);
    lemma_rounded_nearest(Format::Single, a->Finite_neg, a->mag, pow2(925), c);
}

/// Every single comes back from the double that stands for it.
pub proof fn lemma_widened_and_back(a: Num)
    requires
        a.in_format(Format::Single),
    ensures
        a.widened().narrowed() == a,
{
    if let Num::Finite { mag, .. } = a {
        lemma_pow2_pos(925);
        lemma_round_to_scale(24, mag, 1, pow2(925));
        assert(1 * pow2(925) == pow2(925));
    }
}

/// The integer part is at most the number and more than the number less one,
/// as far as the range reaches.
pub proof fn lemma_whole_below(f: Format, a: Num, max: nat)
    requires
        a is Finite,
    ensures
        ({
            let n = a.whole(f, max);
            let one = pow2(f.unit());
            &&& n <= max
            &&& n > 0 ==> n * one <= a.signed()
            &&& n < max ==> a.signed() < (n + 1) * one
        }),
{
    let one = pow2(f.unit());
    lemma_pow2_pos(f.unit());
    let mag = a->mag;
    vstd::arithmetic::div_mod::lemma_fundamental_div_mod(mag as int, one as int);
    let q = mag / one;
    let r = mag % one;
    assert(q * one <= mag < (q + 1) * one) by (nonlinear_arith)
        requires
            mag == one * q + r,
            0 <= r < one,
    ;
    if q > max {
        assert(max * one <= q * one) by (nonlinear_arith)
            requires
                max <= q,
        ;
    }
    assert((0 + 1) * one == one) by (nonlinear_arith);
}

/// The nearest integer is at most one half away from the number, as far as the
/// range reaches.
pub proof fn lemma_nearest_whole_near(f: Format, a: Num, max: nat)
    requires
        a is Finite,
    ensures
        ({
            let n = a.nearest_whole(f, max);
            let one = pow2(f.unit());
            &&& n <= max
            &&& n > 0 ==> 2 * (n * one) - 2 * a.signed() <= one
            &&& n < max ==> 2 * a.signed() - 2 * (n * one) < one
        }),
{
    let one = pow2(f.unit());
    lemma_pow2_pos(f.unit());
    let mag = a->mag;
    assert(0 * one == 0) by (nonlinear_arith);
    if !a->Finite_neg {
        let d = 2 * one;
        let m = 2 * mag + one;
        vstd::arithmetic::div_mod::lemma_fundamental_div_mod(m as int, d as int);
        let q = m / d;
        let r = m % d;
        assert(2 * (q * one) <= m < 2 * (q * one) + 2 * one) by (nonlinear_arith)
            requires
                m == d * q + r,
                d == 2 * one,
                0 <= r < d,
        ;
        if q > max {
            assert(max * one <= q * one) by (nonlinear_arith)
                requires
                    max <= q,
            ;
        }
    }
}

/// A number held to a range lies in it, and is the number itself where that lies
/// in the range.
pub proof fn lemma_clamped_within(a: Num, low: Num, high: Num)
    requires
        !(a is NotANumber),
        high.at_least(low),
    ensures
        a.clamped(low, high).at_least(low),
        high.at_least(a.clamped(low, high)),
        a.at_least(low) && high.at_least(a) ==> a.clamped(low, high) == a,
        !a.at_least(low) ==> a.clamped(low, high) == low,
        !high.at_least(a) ==> a.clamped(low, high) == high,
{
}

/// The larger of two numbers is one of them and at least both.
pub proof fn lemma_larger_is_largest(a: Num, b: Num)
    ensures
        a.larger(b) == a || a.larger(b) == b,
        !(a is NotANumber) && !(b is NotANumber) ==> a.larger(b).at_least(a) && a.larger(
            b,
        ).at_least(b),
        a is NotANumber ==> a.larger(b) == b,
        b is NotANumber ==> a.larger(b) == a,
{
}

/// Two numbers are in order one way or the other, and both ways exactly where
/// they are the same: the order is that of their values.
pub proof fn lemma_order_is_total(a: Num, b: Num)
    requires
        !(a is NotANumber),
        !(b is NotANumber),
    ensures
        a.at_least(b) || b.at_least(a),
        a is Finite && b is Finite ==> (a.at_least(b) <==> a.signed() - b.signed() >= 0),
        a is Finite && b is Finite ==> (a.same(b) <==> a.signed() == b.signed()),
        a.above(b) <==> !b.at_least(a),
{
}

/// A remainder is smaller than the divisor, has the sign of the number, and
/// differs from it by a whole multiple of the divisor.
pub proof fn lemma_remainder_left_over(a: Num, b: Num) -> (k: nat)
    requires
        a is Finite,
        b is Finite,
        b->mag > 0,
    ensures
        a.remainder(b) matches Num::Finite { neg, mag } && neg == a->Finite_neg && mag < b->mag
            && a->mag == k * b->mag + mag,
{
    let x = a->mag;
    let y = b->mag;
    vstd::arithmetic::div_mod::lemma_fundamental_div_mod(x as int, y as int);
    let q = x / y;
    let r = x % y;
    assert(x == q * y + r) by (nonlinear_arith)
        requires
            x == y * q + r,
    ;
    q
}

/// What the bit patterns of the single format denote. Below the first exponent
/// the magnitude is the pattern itself; a pattern one exponent higher denotes
/// twice as much; within an exponent the magnitudes are evenly spaced; and the
/// top bit is the sign.
pub proof fn lemma_single_patterns(bits: u32)
    ensures
        bits < 0x100_0000 ==> single_num(bits) == (Num::Finite { neg: false, mag: bits as nat }),
        0x80_0000 <= bits < 0x7f00_0000 ==> (single_num((bits + 0x80_0000) as u32) matches Num::Finite {
            neg: false,
            mag,
        } && mag == 2 * single_num(bits)->mag),
        bits == 0x7f80_0000 ==> single_num(bits) == (Num::Infinite { neg: false }),
        0x7f80_0000 < bits < 0x8000_0000 ==> single_num(bits) is NotANumber,
        bits < 0x8000_0000 ==> single_num((bits + 0x8000_0000) as u32) == single_num(
            bits,
        ).negated(),
{
    vstd::arithmetic::power2::lemma2_to64();
    let first = (0x80_0000 + bits % 0x80_0000) as nat;
    assert(first * pow2(0) == first) by (nonlinear_arith)
        requires
            pow2(0) == 1,
    ;
    if 0x80_0000 <= bits < 0x7f00_0000 {
        let e = (bits / 0x80_0000 - 1) as nat;
        let m = (0x80_0000 + bits % 0x80_0000) as nat;
        lemma_pow2_unfold(e + 1);
        assert(m * (2 * pow2(e)) == 2 * (m * pow2(e))) by (nonlinear_arith);
        assert((bits + 0x80_0000) / 0x80_0000 == bits / 0x80_0000 + 1);
        assert((bits + 0x80_0000) % 0x80_0000 == bits % 0x80_0000);
    }
}

/// What the bit patterns of the double format denote, in the same way.
pub proof fn lemma_double_patterns(bits: u64)
    ensures
        bits < 0x20_0000_0000_0000 ==> double_num(bits) == (Num::Finite {
            neg: false,
            mag: bits as nat,
        }),
        0x10_0000_0000_0000 <= bits < 0x7fe0_0000_0000_0000 ==> (double_num(
            (bits + 0x10_0000_0000_0000) as u64,
        ) matches Num::Finite { neg: false, mag } && mag == 2 * double_num(bits)->mag),
        bits == 0x7ff0_0000_0000_0000 ==> double_num(bits) == (Num::Infinite { neg: false }),
        0x7ff0_0000_0000_0000 < bits < 0x8000_0000_0000_0000 ==> double_num(bits) is NotANumber,
        bits < 0x8000_0000_0000_0000 ==> double_num((bits + 0x8000_0000_0000_0000) as u64)
            == double_num(bits).negated(),
{
    vstd::arithmetic::power2::lemma2_to64();
    let first = (0x10_0000_0000_0000 + bits % 0x10_0000_0000_0000) as nat;
    assert(first * pow2(0) == first) by (nonlinear_arith)
        requires
            pow2(0) == 1,
    ;
    if 0x10_0000_0000_0000 <= bits < 0x7fe0_0000_0000_0000 {
        let e = (bits / 0x10_0000_0000_0000 - 1) as nat;
        let m = (0x10_0000_0000_0000 + bits % 0x10_0000_0000_0000) as nat;
        lemma_pow2_unfold(e + 1);
        assert(m * (2 * pow2(e)) == 2 * (m * pow2(e))) by (nonlinear_arith);
        assert((bits + 0x10_0000_0000_0000) / 0x10_0000_0000_0000 == bits / 0x10_0000_0000_0000
            + 1);
        assert((bits + 0x10_0000_0000_0000) % 0x10_0000_0000_0000 == bits % 0x10_0000_0000_0000);
    }
}

/// What is not a number stays so in every operation.
pub proof fn lemma_no_number_stays(f: Format, a: Num, b: Num)
    requires
        a is NotANumber || b is NotANumber,
    ensures
        a.plus(f, b) is NotANumber,
        a.minus(f, b) is NotANumber,
        a.times(f, b) is NotANumber,
        a.over(f, b) is NotANumber,
        a.remainder(b) is NotANumber,
        !a.at_least(b) && !a.above(b) && !a.same(b),
{
}

/// Infinity and a finite number: infinity takes over in sums and products, but zero times
/// infinity is no number; a finite number over infinity is zero.
pub proof fn lemma_infinity_takes_over(f: Format, neg: bool, b: Num)
    requires
        b is Finite,
    ensures
        ({
            let a = Num::Infinite { neg };
            &&& a.plus(f, b) == a
            &&& b.plus(f, a) == a
            &&& a.minus(f, b) == a
            &&& b.minus(f, a) == (Num::Infinite { neg: !neg })
            &&& b->mag > 0 ==> a.times(f, b) == (Num::Infinite { neg: neg != b->Finite_neg })
                && b.times(f, a) == a.times(f, b)
            &&& b->mag == 0 ==> a.times(f, b) is NotANumber && b.times(f, a) is NotANumber
            &&& a.over(f, b) == (Num::Infinite { neg: neg != b->Finite_neg })
            &&& b.over(f, a) == (Num::Finite { neg: neg != b->Finite_neg, mag: 0 })
            &&& a.remainder(b) is NotANumber
            &&& b.remainder(a) == b
            &&& a.at_least(b) == !neg
            &&& b.at_least(a) == neg
            &&& a.widened() == a && a.narrowed() == a
        }),
{
}

/// Two infinities: opposite ones cancel to no number in a sum, like ones in a difference,
/// and any two in a quotient.
pub proof fn lemma_infinities_meet(f: Format, x: bool, y: bool)
    ensures
        ({
            let a = Num::Infinite { neg: x };
            let b = Num::Infinite { neg: y };
            &&& x == y ==> a.plus(f, b) == a && a.minus(f, b) is NotANumber
            &&& x != y ==> a.plus(f, b) is NotANumber && a.minus(f, b) == a
            &&& a.times(f, b) == (Num::Infinite { neg: x != y })
            &&& a.over(f, b) is NotANumber
            &&& a.remainder(b) is NotANumber
            &&& a.at_least(b) == (!x || y)
        }),
{
}

/// The opposite number, and the size of a number.
pub proof fn lemma_opposite_and_size(a: Num)
    ensures
        a.negated().negated() == a,
        a is Finite ==> a.negated() is Finite && a.negated().signed() == -a.signed(),
        a is Finite ==> a.negated()->Finite_neg != a->Finite_neg,
        a is Finite ==> a.abs() is Finite && !a.abs()->Finite_neg && a.abs().signed() == distance(
            a.signed(),
            0,
        ),
        a is Infinite ==> a.abs() == (Num::Infinite { neg: false }),
        a is NotANumber ==> a.abs() is NotANumber && a.negated() is NotANumber,
{
}

/// A sum that is zero is below zero only where both numbers are.
pub proof fn lemma_zero_sums(f: Format, a: Num, b: Num)
    requires
        a is Finite,
        b is Finite,
        a.signed() + b.signed() == 0,
    ensures
        a.plus(f, b) == (Num::Finite {
            neg: a->Finite_neg && b->Finite_neg && a->mag == 0,
            mag: 0,
        }),
{
    lemma_pow2_pos(f.precision() + f.top());
    crate::rounding::lemma_nearest_even_exact(0, 1);
}

/// What is no number has the integer part zero and stays as it is in a range; infinity goes
/// to the end of the range.
pub proof fn lemma_special_parts(f: Format, max: nat, low: Num, high: Num)
    ensures
        Num::NotANumber.whole(f, max) == 0,
        Num::NotANumber.nearest_whole(f, max) == 0,
        (Num::Infinite { neg: false }).whole(f, max) == max,
        (Num::Infinite { neg: true }).whole(f, max) == 0,
        (Num::Infinite { neg: false }).nearest_whole(f, max) == max,
        (Num::Infinite { neg: true }).nearest_whole(f, max) == 0,
        Num::NotANumber.clamped(low, high) is NotANumber,
        Num::NotANumber.widened() is NotANumber,
        Num::NotANumber.narrowed() is NotANumber,
{
}

} // verus!
