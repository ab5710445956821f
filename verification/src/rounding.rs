//! Rounding of non-negative rationals to a fixed number of significant bits,
//! to nearest with ties to even.
//!
//! Both binary formats of [`crate::single`] and [`crate::double`] are built on
//! [`round_to`]: a magnitude is a natural number of the format's smallest
//! positive value, so that every magnitude below two to the precision is
//! representable, and above it only the leading bits are kept.

use vstd::arithmetic::div_mod::{
    lemma_div_denominator, lemma_fundamental_div_mod, lemma_fundamental_div_mod_converse,
};
use vstd::arithmetic::mul::{
    lemma_mul_inequality, lemma_mul_is_commutative, lemma_mul_strictly_positive,
};
use vstd::arithmetic::power2::{
    lemma_pow2_adds, lemma_pow2_pos, lemma_pow2_strictly_increases, lemma_pow2_unfold, pow2,
};
use vstd::prelude::*;

verus! {

/// The integer nearest to `num / den`; halfway between two, the even one.
pub open spec fn nearest_even(num: nat, den: nat) -> nat {
    let q = num / den;
    let r = num % den;
    if 2 * r < den || (2 * r == den && q % 2 == 0) {
        q
    } else {
        q + 1
    }
}

/// The number of binary digits of `n`; zero has none.
pub open spec fn bit_length(n: nat) -> nat
    decreases n,
{
    if n == 0 {
        0
    } else {
        1 + bit_length(n / 2)
    }
}

/// `num / den` rounded to an integer of at most `precision` significant bits:
/// the nearest multiple of the power of two that leaves that many bits.
pub open spec fn round_to(precision: nat, num: nat, den: nat) -> nat {
    let bits = bit_length(num / den);
    if bits <= precision {
        nearest_even(num, den)
    } else {
        let grid = pow2((bits - precision) as nat);
        nearest_even(num, den * grid) * grid
    }
}

/// `n` lies between the powers of two that its number of digits names, and
/// the number of digits is the only one for which it does.
pub proof fn lemma_bit_length_bounds(n: nat)
    ensures
        n < pow2(bit_length(n)),
        n > 0 ==> bit_length(n) > 0 && pow2((bit_length(n) - 1) as nat) <= n,
    decreases n,
{
    if n == 0 {
        lemma_pow2_pos(0);
    } else {
        lemma_bit_length_bounds(n / 2);
        let k = bit_length(n / 2);
        lemma_pow2_unfold(k + 1);
        if n / 2 > 0 {
            lemma_pow2_unfold(k);
        } else {
            vstd::arithmetic::power2::lemma2_to64();
        }
    }
}

pub proof fn lemma_bit_length_unique(n: nat, k: nat)
    requires
        k > 0,
        pow2((k - 1) as nat) <= n < pow2(k),
    ensures
        bit_length(n) == k,
{
    lemma_bit_length_bounds(n);
    lemma_pow2_pos((k - 1) as nat);
    let b = bit_length(n);
    if b < k {
        if b < k - 1 {
            lemma_pow2_strictly_increases(b, (k - 1) as nat);
        }
    }
    if b > k {
        if k < b - 1 {
            lemma_pow2_strictly_increases(k, (b - 1) as nat);
        }
    }
}

/// Dropping the last `k` binary digits leaves that many fewer.
pub proof fn lemma_bit_length_shift(n: nat, k: nat)
    ensures
        bit_length(n / pow2(k)) == (if bit_length(n) >= k {
            (bit_length(n) - k) as nat
        } else {
            0
        }),
    decreases k,
{
    lemma_pow2_pos(k);
    if k == 0 {
        vstd::arithmetic::power2::lemma2_to64();
    } else {
        lemma_bit_length_shift(n, (k - 1) as nat);
        lemma_pow2_unfold(k);
        lemma_pow2_pos((k - 1) as nat);
        let h = pow2((k - 1) as nat);
        lemma_div_denominator(n as int, h as int, 2);
        assert(h * 2 == pow2(k));
        assert(n / pow2(k) == (n / h) / 2);
    }
}

pub proof fn lemma_bit_length_monotone(a: nat, b: nat)
    requires
        a <= b,
    ensures
        bit_length(a) <= bit_length(b),
    decreases b,
{
    if a > 0 {
        lemma_bit_length_monotone(a / 2, b / 2);
    }
}

/// A quotient does not change when both sides are multiplied.
pub proof fn lemma_nearest_even_scale(num: nat, den: nat, c: nat)
    requires
        den > 0,
        c > 0,
    ensures
        (num * c) / (den * c) == num / den,
        nearest_even(num * c, den * c) == nearest_even(num, den),
{
    let q = num / den;
    let r = num % den;
    lemma_fundamental_div_mod(num as int, den as int);
    assert(num * c == q * (den * c) + r * c) by (nonlinear_arith)
        requires
            num == den * q + r,
    ;
    assert(0 <= r * c < den * c) by (nonlinear_arith)
        requires
            0 <= r < den,
            c > 0,
    ;
    lemma_fundamental_div_mod_converse((num * c) as int, (den * c) as int, q as int, (r * c) as int);
    assert(2 * (r * c) < den * c <==> 2 * r < den) by (nonlinear_arith)
        requires
            c > 0,
    ;
    assert(2 * (r * c) == den * c <==> 2 * r == den) by (nonlinear_arith)
        requires
            c > 0,
    ;
}

pub proof fn lemma_round_to_scale(precision: nat, num: nat, den: nat, c: nat)
    requires
        den > 0,
        c > 0,
    ensures
        round_to(precision, num * c, den * c) == round_to(precision, num, den),
{
    lemma_nearest_even_scale(num, den, c);
    let bits = bit_length(num / den);
    if bits > precision {
        let grid = pow2((bits - precision) as nat);
        lemma_pow2_pos((bits - precision) as nat);
        lemma_mul_strictly_positive(den as int, grid as int);
        lemma_nearest_even_scale(num, den * grid, c);
        assert((den * grid) * c == (den * c) * grid) by (nonlinear_arith);
    }
}

/// An integer quotient is its own rounding.
pub proof fn lemma_nearest_even_exact(q: nat, den: nat)
    requires
        den > 0,
    ensures
        (q * den) / den == q,
        (q * den) % den == 0,
        nearest_even(q * den, den) == q,
{
    lemma_fundamental_div_mod_converse((q * den) as int, den as int, q as int, 0);
}

/// What has few enough significant digits is its own rounding.
pub proof fn lemma_round_to_exact(precision: nat, m: nat, e: nat)
    requires
        m < pow2(precision),
    ensures
        round_to(precision, m * pow2(e), 1) == m * pow2(e),
{
    let x = m * pow2(e);
    lemma_pow2_pos(e);
    assert(x / 1 == x && x * 1 == x);
    lemma_nearest_even_exact(x, 1);
    if m > 0 {
        let bits = bit_length(x);
        lemma_bit_length_shift(x, e);
        lemma_bit_length_bounds(m);
        lemma_bit_length_bounds(x);
        lemma_nearest_even_exact(m, pow2(e));
        assert(x / pow2(e) == m);
        assert(bit_length(m) <= precision) by {
            if bit_length(m) > precision {
                if precision < bit_length(m) - 1 {
                    lemma_pow2_strictly_increases(precision, (bit_length(m) - 1) as nat);
                }
            }
        }
        if bits > precision {
            let g = (bits - precision) as nat;
            assert(g <= e);
            lemma_pow2_pos(g);
            lemma_pow2_adds((e - g) as nat, g);
            let q = m * pow2((e - g) as nat);
            assert(x == q * pow2(g)) by (nonlinear_arith)
                requires
                    x == m * pow2(e),
                    pow2(e) == pow2((e - g) as nat) * pow2(g),
                    q == m * pow2((e - g) as nat),
            ;
            lemma_nearest_even_exact(q, pow2(g));
            assert(1 * pow2(g) == pow2(g));
        }
    } else {
        assert(x == 0) by (nonlinear_arith)
            requires
                x == m * pow2(e),
                m == 0,
        ;
    }
}

/// A larger quotient is not rounded to a smaller integer.
pub proof fn lemma_nearest_even_monotone(a: nat, b: nat, den: nat)
    requires
        den > 0,
        a <= b,
    ensures
        nearest_even(a, den) <= nearest_even(b, den),
{
    vstd::arithmetic::div_mod::lemma_div_is_ordered(a as int, b as int, den as int);
    lemma_fundamental_div_mod(a as int, den as int);
    lemma_fundamental_div_mod(b as int, den as int);
    if a / den == b / den {
        assert(a % den <= b % den);
    }
}

/// Rounding stays between the powers of two that the number of digits names.
proof fn lemma_round_to_range(precision: nat, num: nat, den: nat)
    requires
        den > 0,
        precision > 0,
    ensures
        round_to(precision, num, den) <= pow2(bit_length(num / den)),
        num / den > 0 ==> bit_length(num / den) > 0 && round_to(precision, num, den) >= pow2(
            (bit_length(num / den) - 1) as nat,
        ),
{
    let bits = bit_length(num / den);
    lemma_bit_length_bounds(num / den);
    lemma_fundamental_div_mod(num as int, den as int);
    let high = pow2(bits);
    let q = num / den;
    let r = num % den;
    assert(num <= high * den) by (nonlinear_arith)
        requires
            num == den * q + r,
            r < den,
            q + 1 <= high,
    ;
    let low = if num / den > 0 {
        pow2((bits - 1) as nat)
    } else {
        0
    };
    assert(low * den <= num) by (nonlinear_arith)
        requires
            num == den * q + r,
            r >= 0,
            low <= q,
            den > 0,
    ;
    if bits <= precision {
        lemma_nearest_even_monotone(num, high * den, den);
        lemma_nearest_even_exact(high, den);
        lemma_nearest_even_monotone(low * den, num, den);
        lemma_nearest_even_exact(low, den);
    } else {
        let g = (bits - precision) as nat;
        let grid = pow2(g);
        lemma_pow2_pos(g);
        lemma_mul_strictly_positive(den as int, grid as int);
        lemma_pow2_adds(precision, g);
        lemma_pow2_adds((precision - 1) as nat, g);
        let most = pow2(precision);
        let least = pow2((precision - 1) as nat);
        assert(high * den == most * (den * grid)) by (nonlinear_arith)
            requires
                high == most * grid,
        ;
        assert(low * den == least * (den * grid)) by (nonlinear_arith)
            requires
                low == least * grid,
        ;
        lemma_nearest_even_monotone(num, most * (den * grid), den * grid);
        lemma_nearest_even_exact(most, den * grid);
        lemma_nearest_even_monotone(least * (den * grid), num, den * grid);
        lemma_nearest_even_exact(least, den * grid);
        let n = nearest_even(num, den * grid);
        lemma_mul_inequality(n as int, most as int, grid as int);
        lemma_mul_inequality(least as int, n as int, grid as int);
    }
}

/// A larger number is not rounded to a smaller one.
pub proof fn lemma_round_to_monotone(precision: nat, a: nat, den_a: nat, b: nat, den_b: nat)
    requires
        precision > 0,
        den_a > 0,
        den_b > 0,
        a * den_b <= b * den_a,
    ensures
        round_to(precision, a, den_a) <= round_to(precision, b, den_b),
{
    lemma_round_to_scale(precision, a, den_a, den_b);
    lemma_round_to_scale(precision, b, den_b, den_a);
    let x = a * den_b;
    let y = b * den_a;
    let den = den_a * den_b;
    lemma_mul_is_commutative(den_a as int, den_b as int);
    lemma_mul_strictly_positive(den_a as int, den_b as int);
    vstd::arithmetic::div_mod::lemma_div_is_ordered(x as int, y as int, den as int);
    lemma_bit_length_monotone(x / den, y / den);
    let bx = bit_length(x / den);
    let by = bit_length(y / den);
    if bx < by {
        lemma_round_to_range(precision, x, den);
        lemma_round_to_range(precision, y, den);
        lemma_bit_length_bounds(y / den);
        if bx < by - 1 {
            lemma_pow2_strictly_increases(bx, (by - 1) as nat);
        }
    } else if bx <= precision {
        lemma_nearest_even_monotone(x, y, den);
    } else {
        let g = (bx - precision) as nat;
        let grid = pow2(g);
        lemma_pow2_pos(g);
        lemma_mul_strictly_positive(den as int, grid as int);
        lemma_nearest_even_monotone(x, y, den * grid);
        lemma_mul_inequality(
            nearest_even(x, den * grid) as int,
            nearest_even(y, den * grid) as int,
            grid as int,
        );
    }
}

/// What has been rounded is not changed by rounding it again.
pub proof fn lemma_round_to_idempotent(precision: nat, num: nat, den: nat)
    requires
        precision > 0,
        den > 0,
    ensures
        round_to(precision, round_to(precision, num, den), 1) == round_to(precision, num, den),
{
    let r = round_to(precision, num, den);
    let bits = bit_length(num / den);
    lemma_round_to_range(precision, num, den);
    vstd::arithmetic::power2::lemma2_to64();
    lemma_pow2_strictly_increases(0, precision);
    if bits <= precision {
        if bits < precision {
            lemma_pow2_strictly_increases(bits, precision);
        }
        if r < pow2(precision) {
            lemma_round_to_exact(precision, r, 0);
            assert(r * pow2(0) == r);
        } else {
            lemma_round_to_exact(precision, 1, precision);
        }
    } else {
        let g = (bits - precision) as nat;
        let grid = pow2(g);
        lemma_pow2_pos(g);
        lemma_pow2_adds(precision, g);
        let n = nearest_even(num, den * grid);
        if n < pow2(precision) {
            lemma_round_to_exact(precision, n, g);
        } else {
            lemma_mul_inequality(pow2(precision) as int, n as int, grid as int);
            lemma_round_to_exact(precision, 1, precision + g);
        }
    }
}

/// Rounding a number below `2^b` moves it by at most half of `2^(b - precision)`.
pub proof fn lemma_round_to_error(precision: nat, num: nat, den: nat, b: nat)
    requires
        den > 0,
        b > precision,
        num < den * pow2(b),
    ensures
        2 * (round_to(precision, num, den) * den - num) <= den * pow2((b - precision) as nat),
        2 * (num - round_to(precision, num, den) * den) <= den * pow2((b - precision) as nat),
{
    let bits = bit_length(num / den);
    lemma_pow2_pos(b);
    let g = if bits <= precision {
        0
    } else {
        (bits - precision) as nat
    };
    let grid = pow2(g);
    lemma_pow2_pos(g);
    vstd::arithmetic::power2::lemma2_to64();
    assert(bits <= b) by {
        assert(num / den < pow2(b)) by (nonlinear_arith)
            requires
                num < den * pow2(b),
                den > 0,
        ;
        lemma_bit_length_bounds(num / den);
        if bits > b {
            if b < bits - 1 {
                lemma_pow2_strictly_increases(b, (bits - 1) as nat);
            }
        }
    }
    if g < b - precision {
        lemma_pow2_strictly_increases(g, (b - precision) as nat);
    }
    let d = den * grid;
    lemma_mul_strictly_positive(den as int, grid as int);
    let n = nearest_even(num, d);
    assert(den * 1 == den);
    assert(round_to(precision, num, den) == n * grid) by {
        if bits <= precision {
            assert(d == den);
            assert(n * grid == n);
        }
    }
    lemma_fundamental_div_mod(num as int, d as int);
    let q = num / d;
    let r = num % d;
    assert(n * d - num == (if n == q {
        -(r as int)
    } else {
        d - r
    })) by (nonlinear_arith)
        requires
            num == d * q + r,
            n == q || n == q + 1,
    ;
    assert((n * grid) * den == n * d) by (nonlinear_arith)
        requires
            d == den * grid,
    ;
    assert(d <= den * pow2((b - precision) as nat)) by (nonlinear_arith)
        requires
            d == den * grid,
            grid <= pow2((b - precision) as nat),
            den > 0,
    ;
}

/// Rounding is off by at most one part in two to the precision, or by half a unit
/// where all the digits in front of the binary point are kept.
pub proof fn lemma_round_to_relative(precision: nat, num: nat, den: nat)
    requires
        den > 0,
        precision > 0,
    ensures
        ({
            let off = round_to(precision, num, den) * den - num;
            let slack = num + pow2((precision - 1) as nat) * den;
            -slack <= pow2(precision) * off <= slack
        }),
        num >= den * pow2(precision) ==> ({
            let off = round_to(precision, num, den) * den - num;
            -num <= pow2(precision) * off <= num
        }),
{
    let bits = bit_length(num / den);
    let half = pow2((precision - 1) as nat);
    let whole = pow2(precision);
    lemma_pow2_pos((precision - 1) as nat);
    lemma_pow2_unfold(precision);
    lemma_bit_length_bounds(num / den);
    lemma_fundamental_div_mod(num as int, den as int);
    vstd::arithmetic::power2::lemma2_to64();
    let g = if bits <= precision {
        0
    } else {
        (bits - precision) as nat
    };
    let grid = pow2(g);
    lemma_pow2_pos(g);
    let d = den * grid;
    lemma_mul_strictly_positive(den as int, grid as int);
    let n = nearest_even(num, d);
    assert(den * 1 == den);
    assert(round_to(precision, num, den) == n * grid) by {
        if bits <= precision {
            assert(d == den);
            assert(n * grid == n) by (nonlinear_arith)
                requires
                    grid == 1,
            ;
        }
    }
    lemma_fundamental_div_mod(num as int, d as int);
    let q = num / d;
    let r = num % d;
    assert(n * d - num == (if n == q {
        -(r as int)
    } else {
        d - r
    })) by (nonlinear_arith)
        requires
            num == d * q + r,
            n == q || n == q + 1,
    ;
    assert((n * grid) * den == n * d) by (nonlinear_arith)
        requires
            d == den * grid,
    ;
    let off = n * d - num;
    assert(-(d as int) <= 2 * off <= d);
    assert(-(half * d) <= whole * off <= half * d) by (nonlinear_arith)
        requires
            -(d as int) <= 2 * off <= d,
            whole == 2 * half,
            half > 0,
    ;
    if bits > precision {
        lemma_pow2_adds(g, (precision - 1) as nat);
        let v = num / den;
        let low = num % den;
        assert(half * d <= num) by (nonlinear_arith)
            requires
                d == den * grid,
                grid * half <= v,
                num == den * v + low,
                den > 0,
                half > 0,
                low >= 0,
        ;
        assert(half * den >= 0) by (nonlinear_arith)
            requires
                half > 0,
        ;
    } else {
        let v = num / den;
        let low = num % den;
        if bits < precision {
            lemma_pow2_strictly_increases(bits, precision);
        }
        assert(num < den * whole) by (nonlinear_arith)
            requires
                num == den * v + low,
                low < den,
                v + 1 <= whole,
                den > 0,
        ;
    }
}

/// No multiple of `d` is nearer to `num` than the one that is chosen.
proof fn lemma_nearest_even_nearest(num: nat, d: nat, k: int)
    requires
        d > 0,
    ensures
        ({
            let near = nearest_even(num, d) * d - num;
            let far = k * d - num;
            (-far <= near <= far) || (far <= near <= -far)
        }),
{
    lemma_fundamental_div_mod(num as int, d as int);
    let q = num / d;
    let r = num % d;
    let n = nearest_even(num, d);
    assert(n * d - num == (if n == q {
        -(r as int)
    } else {
        d - r
    })) by (nonlinear_arith)
        requires
            num == d * q + r,
            n == q || n == q + 1,
    ;
    if k <= q {
        assert(k * d - num <= -(r as int)) by (nonlinear_arith)
            requires
                num == d * q + r,
                k <= q,
                d > 0,
        ;
    } else {
        assert(k * d - num >= d - r) by (nonlinear_arith)
            requires
                num == d * q + r,
                k >= q + 1,
                d > 0,
        ;
    }
}

/// Rounding gives the nearest there is: no number of as many significant bits,
/// `m` times two to the power `e`, is nearer to `num / den` than the result.
pub proof fn lemma_round_to_nearest(precision: nat, num: nat, den: nat, m: nat, e: nat)
    requires
        den > 0,
        precision > 0,
        m < pow2(precision),
    ensures
        ({
            let near = round_to(precision, num, den) * den - num;
            let far = (m * pow2(e)) * den - num;
            (-far <= near <= far) || (far <= near <= -far)
        }),
{
    let bits = bit_length(num / den);
    lemma_pow2_pos(e);
    if bits <= precision {
        lemma_nearest_even_nearest(num, den, (m * pow2(e)) as int);
    } else {
        let g = (bits - precision) as nat;
        let grid = pow2(g);
        lemma_pow2_pos(g);
        let d = den * grid;
        lemma_mul_strictly_positive(den as int, grid as int);
        let n = nearest_even(num, d);
        assert((n * grid) * den == n * d) by (nonlinear_arith)
            requires
                d == den * grid,
        ;
        if e >= g {
            let up = pow2((e - g) as nat);
            lemma_pow2_adds(g, (e - g) as nat);
            lemma_nearest_even_nearest(num, d, (m * up) as int);
            assert((m * pow2(e)) * den == (m * up) * d) by (nonlinear_arith)
                requires
                    pow2(e) == grid * up,
                    d == den * grid,
            ;
        } else {
            let half = pow2((precision - 1) as nat);
            lemma_pow2_pos((precision - 1) as nat);
            lemma_pow2_adds(g, (precision - 1) as nat);
            lemma_bit_length_bounds(num / den);
            lemma_fundamental_div_mod(num as int, den as int);
            lemma_nearest_even_nearest(num, d, half as int);
            let v = num / den;
            let low = num % den;
            assert(half * d <= num) by (nonlinear_arith)
                requires
                    d == den * grid,
                    grid * half <= v,
                    num == den * v + low,
                    den > 0,
                    half > 0,
                    low >= 0,
            ;
            lemma_pow2_adds(precision, e);
            let top = pow2(precision);
            let pe = pow2(e);
            if precision + e < bits - 1 {
                lemma_pow2_strictly_increases(precision + e, (bits - 1) as nat);
            }
            assert(m * pe <= grid * half) by (nonlinear_arith)
                requires
                    m <= top,
                    top * pe <= grid * half,
                    pe > 0,
            ;
            assert((m * pe) * den <= half * d) by (nonlinear_arith)
                requires
                    m * pe <= grid * half,
                    d == den * grid,
                    den > 0,
            ;
        }
    }
}

/// Exactly halfway between two neighbours, `m` and `m + 1` times two to the power `e`, the
/// one with the even last digit is chosen.
pub proof fn lemma_round_to_ties(precision: nat, num: nat, den: nat, m: nat, e: nat)
    requires
        den > 0,
        precision > 0,
        m < pow2(precision),
        e > 0 ==> m >= pow2((precision - 1) as nat),
        2 * num == (2 * m + 1) * (pow2(e) * den),
    ensures
        round_to(precision, num, den) == (if m % 2 == 0 {
            m
        } else {
            m + 1
        }) * pow2(e),
{
    let grid = pow2(e);
    let d = grid * den;
    lemma_pow2_pos(e);
    lemma_mul_strictly_positive(grid as int, den as int);
    vstd::arithmetic::power2::lemma2_to64();
    assert(2 * num == 2 * (d * m) + d) by (nonlinear_arith)
        requires
            2 * num == (2 * m + 1) * d,
    ;
    let r = num - d * m;
    assert(num == m * d + r) by (nonlinear_arith)
        requires
            r == num - d * m,
    ;
    lemma_fundamental_div_mod_converse(num as int, d as int, m as int, r);
    let bits = bit_length(num / den);
    lemma_bit_length_bounds(num / den);
    lemma_fundamental_div_mod(num as int, den as int);
    let v = num / den;
    let low = num % den;
    let top = pow2(precision);
    lemma_mul_is_commutative(grid as int, den as int);
    if e == 0 {
        assert(d == den) by (nonlinear_arith)
            requires
                d == grid * den,
                grid == 1,
        ;
        if bits > precision {
            if precision < bits - 1 {
                lemma_pow2_strictly_increases(precision, (bits - 1) as nat);
            }
        }
        let n = nearest_even(num, den);
        assert(n * grid == n) by (nonlinear_arith)
            requires
                grid == 1,
        ;
    } else {
        let half = pow2((precision - 1) as nat);
        lemma_pow2_adds((precision - 1) as nat, e);
        lemma_pow2_adds(precision, e);
        assert(half * grid <= v < top * grid) by (nonlinear_arith)
            requires
                num == den * v + low,
                0 <= low < den,
                num == m * d + r,
                0 <= r < d,
                d == grid * den,
                half <= m,
                m + 1 <= top,
                den > 0,
                grid > 0,
        ;
        lemma_bit_length_unique(v, precision + e);
        assert(bits == precision + e);
    }
}

/// Rounding a number that has digits to drop does not depend on where its binary
/// point is.
pub proof fn lemma_round_to_shift(precision: nat, k: nat, e: nat)
    requires
        bit_length(k) > precision,
    ensures
        round_to(precision, k * pow2(e), 1) == round_to(precision, k, 1) * pow2(e),
{
    let bits = bit_length(k);
    let x = k * pow2(e);
    lemma_pow2_pos(e);
    lemma_bit_length_bounds(k);
    lemma_pow2_adds(bits, e);
    lemma_pow2_adds((bits - 1) as nat, e);
    lemma_mul_inequality(pow2((bits - 1) as nat) as int, k as int, pow2(e) as int);
    assert(k * pow2(e) < pow2(bits) * pow2(e)) by (nonlinear_arith)
        requires
            k < pow2(bits),
            pow2(e) > 0,
    ;
    assert(x / 1 == x && k / 1 == k);
    lemma_bit_length_unique(x, bits + e);
    let g = (bits - precision) as nat;
    let grid = pow2(g);
    lemma_pow2_pos(g);
    lemma_pow2_adds(g, e);
    lemma_nearest_even_scale(k, grid, pow2(e));
    let n = nearest_even(k, grid);
    assert(n * (grid * pow2(e)) == (n * grid) * pow2(e)) by (nonlinear_arith);
    assert(1 * grid == grid && 1 * (grid * pow2(e)) == grid * pow2(e));
}

/// What `shift` dropped digits of `t`, and whether anything nonzero follows
/// them, say about the rounding of `t * den + rest` over `den` times the power.
proof fn lemma_nearest_even_sticky(t: nat, den: nat, rest: nat, shift: nat)
    requires
        den > 0,
        rest < den,
        shift > 0,
    ensures
        (t * den + rest) / den == t,
        ({
            let q = t / pow2(shift);
            let low = t % pow2(shift);
            let half = pow2((shift - 1) as nat);
            nearest_even(t * den + rest, den * pow2(shift)) == (if low < half || (low == half && rest
                == 0 && q % 2 == 0) {
                q
            } else {
                q + 1
            })
        }),
{
    let g = pow2(shift);
    let half = pow2((shift - 1) as nat);
    lemma_pow2_pos(shift);
    lemma_pow2_pos((shift - 1) as nat);
    lemma_pow2_unfold(shift);
    let q = t / g;
    let low = t % g;
    lemma_fundamental_div_mod_converse((t * den + rest) as int, den as int, t as int, rest as int);
    lemma_fundamental_div_mod(t as int, g as int);
    let r = low * den + rest;
    assert(t * den + rest == q * (den * g) + r) by (nonlinear_arith)
        requires
            t == g * q + low,
            r == low * den + rest,
    ;
    assert(r < den * g) by (nonlinear_arith)
        requires
            low + 1 <= g,
            rest < den,
            r == low * den + rest,
    ;
    lemma_fundamental_div_mod_converse((t * den + rest) as int, (den * g) as int, q as int, r as int);
    assert(den * g == 2 * (half * den)) by (nonlinear_arith)
        requires
            g == 2 * half,
    ;
    if low < half {
        assert(r < half * den) by (nonlinear_arith)
            requires
                low + 1 <= half,
                rest < den,
                r == low * den + rest,
        ;
    } else if low > half {
        assert(r > half * den) by (nonlinear_arith)
            requires
                low >= half + 1,
                den > 0,
                r == low * den + rest,
        ;
    }
}

/// A rational `num / den` written as `t + rest / (den * 2^b)` times `2^(b - a)`.
pub(crate) ghost struct Scaled {
    pub num: nat,
    pub den: nat,
    pub a: nat,
    pub b: nat,
    pub rest: nat,
}

impl Scaled {
    pub(crate) open spec fn holds(self, t: nat, k: int, sticky: bool) -> bool {
        &&& self.den > 0
        &&& k == self.b - self.a
        &&& self.num * pow2(self.a) == t * (self.den * pow2(self.b)) + self.rest
        &&& self.rest < self.den * pow2(self.b)
        &&& sticky == (self.rest != 0)
    }
}

/// The exponent of the grid that `num / den` is rounded on.
spec fn grid_exponent(precision: nat, t: nat, k: int) -> int {
    let bits = bit_length(t) + k;
    if bits > precision {
        bits - precision
    } else {
        0
    }
}

proof fn lemma_round_scaled(precision: nat, x: Scaled, t: nat, k: int, sticky: bool)
    requires
        precision > 0,
        x.holds(t, k, sticky),
        sticky ==> t >= pow2(precision + 1),
    ensures
        t == 0 ==> round_to(precision, x.num, x.den) == 0,
        t > 0 ==> ({
            let e = grid_exponent(precision, t, k);
            let m = if e <= k {
                t * pow2((k - e) as nat)
            } else {
                let s = (e - k) as nat;
                let low = t % pow2(s);
                let half = pow2((s - 1) as nat);
                if low < half || (low == half && !sticky && (t / pow2(s)) % 2 == 0) {
                    t / pow2(s)
                } else {
                    t / pow2(s) + 1
                }
            };
            &&& e >= 0
            &&& e <= k ==> !sticky
            &&& m <= pow2(precision)
            &&& e > 0 ==> m >= pow2((precision - 1) as nat)
            &&& m * pow2(e as nat) == round_to(precision, x.num, x.den)
        }),
{
    let c = pow2(x.a);
    lemma_pow2_pos(x.a);
    lemma_pow2_pos(x.b);
    let xn = x.num * c;
    let y = x.den * c;
    let d = x.den * pow2(x.b);
    lemma_mul_strictly_positive(x.den as int, c as int);
    lemma_mul_strictly_positive(x.den as int, pow2(x.b) as int);
    lemma_round_to_scale(precision, x.num, x.den, c);
    assert(round_to(precision, xn, y) == round_to(precision, x.num, x.den));
    let q0 = xn / y;
    let bits = bit_length(q0);
    lemma_bit_length_bounds(t);
    lemma_bit_length_bounds(q0);
    lemma_fundamental_div_mod_converse(xn as int, d as int, t as int, x.rest as int);
    if t == 0 {
        assert(!sticky) by {
            lemma_pow2_pos(precision + 1);
        }
        assert(0 * d == 0) by (nonlinear_arith);
        assert(xn == 0);
        lemma_nearest_even_exact(0, y);
        assert(0 * y == 0) by (nonlinear_arith);
        assert(bit_length(0) == 0);
    } else {
        let e = grid_exponent(precision, t, k);
        let tb = bit_length(t);
        if k >= 0 {
            let g = pow2(k as nat);
            lemma_pow2_pos(k as nat);
            lemma_pow2_adds(x.a, k as nat);
            assert(d == y * g) by (nonlinear_arith)
                requires
                    d == x.den * pow2(x.b),
                    y == x.den * c,
                    pow2(x.b) == c * g,
            ;
            lemma_div_denominator(xn as int, y as int, g as int);
            assert(t == q0 / g);
            lemma_bit_length_shift(q0, k as nat);
            assert(bits == tb + k);
        } else {
            let j = (-k) as nat;
            let g = pow2(j);
            lemma_pow2_pos(j);
            lemma_pow2_adds(x.b, j);
            assert(y == d * g) by (nonlinear_arith)
                requires
                    d == x.den * pow2(x.b),
                    y == x.den * c,
                    c == pow2(x.b) * g,
            ;
            lemma_div_denominator(xn as int, d as int, g as int);
            assert(q0 == t / g);
            lemma_bit_length_shift(t, j);
        }
        assert(bits == if tb + k >= 0 { tb + k } else { 0 });
        assert(e == if bits > precision { bits - precision } else { 0 });
        let ge = pow2(e as nat);
        lemma_pow2_pos(e as nat);
        if e == 0 {
            vstd::arithmetic::power2::lemma2_to64();
            assert(ge == 1);
            assert(y * ge == y) by (nonlinear_arith)
                requires
                    ge == 1,
            ;
            assert(nearest_even(xn, y) * ge == nearest_even(xn, y)) by (nonlinear_arith)
                requires
                    ge == 1,
            ;
        }
        let m = nearest_even(xn, y * ge);
        assert(m * ge == round_to(precision, xn, y));
        // The bounds of `m` come from those of the integer quotient.
        lemma_div_denominator(xn as int, y as int, ge as int);
        assert(xn / (y * ge) == q0 / ge);
        lemma_bit_length_shift(q0, e as nat);
        lemma_bit_length_bounds(q0 / ge);
        let qb = bit_length(q0 / ge);
        assert(qb <= precision);
        if qb < precision {
            lemma_pow2_strictly_increases(qb, precision);
        }
        assert(m <= pow2(precision));
        if e > 0 {
            assert(qb == precision);
            assert(m >= pow2((precision - 1) as nat));
        }
        if sticky {
            assert(tb >= precision + 2) by {
                if tb <= precision + 1 {
                    if tb < precision + 1 {
                        lemma_pow2_strictly_increases(tb, precision + 1);
                    }
                }
            }
        }
        if e <= k {
            assert(x.rest == 0);
            let f = (k - e) as nat;
            lemma_pow2_adds(x.a, k as nat);
            lemma_pow2_adds(f, e as nat);
            assert(xn == (t * pow2(f)) * (y * ge)) by (nonlinear_arith)
                requires
                    xn == t * d,
                    d == x.den * pow2(x.b),
                    y == x.den * c,
                    pow2(x.b) == c * pow2(k as nat),
                    pow2(k as nat) == pow2(f) * ge,
            ;
            lemma_mul_strictly_positive(y as int, ge as int);
            lemma_nearest_even_exact(t * pow2(f), y * ge);
            assert(m == t * pow2(f));
        } else {
            let s = (e - k) as nat;
            assert(d * pow2(s) == y * ge) by {
                if k >= 0 {
                    lemma_pow2_adds(x.a, k as nat);
                    lemma_pow2_adds(k as nat, s);
                    assert(d * pow2(s) == y * ge) by (nonlinear_arith)
                        requires
                            d == x.den * pow2(x.b),
                            y == x.den * c,
                            pow2(x.b) == c * pow2(k as nat),
                            ge == pow2(k as nat) * pow2(s),
                    ;
                } else {
                    let j = (-k) as nat;
                    lemma_pow2_adds(x.b, j);
                    lemma_pow2_adds(j, e as nat);
                    assert(d * pow2(s) == y * ge) by (nonlinear_arith)
                        requires
                            d == x.den * pow2(x.b),
                            y == x.den * c,
                            c == pow2(x.b) * pow2(j),
                            pow2(s) == pow2(j) * ge,
                    ;
                }
            }
            lemma_nearest_even_sticky(t, d, x.rest, s);
        }
    }
}

/// The number of binary digits of `t`.
pub(crate) fn bit_length_of(t: u128) -> (n: u32)
    ensures
        n == bit_length(t as nat),
        n <= 128,
{
    proof {
        vstd::arithmetic::power2::lemma2_to64();
        vstd::arithmetic::power2::lemma2_to64_rest();
        lemma_bit_length_shift(t as nat, 64);
    }
    let mut x: u128 = t;
    let mut n: u32 = 0;
    if x >= 0x1_0000_0000_0000_0000 {
        proof {
            lemma_bit_length_monotone(pow2(64), x as nat);
            lemma_pow2_unfold(65);
            lemma_bit_length_unique(pow2(64), 65);
        }
        x = x / 0x1_0000_0000_0000_0000;
        n = 64;
    }
    assert(bit_length(t as nat) == n + bit_length(x as nat));
    assert(x < pow2(64));
    if x >= 0x1_0000_0000 {
        proof {
            lemma_bit_length_shift(x as nat, 32);
            lemma_bit_length_monotone(pow2(32), x as nat);
            lemma_bit_length_unique(pow2(32), 33);
        }
        x = x / 0x1_0000_0000;
        n = n + 32;
    }
    assert(bit_length(t as nat) == n + bit_length(x as nat));
    if x >= 0x1_0000 {
        proof {
            lemma_bit_length_shift(x as nat, 16);
            lemma_bit_length_monotone(pow2(16), x as nat);
            lemma_bit_length_unique(pow2(16), 17);
        }
        x = x / 0x1_0000;
        n = n + 16;
    }
    assert(bit_length(t as nat) == n + bit_length(x as nat));
    if x >= 0x100 {
        proof {
            lemma_bit_length_shift(x as nat, 8);
            lemma_bit_length_monotone(pow2(8), x as nat);
            lemma_bit_length_unique(pow2(8), 9);
        }
        x = x / 0x100;
        n = n + 8;
    }
    assert(bit_length(t as nat) == n + bit_length(x as nat));
    while x > 0
        invariant
            n + x <= 120 + 256,
            bit_length(t as nat) == n + bit_length(x as nat),
        decreases x,
    {
        x = x / 2;
        n = n + 1;
    }
    proof {
        lemma_bit_length_bounds(t as nat);
        lemma_pow2_adds(64, 64);
        assert(pow2(128) > t) by (nonlinear_arith)
            requires
                pow2(128) == pow2(64) * pow2(64),
                pow2(64) == 0x1_0000_0000_0000_0000,
        ;
        if n > 129 {
            lemma_pow2_strictly_increases(128, (n - 1) as nat);
        }
    }
    n
}

/// Two to the power `s`.
pub(crate) fn power_of_two(s: u32) -> (r: u128)
    requires
        s < 128,
    ensures
        r == pow2(s as nat),
{
    proof {
        vstd::arithmetic::power2::lemma2_to64();
        lemma_pow2_adds(64, 63);
        lemma_pow2_adds(64, 64);
        if s < 127 {
            lemma_pow2_strictly_increases(s as nat, 127);
        }
    }
    if s < 64 {
        proof {
            vstd::bits::lemma_u64_pow2_no_overflow(s as nat);
            vstd::bits::lemma_u64_shl_is_mul(1, s as u64);
        }
        (1u64 << (s as u64)) as u128
    } else {
        let h: u32 = s - 64;
        proof {
            vstd::bits::lemma_u64_pow2_no_overflow(h as nat);
            vstd::bits::lemma_u64_shl_is_mul(1, h as u64);
            lemma_pow2_adds(64, h as nat);
        }
        ((1u64 << (h as u64)) as u128) * 0x1_0000_0000_0000_0000
    }
}

/// Rounds `t * 2^k`, plus something smaller than one unit of `t` where
/// `sticky` says so, to `precision` significant bits.
pub(crate) fn round_scaled(precision: u32, t: u128, k: i32, sticky: bool, Ghost(x): Ghost<Scaled>) -> (r:
    (u64, u32))
    requires
        0 < precision <= 53,
        t < pow2(127),
        -4000 <= k <= 8000,
        x.holds(t as nat, k as int, sticky),
        sticky ==> t >= pow2((precision + 1) as nat),
    ensures
        r.0 <= pow2(precision as nat),
        r.1 == 0 || r.0 >= pow2((precision - 1) as nat),
        r.0 * pow2(r.1 as nat) == round_to(precision as nat, x.num, x.den),
        r.1 <= 8128,
{
    proof {
        lemma_round_scaled(precision as nat, x, t as nat, k as int, sticky);
        vstd::arithmetic::power2::lemma2_to64();
        vstd::arithmetic::power2::lemma2_to64_rest();
        lemma_pow2_pos(precision as nat);
        if precision < 53 {
            lemma_pow2_strictly_increases(precision as nat, 53);
        }
    }
    if t == 0 {
        return (0, 0);
    }
    let bits: i32 = bit_length_of(t) as i32;
    let p: i32 = precision as i32;
    let e: i32 = if bits + k > p {
        bits + k - p
    } else {
        0
    };
    assert(e == grid_exponent(precision as nat, t as nat, k as int));
    if e <= k {
        let f: u32 = (k - e) as u32;
        let ghost m = t * pow2(f as nat);
        assert(f < 64) by {
            if f >= 64 {
                lemma_pow2_pos((f - 64) as nat);
                lemma_pow2_adds(64, (f - 64) as nat);
                assert(m >= pow2(64)) by (nonlinear_arith)
                    requires
                        m == t * pow2(f as nat),
                        pow2(f as nat) == pow2(64) * pow2((f - 64) as nat),
                        pow2((f - 64) as nat) >= 1,
                        t >= 1,
                        pow2(64) >= 0,
                ;
            }
        }
        let g: u128 = power_of_two(f);
        assert(t * g == m);
        return ((t * g) as u64, e as u32);
    }
    let s: u32 = (e - k) as u32;
    if s > 127 {
        proof {
            if s > 128 {
                lemma_pow2_strictly_increases(127, (s - 1) as nat);
            }
            lemma_pow2_strictly_increases((s - 1) as nat, s as nat);
            vstd::arithmetic::div_mod::lemma_small_mod(t as nat, pow2(s as nat));
            vstd::arithmetic::div_mod::lemma_basic_div(t as int, pow2(s as nat) as int);
        }
        return (0, e as u32);
    }
    proof {
        lemma_pow2_pos(s as nat);
    }
    let g: u128 = power_of_two(s);
    let half: u128 = power_of_two(s - 1);
    let q: u128 = t / g;
    let low: u128 = t % g;
    if low < half || (low == half && !sticky && q % 2 == 0) {
        (q as u64, e as u32)
    } else {
        ((q + 1) as u64, e as u32)
    }
}

} // verus!
