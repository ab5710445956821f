//! What the luma of a pixel is, without reference to how it is rounded on the
//! way.

use crate::analysis::{luma, weighted, BLUE_WEIGHT, GREEN_WEIGHT, RED_WEIGHT};
use crate::number::{lemma_small_int, Format, Num};
use crate::number_laws::{lemma_nearest_to, nearest_to};
use crate::rounding::{lemma_round_to_error, lemma_round_to_scale};
use crate::single::single_num;
use vstd::arithmetic::div_mod::{lemma_fundamental_div_mod, lemma_fundamental_div_mod_converse};
use vstd::arithmetic::power2::{
    lemma2_to64, lemma_pow2_adds, lemma_pow2_pos, lemma_pow2_strictly_increases, pow2,
};
use vstd::prelude::*;

verus! {

/// The three weights, in a common unit of which one has 2^27.
proof fn lemma_weights()
    ensures
        single_num(RED_WEIGHT) == (Num::Finite { neg: false, mag: 40131100 * pow2(122) }),
        single_num(GREEN_WEIGHT) == (Num::Finite { neg: false, mag: 78785808 * pow2(122) }),
        single_num(BLUE_WEIGHT) == (Num::Finite { neg: false, mag: 15300821 * pow2(122) }),
        pow2(149) == 0x800_0000 * pow2(122),
        pow2(157) == 0x8_0000_0000 * pow2(122),
        pow2(133) == 0x800 * pow2(122),
{
    assert(RED_WEIGHT / 0x80_0000 == 125 && RED_WEIGHT % 0x80_0000 == 0x19_1687);
    assert(GREEN_WEIGHT / 0x80_0000 == 126 && GREEN_WEIGHT % 0x80_0000 == 0x16_45a2);
    assert(BLUE_WEIGHT / 0x80_0000 == 123 && BLUE_WEIGHT % 0x80_0000 == 0x69_78d5);
    lemma2_to64();
    vstd::arithmetic::power2::lemma2_to64_rest();
    lemma_pow2_adds(2, 122);
    lemma_pow2_adds(3, 122);
    lemma_pow2_adds(27, 122);
    lemma_pow2_adds(35, 122);
    lemma_pow2_adds(11, 122);
    let v = pow2(122);
    assert(0x99_1687 * (4 * v) == 40131100 * v);
    assert(0x96_45a2 * (8 * v) == 78785808 * v);
}

/// A weighted level is off by no more than 2^10 of the common units.
proof fn lemma_weighted_error(weight: u32, scale: nat, level: u8)
    requires
        single_num(weight) == (Num::Finite { neg: false, mag: scale * pow2(122) }),
        scale <= 78785808,
    ensures
        ({
            let v = pow2(122);
            let exact = scale * (level * v);
            &&& weighted(weight, level) matches Num::Finite { neg: false, mag }
            &&& mag <= exact + 1024 * v
            &&& mag >= exact - 1024 * v
            &&& nearest_to(Format::Single, mag, exact as nat, 1)
        }),
{
    let v = pow2(122);
    let u = pow2(149);
    let x = scale * (level * v);
    lemma_weights();
    lemma2_to64();
    lemma_pow2_pos(122);
    lemma_pow2_pos(149);
    lemma_small_int(Format::Single, level as nat);
    assert((scale * v) * (level * u) == (scale * (level * v)) * u) by (nonlinear_arith);
    lemma_round_to_scale(24, x as nat, 1, u);
    assert(x <= 78785808 * (255 * v)) by (nonlinear_arith)
        requires
            x == scale * (level * v),
            scale <= 78785808,
            0 <= level <= 255,
            v > 0,
    ;
    assert(0 <= x) by (nonlinear_arith)
        requires
            x == scale * (level * v),
            scale >= 0,
            0 <= level,
            v > 0,
    ;
    lemma_round_to_error(24, x as nat, 1, 157);
    lemma_pow2_strictly_increases(157, 277);
    lemma_nearest_to(Format::Single, false, x as nat, 1);
}

/// A sum below 256 is off by no more than 2^10 of the common units.
proof fn lemma_sum_error(x: nat, y: nat)
    requires
        x + y < pow2(157),
    ensures
        ({
            let v = pow2(122);
            let sum = (Num::Finite { neg: false, mag: x }).plus(
                Format::Single,
                Num::Finite { neg: false, mag: y },
            );
            &&& sum matches Num::Finite { neg: false, mag }
            &&& mag <= x + y + 1024 * v
            &&& mag >= x + y - 1024 * v
            &&& nearest_to(Format::Single, mag, x + y, 1)
        }),
{
    lemma_weights();
    lemma_pow2_pos(122);
    lemma_round_to_error(24, x + y, 1, 157);
    lemma_pow2_adds(120, 157);
    lemma_pow2_pos(120);
    lemma2_to64();
    lemma_pow2_strictly_increases(1, 120);
    assert(pow2(277) >= 2 * pow2(157)) by (nonlinear_arith)
        requires
            pow2(277) == pow2(120) * pow2(157),
            pow2(120) >= 2,
    ;
    lemma_nearest_to(Format::Single, false, x + y, 1);
}

/// The numbers on the way to a luma: the weighted levels, the sum of the first two, and
/// the sum of all.
pub ghost struct LumaSteps {
    pub red: nat,
    pub green: nat,
    pub blue: nat,
    pub two: nat,
    pub all: nat,
}

/// Each of the numbers is the nearest single there is: of the level times the single
/// nearest to 0.299, 0.587 or 0.114, and of the sums.
pub open spec fn taken_for(steps: LumaSteps, r: u8, g: u8, b: u8) -> bool {
    let v = pow2(122);
    &&& nearest_to(Format::Single, steps.red, (40131100 * (r * v)) as nat, 1)
    &&& nearest_to(Format::Single, steps.green, (78785808 * (g * v)) as nat, 1)
    &&& nearest_to(Format::Single, steps.blue, (15300821 * (b * v)) as nat, 1)
    &&& nearest_to(Format::Single, steps.two, steps.red + steps.green, 1)
    &&& nearest_to(Format::Single, steps.all, steps.two + steps.blue, 1)
}

/// The weighted levels of a pixel add up to `0.299 r + 0.587 g + 0.114 b`, but for
/// less than a thousandth.
proof fn lemma_luma_sum(r: u8, g: u8, b: u8) -> (s: nat)
    ensures
        exists|steps: LumaSteps| taken_for(steps, r, g, b) && steps.all == s,
        luma(r, g, b) == (Num::Finite { neg: false, mag: s }).nearest_whole(Format::Single, 255),
        (299 * r + 587 * g + 114 * b) * pow2(149) - pow2(149) < 1000 * s,
        1000 * s < (299 * r + 587 * g + 114 * b) * pow2(149) + pow2(149),
{
    reveal(luma);
    let v = pow2(122);
    let u = pow2(149);
    let k = 299 * r + 587 * g + 114 * b;
    lemma_weights();
    lemma_pow2_pos(122);
    lemma_weighted_error(RED_WEIGHT, 40131100, r);
    lemma_weighted_error(GREEN_WEIGHT, 78785808, g);
    lemma_weighted_error(BLUE_WEIGHT, 15300821, b);
    let rv = r * v;
    let gv = g * v;
    let bv = b * v;
    assert(0 <= rv <= 255 * v && 0 <= gv <= 255 * v && 0 <= bv <= 255 * v) by (nonlinear_arith)
        requires
            rv == r * v,
            gv == g * v,
            bv == b * v,
            0 <= r <= 255,
            0 <= g <= 255,
            0 <= b <= 255,
            v > 0,
    ;
    let red = weighted(RED_WEIGHT, r)->mag;
    let green = weighted(GREEN_WEIGHT, g)->mag;
    let blue = weighted(BLUE_WEIGHT, b)->mag;
    lemma_sum_error(red, green);
    let two = weighted(RED_WEIGHT, r).plus(Format::Single, weighted(GREEN_WEIGHT, g));
    lemma_sum_error(two->mag, blue);
    let s = two.plus(Format::Single, weighted(BLUE_WEIGHT, b))->mag;
    // The sum, a thousand times, is less than one away from the weighted levels.
    let ku = k * u;
    assert(ku == 0x800_0000 * (299 * rv + 587 * gv + 114 * bv)) by (nonlinear_arith)
        requires
            ku == (299 * r + 587 * g + 114 * b) * u,
            u == 0x800_0000 * v,
            rv == r * v,
            gv == g * v,
            bv == b * v,
    ;
    assert(ku - u < 1000 * s < ku + u);
    let steps = LumaSteps { red, green, blue, two: two->mag, all: s };
    assert(taken_for(steps, r, g, b));
    s
}

/// The luma is the integer nearest to the sum, taken in single precision from left to
/// right; exactly halfway it is the larger one.
pub proof fn lemma_luma_in_steps(r: u8, g: u8, b: u8) -> (steps: LumaSteps)
    ensures
        taken_for(steps, r, g, b),
        luma(r, g, b) < 255 ==> 2 * steps.all < (2 * luma(r, g, b) + 1) * pow2(149),
        luma(r, g, b) > 0 ==> 2 * steps.all >= (2 * luma(r, g, b) - 1) * pow2(149),
{
    let s = lemma_luma_sum(r, g, b);
    let u = pow2(149);
    lemma_pow2_pos(149);
    let top = 2 * s + u;
    lemma_fundamental_div_mod(top as int, (2 * u) as int);
    let n = top / (2 * u);
    let rest = top % (2 * u);
    let l = luma(r, g, b);
    let nu = n * u;
    let lu = l * u;
    assert(top == 2 * nu + rest) by (nonlinear_arith)
        requires
            top == (2 * u) * n + rest,
            nu == n * u,
    ;
    assert(lu <= nu) by (nonlinear_arith)
        requires
            l <= n,
            lu == l * u,
            nu == n * u,
    ;
    assert((2 * l + 1) * u == 2 * lu + u && (2 * l - 1) * u == 2 * lu - u) by (nonlinear_arith)
        requires
            lu == l * u,
    ;
    choose|steps: LumaSteps| taken_for(steps, r, g, b) && steps.all == s
}

/// The luma of every pixel is at most one half away from `0.299 r + 0.587 g +
/// 0.114 b`.
pub proof fn lemma_luma_close(r: u8, g: u8, b: u8)
    ensures
        -500 <= 1000 * luma(r, g, b) - (299 * r + 587 * g + 114 * b) <= 500,
        luma(r, g, b) <= 255,
{
    let s = lemma_luma_sum(r, g, b);
    let u = pow2(149);
    lemma_pow2_pos(149);
    let k = 299 * r + 587 * g + 114 * b;
    let ku = k * u;
    let top = 2 * s + u;
    lemma_fundamental_div_mod(top as int, (2 * u) as int);
    let n = top / (2 * u);
    let rest = top % (2 * u);
    let nu = n * u;
    assert(top == 2 * nu + rest) by (nonlinear_arith)
        requires
            top == (2 * u) * n + rest,
            nu == n * u,
    ;
    assert(1000 * n - k <= 500) by (nonlinear_arith)
        requires
            2000 * nu < 2 * ku + 1002 * u,
            nu == n * u,
            ku == k * u,
            u > 0,
    ;
    assert(1000 * n - k >= -500) by (nonlinear_arith)
        requires
            2000 * nu + 2000 * u > 2 * ku + 998 * u,
            nu == n * u,
            ku == k * u,
            u > 0,
    ;
}

/// The luma of a pixel is the integer nearest to `0.299 r + 0.587 g + 0.114 b`,
/// wherever that is not halfway between two integers.
pub proof fn lemma_luma_nearest(r: u8, g: u8, b: u8)
    requires
        (299 * r + 587 * g + 114 * b) % 1000 != 500,
    ensures
        luma(r, g, b) == (299 * r + 587 * g + 114 * b + 500) / 1000,
{
    let s = lemma_luma_sum(r, g, b);
    let u = pow2(149);
    lemma_pow2_pos(149);
    let k = 299 * r + 587 * g + 114 * b;
    let ku = k * u;
    let q = (k + 500) / 1000;
    let t = (k + 500) % 1000;
    let qu = q * u;
    let tu = t * u;
    assert(ku + 500 * u == 1000 * qu + tu) by (nonlinear_arith)
        requires
            ku == k * u,
            qu == q * u,
            tu == t * u,
            k + 500 == 1000 * q + t,
    ;
    assert(u <= tu <= 999 * u) by (nonlinear_arith)
        requires
            1 <= t <= 999,
            tu == t * u,
            u > 0,
    ;
    let rest = 2 * s + u - 2 * qu;
    assert(0 <= rest < 2 * u);
    assert(2 * s + u == q * (2 * u) + rest) by (nonlinear_arith)
        requires
            qu == q * u,
            rest == 2 * s + u - 2 * qu,
    ;
    lemma_fundamental_div_mod_converse((2 * s + u) as int, (2 * u) as int, q as int, rest);
}

/// The luma of a gray pixel is its level.
pub proof fn lemma_luma_of_gray(v: u8)
    ensures
        luma(v, v, v) == v,
{
    lemma_luma_nearest(v, v, v);
}

/// The luma of a pixel is an intensity.
pub proof fn lemma_luma_range(r: u8, g: u8, b: u8)
    ensures
        luma(r, g, b) <= 255,
{
    reveal(luma);
}

} // verus!
