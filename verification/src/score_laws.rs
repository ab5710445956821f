//! What the scores of the blocks amount to: sums, means and moving averages, each
//! held against the exact one.

use crate::analysis::{
    block_extent, blocks_across, lemma_rect_bound, mad, mads, moving_average, rect_diff, span_diff,
    sums, Motion, Total,
};
use crate::bbox::{active_blocks, is_bbox, BboxMethod};
use crate::double::Double;
use crate::motion_laws::{
    all_levels, analysed, block_in_frame, exact_sum, is_level, lemma_analysed_state,
    lemma_analysed_step, lemma_average_range, lemma_exact_sum_prefix, lemma_grid_in_frame,
    lemma_mad_range, lemma_sample_range, lemma_sum_exact, lemma_weights, packed, packed_video,
    same_block, sample,
};
use crate::number::{lemma_digits_of, lemma_small_int, Format, Num};
use crate::number_laws::{distance, lemma_nearest_to, nearest_to};
use crate::rounding::{
    lemma_nearest_even_exact, lemma_round_to_exact, lemma_round_to_monotone,
    lemma_round_to_relative, lemma_round_to_scale, round_to,
};
use vstd::arithmetic::power::{lemma_pow0, lemma_pow_positive, pow};
use vstd::arithmetic::power2::{
    lemma2_to64, lemma2_to64_rest, lemma_pow2_adds, lemma_pow2_pos, lemma_pow2_strictly_increases,
    pow2,
};
use vstd::prelude::*;

verus! {

/// The moving average is 95 parts of the old average and 5 parts of the new
/// level, up to rounding: it is off by less than one part in four million and 32
/// of the smallest units there are.
pub proof fn lemma_average_weighs(average: Num, new: Num)
    requires
        is_level(average),
        is_level(new),
    ensures
        moving_average(average, new) matches Num::Finite { neg: false, mag } && ({
            let exact = 95 * average->mag + 5 * new->mag;
            0x40_0000 * distance(100 * mag as int, exact as int) <= exact + 0x40_0000 * 160
        }),
{
    let a = average->mag;
    let m = new->mag;
    lemma_weights();
    lemma_average_range(average, new);
    lemma2_to64();
    lemma_pow2_pos(149);
    lemma_pow2_pos(125);
    lemma_pow2_pos(121);
    lemma_pow2_adds(24, 125);
    lemma_pow2_adds(28, 121);
    let u = pow2(149);
    let kv = pow2(125);
    let wv = pow2(121);
    let p = round_to(24, (0xf3_3333 * kv) * a, u);
    let q = round_to(24, (0xcc_cccd * wv) * m, u);
    assert((0xf3_3333 * kv) * a == (0xf3_3333 * a) * kv) by (nonlinear_arith);
    assert((0xcc_cccd * wv) * m == (0xcc_cccd * m) * wv) by (nonlinear_arith);
    lemma_round_to_scale(24, 0xf3_3333 * a, 0x100_0000, kv);
    lemma_round_to_scale(24, 0xcc_cccd * m, 0x1000_0000, wv);
    lemma_round_to_relative(24, 0xf3_3333 * a, 0x100_0000);
    lemma_round_to_relative(24, 0xcc_cccd * m, 0x1000_0000);
    lemma_round_to_relative(24, p + q, 1);
}

/// The moving average is taken in steps, each of which gives the nearest single there is:
/// the old average times the single nearest to 0.95, the new level times the single nearest
/// to 0.05, and their sum.
pub proof fn lemma_average_nearest(average: Num, new: Num) -> (parts: (nat, nat))
    requires
        is_level(average),
        is_level(new),
    ensures
        nearest_to(Format::Single, parts.0, 0xf3_3333 * average->mag, 0x100_0000),
        nearest_to(Format::Single, parts.1, 0xcc_cccd * new->mag, 0x1000_0000),
        nearest_to(Format::Single, moving_average(average, new)->mag, parts.0 + parts.1, 1),
        20 * 0xf3_3333 <= 19 * 0x100_0000 < 20 * 0xf3_3334,
        20 * 0xcc_cccc < 0x1000_0000 <= 20 * 0xcc_cccd,
{
    let a = average->mag;
    let m = new->mag;
    lemma_weights();
    lemma_average_range(average, new);
    lemma2_to64();
    lemma_pow2_pos(149);
    lemma_pow2_pos(125);
    lemma_pow2_pos(121);
    lemma_pow2_adds(24, 125);
    lemma_pow2_adds(28, 121);
    let u = pow2(149);
    let kv = pow2(125);
    let wv = pow2(121);
    let p = round_to(24, (0xf3_3333 * kv) * a, u);
    let q = round_to(24, (0xcc_cccd * wv) * m, u);
    assert((0xf3_3333 * kv) * a == (0xf3_3333 * a) * kv) by (nonlinear_arith);
    assert((0xcc_cccd * wv) * m == (0xcc_cccd * m) * wv) by (nonlinear_arith);
    lemma_round_to_scale(24, 0xf3_3333 * a, 0x100_0000, kv);
    lemma_round_to_scale(24, 0xcc_cccd * m, 0x1000_0000, wv);
    lemma_nearest_to(Format::Single, false, 0xf3_3333 * a, 0x100_0000);
    lemma_nearest_to(Format::Single, false, 0xcc_cccd * m, 0x1000_0000);
    lemma_nearest_to(Format::Single, false, p + q, 1);
    (p, q)
}

/// A still block quietens: an average above 40 of the smallest units, and so every
/// one that is a normal number, falls strictly when nothing moves, and it falls by
/// about a twentieth.
pub proof fn lemma_still_average_falls(average: Num)
    requires
        is_level(average),
    ensures
        moving_average(average, Num::zero()) matches Num::Finite { neg: false, mag } && {
            &&& 1000 * mag <= 951 * average->mag + 1600
            &&& 1000 * mag >= 949 * average->mag - 1600
            &&& average->mag > 40 ==> mag < average->mag
        },
{
    lemma_zero_level();
    lemma_average_weighs(average, Num::zero());
}

proof fn lemma_zero_level()
    ensures
        is_level(Num::zero()),
{
    lemma_pow2_pos(149);
    lemma_pow2_pos(277);
    lemma_nearest_even_exact(0, 1);
}

/// A moving block stands out: an average below its new level rises, and one above
/// it falls, unless they are closer than rounding can tell.
pub proof fn lemma_average_follows(average: Num, new: Num)
    requires
        is_level(average),
        is_level(new),
    ensures
        ({
            let r = moving_average(average, new);
            let a = average->mag;
            let m = new->mag;
            &&& 0x1_0000 * (m - a) > m + a + 0x80_0000 ==> a < r->mag < m
            &&& 0x1_0000 * (a - m) > m + a + 0x80_0000 ==> m < r->mag < a
        }),
{
    lemma_average_weighs(average, new);
}

/// The average of a block after `n` frames in which nothing moves.
pub open spec fn rested(average: Num, n: nat) -> Num
    decreases n,
{
    if n == 0 {
        average
    } else {
        moving_average(rested(average, (n - 1) as nat), Num::zero())
    }
}

/// After `n` still frames an average is about 0.95 to the power `n` of what it was:
/// between 0.949 and 0.951 to that power, give or take 33 of the smallest units.
pub proof fn lemma_average_fades(average: Num, n: nat)
    requires
        is_level(average),
    ensures
        is_level(rested(average, n)),
        pow(1000, n) * rested(average, n)->mag
            <= pow(951, n) * average->mag + 33
            * pow(1000, n),
        pow(1000, n) * rested(average, n)->mag
            >= pow(949, n) * average->mag - 33
            * pow(1000, n),
    decreases n,
{
    let a = average->mag as int;
    if n == 0 {
        lemma_pow0(1000);
        lemma_pow0(951);
        lemma_pow0(949);
    } else {
        let less = (n - 1) as nat;
        lemma_average_fades(average, less);
        lemma_zero_level();
        lemma_average_range(rested(average, less), Num::zero());
        lemma_still_average_falls(rested(average, less));
        let k = pow(1000, less);
        let h = pow(951, less);
        let l = pow(949, less);
        lemma_pow_positive(1000, less);
        reveal(pow);
        let x = rested(average, less)->mag as int;
        let y = rested(average, n)->mag as int;
        assert((1000 * k) * y <= 951 * (k * x) + 1600 * k) by (nonlinear_arith)
            requires
                1000 * y <= 951 * x + 1600,
                k > 0,
        ;
        assert((1000 * k) * y >= 949 * (k * x) - 1600 * k) by (nonlinear_arith)
            requires
                1000 * y >= 949 * x - 1600,
                k > 0,
        ;
        assert((951 * h) * a == 951 * (h * a)) by (nonlinear_arith);
        assert((949 * l) * a == 949 * (l * a)) by (nonlinear_arith);
    }
}

/// What more frames of the same size make of the moving averages.
pub open spec fn watched_on(m: Motion, frames: Seq<Seq<u8>>) -> Motion
    decreases frames.len(),
{
    if frames.len() == 0 {
        m
    } else {
        watched_on(m, frames.drop_last()).averaged(m.width, m.height, frames.last())
    }
}

/// Block `i` has the same pixels in frame `k` as in the one before it, which for the first
/// frame is the last one seen.
pub open spec fn rests(m: Motion, frames: Seq<Seq<u8>>, i: int, k: int) -> bool {
    let cols = blocks_across(m.width) as int;
    same_block(
        frames[k],
        if k == 0 {
            m.gray
        } else {
            frames[k - 1]
        },
        m.width as nat,
        i % cols,
        i / cols,
    )
}

/// The moving average of a block that rests for `n` frames is about 0.95 to the power `n` of
/// what it was, and below that power of 0.951 but for 33 of the smallest units.
pub proof fn lemma_resting_block_fades(m: Motion, frames: Seq<Seq<u8>>, i: int)
    requires
        m.wf(),
        packed(m),
        all_levels(m.scores),
        packed_video(m.width, m.height, frames),
        0 <= i < m.scores.len(),
        forall|k: int| 0 <= k < frames.len() ==> #[trigger] rests(m, frames, i, k),
    ensures
        ({
            let n = frames.len();
            let now = watched_on(m, frames).scores[i];
            &&& is_level(now)
            &&& pow(1000, n) * now->mag <= pow(951, n) * m.scores[i]->mag + 33 * pow(1000, n)
            &&& pow(1000, n) * now->mag >= pow(949, n) * m.scores[i]->mag - 33 * pow(1000, n)
        }),
{
    lemma_resting_block(m, frames, i);
    assert(is_level(m.scores[i]));
    lemma_average_fades(m.scores[i], frames.len());
}

proof fn lemma_resting_block(m: Motion, frames: Seq<Seq<u8>>, i: int)
    requires
        m.wf(),
        packed(m),
        packed_video(m.width, m.height, frames),
        0 <= i < m.scores.len(),
        forall|k: int| 0 <= k < frames.len() ==> #[trigger] rests(m, frames, i, k),
    ensures
        ({
            let e = watched_on(m, frames);
            &&& e.width == m.width
            &&& e.height == m.height
            &&& e.gray == (if frames.len() == 0 {
                m.gray
            } else {
                frames.last()
            })
            &&& e.scores.len() == m.scores.len()
            &&& e.scores[i] == rested(m.scores[i], frames.len())
        }),
    decreases frames.len(),
{
    let n = frames.len() as int;
    if n > 0 {
        let before = frames.drop_last();
        assert forall|k: int| 0 <= k < before.len() implies (#[trigger] before[k]).len() == m.width
            * m.height by {
            assert(before[k] == frames[k]);
        }
        assert forall|k: int| 0 <= k < before.len() implies #[trigger] rests(m, before, i, k) by {
            assert(rests(m, frames, i, k));
        }
        lemma_resting_block(m, before, i);
        assert(rests(m, frames, i, n - 1));
        let prev = watched_on(m, before).gray;
        assert(prev == if n == 1 {
            m.gray
        } else {
            frames[n - 2]
        });
        assert(0 <= m.width * m.height) by (nonlinear_arith);
        assert(prev.len() == m.width * m.height);
        let cols = blocks_across(m.width) as int;
        lemma_grid_in_frame(prev, m.width, m.height, i);
        lemma_mad_range(frames.last(), prev, m.width as nat, i % cols, i / cols);
        assert(mads(frames.last(), prev, m.width, m.height)[i] == Num::zero());
    }
}

/// The moving average of every block after a frame, against its difference to the
/// frame before.
pub proof fn lemma_frame_averages(m: Motion, gray: Seq<u8>, i: int)
    requires
        m.wf(),
        m.accepts(m.width, m.height, gray.len()),
        all_levels(m.scores),
        0 <= i < m.scores.len(),
    ensures
        ({
            let next = m.averaged(m.width, m.height, gray);
            let new = mads(gray, m.gray, m.width, m.height)[i];
            let exact = 95 * m.scores[i]->mag + 5 * new->mag;
            &&& next.scores.len() == m.scores.len()
            &&& next.gray == gray
            &&& is_level(new)
            &&& next.scores[i] is Finite
            &&& 0x40_0000 * distance(100 * next.scores[i]->mag as int, exact as int) <= exact
                + 0x40_0000 * 160
        }),
{
    let cols = blocks_across(m.width);
    assert(0 <= m.width * m.height) by (nonlinear_arith);
    lemma_grid_in_frame(m.gray, m.width, m.height, i);
    lemma_mad_range(
        gray,
        m.gray,
        m.width as nat,
        i % cols as int,
        i / cols as int,
    );
    let new = mads(gray, m.gray, m.width, m.height)[i];
    lemma_average_weighs(m.scores[i], new);
}

/// The sums of a list are the values of its numbers, in order.
pub proof fn lemma_sums_are_values(map: Seq<Double>, i: int)
    requires
        0 <= i < map.len(),
    ensures
        sums(map).len() == map.len(),
        sums(map)[i] == map[i]@,
{
}

/// The mean of a block is its sum divided by the number of frames, up to rounding:
/// `n` times the mean is off the sum by no more than one part in four million and
/// two of the smallest single units for each frame.
pub proof fn lemma_mean_divides(total: Total, i: int)
    requires
        0 <= i < total.seen.scores.len(),
        0 < total.frames <= u64::MAX,
        total.seen.scores[i] matches Num::Finite { neg: false, mag } && mag <= 512 * (total.frames
            * pow2(1074)),
    ensures
        total.means()[i] matches Num::Finite { neg: false, mag } && ({
            let n = total.frames;
            let sum = total.seen.scores[i]->mag;
            0x40_0000 * distance(((n * mag) * pow2(925)) as int, sum as int) <= sum + 0x80_0000 * (n * pow2(
                925,
            ))
        }),
{
    let n = total.frames;
    let sum = total.seen.scores[i]->mag;
    let o = pow2(1074);
    let b = pow2(925);
    lemma2_to64();
    lemma2_to64_rest();
    lemma_pow2_pos(1074);
    lemma_pow2_pos(925);
    let full = n * o;
    // The number of frames as a number.
    lemma_pow2_adds(64, 1074);
    lemma_pow2_adds(53, 1021);
    lemma_pow2_pos(1021);
    assert(o <= full <= pow2(1138)) by (nonlinear_arith)
        requires
            1 <= n <= pow2(64),
            o > 0,
            full == n * o,
            pow2(1138) == pow2(64) * o,
    ;
    let count = round_to(53, full, 1);
    lemma_round_to_relative(53, full, 1);
    assert(1 * pow2(53) <= o) by (nonlinear_arith)
        requires
            o == pow2(53) * pow2(1021),
            pow2(1021) > 0,
    ;
    lemma_round_to_monotone(53, full, 1, pow2(1138), 1);
    lemma_round_to_exact(53, 1, 1138);
    lemma_pow2_strictly_increases(1138, 2098);
    assert(Num::of_int(Format::Double, n as int) == (Num::Finite { neg: false, mag: count }));
    assert(2 * count >= full && 2 * full >= count);
    // The quotient in double precision.
    let w = sum * o;
    let q = round_to(53, w, count);
    lemma_round_to_relative(53, w, count);
    lemma_pow2_adds(10, 1074);
    assert(w * 1 <= pow2(1084) * count) by (nonlinear_arith)
        requires
            w == sum * o,
            sum <= 512 * full,
            full <= 2 * count,
            pow2(1084) == 1024 * o,
            o > 0,
    ;
    lemma_round_to_monotone(53, w, count, pow2(1084), 1);
    lemma_round_to_exact(53, 1, 1084);
    lemma_pow2_strictly_increases(1084, 2098);
    // And rounded to single.
    let mean = round_to(24, q, b);
    lemma_round_to_relative(24, q, b);
    lemma_pow2_adds(159, 925);
    lemma_round_to_monotone(24, q, b, pow2(159), 1);
    lemma_round_to_exact(24, 1, 159);
    lemma_pow2_strictly_increases(159, 277);
    let mb = mean * b;
    let x = q * count;
    let y = count * b;
    let z = count * mb;
    let p = full * mb;
    let fb = full * b;
    assert(0x100_0000 * (z - x) <= x + 0x80_0000 * y && 0x100_0000 * (x - z) <= x + 0x80_0000 * y)
        by (nonlinear_arith)
        requires
            -(q + 0x80_0000 * b) <= 0x100_0000 * (mb - q) <= q + 0x80_0000 * b,
            x == q * count,
            y == count * b,
            z == count * mb,
            count >= 0,
    ;
    let t = pow2(53);
    assert(t * (z - p) <= p && t * (p - z) <= p) by (nonlinear_arith)
        requires
            -full <= t * (count - full) <= full,
            p == full * mb,
            z == count * mb,
            mb >= 0,
    ;
    assert(t * (y - fb) <= fb && t * (fb - y) <= fb) by (nonlinear_arith)
        requires
            -full <= t * (count - full) <= full,
            fb == full * b,
            y == count * b,
            b >= 0,
    ;
    assert(count <= y) by (nonlinear_arith)
        requires
            y == count * b,
            b >= 1,
    ;
    assert(pow2(53) == 0x20_0000_0000_0000);
    assert(0x40_0000 * (p - w) <= w + 0x80_0000 * fb && 0x40_0000 * (w - p) <= w + 0x80_0000 * fb);
    let nmb = (n * mean) * b;
    let nb = n * b;
    assert(p == nmb * o) by (nonlinear_arith)
        requires
            p == full * mb,
            full == n * o,
            mb == mean * b,
            nmb == (n * mean) * b,
    ;
    assert(fb == nb * o) by (nonlinear_arith)
        requires
            fb == full * b,
            full == n * o,
            nb == n * b,
    ;
    assert(0x40_0000 * (nmb - sum) <= sum + 0x80_0000 * nb) by (nonlinear_arith)
        requires
            0x40_0000 * (nmb * o - sum * o) <= sum * o + 0x80_0000 * (nb * o),
            o > 0,
    ;
    assert(0x40_0000 * (sum - nmb) <= sum + 0x80_0000 * nb) by (nonlinear_arith)
        requires
            0x40_0000 * (sum * o - nmb * o) <= sum * o + 0x80_0000 * (nb * o),
            o > 0,
    ;
}

/// A mean lies where the sum puts it: it is at most `v` where the sum is at most
/// `n` times `v`, and at least `v` where the sum is at least that, exactly and for
/// every `v` that is a number of the single format.
pub proof fn lemma_mean_bounded(total: Total, i: int, v: Num)
    requires
        0 <= i < total.seen.scores.len(),
        0 < total.frames < pow2(53),
        total.seen.scores[i] matches Num::Finite { neg: false, mag } && mag <= 512 * (total.frames
            * pow2(1074)),
        is_level(v),
    ensures
        total.means()[i] matches Num::Finite { neg: false, mag } && ({
            let n = total.frames;
            let sum = total.seen.scores[i]->mag;
            &&& sum <= n * (v->mag * pow2(925)) ==> mag <= v->mag
            &&& sum >= n * (v->mag * pow2(925)) ==> mag >= v->mag
        }),
{
    let n = total.frames;
    let sum = total.seen.scores[i]->mag;
    let o = pow2(1074);
    let b = pow2(925);
    lemma_pow2_pos(1074);
    lemma_pow2_pos(925);
    lemma2_to64();
    lemma2_to64_rest();
    lemma_mean_divides(total, i);
    lemma_small_int(Format::Double, n);
    vstd::arithmetic::mul::lemma_mul_strictly_positive(n as int, o as int);
    lemma_round_to_scale(53, sum, n, o);
    let (m, e) = lemma_digits_of(Format::Single, v->mag);
    let vb = v->mag * b;
    lemma_pow2_adds(e, 925);
    assert(vb == m * pow2(e + 925)) by (nonlinear_arith)
        requires
            vb == v->mag * b,
            v->mag == m * pow2(e),
            pow2(e + 925) == pow2(e) * b,
    ;
    lemma_pow2_strictly_increases(24, 53);
    lemma_round_to_exact(53, m, e + 925);
    lemma_round_to_exact(24, m, e);
    let q = round_to(53, sum, n);
    assert(vb * n == n * vb) by (nonlinear_arith);
    lemma_round_to_scale(24, v->mag, 1, b);
    assert(1 * b == b);
    if sum <= n * vb {
        lemma_round_to_monotone(53, sum, n, vb, 1);
        assert(q * b <= vb * b) by (nonlinear_arith)
            requires
                q <= vb,
                b > 0,
        ;
        lemma_round_to_monotone(24, q, b, vb, b);
    }
    if sum >= n * vb {
        lemma_round_to_monotone(53, vb, 1, sum, n);
        assert(vb * b <= q * b) by (nonlinear_arith)
            requires
                vb <= q,
                b > 0,
        ;
        lemma_round_to_monotone(24, vb, b, q, b);
    }
}

/// A mean is taken in two steps, each of which gives the nearest there is: the double
/// nearest to the sum over the number of frames, and the single nearest to that.
pub proof fn lemma_mean_nearest(total: Total, i: int) -> (quotient: nat)
    requires
        0 <= i < total.seen.scores.len(),
        0 < total.frames < pow2(53),
        total.seen.scores[i] matches Num::Finite { neg: false, mag } && mag <= 512 * (total.frames
            * pow2(1074)),
    ensures
        nearest_to(Format::Double, quotient, total.seen.scores[i]->mag, total.frames),
        nearest_to(Format::Single, total.means()[i]->mag, quotient, pow2(925)),
{
    let n = total.frames;
    let sum = total.seen.scores[i]->mag;
    let o = pow2(1074);
    lemma_pow2_pos(1074);
    lemma_pow2_pos(925);
    lemma2_to64();
    lemma2_to64_rest();
    lemma_mean_divides(total, i);
    lemma_small_int(Format::Double, n);
    vstd::arithmetic::mul::lemma_mul_strictly_positive(n as int, o as int);
    lemma_round_to_scale(53, sum, n, o);
    let q = round_to(53, sum, n);
    lemma_nearest_to(Format::Double, false, sum, n);
    lemma_nearest_to(Format::Single, false, q, pow2(925));
    q
}

/// The exact sum of `n` samples is at most `n` times 255.
proof fn lemma_exact_sum_range(width: u32, height: u32, frames: Seq<Seq<u8>>, i: int, n: nat)
    requires
        packed_video(width, height, frames),
        n <= frames.len(),
        0 <= i < blocks_across(width) * blocks_across(height),
    ensures
        exact_sum(width, height, frames, i, n) <= 255 * (n * pow2(1074)),
    decreases n,
{
    let o = pow2(1074);
    if n == 0 {
        assert(0 * o == 0) by (nonlinear_arith);
    } else {
        lemma_exact_sum_range(width, height, frames, i, (n - 1) as nat);
        lemma_sample_range(width, height, frames, i, n - 1);
        let x = sample(width, height, frames, i, n - 1)->mag;
        lemma_pow2_adds(149, 925);
        lemma_pow2_pos(925);
        assert(x * pow2(925) <= 255 * o) by (nonlinear_arith)
            requires
                x <= 255 * pow2(149),
                o == pow2(149) * pow2(925),
                pow2(925) > 0,
        ;
        assert(n * o == (n - 1) * o + o) by (nonlinear_arith);
    }
}

/// Each frame adds its difference to the sum of every block: the new sum is the double
/// nearest to the old one plus the difference.
pub proof fn lemma_frame_sums(m: Motion, gray: Seq<u8>, i: int)
    requires
        m.wf(),
        m.accepts(m.width, m.height, gray.len()),
        0 <= i < m.scores.len(),
        m.scores[i] matches Num::Finite { neg: false, mag } && mag < pow2(1200),
    ensures
        ({
            let next = m.summed(m.width, m.height, gray);
            let new = mads(gray, m.gray, m.width, m.height)[i];
            &&& next.scores.len() == m.scores.len()
            &&& next.gray == gray
            &&& is_level(new)
            &&& next.scores[i] matches Num::Finite { neg: false, mag } && nearest_to(
                Format::Double,
                mag,
                m.scores[i]->mag + new->mag * pow2(925),
                1,
            )
        }),
{
    let cols = blocks_across(m.width);
    assert(0 <= m.width * m.height) by (nonlinear_arith);
    lemma_grid_in_frame(m.gray, m.width, m.height, i);
    lemma_mad_range(
        gray,
        m.gray,
        m.width as nat,
        i % cols as int,
        i / cols as int,
    );
    let new = mads(gray, m.gray, m.width, m.height)[i];
    let x = new->mag * pow2(925);
    lemma2_to64();
    lemma2_to64_rest();
    lemma_pow2_pos(925);
    lemma_pow2_adds(149, 925);
    lemma_pow2_adds(8, 1074);
    assert(x <= 255 * pow2(1074)) by (nonlinear_arith)
        requires
            x == new->mag * pow2(925),
            new->mag <= 255 * pow2(149),
            pow2(1074) == pow2(149) * pow2(925),
    ;
    lemma_pow2_strictly_increases(1082, 1200);
    vstd::arithmetic::power2::lemma_pow2_unfold(1201);
    let sum = m.scores[i]->mag + x;
    lemma_round_to_monotone(53, sum, 1, pow2(1201), 1);
    lemma_round_to_exact(53, 1, 1201);
    lemma_pow2_strictly_increases(1201, 2098);
    lemma_nearest_to(Format::Double, false, sum, 1);
}

/// The sum of a block over `n` frames is the exact sum of its `n` samples, up to
/// rounding: each frame adds at most one part in two to the power 52 to what it is
/// off.
pub proof fn lemma_sum_close(width: u32, height: u32, frames: Seq<Seq<u8>>, i: int)
    requires
        packed_video(width, height, frames),
        0 < frames.len() <= pow2(52),
        0 <= i < blocks_across(width) * blocks_across(height),
    ensures
        analysed(width, height, frames).seen.scores[i] matches Num::Finite { neg: false, mag } && ({
            let n = frames.len();
            let exact = exact_sum(width, height, frames, i, n);
            pow2(52) * distance(mag as int, exact as int) <= n * exact
        }),
    decreases frames.len(),
{
    let n = frames.len();
    let before = frames.drop_last();
    let less = (n - 1) as nat;
    lemma2_to64_rest();
    lemma_analysed_step(width, height, frames, i);
    lemma_sample_range(width, height, frames, i, n - 1);
    lemma_exact_sum_prefix(width, height, frames, i, less);
    lemma_exact_sum_range(width, height, frames, i, n);
    let x = sample(width, height, frames, i, n - 1).widened()->mag;
    let e1 = exact_sum(width, height, frames, i, less);
    let e2 = exact_sum(width, height, frames, i, n);
    let s1: nat = if n == 1 {
        0
    } else {
        lemma_sum_close(width, height, before, i);
        analysed(width, height, before).seen.scores[i]->mag
    };
    let t = pow2(52);
    let d1 = distance(s1 as int, e1 as int);
    if n == 1 {
        assert(e1 == 0);
        assert(less * e1 == 0) by (nonlinear_arith)
            requires
                e1 == 0,
        ;
    }
    assert(t * d1 <= less * e1);
    assert(less * e1 <= t * e1) by (nonlinear_arith)
        requires
            less <= t,
    ;
    assert(less * e1 <= less * e2) by (nonlinear_arith)
        requires
            e1 <= e2,
    ;
    assert(d1 <= e1);
    assert(n * e2 == less * e2 + e2) by (nonlinear_arith)
        requires
            n == less + 1,
    ;
    let s2 = round_to(53, s1 + x, 1);
    lemma_round_to_relative(53, s1 + x, 1);
    assert(s1 + x < pow2(53) ==> s2 == s1 + x) by {
        if s1 + x < pow2(53) {
            lemma2_to64();
            lemma_round_to_exact(53, s1 + x, 0);
            assert((s1 + x) * pow2(0) == s1 + x) by (nonlinear_arith)
                requires
                    pow2(0) == 1,
            ;
        }
    }
    assert(0x20_0000_0000_0000 * distance(s2 as int, (s1 + x) as int) <= s1 + x);
    assert(t * distance(s2 as int, e2 as int) <= n * e2);
    // It stays in range.
    let o = pow2(1074);
    lemma_pow2_pos(1074);
    lemma_pow2_adds(52, 1074);
    lemma2_to64();
    lemma_pow2_adds(10, 1126);
    assert(n * o <= t * o) by (nonlinear_arith)
        requires
            n <= t,
            o > 0,
    ;
    assert(n * e2 <= t * e2) by (nonlinear_arith)
        requires
            n <= t,
    ;
    lemma_pow2_strictly_increases(1136, 2098);
}

/// The mean of a block is the exact sum of its `n` samples divided by `n`, up to
/// rounding: `n` times the mean is off that sum by no more than one part in two
/// million, one part in two to the power 51 for each frame, and a few of the
/// smallest single units for each frame.
pub proof fn lemma_video_mean(width: u32, height: u32, frames: Seq<Seq<u8>>, i: int)
    requires
        packed_video(width, height, frames),
        0 < frames.len() <= pow2(52),
        0 <= i < blocks_across(width) * blocks_across(height),
    ensures
        analysed(width, height, frames).means()[i] matches Num::Finite { neg: false, mag } && ({
            let n = frames.len();
            let exact = exact_sum(width, height, frames, i, n);
            pow2(51) * distance(((n * mag) * pow2(925)) as int, exact as int) <= (n + pow2(30))
                * exact + pow2(53) * (n * pow2(925))
        }),
{
    let n = frames.len();
    let total = analysed(width, height, frames);
    let exact = exact_sum(width, height, frames, i, n);
    lemma2_to64();
    lemma2_to64_rest();
    lemma_analysed_state(width, height, frames);
    lemma_sum_close(width, height, frames, i);
    lemma_exact_sum_range(width, height, frames, i, n);
    let sum = total.seen.scores[i]->mag;
    let o = pow2(1074);
    let b = pow2(925);
    lemma_pow2_pos(1074);
    lemma_pow2_pos(925);
    assert(n * exact <= pow2(52) * exact) by (nonlinear_arith)
        requires
            n <= pow2(52),
    ;
    assert(sum <= 2 * exact);
    lemma_mean_divides(total, i);
    assert((n + pow2(30)) * exact == n * exact + 0x4000_0000 * exact) by (nonlinear_arith)
        requires
            pow2(30) == 0x4000_0000,
    ;
}

proof fn lemma_exact_sum_bounds(
    width: u32,
    height: u32,
    frames: Seq<Seq<u8>>,
    i: int,
    n: nat,
    v: nat,
)
    requires
        packed_video(width, height, frames),
        n <= frames.len(),
        0 <= i < blocks_across(width) * blocks_across(height),
    ensures
        (forall|k: int| 0 <= k < n ==> (#[trigger] sample(width, height, frames, i, k))->mag <= v)
            ==> exact_sum(width, height, frames, i, n) <= n * (v * pow2(925)),
        (forall|k: int| 0 <= k < n ==> (#[trigger] sample(width, height, frames, i, k))->mag >= v)
            ==> exact_sum(width, height, frames, i, n) >= n * (v * pow2(925)),
    decreases n,
{
    let b = pow2(925);
    let vb = v * b;
    if n == 0 {
        assert(0 * vb == 0) by (nonlinear_arith);
    } else {
        lemma_exact_sum_bounds(width, height, frames, i, (n - 1) as nat, v);
        lemma_sample_range(width, height, frames, i, n - 1);
        let x = sample(width, height, frames, i, n - 1)->mag;
        assert(n * vb == (n - 1) * vb + vb) by (nonlinear_arith);
        if x <= v {
            assert(x * b <= vb) by (nonlinear_arith)
                requires
                    x <= v,
                    vb == v * b,
            ;
        }
        if x >= v {
            assert(x * b >= vb) by (nonlinear_arith)
                requires
                    x >= v,
                    vb == v * b,
            ;
        }
    }
}

/// Where no sample of a block is above `v`, its mean is not above `v` either, and
/// where none is below `v`, neither is the mean: exactly up to 16384 frames, and
/// beyond them up to rounding.
pub proof fn lemma_mean_between_samples(
    width: u32,
    height: u32,
    frames: Seq<Seq<u8>>,
    i: int,
    v: Num,
)
    requires
        packed_video(width, height, frames),
        0 < frames.len() <= pow2(52),
        0 <= i < blocks_across(width) * blocks_across(height),
        is_level(v),
    ensures
        analysed(width, height, frames).means()[i] matches Num::Finite { neg: false, mag } && ({
            let n = frames.len();
            let limit = n * (v->mag * pow2(925));
            let mean = (n * mag) * pow2(925);
            let slack = (n + pow2(30)) * exact_sum(width, height, frames, i, n) + pow2(53) * (n
                * pow2(925));
            &&& (forall|k: int|
                0 <= k < n ==> (#[trigger] sample(width, height, frames, i, k))->mag <= v->mag)
                ==> (n <= 16384 ==> mag <= v->mag) && pow2(51) * (mean - limit) <= slack
            &&& (forall|k: int|
                0 <= k < n ==> (#[trigger] sample(width, height, frames, i, k))->mag >= v->mag)
                ==> (n <= 16384 ==> mag >= v->mag) && pow2(51) * (limit - mean) <= slack
        }),
{
    let n = frames.len();
    lemma2_to64_rest();
    lemma_video_mean(width, height, frames, i);
    lemma_exact_sum_bounds(width, height, frames, i, n, v->mag);
    lemma_analysed_state(width, height, frames);
    if n <= 16384 {
        lemma_sum_exact(width, height, frames, i);
        lemma_exact_sum_range(width, height, frames, i, n);
        lemma_mean_bounded(analysed(width, height, frames), i, v);
    }
}

/// The pixel at place `i` of a picture lies in the block in column `bx` of row
/// `by`.
pub open spec fn in_block(stride: nat, bx: int, by: int, i: int) -> bool {
    i % stride as int / 16 == bx && i / stride as int / 16 == by
}

/// What the first `n` pixels of a picture add up to, counting those in a block only.
pub open spec fn block_total(
    stride: nat,
    bx: int,
    by: int,
    n: nat,
    amount: spec_fn(int) -> nat,
) -> nat
    decreases n,
{
    if n == 0 {
        0
    } else {
        block_total(stride, bx, by, (n - 1) as nat, amount) + if in_block(stride, bx, by, n - 1) {
            amount(n - 1)
        } else {
            0
        }
    }
}

/// How much the pixel at a place differs between two pictures.
pub open spec fn change(gray: Seq<u8>, prev: Seq<u8>) -> spec_fn(int) -> nat {
    |i: int| distance(gray[i] as int, prev[i] as int) as nat
}

spec fn span_total(start: int, n: nat, amount: spec_fn(int) -> nat) -> nat
    decreases n,
{
    if n == 0 {
        0
    } else {
        span_total(start, (n - 1) as nat, amount) + amount(start + n - 1)
    }
}

spec fn rect_total(
    stride: int,
    x0: int,
    y0: int,
    width: nat,
    n: nat,
    amount: spec_fn(int) -> nat,
) -> nat
    decreases n,
{
    if n == 0 {
        0
    } else {
        rect_total(stride, x0, y0, width, (n - 1) as nat, amount) + span_total(
            (y0 + n - 1) * stride + x0,
            width,
            amount,
        )
    }
}

/// The part of `0..most` that lies before `n`.
spec fn held(n: int, most: nat) -> nat {
    if n < 0 {
        0
    } else if n < most {
        n as nat
    } else {
        most
    }
}

proof fn lemma_row_total(
    stride: nat,
    bx: int,
    by: int,
    y: nat,
    upto: nat,
    amount: spec_fn(int) -> nat,
)
    requires
        upto <= stride,
        0 <= bx,
        16 * bx < stride,
    ensures
        block_total(stride, bx, by, stride * y + upto, amount) == block_total(
            stride,
            bx,
            by,
            stride * y,
            amount,
        ) + if y as int / 16 == by {
            span_total(
                y * stride + 16 * bx,
                held(upto - 16 * bx, block_extent(16 * bx, stride as int)),
                amount,
            )
        } else {
            0
        },
    decreases upto,
{
    if upto > 0 {
        let less = (upto - 1) as nat;
        lemma_row_total(stride, bx, by, y, less, amount);
        let i = stride * y + less;
        assert(i == y * stride + less) by (nonlinear_arith)
            requires
                i == stride * y + less,
        ;
        vstd::arithmetic::div_mod::lemma_fundamental_div_mod_converse(
            i as int,
            stride as int,
            y as int,
            less as int,
        );
        let extent = block_extent(16 * bx, stride as int);
        assert(less as int / 16 == bx <==> 16 * bx <= less < 16 * bx + extent);
    }
}

proof fn lemma_rows_total(
    stride: nat,
    tall: nat,
    bx: int,
    by: int,
    y: nat,
    amount: spec_fn(int) -> nat,
)
    requires
        y <= tall,
        0 <= bx,
        0 <= by,
        16 * bx < stride,
        16 * by < tall,
    ensures
        block_total(stride, bx, by, stride * y, amount) == rect_total(
            stride as int,
            16 * bx,
            16 * by,
            block_extent(16 * bx, stride as int),
            held(y - 16 * by, block_extent(16 * by, tall as int)),
            amount,
        ),
    decreases y,
{
    if y == 0 {
        assert(stride * 0 == 0) by (nonlinear_arith);
    } else {
        let less = (y - 1) as nat;
        lemma_rows_total(stride, tall, bx, by, less, amount);
        lemma_row_total(stride, bx, by, less, stride, amount);
        assert(stride * less + stride == stride * y) by (nonlinear_arith)
            requires
                y == less + 1,
        ;
        let extent = block_extent(16 * by, tall as int);
        assert(less as int / 16 == by <==> 16 * by <= less < 16 * by + extent);
    }
}

proof fn lemma_span_change(gray: Seq<u8>, prev: Seq<u8>, start: int, n: nat)
    ensures
        span_diff(gray, prev, start, n) == span_total(start, n, change(gray, prev)),
        span_total(start, n, |i: int| 1nat) == n,
    decreases n,
{
    if n > 0 {
        lemma_span_change(gray, prev, start, (n - 1) as nat);
    }
}

proof fn lemma_rect_change(
    gray: Seq<u8>,
    prev: Seq<u8>,
    stride: int,
    x0: int,
    y0: int,
    width: nat,
    n: nat,
)
    ensures
        rect_diff(gray, prev, stride, x0, y0, width, n) == rect_total(
            stride,
            x0,
            y0,
            width,
            n,
            change(gray, prev),
        ),
        rect_total(stride, x0, y0, width, n, |i: int| 1nat) == width * n,
    decreases n,
{
    if n > 0 {
        lemma_rect_change(gray, prev, stride, x0, y0, width, (n - 1) as nat);
        lemma_span_change(gray, prev, (y0 + n - 1) * stride + x0, width);
        assert(width * n == width * (n - 1) + width) by (nonlinear_arith);
    } else {
        assert(width * 0 == 0) by (nonlinear_arith);
    }
}

/// The difference of a block is the mean over its pixels of how much each differs:
/// times the number of its pixels it is off their total by no more than one part in
/// sixteen million and half of the smallest unit for each pixel.
pub proof fn lemma_mad_is_mean(gray: Seq<u8>, prev: Seq<u8>, stride: nat, bx: int, by: int)
    requires
        block_in_frame(prev, stride, bx, by),
    ensures
        ({
            let n = stride * (prev.len() / stride);
            let total = block_total(stride, bx, by, n, change(gray, prev));
            let pixels = block_total(stride, bx, by, n, |i: int| 1nat);
            &&& 0 < pixels <= 256
            &&& total <= 255 * pixels
            &&& mad(gray, prev, stride, bx, by) matches Num::Finite {
                neg: false,
                mag,
            } && 0x100_0000 * distance((mag * pixels) as int, (total * pow2(149)) as int) <= total
                * pow2(149) + 0x80_0000 * pixels
        }),
{
    let tall = prev.len() / stride;
    let x0 = bx * 16;
    let y0 = by * 16;
    let width = block_extent(x0, stride as int);
    let height = block_extent(y0, tall as int);
    lemma_rows_total(stride, tall, bx, by, tall, change(gray, prev));
    lemma_rows_total(stride, tall, bx, by, tall, |i: int| 1nat);
    lemma_rect_change(gray, prev, stride as int, x0, y0, width, height);
    lemma_rect_bound(gray, prev, stride as int, x0, y0, width, height);
    lemma_mad_range(gray, prev, stride, bx, by);
    let pixels = width * height;
    let total = rect_diff(gray, prev, stride as int, x0, y0, width, height);
    assert(1 <= pixels <= 256) by (nonlinear_arith)
        requires
            1 <= width <= 16,
            1 <= height <= 16,
            pixels == width * height,
    ;
    let one = pow2(149);
    lemma2_to64();
    lemma_pow2_pos(149);
    lemma_small_int(Format::Single, total);
    lemma_small_int(Format::Single, pixels);
    vstd::arithmetic::mul::lemma_mul_strictly_positive(pixels as int, one as int);
    lemma_round_to_scale(24, total * one, pixels, one);
    lemma_round_to_relative(24, total * one, pixels);
}

/// The difference of a block is the single nearest to the total over its pixels.
pub proof fn lemma_mad_nearest(gray: Seq<u8>, prev: Seq<u8>, stride: nat, bx: int, by: int)
    requires
        block_in_frame(prev, stride, bx, by),
    ensures
        ({
            let n = stride * (prev.len() / stride);
            nearest_to(
                Format::Single,
                mad(gray, prev, stride, bx, by)->mag,
                block_total(stride, bx, by, n, change(gray, prev)) * pow2(149),
                block_total(stride, bx, by, n, |i: int| 1nat),
            )
        }),
{
    let tall = prev.len() / stride;
    let x0 = bx * 16;
    let y0 = by * 16;
    let width = block_extent(x0, stride as int);
    let height = block_extent(y0, tall as int);
    lemma_rows_total(stride, tall, bx, by, tall, change(gray, prev));
    lemma_rows_total(stride, tall, bx, by, tall, |i: int| 1nat);
    lemma_rect_change(gray, prev, stride as int, x0, y0, width, height);
    lemma_rect_bound(gray, prev, stride as int, x0, y0, width, height);
    lemma_mad_range(gray, prev, stride, bx, by);
    let pixels = width * height;
    let total = rect_diff(gray, prev, stride as int, x0, y0, width, height);
    assert(1 <= pixels <= 256) by (nonlinear_arith)
        requires
            1 <= width <= 16,
            1 <= height <= 16,
            pixels == width * height,
    ;
    let one = pow2(149);
    lemma2_to64();
    lemma_pow2_pos(149);
    lemma_small_int(Format::Single, total);
    lemma_small_int(Format::Single, pixels);
    vstd::arithmetic::mul::lemma_mul_strictly_positive(pixels as int, one as int);
    lemma_round_to_scale(24, total * one, pixels, one);
    lemma_nearest_to(Format::Single, false, total * one, pixels);
}

/// A block that starts at the edge of the frame has no pixels, and no difference.
pub proof fn lemma_mad_of_nothing(gray: Seq<u8>, prev: Seq<u8>, stride: nat, bx: int, by: int)
    requires
        stride > 0,
        16 * bx == stride || 16 * by == prev.len() / stride,
    ensures
        mad(gray, prev, stride, bx, by) is NotANumber,
{
    let width = block_extent(16 * bx, stride as int);
    let height = block_extent(16 * by, (prev.len() / stride) as int);
    lemma_rect_bound(gray, prev, stride as int, 16 * bx, 16 * by, width, height);
    assert(width * height == 0) by (nonlinear_arith)
        requires
            width == 0 || height == 0,
    ;
    lemma2_to64();
    lemma_small_int(Format::Single, 0);
    assert(0 * pow2(149) == 0) by (nonlinear_arith);
}

/// The difference of the block in column `bx` of row `by` of a frame stands at
/// place `by * cols + bx`, and is the mean of its own pixels.
pub proof fn lemma_frame_differences(
    gray: Seq<u8>,
    prev: Seq<u8>,
    width: u32,
    height: u32,
    bx: int,
    by: int,
)
    requires
        prev.len() >= width * height,
        0 <= bx,
        0 <= by,
        16 * bx < width,
        16 * by < height,
    ensures
        ({
            let cols = blocks_across(width);
            let all = mads(gray, prev, width, height);
            let n = width as nat * (prev.len() / width as nat);
            let total = block_total(width as nat, bx, by, n, change(gray, prev));
            let pixels = block_total(width as nat, bx, by, n, |i: int| 1nat);
            &&& all.len() == cols * blocks_across(height)
            &&& 0 <= by * cols + bx < all.len()
            &&& all[by * cols + bx] matches Num::Finite { neg: false, mag } && 0x100_0000 * distance(
                (mag * pixels) as int,
                (total * pow2(149)) as int,
            ) <= total * pow2(149) + 0x80_0000 * pixels
        }),
{
    let cols = blocks_across(width);
    let rows = blocks_across(height);
    let i = by * cols + bx;
    assert(0 <= i < cols * rows) by (nonlinear_arith)
        requires
            0 <= bx < cols,
            0 <= by,
            by + 1 <= rows,
            i == by * cols + bx,
    ;
    vstd::arithmetic::div_mod::lemma_fundamental_div_mod_converse(i, cols as int, by, bx);
    let n = prev.len();
    assert(n / width as nat >= height) by (nonlinear_arith)
        requires
            n >= width * height,
            width > 0,
    ;
    lemma_mad_is_mean(gray, prev, width as nat, bx, by);
}

/// After any number of frames, the region is that of the blocks whose mean reaches the
/// threshold, with the method that was asked for and at the size of the last frame; before
/// the first frame there is none.
pub proof fn lemma_region_of_means(
    total: Total,
    r: Option<[u32; 4]>,
    threshold: Num,
    method: BboxMethod,
) -> (mask: Seq<bool>)
    requires
        total.is_region(r, threshold, method),
    ensures
        total.frames == 0 ==> r is None,
        mask.len() == total.seen.scores.len(),
        total.means().len() == total.seen.scores.len(),
        total.frames > 0 ==> is_bbox(
            r,
            mask,
            blocks_across(total.seen.width),
            blocks_across(total.seen.height),
            total.seen.width,
            total.seen.height,
            method,
        ),
        forall|i: int|
            0 <= i < mask.len() && total.means()[i] is Finite && threshold is Finite ==> (
            #[trigger] mask[i] <==> total.means()[i].signed() >= threshold.signed()),
{
    active_blocks(total.means(), threshold)
}

/// The region of a whole video, with every method, is that of a mask in which a
/// block is active where the exact mean of its samples reaches the threshold, and
/// is not where the exact mean stays at or below some number under the threshold.
pub proof fn lemma_full_region(
    width: u32,
    height: u32,
    frames: Seq<Seq<u8>>,
    threshold: Num,
    method: BboxMethod,
    r: Option<[u32; 4]>,
) -> (mask: Seq<bool>)
    requires
        packed_video(width, height, frames),
        0 < frames.len() <= 16384,
        is_level(threshold),
        analysed(width, height, frames).is_region(r, threshold, method),
    ensures
        is_bbox(
            r,
            mask,
            blocks_across(width),
            blocks_across(height),
            width,
            height,
            method,
        ),
        mask.len() == blocks_across(width) * blocks_across(height),
        forall|i: int|
            #![trigger mask[i]]
            0 <= i < mask.len() && exact_sum(width, height, frames, i, frames.len())
                >= frames.len() * (threshold->mag * pow2(925)) ==> mask[i],
        forall|i: int, v: Num|
            #![trigger mask[i], is_level(v)]
            0 <= i < mask.len() && is_level(v) && v->mag < threshold->mag && exact_sum(
                width,
                height,
                frames,
                i,
                frames.len(),
            ) <= frames.len() * (v->mag * pow2(925)) ==> !mask[i],
{
    let n = frames.len();
    let total = analysed(width, height, frames);
    let mask = active_blocks(total.means(), threshold);
    lemma_analysed_state(width, height, frames);
    lemma2_to64_rest();
    assert forall|i: int|
        #![trigger mask[i]]
        0 <= i < mask.len() && exact_sum(width, height, frames, i, n) >= n * (threshold->mag
            * pow2(925)) implies mask[i] by {
        lemma_sum_exact(width, height, frames, i);
        lemma_exact_sum_range(width, height, frames, i, n);
        lemma_mean_bounded(total, i, threshold);
    }
    assert forall|i: int, v: Num|
        #![trigger mask[i], is_level(v)]
        0 <= i < mask.len() && is_level(v) && v->mag < threshold->mag && exact_sum(
            width,
            height,
            frames,
            i,
            n,
        ) <= n * (v->mag * pow2(925)) implies !mask[i] by {
        lemma_sum_exact(width, height, frames, i);
        lemma_exact_sum_range(width, height, frames, i, n);
        lemma_mean_bounded(total, i, v);
    }
    mask
}

} // verus!
