//! What the frames of a video hold: their pixels, their intensities and their times.

use crate::analysis::{blocks_across, comparable, gray_of, rows_read};
use crate::decoder::{frame_time, packed_rows, rows_fit, VideoFrame};
use crate::export::{bw_levels, has_pixels};
use crate::luma_laws::lemma_luma_close;
use crate::number::{lemma_small_int, Format, Num};
use crate::number_laws::{distance, lemma_nearest_to, nearest_to};
use crate::rounding::{
    lemma_round_to_exact, lemma_round_to_monotone, lemma_round_to_relative, lemma_round_to_scale,
    round_to,
};
use crate::writer::{region_fits, rows_copied, Bbox};
use vstd::arithmetic::power2::{
    lemma2_to64, lemma2_to64_rest, lemma_pow2_adds, lemma_pow2_pos, lemma_pow2_strictly_increases,
    pow2,
};
use vstd::prelude::*;

verus! {

/// Each whole pixel of a buffer has its own intensity, and it is at most one half
/// away from `0.299 r + 0.587 g + 0.114 b` of that pixel's bytes, which come in the
/// order red, green, blue, opacity.
pub proof fn lemma_gray_weighs_colours(rgba: Seq<u8>, i: int)
    requires
        0 <= i < rgba.len() / 4,
    ensures
        gray_of(rgba).len() == rgba.len() / 4,
        distance(
            1000 * gray_of(rgba)[i] as int,
            299 * rgba[4 * i] + 587 * rgba[4 * i + 1] + 114 * rgba[4 * i + 2],
        ) <= 500,
{
    lemma_luma_close(rgba[4 * i], rgba[4 * i + 1], rgba[4 * i + 2]);
}

/// The exported picture has the intensity of the pixel in column `x` of row `y` at
/// that place, row by row.
pub proof fn lemma_export_weighs_colours(frame: VideoFrame, x: int, y: int)
    requires
        0 <= x < frame.width,
        0 <= y < frame.height,
    ensures
        ({
            let at = y * frame.width + x;
            &&& bw_levels(frame).len() == frame.width * frame.height
            &&& 0 <= at < bw_levels(frame).len()
            &&& distance(
                1000 * bw_levels(frame)[at] as int,
                299 * frame.rgba@[4 * at] + 587 * frame.rgba@[4 * at + 1] + 114 * frame.rgba@[4 * at
                    + 2],
            ) <= 500
        }),
{
    let at = y * frame.width + x;
    assert(0 <= at < frame.width * frame.height) by (nonlinear_arith)
        requires
            0 <= x < frame.width,
            0 <= y,
            y + 1 <= frame.height,
            at == y * frame.width + x,
    ;
    lemma_luma_close(frame.rgba@[4 * at], frame.rgba@[4 * at + 1], frame.rgba@[4 * at + 2]);
}

/// Of a padded picture, byte `c` of the pixel in column `x` of row `y` is the byte at
/// that place of the row, whatever the padding; and nothing else is kept.
pub proof fn lemma_rows_unpadded(
    raw: Seq<u8>,
    stride: int,
    width: int,
    height: int,
    x: int,
    y: int,
    c: int,
)
    requires
        0 <= x < width,
        0 <= y < height,
        0 <= c < 4,
    ensures
        packed_rows(raw, stride, width, height).len() == 4 * (width * height),
        0 <= 4 * (y * width + x) + c < 4 * (width * height),
        packed_rows(raw, stride, width, height)[4 * (y * width + x) + c] == raw[y * stride + 4 * x
            + c],
{
    let line = 4 * width;
    let i = 4 * (y * width + x) + c;
    let j = 4 * x + c;
    assert(height * line == 4 * (width * height)) by (nonlinear_arith)
        requires
            line == 4 * width,
    ;
    assert(i == y * line + j) by (nonlinear_arith)
        requires
            i == 4 * (y * width + x) + c,
            j == 4 * x + c,
            line == 4 * width,
    ;
    assert(0 <= y * width && y * width + x < width * height) by (nonlinear_arith)
        requires
            0 <= x < width,
            0 <= y,
            y + 1 <= height,
    ;
    vstd::arithmetic::div_mod::lemma_fundamental_div_mod_converse(i, line, y, j);
}

/// A whole number of seconds or ticks that fits 64 bits, as a double.
proof fn lemma_count_close(n: nat)
    requires
        0 < n <= u64::MAX,
    ensures
        ({
            let one = pow2(1074);
            let r = round_to(53, n * one, 1);
            &&& Num::of_int(Format::Double, n as int) == (Num::Finite { neg: false, mag: r })
            &&& 0x20_0000_0000_0000 * distance(r as int, (n * one) as int) <= n * one
            &&& one <= n * one <= pow2(1138)
            &&& one <= r <= pow2(1138)
        }),
{
    let one = pow2(1074);
    lemma2_to64();
    lemma2_to64_rest();
    lemma_pow2_pos(1074);
    lemma_pow2_pos(1021);
    lemma_pow2_adds(53, 1021);
    lemma_pow2_adds(64, 1074);
    assert(one <= n * one <= pow2(1138)) by (nonlinear_arith)
        requires
            1 <= n <= pow2(64),
            one > 0,
            pow2(1138) == pow2(64) * one,
    ;
    assert(1 * pow2(53) <= one) by (nonlinear_arith)
        requires
            one == pow2(53) * pow2(1021),
            pow2(1021) > 0,
    ;
    lemma_round_to_relative(53, n * one, 1);
    lemma_round_to_monotone(53, one, 1, n * one, 1);
    lemma_round_to_monotone(53, n * one, 1, pow2(1138), 1);
    lemma_round_to_exact(53, 1, 1074);
    lemma_round_to_exact(53, 1, 1138);
    lemma_pow2_strictly_increases(1138, 2098);
}

/// A frame without a timestamp is put at thirty frames per second: thirty times its
/// time is its number, up to rounding.
pub proof fn lemma_untimed_frames_at_thirty(tb: Num, index: u64)
    ensures
        frame_time(None, tb, 0) == Num::zero(),
        index > 0 ==> (frame_time(None, tb, index) matches Num::Finite { neg: false, mag }
            && 0x8_0000_0000_0000 * distance(30 * mag as int, (index * pow2(1074)) as int) <= index
            * pow2(1074)),
{
    let one = pow2(1074);
    lemma2_to64();
    lemma2_to64_rest();
    lemma_pow2_pos(1074);
    lemma_small_int(Format::Double, 30);
    lemma_small_int(Format::Double, 0);
    assert(0 * one == 0) by (nonlinear_arith);
    assert(30 * one > 0);
    lemma_round_to_scale(53, 0, 30, one);
    crate::rounding::lemma_nearest_even_exact(0, 30);
    lemma_pow2_pos(2098);
    if index > 0 {
        lemma_count_close(index as nat);
        let n = round_to(53, index as nat * one, 1);
        lemma_round_to_scale(53, n, 30, one);
        lemma_round_to_relative(53, n, 30);
        lemma_pow2_adds(64, 1010);
        lemma_pow2_pos(1010);
        assert(one >= 0x1_0000_0000_0000_0000);
        lemma_round_to_monotone(53, n, 30, pow2(1138), 1);
        lemma_round_to_exact(53, 1, 1138);
        lemma_pow2_strictly_increases(1138, 2098);
    }
}

/// The time of a frame with a timestamp is the timestamp times the stream's unit of
/// `num / den` seconds, up to rounding: `den` times the time is `pts * num`. It comes
/// before zero exactly where the timestamp does.
pub proof fn lemma_time_in_seconds(pts: i64, num: i32, den: i32, index: u64)
    requires
        num > 0,
        den > 0,
        pts != 0,
    ensures
        ({
            let tb = Num::of_int(Format::Double, num as int).over(
                Format::Double,
                Num::of_int(Format::Double, den as int),
            );
            let ticks = distance(pts as int, 0);
            let exact = (ticks * num) * pow2(1074);
            frame_time(Some(pts), tb, index) matches Num::Finite { neg, mag } && neg == (pts < 0)
                && 0x4_0000_0000_0000 * distance(mag * den, exact) <= exact
        }),
{
    let one = pow2(1074);
    lemma2_to64();
    lemma2_to64_rest();
    lemma_pow2_pos(1074);
    lemma_pow2_pos(979);
    lemma_pow2_adds(64, 31);
    lemma_pow2_adds(95, 979);
    assert(pow2(95) == 0x1_0000_0000_0000_0000 * 0x8000_0000);
    assert(one >= pow2(95)) by (nonlinear_arith)
        requires
            one == pow2(95) * pow2(979),
            pow2(979) > 0,
    ;
    let ticks = distance(pts as int, 0) as nat;
    lemma_small_int(Format::Double, num as nat);
    lemma_small_int(Format::Double, den as nat);
    lemma_count_close(ticks);
    // The unit.
    let d = den as nat;
    let no = num as nat * one;
    vstd::arithmetic::mul::lemma_mul_strictly_positive(d as int, one as int);
    lemma_round_to_scale(53, no, d, one);
    let tb = round_to(53, no, d);
    lemma_round_to_relative(53, no, d);
    assert(one <= no <= 0x8000_0000 * one) by (nonlinear_arith)
        requires
            no == num * one,
            1 <= num <= 0x8000_0000,
            one > 0,
    ;
    lemma_pow2_adds(31, 1074);
    assert(no * 1 <= pow2(1105) * d) by (nonlinear_arith)
        requires
            no <= 0x8000_0000 * one,
            pow2(1105) == 0x8000_0000 * one,
            d >= 1,
            one > 0,
    ;
    lemma_round_to_monotone(53, no, d, pow2(1105), 1);
    lemma_round_to_exact(53, 1, 1105);
    lemma_pow2_strictly_increases(1105, 2098);
    // The timestamp.
    let p = round_to(53, ticks * one, 1);
    // Their product.
    let t = round_to(53, p * tb, one);
    lemma_round_to_relative(53, p * tb, one);
    lemma_pow2_adds(1138, 1105);
    lemma_pow2_adds(1169, 1074);
    assert((p * tb) * 1 <= pow2(1169) * one) by (nonlinear_arith)
        requires
            p <= pow2(1138),
            tb <= pow2(1105),
            pow2(1169) * one == pow2(1138) * pow2(1105),
            p >= 0,
            tb >= 0,
    ;
    lemma_round_to_monotone(53, p * tb, one, pow2(1169), 1);
    lemma_round_to_exact(53, 1, 1169);
    lemma_pow2_strictly_increases(1169, 2098);
    // All of it times the denominator.
    let tick = ticks * one;
    let w = tick * no;
    lemma_time_errors(t as int, p as int, tb as int, d as int, tick as int, no as int, one as int);
    let exact = (ticks * num) * one;
    assert(w == exact * one) by (nonlinear_arith)
        requires
            w == tick * no,
            tick == ticks * one,
            no == num * one,
            exact == (ticks * num) * one,
    ;
    let td = t * d;
    assert(0x4_0000_0000_0000 * (td - exact) <= exact) by (nonlinear_arith)
        requires
            0x4_0000_0000_0000 * (td * one - exact * one) <= exact * one,
            one > 0,
    ;
    assert(0x4_0000_0000_0000 * (exact - td) <= exact) by (nonlinear_arith)
        requires
            0x4_0000_0000_0000 * (exact * one - td * one) <= exact * one,
            one > 0,
    ;
}

/// Where the number or the timestamp of a frame fits the digits of a double, its time is the
/// double nearest to the exact time.
pub proof fn lemma_time_nearest(pts: i64, tb: Num, index: u64)
    requires
        tb is Finite,
    ensures
        index < pow2(53) ==> nearest_to(
            Format::Double,
            frame_time(None, tb, index)->mag,
            (index * pow2(1074)) as nat,
            30,
        ),
        distance(pts as int, 0) < pow2(53) && frame_time(Some(pts), tb, index) is Finite
            ==> nearest_to(
            Format::Double,
            frame_time(Some(pts), tb, index)->mag,
            (distance(pts as int, 0) * tb->mag) as nat,
            1,
        ),
{
    let one = pow2(1074);
    lemma2_to64();
    lemma2_to64_rest();
    lemma_pow2_pos(1074);
    if index < pow2(53) {
        let n = index as nat;
        lemma_small_int(Format::Double, n);
        lemma_small_int(Format::Double, 30);
        lemma_untimed_frames_at_thirty(tb, index);
        lemma_round_to_scale(53, n * one, 30, one);
        lemma_nearest_to(Format::Double, false, n * one, 30);
    }
    let ticks = distance(pts as int, 0) as nat;
    if ticks < pow2(53) && frame_time(Some(pts), tb, index) is Finite {
        lemma_small_ticks(pts);
        let b = tb->mag;
        assert((ticks * one) * b == (ticks * b) * one) by (nonlinear_arith);
        assert(1 * one == one);
        lemma_round_to_scale(53, ticks * b, 1, one);
        lemma_nearest_to(Format::Double, (pts < 0) != tb->Finite_neg, ticks * b, 1);
    }
}

/// A timestamp that fits the digits of a double is taken as it is.
proof fn lemma_small_ticks(pts: i64)
    requires
        distance(pts as int, 0) < pow2(53),
    ensures
        Num::of_int(Format::Double, pts as int) == (Num::Finite {
            neg: pts < 0,
            mag: distance(pts as int, 0) as nat * pow2(1074),
        }),
{
    crate::number::lemma_representable(
        Format::Double,
        pts < 0,
        distance(pts as int, 0) as nat,
        1074,
    );
}

/// A whole number divided by another one, up to rounding: times the divisor the result is
/// off the number by no more than one part in two to the power 51.
pub proof fn lemma_ratio_close(num: nat, den: nat)
    requires
        0 < num <= u64::MAX,
        0 < den <= u32::MAX,
    ensures
        Num::of_int(Format::Double, num as int).over(
            Format::Double,
            Num::of_int(Format::Double, den as int),
        ) matches Num::Finite { neg: false, mag } && 0x8_0000_0000_0000 * distance(
            (mag * den) as int,
            (num * pow2(1074)) as int,
        ) <= num * pow2(1074),
{
    let one = pow2(1074);
    lemma2_to64();
    lemma2_to64_rest();
    lemma_pow2_pos(1074);
    lemma_pow2_pos(1010);
    lemma_pow2_adds(64, 1010);
    assert(one >= 0x1_0000_0000_0000_0000 * pow2(1010));
    lemma_pow2_adds(64, 946);
    lemma_pow2_pos(946);
    assert(pow2(1010) >= 0x1_0000_0000_0000_0000);
    lemma_small_int(Format::Double, den);
    lemma_count_close(num);
    let n = round_to(53, num * one, 1);
    vstd::arithmetic::mul::lemma_mul_strictly_positive(den as int, one as int);
    lemma_round_to_scale(53, n, den, one);
    lemma_round_to_relative(53, n, den);
    assert(n * 1 <= pow2(1138) * den) by (nonlinear_arith)
        requires
            n <= pow2(1138),
            den >= 1,
    ;
    lemma_round_to_monotone(53, n, den, pow2(1138), 1);
    lemma_round_to_exact(53, 1, 1138);
    lemma_pow2_strictly_increases(1138, 2098);
    let q = round_to(53, n, den);
    let no = num * one;
    assert(0x20_0000_0000_0000 * (q * den - n) <= n + 0x10_0000_0000_0000 * den);
    assert(0x20_0000_0000_0000 * (n - q * den) <= n + 0x10_0000_0000_0000 * den);
}

/// In any unit, the time of a frame with a timestamp is the timestamp times the unit, up to
/// rounding, and has the sign of that product; where it is not finite, neither is the
/// product, but for rounding.
pub proof fn lemma_time_is_product(pts: i64, tb: Num, index: u64)
    requires
        tb is Finite,
    ensures
        ({
            let exact = distance(pts as int, 0) * tb->mag;
            let slack = exact + 0x8_0000_0000_0000;
            match frame_time(Some(pts), tb, index) {
                Num::Finite { neg, mag } => neg == ((pts < 0) != tb->Finite_neg)
                    && 0x8_0000_0000_0000 * distance(mag as int, exact) <= slack,
                Num::Infinite { neg } => neg == ((pts < 0) != tb->Finite_neg)
                    && 0x8_0000_0000_0000 * (pow2(2098) - exact) <= slack,
                Num::NotANumber => false,
            }
        }),
{
    let one = pow2(1074);
    let ticks = distance(pts as int, 0) as nat;
    lemma2_to64();
    lemma2_to64_rest();
    lemma_pow2_pos(1074);
    lemma_pow2_pos(2098);
    let exact = ticks * tb->mag;
    let p = if ticks == 0 {
        lemma_small_int(Format::Double, 0);
        assert(0 * one == 0) by (nonlinear_arith);
        assert(0 * tb->mag == 0) by (nonlinear_arith);
        0
    } else {
        lemma_count_close(ticks);
        round_to(53, ticks * one, 1)
    };
    let x = p * tb->mag;
    let r = round_to(53, x, one);
    lemma_round_to_relative(53, x, one);
    let tick = ticks * one;
    assert(0x20_0000_0000_0000 * distance(p as int, tick as int) <= tick);
    let w = exact * one;
    let b = tb->mag;
    assert(w == tick * b) by (nonlinear_arith)
        requires
            w == exact * one,
            exact == ticks * b,
            tick == ticks * one,
    ;
    assert(0x20_0000_0000_0000 * (x - w) <= w && 0x20_0000_0000_0000 * (w - x) <= w)
        by (nonlinear_arith)
        requires
            0x20_0000_0000_0000 * (p - tick) <= tick,
            0x20_0000_0000_0000 * (tick - p) <= tick,
            x == p * b,
            w == tick * b,
    ;
    let ro = r * one;
    assert(0x20_0000_0000_0000 * (ro - x) <= x + 0x10_0000_0000_0000 * one);
    assert(0x20_0000_0000_0000 * (x - ro) <= x + 0x10_0000_0000_0000 * one);
    assert(0x8_0000_0000_0000 * (ro - w) <= w + 0x8_0000_0000_0000 * one);
    assert(0x8_0000_0000_0000 * (w - ro) <= w + 0x8_0000_0000_0000 * one);
    assert(0x8_0000_0000_0000 * (r - exact) <= exact + 0x8_0000_0000_0000) by (nonlinear_arith)
        requires
            0x8_0000_0000_0000 * (r * one - exact * one) <= exact * one + 0x8_0000_0000_0000 * one,
            one > 0,
    ;
    assert(0x8_0000_0000_0000 * (exact - r) <= exact + 0x8_0000_0000_0000) by (nonlinear_arith)
        requires
            0x8_0000_0000_0000 * (exact * one - r * one) <= exact * one + 0x8_0000_0000_0000 * one,
            one > 0,
    ;
}

/// Three roundings, one after the other.
proof fn lemma_time_errors(t: int, p: int, tb: int, d: int, tick: int, no: int, one: int)
    requires
        1 <= d <= 0x8000_0000,
        p > 0,
        tb >= 0,
        t >= 0,
        tick >= one,
        no >= one,
        one >= 0x1_0000_0000_0000_0000 * 0x8000_0000,
        0x20_0000_0000_0000 * distance(p, tick) <= tick,
        0x20_0000_0000_0000 * distance(tb * d, no) <= no + 0x10_0000_0000_0000 * d,
        0x20_0000_0000_0000 * distance(t * one, p * tb) <= p * tb + 0x10_0000_0000_0000 * one,
    ensures
        0x4_0000_0000_0000 * distance((t * d) * one, tick * no) <= tick * no,
{
    let x = tb * d;
    let px = p * x;
    let w = tick * no;
    let a = p * no;
    let y = (t * d) * one;
    assert(0x20_0000_0000_0000 * (a - w) <= w && 0x20_0000_0000_0000 * (w - a) <= w)
        by (nonlinear_arith)
        requires
            0x20_0000_0000_0000 * (p - tick) <= tick,
            0x20_0000_0000_0000 * (tick - p) <= tick,
            a == p * no,
            w == tick * no,
            no > 0,
    ;
    let pd = p * d;
    assert(0x20_0000_0000_0000 * (px - a) <= a + 0x10_0000_0000_0000 * pd && 0x20_0000_0000_0000 * (a
        - px) <= a + 0x10_0000_0000_0000 * pd) by (nonlinear_arith)
        requires
            0x20_0000_0000_0000 * (x - no) <= no + 0x10_0000_0000_0000 * d,
            0x20_0000_0000_0000 * (no - x) <= no + 0x10_0000_0000_0000 * d,
            a == p * no,
            px == p * x,
            pd == p * d,
            p > 0,
    ;
    assert(0x1_0000_0000_0000_0000 * pd <= a) by (nonlinear_arith)
        requires
            pd == p * d,
            a == p * no,
            0x1_0000_0000_0000_0000 * d <= no,
            p > 0,
    ;
    let od = one * d;
    assert(px == (p * tb) * d) by (nonlinear_arith)
        requires
            px == p * x,
            x == tb * d,
    ;
    assert(y == (t * one) * d) by (nonlinear_arith)
        requires
            y == (t * d) * one,
    ;
    assert(0x20_0000_0000_0000 * (y - px) <= px + 0x10_0000_0000_0000 * od && 0x20_0000_0000_0000 * (
    px - y) <= px + 0x10_0000_0000_0000 * od) by (nonlinear_arith)
        requires
            0x20_0000_0000_0000 * (t * one - p * tb) <= p * tb + 0x10_0000_0000_0000 * one,
            0x20_0000_0000_0000 * (p * tb - t * one) <= p * tb + 0x10_0000_0000_0000 * one,
            y == (t * one) * d,
            px == (p * tb) * d,
            od == one * d,
            d > 0,
    ;
    let kd = 0x1_0000_0000_0000_0000 * d;
    assert(0x1_0000_0000_0000_0000 * od <= w) by (nonlinear_arith)
        requires
            od == one * d,
            w == tick * no,
            tick >= one,
            kd <= no,
            kd == 0x1_0000_0000_0000_0000 * d,
            kd >= 0,
            one > 0,
    ;
}

/// Of a region that is copied, whatever the distances between the rows: a byte that rows
/// are written to has what the last of them wrote, and every other one stays as it was.
pub proof fn lemma_copied_row_by_row(
    dst: Seq<u8>,
    dst_stride: int,
    src: Seq<u8>,
    src_stride: int,
    region: Bbox,
    rows: nat,
    k: int,
)
    requires
        0 <= k < dst.len(),
    ensures
        ({
            let now = rows_copied(dst, dst_stride, src, src_stride, region, rows);
            &&& now.len() == dst.len()
            &&& (forall|y: int| 0 <= y < rows ==> !#[trigger] row_holds(y, dst_stride, region.w, k))
                ==> now[k] == dst[k]
            &&& forall|y: int|
                0 <= y < rows && #[trigger] row_holds(y, dst_stride, region.w, k) && (forall|z: int|
                    y < z < rows ==> !#[trigger] row_holds(z, dst_stride, region.w, k)) ==> now[k]
                    == src[(region.y + y) * src_stride + 4 * region.x + (k - y * dst_stride)]
        }),
    decreases rows,
{
    if rows > 0 {
        let prior = (rows - 1) as nat;
        let last = rows - 1;
        lemma_copied_row_by_row(dst, dst_stride, src, src_stride, region, prior, k);
        let before = rows_copied(dst, dst_stride, src, src_stride, region, prior);
        let now = rows_copied(dst, dst_stride, src, src_stride, region, rows);
        if !row_holds(last, dst_stride, region.w, k) {
            assert(now[k] == before[k]);
        }
        if forall|y: int| 0 <= y < rows ==> !#[trigger] row_holds(y, dst_stride, region.w, k) {
            assert(!row_holds(last, dst_stride, region.w, k));
        }
        assert forall|y: int|
            0 <= y < rows && #[trigger] row_holds(y, dst_stride, region.w, k) && (forall|z: int|
                y < z < rows ==> !#[trigger] row_holds(z, dst_stride, region.w, k)) implies now[k]
            == src[(region.y + y) * src_stride + 4 * region.x + (k - y * dst_stride)] by {
            if y < last {
                assert(!row_holds(last, dst_stride, region.w, k));
            }
        }
    }
}

/// Byte `k` is one of the bytes of row `y` of a picture `width` pixels wide.
pub open spec fn row_holds(y: int, stride: int, width: u32, k: int) -> bool {
    y * stride <= k < y * stride + 4 * width
}

/// A region can be copied exactly where its last row ends inside both pictures; then every
/// row does.
pub proof fn lemma_fits_inside(
    dst_len: nat,
    dst_stride: int,
    src_len: nat,
    src_stride: int,
    region: Bbox,
    y: int,
)
    requires
        dst_stride >= 0,
        src_stride >= 0,
        region.h > 0,
    ensures
        region_fits(dst_len, dst_stride, src_len, src_stride, region) <==> {
            &&& (region.h - 1) * dst_stride + 4 * region.w <= dst_len
            &&& (region.y + region.h - 1) * src_stride + 4 * (region.x + region.w) <= src_len
        },
        region_fits(dst_len, dst_stride, src_len, src_stride, region) && 0 <= y < region.h ==> {
            &&& y * dst_stride + 4 * region.w <= dst_len
            &&& (region.y + y) * src_stride + 4 * (region.x + region.w) <= src_len
        },
{
    if 0 <= y < region.h {
        assert(y * dst_stride <= (region.h - 1) * dst_stride) by (nonlinear_arith)
            requires
                y <= region.h - 1,
                dst_stride >= 0,
        ;
        assert((region.y + y) * src_stride <= (region.y + region.h - 1) * src_stride)
            by (nonlinear_arith)
            requires
                y <= region.h - 1,
                src_stride >= 0,
        ;
    }
}

/// A region without rows always fits.
pub proof fn lemma_nothing_fits_anywhere(
    dst_len: nat,
    dst_stride: int,
    src_len: nat,
    src_stride: int,
    region: Bbox,
)
    requires
        region.h == 0,
    ensures
        region_fits(dst_len, dst_stride, src_len, src_stride, region),
{
}

/// Rows can be packed exactly where each of them ends inside the buffer.
pub proof fn lemma_rows_inside(len: nat, stride: int, width: int, height: int)
    requires
        stride >= 0,
        width >= 0,
        height >= 0,
    ensures
        rows_fit(len, stride, width, height) <==> forall|y: int|
            0 <= y < height ==> #[trigger] row_end(y, stride, width) <= len,
{
    if height > 0 {
        assert(row_end(height - 1, stride, width) == (height - 1) * stride + 4 * width);
        assert forall|y: int| 0 <= y < height implies #[trigger] row_end(y, stride, width)
            <= row_end(height - 1, stride, width) by {
            assert(y * stride <= (height - 1) * stride) by (nonlinear_arith)
                requires
                    y <= height - 1,
                    stride >= 0,
            ;
        }
    }
}

/// Where row `y` of a picture `width` pixels wide ends.
pub open spec fn row_end(y: int, stride: int, width: int) -> int {
    y * stride + 4 * width
}

/// A picture can be converted exactly where the red, green and blue of each pixel are there.
pub proof fn lemma_pixels_inside(len: nat, n: int)
    requires
        n >= 0,
    ensures
        has_pixels(len, n) <==> forall|i: int| 0 <= i < n ==> #[trigger] blue_of(i) < len,
{
    if n > 0 {
        assert(blue_of(n - 1) == 4 * n - 2);
    }
}

/// The place of the blue byte of pixel `i`.
pub open spec fn blue_of(i: int) -> int {
    4 * i + 2
}

/// A frame is compared with an unpadded one of its size exactly where it is complete.
pub proof fn lemma_complete_frames_compare(len: nat, prev_len: nat, width: u32, height: u32)
    requires
        prev_len == width * height,
    ensures
        comparable(len, prev_len, width, height) <==> len >= width * height,
{
    if width > 0 {
        assert(prev_len / width as nat == height) by (nonlinear_arith)
            requires
                prev_len == width * height,
                width > 0,
        ;
        assert(height * width == width * height) by (nonlinear_arith);
    } else {
        assert(0 * height == 0) by (nonlinear_arith);
    }
}

/// A frame is compared with any complete one exactly where each row that lies in a block and
/// in the other frame is there in full.
pub proof fn lemma_compared_rows_inside(len: nat, prev_len: nat, width: u32, height: u32)
    requires
        width > 0,
        height > 0,
    ensures
        comparable(len, prev_len, width, height) <==> prev_len >= width * height && forall|y: int|
            0 <= y < 16 * blocks_across(height) && #[trigger] gray_row_end(y, width) <= prev_len
                ==> gray_row_end(y, width) <= len,
{
    let w = width as int;
    let tall = prev_len / width as nat;
    let spanned = 16 * blocks_across(height);
    let rows = rows_read(prev_len, width, height);
    vstd::arithmetic::div_mod::lemma_fundamental_div_mod(prev_len as int, w);
    let low = prev_len as int % w;
    assert forall|y: int| 0 <= y implies (#[trigger] gray_row_end(y, width) <= prev_len <==> y
        < tall) by {
        assert((y + 1) * w <= prev_len <==> y < tall) by (nonlinear_arith)
            requires
                prev_len == w * tall + low,
                0 <= low < w,
        ;
    }
    if prev_len >= width * height {
        assert(tall >= height) by (nonlinear_arith)
            requires
                prev_len >= w * height,
                prev_len == w * tall + low,
                0 <= low < w,
                w == width,
        ;
        assert(rows >= 1);
        assert(gray_row_end(rows - 1, width) == rows * w);
        assert forall|y: int| 0 <= y < rows implies #[trigger] gray_row_end(y, width) <= rows * w by {
            assert((y + 1) * w <= rows * w) by (nonlinear_arith)
                requires
                    y + 1 <= rows,
                    w > 0,
            ;
        }
    }
}

/// Where row `y` of a picture of intensities ends.
pub open spec fn gray_row_end(y: int, width: u32) -> int {
    (y + 1) * width
}

} // verus!
