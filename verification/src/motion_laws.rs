//! What holds of the motion scores of every video.

use crate::analysis::{
    abs_diff, block_extent, blocks_across, gray_of, lemma_rect_bound, mad, mads, moving_average,
    rect_diff, span_diff, AnalysisRun, Motion, Total, KEEP_WEIGHT, NEW_WEIGHT,
};
use crate::bbox::{
    active_blocks, block, block_box, is_bbox, keeps_col, keeps_row, BboxMethod, BlockBox,
};
use crate::bbox_laws::{
    holds_block, lemma_all_active_keeps_frame, lemma_box_is_envelope, lemma_nothing_active,
    lemma_region_unique, lemma_stricter_keeps, stricter,
};
use crate::decoder::{
    alike, lemma_course_ignores_drops, occurrences, packed_rows, DecodeEvent, DecodeLoop,
    FrameSampler, VideoFrame,
};
use crate::number::{
    lemma_digits_of, lemma_plus_zero, lemma_representable, lemma_rounded_in_format, lemma_small_int,
    Format, Num,
};
use crate::rounding::{
    lemma_bit_length_unique, lemma_nearest_even_exact, lemma_round_to_exact,
    lemma_round_to_monotone, lemma_round_to_scale, lemma_round_to_shift, nearest_even, round_to,
};
use crate::single::single_num;
use crate::BLOCK;
use vstd::arithmetic::div_mod::lemma_fundamental_div_mod_converse;
use vstd::arithmetic::mul::lemma_mul_strictly_positive;
use vstd::arithmetic::power2::{
    lemma2_to64, lemma_pow2_adds, lemma_pow2_pos, lemma_pow2_strictly_increases, pow2,
};
use vstd::prelude::*;

verus! {

/// The frames have the same pixel at an index.
pub open spec fn same_at(gray: Seq<u8>, prev: Seq<u8>, i: int) -> bool {
    gray[i] == prev[i]
}

/// The frames have the same pixel in column `x` of row `y`.
pub open spec fn same_pixel(gray: Seq<u8>, prev: Seq<u8>, stride: int, x: int, y: int) -> bool {
    same_at(gray, prev, y * stride + x)
}

/// The frames have the same pixels in a block.
pub open spec fn same_block(gray: Seq<u8>, prev: Seq<u8>, stride: nat, bx: int, by: int) -> bool {
    let width = block_extent(bx * BLOCK, stride as int);
    let height = block_extent(by * BLOCK, (prev.len() / stride) as int);
    forall|x: int, y: int|
        bx * BLOCK <= x < bx * BLOCK + width && by * BLOCK <= y < by * BLOCK + height
            ==> same_pixel(gray, prev, stride as int, x, y)
}

proof fn lemma_span_zero(gray: Seq<u8>, prev: Seq<u8>, start: int, n: nat)
    ensures
        span_diff(gray, prev, start, n) == 0 <==> forall|i: int|
            start <= i < start + n ==> same_at(gray, prev, i),
    decreases n,
{
    if n > 0 {
        lemma_span_zero(gray, prev, start, (n - 1) as nat);
        assert(same_at(gray, prev, start + n - 1) <==> abs_diff(
            gray[start + n - 1],
            prev[start + n - 1],
        ) == 0);
    }
}

proof fn lemma_rect_zero(
    gray: Seq<u8>,
    prev: Seq<u8>,
    stride: int,
    x0: int,
    y0: int,
    width: nat,
    n: nat,
)
    ensures
        rect_diff(gray, prev, stride, x0, y0, width, n) == 0 <==> forall|x: int, y: int|
            x0 <= x < x0 + width && y0 <= y < y0 + n ==> same_pixel(gray, prev, stride, x, y),
    decreases n,
{
    if n > 0 {
        let m = (n - 1) as nat;
        let last = y0 + n - 1;
        let start = last * stride + x0;
        lemma_rect_zero(gray, prev, stride, x0, y0, width, m);
        lemma_span_zero(gray, prev, start, width);
        let all = forall|x: int, y: int|
            x0 <= x < x0 + width && y0 <= y < y0 + n ==> same_pixel(gray, prev, stride, x, y);
        if rect_diff(gray, prev, stride, x0, y0, width, n) == 0 {
            assert forall|x: int, y: int| x0 <= x < x0 + width && y0 <= y < y0 + n implies same_pixel(
                gray,
                prev,
                stride,
                x,
                y,
            ) by {
                if y == last {
                    assert(same_at(gray, prev, start + (x - x0)));
                }
            }
        } else if all {
            assert forall|i: int| start <= i < start + width implies same_at(gray, prev, i) by {
                assert(same_pixel(gray, prev, stride, x0 + (i - start), last));
            }
        }
    }
}

/// The block is in the frame, and has pixels.
pub open spec fn block_in_frame(prev: Seq<u8>, stride: nat, bx: int, by: int) -> bool {
    &&& stride > 0
    &&& 0 <= bx
    &&& 0 <= by
    &&& bx * BLOCK < stride
    &&& by * BLOCK < prev.len() / stride
}

/// The difference of a block is a number from 0 to 255, and it is zero exactly
/// where the pixels are the same.
pub proof fn lemma_mad_range(gray: Seq<u8>, prev: Seq<u8>, stride: nat, bx: int, by: int)
    requires
        block_in_frame(prev, stride, bx, by),
    ensures
        mad(gray, prev, stride, bx, by) matches Num::Finite { neg: false, mag } && mag <= 255
            * Format::Single.one() && (mag == 0 <==> same_block(gray, prev, stride, bx, by)) && (mag
            > 0 ==> mag >= pow2(141)),
        mad(gray, prev, stride, bx, by).in_format(Format::Single),
{
    let x0 = bx * BLOCK;
    let y0 = by * BLOCK;
    let width = block_extent(x0, stride as int);
    let height = block_extent(y0, (prev.len() / stride) as int);
    let n = width * height;
    let sum = rect_diff(gray, prev, stride as int, x0, y0, width, height);
    let one = Format::Single.one();
    assert(1 <= n <= 256) by (nonlinear_arith)
        requires
            1 <= width <= 16,
            1 <= height <= 16,
            n == width * height,
    ;
    lemma_rect_bound(gray, prev, stride as int, x0, y0, width, height);
    lemma_rect_zero(gray, prev, stride as int, x0, y0, width, height);
    lemma2_to64();
    lemma_small_int(Format::Single, sum);
    lemma_small_int(Format::Single, n);
    lemma_pow2_pos(149);
    lemma_mul_strictly_positive(n as int, one as int);
    lemma_rounded_in_format(Format::Single, false, (sum * one) * one, n * one);
    lemma_round_to_scale(24, sum * one, n, one);
    // Not above 255.
    assert((sum * one) * 1 <= (255 * one) * n) by (nonlinear_arith)
        requires
            sum <= 255 * n,
            one > 0,
    ;
    lemma_round_to_monotone(24, sum * one, n, 255 * one, 1);
    lemma_round_to_exact(24, 255, 149);
    lemma_pow2_adds(8, 149);
    lemma_pow2_strictly_increases(157, 277);
    if sum == 0 {
        assert(sum * one == 0) by (nonlinear_arith)
            requires
                sum == 0,
        ;
        lemma_nearest_even_exact(0, n);
    } else {
        lemma_pow2_pos(141);
        lemma_pow2_adds(141, 8);
        assert(pow2(141) * n <= (sum * one) * 1) by (nonlinear_arith)
            requires
                sum >= 1,
                n <= 256,
                one == pow2(141) * 256,
                pow2(141) > 0,
        ;
        lemma_round_to_monotone(24, pow2(141), 1, sum * one, n);
        lemma_round_to_exact(24, 1, 141);
    }
}

/// A number from 0 to 255 of the single format.
pub open spec fn is_level(x: Num) -> bool {
    &&& x matches Num::Finite { neg: false, mag } && mag <= 255 * Format::Single.one()
    &&& x.in_format(Format::Single)
}

/// The two weights, and what they make of 255.
pub(crate) proof fn lemma_weights()
    ensures
        single_num(KEEP_WEIGHT) == (Num::Finite { neg: false, mag: 0xf3_3333 * pow2(125) }),
        single_num(NEW_WEIGHT) == (Num::Finite { neg: false, mag: 0xcc_cccd * pow2(121) }),
        round_to(24, (0xf3_3333 * pow2(125)) * (255 * pow2(149)), pow2(149)) == 0xf2_4000 * pow2(
            133,
        ),
        round_to(24, (0xcc_cccd * pow2(121)) * (255 * pow2(149)), pow2(149)) == 0xcc_0000 * pow2(
            129,
        ),
        0xf2_4000 * pow2(133) + 0xcc_0000 * pow2(129) == 255 * pow2(149),
{
    assert(KEEP_WEIGHT / 0x80_0000 == 126 && KEEP_WEIGHT % 0x80_0000 == 0x73_3333);
    assert(NEW_WEIGHT / 0x80_0000 == 122 && NEW_WEIGHT % 0x80_0000 == 0x4c_cccd);
    lemma2_to64();
    lemma_pow2_adds(125, 8);
    lemma_pow2_adds(121, 8);
    lemma_pow2_adds(129, 4);
    lemma_pow2_adds(129, 20);
    lemma_pow2_pos(149);
    let u = pow2(149);
    let a: nat = 4064280525;
    let b: nat = 3422552115;
    assert((0xf3_3333 * pow2(125)) * (255 * u) == (a * pow2(125)) * u) by (nonlinear_arith)
        requires
            a == 0xf3_3333 * 255,
    ;
    assert((0xcc_cccd * pow2(121)) * (255 * u) == (b * pow2(121)) * u) by (nonlinear_arith)
        requires
            b == 0xcc_cccd * 255,
    ;
    lemma_round_to_scale(24, a * pow2(125), 1, u);
    lemma_round_to_scale(24, b * pow2(121), 1, u);
    lemma_bit_length_unique(a, 32);
    lemma_bit_length_unique(b, 32);
    lemma_round_to_shift(24, a, 125);
    lemma_round_to_shift(24, b, 121);
    assert(a / 1 == a && b / 1 == b);
    assert(nearest_even(a, 256) == 0xf2_4000);
    assert(nearest_even(b, 256) == 0xcc_0000);
    assert((0xf2_4000nat * 256) * pow2(125) == 0xf2_4000 * (pow2(125) * 256)) by (nonlinear_arith);
    assert((0xcc_0000nat * 256) * pow2(121) == 0xcc_0000 * (pow2(121) * 256)) by (nonlinear_arith);
}

/// Averages stay in the range of the intensities.
pub proof fn lemma_average_range(average: Num, new: Num)
    requires
        is_level(average),
        is_level(new),
    ensures
        is_level(moving_average(average, new)),
{
    let u = pow2(149);
    let k = 0xf3_3333 * pow2(125);
    let w = 0xcc_cccd * pow2(121);
    let x = average->mag;
    let y = new->mag;
    lemma_weights();
    lemma2_to64();
    lemma_pow2_pos(149);
    lemma_pow2_adds(8, 149);
    lemma_pow2_strictly_increases(157, 277);
    assert((k * x) * u <= (k * (255 * u)) * u) by (nonlinear_arith)
        requires
            x <= 255 * u,
            k >= 0,
            u >= 0,
    ;
    assert((w * y) * u <= (w * (255 * u)) * u) by (nonlinear_arith)
        requires
            y <= 255 * u,
            w >= 0,
            u >= 0,
    ;
    lemma_round_to_monotone(24, k * x, u, k * (255 * u), u);
    lemma_round_to_monotone(24, w * y, u, w * (255 * u), u);
    let a = round_to(24, k * x, u);
    let b = round_to(24, w * y, u);
    lemma_round_to_monotone(24, a + b, 1, 255 * u, 1);
    lemma_round_to_exact(24, 255, 149);
    lemma_rounded_in_format(Format::Single, false, a + b, 1);
}

/// The moving average of a block that has not changed does not grow.
pub proof fn lemma_average_decays(average: Num)
    requires
        is_level(average),
    ensures
        average.at_least(moving_average(average, Num::zero())),
{
    let u = pow2(149);
    let k = 0xf3_3333 * pow2(125);
    let x = average->mag;
    lemma_weights();
    lemma2_to64();
    lemma_pow2_pos(149);
    lemma_pow2_adds(125, 24);
    assert(k * x <= x * u) by (nonlinear_arith)
        requires
            k <= u,
            x >= 0,
    ;
    lemma_round_to_monotone(24, k * x, u, x, 1);
    let a = round_to(24, k * x, u);
    lemma_rounded_in_format(Format::Single, false, k * x, u);
    assert((0xcc_cccd * pow2(121)) * 0 == 0) by (nonlinear_arith);
    lemma_nearest_even_exact(0, u);
    lemma_plus_zero(Format::Single, Num::Finite { neg: false, mag: a });
}

/// Every block of the grid is in the frame.
pub(crate) proof fn lemma_grid_in_frame(prev: Seq<u8>, width: u32, height: u32, i: int)
    requires
        prev.len() >= width * height,
        0 <= i < blocks_across(width) * blocks_across(height),
    ensures
        blocks_across(width) > 0,
        block_in_frame(
            prev,
            width as nat,
            i % blocks_across(width) as int,
            i / blocks_across(width) as int,
        ),
{
    let cols = blocks_across(width);
    let rows = blocks_across(height);
    assert(cols > 0) by (nonlinear_arith)
        requires
            0 <= i < cols * rows,
            cols >= 0,
    ;
    let by = i / cols as int;
    assert(0 <= by < rows) by (nonlinear_arith)
        requires
            by == i / cols as int,
            0 <= i < cols * rows,
            cols > 0,
    ;
    assert(prev.len() / width as nat >= height) by (nonlinear_arith)
        requires
            prev.len() >= width * height,
            width > 0,
    ;
}

/// All scores are numbers from 0 to 255.
pub open spec fn all_levels(scores: Seq<Num>) -> bool {
    forall|i: int| 0 <= i < scores.len() ==> is_level(#[trigger] scores[i])
}

/// The moving averages of a video are numbers from 0 to 255, whatever frames it
/// has.
pub proof fn lemma_averages_in_range(m: Motion, width: u32, height: u32, gray: Seq<u8>)
    requires
        m.wf(),
        m.accepts(width, height, gray.len()),
        all_levels(m.scores),
    ensures
        all_levels(Motion::empty().scores),
        all_levels(m.averaged(width, height, gray).scores),
{
    let base = m.at_size(width, height, gray);
    let next = m.averaged(width, height, gray);
    lemma_zero_is_level();
    assert forall|i: int| 0 <= i < next.scores.len() implies is_level(#[trigger] next.scores[i]) by {
        let cols = blocks_across(width);
        assert(0 <= width * height) by (nonlinear_arith);
        lemma_grid_in_frame(base.gray, width, height, i);
        lemma_mad_range(gray, base.gray, width as nat, i % cols as int, i / cols as int);
        assert(is_level(base.scores[i]));
        lemma_average_range(
            base.scores[i],
            mad(gray, base.gray, width as nat, i % cols as int, i / cols as int),
        );
    }
}

proof fn lemma_zero_is_level()
    ensures
        is_level(Num::zero()),
{
    lemma_pow2_pos(149);
    lemma_pow2_pos(277);
    lemma_nearest_even_exact(0, 1);
}

/// A frame of another size starts the analysis anew: what comes of it is what
/// comes of it without any frame before, and as many scores as it has blocks.
pub proof fn lemma_resize_starts_anew(m: Motion, width: u32, height: u32, gray: Seq<u8>)
    requires
        m.width != width || m.height != height,
    ensures
        m.averaged(width, height, gray) == Motion::empty().averaged(width, height, gray),
        m.summed(width, height, gray) == Motion::empty().summed(width, height, gray),
        m.averaged(width, height, gray).scores.len() == blocks_across(width) * blocks_across(
            height,
        ),
        width > 0 || height > 0 ==> m.accepts(width, height, gray.len()) == Motion::empty().accepts(
            width,
            height,
            gray.len(),
        ),
{
    if width == 0 && height == 0 {
        assert(blocks_across(0) * blocks_across(0) == 0) by (nonlinear_arith)
            requires
                blocks_across(0) == 0,
        ;
        assert(m.averaged(0, 0, gray).scores =~= Motion::empty().averaged(0, 0, gray).scores);
        assert(m.summed(0, 0, gray).scores =~= Motion::empty().summed(0, 0, gray).scores);
    }
}

/// A frame without an earlier one of its size has no motion: every score is
/// zero.
pub proof fn lemma_first_frame_is_still(m: Motion, width: u32, height: u32, gray: Seq<u8>)
    requires
        m.width != width || m.height != height,
        gray.len() >= width * height,
    ensures
        forall|i: int|
            0 <= i < blocks_across(width) * blocks_across(height) ==> {
                &&& (#[trigger] m.averaged(width, height, gray).scores[i]) == Num::zero()
                &&& m.summed(width, height, gray).scores[i] == Num::zero()
            },
{
    let cols = blocks_across(width);
    assert forall|i: int| 0 <= i < blocks_across(width) * blocks_across(height) implies (
    #[trigger] m.averaged(width, height, gray).scores[i]) == Num::zero() && m.summed(
        width,
        height,
        gray,
    ).scores[i] == Num::zero() by {
        assert(0 <= width * height) by (nonlinear_arith);
        lemma_grid_in_frame(gray, width, height, i);
        lemma_mad_range(gray, gray, width as nat, i % cols as int, i / cols as int);
        assert(same_block(gray, gray, width as nat, i % cols as int, i / cols as int));
        lemma_still_average_is_zero();
        lemma_still_sum_is_zero();
    }
}

/// The average of nothing but zeros is zero.
pub proof fn lemma_still_average_is_zero()
    ensures
        moving_average(Num::zero(), Num::zero()) == Num::zero(),
{
    let u = pow2(149);
    lemma_weights();
    lemma_pow2_pos(149);
    lemma_pow2_pos(277);
    assert((0xf3_3333 * pow2(125)) * 0 == 0) by (nonlinear_arith);
    assert((0xcc_cccd * pow2(121)) * 0 == 0) by (nonlinear_arith);
    lemma_nearest_even_exact(0, u);
    lemma_nearest_even_exact(0, 1);
}

/// The sum of nothing but zeros is zero.
proof fn lemma_still_sum_is_zero()
    ensures
        Num::zero().plus(Format::Double, Num::zero().widened()) == Num::zero(),
{
    lemma_pow2_pos(2098);
    assert(0 * pow2(925) == 0) by (nonlinear_arith);
    lemma_nearest_even_exact(0, 1);
}

/// While there is no earlier frame of its size, a frame has no region at any
/// threshold above zero, with every method that keeps no more than the union.
pub proof fn lemma_warming_up(
    m: Motion,
    width: u32,
    height: u32,
    gray: Seq<u8>,
    threshold: Num,
    method: BboxMethod,
    r: Option<[u32; 4]>,
)
    requires
        m.width != width || m.height != height,
        gray.len() >= width * height,
        threshold.above(Num::zero()),
        stricter(method, BboxMethod::Union),
        is_bbox(
            r,
            active_blocks(m.averaged(width, height, gray).scores, threshold),
            blocks_across(width),
            blocks_across(height),
            width,
            height,
            method,
        ),
    ensures
        r is None,
{
    lemma_first_frame_is_still(m, width, height, gray);
    let mask = active_blocks(m.averaged(width, height, gray).scores, threshold);
    lemma_nothing_active(mask, blocks_across(width), blocks_across(height), method);
}

/// The last frame came without padding.
pub open spec fn packed(m: Motion) -> bool {
    m.gray.len() == m.width * m.height
}

/// Frames without padding are accepted, whatever came before.
pub proof fn lemma_packed_frames_accepted(m: Motion, width: u32, height: u32, gray: Seq<u8>)
    requires
        m.wf(),
        packed(m),
        gray.len() == width * height,
    ensures
        packed(Motion::empty()),
        m.accepts(width, height, gray.len()),
        packed(m.averaged(width, height, gray)),
        packed(m.summed(width, height, gray)),
        m.averaged(width, height, gray).wf(),
        m.summed(width, height, gray).wf(),
{
    let n = m.at_size(width, height, gray).gray.len();
    assert(0 <= width * height) by (nonlinear_arith);
    assert(n == width * height);
    if width > 0 {
        assert(n / width as nat == height) by (nonlinear_arith)
            requires
                n == width * height,
                width > 0,
        ;
        assert(height * width == width * height) by (nonlinear_arith);
    }
}

/// A frame made of the rows of a picture comes without padding.
pub proof fn lemma_made_frames_packed(raw: Seq<u8>, stride: int, width: u32, height: u32)
    ensures
        gray_of(packed_rows(raw, stride, width as int, height as int)).len() == width * height,
{
    assert(height * (4 * width) == 4 * (width * height)) by (nonlinear_arith);
    assert(0 <= width * height) by (nonlinear_arith);
}

/// What the sums over the frames of a video are.
pub open spec fn analysed(width: u32, height: u32, frames: Seq<Seq<u8>>) -> Total
    decreases frames.len(),
{
    if frames.len() == 0 {
        Total::empty()
    } else {
        analysed(width, height, frames.drop_last()).with(width, height, frames.last())
    }
}

/// What frame `k` of a video is compared with: the one before it, and the first
/// one with itself.
pub open spec fn frame_before(frames: Seq<Seq<u8>>, k: int) -> Seq<u8> {
    if k == 0 {
        frames[0]
    } else {
        frames[k - 1]
    }
}

/// Every frame of a video comes without padding.
pub open spec fn packed_video(width: u32, height: u32, frames: Seq<Seq<u8>>) -> bool {
    forall|k: int| 0 <= k < frames.len() ==> (#[trigger] frames[k]).len() == width * height
}

/// After each frame of a video the analysis holds that frame, and one score for
/// each block.
pub(crate) proof fn lemma_analysed_state(width: u32, height: u32, frames: Seq<Seq<u8>>)
    requires
        packed_video(width, height, frames),
        frames.len() > 0,
    ensures
        ({
            let t = analysed(width, height, frames);
            &&& t.frames == frames.len()
            &&& t.seen.width == width
            &&& t.seen.height == height
            &&& t.seen.gray == frames.last()
            &&& t.seen.scores.len() == blocks_across(width) * blocks_across(height)
        }),
    decreases frames.len(),
{
    let before = frames.drop_last();
    assert(packed_video(width, height, before)) by {
        assert forall|k: int| 0 <= k < before.len() implies (#[trigger] before[k]).len() == width
            * height by {
            assert(before[k] == frames[k]);
        }
    }
    if before.len() > 0 {
        lemma_analysed_state(width, height, before);
    } else {
        lemma_first_base(width, height, frames.last());
    }
}

/// The first frame of a video is compared with itself.
proof fn lemma_first_base(width: u32, height: u32, gray: Seq<u8>)
    requires
        gray.len() == width * height,
    ensures
        Motion::empty().at_size(width, height, gray) == Motion::fresh(width, height, gray),
{
    if width == 0 && height == 0 {
        assert(blocks_across(0) * blocks_across(0) == 0) by (nonlinear_arith)
            requires
                blocks_across(0) == 0,
        ;
        assert(gray =~= Seq::empty());
        assert(Motion::fresh(0, 0, gray).scores =~= Seq::empty());
    }
}

/// The difference that frame `k` of a video adds to the sum of block `i`.
pub open spec fn sample(width: u32, height: u32, frames: Seq<Seq<u8>>, i: int, k: int) -> Num {
    mads(frames[k], frame_before(frames, k), width, height)[i]
}

/// The sum of a block after a frame is its sum before plus what the frame adds.
pub(crate) proof fn lemma_analysed_step(width: u32, height: u32, frames: Seq<Seq<u8>>, i: int)
    requires
        packed_video(width, height, frames),
        frames.len() > 0,
        0 <= i < blocks_across(width) * blocks_across(height),
    ensures
        analysed(width, height, frames).seen.scores[i] == (if frames.len() == 1 {
            Num::zero()
        } else {
            analysed(width, height, frames.drop_last()).seen.scores[i]
        }).plus(
            Format::Double,
            sample(width, height, frames, i, frames.len() - 1).widened(),
        ),
        packed_video(width, height, frames.drop_last()),
{
    let before = frames.drop_last();
    assert(packed_video(width, height, before)) by {
        assert forall|k: int| 0 <= k < before.len() implies (#[trigger] before[k]).len() == width
            * height by {
            assert(before[k] == frames[k]);
        }
    }
    let old_total = analysed(width, height, before);
    if before.len() > 0 {
        lemma_analysed_state(width, height, before);
        assert(old_total.seen.at_size(width, height, frames.last()) == old_total.seen);
    } else {
        lemma_first_base(width, height, frames.last());
    }
    let base = old_total.seen.at_size(width, height, frames.last());
    assert(base.gray == frame_before(frames, frames.len() - 1));
}

/// The samples of a video are numbers from 0 to 255, and zero exactly where the
/// block has not changed.
pub(crate) proof fn lemma_sample_range(width: u32, height: u32, frames: Seq<Seq<u8>>, i: int, k: int)
    requires
        packed_video(width, height, frames),
        0 <= k < frames.len(),
        0 <= i < blocks_across(width) * blocks_across(height),
    ensures
        is_level(sample(width, height, frames, i, k)),
        ({
            let mag = sample(width, height, frames, i, k)->mag;
            &&& mag == 0 <==> unchanged(width, height, frames, i, k)
            &&& mag > 0 ==> mag >= pow2(141)
        }),
{
    let cols = blocks_across(width);
    let prev = frame_before(frames, k);
    assert(0 <= width * height) by (nonlinear_arith);
    assert(prev.len() == width * height);
    lemma_grid_in_frame(prev, width, height, i);
    lemma_mad_range(frames[k], prev, width as nat, i % cols as int, i / cols as int);
}

/// Frame `k` of a video has the same pixels in block `i` as what it is compared
/// with.
pub open spec fn unchanged(width: u32, height: u32, frames: Seq<Seq<u8>>, i: int, k: int) -> bool {
    let cols = blocks_across(width) as int;
    same_block(
        frames[k],
        frame_before(frames, k),
        width as nat,
        i % cols,
        i / cols,
    )
}

/// Block `i` never changes.
pub open spec fn still(width: u32, height: u32, frames: Seq<Seq<u8>>, i: int) -> bool {
    forall|k: int| 1 <= k < frames.len() ==> unchanged(width, height, frames, i, k)
}

/// The sum of a block that never changes is zero, however many frames there are.
pub proof fn lemma_still_block_sums_to_zero(
    width: u32,
    height: u32,
    frames: Seq<Seq<u8>>,
    i: int,
)
    requires
        packed_video(width, height, frames),
        frames.len() > 0,
        0 <= i < blocks_across(width) * blocks_across(height),
        still(width, height, frames, i),
    ensures
        analysed(width, height, frames).seen.scores[i] == Num::zero(),
    decreases frames.len(),
{
    let n = frames.len() as int;
    lemma_analysed_step(width, height, frames, i);
    lemma_sample_range(width, height, frames, i, n - 1);
    lemma_still_sum_is_zero();
    if n > 1 {
        let before = frames.drop_last();
        assert forall|k: int| 1 <= k < before.len() implies unchanged(width, height, before, i, k) by {
            assert(unchanged(width, height, frames, i, k));
        }
        lemma_still_block_sums_to_zero(width, height, before, i);
    }
    assert(unchanged(width, height, frames, i, n - 1));
}

/// Regions that never change are left out: a block without a change is not active
/// at any threshold above zero, whatever the video shows there and however short
/// it is.
pub proof fn lemma_still_block_inactive(
    width: u32,
    height: u32,
    frames: Seq<Seq<u8>>,
    i: int,
    threshold: Num,
)
    requires
        packed_video(width, height, frames),
        frames.len() > 0,
        0 <= i < blocks_across(width) * blocks_across(height),
        still(width, height, frames, i),
        threshold.above(Num::zero()),
    ensures
        !active_blocks(analysed(width, height, frames).means(), threshold)[i],
{
    lemma_analysed_state(width, height, frames);
    lemma_still_block_sums_to_zero(width, height, frames, i);
    let one = Format::Double.one();
    lemma_pow2_pos(925);
    lemma_pow2_pos(277);
    lemma_pow2_pos(2098);
    assert(0 * one == 0) by (nonlinear_arith);
    lemma_nearest_even_exact(0, pow2(925));
    if let Num::Finite { mag, .. } = Num::of_int(Format::Double, frames.len() as int) {
        if mag > 0 {
            lemma_nearest_even_exact(0, mag);
        }
    }
}

/// Every block outside `core` never changes.
pub open spec fn still_around(
    width: u32,
    height: u32,
    frames: Seq<Seq<u8>>,
    core: BlockBox,
) -> bool {
    let cols = blocks_across(width) as int;
    let rows = blocks_across(height) as int;
    forall|i: int|
        0 <= i < cols * rows && !holds_block(core, i % cols, i / cols) ==> #[trigger] still(
            width,
            height,
            frames,
            i,
        )
}

/// Still borders are cropped: the region that is found in a video lies within
/// the blocks that are not known to be still, with every method that keeps no
/// more than the union.
pub proof fn lemma_still_border_cropped(
    width: u32,
    height: u32,
    frames: Seq<Seq<u8>>,
    core: BlockBox,
    threshold: Num,
    method: BboxMethod,
    r: Option<[u32; 4]>,
)
    requires
        packed_video(width, height, frames),
        frames.len() > 0,
        still_around(width, height, frames, core),
        threshold.above(Num::zero()),
        stricter(method, BboxMethod::Union),
        analysed(width, height, frames).is_region(r, threshold, method),
    ensures
        r matches Some(rect) ==> {
            &&& rect[0] >= core.min_col * BLOCK
            &&& rect[1] >= core.min_row * BLOCK
            &&& rect[0] + rect[2] <= (core.max_col + 1) * BLOCK
            &&& rect[1] + rect[3] <= (core.max_row + 1) * BLOCK
        },
{
    let total = analysed(width, height, frames);
    let mask = active_blocks(total.means(), threshold);
    let cols = blocks_across(width);
    let rows = blocks_across(height);
    lemma_analysed_state(width, height, frames);
    lemma_stricter_keeps(mask, cols, rows, method, BboxMethod::Union);
    lemma_box_is_envelope(mask, cols, rows, method);
    assert forall|bx: int, by: int|
        0 <= bx < cols && 0 <= by < rows && block(mask, cols as int, bx, by) implies holds_block(
        core,
        bx,
        by,
    ) by {
        let i = by * cols + bx;
        assert(0 <= i < cols * rows) by (nonlinear_arith)
            requires
                i == by * cols + bx,
                0 <= bx < cols,
                0 <= by,
                by + 1 <= rows,
        ;
        lemma_fundamental_div_mod_converse(i, cols as int, by, bx);
        if !holds_block(core, bx, by) {
            assert(still(width, height, frames, i));
            lemma_still_block_inactive(width, height, frames, i, threshold);
        }
    }
    if let Some(b) = block_box(mask, cols, rows, method) {
        let c = cols as int;
        let y1 = choose|by: int| 0 <= by < rows && block(mask, c, b.min_col, by);
        let y2 = choose|by: int| 0 <= by < rows && block(mask, c, b.max_col, by);
        let x1 = choose|bx: int| 0 <= bx < cols && block(mask, c, bx, b.min_row);
        let x2 = choose|bx: int| 0 <= bx < cols && block(mask, c, bx, b.max_row);
        assert(keeps_col(mask, cols, rows, BboxMethod::Union, b.min_col));
        assert(keeps_col(mask, cols, rows, BboxMethod::Union, b.max_col));
        assert(keeps_row(mask, cols, rows, BboxMethod::Union, b.min_row));
        assert(keeps_row(mask, cols, rows, BboxMethod::Union, b.max_row));
        assert(holds_block(core, b.min_col, y1));
        assert(holds_block(core, b.max_col, y2));
        assert(holds_block(core, x1, b.min_row));
        assert(holds_block(core, x2, b.max_row));
    }
}

/// The first `n` samples of a block, added up exactly, in units of the double
/// format.
pub open spec fn exact_sum(width: u32, height: u32, frames: Seq<Seq<u8>>, i: int, n: nat) -> nat
    decreases n,
{
    if n == 0 {
        0
    } else {
        exact_sum(width, height, frames, i, (n - 1) as nat) + sample(
            width,
            height,
            frames,
            i,
            n - 1,
        ).widened()->mag
    }
}

/// A number from 0 to 255 that is zero or not too small is a multiple of a fixed
/// power of two.
proof fn lemma_level_grid(x: Num) -> (k: nat)
    requires
        is_level(x),
        x->mag > 0 ==> x->mag >= pow2(141),
    ensures
        x->mag == k * pow2(118),
        k <= 255 * pow2(31),
        x.widened()->mag == k * pow2(1043),
{
    let mag = x->mag;
    lemma2_to64();
    lemma_pow2_pos(118);
    lemma_pow2_adds(118, 925);
    lemma_pow2_adds(31, 118);
    if mag == 0 {
        0
    } else {
        let (m, e) = lemma_digits_of(Format::Single, mag);
        lemma_pow2_pos(e);
        if e < 118 {
            if e < 117 {
                lemma_pow2_strictly_increases(e, 117);
            }
            lemma_pow2_adds(24, 117);
            assert(m * pow2(e) < pow2(24) * pow2(117)) by (nonlinear_arith)
                requires
                    m < pow2(24),
                    pow2(e) <= pow2(117),
                    pow2(e) > 0,
            ;
        }
        lemma_pow2_adds((e - 118) as nat, 118);
        let k = m * pow2((e - 118) as nat);
        assert(mag == k * pow2(118)) by (nonlinear_arith)
            requires
                mag == m * pow2(e),
                pow2(e) == pow2((e - 118) as nat) * pow2(118),
                k == m * pow2((e - 118) as nat),
        ;
        assert(k <= 255 * pow2(31)) by (nonlinear_arith)
            requires
                k * pow2(118) <= 255 * (pow2(31) * pow2(118)),
                pow2(118) > 0,
        ;
        assert((k * pow2(118)) * pow2(925) == k * (pow2(118) * pow2(925))) by (nonlinear_arith);
        k
    }
}

/// Every sample contributes equally: up to 16384 frames, the sum of a block is
/// the exact sum of its samples, with nothing lost to rounding.
pub proof fn lemma_sum_exact(width: u32, height: u32, frames: Seq<Seq<u8>>, i: int)
    requires
        packed_video(width, height, frames),
        0 < frames.len() <= 16384,
        0 <= i < blocks_across(width) * blocks_across(height),
    ensures
        analysed(width, height, frames).seen.scores[i] == (Num::Finite {
            neg: false,
            mag: exact_sum(width, height, frames, i, frames.len()),
        }),
{
    let k = lemma_sum_on_grid(width, height, frames, i);
}

proof fn lemma_sum_on_grid(width: u32, height: u32, frames: Seq<Seq<u8>>, i: int) -> (k: nat)
    requires
        packed_video(width, height, frames),
        0 < frames.len() <= 16384,
        0 <= i < blocks_across(width) * blocks_across(height),
    ensures
        exact_sum(width, height, frames, i, frames.len()) == k * pow2(1043),
        k <= frames.len() * (255 * pow2(31)),
        analysed(width, height, frames).seen.scores[i] == (Num::Finite {
            neg: false,
            mag: exact_sum(width, height, frames, i, frames.len()),
        }),
    decreases frames.len(),
{
    let n = frames.len();
    let before = frames.drop_last();
    lemma_analysed_step(width, height, frames, i);
    lemma_sample_range(width, height, frames, i, n - 1);
    let last = sample(width, height, frames, i, n - 1);
    let k2 = lemma_level_grid(last);
    let k1 = if n == 1 {
        0
    } else {
        lemma_sum_on_grid(width, height, before, i)
    };
    lemma_exact_sum_prefix(width, height, frames, i, (n - 1) as nat);
    let k = k1 + k2;
    let u = pow2(1043);
    assert(0 * u == 0) by (nonlinear_arith);
    assert(k * u == k1 * u + k2 * u) by (nonlinear_arith)
        requires
            k == k1 + k2,
    ;
    assert(k <= n * (255 * pow2(31)) && k < pow2(53)) by {
        lemma2_to64();
        lemma_pow2_adds(31, 22);
        let c = 255 * pow2(31);
        assert(n * c == (n - 1) * c + c) by (nonlinear_arith);
        assert(n * c < pow2(31) * pow2(22)) by (nonlinear_arith)
            requires
                n <= 16384,
                c == 255 * pow2(31),
                pow2(22) == 0x40_0000,
                pow2(31) > 0,
        ;
    }
    lemma_representable(Format::Double, false, k, 1043);
    k
}

pub(crate) proof fn lemma_exact_sum_prefix(width: u32, height: u32, frames: Seq<Seq<u8>>, i: int, n: nat)
    requires
        n < frames.len(),
    ensures
        exact_sum(width, height, frames, i, n) == exact_sum(width, height, frames.drop_last(), i, n),
    decreases n,
{
    if n > 0 {
        lemma_exact_sum_prefix(width, height, frames, i, (n - 1) as nat);
    }
}

/// Every frame of a video is the same.
pub open spec fn same_frames(frames: Seq<Seq<u8>>) -> bool {
    forall|k: int| 0 <= k < frames.len() ==> #[trigger] frames[k] == frames[0]
}

/// A picture that never changes has no active region, with every method that
/// keeps no more than the union.
pub proof fn lemma_still_video_has_no_region(
    width: u32,
    height: u32,
    frames: Seq<Seq<u8>>,
    threshold: Num,
    method: BboxMethod,
    r: Option<[u32; 4]>,
)
    requires
        packed_video(width, height, frames),
        frames.len() > 0,
        same_frames(frames),
        threshold.above(Num::zero()),
        stricter(method, BboxMethod::Union),
        analysed(width, height, frames).is_region(r, threshold, method),
    ensures
        r is None,
{
    lemma_analysed_state(width, height, frames);
    let cols = blocks_across(width);
    let rows = blocks_across(height);
    let mask = active_blocks(analysed(width, height, frames).means(), threshold);
    assert forall|i: int| 0 <= i < cols * rows implies !#[trigger] mask[i] by {
        assert forall|k: int| 1 <= k < frames.len() implies unchanged(width, height, frames, i, k) by {
            assert(frames[k] == frames[0] && frames[k - 1] == frames[0]);
        }
        lemma_still_block_inactive(width, height, frames, i, threshold);
    }
    lemma_nothing_active(mask, cols, rows, method);
}

/// What the moving averages of a video are.
pub open spec fn watched(width: u32, height: u32, frames: Seq<Seq<u8>>) -> Motion
    decreases frames.len(),
{
    if frames.len() == 0 {
        Motion::empty()
    } else {
        watched(width, height, frames.drop_last()).averaged(width, height, frames.last())
    }
}

/// The moving average of a block that never changes is zero.
pub proof fn lemma_still_block_averages_to_zero(
    width: u32,
    height: u32,
    frames: Seq<Seq<u8>>,
    i: int,
)
    requires
        packed_video(width, height, frames),
        frames.len() > 0,
        0 <= i < blocks_across(width) * blocks_across(height),
        still(width, height, frames, i),
    ensures
        ({
            let m = watched(width, height, frames);
            &&& m.width == width
            &&& m.height == height
            &&& m.gray == frames.last()
            &&& m.scores.len() == blocks_across(width) * blocks_across(height)
            &&& m.scores[i] == Num::zero()
        }),
    decreases frames.len(),
{
    let n = frames.len() as int;
    let before = frames.drop_last();
    lemma_sample_range(width, height, frames, i, n - 1);
    assert(unchanged(width, height, frames, i, n - 1));
    lemma_still_average_is_zero();
    if n > 1 {
        assert forall|k: int| 0 <= k < before.len() implies (#[trigger] before[k]).len() == width
            * height by {
            assert(before[k] == frames[k]);
        }
        assert forall|k: int| 1 <= k < before.len() implies unchanged(width, height, before, i, k) by {
            assert(unchanged(width, height, frames, i, k));
        }
        lemma_still_block_averages_to_zero(width, height, before, i);
    } else {
        lemma_first_base(width, height, frames.last());
    }
    let base = watched(width, height, before).at_size(width, height, frames.last());
    assert(base.gray == frame_before(frames, n - 1));
    assert(base.scores.len() == blocks_across(width) * blocks_across(height));
    assert(base.scores[i] == Num::zero());
    assert(sample(width, height, frames, i, n - 1) == Num::zero());
}

/// Not below zero, and a number.
pub open spec fn nonnegative(x: Num) -> bool {
    x matches Num::Finite { neg: false, .. } || x == (Num::Infinite { neg: false })
}

/// No sum is below zero.
proof fn lemma_sums_nonnegative(width: u32, height: u32, frames: Seq<Seq<u8>>, i: int)
    requires
        packed_video(width, height, frames),
        frames.len() > 0,
        0 <= i < blocks_across(width) * blocks_across(height),
    ensures
        nonnegative(analysed(width, height, frames).seen.scores[i]),
    decreases frames.len(),
{
    lemma_analysed_step(width, height, frames, i);
    lemma_sample_range(width, height, frames, i, frames.len() - 1);
    if frames.len() > 1 {
        lemma_sums_nonnegative(width, height, frames.drop_last(), i);
    }
}

/// A number of frames that can be counted is neither zero nor infinite.
proof fn lemma_count_finite(n: nat)
    requires
        0 < n <= u64::MAX,
    ensures
        Num::of_int(Format::Double, n as int) matches Num::Finite { neg: false, mag } && mag > 0,
{
    let one = pow2(1074);
    lemma2_to64();
    lemma_pow2_pos(1074);
    lemma_pow2_adds(64, 1074);
    assert(one <= n * one <= pow2(64) * one) by (nonlinear_arith)
        requires
            1 <= n <= pow2(64),
            one > 0,
    ;
    lemma_round_to_monotone(53, one, 1, n * one, 1);
    lemma_round_to_monotone(53, n * one, 1, pow2(1138), 1);
    lemma_pow2_strictly_increases(0, 53);
    lemma_round_to_exact(53, 1, 1074);
    lemma_round_to_exact(53, 1, 1138);
    lemma_pow2_strictly_increases(1138, 2098);
}

/// A threshold of zero or less keeps the whole frame, once a frame was analysed;
/// before that there is no region at any threshold.
pub proof fn lemma_zero_threshold_keeps_frame(
    width: u32,
    height: u32,
    frames: Seq<Seq<u8>>,
    threshold: Num,
    r: Option<[u32; 4]>,
)
    requires
        width > 0,
        height > 0,
        packed_video(width, height, frames),
        frames.len() <= u64::MAX,
        Num::zero().at_least(threshold),
        analysed(width, height, frames).is_region(r, threshold, BboxMethod::Union),
    ensures
        r == (if frames.len() == 0 {
            None
        } else {
            Some([0u32, 0u32, width, height])
        }),
{
    if frames.len() > 0 {
        lemma_analysed_state(width, height, frames);
        lemma_count_finite(frames.len());
        let total = analysed(width, height, frames);
        let mask = active_blocks(total.means(), threshold);
        assert forall|i: int| 0 <= i < mask.len() implies mask[i] by {
            lemma_sums_nonnegative(width, height, frames, i);
            assert(nonnegative(total.means()[i]));
        }
        lemma_all_active_keeps_frame(r, mask, width, height);
    }
}

/// Analysing a luma plane is analysing the picture that it was taken from: both
/// are accepted alike, lead to the same sums, and count as one frame.
pub proof fn lemma_luma_plane_is_enough(t: Total, frame: VideoFrame, y: Seq<u8>)
    requires
        y == gray_of(frame.rgba@),
    ensures
        t.seen.accepts(frame.width, frame.height, y.len()) == t.seen.accepts(
            frame.width,
            frame.height,
            frame.rgba@.len() / 4,
        ),
        t.with(frame.width, frame.height, y) == t.with(
            frame.width,
            frame.height,
            gray_of(frame.rgba@),
        ),
        t.with(frame.width, frame.height, y).frames == t.frames + 1,
{
}

proof fn lemma_span_same(
    a: Seq<u8>,
    b: Seq<u8>,
    c: Seq<u8>,
    d: Seq<u8>,
    start: int,
    n: nat,
)
    requires
        forall|i: int| start <= i < start + n ==> abs_diff(a[i], b[i]) == #[trigger] abs_diff(
            c[i],
            d[i],
        ),
    ensures
        span_diff(a, b, start, n) == span_diff(c, d, start, n),
    decreases n,
{
    if n > 0 {
        lemma_span_same(a, b, c, d, start, (n - 1) as nat);
        assert(abs_diff(c[start + n - 1], d[start + n - 1]) == abs_diff(
            a[start + n - 1],
            b[start + n - 1],
        ));
    }
}

/// The pixels at an index differ as much in one pair of frames as in the other.
pub open spec fn differ_alike(
    a: Seq<u8>,
    b: Seq<u8>,
    c: Seq<u8>,
    d: Seq<u8>,
    stride: int,
    x: int,
    y: int,
) -> bool {
    abs_diff(a[y * stride + x], b[y * stride + x]) == abs_diff(
        c[y * stride + x],
        d[y * stride + x],
    )
}

proof fn lemma_rect_same(
    a: Seq<u8>,
    b: Seq<u8>,
    c: Seq<u8>,
    d: Seq<u8>,
    stride: int,
    x0: int,
    y0: int,
    width: nat,
    n: nat,
)
    requires
        forall|x: int, y: int|
            x0 <= x < x0 + width && y0 <= y < y0 + n ==> differ_alike(a, b, c, d, stride, x, y),
    ensures
        rect_diff(a, b, stride, x0, y0, width, n) == rect_diff(c, d, stride, x0, y0, width, n),
    decreases n,
{
    if n > 0 {
        lemma_rect_same(a, b, c, d, stride, x0, y0, width, (n - 1) as nat);
        let last = y0 + n - 1;
        let start = last * stride + x0;
        assert forall|i: int| start <= i < start + width implies abs_diff(a[i], b[i])
            == #[trigger] abs_diff(c[i], d[i]) by {
            assert(differ_alike(a, b, c, d, stride, x0 + (i - start), last));
        }
        lemma_span_same(a, b, c, d, start, width);
    }
}

/// The difference of a block does not depend on which of the frames came first.
pub proof fn lemma_mad_symmetric(gray: Seq<u8>, prev: Seq<u8>, stride: nat, bx: int, by: int)
    requires
        gray.len() == prev.len(),
    ensures
        mad(gray, prev, stride, bx, by) == mad(prev, gray, stride, bx, by),
{
    let x0 = bx * BLOCK;
    let y0 = by * BLOCK;
    let width = block_extent(x0, stride as int);
    let height = block_extent(y0, (prev.len() / stride) as int);
    lemma_rect_same(gray, prev, prev, gray, stride as int, x0, y0, width, height);
}

/// Pixels outside a block have no influence on its difference.
pub proof fn lemma_mad_local(
    gray: Seq<u8>,
    prev: Seq<u8>,
    other_gray: Seq<u8>,
    other_prev: Seq<u8>,
    stride: nat,
    bx: int,
    by: int,
)
    requires
        prev.len() == other_prev.len(),
        same_block(gray, other_gray, stride, bx, by),
        gray.len() == other_gray.len() == prev.len(),
        same_block(prev, other_prev, stride, bx, by),
    ensures
        mad(gray, prev, stride, bx, by) == mad(other_gray, other_prev, stride, bx, by),
{
    let x0 = bx * BLOCK;
    let y0 = by * BLOCK;
    let width = block_extent(x0, stride as int);
    let height = block_extent(y0, (prev.len() / stride) as int);
    assert forall|x: int, y: int|
        x0 <= x < x0 + width && y0 <= y < y0 + height implies differ_alike(
        gray,
        prev,
        other_gray,
        other_prev,
        stride as int,
        x,
        y,
    ) by {
        assert(same_pixel(gray, other_gray, stride as int, x, y));
        assert(same_pixel(prev, other_prev, stride as int, x, y));
    }
    lemma_rect_same(gray, prev, other_gray, other_prev, stride as int, x0, y0, width, height);
}

/// The sums of a whole run are those of exactly its samples.
pub proof fn lemma_run_sums_its_samples(
    sampler: FrameSampler,
    frames: Seq<VideoFrame>,
    width: u32,
    height: u32,
)
    requires
        forall|k: int|
            0 <= k < frames.len() ==> (#[trigger] frames[k]).width == width && frames[k].height
                == height,
    ensures
        ({
            let run = AnalysisRun::started(sampler);
            run.after(frames).total == analysed(width, height, run.samples(frames))
        }),
    decreases frames.len(),
{
    let run = AnalysisRun::started(sampler);
    if frames.len() > 0 {
        let before = frames.drop_last();
        assert forall|k: int| 0 <= k < before.len() implies (#[trigger] before[k]).width == width
            && before[k].height == height by {
            assert(before[k] == frames[k]);
        }
        lemma_run_sums_its_samples(sampler, before, width, height);
        assert(frames[frames.len() - 1] == frames.last());
        if run.after(before).takes(frames.last()) {
            assert(run.samples(frames).drop_last() =~= run.samples(before));
        }
    }
}

/// The frames that have been analysed: each one that was converted, before it is
/// handed on.
pub open spec fn converted(events: Seq<DecodeEvent>, frames: Seq<VideoFrame>) -> Seq<VideoFrame> {
    frames.take(occurrences(events, DecodeEvent::Converted) as int)
}

/// The result of the analysis does not depend on which frames a busy display
/// drops.
pub proof fn lemma_result_ignores_drops(
    course: DecodeLoop,
    run: AnalysisRun,
    frames: Seq<VideoFrame>,
    a: Seq<DecodeEvent>,
    b: Seq<DecodeEvent>,
    threshold: Num,
    method: BboxMethod,
    ra: Option<[u32; 4]>,
    rb: Option<[u32; 4]>,
)
    requires
        alike(a, b),
        run.after(converted(a, frames)).total.is_region(ra, threshold, method),
        run.after(converted(b, frames)).total.is_region(rb, threshold, method),
    ensures
        course.after(a) == course.after(b),
        converted(a, frames) == converted(b, frames),
        ra == rb,
{
    lemma_course_ignores_drops(course, a, b);
    let total = run.after(converted(a, frames)).total;
    if total.frames > 0 {
        lemma_region_unique(
            ra,
            rb,
            active_blocks(total.means(), threshold),
            total.seen.cols(),
            total.seen.rows(),
            total.seen.width,
            total.seen.height,
            method,
        );
    }
}

/// The pixels of a block are those of the frame whose coordinates, in units of a
/// block, are those of the block.
pub proof fn lemma_block_pixels(start: int, end: int, b: int, x: int)
    requires
        0 <= b,
        start == b * BLOCK,
    ensures
        start <= x < start + block_extent(start, end) <==> 0 <= x < end && x / 16 == b,
{
}

} // verus!
