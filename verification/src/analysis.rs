//! Per-block motion scores of a sequence of frames.
//!
//! [`MotionAnalyzer`] keeps a moving average of the scores while a video is
//! played. [`FullVideoAnalyzer`] adds them up over the whole video.

use crate::bbox::{active_blocks, compute_bbox, is_bbox, scores, BboxMethod};
use crate::decoder::{sampling_interval, AnalysisMode, FrameSampler, VideoFrame};
use crate::double::Double;
use crate::luma_laws::lemma_luma_nearest;
use crate::motion_laws::lemma_warming_up;
use crate::number::{Format, Num};
use crate::single::{single_num, Single};
use crate::BLOCK;
use vstd::prelude::*;

verus! {

/// The weight of red in the BT.601 luma, 0.299.
pub const RED_WEIGHT: u32 = 0x3e99_1687;

/// The weight of green in the BT.601 luma, 0.587.
pub const GREEN_WEIGHT: u32 = 0x3f16_45a2;

/// The weight of blue in the BT.601 luma, 0.114.
pub const BLUE_WEIGHT: u32 = 0x3de9_78d5;

/// The share of the old average that a new frame leaves, 0.95.
pub const KEEP_WEIGHT: u32 = 0x3f73_3333;

/// The share of a new frame in the average, 0.05.
pub const NEW_WEIGHT: u32 = 0x3d4c_cccd;

/// `weight * level` in single precision.
pub open spec fn weighted(weight: u32, level: u8) -> Num {
    single_num(weight).times(Format::Single, Num::of_int(Format::Single, level as int))
}

/// The BT.601 luma of a pixel, `0.299 r + 0.587 g + 0.114 b` in single
/// precision, rounded to an intensity.
#[verifier::opaque]
pub open spec fn luma(r: u8, g: u8, b: u8) -> nat {
    weighted(RED_WEIGHT, r).plus(Format::Single, weighted(GREEN_WEIGHT, g)).plus(
        Format::Single,
        weighted(BLUE_WEIGHT, b),
    ).nearest_whole(Format::Single, 255)
}

/// The intensities of the whole pixels of a packed RGBA buffer.
pub open spec fn gray_of(rgba: Seq<u8>) -> Seq<u8> {
    Seq::new(
        rgba.len() / 4,
        |i: int| luma(rgba[4 * i], rgba[4 * i + 1], rgba[4 * i + 2]) as u8,
    )
}

pub open spec fn abs_diff(a: u8, b: u8) -> nat {
    if a >= b {
        (a - b) as nat
    } else {
        (b - a) as nat
    }
}

/// The differences of `n` consecutive pixels, added up.
pub open spec fn span_diff(gray: Seq<u8>, prev: Seq<u8>, start: int, n: nat) -> nat
    decreases n,
{
    if n == 0 {
        0
    } else {
        span_diff(gray, prev, start, (n - 1) as nat) + abs_diff(
            gray[start + n - 1],
            prev[start + n - 1],
        )
    }
}

/// The differences of `n` rows of `width` pixels each, from column `x0` of row
/// `y0` on, added up.
pub open spec fn rect_diff(
    gray: Seq<u8>,
    prev: Seq<u8>,
    stride: int,
    x0: int,
    y0: int,
    width: nat,
    n: nat,
) -> nat
    decreases n,
{
    if n == 0 {
        0
    } else {
        rect_diff(gray, prev, stride, x0, y0, width, (n - 1) as nat) + span_diff(
            gray,
            prev,
            (y0 + n - 1) * stride + x0,
            width,
        )
    }
}

/// How many of the `BLOCK` pixels from `start` on lie before `end`.
pub open spec fn block_extent(start: int, end: int) -> nat {
    if start + BLOCK < end {
        BLOCK as nat
    } else if start < end {
        (end - start) as nat
    } else {
        0
    }
}

/// The mean absolute difference of the pixels of a block, in single precision.
/// The last column and row of blocks may be cut off.
pub open spec fn mad(gray: Seq<u8>, prev: Seq<u8>, stride: nat, bx: int, by: int) -> Num {
    let x0 = bx * BLOCK;
    let y0 = by * BLOCK;
    let width = block_extent(x0, stride as int);
    let height = block_extent(y0, (prev.len() / stride) as int);
    Num::of_int(
        Format::Single,
        rect_diff(gray, prev, stride as int, x0, y0, width, height) as int,
    ).over(Format::Single, Num::of_int(Format::Single, (width * height) as int))
}

/// How many blocks it takes to cover `n` pixels.
pub open spec fn blocks_across(n: u32) -> nat {
    ((n + BLOCK - 1) / BLOCK as int) as nat
}

/// The luma of one pixel.
pub(crate) fn luma_of(r: u8, g: u8, b: u8) -> (l: u8)
    ensures
        l == luma(r, g, b),
{
    let k: u32 = 299 * r as u32 + 587 * g as u32 + 114 * b as u32;
    if k % 1000 != 500 {
        proof {
            lemma_luma_nearest(r, g, b);
        }
        return ((k + 500) / 1000) as u8;
    }
    // Halfway between two intensities it depends on how the sum is rounded.
    reveal(luma);
    let red = Single::from_bits(RED_WEIGHT).times(Single::of_int(r as u64));
    let green = Single::from_bits(GREEN_WEIGHT).times(Single::of_int(g as u64));
    let blue = Single::from_bits(BLUE_WEIGHT).times(Single::of_int(b as u64));
    red.plus(green).plus(blue).nearest_whole(255) as u8
}

/// The intensities of the whole pixels of a packed RGBA buffer.
pub fn to_gray(rgba: &[u8]) -> (gray: Vec<u8>)
    ensures
        gray@ == gray_of(rgba@),
{
    let n: usize = rgba.len() / 4;
    let mut gray: Vec<u8> = Vec::with_capacity(n);
    let mut i: usize = 0;
    while i < n
        invariant
            n == rgba@.len() / 4,
            i <= n,
            gray@.len() == i,
            forall|j: int|
                0 <= j < i ==> gray@[j] == luma(rgba@[4 * j], rgba@[4 * j + 1], rgba@[4 * j + 2]),
        decreases n - i,
    {
        assert(rgba@.len() == rgba.len());
        gray.push(luma_of(rgba[4 * i], rgba[4 * i + 1], rgba[4 * i + 2]));
        i = i + 1;
    }
    gray
}

proof fn lemma_span_bound(gray: Seq<u8>, prev: Seq<u8>, start: int, n: nat)
    ensures
        span_diff(gray, prev, start, n) <= 255 * n,
    decreases n,
{
    if n > 0 {
        lemma_span_bound(gray, prev, start, (n - 1) as nat);
    }
}

pub(crate) proof fn lemma_rect_bound(
    gray: Seq<u8>,
    prev: Seq<u8>,
    stride: int,
    x0: int,
    y0: int,
    width: nat,
    n: nat,
)
    ensures
        rect_diff(gray, prev, stride, x0, y0, width, n) <= 255 * (width * n),
    decreases n,
{
    if n > 0 {
        lemma_rect_bound(gray, prev, stride, x0, y0, width, (n - 1) as nat);
        lemma_span_bound(gray, prev, (y0 + n - 1) * stride + x0, width);
        assert(width * n == width * (n - 1) + width) by (nonlinear_arith);
    } else {
        assert(width * 0 == 0) by (nonlinear_arith);
    }
}

/// The block starts in the frame or at its edge, and its pixels are in both
/// pictures.
pub open spec fn block_readable(len: nat, prev_len: nat, stride: nat, bx: int, by: int) -> bool {
    let x0 = bx * BLOCK;
    let y0 = by * BLOCK;
    let width = block_extent(x0, stride as int);
    let height = block_extent(y0, (prev_len / stride) as int);
    &&& stride > 0
    &&& x0 <= stride
    &&& y0 <= prev_len / stride
    &&& width > 0 && height > 0 ==> (y0 + height - 1) * stride + x0 + width <= len
}

/// The mean absolute difference of the pixels of a block.
pub fn block_mad(gray: &[u8], prev: &[u8], stride: usize, bx: usize, by: usize) -> (r: Single)
    requires
        block_readable(gray@.len(), prev@.len(), stride as nat, bx as int, by as int),
    ensures
        r@ == mad(gray@, prev@, stride as nat, bx as int, by as int),
{
    let tall: usize = prev.len() / stride;
    let x0: usize = bx * BLOCK;
    let y0: usize = by * BLOCK;
    let width: usize = if stride - x0 > BLOCK {
        BLOCK
    } else {
        stride - x0
    };
    let height: usize = if tall - y0 > BLOCK {
        BLOCK
    } else {
        tall - y0
    };
    assert(width == block_extent(x0 as int, stride as int));
    assert(height == block_extent(y0 as int, tall as int));
    assert(width * height <= 256) by (nonlinear_arith)
        requires
            0 <= width <= 16,
            0 <= height <= 16,
    ;
    assert(tall * stride <= prev@.len()) by (nonlinear_arith)
        requires
            tall == prev@.len() / stride as nat,
            stride > 0,
    ;
    let mut sum: u32 = 0;
    let mut j: usize = 0;
    while j < height
        invariant
            j <= height <= 16,
            width <= 16,
            y0 + height <= tall,
            x0 + width <= stride,
            width > 0 && height > 0 ==> (y0 + height - 1) * stride + x0 + width <= gray@.len(),
            tall * stride <= prev@.len(),
            sum == rect_diff(gray@, prev@, stride as int, x0 as int, y0 as int, width as nat, j as nat),
            sum <= 255 * (width * j),
        decreases height - j,
    {
        let ghost sum0 = sum;
        assert(prev@.len() == prev.len());
        assert((y0 + j) * stride + x0 + width <= (y0 + height) * stride) by (nonlinear_arith)
            requires
                j + 1 <= height,
                x0 + width <= stride,
        ;
        assert((y0 + j) * stride <= (y0 + height - 1) * stride) by (nonlinear_arith)
            requires
                j + 1 <= height,
                stride >= 0,
        ;
        assert((y0 + height) * stride <= tall * stride) by (nonlinear_arith)
            requires
                y0 + height <= tall,
                stride >= 0,
        ;
        assert(0 <= (y0 + j) * stride) by (nonlinear_arith)
            requires
                0 <= y0 + j,
                0 <= stride,
        ;
        assert(width * (j + 1) == width * j + width) by (nonlinear_arith);
        assert(width * j <= 256) by (nonlinear_arith)
            requires
                0 <= width <= 16,
                0 <= j <= 16,
        ;
        let start: usize = (y0 + j) * stride + x0;
        let mut i: usize = 0;
        while i < width
            invariant
                i <= width <= 16,
                width > 0 ==> start + width <= gray@.len(),
                start + width <= prev@.len(),
                sum0 <= 65280,
                sum == sum0 + span_diff(gray@, prev@, start as int, i as nat),
                sum <= sum0 + 255 * i,
            decreases width - i,
        {
            assert(gray@.len() == gray.len());
            let a: u8 = gray[start + i];
            let b: u8 = prev[start + i];
            let d: u8 = if a >= b {
                a - b
            } else {
                b - a
            };
            sum = sum + d as u32;
            i = i + 1;
        }
        j = j + 1;
    }
    Single::of_int(sum as u64).over(Single::of_int((width * height) as u64))
}

/// The differences of all blocks between two frames of `width` by `height`
/// pixels, row by row.
pub open spec fn mads(gray: Seq<u8>, prev: Seq<u8>, width: u32, height: u32) -> Seq<Num> {
    let cols = blocks_across(width);
    let rows = blocks_across(height);
    Seq::new(
        cols * rows,
        |i: int| mad(gray, prev, width as nat, i % cols as int, i / cols as int),
    )
}

/// The smaller of the rows that the blocks span and those that `len` pixels
/// make.
pub open spec fn rows_read(len: nat, width: u32, height: u32) -> nat {
    let spanned = blocks_across(height) * BLOCK as nat;
    if spanned < len / width as nat {
        spanned
    } else {
        len / width as nat
    }
}

/// Every pixel that comparing a frame of `len` pixels with one of `prev_len`
/// reads is there.
pub open spec fn comparable(len: nat, prev_len: nat, width: u32, height: u32) -> bool {
    &&& prev_len >= width * height
    &&& width > 0 ==> len >= rows_read(prev_len, width, height) * width
}

/// What has been seen of a video, and the score of each block.
pub ghost struct Motion {
    pub width: u32,
    pub height: u32,
    /// The intensities of the last frame.
    pub gray: Seq<u8>,
    pub scores: Seq<Num>,
}

impl Motion {
    pub open spec fn cols(self) -> nat {
        blocks_across(self.width)
    }

    pub open spec fn rows(self) -> nat {
        blocks_across(self.height)
    }

    /// There is a score for each block, and a full frame to compare with.
    pub open spec fn wf(self) -> bool {
        &&& self.scores.len() == self.cols() * self.rows()
        &&& self.gray.len() >= self.width * self.height
    }

    /// Nothing seen yet.
    pub open spec fn empty() -> Motion {
        Motion { width: 0, height: 0, gray: Seq::empty(), scores: Seq::empty() }
    }

    /// The given frame, and all scores zero.
    pub open spec fn fresh(width: u32, height: u32, gray: Seq<u8>) -> Motion {
        Motion {
            width,
            height,
            gray,
            scores: Seq::new(blocks_across(width) * blocks_across(height), |i: int| Num::zero()),
        }
    }

    /// What a frame is compared with: the last frame; or itself, where there is
    /// no earlier frame of its size, so that it differs in nothing.
    pub open spec fn at_size(self, width: u32, height: u32, gray: Seq<u8>) -> Motion {
        if self.width == width && self.height == height {
            self
        } else {
            Motion::fresh(width, height, gray)
        }
    }

    /// A frame of the given size and number of pixels can be compared; without an
    /// earlier one of its size it only has to be complete.
    pub open spec fn accepts(self, width: u32, height: u32, len: nat) -> bool {
        if self.width == width && self.height == height {
            comparable(len, self.gray.len(), width, height)
        } else {
            len >= width * height
        }
    }

    /// The moving average after a frame.
    pub open spec fn averaged(self, width: u32, height: u32, gray: Seq<u8>) -> Motion {
        let base = self.at_size(width, height, gray);
        let new = mads(gray, base.gray, width, height);
        Motion {
            width,
            height,
            gray,
            scores: Seq::new(base.scores.len(), |i: int| moving_average(base.scores[i], new[i])),
        }
    }

    /// The sums after a frame.
    pub open spec fn summed(self, width: u32, height: u32, gray: Seq<u8>) -> Motion {
        let base = self.at_size(width, height, gray);
        let new = mads(gray, base.gray, width, height);
        Motion {
            width,
            height,
            gray,
            scores: Seq::new(
                base.scores.len(),
                |i: int| base.scores[i].plus(Format::Double, new[i].widened()),
            ),
        }
    }
}

/// `0.95 * average + 0.05 * new` in single precision.
pub open spec fn moving_average(average: Num, new: Num) -> Num {
    single_num(KEEP_WEIGHT).times(Format::Single, average).plus(
        Format::Single,
        single_num(NEW_WEIGHT).times(Format::Single, new),
    )
}

/// `n / BLOCK`, rounded up.
fn count_blocks(n: u32) -> (r: usize)
    ensures
        r == blocks_across(n),
{
    let whole: usize = n as usize / BLOCK;
    if n as usize % BLOCK > 0 {
        whole + 1
    } else {
        whole
    }
}

/// The differences of all blocks between two frames.
fn block_mads(gray: &Vec<u8>, prev: &Vec<u8>, width: u32, height: u32) -> (r: Vec<Single>)
    requires
        comparable(gray@.len(), prev@.len(), width, height),
        blocks_across(width) * blocks_across(height) <= usize::MAX,
    ensures
        scores(r@) == mads(gray@, prev@, width, height),
{
    let stride: usize = width as usize;
    let cols: usize = count_blocks(width);
    let rows: usize = count_blocks(height);
    let mut r: Vec<Single> = Vec::new();
    let n: usize = cols * rows;
    let ghost tall = prev@.len() / stride as nat;
    proof {
        if stride > 0 {
            assert(tall >= height) by (nonlinear_arith)
                requires
                    prev@.len() >= width * height,
                    stride == width,
                    stride > 0,
                    tall == prev@.len() / stride as nat,
            ;
        }
    }
    let mut i: usize = 0;
    while i < n
        invariant
            i <= n,
            n == cols * rows,
            stride == width,
            cols == blocks_across(width),
            rows == blocks_across(height),
            tall == prev@.len() / stride as nat,
            stride > 0 ==> tall >= height,
            comparable(gray@.len(), prev@.len(), width, height),
            r@.len() == i,
            forall|j: int|
                0 <= j < i ==> (#[trigger] r@[j])@ == mad(
                    gray@,
                    prev@,
                    width as nat,
                    j % cols as int,
                    j / cols as int,
                ),
        decreases n - i,
    {
        proof {
            assert(cols > 0) by (nonlinear_arith)
                requires
                    0 <= i < cols * rows,
                    cols >= 0,
            ;
        }
        let bx: usize = i % cols;
        let by: usize = i / cols;
        proof {
            assert(by < rows) by (nonlinear_arith)
                requires
                    by == i / cols,
                    i < cols * rows,
                    cols > 0,
            ;
            let end = by * BLOCK + block_extent(by * BLOCK, tall as int);
            assert(end <= rows_read(prev@.len(), width, height));
            assert(end * stride <= rows_read(prev@.len(), width, height) * stride)
                by (nonlinear_arith)
                requires
                    end <= rows_read(prev@.len(), width, height),
                    stride >= 0,
            ;
            assert((end - 1) * stride + stride == end * stride) by (nonlinear_arith);
        }
        r.push(block_mad(gray.as_slice(), prev.as_slice(), stride, bx, by));
        i = i + 1;
    }
    proof {
        assert(scores(r@) =~= mads(gray@, prev@, width, height));
    }
    r
}

/// Whether a frame of `len` pixels can be compared with one of `prev_len`; or is
/// complete, where there is none.
fn can_compare(len: usize, prev_len: Option<usize>, width: u32, height: u32) -> (r: bool)
    ensures
        r == (match prev_len {
            Some(prev_len) => comparable(len as nat, prev_len as nat, width, height),
            None => len >= width * height,
        }),
{
    assert(0 <= width * height <= u32::MAX as int * u32::MAX as int) by (nonlinear_arith)
        requires
            0 <= width <= u32::MAX,
            0 <= height <= u32::MAX,
    ;
    let full: u128 = width as u128 * height as u128;
    let prev_len: usize = match prev_len {
        Some(n) => n,
        None => {
            return len as u128 >= full;
        },
    };
    if (prev_len as u128) < full {
        return false;
    }
    if width == 0 {
        return true;
    }
    let spanned: u128 = count_blocks(height) as u128 * 16;
    let tall: u128 = (prev_len / width as usize) as u128;
    let read: u128 = if spanned < tall {
        spanned
    } else {
        tall
    };
    assert(read * width <= 0x1_0000_0010 * 0x1_0000_0000) by (nonlinear_arith)
        requires
            0 <= read <= 0x1_0000_0010,
            0 <= width <= 0x1_0000_0000,
    ;
    len as u128 >= read * width as u128
}

/// Tracks per-block inter-frame motion by an exponential moving average of the
/// mean absolute difference between consecutive grayscale frames.
pub struct MotionAnalyzer {
    prev_gray: Vec<u8>,
    /// The average of each block, in the units of pixel intensity.
    motion_map: Vec<Single>,
    pub frame_width: u32,
    pub frame_height: u32,
}

impl View for MotionAnalyzer {
    type V = Motion;

    closed spec fn view(&self) -> Motion {
        Motion {
            width: self.frame_width,
            height: self.frame_height,
            gray: self.prev_gray@,
            scores: scores(self.motion_map@),
        }
    }
}

impl Default for MotionAnalyzer {
    fn default() -> (r: MotionAnalyzer)
        ensures
            r@ == Motion::empty(),
            r@.wf(),
    {
        let r = MotionAnalyzer {
            prev_gray: Vec::new(),
            motion_map: Vec::new(),
            frame_width: 0,
            frame_height: 0,
        };
        proof {
            assert(r@.scores =~= Seq::empty());
        }
        r
    }
}

impl MotionAnalyzer {
    /// Forget everything seen so far.
    pub fn reset(&mut self)
        ensures
            final(self)@ == Motion::empty(),
            final(self)@.wf(),
    {
        *self = MotionAnalyzer::default();
    }

    /// Whether a frame can be compared with the last one.
    pub fn accepts_frame(&self, frame: &VideoFrame) -> (r: bool)
        requires
            self@.wf(),
        ensures
            r == self@.accepts(frame.width, frame.height, frame.rgba@.len() / 4),
    {
        let len: usize = frame.rgba.len() / 4;
        let prev_len: Option<usize> = if self.frame_width == frame.width && self.frame_height
            == frame.height {
            Some(self.prev_gray.len())
        } else {
            None
        };
        can_compare(len, prev_len, frame.width, frame.height)
    }

    /// Feed the next displayed frame. Returns the smallest bounding box
    /// `[x, y, w, h]`, in pixels, that covers every block whose average reaches
    /// the threshold, or `None` where none does; in particular while warming up,
    /// when there is no earlier frame of this size.
    pub fn update(&mut self, frame: &VideoFrame, threshold: Single) -> (r: Option<[u32; 4]>)
        requires
            old(self)@.wf(),
            old(self)@.accepts(frame.width, frame.height, frame.rgba@.len() / 4),
        ensures
            final(self)@ == old(self)@.averaged(
                frame.width,
                frame.height,
                gray_of(frame.rgba@),
            ),
            final(self)@.wf(),
            is_bbox(
                r,
                active_blocks(final(self)@.scores, threshold@),
                final(self)@.cols(),
                final(self)@.rows(),
                frame.width,
                frame.height,
                BboxMethod::Union,
            ),
            (old(self)@.width != frame.width || old(self)@.height != frame.height)
                && threshold@.above(Num::zero()) ==> r is None,
    {
        let gray = to_gray(frame.rgba.as_slice());
        proof {
            assert(gray@.len() == gray.len());
            lemma_accepted_size(self@, frame.width, frame.height, gray@);
        }
        let ghost base = self@.at_size(frame.width, frame.height, gray@);
        let fresh = self.frame_width != frame.width || self.frame_height != frame.height;
        if fresh {
            let cols: usize = count_blocks(frame.width);
            let rows: usize = count_blocks(frame.height);
            self.motion_map = vec![Single::from_bits(0); cols * rows];
            self.frame_width = frame.width;
            self.frame_height = frame.height;
            assert(scores(self.motion_map@) =~= base.scores);
        }
        let prev: &Vec<u8> = if fresh {
            &gray
        } else {
            &self.prev_gray
        };
        let new = block_mads(&gray, prev, frame.width, frame.height);
        let n: usize = self.motion_map.len();
        let ghost found = mads(gray@, base.gray, frame.width, frame.height);
        assert(new@.len() == scores(new@).len());
        let ghost was = self.motion_map@;
        let mut i: usize = 0;
        while i < n
            invariant
                i <= n,
                n == self.motion_map@.len(),
                n == new@.len(),
                n == was.len(),
                scores(new@) == found,
                self.frame_width == base.width,
                self.frame_height == base.height,
                base.scores == scores(was),
                forall|j: int| i <= j < n ==> self.motion_map@[j] == was[j],
                forall|j: int|
                    0 <= j < i ==> (#[trigger] self.motion_map@[j])@ == moving_average(
                        base.scores[j],
                        found[j],
                    ),
            decreases n - i,
        {
            let slot: Single = self.motion_map[i];
            let mad: Single = new[i];
            assert(found[i as int] == scores(new@)[i as int]);
            let next: Single = Single::from_bits(KEEP_WEIGHT).times(slot).plus(
                Single::from_bits(NEW_WEIGHT).times(mad),
            );
            self.motion_map.set(i, next);
            i = i + 1;
        }
        self.prev_gray = gray;
        proof {
            let want = old(self)@.averaged(frame.width, frame.height, gray_of(frame.rgba@));
            assert(self@.scores =~= want.scores);
            assert(self@ == want);
        }
        let r = active_bbox(
            self.motion_map.as_slice(),
            self.frame_width,
            self.frame_height,
            threshold,
            BboxMethod::Union,
        );
        proof {
            if fresh && threshold@.above(Num::zero()) {
                lemma_warming_up(
                    old(self)@,
                    frame.width,
                    frame.height,
                    gray_of(frame.rgba@),
                    threshold@,
                    BboxMethod::Union,
                    r,
                );
            }
        }
        r
    }
}

/// Frames that are accepted are small enough to be counted in blocks.
proof fn lemma_accepted_size(m: Motion, width: u32, height: u32, gray: Seq<u8>)
    requires
        m.wf(),
        m.accepts(width, height, gray.len()),
        gray.len() <= usize::MAX,
    ensures
        gray.len() >= width * height,
        blocks_across(width) * blocks_across(height) <= usize::MAX,
        m.at_size(width, height, gray).wf(),
        comparable(gray.len(), m.at_size(width, height, gray).gray.len(), width, height),
        m.averaged(width, height, gray).wf(),
        m.summed(width, height, gray).wf(),
{
    let prev = m.at_size(width, height, gray).gray.len();
    let cols = blocks_across(width);
    let rows = blocks_across(height);
    assert(0 <= width * height) by (nonlinear_arith);
    if width == 0 {
        assert(width * height == 0) by (nonlinear_arith)
            requires
                width == 0,
        ;
        assert(cols * rows == 0) by (nonlinear_arith)
            requires
                cols == 0,
        ;
    } else {
        let read = rows_read(prev, width, height);
        assert(read * width <= prev) by (nonlinear_arith)
            requires
                read <= prev / width as nat,
                width > 0,
        ;
        assert(prev / width as nat >= height) by (nonlinear_arith)
            requires
                prev >= width * height,
                width > 0,
        ;
        assert(read >= height);
        assert(gray.len() >= width * height) by (nonlinear_arith)
            requires
                gray.len() >= read * width,
                read >= height,
                width > 0,
        ;
        assert(cols * rows <= width * height) by (nonlinear_arith)
            requires
                cols <= width,
                rows <= height,
                0 <= cols,
                0 <= rows,
        ;
    }
}

/// The bounding box of the blocks that the method leaves of those whose score
/// reaches the threshold.
fn active_bbox(map: &[Single], fw: u32, fh: u32, threshold: Single, method: BboxMethod) -> (r: Option<
    [u32; 4],
>)
    requires
        map@.len() == blocks_across(fw) * blocks_across(fh),
    ensures
        is_bbox(
            r,
            active_blocks(scores(map@), threshold@),
            blocks_across(fw),
            blocks_across(fh),
            fw,
            fh,
            method,
        ),
{
    compute_bbox(map, count_blocks(fw), count_blocks(fh), fw, fh, threshold, method)
}

/// The sums of a map as numbers.
pub open spec fn sums(map: Seq<Double>) -> Seq<Num> {
    Seq::new(map.len(), |i: int| map[i]@)
}

/// The sums over a video, and how many frames went into them.
pub ghost struct Total {
    pub seen: Motion,
    pub frames: nat,
}

impl Total {
    /// No frame yet.
    pub open spec fn empty() -> Total {
        Total { seen: Motion::empty(), frames: 0 }
    }

    /// There is a sum for each block, and a full frame to compare with.
    pub open spec fn wf(self) -> bool {
        self.seen.wf()
    }

    /// One more frame.
    pub open spec fn with(self, width: u32, height: u32, gray: Seq<u8>) -> Total {
        Total { seen: self.seen.summed(width, height, gray), frames: self.frames + 1 }
    }

    /// The mean difference of each block: its sum over the number of frames, in
    /// double precision, then rounded to single.
    pub open spec fn means(self) -> Seq<Num> {
        Seq::new(
            self.seen.scores.len(),
            |i: int|
                self.seen.scores[i].over(
                    Format::Double,
                    Num::of_int(Format::Double, self.frames as int),
                ).narrowed(),
        )
    }

    /// `r` is the bounding box that the method leaves of the blocks whose mean
    /// reaches the threshold; without a frame there is none.
    pub open spec fn is_region(self, r: Option<[u32; 4]>, threshold: Num, method: BboxMethod) -> bool {
        if self.frames == 0 {
            r is None
        } else {
            is_bbox(
                r,
                active_blocks(self.means(), threshold),
                self.seen.cols(),
                self.seen.rows(),
                self.seen.width,
                self.seen.height,
                method,
            )
        }
    }
}

/// Accumulates the mean inter-frame difference across all analysed frames, so
/// that every sample contributes equally, unlike the moving average, which
/// emphasises recent frames.
pub struct FullVideoAnalyzer {
    prev_gray: Vec<u8>,
    mad_sum: Vec<Double>,
    frames: u64,
    frame_width: u32,
    frame_height: u32,
}

impl View for FullVideoAnalyzer {
    type V = Total;

    closed spec fn view(&self) -> Total {
        Total {
            seen: Motion {
                width: self.frame_width,
                height: self.frame_height,
                gray: self.prev_gray@,
                scores: sums(self.mad_sum@),
            },
            frames: self.frames as nat,
        }
    }
}

impl Default for FullVideoAnalyzer {
    fn default() -> (r: FullVideoAnalyzer)
        ensures
            r@ == Total::empty(),
            r@.wf(),
    {
        FullVideoAnalyzer::new()
    }
}

impl FullVideoAnalyzer {
    pub fn new() -> (r: FullVideoAnalyzer)
        ensures
            r@ == Total::empty(),
            r@.wf(),
    {
        let r = FullVideoAnalyzer {
            prev_gray: Vec::new(),
            mad_sum: Vec::new(),
            frames: 0,
            frame_width: 0,
            frame_height: 0,
        };
        proof {
            assert(r@.seen.scores =~= Seq::empty());
        }
        r
    }

    /// How many frames have been analysed.
    pub fn frames(&self) -> (n: u64)
        ensures
            n == self@.frames,
    {
        self.frames
    }

    /// Whether a frame of the given size and number of pixels can be analysed.
    pub fn accepts(&self, width: u32, height: u32, len: usize) -> (r: bool)
        requires
            self@.wf(),
        ensures
            r == (self@.frames < u64::MAX && self@.seen.accepts(width, height, len as nat)),
    {
        let prev_len: Option<usize> = if self.frame_width == width && self.frame_height == height {
            Some(self.prev_gray.len())
        } else {
            None
        };
        self.frames < u64::MAX && can_compare(len, prev_len, width, height)
    }

    /// Analyse a frame.
    pub fn update(&mut self, frame: &VideoFrame)
        requires
            old(self)@.wf(),
            old(self)@.frames < u64::MAX,
            old(self)@.seen.accepts(frame.width, frame.height, frame.rgba@.len() / 4),
        ensures
            final(self)@ == old(self)@.with(frame.width, frame.height, gray_of(frame.rgba@)),
            final(self)@.wf(),
    {
        let gray = to_gray(frame.rgba.as_slice());
        self.update_gray(frame.width, frame.height, gray);
    }

    /// Analyse a frame by its luma plane.
    ///
    /// `y` holds the rows one after the other, without padding. This avoids the
    /// conversion from RGBA, which is the dominant cost of [`Self::update`] for
    /// large frames.
    pub fn update_y(&mut self, y: Vec<u8>, width: u32, height: u32)
        requires
            old(self)@.wf(),
            old(self)@.frames < u64::MAX,
            old(self)@.seen.accepts(width, height, y@.len()),
        ensures
            final(self)@ == old(self)@.with(width, height, y@),
            final(self)@.wf(),
    {
        self.update_gray(width, height, y);
    }

    fn update_gray(&mut self, width: u32, height: u32, gray: Vec<u8>)
        requires
            old(self)@.wf(),
            old(self)@.frames < u64::MAX,
            old(self)@.seen.accepts(width, height, gray@.len()),
        ensures
            final(self)@ == old(self)@.with(width, height, gray@),
            final(self)@.wf(),
    {
        proof {
            assert(gray@.len() == gray.len());
            lemma_accepted_size(self@.seen, width, height, gray@);
        }
        let ghost base = self@.seen.at_size(width, height, gray@);
        let fresh = self.frame_width != width || self.frame_height != height;
        if fresh {
            let cols: usize = count_blocks(width);
            let rows: usize = count_blocks(height);
            self.mad_sum = vec![Double::from_bits(0); cols * rows];
            self.frame_width = width;
            self.frame_height = height;
            assert(sums(self.mad_sum@) =~= base.scores);
        }
        let prev: &Vec<u8> = if fresh {
            &gray
        } else {
            &self.prev_gray
        };
        let new = block_mads(&gray, prev, width, height);
        let n: usize = self.mad_sum.len();
        let ghost found = mads(gray@, base.gray, width, height);
        assert(new@.len() == scores(new@).len());
        let ghost was = self.mad_sum@;
        let ghost frames0 = self.frames;
        let mut i: usize = 0;
        while i < n
            invariant
                i <= n,
                n == self.mad_sum@.len(),
                n == new@.len(),
                n == was.len(),
                scores(new@) == found,
                self.frame_width == base.width,
                self.frame_height == base.height,
                self.frames == frames0,
                base.scores == sums(was),
                forall|j: int| i <= j < n ==> self.mad_sum@[j] == was[j],
                forall|j: int|
                    0 <= j < i ==> (#[trigger] self.mad_sum@[j])@ == base.scores[j].plus(
                        Format::Double,
                        found[j].widened(),
                    ),
            decreases n - i,
        {
            let sum: Double = self.mad_sum[i];
            let mad: Single = new[i];
            assert(found[i as int] == scores(new@)[i as int]);
            self.mad_sum.set(i, sum.plus(mad.widened()));
            i = i + 1;
        }
        self.prev_gray = gray;
        self.frames = self.frames + 1;
        proof {
            let want = old(self)@.seen.summed(width, height, gray@);
            assert(self@.seen.scores =~= want.scores);
            assert(self@.seen == want);
        }
    }

    /// The bounding box of the blocks whose mean difference reaches the
    /// threshold.
    pub fn active_bbox(&self, threshold: Single) -> (r: Option<[u32; 4]>)
        requires
            self@.wf(),
        ensures
            self@.is_region(r, threshold@, BboxMethod::Union),
    {
        self.active_bbox_by(threshold, BboxMethod::Union)
    }

    /// The bounding box that the method leaves of the blocks whose mean
    /// difference reaches the threshold.
    pub fn active_bbox_by(&self, threshold: Single, method: BboxMethod) -> (r: Option<[u32; 4]>)
        requires
            self@.wf(),
        ensures
            self@.is_region(r, threshold@, method),
    {
        if self.frames == 0 {
            return None;
        }
        let mut mean_map: Vec<Single> = Vec::new();
        let mut i: usize = 0;
        while i < self.mad_sum.len()
            invariant
                i <= self.mad_sum@.len(),
                mean_map@.len() == i,
                forall|j: int|
                    0 <= j < i ==> (#[trigger] mean_map@[j])@ == self.mad_sum@[j]@.over(
                        Format::Double,
                        Num::of_int(Format::Double, self.frames as int),
                    ).narrowed(),
            decreases self.mad_sum.len() - i,
        {
            mean_map.push(self.mad_sum[i].over(Double::of_count(self.frames)).narrowed());
            i = i + 1;
        }
        proof {
            assert(scores(mean_map@) =~= self@.means());
        }
        active_bbox(
            mean_map.as_slice(),
            self.frame_width,
            self.frame_height,
            threshold,
            method,
        )
    }
}

/// The analysis of a video as far as it has come.
pub ghost struct AnalysisRun {
    pub sampler: FrameSampler,
    pub total: Total,
}

impl AnalysisRun {
    /// No frame yet.
    pub open spec fn started(sampler: FrameSampler) -> AnalysisRun {
        AnalysisRun { sampler, total: Total::empty() }
    }

    /// The frame is a sample.
    pub open spec fn takes(self, frame: VideoFrame) -> bool {
        self.sampler.takes(frame.pts_secs@)
    }

    /// One more decoded frame, which is analysed where it is a sample.
    pub open spec fn fed(self, frame: VideoFrame) -> AnalysisRun {
        AnalysisRun {
            sampler: self.sampler.past(frame.pts_secs),
            total: if self.takes(frame) {
                self.total.with(frame.width, frame.height, gray_of(frame.rgba@))
            } else {
                self.total
            },
        }
    }

    /// The frames one after the other.
    pub open spec fn after(self, frames: Seq<VideoFrame>) -> AnalysisRun
        decreases frames.len(),
    {
        if frames.len() == 0 {
            self
        } else {
            self.after(frames.drop_last()).fed(frames.last())
        }
    }

    /// The intensities of those frames that are samples.
    pub open spec fn samples(self, frames: Seq<VideoFrame>) -> Seq<Seq<u8>>
        decreases frames.len(),
    {
        if frames.len() == 0 {
            Seq::empty()
        } else {
            let before = self.samples(frames.drop_last());
            if self.after(frames.drop_last()).takes(frames.last()) {
                before.push(gray_of(frames.last().rgba@))
            } else {
                before
            }
        }
    }
}

/// The analysis of a whole video while it is being decoded: the sampler picks
/// the frames, and the analyzer adds them up.
pub struct SampledAnalysis {
    sampler: FrameSampler,
    analyzer: FullVideoAnalyzer,
}

impl View for SampledAnalysis {
    type V = AnalysisRun;

    closed spec fn view(&self) -> AnalysisRun {
        AnalysisRun { sampler: self.sampler, total: self.analyzer@ }
    }
}

impl SampledAnalysis {
    /// Sample `analysis_fps` frames per second of video time; in fast mode every
    /// decoded frame is a sample.
    pub fn new(mode: AnalysisMode, analysis_fps: Single) -> (r: SampledAnalysis)
        ensures
            r@ == AnalysisRun::started(r@.sampler),
            r@.total.wf(),
            r@.sampler.mode == mode,
            r@.sampler.interval@ == sampling_interval(analysis_fps@),
            r@.sampler.last@ == (Num::Infinite { neg: true }),
    {
        SampledAnalysis {
            sampler: FrameSampler::new(mode, analysis_fps),
            analyzer: FullVideoAnalyzer::new(),
        }
    }

    /// Whether a frame could be analysed.
    pub fn accepts_frame(&self, frame: &VideoFrame) -> (r: bool)
        requires
            self@.total.wf(),
        ensures
            r == (self@.total.frames < u64::MAX && self@.total.seen.accepts(
                frame.width,
                frame.height,
                frame.rgba@.len() / 4,
            )),
    {
        self.analyzer.accepts(frame.width, frame.height, frame.rgba.len() / 4)
    }

    /// Take a decoded frame, and analyse it where it is a sample.
    pub fn feed(&mut self, frame: &VideoFrame) -> (sampled: bool)
        requires
            old(self)@.total.wf(),
            old(self)@.takes(*frame) ==> old(self)@.total.frames < u64::MAX
                && old(self)@.total.seen.accepts(
                frame.width,
                frame.height,
                frame.rgba@.len() / 4,
            ),
        ensures
            sampled == old(self)@.takes(*frame),
            final(self)@ == old(self)@.fed(*frame),
            final(self)@.total.wf(),
    {
        let sampled = self.sampler.take(frame.pts_secs);
        if sampled {
            self.analyzer.update(frame);
        }
        sampled
    }

    /// The active region of the frames so far.
    pub fn region(&self, threshold: Single, method: BboxMethod) -> (r: Option<[u32; 4]>)
        requires
            self@.total.wf(),
        ensures
            self@.total.is_region(r, threshold@, method),
    {
        self.analyzer.active_bbox_by(threshold, method)
    }
}

} // verus!
