//! What holds of the samples of every video.

use crate::analysis::{gray_of, AnalysisRun};
use crate::decoder::{
    lemma_first_frame_taken, sampling_interval, FrameSampler, VideoFrame, MIN_RATE,
};
use crate::double::double_num;
use crate::number::{lemma_representable, lemma_rounded_in_format, lemma_small_int, Format, Num};
use crate::number_laws::{distance, lemma_nearest_to, nearest_to};
use crate::rounding::{
    lemma_round_to_exact, lemma_round_to_monotone, lemma_round_to_relative, round_to,
};
use crate::single::single_num;
use vstd::arithmetic::power2::{
    lemma2_to64, lemma2_to64_rest, lemma_pow2_adds, lemma_pow2_pos, lemma_pow2_strictly_increases,
    pow2,
};
use vstd::prelude::*;

verus! {

/// Every bit pattern of the double format denotes a number of the format.
pub proof fn lemma_double_in_format(bits: u64)
    ensures
        double_num(bits).in_format(Format::Double),
{
    let rest = bits % 0x8000_0000_0000_0000;
    let exponent = rest / 0x10_0000_0000_0000;
    let fraction = rest % 0x10_0000_0000_0000;
    lemma2_to64();
    lemma2_to64_rest();
    if exponent == 0 {
        lemma_representable(Format::Double, false, fraction as nat, 0);
        assert(fraction as nat * pow2(0) == fraction) by (nonlinear_arith)
            requires
                pow2(0) == 1,
        ;
    } else if exponent < 2047 {
        lemma_representable(
            Format::Double,
            false,
            (0x10_0000_0000_0000 + fraction) as nat,
            (exponent - 1) as nat,
        );
    }
}

/// In full mode a frame whose time is at least the interval after the last sample
/// is always a sample, whatever the times are; and a sample is at least the interval
/// after the one before it, up to the rounding of one subtraction. In fast mode
/// every frame is a sample.
pub proof fn lemma_due_frames_taken(sampler: FrameSampler, pts: Num)
    requires
        pts is Finite,
        sampler.last@ is Finite,
        sampler.interval@ matches Num::Finite { neg: false, .. },
    ensures
        ({
            let passed = pts.signed() - sampler.last@.signed();
            let interval = sampler.interval@.signed();
            &&& sampler.mode is Fast ==> sampler.takes(pts)
            &&& passed >= interval ==> sampler.takes(pts)
            &&& sampler.mode is Full && sampler.takes(pts) ==> 0x20_0000_0000_0001 * passed
                >= 0x20_0000_0000_0000 * interval
        }),
{
    let interval = sampler.interval@->mag;
    let passed = pts.signed() - sampler.last@.signed();
    lemma2_to64();
    lemma2_to64_rest();
    lemma_double_in_format(sampler.interval.bits);
    let size = distance(passed, 0) as nat;
    if sampler.mode is Full {
        if passed > 0 {
            assert(pts.minus(Format::Double, sampler.last@) == Num::rounded(
                Format::Double,
                false,
                size,
                1,
            ));
            if passed >= interval {
                lemma_round_to_monotone(53, interval, 1, size, 1);
            }
            lemma_round_to_relative(53, size, 1);
            if size < pow2(53) {
                lemma_round_to_exact(53, size, 0);
                assert(size * pow2(0) == size) by (nonlinear_arith)
                    requires
                        pow2(0) == 1,
                ;
            }
            if round_to(53, size, 1) >= Format::Double.limit() {
                assert(interval < Format::Double.limit());
            }
        } else if passed < 0 {
            assert(pts.minus(Format::Double, sampler.last@) == Num::rounded(
                Format::Double,
                true,
                size,
                1,
            ));
            lemma_negative_below(size, interval);
        } else {
            lemma_pow2_pos(2098);
            lemma_round_to_exact(53, 0, 0);
            assert(0 * pow2(0) == 0) by (nonlinear_arith);
            let d = pts.minus(Format::Double, sampler.last@);
            assert(d is Finite && d->mag == 0);
        }
    }
}

/// A difference below zero does not reach an interval.
proof fn lemma_negative_below(size: nat, interval: nat)
    requires
        size > 0,
    ensures
        !Num::rounded(Format::Double, true, size, 1).at_least(
            Num::Finite { neg: false, mag: interval },
        ),
{
    lemma2_to64();
    lemma_round_to_monotone(53, 1, 1, size, 1);
    lemma_pow2_strictly_increases(0, 53);
    lemma_round_to_exact(53, 1, 0);
    assert(1 * pow2(0) == 1);
}

/// The interval times the rate is one, up to the rounding of one division, for every
/// rate from 0.1 on; a lower rate, or one that is no number, is taken as 0.1.
pub proof fn lemma_interval_is_reciprocal(rate: Num)
    ensures
        sampling_interval(rate) matches Num::Finite { neg: false, .. },
        sampling_interval(rate).in_format(Format::Double),
        rate == (Num::Infinite { neg: false }) ==> sampling_interval(rate)->mag == 0,
        rate matches Num::Finite { neg: false, mag } && 10 * mag >= pow2(149) + 2 * pow2(122) ==> ({
            let product = sampling_interval(rate)->mag * (rate->mag * pow2(925));
            let one = pow2(1074) * pow2(1074);
            0x20_0000_0000_0000 * distance(product as int, one as int) <= one + 0x10_0000_0000_0000
                * (rate->mag * pow2(925))
        }),
        rate is NotANumber || rate == (Num::Infinite { neg: true }) || (rate is Finite && (
        rate->Finite_neg || 10 * rate->mag <= pow2(149))) ==> 0x100_0000 * distance(
            sampling_interval(rate).signed(),
            10 * pow2(1074) as int,
        ) <= 10 * pow2(1074),
{
    let r = rate.larger(single_num(MIN_RATE));
    let o = pow2(1074);
    let b = pow2(925);
    let v = pow2(122);
    assert(MIN_RATE % 0x8000_0000 == MIN_RATE);
    assert(MIN_RATE / 0x80_0000 == 123);
    assert(MIN_RATE % 0x80_0000 == 0x4c_cccd);
    let low = 0xcc_cccd * v;
    assert(single_num(MIN_RATE) == (Num::Finite { neg: false, mag: low }));
    lemma_pow2_pos(122);
    lemma_pow2_pos(925);
    lemma_pow2_pos(1074);
    lemma2_to64();
    lemma2_to64_rest();
    lemma_pow2_adds(27, 122);
    lemma_pow2_adds(149, 925);
    lemma_small_int(Format::Double, 1);
    assert(1 * o == o);
    assert(r == (Num::Infinite { neg: false }) || (r matches Num::Finite { neg: false, mag } && mag
        >= low));
    if let Num::Finite { mag, .. } = r {
        let wide = mag * b;
        assert(o <= 16 * wide && wide > 0) by (nonlinear_arith)
            requires
                wide == mag * b,
                mag >= low,
                low == 0xcc_cccd * v,
                o == (0x800_0000 * v) * b,
                b > 0,
                v > 0,
        ;
        assert((o * o) * 1 <= (16 * o) * wide) by (nonlinear_arith)
            requires
                o <= 16 * wide,
                o > 0,
        ;
        lemma_round_to_monotone(53, o * o, wide, 16 * o, 1);
        lemma_round_to_exact(53, 16, 1074);
        lemma_pow2_adds(4, 1074);
        lemma_pow2_strictly_increases(1078, 2098);
        lemma_rounded_in_format(Format::Double, false, o * o, wide);
        lemma_round_to_relative(53, o * o, wide);
        if mag == low {
            let q = round_to(53, o * o, wide);
            let vb = v * b;
            assert(wide == 0xcc_cccd * vb) by (nonlinear_arith)
                requires
                    wide == mag * b,
                    mag == 0xcc_cccd * v,
                    vb == v * b,
            ;
            assert(o == 0x800_0000 * vb) by (nonlinear_arith)
                requires
                    o == (0x800_0000 * v) * b,
                    vb == v * b,
            ;
            assert(vb > 0) by (nonlinear_arith)
                requires
                    vb == v * b,
                    v > 0,
                    b > 0,
            ;
            assert(o * o == (0x800_0000 * o) * vb) by (nonlinear_arith)
                requires
                    o == 0x800_0000 * vb,
            ;
            assert(q * wide == (0xcc_cccd * q) * vb) by (nonlinear_arith)
                requires
                    wide == 0xcc_cccd * vb,
            ;
            let num = 0x800_0000 * o;
            let off = q * wide - o * o;
            let near = 0xcc_cccd * q - num;
            assert(off == near * vb) by (nonlinear_arith)
                requires
                    off == (0xcc_cccd * q) * vb - num * vb,
                    near == 0xcc_cccd * q - num,
            ;
            assert(0x20_0000_0000_0000 * near <= num + 0x10_0000_0000_0000 * 0xcc_cccd)
                by (nonlinear_arith)
                requires
                    0x20_0000_0000_0000 * (near * vb) <= num * vb + 0x10_0000_0000_0000 * (0xcc_cccd
                        * vb),
                    vb > 0,
            ;
            assert(-0x20_0000_0000_0000 * near <= num + 0x10_0000_0000_0000 * 0xcc_cccd)
                by (nonlinear_arith)
                requires
                    -0x20_0000_0000_0000 * (near * vb) <= num * vb + 0x10_0000_0000_0000 * (
                    0xcc_cccd * vb),
                    vb > 0,
            ;
            lemma_pow2_adds(64, 1010);
            lemma_pow2_pos(1010);
            assert(o >= 0x1_0000_0000_0000_0000);
        }
    } else {
        lemma_pow2_pos(2098);
        lemma_round_to_exact(53, 0, 0);
        assert(0 * pow2(0) == 0) by (nonlinear_arith);
    }
}

/// The interval is the double nearest to one over the rate.
pub proof fn lemma_interval_nearest(rate: Num)
    requires
        rate matches Num::Finite { neg: false, mag } && 10 * mag >= pow2(149) + 2 * pow2(122),
    ensures
        nearest_to(
            Format::Double,
            sampling_interval(rate)->mag,
            pow2(1074) * pow2(1074),
            rate->mag * pow2(925),
        ),
{
    let o = pow2(1074);
    let b = pow2(925);
    lemma_interval_is_reciprocal(rate);
    assert(MIN_RATE % 0x8000_0000 == MIN_RATE);
    assert(MIN_RATE / 0x80_0000 == 123);
    assert(MIN_RATE % 0x80_0000 == 0x4c_cccd);
    assert(single_num(MIN_RATE) == (Num::Finite { neg: false, mag: 0xcc_cccd * pow2(122) }));
    lemma_pow2_pos(122);
    lemma_pow2_pos(925);
    lemma_pow2_pos(1074);
    lemma2_to64();
    lemma2_to64_rest();
    lemma_pow2_adds(27, 122);
    lemma_small_int(Format::Double, 1);
    assert(1 * o == o);
    vstd::arithmetic::mul::lemma_mul_strictly_positive(rate->mag as int, b as int);
    assert(rate.larger(single_num(MIN_RATE)) == rate);
    lemma_nearest_to(Format::Double, false, o * o, rate->mag * b);
}

/// What a frame leaves of the sampler: a sample is the one that the next is measured
/// from, and everything else stays.
pub proof fn lemma_sampler_moves_on(sampler: FrameSampler, frame: VideoFrame)
    ensures
        ({
            let next = sampler.past(frame.pts_secs);
            &&& next.mode == sampler.mode
            &&& next.interval == sampler.interval
            &&& sampler.takes(frame.pts_secs@) ==> next.last == frame.pts_secs
            &&& !sampler.takes(frame.pts_secs@) ==> next.last == sampler.last
        }),
{
}

/// A frame that is a sample adds its own intensities to the sums, at its own size, and
/// counts once; any other frame adds nothing.
pub proof fn lemma_samples_added(run: AnalysisRun, frame: VideoFrame)
    ensures
        ({
            let next = run.fed(frame);
            &&& run.sampler.takes(frame.pts_secs@) ==> {
                &&& next.total.frames == run.total.frames + 1
                &&& next.total.seen == run.total.seen.summed(
                    frame.width,
                    frame.height,
                    gray_of(frame.rgba@),
                )
                &&& next.total.seen.gray == gray_of(frame.rgba@)
                &&& next.total.seen.width == frame.width
                &&& next.total.seen.height == frame.height
            }
            &&& !run.sampler.takes(frame.pts_secs@) ==> next.total == run.total
        }),
{
}

/// All frames have a time.
pub open spec fn timed(frames: Seq<VideoFrame>) -> bool {
    forall|k: int| 0 <= k < frames.len() ==> (#[trigger] frames[k]).pts_secs@ is Finite
}

/// Frame `k` comes less than the interval after frame `j`.
pub open spec fn soon_after(sampler: FrameSampler, frames: Seq<VideoFrame>, j: int, k: int) -> bool {
    frames[k].pts_secs@.signed() - frames[j].pts_secs@.signed() < sampler.interval@.signed()
}

/// No stretch of a video goes without a sample: in full mode the last sample so far
/// is one of the frames, and every frame since then came less than the interval after
/// it. This holds after each frame, so that between two samples that follow each
/// other no frame was due and left out.
pub proof fn lemma_no_due_frame_left_out(run: AnalysisRun, frames: Seq<VideoFrame>, rate: Num) -> (j:
    int)
    requires
        run.sampler.mode is Full,
        run.sampler.last@ == (Num::Infinite { neg: true }),
        run.sampler.interval@ == sampling_interval(rate),
        timed(frames),
        frames.len() > 0,
    ensures
        0 <= j < frames.len(),
        run.after(frames.take(j)).takes(frames[j]),
        run.samples(frames.take(j + 1)) == run.samples(frames.take(j)).push(
            gray_of(frames[j].rgba@),
        ),
        run.samples(frames) == run.samples(frames.take(j + 1)),
        run.after(frames).sampler == (FrameSampler { last: frames[j].pts_secs, ..run.sampler }),
        forall|k: int| j < k < frames.len() ==> #[trigger] soon_after(run.sampler, frames, j, k),
    decreases frames.len(),
{
    let n = frames.len() as int;
    let before = frames.drop_last();
    let last = frames.last();
    assert(frames[n - 1] == last);
    assert(frames.take(n) =~= frames);
    assert(frames.take(n - 1) =~= before);
    lemma_interval_is_reciprocal(rate);
    if n == 1 {
        assert(run.after(before) == run);
        lemma_first_frame_taken(run.sampler, rate, last.pts_secs@);
        0
    } else {
        assert(timed(before)) by {
            assert forall|k: int| 0 <= k < before.len() implies (
            #[trigger] before[k]).pts_secs@ is Finite by {
                assert(before[k] == frames[k]);
            }
        }
        let j = lemma_no_due_frame_left_out(run, before, rate);
        let now = run.after(before);
        if now.takes(last) {
            n - 1
        } else {
            assert(frames.take(j) =~= before.take(j));
            assert(frames.take(j + 1) =~= before.take(j + 1));
            assert(before[j] == frames[j]);
            lemma_due_frames_taken(now.sampler, last.pts_secs@);
            assert forall|k: int| j < k < n implies #[trigger] soon_after(
                run.sampler,
                frames,
                j,
                k,
            ) by {
                if k < n - 1 {
                    assert(soon_after(run.sampler, before, j, k));
                    assert(before[k] == frames[k]);
                }
            }
            j
        }
    }
}

/// In fast mode every frame is a sample.
pub proof fn lemma_fast_takes_all(run: AnalysisRun, frames: Seq<VideoFrame>)
    requires
        run.sampler.mode is Fast,
    ensures
        run.samples(frames) == Seq::new(frames.len(), |k: int| gray_of(frames[k].rgba@)),
        run.after(frames).sampler.mode is Fast,
    decreases frames.len(),
{
    let all = Seq::new(frames.len(), |k: int| gray_of(frames[k].rgba@));
    if frames.len() > 0 {
        let before = frames.drop_last();
        lemma_fast_takes_all(run, before);
        assert(all =~= Seq::new(before.len(), |k: int| gray_of(before[k].rgba@)).push(
            gray_of(frames.last().rgba@),
        ));
    } else {
        assert(all =~= Seq::empty());
    }
}

} // verus!
