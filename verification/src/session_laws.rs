//! What every session comes to, whatever went before.

use crate::analysis::{blocks_across, gray_of};
use crate::app::{
    apart, clock_of, played_share, CropDialog, FrameDrain, FrameMessage, Session, Settings, EPSILON,
};
use crate::bbox::{active_blocks, block};
use crate::decoder::VideoFrame;
use crate::double::{double_num, Double};
use crate::number::{lemma_small_int, Format, Num};
use crate::number_laws::{distance, lemma_nearest_to, nearest_to};
use crate::region_laws::{covers, lemma_union_region};
use crate::rounding::{
    lemma_nearest_even_exact, lemma_round_to_exact, lemma_round_to_monotone,
    lemma_round_to_relative, lemma_round_to_scale, round_to,
};
use crate::single::single_num;
use std::path::PathBuf;
use vstd::arithmetic::power2::{
    lemma2_to64, lemma2_to64_rest, lemma_pow2_adds, lemma_pow2_pos, lemma_pow2_strictly_increases,
    pow2,
};
use vstd::prelude::*;

verus! {

/// Nothing is on display, nothing is known, and no dialog is up.
pub open spec fn blank(s: Session) -> bool {
    &&& !s.picture
    &&& s.pts@ == Num::zero()
    &&& s.duration is None
    &&& s.motion.width == 0 && s.motion.height == 0
    &&& s.motion.gray.len() == 0 && s.motion.scores.len() == 0
    &&& s.active_region is None
    &&& s.final_region is None
    &&& s.dialog is Hidden
    &&& !s.restart_prompt
    &&& !s.export_open
}

/// Opening a file waits for its preview and for nothing else, with the same settings.
pub proof fn lemma_opening_awaits_preview(s: Session, path: PathBuf)
    ensures
        ({
            let o = s.opened(path);
            &&& blank(o)
            &&& o.state is LoadingPreview
            &&& o.file == Some(path)
            &&& o.preview_open && !o.frames_open && !o.analysis_open
            &&& o.settings == s.settings && o.last == s.last
        }),
{
    lemma_no_time();
}

proof fn lemma_no_time()
    ensures
        double_num(0) == Num::zero(),
{
}

/// Starting a run waits for frames and for the analysis, of the same file and with the
/// settings of now; without a file nothing changes.
pub proof fn lemma_starting_awaits_frames(s: Session)
    ensures
        ({
            let r = s.started();
            &&& s.file is None ==> r == s
            &&& s.file is Some ==> {
                &&& blank(r)
                &&& r.state is Trimming
                &&& r.file == s.file
                &&& !r.preview_open && r.frames_open && r.analysis_open
                &&& r.settings == s.settings && r.last == s.settings
            }
        }),
{
    lemma_no_time();
}

/// The dialog that follows an analysis offers the region that was found, and says so
/// where none was.
pub proof fn lemma_verdict_offers(region: Option<[u32; 4]>, r: [u32; 4])
    ensures
        Session::verdict(region) is NoRegion <==> region is None,
        Session::verdict(region) == (CropDialog::Confirm { region: r }) <==> region == Some(r),
{
}

/// At the end of the video a session waits for the analysis where that is still on, and
/// otherwise asks the user at once; it forgets nothing.
pub proof fn lemma_end_asks_or_waits(s: Session, r: [u32; 4])
    requires
        s.wf(),
        s.state is Trimming,
    ensures
        ({
            let e = s.ended();
            &&& e.state is AnalysisPending <==> s.analysis_open
            &&& e.state is Ready <==> !s.analysis_open
            &&& e.dialog is Hidden <==> s.analysis_open
            &&& !s.analysis_open ==> (e.dialog is NoRegion <==> s.final_region is None)
            &&& !s.analysis_open ==> (e.dialog == (CropDialog::Confirm { region: r })
                <==> s.final_region == Some(r))
            &&& s == (Session { state: s.state, dialog: s.dialog, ..e })
        }),
{
}

/// The result of an analysis is kept where one was awaited, and shown at once where the
/// video is over; it forgets nothing.
pub proof fn lemma_result_kept(s: Session, region: Option<[u32; 4]>, r: [u32; 4])
    requires
        s.wf(),
    ensures
        ({
            let e = s.analysed(region);
            &&& !s.analysis_open ==> e == s
            &&& s.analysis_open ==> {
                &&& e.final_region == region
                &&& !e.analysis_open
                &&& s.state is Trimming ==> e.state is Trimming && e.dialog is Hidden
                &&& s.state is AnalysisPending ==> e.state is Ready && !(e.dialog is Hidden)
                &&& s.state is AnalysisPending ==> (e.dialog is NoRegion <==> region is None)
                &&& s.state is AnalysisPending ==> (e.dialog == (CropDialog::Confirm { region: r })
                    <==> region == Some(r))
                &&& s == (Session {
                    state: s.state,
                    final_region: s.final_region,
                    analysis_open: true,
                    dialog: s.dialog,
                    ..e
                })
            }
        }),
{
}

/// A frame on display is the one that the next is compared with, and changes nothing but
/// the picture, the live region, and the length of the video where the frame tells it.
pub proof fn lemma_frame_shown(s: Session, frame: VideoFrame, region: Option<[u32; 4]>)
    ensures
        ({
            let e = s.timed(frame).shown(frame, region);
            &&& e.picture
            &&& e.active_region == region
            &&& e.motion.width == frame.width
            &&& e.motion.height == frame.height
            &&& e.motion.gray == gray_of(frame.rgba@)
            &&& frame.duration_secs is Some ==> e.duration == frame.duration_secs
            &&& frame.duration_secs is None ==> e.duration == s.duration
            &&& s == (Session {
                motion: s.motion,
                active_region: s.active_region,
                picture: s.picture,
                duration: s.duration,
                ..e
            })
        }),
{
}

/// The live region covers every block whose moving average reaches the threshold that is
/// set now, and where none does there is no region.
pub proof fn lemma_live_region_covers(
    s: Session,
    frame: VideoFrame,
    region: Option<[u32; 4]>,
    bx: int,
    by: int,
)
    requires
        s.motion.wf(),
        s.accepts(frame),
        s.live_region(frame, region),
        0 <= bx < blocks_across(frame.width),
        0 <= by < blocks_across(frame.height),
    ensures
        ({
            let next = s.timed(frame).shown(frame, region).motion;
            let score = next.scores[by * blocks_across(frame.width) + bx];
            &&& 0 <= by * blocks_across(frame.width) + bx < next.scores.len()
            &&& score.at_least(s.settings.threshold@) ==> (region matches Some(r) && covers(
                r,
                frame.width,
                frame.height,
                bx,
                by,
            ))
        }),
{
    let cols = blocks_across(frame.width);
    let rows = blocks_across(frame.height);
    let next = s.timed(frame).shown(frame, region).motion;
    let i = by * cols + bx;
    assert(0 <= i < cols * rows) by (nonlinear_arith)
        requires
            0 <= bx < cols,
            0 <= by,
            by + 1 <= rows,
            i == by * cols + bx,
    ;
    let mask = active_blocks(next.scores, s.settings.threshold@);
    lemma_union_region(region, mask, frame.width, frame.height);
    assert(block(mask, cols as int, bx, by) == next.scores[i].at_least(s.settings.threshold@));
}

/// Where there is a live region, its first and last column and row each hold a block whose
/// moving average reaches the threshold.
pub proof fn lemma_live_region_tight(s: Session, frame: VideoFrame, r: [u32; 4]) -> (at: (
    int,
    int,
    int,
    int,
))
    requires
        s.motion.wf(),
        s.accepts(frame),
        s.live_region(frame, Some(r)),
    ensures
        ({
            let cols = blocks_across(frame.width);
            let scores = s.motion.averaged(frame.width, frame.height, gray_of(frame.rgba@)).scores;
            let t = s.settings.threshold@;
            &&& 0 <= at.0 < blocks_across(frame.height)
            &&& 0 <= at.1 < blocks_across(frame.height)
            &&& 0 <= at.2 < cols
            &&& 0 <= at.3 < cols
            &&& scores[at.0 * cols + r[0] as int / 16].at_least(t)
            &&& scores[at.1 * cols + (r[0] + r[2] - 1) / 16].at_least(t)
            &&& scores[r[1] as int / 16 * cols + at.2].at_least(t)
            &&& scores[(r[1] + r[3] - 1) / 16 * cols + at.3].at_least(t)
        }),
{
    let cols = blocks_across(frame.width);
    let rows = blocks_across(frame.height);
    let next = s.motion.averaged(frame.width, frame.height, gray_of(frame.rgba@));
    let mask = active_blocks(next.scores, s.settings.threshold@);
    lemma_union_region(Some(r), mask, frame.width, frame.height);
    let a = crate::region_laws::active_in_col(mask, cols, rows, r[0] as int / 16);
    let b = crate::region_laws::active_in_col(mask, cols, rows, (r[0] + r[2] - 1) / 16);
    let c = crate::region_laws::active_in_row(mask, cols, r[1] as int / 16);
    let d = crate::region_laws::active_in_row(mask, cols, (r[1] + r[3] - 1) / 16);
    crate::bbox_laws::lemma_region_in_frame(
        r,
        mask,
        frame.width,
        frame.height,
        crate::bbox::BboxMethod::Union,
    );
    let at = (lemma_some(a), lemma_some(b), lemma_some(c), lemma_some(d));
    lemma_in_grid(cols, rows, r[0] as int / 16, at.0);
    lemma_in_grid(cols, rows, (r[0] + r[2] - 1) / 16, at.1);
    lemma_in_grid(cols, rows, at.2, r[1] as int / 16);
    lemma_in_grid(cols, rows, at.3, (r[1] + r[3] - 1) / 16);
    at
}

proof fn lemma_in_grid(cols: nat, rows: nat, x: int, y: int)
    requires
        0 <= x < cols,
        0 <= y < rows,
    ensures
        0 <= y * cols + x < cols * rows,
{
    assert(0 <= y * cols + x < cols * rows) by (nonlinear_arith)
        requires
            0 <= x < cols,
            0 <= y,
            y + 1 <= rows,
    ;
}

/// A set of size above zero holds something.
proof fn lemma_some(s: Set<int>) -> (a: int)
    requires
        s.len() >= 1,
    ensures
        s.contains(a),
{
    if s.finite() {
        if s =~= Set::empty() {
        }
        s.choose()
    } else {
        if forall|a: int| !s.contains(a) {
            assert(s =~= Set::empty());
        }
        choose|a: int| s.contains(a)
    }
}

/// A run is on while frames or the result are awaited, or the user is asked.
pub proof fn lemma_when_trimming(s: Session)
    ensures
        !s.trimming() <==> (s.state is Idle || s.state is LoadingPreview || s.state is Ready)
            && !s.restart_prompt,
{
}

/// The preview leaves a session ready to start, and shows its frame.
pub proof fn lemma_preview_shown(s: Session, frame: VideoFrame, region: Option<[u32; 4]>)
    ensures
        ({
            let e = s.previewed(frame, region);
            &&& e.state is Ready
            &&& !e.preview_open
            &&& e.picture
            &&& e.active_region == region
            &&& e.motion.gray == gray_of(frame.rgba@)
            &&& e.duration == (if frame.duration_secs is Some {
                frame.duration_secs
            } else {
                s.duration
            })
            &&& s == (Session {
                state: s.state,
                preview_open: s.preview_open,
                motion: s.motion,
                active_region: s.active_region,
                picture: s.picture,
                duration: s.duration,
                ..e
            })
        }),
{
}

/// A frame of a run is shown with its time, and leaves the run as it is.
pub proof fn lemma_frame_played(s: Session, frame: VideoFrame, region: Option<[u32; 4]>)
    ensures
        ({
            let e = s.played(frame, region);
            &&& e.pts == frame.pts_secs
            &&& e.picture
            &&& e.active_region == region
            &&& e.motion.gray == gray_of(frame.rgba@)
            &&& e.duration == (if frame.duration_secs is Some {
                frame.duration_secs
            } else {
                s.duration
            })
            &&& s == (Session {
                pts: s.pts,
                motion: s.motion,
                active_region: s.active_region,
                picture: s.picture,
                duration: s.duration,
                ..e
            })
        }),
{
}

/// An export that was offered and started ends with the file it was started with, or with
/// the message of its failure, and closing the dialog in between changes nothing.
pub proof fn lemma_export_runs_to_its_end(s: Session, r: [u32; 4], output: PathBuf, message: String)
    requires
        s.wf(),
        s.file is Some,
        s.dialog == (CropDialog::Confirm { region: r }),
    ensures
        ({
            let e = s.exporting(output);
            &&& e.dialog == (CropDialog::Exporting { region: r, output })
            &&& e.export_open
            &&& e.dismissed() == e
            &&& e.exported(Ok(())) == (Session { dialog: CropDialog::Done { output }, ..s })
            &&& e.exported(Err(message)) == (Session { dialog: CropDialog::Failed { message }, ..s })
        }),
{
}

/// Without an offer nothing is exported, and no outcome is taken where none is awaited.
pub proof fn lemma_nothing_to_export(s: Session, output: PathBuf, result: Result<(), String>)
    ensures
        !(s.dialog is Confirm) ==> s.exporting(output) == s,
        s.file is None ==> s.exporting(output) == s,
        !(s.dialog is Exporting) ==> s.exported(result) == s,
{
}

/// Every dialog but that of a running export closes, and nothing else changes.
pub proof fn lemma_dialogs_close(s: Session)
    ensures
        !(s.dialog is Exporting) ==> s.dismissed().dialog is Hidden,
        s == (Session { dialog: s.dialog, ..s.dismissed() }),
{
}

/// The user is asked about a restart where a setting was changed while a run is on, and
/// stays asked until an answer; nothing else changes.
pub proof fn lemma_change_asked_about(s: Session)
    ensures
        s.restart_prompt ==> s.checked().restart_prompt,
        (s.state is Trimming || s.state is AnalysisPending) && s.settings.differ(s.last)
            ==> s.checked().restart_prompt,
        !s.restart_prompt && !s.settings.differ(s.last) ==> !s.checked().restart_prompt,
        !s.restart_prompt && !(s.state is Trimming || s.state is AnalysisPending)
            ==> !s.checked().restart_prompt,
        s == (Session { restart_prompt: s.restart_prompt, ..s.checked() }),
{
}

/// An answer takes the question away. To restart is to start the run with the settings of
/// now; to go on keeps the run, and the question does not come back by itself. Without a
/// question there is nothing to answer.
pub proof fn lemma_restart_answered(s: Session)
    requires
        s.wf(),
    ensures
        !s.restart_prompt ==> s.answered(true) == s && s.answered(false) == s,
        s.restart_prompt ==> {
            &&& s.answered(true) == s.started()
            &&& s.file is Some ==> !s.answered(true).restart_prompt
            &&& !s.answered(false).restart_prompt
            &&& s.answered(false).last == s.settings
            &&& s.answered(false).checked() == s.answered(false)
            &&& s == (Session { restart_prompt: true, last: s.last, ..s.answered(false) })
        },
{
    if s.restart_prompt {
        crate::app::lemma_keep_going_lasts(s.answered(false));
    }
}

/// Of the frames that have piled up only the last one is kept, whatever lies between; and
/// the video is over once that was said, or once the decoder is gone.
pub proof fn lemma_last_frame_kept(drain: FrameDrain, messages: Seq<FrameMessage>, i: int)
    ensures
        0 <= i < messages.len() && (messages[i] is End || messages[i] is Disconnected)
            ==> drain.after(messages).ended,
        drain.ended ==> drain.after(messages).ended,
        drain.after(messages).ended && !drain.ended ==> exists|j: int|
            0 <= j < messages.len() && ((#[trigger] messages[j]) is End
                || messages[j] is Disconnected),
        0 <= i < messages.len() && messages[i] is Frame && (forall|j: int|
            i < j < messages.len() ==> !((#[trigger] messages[j]) is Frame)) ==> drain.after(
            messages,
        ).latest == Some(messages[i]->Frame_0),
        (forall|j: int| 0 <= j < messages.len() ==> !((#[trigger] messages[j]) is Frame))
            ==> drain.after(messages).latest == drain.latest,
    decreases messages.len(),
{
    let n = messages.len() as int;
    if n > 0 {
        let before = messages.drop_last();
        lemma_last_frame_kept(drain, before, i);
        assert(messages[n - 1] == messages.last());
        assert forall|j: int| 0 <= j < n - 1 implies before[j] == #[trigger] messages[j] by {
        }
        if drain.after(messages).ended && !drain.ended {
            if drain.after(before).ended {
                let j = choose|j: int|
                    0 <= j < before.len() && ((#[trigger] before[j]) is End
                        || before[j] is Disconnected);
                assert(messages[j] is End || messages[j] is Disconnected);
            } else {
                assert(messages[n - 1] is End || messages[n - 1] is Disconnected);
            }
        }
        if 0 <= i < n - 1 {
            assert(before[i] == messages[i]);
        }
        if 0 <= i && forall|j: int| i < j < n ==> !((#[trigger] messages[j]) is Frame) {
            assert forall|j: int| i < j < n - 1 implies !((#[trigger] before[j]) is Frame) by {
                assert(before[j] == messages[j]);
            }
            if i < n - 1 {
                assert(!(messages[n - 1] is Frame));
            }
        }
        if forall|j: int| 0 <= j < n ==> !((#[trigger] messages[j]) is Frame) {
            assert forall|j: int| 0 <= j < n - 1 implies !((#[trigger] before[j]) is Frame) by {
                assert(before[j] == messages[j]);
            }
            assert(!(messages[n - 1] is Frame));
        }
    }
}

/// Settings count as changed where the mode is another, or where the threshold or the
/// rate is off by more than two to the power -23; a difference of that or less does not
/// count. (Between the two lies what one subtraction may round away.)
pub proof fn lemma_change_noticed(a: Num, b: Num)
    requires
        a is Finite,
        b is Finite,
    ensures
        distance(a.signed(), b.signed()) <= pow2(126) ==> !apart(a, b),
        distance(a.signed(), b.signed()) >= pow2(126) + pow2(103) ==> apart(a, b),
        apart(a, b) == apart(b, a),
{
    let eps = 0x80_0000 as nat * pow2(103);
    lemma2_to64();
    lemma_pow2_pos(103);
    lemma_pow2_adds(23, 103);
    assert(EPSILON % 0x8000_0000 == EPSILON);
    assert(EPSILON / 0x80_0000 == 104);
    assert(EPSILON % 0x80_0000 == 0);
    assert(single_num(EPSILON) == (Num::Finite { neg: false, mag: eps }));
    let size = distance(a.signed(), b.signed()) as nat;
    lemma_round_to_exact(24, 0x80_0000, 103);
    lemma_round_to_exact(24, 0x80_0001, 103);
    assert(0x80_0001 * pow2(103) == 0x80_0000 * pow2(103) + pow2(103)) by (nonlinear_arith);
    if size <= eps {
        lemma_round_to_monotone(24, size, 1, eps, 1);
        lemma_pow2_strictly_increases(126, 277);
    }
    if size >= 0x80_0001 * pow2(103) {
        lemma_round_to_monotone(24, 0x80_0001 * pow2(103), 1, size, 1);
    }
    if size == 0 {
        lemma_nearest_even_exact(0, 1);
    }
}

/// Settings differ where one of the three does.
pub proof fn lemma_any_change_noticed(a: Settings, b: Settings)
    ensures
        a.mode != b.mode ==> a.differ(b),
        apart(a.threshold@, b.threshold@) ==> a.differ(b),
        apart(a.fps@, b.fps@) ==> a.differ(b),
        a.differ(b) ==> a.mode != b.mode || apart(a.threshold@, b.threshold@) || apart(
            a.fps@,
            b.fps@,
        ),
        a.differ(b) == b.differ(a) || !(a.threshold@ is Finite && b.threshold@ is Finite
            && a.fps@ is Finite && b.fps@ is Finite),
{
    if a.threshold@ is Finite && b.threshold@ is Finite && a.fps@ is Finite && b.fps@ is Finite {
        lemma_change_noticed(a.threshold@, b.threshold@);
        lemma_change_noticed(a.fps@, b.fps@);
    }
}

/// The clock shows the time: the seconds are what whole minutes leave of it, and the
/// minutes are those, or one more where the seconds are within rounding of sixty.
pub proof fn lemma_clock_shows_time(t: Num) -> (k: nat)
    requires
        t matches Num::Finite { neg: false, mag } && mag < pow2(1126),
    ensures
        ({
            let (minutes, seconds) = clock_of(t);
            let sixty = 60 * pow2(1074);
            &&& seconds matches Num::Finite { neg: false, mag } && {
                &&& mag < sixty
                &&& t->mag == k * sixty + mag
                &&& minutes == k || (minutes == k + 1 && 0x20_0000_0000_0000 * (sixty - mag)
                    <= t->mag + 0x10_0000_0000_0000 * 60)
            }
        }),
{
    let one = pow2(1074);
    let sixty = 60 * one;
    let mag = t->mag;
    lemma2_to64();
    lemma2_to64_rest();
    lemma_pow2_pos(1074);
    lemma_small_int(Format::Double, 60);
    vstd::arithmetic::div_mod::lemma_fundamental_div_mod(mag as int, sixty as int);
    let k = mag / sixty;
    let rest = mag % sixty;
    assert(mag == k * sixty + rest) by (nonlinear_arith)
        requires
            mag == sixty * k + rest,
    ;
    // The quotient.
    lemma_round_to_scale(53, mag, 60, one);
    let q = round_to(53, mag, 60);
    lemma_round_to_relative(53, mag, 60);
    lemma_round_to_monotone(53, mag, 60, pow2(1126), 1);
    lemma_round_to_exact(53, 1, 1126);
    lemma_pow2_strictly_increases(1126, 2098);
    lemma_pow2_adds(52, 1074);
    let ko = k * one;
    assert(k * sixty == 60 * ko) by (nonlinear_arith)
        requires
            sixty == 60 * one,
            ko == k * one,
    ;
    assert(k < 0x10_0000_0000_0000) by (nonlinear_arith)
        requires
            k * sixty <= mag,
            mag < 0x10_0000_0000_0000 * one,
            sixty == 60 * one,
            one > 0,
    ;
    assert((k + 1) * one == ko + one) by (nonlinear_arith)
        requires
            ko == k * one,
    ;
    // It reaches the whole minutes, and does not pass the minute after the next.
    lemma_round_to_monotone(53, ko, 1, mag, 60);
    lemma_round_to_exact(53, k, 1074);
    lemma_round_to_monotone(53, mag, 60, (k + 1) * one, 1);
    lemma_round_to_exact(53, k + 1, 1074);
    vstd::arithmetic::div_mod::lemma_fundamental_div_mod(q as int, one as int);
    let minutes = q / one;
    let left = q % one;
    if q < ko + one {
        vstd::arithmetic::div_mod::lemma_fundamental_div_mod_converse(
            q as int,
            one as int,
            k as int,
            q - ko,
        );
    } else {
        vstd::arithmetic::div_mod::lemma_fundamental_div_mod_converse(
            q as int,
            one as int,
            (k + 1) as int,
            0,
        );
    }
    k
}

/// At any time the minutes of the clock are the time over sixty, rounded down, but for the
/// rounding of one division and as far as they can be counted.
pub proof fn lemma_clock_minutes(t: Num)
    requires
        t matches Num::Finite { neg: false, .. },
    ensures
        ({
            let minutes = clock_of(t).0;
            let shown = 60 * (minutes * pow2(1074));
            let slack = t->mag + 0x20_0000_0000_0000 * 60;
            &&& minutes <= u64::MAX
            &&& 0x20_0000_0000_0000 * (shown - t->mag) <= slack
            &&& minutes < u64::MAX ==> 0x20_0000_0000_0000 * (t->mag - shown - 60 * pow2(1074))
                <= slack
        }),
{
    let one = pow2(1074);
    let mag = t->mag;
    lemma2_to64();
    lemma2_to64_rest();
    lemma_pow2_pos(1074);
    lemma_small_int(Format::Double, 60);
    lemma_round_to_scale(53, mag, 60, one);
    let q = round_to(53, mag, 60);
    lemma_round_to_relative(53, mag, 60);
    let quotient = t.over(Format::Double, Num::of_int(Format::Double, 60));
    if quotient is Finite {
        crate::number_laws::lemma_whole_below(Format::Double, quotient, u64::MAX as nat);
        let minutes = clock_of(t).0;
        assert((minutes + 1) * one == minutes * one + one) by (nonlinear_arith);
        if minutes == 0 {
            assert(0 * one == 0) by (nonlinear_arith);
        }
    } else {
        lemma_pow2_adds(1024, 1074);
        lemma_pow2_strictly_increases(64, 1024);
        let limit = pow2(1024);
        assert(u64::MAX * one <= limit * one) by (nonlinear_arith)
            requires
                u64::MAX <= limit,
                one > 0,
        ;
    }
}

/// Two roundings, one after the other.
proof fn lemma_share_errors(t: int, q: int, m: int, full: int, one: int, b: int)
    requires
        t >= 0,
        q >= 0,
        m >= 0,
        full > 0,
        one > 0,
        b >= 1,
        0x20_0000_0000_0000 * (q * full - t * one) <= t * one + 0x10_0000_0000_0000 * full,
        0x20_0000_0000_0000 * (t * one - q * full) <= t * one + 0x10_0000_0000_0000 * full,
        0x100_0000 * (m * b - q) <= q + 0x80_0000 * b,
        0x100_0000 * (q - m * b) <= q + 0x80_0000 * b,
    ensures
        0x40_0000 * distance((m * b) * full, t * one) <= t * one + 0x80_0000 * (b * full),
{
    let x = q * full;
    let y = (m * b) * full;
    let bf = b * full;
    let w = t * one;
    assert(0x100_0000 * (y - x) <= x + 0x80_0000 * bf && 0x100_0000 * (x - y) <= x + 0x80_0000 * bf)
        by (nonlinear_arith)
        requires
            0x100_0000 * (m * b - q) <= q + 0x80_0000 * b,
            0x100_0000 * (q - m * b) <= q + 0x80_0000 * b,
            x == q * full,
            y == (m * b) * full,
            bf == b * full,
            full > 0,
    ;
    assert(full <= bf) by (nonlinear_arith)
        requires
            bf == b * full,
            b >= 1,
            full > 0,
    ;
    assert(w >= 0) by (nonlinear_arith)
        requires
            w == t * one,
            t >= 0,
            one > 0,
    ;
}

/// The progress of a video of known length is the time over the length, held between zero
/// and one: times the length it is the time, up to rounding. Of a video of unknown length
/// it is zero.
pub proof fn lemma_progress_is_share(pts: Num, duration: Option<Double>)
    requires
        pts is Finite,
    ensures
        duration is None ==> played_share(pts, duration) == Num::zero(),
        duration matches Some(d) ==> (d@ matches Num::Finite { neg, mag: full } ==> ({
            let share = played_share(pts, duration);
            let t = pts->mag;
            &&& neg || full == 0 ==> share == Num::zero()
            &&& !neg && full > 0 ==> {
                &&& share is Finite
                &&& pts.signed() <= 0 ==> share->mag == 0
                &&& pts.signed() >= full ==> share.signed() == pow2(149)
                &&& 0 <= pts.signed() <= full ==> !share->Finite_neg || share->mag == 0
                &&& 0 <= pts.signed() <= full ==> 0x40_0000 * distance(
                    ((share->mag * pow2(925)) * full) as int,
                    (t * pow2(1074)) as int,
                ) <= t * pow2(1074) + 0x80_0000 * (pow2(925) * full)
            }
        })),
{
    let one = pow2(1074);
    let b = pow2(925);
    let t = pts->mag;
    lemma2_to64();
    lemma2_to64_rest();
    lemma_pow2_pos(1074);
    lemma_pow2_pos(925);
    lemma_pow2_pos(149);
    lemma_pow2_adds(149, 925);
    lemma_pow2_strictly_increases(149, 277);
    lemma_pow2_strictly_increases(1074, 2098);
    lemma_small_int(Format::Double, 1);
    assert(1 * one == one);
    lemma_round_to_exact(24, 1, 149);
    lemma_round_to_scale(24, pow2(149), 1, b);
    assert(1 * b == b);
    lemma_nearest_even_exact(0, b);
    if let Some(d) = duration {
        if let Num::Finite { neg, mag: full } = d@ {
            if neg || full == 0 {
                assert(played_share(pts, duration) == Num::zero());
            }
            if !neg && full > 0 {
                let q = round_to(53, t * one, full);
                lemma_round_to_relative(53, t * one, full);
                lemma_round_to_exact(53, 1, 1074);
                if t >= full {
                    assert(one * full <= (t * one) * 1) by (nonlinear_arith)
                        requires
                            t >= full,
                    ;
                    lemma_round_to_monotone(53, one, 1, t * one, full);
                }
                if t <= full {
                    assert((t * one) * 1 <= one * full) by (nonlinear_arith)
                        requires
                            t <= full,
                    ;
                    lemma_round_to_monotone(53, t * one, full, one, 1);
                }
                if t == 0 {
                    assert(0 * one == 0) by (nonlinear_arith);
                    lemma_nearest_even_exact(0, full);
                }
                let share = played_share(pts, duration);
                let wide = pts.over(Format::Double, d@).clamped(
                    Num::zero(),
                    Num::of_int(Format::Double, 1),
                );
                assert(share == wide.narrowed());
                if pts.signed() <= 0 {
                    assert(wide is Finite && wide->mag == 0);
                    assert(share is Finite && share->mag == 0);
                }
                if pts.signed() >= full {
                    assert(wide == Num::of_int(Format::Double, 1));
                    assert(share.signed() == pow2(149));
                }
                if 0 <= pts.signed() <= full {
                    let m = round_to(24, q, b);
                    lemma_round_to_relative(24, q, b);
                    assert(q * 1 <= pow2(149) * b);
                    lemma_round_to_monotone(24, q, b, pow2(149), 1);
                    lemma_share_errors(t as int, q as int, m as int, full as int, one as int, b as int);
                    assert(wide is Finite && wide->mag == q);
                    assert(share->mag == m);
                    assert(!share->Finite_neg || share->mag == 0);
                }
            }
        }
    }
}

/// While a video of known length is being played, its progress is taken in two steps, each
/// of which gives the nearest there is: the double nearest to the time over the length, and
/// the single nearest to that.
pub proof fn lemma_progress_nearest(pts: Num, length: Double) -> (quotient: nat)
    requires
        pts is Finite,
        length@ is Finite,
        0 <= pts.signed() <= length@.signed(),
        length@.signed() > 0,
    ensures
        nearest_to(Format::Double, quotient, pts->mag * pow2(1074), length@->mag),
        nearest_to(
            Format::Single,
            played_share(pts, Some(length))->mag,
            quotient,
            pow2(925),
        ),
{
    let one = pow2(1074);
    let b = pow2(925);
    let t = pts->mag;
    let full = length@->mag;
    lemma2_to64();
    lemma2_to64_rest();
    lemma_pow2_pos(1074);
    lemma_pow2_pos(925);
    lemma_pow2_strictly_increases(1074, 2098);
    lemma_small_int(Format::Double, 1);
    assert(1 * one == one);
    lemma_progress_is_share(pts, Some(length));
    let q = round_to(53, t * one, full);
    assert((t * one) * 1 <= one * full) by (nonlinear_arith)
        requires
            t <= full,
    ;
    lemma_round_to_monotone(53, t * one, full, one, 1);
    lemma_round_to_exact(53, 1, 1074);
    let wide = pts.over(Format::Double, length@).clamped(
        Num::zero(),
        Num::of_int(Format::Double, 1),
    );
    assert(wide is Finite && wide->mag == q) by {
        if t == 0 {
            assert(0 * one == 0) by (nonlinear_arith);
            lemma_nearest_even_exact(0, full);
        }
    }
    lemma_nearest_to(Format::Double, false, t * one, full);
    lemma_nearest_to(Format::Single, wide->Finite_neg, q, b);
    q
}

} // verus!
