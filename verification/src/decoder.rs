//! Decoded frames, and the course of a decoding run.
//!
//! The media library is driven from outside: [`DecodeLoop`] says what to do
//! next, and is told what came of it.

use crate::double::Double;
use crate::frame_laws::lemma_ratio_close;
use crate::number::{lemma_small_int, Format, Num};
use crate::number_laws::distance;
use crate::single::{single_num, Single};
use vstd::arithmetic::div_mod::lemma_fundamental_div_mod_converse;
use vstd::arithmetic::power2::{
    lemma2_to64, lemma_pow2_pos, lemma_pow2_strictly_increases, pow2,
};
use vstd::prelude::*;

verus! {

/// A single decoded video frame in packed RGBA format.
pub struct VideoFrame {
    pub rgba: Vec<u8>,
    pub width: u32,
    pub height: u32,
    /// Presentation timestamp in seconds.
    pub pts_secs: Double,
    /// Length of the whole video in seconds, where it is known.
    pub duration_secs: Option<Double>,
}

/// Which frames of a video are decoded and analysed.
#[derive(Clone, Copy, Debug, PartialEq, Eq, Structural)]
pub enum AnalysisMode {
    /// Every frame is decoded; a number of them per second of video time is
    /// analysed.
    Full,
    /// Only key frames are decoded, and all of them are analysed.
    Fast,
}

/// The first `4 * width` bytes of each of `height` rows that are `stride` bytes
/// apart.
pub open spec fn packed_rows(raw: Seq<u8>, stride: int, width: int, height: int) -> Seq<u8> {
    Seq::new(
        (height * (4 * width)) as nat,
        |i: int| raw[(i / (4 * width)) * stride + i % (4 * width)],
    )
}

/// Every row lies in the buffer.
pub open spec fn rows_fit(len: nat, stride: int, width: int, height: int) -> bool {
    height > 0 ==> (height - 1) * stride + 4 * width <= len
}

/// Whether every row lies in a buffer of `len` bytes.
pub fn can_pack(len: usize, stride: usize, width: u32, height: u32) -> (r: bool)
    ensures
        r == rows_fit(len as nat, stride as int, width as int, height as int),
{
    if height == 0 {
        return true;
    }
    assert(0 <= (height - 1) * stride <= u32::MAX as int * u64::MAX as int) by (nonlinear_arith)
        requires
            1 <= height <= u32::MAX,
            0 <= stride <= u64::MAX,
    ;
    (height as u128 - 1) * stride as u128 + 4 * width as u128 <= len as u128
}

/// Strip the padding between the rows of a picture.
pub fn pack_rows(raw: &[u8], stride: usize, width: u32, height: u32) -> (rgba: Vec<u8>)
    requires
        rows_fit(raw@.len(), stride as int, width as int, height as int),
    ensures
        rgba@ == packed_rows(raw@, stride as int, width as int, height as int),
{
    let mut rgba: Vec<u8> = Vec::new();
    if height == 0 || width == 0 {
        proof {
            assert(height * (4 * width) == 0) by (nonlinear_arith)
                requires
                    height == 0 || width == 0,
            ;
            assert(rgba@ =~= packed_rows(raw@, stride as int, width as int, height as int));
        }
        return rgba;
    }
    proof {
        assert(raw@.len() == raw.len());
        assert(0 <= (height - 1) * stride) by (nonlinear_arith)
            requires
                height >= 1,
                stride >= 0,
        ;
    }
    let line: usize = 4 * width as usize;
    let mut row: usize = 0;
    let mut start: usize = 0;
    while row < height as usize
        invariant
            row <= height,
            line == 4 * width,
            line > 0,
            raw@.len() <= usize::MAX,
            height >= 1,
            rows_fit(raw@.len(), stride as int, width as int, height as int),
            row < height ==> start == row * stride,
            rgba@.len() == row * line,
            forall|i: int|
                0 <= i < row * line ==> rgba@[i] == raw@[(i / line as int) * stride + i % line as int],
        decreases height - row,
    {
        let ghost before = rgba@;
        proof {
            assert(row * stride + line <= raw@.len()) by (nonlinear_arith)
                requires
                    row + 1 <= height,
                    (height - 1) * stride + line <= raw@.len(),
                    stride >= 0,
            ;
            assert((row + 1) * line == row * line + line) by (nonlinear_arith);
            assert(0 <= row * stride) by (nonlinear_arith);
        }
        let mut k: usize = 0;
        while k < line
            invariant
                k <= line,
                start + line <= raw@.len() <= usize::MAX,
                before.len() == row * line,
                rgba@.len() == before.len() + k,
                forall|i: int| 0 <= i < before.len() ==> rgba@[i] == before[i],
                forall|i: int|
                    before.len() <= i < before.len() + k ==> #[trigger] rgba@[i] == raw@[start + i
                        - before.len()],
            decreases line - k,
        {
            rgba.push(raw[start + k]);
            k = k + 1;
        }
        assert forall|i: int| 0 <= i < (row + 1) * line implies rgba@[i] == raw@[(i / line as int)
            * stride + i % line as int] by {
            if i < row * line {
                assert(rgba@[i] == before[i]);
            } else {
                let j = i - row * line;
                assert(i == row * line + j);
                lemma_fundamental_div_mod_converse(
                    i,
                    line as int,
                    row as int,
                    j,
                );
                assert(rgba@[i] == raw@[start + j]);
            }
        }
        row = row + 1;
        if row < height as usize {
            proof {
                assert(row * stride == (row - 1) * stride + stride) by (nonlinear_arith);
                assert(row * stride <= (height - 1) * stride) by (nonlinear_arith)
                    requires
                        row <= height - 1,
                        stride >= 0,
                ;
            }
            start = start + stride;
        }
    }
    proof {
        assert(row * line == height * (4 * width));
        assert(rgba@ =~= packed_rows(raw@, stride as int, width as int, height as int));
    }
    rgba
}

/// The unit of a stream's timestamps in seconds, `num / den`.
pub fn time_base(num: i32, den: i32) -> (tb: Double)
    ensures
        tb@ == Num::of_int(Format::Double, num as int).over(
            Format::Double,
            Num::of_int(Format::Double, den as int),
        ),
        num > 0 && den > 0 ==> (tb@ matches Num::Finite { neg: false, mag } && 0x8_0000_0000_0000
            * distance(mag * den, num * pow2(1074)) <= num * pow2(1074)),
{
    proof {
        if num > 0 && den > 0 {
            lemma_ratio_close(num as nat, den as nat);
        }
    }
    Double::of_int(num as i64).over(Double::of_int(den as i64))
}

/// The length in seconds of a video whose container gives it in millionths of a
/// second; a container that does not know it gives nothing positive.
pub fn video_duration(micros: i64) -> (d: Option<Double>)
    ensures
        match d {
            Some(d) => micros > 0 && d@ == Num::of_int(Format::Double, micros as int).over(
                Format::Double,
                Num::of_int(Format::Double, 1_000_000),
            ) && (d@ matches Num::Finite { neg: false, mag } && 0x8_0000_0000_0000 * distance(
                1_000_000 * mag as int,
                micros * pow2(1074),
            ) <= micros * pow2(1074)),
            None => micros <= 0,
        },
{
    proof {
        if micros > 0 {
            lemma_ratio_close(micros as nat, 1_000_000);
        }
    }
    if micros > 0 {
        Some(Double::of_int(micros).over(Double::of_int(1_000_000)))
    } else {
        None
    }
}

/// The time of a frame: its timestamp in the stream's unit, or its number at
/// thirty frames per second where it has none.
pub open spec fn frame_time(pts: Option<i64>, tb: Num, index: u64) -> Num {
    match pts {
        Some(p) => Num::of_int(Format::Double, p as int).times(Format::Double, tb),
        None => Num::of_int(Format::Double, index as int).over(
            Format::Double,
            Num::of_int(Format::Double, 30),
        ),
    }
}

/// The time of a frame in seconds.
pub fn pts_secs(pts: Option<i64>, tb: Double, index: u64) -> (t: Double)
    ensures
        t@ == frame_time(pts, tb@, index),
{
    match pts {
        Some(p) => Double::of_int(p).times(tb),
        None => Double::of_count(index).over(Double::of_int(30)),
    }
}

/// A frame out of the rows of a converted picture.
pub fn make_frame(
    raw: &[u8],
    stride: usize,
    width: u32,
    height: u32,
    pts: Option<i64>,
    tb: Double,
    index: u64,
    duration_secs: Option<Double>,
) -> (frame: VideoFrame)
    requires
        rows_fit(raw@.len(), stride as int, width as int, height as int),
    ensures
        frame.rgba@ == packed_rows(raw@, stride as int, width as int, height as int),
        frame.width == width,
        frame.height == height,
        frame.pts_secs@ == frame_time(pts, tb@, index),
        frame.duration_secs == duration_secs,
{
    VideoFrame {
        rgba: pack_rows(raw, stride, width, height),
        width,
        height,
        pts_secs: pts_secs(pts, tb, index),
        duration_secs,
    }
}

/// The lowest sampling rate, 0.1 per second.
pub const MIN_RATE: u32 = 0x3dcc_cccd;

/// Below every number.
pub const BEFORE_ALL: u64 = 0xfff0_0000_0000_0000;

/// The seconds between two samples at the given rate: `1 / max(rate, 0.1)` in
/// double precision.
pub open spec fn sampling_interval(rate: Num) -> Num {
    Num::of_int(Format::Double, 1).over(
        Format::Double,
        rate.larger(single_num(MIN_RATE)).widened(),
    )
}

/// Picks the frames that are analysed.
pub struct FrameSampler {
    pub mode: AnalysisMode,
    /// Seconds of video time between two samples.
    pub interval: Double,
    /// The time of the last sample; before the first one, below every time.
    pub last: Double,
}

impl FrameSampler {
    /// A frame at time `pts` is analysed.
    pub open spec fn takes(self, pts: Num) -> bool {
        match self.mode {
            AnalysisMode::Full => pts.minus(Format::Double, self.last@).at_least(self.interval@),
            AnalysisMode::Fast => true,
        }
    }

    /// The sampler after a frame at time `pts`.
    pub open spec fn past(self, pts: Double) -> FrameSampler {
        if self.takes(pts@) {
            FrameSampler { last: pts, ..self }
        } else {
            self
        }
    }

    /// Sample `analysis_fps` frames per second of video time.
    pub fn new(mode: AnalysisMode, analysis_fps: Single) -> (r: FrameSampler)
        ensures
            r.mode == mode,
            r.interval@ == sampling_interval(analysis_fps@),
            r.last@ == (Num::Infinite { neg: true }),
    {
        let rate: Single = analysis_fps.larger(Single::from_bits(MIN_RATE));
        FrameSampler {
            mode,
            interval: Double::of_int(1).over(rate.widened()),
            last: Double::from_bits(BEFORE_ALL),
        }
    }

    /// Whether the frame at time `pts` is analysed.
    pub fn take(&mut self, pts: Double) -> (r: bool)
        ensures
            r == old(self).takes(pts@),
            *final(self) == old(self).past(pts),
    {
        let due = match self.mode {
            AnalysisMode::Full => pts.minus(self.last).at_least(self.interval),
            AnalysisMode::Fast => true,
        };
        if due {
            self.last = pts;
        }
        due
    }
}

/// The first frame is always analysed, whatever the rate, unless its time is not
/// a number or below every number.
pub proof fn lemma_first_frame_taken(sampler: FrameSampler, rate: Num, pts: Num)
    requires
        sampler.interval@ == sampling_interval(rate),
        sampler.last@ == (Num::Infinite { neg: true }),
        pts is Finite || pts == (Num::Infinite { neg: false }),
    ensures
        sampler.takes(pts),
{
    let r = rate.larger(single_num(MIN_RATE));
    assert(MIN_RATE % 0x8000_0000 == MIN_RATE);
    assert(MIN_RATE / 0x80_0000 == 123);
    lemma_pow2_pos(122);
    lemma_pow2_pos(925);
    let low = (0x80_0000 + MIN_RATE % 0x80_0000) as nat * pow2(122);
    assert(low > 0) by (nonlinear_arith)
        requires
            low == (0x80_0000 + MIN_RATE % 0x80_0000) as nat * pow2(122),
            pow2(122) > 0,
    ;
    assert(single_num(MIN_RATE) == (Num::Finite { neg: false, mag: low }));
    assert(r is Finite || r == (Num::Infinite { neg: false }));
    if let Num::Finite { neg, mag } = r {
        assert(!neg && mag >= low);
        let wide = mag * pow2(925);
        assert(wide > 0) by (nonlinear_arith)
            requires
                wide == mag * pow2(925),
                mag > 0,
                pow2(925) > 0,
        ;
    }
    lemma2_to64();
    lemma_pow2_strictly_increases(1, 53);
    lemma_small_int(Format::Double, 1);
    assert(!(sampling_interval(rate) is NotANumber));
}

/// Two samples that follow each other are at least the interval apart.
pub proof fn lemma_samples_apart(sampler: FrameSampler, first: Double, second: Num)
    requires
        sampler.mode is Full,
        sampler.takes(first@),
        sampler.past(first).takes(second),
    ensures
        second.minus(Format::Double, first@).at_least(sampler.interval@),
{
}

/// Which decoded frames are converted and handed on.
#[derive(Clone, Copy, Debug, PartialEq, Eq, Structural)]
pub enum Selection {
    /// All of them; only the ones handed on are counted.
    All,
    /// Each whose number is a multiple of this; all decoded ones are counted.
    EveryNth(u64),
}

/// What came of the last step.
#[derive(Clone, Copy, Debug, PartialEq, Eq, Structural)]
pub enum DecodeEvent {
    /// A packet of the given stream was read, and may start at a key frame.
    Packet { stream: usize, key: bool },
    /// The file is at its end.
    NoMorePackets,
    PacketSent,
    PacketRefused,
    EofSent,
    /// The decoder gave a frame.
    Frame,
    /// The decoder has no frame ready.
    NoFrame,
    Converted,
    ConversionFailed,
    /// The frame was handed on.
    Delivered,
    /// The receiver is busy, and the frame is not shown.
    Dropped,
    ReceiverGone,
}

/// What to do next.
#[derive(Clone, Copy, Debug, PartialEq, Eq, Structural)]
pub enum DecodeStep {
    ReadPacket,
    /// Hand the packet to the decoder.
    SendPacket,
    /// Tell the decoder that the packet just read was the last one.
    SendEof,
    ReceiveFrame,
    /// Convert the frame to packed RGBA.
    ConvertFrame,
    /// Hand on the converted frame, which has this number.
    DeliverFrame { index: u64 },
    /// Report the end of the video.
    Finish,
    /// Nobody is listening any more.
    Stop,
}

/// How far a decoding run has come.
#[derive(Clone, Copy, Debug, PartialEq, Eq, Structural)]
pub enum DecodeStage {
    Reading,
    Sending,
    Ending,
    Receiving,
    Converting,
    Delivering,
    Finished,
    Stopped,
}

/// The course of a decoding run.
#[derive(Clone, Copy, Debug, PartialEq, Eq, Structural)]
pub struct DecodeLoop {
    /// The video stream.
    pub stream: usize,
    /// Only packets that start at a key frame are decoded.
    pub keys_only: bool,
    pub selection: Selection,
    pub stage: DecodeStage,
    /// All packets have been read.
    pub ended: bool,
    /// The number of the next frame.
    pub frames: u64,
}

impl DecodeLoop {
    /// The event may follow the last step.
    pub open spec fn expects(self, event: DecodeEvent) -> bool {
        match self.stage {
            DecodeStage::Reading => event is Packet || event is NoMorePackets,
            DecodeStage::Sending => event is PacketSent || event is PacketRefused,
            DecodeStage::Ending => event is EofSent,
            DecodeStage::Receiving => event is Frame || event is NoFrame,
            DecodeStage::Converting => event is Converted || event is ConversionFailed,
            DecodeStage::Delivering => event is Delivered || event is Dropped
                || event is ReceiverGone,
            DecodeStage::Finished => false,
            DecodeStage::Stopped => false,
        }
    }

    /// The next frame is one of those handed on.
    pub open spec fn wants_frame(self) -> bool {
        match self.selection {
            Selection::All => true,
            Selection::EveryNth(n) => self.frames % n == 0,
        }
    }

    pub open spec fn at(self, stage: DecodeStage) -> DecodeLoop {
        DecodeLoop { stage, ..self }
    }

    /// The state in which the next frame is asked for, after one that counts or
    /// does not.
    pub open spec fn past_frame(self, counts: bool) -> DecodeLoop {
        DecodeLoop {
            stage: DecodeStage::Receiving,
            frames: if counts {
                (self.frames + 1) as u64
            } else {
                self.frames
            },
            ..self
        }
    }

    /// What an event leads to.
    pub open spec fn next(self, event: DecodeEvent) -> (DecodeLoop, DecodeStep) {
        match event {
            DecodeEvent::Packet { stream, key } => if stream == self.stream && (key
                || !self.keys_only) {
                (self.at(DecodeStage::Sending), DecodeStep::SendPacket)
            } else {
                (self, DecodeStep::ReadPacket)
            },
            DecodeEvent::NoMorePackets => (self.at(DecodeStage::Ending), DecodeStep::SendEof),
            DecodeEvent::PacketSent => (
                self.at(DecodeStage::Receiving),
                DecodeStep::ReceiveFrame,
            ),
            DecodeEvent::PacketRefused => (self.at(DecodeStage::Reading), DecodeStep::ReadPacket),
            DecodeEvent::EofSent => (
                DecodeLoop { stage: DecodeStage::Receiving, ended: true, ..self },
                DecodeStep::ReceiveFrame,
            ),
            DecodeEvent::Frame => if self.wants_frame() {
                (self.at(DecodeStage::Converting), DecodeStep::ConvertFrame)
            } else {
                (self.past_frame(true), DecodeStep::ReceiveFrame)
            },
            DecodeEvent::NoFrame => if self.ended {
                (self.at(DecodeStage::Finished), DecodeStep::Finish)
            } else {
                (self.at(DecodeStage::Reading), DecodeStep::ReadPacket)
            },
            DecodeEvent::Converted => (
                self.at(DecodeStage::Delivering),
                DecodeStep::DeliverFrame { index: self.frames },
            ),
            DecodeEvent::ConversionFailed => (
                self.past_frame(self.selection is EveryNth),
                DecodeStep::ReceiveFrame,
            ),
            DecodeEvent::Delivered => (self.past_frame(true), DecodeStep::ReceiveFrame),
            DecodeEvent::Dropped => (self.past_frame(true), DecodeStep::ReceiveFrame),
            DecodeEvent::ReceiverGone => (self.at(DecodeStage::Stopped), DecodeStep::Stop),
        }
    }

    /// A run at its beginning; the first step is to read a packet.
    pub open spec fn started(stream: usize, keys_only: bool, selection: Selection) -> DecodeLoop {
        DecodeLoop {
            stream,
            keys_only,
            selection,
            stage: DecodeStage::Reading,
            ended: false,
            frames: 0,
        }
    }

    /// A sampled run has a step to sample by.
    pub open spec fn wf(self) -> bool {
        self.selection matches Selection::EveryNth(n) ==> n > 0
    }

    /// Hand on every frame. In fast mode only key frames are decoded.
    pub fn new(stream: usize, mode: AnalysisMode) -> (r: DecodeLoop)
        ensures
            r == DecodeLoop::started(stream, mode is Fast, Selection::All),
            r.wf(),
    {
        DecodeLoop {
            stream,
            keys_only: mode == AnalysisMode::Fast,
            selection: Selection::All,
            stage: DecodeStage::Reading,
            ended: false,
            frames: 0,
        }
    }

    /// Hand on every `skip`-th frame, beginning with the first; zero counts as
    /// one.
    pub fn sampled(stream: usize, skip: usize) -> (r: DecodeLoop)
        ensures
            r == DecodeLoop::started(
                stream,
                false,
                Selection::EveryNth(
                    if skip == 0 {
                        1
                    } else {
                        skip as u64
                    },
                ),
            ),
            r.wf(),
    {
        let n: u64 = if skip == 0 {
            1
        } else {
            skip as u64
        };
        DecodeLoop {
            stream,
            keys_only: false,
            selection: Selection::EveryNth(n),
            stage: DecodeStage::Reading,
            ended: false,
            frames: 0,
        }
    }

    /// Take note of what came of the last step, and say what to do next.
    pub fn step(&mut self, event: DecodeEvent) -> (r: DecodeStep)
        requires
            old(self).wf(),
            old(self).expects(event),
            old(self).frames < u64::MAX,
        ensures
            (*final(self), r) == old(self).next(event),
            final(self).wf(),
    {
        match event {
            DecodeEvent::Packet { stream, key } => {
                if stream == self.stream && (key || !self.keys_only) {
                    self.stage = DecodeStage::Sending;
                    DecodeStep::SendPacket
                } else {
                    DecodeStep::ReadPacket
                }
            },
            DecodeEvent::NoMorePackets => {
                self.stage = DecodeStage::Ending;
                DecodeStep::SendEof
            },
            DecodeEvent::PacketSent => {
                self.stage = DecodeStage::Receiving;
                DecodeStep::ReceiveFrame
            },
            DecodeEvent::PacketRefused => {
                self.stage = DecodeStage::Reading;
                DecodeStep::ReadPacket
            },
            DecodeEvent::EofSent => {
                self.ended = true;
                self.stage = DecodeStage::Receiving;
                DecodeStep::ReceiveFrame
            },
            DecodeEvent::Frame => {
                let wanted = match self.selection {
                    Selection::All => true,
                    Selection::EveryNth(n) => self.frames % n == 0,
                };
                if wanted {
                    self.stage = DecodeStage::Converting;
                    DecodeStep::ConvertFrame
                } else {
                    self.frames = self.frames + 1;
                    self.stage = DecodeStage::Receiving;
                    DecodeStep::ReceiveFrame
                }
            },
            DecodeEvent::NoFrame => {
                if self.ended {
                    self.stage = DecodeStage::Finished;
                    DecodeStep::Finish
                } else {
                    self.stage = DecodeStage::Reading;
                    DecodeStep::ReadPacket
                }
            },
            DecodeEvent::Converted => {
                self.stage = DecodeStage::Delivering;
                DecodeStep::DeliverFrame { index: self.frames }
            },
            DecodeEvent::ConversionFailed => {
                match self.selection {
                    Selection::All => {},
                    Selection::EveryNth(_) => {
                        self.frames = self.frames + 1;
                    },
                }
                self.stage = DecodeStage::Receiving;
                DecodeStep::ReceiveFrame
            },
            DecodeEvent::Delivered | DecodeEvent::Dropped => {
                self.frames = self.frames + 1;
                self.stage = DecodeStage::Receiving;
                DecodeStep::ReceiveFrame
            },
            DecodeEvent::ReceiverGone => {
                self.stage = DecodeStage::Stopped;
                DecodeStep::Stop
            },
        }
    }

    /// The state after a sequence of events.
    pub open spec fn after(self, events: Seq<DecodeEvent>) -> DecodeLoop
        decreases events.len(),
    {
        if events.len() == 0 {
            self
        } else {
            self.after(events.drop_last()).next(events.last()).0
        }
    }

    /// Each of the events could follow the ones before it.
    pub open spec fn allows(self, events: Seq<DecodeEvent>) -> bool
        decreases events.len(),
    {
        events.len() > 0 ==> {
            &&& self.allows(events.drop_last())
            &&& self.after(events.drop_last()).expects(events.last())
            &&& self.after(events.drop_last()).frames < u64::MAX
        }
    }

    /// A decoded frame is being worked on.
    pub open spec fn busy(self) -> bool {
        self.stage is Converting || self.stage is Delivering || self.stage is Stopped
    }
}

/// How often an event occurred.
pub open spec fn occurrences(events: Seq<DecodeEvent>, event: DecodeEvent) -> nat
    decreases events.len(),
{
    if events.len() == 0 {
        0
    } else {
        occurrences(events.drop_last(), event) + if events.last() == event {
            1nat
        } else {
            0
        }
    }
}

/// No frame is lost: every frame that the decoder gave was handed on or dropped
/// by a busy receiver, could not be converted, or is the one being worked on; and
/// the converted frames are numbered one after the other.
pub proof fn lemma_every_frame_delivered(start: DecodeLoop, events: Seq<DecodeEvent>)
    requires
        start == DecodeLoop::started(start.stream, start.keys_only, Selection::All),
        start.allows(events),
    ensures
        start.after(events).selection is All,
        start.after(events).frames == occurrences(events, DecodeEvent::Delivered) + occurrences(
            events,
            DecodeEvent::Dropped,
        ),
        occurrences(events, DecodeEvent::Frame) == start.after(events).frames + occurrences(
            events,
            DecodeEvent::ConversionFailed,
        ) + if start.after(events).busy() {
            1nat
        } else {
            0
        },
    decreases events.len(),
{
    if events.len() > 0 {
        lemma_every_frame_delivered(start, events.drop_last());
    }
}

/// The events are the same, but for which frames a busy receiver dropped.
pub open spec fn alike(a: Seq<DecodeEvent>, b: Seq<DecodeEvent>) -> bool {
    a.len() == b.len() && forall|k: int|
        0 <= k < a.len() ==> #[trigger] a[k] == b[k] || (a[k] is Delivered || a[k] is Dropped) && (
        b[k] is Delivered || b[k] is Dropped)
}

/// Which frames a busy receiver drops makes no difference to the run: it takes the
/// same course, and converts the same frames with the same numbers.
pub proof fn lemma_course_ignores_drops(
    start: DecodeLoop,
    a: Seq<DecodeEvent>,
    b: Seq<DecodeEvent>,
)
    requires
        alike(a, b),
    ensures
        start.after(a) == start.after(b),
        start.allows(a) == start.allows(b),
        occurrences(a, DecodeEvent::Converted) == occurrences(b, DecodeEvent::Converted),
    decreases a.len(),
{
    if a.len() > 0 {
        assert(alike(a.drop_last(), b.drop_last())) by {
            assert forall|k: int| 0 <= k < a.len() - 1 implies #[trigger] a.drop_last()[k]
                == b.drop_last()[k] || (a.drop_last()[k] is Delivered
                || a.drop_last()[k] is Dropped) && (b.drop_last()[k] is Delivered
                || b.drop_last()[k] is Dropped) by {
                assert(a[k] == a.drop_last()[k]);
            }
        }
        lemma_course_ignores_drops(start, a.drop_last(), b.drop_last());
        assert(a[a.len() - 1] == a.last());
    }
}

/// The numbers of the frames that were handed on and not dropped.
pub open spec fn shown(start: DecodeLoop, events: Seq<DecodeEvent>) -> Seq<u64>
    decreases events.len(),
{
    if events.len() == 0 {
        Seq::empty()
    } else {
        let before = shown(start, events.drop_last());
        if events.last() is Delivered {
            before.push(start.after(events.drop_last()).frames)
        } else {
            before
        }
    }
}

/// What is shown of a video is in order, with nothing twice: the numbers of the
/// frames grow.
pub proof fn lemma_shown_in_order(start: DecodeLoop, events: Seq<DecodeEvent>)
    requires
        start.allows(events),
    ensures
        shown(start, events).len() == occurrences(events, DecodeEvent::Delivered),
        forall|i: int|
            0 <= i < shown(start, events).len() ==> #[trigger] shown(start, events)[i]
                < start.after(events).frames,
        forall|i: int, j: int|
            0 <= i < j < shown(start, events).len() ==> #[trigger] shown(start, events)[i]
                < #[trigger] shown(start, events)[j],
    decreases events.len(),
{
    if events.len() > 0 {
        lemma_shown_in_order(start, events.drop_last());
    }
}

/// How many of the numbers below `count` are multiples of `n`.
pub open spec fn multiples_below(n: nat, count: nat) -> nat
    decreases count,
{
    if count == 0 {
        0
    } else {
        multiples_below(n, (count - 1) as nat) + if (count - 1) % (n as int) == 0 {
            1nat
        } else {
            0
        }
    }
}

/// A sampled run tries to convert exactly the decoded frames whose number is a
/// multiple of the step, and hands on those that it could convert.
pub proof fn lemma_every_nth_frame_sampled(start: DecodeLoop, events: Seq<DecodeEvent>, n: u64)
    requires
        n > 0,
        start == DecodeLoop::started(start.stream, start.keys_only, Selection::EveryNth(n)),
        start.allows(events),
    ensures
        start.after(events).selection == Selection::EveryNth(n),
        occurrences(events, DecodeEvent::Frame) == start.after(events).frames + if start.after(
            events,
        ).busy() {
            1nat
        } else {
            0
        },
        start.after(events).busy() ==> start.after(events).frames % n == 0,
        occurrences(events, DecodeEvent::Delivered) + occurrences(events, DecodeEvent::Dropped)
            + occurrences(events, DecodeEvent::ConversionFailed) + (if start.after(events).busy() {
            1nat
        } else {
            0
        }) == multiples_below(n as nat, occurrences(events, DecodeEvent::Frame)),
    decreases events.len(),
{
    if events.len() > 0 {
        lemma_every_nth_frame_sampled(start, events.drop_last(), n);
        let before = start.after(events.drop_last());
        if events.last() is Frame {
            assert(multiples_below(n as nat, (before.frames + 1) as nat) == multiples_below(
                n as nat,
                before.frames as nat,
            ) + if before.frames % n == 0 {
                1nat
            } else {
                0
            });
        }
    }
}

/// A run ends only when the receiver is gone, or when the file is at its end
/// and the decoder has given all its frames; after that nothing more happens.
pub proof fn lemma_finishes_after_flush(start: DecodeLoop, events: Seq<DecodeEvent>)
    requires
        start == DecodeLoop::started(start.stream, start.keys_only, start.selection),
        start.allows(events),
    ensures
        start.after(events).ended ==> occurrences(events, DecodeEvent::NoMorePackets) == 1
            && occurrences(events, DecodeEvent::EofSent) == 1,
        start.after(events).stage is Finished ==> start.after(events).ended && events.len() > 0
            && events.last() is NoFrame,
        start.after(events).stage is Stopped ==> events.len() > 0 && events.last() is ReceiverGone,
        start.after(events).stage is Ending ==> occurrences(events, DecodeEvent::NoMorePackets) == 1
            && occurrences(events, DecodeEvent::EofSent) == 0,
        !start.after(events).ended && !(start.after(events).stage is Ending) ==> occurrences(
            events,
            DecodeEvent::NoMorePackets,
        ) == 0 && occurrences(events, DecodeEvent::EofSent) == 0,
        start.after(events).ended ==> !(start.after(events).stage is Reading
            || start.after(events).stage is Sending || start.after(events).stage is Ending),
    decreases events.len(),
{
    if events.len() > 0 {
        lemma_finishes_after_flush(start, events.drop_last());
    }
}

/// How a decoding run came to its end.
#[derive(Clone, Copy, Debug, PartialEq, Eq, Structural)]
pub enum RunEnd {
    /// The file could not be opened.
    NotOpened,
    /// Nobody was listening any more.
    Stopped,
    /// The file was decoded to its end.
    Finished,
}

/// What is sent once no more frames follow.
#[derive(Clone, Copy, Debug, PartialEq, Eq)]
pub enum ClosingMessage {
    /// The region that the analysis has found, to whoever waits for it.
    Region(Option<[u32; 4]>),
    /// The end of the video, to the display.
    EndOfVideo,
}

/// What is sent at the end of a run, in order; `region` is the result of the
/// analysis, where the run has one. The result comes right behind the last frame,
/// before the end of the video.
pub open spec fn closing(end: RunEnd, region: Option<Option<[u32; 4]>>) -> Seq<ClosingMessage> {
    match (end, region) {
        (RunEnd::NotOpened, None) => seq![ClosingMessage::EndOfVideo],
        (RunEnd::NotOpened, Some(_)) => seq![
            ClosingMessage::EndOfVideo,
            ClosingMessage::Region(None),
        ],
        (RunEnd::Stopped, None) => seq![],
        (RunEnd::Stopped, Some(region)) => seq![ClosingMessage::Region(region)],
        (RunEnd::Finished, None) => seq![ClosingMessage::EndOfVideo],
        (RunEnd::Finished, Some(region)) => seq![
            ClosingMessage::Region(region),
            ClosingMessage::EndOfVideo,
        ],
    }
}

/// What to send at the end of a run, in order.
pub fn closing_messages(end: RunEnd, region: Option<Option<[u32; 4]>>) -> (r: Vec<
    ClosingMessage,
>)
    ensures
        r@ == closing(end, region),
{
    let mut r: Vec<ClosingMessage> = Vec::new();
    match end {
        RunEnd::NotOpened => {
            r.push(ClosingMessage::EndOfVideo);
            if region.is_some() {
                r.push(ClosingMessage::Region(None));
            }
        },
        RunEnd::Stopped => {
            if let Some(found) = region {
                r.push(ClosingMessage::Region(found));
            }
        },
        RunEnd::Finished => {
            if let Some(found) = region {
                r.push(ClosingMessage::Region(found));
            }
            r.push(ClosingMessage::EndOfVideo);
        },
    }
    assert(r@ =~= closing(end, region));
    r
}

/// Whoever waits is told exactly once: each run with an analysis sends one result,
/// each run that was not stopped by the display ends it, and a run to the end of
/// the file sends the result before that.
pub proof fn lemma_closing_complete(end: RunEnd, region: Option<[u32; 4]>)
    ensures
        ({
            let all = closing(end, Some(region));
            &&& all.filter(|m: ClosingMessage| m is Region) == seq![
                ClosingMessage::Region(
                    if end is NotOpened {
                        None
                    } else {
                        region
                    },
                ),
            ]
            &&& all.contains(ClosingMessage::EndOfVideo) == !(end is Stopped)
            &&& end is Finished ==> all[0] is Region && all.last() is EndOfVideo
            &&& closing(end, None) == all.filter(|m: ClosingMessage| m is EndOfVideo)
        }),
{
    let all = closing(end, Some(region));
    reveal_with_fuel(Seq::filter, 3);
    if all.len() == 2 {
        assert(all.drop_last() =~= seq![all[0]]);
        assert(all.drop_last().drop_last() =~= Seq::<ClosingMessage>::empty());
        assert(all[1] == all.last());
    } else {
        assert(all.drop_last() =~= Seq::<ClosingMessage>::empty());
    }
    if !(end is Stopped) {
        assert(all[0] is EndOfVideo || all[1] is EndOfVideo);
    }
    assert(all.filter(|m: ClosingMessage| m is Region) =~= seq![
        ClosingMessage::Region(
            if end is NotOpened {
                None
            } else {
                region
            },
        ),
    ]);
    assert(closing(end, None) =~= all.filter(|m: ClosingMessage| m is EndOfVideo));
}

} // verus!
