//! Cropping a video to a region.
//!
//! Every frame is written, none is skipped. Where the `ffmpeg` program is at
//! hand it does the work; otherwise [`CropLoop`] is the course of re-encoding
//! the file with the media library.

use crate::analysis::blocks_across;
use crate::bbox::{is_bbox, BboxMethod};
use crate::bbox_laws::lemma_region_in_frame;
use crate::decoder::rows_fit;
use crate::text::{append_decimal, decimal};
use vstd::prelude::*;
use vstd::string::StringExecFns;

verus! {

/// A rectangle in pixels.
#[derive(Clone, Copy, Debug, PartialEq, Eq, Structural)]
pub struct Bbox {
    pub x: u32,
    pub y: u32,
    pub w: u32,
    pub h: u32,
}

impl Bbox {
    /// The rectangle `[x, y, w, h]`.
    pub fn new(region: [u32; 4]) -> (r: Bbox)
        ensures
            r.x == region[0],
            r.y == region[1],
            r.w == region[2],
            r.h == region[3],
    {
        Bbox { x: region[0], y: region[1], w: region[2], h: region[3] }
    }
}

/// The filter that cuts out a region, `crop=w:h:x:y`.
pub open spec fn crop_filter_text(region: Bbox) -> Seq<char> {
    "crop="@ + decimal(region.w as nat) + ":"@ + decimal(region.h as nat) + ":"@ + decimal(
        region.x as nat,
    ) + ":"@ + decimal(region.y as nat)
}

/// The filter that cuts out a region.
pub fn crop_filter(region: Bbox) -> (s: String)
    ensures
        s@ == crop_filter_text(region),
{
    let mut s = String::from_str("crop=");
    append_decimal(&mut s, region.w as u64);
    s.append(":");
    append_decimal(&mut s, region.h as u64);
    s.append(":");
    append_decimal(&mut s, region.x as u64);
    s.append(":");
    append_decimal(&mut s, region.y as u64);
    s
}

/// The texts of a list of strings.
pub open spec fn texts(list: Seq<String>) -> Seq<Seq<char>> {
    Seq::new(list.len(), |i: int| list[i]@)
}

/// The arguments with which the program cuts out a region: an existing output is
/// overwritten, and the audio is copied as it is.
pub open spec fn crop_args_text(input: Seq<char>, output: Seq<char>, region: Bbox) -> Seq<Seq<char>> {
    seq![
        "-y"@,
        "-i"@,
        input,
        "-vf"@,
        crop_filter_text(region),
        "-c:a"@,
        "copy"@,
        output,
    ]
}

/// The arguments with which the program cuts out a region.
pub fn crop_args(input: &str, output: &str, region: Bbox) -> (args: Vec<String>)
    ensures
        texts(args@) == crop_args_text(input@, output@, region),
{
    let mut args: Vec<String> = Vec::new();
    args.push(String::from_str("-y"));
    args.push(String::from_str("-i"));
    args.push(String::from_str(input));
    args.push(String::from_str("-vf"));
    args.push(crop_filter(region));
    args.push(String::from_str("-c:a"));
    args.push(String::from_str("copy"));
    args.push(String::from_str(output));
    proof {
        assert(texts(args@) =~= crop_args_text(input@, output@, region));
    }
    args
}

/// How a video is cropped.
pub enum CropPlan {
    /// Run the program with these arguments.
    Program(Vec<String>),
    /// Re-encode with the codec of the input.
    Reencode(Bbox),
}

/// Why the program cannot be run.
#[derive(Clone, Copy, Debug, PartialEq, Eq, Structural)]
pub enum CropError {
    InputNotText,
    OutputNotText,
}

impl CropError {
    pub open spec fn text(self) -> Seq<char> {
        match self {
            CropError::InputNotText => "input path is not valid UTF-8"@,
            CropError::OutputNotText => "output path is not valid UTF-8"@,
        }
    }

    /// What to tell the user.
    pub fn message(self) -> (s: String)
        ensures
            s@ == self.text(),
    {
        match self {
            CropError::InputNotText => String::from_str("input path is not valid UTF-8"),
            CropError::OutputNotText => String::from_str("output path is not valid UTF-8"),
        }
    }
}

/// Decide how to crop `input` to `region`: by the program, where it is
/// available, and otherwise with the media library. A path is `None` where it
/// is not text; only the program needs it to be.
pub fn crop_video(
    program_available: bool,
    input: Option<&str>,
    output: Option<&str>,
    region: Bbox,
) -> (r: Result<CropPlan, CropError>)
    ensures
        !program_available ==> r == Ok::<CropPlan, CropError>(CropPlan::Reencode(region)),
        program_available && input is None ==> r == Err::<CropPlan, CropError>(
            CropError::InputNotText,
        ),
        program_available && input is Some && output is None ==> r == Err::<CropPlan, CropError>(
            CropError::OutputNotText,
        ),
        program_available ==> (input matches Some(i) ==> (output matches Some(o) ==> (r matches Ok(
            CropPlan::Program(args),
        ) && texts(args@) == crop_args_text(i@, o@, region)))),
{
    if !program_available {
        return Ok(CropPlan::Reencode(region));
    }
    let input: &str = match input {
        Some(s) => s,
        None => {
            return Err(CropError::InputNotText);
        },
    };
    let output: &str = match output {
        Some(s) => s,
        None => {
            return Err(CropError::OutputNotText);
        },
    };
    Ok(CropPlan::Program(crop_args(input, output, region)))
}

/// How the program ended.
pub enum ProgramEnd<'a> {
    /// It could not be started.
    NotStarted,
    /// It ran, and left the given status.
    Exited { success: bool, status: &'a str },
}

/// The outcome of cropping by the program: success where it says so, and
/// otherwise what to tell the user.
pub fn program_outcome(end: ProgramEnd) -> (r: Result<(), String>)
    ensures
        match end {
            ProgramEnd::NotStarted => r matches Err(e) && e@
                == "could not start ffmpeg — is it installed?"@,
            ProgramEnd::Exited { success, status } => if success {
                r is Ok
            } else {
                r matches Err(e) && e@ == "ffmpeg exited with "@ + status@
            },
        },
{
    match end {
        ProgramEnd::NotStarted => Err(
            String::from_str("could not start ffmpeg — is it installed?"),
        ),
        ProgramEnd::Exited { success, status } => {
            if success {
                Ok(())
            } else {
                let mut e = String::from_str("ffmpeg exited with ");
                e.append(status);
                Err(e)
            }
        },
    }
}

/// `dst` with `n` bytes of `src` from `from` on in the place of those from `at`
/// on.
pub open spec fn overwritten(dst: Seq<u8>, at: int, src: Seq<u8>, from: int, n: int) -> Seq<u8> {
    Seq::new(
        dst.len(),
        |i: int|
            if at <= i < at + n {
                src[from + i - at]
            } else {
                dst[i]
            },
    )
}

/// `dst` after the first `rows` rows of a region of `src` have been copied to
/// its top left corner.
pub open spec fn rows_copied(
    dst: Seq<u8>,
    dst_stride: int,
    src: Seq<u8>,
    src_stride: int,
    region: Bbox,
    rows: nat,
) -> Seq<u8>
    decreases rows,
{
    if rows == 0 {
        dst
    } else {
        overwritten(
            rows_copied(dst, dst_stride, src, src_stride, region, (rows - 1) as nat),
            (rows - 1) * dst_stride,
            src,
            (region.y + rows - 1) * src_stride + 4 * region.x,
            4 * region.w,
        )
    }
}

/// Every row of the region lies in both pictures.
pub open spec fn region_fits(
    dst_len: nat,
    dst_stride: int,
    src_len: nat,
    src_stride: int,
    region: Bbox,
) -> bool {
    region.h > 0 ==> {
        &&& (region.y + region.h - 1) * src_stride + 4 * region.x + 4 * region.w <= src_len
        &&& (region.h - 1) * dst_stride + 4 * region.w <= dst_len
    }
}

/// Whether every row of the region lies in pictures of the given sizes.
pub fn can_copy(dst_len: usize, dst_stride: usize, src_len: usize, src_stride: usize, region: Bbox) -> (r:
    bool)
    ensures
        r == region_fits(
            dst_len as nat,
            dst_stride as int,
            src_len as nat,
            src_stride as int,
            region,
        ),
{
    if region.h == 0 {
        return true;
    }
    let last: u128 = region.y as u128 + region.h as u128 - 1;
    assert(0 <= last * src_stride <= 2 * u32::MAX as int * u64::MAX as int) by (nonlinear_arith)
        requires
            0 <= last <= 2 * u32::MAX as int,
            0 <= src_stride <= u64::MAX,
    ;
    assert(0 <= (region.h - 1) * dst_stride <= u32::MAX as int * u64::MAX as int)
        by (nonlinear_arith)
        requires
            1 <= region.h <= u32::MAX,
            0 <= dst_stride <= u64::MAX,
    ;
    last * src_stride as u128 + 4 * region.x as u128 + 4 * region.w as u128 <= src_len as u128 && (
    region.h as u128 - 1) * dst_stride as u128 + 4 * region.w as u128 <= dst_len as u128
}

/// Copy the rows of a region of an RGBA picture to the top left corner of
/// another one.
pub fn copy_region(dst: &mut [u8], dst_stride: usize, src: &[u8], src_stride: usize, region: Bbox)
    requires
        region_fits(
            old(dst)@.len(),
            dst_stride as int,
            src@.len(),
            src_stride as int,
            region,
        ),
    ensures
        final(dst)@ == rows_copied(
            old(dst)@,
            dst_stride as int,
            src@,
            src_stride as int,
            region,
            region.h as nat,
        ),
{
    if region.h == 0 {
        return;
    }
    proof {
        assert(src@.len() == src.len());
        assert(dst@.len() == dst.len());
        assert(0 <= (region.y + region.h - 1) * src_stride) by (nonlinear_arith)
            requires
                region.y + region.h - 1 >= 0,
                src_stride >= 0,
        ;
        assert(0 <= (region.h - 1) * dst_stride) by (nonlinear_arith)
            requires
                region.h - 1 >= 0,
                dst_stride >= 0,
        ;
        assert(region.y * src_stride <= (region.y + region.h - 1) * src_stride) by (nonlinear_arith)
            requires
                region.h >= 1,
                src_stride >= 0,
        ;
        assert(0 <= region.y * src_stride) by (nonlinear_arith);
    }
    let line: usize = 4 * region.w as usize;
    let mut at: usize = 0;
    let mut from: usize = region.y as usize * src_stride + 4 * region.x as usize;
    let mut row: u32 = 0;
    while row < region.h
        invariant
            row <= region.h,
            region.h >= 1,
            line == 4 * region.w,
            src@.len() <= usize::MAX,
            old(dst)@.len() <= usize::MAX,
            dst@.len() == old(dst)@.len(),
            region_fits(
                old(dst)@.len(),
                dst_stride as int,
                src@.len(),
                src_stride as int,
                region,
            ),
            row < region.h ==> at == row * dst_stride,
            row < region.h ==> from == (region.y + row) * src_stride + 4 * region.x,
            dst@ == rows_copied(
                old(dst)@,
                dst_stride as int,
                src@,
                src_stride as int,
                region,
                row as nat,
            ),
        decreases region.h - row,
    {
        let ghost before = dst@;
        proof {
            assert(row * dst_stride <= (region.h - 1) * dst_stride) by (nonlinear_arith)
                requires
                    row <= region.h - 1,
                    dst_stride >= 0,
            ;
            assert((region.y + row) * src_stride <= (region.y + region.h - 1) * src_stride)
                by (nonlinear_arith)
                requires
                    row <= region.h - 1,
                    src_stride >= 0,
            ;
        }
        let mut k: usize = 0;
        while k < line
            invariant
                k <= line,
                src@.len() <= usize::MAX,
                dst@.len() <= usize::MAX,
                at + line <= dst@.len(),
                from + line <= src@.len(),
                dst@ == overwritten(before, at as int, src@, from as int, k as int),
            decreases line - k,
        {
            dst[at + k] = src[from + k];
            k = k + 1;
            assert(dst@ =~= overwritten(before, at as int, src@, from as int, k as int));
        }
        row = row + 1;
        assert(dst@ =~= rows_copied(
            old(dst)@,
            dst_stride as int,
            src@,
            src_stride as int,
            region,
            row as nat,
        ));
        if row < region.h {
            proof {
                assert(row * dst_stride == (row - 1) * dst_stride + dst_stride) by (nonlinear_arith);
                assert(row * dst_stride <= (region.h - 1) * dst_stride) by (nonlinear_arith)
                    requires
                        row <= region.h - 1,
                        dst_stride >= 0,
                ;
                assert((region.y + row) * src_stride == (region.y + row - 1) * src_stride
                    + src_stride) by (nonlinear_arith);
                assert((region.y + row) * src_stride <= (region.y + region.h - 1) * src_stride)
                    by (nonlinear_arith)
                    requires
                        row <= region.h - 1,
                        src_stride >= 0,
                ;
            }
            at = at + dst_stride;
            from = from + src_stride;
        }
    }
}

/// The copied part is the region of the source, pixel by pixel, and nothing else
/// of the destination changes.
pub proof fn lemma_region_copied(
    dst: Seq<u8>,
    dst_stride: int,
    src: Seq<u8>,
    src_stride: int,
    region: Bbox,
    rows: nat,
)
    requires
        rows <= region.h,
        region_fits(dst.len(), dst_stride, src.len(), src_stride, region),
        dst_stride >= 4 * region.w,
    ensures
        rows_copied(dst, dst_stride, src, src_stride, region, rows).len() == dst.len(),
        forall|y: int, i: int|
            #![trigger row_byte(y, dst_stride, i)]
            0 <= y < rows && 0 <= i < 4 * region.w ==> {
                &&& 0 <= row_byte(y, dst_stride, i) < dst.len()
                &&& rows_copied(dst, dst_stride, src, src_stride, region, rows)[row_byte(
                    y,
                    dst_stride,
                    i,
                )] == src[row_byte(region.y + y, src_stride, 4 * region.x + i)]
            },
        forall|k: int|
            0 <= k < dst.len() && !(exists|y: int, i: int|
                0 <= y < rows && 0 <= i < 4 * region.w && k == #[trigger] row_byte(
                    y,
                    dst_stride,
                    i,
                )) ==> #[trigger] rows_copied(dst, dst_stride, src, src_stride, region, rows)[k]
                == dst[k],
    decreases rows,
{
    if rows > 0 {
        let prior = (rows - 1) as nat;
        lemma_region_copied(dst, dst_stride, src, src_stride, region, prior);
        let old_dst = rows_copied(dst, dst_stride, src, src_stride, region, prior);
        let new_dst = rows_copied(dst, dst_stride, src, src_stride, region, rows);
        let n = 4 * region.w;
        assert forall|y: int, i: int|
            #![trigger row_byte(y, dst_stride, i)]
            0 <= y < rows && 0 <= i < n implies 0 <= row_byte(y, dst_stride, i) < dst.len()
            && new_dst[row_byte(y, dst_stride, i)] == src[row_byte(
            region.y + y,
            src_stride,
            4 * region.x + i,
        )] by {
            assert(0 <= y * dst_stride <= (region.h - 1) * dst_stride) by (nonlinear_arith)
                requires
                    0 <= y <= region.h - 1,
                    dst_stride >= 0,
            ;
            if y < prior {
                assert(y * dst_stride + i < prior * dst_stride) by (nonlinear_arith)
                    requires
                        y + 1 <= prior,
                        0 <= i < n,
                        dst_stride >= n,
                ;
                assert(new_dst[row_byte(y, dst_stride, i)] == old_dst[row_byte(y, dst_stride, i)]);
            }
        }
        assert forall|k: int|
            0 <= k < dst.len() && !(exists|y: int, i: int|
                0 <= y < rows && 0 <= i < n && k == #[trigger] row_byte(y, dst_stride, i)) implies
            #[trigger] new_dst[k] == dst[k] by {
            if prior * dst_stride <= k < prior * dst_stride + n {
                assert(k == row_byte(prior as int, dst_stride, k - prior * dst_stride));
            }
            assert(new_dst[k] == old_dst[k]);
            if exists|y: int, i: int|
                0 <= y < prior && 0 <= i < n && k == #[trigger] row_byte(y, dst_stride, i) {
                let (y, i) = choose|y: int, i: int|
                    0 <= y < prior && 0 <= i < n && k == #[trigger] row_byte(y, dst_stride, i);
                assert(0 <= y < rows && 0 <= i < n && k == row_byte(y, dst_stride, i));
            }
            assert(old_dst[k] == dst[k]);
        }
    }
}

/// The place of byte `i` of row `y`.
pub open spec fn row_byte(y: int, stride: int, i: int) -> int {
    y * stride + i
}

/// Cropping a picture to a region that was found in frames of its size stays
/// inside the picture.
pub proof fn lemma_found_region_fits(
    r: [u32; 4],
    region: Bbox,
    mask: Seq<bool>,
    fw: u32,
    fh: u32,
    method: BboxMethod,
    dst_len: nat,
    dst_stride: int,
    src_len: nat,
    src_stride: int,
)
    requires
        is_bbox(Some(r), mask, blocks_across(fw), blocks_across(fh), fw, fh, method),
        region == (Bbox { x: r[0], y: r[1], w: r[2], h: r[3] }),
        src_stride >= 0,
        rows_fit(src_len, src_stride, fw as int, fh as int),
        rows_fit(dst_len, dst_stride, r[2] as int, r[3] as int),
    ensures
        region_fits(dst_len, dst_stride, src_len, src_stride, region),
{
    lemma_region_in_frame(r, mask, fw, fh, method);
    assert((region.y + region.h - 1) * src_stride <= (fh - 1) * src_stride) by (nonlinear_arith)
        requires
            region.y + region.h <= fh,
            src_stride >= 0,
    ;
}

/// What came of the last step of re-encoding.
#[derive(Clone, Copy, Debug, PartialEq, Eq, Structural)]
pub enum CropEvent {
    /// A packet of the given stream was read.
    Packet { stream: usize },
    NoMorePackets,
    /// The audio packet was written, or could not be.
    AudioDone,
    PacketSent,
    /// The decoder cannot make anything of the packet: it has no frame.
    PacketRefused,
    EofSent,
    /// The decoder cannot be made to give the frames that it still holds.
    EofRefused,
    /// The decoder gave a frame.
    Frame,
    /// The decoder has no frame ready, or none left.
    NoFrame,
    /// The decoder came upon a frame that it cannot make anything of.
    FrameFailed,
    /// The cropped frame went to the encoder.
    Encoded,
    EncodeFailed,
    /// The encoder knows that it has had the last frame.
    FlushSent,
    FlushRefused,
    /// The encoder gave a packet.
    Output,
    /// The encoder wants another frame first.
    NotReady,
    /// The encoder has given all its packets.
    AllGiven,
    OutputFailed,
    /// The packet of the encoder was written.
    Written,
    WriteFailed,
}

/// What to do next in re-encoding.
#[derive(Clone, Copy, Debug, PartialEq, Eq, Structural)]
pub enum CropStep {
    ReadPacket,
    /// Write the packet to this stream of the output as it is.
    CopyAudio { output: usize },
    SendPacket,
    SendEof,
    ReceiveFrame,
    /// Crop the frame and hand it to the encoder.
    EncodeFrame,
    /// Tell the encoder that it has had the last frame.
    FlushEncoder,
    /// Ask the encoder for a packet.
    ReceiveOutput,
    /// Write the packet of the encoder to the video stream of the output.
    WriteOutput,
    WriteTrailer,
    /// Give up: a frame is lost.
    Fail,
}

/// How far re-encoding has come.
#[derive(Clone, Copy, Debug, PartialEq, Eq, Structural)]
pub enum CropStage {
    Reading,
    Copying,
    Sending,
    Ending,
    Receiving,
    Encoding,
    Flushing,
    Collecting,
    Writing,
    Closing,
    Failed,
}

/// The stream of the output that a stream of the input is copied to: the first
/// one that the list gives.
pub open spec fn audio_output(audio: Seq<(usize, usize)>, stream: usize) -> Option<usize>
    decreases audio.len(),
{
    if audio.len() == 0 {
        None
    } else if audio[0].0 == stream {
        Some(audio[0].1)
    } else {
        audio_output(audio.drop_first(), stream)
    }
}

/// The state of re-encoding.
pub ghost struct CropState {
    pub video: usize,
    pub audio: Seq<(usize, usize)>,
    pub stage: CropStage,
    /// All packets have been read, and the decoder knows.
    pub ended: bool,
    /// All frames have been encoded, and the encoder knows.
    pub flushed: bool,
}

impl CropState {
    pub open spec fn expects(self, event: CropEvent) -> bool {
        match self.stage {
            CropStage::Reading => event is Packet || event is NoMorePackets,
            CropStage::Copying => event is AudioDone,
            CropStage::Sending => event is PacketSent || event is PacketRefused,
            CropStage::Ending => event is EofSent || event is EofRefused,
            CropStage::Receiving => event is Frame || event is NoFrame || event is FrameFailed,
            CropStage::Encoding => event is Encoded || event is EncodeFailed,
            CropStage::Flushing => event is FlushSent || event is FlushRefused,
            CropStage::Collecting => event is Output || event is NotReady || event is AllGiven
                || event is OutputFailed,
            CropStage::Writing => event is Written || event is WriteFailed,
            CropStage::Closing => false,
            CropStage::Failed => false,
        }
    }

    pub open spec fn at(self, stage: CropStage) -> CropState {
        CropState { stage, ..self }
    }

    /// What an event leads to. An audio packet is copied, also where the stream
    /// is the video stream. After each frame, and once more after the last one,
    /// the packets of the encoder are written as far as it gives them. A frame
    /// that cannot be encoded or written ends the run, at its end as well as
    /// before; and so does anything that keeps frames in the decoder or the
    /// encoder at the end. A packet or a frame of the input that the decoder
    /// cannot make anything of is passed over while packets are left.
    pub open spec fn next(self, event: CropEvent) -> (CropState, CropStep) {
        match event {
            CropEvent::Packet { stream } => match audio_output(self.audio, stream) {
                Some(output) => (self.at(CropStage::Copying), CropStep::CopyAudio { output }),
                None => if stream == self.video {
                    (self.at(CropStage::Sending), CropStep::SendPacket)
                } else {
                    (self, CropStep::ReadPacket)
                },
            },
            CropEvent::NoMorePackets => (self.at(CropStage::Ending), CropStep::SendEof),
            CropEvent::AudioDone => (self.at(CropStage::Reading), CropStep::ReadPacket),
            CropEvent::PacketSent => (self.at(CropStage::Receiving), CropStep::ReceiveFrame),
            CropEvent::PacketRefused => (self.at(CropStage::Reading), CropStep::ReadPacket),
            CropEvent::EofSent => (
                CropState { stage: CropStage::Receiving, ended: true, ..self },
                CropStep::ReceiveFrame,
            ),
            CropEvent::EofRefused => (self.at(CropStage::Failed), CropStep::Fail),
            CropEvent::Frame => (self.at(CropStage::Encoding), CropStep::EncodeFrame),
            CropEvent::NoFrame => if self.ended {
                (self.at(CropStage::Flushing), CropStep::FlushEncoder)
            } else {
                (self.at(CropStage::Reading), CropStep::ReadPacket)
            },
            CropEvent::FrameFailed => if self.ended {
                (self.at(CropStage::Failed), CropStep::Fail)
            } else {
                (self.at(CropStage::Reading), CropStep::ReadPacket)
            },
            CropEvent::Encoded => (self.at(CropStage::Collecting), CropStep::ReceiveOutput),
            CropEvent::EncodeFailed => (self.at(CropStage::Failed), CropStep::Fail),
            CropEvent::FlushSent => (
                CropState { stage: CropStage::Collecting, flushed: true, ..self },
                CropStep::ReceiveOutput,
            ),
            CropEvent::FlushRefused => (self.at(CropStage::Failed), CropStep::Fail),
            CropEvent::Output => (self.at(CropStage::Writing), CropStep::WriteOutput),
            CropEvent::NotReady => if self.flushed {
                (self.at(CropStage::Failed), CropStep::Fail)
            } else {
                (self.at(CropStage::Receiving), CropStep::ReceiveFrame)
            },
            CropEvent::AllGiven => if self.flushed {
                (self.at(CropStage::Closing), CropStep::WriteTrailer)
            } else {
                (self.at(CropStage::Receiving), CropStep::ReceiveFrame)
            },
            CropEvent::OutputFailed => (self.at(CropStage::Failed), CropStep::Fail),
            CropEvent::Written => (self.at(CropStage::Collecting), CropStep::ReceiveOutput),
            CropEvent::WriteFailed => (self.at(CropStage::Failed), CropStep::Fail),
        }
    }

    pub open spec fn started(video: usize, audio: Seq<(usize, usize)>) -> CropState {
        CropState { video, audio, stage: CropStage::Reading, ended: false, flushed: false }
    }

    /// The state after a sequence of events.
    pub open spec fn after(self, events: Seq<CropEvent>) -> CropState
        decreases events.len(),
    {
        if events.len() == 0 {
            self
        } else {
            self.after(events.drop_last()).next(events.last()).0
        }
    }

    /// Each of the events could follow the ones before it.
    pub open spec fn allows(self, events: Seq<CropEvent>) -> bool
        decreases events.len(),
    {
        events.len() > 0 ==> {
            &&& self.allows(events.drop_last())
            &&& self.after(events.drop_last()).expects(events.last())
        }
    }
}

/// How often an event occurred.
pub open spec fn crop_occurrences(events: Seq<CropEvent>, event: CropEvent) -> nat
    decreases events.len(),
{
    if events.len() == 0 {
        0
    } else {
        crop_occurrences(events.drop_last(), event) + if events.last() == event {
            1nat
        } else {
            0
        }
    }
}

/// What holds of the counts of the events at every stage of a run.
proof fn lemma_crop_counts(start: CropState, events: Seq<CropEvent>)
    requires
        start == CropState::started(start.video, start.audio),
        start.allows(events),
    ensures
        ({
            let now = start.after(events);
            let frames = crop_occurrences(events, CropEvent::Frame);
            let outputs = crop_occurrences(events, CropEvent::Output);
            &&& frames == crop_occurrences(events, CropEvent::Encoded) + crop_occurrences(
                events,
                CropEvent::EncodeFailed,
            ) + (if now.stage is Encoding {
                1nat
            } else {
                0
            })
            &&& outputs == crop_occurrences(events, CropEvent::Written) + crop_occurrences(
                events,
                CropEvent::WriteFailed,
            ) + (if now.stage is Writing {
                1nat
            } else {
                0
            })
            &&& now.stage is Failed || {
                &&& crop_occurrences(events, CropEvent::EofRefused) == 0
                &&& crop_occurrences(events, CropEvent::EncodeFailed) == 0
                &&& crop_occurrences(events, CropEvent::FlushRefused) == 0
                &&& crop_occurrences(events, CropEvent::OutputFailed) == 0
                &&& crop_occurrences(events, CropEvent::WriteFailed) == 0
                &&& crop_occurrences(events, CropEvent::EofSent) == (if now.ended {
                    1nat
                } else {
                    0
                })
                &&& crop_occurrences(events, CropEvent::NoMorePackets) == (if now.ended
                    || now.stage is Ending {
                    1nat
                } else {
                    0
                })
                &&& crop_occurrences(events, CropEvent::FlushSent) == (if now.flushed {
                    1nat
                } else {
                    0
                })
            }
            &&& now.ended ==> !(now.stage is Reading || now.stage is Copying
                || now.stage is Sending || now.stage is Ending)
            &&& now.flushed ==> now.ended && (now.stage is Collecting || now.stage is Writing
                || now.stage is Closing || now.stage is Failed)
            &&& now.stage is Flushing ==> now.ended
            &&& now.stage is Closing ==> now.flushed && events.last() is AllGiven
        }),
    decreases events.len(),
{
    if events.len() > 0 {
        lemma_crop_counts(start, events.drop_last());
    }
}

/// No frame is skipped: a run that comes to its end has been through the whole
/// file, has made the decoder give all its frames, has encoded every one of them,
/// and has made the encoder give all its packets. At every moment each frame that
/// the decoder gave has gone to the encoder, or is the one being worked on, or has
/// been refused, which ends the run. A packet that the decoder refuses has no
/// frame.
pub proof fn lemma_every_frame_encoded(start: CropState, events: Seq<CropEvent>)
    requires
        start == CropState::started(start.video, start.audio),
        start.allows(events),
    ensures
        crop_occurrences(events, CropEvent::Frame) == crop_occurrences(events, CropEvent::Encoded)
            + crop_occurrences(events, CropEvent::EncodeFailed) + if start.after(
            events,
        ).stage is Encoding {
            1nat
        } else {
            0
        },
        crop_occurrences(events, CropEvent::EncodeFailed) > 0 ==> start.after(
            events,
        ).stage is Failed,
        start.after(events).stage is Closing ==> {
            &&& crop_occurrences(events, CropEvent::EncodeFailed) == 0
            &&& crop_occurrences(events, CropEvent::EofRefused) == 0
            &&& crop_occurrences(events, CropEvent::FlushRefused) == 0
            &&& crop_occurrences(events, CropEvent::Frame) == crop_occurrences(
                events,
                CropEvent::Encoded,
            )
            &&& crop_occurrences(events, CropEvent::NoMorePackets) == 1
            &&& crop_occurrences(events, CropEvent::EofSent) == 1
            &&& crop_occurrences(events, CropEvent::FlushSent) == 1
            &&& events.last() is AllGiven
        },
        events.len() > 0 && events.last() is PacketRefused ==> start.after(
            events,
        ).stage is Reading,
{
    lemma_crop_counts(start, events);
}

/// Every packet that the encoder gives is written, and before the trailer: at
/// every moment each one has been written, or is the one to be written next, or
/// could not be, which ends the run.
pub proof fn lemma_every_output_written(start: CropState, events: Seq<CropEvent>)
    requires
        start == CropState::started(start.video, start.audio),
        start.allows(events),
    ensures
        crop_occurrences(events, CropEvent::Output) == crop_occurrences(events, CropEvent::Written)
            + crop_occurrences(events, CropEvent::WriteFailed) + if start.after(
            events,
        ).stage is Writing {
            1nat
        } else {
            0
        },
        crop_occurrences(events, CropEvent::WriteFailed) + crop_occurrences(
            events,
            CropEvent::OutputFailed,
        ) > 0 ==> start.after(events).stage is Failed,
        start.after(events).stage is Closing ==> {
            &&& crop_occurrences(events, CropEvent::Output) == crop_occurrences(
                events,
                CropEvent::Written,
            )
            &&& crop_occurrences(events, CropEvent::WriteFailed) == 0
            &&& crop_occurrences(events, CropEvent::OutputFailed) == 0
        },
{
    lemma_crop_counts(start, events);
}

/// A run fails only where a frame is lost: in the decoder at its end, on the way
/// to the encoder, in the encoder, or on the way to the file.
pub proof fn lemma_fails_only_for_a_loss(start: CropState, events: Seq<CropEvent>)
    requires
        start == CropState::started(start.video, start.audio),
        start.allows(events),
        start.after(events).stage is Failed,
    ensures
        events.len() > 0,
        ({
            let before = start.after(events.drop_last());
            match events.last() {
                CropEvent::EofRefused => true,
                CropEvent::FrameFailed => before.ended,
                CropEvent::EncodeFailed => true,
                CropEvent::FlushRefused => true,
                CropEvent::NotReady => before.flushed,
                CropEvent::OutputFailed => true,
                CropEvent::WriteFailed => true,
                _ => false,
            }
        }),
{
}

/// The packet goes to a stream of the output as it is.
pub open spec fn is_audio(audio: Seq<(usize, usize)>, event: CropEvent) -> bool {
    event matches CropEvent::Packet { stream } && audio_output(audio, stream) is Some
}

/// The packet goes to the decoder.
pub open spec fn is_video(start: CropState, event: CropEvent) -> bool {
    event matches CropEvent::Packet { stream } && audio_output(start.audio, stream) is None
        && stream == start.video
}

/// How many of the packets that were read are to be copied as they are.
pub open spec fn audio_packets(start: CropState, events: Seq<CropEvent>) -> nat
    decreases events.len(),
{
    if events.len() == 0 {
        0
    } else {
        audio_packets(start, events.drop_last()) + if is_audio(start.audio, events.last()) {
            1nat
        } else {
            0
        }
    }
}

/// How many of the packets that were read are to be decoded.
pub open spec fn video_packets(start: CropState, events: Seq<CropEvent>) -> nat
    decreases events.len(),
{
    if events.len() == 0 {
        0
    } else {
        video_packets(start, events.drop_last()) + if is_video(start, events.last()) {
            1nat
        } else {
            0
        }
    }
}

/// No packet is lost: every packet of an audio stream is copied, and every other
/// packet of the video stream goes to the decoder, before the next one is read.
pub proof fn lemma_every_packet_used(start: CropState, events: Seq<CropEvent>)
    requires
        start == CropState::started(start.video, start.audio),
        start.allows(events),
    ensures
        start.after(events).audio == start.audio,
        start.after(events).video == start.video,
        audio_packets(start, events) == crop_occurrences(events, CropEvent::AudioDone)
            + if start.after(events).stage is Copying {
            1nat
        } else {
            0
        },
        video_packets(start, events) == crop_occurrences(events, CropEvent::PacketSent)
            + crop_occurrences(events, CropEvent::PacketRefused) + if start.after(
            events,
        ).stage is Sending {
            1nat
        } else {
            0
        },
    decreases events.len(),
{
    if events.len() > 0 {
        lemma_every_packet_used(start, events.drop_last());
    }
}

/// The course of re-encoding.
pub struct CropLoop {
    video: usize,
    audio: Vec<(usize, usize)>,
    stage: CropStage,
    ended: bool,
    flushed: bool,
}

impl View for CropLoop {
    type V = CropState;

    closed spec fn view(&self) -> CropState {
        CropState {
            video: self.video,
            audio: self.audio@,
            stage: self.stage,
            ended: self.ended,
            flushed: self.flushed,
        }
    }
}

impl CropLoop {
    /// Re-encode stream `video`, and copy the streams that `audio` pairs with
    /// streams of the output. The first step is to read a packet.
    pub fn new(video: usize, audio: Vec<(usize, usize)>) -> (r: CropLoop)
        ensures
            r@ == CropState::started(video, audio@),
    {
        CropLoop { video, audio, stage: CropStage::Reading, ended: false, flushed: false }
    }

    /// The stream of the output that a stream of the input is copied to.
    fn output_of(&self, stream: usize) -> (r: Option<usize>)
        ensures
            r == audio_output(self@.audio, stream),
    {
        let mut i: usize = 0;
        assert(self.audio@.subrange(0, self.audio@.len() as int) =~= self.audio@);
        while i < self.audio.len()
            invariant
                i <= self.audio@.len(),
                audio_output(self.audio@, stream) == audio_output(
                    self.audio@.subrange(i as int, self.audio@.len() as int),
                    stream,
                ),
            decreases self.audio.len() - i,
        {
            let pair: (usize, usize) = self.audio[i];
            if pair.0 == stream {
                return Some(pair.1);
            }
            assert(self.audio@.subrange(i as int, self.audio@.len() as int).drop_first()
                =~= self.audio@.subrange(i + 1, self.audio@.len() as int));
            i = i + 1;
        }
        None
    }

    /// Take note of what came of the last step, and say what to do next.
    pub fn step(&mut self, event: CropEvent) -> (r: CropStep)
        requires
            old(self)@.expects(event),
        ensures
            (final(self)@, r) == old(self)@.next(event),
    {
        match event {
            CropEvent::Packet { stream } => match self.output_of(stream) {
                Some(output) => {
                    self.stage = CropStage::Copying;
                    CropStep::CopyAudio { output }
                },
                None => {
                    if stream == self.video {
                        self.stage = CropStage::Sending;
                        CropStep::SendPacket
                    } else {
                        CropStep::ReadPacket
                    }
                },
            },
            CropEvent::NoMorePackets => {
                self.stage = CropStage::Ending;
                CropStep::SendEof
            },
            CropEvent::AudioDone => {
                self.stage = CropStage::Reading;
                CropStep::ReadPacket
            },
            CropEvent::PacketSent => {
                self.stage = CropStage::Receiving;
                CropStep::ReceiveFrame
            },
            CropEvent::PacketRefused => {
                self.stage = CropStage::Reading;
                CropStep::ReadPacket
            },
            CropEvent::EofSent => {
                self.ended = true;
                self.stage = CropStage::Receiving;
                CropStep::ReceiveFrame
            },
            CropEvent::Frame => {
                self.stage = CropStage::Encoding;
                CropStep::EncodeFrame
            },
            CropEvent::NoFrame => {
                if self.ended {
                    self.stage = CropStage::Flushing;
                    CropStep::FlushEncoder
                } else {
                    self.stage = CropStage::Reading;
                    CropStep::ReadPacket
                }
            },
            CropEvent::FrameFailed => {
                if self.ended {
                    self.stage = CropStage::Failed;
                    CropStep::Fail
                } else {
                    self.stage = CropStage::Reading;
                    CropStep::ReadPacket
                }
            },
            CropEvent::FlushSent => {
                self.flushed = true;
                self.stage = CropStage::Collecting;
                CropStep::ReceiveOutput
            },
            CropEvent::Encoded | CropEvent::Written => {
                self.stage = CropStage::Collecting;
                CropStep::ReceiveOutput
            },
            CropEvent::Output => {
                self.stage = CropStage::Writing;
                CropStep::WriteOutput
            },
            CropEvent::NotReady => {
                if self.flushed {
                    self.stage = CropStage::Failed;
                    CropStep::Fail
                } else {
                    self.stage = CropStage::Receiving;
                    CropStep::ReceiveFrame
                }
            },
            CropEvent::AllGiven => {
                if self.flushed {
                    self.stage = CropStage::Closing;
                    CropStep::WriteTrailer
                } else {
                    self.stage = CropStage::Receiving;
                    CropStep::ReceiveFrame
                }
            },
            CropEvent::EofRefused
            | CropEvent::EncodeFailed
            | CropEvent::FlushRefused
            | CropEvent::OutputFailed
            | CropEvent::WriteFailed => {
                self.stage = CropStage::Failed;
                CropStep::Fail
            },
        }
    }
}

} // verus!
