//! What every step of decoding and of re-encoding leads to.

use crate::decoder::{
    closing, ClosingMessage, DecodeEvent, DecodeLoop, DecodeStage, DecodeStep, RunEnd, Selection,
};
use crate::writer::{audio_output, CropEvent, CropStage, CropState, CropStep};
use vstd::prelude::*;

verus! {

/// A run asks for what its stage is about, keeps to its stream and its selection, and
/// numbers the frame that it hands on by the frames before it.
pub proof fn lemma_decode_step_fits(run: DecodeLoop, event: DecodeEvent)
    requires
        run.wf(),
        run.expects(event),
        run.frames < u64::MAX,
    ensures
        ({
            let (next, step) = run.next(event);
            &&& next.stream == run.stream
            &&& next.keys_only == run.keys_only
            &&& next.selection == run.selection
            &&& step is ReadPacket <==> next.stage is Reading
            &&& step is SendPacket <==> next.stage is Sending
            &&& step is SendEof <==> next.stage is Ending
            &&& step is ReceiveFrame <==> next.stage is Receiving
            &&& step is ConvertFrame <==> next.stage is Converting
            &&& step is DeliverFrame <==> next.stage is Delivering
            &&& step is Finish <==> next.stage is Finished
            &&& step is Stop <==> next.stage is Stopped
            &&& step matches DecodeStep::DeliverFrame { index } ==> index == next.frames
        }),
{
}

/// A packet goes to the decoder exactly where it is of the video stream and, when only
/// key frames are wanted, starts at one.
pub proof fn lemma_packets_decoded(run: DecodeLoop, stream: usize, key: bool)
    ensures
        ({
            let (next, step) = run.next(DecodeEvent::Packet { stream, key });
            &&& stream != run.stream ==> step is ReadPacket
            &&& stream == run.stream && key ==> step is SendPacket
            &&& stream == run.stream && !run.keys_only ==> step is SendPacket
            &&& run.keys_only && !key ==> step is ReadPacket
        }),
{
}

/// All frames that the decoder has ready are taken before the next packet is read: a
/// packet is read only where the decoder has none, would not take the last packet, or did
/// not get it. Frames are asked for until then.
pub proof fn lemma_decoder_drained(run: DecodeLoop, event: DecodeEvent)
    requires
        run.wf(),
        run.expects(event),
        run.frames < u64::MAX,
    ensures
        ({
            let next = run.next(event).0;
            &&& next.stage is Reading ==> event is Packet || event is PacketRefused
                || event is NoFrame
            &&& event is PacketSent || event is EofSent || event is Delivered || event is Dropped
                || event is ConversionFailed ==> next.stage is Receiving
            &&& event is NoFrame ==> (next.stage is Finished <==> run.ended)
            &&& event is NoFrame || event is PacketRefused ==> next.stage is Reading || run.ended
            &&& event is NoMorePackets <==> next.stage is Ending
            &&& event is Converted <==> next.stage is Delivering
            &&& event is ReceiverGone <==> next.stage is Stopped
            &&& next.ended <==> run.ended || event is EofSent
        }),
{
}

/// Of the frames, all are converted; or each whose number is a multiple of `n`, where
/// every `n`-th is wanted. Each one that is done with counts once.
pub proof fn lemma_frames_selected(run: DecodeLoop, event: DecodeEvent, n: u64, q: u64)
    requires
        run.wf(),
        run.expects(event),
        run.frames < u64::MAX,
    ensures
        ({
            let next = run.next(event).0;
            &&& next.stage is Converting ==> event is Frame
            &&& run.selection is All && event is Frame ==> next.stage is Converting
            &&& run.selection == Selection::EveryNth(n) && event is Frame && run.frames == q * n
                ==> next.stage is Converting
            &&& run.selection == Selection::EveryNth(n) && event is Frame && q * n < run.frames
                && run.frames < (q + 1) * n ==> next.stage is Receiving
            &&& event is Delivered || event is Dropped ==> next.frames == run.frames + 1
            &&& event is ConversionFailed ==> next.frames == run.frames + (
            if run.selection is All {
                0int
            } else {
                1int
            })
            &&& event is Frame ==> next.frames == run.frames + (if next.stage is Converting {
                0int
            } else {
                1int
            })
            &&& !(event is Delivered || event is Dropped || event is ConversionFailed
                || event is Frame) ==> next.frames == run.frames
        }),
{
    if run.selection == Selection::EveryNth(n) && n > 0 {
        let f = run.frames as int;
        if f == q * n {
            vstd::arithmetic::div_mod::lemma_fundamental_div_mod_converse(f, n as int, q as int, 0);
        }
        if q * n < f && f < (q + 1) * n {
            assert((q + 1) * n == q * n + n) by (nonlinear_arith);
            vstd::arithmetic::div_mod::lemma_fundamental_div_mod_converse(
                f,
                n as int,
                q as int,
                f - q * n,
            );
        }
    }
}

/// A file that could not be opened ends the display before it gives up the result, and a
/// stopped run sends nothing but the result.
pub proof fn lemma_closing_in_order(region: Option<[u32; 4]>)
    ensures
        closing(RunEnd::NotOpened, Some(region)).len() == 2,
        closing(RunEnd::NotOpened, Some(region))[0] is EndOfVideo,
        closing(RunEnd::NotOpened, Some(region))[1] == ClosingMessage::Region(None),
        closing(RunEnd::Stopped, Some(region)).len() == 1,
        closing(RunEnd::Stopped, Some(region))[0] == ClosingMessage::Region(region),
        closing(RunEnd::Stopped, None).len() == 0,
        closing(RunEnd::Finished, Some(region)).len() == 2,
        closing(RunEnd::Finished, Some(region))[0] == ClosingMessage::Region(region),
        closing(RunEnd::Finished, Some(region))[1] is EndOfVideo,
{
}

/// A stream is copied to the place of its first mention in the list, and to none where it
/// is not mentioned.
pub proof fn lemma_audio_first_listed(audio: Seq<(usize, usize)>, stream: usize, i: int)
    ensures
        0 <= i < audio.len() && audio[i].0 == stream && (forall|j: int|
            0 <= j < i ==> (#[trigger] audio[j]).0 != stream) ==> audio_output(audio, stream)
            == Some(audio[i].1),
        (forall|j: int| 0 <= j < audio.len() ==> (#[trigger] audio[j]).0 != stream) ==> audio_output(
            audio,
            stream,
        ) is None,
    decreases audio.len(),
{
    if audio.len() > 0 {
        let rest = audio.drop_first();
        assert forall|j: int| 0 <= j < rest.len() implies rest[j] == #[trigger] audio[j + 1] by {
        }
        lemma_audio_first_listed(rest, stream, i - 1);
        if 0 < i < audio.len() && audio[i].0 == stream && (forall|j: int|
            0 <= j < i ==> (#[trigger] audio[j]).0 != stream) {
            assert(rest[i - 1] == audio[i]);
            assert forall|j: int| 0 <= j < i - 1 implies (#[trigger] rest[j]).0 != stream by {
                assert(rest[j] == audio[j + 1]);
            }
            assert(audio[0].0 != stream);
        }
        if forall|j: int| 0 <= j < audio.len() ==> (#[trigger] audio[j]).0 != stream {
            assert forall|j: int| 0 <= j < rest.len() implies (#[trigger] rest[j]).0 != stream by {
                assert(rest[j] == audio[j + 1]);
            }
            assert(audio[0].0 != stream);
        }
    }
}

/// Re-encoding asks for what its stage is about, and keeps to its streams.
pub proof fn lemma_crop_step_fits(run: CropState, event: CropEvent)
    requires
        run.expects(event),
    ensures
        ({
            let (next, step) = run.next(event);
            &&& next.video == run.video
            &&& next.audio == run.audio
            &&& step is ReadPacket <==> next.stage is Reading
            &&& step is CopyAudio <==> next.stage is Copying
            &&& step is SendPacket <==> next.stage is Sending
            &&& step is SendEof <==> next.stage is Ending
            &&& step is ReceiveFrame <==> next.stage is Receiving
            &&& step is EncodeFrame <==> next.stage is Encoding
            &&& step is FlushEncoder <==> next.stage is Flushing
            &&& step is ReceiveOutput <==> next.stage is Collecting
            &&& step is WriteOutput <==> next.stage is Writing
            &&& step is WriteTrailer <==> next.stage is Closing
            &&& step is Fail <==> next.stage is Failed
            &&& step matches CropStep::CopyAudio { output } ==> (event matches CropEvent::Packet {
                stream,
            } && audio_output(run.audio, stream) == Some(output))
            &&& next.ended <==> run.ended || event is EofSent
            &&& next.flushed <==> run.flushed || event is FlushSent
        }),
{
}

/// A packet of a listed audio stream is copied, any other one of the video stream goes to
/// the decoder, and the rest is passed over.
pub proof fn lemma_crop_packets(run: CropState, stream: usize)
    ensures
        ({
            let step = run.next(CropEvent::Packet { stream }).1;
            let copied = exists|i: int|
                0 <= i < run.audio.len() && (#[trigger] run.audio[i]).0 == stream;
            &&& copied <==> step is CopyAudio
            &&& !copied && stream == run.video <==> step is SendPacket
            &&& !copied && stream != run.video <==> step is ReadPacket
        }),
{
    let copied = exists|i: int| 0 <= i < run.audio.len() && (#[trigger] run.audio[i]).0 == stream;
    if copied {
        let i = choose|i: int| 0 <= i < run.audio.len() && (#[trigger] run.audio[i]).0 == stream;
        lemma_listed(run.audio, stream, i);
    } else {
        lemma_audio_first_listed(run.audio, stream, 0);
    }
}

proof fn lemma_listed(audio: Seq<(usize, usize)>, stream: usize, i: int)
    requires
        0 <= i < audio.len(),
        audio[i].0 == stream,
    ensures
        audio_output(audio, stream) is Some,
    decreases audio.len(),
{
    if audio[0].0 != stream {
        assert(audio.drop_first()[i - 1] == audio[i]);
        lemma_listed(audio.drop_first(), stream, i - 1);
    }
}

/// Nothing that is ready is left behind: the next packet is read only where the decoder
/// has no frame, and the next frame is asked for only where the encoder has no packet. At
/// the end the decoder is emptied first, then the encoder, and then the file is closed.
pub proof fn lemma_crop_drained(run: CropState, event: CropEvent)
    requires
        run.expects(event),
    ensures
        ({
            let next = run.next(event).0;
            &&& next.stage is Reading <==> {
                ||| event is AudioDone
                ||| event is PacketRefused
                ||| !run.ended && (event is NoFrame || event is FrameFailed)
                ||| event is Packet && !(next.stage is Copying) && !(next.stage is Sending)
            }
            &&& next.stage is Receiving <==> event is PacketSent || event is EofSent || (
            !run.flushed && (event is NotReady || event is AllGiven))
            &&& next.stage is Collecting <==> event is Encoded || event is FlushSent
                || event is Written
            &&& next.stage is Encoding <==> event is Frame
            &&& next.stage is Writing <==> event is Output
            &&& next.stage is Ending <==> event is NoMorePackets
            &&& next.stage is Flushing <==> event is NoFrame && run.ended
            &&& next.stage is Closing <==> event is AllGiven && run.flushed
        }),
{
}

/// The steps that a stage waits on, and no others, can be reported.
pub proof fn lemma_stages_wait(run: CropState, decode: DecodeLoop)
    ensures
        run.stage is Closing || run.stage is Failed <==> forall|event: CropEvent|
            !#[trigger] run.expects(event),
        decode.stage is Finished || decode.stage is Stopped <==> forall|event: DecodeEvent|
            !#[trigger] decode.expects(event),
{
    match run.stage {
        CropStage::Reading => assert(run.expects(CropEvent::NoMorePackets)),
        CropStage::Copying => assert(run.expects(CropEvent::AudioDone)),
        CropStage::Sending => assert(run.expects(CropEvent::PacketSent)),
        CropStage::Ending => assert(run.expects(CropEvent::EofSent)),
        CropStage::Receiving => assert(run.expects(CropEvent::Frame)),
        CropStage::Encoding => assert(run.expects(CropEvent::Encoded)),
        CropStage::Flushing => assert(run.expects(CropEvent::FlushSent)),
        CropStage::Collecting => assert(run.expects(CropEvent::Output)),
        CropStage::Writing => assert(run.expects(CropEvent::Written)),
        CropStage::Closing => {},
        CropStage::Failed => {},
    }
    match decode.stage {
        DecodeStage::Reading => assert(decode.expects(DecodeEvent::NoMorePackets)),
        DecodeStage::Sending => assert(decode.expects(DecodeEvent::PacketSent)),
        DecodeStage::Ending => assert(decode.expects(DecodeEvent::EofSent)),
        DecodeStage::Receiving => assert(decode.expects(DecodeEvent::Frame)),
        DecodeStage::Converting => assert(decode.expects(DecodeEvent::Converted)),
        DecodeStage::Delivering => assert(decode.expects(DecodeEvent::Delivered)),
        DecodeStage::Finished => {},
        DecodeStage::Stopped => {},
    }
}

} // verus!
