use trim_dead_area::bbox::{compute_bbox, BboxMethod};
use trim_dead_area::single::Single;
use trim_dead_area::writer::{
    can_copy, copy_region, crop_args, crop_filter, crop_video, program_outcome, Bbox, CropError,
    CropEvent, CropLoop, CropPlan, CropStep, ProgramEnd,
};

fn region(x: u32, y: u32, w: u32, h: u32) -> Bbox {
    Bbox { x, y, w, h }
}

#[test]
fn the_filter_names_size_before_place() {
    assert_eq!(crop_filter(region(0, 140, 1280, 720)), "crop=1280:720:0:140");
    assert_eq!(
        crop_filter(Bbox::new([16, 32, 48, 64])),
        "crop=48:64:16:32"
    );
}

#[test]
fn the_program_gets_its_arguments() {
    assert_eq!(
        crop_args("in.mp4", "out.mp4", region(1, 2, 3, 4)),
        vec!["-y", "-i", "in.mp4", "-vf", "crop=3:4:1:2", "-c:a", "copy", "out.mp4"]
    );
}

#[test]
fn the_program_is_preferred() {
    let r = region(1, 2, 3, 4);
    match crop_video(true, Some("a"), Some("b"), r) {
        Ok(CropPlan::Program(args)) => assert_eq!(args, crop_args("a", "b", r)),
        _ => panic!("the program should be run"),
    }
    assert!(matches!(
        crop_video(false, Some("a"), Some("b"), r),
        Ok(CropPlan::Reencode(Bbox {
            x: 1,
            y: 2,
            w: 3,
            h: 4
        }))
    ));
    // Re-encoding does not need the paths to be text.
    assert!(matches!(
        crop_video(false, None, None, r),
        Ok(CropPlan::Reencode(_))
    ));
}

#[test]
fn paths_that_are_not_text_are_refused() {
    let r = region(0, 0, 1, 1);
    let no_input = crop_video(true, None, Some("b"), r);
    assert!(matches!(no_input, Err(CropError::InputNotText)));
    let neither = crop_video(true, None, None, r);
    assert!(matches!(neither, Err(CropError::InputNotText)));
    let no_output = crop_video(true, Some("a"), None, r);
    assert!(matches!(no_output, Err(CropError::OutputNotText)));
    assert_eq!(
        CropError::InputNotText.message(),
        "input path is not valid UTF-8"
    );
    assert_eq!(
        CropError::OutputNotText.message(),
        "output path is not valid UTF-8"
    );
}

#[test]
fn the_outcome_of_the_program_is_reported() {
    assert_eq!(
        program_outcome(ProgramEnd::Exited {
            success: true,
            status: "exit status: 0"
        }),
        Ok(())
    );
    assert_eq!(
        program_outcome(ProgramEnd::Exited {
            success: false,
            status: "exit status: 1"
        }),
        Err("ffmpeg exited with exit status: 1".to_string())
    );
    assert_eq!(
        program_outcome(ProgramEnd::NotStarted),
        Err("could not start ffmpeg \u{2014} is it installed?".to_string())
    );
}

/// A picture with a different value in every byte, and rows `pad` bytes longer
/// than they need be.
fn picture(width: usize, height: usize, pad: usize) -> (Vec<u8>, usize) {
    let stride = 4 * width + pad;
    let bytes = (0..stride * height).map(|i| (i * 7 % 251) as u8).collect();
    (bytes, stride)
}

#[test]
fn a_region_is_copied_row_by_row() {
    let (src, src_stride) = picture(10, 8, 5);
    let r = region(3, 2, 4, 5);
    let dst_stride = 4 * 4 + 3;
    let mut dst = vec![0xaau8; dst_stride * 5];
    copy_region(&mut dst, dst_stride, &src, src_stride, r);
    for y in 0..5 {
        for i in 0..dst_stride {
            let got = dst[y * dst_stride + i];
            if i < 16 {
                assert_eq!(got, src[(2 + y) * src_stride + 12 + i]);
            } else {
                assert_eq!(got, 0xaa);
            }
        }
    }
}

#[test]
fn an_empty_region_copies_nothing() {
    let mut dst: Vec<u8> = vec![9; 4];
    copy_region(&mut dst, 4, &[], 4, region(5, 5, 0, 0));
    assert_eq!(dst, vec![9; 4]);
}

#[test]
fn a_region_must_lie_in_both_pictures() {
    // 10 by 8 pixels, without padding.
    assert!(can_copy(64, 16, 320, 40, region(6, 4, 4, 4)));
    assert!(!can_copy(63, 16, 320, 40, region(6, 4, 4, 4)));
    assert!(!can_copy(64, 16, 319, 40, region(6, 4, 4, 4)));
    assert!(!can_copy(64, 16, 320, 40, region(6, 5, 4, 4)));
    assert!(can_copy(0, 16, 0, 40, region(6, 5, 4, 0)));
    let far = region(u32::MAX, u32::MAX, u32::MAX, u32::MAX);
    assert!(!can_copy(usize::MAX, usize::MAX, usize::MAX, usize::MAX, far));
}

#[test]
fn a_found_region_can_be_copied() {
    let ten = Single::of_int(10);
    let zero = Single::of_int(0);
    // A frame of 40 by 24 pixels has three by two blocks.
    let map = vec![zero, zero, ten, zero, zero, ten];
    let found = compute_bbox(&map, 3, 2, 40, 24, Single::of_int(5), BboxMethod::Union);
    assert_eq!(found, Some([32, 0, 8, 24]));
    let r = Bbox::new([32, 0, 8, 24]);
    assert!(can_copy(8 * 4 * 24, 8 * 4, 40 * 4 * 24, 40 * 4, r));
}

#[test]
fn video_is_encoded_and_audio_copied() {
    let mut run = CropLoop::new(0, vec![(2, 1), (3, 2)]);
    let mut step = |e: CropEvent| run.step(e);
    assert_eq!(
        step(CropEvent::Packet { stream: 3 }),
        CropStep::CopyAudio { output: 2 }
    );
    assert_eq!(step(CropEvent::AudioDone), CropStep::ReadPacket);
    assert_eq!(step(CropEvent::Packet { stream: 1 }), CropStep::ReadPacket);
    assert_eq!(step(CropEvent::Packet { stream: 0 }), CropStep::SendPacket);
    assert_eq!(step(CropEvent::PacketSent), CropStep::ReceiveFrame);
    assert_eq!(step(CropEvent::Frame), CropStep::EncodeFrame);
    assert_eq!(step(CropEvent::Encoded), CropStep::ReceiveOutput);
    assert_eq!(step(CropEvent::NotReady), CropStep::ReceiveFrame);
    assert_eq!(step(CropEvent::NoFrame), CropStep::ReadPacket);
    assert_eq!(step(CropEvent::Packet { stream: 0 }), CropStep::SendPacket);
    assert_eq!(step(CropEvent::PacketRefused), CropStep::ReadPacket);
    assert_eq!(step(CropEvent::NoMorePackets), CropStep::SendEof);
    assert_eq!(step(CropEvent::EofSent), CropStep::ReceiveFrame);
    assert_eq!(step(CropEvent::Frame), CropStep::EncodeFrame);
    assert_eq!(step(CropEvent::Encoded), CropStep::ReceiveOutput);
    assert_eq!(step(CropEvent::Output), CropStep::WriteOutput);
    assert_eq!(step(CropEvent::Written), CropStep::ReceiveOutput);
    assert_eq!(step(CropEvent::NotReady), CropStep::ReceiveFrame);
    assert_eq!(step(CropEvent::NoFrame), CropStep::FlushEncoder);
    assert_eq!(step(CropEvent::FlushSent), CropStep::ReceiveOutput);
    assert_eq!(step(CropEvent::Output), CropStep::WriteOutput);
    assert_eq!(step(CropEvent::Written), CropStep::ReceiveOutput);
    assert_eq!(step(CropEvent::AllGiven), CropStep::WriteTrailer);
}

#[test]
fn an_encoding_error_ends_the_run() {
    let mut run = CropLoop::new(1, vec![]);
    assert_eq!(
        run.step(CropEvent::Packet { stream: 1 }),
        CropStep::SendPacket
    );
    assert_eq!(run.step(CropEvent::PacketSent), CropStep::ReceiveFrame);
    assert_eq!(run.step(CropEvent::Frame), CropStep::EncodeFrame);
    assert_eq!(run.step(CropEvent::EncodeFailed), CropStep::Fail);
}

#[test]
fn the_first_pair_of_a_stream_counts() {
    let mut run = CropLoop::new(5, vec![(5, 7), (5, 8)]);
    assert_eq!(
        run.step(CropEvent::Packet { stream: 5 }),
        CropStep::CopyAudio { output: 7 }
    );
}

#[test]
fn every_frame_is_encoded_and_every_packet_written() {
    let mut run = CropLoop::new(0, vec![]);
    let (mut encoded, mut written) = (0, 0);
    let mut step = CropStep::ReadPacket;
    let mut packets = 0;
    let mut waiting = 0;
    // The encoder holds back up to three frames until it is flushed.
    let mut held = 0;
    let mut flushed = false;
    loop {
        step = match step {
            CropStep::ReadPacket => {
                if packets < 10 {
                    packets += 1;
                    run.step(CropEvent::Packet { stream: 0 })
                } else {
                    run.step(CropEvent::NoMorePackets)
                }
            }
            CropStep::SendPacket => {
                waiting += packets % 3;
                run.step(CropEvent::PacketSent)
            }
            CropStep::SendEof => {
                waiting += 4;
                run.step(CropEvent::EofSent)
            }
            CropStep::ReceiveFrame => {
                if waiting > 0 {
                    waiting -= 1;
                    run.step(CropEvent::Frame)
                } else {
                    run.step(CropEvent::NoFrame)
                }
            }
            CropStep::EncodeFrame => {
                encoded += 1;
                held += 1;
                run.step(CropEvent::Encoded)
            }
            CropStep::FlushEncoder => {
                flushed = true;
                run.step(CropEvent::FlushSent)
            }
            CropStep::ReceiveOutput => {
                if held > 3 || flushed && held > 0 {
                    held -= 1;
                    run.step(CropEvent::Output)
                } else if flushed {
                    run.step(CropEvent::AllGiven)
                } else {
                    run.step(CropEvent::NotReady)
                }
            }
            CropStep::WriteOutput => {
                written += 1;
                run.step(CropEvent::Written)
            }
            CropStep::WriteTrailer => break,
            CropStep::CopyAudio { .. } | CropStep::Fail => unreachable!(),
        };
    }
    assert_eq!((encoded, written), (14, 14));
}

#[test]
fn every_packet_is_copied_or_decoded() {
    let mut run = CropLoop::new(0, vec![(1, 1)]);
    let (mut copied, mut sent) = (0, 0);
    for k in 0..30 {
        match run.step(CropEvent::Packet { stream: k % 3 }) {
            CropStep::CopyAudio { output } => {
                assert_eq!((k % 3, output), (1, 1));
                copied += 1;
                assert_eq!(run.step(CropEvent::AudioDone), CropStep::ReadPacket);
            }
            CropStep::SendPacket => {
                assert_eq!(k % 3, 0);
                sent += 1;
                assert_eq!(run.step(CropEvent::PacketRefused), CropStep::ReadPacket);
            }
            other => {
                assert_eq!(other, CropStep::ReadPacket);
                assert_eq!(k % 3, 2);
            }
        }
    }
    assert_eq!((copied, sent), (10, 10));
}

#[test]
fn a_frame_lost_at_the_end_ends_the_run_too() {
    let ending = || {
        let mut run = CropLoop::new(0, vec![]);
        assert_eq!(run.step(CropEvent::NoMorePackets), CropStep::SendEof);
        run
    };
    let mut unflushed = ending();
    assert_eq!(unflushed.step(CropEvent::EofRefused), CropStep::Fail);
    let mut refused = ending();
    assert_eq!(refused.step(CropEvent::EofSent), CropStep::ReceiveFrame);
    assert_eq!(refused.step(CropEvent::Frame), CropStep::EncodeFrame);
    assert_eq!(refused.step(CropEvent::EncodeFailed), CropStep::Fail);
    let mut damaged = ending();
    assert_eq!(damaged.step(CropEvent::EofSent), CropStep::ReceiveFrame);
    assert_eq!(damaged.step(CropEvent::FrameFailed), CropStep::Fail);
    let flushing = || {
        let mut run = ending();
        assert_eq!(run.step(CropEvent::EofSent), CropStep::ReceiveFrame);
        assert_eq!(run.step(CropEvent::NoFrame), CropStep::FlushEncoder);
        run
    };
    let mut stuck = flushing();
    assert_eq!(stuck.step(CropEvent::FlushRefused), CropStep::Fail);
    for event in [CropEvent::OutputFailed, CropEvent::NotReady] {
        let mut held = flushing();
        assert_eq!(held.step(CropEvent::FlushSent), CropStep::ReceiveOutput);
        assert_eq!(held.step(event), CropStep::Fail);
    }
    let mut unwritten = flushing();
    assert_eq!(unwritten.step(CropEvent::FlushSent), CropStep::ReceiveOutput);
    assert_eq!(unwritten.step(CropEvent::Output), CropStep::WriteOutput);
    assert_eq!(unwritten.step(CropEvent::WriteFailed), CropStep::Fail);
}

#[test]
fn what_has_no_frame_is_passed_over() {
    let mut run = CropLoop::new(0, vec![]);
    for event in [CropEvent::PacketRefused, CropEvent::PacketSent] {
        let read = run.step(CropEvent::Packet { stream: 0 });
        assert_eq!(read, CropStep::SendPacket);
        run.step(event);
    }
    assert_eq!(run.step(CropEvent::FrameFailed), CropStep::ReadPacket);
    assert_eq!(run.step(CropEvent::NoMorePackets), CropStep::SendEof);
}
