use trim_dead_area::decoder::{
    can_pack, closing_messages, make_frame, pack_rows, pts_secs, time_base, video_duration,
    AnalysisMode, ClosingMessage, DecodeEvent, DecodeLoop, DecodeStep, FrameSampler, RunEnd,
};
use trim_dead_area::double::Double;
use trim_dead_area::single::Single;

fn single(x: f32) -> Single {
    Single::from_bits(x.to_bits())
}

fn double(x: f64) -> Double {
    Double::from_bits(x.to_bits())
}

fn float(x: Double) -> f64 {
    f64::from_bits(x.to_bits())
}

#[test]
fn padding_is_stripped() {
    // Two pixels per row, three bytes of padding.
    let raw: Vec<u8> = (0..3 * 11).collect();
    let rgba = pack_rows(&raw, 11, 2, 3);
    let want: Vec<u8> = (0..8).chain(11..19).chain(22..30).collect();
    assert_eq!(rgba, want);
}

#[test]
fn the_last_row_needs_no_padding() {
    let raw: Vec<u8> = (0..19).collect();
    assert!(can_pack(raw.len(), 11, 2, 2));
    assert!(!can_pack(raw.len() - 1, 11, 2, 2));
    assert_eq!(pack_rows(&raw, 11, 2, 2).len(), 16);
    assert!(can_pack(0, 11, 2, 0));
    assert!(!can_pack(usize::MAX, usize::MAX, u32::MAX, u32::MAX));
    assert_eq!(pack_rows(&raw, 11, 0, 2), Vec::<u8>::new());
    assert_eq!(pack_rows(&raw, 11, 2, 0), Vec::<u8>::new());
}

#[test]
fn times_are_those_of_the_machine() {
    for (num, den) in [(1, 1000), (1, 90000), (1001, 30000), (-1, 25), (1, 0), (0, 0)] {
        let tb = time_base(num, den);
        let want = num as f64 / den as f64;
        assert!(float(tb) == want || float(tb).is_nan() && want.is_nan());
    }
    let tb = time_base(1001, 30000);
    for p in [0i64, 1, 2, 12345, -77, i64::MAX, i64::MIN] {
        assert_eq!(
            float(pts_secs(Some(p), tb, 3)),
            p as f64 * (1001.0 / 30000.0)
        );
    }
    for index in [0u64, 1, 29, 30, 1000, u64::MAX] {
        assert_eq!(float(pts_secs(None, tb, index)), index as f64 / 30.0);
    }
}

#[test]
fn durations_are_in_millionths_of_a_second() {
    assert_eq!(video_duration(90_500_000).map(float), Some(90.5));
    assert_eq!(video_duration(1).map(float), Some(1.0 / 1e6));
    assert!(video_duration(0).is_none());
    assert!(video_duration(i64::MIN).is_none());
}

#[test]
fn frames_are_made_of_rows() {
    let raw: Vec<u8> = (0..24).collect();
    let f = make_frame(
        &raw,
        12,
        2,
        2,
        Some(50),
        time_base(1, 25),
        9,
        Some(double(4.0)),
    );
    let want: Vec<u8> = (0..8).chain(12..20).collect();
    assert_eq!(f.rgba, want);
    assert_eq!((f.width, f.height), (2, 2));
    assert_eq!(float(f.pts_secs), 50.0 * (1.0 / 25.0));
    assert_eq!(f.duration_secs.map(float), Some(4.0));
    let g = make_frame(&raw, 12, 2, 2, None, time_base(1, 25), 9, None);
    assert_eq!(float(g.pts_secs), 0.3);
    assert!(g.duration_secs.is_none());
}

#[test]
fn samples_follow_the_rate() {
    for rate in [0.0f32, 0.05, 0.1, 1.0, 6.0, 29.97, 30.0, f32::NAN] {
        let mut sampler = FrameSampler::new(AnalysisMode::Full, single(rate));
        let interval = 1.0 / rate.max(0.1) as f64;
        let mut last = f64::NEG_INFINITY;
        let mut taken = 0;
        for i in 0..600 {
            let t = i as f64 / 24.0;
            let want = t - last >= interval;
            if want {
                last = t;
                taken += 1;
            }
            assert_eq!(sampler.take(double(t)), want);
        }
        assert!(taken >= 1);
    }
}

#[test]
fn the_first_frame_is_always_sampled() {
    let mut sampler = FrameSampler::new(AnalysisMode::Full, single(0.0));
    assert!(sampler.take(double(-1000.0)));
    assert!(!sampler.take(double(-999.0)));
    let mut endless = FrameSampler::new(AnalysisMode::Full, single(f32::INFINITY));
    assert!(endless.take(double(0.0)));
    assert!(endless.take(double(0.0)));
}

#[test]
fn samples_are_the_interval_apart() {
    let mut sampler = FrameSampler::new(AnalysisMode::Full, single(6.0));
    let times: Vec<f64> = (0..1000).map(|i| i as f64 * 0.0333).collect();
    let taken: Vec<f64> = times
        .into_iter()
        .filter(|t| sampler.take(double(*t)))
        .collect();
    assert!(taken.len() > 100);
    for pair in taken.windows(2) {
        assert!(pair[1] - pair[0] >= 1.0 / 6.0);
    }
}

#[test]
fn fast_mode_samples_every_frame() {
    let mut sampler = FrameSampler::new(AnalysisMode::Fast, single(1.0));
    for i in 0..10 {
        assert!(sampler.take(double(i as f64 * 0.001)));
    }
    assert!(sampler.take(double(f64::NAN)));
}

#[test]
fn only_the_video_stream_is_decoded() {
    let mut run = DecodeLoop::new(2, AnalysisMode::Full);
    assert_eq!(
        run.step(DecodeEvent::Packet {
            stream: 0,
            key: true
        }),
        DecodeStep::ReadPacket
    );
    assert_eq!(
        run.step(DecodeEvent::Packet {
            stream: 2,
            key: false
        }),
        DecodeStep::SendPacket
    );
    assert_eq!(run.step(DecodeEvent::PacketRefused), DecodeStep::ReadPacket);
}

#[test]
fn fast_mode_decodes_key_frames_only() {
    let mut run = DecodeLoop::new(2, AnalysisMode::Fast);
    assert_eq!(
        run.step(DecodeEvent::Packet {
            stream: 2,
            key: false
        }),
        DecodeStep::ReadPacket
    );
    assert_eq!(
        run.step(DecodeEvent::Packet {
            stream: 2,
            key: true
        }),
        DecodeStep::SendPacket
    );
}

#[test]
fn a_gone_receiver_stops_the_run() {
    let mut run = DecodeLoop::new(0, AnalysisMode::Full);
    run.step(DecodeEvent::Packet {
        stream: 0,
        key: true,
    });
    run.step(DecodeEvent::PacketSent);
    assert_eq!(run.step(DecodeEvent::Frame), DecodeStep::ConvertFrame);
    assert_eq!(
        run.step(DecodeEvent::Converted),
        DecodeStep::DeliverFrame { index: 0 }
    );
    assert_eq!(run.step(DecodeEvent::ReceiverGone), DecodeStep::Stop);
}

/// Run with `packets` packets, of which each gives as many frames as the list
/// says, and the last entry is what the flush gives. Conversion fails for each
/// frame in `broken`. Returns the numbers handed on, and the frames they are of.
fn run_through(mut run: DecodeLoop, per_packet: &[usize], broken: &[usize]) -> Vec<(u64, usize)> {
    let mut step = DecodeStep::ReadPacket;
    let mut read = 0;
    let mut waiting = 0;
    let mut decoded = 0;
    let mut delivered = Vec::new();
    loop {
        step = match step {
            DecodeStep::ReadPacket => {
                if read + 1 < per_packet.len() {
                    read += 1;
                    run.step(DecodeEvent::Packet {
                        stream: 0,
                        key: true,
                    })
                } else {
                    run.step(DecodeEvent::NoMorePackets)
                }
            }
            DecodeStep::SendPacket => {
                waiting = per_packet[read - 1];
                run.step(DecodeEvent::PacketSent)
            }
            DecodeStep::SendEof => {
                waiting = per_packet[read];
                run.step(DecodeEvent::EofSent)
            }
            DecodeStep::ReceiveFrame => {
                if waiting > 0 {
                    waiting -= 1;
                    decoded += 1;
                    run.step(DecodeEvent::Frame)
                } else {
                    run.step(DecodeEvent::NoFrame)
                }
            }
            DecodeStep::ConvertFrame => {
                if broken.contains(&(decoded - 1)) {
                    run.step(DecodeEvent::ConversionFailed)
                } else {
                    run.step(DecodeEvent::Converted)
                }
            }
            DecodeStep::DeliverFrame { index } => {
                delivered.push((index, decoded - 1));
                run.step(DecodeEvent::Delivered)
            }
            DecodeStep::Finish => return delivered,
            DecodeStep::Stop => unreachable!(),
        };
    }
}

#[test]
fn every_frame_is_handed_on() {
    let run = DecodeLoop::new(0, AnalysisMode::Full);
    assert_eq!(
        run_through(run, &[0, 2, 1, 2], &[]),
        vec![(0, 0), (1, 1), (2, 2), (3, 3), (4, 4)]
    );
    // A frame that cannot be converted has no number.
    assert_eq!(
        run_through(run, &[0, 2, 1, 2], &[1]),
        vec![(0, 0), (1, 2), (2, 3), (3, 4)]
    );
}

#[test]
fn every_nth_frame_is_sampled() {
    assert_eq!(
        run_through(DecodeLoop::sampled(0, 4), &[5, 5, 3], &[]),
        vec![(0, 0), (4, 4), (8, 8), (12, 12)]
    );
    // A frame that cannot be converted counts all the same.
    assert_eq!(
        run_through(DecodeLoop::sampled(0, 4), &[5, 5, 3], &[4]),
        vec![(0, 0), (8, 8), (12, 12)]
    );
    assert_eq!(
        run_through(DecodeLoop::sampled(0, 0), &[2, 1], &[]),
        vec![(0, 0), (1, 1), (2, 2)]
    );
}

#[test]
fn a_busy_display_changes_nothing_but_what_is_shown() {
    let play = |busy: fn(u64) -> bool| {
        let mut run = DecodeLoop::new(0, AnalysisMode::Full);
        let mut analysed = Vec::new();
        let mut shown = Vec::new();
        let key = true;
        run.step(DecodeEvent::Packet { stream: 0, key });
        run.step(DecodeEvent::PacketSent);
        for _ in 0..20 {
            assert_eq!(run.step(DecodeEvent::Frame), DecodeStep::ConvertFrame);
            match run.step(DecodeEvent::Converted) {
                DecodeStep::DeliverFrame { index } => {
                    analysed.push(index);
                    let event = if busy(index) {
                        DecodeEvent::Dropped
                    } else {
                        shown.push(index);
                        DecodeEvent::Delivered
                    };
                    assert_eq!(run.step(event), DecodeStep::ReceiveFrame);
                }
                _ => unreachable!(),
            }
        }
        (run, analysed, shown)
    };
    let (run_a, analysed_a, shown_a) = play(|_| false);
    let (run_b, analysed_b, shown_b) = play(|k| k % 3 != 0);
    assert_eq!(run_a, run_b);
    assert_eq!(analysed_a, analysed_b);
    assert_eq!(shown_a, (0..20).collect::<Vec<u64>>());
    assert_eq!(shown_b, vec![0, 3, 6, 9, 12, 15, 18]);
}

#[test]
fn the_result_comes_before_the_end_of_the_video() {
    let region = Some([1, 2, 3, 4]);
    assert_eq!(
        closing_messages(RunEnd::Finished, Some(region)),
        vec![ClosingMessage::Region(region), ClosingMessage::EndOfVideo]
    );
    assert_eq!(
        closing_messages(RunEnd::Finished, Some(None)),
        vec![ClosingMessage::Region(None), ClosingMessage::EndOfVideo]
    );
    // A display that is gone is told nothing.
    assert_eq!(
        closing_messages(RunEnd::Stopped, Some(region)),
        vec![ClosingMessage::Region(region)]
    );
    // A file that cannot be opened has no region.
    assert_eq!(
        closing_messages(RunEnd::NotOpened, Some(region)),
        vec![ClosingMessage::EndOfVideo, ClosingMessage::Region(None)]
    );
}

#[test]
fn without_an_analysis_only_the_end_is_told() {
    let end = vec![ClosingMessage::EndOfVideo];
    assert_eq!(closing_messages(RunEnd::Finished, None), end);
    assert_eq!(closing_messages(RunEnd::NotOpened, None), end);
    assert_eq!(closing_messages(RunEnd::Stopped, None), vec![]);
}
