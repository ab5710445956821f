use std::path::PathBuf;
use trim_dead_area::app::{
    default_crop_name, App, AppState, CropDialog, FrameDrain, FrameMessage,
};
use trim_dead_area::decoder::{AnalysisMode, VideoFrame};
use trim_dead_area::double::Double;
use trim_dead_area::single::Single;

fn single(x: f32) -> Single {
    Single::from_bits(x.to_bits())
}

fn double(x: f64) -> Double {
    Double::from_bits(x.to_bits())
}

fn frame(level: u8, pts: f64, duration: Option<f64>) -> VideoFrame {
    VideoFrame {
        rgba: vec![level; 4 * 32 * 16],
        width: 32,
        height: 16,
        pts_secs: double(pts),
        duration_secs: duration.map(double),
    }
}

fn path(name: &str) -> PathBuf {
    PathBuf::from(name)
}

fn set_threshold(app: &mut App, threshold: f32) {
    let mut settings = app.settings();
    settings.threshold = single(threshold);
    app.set_settings(settings);
}

fn started() -> App {
    let mut app = App::new(Some(path("a.mp4")), single(6.0), false);
    assert!(app.start_trim());
    app
}

#[test]
fn a_session_starts_idle_or_with_a_file() {
    let idle = App::new(None, single(6.0), true);
    assert_eq!(idle.state(), AppState::Idle);
    assert!(idle.file_path().is_none() && !idle.has_picture());
    assert_eq!(idle.settings().mode, AnalysisMode::Fast);
    assert_eq!(idle.settings().threshold, single(5.0));
    let app = App::new(Some(path("a.mp4")), single(6.0), false);
    assert_eq!(app.state(), AppState::LoadingPreview);
    assert_eq!(app.file_path(), Some(&path("a.mp4")));
    assert_eq!(app.settings().mode, AnalysisMode::Full);
    assert_eq!(app.settings().fps, single(6.0));
}

#[test]
fn the_preview_makes_it_ready() {
    let mut app = App::new(Some(path("a.mp4")), single(6.0), false);
    assert!(!app.poll_preview(None));
    assert_eq!(app.state(), AppState::LoadingPreview);
    assert!(app.poll_preview(Some(&frame(200, 0.0, Some(12.0)))));
    assert_eq!(app.state(), AppState::Ready);
    // There is nothing yet that the first frame differs from.
    assert_eq!(app.active_region(), None);
    assert!(app.has_picture());
    // The channel is closed now.
    assert!(!app.poll_preview(Some(&frame(0, 0.0, None))));
    assert!(app.progress().is_none());
}

#[test]
fn nothing_starts_without_a_file() {
    let mut app = App::new(None, single(6.0), false);
    assert!(!app.start_trim());
    assert_eq!(app.state(), AppState::Idle);
}

#[test]
fn frames_are_shown_while_a_run_is_on() {
    let mut app = App::new(Some(path("a.mp4")), single(6.0), false);
    assert_eq!(
        app.poll_frames(Some(&frame(9, 1.0, None)), false),
        (false, None)
    );
    assert!(app.start_trim());
    assert_eq!(
        app.poll_frames(Some(&frame(9, 3.0, Some(12.0))), false),
        (true, Some(125))
    );
    assert_eq!(app.clock(), (0, double(3.0)));
    assert_eq!(app.active_region(), None);
    assert_eq!(app.progress(), Some(single(0.25)));
    assert_eq!(app.poll_frames(None, false), (false, Some(125)));
    // A frame that does not tell the duration leaves it as it is.
    app.poll_frames(Some(&frame(209, 6.0, None)), false);
    assert_eq!(app.progress(), Some(single(0.5)));
    // A change of 200 counts for a twentieth.
    assert_eq!(app.active_region(), Some([0, 0, 32, 16]));
}

#[test]
fn progress_is_held_between_zero_and_one() {
    let mut app = started();
    assert_eq!(app.progress(), Some(single(0.0)));
    for (pts, duration, want) in [
        (24.0, 12.0, 1.0f32),
        (-3.0, 12.0, 0.0),
        (5.0, 0.0, 0.0),
        (5.0, -1.0, 0.0),
        (1.0, 3.0, (1.0f64 / 3.0) as f32),
        (1e300, 1e-300, 1.0),
    ] {
        app.poll_frames(Some(&frame(0, pts, Some(duration))), false);
        assert_eq!(app.progress(), Some(single(want)));
    }
}

#[test]
fn the_result_may_come_before_the_end() {
    let mut app = started();
    app.poll_analysis(Some(Some([1, 2, 3, 4])));
    assert_eq!(app.state(), AppState::Trimming);
    assert_eq!(app.final_region(), Some([1, 2, 3, 4]));
    assert_eq!(app.poll_frames(None, true), (false, None));
    assert_eq!(app.state(), AppState::Ready);
    assert!(matches!(
        app.crop_dialog(),
        CropDialog::Confirm {
            region: [1, 2, 3, 4]
        }
    ));
}

#[test]
fn the_result_may_come_after_the_end() {
    let mut app = started();
    assert_eq!(
        app.poll_frames(Some(&frame(1, 2.0, None)), true),
        (true, Some(50))
    );
    assert_eq!(app.state(), AppState::AnalysisPending);
    assert!(matches!(app.crop_dialog(), CropDialog::Hidden));
    app.poll_analysis(None);
    assert_eq!(app.state(), AppState::AnalysisPending);
    app.poll_analysis(Some(Some([1, 2, 3, 4])));
    assert_eq!(app.state(), AppState::Ready);
    assert!(matches!(
        app.crop_dialog(),
        CropDialog::Confirm {
            region: [1, 2, 3, 4]
        }
    ));
    assert_eq!(app.final_region(), Some([1, 2, 3, 4]));
}

#[test]
fn without_a_region_the_dialog_says_so() {
    let mut app = started();
    app.poll_analysis(Some(None));
    app.poll_frames(None, true);
    assert!(matches!(app.crop_dialog(), CropDialog::NoRegion));
    app.dismiss_dialog();
    assert!(matches!(app.crop_dialog(), CropDialog::Hidden));
    let mut other = started();
    other.poll_frames(None, true);
    other.poll_analysis(Some(None));
    assert!(matches!(other.crop_dialog(), CropDialog::NoRegion));
}

fn offered() -> App {
    let mut app = started();
    app.poll_analysis(Some(Some([16, 0, 32, 48])));
    app.poll_frames(None, true);
    app
}

#[test]
fn an_export_runs_and_ends() {
    let mut app = offered();
    assert_eq!(app.start_export(path("b.mp4")), Some([16, 0, 32, 48]));
    app.dismiss_dialog();
    assert!(matches!(app.crop_dialog(), CropDialog::Exporting { .. }));
    assert_eq!(app.start_export(path("c.mp4")), None);
    app.poll_export(None);
    assert!(matches!(app.crop_dialog(), CropDialog::Exporting { .. }));
    app.poll_export(Some(Ok(())));
    match app.crop_dialog() {
        CropDialog::Done { output } => assert_eq!(*output, path("b.mp4")),
        _ => panic!("the export should be done"),
    }
    app.dismiss_dialog();
    assert!(matches!(app.crop_dialog(), CropDialog::Hidden));
}

#[test]
fn a_failed_export_is_reported() {
    let mut app = offered();
    assert!(app.start_export(path("b.mp4")).is_some());
    app.poll_export(Some(Err("no space".to_string())));
    match app.crop_dialog() {
        CropDialog::Failed { message } => assert_eq!(message, "no space"),
        _ => panic!("the export should have failed"),
    }
    // Nothing more arrives.
    app.poll_export(Some(Ok(())));
    assert!(matches!(app.crop_dialog(), CropDialog::Failed { .. }));
}

#[test]
fn without_an_offer_nothing_is_exported() {
    let mut app = started();
    assert_eq!(app.start_export(path("b.mp4")), None);
    app.poll_export(Some(Ok(())));
    assert!(matches!(app.crop_dialog(), CropDialog::Hidden));
}

#[test]
fn changed_settings_ask_for_a_restart() {
    let mut app = started();
    app.check_settings();
    assert!(!app.restart_prompt());
    set_threshold(&mut app, 7.5);
    app.check_settings();
    assert!(app.restart_prompt());
    // Keep going: the question is settled until something changes again.
    assert!(!app.answer_restart(false));
    assert!(!app.restart_prompt());
    app.check_settings();
    assert!(!app.restart_prompt());
    let mut settings = app.settings();
    settings.mode = AnalysisMode::Fast;
    app.set_settings(settings);
    app.check_settings();
    assert!(app.restart_prompt());
    assert!(app.answer_restart(true));
    assert_eq!(app.state(), AppState::Trimming);
    assert!(!app.restart_prompt());
    app.check_settings();
    assert!(!app.restart_prompt());
    settings.fps = single(12.0);
    app.set_settings(settings);
    app.check_settings();
    assert!(app.restart_prompt());
}

#[test]
fn rounding_does_not_count_as_a_change() {
    let mut app = started();
    // Small numbers may differ by less than the limit.
    set_threshold(&mut app, 2e-8);
    assert!(app.start_trim());
    set_threshold(&mut app, 1e-8);
    app.check_settings();
    assert!(!app.restart_prompt());
    set_threshold(&mut app, 2e-7);
    app.check_settings();
    assert!(app.restart_prompt());
}

#[test]
fn settings_may_change_between_runs() {
    let mut app = offered();
    set_threshold(&mut app, 9.0);
    app.check_settings();
    assert!(!app.restart_prompt());
    assert!(!app.answer_restart(true));
    assert_eq!(app.state(), AppState::Ready);
}

#[test]
fn opening_a_file_leaves_nothing_stale() {
    let mut app = offered();
    app.poll_analysis(Some(Some([9, 9, 9, 9])));
    app.open_file(path("b.mkv"));
    assert_eq!(app.state(), AppState::LoadingPreview);
    assert_eq!(app.file_path(), Some(&path("b.mkv")));
    assert!(app.final_region().is_none() && app.active_region().is_none());
    assert!(matches!(app.crop_dialog(), CropDialog::Hidden));
    assert!(!app.has_picture() && app.progress().is_none());
    assert_eq!(app.clock(), (0, double(0.0)));
    // A result of the run before is not taken.
    app.poll_analysis(Some(Some([9, 9, 9, 9])));
    assert!(app.final_region().is_none());
}

#[test]
fn only_the_latest_frame_is_kept() {
    let mut drain = FrameDrain::new();
    assert!(drain.take(FrameMessage::Frame(frame(1, 1.0, None))));
    assert!(drain.take(FrameMessage::Frame(frame(2, 2.0, None))));
    assert!(!drain.take(FrameMessage::Empty));
    assert!(!drain.ended);
    assert_eq!(drain.latest.map(|f| f.pts_secs), Some(double(2.0)));
    let mut last = FrameDrain::new();
    assert!(!last.take(FrameMessage::End));
    assert!(last.ended && last.latest.is_none());
    let mut gone = FrameDrain::new();
    assert!(gone.take(FrameMessage::Frame(frame(3, 3.0, None))));
    assert!(!gone.take(FrameMessage::Disconnected));
    assert!(gone.ended && gone.latest.is_some());
}

#[test]
fn frames_of_a_wrong_length_are_not_accepted() {
    let app = started();
    let mut f = frame(1, 0.0, None);
    assert!(app.accepts_frame(&f));
    f.rgba.pop();
    assert!(!app.accepts_frame(&f));
}

#[test]
fn the_crop_is_named_after_the_input() {
    assert_eq!(
        default_crop_name(Some("lecture"), Some("mkv")),
        "lecture_cropped.mkv"
    );
    assert_eq!(default_crop_name(Some("lecture"), None), "lecture_cropped.mp4");
    assert_eq!(default_crop_name(None, Some("mkv")), "cropped.mp4");
}

#[test]
fn the_clock_shows_minutes_and_seconds() {
    let mut app = started();
    for t in [0.0f64, 59.99, 60.0, 61.25, 3599.999, 7200.5, 1e9, 0.1, 119.99999999999999, -3.5] {
        app.poll_frames(Some(&frame(0, t, None)), false);
        let (m, s) = app.clock();
        assert_eq!(m, (t / 60.0) as u64);
        assert_eq!(f64::from_bits(s.to_bits()), t % 60.0);
    }
    app.poll_frames(Some(&frame(0, 61.25, None)), false);
    assert_eq!(app.clock(), (1, double(1.25)));
}
