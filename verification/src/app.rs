//! The course of a session: a file is opened, previewed, analysed and cropped.
//!
//! [`App`] holds everything that decides what happens next. The window, the
//! channels and the threads are outside; they report what arrived.

use crate::analysis::{blocks_across, gray_of, Motion, MotionAnalyzer};
use crate::bbox::{active_blocks, is_bbox, BboxMethod};
use crate::bbox_laws::lemma_nothing_active;
use crate::decoder::{AnalysisMode, VideoFrame};
use crate::double::Double;
use crate::motion_laws::lemma_warming_up;
use crate::number::{lemma_small_int, Format, Num};
use crate::rounding::{lemma_nearest_even_exact, lemma_round_to_exact, lemma_round_to_monotone};
use crate::single::{single_num, Single};
use std::path::PathBuf;
use vstd::arithmetic::power2::{
    lemma_pow2_adds, lemma_pow2_pos, lemma_pow2_strictly_increases, pow2,
};
use vstd::prelude::*;
use vstd::string::StringExecFns;

verus! {

/// `std::path::PathBuf`, the path of a file. Nothing is claimed of it: a session
/// carries paths along and never looks into them.
#[verifier::external_type_specification]
#[verifier::external_body]
pub struct ExPathBuf(PathBuf);

/// The high-level state of a session.
#[derive(Clone, Copy, Debug, PartialEq, Eq, Structural)]
pub enum AppState {
    /// No file is loaded.
    Idle,
    /// File opened; first-frame preview decode in flight.
    LoadingPreview,
    /// Preview frame shown; waiting for the user to start.
    Ready,
    /// Decode and analysis running; video frames are being displayed.
    Trimming,
    /// Playback finished; waiting for the analysis result before showing the
    /// dialog.
    AnalysisPending,
}

/// The dialog about cropping.
pub enum CropDialog {
    Hidden,
    /// Analysis finished but no block reached the threshold.
    NoRegion,
    Confirm { region: [u32; 4] },
    /// The export is running.
    Exporting { region: [u32; 4], output: PathBuf },
    Done { output: PathBuf },
    Failed { message: String },
}

/// What a session has come to.
pub ghost struct Session {
    pub state: AppState,
    pub file: Option<PathBuf>,
    /// A preview frame, video frames, an analysis result or the outcome of an
    /// export may still arrive.
    pub preview_open: bool,
    pub frames_open: bool,
    pub analysis_open: bool,
    pub export_open: bool,
    /// A frame is on display.
    pub picture: bool,
    pub pts: Double,
    pub duration: Option<Double>,
    pub motion: Motion,
    pub active_region: Option<[u32; 4]>,
    pub final_region: Option<[u32; 4]>,
    pub dialog: CropDialog,
    pub restart_prompt: bool,
    pub settings: Settings,
    /// The settings that the current run was started with, or that the user
    /// chose to keep it running with.
    pub last: Settings,
}

/// What the user can set.
#[derive(Clone, Copy, Debug)]
pub struct Settings {
    /// Minimum score of an active block.
    pub threshold: Single,
    /// Frames per second of video time sampled for analysis, in full mode.
    pub fps: Single,
    pub mode: AnalysisMode,
}

/// The default threshold, 5.0.
pub const DEFAULT_THRESHOLD: u32 = 0x40a0_0000;

/// The distance from one to the next larger number.
pub const EPSILON: u32 = 0x3400_0000;

/// The numbers are more than rounding apart.
pub open spec fn apart(a: Num, b: Num) -> bool {
    a.minus(Format::Single, b).abs().above(single_num(EPSILON))
}

impl Settings {
    /// Some setting has another value.
    pub open spec fn differ(self, other: Settings) -> bool {
        ||| apart(self.threshold@, other.threshold@)
        ||| apart(self.fps@, other.fps@)
        ||| self.mode != other.mode
    }
}

impl Session {
    /// What of a session fits together.
    pub open spec fn wf(self) -> bool {
        &&& self.state is Idle <==> self.file is None
        &&& self.preview_open <==> self.state is LoadingPreview
        &&& self.state is Trimming ==> self.frames_open && self.dialog is Hidden
        &&& self.state is AnalysisPending ==> self.analysis_open && self.dialog is Hidden
        &&& self.analysis_open ==> self.final_region is None && (self.state is Trimming
            || self.state is AnalysisPending)
        &&& self.export_open <==> self.dialog is Exporting
        &&& self.motion.wf()
    }

    /// Without a trace of an earlier run.
    pub open spec fn cleared(self) -> Session {
        Session {
            preview_open: false,
            frames_open: false,
            analysis_open: false,
            export_open: false,
            picture: false,
            pts: Double { bits: 0 },
            duration: None,
            motion: Motion::empty(),
            active_region: None,
            final_region: None,
            dialog: CropDialog::Hidden,
            restart_prompt: false,
            ..self
        }
    }

    /// A run is on, or the user is asked whether to start it again.
    pub open spec fn trimming(self) -> bool {
        self.state is Trimming || self.state is AnalysisPending || self.restart_prompt
    }

    /// A file has been opened.
    pub open spec fn opened(self, path: PathBuf) -> Session {
        Session {
            state: AppState::LoadingPreview,
            file: Some(path),
            preview_open: true,
            ..self.cleared()
        }
    }

    /// A run has been started, where there is a file.
    pub open spec fn started(self) -> Session {
        if self.file is None {
            self
        } else {
            Session {
                state: AppState::Trimming,
                frames_open: true,
                analysis_open: true,
                last: self.settings,
                ..self.cleared()
            }
        }
    }

    /// The dialog that follows an analysis.
    pub open spec fn verdict(region: Option<[u32; 4]>) -> CropDialog {
        match region {
            Some(region) => CropDialog::Confirm { region },
            None => CropDialog::NoRegion,
        }
    }

    /// The video has been played to its end.
    pub open spec fn ended(self) -> Session {
        if self.final_region is None && self.analysis_open {
            Session { state: AppState::AnalysisPending, ..self }
        } else {
            Session {
                state: AppState::Ready,
                dialog: Session::verdict(self.final_region),
                ..self
            }
        }
    }

    /// The analysis has given its result.
    pub open spec fn analysed(self, region: Option<[u32; 4]>) -> Session {
        if !self.analysis_open {
            self
        } else if self.state is AnalysisPending {
            Session {
                state: AppState::Ready,
                final_region: region,
                analysis_open: false,
                dialog: Session::verdict(region),
                ..self
            }
        } else {
            Session { final_region: region, analysis_open: false, ..self }
        }
    }

    /// A frame is on display; `region` is the live active region.
    pub open spec fn shown(self, frame: VideoFrame, region: Option<[u32; 4]>) -> Session {
        Session {
            motion: self.motion.averaged(frame.width, frame.height, gray_of(frame.rgba@)),
            active_region: region,
            picture: true,
            ..self
        }
    }

    /// The frame can be compared with the last one.
    pub open spec fn accepts(self, frame: VideoFrame) -> bool {
        self.motion.accepts(frame.width, frame.height, frame.rgba@.len() / 4)
    }

    /// `region` is the bounding box of the blocks whose moving average reaches
    /// the threshold once the frame is in.
    pub open spec fn live_region(self, frame: VideoFrame, region: Option<[u32; 4]>) -> bool {
        let motion = self.motion.averaged(frame.width, frame.height, gray_of(frame.rgba@));
        is_bbox(
            region,
            active_blocks(motion.scores, self.settings.threshold@),
            motion.cols(),
            motion.rows(),
            frame.width,
            frame.height,
            BboxMethod::Union,
        )
    }

    /// The preview frame has arrived; `region` is the live active region.
    pub open spec fn previewed(self, frame: VideoFrame, region: Option<[u32; 4]>) -> Session {
        Session {
            preview_open: false,
            state: AppState::Ready,
            ..self.timed(frame).shown(frame, region)
        }
    }

    /// A frame of a run has arrived; `region` is the live active region.
    pub open spec fn played(self, frame: VideoFrame, region: Option<[u32; 4]>) -> Session {
        (Session { pts: frame.pts_secs, ..self }).timed(frame).shown(frame, region)
    }

    /// The user has chosen where to save the cropped video.
    pub open spec fn exporting(self, output: PathBuf) -> Session {
        match self.dialog {
            CropDialog::Confirm { region } => if self.file is Some {
                Session {
                    export_open: true,
                    dialog: CropDialog::Exporting { region, output },
                    ..self
                }
            } else {
                self
            },
            _ => self,
        }
    }

    /// The export has come to its end.
    pub open spec fn exported(self, result: Result<(), String>) -> Session {
        match self.dialog {
            CropDialog::Exporting { output, .. } => Session {
                export_open: false,
                dialog: match result {
                    Ok(_) => CropDialog::Done { output },
                    Err(message) => CropDialog::Failed { message },
                },
                ..self
            },
            _ => self,
        }
    }

    /// The user has closed the dialog.
    pub open spec fn dismissed(self) -> Session {
        if self.dialog is Exporting {
            self
        } else {
            Session { dialog: CropDialog::Hidden, ..self }
        }
    }

    /// The settings have been looked at.
    pub open spec fn checked(self) -> Session {
        Session {
            restart_prompt: self.restart_prompt || (self.trimming() && self.settings.differ(
                self.last,
            )),
            ..self
        }
    }

    /// The user has answered whether to restart.
    pub open spec fn answered(self, restart: bool) -> Session {
        if !self.restart_prompt {
            self
        } else if restart {
            self.started()
        } else {
            Session { last: self.settings, restart_prompt: false, ..self }
        }
    }

    /// The length of the video, where the frame tells it.
    pub open spec fn timed(self, frame: VideoFrame) -> Session {
        Session {
            duration: if frame.duration_secs is Some {
                frame.duration_secs
            } else {
                self.duration
            },
            ..self
        }
    }
}

/// A session.
pub struct App {
    state: AppState,
    file_path: Option<PathBuf>,
    preview_open: bool,
    frames_open: bool,
    analysis_open: bool,
    export_open: bool,
    picture: bool,
    /// Time of the last displayed frame.
    current_pts: Double,
    /// Total duration of the current video.
    video_duration: Option<Double>,
    motion_analyzer: MotionAnalyzer,
    active_region: Option<[u32; 4]>,
    final_region: Option<[u32; 4]>,
    crop_dialog: CropDialog,
    /// The question whether to restart with changed settings is on display.
    restart_prompt: bool,
    settings: Settings,
    last_settings: Settings,
}

impl View for App {
    type V = Session;

    closed spec fn view(&self) -> Session {
        Session {
            state: self.state,
            file: self.file_path,
            preview_open: self.preview_open,
            frames_open: self.frames_open,
            analysis_open: self.analysis_open,
            export_open: self.export_open,
            picture: self.picture,
            pts: self.current_pts,
            duration: self.video_duration,
            motion: self.motion_analyzer@,
            active_region: self.active_region,
            final_region: self.final_region,
            dialog: self.crop_dialog,
            restart_prompt: self.restart_prompt,
            settings: self.settings,
            last: self.last_settings,
        }
    }
}

impl App {
    /// A session at its beginning, with the file to open on launch, if any.
    pub fn new(initial_file: Option<PathBuf>, analysis_fps: Single, fast: bool) -> (app: App)
        ensures
            app@.wf(),
            app@.settings == app@.last,
            app@.settings.threshold == (Single { bits: DEFAULT_THRESHOLD }),
            app@.settings.fps == analysis_fps,
            app@.settings.mode == (if fast {
                AnalysisMode::Fast
            } else {
                AnalysisMode::Full
            }),
            match initial_file {
                None => app@.state is Idle && app@.file is None && app@ == app@.cleared(),
                Some(path) => app@ == app@.opened(path),
            },
    {
        let settings = Settings {
            threshold: Single::from_bits(DEFAULT_THRESHOLD),
            fps: analysis_fps,
            mode: if fast {
                AnalysisMode::Fast
            } else {
                AnalysisMode::Full
            },
        };
        let mut app = App {
            state: AppState::Idle,
            file_path: None,
            preview_open: false,
            frames_open: false,
            analysis_open: false,
            export_open: false,
            picture: false,
            current_pts: Double::from_bits(0),
            video_duration: None,
            motion_analyzer: MotionAnalyzer::default(),
            active_region: None,
            final_region: None,
            crop_dialog: CropDialog::Hidden,
            restart_prompt: false,
            settings,
            last_settings: settings,
        };
        match initial_file {
            Some(path) => {
                app.open_file(path);
            },
            None => {},
        }
        app
    }

    pub fn state(&self) -> (r: AppState)
        ensures
            r == self@.state,
    {
        self.state
    }

    /// The file that is loaded.
    pub fn file_path(&self) -> (r: Option<&PathBuf>)
        ensures
            match r {
                Some(path) => self@.file == Some(*path),
                None => self@.file is None,
            },
    {
        match &self.file_path {
            Some(path) => Some(path),
            None => None,
        }
    }

    /// Whether a frame is on display.
    pub fn has_picture(&self) -> (r: bool)
        ensures
            r == self@.picture,
    {
        self.picture
    }

    /// The region of the blocks that are moving now.
    pub fn active_region(&self) -> (r: Option<[u32; 4]>)
        ensures
            r == self@.active_region,
    {
        self.active_region
    }

    /// The region that the analysis of the whole video has found.
    pub fn final_region(&self) -> (r: Option<[u32; 4]>)
        ensures
            r == self@.final_region,
    {
        self.final_region
    }

    pub fn crop_dialog(&self) -> (r: &CropDialog)
        ensures
            *r == self@.dialog,
    {
        &self.crop_dialog
    }

    /// Whether to ask the user about a restart.
    pub fn restart_prompt(&self) -> (r: bool)
        ensures
            r == self@.restart_prompt,
    {
        self.restart_prompt
    }

    pub fn settings(&self) -> (r: Settings)
        ensures
            r == self@.settings,
    {
        self.settings
    }

    /// The user has changed the settings. The live region follows with the next
    /// displayed frame; the analysis of the whole video, where one is running,
    /// does not.
    pub fn set_settings(&mut self, settings: Settings)
        ensures
            final(self)@ == (Session { settings, ..old(self)@ }),
            old(self)@.wf() ==> final(self)@.wf(),
    {
        self.settings = settings;
    }

    /// Reset every piece of transient per-run state, so that neither opening a
    /// file nor starting a run can leave stale data from a previous one.
    fn reset_run_state(&mut self)
        ensures
            final(self)@ == old(self)@.cleared(),
    {
        self.preview_open = false;
        self.frames_open = false;
        self.analysis_open = false;
        self.export_open = false;
        self.picture = false;
        self.current_pts = Double::from_bits(0);
        self.video_duration = None;
        self.motion_analyzer.reset();
        self.active_region = None;
        self.final_region = None;
        self.crop_dialog = CropDialog::Hidden;
        self.restart_prompt = false;
    }

    /// Load a file without starting analysis. A preview of its first frame is
    /// to be decoded.
    pub fn open_file(&mut self, path: PathBuf)
        ensures
            final(self)@ == old(self)@.opened(path),
            final(self)@.wf(),
    {
        self.reset_run_state();
        self.state = AppState::LoadingPreview;
        self.file_path = Some(path);
        self.preview_open = true;
    }

    /// Start, or start again, decoding and analysis from the beginning. Says
    /// whether there is a file to do so with.
    pub fn start_trim(&mut self) -> (started: bool)
        requires
            old(self)@.wf(),
        ensures
            started == (old(self)@.file is Some),
            final(self)@ == old(self)@.started(),
            final(self)@.wf(),
    {
        if self.file_path.is_none() {
            return false;
        }
        self.reset_run_state();
        self.state = AppState::Trimming;
        self.frames_open = true;
        self.analysis_open = true;
        self.last_settings = self.settings;
        true
    }

    fn is_trimming(&self) -> (r: bool)
        ensures
            r == self@.trimming(),
    {
        match self.state {
            AppState::Trimming | AppState::AnalysisPending => true,
            _ => self.restart_prompt,
        }
    }

    /// Whether a frame can be put on display.
    pub fn accepts_frame(&self, frame: &VideoFrame) -> (r: bool)
        requires
            self@.motion.wf(),
        ensures
            r == self@.accepts(*frame),
    {
        self.motion_analyzer.accepts_frame(frame)
    }

    /// Put a frame on display: the live active region follows.
    fn upload_frame(&mut self, frame: &VideoFrame)
        requires
            old(self)@.motion.wf(),
            old(self)@.accepts(*frame),
        ensures
            final(self)@ == old(self)@.shown(*frame, final(self)@.active_region),
            old(self)@.live_region(*frame, final(self)@.active_region),
            final(self)@.motion.wf(),
    {
        let region = self.motion_analyzer.update(frame, self.settings.threshold);
        self.active_region = region;
        self.picture = true;
    }

    /// The preview frame has arrived, or not. Says whether it is to be shown.
    pub fn poll_preview(&mut self, received: Option<&VideoFrame>) -> (show: bool)
        requires
            old(self)@.wf(),
            old(self)@.preview_open ==> (received matches Some(f) ==> old(self)@.accepts(*f)),
        ensures
            show == (old(self)@.preview_open && received is Some),
            !show ==> final(self)@ == old(self)@,
            show ==> {
                let frame = *received->0;
                let region = final(self)@.active_region;
                &&& old(self)@.live_region(frame, region)
                &&& final(self)@ == (Session {
                    preview_open: false,
                    state: AppState::Ready,
                    ..old(self)@.timed(frame).shown(frame, region)
                })
                &&& final(self)@ == old(self)@.previewed(frame, region)
            },
            final(self)@.wf(),
    {
        if !self.preview_open {
            return false;
        }
        match received {
            None => false,
            Some(frame) => {
                if frame.duration_secs.is_some() {
                    self.video_duration = frame.duration_secs;
                }
                self.upload_frame(frame);
                self.preview_open = false;
                self.state = AppState::Ready;
                true
            },
        }
    }

    /// The decode channel has been drained: `latest` is the last frame in it,
    /// and `ended` says whether the video is over. Does nothing unless a run is
    /// on. Says whether the frame is to be shown, and after how many
    /// milliseconds to look again.
    pub fn poll_frames(&mut self, latest: Option<&VideoFrame>, ended: bool) -> (r: (bool, Option<u64>))
        requires
            old(self)@.wf(),
            old(self)@.state is Trimming ==> (latest matches Some(f) ==> old(self)@.accepts(*f)),
        ensures
            !(old(self)@.state is Trimming) ==> final(self)@ == old(self)@ && r == (
                false,
                None::<u64>,
            ),
            old(self)@.state is Trimming ==> {
                let region = final(self)@.active_region;
                let shown = match latest {
                    Some(f) => (Session { pts: f.pts_secs, ..old(self)@ }).timed(*f).shown(
                        *f,
                        region,
                    ),
                    None => old(self)@,
                };
                &&& latest matches Some(f) ==> old(self)@.live_region(*f, region)
                &&& final(self)@ == (if ended {
                    shown.ended()
                } else {
                    shown
                })
                &&& latest matches Some(f) ==> shown == old(self)@.played(*f, region)
                &&& r.0 == (latest is Some)
                &&& r.1 == (if !ended {
                    Some(125u64)
                } else if final(self)@.state is AnalysisPending {
                    Some(50u64)
                } else {
                    None
                })
            },
            final(self)@.wf(),
    {
        match self.state {
            AppState::Trimming => {},
            _ => {
                return (false, None);
            },
        }
        if !self.frames_open {
            return (false, None);
        }
        let show = match latest {
            None => false,
            Some(frame) => {
                self.current_pts = frame.pts_secs;
                if frame.duration_secs.is_some() {
                    self.video_duration = frame.duration_secs;
                }
                self.upload_frame(frame);
                true
            },
        };
        if ended {
            (show, self.on_playback_ended())
        } else {
            // All frames are decoded and analysed; the display takes about eight
            // of them per second.
            (show, Some(125))
        }
    }

    /// The video has been played to its end. Says after how many milliseconds
    /// to look again, where the analysis is not done yet.
    fn on_playback_ended(&mut self) -> (again: Option<u64>)
        requires
            old(self)@.wf(),
            old(self)@.state is Trimming,
        ensures
            final(self)@ == old(self)@.ended(),
            again == (if final(self)@.state is AnalysisPending {
                Some(50u64)
            } else {
                None
            }),
            final(self)@.wf(),
    {
        self.state = AppState::Ready;
        match self.final_region {
            Some(region) => {
                self.crop_dialog = CropDialog::Confirm { region };
                None
            },
            None => {
                if self.analysis_open {
                    // The result has not arrived yet; stay alive until it does.
                    self.state = AppState::AnalysisPending;
                    Some(50)
                } else {
                    self.crop_dialog = CropDialog::NoRegion;
                    None
                }
            },
        }
    }

    /// The analysis has given its result, or not yet.
    pub fn poll_analysis(&mut self, received: Option<Option<[u32; 4]>>)
        requires
            old(self)@.wf(),
        ensures
            final(self)@ == (match received {
                Some(region) => old(self)@.analysed(region),
                None => old(self)@,
            }),
            final(self)@.wf(),
    {
        if !self.analysis_open {
            return;
        }
        match received {
            None => {},
            Some(result) => {
                self.final_region = result;
                self.analysis_open = false;
                match self.state {
                    AppState::AnalysisPending => {
                        self.state = AppState::Ready;
                        self.crop_dialog = match result {
                            Some(region) => CropDialog::Confirm { region },
                            None => CropDialog::NoRegion,
                        };
                    },
                    _ => {},
                }
            },
        }
    }

    /// The user has chosen where to save the cropped video. Says which region to
    /// crop to, where the dialog has offered one.
    pub fn start_export(&mut self, output: PathBuf) -> (region: Option<[u32; 4]>)
        requires
            old(self)@.wf(),
        ensures
            match old(self)@.dialog {
                CropDialog::Confirm { region: offered } => if old(self)@.file is Some {
                    &&& region == Some(offered)
                    &&& final(self)@ == (Session {
                        export_open: true,
                        dialog: CropDialog::Exporting { region: offered, output },
                        ..old(self)@
                    })
                } else {
                    region is None && final(self)@ == old(self)@
                },
                _ => region is None && final(self)@ == old(self)@,
            },
            final(self)@ == old(self)@.exporting(output),
            final(self)@.wf(),
    {
        let region: [u32; 4] = match &self.crop_dialog {
            CropDialog::Confirm { region } => *region,
            _ => {
                return None;
            },
        };
        if self.file_path.is_none() {
            return None;
        }
        self.export_open = true;
        self.crop_dialog = CropDialog::Exporting { region, output };
        Some(region)
    }

    /// The user has closed the dialog; a running export cannot be dismissed.
    pub fn dismiss_dialog(&mut self)
        requires
            old(self)@.wf(),
        ensures
            final(self)@ == (if old(self)@.dialog is Exporting {
                old(self)@
            } else {
                Session { dialog: CropDialog::Hidden, ..old(self)@ }
            }),
            final(self)@ == old(self)@.dismissed(),
            final(self)@.wf(),
    {
        match &self.crop_dialog {
            CropDialog::Exporting { .. } => {},
            _ => {
                self.crop_dialog = CropDialog::Hidden;
            },
        }
    }

    /// The export has come to its end, or not yet.
    pub fn poll_export(&mut self, received: Option<Result<(), String>>)
        requires
            old(self)@.wf(),
        ensures
            match (old(self)@.dialog, received) {
                (CropDialog::Exporting { output, .. }, Some(result)) => final(self)@ == (Session {
                    export_open: false,
                    dialog: match result {
                        Ok(_) => CropDialog::Done { output },
                        Err(message) => CropDialog::Failed { message },
                    },
                    ..old(self)@
                }),
                _ => final(self)@ == old(self)@,
            },
            final(self)@ == (match received {
                Some(result) => old(self)@.exported(result),
                None => old(self)@,
            }),
            final(self)@.wf(),
    {
        if !self.export_open {
            return;
        }
        match received {
            None => {},
            Some(result) => {
                let mut dialog = CropDialog::Hidden;
                std::mem::swap(&mut dialog, &mut self.crop_dialog);
                self.export_open = false;
                self.crop_dialog = match (dialog, result) {
                    (CropDialog::Exporting { output, .. }, Ok(_)) => CropDialog::Done { output },
                    (_, Err(message)) => CropDialog::Failed { message },
                    (_, Ok(_)) => CropDialog::Hidden,
                };
            },
        }
    }

    /// Ask whether to restart where the settings have changed while a run is on.
    pub fn check_settings(&mut self)
        ensures
            final(self)@ == (Session {
                restart_prompt: old(self)@.restart_prompt || (old(self)@.trimming()
                    && old(self)@.settings.differ(old(self)@.last)),
                ..old(self)@
            }),
            final(self)@ == old(self)@.checked(),
            old(self)@.wf() ==> final(self)@.wf(),
    {
        if self.is_trimming() && !self.restart_prompt && (are_apart(
            self.settings.threshold,
            self.last_settings.threshold,
        ) || are_apart(self.settings.fps, self.last_settings.fps) || self.settings.mode
            != self.last_settings.mode) {
            self.restart_prompt = true;
        }
    }

    /// The user has answered whether to restart with the new settings. Says
    /// whether a run is to be started.
    pub fn answer_restart(&mut self, restart: bool) -> (started: bool)
        requires
            old(self)@.wf(),
        ensures
            started == (old(self)@.restart_prompt && restart && old(self)@.file is Some),
            final(self)@ == (if !old(self)@.restart_prompt {
                old(self)@
            } else if restart {
                old(self)@.started()
            } else {
                Session { last: old(self)@.settings, restart_prompt: false, ..old(self)@ }
            }),
            final(self)@ == old(self)@.answered(restart),
            final(self)@.wf(),
    {
        if !self.restart_prompt {
            return false;
        }
        if restart {
            self.start_trim()
        } else {
            // Do not ask again unless the settings change again.
            self.last_settings = self.settings;
            self.restart_prompt = false;
            false
        }
    }

    /// The time of the last displayed frame, as minutes and seconds.
    pub fn clock(&self) -> (r: (u64, Double))
        ensures
            (r.0 as nat, r.1@) == clock_of(self@.pts@),
    {
        let sixty: Double = Double::of_int(60);
        (self.current_pts.over(sixty).whole(u64::MAX), self.current_pts.remainder(sixty))
    }

    /// How much of the video has been played, from zero to one; nothing unless a
    /// run is on.
    pub fn progress(&self) -> (r: Option<Single>)
        ensures
            match r {
                None => !(self@.state is Trimming || self@.state is AnalysisPending),
                Some(p) => {
                    &&& self@.state is Trimming || self@.state is AnalysisPending
                    &&& p@ == played_share(self@.pts@, self@.duration)
                },
            },
    {
        match self.state {
            AppState::Trimming | AppState::AnalysisPending => {},
            _ => {
                return None;
            },
        }
        let zero: Double = Double::from_bits(0);
        match self.video_duration {
            Some(d) => {
                if d.above(zero) {
                    return Some(
                        self.current_pts.over(d).clamped(zero, Double::of_int(1)).narrowed(),
                    );
                }
            },
            None => {},
        }
        Some(Single::from_bits(0))
    }
}

/// Seconds as whole minutes, and the seconds left of the time.
pub open spec fn clock_of(t: Num) -> (nat, Num) {
    let sixty = Num::of_int(Format::Double, 60);
    (t.over(Format::Double, sixty).whole(Format::Double, u64::MAX as nat), t.remainder(sixty))
}

/// The seconds of the clock are below sixty, and none before the start.
pub proof fn lemma_clock_below_sixty(t: Num)
    requires
        t is Finite,
    ensures
        ({
            let (minutes, seconds) = clock_of(t);
            &&& seconds is Finite
            &&& seconds->mag < 60 * Format::Double.one()
            &&& seconds->Finite_neg == t->Finite_neg
            &&& t->Finite_neg ==> minutes == 0
        }),
{
    vstd::arithmetic::power2::lemma2_to64();
    vstd::arithmetic::power2::lemma2_to64_rest();
    lemma_small_int(Format::Double, 60);
    lemma_pow2_pos(1074);
}

/// `pts / duration`, held between zero and one; zero where the duration is not
/// known or not positive.
pub open spec fn played_share(pts: Num, duration: Option<Double>) -> Num {
    match duration {
        Some(d) => if d@.above(Num::zero()) {
            pts.over(Format::Double, d@).clamped(
                Num::zero(),
                Num::of_int(Format::Double, 1),
            ).narrowed()
        } else {
            Num::zero()
        },
        None => Num::zero(),
    }
}

/// The numbers are more than rounding apart.
fn are_apart(a: Single, b: Single) -> (r: bool)
    ensures
        r == apart(a@, b@),
{
    a.minus(b).abs().above(Single::from_bits(EPSILON))
}

/// What was found in the decode channel.
pub enum FrameMessage {
    Frame(VideoFrame),
    /// The end of the video.
    End,
    /// Nothing for now.
    Empty,
    /// The decoder is gone.
    Disconnected,
}

/// What draining the decode channel has given so far.
pub struct FrameDrain {
    pub latest: Option<VideoFrame>,
    pub ended: bool,
}

impl FrameDrain {
    /// What has been given after one more message.
    pub open spec fn past(self, message: FrameMessage) -> FrameDrain {
        FrameDrain {
            latest: match message {
                FrameMessage::Frame(frame) => Some(frame),
                _ => self.latest,
            },
            ended: self.ended || message is End || message is Disconnected,
        }
    }

    /// The messages one after the other.
    pub open spec fn after(self, messages: Seq<FrameMessage>) -> FrameDrain
        decreases messages.len(),
    {
        if messages.len() == 0 {
            self
        } else {
            self.after(messages.drop_last()).past(messages.last())
        }
    }

    pub fn new() -> (r: FrameDrain)
        ensures
            r.latest is None,
            !r.ended,
    {
        FrameDrain { latest: None, ended: false }
    }

    /// Take a message. Only the latest frame is kept. Says whether to look for
    /// another one.
    pub fn take(&mut self, message: FrameMessage) -> (more: bool)
        ensures
            more == (message is Frame),
            final(self).latest == (match message {
                FrameMessage::Frame(frame) => Some(frame),
                _ => old(self).latest,
            }),
            final(self).ended == (old(self).ended || message is End || message is Disconnected),
            *final(self) == old(self).past(message),
    {
        match message {
            FrameMessage::Frame(frame) => {
                self.latest = Some(frame);
                true
            },
            FrameMessage::End => {
                self.ended = true;
                false
            },
            FrameMessage::Empty => false,
            FrameMessage::Disconnected => {
                self.ended = true;
                false
            },
        }
    }
}

/// The name under which the cropped video is offered: that of the input with
/// `_cropped` behind it.
pub open spec fn crop_name(stem: Option<Seq<char>>, ext: Option<Seq<char>>) -> Seq<char> {
    match stem {
        None => "cropped.mp4"@,
        Some(stem) => stem + "_cropped."@ + (match ext {
            Some(ext) => ext,
            None => "mp4"@,
        }),
    }
}

pub open spec fn text_of(s: Option<&str>) -> Option<Seq<char>> {
    match s {
        Some(s) => Some(s@),
        None => None,
    }
}

/// The name under which the cropped video is offered.
pub fn default_crop_name(stem: Option<&str>, ext: Option<&str>) -> (name: String)
    ensures
        name@ == crop_name(text_of(stem), text_of(ext)),
{
    match stem {
        None => String::from_str("cropped.mp4"),
        Some(stem) => {
            let mut name = String::from_str(stem);
            name.append("_cropped.");
            match ext {
                Some(ext) => {
                    name.append(ext);
                },
                None => {
                    name.append("mp4");
                },
            }
            name
        },
    }
}

/// It makes no difference whether the analysis result or the end of the video
/// arrives first.
pub proof fn lemma_end_and_result_commute(s: Session, region: Option<[u32; 4]>)
    requires
        s.wf(),
        s.state is Trimming,
        s.analysis_open,
    ensures
        s.ended().analysed(region) == s.analysed(region).ended(),
        s.ended().analysed(region).state is Ready,
        s.ended().analysed(region).dialog == Session::verdict(region),
{
}

/// Neither opening a file nor starting a run leaves anything of what went
/// before: two sessions that differ only in that come to the same.
pub proof fn lemma_nothing_stale(a: Session, b: Session, path: PathBuf)
    requires
        a.settings == b.settings,
        a.last == b.last,
    ensures
        a.opened(path) == b.opened(path),
        a.file is Some && a.file == b.file ==> a.started() == b.started(),
{
}

/// A number is not apart from itself.
pub proof fn lemma_not_apart(a: Num)
    ensures
        !apart(a, a),
{
    lemma_pow2_pos(103);
    assert(EPSILON % 0x8000_0000 == EPSILON);
    assert(EPSILON / 0x80_0000 == 104);
    assert(EPSILON % 0x80_0000 == 0);
    let eps = 0x80_0000 as nat * pow2(103);
    assert(single_num(EPSILON) == (Num::Finite { neg: false, mag: eps }));
}

/// Once the user has chosen to keep going, the question does not come back until
/// a setting changes.
pub proof fn lemma_keep_going_lasts(s: Session)
    requires
        s.last == s.settings,
    ensures
        !s.settings.differ(s.last),
{
    lemma_not_apart(s.settings.threshold@);
    lemma_not_apart(s.settings.fps@);
}

/// Progress lies between zero and one, at whatever time the frames are shown.
pub proof fn lemma_progress_in_range(pts: Num, duration: Option<Double>)
    requires
        pts is Finite,
    ensures
        played_share(pts, duration).at_least(Num::zero()),
        Num::of_int(Format::Single, 1).at_least(played_share(pts, duration)),
{
    vstd::arithmetic::power2::lemma2_to64();
    vstd::arithmetic::power2::lemma2_to64_rest();
    lemma_small_int(Format::Single, 1);
    lemma_small_int(Format::Double, 1);
    lemma_pow2_pos(149);
    lemma_pow2_pos(925);
    lemma_pow2_adds(149, 925);
    lemma_pow2_strictly_increases(149, 277);
    if let Some(d) = duration {
        if d@.above(Num::zero()) {
            let share = pts.over(Format::Double, d@).clamped(
                Num::zero(),
                Num::of_int(Format::Double, 1),
            );
            assert(share is Finite && share->mag <= pow2(1074));
            lemma_round_to_monotone(24, share->mag, pow2(925), pow2(149), 1);
            lemma_round_to_exact(24, 1, 149);
            if share->mag == 0 {
                lemma_nearest_even_exact(0, pow2(925));
            }
        }
    }
}

/// The first frame on display has no live region: there is nothing yet that it
/// differs from.
pub proof fn lemma_first_frame_has_no_region(
    s: Session,
    frame: VideoFrame,
    region: Option<[u32; 4]>,
)
    requires
        s.motion == Motion::empty(),
        s.accepts(frame),
        s.settings.threshold@.above(Num::zero()),
        s.live_region(frame, region),
    ensures
        region is None,
{
    let gray = gray_of(frame.rgba@);
    if frame.width == 0 && frame.height == 0 {
        let mask = active_blocks(
            s.motion.averaged(0, 0, gray).scores,
            s.settings.threshold@,
        );
        assert(blocks_across(0) * blocks_across(0) == 0) by (nonlinear_arith)
            requires
                blocks_across(0) == 0,
        ;
        lemma_nothing_active(mask, blocks_across(0), blocks_across(0), BboxMethod::Union);
    } else {
        lemma_warming_up(
            s.motion,
            frame.width,
            frame.height,
            gray,
            s.settings.threshold@,
            BboxMethod::Union,
            region,
        );
    }
}

} // verus!
