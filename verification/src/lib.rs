//! Detection of the active region of a video.

pub mod analysis;
pub mod app;
pub mod bbox;
pub mod bbox_laws;
pub mod course_laws;
pub mod decoder;
pub mod double;
pub mod export;
pub mod frame_laws;
pub mod luma_laws;
pub mod motion_laws;
pub mod number;
pub mod number_laws;
pub mod options;
pub mod region_laws;
pub mod rounding;
pub mod sampling_laws;
pub mod score_laws;
pub mod session_laws;
pub mod single;
pub mod text;
pub mod text_laws;
pub mod writer;

use vstd::prelude::*;

verus! {

/// Side length (in pixels) of each analysis block.
pub const BLOCK: usize = 16;

} // verus!
