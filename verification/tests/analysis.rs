use trim_dead_area::analysis::{
    block_mad, to_gray, FullVideoAnalyzer, MotionAnalyzer, SampledAnalysis,
};
use trim_dead_area::bbox::BboxMethod;
use trim_dead_area::decoder::{AnalysisMode, VideoFrame};
use trim_dead_area::double::Double;
use trim_dead_area::single::Single;

fn single(x: f32) -> Single {
    Single::from_bits(x.to_bits())
}

fn frame(rgba: Vec<u8>, width: u32, height: u32) -> VideoFrame {
    VideoFrame {
        rgba,
        width,
        height,
        pts_secs: Double::from_bits(0),
        duration_secs: None,
    }
}

fn machine_luma(r: u8, g: u8, b: u8) -> u8 {
    (0.299 * r as f32 + 0.587 * g as f32 + 0.114 * b as f32).round() as u8
}

/// A picture of pseudo-random gray levels below `range`, from column `from` of
/// the frame on, and black before.
fn noise(width: u32, height: u32, seed: u32, range: u32, from: u32) -> Vec<u8> {
    let mut s = seed.wrapping_mul(2654435761).wrapping_add(12345);
    let mut rgba = Vec::new();
    for _ in 0..height {
        for x in 0..width {
            s = s.wrapping_mul(1664525).wrapping_add(1013904223);
            let v = if x < from { 0 } else { (s >> 16) % range };
            let v = v as u8;
            rgba.extend_from_slice(&[v, v, v, 255]);
        }
    }
    rgba
}

#[test]
fn luma_is_that_of_the_machine() {
    let mut rgba = Vec::new();
    let mut want = Vec::new();
    for r in (0..=255u32).step_by(3) {
        for g in (0..=255u32).step_by(5) {
            for b in 0..=255u32 {
                let (r, g, b) = (r as u8, g as u8, b as u8);
                rgba.extend_from_slice(&[r, g, b, 7]);
                want.push(machine_luma(r, g, b));
            }
        }
    }
    assert_eq!(to_gray(&rgba), want);
}

#[test]
fn luma_halfway_is_that_of_the_machine() {
    let mut seen = 0;
    for r in 0..=255u32 {
        for g in 0..=255u32 {
            for b in 0..=255u32 {
                if (299 * r + 587 * g + 114 * b) % 1000 == 500 && (r + g + b) % 3 == 0 {
                    let (r, g, b) = (r as u8, g as u8, b as u8);
                    assert_eq!(to_gray(&[r, g, b, 0]), vec![machine_luma(r, g, b)]);
                    seen += 1;
                }
            }
        }
    }
    assert!(seen > 1000);
}

#[test]
fn gray_pixels_keep_their_level() {
    for v in 0..=255u8 {
        assert_eq!(to_gray(&[v, v, v, 0]), vec![v]);
    }
}

#[test]
fn a_partial_pixel_is_left_out() {
    assert_eq!(to_gray(&[255, 255, 255, 0, 9, 9, 9]), vec![255]);
    assert_eq!(to_gray(&[]), Vec::<u8>::new());
}

/// The same computation with the machine's numbers.
struct Machine {
    gray: Vec<u8>,
    average: Vec<f32>,
    sum: Vec<f64>,
    frames: u64,
    size: (u32, u32),
}

impl Machine {
    fn update(&mut self, rgba: &[u8], width: u32, height: u32) {
        let (w, h) = (width as usize, height as usize);
        let (cols, rows) = (w.div_ceil(16), h.div_ceil(16));
        let gray: Vec<u8> = rgba
            .chunks_exact(4)
            .map(|p| machine_luma(p[0], p[1], p[2]))
            .collect();
        if self.size != (width, height) {
            self.gray = gray.clone();
            self.average = vec![0.0; cols * rows];
            self.sum = vec![0.0; cols * rows];
            self.size = (width, height);
        }
        for by in 0..rows {
            for bx in 0..cols {
                let (x1, y1) = ((bx * 16 + 16).min(w), (by * 16 + 16).min(h));
                let mut total = 0u32;
                let mut n = 0u32;
                for y in by * 16..y1 {
                    for x in bx * 16..x1 {
                        total += gray[y * w + x].abs_diff(self.gray[y * w + x]) as u32;
                        n += 1;
                    }
                }
                let mad = total as f32 / n as f32;
                let i = by * cols + bx;
                self.average[i] = 0.95 * self.average[i] + 0.05 * mad;
                self.sum[i] += mad as f64;
            }
        }
        self.gray = gray;
        self.frames += 1;
    }

    fn region(&self, map: &[f32], threshold: f32) -> Option<[u32; 4]> {
        let cols = (self.size.0 as usize).div_ceil(16);
        let hits: Vec<(u32, u32)> = (0..map.len())
            .filter(|i| map[*i] >= threshold)
            .map(|i| ((i % cols) as u32, (i / cols) as u32))
            .collect();
        let x0 = hits.iter().map(|h| h.0).min()? * 16;
        let y0 = hits.iter().map(|h| h.1).min()? * 16;
        let x1 = (hits.iter().map(|h| h.0).max()? * 16 + 16).min(self.size.0);
        let y1 = (hits.iter().map(|h| h.1).max()? * 16 + 16).min(self.size.1);
        Some([x0, y0, x1 - x0, y1 - y0])
    }

    fn means(&self) -> Vec<f32> {
        self.sum
            .iter()
            .map(|s| (s / self.frames as f64) as f32)
            .collect()
    }
}

fn machine() -> Machine {
    Machine {
        gray: vec![],
        average: vec![],
        sum: vec![],
        frames: 0,
        size: (0, 0),
    }
}

#[test]
fn analyzers_agree_with_the_machine() {
    let (w, h) = (70, 41);
    let mut live = MotionAnalyzer::default();
    let mut full = FullVideoAnalyzer::new();
    let mut want = machine();
    for k in 0..12u32 {
        let f = frame(noise(w, h, k, 8 + 5 * (k % 4), 20), w, h);
        want.update(&f.rgba, w, h);
        assert!(live.accepts_frame(&f));
        assert!(full.accepts(w, h, f.rgba.len() / 4));
        full.update(&f);
        for threshold in [0.0f32, 0.25, 1.0, 2.5, 3.0, 5.0, 50.0] {
            assert_eq!(
                full.active_bbox(single(threshold)),
                want.region(&want.means(), threshold)
            );
        }
        let threshold = [0.1f32, 0.3, 0.7, 1.1][(k % 4) as usize];
        assert_eq!(
            live.update(&f, single(threshold)),
            want.region(&want.average, threshold)
        );
    }
    assert_eq!(full.frames(), 12);
}

#[test]
fn thresholds_at_the_mean_are_reached() {
    // The first frame differs in nothing, and the second one by 10: the mean is
    // exactly 5.
    let mut full = FullVideoAnalyzer::new();
    full.update_y(vec![20; 256], 16, 16);
    full.update_y(vec![10; 256], 16, 16);
    assert_eq!(full.active_bbox(single(5.0)), Some([0, 0, 16, 16]));
    let next = Single::from_bits(5.0f32.to_bits() + 1);
    assert_eq!(full.active_bbox(next), None);
}

#[test]
fn without_a_frame_there_is_no_region() {
    let full = FullVideoAnalyzer::default();
    assert_eq!(full.active_bbox(single(0.0)), None);
    assert_eq!(full.frames(), 0);
}

#[test]
fn luma_planes_and_pictures_are_analysed_alike() {
    let mut a = FullVideoAnalyzer::new();
    let mut b = FullVideoAnalyzer::new();
    for k in 0..5 {
        let rgba = noise(50, 30, k, 60, 17);
        let gray = to_gray(&rgba);
        a.update(&frame(rgba, 50, 30));
        b.update_y(gray, 50, 30);
        for t in 0..40 {
            let t = single(t as f32);
            assert_eq!(a.active_bbox(t), b.active_bbox(t));
        }
    }
}

#[test]
fn still_borders_are_cropped() {
    // A bright border of 32 pixels around a changing core.
    let (w, h) = (128u32, 96u32);
    let mut full = FullVideoAnalyzer::new();
    for k in 0..60u32 {
        let mut y = vec![200u8; (w * h) as usize];
        for row in 32..64 {
            for col in 32..96 {
                y[(row * w + col) as usize] = if k % 2 == 0 { 40 } else { 90 };
            }
        }
        full.update_y(y, w, h);
        let found = full.active_bbox(single(5.0));
        if k == 0 {
            assert_eq!(found, None);
        } else {
            assert_eq!(found, Some([32, 32, 64, 32]));
        }
    }
    for method in [
        BboxMethod::Erosion(1),
        BboxMethod::DensityFilter(2),
        BboxMethod::Percentile(single(10.0)),
    ] {
        let [x, y, rw, rh] = full.active_bbox_by(single(5.0), method).unwrap();
        assert!(x >= 32 && y >= 32 && x + rw <= 96 && y + rh <= 64);
    }
}

#[test]
fn a_still_video_has_no_region() {
    let least = Single::from_bits(1);
    let mut full = FullVideoAnalyzer::new();
    let mut live = MotionAnalyzer::default();
    for n in 1..10 {
        full.update_y(vec![255; 64], 8, 8);
        assert_eq!(full.frames(), n);
        assert_eq!(full.active_bbox(least), None);
        assert_eq!(full.active_bbox_by(least, BboxMethod::Erosion(0)), None);
        assert_eq!(live.update(&frame(vec![255; 256], 8, 8), least), None);
    }
}

#[test]
fn there_is_no_region_while_warming_up() {
    let white = frame(vec![255; 4], 1, 1);
    let mut live = MotionAnalyzer::default();
    assert_eq!(live.update(&white, single(5.0)), None);
    let mut full = FullVideoAnalyzer::new();
    full.update(&white);
    full.update(&white);
    assert_eq!(full.active_bbox(single(5.0)), None);
    // A frame of another size warms up again.
    let wide = frame(vec![0; 8], 2, 1);
    assert_eq!(live.update(&wide, single(0.001)), None);
    assert_eq!(
        live.update(&frame(vec![255; 8], 2, 1), single(5.0)),
        Some([0, 0, 2, 1])
    );
    live.reset();
    assert_eq!(live.update(&wide, single(0.001)), None);
}

#[test]
fn a_threshold_of_zero_keeps_the_whole_frame() {
    let mut full = FullVideoAnalyzer::new();
    assert_eq!(full.active_bbox(single(-1.0)), None);
    for k in 0..4 {
        full.update(&frame(noise(40, 20, k, 30, 25), 40, 20));
        for t in [0.0f32, -0.0, -3.0, f32::NEG_INFINITY] {
            assert_eq!(full.active_bbox(single(t)), Some([0, 0, 40, 20]));
            assert_eq!(full.active_bbox(single(t)), Some([0, 0, 40, 20]));
        }
    }
}

#[test]
fn blocks_are_compared_on_their_own_and_both_ways() {
    // Two blocks side by side: only the right one changes.
    let left = |v: u8, w: u8| -> Vec<u8> {
        (0..32 * 16).map(|i| if i % 32 < 16 { v } else { w }).collect()
    };
    for (a, b) in [(10u8, 30u8), (30, 10)] {
        let mut full = FullVideoAnalyzer::new();
        full.update_y(left(77, a), 32, 16);
        full.update_y(left(77, b), 32, 16);
        assert_eq!(full.active_bbox(single(10.0)), Some([16, 0, 16, 16]));
        assert_eq!(full.active_bbox(single(10.001)), None);
    }
}

#[test]
fn a_new_size_starts_anew() {
    let mut used = MotionAnalyzer::default();
    let mut fresh = MotionAnalyzer::default();
    for k in 0..4 {
        used.update(&frame(noise(64, 64, k, 250, 0), 64, 64), single(1.0));
    }
    for k in 0..4 {
        let f = frame(noise(48, 20, 9 + k, 250, 16), 48, 20);
        let t = single(k as f32);
        assert_eq!(used.update(&f, t), fresh.update(&f, t));
    }
    assert_eq!((used.frame_width, used.frame_height), (48, 20));
    used.reset();
    assert_eq!((used.frame_width, used.frame_height), (0, 0));
}

#[test]
fn averages_stay_in_range() {
    // Black and white in turn is the strongest motion there is.
    let mut live = MotionAnalyzer::default();
    let over = Single::from_bits(255.0f32.to_bits() + 1);
    for k in 0..400u32 {
        let v = if k % 2 == 0 { 255u8 } else { 0 };
        let f = frame(vec![v; 4 * 256], 16, 16);
        assert_eq!(live.update(&f, over), None);
    }
    let f = frame(vec![255; 4 * 256], 16, 16);
    assert_eq!(live.update(&f, single(254.9)), Some([0, 0, 16, 16]));
}

#[test]
fn an_average_without_motion_decays() {
    let mut live = MotionAnalyzer::default();
    live.update(&frame(vec![0; 4 * 256], 16, 16), single(1.0));
    let f = frame(vec![255; 4 * 256], 16, 16);
    // One change of 255 counts for a twentieth.
    assert_eq!(live.update(&f, single(12.75)), Some([0, 0, 16, 16]));
    assert_eq!(live.update(&f, single(12.2)), None);
    assert_eq!(live.update(&f, single(11.0)), Some([0, 0, 16, 16]));
    for _ in 0..200 {
        live.update(&f, single(0.0));
    }
    assert_eq!(live.update(&f, single(0.01)), None);
}

#[test]
fn frames_that_are_too_short_are_not_accepted() {
    let mut live = MotionAnalyzer::default();
    assert!(live.accepts_frame(&frame(vec![0; 4 * 30], 6, 5)));
    assert!(!live.accepts_frame(&frame(vec![0; 4 * 30 - 1], 6, 5)));
    assert!(live.accepts_frame(&frame(vec![], 0, 5)));
    assert!(!live.accepts_frame(&frame(vec![], u32::MAX, u32::MAX)));
    let mut full = FullVideoAnalyzer::new();
    assert!(!full.accepts(6, 5, 29));
    // A longer frame is accepted; then the next one has to be as long as the
    // blocks reach.
    assert!(full.accepts(6, 5, 60));
    full.update_y(vec![0; 60], 6, 5);
    assert!(!full.accepts(6, 5, 59));
    assert!(full.accepts(6, 5, 60));
    assert!(full.accepts(5, 6, 30));
    live.update(&frame(vec![0; 4 * 30], 6, 5), single(1.0));
    assert!(live.accepts_frame(&frame(vec![0; 4 * 30], 6, 5)));
}

#[test]
fn sums_of_many_samples_are_exact() {
    // 399 samples of 85/256, and 200 of them followed by zeros.
    let mut a = FullVideoAnalyzer::new();
    let mut b = FullVideoAnalyzer::new();
    let mut lit = vec![0u8; 256];
    lit[3] = 85;
    let dark = vec![0u8; 256];
    for k in 0..400 {
        let odd = k % 2 == 1;
        a.update_y(if odd { lit.clone() } else { dark.clone() }, 16, 16);
        let lit_now = k < 200 && odd;
        b.update_y(if lit_now { lit.clone() } else { dark.clone() }, 16, 16);
    }
    let mean_a = single((399.0 * 85.0 / 256.0 / 400.0f64) as f32);
    assert_eq!(a.active_bbox(mean_a), Some([0, 0, 16, 16]));
    assert_eq!(a.active_bbox(Single::from_bits(mean_a.to_bits() + 1)), None);
    let mean_b = single((200.0 * 85.0 / 256.0 / 400.0f64) as f32);
    assert_eq!(b.active_bbox(mean_b), Some([0, 0, 16, 16]));
    assert_eq!(b.active_bbox(Single::from_bits(mean_b.to_bits() + 1)), None);
}

#[test]
fn only_samples_are_analysed() {
    for (mode, every) in [(AnalysisMode::Full, 4u32), (AnalysisMode::Fast, 1)] {
        let mut run = SampledAnalysis::new(mode, single(8.0));
        let mut want = FullVideoAnalyzer::new();
        for k in 0..50u32 {
            let mut f = frame(noise(40, 20, k, 100, 10), 40, 20);
            f.pts_secs = Double::from_bits((k as f64 / 32.0).to_bits());
            assert!(run.accepts_frame(&f));
            let sampled = run.feed(&f);
            assert_eq!(sampled, k % every == 0);
            if sampled {
                want.update(&f);
            }
        }
        for t in 0..40 {
            let t = single(t as f32);
            assert_eq!(
                run.region(t, BboxMethod::Union),
                want.active_bbox(t)
            );
            assert_eq!(
                run.region(t, BboxMethod::Erosion(2)),
                want.active_bbox_by(t, BboxMethod::Erosion(2))
            );
        }
    }
}

#[test]
fn a_block_has_the_mean_difference_of_its_pixels() {
    let (stride, h) = (21usize, 19usize);
    let a: Vec<u8> = (0..stride * h).map(|i| (i * 37 % 256) as u8).collect();
    let b: Vec<u8> = (0..stride * h).map(|i| (i * 91 % 256) as u8).collect();
    for by in 0..2 {
        for bx in 0..2 {
            let (mut sum, mut n) = (0u32, 0u32);
            let mut elsewhere = a.clone();
            for y in 0..h {
                for x in 0..stride {
                    let i = y * stride + x;
                    if x / 16 == bx && y / 16 == by {
                        sum += a[i].abs_diff(b[i]) as u32;
                        n += 1;
                    } else {
                        elsewhere[i] = 255 - elsewhere[i];
                    }
                }
            }
            let want = single(sum as f32 / n as f32);
            assert_eq!(block_mad(&a, &b, stride, bx, by), want);
            assert_eq!(block_mad(&b, &a, stride, bx, by), want);
            assert_eq!(block_mad(&elsewhere, &b, stride, bx, by), want);
            assert_eq!(block_mad(&a, &a, stride, bx, by), single(0.0));
        }
    }
    // Full contrast; and a block at the edge, which has no pixels.
    let black = vec![0u8; 256];
    let white = vec![255u8; 256];
    assert_eq!(block_mad(&white, &black, 16, 0, 0), single(255.0));
    let none = block_mad(&white, &black, 16, 1, 0);
    assert!(f32::from_bits(none.to_bits()).is_nan());
}
