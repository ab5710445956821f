use trim_dead_area::bbox::{blocks_to_pixels, compute_bbox, BboxMethod};
use trim_dead_area::single::Single;

fn single(x: f32) -> Single {
    Single::from_bits(x.to_bits())
}

/// The blocks `(x, y)` of a grid that have a score.
fn map(cols: usize, rows: usize, scored: &[(usize, usize, f32)]) -> Vec<Single> {
    let mut m = vec![single(0.0); cols * rows];
    for (x, y, s) in scored {
        m[y * cols + x] = single(*s);
    }
    m
}

fn find(m: &[Single], cols: usize, rows: usize, t: f32, method: BboxMethod) -> Option<[u32; 4]> {
    compute_bbox(
        m,
        cols,
        rows,
        16 * cols as u32,
        16 * rows as u32,
        single(t),
        method,
    )
}

fn random_map(cols: usize, rows: usize, seed: u32) -> Vec<Single> {
    let mut s = seed.wrapping_mul(747796405).wrapping_add(2891336453);
    (0..cols * rows)
        .map(|_| {
            s = s.wrapping_mul(1664525).wrapping_add(1013904223);
            single(((s >> 20) % 12) as f32)
        })
        .collect()
}

fn within(inner: Option<[u32; 4]>, outer: Option<[u32; 4]>) -> bool {
    match (inner, outer) {
        (None, _) => true,
        (Some(_), None) => false,
        (Some(i), Some(o)) => {
            o[0] <= i[0]
                && o[1] <= i[1]
                && i[0] + i[2] <= o[0] + o[2]
                && i[1] + i[3] <= o[1] + o[3]
        }
    }
}

fn methods() -> Vec<BboxMethod> {
    let mut all = vec![BboxMethod::Union];
    for n in 0..5 {
        all.push(BboxMethod::DensityFilter(n));
        all.push(BboxMethod::Erosion(n));
        all.push(BboxMethod::Percentile(single(12.5 * n as f32)));
    }
    all
}

#[test]
fn blocks_are_sixteen_pixels() {
    assert_eq!(blocks_to_pixels(1, 2, 3, 4, 1000, 1000), [16, 32, 48, 48]);
    // The last block is cut off at the edge of the frame.
    assert_eq!(blocks_to_pixels(0, 0, 3, 2, 60, 33), [0, 0, 60, 33]);
    assert_eq!(blocks_to_pixels(3, 2, 3, 2, 60, 33), [48, 32, 12, 1]);
}

#[test]
fn regions_lie_in_the_frame() {
    for seed in 0..30 {
        let (fw, fh) = (60 + seed, 33 + 2 * seed);
        let (cols, rows) = ((fw as usize).div_ceil(16), (fh as usize).div_ceil(16));
        let m = random_map(cols, rows, seed);
        for method in methods() {
            for t in [4.0f32, 8.0, 11.0] {
                if let Some([x, y, w, h]) =
                    compute_bbox(&m, cols, rows, fw, fh, single(t), method)
                {
                    assert!(w > 0 && h > 0 && x + w <= fw && y + h <= fh);
                    assert!(x % 16 == 0 && y % 16 == 0);
                    assert!(w % 16 == 0 || x + w == fw);
                    assert!(h % 16 == 0 || y + h == fh);
                }
            }
        }
    }
}

#[test]
fn a_frame_of_active_blocks_is_kept_whole() {
    let m = vec![single(9.0); 12];
    assert_eq!(
        compute_bbox(&m, 4, 3, 57, 48, single(9.0), BboxMethod::Union),
        Some([0, 0, 57, 48])
    );
}

#[test]
fn higher_thresholds_are_tighter() {
    for seed in 0..40 {
        let m = random_map(7, 5, seed);
        for method in methods() {
            if matches!(method, BboxMethod::Percentile(_)) {
                continue;
            }
            for t in 0..12 {
                let low = find(&m, 7, 5, t as f32, method);
                let high = find(&m, 7, 5, t as f32 + 1.0, method);
                assert!(within(high, low));
            }
        }
    }
}

#[test]
fn a_percentile_can_grow_with_the_threshold() {
    // Ten blocks in a row: a tenth of them is the first one. Without the block
    // in the middle a tenth is none.
    let scored: Vec<(usize, usize, f32)> = (0..10)
        .map(|x| (x, 0, if x == 5 { 6.0 } else { 9.0 }))
        .collect();
    let m = map(10, 1, &scored);
    let tenth = BboxMethod::Percentile(single(10.0));
    assert_eq!(find(&m, 10, 1, 5.0, tenth), Some([16, 0, 128, 16]));
    assert_eq!(find(&m, 10, 1, 7.0, tenth), Some([0, 0, 160, 16]));
}

#[test]
fn stricter_methods_are_tighter() {
    for seed in 0..40 {
        let m = random_map(6, 6, seed);
        for t in [3.0f32, 6.0, 9.0] {
            let union = find(&m, 6, 6, t, BboxMethod::Union);
            for n in 0..5 {
                let at = |k: usize| {
                    [
                        find(&m, 6, 6, t, BboxMethod::DensityFilter(k)),
                        find(&m, 6, 6, t, BboxMethod::Erosion(k)),
                        find(&m, 6, 6, t, BboxMethod::Percentile(single(9.0 * k as f32))),
                    ]
                };
                let (less, more) = (at(n), at(n + 1));
                for i in 0..3 {
                    assert!(within(more[i], less[i]));
                    assert!(within(more[i], union));
                }
            }
        }
    }
}

#[test]
fn lenient_methods_are_the_union() {
    for seed in 0..40 {
        let m = random_map(5, 8, seed);
        for t in [2.0f32, 7.0, 11.0, 12.0] {
            let union = find(&m, 5, 8, t, BboxMethod::Union);
            for method in [
                BboxMethod::Erosion(0),
                BboxMethod::DensityFilter(1),
                BboxMethod::Percentile(single(0.0)),
                BboxMethod::Percentile(single(-3.0)),
                BboxMethod::Percentile(single(f32::NAN)),
            ] {
                assert_eq!(find(&m, 5, 8, t, method), union);
            }
        }
    }
}

#[test]
fn a_density_of_zero_keeps_everything() {
    let m = map(4, 4, &[]);
    assert_eq!(
        find(&m, 4, 4, 5.0, BboxMethod::DensityFilter(0)),
        Some([0, 0, 64, 64])
    );
}

#[test]
fn percentiles_are_those_of_the_sorted_coordinates() {
    for seed in 0..60 {
        let (cols, rows) = (9, 4);
        let m = random_map(cols, rows, seed);
        for p in [0.0f32, 3.0, 7.5, 10.0, 25.0, 33.3, 49.9, 80.0] {
            for t in [2.0f32, 6.0, 10.0] {
                let mut xs = Vec::new();
                let mut ys = Vec::new();
                for i in 0..m.len() {
                    if f32::from_bits(m[i].to_bits()) >= t {
                        xs.push(i % cols);
                        ys.push(i / cols);
                    }
                }
                xs.sort();
                ys.sort();
                let n = xs.len();
                let want = if n == 0 {
                    None
                } else {
                    let share = (p.clamp(0.0, 49.9) / 100.0 * n as f32).floor() as usize;
                    let k = share.min((n - 1) / 2);
                    Some(blocks_to_pixels(
                        xs[k],
                        ys[k],
                        xs[n - 1 - k],
                        ys[n - 1 - k],
                        16 * cols as u32,
                        16 * rows as u32,
                    ))
                };
                let method = BboxMethod::Percentile(single(p));
                assert_eq!(find(&m, cols, rows, t, method), want);
            }
        }
    }
}

#[test]
fn isolated_blocks_do_not_survive_erosion() {
    let cluster = [(1, 1, 9.0), (2, 1, 9.0), (1, 2, 9.0), (2, 2, 9.0)];
    let mut spotted = cluster.to_vec();
    spotted.push((6, 5, 9.0));
    for n in 1..4 {
        let clean = find(&map(8, 6, &cluster), 8, 6, 5.0, BboxMethod::Erosion(n));
        let noisy = find(&map(8, 6, &spotted), 8, 6, 5.0, BboxMethod::Erosion(n));
        assert_eq!(clean, noisy);
    }
    assert_ne!(
        find(&map(8, 6, &cluster), 8, 6, 5.0, BboxMethod::Union),
        find(&map(8, 6, &spotted), 8, 6, 5.0, BboxMethod::Union)
    );
}

#[test]
fn scores_that_are_not_numbers_are_never_active() {
    let m = map(3, 1, &[(0, 0, f32::NAN), (1, 0, f32::INFINITY)]);
    assert_eq!(
        find(&m, 3, 1, 5.0, BboxMethod::Union),
        Some([16, 0, 16, 16])
    );
    assert_eq!(find(&m, 3, 1, f32::NAN, BboxMethod::Union), None);
    assert_eq!(
        find(&m, 3, 1, -0.0, BboxMethod::Union),
        Some([16, 0, 32, 16])
    );
}

#[test]
fn methods_compare_by_their_parameters() {
    assert_eq!(BboxMethod::default(), BboxMethod::Union);
    assert_eq!(
        BboxMethod::Percentile(single(5.0)),
        BboxMethod::Percentile(single(5.0))
    );
    assert_eq!(
        BboxMethod::Percentile(single(0.0)),
        BboxMethod::Percentile(single(-0.0))
    );
    assert_ne!(
        BboxMethod::Percentile(single(f32::NAN)),
        BboxMethod::Percentile(single(f32::NAN))
    );
    assert_ne!(BboxMethod::Erosion(1), BboxMethod::DensityFilter(1));
    assert_ne!(BboxMethod::Erosion(1), BboxMethod::Erosion(2));
}

#[test]
fn every_active_pixel_is_covered() {
    for seed in 0..20 {
        let (fw, fh) = (75u32, 50u32);
        let m = random_map(5, 4, seed);
        let found = compute_bbox(&m, 5, 4, fw, fh, single(11.0), BboxMethod::Union);
        let mut active = 0;
        for y in 0..fh {
            for x in 0..fw {
                let score = m[(y / 16 * 5 + x / 16) as usize];
                if f32::from_bits(score.to_bits()) >= 11.0 {
                    active += 1;
                    let [rx, ry, rw, rh] = found.unwrap();
                    assert!(rx <= x && x < rx + rw && ry <= y && y < ry + rh);
                }
            }
        }
        assert_eq!(active == 0, found.is_none());
    }
}
