use trim_dead_area::bbox::{compute_bbox, BboxMethod};
use trim_dead_area::single::Single;

fn single(x: f32) -> Single {
    Single::from_bits(x.to_bits())
}

const THRESH: f32 = 1.0;

/// Build a `cols x rows` map with 0.0 everywhere except the listed blocks
/// which are set to 2.0 (above THRESH).
fn make_map(cols: usize, rows: usize, active: &[(usize, usize)]) -> Vec<Single> {
    let mut m = vec![single(0.0); cols * rows];
    for &(bx, by) in active {
        m[by * cols + bx] = single(2.0);
    }
    m
}

// Helper: run compute_bbox on a 4x4 grid (64x64 px frame).
fn bbox4(active: &[(usize, usize)], method: BboxMethod) -> Option<[u32; 4]> {
    let map = make_map(4, 4, active);
    compute_bbox(&map, 4, 4, 64, 64, single(THRESH), method)
}

// All-zero maps

#[test]
fn test_all_zero_union() {
    assert_eq!(bbox4(&[], BboxMethod::Union), None);
}

#[test]
fn test_all_zero_percentile() {
    assert_eq!(bbox4(&[], BboxMethod::Percentile(single(10.0))), None);
}

#[test]
fn test_all_zero_density_filter() {
    assert_eq!(bbox4(&[], BboxMethod::DensityFilter(1)), None);
}

#[test]
fn test_all_zero_erosion() {
    assert_eq!(bbox4(&[], BboxMethod::Erosion(1)), None);
}

// Single active block

// Block (1,2) in a 4x4/64x64 grid -> pixel rect [16, 32, 16, 16].
#[test]
fn test_single_block_union() {
    assert_eq!(bbox4(&[(1, 2)], BboxMethod::Union), Some([16, 32, 16, 16]));
}

#[test]
fn test_single_block_percentile_zero() {
    assert_eq!(
        bbox4(&[(1, 2)], BboxMethod::Percentile(single(0.0))),
        Some([16, 32, 16, 16])
    );
}

/// With only 1 active block the trim is clamped to 0 - result unchanged.
#[test]
fn test_single_block_percentile_fifty() {
    assert_eq!(
        bbox4(&[(1, 2)], BboxMethod::Percentile(single(50.0))),
        Some([16, 32, 16, 16])
    );
}

#[test]
fn test_single_block_density_filter_1() {
    // Row 2 has 1 active block >= 1; col 1 has 1 active block >= 1 -> survives.
    assert_eq!(
        bbox4(&[(1, 2)], BboxMethod::DensityFilter(1)),
        Some([16, 32, 16, 16])
    );
}

#[test]
fn test_single_block_density_filter_2() {
    // Row 2 has 1 < 2; col 1 has 1 < 2 -> neither qualifies.
    assert_eq!(bbox4(&[(1, 2)], BboxMethod::DensityFilter(2)), None);
}

#[test]
fn test_single_block_erosion_1() {
    // Isolated block has 0 active neighbours < 1 -> removed.
    assert_eq!(bbox4(&[(1, 2)], BboxMethod::Erosion(1)), None);
}

#[test]
fn test_single_block_erosion_0() {
    // Requiring 0 neighbours: block survives regardless.
    assert_eq!(
        bbox4(&[(1, 2)], BboxMethod::Erosion(0)),
        Some([16, 32, 16, 16])
    );
}

// Outlier rejection

// Map: outlier at (0,0) + 2x2 interior cluster at (1,1),(1,2),(2,1),(2,2).
fn outlier_active() -> Vec<(usize, usize)> {
    vec![(0, 0), (1, 1), (1, 2), (2, 1), (2, 2)]
}

#[test]
fn test_outlier_union_includes_outlier() {
    // Union stretches to include (0,0).
    assert_eq!(
        bbox4(&outlier_active(), BboxMethod::Union),
        Some([0, 0, 48, 48])
    );
}

#[test]
fn test_outlier_percentile_excludes_outlier() {
    // Active cols sorted: [0,1,1,2,2] (5 entries), trim = floor(0.25*5)=1.
    // min_col = sorted[1] = 1, max_col = sorted[3] = 2. Same for rows.
    assert_eq!(
        bbox4(&outlier_active(), BboxMethod::Percentile(single(25.0))),
        Some([16, 16, 32, 32])
    );
}

#[test]
fn test_outlier_erosion_excludes_outlier() {
    // (0,0) has 0 active neighbours -> removed. Interior 2x2 blocks each
    // have 2 active neighbours >= 1 -> survive.
    assert_eq!(
        bbox4(&outlier_active(), BboxMethod::Erosion(1)),
        Some([16, 16, 32, 32])
    );
}

// Fully active map

fn all_active_4x4() -> Vec<(usize, usize)> {
    (0..4)
        .flat_map(|by| (0..4).map(move |bx| (bx, by)))
        .collect()
}

#[test]
fn test_fully_active_union() {
    assert_eq!(
        bbox4(&all_active_4x4(), BboxMethod::Union),
        Some([0, 0, 64, 64])
    );
}

#[test]
fn test_fully_active_density_filter() {
    assert_eq!(
        bbox4(&all_active_4x4(), BboxMethod::DensityFilter(1)),
        Some([0, 0, 64, 64])
    );
}

#[test]
fn test_fully_active_erosion_1() {
    // Every block in a 4x4 grid has >= 2 active neighbours -> all survive.
    assert_eq!(
        bbox4(&all_active_4x4(), BboxMethod::Erosion(1)),
        Some([0, 0, 64, 64])
    );
}

// DensityFilter: top-row strip

#[test]
fn test_density_filter_top_row_n1() {
    // Active: (0,0),(1,0),(2,0) - row 0 has 3 blocks; each col has 1 block.
    // DensityFilter(1): row 0 qualifies; cols 0,1,2 qualify.
    assert_eq!(
        bbox4(&[(0, 0), (1, 0), (2, 0)], BboxMethod::DensityFilter(1)),
        Some([0, 0, 48, 16])
    );
}

#[test]
fn test_density_filter_top_row_n2() {
    // DensityFilter(2): row 0 qualifies (3 >= 2) but each col only has 1 < 2
    // active block -> no column qualifies -> None.
    assert_eq!(
        bbox4(&[(0, 0), (1, 0), (2, 0)], BboxMethod::DensityFilter(2)),
        None
    );
}

// Erosion: 3x3 cluster in 5x5 grid

fn bbox5(active: &[(usize, usize)], method: BboxMethod) -> Option<[u32; 4]> {
    let map = make_map(5, 5, active);
    compute_bbox(&map, 5, 5, 80, 80, single(THRESH), method)
}

fn cluster_3x3() -> Vec<(usize, usize)> {
    (1..=3)
        .flat_map(|by| (1..=3).map(move |bx| (bx, by)))
        .collect()
}

#[test]
fn test_erosion_3x3_cluster_n1() {
    // All 9 blocks have >= 1 active neighbour -> all survive.
    assert_eq!(
        bbox5(&cluster_3x3(), BboxMethod::Erosion(1)),
        Some([16, 16, 48, 48])
    );
}

#[test]
fn test_erosion_3x3_cluster_n4() {
    // Only the center block (2,2) has 4 active neighbours; all edge/corner
    // blocks of the 3x3 cluster have <= 3 active neighbours -> only (2,2) survives.
    assert_eq!(
        bbox5(&cluster_3x3(), BboxMethod::Erosion(4)),
        Some([32, 32, 16, 16])
    );
}
