//! Bounding-box computation methods for the per-block motion map.
//!
//! The motion map is a flat grid of `cols * rows` block scores, row by row.
//! [`compute_bbox`] thresholds the map and returns the smallest axis-aligned
//! rectangle that covers every block the method keeps, in pixel coordinates
//! relative to the full frame.

use crate::number::{Format, Num};
use crate::single::{single_num, Single};
use crate::BLOCK;
use vstd::prelude::*;

verus! {

/// Strategy used when computing the active-region bounding box.
#[derive(Clone, Copy, Debug)]
pub enum BboxMethod {
    /// Tight axis-aligned envelope of every block whose score reaches the
    /// threshold. One outlier anywhere in the frame expands the box to it.
    Union,
    /// Trim this percentage of active-block coordinates from each edge before
    /// computing the envelope. It is clamped to `[0, 49.9]`.
    Percentile(Single),
    /// Only keep a row (or column) that holds at least this many active blocks.
    DensityFilter(usize),
    /// Only keep an active block with at least this many active 4-connected
    /// neighbours.
    Erosion(usize),
}

impl Default for BboxMethod {
    fn default() -> (r: BboxMethod)
        ensures
            r is Union,
    {
        BboxMethod::Union
    }
}

impl PartialEq for BboxMethod {
    fn eq(&self, other: &BboxMethod) -> (r: bool) {
        match (*self, *other) {
            (BboxMethod::Union, BboxMethod::Union) => true,
            (BboxMethod::Percentile(a), BboxMethod::Percentile(b)) => a == b,
            (BboxMethod::DensityFilter(a), BboxMethod::DensityFilter(b)) => a == b,
            (BboxMethod::Erosion(a), BboxMethod::Erosion(b)) => a == b,
            _ => false,
        }
    }
}

impl vstd::std_specs::cmp::PartialEqSpecImpl for BboxMethod {
    open spec fn obeys_eq_spec() -> bool {
        true
    }

    open spec fn eq_spec(&self, other: &BboxMethod) -> bool {
        match (*self, *other) {
            (BboxMethod::Union, BboxMethod::Union) => true,
            (BboxMethod::Percentile(a), BboxMethod::Percentile(b)) => a@.same(b@),
            (BboxMethod::DensityFilter(a), BboxMethod::DensityFilter(b)) => a == b,
            (BboxMethod::Erosion(a), BboxMethod::Erosion(b)) => a == b,
            _ => false,
        }
    }
}

/// The largest percentage that [`BboxMethod::Percentile`] trims, 49.9.
pub const MAX_TRIM: u32 = 0x4247_999a;

/// The scores of a map as numbers.
pub open spec fn scores(map: Seq<Single>) -> Seq<Num> {
    Seq::new(map.len(), |i: int| map[i]@)
}

/// Which blocks have a score that reaches the threshold.
pub open spec fn active_blocks(scores: Seq<Num>, threshold: Num) -> Seq<bool> {
    Seq::new(scores.len(), |i: int| scores[i].at_least(threshold))
}

/// The block in column `bx` of row `by`.
pub open spec fn block(mask: Seq<bool>, cols: int, bx: int, by: int) -> bool {
    mask[by * cols + bx]
}

/// How many of the first `n` blocks of a column are active.
pub open spec fn col_count(mask: Seq<bool>, cols: int, bx: int, n: nat) -> nat
    decreases n,
{
    if n == 0 {
        0
    } else {
        col_count(mask, cols, bx, (n - 1) as nat) + if block(mask, cols, bx, n - 1) {
            1nat
        } else {
            0
        }
    }
}

/// How many of the first `n` blocks of a row are active.
pub open spec fn row_count(mask: Seq<bool>, cols: int, by: int, n: nat) -> nat
    decreases n,
{
    if n == 0 {
        0
    } else {
        row_count(mask, cols, by, (n - 1) as nat) + if block(mask, cols, n - 1, by) {
            1nat
        } else {
            0
        }
    }
}

/// How many active blocks the first `c` columns hold.
pub open spec fn left_of(mask: Seq<bool>, cols: int, rows: nat, c: nat) -> nat
    decreases c,
{
    if c == 0 {
        0
    } else {
        left_of(mask, cols, rows, (c - 1) as nat) + col_count(mask, cols, c - 1, rows)
    }
}

/// How many active blocks the first `r` rows hold.
pub open spec fn above_row(mask: Seq<bool>, cols: nat, r: nat) -> nat
    decreases r,
{
    if r == 0 {
        0
    } else {
        above_row(mask, cols, (r - 1) as nat) + row_count(mask, cols as int, r - 1, cols)
    }
}

pub open spec fn one_if(b: bool) -> nat {
    if b {
        1
    } else {
        0
    }
}

/// How many of the four blocks that share a side with this one are active.
pub open spec fn neighbours(mask: Seq<bool>, cols: int, rows: int, bx: int, by: int) -> nat {
    one_if(bx > 0 && block(mask, cols, bx - 1, by)) + one_if(
        bx + 1 < cols && block(mask, cols, bx + 1, by),
    ) + one_if(by > 0 && block(mask, cols, bx, by - 1)) + one_if(
        by + 1 < rows && block(mask, cols, bx, by + 1),
    )
}

/// The block is active, and so are at least `n` of its neighbours.
pub open spec fn survives(mask: Seq<bool>, cols: int, rows: int, n: int, bx: int, by: int) -> bool {
    block(mask, cols, bx, by) && neighbours(mask, cols, rows, bx, by) >= n
}

/// How many of `n` sorted coordinates are dropped at each end: `percent` of
/// them, rounded down, but never all.
pub open spec fn trim_count(percent: Num, n: nat) -> nat {
    let share = percent.clamped(Num::zero(), single_num(MAX_TRIM)).over(
        Format::Single,
        Num::of_int(Format::Single, 100),
    ).times(Format::Single, Num::of_int(Format::Single, n as int)).whole(
        Format::Single,
        u64::MAX as nat,
    );
    let most = ((n - 1) / 2) as nat;
    if share < most {
        share
    } else {
        most
    }
}

/// Of `n` things in line, the ones at positions `before..upto` include one that
/// stays when `trim` are dropped at each end.
pub open spec fn within_trim(before: nat, upto: nat, n: nat, trim: nat) -> bool {
    before < upto && upto > trim && before < n - trim
}

/// Column `bx` holds an active block that survives erosion by `n` neighbours.
pub open spec fn col_survives(mask: Seq<bool>, cols: int, rows: int, n: int, bx: int) -> bool {
    exists|by: int| 0 <= by < rows && survives(mask, cols, rows, n, bx, by)
}

/// Row `by` holds an active block that survives erosion by `n` neighbours.
pub open spec fn row_survives(mask: Seq<bool>, cols: int, rows: int, n: int, by: int) -> bool {
    exists|bx: int| 0 <= bx < cols && survives(mask, cols, rows, n, bx, by)
}

/// The method keeps column `bx`.
pub open spec fn keeps_col(mask: Seq<bool>, cols: nat, rows: nat, method: BboxMethod, bx: int) -> bool {
    match method {
        BboxMethod::Union => exists|by: int| 0 <= by < rows && block(mask, cols as int, bx, by),
        BboxMethod::Percentile(p) => {
            let n = above_row(mask, cols, rows);
            n > 0 && within_trim(
                left_of(mask, cols as int, rows, bx as nat),
                left_of(mask, cols as int, rows, (bx + 1) as nat),
                n,
                trim_count(p@, n),
            )
        },
        BboxMethod::DensityFilter(k) => col_count(mask, cols as int, bx, rows) >= k,
        BboxMethod::Erosion(k) => col_survives(mask, cols as int, rows as int, k as int, bx),
    }
}

/// The method keeps row `by`.
pub open spec fn keeps_row(mask: Seq<bool>, cols: nat, rows: nat, method: BboxMethod, by: int) -> bool {
    match method {
        BboxMethod::Union => exists|bx: int| 0 <= bx < cols && block(mask, cols as int, bx, by),
        BboxMethod::Percentile(p) => {
            let n = above_row(mask, cols, rows);
            n > 0 && within_trim(
                above_row(mask, cols, by as nat),
                above_row(mask, cols, (by + 1) as nat),
                n,
                trim_count(p@, n),
            )
        },
        BboxMethod::DensityFilter(k) => row_count(mask, cols as int, by, cols) >= k,
        BboxMethod::Erosion(k) => row_survives(mask, cols as int, rows as int, k as int, by),
    }
}

/// Which columns the method keeps.
pub open spec fn kept_cols(mask: Seq<bool>, cols: nat, rows: nat, method: BboxMethod) -> Seq<bool> {
    Seq::new(cols, |bx: int| keeps_col(mask, cols, rows, method, bx))
}

/// Which rows the method keeps.
pub open spec fn kept_rows(mask: Seq<bool>, cols: nat, rows: nat, method: BboxMethod) -> Seq<bool> {
    Seq::new(rows, |by: int| keeps_row(mask, cols, rows, method, by))
}

pub open spec fn is_first(s: Seq<bool>, i: int) -> bool {
    0 <= i < s.len() && s[i] && forall|j: int| 0 <= j < i ==> !s[j]
}

pub open spec fn is_last(s: Seq<bool>, i: int) -> bool {
    0 <= i < s.len() && s[i] && forall|j: int| i < j < s.len() ==> !s[j]
}

/// A rectangle of blocks, by its first and last column and row.
pub ghost struct BlockBox {
    pub min_col: int,
    pub min_row: int,
    pub max_col: int,
    pub max_row: int,
}

/// The smallest rectangle of blocks that covers the kept columns and rows.
pub open spec fn envelope(cols: Seq<bool>, rows: Seq<bool>) -> Option<BlockBox> {
    if cols.contains(true) && rows.contains(true) {
        Some(
            BlockBox {
                min_col: choose|i: int| is_first(cols, i),
                min_row: choose|i: int| is_first(rows, i),
                max_col: choose|i: int| is_last(cols, i),
                max_row: choose|i: int| is_last(rows, i),
            },
        )
    } else {
        None
    }
}

/// The rectangle of blocks that the method leaves of a mask.
pub open spec fn block_box(mask: Seq<bool>, cols: nat, rows: nat, method: BboxMethod) -> Option<BlockBox> {
    envelope(kept_cols(mask, cols, rows, method), kept_rows(mask, cols, rows, method))
}

pub open spec fn smaller(a: int, b: int) -> int {
    if a < b {
        a
    } else {
        b
    }
}

/// `r` is `[x, y, w, h]` of the blocks in pixels, cut off at the frame's edge.
pub open spec fn is_pixel_box(r: [u32; 4], b: BlockBox, fw: u32, fh: u32) -> bool {
    &&& r[0] == b.min_col * BLOCK
    &&& r[1] == b.min_row * BLOCK
    &&& r[2] == smaller((b.max_col + 1) * BLOCK, fw as int) - b.min_col * BLOCK
    &&& r[3] == smaller((b.max_row + 1) * BLOCK, fh as int) - b.min_row * BLOCK
}

/// The blocks start inside the frame.
pub open spec fn in_frame(b: BlockBox, fw: u32, fh: u32) -> bool {
    &&& b.min_col * BLOCK <= fw
    &&& b.min_row * BLOCK <= fh
}

/// `r` is the pixel rectangle of the blocks that the method leaves.
pub open spec fn is_bbox(
    r: Option<[u32; 4]>,
    mask: Seq<bool>,
    cols: nat,
    rows: nat,
    fw: u32,
    fh: u32,
    method: BboxMethod,
) -> bool {
    match (r, block_box(mask, cols, rows, method)) {
        (None, None) => true,
        (Some(r), Some(b)) => is_pixel_box(r, b, fw, fh),
        _ => false,
    }
}

/// The index of a block lies in the grid.
proof fn lemma_index(cols: nat, rows: nat, bx: int, by: int)
    requires
        0 <= bx < cols,
        0 <= by < rows,
    ensures
        0 <= by * cols,
        0 <= by * cols + bx < cols * rows,
{
    assert(0 <= by * cols && by * cols + bx < cols * rows) by (nonlinear_arith)
        requires
            0 <= bx < cols,
            0 <= by,
            by + 1 <= rows,
    ;
}

proof fn lemma_envelope(cols: Seq<bool>, rows: Seq<bool>, b: BlockBox)
    requires
        is_first(cols, b.min_col),
        is_last(cols, b.max_col),
        is_first(rows, b.min_row),
        is_last(rows, b.max_row),
    ensures
        envelope(cols, rows) == Some(b),
{
    assert(cols[b.min_col]);
    assert(rows[b.min_row]);
    let c1 = choose|i: int| is_first(cols, i);
    let c2 = choose|i: int| is_last(cols, i);
    let r1 = choose|i: int| is_first(rows, i);
    let r2 = choose|i: int| is_last(rows, i);
    assert(is_first(cols, c1) && is_last(cols, c2) && is_first(rows, r1) && is_last(rows, r2));
    assert(c1 == b.min_col && c2 == b.max_col && r1 == b.min_row && r2 == b.max_row);
}

/// Some entry is set, so there are a first and a last one.
proof fn lemma_ends_exist(s: Seq<bool>, k: int)
    requires
        0 <= k < s.len(),
        s[k],
    ensures
        exists|i: int| is_first(s, i),
        exists|i: int| is_last(s, i),
{
    lemma_first_upto(s, k);
    lemma_last_from(s, k);
}

proof fn lemma_first_upto(s: Seq<bool>, k: int)
    requires
        0 <= k < s.len(),
        s[k],
    ensures
        exists|i: int| is_first(s, i),
    decreases k,
{
    if exists|i: int| 0 <= i < k && s[i] {
        let i = choose|i: int| 0 <= i < k && s[i];
        lemma_first_upto(s, i);
    } else {
        assert(is_first(s, k));
    }
}

proof fn lemma_last_from(s: Seq<bool>, k: int)
    requires
        0 <= k < s.len(),
        s[k],
    ensures
        exists|i: int| is_last(s, i),
    decreases s.len() - k,
{
    if exists|i: int| k < i < s.len() && s[i] {
        let i = choose|i: int| k < i < s.len() && s[i];
        lemma_last_from(s, i);
    } else {
        assert(is_last(s, k));
    }
}

/// Which blocks of `map` reach the threshold.
fn active_mask(map: &[Single], threshold: Single) -> (mask: Vec<bool>)
    ensures
        mask@ == active_blocks(scores(map@), threshold@),
{
    let mut mask: Vec<bool> = Vec::new();
    let mut i: usize = 0;
    while i < map.len()
        invariant
            i <= map.len(),
            mask@.len() == i,
            forall|j: int| 0 <= j < i ==> mask@[j] == map@[j]@.at_least(threshold@),
        decreases map.len() - i,
    {
        mask.push(map[i].at_least(threshold));
        i = i + 1;
    }
    mask
}

/// The first and the last set entry.
fn ends(s: &Vec<bool>) -> (r: Option<(usize, usize)>)
    ensures
        match r {
            None => !s@.contains(true),
            Some((a, b)) => is_first(s@, a as int) && is_last(s@, b as int),
        },
{
    let mut i: usize = 0;
    let mut found: Option<(usize, usize)> = None;
    while i < s.len()
        invariant
            i <= s.len(),
            match found {
                None => forall|j: int| 0 <= j < i ==> !s@[j],
                Some((a, b)) => {
                    &&& is_first(s@, a as int)
                    &&& a <= b < i
                    &&& s@[b as int]
                    &&& forall|j: int| b < j < i ==> !s@[j]
                },
            },
        decreases s.len() - i,
    {
        if s[i] {
            found = match found {
                None => Some((i, i)),
                Some((a, _)) => Some((a, i)),
            };
        }
        i = i + 1;
    }
    found
}

/// The envelope of kept columns and rows.
fn envelope_of(cols: &Vec<bool>, rows: &Vec<bool>) -> (r: Option<(usize, usize, usize, usize)>)
    ensures
        is_blocks(r, envelope(cols@, rows@)),
        r matches Some(t) ==> t.0 < cols@.len() && t.1 < rows@.len() && t.2 < cols@.len() && t.3
            < rows@.len() && t.0 <= t.2 && t.1 <= t.3,
{
    match (ends(cols), ends(rows)) {
        (Some((c0, c1)), Some((r0, r1))) => {
            proof {
                lemma_envelope(
                    cols@,
                    rows@,
                    BlockBox {
                        min_col: c0 as int,
                        min_row: r0 as int,
                        max_col: c1 as int,
                        max_row: r1 as int,
                    },
                );
            }
            Some((c0, r0, c1, r1))
        },
        _ => None,
    }
}

/// The executable form of a rectangle of blocks.
pub open spec fn is_blocks(r: Option<(usize, usize, usize, usize)>, b: Option<BlockBox>) -> bool {
    match (r, b) {
        (None, None) => true,
        (Some(t), Some(b)) => t.0 == b.min_col && t.1 == b.min_row && t.2 == b.max_col && t.3
            == b.max_row,
        _ => false,
    }
}

/// Convert block-grid coordinates to pixel coordinates.
pub fn blocks_to_pixels(
    min_col: usize,
    min_row: usize,
    max_col: usize,
    max_row: usize,
    fw: u32,
    fh: u32,
) -> (r: [u32; 4])
    requires
        min_col <= max_col + 1,
        min_row <= max_row + 1,
        in_frame(
            BlockBox {
                min_col: min_col as int,
                min_row: min_row as int,
                max_col: max_col as int,
                max_row: max_row as int,
            },
            fw,
            fh,
        ),
    ensures
        is_pixel_box(
            r,
            BlockBox {
                min_col: min_col as int,
                min_row: min_row as int,
                max_col: max_col as int,
                max_row: max_row as int,
            },
            fw,
            fh,
        ),
{
    let px: u32 = (min_col * BLOCK) as u32;
    let py: u32 = (min_row * BLOCK) as u32;
    assert(max_col as u128 + 1 <= 0x1_0000_0000_0000_0000);
    assert(max_row as u128 + 1 <= 0x1_0000_0000_0000_0000);
    let right: u128 = (max_col as u128 + 1) * 16;
    let bottom: u128 = (max_row as u128 + 1) * 16;
    let right: u32 = if right < fw as u128 {
        right as u32
    } else {
        fw
    };
    let bottom: u32 = if bottom < fh as u128 {
        bottom as u32
    } else {
        fh
    };
    [px, py, right - px, bottom - py]
}

/// The block in column `bx` of row `by`.
fn block_at(mask: &Vec<bool>, cols: usize, rows: usize, bx: usize, by: usize) -> (r: bool)
    requires
        cols * rows <= mask@.len(),
        bx < cols,
        by < rows,
    ensures
        r == block(mask@, cols as int, bx as int, by as int),
{
    proof {
        assert(mask@.len() == mask.len());
        lemma_index(cols as nat, rows as nat, bx as int, by as int);
    }
    mask[by * cols + bx]
}

/// Which columns, and which rows, hold a block that is set.
fn hit_lines(mask: &Vec<bool>, cols: usize, rows: usize) -> (r: (Vec<bool>, Vec<bool>))
    requires
        cols * rows <= mask@.len(),
    ensures
        r.0@ == Seq::new(
            cols as nat,
            |bx: int| exists|by: int| 0 <= by < rows && block(mask@, cols as int, bx, by),
        ),
        r.1@ == Seq::new(
            rows as nat,
            |by: int| exists|bx: int| 0 <= bx < cols && block(mask@, cols as int, bx, by),
        ),
{
    let mut hit_cols: Vec<bool> = vec![false; cols];
    let mut hit_rows: Vec<bool> = vec![false; rows];
    let mut by: usize = 0;
    while by < rows
        invariant
            by <= rows,
            cols * rows <= mask@.len(),
            hit_cols@.len() == cols,
            hit_rows@.len() == rows,
            forall|x: int|
                0 <= x < cols ==> hit_cols@[x] == (exists|y: int|
                    0 <= y < by && block(mask@, cols as int, x, y)),
            forall|y: int|
                0 <= y < by ==> hit_rows@[y] == (exists|x: int|
                    0 <= x < cols && block(mask@, cols as int, x, y)),
            forall|y: int| by <= y < rows ==> !hit_rows@[y],
        decreases rows - by,
    {
        let ghost before = hit_cols@;
        let mut bx: usize = 0;
        while bx < cols
            invariant
                bx <= cols,
                by < rows,
                cols * rows <= mask@.len(),
                hit_cols@.len() == cols,
                before.len() == cols,
                hit_rows@.len() == rows,
                forall|x: int|
                    bx <= x < cols ==> #[trigger] hit_cols@[x] == before[x],
                forall|x: int|
                    0 <= x < bx ==> #[trigger] hit_cols@[x] == (before[x] || block(
                        mask@,
                        cols as int,
                        x,
                        by as int,
                    )),
                hit_rows@[by as int] == (exists|x: int|
                    0 <= x < bx && block(mask@, cols as int, x, by as int)),
                forall|y: int|
                    0 <= y < by ==> hit_rows@[y] == (exists|x: int|
                        0 <= x < cols && block(mask@, cols as int, x, y)),
                forall|y: int| by < y < rows ==> !hit_rows@[y],
            decreases cols - bx,
        {
            if block_at(mask, cols, rows, bx, by) {
                hit_cols.set(bx, true);
                hit_rows.set(by, true);
            }
            bx = bx + 1;
        }
        assert forall|x: int| 0 <= x < cols implies hit_cols@[x] == (exists|y: int|
            0 <= y < by + 1 && block(mask@, cols as int, x, y)) by {
            if before[x] {
                let y = choose|y: int| 0 <= y < by && block(mask@, cols as int, x, y);
                assert(0 <= y < by + 1 && block(mask@, cols as int, x, y));
            }
            if block(mask@, cols as int, x, by as int) {
                assert(0 <= by < by + 1);
            }
            if exists|y: int| 0 <= y < by + 1 && block(mask@, cols as int, x, y) {
                let y = choose|y: int| 0 <= y < by + 1 && block(mask@, cols as int, x, y);
                if y < by {
                    assert(before[x]);
                }
            }
        }
        by = by + 1;
    }
    (hit_cols, hit_rows)
}

/// Tight min/max envelope: every active block is inside.
fn bbox_union(map: &[Single], cols: usize, rows: usize, threshold: Single) -> (r: Option<
    (usize, usize, usize, usize),
>)
    requires
        cols * rows <= map@.len(),
    ensures
        is_blocks(
            r,
            block_box(
                active_blocks(scores(map@), threshold@),
                cols as nat,
                rows as nat,
                BboxMethod::Union,
            ),
        ),
{
    let mask = active_mask(map, threshold);
    let (hit_cols, hit_rows) = hit_lines(&mask, cols, rows);
    proof {
        assert(hit_cols@ =~= kept_cols(mask@, cols as nat, rows as nat, BboxMethod::Union));
        assert(hit_rows@ =~= kept_rows(mask@, cols as nat, rows as nat, BboxMethod::Union));
    }
    envelope_of(&hit_cols, &hit_rows)
}

/// How many active blocks each column, and each row, holds.
fn line_counts(mask: &Vec<bool>, cols: usize, rows: usize) -> (r: (Vec<usize>, Vec<usize>))
    requires
        cols * rows <= mask@.len(),
    ensures
        r.0@.len() == cols,
        r.1@.len() == rows,
        forall|x: int|
            0 <= x < cols ==> r.0@[x] == col_count(mask@, cols as int, x, rows as nat),
        forall|y: int|
            0 <= y < rows ==> r.1@[y] == row_count(mask@, cols as int, y, cols as nat),
{
    let mut in_cols: Vec<usize> = vec![0; cols];
    let mut in_rows: Vec<usize> = Vec::new();
    let mut by: usize = 0;
    while by < rows
        invariant
            by <= rows,
            cols * rows <= mask@.len(),
            in_cols@.len() == cols,
            in_rows@.len() == by,
            forall|x: int|
                0 <= x < cols ==> #[trigger] in_cols@[x] == col_count(mask@, cols as int, x, by as nat),
            forall|x: int| 0 <= x < cols ==> #[trigger] in_cols@[x] <= by,
            forall|y: int|
                0 <= y < by ==> in_rows@[y] == row_count(mask@, cols as int, y, cols as nat),
        decreases rows - by,
    {
        let ghost before = in_cols@;
        let mut count: usize = 0;
        let mut bx: usize = 0;
        while bx < cols
            invariant
                bx <= cols,
                by < rows,
                cols * rows <= mask@.len(),
                in_cols@.len() == cols,
                before.len() == cols,
                count <= bx,
                count == row_count(mask@, cols as int, by as int, bx as nat),
                forall|x: int| 0 <= x < cols ==> #[trigger] before[x] <= by,
                forall|x: int|
                    0 <= x < cols ==> before[x] == col_count(mask@, cols as int, x, by as nat),
                forall|x: int| bx <= x < cols ==> in_cols@[x] == before[x],
                forall|x: int|
                    0 <= x < bx ==> #[trigger] in_cols@[x] == col_count(
                        mask@,
                        cols as int,
                        x,
                        (by + 1) as nat,
                    ),
                forall|x: int| 0 <= x < bx ==> #[trigger] in_cols@[x] <= by + 1,
            decreases cols - bx,
        {
            assert(before[bx as int] <= by);
            if block_at(mask, cols, rows, bx, by) {
                in_cols.set(bx, in_cols[bx] + 1);
                count = count + 1;
            }
            bx = bx + 1;
        }
        in_rows.push(count);
        by = by + 1;
    }
    (in_cols, in_rows)
}

/// Which counts reach `n`.
fn at_least_each(counts: &Vec<usize>, n: usize) -> (r: Vec<bool>)
    ensures
        r@ == Seq::new(counts@.len(), |i: int| counts@[i] >= n),
{
    let mut r: Vec<bool> = Vec::new();
    let mut i: usize = 0;
    while i < counts.len()
        invariant
            i <= counts.len(),
            r@.len() == i,
            forall|j: int| 0 <= j < i ==> r@[j] == (counts@[j] >= n),
        decreases counts.len() - i,
    {
        r.push(counts[i] >= n);
        i = i + 1;
    }
    r
}

/// Density-filtered envelope: only rows and columns with at least `min_n`
/// active blocks.
fn bbox_density_filter(
    map: &[Single],
    cols: usize,
    rows: usize,
    threshold: Single,
    min_n: usize,
) -> (r: Option<(usize, usize, usize, usize)>)
    requires
        cols * rows <= map@.len(),
    ensures
        is_blocks(
            r,
            block_box(
                active_blocks(scores(map@), threshold@),
                cols as nat,
                rows as nat,
                BboxMethod::DensityFilter(min_n),
            ),
        ),
{
    let mask = active_mask(map, threshold);
    let (in_cols, in_rows) = line_counts(&mask, cols, rows);
    let qual_cols = at_least_each(&in_cols, min_n);
    let qual_rows = at_least_each(&in_rows, min_n);
    proof {
        let method = BboxMethod::DensityFilter(min_n);
        assert(qual_cols@ =~= kept_cols(mask@, cols as nat, rows as nat, method));
        assert(qual_rows@ =~= kept_rows(mask@, cols as nat, rows as nat, method));
    }
    envelope_of(&qual_cols, &qual_rows)
}

/// How many of the four neighbours of a block are active.
fn neighbor_count(active: &Vec<bool>, cols: usize, rows: usize, bx: usize, by: usize) -> (n: usize)
    requires
        cols * rows <= active@.len(),
        bx < cols,
        by < rows,
    ensures
        n == neighbours(active@, cols as int, rows as int, bx as int, by as int),
{
    let mut n: usize = 0;
    if bx > 0 && block_at(active, cols, rows, bx - 1, by) {
        n = n + 1;
    }
    if bx + 1 < cols && block_at(active, cols, rows, bx + 1, by) {
        n = n + 1;
    }
    if by > 0 && block_at(active, cols, rows, bx, by - 1) {
        n = n + 1;
    }
    if by + 1 < rows && block_at(active, cols, rows, bx, by + 1) {
        n = n + 1;
    }
    n
}

/// Morphological-erosion envelope: blocks need at least `min_neighbors` active
/// 4-connected neighbours to survive.
fn bbox_erosion(
    map: &[Single],
    cols: usize,
    rows: usize,
    threshold: Single,
    min_neighbors: usize,
) -> (r: Option<(usize, usize, usize, usize)>)
    requires
        cols * rows <= map@.len(),
    ensures
        is_blocks(
            r,
            block_box(
                active_blocks(scores(map@), threshold@),
                cols as nat,
                rows as nat,
                BboxMethod::Erosion(min_neighbors),
            ),
        ),
{
    let active = active_mask(map, threshold);
    let mut kept: Vec<bool> = vec![false; active.len()];
    let mut by: usize = 0;
    while by < rows
        invariant
            by <= rows,
            cols * rows <= active@.len(),
            kept@.len() == active@.len(),
            forall|x: int, y: int|
                0 <= x < cols && 0 <= y < by ==> #[trigger] block(kept@, cols as int, x, y)
                    == survives(active@, cols as int, rows as int, min_neighbors as int, x, y),
        decreases rows - by,
    {
        let mut bx: usize = 0;
        while bx < cols
            invariant
                bx <= cols,
                by < rows,
                cols * rows <= active@.len(),
                kept@.len() == active@.len(),
                forall|x: int, y: int|
                    0 <= x < cols && 0 <= y && (y < by || (y == by && x < bx)) ==> #[trigger] block(
                        kept@,
                        cols as int,
                        x,
                        y,
                    ) == survives(active@, cols as int, rows as int, min_neighbors as int, x, y),
            decreases cols - bx,
        {
            proof {
                lemma_index(cols as nat, rows as nat, bx as int, by as int);
            }
            let ghost before = kept@;
            assert(kept@.len() == kept.len());
            let keep = block_at(&active, cols, rows, bx, by) && neighbor_count(&active, cols, rows, bx, by)
                >= min_neighbors;
            kept.set(by * cols + bx, keep);
            assert forall|x: int, y: int|
                0 <= x < cols && 0 <= y && (y < by || (y == by && x < bx + 1)) implies #[trigger] block(
                kept@,
                cols as int,
                x,
                y,
            ) == survives(active@, cols as int, rows as int, min_neighbors as int, x, y) by {
                lemma_index(cols as nat, rows as nat, x, y);
                lemma_index_injective(cols as nat, x, y, bx as int, by as int);
                if x != bx || y != by {
                    assert(block(kept@, cols as int, x, y) == block(before, cols as int, x, y));
                }
            }
            bx = bx + 1;
        }
        by = by + 1;
    }
    let (hit_cols, hit_rows) = hit_lines(&kept, cols, rows);
    proof {
        let method = BboxMethod::Erosion(min_neighbors);
        let k = min_neighbors as int;
        assert forall|x: int| 0 <= x < cols implies hit_cols@[x] == col_survives(
            active@,
            cols as int,
            rows as int,
            k,
            x,
        ) by {
            if hit_cols@[x] {
                let y = choose|y: int| 0 <= y < rows && block(kept@, cols as int, x, y);
                assert(survives(active@, cols as int, rows as int, k, x, y));
            }
            if col_survives(active@, cols as int, rows as int, k, x) {
                let y = choose|y: int|
                    0 <= y < rows && survives(active@, cols as int, rows as int, k, x, y);
                assert(block(kept@, cols as int, x, y));
            }
        }
        assert forall|y: int| 0 <= y < rows implies hit_rows@[y] == row_survives(
            active@,
            cols as int,
            rows as int,
            k,
            y,
        ) by {
            if hit_rows@[y] {
                let x = choose|x: int| 0 <= x < cols && block(kept@, cols as int, x, y);
                assert(survives(active@, cols as int, rows as int, k, x, y));
            }
            if row_survives(active@, cols as int, rows as int, k, y) {
                let x = choose|x: int|
                    0 <= x < cols && survives(active@, cols as int, rows as int, k, x, y);
                assert(block(kept@, cols as int, x, y));
            }
        }
        assert(hit_cols@ =~= kept_cols(active@, cols as nat, rows as nat, method));
        assert(hit_rows@ =~= kept_rows(active@, cols as nat, rows as nat, method));
    }
    envelope_of(&hit_cols, &hit_rows)
}

/// Different blocks have different indices.
pub(crate) proof fn lemma_index_injective(cols: nat, x: int, y: int, u: int, v: int)
    requires
        0 <= x < cols,
        0 <= u < cols,
    ensures
        y * cols + x == v * cols + u ==> x == u && y == v,
{
    if y < v {
        assert(y * cols + x < v * cols + u) by (nonlinear_arith)
            requires
                y + 1 <= v,
                0 <= x < cols,
                0 <= u,
        ;
    } else if y > v {
        assert(y * cols + x > v * cols + u) by (nonlinear_arith)
            requires
                v + 1 <= y,
                0 <= x,
                0 <= u < cols,
        ;
    }
}

/// The sum of the first `i` counts.
spec fn sum_upto(counts: Seq<usize>, i: nat) -> nat
    decreases i,
{
    if i == 0 {
        0
    } else {
        sum_upto(counts, (i - 1) as nat) + counts[i - 1] as nat
    }
}

proof fn lemma_sum_monotone(counts: Seq<usize>, i: nat, j: nat)
    requires
        i <= j,
    ensures
        sum_upto(counts, i) <= sum_upto(counts, j),
    decreases j,
{
    if i < j {
        lemma_sum_monotone(counts, i, (j - 1) as nat);
    }
}

/// A line of `n` blocks holds at most `n` active ones.
proof fn lemma_counts_bounded(mask: Seq<bool>, cols: int, i: int, n: nat)
    ensures
        col_count(mask, cols, i, n) <= n,
        row_count(mask, cols, i, n) <= n,
    decreases n,
{
    if n > 0 {
        lemma_counts_bounded(mask, cols, i, (n - 1) as nat);
    }
}

proof fn lemma_left_of_sum(mask: Seq<bool>, cols: int, rows: nat, counts: Seq<usize>, c: nat)
    requires
        c <= counts.len(),
        forall|x: int| 0 <= x < counts.len() ==> counts[x] == col_count(mask, cols, x, rows),
    ensures
        left_of(mask, cols, rows, c) == sum_upto(counts, c),
        left_of(mask, cols, rows, c) <= c * rows,
    decreases c,
{
    if c > 0 {
        lemma_left_of_sum(mask, cols, rows, counts, (c - 1) as nat);
        lemma_counts_bounded(mask, cols, c - 1, rows);
        assert(c * rows == (c - 1) * rows + rows) by (nonlinear_arith);
    }
}

proof fn lemma_above_row_sum(mask: Seq<bool>, cols: nat, counts: Seq<usize>, r: nat)
    requires
        r <= counts.len(),
        forall|y: int|
            0 <= y < counts.len() ==> counts[y] == row_count(mask, cols as int, y, cols),
    ensures
        above_row(mask, cols, r) == sum_upto(counts, r),
        above_row(mask, cols, r) <= r * cols,
    decreases r,
{
    if r > 0 {
        lemma_above_row_sum(mask, cols, counts, (r - 1) as nat);
        lemma_counts_bounded(mask, cols as int, r - 1, cols);
        assert(r * cols == (r - 1) * cols + cols) by (nonlinear_arith);
    }
}

/// The sum of all counts.
fn total_of(counts: &Vec<usize>) -> (n: usize)
    requires
        sum_upto(counts@, counts@.len()) <= usize::MAX,
    ensures
        n == sum_upto(counts@, counts@.len()),
{
    let mut n: usize = 0;
    let mut i: usize = 0;
    while i < counts.len()
        invariant
            i <= counts.len(),
            n == sum_upto(counts@, i as nat),
            sum_upto(counts@, counts@.len()) <= usize::MAX,
        decreases counts.len() - i,
    {
        proof {
            lemma_sum_monotone(counts@, (i + 1) as nat, counts@.len());
        }
        n = n + counts[i];
        i = i + 1;
    }
    n
}

/// Which lines still hold something when `trim` of `n` things in line are
/// dropped at each end.
fn trimmed(counts: &Vec<usize>, n: usize, trim: usize) -> (r: Vec<bool>)
    requires
        trim <= n,
        sum_upto(counts@, counts@.len()) <= usize::MAX,
    ensures
        r@ == Seq::new(
            counts@.len(),
            |i: int| within_trim(
                sum_upto(counts@, i as nat),
                sum_upto(counts@, (i + 1) as nat),
                n as nat,
                trim as nat,
            ),
        ),
{
    let mut r: Vec<bool> = Vec::new();
    let mut sum: usize = 0;
    let mut i: usize = 0;
    while i < counts.len()
        invariant
            i <= counts.len(),
            trim <= n,
            sum == sum_upto(counts@, i as nat),
            sum_upto(counts@, counts@.len()) <= usize::MAX,
            r@.len() == i,
            forall|j: int|
                0 <= j < i ==> r@[j] == within_trim(
                    sum_upto(counts@, j as nat),
                    sum_upto(counts@, (j + 1) as nat),
                    n as nat,
                    trim as nat,
                ),
        decreases counts.len() - i,
    {
        proof {
            lemma_sum_monotone(counts@, (i + 1) as nat, counts@.len());
        }
        let next: usize = sum + counts[i];
        r.push(sum < next && next > trim && sum < n - trim);
        sum = next;
        i = i + 1;
    }
    r
}

/// How many of `n` sorted coordinates are dropped at each end.
fn trim_for(p: Single, n: usize) -> (trim: usize)
    requires
        n > 0,
    ensures
        trim == trim_count(p@, n as nat),
        2 * trim < n,
{
    let p: Single = p.clamped(Single::from_bits(0), Single::from_bits(MAX_TRIM));
    let share: u64 = p.over(Single::of_int(100)).times(Single::of_int(n as u64)).whole(u64::MAX);
    let most: usize = (n - 1) / 2;
    if share < most as u64 {
        share as usize
    } else {
        most
    }
}

/// Percentile-trimmed envelope.
fn bbox_percentile(map: &[Single], cols: usize, rows: usize, threshold: Single, p: Single) -> (r:
    Option<(usize, usize, usize, usize)>)
    requires
        cols * rows <= map@.len(),
    ensures
        is_blocks(
            r,
            block_box(
                active_blocks(scores(map@), threshold@),
                cols as nat,
                rows as nat,
                BboxMethod::Percentile(p),
            ),
        ),
{
    let ghost method = BboxMethod::Percentile(p);
    let mask = active_mask(map, threshold);
    assert(mask@.len() == mask.len());
    let (in_cols, in_rows) = line_counts(&mask, cols, rows);
    proof {
        lemma_left_of_sum(mask@, cols as int, rows as nat, in_cols@, cols as nat);
        lemma_above_row_sum(mask@, cols as nat, in_rows@, rows as nat);
        assert(rows * cols == cols * rows) by (nonlinear_arith);
    }
    let n: usize = total_of(&in_rows);
    if n == 0 {
        proof {
            let kept = kept_cols(mask@, cols as nat, rows as nat, method);
            assert(!kept.contains(true));
        }
        return None;
    }
    let trim: usize = trim_for(p, n);
    let kept_c = trimmed(&in_cols, n, trim);
    let kept_r = trimmed(&in_rows, n, trim);
    proof {
        assert forall|x: int| 0 <= x < cols implies kept_c@[x] == keeps_col(
            mask@,
            cols as nat,
            rows as nat,
            method,
            x,
        ) by {
            lemma_left_of_sum(mask@, cols as int, rows as nat, in_cols@, x as nat);
            lemma_left_of_sum(mask@, cols as int, rows as nat, in_cols@, (x + 1) as nat);
        }
        assert forall|y: int| 0 <= y < rows implies kept_r@[y] == keeps_row(
            mask@,
            cols as nat,
            rows as nat,
            method,
            y,
        ) by {
            lemma_above_row_sum(mask@, cols as nat, in_rows@, y as nat);
            lemma_above_row_sum(mask@, cols as nat, in_rows@, (y + 1) as nat);
        }
        assert(kept_c@ =~= kept_cols(mask@, cols as nat, rows as nat, method));
        assert(kept_r@ =~= kept_rows(mask@, cols as nat, rows as nat, method));
    }
    envelope_of(&kept_c, &kept_r)
}

/// The last block of the grid starts inside the frame in both directions, or at
/// least what the method leaves does.
pub open spec fn grid_in_frame(
    mask: Seq<bool>,
    cols: nat,
    rows: nat,
    fw: u32,
    fh: u32,
    method: BboxMethod,
) -> bool {
    ||| (cols - 1) * BLOCK <= fw && (rows - 1) * BLOCK <= fh
    ||| block_box(mask, cols, rows, method) matches Some(b) ==> in_frame(b, fw, fh)
}

/// Compute the active-region bounding box from a flat block-score map.
///
/// * `map`: per-block scores, row by row, at least `cols * rows` of them.
/// * `cols`, `rows`: grid dimensions.
/// * `fw`, `fh`: full frame width and height in pixels.
/// * `threshold`: minimum score for a block to be considered active.
/// * `method`: how to handle outlier blocks (see [`BboxMethod`]).
///
/// Returns `None` when the method keeps no column or no row.
pub fn compute_bbox(
    map: &[Single],
    cols: usize,
    rows: usize,
    fw: u32,
    fh: u32,
    threshold: Single,
    method: BboxMethod,
) -> (r: Option<[u32; 4]>)
    requires
        cols * rows <= map@.len(),
        grid_in_frame(
            active_blocks(scores(map@), threshold@),
            cols as nat,
            rows as nat,
            fw,
            fh,
            method,
        ),
    ensures
        is_bbox(
            r,
            active_blocks(scores(map@), threshold@),
            cols as nat,
            rows as nat,
            fw,
            fh,
            method,
        ),
{
    let found = match method {
        BboxMethod::Union => bbox_union(map, cols, rows, threshold),
        BboxMethod::Percentile(p) => bbox_percentile(map, cols, rows, threshold, p),
        BboxMethod::DensityFilter(n) => bbox_density_filter(map, cols, rows, threshold, n),
        BboxMethod::Erosion(n) => bbox_erosion(map, cols, rows, threshold, n),
    };
    proof {
        lemma_block_box_range(
            active_blocks(scores(map@), threshold@),
            cols as nat,
            rows as nat,
            method,
        );
    }
    match found {
        None => None,
        Some((min_col, min_row, max_col, max_row)) => Some(
            blocks_to_pixels(min_col, min_row, max_col, max_row, fw, fh),
        ),
    }
}

/// A rectangle of blocks lies in the grid.
pub proof fn lemma_block_box_range(mask: Seq<bool>, cols: nat, rows: nat, method: BboxMethod)
    ensures
        block_box(mask, cols, rows, method) matches Some(b) ==> {
            &&& is_first(kept_cols(mask, cols, rows, method), b.min_col)
            &&& is_last(kept_cols(mask, cols, rows, method), b.max_col)
            &&& is_first(kept_rows(mask, cols, rows, method), b.min_row)
            &&& is_last(kept_rows(mask, cols, rows, method), b.max_row)
            &&& 0 <= b.min_col <= b.max_col < cols
            &&& 0 <= b.min_row <= b.max_row < rows
        },
{
    let c = kept_cols(mask, cols, rows, method);
    let r = kept_rows(mask, cols, rows, method);
    if c.contains(true) && r.contains(true) {
        let i = choose|i: int| 0 <= i < c.len() && c[i] == true;
        let j = choose|j: int| 0 <= j < r.len() && r[j] == true;
        lemma_ends_exist(c, i);
        lemma_ends_exist(r, j);
    }
}

} // verus!
