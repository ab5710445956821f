//! What the regions of the four methods hold, counted block by block and said of
//! the pixels that are kept.

use crate::analysis::blocks_across;
use crate::bbox::{
    above_row, active_blocks, block, block_box, col_count, col_survives, is_bbox, is_pixel_box, keeps_col,
    keeps_row, left_of, neighbours, one_if, row_count, row_survives, scores, survives, trim_count,
    BboxMethod, BlockBox, MAX_TRIM,
};
use crate::bbox_laws::{
    lemma_box_is_envelope, lemma_counts_agree, lemma_nothing_trimmed, lemma_percentile_drops_share,
};
use crate::number::{lemma_small_int, Format, Num};
use crate::number_laws::distance;
use crate::rounding::{
    lemma_round_to_exact, lemma_round_to_monotone, lemma_round_to_relative, lemma_round_to_scale,
    round_to,
};
use crate::single::{single_num, Single};
use vstd::arithmetic::power2::{
    lemma2_to64, lemma2_to64_rest, lemma_pow2_adds, lemma_pow2_pos, lemma_pow2_strictly_increases,
    pow2,
};
use vstd::prelude::*;
use vstd::std_specs::cmp::PartialEqSpec;

verus! {

/// The rows in which column `x` of the grid holds an active block.
pub open spec fn active_in_col(mask: Seq<bool>, cols: nat, rows: nat, x: int) -> Set<int> {
    Set::new(|y: int| 0 <= y < rows && mask[y * cols + x])
}

/// The columns in which row `y` of the grid holds an active block.
pub open spec fn active_in_row(mask: Seq<bool>, cols: nat, y: int) -> Set<int> {
    Set::new(|x: int| 0 <= x < cols && mask[y * cols + x])
}

/// The active blocks that share a side with the one in column `x` of row `y`.
pub open spec fn active_beside(mask: Seq<bool>, cols: nat, rows: nat, x: int, y: int) -> Set<
    (int, int),
> {
    Set::new(
        |b: (int, int)|
            0 <= b.0 < cols && 0 <= b.1 < rows && distance(b.0, x) + distance(b.1, y) == 1
                && mask[b.1 * cols + b.0],
    )
}

/// The active blocks, by their places in the map.
pub open spec fn active_in_all(mask: Seq<bool>, cols: nat, rows: nat) -> Set<int> {
    Set::new(|i: int| 0 <= i < cols * rows && mask[i])
}

/// The active blocks in the columns left of column `c`.
pub open spec fn active_left(mask: Seq<bool>, cols: nat, rows: nat, c: int) -> Set<int> {
    Set::new(|i: int| 0 <= i < cols * rows && mask[i] && i % (cols as int) < c)
}

/// The active blocks in the rows above row `r`.
pub open spec fn active_over(mask: Seq<bool>, cols: nat, rows: nat, r: int) -> Set<int> {
    Set::new(|i: int| 0 <= i < cols * rows && mask[i] && i / (cols as int) < r)
}

/// Of the numbers below `n`, those that have the property.
spec fn below(n: nat, p: spec_fn(int) -> bool) -> Set<int> {
    Set::new(|i: int| 0 <= i < n && p(i))
}

/// One number more adds one to the size exactly where it has the property.
proof fn lemma_below(n: nat, p: spec_fn(int) -> bool)
    ensures
        below(n, p).finite(),
        below(0, p).len() == 0,
        n > 0 ==> below(n, p).len() == below((n - 1) as nat, p).len() + one_if(p(n - 1)),
    decreases n,
{
    assert(below(0, p) =~= Set::empty());
    if n > 0 {
        lemma_below((n - 1) as nat, p);
        if p(n - 1) {
            assert(below(n, p) =~= below((n - 1) as nat, p).insert(n - 1));
        } else {
            assert(below(n, p) =~= below((n - 1) as nat, p));
        }
    }
}

proof fn lemma_col_size(mask: Seq<bool>, cols: nat, x: int, n: nat)
    ensures
        active_in_col(mask, cols, n, x).finite(),
        active_in_col(mask, cols, n, x).len() == col_count(mask, cols as int, x, n),
    decreases n,
{
    let p = |y: int| mask[y * cols + x];
    assert(active_in_col(mask, cols, n, x) =~= below(n, p));
    lemma_below(n, p);
    if n > 0 {
        lemma_col_size(mask, cols, x, (n - 1) as nat);
        assert(active_in_col(mask, cols, (n - 1) as nat, x) =~= below((n - 1) as nat, p));
    }
}

proof fn lemma_row_size_upto(mask: Seq<bool>, cols: nat, y: int, n: nat)
    ensures
        below(n, |x: int| mask[y * cols + x]).finite(),
        below(n, |x: int| mask[y * cols + x]).len() == row_count(mask, cols as int, y, n),
    decreases n,
{
    lemma_below(n, |x: int| mask[y * cols + x]);
    if n > 0 {
        lemma_row_size_upto(mask, cols, y, (n - 1) as nat);
    }
}

proof fn lemma_row_size(mask: Seq<bool>, cols: nat, y: int)
    ensures
        active_in_row(mask, cols, y).finite(),
        active_in_row(mask, cols, y).len() == row_count(mask, cols as int, y, cols),
{
    lemma_row_size_upto(mask, cols, y, cols);
    assert(active_in_row(mask, cols, y) =~= below(cols, |x: int| mask[y * cols + x]));
}

spec fn with_if<A>(s: Set<A>, a: A, there: bool) -> Set<A> {
    if there {
        s.insert(a)
    } else {
        s
    }
}

proof fn lemma_beside_size(mask: Seq<bool>, cols: nat, rows: nat, x: int, y: int)
    requires
        0 <= x < cols,
        0 <= y < rows,
    ensures
        active_beside(mask, cols, rows, x, y).finite(),
        active_beside(mask, cols, rows, x, y).len() == neighbours(
            mask,
            cols as int,
            rows as int,
            x,
            y,
        ),
{
    let c = cols as int;
    let s0 = Set::<(int, int)>::empty();
    let s1 = with_if(s0, (x - 1, y), x > 0 && block(mask, c, x - 1, y));
    let s2 = with_if(s1, (x + 1, y), x + 1 < cols && block(mask, c, x + 1, y));
    let s3 = with_if(s2, (x, y - 1), y > 0 && block(mask, c, x, y - 1));
    let s4 = with_if(s3, (x, y + 1), y + 1 < rows && block(mask, c, x, y + 1));
    let all = active_beside(mask, cols, rows, x, y);
    assert forall|b: (int, int)| all.contains(b) <==> s4.contains(b) by {
        assert(b == (b.0, b.1));
        if all.contains(b) {
            assert(b == (x - 1, y) || b == (x + 1, y) || b == (x, y - 1) || b == (x, y + 1));
        }
    }
    assert(all =~= s4);
}

/// The blocks of row `r` whose columns lie below `upto`, on top of the rows above.
proof fn lemma_left_size_row(mask: Seq<bool>, cols: nat, c: nat, r: nat, upto: nat)
    requires
        c <= cols,
        upto <= cols,
    ensures
        ({
            let p = |i: int| mask[i] && i % (cols as int) < c;
            below(cols * r + upto, p).len() == below(cols * r, p).len() + row_count(
                mask,
                cols as int,
                r as int,
                if upto < c {
                    upto
                } else {
                    c
                },
            )
        }),
    decreases upto,
{
    let p = |i: int| mask[i] && i % (cols as int) < c;
    if upto > 0 {
        lemma_left_size_row(mask, cols, c, r, (upto - 1) as nat);
        lemma_below(cols * r + upto, p);
        let i = cols * r + upto - 1;
        assert(i == r * cols + (upto - 1)) by (nonlinear_arith)
            requires
                i == cols * r + upto - 1,
        ;
        assert(i % cols as int == upto - 1) by {
            vstd::arithmetic::div_mod::lemma_fundamental_div_mod_converse(
                i,
                cols as int,
                r as int,
                upto - 1,
            );
        }
    }
}

spec fn rows_upto(mask: Seq<bool>, cols: nat, c: nat, r: nat) -> nat
    decreases r,
{
    if r == 0 {
        0
    } else {
        rows_upto(mask, cols, c, (r - 1) as nat) + row_count(mask, cols as int, r - 1, c)
    }
}

proof fn lemma_rows_upto(mask: Seq<bool>, cols: nat, c: nat, r: nat)
    requires
        c <= cols,
    ensures
        below(cols * r, |i: int| mask[i] && i % (cols as int) < c).len() == rows_upto(
            mask,
            cols,
            c,
            r,
        ),
    decreases r,
{
    let p = |i: int| mask[i] && i % (cols as int) < c;
    if r == 0 {
        assert(cols * 0 == 0) by (nonlinear_arith);
        lemma_below(0, p);
    } else {
        lemma_rows_upto(mask, cols, c, (r - 1) as nat);
        lemma_left_size_row(mask, cols, c, (r - 1) as nat, cols);
        assert(cols * (r - 1) + cols == cols * r) by (nonlinear_arith)
            requires
                r > 0,
        ;
    }
}

proof fn lemma_rows_upto_is_left(mask: Seq<bool>, cols: nat, rows: nat, c: nat)
    ensures
        rows_upto(mask, cols, c, rows) == left_of(mask, cols as int, rows, c),
    decreases rows, c,
{
    if rows == 0 {
        if c > 0 {
            lemma_rows_upto_is_left(mask, cols, 0, (c - 1) as nat);
        }
    } else if c == 0 {
        lemma_rows_upto_is_left(mask, cols, (rows - 1) as nat, 0);
    } else {
        let less = (rows - 1) as nat;
        lemma_rows_upto_is_left(mask, cols, less, c);
        lemma_rows_upto_is_left(mask, cols, rows, (c - 1) as nat);
        lemma_rows_upto_is_left(mask, cols, less, (c - 1) as nat);
    }
}

proof fn lemma_left_size(mask: Seq<bool>, cols: nat, rows: nat, c: nat)
    requires
        c <= cols,
    ensures
        active_left(mask, cols, rows, c as int).len() == left_of(mask, cols as int, rows, c),
{
    lemma_rows_upto(mask, cols, c, rows);
    lemma_rows_upto_is_left(mask, cols, rows, c);
    assert(active_left(mask, cols, rows, c as int) =~= below(
        cols * rows,
        |i: int| mask[i] && i % (cols as int) < c,
    ));
}

proof fn lemma_over_size(mask: Seq<bool>, cols: nat, rows: nat, r: nat)
    requires
        r <= rows,
        cols > 0,
    ensures
        active_over(mask, cols, rows, r as int).len() == above_row(mask, cols, r),
{
    lemma_counts_agree(mask, cols, r);
    lemma_left_size(mask, cols, r, cols);
    assert(cols * r <= cols * rows) by (nonlinear_arith)
        requires
            r <= rows,
    ;
    let all = active_over(mask, cols, rows, r as int);
    let top = active_left(mask, cols, r, cols as int);
    assert forall|i: int| all.contains(i) <==> top.contains(i) by {
        if 0 <= i {
            vstd::arithmetic::div_mod::lemma_fundamental_div_mod(i, cols as int);
            vstd::arithmetic::div_mod::lemma_mod_bound(i, cols as int);
            let q = i / cols as int;
            let m = i % cols as int;
            assert(i < cols * r <==> q < r) by (nonlinear_arith)
                requires
                    i == cols * q + m,
                    0 <= m < cols,
            ;
        }
    }
    assert(all =~= top);
}

proof fn lemma_all_size(mask: Seq<bool>, cols: nat, rows: nat)
    requires
        cols > 0,
    ensures
        active_in_all(mask, cols, rows).len() == above_row(mask, cols, rows),
{
    lemma_over_size(mask, cols, rows, rows);
    let all = active_in_all(mask, cols, rows);
    let over = active_over(mask, cols, rows, rows as int);
    assert forall|i: int| all.contains(i) <==> over.contains(i) by {
        if 0 <= i < cols * rows {
            vstd::arithmetic::div_mod::lemma_fundamental_div_mod(i, cols as int);
            vstd::arithmetic::div_mod::lemma_mod_bound(i, cols as int);
            let q = i / cols as int;
            let m = i % cols as int;
            assert(q < rows) by (nonlinear_arith)
                requires
                    i == cols * q + m,
                    i < cols * rows,
                    0 <= m,
            ;
        }
    }
    assert(all =~= over);
}

/// The blocks of the grid are just enough to cover the frame.
pub proof fn lemma_grid_covers_frame(n: u32)
    ensures
        16 * blocks_across(n) >= n,
        16 * blocks_across(n) < n + 16,
{
}

/// A block counts as active exactly where its score reaches the threshold: a
/// score that is the threshold does, and one that is no number never does.
pub proof fn lemma_active_reaches_threshold(map: Seq<Single>, threshold: Num, i: int)
    requires
        0 <= i < map.len(),
    ensures
        active_blocks(scores(map), threshold).len() == map.len(),
        map[i]@ is Finite && threshold is Finite ==> (active_blocks(scores(map), threshold)[i]
            <==> map[i]@.signed() >= threshold.signed()),
        map[i]@ is NotANumber || threshold is NotANumber ==> !active_blocks(
            scores(map),
            threshold,
        )[i],
        threshold is Infinite && map[i]@ is Finite ==> (active_blocks(scores(map), threshold)[i]
            <==> threshold->Infinite_neg),
        threshold is Finite && map[i]@ is Infinite ==> (active_blocks(scores(map), threshold)[i]
            <==> !map[i]@->Infinite_neg),
{
}

/// `r` is the pixel rectangle from the first to the last of the given columns and rows of
/// blocks, cut off at the edge of the frame.
pub open spec fn drawn(r: [u32; 4], ends: (int, int, int, int), fw: u32, fh: u32) -> bool {
    let right = 16 * ends.1 + 16;
    let bottom = 16 * ends.3 + 16;
    &&& r[0] == 16 * ends.0
    &&& r[1] == 16 * ends.2
    &&& r[0] + r[2] == (if right < fw {
        right
    } else {
        fw as int
    })
    &&& r[1] + r[3] == (if bottom < fh {
        bottom
    } else {
        fh as int
    })
}

/// Every rectangle of blocks is drawn so.
pub proof fn lemma_box_drawn(r: [u32; 4], b: BlockBox, fw: u32, fh: u32)
    ensures
        is_pixel_box(r, b, fw, fh) <==> drawn(
            r,
            (b.min_col, b.max_col, b.min_row, b.max_row),
            fw,
            fh,
        ),
{
}

/// Two methods are equal where they are the same one with the same parameter; percentages
/// are compared by their values.
pub proof fn lemma_methods_compared(a: BboxMethod, b: BboxMethod)
    ensures
        a.eq_spec(&b) <==> {
            ||| a is Union && b is Union
            ||| a is DensityFilter && b is DensityFilter && a == b
            ||| a is Erosion && b is Erosion && a == b
            ||| (a matches BboxMethod::Percentile(p) && b matches BboxMethod::Percentile(q) && p@.same(
                q@,
            ))
        },
{
}

/// The first and the last column and row lie in the grid.
pub open spec fn ends_in_grid(ends: (int, int, int, int), cols: nat, rows: nat) -> bool {
    0 <= ends.0 <= ends.1 < cols && 0 <= ends.2 <= ends.3 < rows
}

/// The box of blocks that a region was drawn from.
proof fn lemma_ends(
    r: [u32; 4],
    mask: Seq<bool>,
    cols: nat,
    rows: nat,
    fw: u32,
    fh: u32,
    method: BboxMethod,
) -> (ends: (int, int, int, int))
    requires
        is_bbox(Some(r), mask, cols, rows, fw, fh, method),
    ensures
        drawn(r, ends, fw, fh),
        ends_in_grid(ends, cols, rows),
        block_box(mask, cols, rows, method) matches Some(b) && ends == (
            b.min_col,
            b.max_col,
            b.min_row,
            b.max_row,
        ),
{
    lemma_box_is_envelope(mask, cols, rows, method);
    let b = block_box(mask, cols, rows, method)->0;
    (b.min_col, b.max_col, b.min_row, b.max_row)
}

/// Leaving out sparse lines, on a grid of any size: the first and the last column and row
/// each hold at least `k` active blocks, and all others outside them fewer.
pub proof fn lemma_density_grid(
    r: Option<[u32; 4]>,
    mask: Seq<bool>,
    cols: nat,
    rows: nat,
    fw: u32,
    fh: u32,
    k: usize,
) -> (ends: (int, int, int, int))
    requires
        is_bbox(r, mask, cols, rows, fw, fh, BboxMethod::DensityFilter(k)),
    ensures
        match r {
            Some(r) => {
                &&& drawn(r, ends, fw, fh)
                &&& ends_in_grid(ends, cols, rows)
                &&& active_in_col(mask, cols, rows, ends.0).len() >= k
                &&& active_in_col(mask, cols, rows, ends.1).len() >= k
                &&& active_in_row(mask, cols, ends.2).len() >= k
                &&& active_in_row(mask, cols, ends.3).len() >= k
                &&& forall|x: int|
                    0 <= x < cols && !(ends.0 <= x <= ends.1) ==> #[trigger] active_in_col(
                        mask,
                        cols,
                        rows,
                        x,
                    ).len() < k
                &&& forall|y: int|
                    0 <= y < rows && !(ends.2 <= y <= ends.3) ==> #[trigger] active_in_row(
                        mask,
                        cols,
                        y,
                    ).len() < k
            },
            None => {
                ||| forall|x: int|
                    0 <= x < cols ==> #[trigger] active_in_col(mask, cols, rows, x).len() < k
                ||| forall|y: int| 0 <= y < rows ==> #[trigger] active_in_row(mask, cols, y).len() < k
            },
        },
{
    let method = BboxMethod::DensityFilter(k);
    lemma_box_is_envelope(mask, cols, rows, method);
    assert forall|x: int|
        keeps_col(mask, cols, rows, method, x) == (#[trigger] active_in_col(
            mask,
            cols,
            rows,
            x,
        ).len() >= k) by {
        lemma_col_size(mask, cols, x, rows);
    }
    assert forall|y: int|
        keeps_row(mask, cols, rows, method, y) == (#[trigger] active_in_row(mask, cols, y).len()
            >= k) by {
        lemma_row_size(mask, cols, y);
    }
    match r {
        Some(r) => lemma_ends(r, mask, cols, rows, fw, fh, method),
        None => (0, 0, 0, 0),
    }
}

/// In a region that leaves out sparse lines, the first and the last column and
/// the first and the last row each hold at least `k` active blocks, and every
/// column and row of the frame outside it holds fewer. There is no region exactly
/// where every column or every row holds fewer.
pub proof fn lemma_density_region(
    r: Option<[u32; 4]>,
    mask: Seq<bool>,
    fw: u32,
    fh: u32,
    k: usize,
)
    requires
        is_bbox(
            r,
            mask,
            blocks_across(fw),
            blocks_across(fh),
            fw,
            fh,
            BboxMethod::DensityFilter(k),
        ),
    ensures
        ({
            let cols = blocks_across(fw);
            let rows = blocks_across(fh);
            match r {
                Some(r) => {
                    &&& active_in_col(mask, cols, rows, r[0] as int / 16).len() >= k
                    &&& active_in_col(mask, cols, rows, (r[0] + r[2] - 1) / 16).len() >= k
                    &&& active_in_row(mask, cols, r[1] as int / 16).len() >= k
                    &&& active_in_row(mask, cols, (r[1] + r[3] - 1) / 16).len() >= k
                    &&& forall|x: int|
                        0 <= x < cols && !(r[0] <= 16 * x < r[0] + r[2]) ==> #[trigger] active_in_col(
                            mask,
                            cols,
                            rows,
                            x,
                        ).len() < k
                    &&& forall|y: int|
                        0 <= y < rows && !(r[1] <= 16 * y < r[1] + r[3]) ==> #[trigger] active_in_row(
                            mask,
                            cols,
                            y,
                        ).len() < k
                },
                None => {
                    ||| forall|x: int|
                        0 <= x < cols ==> #[trigger] active_in_col(mask, cols, rows, x).len() < k
                    ||| forall|y: int|
                        0 <= y < rows ==> #[trigger] active_in_row(mask, cols, y).len() < k
                },
            }
        }),
{
    let cols = blocks_across(fw);
    let rows = blocks_across(fh);
    let ends = lemma_density_grid(r, mask, cols, rows, fw, fh, k);
}

/// The block in column `x` of row `y` is active, and so are at least `k` of the
/// blocks that share a side with it.
pub open spec fn holds_on(mask: Seq<bool>, cols: nat, rows: nat, k: int, x: int, y: int) -> bool {
    mask[y * cols + x] && active_beside(mask, cols, rows, x, y).len() >= k
}

/// Column `x` of the grid holds such a block.
pub open spec fn col_holds_on(mask: Seq<bool>, cols: nat, rows: nat, k: int, x: int) -> bool {
    exists|y: int| 0 <= y < rows && holds_on(mask, cols, rows, k, x, y)
}

/// Row `y` of the grid holds such a block.
pub open spec fn row_holds_on(mask: Seq<bool>, cols: nat, rows: nat, k: int, y: int) -> bool {
    exists|x: int| 0 <= x < cols && holds_on(mask, cols, rows, k, x, y)
}

/// The rectangle `[x, y, w, h]` covers every pixel that the block in column `bx`
/// of row `by` has in the frame.
pub open spec fn covers(r: [u32; 4], fw: u32, fh: u32, bx: int, by: int) -> bool {
    forall|px: int, py: int|
        0 <= px < fw && 0 <= py < fh && 16 * bx <= px < 16 * bx + 16 && 16 * by <= py < 16 * by + 16
            ==> #[trigger] in_rect(r, px, py)
}

/// The pixel in column `x` of row `y` lies in the rectangle `[x, y, w, h]`.
pub open spec fn in_rect(r: [u32; 4], x: int, y: int) -> bool {
    r[0] <= x < r[0] + r[2] && r[1] <= y < r[1] + r[3]
}

proof fn lemma_holds_on(mask: Seq<bool>, cols: nat, rows: nat, k: int, x: int, y: int)
    requires
        0 <= x < cols,
        0 <= y < rows,
    ensures
        holds_on(mask, cols, rows, k, x, y) == survives(mask, cols as int, rows as int, k, x, y),
{
    lemma_beside_size(mask, cols, rows, x, y);
}

/// The eroded region, on a grid of any size: every active block with at least `k` active
/// neighbours lies between its first and last column and row, each of which holds one; and
/// there is no region exactly where there is no such block.
pub proof fn lemma_erosion_grid(
    r: Option<[u32; 4]>,
    mask: Seq<bool>,
    cols: nat,
    rows: nat,
    fw: u32,
    fh: u32,
    k: usize,
) -> (ends: (int, int, int, int))
    requires
        is_bbox(r, mask, cols, rows, fw, fh, BboxMethod::Erosion(k)),
    ensures
        match r {
            Some(r) => {
                &&& drawn(r, ends, fw, fh)
                &&& ends_in_grid(ends, cols, rows)
                &&& col_holds_on(mask, cols, rows, k as int, ends.0)
                &&& col_holds_on(mask, cols, rows, k as int, ends.1)
                &&& row_holds_on(mask, cols, rows, k as int, ends.2)
                &&& row_holds_on(mask, cols, rows, k as int, ends.3)
                &&& forall|x: int, y: int|
                    0 <= x < cols && 0 <= y < rows && #[trigger] holds_on(
                        mask,
                        cols,
                        rows,
                        k as int,
                        x,
                        y,
                    ) ==> ends.0 <= x <= ends.1 && ends.2 <= y <= ends.3
            },
            None => forall|x: int, y: int|
                0 <= x < cols && 0 <= y < rows ==> !#[trigger] holds_on(
                    mask,
                    cols,
                    rows,
                    k as int,
                    x,
                    y,
                ),
        },
{
    let c = cols as int;
    let h = rows as int;
    let n = k as int;
    let method = BboxMethod::Erosion(k);
    lemma_box_is_envelope(mask, cols, rows, method);
    assert forall|x: int, y: int|
        0 <= x < cols && 0 <= y < rows implies #[trigger] holds_on(mask, cols, rows, n, x, y)
        == survives(mask, c, h, n, x, y) by {
        lemma_holds_on(mask, cols, rows, n, x, y);
    }
    assert forall|x: int, y: int|
        0 <= x < cols && 0 <= y < rows && #[trigger] holds_on(mask, cols, rows, n, x, y) implies
        keeps_col(mask, cols, rows, method, x) && keeps_row(mask, cols, rows, method, y) by {
        assert(survives(mask, c, h, n, x, y));
        assert(col_survives(mask, c, h, n, x));
        assert(row_survives(mask, c, h, n, y));
    }
    match r {
        Some(r) => {
            let ends = lemma_ends(r, mask, cols, rows, fw, fh, method);
            let y1 = choose|y: int| 0 <= y < rows && survives(mask, c, h, n, ends.0, y);
            let y2 = choose|y: int| 0 <= y < rows && survives(mask, c, h, n, ends.1, y);
            let x1 = choose|x: int| 0 <= x < cols && survives(mask, c, h, n, x, ends.2);
            let x2 = choose|x: int| 0 <= x < cols && survives(mask, c, h, n, x, ends.3);
            assert(holds_on(mask, cols, rows, n, ends.0, y1));
            assert(holds_on(mask, cols, rows, n, ends.1, y2));
            assert(holds_on(mask, cols, rows, n, x1, ends.2));
            assert(holds_on(mask, cols, rows, n, x2, ends.3));
            ends
        },
        None => (0, 0, 0, 0),
    }
}

/// The eroded region covers every pixel of every active block that has at least
/// `k` active neighbours, each of its four sides holds such a block, and there is
/// no region exactly where there is no such block.
pub proof fn lemma_erosion_region(r: Option<[u32; 4]>, mask: Seq<bool>, fw: u32, fh: u32, k: usize)
    requires
        is_bbox(r, mask, blocks_across(fw), blocks_across(fh), fw, fh, BboxMethod::Erosion(k)),
    ensures
        ({
            let cols = blocks_across(fw);
            let rows = blocks_across(fh);
            match r {
                Some(r) => {
                    &&& col_holds_on(mask, cols, rows, k as int, r[0] as int / 16)
                    &&& col_holds_on(mask, cols, rows, k as int, (r[0] + r[2] - 1) / 16)
                    &&& row_holds_on(mask, cols, rows, k as int, r[1] as int / 16)
                    &&& row_holds_on(mask, cols, rows, k as int, (r[1] + r[3] - 1) / 16)
                    &&& forall|x: int, y: int|
                        0 <= x < cols && 0 <= y < rows && #[trigger] holds_on(
                            mask,
                            cols,
                            rows,
                            k as int,
                            x,
                            y,
                        ) ==> covers(r, fw, fh, x, y)
                },
                None => forall|x: int, y: int|
                    0 <= x < cols && 0 <= y < rows ==> !#[trigger] holds_on(
                        mask,
                        cols,
                        rows,
                        k as int,
                        x,
                        y,
                    ),
            }
        }),
{
    let cols = blocks_across(fw);
    let rows = blocks_across(fh);
    let ends = lemma_erosion_grid(r, mask, cols, rows, fw, fh, k);
}

/// The union keeps the column and the row of every active block.
proof fn lemma_union_keeps(mask: Seq<bool>, cols: nat, rows: nat, x: int, y: int)
    requires
        0 <= x < cols,
        0 <= y < rows,
        block(mask, cols as int, x, y),
    ensures
        keeps_col(mask, cols, rows, BboxMethod::Union, x),
        keeps_row(mask, cols, rows, BboxMethod::Union, y),
{
}

/// Where the union keeps a column, it holds an active block.
proof fn lemma_union_col(mask: Seq<bool>, cols: nat, rows: nat, x: int)
    requires
        keeps_col(mask, cols, rows, BboxMethod::Union, x),
    ensures
        active_in_col(mask, cols, rows, x).len() >= 1,
{
    let y = choose|y: int| 0 <= y < rows && block(mask, cols as int, x, y);
    lemma_not_empty(active_in_col(mask, cols, rows, x), y, rows);
}

/// Where the union keeps a row, it holds an active block.
proof fn lemma_union_row(mask: Seq<bool>, cols: nat, rows: nat, y: int)
    requires
        keeps_row(mask, cols, rows, BboxMethod::Union, y),
    ensures
        active_in_row(mask, cols, y).len() >= 1,
{
    let x = choose|x: int| 0 <= x < cols && block(mask, cols as int, x, y);
    lemma_not_empty(active_in_row(mask, cols, y), x, cols);
}

/// The union region, on a grid of any size: every active block lies between its first and
/// last column and row, each of which holds one; and there is no region exactly where no
/// block is active.
pub proof fn lemma_union_grid(
    r: Option<[u32; 4]>,
    mask: Seq<bool>,
    cols: nat,
    rows: nat,
    fw: u32,
    fh: u32,
) -> (ends: (int, int, int, int))
    requires
        is_bbox(r, mask, cols, rows, fw, fh, BboxMethod::Union),
    ensures
        match r {
            Some(r) => {
                &&& drawn(r, ends, fw, fh)
                &&& ends_in_grid(ends, cols, rows)
                &&& active_in_col(mask, cols, rows, ends.0).len() >= 1
                &&& active_in_col(mask, cols, rows, ends.1).len() >= 1
                &&& active_in_row(mask, cols, ends.2).len() >= 1
                &&& active_in_row(mask, cols, ends.3).len() >= 1
                &&& forall|x: int, y: int|
                    0 <= x < cols && 0 <= y < rows && #[trigger] block(mask, cols as int, x, y)
                        ==> ends.0 <= x <= ends.1 && ends.2 <= y <= ends.3
            },
            None => forall|x: int, y: int|
                0 <= x < cols && 0 <= y < rows ==> !#[trigger] block(mask, cols as int, x, y),
        },
{
    let c = cols as int;
    let method = BboxMethod::Union;
    lemma_box_is_envelope(mask, cols, rows, method);
    assert forall|x: int, y: int|
        0 <= x < cols && 0 <= y < rows && #[trigger] block(mask, c, x, y) implies keeps_col(
        mask,
        cols,
        rows,
        method,
        x,
    ) && keeps_row(mask, cols, rows, method, y) by {
        lemma_union_keeps(mask, cols, rows, x, y);
    }
    match r {
        Some(r) => {
            let ends = lemma_ends(r, mask, cols, rows, fw, fh, method);
            lemma_union_col(mask, cols, rows, ends.0);
            lemma_union_col(mask, cols, rows, ends.1);
            lemma_union_row(mask, cols, rows, ends.2);
            lemma_union_row(mask, cols, rows, ends.3);
            ends
        },
        None => (0, 0, 0, 0),
    }
}

/// The union region covers every pixel of every active block, each of its four
/// sides holds an active block, and there is no region exactly where no block is
/// active.
pub proof fn lemma_union_region(r: Option<[u32; 4]>, mask: Seq<bool>, fw: u32, fh: u32)
    requires
        is_bbox(r, mask, blocks_across(fw), blocks_across(fh), fw, fh, BboxMethod::Union),
    ensures
        ({
            let cols = blocks_across(fw);
            let rows = blocks_across(fh);
            match r {
                Some(r) => {
                    &&& active_in_col(mask, cols, rows, r[0] as int / 16).len() >= 1
                    &&& active_in_col(mask, cols, rows, (r[0] + r[2] - 1) / 16).len() >= 1
                    &&& active_in_row(mask, cols, r[1] as int / 16).len() >= 1
                    &&& active_in_row(mask, cols, (r[1] + r[3] - 1) / 16).len() >= 1
                    &&& forall|x: int, y: int|
                        0 <= x < cols && 0 <= y < rows && #[trigger] block(mask, cols as int, x, y)
                            ==> covers(r, fw, fh, x, y)
                },
                None => forall|x: int, y: int|
                    0 <= x < cols && 0 <= y < rows ==> !#[trigger] block(mask, cols as int, x, y),
            }
        }),
{
    let cols = blocks_across(fw);
    let rows = blocks_across(fh);
    let ends = lemma_union_grid(r, mask, cols, rows, fw, fh);
}

/// A set of numbers below a bound that holds one has a size above zero.
proof fn lemma_not_empty(s: Set<int>, a: int, n: nat)
    requires
        s.contains(a),
        forall|i: int| s.contains(i) ==> 0 <= i < n,
    ensures
        s.len() >= 1,
{
    vstd::set_lib::lemma_int_range(0, n as int);
    assert(s.subset_of(vstd::set_lib::set_int_range(0, n as int)));
    vstd::set_lib::lemma_len_subset(s, vstd::set_lib::set_int_range(0, n as int));
    assert(s.remove(a).len() + 1 == s.len());
}

/// Of the `n` active blocks of a grid of any size, the percentile region leaves out at most
/// `trim` on each side, and a region that starts one column or row later, or ends one
/// earlier, would leave out more there. It exists exactly where a block is active.
pub proof fn lemma_percentile_grid(
    r: Option<[u32; 4]>,
    mask: Seq<bool>,
    cols: nat,
    rows: nat,
    fw: u32,
    fh: u32,
    p: Single,
) -> (ends: (int, int, int, int))
    requires
        cols > 0,
        is_bbox(r, mask, cols, rows, fw, fh, BboxMethod::Percentile(p)),
    ensures
        ({
            let n = active_in_all(mask, cols, rows).len();
            let trim = trim_count(p@, n);
            match r {
                Some(r) => {
                    &&& drawn(r, ends, fw, fh)
                    &&& ends_in_grid(ends, cols, rows)
                    &&& n > 0
                    &&& active_left(mask, cols, rows, ends.0).len() <= trim
                    &&& active_left(mask, cols, rows, ends.0 + 1).len() > trim
                    &&& n - active_left(mask, cols, rows, ends.1 + 1).len() <= trim
                    &&& n - active_left(mask, cols, rows, ends.1).len() > trim
                    &&& active_over(mask, cols, rows, ends.2).len() <= trim
                    &&& active_over(mask, cols, rows, ends.2 + 1).len() > trim
                    &&& n - active_over(mask, cols, rows, ends.3 + 1).len() <= trim
                    &&& n - active_over(mask, cols, rows, ends.3).len() > trim
                },
                None => n == 0,
            }
        }),
{
    lemma_percentile_drops_share(mask, cols, rows, p);
    lemma_all_size(mask, cols, rows);
    match r {
        Some(r) => {
            let ends = lemma_ends(r, mask, cols, rows, fw, fh, BboxMethod::Percentile(p));
            lemma_left_size(mask, cols, rows, ends.0 as nat);
            lemma_left_size(mask, cols, rows, (ends.0 + 1) as nat);
            lemma_left_size(mask, cols, rows, ends.1 as nat);
            lemma_left_size(mask, cols, rows, (ends.1 + 1) as nat);
            lemma_over_size(mask, cols, rows, ends.2 as nat);
            lemma_over_size(mask, cols, rows, (ends.2 + 1) as nat);
            lemma_over_size(mask, cols, rows, ends.3 as nat);
            lemma_over_size(mask, cols, rows, (ends.3 + 1) as nat);
            ends
        },
        None => (0, 0, 0, 0),
    }
}

/// The largest share that is trimmed is 49.9 percent, up to rounding.
pub proof fn lemma_most_trimmed()
    ensures
        single_num(MAX_TRIM) matches Num::Finite { neg: false, mag } && 0x1_0000 * distance(
            10 * mag as int,
            499 * pow2(149) as int,
        ) <= pow2(149) && 10 * mag >= 499 * pow2(149),
{
    lemma_pow2_pos(131);
    lemma2_to64();
    lemma_pow2_adds(18, 131);
    assert(MAX_TRIM / 0x80_0000 == 132);
    assert(MAX_TRIM % 0x80_0000 == 0x47_999a);
    assert(single_num(MAX_TRIM) == (Num::Finite { neg: false, mag: 0xc7_999a * pow2(131) }));
    assert(pow2(149) == 0x4_0000 * pow2(131));
}

/// Of `n` blocks, `percent` in a hundred are trimmed on each side, rounded down, up to the
/// rounding of the numbers and never more than fewer than half of them; and more than 49.9
/// percent count as that.
pub proof fn lemma_trim_is_share(percent: Num, n: nat)
    requires
        0 < n <= u64::MAX,
        percent is Finite,
    ensures
        2 * trim_count(percent, n) < n,
        percent.signed() <= 0 ==> trim_count(percent, n) == 0,
        percent.signed() >= single_num(MAX_TRIM).signed() ==> trim_count(percent, n) == trim_count(
            single_num(MAX_TRIM),
            n,
        ),
        0 < percent.signed() <= single_num(MAX_TRIM).signed() ==> ({
            let t = trim_count(percent, n);
            let exact = percent->mag * n;
            let slack = 0x40_0000 * (101 * (n + 1));
            &&& 0x40_0000 * (100 * (t * pow2(149))) <= 0x40_0001 * exact + slack
            &&& 2 * t + 2 < n ==> 0x40_0000 * (100 * ((t + 1) * pow2(149))) > 0x3f_ffff * exact
                - slack
        }),
{
    let o = pow2(149);
    lemma_pow2_pos(149);
    lemma_most_trimmed();
    let max = single_num(MAX_TRIM);
    if percent.signed() <= 0 {
        lemma_nothing_trimmed(percent, n);
    } else if percent.signed() <= max.signed() {
        let c = percent->mag;
        assert(percent.clamped(Num::zero(), max) == percent);
        lemma2_to64();
        lemma2_to64_rest();
        lemma_small_int(Format::Single, 100);
        // A hundredth.
        lemma_round_to_scale(24, c, 100, o);
        let q = round_to(24, c, 100);
        lemma_round_to_relative(24, c, 100);
        lemma_round_to_monotone(24, c, 100, o, 1);
        lemma_round_to_exact(24, 1, 149);
        lemma_pow2_strictly_increases(149, 277);
        // The number of blocks.
        let no = n * o;
        lemma_pow2_adds(64, 149);
        lemma_pow2_adds(24, 125);
        lemma_pow2_pos(125);
        assert(o <= no <= pow2(213)) by (nonlinear_arith)
            requires
                1 <= n <= pow2(64),
                no == n * o,
                pow2(213) == pow2(64) * o,
                o > 0,
        ;
        let count = round_to(24, no, 1);
        lemma_round_to_relative(24, no, 1);
        lemma_round_to_monotone(24, no, 1, pow2(213), 1);
        lemma_round_to_exact(24, 1, 213);
        lemma_pow2_strictly_increases(213, 277);
        assert(0x100_0000 * (count - no) <= no && 0x100_0000 * (no - count) <= no);
        // Their product.
        let s = round_to(24, q * count, o);
        lemma_round_to_relative(24, q * count, o);
        lemma_pow2_adds(213, 149);
        assert((q * count) * 1 <= pow2(213) * o) by (nonlinear_arith)
            requires
                q <= o,
                count <= pow2(213),
                q >= 0,
                count >= 0,
        ;
        lemma_round_to_monotone(24, q * count, o, pow2(213), 1);
        lemma_share_errors(c as int, q as int, n as int, count as int, s as int, o as int);
        // Its integer part.
        vstd::arithmetic::div_mod::lemma_fundamental_div_mod(s as int, o as int);
        let share = s / o;
        let rest = s % o;
        let so = share * o;
        assert(s == so + rest) by (nonlinear_arith)
            requires
                s == o * share + rest,
                so == share * o,
        ;
        let t = trim_count(percent, n);
        let whole = if share > u64::MAX {
            u64::MAX as nat
        } else {
            share
        };
        let most = ((n - 1) / 2) as nat;
        assert(t == if whole < most {
            whole
        } else {
            most
        });
        assert(t * o <= so) by (nonlinear_arith)
            requires
                t <= share,
                so == share * o,
        ;
        if t < most {
            assert((t + 1) * o == so + o) by (nonlinear_arith)
                requires
                    t == share,
                    so == share * o,
            ;
        }
        assert(c * n >= 0) by (nonlinear_arith);
    }
}

/// Three roundings, one after the other.
proof fn lemma_share_errors(c: int, q: int, n: int, count: int, s: int, o: int)
    requires
        c >= 0,
        q >= 0,
        n > 0,
        count >= 0,
        s >= 0,
        o >= 0x100_0000,
        0x100_0000 * (100 * q - c) <= c + 0x3200_0000,
        0x100_0000 * (c - 100 * q) <= c + 0x3200_0000,
        0x100_0000 * (count - n * o) <= n * o,
        0x100_0000 * (n * o - count) <= n * o,
        0x100_0000 * (s * o - q * count) <= q * count + 0x80_0000 * o,
        0x100_0000 * (q * count - s * o) <= q * count + 0x80_0000 * o,
    ensures
        0x40_0000 * (100 * s - c * n) <= c * n + 0x40_0000 * (101 * (n + 1)),
        0x40_0000 * (c * n - 100 * s) <= c * n + 0x40_0000 * (101 * (n + 1)),
{
    let no = n * o;
    let qc = q * count;
    let cc = c * count;
    let so = s * o;
    let cn = c * n;
    let w = cn * o;
    assert(w == c * no) by (nonlinear_arith)
        requires
            w == cn * o,
            cn == c * n,
            no == n * o,
    ;
    assert(0x100_0000 * (100 * qc - cc) <= cc + 0x3200_0000 * count && 0x100_0000 * (cc - 100
        * qc) <= cc + 0x3200_0000 * count) by (nonlinear_arith)
        requires
            0x100_0000 * (100 * q - c) <= c + 0x3200_0000,
            0x100_0000 * (c - 100 * q) <= c + 0x3200_0000,
            qc == q * count,
            cc == c * count,
            count >= 0,
    ;
    assert(0x100_0000 * (cc - w) <= w && 0x100_0000 * (w - cc) <= w) by (nonlinear_arith)
        requires
            0x100_0000 * (count - no) <= no,
            0x100_0000 * (no - count) <= no,
            cc == c * count,
            w == c * no,
            c >= 0,
    ;
    assert(no >= 0 && cn >= 0 && w >= 0) by (nonlinear_arith)
        requires
            no == n * o,
            cn == c * n,
            w == cn * o,
            n > 0,
            o > 0,
            c >= 0,
    ;
    let bound = cn + 0x40_0000 * (101 * (n + 1));
    let bo = bound * o;
    assert(bo == w + 0x40_0000 * (101 * (no + o))) by (nonlinear_arith)
        requires
            bo == bound * o,
            bound == cn + 0x40_0000 * (101 * (n + 1)),
            w == cn * o,
            no == n * o,
    ;
    assert(0x100_0000 * (count - no) <= no);
    assert(0x100_0000 * (so - qc) <= qc + 0x80_0000 * o);
    assert(0x100_0000 * (qc - so) <= qc + 0x80_0000 * o);
    assert(cc <= 2 * w && count <= 2 * no);
    assert(100 * qc <= 3 * w + 100 * no);
    assert(0x100_0000 * (100 * so - w) <= w + cc + 100 * qc + 0x3200_0000 * (count + o));
    assert(0x100_0000 * (w - 100 * so) <= w + cc + 100 * qc + 0x3200_0000 * (count + o));
    assert(0x40_0000 * (100 * so - w) <= bo);
    assert(0x40_0000 * (w - 100 * so) <= bo);
    let diff = 0x40_0000 * (100 * s - cn);
    assert(diff * o <= bound * o && -(diff * o) <= bound * o) by (nonlinear_arith)
        requires
            diff == 0x40_0000 * (100 * s - cn),
            0x40_0000 * (100 * (s * o) - cn * o) <= bound * o,
            0x40_0000 * (cn * o - 100 * (s * o)) <= bound * o,
    ;
    assert(diff <= bound && -diff <= bound) by (nonlinear_arith)
        requires
            diff * o <= bound * o,
            -(diff * o) <= bound * o,
            o > 0,
    ;
}

} // verus!
