//! What holds of the bounding boxes of every map, threshold and method.

use crate::analysis::blocks_across;
use crate::bbox::{
    above_row, active_blocks, block, block_box, col_count, col_survives, is_bbox, is_pixel_box,
    keeps_col, keeps_row, kept_cols, kept_rows, left_of, lemma_block_box_range,
    lemma_index_injective, neighbours, row_count, row_survives, survives, trim_count, BboxMethod,
    BlockBox, MAX_TRIM,
};
use crate::number::{lemma_at_least_transitive, Format, Num};
use crate::rounding::{
    lemma_nearest_even_exact, lemma_round_to_exact, lemma_round_to_monotone, lemma_round_to_scale,
};
use crate::single::single_num;
use vstd::arithmetic::power2::pow2;
use vstd::prelude::*;

verus! {

/// The block lies in the rectangle.
pub open spec fn holds_block(b: BlockBox, bx: int, by: int) -> bool {
    b.min_col <= bx <= b.max_col && b.min_row <= by <= b.max_row
}

/// One rectangle of blocks lies in another.
pub open spec fn within_box(inner: BlockBox, outer: BlockBox) -> bool {
    &&& outer.min_col <= inner.min_col
    &&& outer.min_row <= inner.min_row
    &&& inner.max_col <= outer.max_col
    &&& inner.max_row <= outer.max_row
}

/// One pixel rectangle `[x, y, w, h]` lies in another.
pub open spec fn within_rect(inner: [u32; 4], outer: [u32; 4]) -> bool {
    &&& outer[0] <= inner[0]
    &&& outer[1] <= inner[1]
    &&& inner[0] + inner[2] <= outer[0] + outer[2]
    &&& inner[1] + inner[3] <= outer[1] + outer[3]
}

/// The first region, where there is one, lies in the second.
pub open spec fn within_region(inner: Option<[u32; 4]>, outer: Option<[u32; 4]>) -> bool {
    inner matches Some(i) ==> (outer matches Some(o) && within_rect(i, o))
}

/// Every active block of the first mask is active in the second.
pub open spec fn sparser(a: Seq<bool>, b: Seq<bool>) -> bool {
    a.len() == b.len() && forall|i: int| 0 <= i < a.len() && a[i] ==> b[i]
}

/// The rectangle of blocks holds every column and row that the method keeps, and
/// its own first and last ones are among them; there is none exactly where the
/// method keeps no column or no row.
pub proof fn lemma_box_is_envelope(mask: Seq<bool>, cols: nat, rows: nat, method: BboxMethod)
    ensures
        match block_box(mask, cols, rows, method) {
            Some(b) => {
                &&& 0 <= b.min_col <= b.max_col < cols
                &&& 0 <= b.min_row <= b.max_row < rows
                &&& keeps_col(mask, cols, rows, method, b.min_col)
                &&& keeps_col(mask, cols, rows, method, b.max_col)
                &&& keeps_row(mask, cols, rows, method, b.min_row)
                &&& keeps_row(mask, cols, rows, method, b.max_row)
                &&& forall|bx: int|
                    0 <= bx < cols && #[trigger] keeps_col(mask, cols, rows, method, bx)
                        ==> b.min_col <= bx <= b.max_col
                &&& forall|by: int|
                    0 <= by < rows && #[trigger] keeps_row(mask, cols, rows, method, by)
                        ==> b.min_row <= by <= b.max_row
            },
            None => {
                ||| forall|bx: int|
                    0 <= bx < cols ==> !#[trigger] keeps_col(mask, cols, rows, method, bx)
                ||| forall|by: int|
                    0 <= by < rows ==> !#[trigger] keeps_row(mask, cols, rows, method, by)
            },
        },
{
    lemma_block_box_range(mask, cols, rows, method);
    let kc = kept_cols(mask, cols, rows, method);
    let kr = kept_rows(mask, cols, rows, method);
    match block_box(mask, cols, rows, method) {
        Some(b) => {
            assert forall|bx: int|
                0 <= bx < cols && #[trigger] keeps_col(mask, cols, rows, method, bx) implies b.min_col
                <= bx <= b.max_col by {
                assert(kc[bx]);
            }
            assert forall|by: int|
                0 <= by < rows && #[trigger] keeps_row(mask, cols, rows, method, by) implies b.min_row
                <= by <= b.max_row by {
                assert(kr[by]);
            }
        },
        None => {
            if !kc.contains(true) {
                assert forall|bx: int| 0 <= bx < cols implies !#[trigger] keeps_col(
                    mask,
                    cols,
                    rows,
                    method,
                    bx,
                ) by {
                    assert(kc[bx] == keeps_col(mask, cols, rows, method, bx));
                }
            } else {
                assert forall|by: int| 0 <= by < rows implies !#[trigger] keeps_row(
                    mask,
                    cols,
                    rows,
                    method,
                    by,
                ) by {
                    assert(kr[by] == keeps_row(mask, cols, rows, method, by));
                }
            }
        },
    }
}

/// The union box holds every active block.
pub proof fn lemma_union_holds_active(mask: Seq<bool>, cols: nat, rows: nat, bx: int, by: int)
    requires
        0 <= bx < cols,
        0 <= by < rows,
        block(mask, cols as int, bx, by),
    ensures
        block_box(mask, cols, rows, BboxMethod::Union) matches Some(b) && holds_block(b, bx, by),
{
    lemma_box_is_envelope(mask, cols, rows, BboxMethod::Union);
    assert(keeps_col(mask, cols, rows, BboxMethod::Union, bx));
    assert(keeps_row(mask, cols, rows, BboxMethod::Union, by));
}

/// The union box is tight: an active block lies on each of its four sides.
pub proof fn lemma_union_tight(mask: Seq<bool>, cols: nat, rows: nat)
    ensures
        block_box(mask, cols, rows, BboxMethod::Union) matches Some(b) ==> {
            &&& exists|by: int| b.min_row <= by <= b.max_row && block(mask, cols as int, b.min_col, by)
            &&& exists|by: int| b.min_row <= by <= b.max_row && block(mask, cols as int, b.max_col, by)
            &&& exists|bx: int| b.min_col <= bx <= b.max_col && block(mask, cols as int, bx, b.min_row)
            &&& exists|bx: int| b.min_col <= bx <= b.max_col && block(mask, cols as int, bx, b.max_row)
        },
{
    lemma_box_is_envelope(mask, cols, rows, BboxMethod::Union);
    if let Some(b) = block_box(mask, cols, rows, BboxMethod::Union) {
        let c = cols as int;
        let y1 = choose|by: int| 0 <= by < rows && block(mask, c, b.min_col, by);
        let y2 = choose|by: int| 0 <= by < rows && block(mask, c, b.max_col, by);
        let x1 = choose|bx: int| 0 <= bx < cols && block(mask, c, bx, b.min_row);
        let x2 = choose|bx: int| 0 <= bx < cols && block(mask, c, bx, b.max_row);
        lemma_union_holds_active(mask, cols, rows, b.min_col, y1);
        lemma_union_holds_active(mask, cols, rows, b.max_col, y2);
        lemma_union_holds_active(mask, cols, rows, x1, b.min_row);
        lemma_union_holds_active(mask, cols, rows, x2, b.max_row);
    }
}

/// The region lies in the frame, is not empty, and consists of whole blocks, but
/// for those that the edge of the frame cuts off.
pub proof fn lemma_region_in_frame(
    r: [u32; 4],
    mask: Seq<bool>,
    fw: u32,
    fh: u32,
    method: BboxMethod,
)
    requires
        is_bbox(Some(r), mask, blocks_across(fw), blocks_across(fh), fw, fh, method),
    ensures
        r[2] > 0,
        r[3] > 0,
        r[0] + r[2] <= fw,
        r[1] + r[3] <= fh,
        r[0] % 16 == 0,
        r[1] % 16 == 0,
        r[2] % 16 == 0 || r[0] + r[2] == fw,
        r[3] % 16 == 0 || r[1] + r[3] == fh,
{
    lemma_block_box_range(mask, blocks_across(fw), blocks_across(fh), method);
}

/// Where every block is active, the union region is the whole frame.
pub proof fn lemma_all_active_keeps_frame(r: Option<[u32; 4]>, mask: Seq<bool>, fw: u32, fh: u32)
    requires
        fw > 0,
        fh > 0,
        mask.len() == blocks_across(fw) * blocks_across(fh),
        forall|i: int| 0 <= i < mask.len() ==> mask[i],
        is_bbox(r, mask, blocks_across(fw), blocks_across(fh), fw, fh, BboxMethod::Union),
    ensures
        r == Some([0u32, 0u32, fw, fh]),
{
    let cols = blocks_across(fw);
    let rows = blocks_across(fh);
    assert forall|bx: int, by: int| 0 <= bx < cols && 0 <= by < rows implies #[trigger] block(
        mask,
        cols as int,
        bx,
        by,
    ) by {
        assert(0 <= by * cols + bx < cols * rows) by (nonlinear_arith)
            requires
                0 <= bx < cols,
                0 <= by,
                by + 1 <= rows,
        ;
    }
    lemma_union_holds_active(mask, cols, rows, 0, 0);
    lemma_union_holds_active(mask, cols, rows, cols - 1, rows - 1);
    lemma_block_box_range(mask, cols, rows, BboxMethod::Union);
    assert(r->0 =~= [0u32, 0u32, fw, fh]);
}

/// The union region covers every pixel of every active block.
pub proof fn lemma_union_region_covers(
    r: Option<[u32; 4]>,
    mask: Seq<bool>,
    fw: u32,
    fh: u32,
    x: u32,
    y: u32,
)
    requires
        is_bbox(r, mask, blocks_across(fw), blocks_across(fh), fw, fh, BboxMethod::Union),
        x < fw,
        y < fh,
        block(mask, blocks_across(fw) as int, x as int / 16, y as int / 16),
    ensures
        r matches Some(rect) && rect[0] <= x < rect[0] + rect[2] && rect[1] <= y < rect[1]
            + rect[3],
{
    lemma_union_holds_active(
        mask,
        blocks_across(fw),
        blocks_across(fh),
        x as int / 16,
        y as int / 16,
    );
}

/// Fewer kept columns and rows have a smaller envelope.
proof fn lemma_envelope_nested(
    mask_a: Seq<bool>,
    method_a: BboxMethod,
    mask_b: Seq<bool>,
    method_b: BboxMethod,
    cols: nat,
    rows: nat,
)
    requires
        forall|bx: int|
            0 <= bx < cols && #[trigger] keeps_col(mask_a, cols, rows, method_a, bx) ==> keeps_col(
                mask_b,
                cols,
                rows,
                method_b,
                bx,
            ),
        forall|by: int|
            0 <= by < rows && #[trigger] keeps_row(mask_a, cols, rows, method_a, by) ==> keeps_row(
                mask_b,
                cols,
                rows,
                method_b,
                by,
            ),
    ensures
        block_box(mask_a, cols, rows, method_a) matches Some(a) ==> (block_box(
            mask_b,
            cols,
            rows,
            method_b,
        ) matches Some(b) && within_box(a, b)),
{
    lemma_box_is_envelope(mask_a, cols, rows, method_a);
    lemma_box_is_envelope(mask_b, cols, rows, method_b);
}

/// Nested rectangles of blocks are nested in pixels.
proof fn lemma_pixels_nested(ra: [u32; 4], a: BlockBox, rb: [u32; 4], b: BlockBox, fw: u32, fh: u32)
    requires
        is_pixel_box(ra, a, fw, fh),
        is_pixel_box(rb, b, fw, fh),
        within_box(a, b),
    ensures
        within_rect(ra, rb),
{
}

/// A line of a sparser mask holds no more active blocks.
proof fn lemma_counts_sparser(a: Seq<bool>, b: Seq<bool>, cols: nat, rows: nat, i: int, n: nat)
    requires
        sparser(a, b),
        a.len() >= cols * rows,
    ensures
        0 <= i < cols && n <= rows ==> col_count(a, cols as int, i, n) <= col_count(
            b,
            cols as int,
            i,
            n,
        ),
        0 <= i < rows && n <= cols ==> row_count(a, cols as int, i, n) <= row_count(
            b,
            cols as int,
            i,
            n,
        ),
    decreases n,
{
    if n > 0 {
        lemma_counts_sparser(a, b, cols, rows, i, (n - 1) as nat);
        if 0 <= i < cols && n <= rows {
            lemma_block_sparser(a, b, cols, rows, i, n - 1);
        }
        if 0 <= i < rows && n <= cols {
            lemma_block_sparser(a, b, cols, rows, n - 1, i);
        }
    }
}

proof fn lemma_block_sparser(a: Seq<bool>, b: Seq<bool>, cols: nat, rows: nat, bx: int, by: int)
    requires
        sparser(a, b),
        a.len() >= cols * rows,
        0 <= bx < cols,
        0 <= by < rows,
    ensures
        block(a, cols as int, bx, by) ==> block(b, cols as int, bx, by),
{
    assert(0 <= by * cols + bx < cols * rows) by (nonlinear_arith)
        requires
            0 <= bx < cols,
            0 <= by,
            by + 1 <= rows,
    ;
}

proof fn lemma_survives_sparser(
    a: Seq<bool>,
    b: Seq<bool>,
    cols: nat,
    rows: nat,
    n: int,
    bx: int,
    by: int,
)
    requires
        sparser(a, b),
        a.len() >= cols * rows,
        0 <= bx < cols,
        0 <= by < rows,
        survives(a, cols as int, rows as int, n, bx, by),
    ensures
        survives(b, cols as int, rows as int, n, bx, by),
{
    lemma_block_sparser(a, b, cols, rows, bx, by);
    if bx > 0 {
        lemma_block_sparser(a, b, cols, rows, bx - 1, by);
    }
    if bx + 1 < cols {
        lemma_block_sparser(a, b, cols, rows, bx + 1, by);
    }
    if by > 0 {
        lemma_block_sparser(a, b, cols, rows, bx, by - 1);
    }
    if by + 1 < rows {
        lemma_block_sparser(a, b, cols, rows, bx, by + 1);
    }
}

/// The fewer blocks are active, the smaller is the region, for every method but
/// the percentile, whose share of dropped blocks depends on their number.
pub proof fn lemma_sparser_is_tighter(
    ra: Option<[u32; 4]>,
    a: Seq<bool>,
    rb: Option<[u32; 4]>,
    b: Seq<bool>,
    cols: nat,
    rows: nat,
    fw: u32,
    fh: u32,
    method: BboxMethod,
)
    requires
        !(method is Percentile),
        a.len() >= cols * rows,
        sparser(a, b),
        is_bbox(ra, a, cols, rows, fw, fh, method),
        is_bbox(rb, b, cols, rows, fw, fh, method),
    ensures
        within_region(ra, rb),
{
    let c = cols as int;
    assert forall|bx: int|
        0 <= bx < cols && #[trigger] keeps_col(a, cols, rows, method, bx) implies keeps_col(
        b,
        cols,
        rows,
        method,
        bx,
    ) by {
        match method {
            BboxMethod::Union => {
                let by = choose|by: int| 0 <= by < rows && block(a, c, bx, by);
                lemma_block_sparser(a, b, cols, rows, bx, by);
                assert(block(b, c, bx, by));
            },
            BboxMethod::DensityFilter(k) => {
                lemma_counts_sparser(a, b, cols, rows, bx, rows);
            },
            BboxMethod::Erosion(k) => {
                let by = choose|by: int|
                    0 <= by < rows && survives(a, c, rows as int, k as int, bx, by);
                lemma_survives_sparser(a, b, cols, rows, k as int, bx, by);
            },
            BboxMethod::Percentile(_) => {},
        }
    }
    assert forall|by: int|
        0 <= by < rows && #[trigger] keeps_row(a, cols, rows, method, by) implies keeps_row(
        b,
        cols,
        rows,
        method,
        by,
    ) by {
        match method {
            BboxMethod::Union => {
                let bx = choose|bx: int| 0 <= bx < cols && block(a, c, bx, by);
                lemma_block_sparser(a, b, cols, rows, bx, by);
                assert(block(b, c, bx, by));
            },
            BboxMethod::DensityFilter(k) => {
                lemma_counts_sparser(a, b, cols, rows, by, cols);
            },
            BboxMethod::Erosion(k) => {
                let bx = choose|bx: int|
                    0 <= bx < cols && survives(a, c, rows as int, k as int, bx, by);
                lemma_survives_sparser(a, b, cols, rows, k as int, bx, by);
            },
            BboxMethod::Percentile(_) => {},
        }
    }
    lemma_envelope_nested(a, method, b, method, cols, rows);
    if ra is Some {
        lemma_pixels_nested(
            ra->0,
            block_box(a, cols, rows, method)->0,
            rb->0,
            block_box(b, cols, rows, method)->0,
            fw,
            fh,
        );
    }
}

/// A higher threshold gives a tighter region, for every method but the
/// percentile.
pub proof fn lemma_higher_threshold_is_tighter(
    high: Num,
    r_high: Option<[u32; 4]>,
    low: Num,
    r_low: Option<[u32; 4]>,
    scores: Seq<Num>,
    cols: nat,
    rows: nat,
    fw: u32,
    fh: u32,
    method: BboxMethod,
)
    requires
        !(method is Percentile),
        scores.len() >= cols * rows,
        high.at_least(low),
        is_bbox(r_high, active_blocks(scores, high), cols, rows, fw, fh, method),
        is_bbox(r_low, active_blocks(scores, low), cols, rows, fw, fh, method),
    ensures
        within_region(r_high, r_low),
{
    let a = active_blocks(scores, high);
    let b = active_blocks(scores, low);
    assert forall|i: int| 0 <= i < a.len() && a[i] implies b[i] by {
        lemma_at_least_transitive(scores[i], high, low);
    }
    lemma_sparser_is_tighter(r_high, a, r_low, b, cols, rows, fw, fh, method);
}

/// How many active blocks the first `c` columns of the first `r` rows hold,
/// counted row by row.
spec fn by_rows(mask: Seq<bool>, cols: int, c: nat, r: nat) -> nat
    decreases r,
{
    if r == 0 {
        0
    } else {
        by_rows(mask, cols, c, (r - 1) as nat) + row_count(mask, cols, r - 1, c)
    }
}

proof fn lemma_one_more_row(mask: Seq<bool>, cols: int, c: nat, r: nat)
    ensures
        left_of(mask, cols, r + 1, c) == left_of(mask, cols, r, c) + row_count(
            mask,
            cols,
            r as int,
            c,
        ),
    decreases c,
{
    if c > 0 {
        lemma_one_more_row(mask, cols, (c - 1) as nat, r);
    }
}

proof fn lemma_no_rows(mask: Seq<bool>, cols: int, c: nat)
    ensures
        left_of(mask, cols, 0, c) == 0,
    decreases c,
{
    if c > 0 {
        lemma_no_rows(mask, cols, (c - 1) as nat);
    }
}

proof fn lemma_either_way(mask: Seq<bool>, cols: int, c: nat, r: nat)
    ensures
        left_of(mask, cols, r, c) == by_rows(mask, cols, c, r),
    decreases r,
{
    if r == 0 {
        lemma_no_rows(mask, cols, c);
    } else {
        lemma_either_way(mask, cols, c, (r - 1) as nat);
        lemma_one_more_row(mask, cols, c, (r - 1) as nat);
    }
}

proof fn lemma_by_rows_is_above(mask: Seq<bool>, cols: nat, r: nat)
    ensures
        by_rows(mask, cols as int, cols, r) == above_row(mask, cols, r),
    decreases r,
{
    if r > 0 {
        lemma_by_rows_is_above(mask, cols, (r - 1) as nat);
    }
}

/// The active blocks are as many whether they are counted by columns or by rows.
pub proof fn lemma_counts_agree(mask: Seq<bool>, cols: nat, rows: nat)
    ensures
        left_of(mask, cols as int, rows, cols) == above_row(mask, cols, rows),
{
    lemma_either_way(mask, cols as int, cols, rows);
    lemma_by_rows_is_above(mask, cols, rows);
}

proof fn lemma_left_of_monotone(mask: Seq<bool>, cols: int, rows: nat, i: nat, j: nat)
    requires
        i <= j,
    ensures
        left_of(mask, cols, rows, i) <= left_of(mask, cols, rows, j),
    decreases j,
{
    if i < j {
        lemma_left_of_monotone(mask, cols, rows, i, (j - 1) as nat);
    }
}

proof fn lemma_above_row_monotone(mask: Seq<bool>, cols: nat, i: nat, j: nat)
    requires
        i <= j,
    ensures
        above_row(mask, cols, i) <= above_row(mask, cols, j),
    decreases j,
{
    if i < j {
        lemma_above_row_monotone(mask, cols, i, (j - 1) as nat);
    }
}

/// A line with a positive count holds an active block, and the other way round.
proof fn lemma_count_positive(mask: Seq<bool>, cols: int, i: int, n: nat)
    ensures
        col_count(mask, cols, i, n) > 0 <==> exists|by: int| 0 <= by < n && block(mask, cols, i, by),
        row_count(mask, cols, i, n) > 0 <==> exists|bx: int| 0 <= bx < n && block(mask, cols, bx, i),
    decreases n,
{
    if n > 0 {
        let m = (n - 1) as nat;
        lemma_count_positive(mask, cols, i, m);
        if col_count(mask, cols, i, m) > 0 {
            let by = choose|by: int| 0 <= by < m && block(mask, cols, i, by);
            assert(0 <= by < n && block(mask, cols, i, by));
        } else if block(mask, cols, i, n - 1) {
            assert(0 <= n - 1 < n && block(mask, cols, i, n - 1));
        }
        if row_count(mask, cols, i, m) > 0 {
            let bx = choose|bx: int| 0 <= bx < m && block(mask, cols, bx, i);
            assert(0 <= bx < n && block(mask, cols, bx, i));
        } else if block(mask, cols, n - 1, i) {
            assert(0 <= n - 1 < n && block(mask, cols, n - 1, i));
        }
    }
}

/// `m` asks for no less than `k` does: more neighbours, more active blocks in a
/// line, or a larger share to drop. The union asks for the least, but for a
/// density of zero, which keeps every line.
pub open spec fn stricter(m: BboxMethod, k: BboxMethod) -> bool {
    match (m, k) {
        (BboxMethod::DensityFilter(a), BboxMethod::DensityFilter(b)) => a >= b,
        (BboxMethod::Erosion(a), BboxMethod::Erosion(b)) => a >= b,
        (BboxMethod::Percentile(a), BboxMethod::Percentile(b)) => a@.at_least(b@),
        (BboxMethod::DensityFilter(a), BboxMethod::Union) => a >= 1,
        (_, BboxMethod::Union) => true,
        _ => false,
    }
}

/// A larger percentage drops no fewer blocks.
pub proof fn lemma_trim_monotone(a: Num, b: Num, n: nat)
    requires
        a.at_least(b),
    ensures
        trim_count(a, n) >= trim_count(b, n),
{
    let most = single_num(MAX_TRIM);
    let hundred = Num::of_int(Format::Single, 100);
    let count = Num::of_int(Format::Single, n as int);
    lemma_max_trim();
    lemma_small_hundred();
    let x = a.clamped(Num::zero(), most);
    let y = b.clamped(Num::zero(), most);
    lemma_share_monotone(x, y);
    let one = Format::Single.one();
    vstd::arithmetic::power2::lemma_pow2_pos(149);
    let p = x.over(Format::Single, hundred);
    let q = y.over(Format::Single, hundred);
    if let Num::Finite { mag: c, .. } = count {
        let u = p->mag;
        let v = q->mag;
        assert(v * c <= u * c) by (nonlinear_arith)
            requires
                v <= u,
                c >= 0,
        ;
        assert((v * c) * one <= (u * c) * one) by (nonlinear_arith)
            requires
                v * c <= u * c,
                one > 0,
        ;
        lemma_round_to_monotone(24, v * c, one, u * c, one);
        if u == 0 {
            assert(u * c == 0 && v * c == 0) by (nonlinear_arith)
                requires
                    u == 0,
                    v == 0,
            ;
            lemma_nearest_even_exact(0, one);
        }
        assert(p.times(Format::Single, count).at_least(q.times(Format::Single, count)));
        lemma_whole_monotone(
            p.times(Format::Single, count),
            q.times(Format::Single, count),
            u64::MAX as nat,
        );
    }
}

/// A larger number has no smaller integer part.
proof fn lemma_whole_monotone(a: Num, b: Num, max: nat)
    requires
        a.at_least(b),
    ensures
        a.whole(Format::Single, max) >= b.whole(Format::Single, max),
{
    let one = Format::Single.one();
    vstd::arithmetic::power2::lemma_pow2_pos(149);
    if let (Num::Finite { neg: false, mag: x }, Num::Finite { neg: false, mag: y }) = (a, b) {
        vstd::arithmetic::div_mod::lemma_div_is_ordered(y as int, x as int, one as int);
    }
    if let (Num::Finite { neg: true, mag: x }, Num::Finite { neg: false, mag: y }) = (a, b) {
        assert(y == 0);
        vstd::arithmetic::div_mod::lemma_div_basics(one as int);
    }
}

/// A hundredth of a larger percentage is not smaller.
proof fn lemma_share_monotone(x: Num, y: Num)
    requires
        x is Finite,
        y is Finite,
        x.at_least(y),
        y.at_least(Num::zero()),
        x->mag < 100 * Format::Single.one(),
        y->mag < 100 * Format::Single.one(),
    ensures
        ({
            let hundred = Num::of_int(Format::Single, 100);
            let p = x.over(Format::Single, hundred);
            let q = y.over(Format::Single, hundred);
            &&& p is Finite
            &&& q is Finite
            &&& p->Finite_neg == x->Finite_neg
            &&& q->Finite_neg == y->Finite_neg
            &&& q->mag <= p->mag
            &&& x->mag == 0 ==> p->mag == 0
            &&& y->mag == 0 ==> q->mag == 0
        }),
{
    let one = Format::Single.one();
    lemma_small_hundred();
    vstd::arithmetic::power2::lemma_pow2_pos(149);
    let m = x->mag;
    let k = y->mag;
    lemma_round_to_scale(24, m, 100, one);
    lemma_round_to_scale(24, k, 100, one);
    lemma_round_to_monotone(24, k, 100, m, 100);
    lemma_round_to_monotone(24, m, 100, one, 1);
    vstd::arithmetic::power2::lemma2_to64();
    lemma_round_to_exact(24, 1, 149);
    vstd::arithmetic::power2::lemma_pow2_strictly_increases(149, 277);
}

proof fn lemma_small_hundred()
    ensures
        Num::of_int(Format::Single, 100) == (Num::Finite {
            neg: false,
            mag: 100 * Format::Single.one(),
        }),
{
    vstd::arithmetic::power2::lemma2_to64();
    crate::number::lemma_small_int(Format::Single, 100);
}

/// The largest percentage is a number below one hundred.
proof fn lemma_max_trim()
    ensures
        single_num(MAX_TRIM) matches Num::Finite { neg: false, mag } && 0 < mag < 100
            * Format::Single.one(),
{
    vstd::arithmetic::power2::lemma_pow2_pos(131);
    vstd::arithmetic::power2::lemma2_to64();
    vstd::arithmetic::power2::lemma_pow2_adds(131, 18);
    assert(MAX_TRIM / 0x80_0000 == 132);
    assert(MAX_TRIM % 0x80_0000 == 0x47_999a);
    assert(0xc7_999a * pow2(131) < 100 * (pow2(131) * 0x4_0000)) by (nonlinear_arith)
        requires
            pow2(131) > 0,
    ;
    assert(0xc7_999a * pow2(131) > 0) by (nonlinear_arith)
        requires
            pow2(131) > 0,
    ;
}

/// What a stricter method keeps, the other one keeps too.
pub proof fn lemma_stricter_keeps(mask: Seq<bool>, cols: nat, rows: nat, m: BboxMethod, k: BboxMethod)
    requires
        stricter(m, k),
    ensures
        forall|bx: int|
            0 <= bx < cols && #[trigger] keeps_col(mask, cols, rows, m, bx) ==> keeps_col(
                mask,
                cols,
                rows,
                k,
                bx,
            ),
        forall|by: int|
            0 <= by < rows && #[trigger] keeps_row(mask, cols, rows, m, by) ==> keeps_row(
                mask,
                cols,
                rows,
                k,
                by,
            ),
{
    let c = cols as int;
    let h = rows as int;
    if let (BboxMethod::Percentile(p), BboxMethod::Percentile(q)) = (m, k) {
        lemma_trim_monotone(p@, q@, above_row(mask, cols, rows));
    }
    assert forall|bx: int|
        0 <= bx < cols && #[trigger] keeps_col(mask, cols, rows, m, bx) implies keeps_col(
        mask,
        cols,
        rows,
        k,
        bx,
    ) by {
        if let BboxMethod::Erosion(n) = m {
            let by = choose|by: int| 0 <= by < rows && survives(mask, c, h, n as int, bx, by);
            assert(block(mask, c, bx, by));
            if let BboxMethod::Erosion(least) = k {
                assert(survives(mask, c, h, least as int, bx, by));
            }
        } else if k is Union {
            lemma_count_positive(mask, c, bx, rows);
            if m is Percentile {
                assert(left_of(mask, c, rows, (bx + 1) as nat) == left_of(mask, c, rows, bx as nat)
                    + col_count(mask, c, bx, rows));
            }
        }
    }
    assert forall|by: int|
        0 <= by < rows && #[trigger] keeps_row(mask, cols, rows, m, by) implies keeps_row(
        mask,
        cols,
        rows,
        k,
        by,
    ) by {
        if let BboxMethod::Erosion(n) = m {
            let bx = choose|bx: int| 0 <= bx < cols && survives(mask, c, h, n as int, bx, by);
            assert(block(mask, c, bx, by));
            if let BboxMethod::Erosion(least) = k {
                assert(survives(mask, c, h, least as int, bx, by));
            }
        } else if k is Union {
            lemma_count_positive(mask, c, by, cols);
            if m is Percentile {
                assert(above_row(mask, cols, (by + 1) as nat) == above_row(mask, cols, by as nat)
                    + row_count(mask, c, by, cols));
            }
        }
    }
}

/// A stricter method gives a tighter region; in particular no method exceeds the
/// union, but for a density of zero.
pub proof fn lemma_stricter_is_tighter(
    rm: Option<[u32; 4]>,
    m: BboxMethod,
    rk: Option<[u32; 4]>,
    k: BboxMethod,
    mask: Seq<bool>,
    cols: nat,
    rows: nat,
    fw: u32,
    fh: u32,
)
    requires
        stricter(m, k),
        is_bbox(rm, mask, cols, rows, fw, fh, m),
        is_bbox(rk, mask, cols, rows, fw, fh, k),
    ensures
        within_region(rm, rk),
{
    lemma_stricter_keeps(mask, cols, rows, m, k);
    lemma_envelope_nested(mask, m, mask, k, cols, rows);
    if rm is Some {
        lemma_pixels_nested(
            rm->0,
            block_box(mask, cols, rows, m)->0,
            rk->0,
            block_box(mask, cols, rows, k)->0,
            fw,
            fh,
        );
    }
}

/// The method asks for nothing more than one active block in a line.
pub open spec fn lenient(method: BboxMethod) -> bool {
    match method {
        BboxMethod::Union => true,
        BboxMethod::Percentile(p) => Num::zero().at_least(p@) || p@ is NotANumber,
        BboxMethod::DensityFilter(n) => n == 1,
        BboxMethod::Erosion(n) => n == 0,
    }
}

/// Without a percentage above zero nothing is dropped.
pub proof fn lemma_nothing_trimmed(percent: Num, n: nat)
    requires
        Num::zero().at_least(percent) || percent is NotANumber,
    ensures
        n > 0 ==> trim_count(percent, n) == 0,
{
    lemma_max_trim();
    if percent is NotANumber {
    } else {
        let x = percent.clamped(Num::zero(), single_num(MAX_TRIM));
        assert(x is Finite && x->mag == 0);
        lemma_share_monotone(x, x);
        let q = x.over(Format::Single, Num::of_int(Format::Single, 100));
        let one = Format::Single.one();
        vstd::arithmetic::power2::lemma_pow2_pos(149);
        if let Num::Finite { mag: c, .. } = Num::of_int(Format::Single, n as int) {
            assert(0 * c == 0) by (nonlinear_arith);
            lemma_nearest_even_exact(0, one);
            vstd::arithmetic::div_mod::lemma_div_basics(one as int);
        }
    }
}

/// Erosion by no neighbours, a density of one and a percentage of zero each give
/// the union region.
pub proof fn lemma_lenient_is_union(
    mask: Seq<bool>,
    cols: nat,
    rows: nat,
    method: BboxMethod,
)
    requires
        lenient(method),
    ensures
        block_box(mask, cols, rows, method) == block_box(mask, cols, rows, BboxMethod::Union),
{
    let c = cols as int;
    let h = rows as int;
    let n = above_row(mask, cols, rows);
    if let BboxMethod::Percentile(p) = method {
        lemma_nothing_trimmed(p@, n);
    }
    lemma_counts_agree(mask, cols, rows);
    assert forall|bx: int| 0 <= bx < cols implies #[trigger] keeps_col(mask, cols, rows, method, bx)
        == keeps_col(mask, cols, rows, BboxMethod::Union, bx) by {
        lemma_count_positive(mask, c, bx, rows);
        lemma_left_of_monotone(mask, c, rows, (bx + 1) as nat, cols);
        assert(left_of(mask, c, rows, (bx + 1) as nat) == left_of(mask, c, rows, bx as nat)
            + col_count(mask, c, bx, rows));
        if keeps_col(mask, cols, rows, BboxMethod::Union, bx) {
            let by = choose|by: int| 0 <= by < rows && block(mask, c, bx, by);
            assert(survives(mask, c, h, 0, bx, by));
        } else if method is Erosion {
            assert forall|by: int| 0 <= by < rows implies !survives(mask, c, h, 0, bx, by) by {
                assert(!block(mask, c, bx, by));
            }
        }
    }
    assert forall|by: int| 0 <= by < rows implies #[trigger] keeps_row(mask, cols, rows, method, by)
        == keeps_row(mask, cols, rows, BboxMethod::Union, by) by {
        lemma_count_positive(mask, c, by, cols);
        lemma_above_row_monotone(mask, cols, (by + 1) as nat, rows);
        assert(above_row(mask, cols, (by + 1) as nat) == above_row(mask, cols, by as nat)
            + row_count(mask, c, by, cols));
        if keeps_row(mask, cols, rows, BboxMethod::Union, by) {
            let bx = choose|bx: int| 0 <= bx < cols && block(mask, c, bx, by);
            assert(survives(mask, c, h, 0, bx, by));
        } else if method is Erosion {
            assert forall|bx: int| 0 <= bx < cols implies !survives(mask, c, h, 0, bx, by) by {
                assert(!block(mask, c, bx, by));
            }
        }
    }
    assert(kept_cols(mask, cols, rows, method) =~= kept_cols(mask, cols, rows, BboxMethod::Union));
    assert(kept_rows(mask, cols, rows, method) =~= kept_rows(mask, cols, rows, BboxMethod::Union));
}

/// The column in which the active block with the given rank lies, counted from
/// the left.
proof fn lemma_col_of_rank(mask: Seq<bool>, cols: int, rows: nat, c: nat, rank: nat) -> (bx: int)
    requires
        rank < left_of(mask, cols, rows, c),
    ensures
        0 <= bx < c,
        left_of(mask, cols, rows, bx as nat) <= rank < left_of(mask, cols, rows, (bx + 1) as nat),
    decreases c,
{
    if left_of(mask, cols, rows, (c - 1) as nat) <= rank {
        c - 1
    } else {
        lemma_col_of_rank(mask, cols, rows, (c - 1) as nat, rank)
    }
}

/// The row in which the active block with the given rank lies, counted from the
/// top.
proof fn lemma_row_of_rank(mask: Seq<bool>, cols: nat, r: nat, rank: nat) -> (by: int)
    requires
        rank < above_row(mask, cols, r),
    ensures
        0 <= by < r,
        above_row(mask, cols, by as nat) <= rank < above_row(mask, cols, (by + 1) as nat),
    decreases r,
{
    if above_row(mask, cols, (r - 1) as nat) <= rank {
        r - 1
    } else {
        lemma_row_of_rank(mask, cols, (r - 1) as nat, rank)
    }
}

/// The percentile box exists wherever a block is active. On each of its four
/// sides it leaves out no more than the share of the active blocks that is to be
/// dropped there, and it could not be tightened without leaving out more.
pub proof fn lemma_percentile_drops_share(mask: Seq<bool>, cols: nat, rows: nat, p: crate::single::Single)
    ensures
        ({
            let n = above_row(mask, cols, rows);
            let trim = trim_count(p@, n);
            let c = cols as int;
            match block_box(mask, cols, rows, BboxMethod::Percentile(p)) {
                None => n == 0,
                Some(b) => {
                    &&& n > 0
                    &&& left_of(mask, c, rows, b.min_col as nat) <= trim
                    &&& left_of(mask, c, rows, (b.min_col + 1) as nat) > trim
                    &&& n - left_of(mask, c, rows, (b.max_col + 1) as nat) <= trim
                    &&& n - left_of(mask, c, rows, b.max_col as nat) > trim
                    &&& above_row(mask, cols, b.min_row as nat) <= trim
                    &&& above_row(mask, cols, (b.min_row + 1) as nat) > trim
                    &&& n - above_row(mask, cols, (b.max_row + 1) as nat) <= trim
                    &&& n - above_row(mask, cols, b.max_row as nat) > trim
                },
            }
        }),
{
    let method = BboxMethod::Percentile(p);
    let n = above_row(mask, cols, rows);
    let trim = trim_count(p@, n);
    let c = cols as int;
    lemma_box_is_envelope(mask, cols, rows, method);
    lemma_counts_agree(mask, cols, rows);
    if n > 0 {
        let x1 = lemma_col_of_rank(mask, c, rows, cols, trim);
        let x2 = lemma_col_of_rank(mask, c, rows, cols, (n - 1 - trim) as nat);
        let y1 = lemma_row_of_rank(mask, cols, rows, trim);
        let y2 = lemma_row_of_rank(mask, cols, rows, (n - 1 - trim) as nat);
        assert(keeps_col(mask, cols, rows, method, x1));
        assert(keeps_col(mask, cols, rows, method, x2));
        assert(keeps_row(mask, cols, rows, method, y1));
        assert(keeps_row(mask, cols, rows, method, y2));
        let b = block_box(mask, cols, rows, method)->0;
        lemma_left_of_monotone(mask, c, rows, b.min_col as nat, x1 as nat);
        lemma_left_of_monotone(mask, c, rows, (x2 + 1) as nat, (b.max_col + 1) as nat);
        lemma_above_row_monotone(mask, cols, b.min_row as nat, y1 as nat);
        lemma_above_row_monotone(mask, cols, (y2 + 1) as nat, (b.max_row + 1) as nat);
    } else {
        assert(forall|bx: int| !#[trigger] keeps_col(mask, cols, rows, method, bx));
    }
}

/// Switching a block off leaves the others as they are.
proof fn lemma_block_update(mask: Seq<bool>, cols: nat, rows: nat, x: int, y: int, bx: int, by: int)
    requires
        mask.len() >= cols * rows,
        0 <= x < cols,
        0 <= y < rows,
        0 <= bx < cols,
        0 <= by < rows,
    ensures
        block(mask.update(by * cols + bx, false), cols as int, x, y) == (block(
            mask,
            cols as int,
            x,
            y,
        ) && !(x == bx && y == by)),
{
    assert(0 <= by * cols + bx < cols * rows) by (nonlinear_arith)
        requires
            0 <= bx < cols,
            0 <= by,
            by + 1 <= rows,
    ;
    assert(0 <= y * cols + x < cols * rows) by (nonlinear_arith)
        requires
            0 <= x < cols,
            0 <= y,
            y + 1 <= rows,
    ;
    if y * cols + x == by * cols + bx {
        lemma_index_injective(cols, x, y, bx, by);
    }
}

/// Erosion removes isolated hot spots: an active block without active neighbours
/// makes no difference.
pub proof fn lemma_erosion_ignores_isolated(
    mask: Seq<bool>,
    cols: nat,
    rows: nat,
    n: usize,
    bx: int,
    by: int,
)
    requires
        n > 0,
        mask.len() >= cols * rows,
        0 <= bx < cols,
        0 <= by < rows,
        neighbours(mask, cols as int, rows as int, bx, by) == 0,
    ensures
        block_box(mask, cols, rows, BboxMethod::Erosion(n)) == block_box(
            mask.update(by * cols + bx, false),
            cols,
            rows,
            BboxMethod::Erosion(n),
        ),
{
    let other = mask.update(by * cols + bx, false);
    let c = cols as int;
    let h = rows as int;
    let k = n as int;
    let method = BboxMethod::Erosion(n);
    assert forall|x: int, y: int| 0 <= x < cols && 0 <= y < rows implies #[trigger] survives(
        mask,
        c,
        h,
        k,
        x,
        y,
    ) == survives(other, c, h, k, x, y) by {
        lemma_block_update(mask, cols, rows, x, y, bx, by);
        if x > 0 {
            lemma_block_update(mask, cols, rows, x - 1, y, bx, by);
        }
        if x + 1 < cols {
            lemma_block_update(mask, cols, rows, x + 1, y, bx, by);
        }
        if y > 0 {
            lemma_block_update(mask, cols, rows, x, y - 1, bx, by);
        }
        if y + 1 < rows {
            lemma_block_update(mask, cols, rows, x, y + 1, bx, by);
        }
    }
    assert forall|x: int| 0 <= x < cols implies #[trigger] keeps_col(mask, cols, rows, method, x)
        == keeps_col(other, cols, rows, method, x) by {
        if col_survives(mask, c, h, k, x) {
            let y = choose|y: int| 0 <= y < rows && survives(mask, c, h, k, x, y);
            assert(survives(other, c, h, k, x, y));
        }
        if col_survives(other, c, h, k, x) {
            let y = choose|y: int| 0 <= y < rows && survives(other, c, h, k, x, y);
            assert(survives(mask, c, h, k, x, y));
        }
    }
    assert forall|y: int| 0 <= y < rows implies #[trigger] keeps_row(mask, cols, rows, method, y)
        == keeps_row(other, cols, rows, method, y) by {
        if row_survives(mask, c, h, k, y) {
            let x = choose|x: int| 0 <= x < cols && survives(mask, c, h, k, x, y);
            assert(survives(other, c, h, k, x, y));
        }
        if row_survives(other, c, h, k, y) {
            let x = choose|x: int| 0 <= x < cols && survives(other, c, h, k, x, y);
            assert(survives(mask, c, h, k, x, y));
        }
    }
    assert(kept_cols(mask, cols, rows, method) =~= kept_cols(other, cols, rows, method));
    assert(kept_rows(mask, cols, rows, method) =~= kept_rows(other, cols, rows, method));
}

/// Where no block is active there is nothing to keep, with every method that
/// keeps no more than the union.
pub proof fn lemma_nothing_active(mask: Seq<bool>, cols: nat, rows: nat, method: BboxMethod)
    requires
        mask.len() >= cols * rows,
        forall|i: int| 0 <= i < cols * rows ==> !#[trigger] mask[i],
        stricter(method, BboxMethod::Union),
    ensures
        block_box(mask, cols, rows, method) is None,
{
    lemma_stricter_keeps(mask, cols, rows, method, BboxMethod::Union);
    lemma_box_is_envelope(mask, cols, rows, method);
    if let Some(b) = block_box(mask, cols, rows, method) {
        assert(keeps_col(mask, cols, rows, BboxMethod::Union, b.min_col));
        let by = choose|by: int| 0 <= by < rows && block(mask, cols as int, b.min_col, by);
        assert(0 <= by * cols + b.min_col < cols * rows) by (nonlinear_arith)
            requires
                0 <= b.min_col < cols,
                0 <= by,
                by + 1 <= rows,
        ;
        assert(!mask[by * cols + b.min_col]);
    }
}

/// There is a union region exactly where some score reaches the threshold; a
/// score equal to it does, and what is not a number does not.
pub proof fn lemma_union_region_exists(
    r: Option<[u32; 4]>,
    scores: Seq<Num>,
    threshold: Num,
    cols: nat,
    rows: nat,
    fw: u32,
    fh: u32,
)
    requires
        scores.len() == cols * rows,
        is_bbox(r, active_blocks(scores, threshold), cols, rows, fw, fh, BboxMethod::Union),
    ensures
        r is None <==> forall|i: int|
            0 <= i < scores.len() ==> !(#[trigger] scores[i]).at_least(threshold),
        threshold is Finite ==> threshold.at_least(threshold),
        !Num::NotANumber.at_least(threshold),
{
    let mask = active_blocks(scores, threshold);
    if exists|i: int| 0 <= i < scores.len() && (#[trigger] scores[i]).at_least(threshold) {
        let i = choose|i: int| 0 <= i < scores.len() && (#[trigger] scores[i]).at_least(threshold);
        assert(cols > 0) by (nonlinear_arith)
            requires
                0 <= i < cols * rows,
                cols >= 0,
        ;
        let bx = i % cols as int;
        let by = i / cols as int;
        assert(0 <= by < rows && i == by * cols + bx && 0 <= bx < cols) by (nonlinear_arith)
            requires
                0 <= i < cols * rows,
                cols > 0,
                bx == i % cols as int,
                by == i / cols as int,
        ;
        lemma_union_holds_active(mask, cols, rows, bx, by);
    } else {
        assert forall|i: int| 0 <= i < cols * rows implies !#[trigger] mask[i] by {
            assert(!scores[i].at_least(threshold));
        }
        lemma_nothing_active(mask, cols, rows, BboxMethod::Union);
    }
}

/// A map has only one region.
pub proof fn lemma_region_unique(
    a: Option<[u32; 4]>,
    b: Option<[u32; 4]>,
    mask: Seq<bool>,
    cols: nat,
    rows: nat,
    fw: u32,
    fh: u32,
    method: BboxMethod,
)
    requires
        is_bbox(a, mask, cols, rows, fw, fh, method),
        is_bbox(b, mask, cols, rows, fw, fh, method),
    ensures
        a == b,
{
    if a is Some {
        assert(a->0 =~= b->0);
    }
}

} // verus!
