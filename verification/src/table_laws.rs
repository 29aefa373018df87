//! A table's rows hold their cells: each is as tall as they are, and none
//! reaches into the next.

use vstd::prelude::*;

use crate::blocks::{BoxArgs, Recipe};
use crate::boxes::BoxId;
use crate::cells::{larger, minus, plus, total};
use crate::columns::{rows_raised, span_asked, TableColumn, TABLE_TRACKS};
use crate::context::Ctx;
use crate::dimensions::{Dimensions, Rect};
use crate::engine::Canvas;
use crate::dom::NodeId;
use crate::frame_laws::{all_from, placed_as};
use crate::grid_laws::{a_total_is_a_sum, ints, none_negative};
use crate::plot_laws::{
    a_plot_is_placed, a_plot_is_resized, is_edge, is_near, is_small, plot, plots,
};
use crate::position_laws::is_mild;
use crate::sums::{sum, sum_step};
use crate::table::{
    cell_dims, cell_settled, cells_settled, columns_asked, ceiling_set, ceilings_set, floor_set,
    floors_set, free_from, heights_from, owner_at, owner_of, placement_fits, placements_fit,
    row_box, row_top, rows_settled, CellBox, RowView, TableEnv, TablePlacement,
};
use crate::style::ComputedStyle;

verus! {

/// No cell takes more than one row.
pub open spec fn no_row_spans(placed: Seq<TablePlacement>) -> bool {
    forall|k: int| 0 <= k < placed.len() ==> (#[trigger] placed[k]).rowspan == 1
}

/// One row tall each, before any cell has asked for more.
pub open spec fn bare_rows(n: nat) -> Seq<i32> {
    Seq::new(n, |i: int| 1i32)
}

proof fn rows_only_grow(
    placed: Seq<TablePlacement>,
    cells: Seq<CellBox>,
    i: int,
    heights: Seq<i32>,
    columns: int,
)
    requires
        0 <= i <= placed.len() == cells.len(),
        placements_fit(placed, heights.len() as int, columns),
        no_row_spans(placed),
    ensures
        ({
            let r = heights_from(placed, cells, i, heights);
            &&& r.len() == heights.len()
            &&& forall|k: int| 0 <= k < r.len() ==> heights[k] <= #[trigger] r[k]
            &&& forall|k: int|
                i <= k < placed.len() ==> cells[k].height <= r[(#[trigger] placed[k]).row as int]
            &&& forall|k: int|
                0 <= k < r.len() ==> #[trigger] r[k] == heights[k] || exists|j: int|
                    i <= j < placed.len() && (#[trigger] placed[j]).row == k && cells[j].height
                        == r[k]
        }),
    decreases placed.len() - i,
{
    if i < placed.len() {
        let p = placed[i];
        assert(placement_fits(placed[i], heights.len() as int, columns));
        assert(placed[i].rowspan == 1);
        let next = heights.update(p.row as int, larger(heights[p.row as int], cells[i].height));
        rows_only_grow(placed, cells, i + 1, next, columns);
        let r = heights_from(placed, cells, i, heights);
        assert(r == heights_from(placed, cells, i + 1, next));
        assert forall|k: int| 0 <= k < r.len() implies heights[k] <= #[trigger] r[k] by {
            assert(next[k] <= r[k]);
        }
        assert forall|k: int| i <= k < placed.len() implies cells[k].height <= r[(
        #[trigger] placed[k]).row as int] by {
            if k == i {
                assert(next[p.row as int] <= r[p.row as int]);
            }
        }
        assert forall|k: int| 0 <= k < r.len() implies #[trigger] r[k] == heights[k] || exists|
            j: int,
        |
            i <= j < placed.len() && (#[trigger] placed[j]).row == k && cells[j].height == r[k] by {
            if r[k] == next[k] {
                if next[k] != heights[k] {
                    assert(placed[i].row == k && cells[i].height == r[k]);
                }
            } else {
                let j = choose|j: int|
                    i + 1 <= j < placed.len() && (#[trigger] placed[j]).row == k && cells[j].height
                        == r[k];
                assert(placed[j].row == k);
            }
        }
    }
}

/// In a table without row spans every row is as tall as the tallest of its
/// cells, whatever their columns, and no taller: at least as tall as each, and
/// one row or as tall as one of them.
pub proof fn a_row_is_as_tall_as_its_tallest_cell(
    placed: Seq<TablePlacement>,
    cells: Seq<CellBox>,
    rows: nat,
    columns: int,
    k: int,
    r: int,
)
    requires
        0 <= k < placed.len() == cells.len(),
        0 <= r < rows,
        placements_fit(placed, rows as int, columns),
        no_row_spans(placed),
    ensures
        ({
            let heights = heights_from(placed, cells, 0, bare_rows(rows));
            &&& heights.len() == rows
            &&& cells[k].height <= heights[placed[k].row as int]
            &&& 1 <= heights[r]
            &&& heights[r] == 1 || exists|j: int|
                0 <= j < placed.len() && (#[trigger] placed[j]).row == r && cells[j].height
                    == heights[r]
        }),
{
    rows_only_grow(placed, cells, 0, bare_rows(rows), columns);
    let heights = heights_from(placed, cells, 0, bare_rows(rows));
    assert(bare_rows(rows)[r] <= heights[r]);
    assert(cells[k].height <= heights[placed[k].row as int]);
}

proof fn row_tops_are_sums(heights: Seq<i32>, y: i32, i: int)
    requires
        0 <= i <= heights.len(),
        none_negative(heights),
        y + sum(ints(heights)) <= i32::MAX,
    ensures
        row_top(heights, y, i) == y + sum(ints(heights).take(i)),
        0 <= sum(ints(heights).take(i)) <= sum(ints(heights)),
    decreases i,
{
    let all = ints(heights);
    sums_only_grow(all, i);
    if i > 0 {
        row_tops_are_sums(heights, y, i - 1);
        sum_step(all, i - 1);
        assert(0 <= heights[i - 1]);
    } else {
        assert(all.take(0) =~= Seq::<int>::empty());
    }
}

pub(crate) proof fn sums_only_grow(s: Seq<int>, i: int)
    requires
        0 <= i <= s.len(),
        forall|j: int| 0 <= j < s.len() ==> 0 <= #[trigger] s[j],
    ensures
        0 <= sum(s.take(i)) <= sum(s),
    decreases s.len() - i,
{
    crate::sums::sum_is_not_negative(s.take(i));
    if i < s.len() {
        sums_only_grow(s, i + 1);
        sum_step(s, i);
        assert(0 <= s[i]);
    } else {
        assert(s.take(i) =~= s);
    }
}

/// Rows lie one below another: the first where the table's rows start, and each
/// where the one before it ends, so that the rows between two of them fill what
/// is between their tops.
pub proof fn rows_follow_one_another(heights: Seq<i32>, y: i32, r: int, s: int)
    requires
        0 <= r <= s <= heights.len(),
        none_negative(heights),
        y + sum(ints(heights)) <= i32::MAX,
    ensures
        row_top(heights, y, 0) == y,
        row_top(heights, y, s) - row_top(heights, y, r) == sum(ints(heights).subrange(r, s)),
        row_top(heights, y, r) <= row_top(heights, y, s),
        r < s ==> row_top(heights, y, r) + heights[r] <= row_top(heights, y, s),
    decreases s - r,
{
    let all = ints(heights);
    row_tops_are_sums(heights, y, r);
    row_tops_are_sums(heights, y, s);
    if r < s {
        rows_follow_one_another(heights, y, r, s - 1);
        row_tops_are_sums(heights, y, s - 1);
        sum_step(all, s - 1);
        assert(all.subrange(r, s).drop_last() =~= all.subrange(r, s - 1));
        assert(0 <= heights[s - 1]);
        if r == s - 1 {
            assert(all.subrange(r, r) =~= Seq::<int>::empty());
        }
    } else {
        assert(all.subrange(r, s) =~= Seq::<int>::empty());
    }
}

/// In a table without row spans no cell that stands at the top of its row
/// reaches below the top of any later row.
pub proof fn no_cell_reaches_the_next_row(
    placed: Seq<TablePlacement>,
    cells: Seq<CellBox>,
    rows: nat,
    columns: int,
    y: i32,
    k: int,
    later: int,
)
    requires
        0 <= k < placed.len() == cells.len(),
        placements_fit(placed, rows as int, columns),
        no_row_spans(placed),
        placed[k].row < later <= rows,
        y + sum(ints(heights_from(placed, cells, 0, bare_rows(rows)))) <= i32::MAX,
    ensures
        ({
            let heights = heights_from(placed, cells, 0, bare_rows(rows));
            row_top(heights, y, placed[k].row as int) + cells[k].height <= row_top(
                heights,
                y,
                later,
            )
        }),
{
    let heights = heights_from(placed, cells, 0, bare_rows(rows));
    assert(placement_fits(placed[k], rows as int, columns));
    rows_only_grow(placed, cells, 0, bare_rows(rows), columns);
    assert(cells[k].height <= heights[placed[k].row as int]);
    assert forall|r: int| 0 <= r < heights.len() implies 0 <= #[trigger] heights[r] by {
        assert(bare_rows(rows)[r] <= heights[r]);
    }
    rows_follow_one_another(heights, y, placed[k].row as int, later);
}

// ---- spans -----------------------------------------------------------------

proof fn deficit_splits(deficit: int, n: int)
    requires
        0 <= deficit <= i32::MAX,
        0 < n,
    ensures
        0 <= deficit / n <= deficit,
        0 <= deficit % n < n,
        deficit == n * (deficit / n) + deficit % n,
        0 < deficit % n ==> deficit / n + 1 <= deficit,
{
    let (q, m) = (deficit / n, deficit % n);
    vstd::arithmetic::div_mod::lemma_fundamental_div_mod(deficit, n);
    vstd::arithmetic::div_mod::lemma_mod_bound(deficit, n);
    assert(0 <= q <= deficit && (0 < m ==> q + 1 <= deficit)) by (nonlinear_arith)
        requires
            deficit == n * q + m,
            0 <= m < n,
            0 < n,
            0 <= deficit,
    ;
}

/// Parts of a deficit, given to the first `m` members of a span.
proof fn raised_so_far(
    before: Seq<int>,
    after: Seq<int>,
    deficit: int,
    n: int,
    m: int,
)
    requires
        0 <= m <= n == before.len() == after.len(),
        0 < n,
        0 <= deficit <= i32::MAX,
        forall|j: int|
            0 <= j < n ==> #[trigger] after[j] == before[j] + deficit / n + (if j < deficit % n {
                1int
            } else {
                0
            }),
    ensures
        sum(after.take(m)) == sum(before.take(m)) + m * (deficit / n) + (if m < deficit % n {
            m
        } else {
            deficit % n
        }),
    decreases m,
{
    deficit_splits(deficit, n);
    if m > 0 {
        raised_so_far(before, after, deficit, n, m - 1);
        sum_step(before, m - 1);
        sum_step(after, m - 1);
        let q = deficit / n;
        assert(m * q == (m - 1) * q + q) by (nonlinear_arith);
        assert(after[m - 1] == before[m - 1] + q + (if m - 1 < deficit % n {
            1int
        } else {
            0
        }));
    } else {
        assert(before.take(0) =~= Seq::<int>::empty());
        assert(after.take(0) =~= Seq::<int>::empty());
    }
}

/// A cell that spans rows too short for it raises them to exactly its height
/// together. Each gets as much as the next, an odd row going to the first, and
/// no other row changes.
pub proof fn a_spanning_cell_raises_its_rows_to_its_height(
    rows: Seq<i32>,
    start: int,
    span: int,
    wanted: i32,
)
    requires
        0 <= start,
        0 < span,
        start + span <= rows.len(),
        none_negative(rows),
        sum(ints(rows.subrange(start, start + span))) <= wanted,
    ensures
        ({
            let r = rows_raised(rows, start, span, wanted);
            &&& r.len() == rows.len()
            &&& sum(ints(r.subrange(start, start + span))) == wanted
            &&& forall|i: int|
                0 <= i < rows.len() && !(start <= i < start + span) ==> #[trigger] r[i] == rows[i]
            &&& forall|i: int, j: int|
                start <= i <= j < start + span ==> 0 <= #[trigger] r[j] - rows[j] <= #[trigger] r[i]
                    - rows[i] <= r[j] - rows[j] + 1
        }),
{
    let end = start + span;
    let some = rows.subrange(start, end);
    assert forall|k: int| 0 <= k < some.len() implies 0 <= #[trigger] some[k] by {
        assert(0 <= rows[start + k]);
    }
    a_total_is_a_sum(some);
    let deficit = wanted - sum(ints(some));
    deficit_splits(deficit, span);
    let r = rows_raised(rows, start, span, wanted);
    let (before, after) = (ints(some), ints(r.subrange(start, end)));
    if deficit == 0 {
        assert(r == rows);
    } else {
        assert forall|j: int| 0 <= j < span implies #[trigger] after[j] == before[j] + deficit
            / span + (if j < deficit % span {
            1int
        } else {
            0
        }) by {
            crate::sums::one_of_the_sum(before, j);
            assert(before[j] == rows[start + j]);
            assert(after[j] == r[start + j]);
        }
        raised_so_far(before, after, deficit, span, span);
        assert(before.take(span) =~= before);
        assert(after.take(span) =~= after);
        assert(span * (deficit / span) + deficit % span == deficit);
        assert forall|i: int, j: int| start <= i <= j < start + span implies 0 <= #[trigger] r[j]
            - rows[j] <= #[trigger] r[i] - rows[i] <= r[j] - rows[j] + 1 by {
            assert(after[i - start] == before[i - start] + deficit / span + (if i - start < deficit
                % span {
                1int
            } else {
                0
            }));
            assert(after[j - start] == before[j - start] + deficit / span + (if j - start < deficit
                % span {
                1int
            } else {
                0
            }));
        }
    }
}

// ---- cells -----------------------------------------------------------------

/// A cell's box fills its slot: it starts where the slot does, its border box
/// is as wide as the slot, if that holds its edges, and it has no margin on
/// either side to drift by.
pub proof fn a_cell_fills_its_slot(c: ComputedStyle, x: i32, y: i32, slot: i32)
    requires
        is_small(x) && is_small(y),
        0 <= slot <= 0x4000_0000,
    ensures
        ({
            let d = cell_dims(&c, x, y, slot);
            let edges = d.padding.left + d.padding.right + d.border.left + d.border.right;
            &&& d.margin.left == 0 && d.margin.right == 0
            &&& d.border_box().x == x
            &&& d.border_box().y == y
            &&& edges <= slot ==> d.border_box().width == slot
            &&& edges > slot ==> d.content.width == 0
        }),
{
    crate::style::lengths_are_capped(c.padding.left, slot);
    crate::style::lengths_are_capped(c.padding.right, slot);
    crate::style::lengths_are_capped(c.padding.top, slot);
    crate::style::lengths_are_capped(c.border.left, slot);
    crate::style::lengths_are_capped(c.border.right, slot);
    crate::style::lengths_are_capped(c.border.top, slot);
}

/// Dimensions whose edges can be added up.
pub open spec fn is_modest(d: Dimensions) -> bool {
    &&& is_small(d.content.x) && is_small(d.content.y)
    &&& is_edge(d.border.top) && is_edge(d.border.bottom)
    &&& is_edge(d.padding.top) && is_edge(d.padding.bottom)
    &&& is_edge(d.margin.top) && is_edge(d.margin.bottom)
}

/// A cell is put at the top of its row: its border box starts there, where it
/// was across the page. One of a single row keeps its size; one that spans
/// several takes all their height. Its row lists it last, and nothing outside
/// the cell and the row changes.
#[verifier::rlimit(60)]
pub proof fn a_cell_stands_at_the_top_of_its_row(
    cv: Canvas,
    base: nat,
    heights: Seq<i32>,
    y: i32,
    p: TablePlacement,
    ids: Seq<BoxId>,
    ends: Seq<nat>,
    m: int,
)
    requires
        plots(cv.boxes, ids, ends),
        0 <= m < ids.len(),
        p.row < heights.len(),
        base + heights.len() <= usize::MAX,
        forall|k: int| 0 <= k < ids.len() ==> base + heights.len() <= (#[trigger] ids[k]).0,
        is_modest(cv.dims(ids[m])),
        is_near(row_top(heights, y, p.row as int)),
    ensures
        ({
            let id = ids[m];
            let row = row_box(base, p.row as int);
            let r = cell_settled(cv, base, heights, y, p, id);
            let (was, now) = (cv.dims(id), r.dims(id));
            &&& plots(r.boxes, ids, ends)
            &&& r.boxes.len() == cv.boxes.len()
            &&& now.border_box().y == row_top(heights, y, p.row as int)
            &&& now.content.x == was.content.x && now.content.width == was.content.width
            &&& now.padding == was.padding && now.border == was.border && now.margin == was.margin
            &&& p.rowspan == 1 ==> now.content.height == was.content.height
            &&& r.boxes[row.0 as int].children == cv.boxes[row.0 as int].children.push(id)
            &&& r.boxes[row.0 as int].dimensions == cv.boxes[row.0 as int].dimensions
            &&& forall|k: int|
                0 <= k < ids.len() && k != m ==> r.boxes[(#[trigger] ids[k]).0 as int]
                    == cv.boxes[ids[k].0 as int]
        }),
{
    let id = ids[m];
    let d = cv.dims(id);
    let row = row_box(base, p.row as int);
    assert(base + heights.len() <= ids[m].0);
    assert(plot(cv.boxes, ids[m], ends[m]));
    let outer = total(heights.subrange(p.row as int, p.row + p.rowspan));
    let inner = larger(
        minus(
            minus(minus(minus(outer, d.padding.top), d.padding.bottom), d.border.top),
            d.border.bottom,
        ),
        1,
    );
    let grown = if p.rowspan > 1 {
        cv.with_height(id, inner)
    } else {
        cv
    };
    let g = grown.dims(id);
    a_plot_is_resized(cv, ids, ends, m, g);
    assert(grown.boxes =~= cv.with_dims(id, g).boxes);
    let dy = minus(
        plus(plus(row_top(heights, y, p.row as int), d.border.top), d.padding.top),
        d.content.y,
    );
    let moved = grown.moved(id, 0, dy);
    a_plot_is_placed(grown, ids, ends, m, 0, dy, moved.dims(id));
    assert(moved.boxes =~= moved.with_dims(id, moved.dims(id)).boxes);
    assert(moved.dims(id).content.y == row_top(heights, y, p.row as int) + d.border.top
        + d.padding.top);
    let r = cell_settled(cv, base, heights, y, p, id);
    assert(r == moved.with_children(row, moved.boxes[row.0 as int].children.push(id)));
    assert(grown.boxes[row.0 as int] == cv.boxes[row.0 as int]);
    assert(moved.boxes[row.0 as int] == grown.boxes[row.0 as int]);
    assert forall|k: int| 0 <= k < ids.len() && k != m implies r.boxes[(
    #[trigger] ids[k]).0 as int] == cv.boxes[ids[k].0 as int] by {
        assert(base + heights.len() <= ids[k].0);
        assert(grown.boxes[ids[k].0 as int] == cv.boxes[ids[k].0 as int]);
        assert(moved.boxes[ids[k].0 as int] == grown.boxes[ids[k].0 as int]);
    }
    assert(plots(r.boxes, ids, ends)) by {
        assert forall|k: int| 0 <= k < ids.len() implies plot(r.boxes, #[trigger] ids[k], ends[k]) by {
            assert(plot(moved.boxes, ids[k], ends[k]));
            assert(base + heights.len() <= ids[k].0);
            assert forall|i: int| ids[k].0 <= i < ends[k] implies all_from(
                (ids[k].0 + 1) as nat,
                (#[trigger] r.boxes[i]).children,
                ends[k],
            ) by {
                assert(all_from((ids[k].0 + 1) as nat, moved.boxes[i].children, ends[k]));
            }
        }
    }
}

/// The boxes of cells.
pub open spec fn cell_ids(cells: Seq<CellBox>) -> Seq<BoxId> {
    cells.map_values(|c: CellBox| c.id)
}

/// Every cell of a table ends up at the top of its row, as tall as it was unless
/// it spans rows.
pub proof fn every_cell_stands_at_the_top_of_its_row(
    cv: Canvas,
    base: nat,
    heights: Seq<i32>,
    y: i32,
    placed: Seq<TablePlacement>,
    cells: Seq<CellBox>,
    ends: Seq<nat>,
    i: int,
    columns: int,
)
    requires
        0 <= i <= placed.len() == cells.len(),
        placements_fit(placed, heights.len() as int, columns),
        plots(cv.boxes, cell_ids(cells), ends),
        base + heights.len() <= usize::MAX,
        forall|k: int|
            0 <= k < cells.len() ==> base + heights.len() <= (#[trigger] cells[k]).id.0 && is_modest(
                cv.dims(cells[k].id),
            ),
        forall|r: int| 0 <= r < heights.len() ==> is_near(#[trigger] row_top(heights, y, r)),
    ensures
        ({
            let r = cells_settled(cv, base, heights, y, placed, cells, i);
            &&& plots(r.boxes, cell_ids(cells), ends)
            &&& r.boxes.len() == cv.boxes.len()
            &&& forall|k: int|
                i <= k < cells.len() ==> {
                    let (was, now) = (cv.dims(cells[k].id), r.dims((#[trigger] cells[k]).id));
                    &&& now.border_box().y == row_top(heights, y, placed[k].row as int)
                    &&& now.content.x == was.content.x
                    &&& now.content.width == was.content.width
                    &&& now.padding == was.padding && now.border == was.border && now.margin
                        == was.margin
                    &&& placed[k].rowspan == 1 ==> now.content.height == was.content.height
                }
            &&& forall|k: int|
                0 <= k < i ==> r.dims((#[trigger] cells[k]).id) == cv.dims(cells[k].id)
        }),
    decreases placed.len() - i,
{
    if i < placed.len() {
        let ids = cell_ids(cells);
        let p = placed[i];
        assert(placement_fits(placed[i], heights.len() as int, columns));
        assert(ids[i] == cells[i].id);
        assert forall|k: int| 0 <= k < ids.len() implies base + heights.len() <= (
        #[trigger] ids[k]).0 by {
            assert(ids[k] == cells[k].id);
        }
        assert(is_modest(cv.dims(cells[i].id)));
        assert(is_near(row_top(heights, y, p.row as int)));
        a_cell_stands_at_the_top_of_its_row(cv, base, heights, y, p, ids, ends, i);
        let next = cell_settled(cv, base, heights, y, p, cells[i].id);
        assert forall|k: int| 0 <= k < cells.len() && k != i implies next.dims(
            (#[trigger] cells[k]).id,
        ) == cv.dims(cells[k].id) by {
            assert(ids[k] == cells[k].id);
            assert(next.boxes[ids[k].0 as int] == cv.boxes[ids[k].0 as int]);
        }
        assert forall|k: int| 0 <= k < cells.len() implies base + heights.len() <= (
        #[trigger] cells[k]).id.0 && is_modest(next.dims(cells[k].id)) by {
            if k != i {
                assert(next.dims(cells[k].id) == cv.dims(cells[k].id));
            }
        }
        every_cell_stands_at_the_top_of_its_row(
            next,
            base,
            heights,
            y,
            placed,
            cells,
            ends,
            i + 1,
            columns,
        );
    }
}

// ---- columns ---------------------------------------------------------------

/// No cell takes more than one column.
pub open spec fn no_column_spans(placed: Seq<TablePlacement>) -> bool {
    forall|k: int| 0 <= k < placed.len() ==> (#[trigger] placed[k]).colspan == 1
}

proof fn floors_only_rise(
    columns: Seq<TableColumn>,
    placed: Seq<TablePlacement>,
    cs: Seq<TableColumn>,
    i: int,
    rows: int,
)
    requires
        0 <= i <= placed.len() == cs.len(),
        placements_fit(placed, rows, columns.len() as int),
        no_column_spans(placed),
    ensures
        ({
            let r = floors_set(columns, placed, cs, i);
            &&& r.len() == columns.len()
            &&& forall|k: int|
                0 <= k < r.len() ==> columns[k].min <= (#[trigger] r[k]).min && r[k].max
                    == columns[k].max
            &&& forall|k: int|
                i <= k < placed.len() ==> cs[k].min <= r[(#[trigger] placed[k]).col as int].min
            &&& forall|k: int|
                0 <= k < r.len() ==> (#[trigger] r[k]).min == columns[k].min || exists|j: int|
                    i <= j < placed.len() && (#[trigger] placed[j]).col == k && cs[j].min == r[k].min
        }),
    decreases placed.len() - i,
{
    if i < placed.len() {
        let p = placed[i];
        assert(placement_fits(placed[i], rows, columns.len() as int));
        assert(placed[i].colspan == 1);
        let next = floor_set(columns, p, cs[i]);
        floors_only_rise(next, placed, cs, i + 1, rows);
        let r = floors_set(columns, placed, cs, i);
        assert forall|k: int| 0 <= k < r.len() implies columns[k].min <= (#[trigger] r[k]).min
            && r[k].max == columns[k].max by {
            assert(next[k].min <= r[k].min);
        }
        assert forall|k: int| i <= k < placed.len() implies cs[k].min <= r[(
        #[trigger] placed[k]).col as int].min by {
            if k == i {
                assert(next[p.col as int].min <= r[p.col as int].min);
            }
        }
        assert forall|k: int| 0 <= k < r.len() implies (#[trigger] r[k]).min == columns[k].min
            || exists|j: int|
            i <= j < placed.len() && (#[trigger] placed[j]).col == k && cs[j].min == r[k].min by {
            if r[k].min == next[k].min {
                if next[k].min != columns[k].min {
                    assert(placed[i].col == k && cs[i].min == r[k].min);
                }
            } else {
                let j = choose|j: int|
                    i + 1 <= j < placed.len() && (#[trigger] placed[j]).col == k && cs[j].min
                        == r[k].min;
                assert(placed[j].col == k);
            }
        }
    }
}

proof fn ceilings_only_rise(
    columns: Seq<TableColumn>,
    placed: Seq<TablePlacement>,
    cs: Seq<TableColumn>,
    i: int,
    rows: int,
)
    requires
        0 <= i <= placed.len() == cs.len(),
        placements_fit(placed, rows, columns.len() as int),
        no_column_spans(placed),
    ensures
        ({
            let r = ceilings_set(columns, placed, cs, i);
            &&& r.len() == columns.len()
            &&& forall|k: int|
                0 <= k < r.len() ==> columns[k].max <= (#[trigger] r[k]).max && r[k].min
                    == columns[k].min
            &&& forall|k: int|
                i <= k < placed.len() ==> cs[k].max <= r[(#[trigger] placed[k]).col as int].max
            &&& forall|k: int|
                0 <= k < r.len() ==> (#[trigger] r[k]).max == columns[k].max || r[k].max
                    == columns[k].min || exists|j: int|
                    i <= j < placed.len() && (#[trigger] placed[j]).col == k && cs[j].max == r[k].max
        }),
    decreases placed.len() - i,
{
    if i < placed.len() {
        let p = placed[i];
        assert(placement_fits(placed[i], rows, columns.len() as int));
        assert(placed[i].colspan == 1);
        let next = ceiling_set(columns, p, cs[i]);
        ceilings_only_rise(next, placed, cs, i + 1, rows);
        let r = ceilings_set(columns, placed, cs, i);
        assert forall|k: int| 0 <= k < r.len() implies columns[k].max <= (#[trigger] r[k]).max
            && r[k].min == columns[k].min by {
            assert(next[k].max <= r[k].max);
        }
        assert forall|k: int| i <= k < placed.len() implies cs[k].max <= r[(
        #[trigger] placed[k]).col as int].max by {
            if k == i {
                assert(next[p.col as int].max <= r[p.col as int].max);
            }
        }
        assert forall|k: int| 0 <= k < r.len() implies (#[trigger] r[k]).max == columns[k].max
            || r[k].max == columns[k].min || exists|j: int|
            i <= j < placed.len() && (#[trigger] placed[j]).col == k && cs[j].max == r[k].max by {
            if r[k].max == next[k].max || r[k].max == next[k].min {
                if next[k].max != columns[k].max && r[k].max != columns[k].min {
                    assert(placed[i].col == k && cs[i].max == r[k].max);
                }
            } else {
                let j = choose|j: int|
                    i + 1 <= j < placed.len() && (#[trigger] placed[j]).col == k && cs[j].max
                        == r[k].max;
                assert(placed[j].col == k);
            }
        }
    }
}

/// In a table without column spans a column needs what the neediest of its
/// cells does, in whichever row it is, and no more; and it wants at least what
/// each of them wants, and no more than it needs or one of them wants.
pub proof fn a_column_asks_what_its_cells_ask(
    placed: Seq<TablePlacement>,
    cs: Seq<TableColumn>,
    n: nat,
    rows: int,
    k: int,
    c: int,
)
    requires
        0 <= k < placed.len() == cs.len(),
        0 <= c < n,
        placements_fit(placed, rows, n as int),
        no_column_spans(placed),
    ensures
        ({
            let r = columns_asked(placed, cs, n);
            let col = placed[k].col as int;
            &&& r.len() == n
            &&& cs[k].min <= r[col].min
            &&& cs[k].max <= r[col].max
            &&& r[c].min == 1 || exists|j: int|
                0 <= j < placed.len() && (#[trigger] placed[j]).col == c && cs[j].min == r[c].min
            &&& r[c].max == 1 || r[c].max == r[c].min || exists|j: int|
                0 <= j < placed.len() && (#[trigger] placed[j]).col == c && cs[j].max == r[c].max
        }),
{
    let empty = Seq::new(n, |i: int| TableColumn::empty());
    floors_only_rise(empty, placed, cs, 0, rows);
    let floors = floors_set(empty, placed, cs, 0);
    ceilings_only_rise(floors, placed, cs, 0, rows);
    let r = columns_asked(placed, cs, n);
    assert(placement_fits(placed[k], rows, n as int));
    assert(r[placed[k].col as int].min == floors[placed[k].col as int].min);
    assert(r[c].min == floors[c].min);
    assert(floors[c].min == empty[c].min || exists|j: int|
        0 <= j < placed.len() && (#[trigger] placed[j]).col == c && cs[j].min == floors[c].min);
}

// ---- placing ---------------------------------------------------------------

/// A cell goes to the first column of its row that no other has, from where the
/// one before it ended.
pub proof fn a_cell_goes_to_the_first_free_column(
    placed: Seq<TablePlacement>,
    row: int,
    cursor: int,
    c: int,
)
    requires
        0 <= cursor,
    ensures
        ({
            let col = free_from(placed, row, cursor);
            &&& cursor <= col
            &&& cursor <= c < col ==> owner_of(placed, row, c) is Some
            &&& col < TABLE_TRACKS ==> owner_of(placed, row, col) is None
        }),
    decreases TABLE_TRACKS - cursor,
{
    if cursor < TABLE_TRACKS && owner_of(placed, row, cursor) is Some {
        a_cell_goes_to_the_first_free_column(placed, row, cursor + 1, c);
    }
}

/// What is placed takes one slot each: in rows above this one, or left of this
/// column.
pub open spec fn all_before(placed: Seq<TablePlacement>, row: int, col: int) -> bool {
    forall|k: int|
        0 <= k < placed.len() ==> {
            &&& (#[trigger] placed[k]).rowspan == 1 && placed[k].colspan == 1
            &&& placed[k].row < row || (placed[k].row == row && placed[k].col < col)
        }
}

proof fn nobody_is_here_yet(placed: Seq<TablePlacement>, n: int, row: int, col: int, c: int)
    requires
        0 <= n <= placed.len(),
        all_before(placed, row, col),
        col <= c,
    ensures
        owner_at(placed, n, row, c) is None,
    decreases n,
{
    if n > 0 {
        assert(placed[n - 1].rowspan == 1 && placed[n - 1].colspan == 1);
        nobody_is_here_yet(placed, n - 1, row, col, c);
    }
}

/// One slot of a table.
pub open spec fn one_slot(cell: NodeId, row: int, col: int) -> TablePlacement {
    TablePlacement { cell, row: row as usize, col: col as usize, rowspan: 1, colspan: 1 }
}

impl<'a> Ctx<'a> {
    /// A cell that asks for no more than one slot.
    pub open spec fn asks_for_one_slot(&self, cell: NodeId) -> bool {
        self.dom.attr_of(cell, "colspan"@) is None && self.dom.attr_of(cell, "rowspan"@) is None
    }

    proof fn a_row_is_filled_from_the_left(
        &self,
        rows: int,
        row: int,
        cells: Seq<NodeId>,
        i: int,
        placed: Seq<TablePlacement>,
    )
        requires
            0 <= i <= cells.len() <= TABLE_TRACKS,
            0 <= row <= usize::MAX,
            all_before(placed, row, i),
            forall|k: int| 0 <= k < cells.len() ==> self.asks_for_one_slot(#[trigger] cells[k]),
        ensures
            ({
                let r = self.cells_placed(rows, row, cells, i, i, placed);
                &&& r.len() == placed.len() + cells.len() - i
                &&& forall|k: int| 0 <= k < placed.len() ==> #[trigger] r[k] == placed[k]
                &&& forall|k: int|
                    i <= k < cells.len() ==> r[placed.len() + k - i] == one_slot(
                        #[trigger] cells[k],
                        row,
                        k,
                    )
                &&& all_before(r, row, cells.len() as int)
            }),
        decreases cells.len() - i,
    {
        if i < cells.len() {
            assert(self.asks_for_one_slot(cells[i]));
            nobody_is_here_yet(placed, placed.len() as int, row, i, i);
            assert(free_from(placed, row, i) == i);
            let next = placed.push(one_slot(cells[i], row, i));
            assert(all_before(next, row, i + 1)) by {
                assert forall|k: int| 0 <= k < next.len() implies {
                    &&& (#[trigger] next[k]).rowspan == 1 && next[k].colspan == 1
                    &&& next[k].row < row || (next[k].row == row && next[k].col < i + 1)
                } by {
                    if k < placed.len() {
                        assert(next[k] == placed[k]);
                    }
                }
            }
            self.a_row_is_filled_from_the_left(rows, row, cells, i + 1, next);
            let r = self.cells_placed(rows, row, cells, i, i, placed);
            assert(r == self.cells_placed(rows, row, cells, i + 1, i + 1, next));
            assert forall|k: int| 0 <= k < placed.len() implies #[trigger] r[k] == placed[k] by {
                assert(r[k] == next[k]);
            }
            assert forall|k: int| i <= k < cells.len() implies r[placed.len() + k - i] == one_slot(
                #[trigger] cells[k],
                row,
                k,
            ) by {
                if k == i {
                    assert(r[placed.len() as int] == next[placed.len() as int]);
                }
            }
        }
    }

    proof fn rows_are_filled_in_turn(
        &self,
        rows: Seq<RowView>,
        r: int,
        placed: Seq<TablePlacement>,
        at: int,
        i: int,
    )
        requires
            0 <= r <= rows.len() <= usize::MAX,
            all_before(placed, r, 0),
            forall|k: int| 0 <= k < rows.len() ==> (#[trigger] rows[k]).cells.len() <= TABLE_TRACKS,
            forall|k: int, j: int|
                0 <= k < rows.len() && 0 <= j < rows[k].cells.len() ==> self.asks_for_one_slot(
                    #[trigger] rows[k].cells[j],
                ),
            r <= at < rows.len(),
            0 <= i < rows[at].cells.len(),
        ensures
            ({
                let all = self.rows_placed(rows, r, placed);
                &&& forall|k: int| 0 <= k < placed.len() ==> k < all.len() && #[trigger] placed[k]
                    == all[k]
                &&& all.contains(one_slot(rows[at].cells[i], at, i))
            }),
        decreases rows.len() - r,
    {
        let cells = rows[r].cells;
        assert(rows[r].cells.len() <= TABLE_TRACKS);
        assert forall|k: int| 0 <= k < cells.len() implies self.asks_for_one_slot(
            #[trigger] cells[k],
        ) by {
            assert(self.asks_for_one_slot(rows[r].cells[k]));
        }
        self.a_row_is_filled_from_the_left(rows.len() as int, r, cells, 0, placed);
        let next = self.cells_placed(rows.len() as int, r, cells, 0, 0, placed);
        assert(all_before(next, r + 1, 0)) by {
            assert forall|k: int| 0 <= k < next.len() implies {
                &&& (#[trigger] next[k]).rowspan == 1 && next[k].colspan == 1
                &&& next[k].row < r + 1 || (next[k].row == r + 1 && next[k].col < 0)
            } by {}
        }
        let all = self.rows_placed(rows, r, placed);
        if r < at {
            self.rows_are_filled_in_turn(rows, r + 1, next, at, i);
            assert forall|k: int| 0 <= k < placed.len() implies k < all.len()
                && #[trigger] placed[k] == all[k] by {
                assert(next[k] == placed[k]);
                assert(next[k] == all[k]);
            }
        } else {
            let slot = one_slot(cells[i], r, i);
            assert(next[placed.len() + i - 0] == slot);
            self.later_rows_keep_these(rows, r + 1, next);
            assert(next[placed.len() + i] == all[placed.len() + i]);
            assert forall|k: int| 0 <= k < placed.len() implies k < all.len()
                && #[trigger] placed[k] == all[k] by {
                assert(next[k] == placed[k]);
                assert(next[k] == all[k]);
            }
        }
    }

    proof fn later_rows_keep_these(&self, rows: Seq<RowView>, r: int, placed: Seq<TablePlacement>)
        requires
            0 <= r <= rows.len(),
        ensures
            forall|k: int|
                0 <= k < placed.len() ==> k < self.rows_placed(rows, r, placed).len()
                    && #[trigger] placed[k] == self.rows_placed(rows, r, placed)[k],
        decreases rows.len() - r,
    {
        if r < rows.len() {
            let next = self.cells_placed(rows.len() as int, r, rows[r].cells, 0, 0, placed);
            self.later_cells_keep_these(rows.len() as int, r, rows[r].cells, 0, 0, placed);
            self.later_rows_keep_these(rows, r + 1, next);
            let all = self.rows_placed(rows, r, placed);
            assert forall|k: int| 0 <= k < placed.len() implies k < all.len()
                && #[trigger] placed[k] == all[k] by {
                assert(placed[k] == next[k]);
                assert(next[k] == all[k]);
            }
        }
    }

    proof fn later_cells_keep_these(
        &self,
        rows: int,
        row: int,
        cells: Seq<NodeId>,
        i: int,
        cursor: int,
        placed: Seq<TablePlacement>,
    )
        requires
            0 <= i,
        ensures
            ({
                let r = self.cells_placed(rows, row, cells, i, cursor, placed);
                forall|k: int|
                    0 <= k < placed.len() ==> k < r.len() && #[trigger] placed[k] == r[k]
            }),
        decreases cells.len() - i,
    {
        if i < cells.len() {
            let col = free_from(placed, row, cursor);
            if col < TABLE_TRACKS {
                let colspan = span_asked(
                    self.dom.attr_of(cells[i], "colspan"@),
                    TABLE_TRACKS - col,
                );
                let rowspan = span_asked(self.dom.attr_of(cells[i], "rowspan"@), rows - row);
                let next = placed.push(
                    TablePlacement {
                        cell: cells[i],
                        row: row as usize,
                        col: col as usize,
                        rowspan: rowspan as usize,
                        colspan: colspan as usize,
                    },
                );
                self.later_cells_keep_these(rows, row, cells, i + 1, col + colspan, next);
                let r = self.cells_placed(rows, row, cells, i, cursor, placed);
                assert forall|k: int| 0 <= k < placed.len() implies k < r.len()
                    && #[trigger] placed[k] == r[k] by {
                    assert(next[k] == placed[k]);
                    assert(next[k] == r[k]);
                }
            }
        }
    }

    /// In a table none of whose cells spans, cell `i` of row `r` is in row `r` and
    /// column `i`.
    pub proof fn cells_without_spans_fill_their_rows(&self, rows: Seq<RowView>, r: int, i: int)
        requires
            rows.len() <= usize::MAX,
            forall|k: int| 0 <= k < rows.len() ==> (#[trigger] rows[k]).cells.len() <= TABLE_TRACKS,
            forall|k: int, j: int|
                0 <= k < rows.len() && 0 <= j < rows[k].cells.len() ==> self.asks_for_one_slot(
                    #[trigger] rows[k].cells[j],
                ),
            0 <= r < rows.len(),
            0 <= i < rows[r].cells.len(),
        ensures
            self.placements_of(rows).contains(one_slot(rows[r].cells[i], r, i)),
    {
        self.rows_are_filled_in_turn(rows, 0, Seq::empty(), r, i);
    }

    /// A cell is laid out in its columns: its border box starts where they do,
    /// behind the columns before them, and is as wide as they are together, if
    /// that holds its edges. What it asks of its row is the height of its margin
    /// box, and at least a row.
    pub proof fn a_cell_is_laid_out_in_its_columns(
        &self,
        rec: Recipe,
        cv: Canvas,
        env: TableEnv,
        widths: Seq<i32>,
        p: TablePlacement,
    )
        requires
            p.col + p.colspan <= widths.len(),
            none_negative(widths),
            sum(ints(widths)) <= 0x0080_0000,
            is_mild(env.table.x),
            is_mild(env.y),
            forall|a: BoxArgs|
                a.cv == cv && a.id == p.cell ==> ({
                    let b = #[trigger] (rec.build)(a);
                    b.id.0 < b.cv.boxes.len() && placed_as(b.cv.dims(b.id), a.dims)
                }),
        ensures
            ({
                let (end, cell) = self.cell_laid(rec, cv, env, widths, p);
                let d = end.dims(cell.id);
                let before = sum(ints(widths.subrange(0, p.col as int)));
                let slot = sum(ints(widths.subrange(p.col as int, p.col + p.colspan)));
                let edges = d.padding.left + d.padding.right + d.border.left + d.border.right;
                &&& d.border_box().x == env.table.x + before
                &&& edges <= slot ==> d.border_box().width == slot
                &&& 1 <= d.content.height
                &&& 1 <= cell.height
            }),
    {
        reveal(Ctx::cell_laid);
        let c = self.style(p.cell);
        parts_have_room(widths, 0, p.col as int);
        parts_have_room(widths, p.col as int, p.col + p.colspan);
        let x = plus(env.table.x, total(widths.subrange(0, p.col as int)));
        let slot = total(widths.subrange(p.col as int, p.col + p.colspan));
        let dims = cell_dims(&c, x, env.y, slot);
        let a = BoxArgs { cv, id: p.cell, computed: c, dims, ch: env.ch, pre: env.pre };
        let b = (rec.build)(a);
        assert(placed_as(b.cv.dims(b.id), a.dims));
        a_cell_fills_its_slot(c, x, env.y, slot);
        let (end, cell) = self.cell_laid(rec, cv, env, widths, p);
        let (d, e) = (b.cv.dims(b.id), end.dims(cell.id));
        assert(e.content.x == d.content.x && e.content.width == d.content.width);
        same_across(dims, e);
    }
}

/// Boxes that agree across the page agree on their border boxes there.
proof fn same_across(a: Dimensions, b: Dimensions)
    requires
        a.padding == b.padding && a.border == b.border,
        a.content.x == b.content.x && a.content.width == b.content.width,
    ensures
        a.border_box().x == b.border_box().x,
        a.border_box().width == b.border_box().width,
{
}

proof fn parts_have_room(widths: Seq<i32>, a: int, b: int)
    requires
        0 <= a <= b <= widths.len(),
        none_negative(widths),
        sum(ints(widths)) <= 0x0080_0000,
    ensures
        total(widths.subrange(a, b)) == sum(ints(widths.subrange(a, b))),
        0 <= sum(ints(widths.subrange(a, b))) <= 0x0080_0000,
{
    let all = ints(widths);
    let some = widths.subrange(a, b);
    assert forall|k: int| 0 <= k < some.len() implies 0 <= #[trigger] some[k] by {
        assert(0 <= widths[a + k]);
    }
    assert forall|k: int| 0 <= k < all.len() implies 0 <= #[trigger] all[k] by {
        assert(0 <= widths[k]);
    }
    crate::grid_laws::parts_of_a_sum(all, b);
    crate::grid_laws::parts_of_a_sum(all.take(b), a);
    assert(all.take(b).skip(a) =~= ints(some));
    assert(all.take(b).take(a) =~= all.take(a));
    crate::sums::sum_is_not_negative(all.take(a));
    crate::sums::sum_is_not_negative(all.skip(b));
    crate::sums::sum_is_not_negative(ints(some));
    a_total_is_a_sum(some);
}

/// Every row of a table is put where the rows above it end, and is as tall as it
/// is to be; nothing else changes.
pub proof fn every_row_is_put_in_its_place(
    cv: Canvas,
    base: nat,
    heights: Seq<i32>,
    y: i32,
    i: int,
)
    requires
        0 <= i <= heights.len(),
        base + heights.len() <= cv.boxes.len() <= usize::MAX,
    ensures
        ({
            let r = rows_settled(cv, base, heights, y, i);
            &&& r.boxes.len() == cv.boxes.len()
            &&& forall|k: int|
                i <= k < heights.len() ==> {
                    let d = (#[trigger] r.boxes[base + k]).dimensions;
                    &&& d.content.y == row_top(heights, y, k)
                    &&& d.content.height == larger(heights[k], 0)
                    &&& d.content.x == cv.boxes[base + k].dimensions.content.x
                    &&& d.content.width == cv.boxes[base + k].dimensions.content.width
                }
            &&& forall|j: int|
                0 <= j < r.boxes.len() && !(base + i <= j < base + heights.len())
                    ==> #[trigger] r.boxes[j] == cv.boxes[j]
        }),
    decreases heights.len() - i,
{
    if i < heights.len() {
        let id = row_box(base, i);
        let d = cv.dims(id);
        let next = cv.with_dims(
            id,
            d.with_content(
                Rect { y: row_top(heights, y, i), height: larger(heights[i], 0), ..d.content },
            ),
        );
        every_row_is_put_in_its_place(next, base, heights, y, i + 1);
        let r = rows_settled(next, base, heights, y, i + 1);
        assert(r.boxes[base + i] == next.boxes[base + i]);
    }
}

impl<'a> Ctx<'a> {
    /// A table is as tall as its rows together, and what is loose above them.
    pub proof fn a_table_is_as_tall_as_its_rows(
        &self,
        rec: Recipe,
        cv: Canvas,
        env: TableEnv,
        rows: Seq<RowView>,
        placed: Seq<TablePlacement>,
        widths: Seq<i32>,
        children: Seq<BoxId>,
        columns: int,
    )
        requires
            placements_fit(placed, rows.len() as int, columns),
            no_row_spans(placed),
            env.table.y <= env.y,
            0 <= env.table.y,
            ({
                let with_rows = self.rows_added(cv, env, rows, 0);
                let cells = self.cells_laid(
                    rec,
                    with_rows,
                    env,
                    widths,
                    placed,
                    0,
                    Seq::empty(),
                ).1;
                let heights = heights_from(placed, cells, 0, bare_rows(rows.len()));
                &&& cells.len() == placed.len()
                &&& env.y + sum(ints(heights)) <= i32::MAX
            }),
        ensures
            ({
                let with_rows = self.rows_added(cv, env, rows, 0);
                let cells = self.cells_laid(
                    rec,
                    with_rows,
                    env,
                    widths,
                    placed,
                    0,
                    Seq::empty(),
                ).1;
                let heights = heights_from(placed, cells, 0, bare_rows(rows.len()));
                self.body_laid(rec, cv, env, rows, placed, widths, children).1 == env.y
                    - env.table.y + sum(ints(heights))
            }),
    {
        reveal(Ctx::body_laid);
        let with_rows = self.rows_added(cv, env, rows, 0);
        let cells = self.cells_laid(rec, with_rows, env, widths, placed, 0, Seq::empty()).1;
        let n = rows.len();
        let heights = heights_from(placed, cells, 0, bare_rows(n));
        assert(bare_rows(n) =~= Seq::new(n, |i: int| 1i32));
        rows_only_grow(placed, cells, 0, bare_rows(n), columns);
        assert forall|r: int| 0 <= r < heights.len() implies 0 <= #[trigger] heights[r] by {
            assert(bare_rows(n)[r] <= heights[r]);
        }
        row_tops_are_sums(heights, env.y, n as int);
        assert(ints(heights).take(n as int) =~= ints(heights));
    }
}

} // verus!
