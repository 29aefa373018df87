//! No box of a laid-out flex container starts before it.
//!
//! Each item's box is the root of a tree of its own, apart from the others, so
//! placing one along its line and across it moves only that one.

use vstd::prelude::*;

use crate::blocks::{heights_of, BlockHeight, BoxArgs, Recipe};
use crate::boxes::{BoxId, BoxView};
use crate::boxmodel::{
    border_of, column_cross_align, edge_v, lays_out_as_flex, lays_out_as_grid, margin_of,
    padding_of, resolve_block_dims, shrink_to_fit,
};
use crate::cells::{larger, minus, plus};
use crate::context::{Ctx, SourceView};
use crate::dimensions::{Dimensions, Rect};
use crate::dom::NodeId;
use crate::engine::Canvas;
use crate::flex::{
    by_baseline, cross_places, deepest_baseline, line_cross_size, lines_from, lines_used,
    reach_across, stacked, CrossItem, CrossPlaced, PlacedLine,
};
use crate::flex_laws::{
    an_aligned_line_neither_overlaps_nor_overflows, line_fits_a_number, line_needs,
};
use crate::flexbox::{
    column_placed, cross_aligned, crossed, in_order, line_crossed, line_sizes, lines_crossed,
    placement, plan_cross, plan_line, stretched, CrossPlan, FlexAxis, FlexEnv, FlexItem,
    ItemPlacement, LinePlan,
};
use crate::frame_laws::{
    all_from, behind, items_are_lined_up, items_behind, items_stay_behind, kept,
    lines_are_consecutive, lines_crossed_stay_behind, moving_a_root, one_tree_more,
    ordering_keeps_items_behind, part_of_items_behind, rooted, sealed,
};
use crate::order::{sorted_indices, sorting_sorts};
use crate::reverse_laws::{
    a_share_is_some_of_it, item_near, line_near, main_origin,
    no_item_is_placed_before_its_container, no_item_is_placed_before_its_line,
    no_line_is_placed_before_its_container, sizes_across, stacked_lines_follow,
    stacked_lines_keep_their_size,
};
use crate::style::{lengths_are_capped, ComputedStyle};

verus! {

/// A tree of boxes that nothing else reaches into: its root, and where it ends.
pub open spec fn plot(boxes: Seq<BoxView>, id: BoxId, e: nat) -> bool {
    &&& id.0 < e <= boxes.len()
    &&& forall|i: int|
        id.0 <= i < e ==> all_from((id.0 + 1) as nat, (#[trigger] boxes[i]).children, e)
}

/// Plots that lie apart.
pub open spec fn plots(boxes: Seq<BoxView>, ids: Seq<BoxId>, ends: Seq<nat>) -> bool {
    &&& ids.len() == ends.len()
    &&& forall|k: int| 0 <= k < ids.len() ==> plot(boxes, #[trigger] ids[k], ends[k])
    &&& forall|j: int, k: int|
        0 <= j < ids.len() && 0 <= k < ids.len() && j != k ==> ends[j] <= (#[trigger] ids[k]).0
            || ends[k] <= (#[trigger] ids[j]).0
}

/// Boxes whose lists of children are as they were.
pub open spec fn lists_kept(a: Seq<BoxView>, b: Seq<BoxView>) -> bool {
    &&& a.len() <= b.len()
    &&& forall|i: int| 0 <= i < a.len() ==> (#[trigger] b[i]).children == a[i].children
}

pub(crate) proof fn plots_are_kept(a: Seq<BoxView>, b: Seq<BoxView>, ids: Seq<BoxId>, ends: Seq<nat>)
    requires
        plots(a, ids, ends),
        lists_kept(a, b),
    ensures
        plots(b, ids, ends),
{
    assert forall|k: int| 0 <= k < ids.len() implies plot(b, #[trigger] ids[k], ends[k]) by {
        let id = ids[k];
        assert(plot(a, ids[k], ends[k]));
        assert forall|i: int| id.0 <= i < ends[k] implies all_from(
            (id.0 + 1) as nat,
            (#[trigger] b[i]).children,
            ends[k],
        ) by {
            assert(all_from((id.0 + 1) as nat, a[i].children, ends[k]));
        }
    }
}

/// One more tree behind the others is one more plot.
proof fn one_plot_more(a: Seq<BoxView>, b: Seq<BoxView>, ids: Seq<BoxId>, ends: Seq<nat>, id: BoxId)
    requires
        plots(a, ids, ends),
        id.0 == a.len(),
        kept(a.len(), a, b),
        rooted(a.len(), b),
    ensures
        plots(b, ids.push(id), ends.push(b.len())),
{
    let (more, later) = (ids.push(id), ends.push(b.len()));
    assert(lists_kept(a, b)) by {
        assert forall|i: int| 0 <= i < a.len() implies (#[trigger] b[i]).children
            == a[i].children by {
            assert(b[i] == a[i]);
        }
    }
    plots_are_kept(a, b, ids, ends);
    assert forall|k: int| 0 <= k < more.len() implies plot(b, #[trigger] more[k], later[k]) by {
        if k < ids.len() {
            assert(plot(b, ids[k], ends[k]));
        } else {
            assert forall|i: int| id.0 <= i < b.len() implies all_from(
                (id.0 + 1) as nat,
                (#[trigger] b[i]).children,
                b.len(),
            ) by {
                assert(all_from(a.len() + 1, b[i].children, b.len()));
            }
        }
    }
    assert forall|j: int, k: int|
        0 <= j < more.len() && 0 <= k < more.len() && j != k implies later[j] <= (
    #[trigger] more[k]).0 || later[k] <= (#[trigger] more[j]).0 by {
        if j < ids.len() {
            assert(plot(a, ids[j], ends[j]));
        }
        if k < ids.len() {
            assert(plot(a, ids[k], ends[k]));
        }
        if j < ids.len() && k < ids.len() {
            assert(ends[j] <= ids[k].0 || ends[k] <= ids[j].0);
        }
    }
}

/// What a change to plot `m` may touch: its own boxes.
pub open spec fn only_plot(a: Canvas, b: Canvas, ids: Seq<BoxId>, ends: Seq<nat>, m: int) -> bool {
    &&& a.boxes.len() == b.boxes.len()
    &&& lists_kept(a.boxes, b.boxes)
    &&& forall|k: int|
        0 <= k < ids.len() && k != m ==> b.boxes[(#[trigger] ids[k]).0 as int]
            == a.boxes[ids[k].0 as int]
    &&& forall|i: int|
        0 <= i < ids[m].0 || ends[m] <= i < a.boxes.len() ==> #[trigger] b.boxes[i] == a.boxes[i]
}

/// A root moved, and then given other dimensions.
pub(crate) proof fn a_plot_is_placed(
    cv: Canvas,
    ids: Seq<BoxId>,
    ends: Seq<nat>,
    m: int,
    dx: i32,
    dy: i32,
    dims: Dimensions,
)
    requires
        plots(cv.boxes, ids, ends),
        0 <= m < ids.len(),
    ensures
        ({
            let id = ids[m];
            let there = cv.moved(id, dx, dy);
            let r = there.with_dims(id, dims);
            let was = cv.dims(id);
            &&& only_plot(cv, there, ids, ends, m)
            &&& only_plot(cv, r, ids, ends, m)
            &&& plots(r.boxes, ids, ends)
            &&& r.dims(id) == dims
            &&& there.dims(id) == was.with_content(
                Rect {
                    x: plus(was.content.x, dx),
                    y: plus(was.content.y, dy),
                    ..was.content
                },
            )
        }),
{
    let id = ids[m];
    assert(plot(cv.boxes, ids[m], ends[m]));
    moving_a_root(id.0 as nat, ends[m], cv.boxes, id, dx, dy);
    let there = cv.moved(id, dx, dy);
    let r = there.with_dims(id, dims);
    assert forall|k: int| 0 <= k < ids.len() && k != m implies r.boxes[(#[trigger] ids[k]).0 as int]
        == cv.boxes[ids[k].0 as int] && there.boxes[ids[k].0 as int]
        == cv.boxes[ids[k].0 as int] by {
        assert(plot(cv.boxes, ids[k], ends[k]));
        assert(ends[m] <= ids[k].0 || ends[k] <= ids[m].0);
    }
    assert(lists_kept(cv.boxes, r.boxes));
    plots_are_kept(cv.boxes, r.boxes, ids, ends);
}

pub(crate) proof fn a_plot_is_resized(cv: Canvas, ids: Seq<BoxId>, ends: Seq<nat>, m: int, dims: Dimensions)
    requires
        plots(cv.boxes, ids, ends),
        0 <= m < ids.len(),
    ensures
        only_plot(cv, cv.with_dims(ids[m], dims), ids, ends, m),
        plots(cv.with_dims(ids[m], dims).boxes, ids, ends),
        cv.with_dims(ids[m], dims).dims(ids[m]) == dims,
{
    let id = ids[m];
    let r = cv.with_dims(id, dims);
    assert(plot(cv.boxes, ids[m], ends[m]));
    assert forall|k: int| 0 <= k < ids.len() && k != m implies r.boxes[(#[trigger] ids[k]).0 as int]
        == cv.boxes[ids[k].0 as int] by {
        assert(plot(cv.boxes, ids[k], ends[k]));
        assert(ends[m] <= ids[k].0 || ends[k] <= ids[m].0);
    }
    assert(lists_kept(cv.boxes, r.boxes));
    plots_are_kept(cv.boxes, r.boxes, ids, ends);
}

pub(crate) proof fn only_one_plot(a: Canvas, b: Canvas, c: Canvas, ids: Seq<BoxId>, ends: Seq<nat>, m: int)
    requires
        only_plot(a, b, ids, ends, m),
        only_plot(b, c, ids, ends, m),
        plots(a.boxes, ids, ends),
        0 <= m < ids.len(),
    ensures
        only_plot(a, c, ids, ends, m),
{
    assert forall|k: int| 0 <= k < ids.len() && k != m implies c.boxes[(#[trigger] ids[k]).0 as int]
        == a.boxes[ids[k].0 as int] by {
        assert(b.boxes[ids[k].0 as int] == a.boxes[ids[k].0 as int]);
    }
    assert forall|i: int| 0 <= i < ids[m].0 || ends[m] <= i < a.boxes.len() implies
        #[trigger] c.boxes[i] == a.boxes[i] by {
        assert(b.boxes[i] == a.boxes[i]);
    }
    assert forall|i: int| 0 <= i < a.boxes.len() implies (#[trigger] c.boxes[i]).children
        == a.boxes[i].children by {
        assert(b.boxes[i].children == a.boxes[i].children);
    }
}

/// A number of cells that leaves room for sums.
pub open spec fn is_small(v: i32) -> bool {
    -0x4000_0000 <= v <= 0x4000_0000
}

pub open spec fn is_edge(v: i32) -> bool {
    -0x0800_0000 <= v <= 0x0800_0000
}

pub open spec fn is_near(v: i32) -> bool {
    -0x2000_0000 <= v <= 0x2000_0000
}

/// Dimensions whose near edges can be added up.
pub open spec fn is_tame(d: Dimensions) -> bool {
    &&& is_small(d.content.x) && is_small(d.content.y)
    &&& is_edge(d.margin.left) && is_edge(d.margin.top)
    &&& is_edge(d.border.left) && is_edge(d.border.top)
    &&& is_edge(d.padding.left) && is_edge(d.padding.top)
}

/// What an item takes across its line, stretched if it is to be.
pub open spec fn span_across(
    cv: Canvas,
    item: FlexItem,
    id: BoxId,
    ci: CrossItem,
    p: CrossPlaced,
    axis: FlexAxis,
    line: PlacedLine,
) -> i32 {
    let sized = if ci.align is Stretch {
        stretched(cv, id, item.computed, axis, line.cross)
    } else {
        cv
    };
    plus(plus(axis.cross_outer(sized.dims(id)), p.auto_start), p.auto_end)
}

/// Crossing puts an item's margin box where the plan says, leaves its place on
/// the main axis alone, and touches no other item.
#[verifier::rlimit(60)]
proof fn one_item_is_crossed(
    cv: Canvas,
    ids: Seq<BoxId>,
    ends: Seq<nat>,
    m: int,
    item: FlexItem,
    ci: CrossItem,
    p: CrossPlaced,
    axis: FlexAxis,
    near: i32,
    line: PlacedLine,
)
    requires
        plots(cv.boxes, ids, ends),
        0 <= m < ids.len(),
        is_tame(cv.dims(ids[m])),
        is_edge(p.auto_start) && is_edge(p.auto_end),
        is_near(item_near(p, axis, near, line, span_across(cv, item, ids[m], ci, p, axis, line))),
    ensures
        ({
            let r = crossed(cv, item, ids[m], ci, p, axis, near, line);
            let at = item_near(
                p,
                axis,
                near,
                line,
                span_across(cv, item, ids[m], ci, p, axis, line),
            );
            let (old, new) = (cv.dims(ids[m]).margin_box(), r.dims(ids[m]).margin_box());
            &&& only_plot(cv, r, ids, ends, m)
            &&& plots(r.boxes, ids, ends)
            &&& axis.vertical ==> new.x == at && new.y == old.y
            &&& !axis.vertical ==> new.y == at && new.x == old.x
        }),
{
    reveal(crossed);
    reveal(stretched);
    let id = ids[m];
    let c = item.computed;
    let sized = if ci.align is Stretch {
        stretched(cv, id, c, axis, line.cross)
    } else {
        cv
    };
    let d = sized.dims(id);
    a_plot_is_resized(cv, ids, ends, m, d);
    assert(plot(cv.boxes, ids[m], ends[m]));
    assert(sized.boxes =~= cv.with_dims(id, d).boxes);
    assert(only_plot(cv, sized, ids, ends, m));
    assert(plots(sized.boxes, ids, ends));
    let r = crossed(cv, item, id, ci, p, axis, near, line);
    let at = item_near(p, axis, near, line, span_across(cv, item, id, ci, p, axis, line));
    let (auto_near, auto_far) = if axis.cross_reverse {
        (p.auto_end, p.auto_start)
    } else {
        (p.auto_start, p.auto_end)
    };
    if axis.vertical {
        let margin = if c.margin.left.is_auto() {
            auto_near
        } else {
            d.margin.left
        };
        let x = plus(plus(at, margin), plus(d.border.left, d.padding.left));
        let dx = minus(x, d.content.x);
        a_plot_is_placed(sized, ids, ends, m, dx, 0, r.dims(id));
        let there = sized.moved(id, dx, 0);
        assert(r == there.with_dims(id, r.dims(id)));
        only_one_plot(cv, sized, r, ids, ends, m);
        assert(there.dims(id).content.x == x);
    } else {
        let margin = if c.margin.top.is_auto() {
            auto_near
        } else {
            d.margin.top
        };
        let y = plus(plus(at, margin), plus(d.border.top, d.padding.top));
        let dy = minus(y, d.content.y);
        a_plot_is_placed(sized, ids, ends, m, 0, dy, r.dims(id));
        let there = sized.moved(id, 0, dy);
        assert(r == there.with_dims(id, r.dims(id)));
        only_one_plot(cv, sized, r, ids, ends, m);
        assert(there.dims(id).content.y == y);
    }
}

/// Where an item's margin box starts on the main axis, and across it.
pub open spec fn main_near(d: Dimensions, axis: FlexAxis) -> i32 {
    if axis.vertical {
        d.margin_box().y
    } else {
        d.margin_box().x
    }
}

pub open spec fn cross_near(d: Dimensions, axis: FlexAxis) -> i32 {
    if axis.vertical {
        d.margin_box().x
    } else {
        d.margin_box().y
    }
}

/// Where item `m` of line `k` is to start across the container.
pub open spec fn planned_near(
    cv: Canvas,
    items: Seq<FlexItem>,
    ids: Seq<BoxId>,
    lines: Seq<(usize, usize)>,
    plan: CrossPlan,
    axis: FlexAxis,
    origin: i32,
    k: int,
    m: int,
) -> i32 {
    let (a, b) = (lines[k].0 as int, lines[k].1 as int);
    let line = plan.lines[k];
    let p = cross_places(plan.cross.subrange(a, b), line.cross)[m - a];
    item_near(
        p,
        axis,
        line_near(plan, k, axis, origin),
        line,
        span_across(cv, items[m], ids[m], plan.cross.subrange(a, b)[m - a], p, axis, line),
    )
}

/// Item `m` of line `k` can be put where it is to start, and that is in the
/// container.
pub open spec fn can_be_crossed(
    cv: Canvas,
    items: Seq<FlexItem>,
    ids: Seq<BoxId>,
    lines: Seq<(usize, usize)>,
    plan: CrossPlan,
    axis: FlexAxis,
    origin: i32,
    k: int,
    m: int,
) -> bool {
    let (a, b) = (lines[k].0 as int, lines[k].1 as int);
    let p = cross_places(plan.cross.subrange(a, b), plan.lines[k].cross)[m - a];
    let at = planned_near(cv, items, ids, lines, plan, axis, origin, k, m);
    &&& is_tame(cv.dims(ids[m]))
    &&& is_edge(p.auto_start) && is_edge(p.auto_end)
    &&& is_near(at)
    &&& origin <= at
}

/// Items before the `m`th are in their places, and the others where they were.
spec fn crossed_so_far(
    start: Canvas,
    cv: Canvas,
    ids: Seq<BoxId>,
    ends: Seq<nat>,
    axis: FlexAxis,
    main: i32,
    origin: i32,
    m: int,
) -> bool {
    &&& plots(cv.boxes, ids, ends)
    &&& start.boxes.len() == cv.boxes.len()
    &&& forall|i: int|
        m <= i < ids.len() ==> cv.boxes[(#[trigger] ids[i]).0 as int]
            == start.boxes[ids[i].0 as int]
    &&& forall|i: int|
        0 <= i < m ==> {
            &&& main <= main_near(cv.dims(#[trigger] ids[i]), axis)
            &&& origin <= cross_near(cv.dims(ids[i]), axis)
        }
}

#[verifier::rlimit(60)]
proof fn a_line_is_crossed(
    start: Canvas,
    cv: Canvas,
    items: Seq<FlexItem>,
    ids: Seq<BoxId>,
    ends: Seq<nat>,
    lines: Seq<(usize, usize)>,
    plan: CrossPlan,
    axis: FlexAxis,
    main: i32,
    origin: i32,
    k: int,
    j: int,
)
    requires
        0 <= k < lines.len(),
        lines[k].0 < lines[k].1 <= items.len(),
        ids.len() == items.len(),
        0 <= j <= lines[k].1 - lines[k].0,
        crossed_so_far(start, cv, ids, ends, axis, main, origin, lines[k].0 + j),
        forall|m: int|
            lines[k].0 <= m < lines[k].1 ==> #[trigger] can_be_crossed(
                start,
                items,
                ids,
                lines,
                plan,
                axis,
                origin,
                k,
                m,
            ),
        forall|m: int|
            0 <= m < ids.len() ==> main <= main_near(start.dims(#[trigger] ids[m]), axis),
    ensures
        ({
            let (a, b) = (lines[k].0 as int, lines[k].1 as int);
            let cross = plan.cross.subrange(a, b);
            let r = line_crossed(
                cv,
                items.subrange(a, b),
                ids.subrange(a, b),
                cross,
                cross_places(cross, plan.lines[k].cross),
                j,
                axis,
                line_near(plan, k, axis, origin),
                plan.lines[k],
            );
            crossed_so_far(start, r, ids, ends, axis, main, origin, b)
        }),
    decreases lines[k].1 - lines[k].0 - j,
{
    let (a, b) = (lines[k].0 as int, lines[k].1 as int);
    let m = a + j;
    if j < b - a {
        let cross = plan.cross.subrange(a, b);
        let line = plan.lines[k];
        let placed = cross_places(cross, line.cross);
        let near = line_near(plan, k, axis, origin);
        let some = items.subrange(a, b);
        assert(some[j] == items[m]);
        assert(ids.subrange(a, b)[j] == ids[m]);
        assert(can_be_crossed(start, items, ids, lines, plan, axis, origin, k, m));
        assert(plot(cv.boxes, ids[m], ends[m]));
        assert(cv.boxes[ids[m].0 as int] == start.boxes[ids[m].0 as int]);
        same_span(start, cv, items[m], ids[m], cross[j], placed[j], axis, line);
        one_item_is_crossed(
            cv,
            ids,
            ends,
            m,
            items[m],
            cross[j],
            placed[j],
            axis,
            near,
            line,
        );
        let next = crossed(cv, items[m], ids[m], cross[j], placed[j], axis, near, line);
        assert forall|i: int| 0 <= i < m + 1 implies {
            &&& main <= main_near(next.dims(#[trigger] ids[i]), axis)
            &&& origin <= cross_near(next.dims(ids[i]), axis)
        } by {
            if i < m {
                assert(next.boxes[ids[i].0 as int] == cv.boxes[ids[i].0 as int]);
                assert(main <= main_near(cv.dims(ids[i]), axis));
            } else {
                assert(main <= main_near(start.dims(ids[i]), axis));
            }
        }
        assert forall|i: int| m + 1 <= i < ids.len() implies next.boxes[(
        #[trigger] ids[i]).0 as int] == start.boxes[ids[i].0 as int] by {
            assert(next.boxes[ids[i].0 as int] == cv.boxes[ids[i].0 as int]);
        }
        a_line_is_crossed(
            start,
            next,
            items,
            ids,
            ends,
            lines,
            plan,
            axis,
            main,
            origin,
            k,
            j + 1,
        );
    }
}

proof fn same_span(
    a: Canvas,
    b: Canvas,
    item: FlexItem,
    id: BoxId,
    ci: CrossItem,
    p: CrossPlaced,
    axis: FlexAxis,
    line: PlacedLine,
)
    requires
        id.0 < a.boxes.len(),
        a.boxes.len() == b.boxes.len(),
        a.boxes[id.0 as int] == b.boxes[id.0 as int],
    ensures
        span_across(a, item, id, ci, p, axis, line) == span_across(
            b,
            item,
            id,
            ci,
            p,
            axis,
            line,
        ),
{
    reveal(stretched);
}

#[verifier::rlimit(60)]
proof fn all_lines_are_crossed(
    start: Canvas,
    cv: Canvas,
    items: Seq<FlexItem>,
    ids: Seq<BoxId>,
    ends: Seq<nat>,
    lines: Seq<(usize, usize)>,
    plan: CrossPlan,
    axis: FlexAxis,
    main: i32,
    origin: i32,
    k: int,
)
    requires
        0 <= k <= lines.len(),
        ids.len() == items.len(),
        lines_are_consecutive(lines, 0, items.len() as int),
        crossed_so_far(
            start,
            cv,
            ids,
            ends,
            axis,
            main,
            origin,
            if k < lines.len() {
                lines[k].0 as int
            } else {
                items.len() as int
            },
        ),
        forall|l: int, m: int|
            0 <= l < lines.len() && lines[l].0 <= m < lines[l].1 ==> #[trigger] can_be_crossed(
                start,
                items,
                ids,
                lines,
                plan,
                axis,
                origin,
                l,
                m,
            ),
        forall|m: int|
            0 <= m < ids.len() ==> main <= main_near(start.dims(#[trigger] ids[m]), axis),
    ensures
        crossed_so_far(
            start,
            lines_crossed(cv, items, ids, lines, plan, k, axis, origin),
            ids,
            ends,
            axis,
            main,
            origin,
            items.len() as int,
        ),
    decreases lines.len() - k,
{
    if k < lines.len() {
        assert(lines[k].0 < lines[k].1 <= items.len());
        a_line_is_crossed(
            start,
            cv,
            items,
            ids,
            ends,
            lines,
            plan,
            axis,
            main,
            origin,
            k,
            0,
        );
        let (a, b) = (lines[k].0 as int, lines[k].1 as int);
        let cross = plan.cross.subrange(a, b);
        let next = line_crossed(
            cv,
            items.subrange(a, b),
            ids.subrange(a, b),
            cross,
            cross_places(cross, plan.lines[k].cross),
            0,
            axis,
            line_near(plan, k, axis, origin),
            plan.lines[k],
        );
        all_lines_are_crossed(
            start,
            next,
            items,
            ids,
            ends,
            lines,
            plan,
            axis,
            main,
            origin,
            k + 1,
        );
    }
}

// ---- rows ------------------------------------------------------------------

proof fn lengths_make_edges(c: ComputedStyle, w: i32)
    ensures
        is_edge(c.margin.left.to_cells_h(w)) && is_edge(c.margin.top.to_cells_v(w)),
        is_edge(c.border.left.to_cells_h(w)) && is_edge(c.border.top.to_cells_v(w)),
        is_edge(c.padding.left.to_cells_h(w)) && is_edge(c.padding.top.to_cells_v(w)),
        -0x10_0000 <= c.margin.left.to_cells_h(w) <= 0x10_0000,
        -0x10_0000 <= c.border.left.to_cells_h(w) <= 0x10_0000,
        -0x10_0000 <= c.padding.left.to_cells_h(w) <= 0x10_0000,
        -0x10_0000 <= c.margin.top.to_cells_v(w) <= 0x10_0000,
        -0x10_0000 <= c.border.top.to_cells_v(w) <= 0x10_0000,
        -0x10_0000 <= c.padding.top.to_cells_v(w) <= 0x10_0000,
{
    lengths_are_capped(c.margin.left, w);
    lengths_are_capped(c.margin.top, w);
    lengths_are_capped(c.border.left, w);
    lengths_are_capped(c.border.top, w);
    lengths_are_capped(c.padding.left, w);
    lengths_are_capped(c.padding.top, w);
}

proof fn resolved_edges(c: ComputedStyle, w: i32)
    ensures
        ({
            let d = resolve_block_dims(&c, w, None);
            &&& d.padding == padding_of(&c, w)
            &&& d.border == border_of(&c, w)
            &&& d.margin.top == margin_of(&c, w).top
            &&& !c.margin.left.is_auto() ==> d.margin.left == margin_of(&c, w).left
        }),
{
}

impl<'a> Ctx<'a> {
    /// A row item's box starts where the line placed it, and is as wide as the
    /// line made it.
    pub proof fn a_row_item_is_placed(
        &self,
        rec: Recipe,
        h: nat,
        cv: Canvas,
        item: FlexItem,
        source: SourceView,
        p: ItemPlacement,
        env: FlexEnv,
    )
        requires
            self.wf(),
            self.is_flowing(),
            self.builds_behind(rec, h),
            self.is_flowing_source(source, h),
            !lays_out_as_grid(&item.computed),
            !env.pre,
            is_near(p.near),
            is_edge(p.auto_near),
            is_edge(env.content.y),
            self.row_box(rec, cv, item, source, p, env).0.boxes.len() <= usize::MAX,
        ensures
            ({
                let (next, id) = self.row_box(rec, cv, item, source, p, env);
                &&& is_tame(next.dims(id))
                &&& next.dims(id).margin_box().x == p.near
                &&& next.dims(id).content.width == p.main_size
            }),
    {
        reveal(Ctx::row_box);
        match source {
            SourceView::Element(node) => {
                assert(self.flows_or_flexes(node));
                lengths_make_edges(item.computed, env.content.width);
                resolved_edges(item.computed, env.content.width);
            },
            SourceView::Text(nodes) => {
                self.text_runs_are_text(nodes, p.main_size, 0);
                self.a_run_is_rooted(
                    rec,
                    cv,
                    p.near,
                    p.main_size,
                    env.content.y,
                    0,
                    self.run_items(nodes, p.main_size, 0),
                    env.style.text_align,
                );
            },
        }
    }

    /// A line of a row laid out: each item a plot of its own, none before the
    /// container.
    #[verifier::rlimit(100)]
    #[verifier::spinoff_prover]
    proof fn a_row_is_placed(
        &self,
        rec: Recipe,
        h: nat,
        n: nat,
        start: Seq<BoxView>,
        cv: Canvas,
        items: Seq<FlexItem>,
        sources: Seq<SourceView>,
        plan: LinePlan,
        j: int,
        env: FlexEnv,
        main: i32,
        children: Seq<BoxId>,
        ends: Seq<nat>,
        origin: i32,
    ) -> (later: Seq<nat>)
        requires
            self.wf(),
            self.is_flowing(),
            self.builds_behind(rec, h),
            self.sources_flow(sources, h),
            !env.pre,
            !env.axis.vertical,
            0 <= j <= items.len(),
            behind(n, start, cv, children),
            items_behind(n, items, sources.len(), cv),
            forall|i: int| 0 <= i < items.len() ==> (#[trigger] items[i]).built is None,
            is_edge(env.content.y),
            forall|i: int|
                0 <= i < items.len() ==> is_placed(#[trigger] placement(plan, i, env, main), origin),
            plots(cv.boxes, children, ends),
            all_placed(cv, children, env.axis, origin),
            self.line_laid(
                rec,
                cv,
                items,
                sources,
                plan,
                j,
                env,
                main,
                children,
            ).0.boxes.len() <= usize::MAX,
        ensures
            ({
                let (end, ids) = self.line_laid(
                    rec,
                    cv,
                    items,
                    sources,
                    plan,
                    j,
                    env,
                    main,
                    children,
                );
                &&& plots(end.boxes, ids, later)
                &&& all_placed(end, ids, env.axis, origin)
            }),
        decreases items.len() - j,
    {
        if j < items.len() {
            assert(items[j].source < sources.len());
            assert(items[j].built is None);
            let p = placement(plan, j, env, main);
            let source = sources[items[j].source as int];
            assert(self.is_flowing_source(source, h));
            assert(is_placed(placement(plan, j, env, main), origin));
            let (cv2, id) = self.row_box(rec, cv, items[j], source, p, env);
            self.a_row_item_is_rooted(rec, h, cv, items[j], source, p, env);
            one_tree_more(n, start, cv, children, cv2, id);
            items_stay_behind(n, items, sources.len(), cv, cv2);
            let more = children.push(id);
            self.a_line_is_behind(
                rec,
                h,
                n,
                start,
                cv2,
                items,
                sources,
                plan,
                j + 1,
                env,
                main,
                more,
            );
            self.a_row_item_is_placed(rec, h, cv, items[j], source, p, env);
            one_plot_more(cv.boxes, cv2.boxes, children, ends, id);
            assert(all_placed(cv2, more, env.axis, origin)) by {
                assert forall|k: int| 0 <= k < more.len() implies is_tame(
                    cv2.dims(#[trigger] more[k]),
                ) && origin <= main_near(cv2.dims(more[k]), env.axis) by {
                    if k < children.len() {
                        assert(plot(cv.boxes, children[k], ends[k]));
                        assert(cv2.boxes[children[k].0 as int] == cv.boxes[children[k].0 as int]);
                        assert(is_tame(cv.dims(children[k])));
                    }
                }
            }
            self.a_row_is_placed(
                rec,
                h,
                n,
                start,
                cv2,
                items,
                sources,
                plan,
                j + 1,
                env,
                main,
                more,
                ends.push(cv2.boxes.len()),
                origin,
            )
        } else {
            ends
        }
    }

    #[verifier::rlimit(100)]
    #[verifier::spinoff_prover]
    proof fn rows_are_placed(
        &self,
        rec: Recipe,
        h: nat,
        n: nat,
        start: Seq<BoxView>,
        cv: Canvas,
        items: Seq<FlexItem>,
        sources: Seq<SourceView>,
        lines: Seq<(usize, usize)>,
        k: int,
        env: FlexEnv,
        main: i32,
        gap: i32,
        children: Seq<BoxId>,
        ends: Seq<nat>,
        origin: i32,
    ) -> (later: Seq<nat>)
        requires
            self.wf(),
            self.is_flowing(),
            self.builds_behind(rec, h),
            self.sources_flow(sources, h),
            !env.pre,
            !env.axis.vertical,
            0 <= k <= lines.len(),
            lines_are_consecutive(lines, 0, items.len() as int),
            children.len() == (if k < lines.len() {
                lines[k].0 as int
            } else {
                items.len() as int
            }),
            behind(n, start, cv, children),
            items_behind(n, items, sources.len(), cv),
            forall|i: int| 0 <= i < items.len() ==> (#[trigger] items[i]).built is None,
            is_edge(env.content.y),
            lines_are_placed(items, lines, env, main, gap, origin),
            plots(cv.boxes, children, ends),
            all_placed(cv, children, env.axis, origin),
            self.lines_laid(
                rec,
                cv,
                items,
                sources,
                lines,
                k,
                env,
                main,
                gap,
                children,
            ).0.boxes.len() <= usize::MAX,
        ensures
            ({
                let (end, ids) = self.lines_laid(
                    rec,
                    cv,
                    items,
                    sources,
                    lines,
                    k,
                    env,
                    main,
                    gap,
                    children,
                );
                &&& plots(end.boxes, ids, later)
                &&& all_placed(end, ids, env.axis, origin)
            }),
        decreases lines.len() - k,
    {
        if k < lines.len() {
            assert(lines[k].0 < lines[k].1 <= items.len());
            let line = items.subrange(lines[k].0 as int, lines[k].1 as int);
            let plan = plan_line(line, env, main, gap);
            part_of_items_behind(n, items, sources.len(), cv, lines[k].0 as int, lines[k].1 as int);
            assert forall|i: int| 0 <= i < line.len() implies (#[trigger] line[i]).built is None by {
                assert(line[i] == items[lines[k].0 + i]);
            }
            assert forall|i: int| 0 <= i < line.len() implies is_placed(
                #[trigger] placement(plan, i, env, main),
                origin,
            ) by {
                assert(line_is_placed(items, lines, env, main, gap, origin, k));
            }
            self.a_line_is_behind(
                rec,
                h,
                n,
                start,
                cv,
                line,
                sources,
                plan,
                0,
                env,
                main,
                children,
            );
            let (cv2, next) = self.line_laid(
                rec,
                cv,
                line,
                sources,
                plan,
                0,
                env,
                main,
                children,
            );
            items_stay_behind(n, items, sources.len(), cv, cv2);
            self.lines_are_behind(
                rec,
                h,
                n,
                start,
                cv2,
                items,
                sources,
                lines,
                k + 1,
                env,
                main,
                gap,
                next,
            );
            let later = self.a_row_is_placed(
                rec,
                h,
                n,
                start,
                cv,
                line,
                sources,
                plan,
                0,
                env,
                main,
                children,
                ends,
                origin,
            );
            self.rows_are_placed(
                rec,
                h,
                n,
                start,
                cv2,
                items,
                sources,
                lines,
                k + 1,
                env,
                main,
                gap,
                next,
                later,
                origin,
            )
        } else {
            ends
        }
    }
}

/// A place on the main axis that is in the container and can be counted.
pub open spec fn is_placed(p: ItemPlacement, origin: i32) -> bool {
    origin <= p.near && is_near(p.near) && is_edge(p.auto_near) && is_edge(p.auto_far)
}

/// Every item of line `k` is placed in the container.
pub open spec fn line_is_placed(
    items: Seq<FlexItem>,
    lines: Seq<(usize, usize)>,
    env: FlexEnv,
    main: i32,
    gap: i32,
    origin: i32,
    k: int,
) -> bool {
    let line = items.subrange(lines[k].0 as int, lines[k].1 as int);
    let plan = plan_line(line, env, main, gap);
    forall|i: int| 0 <= i < line.len() ==> is_placed(#[trigger] placement(plan, i, env, main), origin)
}

pub open spec fn lines_are_placed(
    items: Seq<FlexItem>,
    lines: Seq<(usize, usize)>,
    env: FlexEnv,
    main: i32,
    gap: i32,
    origin: i32,
) -> bool {
    forall|k: int|
        0 <= k < lines.len() ==> #[trigger] line_is_placed(
            items,
            lines,
            env,
            main,
            gap,
            origin,
            k,
        )
}

/// Boxes that start in the container on its main axis, with edges that can be
/// added up.
pub open spec fn all_placed(cv: Canvas, ids: Seq<BoxId>, axis: FlexAxis, origin: i32) -> bool {
    forall|k: int|
        0 <= k < ids.len() ==> is_tame(cv.dims(#[trigger] ids[k])) && origin <= main_near(
            cv.dims(ids[k]),
            axis,
        )
}

// ---- columns ---------------------------------------------------------------

/// A column item's box has the edges of its style above it.
pub open spec fn edges_match(d: Dimensions, c: ComputedStyle, w: i32) -> bool {
    &&& d.border.top == edge_v(c.border.top, w)
    &&& d.padding.top == edge_v(c.padding.top, w)
    &&& !c.margin.top.is_auto() ==> d.margin.top == edge_v(c.margin.top, w)
}

/// The boxes of items that are built.
pub open spec fn built_of(items: Seq<FlexItem>) -> Seq<BoxId> {
    items.map_values(|i: FlexItem| i.built->0)
}

/// Items built and ready to be placed.
pub open spec fn all_ready(cv: Canvas, items: Seq<FlexItem>, from: int, w: i32) -> bool {
    forall|k: int|
        from <= k < items.len() ==> {
            &&& (#[trigger] items[k]).built is Some
            &&& is_tame(cv.dims(items[k].built->0))
            &&& edges_match(cv.dims(items[k].built->0), items[k].computed, w)
        }
}

impl<'a> Ctx<'a> {
    proof fn a_column_item_is_ready(
        &self,
        rec: Recipe,
        h: nat,
        cv: Canvas,
        source: SourceView,
        k: usize,
        env: FlexEnv,
    )
        requires
            self.wf(),
            self.is_flowing(),
            self.builds_behind(rec, h),
            self.is_flowing_source(source, h),
            !env.pre,
            is_edge(env.content.x),
            is_edge(env.content.y),
            self.column_item(rec, cv, source, k, env).0.boxes.len() <= usize::MAX,
        ensures
            ({
                let (next, item) = self.column_item(rec, cv, source, k, env);
                &&& is_tame(next.dims(item.built->0))
                &&& edges_match(next.dims(item.built->0), item.computed, env.content.width)
            }),
    {
        reveal(Ctx::column_item);
        let w = env.content.width;
        match source {
            SourceView::Element(node) => {
                reveal(Ctx::column_box);
                assert(self.flows_or_flexes(node));
                let c = self.style(node);
                lengths_make_edges(c, w);
                resolved_edges(c, w);
            },
            SourceView::Text(nodes) => {
                let (min, max) = self.run_widths_of(nodes);
                let cross = if column_cross_align(env.style.align_items) is Stretch
                    && !env.axis.wraps {
                    env.content.width
                } else {
                    shrink_to_fit(min, max, env.content.width)
                };
                self.text_runs_are_text(nodes, cross, 0);
                self.a_run_is_rooted(
                    rec,
                    cv,
                    env.content.x,
                    cross,
                    env.content.y,
                    0,
                    self.run_items(nodes, cross, 0),
                    env.style.text_align,
                );
            },
        }
    }

    #[verifier::rlimit(100)]
    #[verifier::spinoff_prover]
    proof fn column_items_are_plotted(
        &self,
        rec: Recipe,
        h: nat,
        n: nat,
        start: Seq<BoxView>,
        cv: Canvas,
        sources: Seq<SourceView>,
        k: int,
        env: FlexEnv,
        items: Seq<FlexItem>,
        ends: Seq<nat>,
    ) -> (later: Seq<nat>)
        requires
            self.wf(),
            self.is_flowing(),
            self.builds_behind(rec, h),
            self.sources_flow(sources, h),
            sources.len() <= usize::MAX,
            0 <= k <= sources.len(),
            !env.pre,
            env.axis.vertical,
            items.len() == k,
            behind(n, start, cv, Seq::empty()),
            items_behind(n, items, sources.len(), cv),
            is_edge(env.content.x),
            is_edge(env.content.y),
            plots(cv.boxes, built_of(items), ends),
            all_ready(cv, items, 0, env.content.width),
            self.flex_items_from(rec, cv, sources, k, env, items).0.boxes.len() <= usize::MAX,
        ensures
            ({
                let (end, all) = self.flex_items_from(rec, cv, sources, k, env, items);
                &&& plots(end.boxes, built_of(all), later)
                &&& all_ready(end, all, 0, env.content.width)
            }),
        decreases sources.len() - k,
    {
        if k < sources.len() {
            assert(self.is_flowing_source(sources[k], h));
            let none = Seq::<BoxId>::empty();
            let (cv2, item) = self.column_item(rec, cv, sources[k], k as usize, env);
            self.a_column_item_is_rooted(rec, h, cv, sources[k], k as usize, env);
            let id = item.built->0;
            one_tree_more(n, start, cv, none, cv2, id);
            items_stay_behind(n, items, sources.len(), cv, cv2);
            let next = items.push(item);
            assert(items_behind(n, next, sources.len(), cv2));
            self.flex_items_are_behind(rec, h, n, start, cv2, sources, k + 1, env, next);
            self.a_column_item_is_ready(rec, h, cv, sources[k], k as usize, env);
            let ids = built_of(items);
            one_plot_more(cv.boxes, cv2.boxes, ids, ends, id);
            assert(built_of(next) =~= ids.push(id));
            assert(all_ready(cv2, next, 0, env.content.width)) by {
                assert forall|m: int| 0 <= m < next.len() implies {
                    &&& (#[trigger] next[m]).built is Some
                    &&& is_tame(cv2.dims(next[m].built->0))
                    &&& edges_match(
                        cv2.dims(next[m].built->0),
                        next[m].computed,
                        env.content.width,
                    )
                } by {
                    if m < items.len() {
                        assert(next[m] == items[m]);
                        assert(items[m].built is Some);
                        assert(ids[m] == items[m].built->0);
                        assert(plot(cv.boxes, ids[m], ends[m]));
                        assert(cv2.boxes[ids[m].0 as int] == cv.boxes[ids[m].0 as int]);
                    }
                }
            }
            self.column_items_are_plotted(
                rec,
                h,
                n,
                start,
                cv2,
                sources,
                k + 1,
                env,
                next,
                ends.push(cv2.boxes.len()),
            )
        } else {
            ends
        }
    }

    /// A column item's box starts where the line placed it, and is as tall as the
    /// line made it.
    #[verifier::rlimit(60)]
    pub proof fn a_column_item_is_placed(
        &self,
        cv: Canvas,
        ids: Seq<BoxId>,
        ends: Seq<nat>,
        m: int,
        item: FlexItem,
        axis: FlexAxis,
        p: ItemPlacement,
        origin: i32,
    )
        requires
            plots(cv.boxes, ids, ends),
            0 <= m < ids.len(),
            axis.vertical,
            is_tame(cv.dims(ids[m])),
            edges_match(cv.dims(ids[m]), item.computed, axis.width),
            is_placed(p, origin),
        ensures
            ({
                let r = column_placed(cv, ids[m], item, axis, p);
                &&& only_plot(cv, r, ids, ends, m)
                &&& plots(r.boxes, ids, ends)
                &&& is_tame(r.dims(ids[m]))
                &&& main_near(r.dims(ids[m]), axis) == p.near
                &&& r.dims(ids[m]).content.height == p.main_size
            }),
    {
        reveal(column_placed);
        let id = ids[m];
        let c = item.computed;
        let w = axis.width;
        lengths_make_edges(c, w);
        let margin_top = if c.margin.top.is_auto() {
            p.auto_near
        } else {
            edge_v(c.margin.top, w)
        };
        let y = plus(
            plus(plus(p.near, margin_top), edge_v(c.border.top, w)),
            edge_v(c.padding.top, w),
        );
        let dy = minus(y, cv.dims(id).content.y);
        let r = column_placed(cv, id, item, axis, p);
        a_plot_is_placed(cv, ids, ends, m, 0, dy, r.dims(id));
        assert(r == cv.moved(id, 0, dy).with_dims(id, r.dims(id)));
        assert(cv.moved(id, 0, dy).dims(id).content.y == y);
    }

    /// A line of a column put in its place.
    #[verifier::rlimit(100)]
    #[verifier::spinoff_prover]
    proof fn a_column_is_placed(
        &self,
        rec: Recipe,
        cv: Canvas,
        all: Seq<FlexItem>,
        ends: Seq<nat>,
        sources: Seq<SourceView>,
        plan: LinePlan,
        a: int,
        b: int,
        j: int,
        env: FlexEnv,
        main: i32,
        origin: i32,
    )
        requires
            0 <= a <= b <= all.len(),
            0 <= j <= b - a,
            env.axis.vertical,
            env.axis.width == env.content.width,
            plots(cv.boxes, built_of(all), ends),
            all_ready(cv, all, a + j, env.content.width),
            all_placed(cv, built_of(all).take(a + j), env.axis, origin),
            forall|i: int|
                0 <= i < b - a ==> is_placed(#[trigger] placement(plan, i, env, main), origin),
        ensures
            ({
                let (end, ids) = self.line_laid(
                    rec,
                    cv,
                    all.subrange(a, b),
                    sources,
                    plan,
                    j,
                    env,
                    main,
                    built_of(all).take(a + j),
                );
                &&& ids == built_of(all).take(b)
                &&& plots(end.boxes, built_of(all), ends)
                &&& all_ready(end, all, b, env.content.width)
                &&& all_placed(end, ids, env.axis, origin)
            }),
        decreases b - a - j,
    {
        let ids = built_of(all);
        let line = all.subrange(a, b);
        let m = a + j;
        if j < b - a {
            assert(line[j] == all[m]);
            assert(all[m].built is Some);
            let id = all[m].built->0;
            assert(ids[m] == id);
            assert(is_placed(placement(plan, j, env, main), origin));
            let p = placement(plan, j, env, main);
            self.a_column_item_is_placed(cv, ids, ends, m, all[m], env.axis, p, origin);
            let next = column_placed(cv, id, all[m], env.axis, p);
            assert(ids.take(m).push(id) =~= ids.take(m + 1));
            assert(all_ready(next, all, m + 1, env.content.width)) by {
                assert forall|k: int| m + 1 <= k < all.len() implies {
                    &&& (#[trigger] all[k]).built is Some
                    &&& is_tame(next.dims(all[k].built->0))
                    &&& edges_match(
                        next.dims(all[k].built->0),
                        all[k].computed,
                        env.content.width,
                    )
                } by {
                    assert(ids[k] == all[k].built->0);
                    assert(next.boxes[ids[k].0 as int] == cv.boxes[ids[k].0 as int]);
                }
            }
            let done = ids.take(m + 1);
            assert(all_placed(next, done, env.axis, origin)) by {
                assert forall|k: int| 0 <= k < done.len() implies is_tame(
                    next.dims(#[trigger] done[k]),
                ) && origin <= main_near(next.dims(done[k]), env.axis) by {
                    assert(done[k] == ids[k]);
                    if k < m {
                        assert(ids.take(m)[k] == ids[k]);
                        assert(next.boxes[ids[k].0 as int] == cv.boxes[ids[k].0 as int]);
                    }
                }
            }
            self.a_column_is_placed(
                rec,
                next,
                all,
                ends,
                sources,
                plan,
                a,
                b,
                j + 1,
                env,
                main,
                origin,
            );
        }
    }

    #[verifier::rlimit(100)]
    #[verifier::spinoff_prover]
    proof fn columns_are_placed(
        &self,
        rec: Recipe,
        cv: Canvas,
        all: Seq<FlexItem>,
        ends: Seq<nat>,
        sources: Seq<SourceView>,
        lines: Seq<(usize, usize)>,
        k: int,
        env: FlexEnv,
        main: i32,
        gap: i32,
        origin: i32,
    )
        requires
            0 <= k <= lines.len(),
            env.axis.vertical,
            env.axis.width == env.content.width,
            lines_are_consecutive(lines, 0, all.len() as int),
            lines_are_placed(all, lines, env, main, gap, origin),
            plots(cv.boxes, built_of(all), ends),
            ({
                let at = if k < lines.len() {
                    lines[k].0 as int
                } else {
                    all.len() as int
                };
                &&& all_ready(cv, all, at, env.content.width)
                &&& all_placed(cv, built_of(all).take(at), env.axis, origin)
            }),
        ensures
            ({
                let at = if k < lines.len() {
                    lines[k].0 as int
                } else {
                    all.len() as int
                };
                let (end, ids) = self.lines_laid(
                    rec,
                    cv,
                    all,
                    sources,
                    lines,
                    k,
                    env,
                    main,
                    gap,
                    built_of(all).take(at),
                );
                &&& ids == built_of(all)
                &&& plots(end.boxes, ids, ends)
                &&& all_placed(end, ids, env.axis, origin)
            }),
        decreases lines.len() - k,
    {
        let ids = built_of(all);
        if k < lines.len() {
            assert(lines[k].0 < lines[k].1 <= all.len());
            let (a, b) = (lines[k].0 as int, lines[k].1 as int);
            let line = all.subrange(a, b);
            let plan = plan_line(line, env, main, gap);
            assert(line_is_placed(all, lines, env, main, gap, origin, k));
            assert forall|i: int| 0 <= i < b - a implies is_placed(
                #[trigger] placement(plan, i, env, main),
                origin,
            ) by {}
            self.a_column_is_placed(
                rec,
                cv,
                all,
                ends,
                sources,
                plan,
                a,
                b,
                0,
                env,
                main,
                origin,
            );
            let (cv2, next) = self.line_laid(
                rec,
                cv,
                line,
                sources,
                plan,
                0,
                env,
                main,
                ids.take(a),
            );
            self.columns_are_placed(
                rec,
                cv2,
                all,
                ends,
                sources,
                lines,
                k + 1,
                env,
                main,
                gap,
                origin,
            );
        } else {
            assert(ids.take(all.len() as int) =~= ids);
        }
    }
}

/// Plots in another order are plots.
proof fn ordering_keeps_plots(boxes: Seq<BoxView>, items: Seq<FlexItem>, ends: Seq<nat>) -> (later:
    Seq<nat>)
    requires
        plots(boxes, built_of(items), ends),
        items.len() <= usize::MAX,
    ensures
        plots(boxes, built_of(in_order(items)), later),
{
    let keys = items.map_values(|i: FlexItem| i.order as i128);
    sorting_sorts(keys, keys.len() as int);
    let order = sorted_indices(keys, keys.len() as int);
    let sorted = in_order(items);
    let ids = built_of(sorted);
    let later = order.map_values(|i: usize| ends[i as int]);
    assert forall|k: int| 0 <= k < ids.len() implies plot(boxes, #[trigger] ids[k], later[k]) by {
        assert(order[k] < keys.len());
        assert(sorted[k] == items[order[k] as int]);
        assert(plot(boxes, built_of(items)[order[k] as int], ends[order[k] as int]));
    }
    assert forall|j: int, k: int|
        0 <= j < ids.len() && 0 <= k < ids.len() && j != k implies later[j] <= (
    #[trigger] ids[k]).0 || later[k] <= (#[trigger] ids[j]).0 by {
        assert(order[j] < keys.len() && order[k] < keys.len());
        if j < k {
            assert(keys[order[j] as int] == keys[order[k] as int] ==> order[j] < order[k]);
        } else {
            assert(keys[order[k] as int] == keys[order[j] as int] ==> order[k] < order[j]);
        }
        let (p, q) = (order[j] as int, order[k] as int);
        assert(sorted[j] == items[p] && sorted[k] == items[q]);
        assert(built_of(items)[p] == ids[j] && built_of(items)[q] == ids[k]);
        assert(ends[p] <= built_of(items)[q].0 || ends[q] <= built_of(items)[p].0);
    }
    later
}

proof fn ordering_keeps_ready(cv: Canvas, items: Seq<FlexItem>, w: i32)
    requires
        all_ready(cv, items, 0, w),
        items.len() <= usize::MAX,
    ensures
        all_ready(cv, in_order(items), 0, w),
        in_order(items).len() == items.len(),
{
    let keys = items.map_values(|i: FlexItem| i.order as i128);
    sorting_sorts(keys, keys.len() as int);
    let order = sorted_indices(keys, keys.len() as int);
    let sorted = in_order(items);
    assert forall|k: int| 0 <= k < sorted.len() implies {
        &&& (#[trigger] sorted[k]).built is Some
        &&& is_tame(cv.dims(sorted[k].built->0))
        &&& edges_match(cv.dims(sorted[k].built->0), sorted[k].computed, w)
    } by {
        assert(order[k] < keys.len());
        assert(sorted[k] == items[order[k] as int]);
    }
}

// ---- the container ---------------------------------------------------------

/// A number of cells that can be added to others.
pub open spec fn has_room(v: int) -> bool {
    0 <= v <= 0x0800_0000
}

/// On the main axis no item is less than nothing long, and what the items of a
/// line take can be counted.
pub open spec fn line_has_room(
    items: Seq<FlexItem>,
    lines: Seq<(usize, usize)>,
    env: FlexEnv,
    main: i32,
    gap: i32,
    k: int,
) -> bool {
    let line = items.subrange(lines[k].0 as int, lines[k].1 as int);
    let slots = plan_line(line, env, main, gap).slots;
    line_fits_a_number(slots, gap, main) && has_room(line_needs(slots, gap))
}

/// Across the container no item is less than nothing big, its baseline lies in
/// it, and what it takes can be counted.
pub open spec fn item_has_room(
    cv: Canvas,
    items: Seq<FlexItem>,
    ids: Seq<BoxId>,
    lines: Seq<(usize, usize)>,
    plan: CrossPlan,
    axis: FlexAxis,
    k: int,
    m: int,
) -> bool {
    let (a, b) = (lines[k].0 as int, lines[k].1 as int);
    let line = plan.lines[k];
    let ci = plan.cross[m];
    let p = cross_places(plan.cross.subrange(a, b), line.cross)[m - a];
    &&& has_room(ci.outer as int)
    &&& by_baseline(ci) ==> 0 <= ci.baseline <= ci.outer
    &&& has_room(span_across(cv, items[m], ids[m], ci, p, axis, line) as int)
}

proof fn baselines_have_room(items: Seq<CrossItem>, n: int)
    requires
        0 <= n <= items.len(),
        forall|j: int|
            0 <= j < n && by_baseline(#[trigger] items[j]) ==> has_room(items[j].baseline as int),
    ensures
        has_room(deepest_baseline(items, n) as int),
    decreases n,
{
    if n > 0 {
        baselines_have_room(items, n - 1);
        assert(by_baseline(items[n - 1]) ==> has_room(items[n - 1].baseline as int));
    }
}

proof fn reaches_are_not_negative(items: Seq<CrossItem>, deepest: i32, n: int)
    requires
        0 <= n <= items.len(),
    ensures
        0 <= reach_across(items, deepest, n),
    decreases n,
{
    if n > 0 {
        reaches_are_not_negative(items, deepest, n - 1);
    }
}

proof fn a_line_with_room_is_placed(
    items: Seq<FlexItem>,
    lines: Seq<(usize, usize)>,
    env: FlexEnv,
    main: i32,
    gap: i32,
    k: int,
)
    requires
        0 <= k < lines.len(),
        lines[k].0 < lines[k].1 <= items.len(),
        line_has_room(items, lines, env, main, gap, k),
        main <= 0x0800_0000,
        is_edge(main_origin(env)),
    ensures
        line_is_placed(items, lines, env, main, gap, main_origin(env), k),
{
    reveal(plan_line);
    let line = items.subrange(lines[k].0 as int, lines[k].1 as int);
    let plan = plan_line(line, env, main, gap);
    let origin = main_origin(env);
    assert(plan.slots.len() == line.len());
    assert forall|i: int| 0 <= i < line.len() implies is_placed(
        #[trigger] placement(plan, i, env, main),
        origin,
    ) by {
        no_item_is_placed_before_its_container(line, env, main, gap, i);
        an_aligned_line_neither_overlaps_nor_overflows(
            plan.slots,
            gap,
            main,
            env.style.justify_content,
            i,
        );
        assert(plan.slots[i].outer >= 0);
    }
}

#[verifier::rlimit(60)]
proof fn an_item_with_room_is_crossed(
    cv: Canvas,
    items: Seq<FlexItem>,
    ids: Seq<BoxId>,
    lines: Seq<(usize, usize)>,
    env: FlexEnv,
    bid: BoxId,
    heights: BlockHeight,
    origin: i32,
    k: int,
    m: int,
)
    requires
        0 <= k < lines.len(),
        lines[k].0 <= m < lines[k].1 <= items.len(),
        ids.len() == items.len(),
        is_edge(origin),
        is_tame(cv.dims(ids[m])),
        env.axis.cross_reverse && !env.axis.vertical ==> env.axis.wraps,
        ({
            let plan = plan_cross(cv, items, ids, lines, env, bid, heights);
            &&& has_room(plan.inner as int) && has_room(plan.occupied as int)
            &&& forall|i: int|
                lines[k].0 <= i < lines[k].1 ==> #[trigger] item_has_room(
                    cv,
                    items,
                    ids,
                    lines,
                    plan,
                    env.axis,
                    k,
                    i,
                )
        }),
    ensures
        can_be_crossed(
            cv,
            items,
            ids,
            lines,
            plan_cross(cv, items, ids, lines, env, bid, heights),
            env.axis,
            origin,
            k,
            m,
        ),
{
    let plan = plan_cross(cv, items, ids, lines, env, bid, heights);
    let gap = env.axis.cross_gap(env.style.gap);
    let sizes = sizes_across(plan, lines, env.axis.wraps);
    let own = line_sizes(plan.cross, lines);
    let (a, b) = (lines[k].0 as int, lines[k].1 as int);
    let axis = env.axis;
    assert forall|i: int| 0 <= i < sizes.len() implies #[trigger] sizes[i] >= 0 by {
        let some = plan.cross.subrange(lines[i].0 as int, lines[i].1 as int);
        if own[i] == sizes[i] && some.len() >= 0 {
            sizes_are_not_negative(some);
        }
    }
    let free = larger(minus(plan.inner, lines_used(sizes, gap)), 0);
    stacked_lines_follow(sizes, gap, free, env.style.align_content, 0, 0, k);
    stacked_lines_keep_their_size(sizes, gap, free, env.style.align_content, 0, 0, k);
    assert(plan.lines == stacked(sizes, gap, plan.inner, env.style.align_content));
    let line = plan.lines[k];
    assert(has_room(line.cross_start as int) && has_room(line.cross as int));
    no_line_is_placed_before_its_container(cv, items, ids, lines, env, bid, heights, origin, k);
    let near = line_near(plan, k, axis, origin);
    let some = plan.cross.subrange(a, b);
    let j = m - a;
    assert(item_has_room(cv, items, ids, lines, plan, axis, k, m));
    assert(some[j] == plan.cross[m]);
    assert forall|i: int| 0 <= i < some.len() && by_baseline(#[trigger] some[i]) implies has_room(
        some[i].baseline as int,
    ) by {
        assert(item_has_room(cv, items, ids, lines, plan, axis, k, a + i));
        assert(some[i] == plan.cross[a + i]);
    }
    baselines_have_room(some, some.len() as int);
    let p = cross_places(some, line.cross)[j];
    let room = larger(minus(line.cross, some[j].outer), 0);
    a_share_is_some_of_it(room, 2, 0);
    a_share_is_some_of_it(room, 2, 1);
    a_share_is_some_of_it(room, 1, 0);
    let span = span_across(cv, items[m], ids[m], some[j], p, axis, line);
    assert(some[j].outer == axis.cross_outer(cv.dims(ids[m])));
    no_item_is_placed_before_its_line(some, line, axis, near, span, j);
}

proof fn sizes_are_not_negative(items: Seq<CrossItem>)
    ensures
        0 <= line_cross_size(items),
{
    let n = items.len() as int;
    reaches_are_not_negative(items, deepest_baseline(items, n), n);
}

/// Every line and every item of a container has room, along it and across it.
pub open spec fn all_have_room(
    cv: Canvas,
    items: Seq<FlexItem>,
    ids: Seq<BoxId>,
    lines: Seq<(usize, usize)>,
    env: FlexEnv,
    bid: BoxId,
    heights: BlockHeight,
    main: i32,
    gap: i32,
) -> bool {
    let plan = plan_cross(cv, items, ids, lines, env, bid, heights);
    &&& is_edge(env.content.x) && is_edge(env.content.y)
    &&& main <= 0x0800_0000
    &&& forall|k: int|
        0 <= k < lines.len() ==> #[trigger] line_has_room(items, lines, env, main, gap, k)
    &&& has_room(plan.inner as int) && has_room(plan.occupied as int)
    &&& forall|k: int, m: int|
        0 <= k < lines.len() && lines[k].0 <= m < lines[k].1 ==> #[trigger] item_has_room(
            cv,
            items,
            ids,
            lines,
            plan,
            env.axis,
            k,
            m,
        )
}

impl<'a> Ctx<'a> {
    /// The numbers of a flex container leave room for one another: no item of it
    /// is less than nothing big, and their sums can be counted.
    pub open spec fn flex_has_room(
        &self,
        rec: Recipe,
        cv: Canvas,
        id: NodeId,
        computed: ComputedStyle,
        bid: BoxId,
        heights: BlockHeight,
    ) -> bool {
        let content = cv.dims(bid).content;
        let axis = FlexAxis::of(
            computed.flex_direction,
            computed.flex_wrap,
            content.width,
            heights,
        );
        let env = FlexEnv { axis, style: computed, content, height: heights.specified, pre: false };
        let sources = self.sources_of(id, false);
        let none = Seq::<FlexItem>::empty();
        let (cv1, found) = self.flex_items_from(rec, cv, sources, 0, env, none);
        let items = in_order(found);
        let gap = axis.main_gap(computed.gap);
        let main = self.inner_main(cv1, items, bid, env, heights, gap);
        let metrics = items.map_values(|i: FlexItem| i.metrics);
        let lines = lines_from(metrics, main, gap, axis.wraps, 0);
        let (cv2, ids) = self.lines_laid(
            rec,
            cv1,
            items,
            sources,
            lines,
            0,
            env,
            main,
            gap,
            Seq::empty(),
        );
        all_have_room(cv2, items, ids, lines, env, bid, heights, main, gap)
    }

    proof fn row_items_are_not_built(
        &self,
        rec: Recipe,
        cv: Canvas,
        sources: Seq<SourceView>,
        k: int,
        env: FlexEnv,
        items: Seq<FlexItem>,
    )
        requires
            !env.axis.vertical,
            0 <= k <= sources.len(),
            forall|i: int| 0 <= i < items.len() ==> (#[trigger] items[i]).built is None,
        ensures
            ({
                let all = self.flex_items_from(rec, cv, sources, k, env, items).1;
                forall|i: int| 0 <= i < all.len() ==> (#[trigger] all[i]).built is None
            }),
        decreases sources.len() - k,
    {
        if k < sources.len() {
            reveal(Ctx::row_item);
            self.row_items_are_not_built(
                rec,
                cv,
                sources,
                k + 1,
                env,
                items.push(self.row_item(sources[k], k as usize, env.axis)),
            );
        }
    }

    /// The boxes of a container's items, laid out on their lines.
    #[verifier::rlimit(100)]
    #[verifier::spinoff_prover]
    proof fn flex_lines_are_placed(
        &self,
        rec: Recipe,
        h: nat,
        n: nat,
        cv: Canvas,
        sources: Seq<SourceView>,
        env: FlexEnv,
        lines: Seq<(usize, usize)>,
        main: i32,
        gap: i32,
    ) -> (ends: Seq<nat>)
        requires
            self.wf(),
            self.is_flowing(),
            self.builds_behind(rec, h),
            self.sources_flow(sources, h),
            sources.len() <= usize::MAX,
            !env.pre,
            env.axis.width == env.content.width,
            behind(n, cv.boxes, cv, Seq::empty()),
            is_edge(env.content.x) && is_edge(env.content.y),
            ({
                let none = Seq::<FlexItem>::empty();
                let (cv1, found) = self.flex_items_from(rec, cv, sources, 0, env, none);
                let items = in_order(found);
                let (cv2, ids) = self.lines_laid(
                    rec,
                    cv1,
                    items,
                    sources,
                    lines,
                    0,
                    env,
                    main,
                    gap,
                    Seq::empty(),
                );
                &&& lines_are_consecutive(lines, 0, items.len() as int)
                &&& lines_are_placed(items, lines, env, main, gap, main_origin(env))
                &&& cv2.boxes.len() <= usize::MAX
            }),
        ensures
            ({
                let none = Seq::<FlexItem>::empty();
                let (cv1, found) = self.flex_items_from(rec, cv, sources, 0, env, none);
                let items = in_order(found);
                let (cv2, ids) = self.lines_laid(
                    rec,
                    cv1,
                    items,
                    sources,
                    lines,
                    0,
                    env,
                    main,
                    gap,
                    Seq::empty(),
                );
                &&& plots(cv2.boxes, ids, ends)
                &&& all_placed(cv2, ids, env.axis, main_origin(env))
            }),
    {
        let none = Seq::<FlexItem>::empty();
        let no_ids = Seq::<BoxId>::empty();
        let no_ends = Seq::<nat>::empty();
        let origin = main_origin(env);
        self.flex_items_are_behind(rec, h, n, cv.boxes, cv, sources, 0, env, none);
        let (cv1, found) = self.flex_items_from(rec, cv, sources, 0, env, none);
        let items = in_order(found);
        ordering_keeps_items_behind(n, found, sources.len(), cv1);
        self.lines_are_behind(
            rec,
            h,
            n,
            cv.boxes,
            cv1,
            items,
            sources,
            lines,
            0,
            env,
            main,
            gap,
            no_ids,
        );
        if env.axis.vertical {
            assert(built_of(none) =~= no_ids);
            let ends = self.column_items_are_plotted(
                rec,
                h,
                n,
                cv.boxes,
                cv,
                sources,
                0,
                env,
                none,
                no_ends,
            );
            let later = ordering_keeps_plots(cv1.boxes, found, ends);
            ordering_keeps_ready(cv1, found, env.content.width);
            let at = if lines.len() > 0 {
                lines[0].0 as int
            } else {
                items.len() as int
            };
            assert(at == 0);
            assert(built_of(items).take(at) =~= no_ids);
            self.columns_are_placed(
                rec,
                cv1,
                items,
                later,
                sources,
                lines,
                0,
                env,
                main,
                gap,
                origin,
            );
            later
        } else {
            self.row_items_are_not_built(rec, cv, sources, 0, env, none);
            ordering_keeps_rows(found);
            self.rows_are_placed(
                rec,
                h,
                n,
                cv.boxes,
                cv1,
                items,
                sources,
                lines,
                0,
                env,
                main,
                gap,
                no_ids,
                no_ends,
                origin,
            )
        }
    }
}

proof fn ordering_keeps_rows(items: Seq<FlexItem>)
    requires
        forall|i: int| 0 <= i < items.len() ==> (#[trigger] items[i]).built is None,
        items.len() <= usize::MAX,
    ensures
        forall|i: int|
            0 <= i < in_order(items).len() ==> (#[trigger] in_order(items)[i]).built is None,
{
    let keys = items.map_values(|i: FlexItem| i.order as i128);
    sorting_sorts(keys, keys.len() as int);
    let order = sorted_indices(keys, keys.len() as int);
    let sorted = in_order(items);
    assert forall|i: int| 0 <= i < sorted.len() implies (#[trigger] sorted[i]).built is None by {
        assert(order[i] < keys.len());
        assert(sorted[i] == items[order[i] as int]);
    }
}

/// Boxes that start at or past the near edges of a container's content.
pub open spec fn none_before(cv: Canvas, ids: Seq<BoxId>, content: Rect) -> bool {
    forall|k: int|
        0 <= k < ids.len() ==> content.x <= cv.dims(#[trigger] ids[k]).margin_box().x && content.y
            <= cv.dims(ids[k]).margin_box().y
}

impl<'a> Ctx<'a> {
    #[verifier::rlimit(100)]
    #[verifier::spinoff_prover]
    proof fn flex_contents_stay_inside(
        &self,
        rec: Recipe,
        h: nat,
        n: nat,
        cv: Canvas,
        id: NodeId,
        computed: ComputedStyle,
        bid: BoxId,
        heights: BlockHeight,
    )
        requires
            self.wf(),
            self.is_flowing(),
            self.builds_behind(rec, h),
            self.dom.has(id),
            self.dom.height(id) <= h,
            bid.0 < n <= cv.boxes.len(),
            sealed(n, cv.boxes),
            cv.boxes[bid.0 as int].children.len() == 0,
            self.flex_has_room(rec, cv, id, computed, bid, heights),
            self.flex_contents(rec, cv, id, computed, bid, heights, false).0.boxes.len()
                <= usize::MAX,
        ensures
            ({
                let r = self.flex_contents(rec, cv, id, computed, bid, heights, false).0;
                &&& r.dims(bid) == cv.dims(bid)
                &&& all_from(n, r.boxes[bid.0 as int].children, r.boxes.len())
                &&& none_before(r, r.boxes[bid.0 as int].children, cv.dims(bid).content)
            }),
    {
        reveal(Ctx::flex_contents);
        reveal(cross_aligned);
        let content = cv.dims(bid).content;
        let axis = FlexAxis::of(
            computed.flex_direction,
            computed.flex_wrap,
            content.width,
            heights,
        );
        let env = FlexEnv { axis, style: computed, content, height: heights.specified, pre: false };
        let none = Seq::<FlexItem>::empty();
        let no_ids = Seq::<BoxId>::empty();
        let kids = self.dom.kids(id);
        let sources = self.sources_of(id, false);
        self.kids_are_low(id);
        assert(self.nodes_low(kids, h)) by {
            assert forall|k: int| 0 <= k < kids.len() implies self.low(#[trigger] kids[k], h) by {
                assert(self.low(kids[k], self.dom.height(id)));
            }
        }
        self.kids_make_flowing_sources(kids, 0, Seq::empty(), h);
        assert(self.dom.nodes@[id.0 as int].children@.len() <= self.dom.nodes@.len());
        self.no_more_sources_than_kids(kids, false, 0, Seq::empty());
        self.flex_items_are_behind(rec, h, n, cv.boxes, cv, sources, 0, env, none);
        let (cv1, found) = self.flex_items_from(rec, cv, sources, 0, env, none);
        if found.len() == 0 {
            assert(cv1.boxes[bid.0 as int] == cv.boxes[bid.0 as int]);
        } else {
            let items = in_order(found);
            ordering_keeps_items_behind(n, found, sources.len(), cv1);
            let gap = axis.main_gap(computed.gap);
            let main = self.inner_main(cv1, items, bid, env, heights, gap);
            let metrics = items.map_values(|i: FlexItem| i.metrics);
            let lines = lines_from(metrics, main, gap, axis.wraps, 0);
            items_are_lined_up(metrics, main, gap, axis.wraps, 0);
            self.lines_are_behind(
                rec,
                h,
                n,
                cv.boxes,
                cv1,
                items,
                sources,
                lines,
                0,
                env,
                main,
                gap,
                no_ids,
            );
            let (cv2, ids) = self.lines_laid(
                rec,
                cv1,
                items,
                sources,
                lines,
                0,
                env,
                main,
                gap,
                no_ids,
            );
            let plan = plan_cross(cv2, items, ids, lines, env, bid, heights);
            let c2 = cv2.dims(bid).content;
            let origin = if axis.vertical {
                c2.x
            } else {
                c2.y
            };
            let cv3 = lines_crossed(cv2, items, ids, lines, plan, 0, axis, origin);
            lines_crossed_stay_behind(n, cv.boxes, cv2, items, ids, lines, plan, 0, axis, origin);
            assert(behind(n, cv2.boxes, cv2, ids));
            lines_crossed_stay_behind(n, cv2.boxes, cv2, items, ids, lines, plan, 0, axis, origin);
            self.no_flowing_kid_leaves(id, 0);
            let r = self.flex_contents(rec, cv, id, computed, bid, heights, false).0;
            assert(r == cv3.with_children(bid, ids));
            assert(cv2.boxes[bid.0 as int] == cv.boxes[bid.0 as int]);
            assert(cv3.boxes[bid.0 as int] == cv.boxes[bid.0 as int]);
            assert(lines_are_placed(items, lines, env, main, gap, main_origin(env))) by {
                assert forall|k: int| 0 <= k < lines.len() implies #[trigger] line_is_placed(
                    items,
                    lines,
                    env,
                    main,
                    gap,
                    main_origin(env),
                    k,
                ) by {
                    assert(lines[k].0 < lines[k].1 <= items.len());
                    assert(line_has_room(items, lines, env, main, gap, k));
                    a_line_with_room_is_placed(items, lines, env, main, gap, k);
                }
            }
            let ends = self.flex_lines_are_placed(rec, h, n, cv, sources, env, lines, main, gap);
            assert forall|k: int, m: int|
                0 <= k < lines.len() && lines[k].0 <= m < lines[k].1 implies
                #[trigger] can_be_crossed(
                cv2,
                items,
                ids,
                lines,
                plan,
                axis,
                origin,
                k,
                m,
            ) by {
                assert(lines[k].0 < lines[k].1 <= items.len());
                assert(is_tame(cv2.dims(ids[m])));
                an_item_with_room_is_crossed(
                    cv2,
                    items,
                    ids,
                    lines,
                    env,
                    bid,
                    heights,
                    origin,
                    k,
                    m,
                );
            }
            all_lines_are_crossed(
                cv2,
                cv2,
                items,
                ids,
                ends,
                lines,
                plan,
                axis,
                main_origin(env),
                origin,
                0,
            );
            assert forall|k: int| 0 <= k < ids.len() implies content.x <= r.dims(
                #[trigger] ids[k],
            ).margin_box().x && content.y <= r.dims(ids[k]).margin_box().y by {
                assert(n <= ids[k].0 < cv3.boxes.len());
                assert(r.dims(ids[k]) == cv3.dims(ids[k]));
                assert(main_origin(env) <= main_near(cv3.dims(ids[k]), axis));
                assert(origin <= cross_near(cv3.dims(ids[k]), axis));
            }
        }
    }

    /// No box of a laid-out flex container starts before it: whichever way its
    /// axes run, reversed or not, and however much overflows, the margin box of
    /// every child lies at or past the near edges of the container's content, on
    /// both axes. What is before them no amount of scrolling would reach.
    #[verifier::rlimit(60)]
    pub proof fn no_box_lands_before_its_flex_container(
        &self,
        viewport: i32,
        fuel: nat,
        a: BoxArgs,
    )
        requires
            self.wf(),
            self.is_flowing(),
            self.dom.has(a.id),
            self.dom.height(a.id) <= fuel,
            self.dom.is_element(a.id),
            !self.hides(a.id),
            !a.pre,
            lays_out_as_flex(&a.computed),
            self.flex_has_room(
                self.builder(viewport, (fuel - 1) as nat),
                a.cv.with_box(self.bare_box(a.id, a.computed, a.dims)),
                a.id,
                a.computed,
                a.cv.next_id(),
                heights_of(a.dims, &a.computed, a.ch),
            ),
            self.box_at(viewport, fuel, a).cv.boxes.len() <= usize::MAX,
        ensures
            ({
                let b = self.box_at(viewport, fuel, a);
                none_before(b.cv, b.cv.boxes[b.id.0 as int].children, b.cv.dims(b.id).content)
            }),
    {
        reveal(Ctx::box_with);
        reveal(Ctx::any_contents);
        reveal(Ctx::contents);
        let h = self.dom.height(a.id);
        let rec = self.builder(viewport, (fuel - 1) as nat);
        assert(self.flows_or_flexes(a.id));
        self.a_builder_builds_behind(viewport, (fuel - 1) as nat, h);
        let with = a.cv.with_box(self.bare_box(a.id, a.computed, a.dims));
        let bid = a.cv.next_id();
        let heights = heights_of(a.dims, &a.computed, a.ch);
        let n = a.cv.boxes.len() + 1;
        let full = self.flex_contents(rec, with, a.id, a.computed, bid, heights, false).0;
        let b = self.box_at(viewport, fuel, a);
        self.contents_are_behind(rec, h, n, with, a.id, a.computed, bid, heights);
        let laid = self.any_contents(rec, with, a.id, a.computed, bid, heights, false);
        assert(laid.0 == full);
        assert(b.cv.boxes.len() == full.boxes.len());
        self.flex_contents_stay_inside(rec, h, n, with, a.id, a.computed, bid, heights);
        let ids = full.boxes[bid.0 as int].children;
        assert(b.cv.boxes[bid.0 as int].children == ids);
        assert forall|k: int| 0 <= k < ids.len() implies b.cv.dims(bid).content.x <= b.cv.dims(
            #[trigger] ids[k],
        ).margin_box().x && b.cv.dims(bid).content.y <= b.cv.dims(ids[k]).margin_box().y by {
            assert(n <= ids[k].0 < full.boxes.len());
            assert(b.cv.dims(ids[k]) == full.dims(ids[k]));
        }
    }
}

} // verus!
