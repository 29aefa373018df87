//! No axis, reversed or not, puts an item before its container.
//!
//! A reversed axis starts at the far edge and counts back. It counts from the
//! far edge of the content where that overflows, so nothing lands before the
//! near edge, where no amount of scrolling would reach it.

use vstd::prelude::*;

use crate::boxes::BoxId;
use crate::blocks::BlockHeight;
use crate::boxmodel::from_far_edge;
use crate::cells::{larger, minus, plus};
use crate::engine::Canvas;
use crate::flex::{
    by_baseline, cross_places, deepest_baseline, line_cross_size, lines_used, reach_across,
    room_before, share, stacked, stacked_from, CrossItem, CrossPlaced, PlacedLine,
};
use crate::flex_laws::{
    an_aligned_line_neither_overlaps_nor_overflows, line_fits_a_number, line_needs, slot_end,
};
use crate::flexbox::{
    line_sizes, placement, plan_cross, plan_line, CrossPlan, FlexAxis, FlexEnv, FlexItem,
};
use crate::style::{AlignContent, JustifyContent};

verus! {

/// The near edge of a container's content on its main axis.
pub open spec fn main_origin(env: FlexEnv) -> i32 {
    if env.axis.vertical {
        env.content.y
    } else {
        env.content.x
    }
}

/// On the main axis every item of a line is placed at or past the near edge of
/// its container, whichever way the axis runs and however much the line
/// overflows.
pub proof fn no_item_is_placed_before_its_container(
    items: Seq<FlexItem>,
    env: FlexEnv,
    inner_main: i32,
    gap: i32,
    j: int,
)
    requires
        0 <= j < items.len(),
        line_fits_a_number(plan_line(items, env, inner_main, gap).slots, gap, inner_main),
        main_origin(env) + line_needs(plan_line(items, env, inner_main, gap).slots, gap)
            <= i32::MAX,
        main_origin(env) + inner_main <= i32::MAX,
    ensures
        placement(plan_line(items, env, inner_main, gap), j, env, inner_main).near >= main_origin(
            env,
        ),
{
    reveal(plan_line);
    let plan = plan_line(items, env, inner_main, gap);
    assert(plan.slots.len() == items.len());
    an_aligned_line_neither_overlaps_nor_overflows(
        plan.slots,
        gap,
        inner_main,
        env.style.justify_content,
        j,
    );
    let p = plan.placed[j];
    let end = slot_end(plan.slots, plan.placed, j);
    assert(0 <= p.main_start <= end);
    assert(plan.slots[j].outer >= 0);
    let outer = plus(plus(plan.slots[j].outer, p.auto_start), p.auto_end);
    assert(p.main_start + outer == end);
    assert(end <= larger(inner_main, plan.used));
}

/// Where line `k` of a container starts across it.
pub open spec fn line_near(plan: CrossPlan, k: int, axis: FlexAxis, origin: i32) -> i32 {
    if axis.cross_reverse {
        from_far_edge(
            origin,
            plan.inner,
            plan.occupied,
            plan.lines[k].cross_start,
            plan.lines[k].cross,
        )
    } else {
        plus(origin, plan.lines[k].cross_start)
    }
}

pub(crate) proof fn a_share_is_some_of_it(free: i32, slots: int, i: int)
    requires
        0 <= i,
    ensures
        0 <= share(free, slots, i) <= larger(free, 0),
{
    if slots > 0 && free > 0 {
        let f = free as int;
        let q = f / slots;
        let r = f % slots;
        vstd::arithmetic::div_mod::lemma_fundamental_div_mod(f, slots);
        vstd::arithmetic::div_mod::lemma_mod_bound(f, slots);
        assert(0 <= q && (r > 0 ==> q + 1 <= f) && q <= f) by (nonlinear_arith)
            requires
                f == slots * q + r,
                0 <= r < slots,
                0 < slots,
                0 < f,
        ;
    }
}

proof fn room_is_not_negative(justify: JustifyContent, n: int, free: i32, i: int)
    requires
        0 <= i,
    ensures
        0 <= room_before(justify, n, free, i),
{
    a_share_is_some_of_it(free, 2, 0);
    a_share_is_some_of_it(free, 2 * n, 0);
    a_share_is_some_of_it(free, 2 * n, 2 * i);
    a_share_is_some_of_it(free, n + 1, i);
    if i > 0 {
        a_share_is_some_of_it(free, n - 1, i - 1);
        a_share_is_some_of_it(free, 2 * n, 2 * i - 1);
    }
}

/// Stacked lines follow one another: none starts before the first, and each
/// ends no later than the last does.
pub(crate) proof fn stacked_lines_follow(
    lines: Seq<i32>,
    gap: i32,
    free: i32,
    align: AlignContent,
    i: int,
    cursor: i32,
    k: int,
)
    requires
        0 <= i <= k < lines.len(),
        gap >= 0,
        cursor >= 0,
        forall|m: int| 0 <= m < lines.len() ==> #[trigger] lines[m] >= 0,
    ensures
        ({
            let p = stacked_from(lines, gap, free, align, i, cursor);
            &&& p.len() == lines.len() - i
            &&& cursor <= p[k - i].cross_start
            &&& 0 <= p[k - i].cross
            &&& plus(p[k - i].cross_start, p[k - i].cross) <= plus(
                p.last().cross_start,
                p.last().cross,
            )
        }),
    decreases lines.len() - i,
{
    let n = lines.len() as int;
    assert(lines[i] >= 0);
    a_share_is_some_of_it(free, n, i);
    if let AlignContent::Pack(justify) = align {
        room_is_not_negative(justify, n, free, i);
    }
    let (at, cross): (i32, i32) = match align {
        AlignContent::Stretch => (cursor, plus(lines[i], share(free, n, i))),
        AlignContent::Pack(justify) => (plus(cursor, room_before(justify, n, free, i)), lines[i]),
    };
    let next = plus(plus(at, cross), gap);
    let p = stacked_from(lines, gap, free, align, i, cursor);
    let rest = stacked_from(lines, gap, free, align, i + 1, next);
    assert(p[0] == (PlacedLine { cross_start: at, cross }));
    if i + 1 < n {
        stacked_lines_follow(
            lines,
            gap,
            free,
            align,
            i + 1,
            next,
            if k > i {
                k
            } else {
                i + 1
            },
        );
        assert(p.last() == rest.last());
        if k > i {
            assert(p[k - i] == rest[k - i - 1]);
        }
    } else {
        assert(rest.len() == 0);
    }
}

/// A line that is packed or stretched is at least as big as it asked to be.
pub(crate) proof fn stacked_lines_keep_their_size(
    lines: Seq<i32>,
    gap: i32,
    free: i32,
    align: AlignContent,
    i: int,
    cursor: i32,
    k: int,
)
    requires
        0 <= i <= k < lines.len(),
    ensures
        stacked_from(lines, gap, free, align, i, cursor).len() == lines.len() - i,
        stacked_from(lines, gap, free, align, i, cursor)[k - i].cross >= lines[k],
    decreases lines.len() - i,
{
    let n = lines.len() as int;
    a_share_is_some_of_it(free, n, i);
    let (at, cross): (i32, i32) = match align {
        AlignContent::Stretch => (cursor, plus(lines[i], share(free, n, i))),
        AlignContent::Pack(justify) => (plus(cursor, room_before(justify, n, free, i)), lines[i]),
    };
    let next = plus(plus(at, cross), gap);
    let p = stacked_from(lines, gap, free, align, i, cursor);
    let rest = stacked_from(lines, gap, free, align, i + 1, next);
    assert(p[0] == (PlacedLine { cross_start: at, cross }));
    if i + 1 < n {
        stacked_lines_keep_their_size(
            lines,
            gap,
            free,
            align,
            i + 1,
            next,
            if k > i {
                k
            } else {
                i + 1
            },
        );
        if k > i {
            assert(p[k - i] == rest[k - i - 1]);
        }
    } else {
        assert(rest.len() == 0);
    }
}

/// How big a line is to be across its container.
pub open spec fn sizes_across(plan: CrossPlan, lines: Seq<(usize, usize)>, wraps: bool) -> Seq<i32> {
    let own = line_sizes(plan.cross, lines);
    if wraps {
        own
    } else {
        own.update(0, plan.inner)
    }
}

/// Across a container every line of it starts at or past the near edge, whichever
/// way the lines are stacked and however much they overflow.
pub proof fn no_line_is_placed_before_its_container(
    cv: Canvas,
    items: Seq<FlexItem>,
    ids: Seq<BoxId>,
    lines: Seq<(usize, usize)>,
    env: FlexEnv,
    bid: BoxId,
    heights: BlockHeight,
    origin: i32,
    k: int,
)
    requires
        0 <= k < lines.len(),
        env.axis.cross_gap(env.style.gap) >= 0,
        ({
            let plan = plan_cross(cv, items, ids, lines, env, bid, heights);
            let sizes = sizes_across(plan, lines, env.axis.wraps);
            &&& forall|m: int| 0 <= m < sizes.len() ==> #[trigger] sizes[m] >= 0
            &&& origin + larger(plan.inner, plan.occupied) <= i32::MAX
            &&& plan.lines[k].cross_start + plan.lines[k].cross <= i32::MAX
        }),
    ensures
        line_near(plan_cross(cv, items, ids, lines, env, bid, heights), k, env.axis, origin)
            >= origin,
{
    let plan = plan_cross(cv, items, ids, lines, env, bid, heights);
    let gap = env.axis.cross_gap(env.style.gap);
    let sizes = sizes_across(plan, lines, env.axis.wraps);
    assert(sizes.len() == lines.len());
    let free = larger(minus(plan.inner, lines_used(sizes, gap)), 0);
    stacked_lines_follow(sizes, gap, free, env.style.align_content, 0, 0, k);
    assert(plan.lines == stacked(sizes, gap, plan.inner, env.style.align_content));
}

/// Where an item starts across its line: `span` is what it takes there.
pub open spec fn item_near(
    p: CrossPlaced,
    axis: FlexAxis,
    near: i32,
    line: PlacedLine,
    span: i32,
) -> i32 {
    if axis.cross_reverse {
        from_far_edge(near, line.cross, span, p.cross_start, span)
    } else {
        plus(near, p.cross_start)
    }
}

proof fn baselines_are_no_deeper(items: Seq<CrossItem>, n: int, j: int)
    requires
        0 <= j < n <= items.len(),
        by_baseline(items[j]),
    ensures
        items[j].baseline <= deepest_baseline(items, n),
    decreases n,
{
    if j < n - 1 {
        baselines_are_no_deeper(items, n - 1, j);
    }
}

proof fn a_line_reaches_its_items(items: Seq<CrossItem>, deepest: i32, n: int, j: int)
    requires
        0 <= j < n <= items.len(),
        by_baseline(items[j]),
    ensures
        plus(deepest, minus(items[j].outer, items[j].baseline)) <= reach_across(items, deepest, n),
    decreases n,
{
    if j < n - 1 {
        a_line_reaches_its_items(items, deepest, n - 1, j);
    }
}

/// Across its line every item starts at or past the line's near edge: one that
/// overflows the line starts there, and one that hangs from the shared baseline
/// has room on a line that was made to hold it.
pub proof fn no_item_is_placed_before_its_line(
    items: Seq<CrossItem>,
    line: PlacedLine,
    axis: FlexAxis,
    near: i32,
    span: i32,
    j: int,
)
    requires
        0 <= j < items.len(),
        ({
            let p = cross_places(items, line.cross)[j];
            &&& 0 <= items[j].outer
            &&& 0 <= line.cross
            &&& near + larger(line.cross, span) <= i32::MAX
            &&& items[j].align is Stretch || span == items[j].outer + p.auto_start + p.auto_end
            &&& 0 <= span
            &&& by_baseline(items[j]) ==> {
                &&& axis.cross_reverse ==> line_cross_size(items) <= line.cross
                &&& 0 <= items[j].baseline <= items[j].outer
                &&& deepest_baseline(items, items.len() as int) + items[j].outer <= i32::MAX
            }
        }),
    ensures
        item_near(cross_places(items, line.cross)[j], axis, near, line, span) >= near,
{
    let n = items.len() as int;
    let item = items[j];
    let p = cross_places(items, line.cross)[j];
    let free = larger(minus(line.cross, item.outer), 0);
    a_share_is_some_of_it(free, 2, 0);
    a_share_is_some_of_it(free, 2, 1);
    a_share_is_some_of_it(free, 1, 0);
    if by_baseline(item) {
        baselines_are_no_deeper(items, n, j);
        a_line_reaches_its_items(items, deepest_baseline(items, n), n, j);
    }
}

} // verus!
