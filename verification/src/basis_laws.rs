//! What a flex item starts from, in which order the items come, and how far one
//! is stretched.

use vstd::prelude::*;

use crate::blocks::BlockHeight;
use crate::boxes::BoxId;
use crate::engine::Canvas;
use crate::flexbox::{in_order, item_metrics, stretched, FlexAxis, FlexItem};
use crate::order::{sorted_indices, sorting_sorts};
use crate::position_laws::is_mild;
use crate::render_laws::every_index_is_sorted;
use crate::style::{lengths_are_capped, ComputedStyle, FlexBasis, FlexDirection, FlexWrap};

verus! {

/// An axis runs as the direction says: across for a row and down for a column,
/// backwards where it is reversed. What wraps in reverse is stacked from the far
/// side. A column wraps only where it has an edge to wrap at.
pub proof fn an_axis_runs_as_its_direction_says(
    direction: FlexDirection,
    wrap: FlexWrap,
    width: i32,
    heights: BlockHeight,
)
    ensures
        ({
            let a = FlexAxis::of(direction, wrap, width, heights);
            &&& !a.vertical <==> direction is Row || direction is RowReverse
            &&& a.reverse <==> direction is RowReverse || direction is ColumnReverse
            &&& a.cross_reverse <==> wrap is WrapReverse
            &&& wrap is NoWrap ==> !a.wraps
            &&& !(wrap is NoWrap) && !a.vertical ==> a.wraps
            &&& !(wrap is NoWrap) && a.vertical ==> (a.wraps <==> heights.specified is Some
                || heights.max is Some)
            &&& a.width == width
        }),
{
}

/// The margin that comes first on an axis is the one on the side it starts from.
pub proof fn margins_follow_the_axis(axis: FlexAxis, c: ComputedStyle)
    ensures
        ({
            let (first, last) = axis.main_margins(&c);
            let (top, bottom) = axis.cross_margins(&c);
            &&& !axis.vertical && !axis.reverse ==> first == c.margin.left && last == c.margin.right
            &&& !axis.vertical && axis.reverse ==> first == c.margin.right && last == c.margin.left
            &&& axis.vertical && !axis.reverse ==> first == c.margin.top && last == c.margin.bottom
            &&& axis.vertical && axis.reverse ==> first == c.margin.bottom && last == c.margin.top
            &&& !axis.vertical && !axis.cross_reverse ==> top == c.margin.top && bottom
                == c.margin.bottom
            &&& !axis.vertical && axis.cross_reverse ==> top == c.margin.bottom && bottom
                == c.margin.top
            &&& axis.vertical && !axis.cross_reverse ==> top == c.margin.left && bottom
                == c.margin.right
            &&& axis.vertical && axis.cross_reverse ==> top == c.margin.right && bottom
                == c.margin.left
        }),
{
}

/// No less than nothing.
pub open spec fn not_below_zero(n: i32) -> int {
    if n >= 0 {
        n as int
    } else {
        0
    }
}

/// An item of a row starts from its basis; without one from its width; and
/// without that from what its content wants. Its width bounds it as its style
/// says; where that says nothing it can be no narrower than its content, or its
/// own width if that is less, unless it clips. Its edges are its margins, border
/// and padding together.
pub proof fn a_row_item_starts_from_its_basis(
    c: ComputedStyle,
    axis: FlexAxis,
    content: (i32, i32),
)
    requires
        !axis.vertical,
        c.box_sizing is ContentBox,
        0 <= content.0 <= content.1,
    ensures
        ({
            let w = axis.width;
            let item = item_metrics(&c, axis, content);
            let asked = not_below_zero(c.width.to_cells_h(w));
            let high = not_below_zero(c.max_width.to_cells_h(w));
            let low = not_below_zero(c.min_width.to_cells_h(w));
            &&& c.flex.basis is Content ==> item.base == content.1
            &&& c.flex.basis is Auto && c.width.is_auto() ==> item.base == content.1
            &&& c.flex.basis is Auto && !c.width.is_auto() ==> item.base == asked
            &&& c.flex.basis matches FlexBasis::Size(len) ==> item.base == (if len.is_auto() {
                content.1 as int
            } else {
                not_below_zero(len.to_cells_h(w))
            })
            &&& c.max_width.is_auto() ==> item.max is None
            &&& !c.max_width.is_auto() ==> item.max is Some && item.max->0 == high
            &&& !c.min_width.is_auto() ==> item.min == low
            &&& c.min_width.is_auto() && c.overflow_x.clips() ==> item.min == 0
            &&& c.min_width.is_auto() && !c.overflow_x.clips() ==> {
                &&& item.min <= content.0
                &&& !c.width.is_auto() ==> item.min <= asked
                &&& !c.max_width.is_auto() ==> item.min <= high
                &&& item.min == content.0 || (!c.width.is_auto() && item.min == asked) || (
                !c.max_width.is_auto() && item.min == high)
            }
            &&& item.grow == c.flex.grow && item.shrink == c.flex.shrink
            &&& item.outer_edges == c.margin.left.to_cells_h(w) + c.margin.right.to_cells_h(w)
                + c.border.left.to_cells_h(w) + c.border.right.to_cells_h(w)
                + c.padding.left.to_cells_h(w) + c.padding.right.to_cells_h(w)
            &&& item.min <= item.hypothetical && 0 <= item.hypothetical
            &&& item.min <= item.base && 0 <= item.base && (item.max is None || item.base
                <= item.max->0) ==> item.hypothetical == item.base
        }),
{
    let w = axis.width;
    lengths_are_capped(c.margin.left, w);
    lengths_are_capped(c.margin.right, w);
    lengths_are_capped(c.border.left, w);
    lengths_are_capped(c.border.right, w);
    lengths_are_capped(c.padding.left, w);
    lengths_are_capped(c.padding.right, w);
}

/// An item of a column starts from its basis; without one from its height; and
/// without that from how tall its content is. A height or a basis that is a
/// percentage counts only where its container's height is known.
pub proof fn a_column_item_starts_from_its_basis(
    c: ComputedStyle,
    axis: FlexAxis,
    content: (i32, i32),
)
    requires
        axis.vertical,
        c.box_sizing is ContentBox,
        0 <= content.0 <= content.1,
    ensures
        ({
            let w = axis.width;
            let item = item_metrics(&c, axis, content);
            let plain = !c.height.is_auto() && !c.height.is_percent();
            let asked = not_below_zero(c.height.to_lines(0));
            &&& c.flex.basis is Content ==> item.base == content.1
            &&& c.flex.basis is Auto && c.height.is_auto() ==> item.base == content.1
            &&& c.flex.basis is Auto && plain ==> item.base == asked
            &&& c.flex.basis is Auto && c.height.is_percent() ==> item.base == (
            match axis.main_base {
                None => content.1 as int,
                Some(h) => not_below_zero(c.height.to_lines(h)),
            })
            &&& c.flex.basis matches FlexBasis::Size(len) ==> (!len.is_auto() && !len.is_percent()
                ==> item.base == not_below_zero(len.to_lines(0)))
            &&& c.max_height.is_auto() ==> item.max is None
            &&& !c.max_height.is_auto() && !c.max_height.is_percent() ==> item.max is Some
                && item.max->0 == not_below_zero(c.max_height.to_lines(0))
            &&& !c.min_height.is_auto() && !c.min_height.is_percent() ==> item.min
                == not_below_zero(c.min_height.to_lines(0))
            &&& c.min_height.is_auto() && c.overflow_y.clips() ==> item.min == 0
            &&& c.min_height.is_auto() && !c.overflow_y.clips() && c.height.is_auto()
                && c.max_height.is_auto() ==> item.min == content.0
            &&& item.grow == c.flex.grow && item.shrink == c.flex.shrink
            &&& item.outer_edges == c.margin.top.to_cells_v(w) + c.margin.bottom.to_cells_v(w)
                + c.border.top.to_cells_v(w) + c.border.bottom.to_cells_v(w)
                + c.padding.top.to_cells_v(w) + c.padding.bottom.to_cells_v(w)
        }),
{
    let w = axis.width;
    lengths_are_capped(c.margin.top, w);
    lengths_are_capped(c.margin.bottom, w);
    lengths_are_capped(c.border.top, w);
    lengths_are_capped(c.border.bottom, w);
    lengths_are_capped(c.padding.top, w);
    lengths_are_capped(c.padding.bottom, w);
}

/// Items come by their `order`, and those of one order as they stand in the
/// document; each comes once, and none is left out.
pub proof fn items_come_by_their_order(items: Seq<FlexItem>, i: int, j: int, k: int) -> (at: (
    int,
    int,
))
    requires
        items.len() <= usize::MAX,
        0 <= i < j < items.len(),
        0 <= k < items.len(),
    ensures
        ({
            let r = in_order(items);
            &&& r.len() == items.len()
            &&& r[i].order <= r[j].order
            &&& 0 <= at.0 < items.len() && r[i] == items[at.0]
            &&& 0 <= at.1 < items.len() && r[j] == items[at.1]
            &&& at.0 != at.1
            &&& r[i].order == r[j].order ==> at.0 < at.1
            &&& r.contains(items[k])
        }),
{
    let keys = items.map_values(|i: FlexItem| i.order as i128);
    let n = items.len() as int;
    sorting_sorts(keys, n);
    let order = sorted_indices(keys, n);
    let r = in_order(items);
    assert(order[i] < n && order[j] < n);
    assert(keys[order[i] as int] <= keys[order[j] as int]);
    assert(r[i] == items[order[i] as int] && r[j] == items[order[j] as int]);
    every_index_is_sorted(keys, n, k);
    let m = choose|m: int| 0 <= m < order.len() && #[trigger] order[m] == k;
    assert(r[m] == items[k]);
    (order[i] as int, order[j] as int)
}

/// An item that is stretched fills its line: its margin box is as big across it
/// as the line, unless it was bigger already. One with a size of its own, or an
/// `auto` margin there, is left alone.
pub proof fn a_stretched_item_fills_its_line(
    cv: Canvas,
    id: BoxId,
    c: ComputedStyle,
    axis: FlexAxis,
    line: i32,
)
    requires
        id.0 < cv.boxes.len(),
        !(cv.boxes[id.0 as int].kind is Image),
        0 <= line <= 0x1000_0000,
        ({
            let d = cv.dims(id);
            &&& 0 <= d.content.width <= 0x1000_0000 && 0 <= d.content.height <= 0x1000_0000
            &&& is_mild(d.margin.left) && is_mild(d.margin.right)
            &&& is_mild(d.margin.top) && is_mild(d.margin.bottom)
            &&& is_mild(d.border.left) && is_mild(d.border.right)
            &&& is_mild(d.border.top) && is_mild(d.border.bottom)
            &&& is_mild(d.padding.left) && is_mild(d.padding.right)
            &&& is_mild(d.padding.top) && is_mild(d.padding.bottom)
        }),
    ensures
        ({
            let r = stretched(cv, id, c, axis, line);
            let (was, now) = (axis.cross_outer(cv.dims(id)), axis.cross_outer(r.dims(id)));
            let (size, low, high) = if axis.vertical {
                (c.width, c.min_width, c.max_width)
            } else {
                (c.height, c.min_height, c.max_height)
            };
            let margins = axis.cross_margins(&c);
            let can = size.is_auto() && !margins.0.is_auto() && !margins.1.is_auto();
            &&& !can ==> r == cv
            &&& can && low.is_auto() && high.is_auto() ==> now == (if line >= was {
                line
            } else {
                was
            })
            &&& r.dims(id).content.x == cv.dims(id).content.x
            &&& r.dims(id).content.y == cv.dims(id).content.y
            &&& r.dims(id).margin == cv.dims(id).margin
        }),
{
    reveal(stretched);
}

} // verus!
