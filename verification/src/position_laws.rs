//! Where positioned boxes land: their insets are counted from the edges of what
//! holds them.

use vstd::prelude::*;

use crate::blocks::{content_at, Built, BoxArgs, Recipe};
use crate::boxes::{BoxId, BoxView};
use crate::boxmodel::{flow_delta, inset_h, resolve_block_dims};
use crate::cells::{larger, minus, plus};
use crate::context::Ctx;
use crate::dimensions::{Dimensions, Rect};
use crate::dom::NodeId;
use crate::engine::{fixed_from, fixed_kids, last_box_of, Canvas};
use crate::field::{control_of, kind_of, no_control_exceeds_the_cap, Kind};
use crate::frame_laws::{all_from, moving_a_root, placed_as, rooted};
use crate::plot_laws::{is_near, is_small};
use crate::style::{lengths_are_capped, ComputedStyle, Length};

verus! {

/// A number of cells that leaves room for sums and differences.
pub open spec fn is_mild(v: i32) -> bool {
    -0x0100_0000 <= v <= 0x0100_0000
}

/// What was built is one tree behind everything there was, with the edges,
/// place and width that were asked for.
pub open spec fn is_tree_of(a: BoxArgs, b: Built) -> bool {
    let s = a.cv.boxes.len();
    &&& b.cv.boxes.len() <= usize::MAX
    &&& b.id.0 == s
    &&& rooted(s, b.cv.boxes)
    &&& placed_as(b.cv.boxes[s as int].dimensions, a.dims)
    &&& is_mild(b.cv.boxes[s as int].dimensions.content.height)
}

/// A rectangle whose edges can be counted.
pub open spec fn is_plain(r: Rect) -> bool {
    is_mild(r.x) && is_mild(r.y) && is_mild(r.width) && is_mild(r.height)
}

/// A vertical length in rows, where `height` is what a percentage is one of.
/// Where there is no such height, or the length is `auto`, there is none.
pub open spec fn has_inset_v(len: Length, height: Option<i32>) -> bool {
    match len {
        Length::Auto => false,
        Length::Percent(_) => height is Some,
        _ => true,
    }
}

pub open spec fn rows_of_inset(len: Length, width: i32, height: Option<i32>) -> i32 {
    if len is Percent {
        len.to_lines(height->0)
    } else {
        len.to_cells_v(width)
    }
}

/// A box's edges across the page are lengths that were asked for, or what the
/// containing block left.
pub(crate) proof fn edges_are_modest(c: ComputedStyle, w: i32, intrinsic: Option<i32>)
    requires
        0 <= w <= 0x0080_0000,
        intrinsic is Some ==> -0x10_0000 <= intrinsic->0 <= 0x10_0000,
    ensures
        ({
            let d = resolve_block_dims(&c, w, intrinsic);
            &&& is_mild(d.margin.left) && is_mild(d.margin.right)
            &&& is_mild(d.margin.top) && is_mild(d.margin.bottom)
            &&& is_mild(d.border.left) && is_mild(d.border.right)
            &&& is_mild(d.border.top) && is_mild(d.border.bottom)
            &&& is_mild(d.padding.left) && is_mild(d.padding.right)
            &&& is_mild(d.padding.top) && is_mild(d.padding.bottom)
            &&& 0 <= d.content.width <= 0x0100_0000
        }),
{
    lengths_are_capped(c.margin.left, w);
    lengths_are_capped(c.margin.right, w);
    lengths_are_capped(c.margin.top, w);
    lengths_are_capped(c.margin.bottom, w);
    lengths_are_capped(c.border.left, w);
    lengths_are_capped(c.border.right, w);
    lengths_are_capped(c.border.top, w);
    lengths_are_capped(c.border.bottom, w);
    lengths_are_capped(c.padding.left, w);
    lengths_are_capped(c.padding.right, w);
    lengths_are_capped(c.padding.top, w);
    lengths_are_capped(c.padding.bottom, w);
    lengths_are_capped(c.width, w);
    lengths_are_capped(c.min_width, w);
    lengths_are_capped(c.max_width, w);
}

/// The box of a positioned element with these edges, and where it starts.
spec fn beside(d: Dimensions, c: ComputedStyle, cb: Rect, at: Rect) -> (Dimensions, i32) {
    let left = inset_h(c.left, cb.width);
    let right = inset_h(c.right, cb.width);
    let width = match (left, right) {
        (Some(l), Some(r)) if c.width.is_auto() => larger(
            minus(minus(minus(cb.width, l), r), plus(d.margin.across(), d.inner_edges_h())),
            1,
        ),
        _ => d.content.width,
    };
    let dims = d.with_content(Rect { width, ..d.content });
    let x = match left {
        Some(l) => plus(cb.x, l),
        None => match right {
            Some(r) => minus(minus(cb.right(), r), dims.margin_box_width()),
            None => at.x,
        },
    };
    (content_at(dims, x, plus(cb.y, dims.margin.top), 0), x)
}

proof fn sides_are_counted(d: Dimensions, c: ComputedStyle, cb: Rect, at: Rect)
    requires
        is_plain(cb),
        0 <= cb.width,
        is_plain(at),
        is_mild(d.margin.left) && is_mild(d.margin.right),
        is_mild(d.border.left) && is_mild(d.border.right),
        is_mild(d.padding.left) && is_mild(d.padding.right),
        0 <= d.content.width <= 0x0100_0000,
    ensures
        ({
            let (e, x) = beside(d, c, cb, at);
            let l = c.left.to_cells_h(cb.width);
            let r = c.right.to_cells_h(cb.width);
            let m = e.margin_box();
            &&& m.x == x
            &&& !c.left.is_auto() ==> m.x == cb.x + l
            &&& c.left.is_auto() && !c.right.is_auto() ==> m.x + m.width == cb.x + cb.width - r
            &&& c.left.is_auto() && c.right.is_auto() ==> m.x == at.x
            &&& !c.left.is_auto() && !c.right.is_auto() && c.width.is_auto() && e.content.width
                > 1 ==> m.x + m.width == cb.x + cb.width - r
        }),
{
    lengths_are_capped(c.left, cb.width);
    lengths_are_capped(c.right, cb.width);
}

impl<'a> Ctx<'a> {
    /// A positioned element's box starts its left inset past the left edge of
    /// what holds it, whatever its right inset; with a right inset alone it ends
    /// that far before the right edge; and with neither it stays in its column.
    /// With both and no width of its own it reaches from one to the other.
    #[verifier::rlimit(60)]
    pub proof fn insets_are_counted_from_the_sides(&self, id: NodeId, cb: Rect, at: Rect)
        requires
            is_plain(cb),
            0 <= cb.width <= 0x0080_0000,
            is_plain(at),
        ensures
            ({
                let c = self.style(id);
                let (d, x) = self.positioned_dims(id, cb, at);
                let l = c.left.to_cells_h(cb.width);
                let r = c.right.to_cells_h(cb.width);
                let m = d.margin_box();
                &&& m.x == x
                &&& !c.left.is_auto() ==> m.x == cb.x + l
                &&& c.left.is_auto() && !c.right.is_auto() ==> m.x + m.width == cb.x + cb.width - r
                &&& c.left.is_auto() && c.right.is_auto() ==> m.x == at.x
                &&& !c.left.is_auto() && !c.right.is_auto() && c.width.is_auto() && d.content.width
                    > 1 ==> m.x + m.width == cb.x + cb.width - r
            }),
    {
        reveal(Ctx::positioned_dims);
        let c = self.style(id);
        let tag = self.dom.tag_of(id);
        let intrinsic = match control_of(self.dom, id, tag) {
            Some(f) => Some(f.cols),
            None => None,
        };
        no_control_exceeds_the_cap(self.dom, id, tag);
        let d = resolve_block_dims(&c, larger(cb.width, 1), intrinsic);
        edges_are_modest(c, larger(cb.width, 1), intrinsic);
        sides_are_counted(d, c, cb, at);
        assert(self.positioned_dims(id, cb, at) == beside(d, c, cb, at));
    }

    /// A positioned element's box starts its top inset below the top edge of
    /// what holds it; with a bottom inset alone, and a bottom edge to count it
    /// from, it ends that far above that; and otherwise it stays on its row.
    /// With both and no height of its own it reaches from one to the other.
    pub proof fn insets_are_counted_from_the_ends(
        &self,
        c: ComputedStyle,
        d: Dimensions,
        cb: Rect,
        cb_height: Option<i32>,
        at: Rect,
    )
        requires
            is_plain(cb),
            is_plain(at),
            0 <= d.content.height <= 0x0100_0000,
            is_mild(d.margin.top) && is_mild(d.margin.bottom),
            is_mild(d.border.top) && is_mild(d.border.bottom),
            is_mild(d.padding.top) && is_mild(d.padding.bottom),
            cb_height is Some ==> cb_height->0 == cb.height,
        ensures
            ({
                let (height, y) = self.positioned_row(c, d, cb, cb_height, at);
                let t = rows_of_inset(c.top, cb.width, cb_height);
                let b = rows_of_inset(c.bottom, cb.width, cb_height);
                let outer = height + d.margin.top + d.margin.bottom + d.border.top + d.border.bottom
                    + d.padding.top + d.padding.bottom;
                let top = has_inset_v(c.top, cb_height);
                let bottom = has_inset_v(c.bottom, cb_height) && cb_height is Some;
                &&& 0 <= height
                &&& top ==> y == cb.y + t
                &&& !top && bottom ==> y + outer == cb.y + cb.height - b && height
                    == d.content.height
                &&& !top && !bottom ==> y == at.y && height == d.content.height
                &&& top && bottom && c.height.is_auto() && height > 0 ==> y + outer == cb.y
                    + cb.height - b
                &&& !(top && bottom && c.height.is_auto()) ==> height == d.content.height
            }),
    {
        reveal(Ctx::positioned_row);
        lengths_are_capped(c.top, cb.width);
        lengths_are_capped(c.bottom, cb.width);
        if cb_height is Some {
            lengths_are_capped(c.top, cb_height->0);
            lengths_are_capped(c.bottom, cb_height->0);
        }
    }
}

/// Boxes that differ in nothing but whether they are fixed, and are fixed where
/// they were.
pub open spec fn only_fixed(a: Seq<BoxView>, b: Seq<BoxView>) -> bool {
    a.len() == b.len() && forall|i: int|
        0 <= i < a.len() ==> #[trigger] b[i] == (BoxView {
            fixed_viewport: b[i].fixed_viewport,
            ..a[i]
        }) && (a[i].fixed_viewport ==> b[i].fixed_viewport)
}

/// Fixing a box to the screen fixes it, unfixes nothing, and changes nothing
/// else.
pub proof fn fixing_only_fixes(boxes: Seq<BoxView>, depth: nat, id: BoxId)
    ensures
        only_fixed(boxes, fixed_from(boxes, depth, id)),
        depth > 0 && id.0 < boxes.len() ==> fixed_from(boxes, depth, id)[id.0 as int].fixed_viewport,
    decreases depth, 0nat,
{
    if depth > 0 && id.0 < boxes.len() {
        let b = boxes[id.0 as int];
        let next = boxes.update(id.0 as int, BoxView { fixed_viewport: true, ..b });
        fixing_kids_only_fixes(next, depth, b.children, 0);
        let r = fixed_from(boxes, depth, id);
        assert forall|i: int| 0 <= i < boxes.len() implies #[trigger] r[i] == (BoxView {
            fixed_viewport: r[i].fixed_viewport,
            ..boxes[i]
        }) && (boxes[i].fixed_viewport ==> r[i].fixed_viewport) by {
            assert(r[i] == (BoxView { fixed_viewport: r[i].fixed_viewport, ..next[i] }));
        }
        assert(next[id.0 as int].fixed_viewport ==> r[id.0 as int].fixed_viewport);
    }
}

proof fn fixing_kids_only_fixes(boxes: Seq<BoxView>, depth: nat, kids: Seq<BoxId>, k: int)
    requires
        0 <= k,
    ensures
        only_fixed(boxes, fixed_kids(boxes, depth, kids, k)),
    decreases depth, 0nat, kids.len() - k,
{
    if depth > 0 && k < kids.len() {
        let next = fixed_from(boxes, (depth - 1) as nat, kids[k]);
        fixing_only_fixes(boxes, (depth - 1) as nat, kids[k]);
        fixing_kids_only_fixes(next, depth, kids, k + 1);
        let r = fixed_kids(next, depth, kids, k + 1);
        assert forall|i: int| 0 <= i < boxes.len() implies #[trigger] r[i] == (BoxView {
            fixed_viewport: r[i].fixed_viewport,
            ..boxes[i]
        }) && (boxes[i].fixed_viewport ==> r[i].fixed_viewport) by {
            assert(next[i] == (BoxView { fixed_viewport: next[i].fixed_viewport, ..boxes[i] }));
            assert(r[i] == (BoxView { fixed_viewport: r[i].fixed_viewport, ..next[i] }));
        }
    }
}

impl<'a> Ctx<'a> {
    /// What a positioned element is placed in, and its height if that is known:
    /// the screen for a fixed one, and for an absolute one the padding box of
    /// its nearest positioned ancestor.
    pub open spec fn held_by(&self, rec: Recipe, cv: Canvas, id: NodeId) -> (Rect, Option<i32>) {
        if self.style(id).position is Fixed {
            let page = cv.boxes[0].dimensions.content;
            (Rect { height: rec.viewport, ..page }, Some(rec.viewport))
        } else {
            self.containing_of(cv.boxes, id)
        }
    }

    /// A positioned element's box lands where its insets say. Its margin box
    /// starts its left inset past the left edge of what holds it and its top
    /// inset below the top edge; where one of those is `auto` it ends its right
    /// inset before the right edge and its bottom inset above the bottom one, if
    /// there is one; and with neither it stays where the flow would have put it.
    #[verifier::rlimit(100)]
    #[verifier::spinoff_prover]
    pub proof fn a_positioned_box_keeps_its_insets(
        &self,
        rec: Recipe,
        cv: Canvas,
        id: NodeId,
        parent: BoxId,
        pre: bool,
    )
        requires
            self.dom.is_element(id),
            !self.hides(id),
            kind_of(self.dom, id, self.dom.tag_of(id)) != Some(Kind::Absent),
            self.dom.tag_of(id) != "img"@,
            self.style(id).position is Fixed ==> rec.viewport >= 1,
            ({
                let (cb, cb_height) = self.held_by(rec, cv, id);
                &&& is_plain(cb)
                &&& 0 <= cb.width <= 0x0080_0000
                &&& cb_height is Some ==> cb_height->0 == cb.height
            }),
            is_plain(self.static_place(cv.boxes, id, parent)),
            forall|a: BoxArgs|
                a.cv == cv && a.id == id ==> is_tree_of(a, #[trigger] (rec.build)(a)) && 0
                    <= (rec.build)(a).cv.dims((rec.build)(a).id).content.height,
        ensures
            ({
                let c = self.style(id);
                let (cb, cb_height) = self.held_by(rec, cv, id);
                let at = self.static_place(cv.boxes, id, parent);
                let (end, bid) = self.positioned(rec, cv, id, parent, pre);
                let m = end.dims(bid->0).margin_box();
                let top = has_inset_v(c.top, cb_height);
                let bottom = has_inset_v(c.bottom, cb_height) && cb_height is Some;
                &&& bid == Some(BoxId(cv.boxes.len() as usize))
                &&& !c.left.is_auto() ==> m.x == cb.x + c.left.to_cells_h(cb.width)
                &&& c.left.is_auto() && !c.right.is_auto() ==> m.x + m.width == cb.x + cb.width
                    - c.right.to_cells_h(cb.width)
                &&& c.left.is_auto() && c.right.is_auto() ==> m.x == at.x
                &&& top ==> m.y == cb.y + rows_of_inset(c.top, cb.width, cb_height)
                &&& !top && bottom ==> m.y + m.height == cb.y + cb.height - rows_of_inset(
                    c.bottom,
                    cb.width,
                    cb_height,
                )
                &&& !top && !bottom ==> m.y == at.y
                &&& end.boxes[(bid->0).0 as int].fixed_viewport || !(c.position is Fixed)
            }),
    {
        reveal(Ctx::positioned);
        let c = self.style(id);
        let tag = self.dom.tag_of(id);
        let fixed = c.position is Fixed;
        let (cb, cb_height) = self.held_by(rec, cv, id);
        let at = self.static_place(cv.boxes, id, parent);
        let (dims, x) = self.positioned_dims(id, cb, at);
        let a = BoxArgs { cv, id, computed: c, dims, ch: cb_height, pre: pre || tag == "pre"@ };
        let built = (rec.build)(a);
        assert(is_tree_of(a, built));
        let d = built.cv.dims(built.id);
        self.insets_are_counted_from_the_sides(id, cb, at);
        self.positioned_edges_are_modest(id, cb, at);
        self.insets_are_counted_from_the_ends(c, d, cb, cb_height, at);
        let (height, y) = self.positioned_row(c, d, cb, cb_height, at);
        self.positioned_heights_are_modest(c, d, cb, cb_height, at);
        let sized = built.cv.with_height(built.id, height);
        let now = sized.dims(built.id).margin_box();
        let s = cv.boxes.len();
        assert forall|i: int| s <= i < sized.boxes.len() implies all_from(
            s + 1,
            (#[trigger] sized.boxes[i]).children,
            sized.boxes.len(),
        ) by {
            assert(all_from(s + 1, built.cv.boxes[i].children, built.cv.boxes.len()));
        }
        let (dx, dy) = (minus(x, now.x), minus(y, now.y));
        moving_a_root(s, sized.boxes.len(), sized.boxes, built.id, dx, dy);
        let there = sized.moved(built.id, dx, dy);
        let e = there.dims(built.id);
        lands_there(sized.dims(built.id), dx, dy, x, y, e);
        fixing_only_fixes(there.boxes, there.boxes.len(), built.id);
    }

    #[verifier::rlimit(60)]
    proof fn positioned_edges_are_modest(&self, id: NodeId, cb: Rect, at: Rect)
        requires
            is_plain(cb),
            0 <= cb.width <= 0x0080_0000,
            is_plain(at),
        ensures
            ({
                let d = self.positioned_dims(id, cb, at).0;
                &&& is_mild(d.margin.left) && is_mild(d.margin.right)
                &&& is_mild(d.margin.top) && is_mild(d.margin.bottom)
                &&& is_mild(d.border.left) && is_mild(d.border.right)
                &&& is_mild(d.border.top) && is_mild(d.border.bottom)
                &&& is_mild(d.padding.left) && is_mild(d.padding.right)
                &&& is_mild(d.padding.top) && is_mild(d.padding.bottom)
                &&& is_small(d.content.x) && is_small(d.content.y)
                &&& is_near(self.positioned_dims(id, cb, at).1)
            }),
    {
        reveal(Ctx::positioned_dims);
        let c = self.style(id);
        let tag = self.dom.tag_of(id);
        let intrinsic = match control_of(self.dom, id, tag) {
            Some(f) => Some(f.cols),
            None => None,
        };
        no_control_exceeds_the_cap(self.dom, id, tag);
        let d = resolve_block_dims(&c, larger(cb.width, 1), intrinsic);
        edges_are_modest(c, larger(cb.width, 1), intrinsic);
        sides_are_modest(d, c, cb, at);
        assert(self.positioned_dims(id, cb, at) == beside(d, c, cb, at));
    }

    proof fn positioned_heights_are_modest(
        &self,
        c: ComputedStyle,
        d: Dimensions,
        cb: Rect,
        cb_height: Option<i32>,
        at: Rect,
    )
        requires
            is_plain(cb),
            is_plain(at),
            0 <= d.content.height <= 0x0100_0000,
            is_mild(d.margin.top) && is_mild(d.margin.bottom),
            is_mild(d.border.top) && is_mild(d.border.bottom),
            is_mild(d.padding.top) && is_mild(d.padding.bottom),
            cb_height is Some ==> cb_height->0 == cb.height,
        ensures
            is_small(self.positioned_row(c, d, cb, cb_height, at).0),
            is_near(self.positioned_row(c, d, cb, cb_height, at).1),
    {
        reveal(Ctx::positioned_row);
        lengths_are_capped(c.top, cb.width);
        lengths_are_capped(c.bottom, cb.width);
        if cb_height is Some {
            lengths_are_capped(c.top, cb_height->0);
            lengths_are_capped(c.bottom, cb_height->0);
        }
    }
}

proof fn sides_are_modest(d: Dimensions, c: ComputedStyle, cb: Rect, at: Rect)
    requires
        is_plain(cb),
        is_plain(at),
        is_mild(d.margin.left) && is_mild(d.margin.right),
        is_mild(d.border.left) && is_mild(d.border.right),
        is_mild(d.padding.left) && is_mild(d.padding.right),
        is_mild(d.margin.top) && is_mild(d.border.top) && is_mild(d.padding.top),
        0 <= d.content.width <= 0x0100_0000,
    ensures
        ({
            let (e, x) = beside(d, c, cb, at);
            &&& is_small(e.content.x) && is_small(e.content.y) && is_near(x)
            &&& e.margin == d.margin && e.border == d.border && e.padding == d.padding
        }),
{
    lengths_are_capped(c.left, cb.width);
    lengths_are_capped(c.right, cb.width);
}

/// A box moved by what it lacks to a place is at that place.
proof fn lands_there(d: Dimensions, dx: i32, dy: i32, x: i32, y: i32, e: Dimensions)
    requires
        is_mild(d.margin.left) && is_mild(d.margin.top),
        is_mild(d.border.left) && is_mild(d.border.top),
        is_mild(d.padding.left) && is_mild(d.padding.top),
        is_small(d.content.x) && is_small(d.content.y),
        is_near(x) && is_near(y),
        dx == minus(x, d.margin_box().x),
        dy == minus(y, d.margin_box().y),
        e == d.with_content(
            Rect { x: plus(d.content.x, dx), y: plus(d.content.y, dy), ..d.content },
        ),
    ensures
        e.margin_box().x == x,
        e.margin_box().y == y,
        e.margin_box().width == d.margin_box().width,
        e.margin_box().height == d.margin_box().height,
{
}

// ---- what holds a positioned box -------------------------------------------

/// The last box of a node, if it has any.
proof fn the_last_box_is_last(boxes: Seq<BoxView>, node: NodeId, n: int, j: int)
    requires
        0 <= j < n <= boxes.len(),
        boxes.len() <= usize::MAX,
    ensures
        boxes[j].node == Some(node) ==> last_box_of(boxes, node, n) is Some && j <= (last_box_of(
            boxes,
            node,
            n,
        )->0).0,
        last_box_of(boxes, node, n) matches Some(b) ==> b.0 < n && boxes[b.0 as int].node == Some(
            node,
        ),
    decreases n,
{
    assert(last_box_of(boxes, node, 0) is None);
    if boxes[n - 1].node != Some(node) && n > 1 {
        if j < n - 1 {
            the_last_box_is_last(boxes, node, n - 1, j);
        } else {
            the_last_box_is_last(boxes, node, n - 1, 0);
        }
    }
}

impl<'a> Ctx<'a> {
    /// An absolutely positioned element is held by the padding box of its
    /// nearest positioned ancestor that has a box, and by the page where there
    /// is none: a parent that is not positioned, or has no box, leaves it to its
    /// own parent.
    pub proof fn the_nearest_positioned_ancestor_holds(
        &self,
        boxes: Seq<BoxView>,
        id: NodeId,
        j: int,
    )
        requires
            self.wf(),
            self.dom.has(id),
            0 < boxes.len() <= usize::MAX,
            0 <= j < boxes.len(),
        ensures
            ({
                let (cb, height) = self.containing_of(boxes, id);
                match self.dom.parent_of(id) {
                    None => cb == boxes[0].dimensions.content && height is None,
                    Some(p) => {
                        let later = forall|i: int|
                            j < i < boxes.len() ==> (#[trigger] boxes[i]).node != Some(p);
                        let none = forall|i: int|
                            0 <= i < boxes.len() ==> (#[trigger] boxes[i]).node != Some(p);
                        let pad = boxes[j].dimensions.padding_box();
                        &&& !(self.style(p).position is Static) && boxes[j].node == Some(p) && later
                            ==> cb.x == pad.x && cb.y == pad.y && cb.width == pad.width && (match height {
                            None => cb.height == pad.height,
                            Some(h) => cb.height == h,
                        })
                        &&& self.style(p).position is Static || none ==> (cb, height)
                            == self.containing_of(boxes, p)
                    },
                }
            }),
    {
        if let Some(p) = self.dom.parent_of(id) {
            let n = boxes.len() as int;
            the_last_box_is_last(boxes, p, n, j);
            if last_box_of(boxes, p, n) is Some {
                let b = last_box_of(boxes, p, n)->0;
                assert(boxes[b.0 as int].node == Some(p));
            }
        }
    }

    /// The place a positioned child would have had in the flow: the left edge of
    /// its parent's content, below the boxes of the siblings before it, and no
    /// lower than that.
    pub proof fn a_static_place_is_below_what_comes_before(
        &self,
        boxes: Seq<BoxView>,
        kids: Seq<NodeId>,
        k: int,
        id: NodeId,
        origin: Rect,
        n: int,
    )
        requires
            0 <= k <= n <= kids.len(),
            n < kids.len() ==> kids[n] == id,
            forall|i: int| k <= i < n ==> #[trigger] kids[i] != id,
        ensures
            ({
                let r = self.static_from(boxes, kids, k, id, origin);
                &&& r.x == origin.x
                &&& r.width == origin.width
                &&& origin.y <= r.y
                &&& forall|i: int|
                    k <= i < n ==> (last_box_of(
                        boxes,
                        #[trigger] kids[i],
                        boxes.len() as int,
                    ) matches Some(b) ==> boxes[b.0 as int].dimensions.margin_box().bottom() <= r.y)
                &&& r.y == origin.y || exists|i: int|
                    k <= i < n && (last_box_of(
                        boxes,
                        #[trigger] kids[i],
                        boxes.len() as int,
                    ) matches Some(b) && boxes[b.0 as int].dimensions.margin_box().bottom() == r.y)
            }),
        decreases n - k,
    {
        if k < n {
            assert(kids[k] != id);
            let next = match last_box_of(boxes, kids[k], boxes.len() as int) {
                Some(b) => Rect {
                    y: larger(origin.y, boxes[b.0 as int].dimensions.margin_box().bottom()),
                    ..origin
                },
                None => origin,
            };
            self.a_static_place_is_below_what_comes_before(boxes, kids, k + 1, id, next, n);
            let r = self.static_from(boxes, kids, k, id, origin);
            if r.y != origin.y {
                if r.y == next.y {
                    let b = last_box_of(boxes, kids[k], boxes.len() as int)->0;
                    assert(boxes[b.0 as int].dimensions.margin_box().bottom() == r.y);
                } else {
                    let i = choose|i: int|
                        k + 1 <= i < n && (last_box_of(
                            boxes,
                            #[trigger] kids[i],
                            boxes.len() as int,
                        ) matches Some(b) && boxes[b.0 as int].dimensions.margin_box().bottom()
                            == r.y);
                    assert(last_box_of(boxes, kids[i], boxes.len() as int) is Some);
                }
            }
        }
    }
}

/// A box that stays in the flow moves right and down by its left and top insets,
/// or else left and up by its right and bottom ones, and by nothing where there
/// is neither. The top of a sticky box is not a shift.
pub proof fn a_shift_follows_the_insets(c: ComputedStyle, width: i32, height: Option<i32>)
    ensures
        ({
            let (dx, dy) = flow_delta(c, width, height);
            let top = has_inset_v(c.top, height) && !(c.position is Sticky);
            &&& !c.left.is_auto() ==> dx == c.left.to_cells_h(width)
            &&& c.left.is_auto() && !c.right.is_auto() ==> dx == -c.right.to_cells_h(width)
            &&& c.left.is_auto() && c.right.is_auto() ==> dx == 0
            &&& top ==> dy == rows_of_inset(c.top, width, height)
            &&& !top && has_inset_v(c.bottom, height) ==> dy == -rows_of_inset(
                c.bottom,
                width,
                height,
            )
            &&& !top && !has_inset_v(c.bottom, height) ==> dy == 0
        }),
{
    lengths_are_capped(c.right, width);
    lengths_are_capped(c.bottom, width);
    if height is Some {
        lengths_are_capped(c.bottom, height->0);
    }
}

impl<'a> Ctx<'a> {
    /// A child in the flow that is relatively positioned lands as far from where
    /// it would have been as its insets say, and its size does not change. One
    /// that is not positioned stays where it was put.
    pub proof fn a_relative_box_moves_by_its_insets(
        &self,
        rec: Recipe,
        cv: Canvas,
        id: NodeId,
        x: i32,
        cw: i32,
        ch: Option<i32>,
        y: i32,
        prev: i32,
        pre: bool,
        s: nat,
    )
        requires
            self.dom.is_element(id),
            !self.hides(id),
            kind_of(self.dom, id, self.dom.tag_of(id)) != Some(Kind::Absent),
            self.element_laid(rec, cv, id, x, cw, ch, y, prev, pre).id == Some(BoxId(s as usize)),
            ({
                let laid = self.element_laid(rec, cv, id, x, cw, ch, y, prev, pre);
                let d = laid.cv.dims(BoxId(s as usize));
                &&& laid.cv.boxes.len() <= usize::MAX
                &&& rooted(s, laid.cv.boxes)
                &&& is_small(d.content.x) && is_small(d.content.y)
            }),
        ensures
            ({
                let flat = self.element_laid(rec, cv, id, x, cw, ch, y, prev, pre);
                let laid = self.lay_node(rec, cv, id, x, cw, ch, y, prev, pre);
                let c = self.style(id);
                let (dx, dy) = flow_delta(c, cw, ch);
                let (was, now) = (flat.cv.dims(flat.id->0), laid.cv.dims(laid.id->0));
                &&& laid.id == flat.id
                &&& laid.prev == flat.prev
                &&& c.position is Relative || c.position is Sticky ==> now == was.with_content(
                    Rect { x: (was.content.x + dx) as i32, y: (was.content.y + dy) as i32, ..was.content },
                )
                &&& !(c.position is Relative || c.position is Sticky) ==> laid == flat
            }),
    {
        reveal(Ctx::lay_node);
        let flat = self.element_laid(rec, cv, id, x, cw, ch, y, prev, pre);
        let c = self.style(id);
        let (dx, dy) = flow_delta(c, cw, ch);
        a_shift_follows_the_insets(c, cw, ch);
        lengths_are_capped(c.left, cw);
        lengths_are_capped(c.right, cw);
        lengths_are_capped(c.top, cw);
        lengths_are_capped(c.bottom, cw);
        if ch is Some {
            lengths_are_capped(c.top, ch->0);
            lengths_are_capped(c.bottom, ch->0);
        }
        moving_a_root(s, flat.cv.boxes.len(), flat.cv.boxes, BoxId(s as usize), dx, dy);
    }

    /// A positioned image lands where its insets say, as any other box does.
    pub proof fn a_positioned_image_keeps_its_insets(
        &self,
        cv: Canvas,
        id: NodeId,
        cb: Rect,
        cb_height: Option<i32>,
        at: Rect,
        fixed: bool,
    )
        requires
            self.images.of(id) is Some,
            cv.boxes.len() < usize::MAX,
            is_plain(cb),
            0 <= cb.width <= 0x0080_0000,
            is_plain(at),
        ensures
            ({
                let c = self.style(id);
                let (end, bid) = self.positioned_image(cv, id, cb, cb_height, at, fixed);
                let m = end.dims(bid->0).content;
                let top = has_inset_v(c.top, cb_height);
                &&& bid == Some(BoxId(cv.boxes.len() as usize))
                &&& end.boxes.len() == cv.boxes.len() + 1
                &&& end.boxes.last().fixed_viewport == fixed
                &&& end.boxes.last().node == Some(id)
                &&& !c.left.is_auto() ==> m.x == cb.x + c.left.to_cells_h(cb.width)
                &&& c.left.is_auto() && !c.right.is_auto() ==> m.x + m.width == cb.x + cb.width
                    - c.right.to_cells_h(cb.width)
                &&& c.left.is_auto() && c.right.is_auto() ==> m.x == at.x
                &&& top ==> m.y == cb.y + rows_of_inset(c.top, cb.width, cb_height)
                &&& !top && (cb_height is None || !has_inset_v(c.bottom, cb_height)) ==> m.y == at.y
                &&& 1 <= m.width && 1 <= m.height
            }),
    {
        reveal(Ctx::positioned_image);
        let c = self.style(id);
        lengths_are_capped(c.left, cb.width);
        lengths_are_capped(c.right, cb.width);
        lengths_are_capped(c.width, cb.width);
        lengths_are_capped(c.top, cb.width);
        if cb_height is Some {
            lengths_are_capped(c.top, cb_height->0);
        }
    }
}

// ---- sticking --------------------------------------------------------------

impl<'a> Ctx<'a> {
    /// A sticky box with a top inset that fits the screen slides: from where it
    /// is, its top inset below the top of the screen, until its own container
    /// ends. No other box does.
    pub proof fn a_sticky_box_slides(
        &self,
        boxes: Seq<BoxView>,
        i: int,
        width: i32,
        viewport: i32,
    )
        requires
            0 <= i < boxes.len(),
        ensures
            ({
                let b = boxes[i];
                let outer = b.dimensions.margin_box();
                let node = b.node->0;
                let style = self.style(node);
                let slides = b.node is Some && style.position is Sticky && has_inset_v(
                    style.top,
                    Some(viewport),
                ) && outer.height <= viewport;
                match self.constraint_of(boxes, i, width, viewport) {
                    None => !slides,
                    Some(c) => {
                        &&& slides
                        &&& c.static_start == outer.y
                        &&& c.static_end == outer.bottom()
                        &&& c.inset == rows_of_inset(style.top, width, Some(viewport))
                        &&& c.containing_end == self.sliding_end(boxes, node)
                    },
                }
            }),
    {
    }

    /// A sticky box does not slide out of the padding box of its nearest ancestor
    /// that has a box, nor off the page where none has.
    pub proof fn a_sticky_box_stays_in_its_container(
        &self,
        boxes: Seq<BoxView>,
        node: NodeId,
        j: int,
    )
        requires
            self.wf(),
            self.dom.has(node),
            0 < boxes.len() <= usize::MAX,
            0 <= j < boxes.len(),
        ensures
            match self.dom.parent_of(node) {
                None => self.sliding_end(boxes, node) == boxes[0].dimensions.content.bottom(),
                Some(p) => {
                    let later = forall|i: int|
                        j < i < boxes.len() ==> (#[trigger] boxes[i]).node != Some(p);
                    let none = forall|i: int|
                        0 <= i < boxes.len() ==> (#[trigger] boxes[i]).node != Some(p);
                    &&& boxes[j].node == Some(p) && later ==> self.sliding_end(boxes, node)
                        == boxes[j].dimensions.padding_box().bottom()
                    &&& none ==> self.sliding_end(boxes, node) == self.sliding_end(boxes, p)
                },
            },
    {
        if let Some(p) = self.dom.parent_of(node) {
            let n = boxes.len() as int;
            the_last_box_is_last(boxes, p, n, j);
            if last_box_of(boxes, p, n) is Some {
                let b = last_box_of(boxes, p, n)->0;
                assert(boxes[b.0 as int].node == Some(p));
            }
        }
    }
}

} // verus!
