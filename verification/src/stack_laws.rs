//! Blocks stack: each below the one before it, the margins between two of them
//! collapsed to the larger.

use vstd::prelude::*;

use crate::blocks::{content_at, heights_of, BlockHeight, BoxArgs, FlowEnv, FlowView, Recipe};
use crate::boxes::{BoxId, BoxView};
use crate::boxmodel::{
    lays_out_as_flex, lays_out_as_grid, relative_delta, resolve_block_dims, term_style,
};
use crate::cells::{larger, minus, plus};
use crate::context::{ChildMode, Ctx};
use crate::dimensions::{Dimensions, EdgeSizes};
use crate::dom::NodeId;
use crate::engine::Canvas;
use crate::field::{control_of, no_control_exceeds_the_cap};
use crate::frame_laws::{all_from, behind, kept, one_tree_more, placed_as, sealed};
use crate::grid_laws::nearest_is_near;
use crate::inline::InlineItem;
use crate::line_laws::text_items;
use crate::page::at_least_one;
use crate::position_laws::{edges_are_modest, is_mild};
use crate::style::{lengths_are_capped, nearest, ComputedStyle, TextAlign};
use crate::text::blank;

verus! {

/// Dimensions whose rows can be counted.
pub open spec fn is_countable(d: Dimensions) -> bool {
    &&& -0x1000_0000 <= d.content.y <= 0x1000_0000
    &&& 0 <= d.content.height <= 0x1000_0000
    &&& is_mild(d.margin.top) && is_mild(d.margin.bottom)
    &&& is_mild(d.border.top) && is_mild(d.border.bottom)
    &&& is_mild(d.padding.top) && is_mild(d.padding.bottom)
}

/// The top margin a box's style asks for, in a container of this width.
pub open spec fn asked_top(b: BoxView, width: i32) -> i32 {
    b.computed.margin.top.to_cells_v(width)
}

/// The larger of two numbers.
pub open spec fn most_of(a: int, b: int) -> int {
    if a >= b {
        a
    } else {
        b
    }
}

/// Box `k` of a stack stands where it should: at the left edge of its
/// container; and as far below the border box of the one before it as the
/// larger of the margins between them. The first is its own margin below the
/// top of its container. A page does not start with a gap.
pub open spec fn stands(
    boxes: Seq<BoxView>,
    ids: Seq<BoxId>,
    k: int,
    x: i32,
    width: i32,
    top: i32,
) -> bool {
    let b = boxes[ids[k].0 as int];
    let d = b.dimensions;
    let y = d.border_box().y as int;
    &&& d.margin_box().x == x
    &&& k == 0 ==> y == (if top == 0 {
        0
    } else {
        top + most_of(asked_top(b, width) as int, 0)
    })
    &&& k > 0 ==> {
        let above = boxes[ids[k - 1].0 as int].dimensions;
        let end = above.border_box().y + above.border_box().height;
        y == (if end == 0 && above.margin.bottom == 0 {
            0
        } else if b.node is None {
            end + above.margin.bottom
        } else {
            end + most_of(above.margin.bottom as int, asked_top(b, width) as int)
        })
    }
}

/// Every box of a stack stands where it should.
pub open spec fn all_stand(
    boxes: Seq<BoxView>,
    ids: Seq<BoxId>,
    x: i32,
    width: i32,
    top: i32,
) -> bool {
    forall|k: int| 0 <= k < ids.len() ==> #[trigger] stands(boxes, ids, k, x, width, top)
}

pub open spec fn all_countable(boxes: Seq<BoxView>, ids: Seq<BoxId>) -> bool {
    forall|k: int|
        0 <= k < ids.len() ==> (#[trigger] ids[k]).0 < boxes.len() && is_countable(
            boxes[ids[k].0 as int].dimensions,
        )
}

/// How far a flow has come: past its last box and that one's margin.
spec fn flow_stands(boxes: Seq<BoxView>, flow: FlowView, top: i32) -> bool {
    if flow.children.len() == 0 {
        flow.y == top && flow.prev == 0
    } else {
        let d = boxes[flow.children.last().0 as int].dimensions;
        flow.y == d.margin_box().bottom() && flow.prev == d.margin.bottom
    }
}

spec fn is_prefix(a: Seq<BoxId>, b: Seq<BoxId>) -> bool {
    a.len() <= b.len() && forall|k: int| 0 <= k < a.len() ==> #[trigger] a[k] == b[k]
}

proof fn stands_after(
    a: Seq<BoxView>,
    b: Seq<BoxView>,
    ids: Seq<BoxId>,
    more: Seq<BoxId>,
    x: i32,
    width: i32,
    top: i32,
)
    requires
        kept(a.len(), a, b),
        forall|k: int| 0 <= k < ids.len() ==> (#[trigger] ids[k]).0 < a.len(),
        is_prefix(ids, more),
        all_stand(a, ids, x, width, top),
    ensures
        forall|k: int| 0 <= k < ids.len() ==> #[trigger] stands(b, more, k, x, width, top),
{
    assert forall|k: int| 0 <= k < ids.len() implies #[trigger] stands(
        b,
        more,
        k,
        x,
        width,
        top,
    ) by {
        assert(stands(a, ids, k, x, width, top));
        assert(ids[k] == more[k]);
        assert(b[ids[k].0 as int] == a[ids[k].0 as int]);
        if k > 0 {
            assert(ids[k - 1] == more[k - 1]);
            assert(b[ids[k - 1].0 as int] == a[ids[k - 1].0 as int]);
        }
    }
}

/// A box put at the top of what its margin leaves has its border box there.
proof fn a_border_box_starts_there(d: Dimensions, x: i32, y: i32, e: Dimensions)
    requires
        is_mild(x),
        -0x3000_0000 <= y <= 0x3000_0000,
        is_mild(d.margin.left) && is_mild(d.border.left) && is_mild(d.padding.left),
        is_mild(d.border.top) && is_mild(d.padding.top),
        placed_as(e, content_at(d, x, y, 0)),
    ensures
        e.border_box().y == y,
        e.margin_box().x == x,
{
}

/// The sums behind where a box ends are exact where it can be counted.
proof fn counted_ends(d: Dimensions)
    requires
        is_countable(d),
    ensures
        d.margin_box().bottom() == d.border_box().y + d.border_box().height + d.margin.bottom,
        -0x2000_0000 <= d.border_box().y + d.border_box().height <= 0x2800_0000,
        -0x1c00_0000 <= d.border_box().y <= 0x1c00_0000,
        minus(d.margin_box().bottom(), d.margin.bottom) == d.border_box().y
            + d.border_box().height,
{
}

impl<'a> Ctx<'a> {
    /// A block below others is put so that between its border box and theirs is
    /// the larger of the two margins; `y` is where the margin above ends, and
    /// `prev` how much of it there is. On the first row of a page it is put at
    /// the top. Across the page its margin box starts where the container does.
    pub proof fn adjacent_margins_collapse_to_the_larger(
        &self,
        rec: Recipe,
        cv: Canvas,
        id: NodeId,
        c: ComputedStyle,
        x: i32,
        cw: i32,
        ch: Option<i32>,
        y: i32,
        prev: i32,
        pre: bool,
    )
        requires
            is_mild(x),
            is_mild(prev),
            0 <= cw <= 0x0080_0000,
            -0x1000_0000 <= y <= 0x1000_0000,
            forall|a: BoxArgs|
                a.cv == cv && a.id == id ==> ({
                    let b = #[trigger] (rec.build)(a);
                    placed_as(b.cv.dims(b.id), a.dims)
                }),
        ensures
            ({
                let laid = self.block_laid(rec, cv, id, c, x, cw, ch, y, prev, pre);
                let d = laid.cv.dims(laid.id->0);
                let asked = c.margin.top.to_cells_v(cw);
                &&& laid.id is Some
                &&& d.margin_box().x == x
                &&& y != 0 || prev != 0 ==> d.border_box().y == y - prev + most_of(
                    asked as int,
                    prev as int,
                )
                &&& y == 0 && prev == 0 ==> d.border_box().y == 0
                &&& laid.prev == d.margin.bottom
                &&& d.margin.bottom == c.margin.bottom.to_cells_v(cw)
            }),
    {
        reveal(Ctx::block_laid);
        let tag = self.dom.tag_of(id);
        let intrinsic = match control_of(self.dom, id, tag) {
            Some(f) => Some(f.cols),
            None => None,
        };
        no_control_exceeds_the_cap(self.dom, id, tag);
        let dims = resolve_block_dims(&c, cw, intrinsic);
        edges_are_modest(c, cw, intrinsic);
        lengths_are_capped(c.margin.top, cw);
        assert(dims.margin.top == c.margin.top.to_cells_v(cw));
        assert(dims.margin.bottom == c.margin.bottom.to_cells_v(cw));
        let after = minus(y, prev);
        let used_top = if after == 0 && prev == 0 {
            0
        } else {
            larger(dims.margin.top, prev)
        };
        let there = dims.with_margin(EdgeSizes { top: used_top, ..dims.margin });
        let placed = content_at(there, x, plus(after, used_top), 0);
        let a = BoxArgs { cv, id, computed: c, dims: placed, ch, pre };
        let b = (rec.build)(a);
        assert(placed_as(b.cv.dims(b.id), a.dims));
        a_border_box_starts_there(there, x, plus(after, used_top), b.cv.dims(b.id));
    }

    /// A block in the flow, put below what is above it.
    #[verifier::rlimit(100)]
    #[verifier::spinoff_prover]
    proof fn a_flowing_block_is_placed(
        &self,
        rec: Recipe,
        h: nat,
        cv: Canvas,
        id: NodeId,
        env: FlowEnv,
        y: i32,
        prev: i32,
    )
        requires
            self.wf(),
            self.is_flowing(),
            self.builds_behind(rec, h),
            self.low(id, h),
            self.dom.is_element(id),
            !self.hides(id),
            !(self.style(id).display is Inline),
            is_mild(env.x),
            0 <= env.width <= 0x0080_0000,
            is_mild(prev),
            -0x2900_0000 <= y <= 0x2a00_0000,
            self.lay_node(
                rec,
                cv,
                id,
                env.x,
                env.width,
                env.height,
                y,
                prev,
                false,
            ).cv.boxes.len() <= usize::MAX,
        ensures
            ({
                let laid = self.lay_node(
                    rec,
                    cv,
                    id,
                    env.x,
                    env.width,
                    env.height,
                    y,
                    prev,
                    false,
                );
                let b = laid.cv.boxes[cv.boxes.len() as int];
                let c = self.style(id);
                &&& b.node == Some(id)
                &&& b.computed == c
                &&& b.dimensions.margin_box().x == env.x
                &&& b.dimensions.border_box().y == (if y == 0 && prev == 0 {
                    0
                } else {
                    y - prev + most_of(c.margin.top.to_cells_v(env.width) as int, prev as int)
                })
            }),
    {
        let laid = self.lay_node(
            rec,
            cv,
            id,
            env.x,
            env.width,
            env.height,
            y,
            prev,
            false,
        );
        assert(self.flows_or_flexes(id));
        let c = self.style(id);
        let s = cv.boxes.len();
        let tag = self.dom.tag_of(id);
        let intrinsic = match control_of(self.dom, id, tag) {
            Some(f) => Some(f.cols),
            None => None,
        };
        no_control_exceeds_the_cap(self.dom, id, tag);
        let dims = resolve_block_dims(&c, env.width, intrinsic);
        edges_are_modest(c, env.width, intrinsic);
        lengths_are_capped(c.margin.top, env.width);
        assert(dims.margin.top == c.margin.top.to_cells_v(env.width));
        let after = minus(y, prev);
        let used_top = if after == 0 && prev == 0 {
            0
        } else {
            larger(dims.margin.top, prev)
        };
        let there = dims.with_margin(EdgeSizes { top: used_top, ..dims.margin });
        let placed = content_at(there, env.x, plus(after, used_top), 0);
        let b = laid.cv.boxes[s as int];
        assert(b.node == Some(id) && b.computed == c && placed_as(b.dimensions, placed)) by {
            reveal(Ctx::lay_node);
            reveal(Ctx::element_laid);
            reveal(Ctx::block_laid);
            let a = BoxArgs { cv, id, computed: c, dims: placed, ch: env.height, pre: false };
            let built = (rec.build)(a);
            assert(laid.cv == built.cv);
        }
        a_border_box_starts_there(there, env.x, plus(after, used_top), b.dimensions);
    }

    /// One more block on a stack.
    #[verifier::rlimit(100)]
    #[verifier::spinoff_prover]
    proof fn a_block_stands(
        &self,
        rec: Recipe,
        h: nat,
        cv: Canvas,
        flow: FlowView,
        env: FlowEnv,
        id: NodeId,
        top: i32,
    )
        requires
            self.wf(),
            self.is_flowing(),
            self.builds_behind(rec, h),
            self.low(id, h),
            self.dom.is_element(id),
            !self.hides(id),
            !(self.style(id).display is Inline),
            !env.pre,
            is_mild(env.x),
            0 <= env.width <= 0x0080_0000,
            -0x1000_0000 <= top <= 0x1000_0000,
            flow_stands(cv.boxes, flow, top),
            all_stand(cv.boxes, flow.children, env.x, env.width, top),
            all_countable(cv.boxes, flow.children),
            ({
                let laid = self.lay_node(
                    rec,
                    cv,
                    id,
                    env.x,
                    env.width,
                    env.height,
                    flow.y,
                    flow.prev,
                    false,
                );
                laid.cv.boxes.len() <= usize::MAX
            }),
        ensures
            ({
                let laid = self.lay_node(
                    rec,
                    cv,
                    id,
                    env.x,
                    env.width,
                    env.height,
                    flow.y,
                    flow.prev,
                    false,
                );
                let next = flow.after(laid.cv, laid.id->0, 0);
                &&& laid.id == Some(BoxId(cv.boxes.len() as usize))
                &&& kept(cv.boxes.len(), cv.boxes, laid.cv.boxes)
                &&& all_stand(laid.cv.boxes, next.children, env.x, env.width, top)
                &&& flow_stands(laid.cv.boxes, next, top)
            }),
    {
        let laid = self.lay_node(
            rec,
            cv,
            id,
            env.x,
            env.width,
            env.height,
            flow.y,
            flow.prev,
            false,
        );
        self.a_block_is_behind(
            rec,
            h,
            cv,
            id,
            env.x,
            env.width,
            env.height,
            flow.y,
            flow.prev,
        );
        assert(self.flows_or_flexes(id));
        let c = self.style(id);
        let s = cv.boxes.len();
        let n = flow.children.len() as int;
        let more = flow.children.push(laid.id->0);
        stands_after(cv.boxes, laid.cv.boxes, flow.children, more, env.x, env.width, top);
        lengths_are_capped(c.margin.top, env.width);
        if n > 0 {
            let last = flow.children[n - 1];
            assert(flow.children.last() == last);
            assert(last.0 < cv.boxes.len());
            counted_ends(cv.boxes[last.0 as int].dimensions);
            assert(laid.cv.boxes[last.0 as int] == cv.boxes[last.0 as int]);
            assert(more[n - 1] == last);
        }
        self.a_flowing_block_is_placed(rec, h, cv, id, env, flow.y, flow.prev);
        let b = laid.cv.boxes[s as int];
        assert(more[n] == BoxId(s as usize));
        assert(stands(laid.cv.boxes, more, n, env.x, env.width, top));
        assert(all_stand(laid.cv.boxes, more, env.x, env.width, top)) by {
            assert forall|k: int| 0 <= k < more.len() implies #[trigger] stands(
                laid.cv.boxes,
                more,
                k,
                env.x,
                env.width,
                top,
            ) by {
                if k < n {
                    assert(stands(laid.cv.boxes, more, k, env.x, env.width, top));
                }
            }
        }
        let next = flow.after(laid.cv, laid.id->0, 0);
        assert(next.children =~= more);
    }

    /// A run of text on a stack.
    #[verifier::rlimit(100)]
    #[verifier::spinoff_prover]
    proof fn a_run_stands(
        &self,
        rec: Recipe,
        cv: Canvas,
        flow: FlowView,
        env: FlowEnv,
        top: i32,
    )
        requires
            !env.pre,
            text_items(flow.run),
            is_mild(env.x),
            0 <= env.width <= 0x0080_0000,
            -0x1000_0000 <= top <= 0x1000_0000,
            flow_stands(cv.boxes, flow, top),
            all_stand(cv.boxes, flow.children, env.x, env.width, top),
            all_countable(cv.boxes, flow.children),
            self.flow_flushed(rec, cv, flow, env).0.boxes.len() <= usize::MAX,
        ensures
            ({
                let (end, next) = self.flow_flushed(rec, cv, flow, env);
                &&& kept(cv.boxes.len(), cv.boxes, end.boxes)
                &&& is_prefix(flow.children, next.children)
                &&& all_stand(end.boxes, next.children, env.x, env.width, top)
                &&& flow_stands(end.boxes, next, top)
                &&& next.run.len() == 0
            }),
    {
        reveal(Ctx::flow_flushed);
        let (end, next) = self.flow_flushed(rec, cv, flow, env);
        if flow.run.len() > 0 {
            self.a_run_is_rooted(
                rec,
                cv,
                env.x,
                env.width,
                flow.y,
                flow.prev,
                flow.run,
                env.align,
            );
            let s = cv.boxes.len();
            let n = flow.children.len() as int;
            let id = BoxId(s as usize);
            let more = flow.children.push(id);
            stands_after(cv.boxes, end.boxes, flow.children, more, env.x, env.width, top);
            if n > 0 {
                let last = flow.children[n - 1];
                assert(flow.children.last() == last);
                assert(last.0 < cv.boxes.len());
                counted_ends(cv.boxes[last.0 as int].dimensions);
                assert(end.boxes[last.0 as int] == cv.boxes[last.0 as int]);
                assert(more[n - 1] == last);
            }
            assert(next.children =~= more);
            let b = end.boxes[s as int];
            assert(b.computed == ComputedStyle::initial());
            no_margin_to_begin_with(env.width);
            assert(more[n] == id);
            assert(stands(end.boxes, more, n, env.x, env.width, top));
            assert(all_stand(end.boxes, more, env.x, env.width, top)) by {
                assert forall|k: int| 0 <= k < more.len() implies #[trigger] stands(
                    end.boxes,
                    more,
                    k,
                    env.x,
                    env.width,
                    top,
                ) by {
                    if k < n {
                        assert(stands(end.boxes, more, k, env.x, env.width, top));
                    }
                }
            }
        } else {
            reveal(Ctx::anonymous);
        }
    }
}

proof fn no_margin_to_begin_with(width: i32)
    ensures
        ComputedStyle::initial().margin.top.to_cells_v(width) == 0,
{
    nearest_is_near(0, 16_000);
    let q = nearest(0, 16_000);
    assert(q == 0);
}

proof fn countable_before(a: Seq<BoxView>, b: Seq<BoxView>, ids: Seq<BoxId>, more: Seq<BoxId>)
    requires
        kept(a.len(), a, b),
        is_prefix(ids, more),
        forall|k: int| 0 <= k < ids.len() ==> (#[trigger] ids[k]).0 < a.len(),
        all_countable(b, more),
    ensures
        all_countable(a, ids),
{
    assert forall|k: int| 0 <= k < ids.len() implies (#[trigger] ids[k]).0 < a.len()
        && is_countable(a[ids[k].0 as int].dimensions) by {
        assert(more[k] == ids[k]);
        assert(b[ids[k].0 as int] == a[ids[k].0 as int]);
        assert(is_countable(b[more[k].0 as int].dimensions));
    }
}

impl<'a> Ctx<'a> {
    /// A flow leaves what it has laid out alone, and adds to its boxes.
    proof fn a_flow_only_adds(
        &self,
        rec: Recipe,
        h: nat,
        n: nat,
        start: Seq<BoxView>,
        cv: Canvas,
        flow: FlowView,
        env: FlowEnv,
        id: NodeId,
        k: int,
    )
        requires
            self.wf(),
            self.is_flowing(),
            self.builds_behind(rec, h),
            self.dom.has(id),
            self.dom.height(id) <= h,
            0 <= k,
            !env.pre,
            !flow.marker,
            flow.absolutes.len() == 0,
            text_items(flow.run),
            behind(n, start, cv, flow.children),
            self.flow_children(rec, cv, flow, env, self.dom.kids(id), k).0.boxes.len()
                <= usize::MAX,
        ensures
            ({
                let (end, last) = self.flow_children(rec, cv, flow, env, self.dom.kids(id), k);
                &&& kept(cv.boxes.len(), cv.boxes, end.boxes)
                &&& is_prefix(flow.children, last.children)
            }),
        decreases self.dom.kids(id).len() - k,
    {
        let kids = self.dom.kids(id);
        if k < kids.len() {
            let c = kids[k];
            let (cv2, flow2) = self.flow_child(rec, cv, flow, env, c);
            self.a_child_is_behind(rec, h, n, start, cv, flow, env, id, k);
            self.a_flow_is_behind(rec, h, n, start, cv2, flow2, env, id, k + 1);
            let (end, last) = self.flow_children(rec, cv2, flow2, env, kids, k + 1);
            self.a_flow_only_adds(rec, h, n, start, cv2, flow2, env, id, k + 1);
            assert forall|i: int| 0 <= i < cv.boxes.len() implies #[trigger] end.boxes[i]
                == cv.boxes[i] by {
                assert(end.boxes[i] == cv2.boxes[i]);
            }
            assert forall|i: int| 0 <= i < flow.children.len() implies #[trigger] flow.children[i]
                == last.children[i] by {
                assert(flow.children[i] == flow2.children[i]);
            }
        }
    }

    /// One child of a flow: what is laid out for it is behind the rest.
    proof fn a_child_is_behind(
        &self,
        rec: Recipe,
        h: nat,
        n: nat,
        start: Seq<BoxView>,
        cv: Canvas,
        flow: FlowView,
        env: FlowEnv,
        id: NodeId,
        k: int,
    )
        requires
            self.wf(),
            self.is_flowing(),
            self.builds_behind(rec, h),
            self.dom.has(id),
            self.dom.height(id) <= h,
            0 <= k < self.dom.kids(id).len(),
            !env.pre,
            !flow.marker,
            flow.absolutes.len() == 0,
            text_items(flow.run),
            behind(n, start, cv, flow.children),
        ensures
            ({
                let (end, last) = self.flow_child(rec, cv, flow, env, self.dom.kids(id)[k]);
                &&& behind(n, start, end, last.children)
                &&& cv.boxes.len() <= end.boxes.len()
                &&& !last.marker
                &&& last.absolutes.len() == 0
                &&& text_items(last.run)
                &&& end.boxes.len() <= usize::MAX ==> kept(cv.boxes.len(), cv.boxes, end.boxes)
                &&& is_prefix(flow.children, last.children)
            }),
    {
        reveal(Ctx::flow_child);
        let kids = self.dom.kids(id);
        let c = kids[k];
        assert(self.dom.nodes@[id.0 as int].children@[k] == c);
        self.dom.a_kid_is_lower(id, k);
        if self.dom.is_element(c) {
            assert(self.flows_or_flexes(c));
        }
        assert(!self.leaves_flow(c));
        let (cv2, flow2) = self.flow_child(rec, cv, flow, env, c);
        match self.mode_of(c) {
            ChildMode::Skip => {},
            ChildMode::Inline => {
                self.flowing_items_are_text(c, env.width);
                self.nothing_flowing_is_loose(c, 0);
            },
            ChildMode::Block => {
                self.a_flush_is_behind(rec, n, start, cv, flow, env);
                self.a_flush_only_adds(rec, cv, flow, env);
                let (cv1, flow1) = self.flow_flushed(rec, cv, flow, env);
                self.a_block_is_behind(
                    rec,
                    h,
                    cv1,
                    c,
                    env.x,
                    env.width,
                    env.height,
                    flow1.y,
                    flow1.prev,
                );
                let laid = self.lay_node(
                    rec,
                    cv1,
                    c,
                    env.x,
                    env.width,
                    env.height,
                    flow1.y,
                    flow1.prev,
                    false,
                );
                one_tree_more(n, start, cv1, flow1.children, laid.cv, laid.id->0);
                assert(flow2.run.len() == 0);
                if laid.cv.boxes.len() <= usize::MAX {
                    assert forall|i: int| 0 <= i < cv.boxes.len() implies #[trigger] cv2.boxes[i]
                        == cv.boxes[i] by {
                        assert(cv1.boxes[i] == cv.boxes[i]);
                    }
                }
            },
        }
    }

    proof fn a_flush_only_adds(&self, rec: Recipe, cv: Canvas, flow: FlowView, env: FlowEnv)
        requires
            !env.pre,
            text_items(flow.run),
        ensures
            ({
                let (end, last) = self.flow_flushed(rec, cv, flow, env);
                &&& end.boxes.len() <= usize::MAX ==> kept(cv.boxes.len(), cv.boxes, end.boxes)
                &&& is_prefix(flow.children, last.children)
            }),
    {
        reveal(Ctx::flow_flushed);
        if flow.run.len() > 0 {
            self.a_run_is_rooted(
                rec,
                cv,
                env.x,
                env.width,
                flow.y,
                flow.prev,
                flow.run,
                env.align,
            );
        } else {
            reveal(Ctx::anonymous);
        }
    }

    /// The children of a block container stand on a stack.
    #[verifier::rlimit(100)]
    #[verifier::spinoff_prover]
    proof fn a_flow_stands(
        &self,
        rec: Recipe,
        h: nat,
        n: nat,
        start: Seq<BoxView>,
        cv: Canvas,
        flow: FlowView,
        env: FlowEnv,
        id: NodeId,
        k: int,
        top: i32,
    )
        requires
            self.wf(),
            self.is_flowing(),
            self.builds_behind(rec, h),
            self.dom.has(id),
            self.dom.height(id) <= h,
            0 <= k,
            !env.pre,
            !flow.marker,
            flow.absolutes.len() == 0,
            text_items(flow.run),
            behind(n, start, cv, flow.children),
            is_mild(env.x),
            0 <= env.width <= 0x0080_0000,
            -0x1000_0000 <= top <= 0x1000_0000,
            flow_stands(cv.boxes, flow, top),
            all_stand(cv.boxes, flow.children, env.x, env.width, top),
            ({
                let (end, last) = self.flow_children(rec, cv, flow, env, self.dom.kids(id), k);
                &&& end.boxes.len() <= usize::MAX
                &&& all_countable(end.boxes, last.children)
            }),
        ensures
            ({
                let (end, last) = self.flow_children(rec, cv, flow, env, self.dom.kids(id), k);
                &&& all_stand(end.boxes, last.children, env.x, env.width, top)
                &&& flow_stands(end.boxes, last, top)
            }),
        decreases self.dom.kids(id).len() - k,
    {
        let kids = self.dom.kids(id);
        if k < kids.len() {
            let c = kids[k];
            let (end, last) = self.flow_children(rec, cv, flow, env, kids, k);
            let (cv2, flow2) = self.flow_child(rec, cv, flow, env, c);
            self.a_child_is_behind(rec, h, n, start, cv, flow, env, id, k);
            self.a_flow_is_behind(rec, h, n, start, cv2, flow2, env, id, k + 1);
            self.a_flow_only_adds(rec, h, n, start, cv2, flow2, env, id, k + 1);
            assert(all_stand(cv2.boxes, flow2.children, env.x, env.width, top) && flow_stands(
                cv2.boxes,
                flow2,
                top,
            )) by {
                reveal(Ctx::flow_child);
                assert(self.dom.nodes@[id.0 as int].children@[k] == c);
                self.dom.a_kid_is_lower(id, k);
                if self.dom.is_element(c) {
                    assert(self.flows_or_flexes(c));
                }
                assert(!self.leaves_flow(c));
                match self.mode_of(c) {
                    ChildMode::Skip => {},
                    ChildMode::Inline => {},
                    ChildMode::Block => {
                        self.a_flush_is_behind(rec, n, start, cv, flow, env);
                        self.a_flush_only_adds(rec, cv, flow, env);
                        let (cv1, flow1) = self.flow_flushed(rec, cv, flow, env);
                        self.a_block_is_behind(
                            rec,
                            h,
                            cv1,
                            c,
                            env.x,
                            env.width,
                            env.height,
                            flow1.y,
                            flow1.prev,
                        );
                        let laid = self.lay_node(
                            rec,
                            cv1,
                            c,
                            env.x,
                            env.width,
                            env.height,
                            flow1.y,
                            flow1.prev,
                            false,
                        );
                        assert(laid.cv == cv2);
                        countable_before(cv2.boxes, end.boxes, flow2.children, last.children);
                        assert(is_prefix(flow1.children, flow2.children));
                        countable_before(cv1.boxes, cv2.boxes, flow1.children, flow2.children);
                        countable_before(cv.boxes, cv1.boxes, flow.children, flow1.children);
                        self.a_run_stands(rec, cv, flow, env, top);
                        self.a_block_stands(rec, h, cv1, flow1, env, c, top);
                        assert(self.flow_dy(c, env.width, env.height) == 0);
                    },
                }
            }
            self.a_flow_stands(rec, h, n, start, cv2, flow2, env, id, k + 1, top);
        }
    }

    /// What fills a block container stands on a stack, and its height is where
    /// the stack ends.
    #[verifier::rlimit(100)]
    #[verifier::spinoff_prover]
    proof fn block_contents_stand(
        &self,
        rec: Recipe,
        h: nat,
        n: nat,
        cv: Canvas,
        id: NodeId,
        computed: ComputedStyle,
        bid: BoxId,
        heights: BlockHeight,
    )
        requires
            self.wf(),
            self.is_flowing(),
            self.builds_behind(rec, h),
            self.dom.has(id),
            self.dom.height(id) <= h,
            self.dom.tag_of(id) != "li"@,
            bid.0 < n <= cv.boxes.len(),
            sealed(n, cv.boxes),
            is_mild(cv.dims(bid).content.x),
            -0x1000_0000 <= cv.dims(bid).content.y <= 0x1000_0000,
            0 <= cv.dims(bid).content.width <= 0x0080_0000,
            ({
                let r = self.block_contents(rec, cv, id, computed, bid, heights, false).0;
                &&& r.boxes.len() <= usize::MAX
                &&& all_countable(r.boxes, r.boxes[bid.0 as int].children)
            }),
        ensures
            ({
                let (r, height) = self.block_contents(rec, cv, id, computed, bid, heights, false);
                let ids = r.boxes[bid.0 as int].children;
                let content = cv.dims(bid).content;
                &&& all_stand(r.boxes, ids, content.x, content.width, content.y)
                &&& ids.len() == 0 ==> height == 0
                &&& ids.len() > 0 ==> height == most_of(
                    r.dims(ids.last()).margin_box().bottom() - content.y,
                    0,
                )
            }),
    {
        reveal(Ctx::block_contents);
        let dims = cv.dims(bid);
        let top = dims.content.y;
        let env = FlowEnv {
            x: dims.content.x,
            width: dims.content.width,
            height: heights.specified,
            align: computed.text_align,
            pre: false,
        };
        let start = FlowView {
            y: top,
            prev: 0,
            children: Seq::empty(),
            run: Seq::empty(),
            marker: false,
            absolutes: Seq::empty(),
        };
        self.a_flow_is_behind(rec, h, n, cv.boxes, cv, start, env, id, 0);
        let (cv1, flow1) = self.flow_children(rec, cv, start, env, self.dom.kids(id), 0);
        self.a_flush_is_behind(rec, n, cv.boxes, cv1, flow1, env);
        let (cv2, flow2) = self.flow_flushed(rec, cv1, flow1, env);
        assert(self.absolutes_laid(rec, cv2, flow2.absolutes, 0, bid, false, flow2.children) == (
            cv2,
            flow2.children,
        ));
        let ids = flow2.children;
        let r = cv2.with_children(bid, ids);
        assert(r == self.block_contents(rec, cv, id, computed, bid, heights, false).0);
        assert(r.boxes[bid.0 as int].children == ids);
        assert(all_countable(cv2.boxes, ids)) by {
            assert forall|k: int| 0 <= k < ids.len() implies (#[trigger] ids[k]).0
                < cv2.boxes.len() && is_countable(cv2.boxes[ids[k].0 as int].dimensions) by {
                assert(is_countable(r.boxes[ids[k].0 as int].dimensions));
            }
        }
        self.a_flush_only_adds(rec, cv1, flow1, env);
        countable_before(cv1.boxes, cv2.boxes, flow1.children, ids);
        self.a_flow_stands(rec, h, n, cv.boxes, cv, start, env, id, 0, top);
        self.a_run_stands(rec, cv1, flow1, env, top);
        assert forall|k: int| 0 <= k < ids.len() implies #[trigger] stands(
            r.boxes,
            ids,
            k,
            env.x,
            env.width,
            top,
        ) by {
            assert(stands(cv2.boxes, ids, k, env.x, env.width, top));
            assert(n <= ids[k].0);
            if k > 0 {
                assert(n <= ids[k - 1].0);
            }
        }
        if ids.len() > 0 {
            let last = ids[ids.len() - 1];
            assert(n <= last.0);
            counted_ends(cv2.boxes[last.0 as int].dimensions);
        }
    }

    /// The boxes of a block container stack. Each starts at the container's left
    /// edge. The first is its own top margin below the container's top, and the
    /// rows between the border boxes of two neighbours are the larger of the
    /// bottom margin of the one and the top margin of the other, except that a
    /// page does not start with a gap. A container without a height of its own is
    /// as tall as its stack.
    #[verifier::rlimit(100)]
    #[verifier::spinoff_prover]
    pub proof fn blocks_stack_with_collapsed_margins(&self, viewport: i32, fuel: nat, a: BoxArgs)
        requires
            self.wf(),
            self.is_flowing(),
            self.dom.has(a.id),
            self.dom.height(a.id) <= fuel,
            self.dom.is_element(a.id),
            !self.hides(a.id),
            !a.pre,
            !lays_out_as_flex(&a.computed),
            !lays_out_as_grid(&a.computed),
            is_mild(a.dims.content.x),
            -0x1000_0000 <= a.dims.content.y <= 0x1000_0000,
            0 <= a.dims.content.width <= 0x0080_0000,
            ({
                let b = self.box_at(viewport, fuel, a);
                &&& b.cv.boxes.len() <= usize::MAX
                &&& all_countable(b.cv.boxes, b.cv.boxes[b.id.0 as int].children)
            }),
        ensures
            ({
                let b = self.box_at(viewport, fuel, a);
                let ids = b.cv.boxes[b.id.0 as int].children;
                let content = b.cv.dims(b.id).content;
                let own = a.computed;
                &&& content.x == a.dims.content.x
                &&& content.y == a.dims.content.y
                &&& content.width == a.dims.content.width
                &&& all_stand(b.cv.boxes, ids, content.x, content.width, content.y)
                &&& own.height.is_auto() && own.min_height.is_auto() && own.max_height.is_auto() ==> {
                    &&& ids.len() == 0 ==> content.height == 0
                    &&& ids.len() > 0 ==> content.height == most_of(
                        b.cv.dims(ids.last()).margin_box().bottom() - content.y,
                        0,
                    )
                }
            }),
    {
        reveal(Ctx::box_with);
        reveal(Ctx::any_contents);
        reveal(Ctx::contents);
        let h = self.dom.height(a.id);
        let rec = self.builder(viewport, (fuel - 1) as nat);
        assert(self.flows_or_flexes(a.id));
        self.a_builder_builds_behind(viewport, (fuel - 1) as nat, h);
        let with = a.cv.with_box(self.bare_box(a.id, a.computed, a.dims));
        let bid = a.cv.next_id();
        let heights = heights_of(a.dims, &a.computed, a.ch);
        let n = a.cv.boxes.len() + 1;
        let full = self.block_contents(rec, with, a.id, a.computed, bid, heights, false).0;
        let b = self.box_at(viewport, fuel, a);
        self.contents_are_behind(rec, h, n, with, a.id, a.computed, bid, heights);
        let laid = self.any_contents(rec, with, a.id, a.computed, bid, heights, false);
        assert(laid.0 == full);
        assert(b.cv.boxes.len() == full.boxes.len());
        let ids = full.boxes[bid.0 as int].children;
        assert(b.cv.boxes[bid.0 as int].children == ids);
        assert(all_countable(full.boxes, ids)) by {
            assert forall|k: int| 0 <= k < ids.len() implies (#[trigger] ids[k]).0
                < full.boxes.len() && is_countable(full.boxes[ids[k].0 as int].dimensions) by {
                assert(n <= ids[k].0 < full.boxes.len());
                assert(is_countable(b.cv.boxes[ids[k].0 as int].dimensions));
            }
        }
        self.block_contents_stand(rec, h, n, with, a.id, a.computed, bid, heights);
        let content = b.cv.dims(bid).content;
        assert forall|k: int| 0 <= k < ids.len() implies #[trigger] stands(
            b.cv.boxes,
            ids,
            k,
            content.x,
            content.width,
            content.y,
        ) by {
            assert(stands(full.boxes, ids, k, content.x, content.width, content.y));
            assert(n <= ids[k].0);
            if k > 0 {
                assert(n <= ids[k - 1].0);
            }
        }
        if ids.len() > 0 {
            assert(n <= ids[ids.len() - 1].0);
        }
    }
}

// ---- the page --------------------------------------------------------------

/// What is on a page so far stands on a stack that ends at `y`, its last margin
/// being `prev`.
spec fn page_stands(cv: Canvas, width: i32, y: i32, prev: i32) -> bool {
    let ids = cv.boxes[0].children;
    &&& 0 < cv.boxes.len()
    &&& all_from(1, ids, cv.boxes.len())
    &&& all_stand(cv.boxes, ids, 0, width, 0)
    &&& ids.len() == 0 ==> y == 0 && prev == 0
    &&& ids.len() > 0 ==> {
        let d = cv.boxes[ids.last().0 as int].dimensions;
        y == d.margin_box().bottom() && prev == d.margin.bottom
    }
}

spec fn page_flow(cv: Canvas, y: i32, prev: i32, run: Seq<InlineItem>) -> FlowView {
    FlowView {
        y,
        prev,
        children: cv.boxes[0].children,
        run,
        marker: false,
        absolutes: Seq::empty(),
    }
}

spec fn page_env(width: i32) -> FlowEnv {
    FlowEnv { x: 0, width, height: None, align: TextAlign::Left, pre: false }
}

/// One more box listed on the page changes nothing else.
proof fn listing_keeps_standing(cv: Canvas, ids: Seq<BoxId>, width: i32)
    requires
        0 < cv.boxes.len(),
        all_from(1, ids, cv.boxes.len()),
        all_stand(cv.boxes, ids, 0, width, 0),
    ensures
        all_stand(cv.with_children(BoxId(0), ids).boxes, ids, 0, width, 0),
{
    let r = cv.with_children(BoxId(0), ids);
    assert forall|k: int| 0 <= k < ids.len() implies #[trigger] stands(
        r.boxes,
        ids,
        k,
        0,
        width,
        0,
    ) by {
        assert(stands(cv.boxes, ids, k, 0, width, 0));
        assert(1 <= ids[k].0 < cv.boxes.len());
        if k > 0 {
            assert(1 <= ids[k - 1].0 < cv.boxes.len());
        }
    }
}

impl<'a> Ctx<'a> {
    /// Nodes none of which is positioned.
    pub open spec fn all_static(&self, nodes: Seq<NodeId>) -> bool {
        forall|i: int|
            0 <= i < nodes.len() ==> self.style(#[trigger] nodes[i]).position is Static
    }

    proof fn a_page_child_adds(
        &self,
        rec: Recipe,
        h: nat,
        cv: Canvas,
        c: NodeId,
        width: i32,
        y: i32,
        prev: i32,
    )
        requires
            self.wf(),
            self.is_flowing(),
            self.builds_behind(rec, h),
            self.low(c, h),
        ensures
            cv.boxes.len() <= self.lay_node(
                rec,
                cv,
                c,
                0,
                width,
                None,
                y,
                prev,
                false,
            ).cv.boxes.len(),
    {
        reveal(Ctx::lay_node);
        reveal(Ctx::element_laid);
        reveal(Ctx::anonymous);
        if self.dom.is_element(c) {
            assert(self.flows_or_flexes(c));
        }
        if self.dom.is_text(c) {
            let items = seq![InlineItem::Text { node: c, style: term_style(&self.style(c)) }];
            self.a_run_is_rooted(rec, cv, 0, width, y, prev, items, TextAlign::Left);
        } else if self.dom.is_element(c) && !self.hides(c) {
            if self.style(c).display is Inline {
                let items = self.inline_items(c, width);
                self.flowing_items_are_text(c, width);
                if items.len() > 0 {
                    self.a_run_is_rooted(rec, cv, 0, width, y, prev, items, TextAlign::Left);
                }
            } else {
                self.a_block_is_behind(rec, h, cv, c, 0, width, None, y, prev);
            }
        }
    }

    /// A run of text put on the page.
    proof fn a_page_run_stands(
        &self,
        rec: Recipe,
        cv: Canvas,
        items: Seq<InlineItem>,
        width: i32,
        y: i32,
        prev: i32,
    )
        requires
            text_items(items),
            0 < items.len(),
            0 <= width <= 0x0080_0000,
            page_stands(cv, width, y, prev),
            all_countable(cv.boxes, cv.boxes[0].children),
            self.anonymous(
                rec,
                cv,
                0,
                width,
                y,
                prev,
                items,
                TextAlign::Left,
                false,
            ).cv.boxes.len() <= usize::MAX,
        ensures
            ({
                let laid = self.anonymous(
                    rec,
                    cv,
                    0,
                    width,
                    y,
                    prev,
                    items,
                    TextAlign::Left,
                    false,
                );
                let ids = cv.boxes[0].children.push(laid.id->0);
                &&& laid.id == Some(BoxId(cv.boxes.len() as usize))
                &&& cv.boxes.len() < laid.cv.boxes.len()
                &&& kept(cv.boxes.len(), cv.boxes, laid.cv.boxes)
                &&& all_stand(laid.cv.boxes, ids, 0, width, 0)
            }),
    {
        let flow = page_flow(cv, y, prev, items);
        let env = page_env(width);
        self.a_run_is_rooted(rec, cv, 0, width, y, prev, items, TextAlign::Left);
        assert(self.flow_flushed(rec, cv, flow, env).0 == self.anonymous(
            rec,
            cv,
            0,
            width,
            y,
            prev,
            items,
            TextAlign::Left,
            false,
        ).cv) by {
            reveal(Ctx::flow_flushed);
        }
        self.a_run_stands(rec, cv, flow, env, 0);
        assert(self.flow_flushed(rec, cv, flow, env).1.children =~= cv.boxes[0].children.push(
            BoxId(cv.boxes.len() as usize),
        )) by {
            reveal(Ctx::flow_flushed);
        }
    }

    /// One child of the document put on the page.
    #[verifier::rlimit(100)]
    #[verifier::spinoff_prover]
    proof fn a_page_child_stands(
        &self,
        rec: Recipe,
        h: nat,
        cv: Canvas,
        c: NodeId,
        width: i32,
        y: i32,
        prev: i32,
    )
        requires
            self.wf(),
            self.is_flowing(),
            self.builds_behind(rec, h),
            self.low(c, h),
            0 <= width <= 0x0080_0000,
            page_stands(cv, width, y, prev),
            all_countable(cv.boxes, cv.boxes[0].children),
            self.lay_node(rec, cv, c, 0, width, None, y, prev, false).cv.boxes.len() <= usize::MAX,
        ensures
            ({
                let laid = self.lay_node(rec, cv, c, 0, width, None, y, prev, false);
                let ids = cv.boxes[0].children.push(laid.id->0);
                &&& laid.id is None ==> laid.cv == cv && laid.prev == prev
                &&& laid.id is Some ==> {
                    &&& laid.id == Some(BoxId(cv.boxes.len() as usize))
                    &&& cv.boxes.len() < laid.cv.boxes.len()
                    &&& kept(cv.boxes.len(), cv.boxes, laid.cv.boxes)
                    &&& all_stand(laid.cv.boxes, ids, 0, width, 0)
                }
            }),
    {
        let laid = self.lay_node(rec, cv, c, 0, width, None, y, prev, false);
        if self.dom.is_element(c) {
            assert(self.flows_or_flexes(c));
        }
        if self.dom.is_text(c) {
            let items = seq![InlineItem::Text { node: c, style: term_style(&self.style(c)) }];
            if !blank(self.dom.text_of(c)) {
                assert(laid == self.anonymous(
                    rec,
                    cv,
                    0,
                    width,
                    y,
                    prev,
                    items,
                    TextAlign::Left,
                    false,
                )) by {
                    reveal(Ctx::lay_node);
                }
                self.a_page_run_stands(rec, cv, items, width, y, prev);
            } else {
                reveal(Ctx::lay_node);
            }
        } else if self.dom.is_element(c) && !self.hides(c) {
            if self.style(c).display is Inline {
                let items = self.inline_items(c, width);
                self.flowing_items_are_text(c, width);
                assert(laid == self.anonymous(
                    rec,
                    cv,
                    0,
                    width,
                    y,
                    prev,
                    items,
                    TextAlign::Left,
                    false,
                )) by {
                    reveal(Ctx::lay_node);
                    reveal(Ctx::element_laid);
                }
                if items.len() > 0 {
                    self.a_page_run_stands(rec, cv, items, width, y, prev);
                } else {
                    reveal(Ctx::anonymous);
                }
            } else {
                let flow = page_flow(cv, y, prev, Seq::empty());
                self.a_block_stands(rec, h, cv, flow, page_env(width), c, 0);
                self.a_block_is_behind(rec, h, cv, c, 0, width, None, y, prev);
            }
        } else {
            reveal(Ctx::lay_node);
        }
    }

    proof fn a_page_only_grows(
        &self,
        rec: Recipe,
        h: nat,
        cv: Canvas,
        kids: Seq<NodeId>,
        k: int,
        width: i32,
        y: i32,
        prev: i32,
    )
        requires
            self.wf(),
            self.is_flowing(),
            self.builds_behind(rec, h),
            self.nodes_low(kids, h),
            0 <= k,
            0 < cv.boxes.len(),
        ensures
            cv.boxes.len() <= self.page_children(rec, cv, kids, k, width, y, prev).0.boxes.len(),
        decreases kids.len() - k,
    {
        if k < kids.len() {
            let c = kids[k];
            assert(self.low(kids[k], h));
            if self.dom.is_element(c) {
                assert(self.flows_or_flexes(c));
            }
            assert(!self.leaves_flow(c));
            self.a_page_child_adds(rec, h, cv, c, width, y, prev);
            let laid = self.lay_node(rec, cv, c, 0, width, None, y, prev, false);
            match laid.id {
                Some(id) => {
                    let next = laid.cv.with_children(
                        BoxId(0),
                        laid.cv.boxes[0].children.push(id),
                    );
                    let d = next.dims(id);
                    let dy = if self.style(c).position is Relative {
                        relative_delta(self.style(c), width, None).1
                    } else {
                        0
                    };
                    self.a_page_only_grows(
                        rec,
                        h,
                        next,
                        kids,
                        k + 1,
                        width,
                        minus(d.margin_box().bottom(), dy),
                        d.margin.bottom,
                    );
                },
                None => {
                    self.a_page_only_grows(rec, h, laid.cv, kids, k + 1, width, y, laid.prev);
                },
            }
        }
    }

    /// What is on a page stays as it is while more is put there.
    proof fn a_page_keeps_what_it_has(
        &self,
        rec: Recipe,
        h: nat,
        cv: Canvas,
        kids: Seq<NodeId>,
        k: int,
        width: i32,
        y: i32,
        prev: i32,
    )
        requires
            self.wf(),
            self.is_flowing(),
            self.builds_behind(rec, h),
            self.nodes_low(kids, h),
            self.all_static(kids),
            0 <= k,
            0 < cv.boxes.len(),
            self.page_children(rec, cv, kids, k, width, y, prev).0.boxes.len() <= usize::MAX,
        ensures
            ({
                let end = self.page_children(rec, cv, kids, k, width, y, prev).0;
                &&& cv.boxes.len() <= end.boxes.len()
                &&& forall|i: int| 1 <= i < cv.boxes.len() ==> #[trigger] end.boxes[i] == cv.boxes[i]
                &&& is_prefix(cv.boxes[0].children, end.boxes[0].children)
            }),
        decreases kids.len() - k,
    {
        if k < kids.len() {
            let c = kids[k];
            assert(self.low(kids[k], h));
            assert(self.style(kids[k]).position is Static);
            if self.dom.is_element(c) {
                assert(self.flows_or_flexes(c));
            }
            assert(!self.leaves_flow(c));
            self.a_page_child_adds(rec, h, cv, c, width, y, prev);
            let laid = self.lay_node(rec, cv, c, 0, width, None, y, prev, false);
            let end = self.page_children(rec, cv, kids, k, width, y, prev).0;
            match laid.id {
                Some(id) => {
                    let next = laid.cv.with_children(
                        BoxId(0),
                        laid.cv.boxes[0].children.push(id),
                    );
                    let d = next.dims(id);
                    self.a_page_only_grows(
                        rec,
                        h,
                        next,
                        kids,
                        k + 1,
                        width,
                        minus(d.margin_box().bottom(), 0),
                        d.margin.bottom,
                    );
                    self.a_page_keeps_what_it_has(
                        rec,
                        h,
                        next,
                        kids,
                        k + 1,
                        width,
                        minus(d.margin_box().bottom(), 0),
                        d.margin.bottom,
                    );
                    self.a_page_child_keeps(rec, h, cv, c, width, y, prev);
                    assert forall|i: int| 1 <= i < cv.boxes.len() implies #[trigger] end.boxes[i]
                        == cv.boxes[i] by {
                        assert(next.boxes[i] == laid.cv.boxes[i]);
                        assert(laid.cv.boxes[i] == cv.boxes[i]);
                        assert(end.boxes[i] == next.boxes[i]);
                    }
                    assert forall|i: int| 0 <= i < cv.boxes[0].children.len() implies #[trigger] cv.boxes[0].children[i]
                        == end.boxes[0].children[i] by {
                        assert(laid.cv.boxes[0] == cv.boxes[0]);
                        assert(next.boxes[0].children[i] == cv.boxes[0].children[i]);
                        assert(next.boxes[0].children[i] == end.boxes[0].children[i]);
                    }
                },
                None => {
                    self.a_page_only_grows(rec, h, laid.cv, kids, k + 1, width, y, laid.prev);
                    self.a_page_keeps_what_it_has(
                        rec,
                        h,
                        laid.cv,
                        kids,
                        k + 1,
                        width,
                        y,
                        laid.prev,
                    );
                    self.a_page_child_keeps(rec, h, cv, c, width, y, prev);
                },
            }
        }
    }

    proof fn a_page_child_keeps(
        &self,
        rec: Recipe,
        h: nat,
        cv: Canvas,
        c: NodeId,
        width: i32,
        y: i32,
        prev: i32,
    )
        requires
            self.wf(),
            self.is_flowing(),
            self.builds_behind(rec, h),
            self.low(c, h),
            self.lay_node(rec, cv, c, 0, width, None, y, prev, false).cv.boxes.len() <= usize::MAX,
        ensures
            ({
                let laid = self.lay_node(rec, cv, c, 0, width, None, y, prev, false);
                &&& kept(cv.boxes.len(), cv.boxes, laid.cv.boxes)
                &&& laid.id is None ==> laid.cv == cv
            }),
    {
        reveal(Ctx::lay_node);
        reveal(Ctx::element_laid);
        reveal(Ctx::anonymous);
        if self.dom.is_element(c) {
            assert(self.flows_or_flexes(c));
        }
        if self.dom.is_text(c) {
            let items = seq![InlineItem::Text { node: c, style: term_style(&self.style(c)) }];
            self.a_run_is_rooted(rec, cv, 0, width, y, prev, items, TextAlign::Left);
        } else if self.dom.is_element(c) && !self.hides(c) {
            if self.style(c).display is Inline {
                let items = self.inline_items(c, width);
                self.flowing_items_are_text(c, width);
                if items.len() > 0 {
                    self.a_run_is_rooted(rec, cv, 0, width, y, prev, items, TextAlign::Left);
                }
            } else {
                self.a_block_is_behind(rec, h, cv, c, 0, width, None, y, prev);
            }
        }
    }

    #[verifier::rlimit(100)]
    #[verifier::spinoff_prover]
    proof fn a_page_stands(
        &self,
        rec: Recipe,
        h: nat,
        cv: Canvas,
        kids: Seq<NodeId>,
        k: int,
        width: i32,
        y: i32,
        prev: i32,
    )
        requires
            self.wf(),
            self.is_flowing(),
            self.builds_behind(rec, h),
            self.nodes_low(kids, h),
            self.all_static(kids),
            0 <= k,
            0 <= width <= 0x0080_0000,
            page_stands(cv, width, y, prev),
            ({
                let end = self.page_children(rec, cv, kids, k, width, y, prev).0;
                &&& end.boxes.len() <= usize::MAX
                &&& all_countable(end.boxes, end.boxes[0].children)
            }),
        ensures
            ({
                let (end, last) = self.page_children(rec, cv, kids, k, width, y, prev);
                let ids = end.boxes[0].children;
                &&& all_from(1, ids, end.boxes.len())
                &&& all_stand(end.boxes, ids, 0, width, 0)
                &&& ids.len() == 0 ==> last == 0
                &&& ids.len() > 0 ==> last == end.boxes[ids.last().0 as int].dimensions.margin_box().bottom()
            }),
        decreases kids.len() - k,
    {
        if k < kids.len() {
            let c = kids[k];
            assert(self.low(kids[k], h));
            assert(self.style(kids[k]).position is Static);
            if self.dom.is_element(c) {
                assert(self.flows_or_flexes(c));
            }
            assert(!self.leaves_flow(c));
            let end = self.page_children(rec, cv, kids, k, width, y, prev).0;
            let old = cv.boxes[0].children;
            self.a_page_keeps_what_it_has(rec, h, cv, kids, k, width, y, prev);
            assert(all_countable(cv.boxes, old)) by {
                assert forall|i: int| 0 <= i < old.len() implies (#[trigger] old[i]).0
                    < cv.boxes.len() && is_countable(cv.boxes[old[i].0 as int].dimensions) by {
                    assert(1 <= old[i].0 < cv.boxes.len());
                    assert(old[i] == end.boxes[0].children[i]);
                    assert(end.boxes[old[i].0 as int] == cv.boxes[old[i].0 as int]);
                    assert(is_countable(
                        end.boxes[end.boxes[0].children[i].0 as int].dimensions,
                    ));
                }
            }
            self.a_page_child_adds(rec, h, cv, c, width, y, prev);
            let laid = self.lay_node(rec, cv, c, 0, width, None, y, prev, false);
            match laid.id {
                Some(id) => {
                    let ids = laid.cv.boxes[0].children.push(id);
                    let next = laid.cv.with_children(BoxId(0), ids);
                    let d = next.dims(id);
                    self.a_page_only_grows(
                        rec,
                        h,
                        next,
                        kids,
                        k + 1,
                        width,
                        minus(d.margin_box().bottom(), 0),
                        d.margin.bottom,
                    );
                    self.a_page_child_stands(rec, h, cv, c, width, y, prev);
                    assert(laid.cv.boxes[0] == cv.boxes[0]);
                    assert(all_from(1, ids, laid.cv.boxes.len())) by {
                        assert forall|i: int| 0 <= i < ids.len() implies 1 <= (
                        #[trigger] ids[i]).0 < laid.cv.boxes.len() by {
                            if i < old.len() {
                                assert(1 <= old[i].0 < cv.boxes.len());
                            }
                        }
                    }
                    listing_keeps_standing(laid.cv, ids, width);
                    assert(next.boxes[0].children == ids);
                    assert(ids.last() == id);
                    assert(d == laid.cv.dims(id));
                    self.a_page_stands(
                        rec,
                        h,
                        next,
                        kids,
                        k + 1,
                        width,
                        minus(d.margin_box().bottom(), 0),
                        d.margin.bottom,
                    );
                },
                None => {
                    self.a_page_only_grows(rec, h, laid.cv, kids, k + 1, width, y, laid.prev);
                    self.a_page_child_stands(rec, h, cv, c, width, y, prev);
                    self.a_page_stands(rec, h, laid.cv, kids, k + 1, width, y, laid.prev);
                },
            }
        }
    }

    /// The boxes of a page stack, as those of any block container do: each at the
    /// left edge, the rows between two of them the larger of the margins that
    /// meet there, and the first on the first row. The page is at least as tall
    /// as its stack.
    #[verifier::rlimit(100)]
    #[verifier::spinoff_prover]
    pub proof fn a_page_stacks_with_collapsed_margins(&self, width: u16, viewport: u16)
        requires
            self.wf(),
            self.is_flowing(),
            self.all_static(self.dom.kids(self.dom.root)),
            ({
                let t = self.page(width, viewport);
                &&& t.boxes.len() <= usize::MAX
                &&& all_countable(t.boxes, t.boxes[0].children)
            }),
        ensures
            ({
                let t = self.page(width, viewport);
                let ids = t.boxes[0].children;
                &&& all_stand(t.boxes, ids, 0, t.width, 0)
                &&& ids.len() > 0 ==> t.boxes[ids.last().0 as int].dimensions.margin_box().bottom()
                    <= t.height
            }),
    {
        reveal(Ctx::page);
        let t = self.page(width, viewport);
        let w = at_least_one(width);
        let v = at_least_one(viewport);
        let n = self.dom.nodes@.len();
        let rec = self.builder(v, n);
        let kids = self.dom.kids(self.dom.root);
        let blank = self.blank_page(w);
        self.dom.a_document_is_no_deeper_than_its_nodes(self.dom.root);
        self.kids_are_low(self.dom.root);
        assert(self.nodes_low(kids, n + 1)) by {
            assert forall|i: int| 0 <= i < kids.len() implies self.low(
                #[trigger] kids[i],
                n + 1,
            ) by {
                assert(self.low(kids[i], self.dom.height(self.dom.root)));
            }
        }
        self.a_builder_builds_behind(v, n, n + 1);
        let (laid, y) = self.stacked_on(rec, w);
        let height = self.page_height(laid.boxes, y, w);
        let drawn = self.page_drawn(laid.boxes, w, height);
        self.sticking_all_keeps_the_shape(drawn, 0, w, v);
        assert(t.boxes == self.stuck_from(drawn, 0, w, v));
        self.a_page_only_grows(rec, n + 1, blank, kids, 0, w, 0, 0);
        let ids = laid.boxes[0].children;
        assert(t.boxes[0].children == ids) by {
            assert(t.boxes[0] == (BoxView { sticky: t.boxes[0].sticky, ..drawn[0] }));
        }
        assert(all_countable(laid.boxes, ids)) by {
            assert forall|k: int| 0 <= k < ids.len() implies (#[trigger] ids[k]).0
                < laid.boxes.len() && is_countable(laid.boxes[ids[k].0 as int].dimensions) by {
                let i = t.boxes[0].children[k].0 as int;
                assert(is_countable(t.boxes[i].dimensions));
                self.a_page_keeps_what_it_has(rec, n + 1, blank, kids, 0, w, 0, 0);
                assert(t.boxes[i] == (BoxView { sticky: t.boxes[i].sticky, ..drawn[i] }));
                if i == 0 {
                    self.the_page_does_not_hold_itself(rec, n + 1, blank, kids, 0, w, 0, 0, k);
                }
            }
        }
        self.a_page_stands(rec, n + 1, blank, kids, 0, w, 0, 0);
        assert forall|k: int| 0 <= k < ids.len() implies #[trigger] stands(
            t.boxes,
            ids,
            k,
            0,
            w,
            0,
        ) by {
            assert(stands(laid.boxes, ids, k, 0, w, 0));
            let i = ids[k].0 as int;
            assert(1 <= ids[k].0 < laid.boxes.len());
            assert(t.boxes[i] == (BoxView { sticky: t.boxes[i].sticky, ..drawn[i] }));
            if k > 0 {
                let j = ids[k - 1].0 as int;
                assert(1 <= ids[k - 1].0 < laid.boxes.len());
                assert(t.boxes[j] == (BoxView { sticky: t.boxes[j].sticky, ..drawn[j] }));
            }
        }
        if ids.len() > 0 {
            let i = ids[ids.len() - 1].0 as int;
            assert(1 <= ids[ids.len() - 1].0 < laid.boxes.len());
            assert(t.boxes[i] == (BoxView { sticky: t.boxes[i].sticky, ..drawn[i] }));
        }
    }

    /// The page's own box is not one of those it lists.
    proof fn the_page_does_not_hold_itself(
        &self,
        rec: Recipe,
        h: nat,
        cv: Canvas,
        kids: Seq<NodeId>,
        k: int,
        width: i32,
        y: i32,
        prev: i32,
        m: int,
    )
        requires
            self.wf(),
            self.is_flowing(),
            self.builds_behind(rec, h),
            self.nodes_low(kids, h),
            self.all_static(kids),
            0 <= k,
            0 < cv.boxes.len(),
            all_from(1, cv.boxes[0].children, cv.boxes.len()),
            self.page_children(rec, cv, kids, k, width, y, prev).0.boxes.len() <= usize::MAX,
            0 <= m < self.page_children(rec, cv, kids, k, width, y, prev).0.boxes[0].children.len(),
        ensures
            self.page_children(rec, cv, kids, k, width, y, prev).0.boxes[0].children[m].0 >= 1,
        decreases kids.len() - k,
    {
        if k < kids.len() {
            let c = kids[k];
            assert(self.low(kids[k], h));
            assert(self.style(kids[k]).position is Static);
            if self.dom.is_element(c) {
                assert(self.flows_or_flexes(c));
            }
            assert(!self.leaves_flow(c));
            self.a_page_child_adds(rec, h, cv, c, width, y, prev);
            let laid = self.lay_node(rec, cv, c, 0, width, None, y, prev, false);
            match laid.id {
                Some(id) => {
                    let ids = laid.cv.boxes[0].children.push(id);
                    let next = laid.cv.with_children(BoxId(0), ids);
                    let d = next.dims(id);
                    self.a_page_only_grows(
                        rec,
                        h,
                        next,
                        kids,
                        k + 1,
                        width,
                        minus(d.margin_box().bottom(), 0),
                        d.margin.bottom,
                    );
                    self.a_page_child_keeps(rec, h, cv, c, width, y, prev);
                    self.a_page_child_is_new(rec, h, cv, c, width, y, prev);
                    assert(laid.cv.boxes[0] == cv.boxes[0]);
                    assert(all_from(1, ids, next.boxes.len())) by {
                        assert forall|i: int| 0 <= i < ids.len() implies 1 <= (
                        #[trigger] ids[i]).0 < next.boxes.len() by {
                            if i < ids.len() - 1 {
                                assert(1 <= cv.boxes[0].children[i].0 < cv.boxes.len());
                            }
                        }
                    }
                    self.the_page_does_not_hold_itself(
                        rec,
                        h,
                        next,
                        kids,
                        k + 1,
                        width,
                        minus(d.margin_box().bottom(), 0),
                        d.margin.bottom,
                        m,
                    );
                },
                None => {
                    self.a_page_only_grows(rec, h, laid.cv, kids, k + 1, width, y, laid.prev);
                    self.a_page_child_keeps(rec, h, cv, c, width, y, prev);
                    self.the_page_does_not_hold_itself(
                        rec,
                        h,
                        laid.cv,
                        kids,
                        k + 1,
                        width,
                        y,
                        laid.prev,
                        m,
                    );
                },
            }
        } else {
            assert(1 <= cv.boxes[0].children[m].0);
        }
    }

    proof fn a_page_child_is_new(
        &self,
        rec: Recipe,
        h: nat,
        cv: Canvas,
        c: NodeId,
        width: i32,
        y: i32,
        prev: i32,
    )
        requires
            self.wf(),
            self.is_flowing(),
            self.builds_behind(rec, h),
            self.low(c, h),
            self.lay_node(rec, cv, c, 0, width, None, y, prev, false).cv.boxes.len() <= usize::MAX,
        ensures
            ({
                let laid = self.lay_node(rec, cv, c, 0, width, None, y, prev, false);
                laid.id matches Some(id) ==> id.0 == cv.boxes.len() && id.0 < laid.cv.boxes.len()
            }),
    {
        reveal(Ctx::lay_node);
        reveal(Ctx::element_laid);
        reveal(Ctx::anonymous);
        if self.dom.is_element(c) {
            assert(self.flows_or_flexes(c));
        }
        if self.dom.is_text(c) {
            let items = seq![InlineItem::Text { node: c, style: term_style(&self.style(c)) }];
            self.a_run_is_rooted(rec, cv, 0, width, y, prev, items, TextAlign::Left);
        } else if self.dom.is_element(c) && !self.hides(c) {
            if self.style(c).display is Inline {
                let items = self.inline_items(c, width);
                self.flowing_items_are_text(c, width);
                if items.len() > 0 {
                    self.a_run_is_rooted(rec, cv, 0, width, y, prev, items, TextAlign::Left);
                }
            } else {
                self.a_block_is_behind(rec, h, cv, c, 0, width, None, y, prev);
            }
        }
    }
}

// ---- rules and breaks ------------------------------------------------------

impl<'a> Ctx<'a> {
    /// A rule is one row of line across its container, its edges taken off, and
    /// its margins collapse as a block's do.
    pub proof fn a_rule_is_drawn_across_its_container(
        &self,
        cv: Canvas,
        x: i32,
        width: i32,
        y: i32,
        prev: i32,
        c: ComputedStyle,
    )
        requires
            is_mild(x),
            is_mild(prev),
            0 <= width <= 0x0080_0000,
            -0x1000_0000 <= y <= 0x1000_0000,
            cv.boxes.len() + 2 <= usize::MAX,
        ensures
            ({
                let laid = self.rule_laid(cv, x, width, y, prev, c);
                let d = laid.cv.dims(laid.id->0);
                let asked = c.margin.top.to_cells_v(width);
                let edges = c.margin.left.to_cells_h(width) + c.margin.right.to_cells_h(width)
                    + c.border.left.to_cells_h(width) + c.border.right.to_cells_h(width)
                    + c.padding.left.to_cells_h(width) + c.padding.right.to_cells_h(width);
                let text = laid.cv.boxes[cv.boxes.len() as int];
                &&& laid.id is Some
                &&& d.border_box().y == y - prev + most_of(asked as int, prev as int)
                &&& d.content.height == 1
                &&& text.dimensions.content == d.content
                &&& text.text is Some && (text.text->0).len() == d.content.width
                &&& !c.margin.left.is_auto() && !c.margin.right.is_auto() && edges <= width
                    ==> d.content.width == width - edges
            }),
    {
        reveal(Ctx::rule_laid);
        let d = resolve_block_dims(&c, width, None);
        edges_are_modest(c, width, None);
        lengths_are_capped(c.margin.top, width);
        lengths_are_capped(c.margin.left, width);
        lengths_are_capped(c.margin.right, width);
        lengths_are_capped(c.border.left, width);
        lengths_are_capped(c.border.right, width);
        lengths_are_capped(c.padding.left, width);
        lengths_are_capped(c.padding.right, width);
        let top = larger(d.margin.top, prev);
        let there = d.with_margin(EdgeSizes { top, ..d.margin });
        let at = content_at(there, x, plus(minus(y, prev), top), 1);
        a_border_box_starts_there(there, x, plus(minus(y, prev), top), at);
    }

    /// A forced break between blocks is one empty row of their container.
    pub proof fn a_break_is_one_row(
        &self,
        cv: Canvas,
        x: i32,
        width: i32,
        y: i32,
        prev: i32,
        c: ComputedStyle,
    )
        requires
            0 <= width,
            i32::MIN <= y - prev <= i32::MAX,
            cv.boxes.len() < usize::MAX,
        ensures
            ({
                let laid = self.break_laid(cv, x, width, y, prev, c);
                let b = laid.cv.boxes[cv.boxes.len() as int];
                &&& laid.id == Some(BoxId(cv.boxes.len() as usize))
                &&& laid.cv.boxes.len() == cv.boxes.len() + 1
                &&& b.dimensions.margin_box() == b.dimensions.content
                &&& b.dimensions.content.x == x && b.dimensions.content.width == width
                &&& b.dimensions.content.height == 1
                &&& b.dimensions.content.y == y - prev
                &&& b.text is None
                &&& laid.prev == 0
            }),
    {
    }
}

} // verus!
