//! A column and a block over the same items build the same boxes.
//!
//! How many boxes an element gets is written down once, as a count over the
//! document, and shown to be what both formatting contexts build. No item of a
//! column is built twice, and none is built and thrown away.

use vstd::prelude::*;

use crate::blocks::{heights_of, BlockHeight, BoxArgs, FlowEnv, FlowView, Recipe};
use crate::boxes::{in_range, BoxId};
use crate::boxmodel::{is_column, lays_out_as_flex, resolve_block_dims, term_style};
use crate::cells::{larger, minus, plus};
use crate::context::{text_source, ChildMode, Ctx, SourceView};
use crate::dom::NodeId;
use crate::engine::{moving_only_moves, Canvas};
use crate::flex::{line_end, line_ends, lines_from, Item};
use crate::flexbox::{
    column_placed, cross_aligned, crossed, in_order, line_crossed, lines_crossed, placement,
    plan_cross, plan_line, stretched, FlexAxis, FlexEnv, FlexItem, LinePlan,
};
use crate::inline::InlineItem;
use crate::line_laws::text_items;
use crate::order::sorting_sorts;
use crate::page::at_least_one;
use crate::page_laws::ordinary_tag;
use crate::style::{ComputedStyle, Length, TextAlign, MAX_CELLS};
use crate::text::blank;

verus! {

/// A box that stacks what it holds: a block, or a column of one line.
pub open spec fn stacks(c: ComputedStyle) -> bool {
    c.display is Block || (c.display is Flex && is_column(&c) && c.flex_wrap is NoWrap)
}

pub open spec fn not_negative(len: Length) -> bool {
    match len {
        Length::Auto => true,
        Length::Px(n) => n >= 0,
        Length::Em(n) => n >= 0,
        Length::Percent(n) => n >= 0,
    }
}

/// An item that fills its column as it would fill a block: it stretches, and
/// its edges beside it are neither automatic nor negative.
pub open spec fn fills(c: ComputedStyle, container: ComputedStyle) -> bool {
    &&& c.align_self.resolve(container.align_items) is Stretch
    &&& !(c.margin.left is Auto) && !(c.margin.right is Auto)
    &&& not_negative(c.margin.left) && not_negative(c.margin.right)
    &&& not_negative(c.padding.left) && not_negative(c.padding.right)
    &&& not_negative(c.border.left) && not_negative(c.border.right)
}

/// What is on an empty canvas.
pub open spec fn nothing_yet() -> Canvas {
    Canvas { boxes: Seq::empty(), borders: Seq::empty(), grid_items: 0 }
}

impl<'a> Ctx<'a> {
    /// An element whose style alone decides its layout, in the flow: text in an
    /// inline, or boxes stacked.
    pub open spec fn flows_plainly(&self, id: NodeId) -> bool {
        let c = self.style(id);
        c.position is Static && (self.hides(id) || (ordinary_tag(self.dom.tag_of(id)) && (
        c.display is Inline || stacks(c))))
    }

    /// A child that is laid out alike whether its parent is a block or a
    /// column: text that shows, a box that fills it, or nothing at all. Text
    /// that is only whitespace is not: a block wraps it, a column drops it.
    pub open spec fn is_item_of(&self, kid: NodeId, parent: NodeId) -> bool {
        &&& self.dom.is_text(kid) ==> !blank(self.dom.text_of(kid)) && self.style(
            parent,
        ).align_items is Stretch
        &&& self.dom.is_element(kid) ==> self.hides(kid) || (stacks(self.style(kid)) && fills(
            self.style(kid),
            self.style(parent),
        ))
    }

    pub open spec fn holds_only_items(&self, id: NodeId) -> bool {
        forall|k: int|
            0 <= k < self.dom.kids(id).len() ==> self.is_item_of(
                #[trigger] self.dom.kids(id)[k],
                id,
            )
    }

    /// A document of text and stacked boxes, every column of which holds only
    /// items that fill it.
    pub open spec fn is_stacked(&self) -> bool {
        &&& forall|id: NodeId|
            self.dom.has(id) && self.dom.is_element(id) ==> #[trigger] self.flows_plainly(id)
        &&& forall|id: NodeId|
            self.dom.has(id) && self.dom.is_element(id) && lays_out_as_flex(&self.style(id))
                ==> #[trigger] self.holds_only_items(id)
        &&& forall|k: int|
            0 <= k < self.dom.kids(self.dom.root).len() ==> {
                let kid = #[trigger] self.dom.kids(self.dom.root)[k];
                &&& !self.dom.is_text(kid)
                &&& self.dom.is_element(kid) ==> self.hides(kid) || stacks(self.style(kid))
            }
    }

    /// How many boxes a run of text gets: the anonymous block around it, and
    /// its lines with what is on them.
    pub open spec fn boxes_of_text(&self, items: Seq<InlineItem>, width: i32) -> nat {
        if items.len() == 0 {
            0
        } else {
            1 + self.inline_laid(
                self.builder(1, 0),
                nothing_yet(),
                items,
                0,
                0,
                width,
                TextAlign::Left,
            ).0.boxes.len()
        }
    }

    /// How wide an element's content box is in a column of that many cells.
    pub open spec fn content_width(&self, id: NodeId, width: i32) -> i32 {
        resolve_block_dims(&self.style(id), width, None).content.width
    }

    /// How many boxes an element gets, itself one of them, with that content
    /// width.
    pub open spec fn boxes_of(&self, id: NodeId, width: i32) -> nat
        decreases self.dom.rank_of(id), self.dom.kids(id).len() + 1,
        when self.wf() && self.dom.has(id)
    {
        1 + self.boxes_inside(id, 0, Seq::empty(), width)
    }

    /// How many boxes the children from the `k`th on get, with `run` the inline
    /// content before them.
    pub open spec fn boxes_inside(
        &self,
        id: NodeId,
        k: int,
        run: Seq<InlineItem>,
        width: i32,
    ) -> nat
        decreases self.dom.rank_of(id), self.dom.kids(id).len() - k,
        when self.wf() && self.dom.has(id) && 0 <= k
    {
        if k >= self.dom.kids(id).len() {
            self.boxes_of_text(run, width)
        } else {
            let c = self.dom.kids(id)[k];
            match self.mode_of(c) {
                ChildMode::Skip => self.boxes_inside(id, k + 1, run, width),
                ChildMode::Inline => self.boxes_inside(
                    id,
                    k + 1,
                    run + self.inline_items(c, width),
                    width,
                ),
                ChildMode::Block => self.boxes_of_text(run, width) + self.boxes_of(
                    c,
                    self.content_width(c, width),
                ) + self.boxes_inside(id, k + 1, Seq::empty(), width),
            }
        }
    }

    proof fn plain_items_are_text(&self, id: NodeId, width: i32)
        requires
            self.wf(),
            self.is_stacked(),
            self.dom.has(id),
        ensures
            text_items(self.inline_items(id, width)),
        decreases self.dom.rank_of(id), 1nat,
    {
        if self.dom.is_element(id) {
            assert(self.flows_plainly(id));
        }
        self.plain_kid_items_are_text(id, width, 0);
    }

    proof fn plain_kid_items_are_text(&self, id: NodeId, width: i32, k: int)
        requires
            self.wf(),
            self.is_stacked(),
            self.dom.has(id),
            0 <= k,
        ensures
            text_items(self.kid_items(id, width, k)),
        decreases self.dom.rank_of(id), 0nat, self.dom.kids(id).len() - k,
    {
        if k < self.dom.kids(id).len() {
            let c = self.dom.kids(id)[k];
            assert(self.dom.nodes@[id.0 as int].children@[k] == c);
            self.plain_items_are_text(c, width);
            self.plain_kid_items_are_text(id, width, k + 1);
        }
    }

    proof fn nothing_is_loose(&self, id: NodeId, k: int)
        requires
            self.wf(),
            self.is_stacked(),
            self.dom.has(id),
            0 <= k,
        ensures
            self.loose_absolutes(id, k) == Seq::<NodeId>::empty(),
        decreases self.dom.rank_of(id), self.dom.kids(id).len() - k,
    {
        if k < self.dom.kids(id).len() {
            let c = self.dom.kids(id)[k];
            assert(self.dom.nodes@[id.0 as int].children@[k] == c);
            if self.dom.is_element(c) {
                assert(self.flows_plainly(c));
                if self.style(c).display is Inline {
                    self.nothing_is_loose(c, 0);
                }
            }
            self.nothing_is_loose(id, k + 1);
        }
    }

    /// A run of text as a child of a block container.
    proof fn a_run_is_counted(
        &self,
        rec: Recipe,
        cv: Canvas,
        x: i32,
        width: i32,
        y: i32,
        prev: i32,
        items: Seq<InlineItem>,
        align: TextAlign,
    )
        requires
            text_items(items),
        ensures
            ({
                let laid = self.anonymous(rec, cv, x, width, y, prev, items, align, false);
                &&& laid.cv.boxes.len() == cv.boxes.len() + self.boxes_of_text(items, width)
                &&& (laid.id is None <==> items.len() == 0)
                &&& laid.id matches Some(id) ==> id.0 < laid.cv.boxes.len()
            }),
    {
        reveal(Ctx::anonymous);
        if items.len() > 0 {
            let after = minus(y, prev);
            let used_top = if after == 0 && prev == 0 {
                0
            } else {
                prev
            };
            let top = plus(after, used_top);
            let with = cv.with_box(
                crate::engine::plain_box(
                    crate::boxes::BoxKind::AnonymousBlock,
                    None,
                    crate::dimensions::Dimensions::bare(
                        crate::dimensions::Rect { x, y: top, width, height: 0 },
                    ),
                    ComputedStyle::initial(),
                ),
            );
            self.text_takes_as_many_boxes_anywhere(
                self,
                rec,
                self.builder(1, 0),
                with,
                nothing_yet(),
                items,
                (x, top),
                (0, 0),
                width,
                align,
                TextAlign::Left,
            );
        }
    }

    /// The builder builds as many boxes as are counted, for every element less
    /// tall than `h`.
    pub open spec fn builds_what_is_counted(&self, rec: Recipe, h: nat) -> bool {
        forall|a: BoxArgs|
            self.low(a.id, h) && self.dom.is_element(a.id) && !self.hides(a.id) && a.computed
                == self.style(a.id) && a.dims.content.width >= 0 && !a.pre && a.cv.boxes.len()
                + self.boxes_of(a.id, a.dims.content.width) <= usize::MAX ==> {
                let built = #[trigger] (rec.build)(a);
                &&& built.cv.boxes.len() == a.cv.boxes.len() + self.boxes_of(
                    a.id,
                    a.dims.content.width,
                )
                &&& built.id.0 < built.cv.boxes.len()
            }
    }

    /// A stacked element as a child of a block container.
    proof fn a_block_is_counted(
        &self,
        rec: Recipe,
        h: nat,
        cv: Canvas,
        id: NodeId,
        x: i32,
        width: i32,
        ch: Option<i32>,
        y: i32,
        prev: i32,
    )
        requires
            self.wf(),
            self.is_stacked(),
            self.builds_what_is_counted(rec, h),
            self.low(id, h),
            self.dom.is_element(id),
            !self.hides(id),
            stacks(self.style(id)),
            cv.boxes.len() + self.boxes_of(id, self.content_width(id, width)) <= usize::MAX,
        ensures
            ({
                let laid = self.lay_node(rec, cv, id, x, width, ch, y, prev, false);
                &&& laid.cv.boxes.len() == cv.boxes.len() + self.boxes_of(
                    id,
                    self.content_width(id, width),
                )
                &&& laid.id is Some
                &&& (laid.id->0).0 < laid.cv.boxes.len()
            }),
    {
        reveal(Ctx::lay_node);
        reveal(Ctx::element_laid);
        reveal(Ctx::block_laid);
        assert(self.flows_plainly(id));
        assert(self.content_width(id, width) >= 0);
    }

    proof fn flow_is_counted(
        &self,
        rec: Recipe,
        h: nat,
        cv: Canvas,
        flow: FlowView,
        env: FlowEnv,
        id: NodeId,
        k: int,
    )
        requires
            self.wf(),
            self.is_stacked(),
            self.builds_what_is_counted(rec, h),
            self.dom.has(id),
            self.dom.height(id) <= h,
            0 <= k,
            !env.pre,
            !flow.marker,
            flow.absolutes.len() == 0,
            text_items(flow.run),
            cv.boxes.len() + self.boxes_inside(id, k, flow.run, env.width) <= usize::MAX,
        ensures
            ({
                let (end, last) = self.flow_children(rec, cv, flow, env, self.dom.kids(id), k);
                &&& end.boxes.len() + self.boxes_of_text(last.run, env.width) == cv.boxes.len()
                    + self.boxes_inside(id, k, flow.run, env.width)
                &&& !last.marker
                &&& last.absolutes.len() == 0
                &&& text_items(last.run)
            }),
        decreases self.dom.kids(id).len() - k,
    {
        let kids = self.dom.kids(id);
        if k < kids.len() {
            reveal(Ctx::flow_child);
            reveal(Ctx::flow_flushed);
            let c = kids[k];
            assert(self.dom.nodes@[id.0 as int].children@[k] == c);
            self.dom.a_kid_is_lower(id, k);
            if self.dom.is_element(c) {
                assert(self.flows_plainly(c));
            }
            assert(!self.leaves_flow(c));
            let (cv2, flow2) = self.flow_child(rec, cv, flow, env, c);
            match self.mode_of(c) {
                ChildMode::Skip => {},
                ChildMode::Inline => {
                    self.plain_items_are_text(c, env.width);
                    self.nothing_is_loose(c, 0);
                },
                ChildMode::Block => {
                    self.a_run_is_counted(
                        rec,
                        cv,
                        env.x,
                        env.width,
                        flow.y,
                        flow.prev,
                        flow.run,
                        env.align,
                    );
                    let (cv1, flow1) = self.flow_flushed(rec, cv, flow, env);
                    self.a_block_is_counted(
                        rec,
                        h,
                        cv1,
                        c,
                        env.x,
                        env.width,
                        env.height,
                        flow1.y,
                        flow1.prev,
                    );
                    assert(flow2.run =~= Seq::<InlineItem>::empty());
                },
            }
            self.flow_is_counted(rec, h, cv2, flow2, env, id, k + 1);
        }
    }

    proof fn block_contents_are_counted(
        &self,
        rec: Recipe,
        h: nat,
        cv: Canvas,
        id: NodeId,
        bid: BoxId,
        heights: BlockHeight,
    )
        requires
            self.wf(),
            self.is_stacked(),
            self.builds_what_is_counted(rec, h),
            self.dom.has(id),
            self.dom.height(id) <= h,
            self.dom.tag_of(id) != "li"@,
            bid.0 < cv.boxes.len(),
            cv.boxes.len() + self.boxes_inside(id, 0, Seq::empty(), cv.dims(bid).content.width)
                <= usize::MAX,
        ensures
            self.block_contents(rec, cv, id, self.style(id), bid, heights, false).0.boxes.len()
                == cv.boxes.len() + self.boxes_inside(
                id,
                0,
                Seq::empty(),
                cv.dims(bid).content.width,
            ),
    {
        reveal(Ctx::block_contents);
        reveal(Ctx::flow_flushed);
        let dims = cv.dims(bid);
        let env = FlowEnv {
            x: dims.content.x,
            width: dims.content.width,
            height: heights.specified,
            align: self.style(id).text_align,
            pre: false,
        };
        let start = FlowView {
            y: dims.content.y,
            prev: 0,
            children: Seq::empty(),
            run: Seq::empty(),
            marker: false,
            absolutes: Seq::empty(),
        };
        self.flow_is_counted(rec, h, cv, start, env, id, 0);
        let (cv1, flow1) = self.flow_children(rec, cv, start, env, self.dom.kids(id), 0);
        self.a_run_is_counted(
            rec,
            cv1,
            env.x,
            env.width,
            flow1.y,
            flow1.prev,
            flow1.run,
            env.align,
        );
        let (cv2, flow2) = self.flow_flushed(rec, cv1, flow1, env);
        assert(self.absolutes_laid(rec, cv2, flow2.absolutes, 0, bid, false, flow2.children) == (
            cv2,
            flow2.children,
        ));
    }
}

/// A length that is not negative asks for no fewer than no cells.
proof fn cells_not_negative(len: Length, width: i32)
    requires
        not_negative(len),
        width >= 0,
    ensures
        0 <= len.to_cells_h(width) <= MAX_CELLS,
{
    if let Length::Percent(n) = len {
        assert(n * width >= 0) by (nonlinear_arith)
            requires
                n >= 0,
                width >= 0,
        ;
    }
}

/// Edges that are not negative leave the same room in whichever order they are
/// taken away.
proof fn same_room(w: i32, ml: i32, mr: i32, pl: i32, pr: i32, bl: i32, br: i32)
    requires
        w >= 0,
        0 <= ml <= MAX_CELLS,
        0 <= mr <= MAX_CELLS,
        0 <= pl <= MAX_CELLS,
        0 <= pr <= MAX_CELLS,
        0 <= bl <= MAX_CELLS,
        0 <= br <= MAX_CELLS,
    ensures
        minus(minus(w, plus(ml, mr)), plus(plus(plus(pl, pr), bl), br)) == minus(
            minus(minus(minus(minus(minus(w, ml), mr), bl), br), pl),
            pr,
        ),
{
}

proof fn margins_stay(c: ComputedStyle, width: i32)
    requires
        !(c.margin.left is Auto),
        !(c.margin.right is Auto),
    ensures
        ({
            let d = resolve_block_dims(&c, width, None);
            &&& d.padding == crate::boxmodel::padding_of(&c, width)
            &&& d.border == crate::boxmodel::border_of(&c, width)
            &&& d.margin == crate::boxmodel::margin_of(&c, width)
        }),
{
}

/// An item that fills its column is as wide as it would be in a block.
#[verifier::rlimit(40)]
proof fn a_column_item_is_as_wide(
    ctx: &Ctx,
    node: NodeId,
    c: ComputedStyle,
    container: ComputedStyle,
    axis: FlexAxis,
)
    requires
        fills(c, container),
        axis.width >= 0,
        axis.vertical,
        !axis.wraps,
    ensures
        ({
            let d = ctx.column_dims(c, axis.width);
            let avail = larger(
                minus(minus(axis.width, d.margin.across()), d.inner_edges_h()),
                0,
            );
            let align = crate::flexbox::cross_align(&c, axis, &container);
            ctx.column_cross(node, c, align, axis, avail, d.inner_edges_h())
                == resolve_block_dims(&c, axis.width, None).content.width
        }),
{
    cells_not_negative(c.margin.left, axis.width);
    cells_not_negative(c.margin.right, axis.width);
    cells_not_negative(c.padding.left, axis.width);
    cells_not_negative(c.padding.right, axis.width);
    cells_not_negative(c.border.left, axis.width);
    cells_not_negative(c.border.right, axis.width);
    let w = axis.width;
    margins_stay(c, w);
    let pad = crate::boxmodel::padding_of(&c, w);
    let border = crate::boxmodel::border_of(&c, w);
    let margin = crate::boxmodel::margin_of(&c, w);
    same_room(w, margin.left, margin.right, pad.left, pad.right, border.left, border.right);
    let d = ctx.column_dims(c, w);
    assert(d.margin.left == margin.left && d.margin.right == margin.right);
    let avail = larger(minus(minus(w, d.margin.across()), d.inner_edges_h()), 0);
    assert(avail == crate::boxmodel::room_inside(w, margin, border, pad));
}

/// Every item's box is built, and on the canvas.
spec fn all_built(items: Seq<FlexItem>, n: nat) -> bool {
    forall|j: int|
        0 <= j < items.len() ==> (#[trigger] items[j]).built is Some && (items[j].built->0).0 < n
}

proof fn ordering_keeps_what_is_built(items: Seq<FlexItem>, n: nat)
    requires
        all_built(items, n),
        items.len() <= usize::MAX,
    ensures
        all_built(in_order(items), n),
        in_order(items).len() == items.len(),
{
    let keys = items.map_values(|i: FlexItem| i.order as i128);
    sorting_sorts(keys, keys.len() as int);
    let order = crate::order::sorted_indices(keys, keys.len() as int);
    let sorted = in_order(items);
    assert forall|j: int| 0 <= j < sorted.len() implies (#[trigger] sorted[j]).built is Some && (
    sorted[j].built->0).0 < n by {
        assert(order[j] < keys.len());
        assert(sorted[j] == items[order[j] as int]);
    }
}

proof fn a_line_that_does_not_wrap(items: Seq<Item>, main: i32, gap: i32, i: int, used: i32)
    requires
        0 <= i <= items.len(),
    ensures
        line_ends(items, main, gap, false, i, used) == items.len(),
    decreases items.len() - i,
{
    if i < items.len() {
        let outer = plus(items[i].hypothetical, items[i].outer_edges);
        a_line_that_does_not_wrap(items, main, gap, i + 1, plus(plus(used, gap), outer));
    }
}

proof fn one_line(items: Seq<Item>, main: i32, gap: i32)
    requires
        0 < items.len() <= usize::MAX,
    ensures
        lines_from(items, main, gap, false, 0) == seq![(0usize, items.len() as usize)],
{
    let first = plus(items[0].hypothetical, items[0].outer_edges);
    a_line_that_does_not_wrap(items, main, gap, 1, first);
    let end = line_end(items, main, gap, false, 0);
    assert(lines_from(items, main, gap, false, end) =~= Seq::<(usize, usize)>::empty());
    assert(lines_from(items, main, gap, false, 0) =~= seq![(0usize, items.len() as usize)]);
}

proof fn crossing_builds_nothing(
    cv: Canvas,
    items: Seq<FlexItem>,
    ids: Seq<BoxId>,
    cross: Seq<crate::flex::CrossItem>,
    placed: Seq<crate::flex::CrossPlaced>,
    j: int,
    axis: FlexAxis,
    near: i32,
    line: crate::flex::PlacedLine,
)
    requires
        0 <= j,
        ids.len() == items.len(),
        in_range(ids, cv.boxes.len()),
    ensures
        line_crossed(cv, items, ids, cross, placed, j, axis, near, line).boxes.len()
            == cv.boxes.len(),
    decreases items.len() - j,
{
    if j < items.len() {
        reveal(crossed);
        reveal(stretched);
        let id = ids[j];
        assert(ids[j].0 < cv.boxes.len());
        let sized = if cross[j].align is Stretch {
            stretched(cv, id, items[j].computed, axis, line.cross)
        } else {
            cv
        };
        let next = crossed(cv, items[j], id, cross[j], placed[j], axis, near, line);
        assert forall|dx: i32, dy: i32|
            (#[trigger] sized.moved(id, dx, dy)).boxes.len() == sized.boxes.len() by {
            moving_only_moves(sized.boxes, sized.boxes.len(), id, dx, dy);
        }
        assert(next.boxes.len() == cv.boxes.len());
        crossing_builds_nothing(next, items, ids, cross, placed, j + 1, axis, near, line);
    }
}

impl<'a> Ctx<'a> {
    /// A run of text nodes that show.
    spec fn shows_text(&self, nodes: Seq<NodeId>) -> bool {
        forall|i: int|
            0 <= i < nodes.len() ==> {
                &&& self.dom.has(#[trigger] nodes[i])
                &&& self.dom.is_text(nodes[i])
                &&& !blank(self.dom.text_of(nodes[i]))
            }
    }

    /// A source that fills its column.
    spec fn is_filling_source(&self, source: SourceView, id: NodeId, h: nat) -> bool {
        match source {
            SourceView::Element(node) => {
                &&& self.low(node, h)
                &&& self.dom.is_element(node)
                &&& !self.hides(node)
                &&& stacks(self.style(node))
                &&& fills(self.style(node), self.style(id))
            },
            SourceView::Text(nodes) => {
                &&& nodes.len() > 0
                &&& self.shows_text(nodes)
                &&& self.style(id).align_items is Stretch
            },
        }
    }

    /// How many boxes one source gets.
    spec fn boxes_of_source(&self, source: SourceView, width: i32) -> nat {
        match source {
            SourceView::Element(node) => self.boxes_of(node, self.content_width(node, width)),
            SourceView::Text(nodes) => self.boxes_of_text(self.run_items(nodes, width, 0), width),
        }
    }

    proof fn runs_are_text(&self, nodes: Seq<NodeId>, width: i32, i: int)
        requires
            self.wf(),
            self.shows_text(nodes),
            0 <= i <= nodes.len(),
        ensures
            text_items(self.run_items(nodes, width, i)),
            self.run_items(nodes, width, i).len() == nodes.len() - i,
        decreases nodes.len() - i,
    {
        if i < nodes.len() {
            assert(self.dom.is_text(nodes[i]));
            self.runs_are_text(nodes, width, i + 1);
        }
    }

    proof fn one_more_in_a_run(&self, nodes: Seq<NodeId>, c: NodeId, width: i32, i: int)
        requires
            self.wf(),
            0 <= i <= nodes.len(),
        ensures
            self.run_items(nodes.push(c), width, i) == self.run_items(nodes, width, i)
                + self.inline_items(c, width),
        decreases nodes.len() - i,
    {
        let all = nodes.push(c);
        if i < nodes.len() {
            assert(all[i] == nodes[i]);
            self.one_more_in_a_run(nodes, c, width, i + 1);
            assert(self.run_items(all, width, i) =~= self.run_items(nodes, width, i)
                + self.inline_items(c, width));
        } else {
            assert(all[i] == c);
            assert(self.run_items(all, width, i + 1) =~= Seq::<InlineItem>::empty());
            assert(self.run_items(all, width, i) =~= self.inline_items(c, width));
            assert(self.run_items(nodes, width, i) =~= Seq::<InlineItem>::empty());
            assert(Seq::<InlineItem>::empty() + self.inline_items(c, width)
                =~= self.inline_items(c, width));
        }
    }

    spec fn all_fill(&self, sources: Seq<SourceView>, id: NodeId, h: nat) -> bool {
        forall|i: int|
            0 <= i < sources.len() ==> self.is_filling_source(#[trigger] sources[i], id, h)
    }

    /// How many boxes the sources get.
    spec fn boxes_of_sources(&self, sources: Seq<SourceView>, width: i32) -> nat
        decreases sources.len(),
    {
        if sources.len() == 0 {
            0
        } else {
            self.boxes_of_source(sources[0], width) + self.boxes_of_sources(
                sources.drop_first(),
                width,
            )
        }
    }

    /// One source more in front.
    proof fn one_more_source(
        &self,
        source: SourceView,
        rest: Seq<SourceView>,
        id: NodeId,
        h: nat,
        width: i32,
    )
        requires
            self.all_fill(rest, id, h),
            self.is_filling_source(source, id, h),
        ensures
            self.all_fill(seq![source] + rest, id, h),
            self.boxes_of_sources(seq![source] + rest, width) == self.boxes_of_source(source, width)
                + self.boxes_of_sources(rest, width),
    {
        let all = seq![source] + rest;
        assert(all.drop_first() =~= rest);
        assert forall|i: int| 0 <= i < all.len() implies self.is_filling_source(
            #[trigger] all[i],
            id,
            h,
        ) by {
            if i > 0 {
                assert(all[i] == rest[i - 1]);
            }
        }
    }

    /// A run's source in front, if it makes one.
    proof fn a_run_more(
        &self,
        run: Seq<NodeId>,
        rest: Seq<SourceView>,
        id: NodeId,
        h: nat,
        width: i32,
    )
        requires
            self.wf(),
            self.all_fill(rest, id, h),
            self.shows_text(run),
            run.len() > 0 ==> self.style(id).align_items is Stretch,
        ensures
            self.all_fill(text_source(self.dom, run, false) + rest, id, h),
            self.boxes_of_sources(text_source(self.dom, run, false) + rest, width)
                == self.boxes_of_text(self.run_items(run, width, 0), width)
                + self.boxes_of_sources(rest, width),
    {
        let here = text_source(self.dom, run, false);
        self.runs_are_text(run, width, 0);
        if run.len() > 0 {
            assert(self.dom.is_text(run[0]) && !blank(self.dom.text_of(run[0])));
            assert(here == seq![SourceView::Text(run)]);
            self.one_more_source(SourceView::Text(run), rest, id, h, width);
        } else {
            assert(here =~= Seq::<SourceView>::empty());
            assert(here + rest =~= rest);
        }
    }

    proof fn sources_are_counted(&self, id: NodeId, k: int, run: Seq<NodeId>, h: nat, width: i32)
        requires
            self.wf(),
            self.is_stacked(),
            self.dom.has(id),
            self.dom.height(id) <= h,
            self.holds_only_items(id),
            self.shows_text(run),
            run.len() > 0 ==> self.style(id).align_items is Stretch,
            0 <= k,
        ensures
            ({
                let sources = self.sources_from(self.dom.kids(id), false, k, run);
                &&& self.all_fill(sources, id, h)
                &&& self.boxes_of_sources(sources, width) == self.boxes_inside(
                    id,
                    k,
                    self.run_items(run, width, 0),
                    width,
                )
            }),
        decreases self.dom.kids(id).len() - k,
    {
        let kids = self.dom.kids(id);
        let before = self.run_items(run, width, 0);
        let sources = self.sources_from(kids, false, k, run);
        let none = Seq::<SourceView>::empty();
        if k >= kids.len() {
            self.a_run_more(run, none, id, h, width);
            assert(text_source(self.dom, run, false) + none =~= sources);
        } else {
            let c = kids[k];
            assert(self.is_item_of(self.dom.kids(id)[k], id));
            assert(self.dom.nodes@[id.0 as int].children@[k] == c);
            self.dom.a_kid_is_lower(id, k);
            if self.dom.is_text(c) {
                let more = run.push(c);
                assert(self.shows_text(more)) by {
                    assert forall|i: int| 0 <= i < more.len() implies {
                        &&& self.dom.has(#[trigger] more[i])
                        &&& self.dom.is_text(more[i])
                        &&& !blank(self.dom.text_of(more[i]))
                    } by {
                        if i < run.len() {
                            assert(self.dom.has(run[i]));
                        }
                    }
                }
                self.one_more_in_a_run(run, c, width, 0);
                self.sources_are_counted(id, k + 1, more, h, width);
            } else if self.dom.is_element(c) && !self.hides(c) {
                assert(self.flows_plainly(c));
                assert(self.mode_of(c) is Block);
                let fresh = Seq::<NodeId>::empty();
                assert(self.run_items(fresh, width, 0) =~= Seq::<InlineItem>::empty());
                self.sources_are_counted(id, k + 1, fresh, h, width);
                let rest = self.sources_from(kids, false, k + 1, fresh);
                self.one_more_source(SourceView::Element(c), rest, id, h, width);
                let tail = seq![SourceView::Element(c)] + rest;
                self.a_run_more(run, tail, id, h, width);
                assert(text_source(self.dom, run, false) + tail =~= sources);
            } else {
                assert(self.mode_of(c) is Skip);
                self.sources_are_counted(id, k + 1, run, h, width);
            }
        }
    }

    #[verifier::rlimit(40)]
    proof fn a_column_item_is_counted(
        &self,
        rec: Recipe,
        h: nat,
        id: NodeId,
        cv: Canvas,
        source: SourceView,
        k: usize,
        env: FlexEnv,
    )
        requires
            self.wf(),
            self.is_stacked(),
            self.builds_what_is_counted(rec, h),
            self.is_filling_source(source, id, h),
            env.axis.vertical,
            !env.axis.wraps,
            env.axis.width == env.content.width,
            env.content.width >= 0,
            env.style == self.style(id),
            !env.pre,
            cv.boxes.len() + self.boxes_of_source(source, env.content.width) <= usize::MAX,
        ensures
            ({
                let (end, item) = self.column_item(rec, cv, source, k, env);
                &&& end.boxes.len() == cv.boxes.len() + self.boxes_of_source(
                    source,
                    env.content.width,
                )
                &&& item.built is Some
                &&& (item.built->0).0 < end.boxes.len()
            }),
    {
        reveal(Ctx::column_item);
        match source {
            SourceView::Element(node) => {
                reveal(Ctx::column_box);
                assert(self.flows_plainly(node));
                let c = self.style(node);
                a_column_item_is_as_wide(self, node, c, env.style, env.axis);
                let d = self.column_dims(c, env.content.width);
                let cross = self.column_width(node, c, env, d);
                assert(cross == self.content_width(node, env.content.width));
                assert(cross >= 0);
            },
            SourceView::Text(nodes) => {
                let width = env.content.width;
                self.runs_are_text(nodes, width, 0);
                self.a_run_is_counted(
                    rec,
                    cv,
                    env.content.x,
                    width,
                    env.content.y,
                    0,
                    self.run_items(nodes, width, 0),
                    env.style.text_align,
                );
            },
        }
    }

    #[verifier::rlimit(50)]
    proof fn column_items_are_counted(
        &self,
        rec: Recipe,
        h: nat,
        id: NodeId,
        cv: Canvas,
        sources: Seq<SourceView>,
        k: int,
        env: FlexEnv,
        items: Seq<FlexItem>,
    )
        requires
            self.wf(),
            self.is_stacked(),
            self.builds_what_is_counted(rec, h),
            self.all_fill(sources, id, h),
            0 <= k <= sources.len(),
            env.axis.vertical,
            !env.axis.wraps,
            env.axis.width == env.content.width,
            env.content.width >= 0,
            env.style == self.style(id),
            !env.pre,
            items.len() == k,
            all_built(items, cv.boxes.len()),
            cv.boxes.len() + self.boxes_of_sources(sources.skip(k), env.content.width)
                <= usize::MAX,
        ensures
            ({
                let (end, all) = self.flex_items_from(rec, cv, sources, k, env, items);
                &&& end.boxes.len() == cv.boxes.len() + self.boxes_of_sources(
                    sources.skip(k),
                    env.content.width,
                )
                &&& all.len() == sources.len()
                &&& all_built(all, end.boxes.len())
            }),
        decreases sources.len() - k,
    {
        if k < sources.len() {
            assert(self.is_filling_source(sources[k], id, h));
            let rest = sources.skip(k + 1);
            assert(sources.skip(k).drop_first() =~= rest);
            assert(sources.skip(k)[0] == sources[k]);
            self.a_column_item_is_counted(rec, h, id, cv, sources[k], k as usize, env);
            let (cv2, item) = self.column_item(rec, cv, sources[k], k as usize, env);
            let next = items.push(item);
            assert forall|j: int| 0 <= j < next.len() implies (#[trigger] next[j]).built is Some
                && (next[j].built->0).0 < cv2.boxes.len() by {
                if j < items.len() {
                    assert(items[j].built is Some);
                }
            }
            self.column_items_are_counted(rec, h, id, cv2, sources, k + 1, env, next);
        } else {
            assert(sources.skip(k).len() == 0);
        }
    }

    proof fn placing_a_column_builds_nothing(
        &self,
        rec: Recipe,
        cv: Canvas,
        items: Seq<FlexItem>,
        sources: Seq<SourceView>,
        plan: LinePlan,
        j: int,
        env: FlexEnv,
        main: i32,
        children: Seq<BoxId>,
    )
        requires
            0 <= j <= items.len(),
            all_built(items, cv.boxes.len()),
            in_range(children, cv.boxes.len()),
        ensures
            ({
                let r = self.line_laid(rec, cv, items, sources, plan, j, env, main, children);
                &&& r.0.boxes.len() == cv.boxes.len()
                &&& r.1.len() == children.len() + (items.len() - j)
                &&& in_range(r.1, cv.boxes.len())
            }),
        decreases items.len() - j,
    {
        if j < items.len() {
            reveal(column_placed);
            assert(items[j].built is Some);
            let id = items[j].built->0;
            let p = placement(plan, j, env, main);
            let next = column_placed(cv, id, items[j], env.axis, p);
            assert forall|dx: i32, dy: i32|
                (#[trigger] cv.moved(id, dx, dy)).boxes.len() == cv.boxes.len() by {
                moving_only_moves(cv.boxes, cv.boxes.len(), id, dx, dy);
            }
            assert(next.boxes.len() == cv.boxes.len());
            self.placing_a_column_builds_nothing(
                rec,
                next,
                items,
                sources,
                plan,
                j + 1,
                env,
                main,
                children.push(id),
            );
        }
    }

    proof fn no_kid_leaves_the_flow(&self, id: NodeId, k: int)
        requires
            self.wf(),
            self.is_stacked(),
            self.dom.has(id),
            0 <= k,
        ensures
            self.out_of_flow_kids(self.dom.kids(id), k) == Seq::<NodeId>::empty(),
        decreases self.dom.kids(id).len() - k,
    {
        if k < self.dom.kids(id).len() {
            let c = self.dom.kids(id)[k];
            assert(self.dom.nodes@[id.0 as int].children@[k] == c);
            if self.dom.is_element(c) {
                assert(self.flows_plainly(c));
            }
            self.no_kid_leaves_the_flow(id, k + 1);
            assert(self.out_of_flow_kids(self.dom.kids(id), k) =~= Seq::<NodeId>::empty());
        }
    }

    proof fn column_contents_are_counted(
        &self,
        rec: Recipe,
        h: nat,
        cv: Canvas,
        id: NodeId,
        bid: BoxId,
        heights: BlockHeight,
    )
        requires
            self.wf(),
            self.is_stacked(),
            self.builds_what_is_counted(rec, h),
            self.dom.has(id),
            self.dom.height(id) <= h,
            self.dom.is_element(id),
            self.style(id).display is Flex,
            stacks(self.style(id)),
            bid.0 < cv.boxes.len(),
            cv.dims(bid).content.width >= 0,
            cv.boxes.len() + self.boxes_inside(id, 0, Seq::empty(), cv.dims(bid).content.width)
                <= usize::MAX,
        ensures
            self.flex_contents(rec, cv, id, self.style(id), bid, heights, false).0.boxes.len()
                == cv.boxes.len() + self.boxes_inside(
                id,
                0,
                Seq::empty(),
                cv.dims(bid).content.width,
            ),
    {
        reveal(Ctx::flex_contents);
        reveal(cross_aligned);
        let c = self.style(id);
        let content = cv.dims(bid).content;
        let env = FlexEnv {
            axis: FlexAxis::of(c.flex_direction, c.flex_wrap, content.width, heights),
            style: c,
            content,
            height: heights.specified,
            pre: false,
        };
        assert(self.holds_only_items(id));
        let kids = self.dom.kids(id);
        let sources = self.sources_of(id, false);
        assert(self.run_items(Seq::empty(), content.width, 0) =~= Seq::<InlineItem>::empty());
        self.sources_are_counted(id, 0, Seq::empty(), h, content.width);
        assert(self.dom.nodes@[id.0 as int].children@.len() <= self.dom.nodes@.len());
        self.no_more_sources_than_kids(kids, false, 0, Seq::empty());
        assert(sources.skip(0) =~= sources);
        self.column_items_are_counted(rec, h, id, cv, sources, 0, env, Seq::empty());
        let (cv1, found) = self.flex_items_from(rec, cv, sources, 0, env, Seq::empty());
        if found.len() > 0 {
            let items = in_order(found);
            ordering_keeps_what_is_built(found, cv1.boxes.len());
            let n = items.len();
            let gap = env.axis.main_gap(c.gap);
            let main = self.inner_main(cv1, items, bid, env, heights, gap);
            let metrics = items.map_values(|i: FlexItem| i.metrics);
            let lines = lines_from(metrics, main, gap, env.axis.wraps, 0);
            one_line(metrics, main, gap);
            assert(items.subrange(0, n as int) =~= items);
            let plan = plan_line(items, env, main, gap);
            let none = Seq::<BoxId>::empty();
            self.placing_a_column_builds_nothing(
                rec,
                cv1,
                items,
                sources,
                plan,
                0,
                env,
                main,
                none,
            );
            let (cv2, ids) = self.line_laid(rec, cv1, items, sources, plan, 0, env, main, none);
            assert(self.lines_laid(rec, cv2, items, sources, lines, 1, env, main, gap, ids) == (
                cv2,
                ids,
            ));
            assert(self.lines_laid(rec, cv1, items, sources, lines, 0, env, main, gap, none) == (
                cv2,
                ids,
            ));
            let across = plan_cross(cv2, items, ids, lines, env, bid, heights);
            let origin = if env.axis.vertical {
                cv2.dims(bid).content.x
            } else {
                cv2.dims(bid).content.y
            };
            let line = across.lines[0];
            let near = if env.axis.cross_reverse {
                crate::boxmodel::from_far_edge(
                    origin,
                    across.inner,
                    across.occupied,
                    line.cross_start,
                    line.cross,
                )
            } else {
                plus(origin, line.cross_start)
            };
            let cross = across.cross.subrange(0, n as int);
            let placed = crate::flex::cross_places(cross, line.cross);
            assert(ids.subrange(0, n as int) =~= ids);
            crossing_builds_nothing(cv2, items, ids, cross, placed, 0, env.axis, near, line);
            let cv3 = line_crossed(cv2, items, ids, cross, placed, 0, env.axis, near, line);
            assert(lines_crossed(cv3, items, ids, lines, across, 1, env.axis, origin) == cv3);
            self.no_kid_leaves_the_flow(id, 0);
        }
    }
}

impl<'a> Ctx<'a> {
    proof fn contents_are_counted(
        &self,
        rec: Recipe,
        h: nat,
        cv: Canvas,
        id: NodeId,
        bid: BoxId,
        heights: BlockHeight,
    )
        requires
            self.wf(),
            self.is_stacked(),
            self.builds_what_is_counted(rec, h),
            self.dom.has(id),
            self.dom.height(id) <= h,
            self.dom.is_element(id),
            !self.hides(id),
            bid.0 < cv.boxes.len(),
            cv.dims(bid).content.width >= 0,
            cv.boxes.len() + self.boxes_inside(id, 0, Seq::empty(), cv.dims(bid).content.width)
                <= usize::MAX,
        ensures
            self.any_contents(rec, cv, id, self.style(id), bid, heights, false).0.boxes.len()
                == cv.boxes.len() + self.boxes_inside(
                id,
                0,
                Seq::empty(),
                cv.dims(bid).content.width,
            ),
    {
        reveal(Ctx::any_contents);
        reveal(Ctx::contents);
        assert(self.flows_plainly(id));
        if lays_out_as_flex(&self.style(id)) {
            self.column_contents_are_counted(rec, h, cv, id, bid, heights);
        } else {
            self.block_contents_are_counted(rec, h, cv, id, bid, heights);
        }
    }

    /// An element's box and all that is inside it: exactly as many boxes as are
    /// counted.
    proof fn a_box_is_counted(&self, viewport: i32, fuel: nat, a: BoxArgs)
        requires
            self.wf(),
            self.is_stacked(),
            self.dom.has(a.id),
            self.dom.height(a.id) <= fuel,
            self.dom.is_element(a.id),
            !self.hides(a.id),
            a.computed == self.style(a.id),
            a.dims.content.width >= 0,
            !a.pre,
            a.cv.boxes.len() + self.boxes_of(a.id, a.dims.content.width) <= usize::MAX,
        ensures
            ({
                let built = self.box_at(viewport, fuel, a);
                &&& built.cv.boxes.len() == a.cv.boxes.len() + self.boxes_of(
                    a.id,
                    a.dims.content.width,
                )
                &&& built.id.0 < built.cv.boxes.len()
            }),
        decreases fuel,
    {
        reveal(Ctx::box_with);
        let h = self.dom.height(a.id);
        let rec = self.builder(viewport, (fuel - 1) as nat);
        assert(self.flows_plainly(a.id));
        assert(self.builds_what_is_counted(rec, h)) by {
            assert forall|b: BoxArgs|
                self.low(b.id, h) && self.dom.is_element(b.id) && !self.hides(b.id) && b.computed
                    == self.style(b.id) && b.dims.content.width >= 0 && !b.pre
                    && b.cv.boxes.len() + self.boxes_of(b.id, b.dims.content.width)
                    <= usize::MAX implies {
                let built = #[trigger] (rec.build)(b);
                &&& built.cv.boxes.len() == b.cv.boxes.len() + self.boxes_of(
                    b.id,
                    b.dims.content.width,
                )
                &&& built.id.0 < built.cv.boxes.len()
            } by {
                self.a_box_is_counted(viewport, (fuel - 1) as nat, b);
            }
        }
        let with = a.cv.with_box(self.bare_box(a.id, a.computed, a.dims));
        let bid = a.cv.next_id();
        let heights = heights_of(a.dims, &a.computed, a.ch);
        assert(with.dims(bid) == a.dims);
        self.contents_are_counted(rec, h, with, a.id, bid, heights);
    }
}

impl<'a> Ctx<'a> {
    /// How many boxes the document's children from the `k`th on get.
    pub open spec fn boxes_of_page_from(&self, k: int, width: i32) -> nat
        decreases self.dom.kids(self.dom.root).len() - k,
    {
        let kids = self.dom.kids(self.dom.root);
        if k >= kids.len() {
            0
        } else {
            (if self.dom.is_element(kids[k]) && !self.hides(kids[k]) {
                self.boxes_of(kids[k], self.content_width(kids[k], width))
            } else {
                0
            }) + self.boxes_of_page_from(k + 1, width)
        }
    }

    /// How many boxes a page gets, its own one of them: one for each element
    /// that stacks, and those of each run of text.
    pub open spec fn boxes_of_page(&self, width: i32) -> nat {
        1 + self.boxes_of_page_from(0, width)
    }

    proof fn page_children_are_counted(
        &self,
        rec: Recipe,
        cv: Canvas,
        k: int,
        width: i32,
        y: i32,
        prev: i32,
    )
        requires
            self.wf(),
            self.is_stacked(),
            self.builds_what_is_counted(rec, self.dom.height(self.dom.root)),
            0 <= k,
            cv.boxes.len() > 0,
            cv.boxes.len() + self.boxes_of_page_from(k, width) <= usize::MAX,
        ensures
            self.page_children(
                rec,
                cv,
                self.dom.kids(self.dom.root),
                k,
                width,
                y,
                prev,
            ).0.boxes.len() == cv.boxes.len() + self.boxes_of_page_from(k, width),
        decreases self.dom.kids(self.dom.root).len() - k,
    {
        let root = self.dom.root;
        let kids = self.dom.kids(root);
        if k < kids.len() {
            let c = self.dom.kids(self.dom.root)[k];
            assert(self.dom.nodes@[root.0 as int].children@[k] == c);
            self.dom.a_kid_is_lower(root, k);
            let h = self.dom.height(root);
            let page = BoxId(0);
            if self.dom.is_element(c) {
                assert(self.flows_plainly(c));
            }
            assert(!self.leaves_flow(c));
            let laid = self.lay_node(rec, cv, c, 0, width, None, y, prev, false);
            if self.dom.is_element(c) && !self.hides(c) {
                self.a_block_is_counted(rec, h, cv, c, 0, width, None, y, prev);
                let id = laid.id->0;
                let next = laid.cv.with_children(page, laid.cv.boxes[0].children.push(id));
                let d = next.dims(id);
                let bottom = minus(d.margin_box().bottom(), 0);
                assert(next.boxes.len() == laid.cv.boxes.len());
                self.page_children_are_counted(rec, next, k + 1, width, bottom, d.margin.bottom);
            } else {
                reveal(Ctx::lay_node);
                assert(laid.id is None && laid.cv == cv);
                self.page_children_are_counted(rec, cv, k + 1, width, y, laid.prev);
            }
        }
    }

    /// A page of stacked boxes has exactly the boxes that are counted: each
    /// item of a column is built once, and nothing is built and thrown away.
    pub proof fn every_item_is_built_exactly_once(&self, width: u16, viewport: u16)
        requires
            self.wf(),
            self.is_stacked(),
            self.boxes_of_page(at_least_one(width)) <= usize::MAX,
        ensures
            self.page(width, viewport).boxes.len() == self.boxes_of_page(at_least_one(width)),
    {
        reveal(Ctx::page);
        let w = at_least_one(width);
        let v = at_least_one(viewport);
        let root = self.dom.root;
        let h = self.dom.height(root);
        let n = self.dom.nodes@.len();
        let rec = self.builder(v, n);
        self.dom.a_document_is_no_deeper_than_its_nodes(root);
        assert(self.builds_what_is_counted(rec, h)) by {
            assert forall|b: BoxArgs|
                self.low(b.id, h) && self.dom.is_element(b.id) && !self.hides(b.id) && b.computed
                    == self.style(b.id) && b.dims.content.width >= 0 && !b.pre
                    && b.cv.boxes.len() + self.boxes_of(b.id, b.dims.content.width)
                    <= usize::MAX implies {
                let built = #[trigger] (rec.build)(b);
                &&& built.cv.boxes.len() == b.cv.boxes.len() + self.boxes_of(
                    b.id,
                    b.dims.content.width,
                )
                &&& built.id.0 < built.cv.boxes.len()
            } by {
                self.a_box_is_counted(v, n, b);
            }
        }
        self.page_children_are_counted(rec, self.blank_page(w), 0, w, 0, 0);
        let (laid, y) = self.stacked_on(rec, w);
        let drawn = self.page_drawn(laid.boxes, w, self.page_height(laid.boxes, y, w));
        self.sticking_all_keeps_the_shape(drawn, 0, w, v);
    }

    /// Two ways to style one document that differ only in which boxes are
    /// blocks, columns and reversed columns.
    pub open spec fn differs_only_in_stacking(&self, other: &Ctx) -> bool {
        &&& self.dom == other.dom
        &&& self.hidden == other.hidden
        &&& forall|id: NodeId|
            self.dom.has(id) ==> {
                let (a, b) = (self.style(id), #[trigger] other.style(id));
                a == b || (stacks(a) && stacks(b) && b == (ComputedStyle {
                    display: b.display,
                    flex_direction: b.flex_direction,
                    ..a
                }))
            }
    }

    proof fn same_items(&self, other: &Ctx, id: NodeId, width: i32)
        requires
            self.wf(),
            self.is_stacked(),
            other.is_stacked(),
            self.differs_only_in_stacking(other),
            self.dom.has(id),
        ensures
            self.inline_items(id, width) == other.inline_items(id, width),
        decreases self.dom.rank_of(id), 1nat,
    {
        let (a, b) = (self.style(id), other.style(id));
        assert(term_style(&a) == term_style(&b));
        if self.dom.is_element(id) {
            assert(self.flows_plainly(id));
            assert(other.flows_plainly(id));
        }
        self.same_kid_items(other, id, width, 0);
    }

    proof fn same_kid_items(&self, other: &Ctx, id: NodeId, width: i32, k: int)
        requires
            self.wf(),
            self.is_stacked(),
            other.is_stacked(),
            self.differs_only_in_stacking(other),
            self.dom.has(id),
            0 <= k,
        ensures
            self.kid_items(id, width, k) == other.kid_items(id, width, k),
        decreases self.dom.rank_of(id), 0nat, self.dom.kids(id).len() - k,
    {
        if k < self.dom.kids(id).len() {
            let c = self.dom.kids(id)[k];
            assert(self.dom.nodes@[id.0 as int].children@[k] == c);
            self.same_items(other, c, width);
            self.same_kid_items(other, id, width, k + 1);
        }
    }

    proof fn same_text_boxes(&self, other: &Ctx, items: Seq<InlineItem>, width: i32)
        requires
            self.dom == other.dom,
            text_items(items),
        ensures
            self.boxes_of_text(items, width) == other.boxes_of_text(items, width),
    {
        self.text_takes_as_many_boxes_anywhere(
            other,
            self.builder(1, 0),
            other.builder(1, 0),
            nothing_yet(),
            nothing_yet(),
            items,
            (0, 0),
            (0, 0),
            width,
            TextAlign::Left,
            TextAlign::Left,
        );
    }

    proof fn same_mode_and_width(&self, other: &Ctx, id: NodeId, width: i32)
        requires
            self.is_stacked(),
            other.is_stacked(),
            self.differs_only_in_stacking(other),
            self.dom.has(id),
        ensures
            self.hides(id) == other.hides(id),
            self.mode_of(id) == other.mode_of(id),
            self.content_width(id, width) == other.content_width(id, width),
    {
        let (a, b) = (self.style(id), other.style(id));
        assert(resolve_block_dims(&a, width, None) == resolve_block_dims(&b, width, None));
    }

    proof fn same_boxes(&self, other: &Ctx, id: NodeId, width: i32)
        requires
            self.wf(),
            self.is_stacked(),
            other.is_stacked(),
            self.differs_only_in_stacking(other),
            self.dom.has(id),
        ensures
            self.boxes_of(id, width) == other.boxes_of(id, width),
        decreases self.dom.rank_of(id), self.dom.kids(id).len() + 1,
    {
        self.same_boxes_inside(other, id, 0, Seq::empty(), width);
    }

    proof fn same_boxes_inside(
        &self,
        other: &Ctx,
        id: NodeId,
        k: int,
        run: Seq<InlineItem>,
        width: i32,
    )
        requires
            self.wf(),
            self.is_stacked(),
            other.is_stacked(),
            self.differs_only_in_stacking(other),
            self.dom.has(id),
            0 <= k,
            text_items(run),
        ensures
            self.boxes_inside(id, k, run, width) == other.boxes_inside(id, k, run, width),
        decreases self.dom.rank_of(id), self.dom.kids(id).len() - k,
    {
        self.same_text_boxes(other, run, width);
        if k < self.dom.kids(id).len() {
            let c = self.dom.kids(id)[k];
            assert(self.dom.nodes@[id.0 as int].children@[k] == c);
            self.same_mode_and_width(other, c, width);
            match self.mode_of(c) {
                ChildMode::Skip => {
                    self.same_boxes_inside(other, id, k + 1, run, width);
                },
                ChildMode::Inline => {
                    self.same_items(other, c, width);
                    self.plain_items_are_text(c, width);
                    let next = run + self.inline_items(c, width);
                    self.same_boxes_inside(other, id, k + 1, next, width);
                },
                ChildMode::Block => {
                    self.same_boxes(other, c, self.content_width(c, width));
                    self.same_boxes_inside(other, id, k + 1, Seq::empty(), width);
                },
            }
        }
    }

    proof fn same_page_boxes(&self, other: &Ctx, k: int, width: i32)
        requires
            self.wf(),
            self.is_stacked(),
            other.is_stacked(),
            self.differs_only_in_stacking(other),
            0 <= k,
        ensures
            self.boxes_of_page_from(k, width) == other.boxes_of_page_from(k, width),
        decreases self.dom.kids(self.dom.root).len() - k,
    {
        let kids = self.dom.kids(self.dom.root);
        if k < kids.len() {
            let c = kids[k];
            assert(self.dom.nodes@[self.dom.root.0 as int].children@[k] == c);
            self.same_mode_and_width(other, c, width);
            self.same_boxes(other, c, self.content_width(c, width));
            self.same_page_boxes(other, k + 1, width);
        }
    }

    /// A column, a reversed column and a block over the same items build the
    /// same number of boxes.
    pub proof fn a_column_builds_as_many_boxes_as_a_block(
        &self,
        other: &Ctx,
        width: u16,
        viewport: u16,
    )
        requires
            self.wf(),
            self.is_stacked(),
            other.is_stacked(),
            self.differs_only_in_stacking(other),
            self.boxes_of_page(at_least_one(width)) <= usize::MAX,
        ensures
            self.page(width, viewport).boxes.len() == other.page(width, viewport).boxes.len(),
    {
        self.same_page_boxes(other, 0, at_least_one(width));
        self.every_item_is_built_exactly_once(width, viewport);
        other.every_item_is_built_exactly_once(width, viewport);
    }
}

} // verus!
