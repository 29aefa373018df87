//! Block boxes: one element's box, its contents stacked, and the boxes that
//! leave the flow.

use vstd::prelude::*;

use crate::boxes::{in_range, size_ok, BoxId, BoxKind, BoxView, LayoutBox};
use crate::boxmodel::{
    definite_v, flow_delta, inset_h, inset_v, is_block_level, is_shifted, lays_out_as_flex,
    lays_out_as_grid, relative_delta, resolve_block_dims, room_inside, term_style, Axis,
};
use crate::breaker::Laid;
use crate::cells::{larger, minus, plus, smaller};
use crate::context::{ChildMode, Ctx};
use crate::dimensions::{Dimensions, EdgeSizes, Rect};
use crate::dom::{Dom, NodeData, NodeId};
use crate::engine::{
    fixed_from, image_box, last_box_of, new_box, new_image_box, new_text_box, plain_box, text_box,
    Canvas, Engine,
};
use crate::field::{control, control_of, generates_no_box, kind_of, Control, FieldPaint, Kind};
use crate::flexbox::own_path;
use crate::image::image_size;
use crate::inline::{items_known, InlineItem};
use crate::style::{ComputedStyle, Display, Position, TextAlign};
use crate::term::Style;
use crate::text::{blank, is_blank, repeat, repeated, same};
use crate::views::views;

verus! {

broadcast use crate::views::group_views;

/// What building a box left: the canvas, the box, and the height its contents
/// used, which is not its own height where a `height` overrode it.
pub struct Built {
    pub cv: Canvas,
    pub id: BoxId,
    pub content: i32,
}

/// Everything that decides what box an element gets.
pub struct BoxArgs {
    pub cv: Canvas,
    pub id: NodeId,
    pub computed: ComputedStyle,
    pub dims: Dimensions,
    /// The containing block's content height when it is definite.
    pub ch: Option<i32>,
    /// Whitespace is kept.
    pub pre: bool,
}

/// How the boxes inside a box are built, and how tall the viewport is that
/// fixed ones are placed in.
pub struct Recipe {
    pub build: spec_fn(BoxArgs) -> Built,
    pub viewport: i32,
}

/// The vertical size properties resolved for one box, handed to its contents.
#[derive(Clone, Copy, PartialEq, Eq, Debug)]
pub struct BlockHeight {
    /// `height` when definite, already a content-box size.
    pub specified: Option<i32>,
    /// `min-height` and `max-height` when definite, as specified values.
    pub min: Option<i32>,
    pub max: Option<i32>,
}

/// The vertical axis of a box.
#[verifier::allow_in_spec]
pub fn axis_v(dims: Dimensions, computed: &ComputedStyle) -> (r: Axis)
    returns
        (Axis { edges: dims.inner_edges_v(), box_sizing: computed.box_sizing }),
{
    Axis { edges: dims.inner_edges_v(), box_sizing: computed.box_sizing }
}

#[verifier::allow_in_spec]
pub fn heights_of(dims: Dimensions, computed: &ComputedStyle, ch: Option<i32>) -> (r: BlockHeight)
    returns
        (BlockHeight {
            specified: match definite_v(computed.height, ch) {
                Some(h) => Some(axis_v(dims, computed).content_from(h)),
                None => None,
            },
            min: definite_v(computed.min_height, ch),
            max: definite_v(computed.max_height, ch),
        }),
{
    BlockHeight {
        specified: match definite_v(computed.height, ch) {
            Some(h) => Some(axis_v(dims, computed).content_from(h)),
            None => None,
        },
        min: definite_v(computed.min_height, ch),
        max: definite_v(computed.max_height, ch),
    }
}

/// The specified height, or else the contents', between the box's bounds.
#[verifier::allow_in_spec]
pub fn used_height(axis: Axis, heights: BlockHeight, content: i32) -> (r: i32)
    returns
        axis.clamp(
            match heights.specified {
                Some(h) => h,
                None => content,
            },
            heights.min,
            heights.max,
        ),
{
    axis.clamp(
        match heights.specified {
            Some(h) => h,
            None => content,
        },
        heights.min,
        heights.max,
    )
}

/// A position at the content origin that a margin box at (`x`, `y`) has.
#[verifier::allow_in_spec]
pub fn content_at(dims: Dimensions, x: i32, y: i32, height: i32) -> (r: Dimensions)
    returns
        dims.with_content(
            Rect {
                x: plus(plus(plus(x, dims.margin.left), dims.border.left), dims.padding.left),
                y: plus(plus(y, dims.border.top), dims.padding.top),
                width: dims.content.width,
                height,
            },
        ),
{
    dims.with_content(
        Rect {
            x: plus(plus(plus(x, dims.margin.left), dims.border.left), dims.padding.left),
            y: plus(plus(y, dims.border.top), dims.padding.top),
            width: dims.content.width,
            height,
        },
    )
}

/// Where and how wide a block container's contents are laid out.
#[derive(Clone, Copy, PartialEq, Eq, Debug)]
pub struct FlowEnv {
    pub x: i32,
    pub width: i32,
    pub height: Option<i32>,
    pub align: TextAlign,
    pub pre: bool,
}

/// How far the flow of a block container's contents has come.
#[derive(Debug)]
pub struct Flow {
    pub y: i32,
    /// The bottom margin that the next child's collapses with.
    pub prev: i32,
    pub children: Vec<BoxId>,
    /// Inline content not yet wrapped in an anonymous block.
    pub run: Vec<InlineItem>,
    /// A list item's bullet is still to be placed.
    pub marker: bool,
    /// What leaves the flow, to be placed when the rest is.
    pub absolutes: Vec<NodeId>,
}

/// The value of a [`Flow`].
pub struct FlowView {
    pub y: i32,
    pub prev: i32,
    pub children: Seq<BoxId>,
    pub run: Seq<InlineItem>,
    pub marker: bool,
    pub absolutes: Seq<NodeId>,
}

impl View for Flow {
    type V = FlowView;

    open spec fn view(&self) -> FlowView {
        FlowView {
            y: self.y,
            prev: self.prev,
            children: self.children@,
            run: self.run@,
            marker: self.marker,
            absolutes: self.absolutes@,
        }
    }
}

/// Every node is one of the document.
pub open spec fn nodes_in(dom: &Dom, nodes: Seq<NodeId>) -> bool {
    forall|i: int| 0 <= i < nodes.len() ==> dom.has(#[trigger] nodes[i])
}

impl FlowView {
    pub open spec fn ok(self, dom: &Dom, n: nat) -> bool {
        &&& in_range(self.children, n)
        &&& items_known(dom, self.run)
        &&& nodes_in(dom, self.absolutes)
    }

    /// After a child laid out in the flow.
    pub open spec fn after(self, cv: Canvas, id: BoxId, dy: i32) -> FlowView {
        FlowView {
            y: minus(cv.dims(id).margin_box().bottom(), dy),
            prev: cv.dims(id).margin.bottom,
            children: self.children.push(id),
            ..self
        }
    }
}

/// The direct child of `owner` that `node` is, or is inside.
pub open spec fn child_holding(dom: &Dom, owner: NodeId, node: NodeId) -> Option<NodeId>
    decreases dom.climb(node),
    when dom.wf() && dom.has(node)
    via child_holding_climbs
{
    match dom.parent_of(node) {
        None => None,
        Some(p) => if p == owner {
            Some(node)
        } else {
            child_holding(dom, owner, p)
        },
    }
}

#[via_fn]
proof fn child_holding_climbs(dom: &Dom, owner: NodeId, node: NodeId) {
    if dom.parent_of(node) is Some {
        dom.parents_are_nearer_the_peak(node);
    }
}

/// The direct child of `owner` that a box comes from: its own node's, or else
/// its first child's that has one.
pub open spec fn source_child(dom: &Dom, boxes: Seq<BoxView>, depth: nat, owner: NodeId, id: BoxId) -> Option<
    NodeId,
>
    decreases depth, 0nat,
{
    if depth == 0 || id.0 >= boxes.len() {
        None
    } else {
        let b = boxes[id.0 as int];
        let own = match b.node {
            Some(n) => if dom.has(n) {
                child_holding(dom, owner, n)
            } else {
                None
            },
            None => None,
        };
        match own {
            Some(c) => Some(c),
            None => source_child_of(dom, boxes, depth, owner, b.children, 0),
        }
    }
}

pub open spec fn source_child_of(
    dom: &Dom,
    boxes: Seq<BoxView>,
    depth: nat,
    owner: NodeId,
    kids: Seq<BoxId>,
    k: int,
) -> Option<NodeId>
    decreases depth, 0nat, kids.len() - k,
{
    if depth == 0 || k >= kids.len() {
        None
    } else {
        match source_child(dom, boxes, (depth - 1) as nat, owner, kids[k]) {
            Some(c) => Some(c),
            None => source_child_of(dom, boxes, depth, owner, kids, k + 1),
        }
    }
}

/// The place of a node among children from the `i`th on, or past them all.
pub open spec fn rank_among(kids: Seq<NodeId>, node: NodeId, i: int) -> i128
    decreases kids.len() - i,
{
    if i >= kids.len() {
        u64::MAX as i128
    } else if kids[i] == node {
        i as i128
    } else {
        rank_among(kids, node, i + 1)
    }
}

/// Where a box stands in document order among its siblings.
pub open spec fn document_key(dom: &Dom, boxes: Seq<BoxView>, owner: NodeId, id: BoxId) -> i128 {
    match source_child(dom, boxes, boxes.len(), owner, id) {
        Some(c) => rank_among(dom.kids(owner), c, 0),
        None => u64::MAX as i128,
    }
}

/// Boxes restored to source order.
pub open spec fn in_source_order(dom: &Dom, boxes: Seq<BoxView>, owner: NodeId, ids: Seq<BoxId>) -> Seq<
    BoxId,
> {
    let keys = ids.map_values(|id: BoxId| document_key(dom, boxes, owner, id));
    crate::order::sorted_indices(keys, keys.len() as int).map_values(|i: usize| ids[i as int])
}

impl<'a> Ctx<'a> {
    /// The kind of box an element generates.
    pub open spec fn kind_at(&self, id: NodeId, computed: ComputedStyle) -> BoxKind {
        let tag = self.dom.tag_of(id);
        match control_of(self.dom, id, tag) {
            Some(f) => BoxKind::Field(FieldPaint { shows: f.shows, disabled: f.disabled }),
            None => if tag == "table"@ {
                BoxKind::Table
            } else if tag == "tr"@ {
                BoxKind::TableRow
            } else if tag == "td"@ || tag == "th"@ {
                BoxKind::TableCell
            } else if lays_out_as_flex(&computed) {
                BoxKind::Flex
            } else if lays_out_as_grid(&computed) {
                BoxKind::Grid
            } else {
                BoxKind::Block
            },
        }
    }

    /// The box of an element, before its contents.
    pub open spec fn bare_box(&self, id: NodeId, computed: ComputedStyle, dims: Dimensions) -> BoxView {
        let plain = plain_box(self.kind_at(id, computed), Some(id), dims, computed);
        match control_of(self.dom, id, self.dom.tag_of(id)) {
            Some(f) => BoxView {
                text: Some(f.text),
                term_style: term_style(&computed),
                ..plain
            },
            None => plain,
        }
    }

    /// The box for an element whose edges, content width and position are
    /// already decided, filled with its contents and given its used height.
    /// `inner` lays those contents out.
    #[verifier::opaque]
    pub open spec fn box_with(
        &self,
        inner: spec_fn(Canvas, BoxId, BlockHeight) -> (Canvas, i32),
        a: BoxArgs,
    ) -> Built {
        let with = a.cv.with_box(self.bare_box(a.id, a.computed, a.dims));
        let bid = a.cv.next_id();
        let heights = heights_of(a.dims, &a.computed, a.ch);
        let (full, content) = match control_of(self.dom, a.id, self.dom.tag_of(a.id)) {
            Some(f) => (with, f.rows),
            None => inner(with, bid, heights),
        };
        Built {
            cv: full.with_height(
                bid,
                used_height(axis_v(a.dims, &a.computed), heights, content),
            ),
            id: bid,
            content,
        }
    }

    /// A box and everything inside it, `fuel` boxes deep. A document cannot
    /// nest deeper than it has nodes, so `fuel` that starts there never runs
    /// out on one.
    pub open spec fn box_at(&self, viewport: i32, fuel: nat, a: BoxArgs) -> Built
        decreases fuel, 0nat,
    {
        if fuel == 0 {
            self.box_with(|cv: Canvas, bid: BoxId, heights: BlockHeight| (cv, 0i32), a)
        } else {
            let rec = self.builder(viewport, (fuel - 1) as nat);
            self.box_with(
                |cv: Canvas, bid: BoxId, heights: BlockHeight|
                    self.any_contents(rec, cv, a.id, a.computed, bid, heights, a.pre),
                a,
            )
        }
    }

    /// [`box_at`](Self::box_at) as a function of what box to build.
    pub open spec fn builder(&self, viewport: i32, fuel: nat) -> Recipe
        decreases fuel, 1nat,
    {
        Recipe { build: |a: BoxArgs| self.box_at(viewport, fuel, a), viewport }
    }

    /// What is inside a box, by whichever formatting context it runs.
    #[verifier::opaque]
    pub open spec fn any_contents(
        &self,
        rec: Recipe,
        cv: Canvas,
        id: NodeId,
        computed: ComputedStyle,
        bid: BoxId,
        heights: BlockHeight,
        pre: bool,
    ) -> (Canvas, i32)
    {
        if self.dom.tag_of(id) == "table"@ {
            self.table_contents(rec, cv, id, computed, bid, heights, pre)
        } else {
            self.contents(rec, cv, id, computed, bid, heights, pre)
        }
    }

    #[verifier::opaque]
    pub open spec fn contents(
        &self,
        rec: Recipe,
        cv: Canvas,
        id: NodeId,
        computed: ComputedStyle,
        bid: BoxId,
        heights: BlockHeight,
        pre: bool,
    ) -> (Canvas, i32)
    {
        if lays_out_as_flex(&computed) {
            self.flex_contents(rec, cv, id, computed, bid, heights, pre)
        } else if lays_out_as_grid(&computed) {
            self.grid_contents(rec, cv, id, computed, bid, heights, pre)
        } else {
            self.block_contents(rec, cv, id, computed, bid, heights, pre)
        }
    }

    /// The pending inline content wrapped in an anonymous block.
    #[verifier::opaque]
    pub open spec fn flow_flushed(&self, rec: Recipe, cv: Canvas, flow: FlowView, env: FlowEnv) -> (
        Canvas,
        FlowView,
    )
    {
        let laid = self.anonymous(
            rec,
            cv,
            env.x,
            env.width,
            flow.y,
            flow.prev,
            flow.run,
            env.align,
            env.pre,
        );
        match laid.id {
            None => (laid.cv, FlowView { prev: laid.prev, ..flow }),
            Some(id) => (
                laid.cv,
                FlowView { run: Seq::empty(), ..flow }.after(laid.cv, id, 0),
            ),
        }
    }

    /// A list item's bullet on a line of its own.
    #[verifier::opaque]
    pub open spec fn flow_marked(&self, rec: Recipe, cv: Canvas, flow: FlowView, env: FlowEnv) -> (
        Canvas,
        FlowView,
    )
    {
        let laid = self.anonymous(
            rec,
            cv,
            env.x,
            env.width,
            flow.y,
            flow.prev,
            seq![InlineItem::Marker { style: Style::plain() }],
            env.align,
            env.pre,
        );
        match laid.id {
            None => (laid.cv, FlowView { prev: laid.prev, marker: false, ..flow }),
            Some(id) => (
                laid.cv,
                FlowView { marker: false, ..flow }.after(laid.cv, id, 0),
            ),
        }
    }

    /// One child of a block container.
    #[verifier::opaque]
    pub open spec fn flow_child(
        &self,
        rec: Recipe,
        cv: Canvas,
        flow: FlowView,
        env: FlowEnv,
        c: NodeId,
    ) -> (Canvas, FlowView)
    {
        if self.leaves_flow(c) {
            (cv, FlowView { absolutes: flow.absolutes.push(c), ..flow })
        } else {
            match self.mode_of(c) {
                ChildMode::Skip => (cv, flow),
                ChildMode::Inline => {
                    let run = if flow.marker {
                        flow.run.push(InlineItem::Marker { style: Style::plain() })
                    } else {
                        flow.run
                    };
                    (
                        cv,
                        FlowView {
                            marker: false,
                            absolutes: flow.absolutes + self.loose_absolutes(c, 0),
                            run: run + self.inline_items(c, env.width),
                            ..flow
                        },
                    )
                },
                ChildMode::Block => {
                    let (cv1, flow1) = self.flow_flushed(rec, cv, flow, env);
                    let (cv2, flow2) = if flow1.marker {
                        self.flow_marked(rec, cv1, flow1, env)
                    } else {
                        (cv1, flow1)
                    };
                    let laid = self.lay_node(
                        rec,
                        cv2,
                        c,
                        env.x,
                        env.width,
                        env.height,
                        flow2.y,
                        flow2.prev,
                        env.pre,
                    );
                    match laid.id {
                        None => (laid.cv, FlowView { prev: laid.prev, ..flow2 }),
                        Some(id) => (
                            laid.cv,
                            flow2.after(
                                laid.cv,
                                id,
                                self.flow_dy(c, env.width, env.height),
                            ),
                        ),
                    }
                },
            }
        }
    }

    /// How far down a relatively positioned child moved, which the flow after
    /// it does not follow.
    pub open spec fn flow_dy(&self, c: NodeId, width: i32, height: Option<i32>) -> i32 {
        if self.style(c).position is Relative {
            relative_delta(self.style(c), width, height).1
        } else {
            0
        }
    }

    /// The children of a block container from the `k`th on.
    pub open spec fn flow_children(
        &self,
        rec: Recipe,
        cv: Canvas,
        flow: FlowView,
        env: FlowEnv,
        kids: Seq<NodeId>,
        k: int,
    ) -> (Canvas, FlowView)
        decreases kids.len() - k,
    {
        if k >= kids.len() {
            (cv, flow)
        } else {
            let (cv2, flow2) = self.flow_child(rec, cv, flow, env, kids[k]);
            self.flow_children(rec, cv2, flow2, env, kids, k + 1)
        }
    }

    /// What left the flow, from the `i`th on, placed and added to the children.
    pub open spec fn absolutes_laid(
        &self,
        rec: Recipe,
        cv: Canvas,
        nodes: Seq<NodeId>,
        i: int,
        bid: BoxId,
        pre: bool,
        children: Seq<BoxId>,
    ) -> (Canvas, Seq<BoxId>)
        decreases nodes.len() - i,
    {
        if i >= nodes.len() {
            (cv, children)
        } else {
            let (cv2, abs) = self.positioned(rec, cv, nodes[i], bid, pre);
            self.absolutes_laid(
                rec,
                cv2,
                nodes,
                i + 1,
                bid,
                pre,
                match abs {
                    Some(id) => children.push(id),
                    None => children,
                },
            )
        }
    }

    /// A block container's contents: blocks stacked, and runs of inlines
    /// wrapped in anonymous blocks.
    #[verifier::opaque]
    pub open spec fn block_contents(
        &self,
        rec: Recipe,
        cv: Canvas,
        id: NodeId,
        computed: ComputedStyle,
        bid: BoxId,
        heights: BlockHeight,
        pre: bool,
    ) -> (Canvas, i32)
    {
        let dims = cv.dims(bid);
        let env = FlowEnv {
            x: dims.content.x,
            width: dims.content.width,
            height: heights.specified,
            align: computed.text_align,
            pre,
        };
        let start = FlowView {
            y: dims.content.y,
            prev: 0,
            children: Seq::empty(),
            run: Seq::empty(),
            marker: self.dom.tag_of(id) == "li"@,
            absolutes: Seq::empty(),
        };
        let (cv1, flow1) = self.flow_children(rec, cv, start, env, self.dom.kids(id), 0);
        let (cv2, flow2) = self.flow_flushed(rec, cv1, flow1, env);
        let (cv3, with) = self.absolutes_laid(
            rec,
            cv2,
            flow2.absolutes,
            0,
            bid,
            pre,
            flow2.children,
        );
        let flow3 = FlowView { children: with, ..flow2 };
        let (cv4, flow4) = if flow3.marker {
            self.flow_marked(rec, cv3, flow3, env)
        } else {
            (cv3, flow3)
        };
        let children = if flow2.absolutes.len() > 0 {
            in_source_order(self.dom, cv4.boxes, id, flow4.children)
        } else {
            flow4.children
        };
        (cv4.with_children(bid, children), larger(minus(flow4.y, dims.content.y), 0))
    }

    /// A block-level element as a child of a block container: adjacent margins
    /// collapse to the larger, and the page does not start with a gap.
    #[verifier::opaque]
    pub open spec fn block_laid(
        &self,
        rec: Recipe,
        cv: Canvas,
        id: NodeId,
        computed: ComputedStyle,
        x: i32,
        cw: i32,
        ch: Option<i32>,
        y: i32,
        prev: i32,
        pre: bool,
    ) -> Laid
    {
        let intrinsic = match control_of(self.dom, id, self.dom.tag_of(id)) {
            Some(f) => Some(f.cols),
            None => None,
        };
        let dims = resolve_block_dims(&computed, cw, intrinsic);
        let after = minus(y, prev);
        let used_top = if after == 0 && prev == 0 {
            0
        } else {
            larger(dims.margin.top, prev)
        };
        let placed = content_at(
            dims.with_margin(EdgeSizes { top: used_top, ..dims.margin }),
            x,
            plus(after, used_top),
            0,
        );
        let built = (rec.build)(BoxArgs { cv, id, computed, dims: placed, ch, pre });
        Laid {
            cv: built.cv,
            id: Some(built.id),
            prev: built.cv.dims(built.id).margin.bottom,
        }
    }

    /// A forced break between blocks: one empty row.
    pub open spec fn break_laid(
        &self,
        cv: Canvas,
        x: i32,
        width: i32,
        y: i32,
        prev: i32,
        computed: ComputedStyle,
    ) -> Laid {
        Laid {
            cv: cv.with_box(
                plain_box(
                    BoxKind::Line,
                    None,
                    Dimensions::bare(
                        Rect { x, y: minus(y, prev), width: larger(width, 0), height: 1 },
                    ),
                    computed,
                ),
            ),
            id: Some(cv.next_id()),
            prev: 0,
        }
    }

    /// A rule across the box it was given.
    #[verifier::opaque]
    pub open spec fn rule_laid(
        &self,
        cv: Canvas,
        x: i32,
        width: i32,
        y: i32,
        prev: i32,
        computed: ComputedStyle,
    ) -> Laid {
        let d = resolve_block_dims(&computed, width, None);
        let top = larger(d.margin.top, prev);
        let at = content_at(
            d.with_margin(EdgeSizes { top, ..d.margin }),
            x,
            plus(minus(y, prev), top),
            1,
        );
        let w = room_inside(width, d.margin, d.border, d.padding);
        let dims = at.with_content(Rect { width: w, ..at.content });
        let with_text = cv.with_box(
            text_box(None, dims.content, repeated('─', w as int), Style::plain()),
        );
        Laid {
            cv: with_text.with_box(
                BoxView {
                    children: seq![cv.next_id()],
                    ..plain_box(BoxKind::Block, None, dims, computed)
                },
            ),
            id: Some(with_text.next_id()),
            prev: dims.margin.bottom,
        }
    }

    /// A block-level image.
    #[verifier::opaque]
    pub open spec fn image_laid(
        &self,
        cv: Canvas,
        id: NodeId,
        computed: ComputedStyle,
        x: i32,
        cw: i32,
        y: i32,
        prev: i32,
    ) -> Laid {
        match self.images.of(id) {
            None => Laid { cv, id: None, prev },
            Some(img) => {
                let (w, h) = image_size(img, cw);
                Laid {
                    cv: cv.with_box(
                        image_box(
                            id,
                            Rect {
                                x,
                                y: minus(y, prev),
                                width: larger(smaller(w, cw), 1),
                                height: larger(h, 1),
                            },
                            computed,
                            img.alt,
                            img.url,
                            img.firm,
                        ),
                    ),
                    id: Some(cv.next_id()),
                    prev: 0,
                }
            },
        }
    }

    /// The style an element is laid out with: a page's own `display: none` is a
    /// block where hidden content is revealed.
    pub open spec fn shown_style(&self, id: NodeId) -> ComputedStyle {
        let c = self.style(id);
        if c.display is NoBox {
            ComputedStyle { display: Display::Block, ..c }
        } else {
            c
        }
    }

    /// One element before any relative shift.
    #[verifier::opaque]
    pub open spec fn element_laid(
        &self,
        rec: Recipe,
        cv: Canvas,
        id: NodeId,
        x: i32,
        cw: i32,
        ch: Option<i32>,
        y: i32,
        prev: i32,
        pre: bool,
    ) -> Laid
    {
        let c = self.shown_style(id);
        let tag = self.dom.tag_of(id);
        if tag == "br"@ {
            self.break_laid(cv, x, cw, y, prev, c)
        } else if tag == "hr"@ {
            self.rule_laid(cv, x, cw, y, prev, c)
        } else if tag == "img"@ {
            self.image_laid(cv, id, c, x, cw, y, prev)
        } else if is_block_level(c.display) {
            self.block_laid(rec, cv, id, c, x, cw, ch, y, prev, pre || tag == "pre"@)
        } else {
            self.anonymous(
                rec,
                cv,
                x,
                cw,
                y,
                prev,
                self.inline_items(id, cw),
                TextAlign::Left,
                pre || tag == "pre"@,
            )
        }
    }

    /// One node as a child of a block container.
    #[verifier::opaque]
    pub open spec fn lay_node(
        &self,
        rec: Recipe,
        cv: Canvas,
        id: NodeId,
        x: i32,
        cw: i32,
        ch: Option<i32>,
        y: i32,
        prev: i32,
        pre: bool,
    ) -> Laid
    {
        if self.dom.is_text(id) {
            if blank(self.dom.text_of(id)) {
                Laid { cv, id: None, prev }
            } else {
                self.anonymous(
                    rec,
                    cv,
                    x,
                    cw,
                    y,
                    prev,
                    seq![InlineItem::Text { node: id, style: term_style(&self.style(id)) }],
                    TextAlign::Left,
                    pre,
                )
            }
        } else if !self.dom.is_element(id) || self.hides(id) || kind_of(
            self.dom,
            id,
            self.dom.tag_of(id),
        ) == Some(Kind::Absent) {
            Laid { cv, id: None, prev }
        } else {
            let laid = self.element_laid(rec, cv, id, x, cw, ch, y, prev, pre);
            let c = self.shown_style(id);
            match laid.id {
                Some(bid) if is_shifted(c.position) => {
                    let (dx, dy) = flow_delta(c, cw, ch);
                    Laid { cv: laid.cv.moved(bid, dx, dy), ..laid }
                },
                _ => laid,
            }
        }
    }

    /// The ordinary-flow position a positioned child would have started at: the
    /// parent's content box, below the siblings from the `k`th on that come
    /// before it.
    pub open spec fn static_from(
        &self,
        boxes: Seq<BoxView>,
        kids: Seq<NodeId>,
        k: int,
        id: NodeId,
        origin: Rect,
    ) -> Rect
        decreases kids.len() - k,
    {
        if k >= kids.len() || kids[k] == id {
            origin
        } else {
            self.static_from(
                boxes,
                kids,
                k + 1,
                id,
                match last_box_of(boxes, kids[k], boxes.len() as int) {
                    Some(b) => Rect {
                        y: larger(
                            origin.y,
                            boxes[b.0 as int].dimensions.margin_box().bottom(),
                        ),
                        ..origin
                    },
                    None => origin,
                },
            )
        }
    }

    pub open spec fn static_place(&self, boxes: Seq<BoxView>, id: NodeId, parent: BoxId) -> Rect {
        let b = boxes[parent.0 as int];
        match b.node {
            Some(n) if self.dom.has(n) => self.static_from(
                boxes,
                self.dom.kids(n),
                0,
                id,
                b.dimensions.content,
            ),
            _ => b.dimensions.content,
        }
    }

    /// The padding box of a positioned ancestor, and its height where an
    /// explicit one makes it definite.
    pub open spec fn holding_block(&self, b: BoxView) -> (Rect, Option<i32>) {
        let pad = b.dimensions.padding_box();
        match definite_v(b.computed.height, None) {
            Some(h) => {
                let height = plus(
                    plus(
                        axis_v(b.dimensions, &b.computed).content_from(h),
                        b.dimensions.padding.top,
                    ),
                    b.dimensions.padding.bottom,
                );
                (Rect { height, ..pad }, Some(height))
            },
            None => (pad, None),
        }
    }

    /// The rectangle an absolutely positioned element is placed in: its nearest
    /// positioned ancestor's, or else the page's.
    pub open spec fn containing_of(&self, boxes: Seq<BoxView>, id: NodeId) -> (Rect, Option<i32>)
        decreases self.dom.climb(id),
        when self.wf() && self.dom.has(id)
        via Self::containing_climbs
    {
        match self.dom.parent_of(id) {
            None => (boxes[0].dimensions.content, None),
            Some(p) => if !(self.style(p).position is Static) && last_box_of(
                boxes,
                p,
                boxes.len() as int,
            ) is Some {
                self.holding_block(
                    boxes[(last_box_of(boxes, p, boxes.len() as int)->0).0 as int],
                )
            } else {
                self.containing_of(boxes, p)
            },
        }
    }

    #[via_fn]
    proof fn containing_climbs(&self, boxes: Seq<BoxView>, id: NodeId) {
        if self.dom.parent_of(id) is Some {
            self.dom.parents_are_nearer_the_peak(id);
        }
    }

    /// A positioned image.
    #[verifier::opaque]
    pub open spec fn positioned_image(
        &self,
        cv: Canvas,
        id: NodeId,
        cb: Rect,
        cb_height: Option<i32>,
        at: Rect,
        fixed: bool,
    ) -> (Canvas, Option<BoxId>) {
        match self.images.of(id) {
            None => (cv, None),
            Some(img) => {
                let c = self.style(id);
                let (iw, ih) = image_size(img, larger(cb.width, 1));
                let width = if c.width.is_auto() {
                    larger(smaller(iw, larger(cb.width, 1)), 1)
                } else {
                    larger(c.width.to_cells_h(cb.width), 1)
                };
                let x = match inset_h(c.left, cb.width) {
                    Some(n) => plus(cb.x, n),
                    None => match inset_h(c.right, cb.width) {
                        Some(n) => minus(minus(cb.right(), n), width),
                        None => at.x,
                    },
                };
                let y = match inset_v(c.top, cb.width, cb_height) {
                    Some(n) => plus(cb.y, n),
                    None => match far_inset(c, cb.width, cb_height) {
                        Some(n) => minus(minus(cb.bottom(), n), ih),
                        None => at.y,
                    },
                };
                (
                    cv.with_box(
                        BoxView {
                            fixed_viewport: fixed,
                            ..image_box(
                                id,
                                Rect { x, y, width, height: larger(ih, 1) },
                                c,
                                img.alt,
                                img.url,
                                img.firm,
                            )
                        },
                    ),
                    Some(cv.next_id()),
                )
            },
        }
    }

    /// A positioned element's box, before its vertical place is settled.
    #[verifier::opaque]
    pub open spec fn positioned_dims(&self, id: NodeId, cb: Rect, at: Rect) -> (Dimensions, i32) {
        let c = self.style(id);
        let intrinsic = match control_of(self.dom, id, self.dom.tag_of(id)) {
            Some(f) => Some(f.cols),
            None => None,
        };
        let d = resolve_block_dims(&c, larger(cb.width, 1), intrinsic);
        let left = inset_h(c.left, cb.width);
        let right = inset_h(c.right, cb.width);
        let width = match (left, right) {
            (Some(l), Some(r)) if c.width.is_auto() => larger(
                minus(minus(minus(cb.width, l), r), plus(d.margin.across(), d.inner_edges_h())),
                1,
            ),
            _ => d.content.width,
        };
        let dims = d.with_content(Rect { width, ..d.content });
        let x = match left {
            Some(l) => plus(cb.x, l),
            None => match right {
                Some(r) => minus(minus(cb.right(), r), dims.margin_box_width()),
                None => at.x,
            },
        };
        (content_at(dims, x, plus(cb.y, dims.margin.top), 0), x)
    }

    /// The finished place of a positioned box: its height where both vertical
    /// insets decide it, and the row its margin box starts on.
    #[verifier::opaque]
    pub open spec fn positioned_row(
        &self,
        c: ComputedStyle,
        dims: Dimensions,
        cb: Rect,
        cb_height: Option<i32>,
        at: Rect,
    ) -> (i32, i32) {
        let top = inset_v(c.top, cb.width, cb_height);
        let bottom = far_inset(c, cb.width, cb_height);
        match (top, bottom, cb_height) {
            (Some(t), Some(b), Some(h)) if c.height.is_auto() => (
                larger(
                    minus(
                        minus(
                            minus(minus(minus(h, t), b), dims.margin.top),
                            dims.margin.bottom,
                        ),
                        dims.inner_edges_v(),
                    ),
                    0,
                ),
                plus(cb.y, t),
            ),
            _ => (
                dims.content.height,
                match top {
                    Some(t) => plus(cb.y, t),
                    None => match bottom {
                        Some(b) => minus(minus(cb.bottom(), b), dims.margin_box().height),
                        None => at.y,
                    },
                },
            ),
        }
    }

    /// One out-of-flow child, placed after its in-flow siblings.
    #[verifier::opaque]
    pub open spec fn positioned(
        &self,
        rec: Recipe,
        cv: Canvas,
        id: NodeId,
        parent: BoxId,
        pre: bool,
    ) -> (Canvas, Option<BoxId>)
    {
        let tag = self.dom.tag_of(id);
        if !self.dom.is_element(id) || self.hides(id) || kind_of(self.dom, id, tag) == Some(
            Kind::Absent,
        ) {
            (cv, None)
        } else {
            let c = self.style(id);
            let fixed = c.position is Fixed;
            let (cb, cb_height) = if fixed {
                let page = cv.boxes[0].dimensions.content;
                (Rect { height: rec.viewport, ..page }, Some(larger(rec.viewport, 1)))
            } else {
                self.containing_of(cv.boxes, id)
            };
            let at = self.static_place(cv.boxes, id, parent);
            if tag == "img"@ {
                self.positioned_image(cv, id, cb, cb_height, at, fixed)
            } else {
                let (dims, x) = self.positioned_dims(id, cb, at);
                let built = (rec.build)(
                    BoxArgs {
                        cv,
                        id,
                        computed: c,
                        dims,
                        ch: cb_height,
                        pre: pre || tag == "pre"@,
                    },
                );
                let (height, y) = self.positioned_row(
                    c,
                    built.cv.dims(built.id),
                    cb,
                    cb_height,
                    at,
                );
                let sized = built.cv.with_height(built.id, height);
                let now = sized.dims(built.id).margin_box();
                let there = sized.moved(built.id, minus(x, now.x), minus(y, now.y));
                (
                    if fixed {
                        Canvas {
                            boxes: fixed_from(there.boxes, there.boxes.len(), built.id),
                            ..there
                        }
                    } else {
                        there
                    },
                    Some(built.id),
                )
            }
        }
    }
}

/// An end inset needs an end edge: without a definite height there is none.
#[verifier::allow_in_spec]
pub fn far_inset(c: ComputedStyle, width: i32, height: Option<i32>) -> (r: Option<i32>)
    returns
        (match height {
            Some(_) => inset_v(c.bottom, width, height),
            None => None,
        }),
{
    match height {
        Some(_) => inset_v(c.bottom, width, height),
        None => None,
    }
}

impl<'a> Engine<'a> {
    pub fn layout_box_at(
        &mut self,
        fuel: usize,
        id: NodeId,
        computed: ComputedStyle,
        dims: Dimensions,
        ch: Option<i32>,
        pre: bool,
    ) -> (r: (BoxId, i32))
        requires
            old(self).ok(),
            dims.content.width >= 0,
            dims.content.height >= 0,
            old(self).ctx.dom.has(id),
        ensures
            final(self).follows(*old(self)),
            final(self).has_box(r.0),
            (Built { cv: final(self).canvas(), id: r.0, content: r.1 }) == old(self).ctx.box_at(
                old(self).viewport,
                fuel as nat,
                (BoxArgs { cv: old(self).canvas(), id, computed, dims, ch, pre }),
            ),
        decreases fuel, 0nat,
    {
        proof {
            reveal(Ctx::box_with);
            reveal(Ctx::any_contents);
        }
        let ctx: Ctx<'a> = self.ctx;
        let tag: &str = ctx.dom.tag(id);
        let field: Option<Control> = control(ctx.dom, id, tag);
        let kind: BoxKind = match &field {
            Some(f) => BoxKind::Field(FieldPaint { shows: f.shows, disabled: f.disabled }),
            None => if same(tag, "table") {
                BoxKind::Table
            } else if same(tag, "tr") {
                BoxKind::TableRow
            } else if same(tag, "td") || same(tag, "th") {
                BoxKind::TableCell
            } else if lays_out_as_flex(&computed) {
                BoxKind::Flex
            } else if lays_out_as_grid(&computed) {
                BoxKind::Grid
            } else {
                BoxKind::Block
            },
        };
        let mut b: LayoutBox = new_box(kind, Some(id), dims, computed);
        match &field {
            Some(f) => {
                b.text = Some(f.text.clone());
                b.term_style = term_style(&computed);
            },
            None => {},
        }
        let bid: BoxId = self.add_box(b);
        let axis: Axis = axis_v(dims, &computed);
        let heights: BlockHeight = heights_of(dims, &computed, ch);
        let content: i32 = match &field {
            Some(f) => f.rows,
            None => if fuel == 0 {
                0
            } else if same(tag, "table") {
                self.layout_table_contents(fuel - 1, id, computed, bid, heights, pre)
            } else {
                self.layout_contents(fuel - 1, id, computed, bid, heights, pre)
            },
        };
        self.set_height(bid, used_height(axis, heights, content));
        (bid, content)
    }

    pub fn layout_contents(
        &mut self,
        fuel: usize,
        id: NodeId,
        computed: ComputedStyle,
        bid: BoxId,
        heights: BlockHeight,
        pre: bool,
    ) -> (r: i32)
        requires
            old(self).ok(),
            old(self).ctx.dom.has(id),
            old(self).has_box(bid),
            old(self).canvas().dims(bid).content.width >= 0,
        ensures
            final(self).follows(*old(self)),
            (final(self).canvas(), r) == old(self).ctx.contents(
                old(self).ctx.builder(old(self).viewport, fuel as nat),
                old(self).canvas(),
                id,
                computed,
                bid,
                heights,
                pre,
            ),
        decreases fuel, 15nat,
    {
        proof {
            reveal(Ctx::contents);
        }
        if lays_out_as_flex(&computed) {
            self.layout_flex_contents(fuel, id, computed, bid, heights, pre)
        } else if lays_out_as_grid(&computed) {
            self.layout_grid_contents(fuel, id, computed, bid, heights, pre)
        } else {
            self.layout_block_contents(fuel, id, computed, bid, heights, pre)
        }
    }

    fn flush_flow(&mut self, fuel: usize, flow: &mut Flow, env: FlowEnv)
        requires
            old(self).ok(),
            env.width >= 0,
            old(flow)@.ok(old(self).ctx.dom, old(self).boxes@.len()),
        ensures
            final(self).follows(*old(self)),
            final(flow)@.ok(final(self).ctx.dom, final(self).boxes@.len()),
            (final(self).canvas(), final(flow)@) == old(self).ctx.flow_flushed(
                old(self).ctx.builder(old(self).viewport, fuel as nat),
                old(self).canvas(),
                old(flow)@,
                env,
            ),
        decreases fuel, 6nat,
    {
        proof {
            reveal(Ctx::flow_flushed);
        }
        let (anon, prev): (Option<BoxId>, i32) = self.layout_anonymous_block(
            fuel,
            env.x,
            env.width,
            flow.y,
            flow.prev,
            &flow.run,
            env.align,
            env.pre,
        );
        match anon {
            None => {
                flow.prev = prev;
            },
            Some(id) => {
                let d: Dimensions = self.dims(id);
                flow.y = minus(d.margin_box().bottom(), 0);
                flow.prev = d.margin.bottom;
                flow.children.push(id);
                flow.run = Vec::new();
                proof {
                    assert(flow.run@ =~= Seq::<InlineItem>::empty());
                }
            },
        }
    }

    fn mark_flow(&mut self, fuel: usize, flow: &mut Flow, env: FlowEnv)
        requires
            old(self).ok(),
            env.width >= 0,
            old(flow)@.ok(old(self).ctx.dom, old(self).boxes@.len()),
        ensures
            final(self).follows(*old(self)),
            final(flow)@.ok(final(self).ctx.dom, final(self).boxes@.len()),
            (final(self).canvas(), final(flow)@) == old(self).ctx.flow_marked(
                old(self).ctx.builder(old(self).viewport, fuel as nat),
                old(self).canvas(),
                old(flow)@,
                env,
            ),
        decreases fuel, 6nat,
    {
        proof {
            reveal(Ctx::flow_marked);
        }
        let mut bullet: Vec<InlineItem> = Vec::new();
        bullet.push(InlineItem::Marker { style: Style::plain() });
        proof {
            assert(bullet@ =~= seq![InlineItem::Marker { style: Style::plain() }]);
        }
        let (anon, prev): (Option<BoxId>, i32) = self.layout_anonymous_block(
            fuel,
            env.x,
            env.width,
            flow.y,
            flow.prev,
            &bullet,
            env.align,
            env.pre,
        );
        flow.marker = false;
        match anon {
            None => {
                flow.prev = prev;
            },
            Some(id) => {
                let d: Dimensions = self.dims(id);
                flow.y = minus(d.margin_box().bottom(), 0);
                flow.prev = d.margin.bottom;
                flow.children.push(id);
            },
        }
    }

    fn lay_flow_child(&mut self, fuel: usize, flow: &mut Flow, env: FlowEnv, c: NodeId)
        requires
            old(self).ok(),
            env.width >= 0,
            old(self).ctx.dom.has(c),
            old(flow)@.ok(old(self).ctx.dom, old(self).boxes@.len()),
        ensures
            final(self).follows(*old(self)),
            final(flow)@.ok(final(self).ctx.dom, final(self).boxes@.len()),
            (final(self).canvas(), final(flow)@) == old(self).ctx.flow_child(
                old(self).ctx.builder(old(self).viewport, fuel as nat),
                old(self).canvas(),
                old(flow)@,
                env,
                c,
            ),
        decreases fuel, 8nat,
    {
        proof {
            reveal(Ctx::flow_child);
        }
        let ctx: Ctx<'a> = self.ctx;
        if ctx.is_element_out_of_flow(c) {
            flow.absolutes.push(c);
            return;
        }
        match ctx.child_mode(c) {
            ChildMode::Skip => {},
            ChildMode::Inline => {
                if flow.marker {
                    flow.run.push(InlineItem::Marker { style: Style::plain() });
                    flow.marker = false;
                }
                ctx.push_loose_absolutes(c, &mut flow.absolutes);
                ctx.push_inline(c, env.width, &mut flow.run);
            },
            ChildMode::Block => {
                self.flush_flow(fuel, flow, env);
                if flow.marker {
                    self.mark_flow(fuel, flow, env);
                }
                let (laid, prev): (Option<BoxId>, i32) = self.layout_node(
                    fuel,
                    c,
                    env.x,
                    env.width,
                    env.height,
                    flow.y,
                    flow.prev,
                    env.pre,
                );
                match laid {
                    None => {
                        flow.prev = prev;
                    },
                    Some(id) => {
                        let dy: i32 = if matches!(ctx.styles.get(c).position, Position::Relative) {
                            relative_delta(ctx.styles.get(c), env.width, env.height).1
                        } else {
                            0
                        };
                        let d: Dimensions = self.dims(id);
                        flow.y = minus(d.margin_box().bottom(), dy);
                        flow.prev = d.margin.bottom;
                        flow.children.push(id);
                    },
                }
            },
        }
    }

    /// Lay out what left the flow, adding to `children`.
    pub fn lay_absolutes(
        &mut self,
        fuel: usize,
        nodes: &Vec<NodeId>,
        bid: BoxId,
        pre: bool,
        children: &mut Vec<BoxId>,
    )
        requires
            old(self).ok(),
            old(self).has_box(bid),
            nodes_in(old(self).ctx.dom, nodes@),
            in_range(old(children)@, old(self).boxes@.len()),
        ensures
            final(self).follows(*old(self)),
            in_range(final(children)@, final(self).boxes@.len()),
            (final(self).canvas(), final(children)@) == old(self).ctx.absolutes_laid(
                old(self).ctx.builder(old(self).viewport, fuel as nat),
                old(self).canvas(),
                nodes@,
                0,
                bid,
                pre,
                old(children)@,
            ),
        decreases fuel, 9nat,
    {
        let ghost ctx = self.ctx;
        let ghost goal = ctx.absolutes_laid(
            ctx.builder(self.viewport, fuel as nat),
            self.canvas(),
            nodes@,
            0,
            bid,
            pre,
            children@,
        );
        let mut i: usize = 0;
        while i < nodes.len()
            invariant
                self.follows(*old(self)),
                ctx == self.ctx,
                self.has_box(bid),
                i <= nodes@.len(),
                nodes_in(ctx.dom, nodes@),
                in_range(children@, self.boxes@.len()),
                goal == ctx.absolutes_laid(
                    ctx.builder(self.viewport, fuel as nat),
                    self.canvas(),
                    nodes@,
                    i as int,
                    bid,
                    pre,
                    children@,
                ),
            decreases nodes@.len() - i,
        {
            match self.layout_positioned(fuel, nodes[i], bid, pre) {
                Some(id) => {
                    children.push(id);
                },
                None => {},
            }
            i += 1;
        }
    }

    fn layout_block_contents(
        &mut self,
        fuel: usize,
        id: NodeId,
        computed: ComputedStyle,
        bid: BoxId,
        heights: BlockHeight,
        pre: bool,
    ) -> (r: i32)
        requires
            old(self).ok(),
            old(self).ctx.dom.has(id),
            old(self).has_box(bid),
            old(self).canvas().dims(bid).content.width >= 0,
        ensures
            final(self).follows(*old(self)),
            (final(self).canvas(), r) == old(self).ctx.block_contents(
                old(self).ctx.builder(old(self).viewport, fuel as nat),
                old(self).canvas(),
                id,
                computed,
                bid,
                heights,
                pre,
            ),
        decreases fuel, 10nat,
    {
        proof {
            reveal(Ctx::block_contents);
        }
        let ctx: Ctx<'a> = self.ctx;
        let dims: Dimensions = self.dims(bid);
        let env: FlowEnv = FlowEnv {
            x: dims.content.x,
            width: dims.content.width,
            height: heights.specified,
            align: computed.text_align,
            pre,
        };
        let mut flow: Flow = Flow {
            y: dims.content.y,
            prev: 0,
            children: Vec::new(),
            run: Vec::new(),
            marker: same(ctx.dom.tag(id), "li"),
            absolutes: Vec::new(),
        };
        proof {
            assert(flow@.children =~= Seq::<BoxId>::empty());
            assert(flow@.run =~= Seq::<InlineItem>::empty());
            assert(flow@.absolutes =~= Seq::<NodeId>::empty());
        }
        let kids: &Vec<NodeId> = ctx.dom.children(id);
        let ghost goal = ctx.flow_children(
            ctx.builder(self.viewport, fuel as nat),
            self.canvas(),
            flow@,
            env,
            kids@,
            0,
        );
        let mut k: usize = 0;
        while k < kids.len()
            invariant
                self.follows(*old(self)),
                ctx == self.ctx,
                ctx.dom.has(id),
                kids@ == ctx.dom.kids(id),
                k <= kids@.len(),
                env.width >= 0,
                flow@.ok(ctx.dom, self.boxes@.len()),
                goal == ctx.flow_children(
                    ctx.builder(self.viewport, fuel as nat),
                    self.canvas(),
                    flow@,
                    env,
                    kids@,
                    k as int,
                ),
            decreases kids@.len() - k,
        {
            proof {
                assert(ctx.dom.nodes@[id.0 as int].children@[k as int] == kids@[k as int]);
            }
            self.lay_flow_child(fuel, &mut flow, env, kids[k]);
            k += 1;
        }
        self.flush_flow(fuel, &mut flow, env);
        let any: bool = flow.absolutes.len() > 0;
        self.lay_absolutes(fuel, &flow.absolutes, bid, pre, &mut flow.children);
        if flow.marker {
            self.mark_flow(fuel, &mut flow, env);
        }
        let children: Vec<BoxId> = if any {
            self.order_children_by_dom(id, &flow.children)
        } else {
            flow.children
        };
        self.set_children(bid, children);
        larger(minus(flow.y, dims.content.y), 0)
    }
}

fn holding_child(dom: &Dom, owner: NodeId, node: NodeId) -> (r: Option<NodeId>)
    requires
        dom.wf(),
        dom.has(node),
    ensures
        r == child_holding(dom, owner, node),
{
    let mut cur: NodeId = node;
    loop
        invariant
            dom.wf(),
            dom.has(cur),
            child_holding(dom, owner, node) == child_holding(dom, owner, cur),
        decreases dom.climb(cur),
    {
        match dom.parent(cur) {
            None => {
                return None;
            },
            Some(p) => {
                if p == owner {
                    return Some(cur);
                }
                proof {
                    dom.parents_are_nearer_the_peak(cur);
                }
                cur = p;
            },
        }
    }
}

fn place_among(kids: &Vec<NodeId>, node: NodeId) -> (r: i128)
    ensures
        r == rank_among(kids@, node, 0),
{
    let mut i: usize = 0;
    while i < kids.len()
        invariant
            i <= kids@.len(),
            rank_among(kids@, node, 0) == rank_among(kids@, node, i as int),
        decreases kids@.len() - i,
    {
        if kids[i] == node {
            return i as i128;
        }
        i += 1;
    }
    u64::MAX as i128
}

impl<'a> Engine<'a> {
    fn first_direct(&self, depth: usize, owner: NodeId, id: BoxId) -> (r: Option<NodeId>)
        requires
            self.ok(),
        ensures
            r == source_child(self.ctx.dom, self.canvas().boxes, depth as nat, owner, id),
        decreases depth,
    {
        if depth == 0 || id.0 >= self.boxes.len() {
            return None;
        }
        let ghost all = self.canvas().boxes;
        let b: &LayoutBox = &self.boxes[id.0];
        match b.node {
            Some(n) => {
                if (n.0 as usize) < self.ctx.dom.node_count() {
                    match holding_child(self.ctx.dom, owner, n) {
                        Some(c) => {
                            return Some(c);
                        },
                        None => {},
                    }
                }
            },
            None => {},
        }
        let mut k: usize = 0;
        while k < b.children.len()
            invariant
                self.ok(),
                depth > 0,
                all == self.canvas().boxes,
                k <= b.children@.len(),
                source_child(self.ctx.dom, all, depth as nat, owner, id) == source_child_of(
                    self.ctx.dom,
                    all,
                    depth as nat,
                    owner,
                    b.children@,
                    k as int,
                ),
            decreases b.children@.len() - k,
        {
            match self.first_direct(depth - 1, owner, b.children[k]) {
                Some(c) => {
                    return Some(c);
                },
                None => {},
            }
            k += 1;
        }
        None
    }

    /// See [`in_source_order`].
    pub fn order_children_by_dom(&self, owner: NodeId, ids: &Vec<BoxId>) -> (r: Vec<BoxId>)
        requires
            self.ok(),
            self.ctx.dom.has(owner),
            in_range(ids@, self.boxes@.len()),
        ensures
            r@ == in_source_order(self.ctx.dom, self.canvas().boxes, owner, ids@),
            in_range(r@, self.boxes@.len()),
    {
        let dom: &Dom = self.ctx.dom;
        let ghost all = self.canvas().boxes;
        let ghost want = ids@.map_values(|id: BoxId| document_key(dom, all, owner, id));
        let mut keys: Vec<i128> = Vec::new();
        let mut i: usize = 0;
        while i < ids.len()
            invariant
                self.ok(),
                dom == self.ctx.dom,
                dom.has(owner),
                all == self.canvas().boxes,
                want == ids@.map_values(|id: BoxId| document_key(dom, all, owner, id)),
                i <= ids@.len(),
                keys@ =~= want.take(i as int),
            decreases ids@.len() - i,
        {
            let key: i128 = match self.first_direct(self.boxes.len(), owner, ids[i]) {
                Some(c) => place_among(dom.children(owner), c),
                None => u64::MAX as i128,
            };
            assert(key == want[i as int]);
            keys.push(key);
            i += 1;
        }
        proof {
            assert(keys@ =~= want);
        }
        let order: Vec<usize> = crate::order::stable_order(&keys);
        let mut out: Vec<BoxId> = Vec::new();
        let mut i: usize = 0;
        while i < order.len()
            invariant
                in_range(ids@, self.boxes@.len()),
                in_range(out@, self.boxes@.len()),
                crate::order::indices_below(order@, ids@.len() as int),
                i <= order@.len(),
                out@ =~= order@.take(i as int).map_values(|i: usize| ids@[i as int]),
            decreases order@.len() - i,
        {
            let at: usize = order[i];
            out.push(ids[at]);
            i += 1;
        }
        proof {
            assert(order@.take(order@.len() as int) =~= order@);
            assert(out@ =~= in_source_order(dom, all, owner, ids@));
        }
        out
    }

    fn layout_block(
        &mut self,
        fuel: usize,
        id: NodeId,
        computed: ComputedStyle,
        x: i32,
        cw: i32,
        ch: Option<i32>,
        y: i32,
        prev: i32,
        pre: bool,
    ) -> (r: (Option<BoxId>, i32))
        requires
            old(self).ok(),
            old(self).ctx.dom.has(id),
        ensures
            final(self).follows(*old(self)),
            r.0 matches Some(bid) && final(self).has_box(bid),
            (Laid { cv: final(self).canvas(), id: r.0, prev: r.1 }) == old(self).ctx.block_laid(
                old(self).ctx.builder(old(self).viewport, fuel as nat),
                old(self).canvas(),
                id,
                computed,
                x,
                cw,
                ch,
                y,
                prev,
                pre,
            ),
        decreases fuel, 1nat,
    {
        proof {
            reveal(Ctx::block_laid);
        }
        let ctx: Ctx<'a> = self.ctx;
        let intrinsic: Option<i32> = match control(ctx.dom, id, ctx.dom.tag(id)) {
            Some(f) => Some(f.cols),
            None => None,
        };
        let dims: Dimensions = resolve_block_dims(&computed, cw, intrinsic);
        let after: i32 = minus(y, prev);
        let used_top: i32 = if after == 0 && prev == 0 {
            0
        } else {
            larger(dims.margin.top, prev)
        };
        let margin: EdgeSizes = EdgeSizes {
            top: used_top,
            right: dims.margin.right,
            bottom: dims.margin.bottom,
            left: dims.margin.left,
        };
        let placed: Dimensions = content_at(
            dims.with_margin(margin),
            x,
            plus(after, used_top),
            0,
        );
        let (bid, _): (BoxId, i32) = self.layout_box_at(fuel, id, computed, placed, ch, pre);
        let bottom: i32 = self.dims(bid).margin.bottom;
        (Some(bid), bottom)
    }

    fn layout_br(&mut self, x: i32, width: i32, y: i32, prev: i32, computed: ComputedStyle) -> (r: (
        Option<BoxId>,
        i32,
    ))
        requires
            old(self).ok(),
        ensures
            final(self).follows(*old(self)),
            r.0 matches Some(bid) ==> final(self).has_box(bid),
            (Laid { cv: final(self).canvas(), id: r.0, prev: r.1 }) == old(self).ctx.break_laid(
                old(self).canvas(),
                x,
                width,
                y,
                prev,
                computed,
            ),
    {
        let b: LayoutBox = new_box(
            BoxKind::Line,
            None,
            Dimensions::bare(Rect { x, y: minus(y, prev), width: larger(width, 0), height: 1 }),
            computed,
        );
        let id: BoxId = self.add_box(b);
        (Some(id), 0)
    }

    fn layout_hr(&mut self, x: i32, width: i32, y: i32, prev: i32, computed: ComputedStyle) -> (r: (
        Option<BoxId>,
        i32,
    ))
        requires
            old(self).ok(),
        ensures
            final(self).follows(*old(self)),
            r.0 matches Some(bid) ==> final(self).has_box(bid),
            (Laid { cv: final(self).canvas(), id: r.0, prev: r.1 }) == old(self).ctx.rule_laid(
                old(self).canvas(),
                x,
                width,
                y,
                prev,
                computed,
            ),
    {
        proof {
            reveal(Ctx::rule_laid);
        }
        let d: Dimensions = resolve_block_dims(&computed, width, None);
        let top: i32 = larger(d.margin.top, prev);
        let margin: EdgeSizes = EdgeSizes {
            top,
            right: d.margin.right,
            bottom: d.margin.bottom,
            left: d.margin.left,
        };
        let at: Dimensions = content_at(d.with_margin(margin), x, plus(minus(y, prev), top), 1);
        let w: i32 = room_inside(width, d.margin, d.border, d.padding);
        let dims: Dimensions = at.with_content(
            Rect { x: at.content.x, y: at.content.y, width: w, height: at.content.height },
        );
        let text: LayoutBox = new_text_box(None, dims.content, repeat('─', w), Style::plain());
        let text_id: BoxId = self.add_box(text);
        let mut b: LayoutBox = new_box(BoxKind::Block, None, dims, computed);
        b.children.push(text_id);
        proof {
            assert(b@.children =~= seq![text_id]);
        }
        let id: BoxId = self.add_box(b);
        (Some(id), dims.margin.bottom)
    }

    fn layout_img_block(
        &mut self,
        id: NodeId,
        computed: ComputedStyle,
        x: i32,
        cw: i32,
        y: i32,
        prev: i32,
    ) -> (r: (Option<BoxId>, i32))
        requires
            old(self).ok(),
            old(self).ctx.dom.has(id),
        ensures
            final(self).follows(*old(self)),
            r.0 matches Some(bid) ==> final(self).has_box(bid),
            (Laid { cv: final(self).canvas(), id: r.0, prev: r.1 }) == old(self).ctx.image_laid(
                old(self).canvas(),
                id,
                computed,
                x,
                cw,
                y,
                prev,
            ),
    {
        proof {
            reveal(Ctx::image_laid);
        }
        let ctx: Ctx<'a> = self.ctx;
        match ctx.images.get(id) {
            None => (None, prev),
            Some(img) => {
                let (w, h, firm): (i32, i32, bool) = ctx.images.size_for(img, cw);
                let b: LayoutBox = new_image_box(
                    id,
                    Rect {
                        x,
                        y: minus(y, prev),
                        width: larger(smaller(w, cw), 1),
                        height: larger(h, 1),
                    },
                    computed,
                    img.alt.clone(),
                    img.url.clone(),
                    firm,
                );
                let bid: BoxId = self.add_box(b);
                (Some(bid), 0)
            },
        }
    }

    /// Lay one node out as a child of a block container. See [`Ctx::lay_node`].
    #[verifier::rlimit(40)]
    pub fn layout_node(
        &mut self,
        fuel: usize,
        id: NodeId,
        x: i32,
        cw: i32,
        ch: Option<i32>,
        y: i32,
        prev: i32,
        pre: bool,
    ) -> (r: (Option<BoxId>, i32))
        requires
            old(self).ok(),
            cw >= 0 || own_path(old(self).ctx.dom.tag_of(id)),
            old(self).ctx.dom.has(id),
        ensures
            final(self).follows(*old(self)),
            r.0 matches Some(bid) ==> final(self).has_box(bid),
            (Laid { cv: final(self).canvas(), id: r.0, prev: r.1 }) == old(self).ctx.lay_node(
                old(self).ctx.builder(old(self).viewport, fuel as nat),
                old(self).canvas(),
                id,
                x,
                cw,
                ch,
                y,
                prev,
                pre,
            ),
        decreases fuel, 7nat,
    {
        proof {
            reveal(Ctx::lay_node);
            reveal(Ctx::element_laid);
            crate::flexbox::no_tag_is_no_own_path();
        }
        let ctx: Ctx<'a> = self.ctx;
        match &ctx.dom.node(id).data {
            NodeData::Text(text) => {
                if is_blank(text.as_str()) {
                    return (None, prev);
                }
                let c: ComputedStyle = ctx.styles.get(id);
                let mut items: Vec<InlineItem> = Vec::new();
                items.push(InlineItem::Text { node: id, style: term_style(&c) });
                proof {
                    assert(items@ =~= seq![InlineItem::Text { node: id, style: term_style(&c) }]);
                }
                self.layout_anonymous_block(fuel, x, cw, y, prev, &items, TextAlign::Left, pre)
            },
            NodeData::Element { tag, .. } => {
                let tag: &str = tag.as_str();
                if ctx.is_hidden(id) || generates_no_box(ctx.dom, id, tag) {
                    return (None, prev);
                }
                let mut c: ComputedStyle = ctx.styles.get(id);
                if matches!(c.display, Display::NoBox) {
                    c.display = Display::Block;
                }
                let (laid, left): (Option<BoxId>, i32) = if same(tag, "br") {
                    self.layout_br(x, cw, y, prev, c)
                } else if same(tag, "hr") {
                    self.layout_hr(x, cw, y, prev, c)
                } else if same(tag, "img") {
                    self.layout_img_block(id, c, x, cw, y, prev)
                } else if is_block_level(c.display) {
                    self.layout_block(fuel, id, c, x, cw, ch, y, prev, pre || same(tag, "pre"))
                } else {
                    let items: Vec<InlineItem> = ctx.collect_inline(id, cw);
                    self.layout_anonymous_block(
                        fuel,
                        x,
                        cw,
                        y,
                        prev,
                        &items,
                        TextAlign::Left,
                        pre || same(tag, "pre"),
                    )
                };
                match laid {
                    Some(bid) => {
                        if is_shifted(c.position) {
                            let (dx, dy): (i32, i32) = flow_delta(c, cw, ch);
                            self.shift_subtree(bid, dx, dy);
                        }
                    },
                    None => {},
                }
                (laid, left)
            },
            _ => (None, prev),
        }
    }
}

impl<'a> Engine<'a> {
    pub fn layout_positioned(&mut self, fuel: usize, id: NodeId, parent: BoxId, pre: bool) -> (r:
        Option<BoxId>)
        requires
            old(self).ok(),
            old(self).ctx.dom.has(id),
            old(self).has_box(parent),
        ensures
            final(self).follows(*old(self)),
            r matches Some(bid) ==> final(self).has_box(bid),
            (final(self).canvas(), r) == old(self).ctx.positioned(
                old(self).ctx.builder(old(self).viewport, fuel as nat),
                old(self).canvas(),
                id,
                parent,
                pre,
            ),
        decreases fuel, 4nat,
    {
        proof {
            reveal(Ctx::positioned);
        }
        let ctx: Ctx<'a> = self.ctx;
        let tag: &str = match &ctx.dom.node(id).data {
            NodeData::Element { tag, .. } => tag.as_str(),
            _ => {
                return None;
            },
        };
        if ctx.is_hidden(id) || generates_no_box(ctx.dom, id, tag) {
            return None;
        }
        let c: ComputedStyle = ctx.styles.get(id);
        let fixed: bool = matches!(c.position, Position::Fixed);
        let (cb, cb_height): (Rect, Option<i32>) = if fixed {
            let page: Rect = self.boxes[0].dimensions.content;
            (
                Rect { x: page.x, y: page.y, width: page.width, height: self.viewport },
                Some(larger(self.viewport, 1)),
            )
        } else {
            self.containing_block(id)
        };
        let at: Rect = self.static_origin(id, parent);
        if same(tag, "img") {
            return self.place_positioned_image(id, cb, cb_height, at, fixed);
        }
        let (dims, x): (Dimensions, i32) = self.size_positioned(id, cb, at);
        let (bid, _): (BoxId, i32) = self.layout_box_at(
            fuel,
            id,
            c,
            dims,
            cb_height,
            pre || same(tag, "pre"),
        );
        let (height, y): (i32, i32) = self.row_for_positioned(c, self.dims(bid), cb, cb_height, at);
        proof {
            assert(size_ok(self.canvas().boxes[bid.0 as int].dimensions));
        }
        self.set_height(bid, height);
        let now: Rect = self.dims(bid).margin_box();
        self.shift_subtree(bid, minus(x, now.x), minus(y, now.y));
        if fixed {
            self.mark_fixed_subtree(bid);
        }
        Some(bid)
    }

    fn static_origin(&self, id: NodeId, parent: BoxId) -> (r: Rect)
        requires
            self.ok(),
            self.has_box(parent),
        ensures
            r == self.ctx.static_place(self.canvas().boxes, id, parent),
    {
        let ghost all = self.canvas().boxes;
        let b: &LayoutBox = &self.boxes[parent.0];
        let mut origin: Rect = b.dimensions.content;
        let node: NodeId = match b.node {
            Some(n) => n,
            None => {
                return origin;
            },
        };
        if node.0 as usize >= self.ctx.dom.node_count() {
            return origin;
        }
        let kids: &Vec<NodeId> = self.ctx.dom.children(node);
        let ghost goal = self.ctx.static_from(all, kids@, 0, id, origin);
        let mut k: usize = 0;
        while k < kids.len() && kids[k] != id
            invariant
                self.ok(),
                all == self.canvas().boxes,
                k <= kids@.len(),
                goal == self.ctx.static_from(all, kids@, k as int, id, origin),
            decreases kids@.len() - k,
        {
            match self.find_last_box(kids[k]) {
                Some(sibling) => {
                    let bottom: i32 = self.dims(sibling).margin_box().bottom();
                    origin = Rect {
                        x: origin.x,
                        y: larger(origin.y, bottom),
                        width: origin.width,
                        height: origin.height,
                    };
                },
                None => {},
            }
            k += 1;
        }
        origin
    }

    fn held_by(&self, id: BoxId) -> (r: (Rect, Option<i32>))
        requires
            self.has_box(id),
        ensures
            r == self.ctx.holding_block(self.canvas().boxes[id.0 as int]),
    {
        let b: &LayoutBox = &self.boxes[id.0];
        let pad: Rect = b.dimensions.padding_box();
        match definite_v(b.computed.height, None) {
            Some(h) => {
                let height: i32 = plus(
                    plus(
                        axis_v(b.dimensions, &b.computed).content_from(h),
                        b.dimensions.padding.top,
                    ),
                    b.dimensions.padding.bottom,
                );
                (Rect { x: pad.x, y: pad.y, width: pad.width, height }, Some(height))
            },
            None => (pad, None),
        }
    }

    fn containing_block(&self, id: NodeId) -> (r: (Rect, Option<i32>))
        requires
            self.ok(),
            self.ctx.dom.has(id),
            self.boxes@.len() > 0,
        ensures
            r == self.ctx.containing_of(self.canvas().boxes, id),
    {
        let ghost all = self.canvas().boxes;
        let dom: &Dom = self.ctx.dom;
        let mut cur: NodeId = id;
        loop
            invariant
                self.ok(),
                self.boxes@.len() > 0,
                dom == self.ctx.dom,
                dom.has(cur),
                all == self.canvas().boxes,
                self.ctx.containing_of(all, id) == self.ctx.containing_of(all, cur),
            decreases dom.climb(cur),
        {
            match dom.parent(cur) {
                None => {
                    return (self.boxes[0].dimensions.content, None);
                },
                Some(p) => {
                    proof {
                        dom.parents_are_nearer_the_peak(cur);
                    }
                    if !matches!(self.ctx.styles.get(p).position, Position::Static) {
                        match self.find_last_box(p) {
                            Some(b) => {
                                return self.held_by(b);
                            },
                            None => {},
                        }
                    }
                    cur = p;
                },
            }
        }
    }

    fn place_positioned_image(
        &mut self,
        id: NodeId,
        cb: Rect,
        cb_height: Option<i32>,
        at: Rect,
        fixed: bool,
    ) -> (r: Option<BoxId>)
        requires
            old(self).ok(),
            old(self).ctx.dom.has(id),
        ensures
            final(self).follows(*old(self)),
            r matches Some(bid) ==> final(self).has_box(bid),
            (final(self).canvas(), r) == old(self).ctx.positioned_image(
                old(self).canvas(),
                id,
                cb,
                cb_height,
                at,
                fixed,
            ),
    {
        proof {
            reveal(Ctx::positioned_image);
        }
        let ctx: Ctx<'a> = self.ctx;
        match ctx.images.get(id) {
            None => None,
            Some(img) => {
                let c: ComputedStyle = ctx.styles.get(id);
                let (iw, ih, firm): (i32, i32, bool) = ctx.images.size_for(
                    img,
                    larger(cb.width, 1),
                );
                let width: i32 = if c.width.is_auto() {
                    larger(smaller(iw, larger(cb.width, 1)), 1)
                } else {
                    larger(c.width.to_cells_h(cb.width), 1)
                };
                let x: i32 = match inset_h(c.left, cb.width) {
                    Some(n) => plus(cb.x, n),
                    None => match inset_h(c.right, cb.width) {
                        Some(n) => minus(minus(cb.right(), n), width),
                        None => at.x,
                    },
                };
                let y: i32 = match inset_v(c.top, cb.width, cb_height) {
                    Some(n) => plus(cb.y, n),
                    None => match far_inset(c, cb.width, cb_height) {
                        Some(n) => minus(minus(cb.bottom(), n), ih),
                        None => at.y,
                    },
                };
                let mut b: LayoutBox = new_image_box(
                    id,
                    Rect { x, y, width, height: larger(ih, 1) },
                    c,
                    img.alt.clone(),
                    img.url.clone(),
                    firm,
                );
                b.fixed_viewport = fixed;
                Some(self.add_box(b))
            },
        }
    }

    fn size_positioned(&self, id: NodeId, cb: Rect, at: Rect) -> (r: (Dimensions, i32))
        requires
            self.ok(),
            self.ctx.dom.has(id),
        ensures
            r.0.content.width >= 0,
            r.0.content.height == 0,
            r == self.ctx.positioned_dims(id, cb, at),
    {
        proof {
            reveal(Ctx::positioned_dims);
        }
        let c: ComputedStyle = self.ctx.styles.get(id);
        let intrinsic: Option<i32> = match control(self.ctx.dom, id, self.ctx.dom.tag(id)) {
            Some(f) => Some(f.cols),
            None => None,
        };
        let d: Dimensions = resolve_block_dims(&c, larger(cb.width, 1), intrinsic);
        let left: Option<i32> = inset_h(c.left, cb.width);
        let right: Option<i32> = inset_h(c.right, cb.width);
        let mut width: i32 = d.content.width;
        if c.width.is_auto() {
            match (left, right) {
                (Some(l), Some(r)) => {
                    width = larger(
                        minus(
                            minus(minus(cb.width, l), r),
                            plus(d.margin.across(), d.inner_edges_h()),
                        ),
                        1,
                    );
                },
                _ => {},
            }
        }
        let dims: Dimensions = d.with_content(
            Rect { x: d.content.x, y: d.content.y, width, height: d.content.height },
        );
        let x: i32 = match left {
            Some(l) => plus(cb.x, l),
            None => match right {
                Some(r) => minus(minus(cb.right(), r), dims.margin_box_width()),
                None => at.x,
            },
        };
        (content_at(dims, x, plus(cb.y, dims.margin.top), 0), x)
    }

    fn row_for_positioned(
        &self,
        c: ComputedStyle,
        dims: Dimensions,
        cb: Rect,
        cb_height: Option<i32>,
        at: Rect,
    ) -> (r: (i32, i32))
        ensures
            r == self.ctx.positioned_row(c, dims, cb, cb_height, at),
            dims.content.height >= 0 ==> r.0 >= 0,
    {
        proof {
            reveal(Ctx::positioned_row);
        }
        let top: Option<i32> = inset_v(c.top, cb.width, cb_height);
        let bottom: Option<i32> = far_inset(c, cb.width, cb_height);
        if c.height.is_auto() {
            match (top, bottom, cb_height) {
                (Some(t), Some(b), Some(h)) => {
                    let room: i32 = minus(
                        minus(minus(minus(minus(h, t), b), dims.margin.top), dims.margin.bottom),
                        dims.inner_edges_v(),
                    );
                    return (larger(room, 0), plus(cb.y, t));
                },
                _ => {},
            }
        }
        let y: i32 = match top {
            Some(t) => plus(cb.y, t),
            None => match bottom {
                Some(b) => minus(minus(cb.bottom(), b), dims.margin_box().height),
                None => at.y,
            },
        };
        (dims.content.height, y)
    }
}

} // verus!
