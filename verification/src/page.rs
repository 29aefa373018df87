//! A document laid out: the page's own box, what stacks in it, how tall that
//! makes it, and which of it sticks to the viewport.

use vstd::prelude::*;

use crate::blocks::Recipe;
use crate::boxes::{
    boxes_known, boxes_sized, clipped_order, closed_under_children, in_range, known, size_ok, BoxId,
    BoxKind, BoxView, GridBorder, LayoutBox, LayoutTree, StickyConstraint, TreeView,
};
use crate::boxmodel::{inset_v, relative_delta, Hidden};
use crate::cells::{larger, minus};
use crate::clip::Clip;
use crate::context::Ctx;
use crate::dimensions::{Dimensions, Rect};
use crate::dom::{Dom, NodeId};
use crate::engine::{last_box_of, new_box, plain_box, Canvas, Engine};
use crate::image::ImageContext;
use crate::intrinsic::IntrinsicSizer;
use crate::style::{ComputedStyle, Position, Styles};
use crate::views::views;

verus! {

broadcast use crate::views::group_views;

/// The page's own box: the full column, with no edges.
#[verifier::allow_in_spec]
pub fn page_rect(width: i32, height: i32) -> (r: Rect)
    returns
        (Rect { x: 0, y: 0, width, height }),
{
    Rect { x: 0, y: 0, width, height }
}

/// A size in cells, at least one.
#[verifier::allow_in_spec]
pub fn at_least_one(cells: u16) -> (r: i32)
    returns
        (if cells < 1 {
            1i32
        } else {
            cells as i32
        }),
{
    if cells < 1 {
        1
    } else {
        cells as i32
    }
}

/// The lowest row that any box from the `i`th on can paint into, given the
/// clips above it.
pub open spec fn lowest_from(boxes: Seq<BoxView>, walk: Seq<(BoxId, Clip)>, i: int, so_far: i32) -> i32
    decreases walk.len() - i,
{
    if i >= walk.len() {
        so_far
    } else {
        let (id, clip) = walk[i];
        let visible = clip.apply(boxes[id.0 as int].dimensions.border_box());
        lowest_from(
            boxes,
            walk,
            i + 1,
            if visible.height > 0 {
                larger(so_far, visible.bottom())
            } else {
                so_far
            },
        )
    }
}

pub open spec fn lowest_row(boxes: Seq<BoxView>) -> i32 {
    lowest_from(boxes, clipped_order(boxes, boxes.len(), BoxId(0), Clip::none()), 0, 0)
}

/// A subtree that slides with one constraint.
pub open spec fn stuck(boxes: Seq<BoxView>, depth: nat, id: BoxId, c: StickyConstraint) -> Seq<BoxView>
    decreases depth, 0nat,
{
    if depth == 0 || id.0 >= boxes.len() {
        boxes
    } else {
        let b = boxes[id.0 as int];
        stuck_kids(
            boxes.update(id.0 as int, BoxView { sticky: Some(c), ..b }),
            depth,
            b.children,
            0,
            c,
        )
    }
}

pub open spec fn stuck_kids(
    boxes: Seq<BoxView>,
    depth: nat,
    kids: Seq<BoxId>,
    k: int,
    c: StickyConstraint,
) -> Seq<BoxView>
    decreases depth, 0nat, kids.len() - k,
{
    if depth == 0 || k >= kids.len() {
        boxes
    } else {
        stuck_kids(stuck(boxes, (depth - 1) as nat, kids[k], c), depth, kids, k + 1, c)
    }
}

/// Two lists of boxes with the same tree, nodes and geometry.
pub open spec fn same_shape(a: Seq<BoxView>, b: Seq<BoxView>) -> bool {
    &&& a.len() == b.len()
    &&& forall|i: int|
        0 <= i < a.len() ==> (#[trigger] a[i]) == (BoxView { sticky: a[i].sticky, ..b[i] })
}

impl<'a> Ctx<'a> {
    /// The children of the document from the `k`th on, stacked on the page.
    pub open spec fn page_children(
        &self,
        rec: Recipe,
        cv: Canvas,
        kids: Seq<NodeId>,
        k: int,
        width: i32,
        y: i32,
        prev: i32,
    ) -> (Canvas, i32)
        decreases kids.len() - k,
    {
        if k >= kids.len() {
            (cv, y)
        } else {
            let c = kids[k];
            let page = BoxId(0);
            if self.leaves_flow(c) {
                let (cv2, abs) = self.positioned(rec, cv, c, page, false);
                let next = match abs {
                    Some(id) => cv2.with_children(page, cv2.boxes[0].children.push(id)),
                    None => cv2,
                };
                self.page_children(rec, next, kids, k + 1, width, y, prev)
            } else {
                let laid = self.lay_node(rec, cv, c, 0, width, None, y, prev, false);
                match laid.id {
                    Some(id) => {
                        let next = laid.cv.with_children(
                            page,
                            laid.cv.boxes[0].children.push(id),
                        );
                        let d = next.dims(id);
                        let dy = if self.style(c).position is Relative {
                            relative_delta(self.style(c), width, None).1
                        } else {
                            0
                        };
                        self.page_children(
                            rec,
                            next,
                            kids,
                            k + 1,
                            width,
                            minus(d.margin_box().bottom(), dy),
                            d.margin.bottom,
                        )
                    },
                    None => self.page_children(
                        rec,
                        laid.cv,
                        kids,
                        k + 1,
                        width,
                        y,
                        laid.prev,
                    ),
                }
            }
        }
    }

    /// Where the box ends that a node's own may not slide out of: its nearest
    /// ancestor's that has one, or else the page's.
    pub open spec fn sliding_end(&self, boxes: Seq<BoxView>, node: NodeId) -> i32
        decreases self.dom.climb(node),
        when self.wf() && self.dom.has(node)
        via Self::sliding_climbs
    {
        match self.dom.parent_of(node) {
            None => boxes[0].dimensions.content.bottom(),
            Some(p) => match last_box_of(boxes, p, boxes.len() as int) {
                Some(b) => boxes[b.0 as int].dimensions.padding_box().bottom(),
                None => self.sliding_end(boxes, p),
            },
        }
    }

    #[via_fn]
    proof fn sliding_climbs(&self, boxes: Seq<BoxView>, node: NodeId) {
        if self.dom.parent_of(node) is Some {
            self.dom.parents_are_nearer_the_peak(node);
        }
    }

    /// How box `i` slides, if its own element is sticky, has a top inset, and
    /// fits the viewport.
    pub open spec fn constraint_of(&self, boxes: Seq<BoxView>, i: int, width: i32, viewport: i32) -> Option<
        StickyConstraint,
    > {
        match boxes[i].node {
            None => None,
            Some(node) => {
                let style = self.style(node);
                let outer = boxes[i].dimensions.margin_box();
                match inset_v(style.top, width, Some(viewport)) {
                    Some(inset) if style.position is Sticky && outer.height <= viewport => Some(
                        StickyConstraint {
                            static_start: outer.y,
                            static_end: outer.bottom(),
                            inset,
                            containing_end: self.sliding_end(boxes, node),
                        },
                    ),
                    _ => None,
                }
            },
        }
    }

    /// The boxes from the `i`th on with their sliding constraints. A later
    /// sticky box's own overrides what it was given by one that holds it.
    pub open spec fn stuck_from(&self, boxes: Seq<BoxView>, i: int, width: i32, viewport: i32) -> Seq<
        BoxView,
    >
        decreases boxes.len() - i,
        when 0 <= i
        via Self::sticking_keeps_the_count
    {
        if i >= boxes.len() {
            boxes
        } else {
            match self.constraint_of(boxes, i, width, viewport) {
                None => self.stuck_from(boxes, i + 1, width, viewport),
                Some(c) => self.stuck_from(
                    stuck(boxes, boxes.len(), BoxId(i as usize), c),
                    i + 1,
                    width,
                    viewport,
                ),
            }
        }
    }

    #[via_fn]
    proof fn sticking_keeps_the_count(&self, boxes: Seq<BoxView>, i: int, width: i32, viewport: i32) {
        match self.constraint_of(boxes, i, width, viewport) {
            None => {},
            Some(c) => {
                sticking_keeps_the_shape(boxes, boxes.len(), BoxId(i as usize), c);
            },
        }
    }

    /// The page's own box before anything is on it.
    pub open spec fn blank_page(&self, width: i32) -> Canvas {
        Canvas {
            boxes: seq![
                plain_box(
                    BoxKind::Block,
                    Some(self.dom.root),
                    Dimensions::bare(page_rect(width, 0)),
                    ComputedStyle::initial(),
                ),
            ],
            borders: Seq::empty(),
            grid_items: 0,
        }
    }

    /// The document's children stacked on the page, and how far down they go.
    pub open spec fn stacked_on(&self, rec: Recipe, width: i32) -> (Canvas, i32) {
        let kids = self.dom.kids(self.dom.root);
        self.page_children(rec, self.blank_page(width), kids, 0, width, 0, 0)
    }

    /// The boxes with the page's own drawn around them, that many rows tall.
    pub open spec fn page_drawn(&self, boxes: Seq<BoxView>, width: i32, height: i32) -> Seq<BoxView> {
        Seq::new(
            boxes.len(),
            |i: int|
                if i == 0 {
                    BoxView {
                        node: Some(self.dom.root),
                        dimensions: Dimensions::bare(page_rect(width, height)),
                        computed: ComputedStyle::initial(),
                        ..boxes[0]
                    }
                } else {
                    boxes[i]
                },
        )
    }

    /// How tall a page is: what stacks on it, and all that can be seen.
    pub open spec fn page_height(&self, boxes: Seq<BoxView>, y: i32, width: i32) -> i32 {
        larger(larger(y, lowest_row(self.page_drawn(boxes, width, 0))), 0)
    }

    /// The laid-out page.
    #[verifier::opaque]
    pub open spec fn page(&self, width: u16, viewport: u16) -> TreeView {
        let w = at_least_one(width);
        let h = at_least_one(viewport);
        let (laid, y) = self.stacked_on(self.builder(h, self.dom.nodes@.len()), w);
        let height = self.page_height(laid.boxes, y, w);
        TreeView {
            boxes: self.stuck_from(self.page_drawn(laid.boxes, w, height), 0, w, h),
            root: BoxId(0),
            width: w,
            height,
            grid_borders: laid.borders,
        }
    }
}

/// Sticking changes nothing but the constraints.
pub proof fn sticking_keeps_the_shape(boxes: Seq<BoxView>, depth: nat, id: BoxId, c: StickyConstraint)
    ensures
        same_shape(stuck(boxes, depth, id, c), boxes),
    decreases depth, 0nat,
{
    if depth > 0 && id.0 < boxes.len() {
        let b = boxes[id.0 as int];
        let next = boxes.update(id.0 as int, BoxView { sticky: Some(c), ..b });
        sticking_kids_keeps_the_shape(next, depth, b.children, 0, c);
        let end = stuck_kids(next, depth, b.children, 0, c);
        assert forall|i: int| 0 <= i < end.len() implies (#[trigger] end[i]) == (BoxView {
            sticky: end[i].sticky,
            ..boxes[i]
        }) by {
            assert(end[i] == (BoxView { sticky: end[i].sticky, ..next[i] }));
        }
    }
}

proof fn sticking_kids_keeps_the_shape(
    boxes: Seq<BoxView>,
    depth: nat,
    kids: Seq<BoxId>,
    k: int,
    c: StickyConstraint,
)
    requires
        0 <= k,
    ensures
        same_shape(stuck_kids(boxes, depth, kids, k, c), boxes),
    decreases depth, 0nat, kids.len() - k,
{
    if depth > 0 && k < kids.len() {
        let next = stuck(boxes, (depth - 1) as nat, kids[k], c);
        sticking_keeps_the_shape(boxes, (depth - 1) as nat, kids[k], c);
        sticking_kids_keeps_the_shape(next, depth, kids, k + 1, c);
        let end = stuck_kids(next, depth, kids, k + 1, c);
        assert forall|i: int| 0 <= i < end.len() implies (#[trigger] end[i]) == (BoxView {
            sticky: end[i].sticky,
            ..boxes[i]
        }) by {
            assert(end[i] == (BoxView { sticky: end[i].sticky, ..next[i] }));
            assert(next[i] == (BoxView { sticky: next[i].sticky, ..boxes[i] }));
        }
    }
}

fn find_lowest(tree: &LayoutTree) -> (r: i32)
    requires
        tree.wf(),
        tree.root.0 == 0,
    ensures
        r == lowest_row(tree.list()),
{
    let walk: Vec<(BoxId, Clip)> = tree.walk_clipped();
    let mut lowest: i32 = 0;
    let mut i: usize = 0;
    while i < walk.len()
        invariant
            i <= walk@.len(),
            crate::boxes::pairs_in_range(walk@, tree.boxes@.len()),
            lowest_from(tree.list(), walk@, 0, 0) == lowest_from(
                tree.list(),
                walk@,
                i as int,
                lowest,
            ),
        decreases walk@.len() - i,
    {
        let (id, clip): (BoxId, Clip) = walk[i];
        proof {
            assert(walk@[i as int].0.0 < tree.boxes@.len());
        }
        let visible: Rect = clip.apply(tree.get(id).dimensions.border_box());
        if visible.height > 0 {
            lowest = larger(lowest, visible.bottom());
        }
        i += 1;
    }
    lowest
}

/// Mark a subtree with a sliding constraint. See [`stuck`].
fn mark_sticky_subtree(boxes: &mut Vec<LayoutBox>, depth: usize, id: BoxId, c: StickyConstraint)
    ensures
        views(final(boxes)@) == stuck(views(old(boxes)@), depth as nat, id, c),
        same_shape(views(final(boxes)@), views(old(boxes)@)),
    decreases depth,
{
    proof {
        sticking_keeps_the_shape(views(boxes@), depth as nat, id, c);
    }
    if depth == 0 || id.0 >= boxes.len() {
        return;
    }
    let ghost start = views(boxes@);
    let ghost kids = start[id.0 as int].children;
    boxes[id.0].sticky = Some(c);
    proof {
        assert(views(boxes@) =~= start.update(
            id.0 as int,
            BoxView { sticky: Some(c), ..start[id.0 as int] },
        ));
    }
    let ghost goal = stuck_kids(views(boxes@), depth as nat, kids, 0, c);
    let n: usize = boxes[id.0].children.len();
    let mut k: usize = 0;
    while k < n
        invariant
            depth > 0,
            id.0 < boxes@.len(),
            n == kids.len(),
            k <= n,
            views(boxes@)[id.0 as int].children == kids,
            goal == stuck_kids(views(boxes@), depth as nat, kids, k as int, c),
        decreases n - k,
    {
        let child: BoxId = boxes[id.0].children[k];
        let ghost before = views(boxes@);
        mark_sticky_subtree(boxes, depth - 1, child, c);
        proof {
            assert(views(boxes@)[id.0 as int] == (BoxView {
                sticky: views(boxes@)[id.0 as int].sticky,
                ..before[id.0 as int]
            }));
        }
        k += 1;
    }
}

fn find_box(boxes: &Vec<LayoutBox>, node: NodeId) -> (r: Option<BoxId>)
    ensures
        r == last_box_of(views(boxes@), node, boxes@.len() as int),
        r matches Some(id) ==> id.0 < boxes@.len(),
{
    let ghost all = views(boxes@);
    let mut n: usize = boxes.len();
    while n > 0
        invariant
            all == views(boxes@),
            n <= boxes@.len(),
            last_box_of(all, node, boxes@.len() as int) == last_box_of(all, node, n as int),
        decreases n,
    {
        if boxes[n - 1].node == Some(node) {
            return Some(BoxId(n - 1));
        }
        n -= 1;
    }
    None
}

impl<'a> Ctx<'a> {
    fn find_sliding_end(&self, boxes: &Vec<LayoutBox>, node: NodeId) -> (r: i32)
        requires
            self.wf(),
            self.dom.has(node),
            boxes@.len() > 0,
        ensures
            r == self.sliding_end(views(boxes@), node),
    {
        let ghost all = views(boxes@);
        let mut cur: NodeId = node;
        loop
            invariant
                self.wf(),
                self.dom.has(cur),
                boxes@.len() > 0,
                all == views(boxes@),
                self.sliding_end(all, node) == self.sliding_end(all, cur),
            decreases self.dom.climb(cur),
        {
            match self.dom.parent(cur) {
                None => {
                    return boxes[0].dimensions.content.bottom();
                },
                Some(p) => {
                    proof {
                        self.dom.parents_are_nearer_the_peak(cur);
                    }
                    match find_box(boxes, p) {
                        Some(b) => {
                            return boxes[b.0].dimensions.padding_box().bottom();
                        },
                        None => {},
                    }
                    cur = p;
                },
            }
        }
    }

    fn sticky_constraint(&self, boxes: &Vec<LayoutBox>, i: usize, width: i32, viewport: i32) -> (r:
        Option<StickyConstraint>)
        requires
            self.wf(),
            i < boxes@.len(),
            boxes_known(self.dom, views(boxes@)),
        ensures
            r == self.constraint_of(views(boxes@), i as int, width, viewport),
    {
        proof {
            assert(known(self.dom, views(boxes@)[i as int].node));
        }
        match boxes[i].node {
            None => None,
            Some(node) => {
                let style: ComputedStyle = self.styles.get(node);
                if !matches!(style.position, Position::Sticky) {
                    return None;
                }
                let outer: Rect = boxes[i].dimensions.margin_box();
                match inset_v(style.top, width, Some(viewport)) {
                    None => None,
                    Some(inset) => if outer.height > viewport {
                        None
                    } else {
                        Some(
                            StickyConstraint {
                                static_start: outer.y,
                                static_end: outer.bottom(),
                                inset,
                                containing_end: self.find_sliding_end(boxes, node),
                            },
                        )
                    },
                }
            },
        }
    }

    /// Give every sticky box and what it holds its constraint. See
    /// [`stuck_from`](Self::stuck_from).
    pub fn attach_sticky_constraints(&self, boxes: &mut Vec<LayoutBox>, width: i32, viewport: i32)
        requires
            self.wf(),
            boxes_known(self.dom, views(old(boxes)@)),
            boxes_sized(views(old(boxes)@)),
            closed_under_children(views(old(boxes)@)),
        ensures
            views(final(boxes)@) == self.stuck_from(views(old(boxes)@), 0, width, viewport),
            final(boxes)@.len() == old(boxes)@.len(),
            boxes_known(self.dom, views(final(boxes)@)),
            boxes_sized(views(final(boxes)@)),
            closed_under_children(views(final(boxes)@)),
    {
        let n: usize = boxes.len();
        let ghost goal = self.stuck_from(views(boxes@), 0, width, viewport);
        let mut i: usize = 0;
        while i < n
            invariant
                self.wf(),
                n == boxes@.len(),
                i <= n,
                boxes_known(self.dom, views(boxes@)),
                boxes_sized(views(boxes@)),
                closed_under_children(views(boxes@)),
                goal == self.stuck_from(views(boxes@), i as int, width, viewport),
            decreases n - i,
        {
            match self.sticky_constraint(boxes, i, width, viewport) {
                None => {},
                Some(c) => {
                    let ghost before = views(boxes@);
                    mark_sticky_subtree(boxes, n, BoxId(i), c);
                    proof {
                        let after = views(boxes@);
                        assert forall|j: int| 0 <= j < after.len() implies in_range(
                            #[trigger] after[j].children,
                            after.len(),
                        ) by {
                            assert(after[j] == (BoxView { sticky: after[j].sticky, ..before[j] }));
                            assert(in_range(before[j].children, before.len()));
                        }
                        assert forall|j: int| 0 <= j < after.len() implies size_ok(
                            (#[trigger] after[j]).dimensions,
                        ) by {
                            assert(after[j] == (BoxView { sticky: after[j].sticky, ..before[j] }));
                            assert(size_ok(before[j].dimensions));
                        }
                        assert forall|j: int| 0 <= j < after.len() implies known(
                            self.dom,
                            (#[trigger] after[j]).node,
                        ) by {
                            assert(after[j] == (BoxView { sticky: after[j].sticky, ..before[j] }));
                            assert(known(self.dom, before[j].node));
                        }
                    }
                },
            }
            i += 1;
        }
    }
}

impl<'a> Engine<'a> {
    fn lay_page(&mut self, width: i32) -> (r: i32)
        requires
            old(self).ok(),
            old(self).boxes@.len() > 0,
            width >= 0,
        ensures
            final(self).follows(*old(self)),
            (final(self).canvas(), r) == old(self).ctx.page_children(
                old(self).ctx.builder(old(self).viewport, old(self).ctx.dom.nodes@.len()),
                old(self).canvas(),
                old(self).ctx.dom.kids(old(self).ctx.dom.root),
                0,
                width,
                0,
                0,
            ),
    {
        let ctx: Ctx<'a> = self.ctx;
        let fuel: usize = ctx.dom.node_count();
        let ghost rec = ctx.builder(self.viewport, fuel as nat);
        let root: NodeId = ctx.dom.root;
        let page: BoxId = BoxId(0);
        let kids: &Vec<NodeId> = ctx.dom.children(root);
        let mut y: i32 = 0;
        let mut prev: i32 = 0;
        let ghost goal = ctx.page_children(rec, self.canvas(), kids@, 0, width, 0, 0);
        let mut k: usize = 0;
        while k < kids.len()
            invariant
                self.follows(*old(self)),
                ctx == self.ctx,
                rec == ctx.builder(self.viewport, fuel as nat),
                self.has_box(page),
                width >= 0,
                page.0 == 0,
                root == ctx.dom.root,
                kids@ == ctx.dom.kids(root),
                k <= kids@.len(),
                goal == ctx.page_children(rec, self.canvas(), kids@, k as int, width, y, prev),
            decreases kids@.len() - k,
        {
            let c: NodeId = kids[k];
            proof {
                assert(ctx.dom.nodes@[root.0 as int].children@[k as int] == c);
            }
            if ctx.is_element_out_of_flow(c) {
                match self.layout_positioned(fuel, c, page, false) {
                    Some(id) => {
                        self.push_child(page, id);
                    },
                    None => {},
                }
            } else {
                let (laid, left): (Option<BoxId>, i32) = self.layout_node(
                    fuel,
                    c,
                    0,
                    width,
                    None,
                    y,
                    prev,
                    false,
                );
                match laid {
                    Some(id) => {
                        self.push_child(page, id);
                        let d: Dimensions = self.dims(id);
                        let style: ComputedStyle = ctx.styles.get(c);
                        let dy: i32 = if matches!(style.position, Position::Relative) {
                            relative_delta(style, width, None).1
                        } else {
                            0
                        };
                        y = minus(d.margin_box().bottom(), dy);
                        prev = d.margin.bottom;
                    },
                    None => {
                        prev = left;
                    },
                }
            }
            k += 1;
        }
        y
    }
}

/// Draw the page's own box around its boxes. See
/// [`page_drawn`](Ctx::page_drawn).
fn draw_page(boxes: &mut Vec<LayoutBox>, dom: &Dom, width: i32, height: i32)
    requires
        dom.wf(),
        width >= 0,
        height >= 0,
        old(boxes)@.len() > 0,
        boxes_known(dom, views(old(boxes)@)),
        boxes_sized(views(old(boxes)@)),
        closed_under_children(views(old(boxes)@)),
    ensures
        views(final(boxes)@) == views(old(boxes)@).update(
            0,
            (BoxView {
                node: Some(dom.root),
                dimensions: Dimensions::bare(page_rect(width, height)),
                computed: ComputedStyle::initial(),
                ..views(old(boxes)@)[0]
            }),
        ),
        boxes_known(dom, views(final(boxes)@)),
        boxes_sized(views(final(boxes)@)),
        closed_under_children(views(final(boxes)@)),
{
    let ghost before = views(boxes@);
    boxes[0].node = Some(dom.root);
    boxes[0].dimensions = Dimensions::bare(page_rect(width, height));
    boxes[0].computed = ComputedStyle::initial();
    proof {
        let after = views(boxes@);
        assert(after =~= before.update(
            0,
            BoxView {
                node: Some(dom.root),
                dimensions: Dimensions::bare(page_rect(width, height)),
                computed: ComputedStyle::initial(),
                ..before[0]
            },
        ));
        assert forall|i: int| 0 <= i < after.len() implies in_range(
            #[trigger] after[i].children,
            after.len(),
        ) by {
            assert(in_range(before[i].children, before.len()));
        }
        assert forall|i: int| 0 <= i < after.len() implies size_ok(
                            (#[trigger] after[i]).dimensions,
                        ) by {
            assert(size_ok(before[i].dimensions));
        }
        assert forall|i: int| 0 <= i < after.len() implies known(dom, (#[trigger] after[i]).node) by {
            assert(known(dom, before[i].node));
        }
    }
}

/// Lay the document out with no known images, in a viewport one row tall.
pub fn layout_tree(dom: &Dom, styles: &Styles, width: u16, hidden: Hidden) -> (r: LayoutTree)
    requires
        dom.wf(),
    ensures
        r@ == (Ctx { dom, styles, images: &ImageContext::Nothing, hidden }).page(width, 1),
        r.of(dom),
        r.sized(),
{
    let images: ImageContext = ImageContext::empty();
    layout_tree_with(dom, styles, width, hidden, &images)
}

/// Lay the document out with what is known about its images.
pub fn layout_tree_with(
    dom: &Dom,
    styles: &Styles,
    width: u16,
    hidden: Hidden,
    images: &ImageContext,
) -> (r: LayoutTree)
    requires
        dom.wf(),
    ensures
        r@ == (Ctx { dom, styles, images, hidden }).page(width, 1),
        r.of(dom),
        r.sized(),
{
    layout_tree_with_viewport(dom, styles, width, 1, hidden, images)
}

/// Lay the document out with the terminal's page rectangle known to what is
/// anchored to it. Document flow itself has no height to fill.
pub fn layout_tree_with_viewport(
    dom: &Dom,
    styles: &Styles,
    width: u16,
    viewport_height: u16,
    hidden: Hidden,
    images: &ImageContext,
) -> (r: LayoutTree)
    requires
        dom.wf(),
    ensures
        r@ == (Ctx { dom, styles, images, hidden }).page(width, viewport_height),
        r.of(dom),
        r.sized(),
{
    proof {
        reveal(Ctx::page);
    }
    let w: i32 = at_least_one(width);
    let h: i32 = at_least_one(viewport_height);
    let ctx: Ctx = Ctx { dom, styles, images, hidden };
    let mut eng: Engine = Engine {
        ctx,
        boxes: Vec::new(),
        sizer: IntrinsicSizer::new(dom, styles, images, hidden),
        grid_borders: Vec::new(),
        grid_item_depth: 0,
        viewport: h,
    };
    let page: LayoutBox = new_box(
        BoxKind::Block,
        Some(dom.root),
        Dimensions::bare(page_rect(w, 0)),
        ComputedStyle::initial(),
    );
    let ghost first = page@;
    let root: BoxId = eng.add_box(page);
    proof {
        assert(eng.canvas().boxes =~= seq![first]);
        assert(eng.canvas().borders =~= Seq::<GridBorder>::empty());
    }
    let y: i32 = eng.lay_page(w);
    let ghost laid = eng.canvas().boxes;
    let mut tree: LayoutTree = LayoutTree {
        boxes: eng.boxes,
        root,
        width: w,
        height: 0,
        grid_borders: eng.grid_borders,
    };
    draw_page(&mut tree.boxes, dom, w, 0);
    proof {
        assert(tree.list() =~= ctx.page_drawn(laid, w, 0));
    }
    let height: i32 = larger(larger(y, find_lowest(&tree)), 0);
    draw_page(&mut tree.boxes, dom, w, height);
    proof {
        assert(tree.list() =~= ctx.page_drawn(laid, w, height));
    }
    tree.height = height;
    ctx.attach_sticky_constraints(&mut tree.boxes, w, h);
    tree
}

} // verus!
