//! The layout tree: boxes with positions, distinct from the document.
//!
//! Each box carries its own geometry in absolute cells. Anonymous boxes exist
//! so that mixed block and inline children still form a legal box tree.

use vstd::prelude::*;

use crate::clip::Clip;
use crate::dimensions::Dimensions;
use crate::dom::{Dom, NodeId};
use crate::field::FieldPaint;
use crate::style::ComputedStyle;
use crate::term::Style;
use crate::views::{view_opt, views};

verus! {

broadcast use crate::views::group_views;

/// Index into [`LayoutTree::boxes`].
#[derive(Clone, Copy, PartialEq, Eq, Debug, Structural)]
pub struct BoxId(pub usize);

/// What kind of box this is.
#[derive(Clone, Copy, PartialEq, Eq, Debug, Structural)]
pub enum BoxKind {
    /// A block-level element box.
    Block,
    /// A flex container.
    Flex,
    /// A grid container.
    Grid,
    /// A table; its children are rows.
    Table,
    /// One row of a table.
    TableRow,
    /// One cell of a row.
    TableCell,
    /// Anonymous block wrapping consecutive inlines inside a block container.
    AnonymousBlock,
    /// One line box inside an inline formatting context.
    Line,
    /// A fragment of text.
    Text,
    /// An inline-level element that contributed no text of its own.
    Inline,
    /// A replaced image: a fixed cell rectangle.
    Image,
    /// A form control: a fixed cell rectangle carrying the text it shows.
    Field(FieldPaint),
}

/// The final tracks of a grid container.
#[derive(Debug)]
pub struct GridLayout {
    pub columns: Vec<i32>,
    pub rows: Vec<i32>,
}

/// The value of a [`GridLayout`].
pub struct GridView {
    pub columns: Seq<i32>,
    pub rows: Seq<i32>,
}

impl View for GridLayout {
    type V = GridView;

    open spec fn view(&self) -> GridView {
        GridView { columns: self.columns@, rows: self.rows@ }
    }
}

/// Where a sticky box may slide to.
#[derive(Clone, Copy, PartialEq, Eq, Debug, Structural)]
pub struct StickyConstraint {
    pub static_start: i32,
    pub static_end: i32,
    pub inset: i32,
    pub containing_end: i32,
}

/// One node of the layout tree.
#[derive(Debug)]
pub struct LayoutBox {
    pub kind: BoxKind,
    /// The document node this box was generated for, if any. Anonymous and
    /// line boxes have none; text fragments point at their text node.
    pub node: Option<NodeId>,
    pub dimensions: Dimensions,
    pub children: Vec<BoxId>,
    /// The characters drawn here: a fragment's text, a control's, or an
    /// image's alternative.
    pub text: Option<String>,
    /// Terminal style of the text.
    pub term_style: Style,
    /// Computed style of the generating element.
    pub computed: ComputedStyle,
    /// Absolute image URL of an image box.
    pub image_src: Option<String>,
    /// A late decode must not force another layout.
    pub image_size_firm: bool,
    /// This box stays with the viewport rather than with the page.
    pub fixed_viewport: bool,
    pub sticky: Option<StickyConstraint>,
    pub grid: Option<GridLayout>,
}

/// The value of a [`LayoutBox`].
pub struct BoxView {
    pub kind: BoxKind,
    pub node: Option<NodeId>,
    pub dimensions: Dimensions,
    pub children: Seq<BoxId>,
    pub text: Option<Seq<char>>,
    pub term_style: Style,
    pub computed: ComputedStyle,
    pub image_src: Option<Seq<char>>,
    pub image_size_firm: bool,
    pub fixed_viewport: bool,
    pub sticky: Option<StickyConstraint>,
    pub grid: Option<GridView>,
}

impl View for LayoutBox {
    type V = BoxView;

    open spec fn view(&self) -> BoxView {
        BoxView {
            kind: self.kind,
            node: self.node,
            dimensions: self.dimensions,
            children: self.children@,
            text: view_opt(self.text),
            term_style: self.term_style,
            computed: self.computed,
            image_src: view_opt(self.image_src),
            image_size_firm: self.image_size_firm,
            fixed_viewport: self.fixed_viewport,
            sticky: self.sticky,
            grid: view_opt(self.grid),
        }
    }
}

/// One horizontal or vertical rule in a resolved table grid.
#[derive(Clone, Copy, PartialEq, Eq, Debug, Structural)]
pub struct GridBorder {
    /// The table that owns this rule.
    pub owner: BoxId,
    pub x: i32,
    pub y: i32,
    pub length: i32,
    pub horizontal: bool,
    /// The winning adjacent border width, in cells.
    pub thickness: i32,
}

/// Every id is an index into a list of `n` boxes.
pub open spec fn in_range(ids: Seq<BoxId>, n: nat) -> bool {
    forall|i: int| 0 <= i < ids.len() ==> (#[trigger] ids[i]).0 < n
}

/// [`in_range`] for boxes that come with their clips.
pub open spec fn pairs_in_range(pairs: Seq<(BoxId, Clip)>, n: nat) -> bool {
    forall|i: int| 0 <= i < pairs.len() ==> (#[trigger] pairs[i]).0.0 < n
}

/// A box's node, where it has one, is of the document.
pub open spec fn known(dom: &Dom, node: Option<NodeId>) -> bool {
    node matches Some(n) ==> dom.has(n)
}

/// Every box was generated for a node of the document, or for none.
pub open spec fn boxes_known(dom: &Dom, boxes: Seq<BoxView>) -> bool {
    forall|i: int| 0 <= i < boxes.len() ==> known(dom, (#[trigger] boxes[i]).node)
}

/// A box is not less than nothing wide, nor less than nothing tall.
pub open spec fn size_ok(dimensions: Dimensions) -> bool {
    dimensions.content.width >= 0 && dimensions.content.height >= 0
}

pub open spec fn boxes_sized(boxes: Seq<BoxView>) -> bool {
    forall|i: int|
        0 <= i < boxes.len() ==> size_ok((#[trigger] boxes[i]).dimensions)
}

/// Every child of every box is a box.
pub open spec fn closed_under_children(boxes: Seq<BoxView>) -> bool {
    forall|i: int| 0 <= i < boxes.len() ==> in_range(#[trigger] boxes[i].children, boxes.len())
}

/// The laid-out page: an arena of boxes plus the root and the content height.
#[derive(Debug)]
pub struct LayoutTree {
    pub boxes: Vec<LayoutBox>,
    pub root: BoxId,
    /// Content width the tree was laid out at.
    pub width: i32,
    /// Total height of the page: the scroll range.
    pub height: i32,
    /// Resolved table rules.
    pub grid_borders: Vec<GridBorder>,
}

/// The value of a [`LayoutTree`].
pub struct TreeView {
    pub boxes: Seq<BoxView>,
    pub root: BoxId,
    pub width: i32,
    pub height: i32,
    pub grid_borders: Seq<GridBorder>,
}

impl View for LayoutTree {
    type V = TreeView;

    open spec fn view(&self) -> TreeView {
        TreeView {
            boxes: views(self.boxes@),
            root: self.root,
            width: self.width,
            height: self.height,
            grid_borders: self.grid_borders@,
        }
    }
}

/// The boxes of the subtree at `id` in paint order, down to `depth` levels.
pub open spec fn paint_order(boxes: Seq<BoxView>, depth: nat, id: BoxId) -> Seq<BoxId>
    decreases depth, 0nat,
{
    if depth == 0 || id.0 >= boxes.len() {
        Seq::empty()
    } else {
        seq![id] + children_order(boxes, depth, boxes[id.0 as int].children, 0)
    }
}

/// The paint order of the subtrees of `kids[k..]`, below a box at `depth`.
pub open spec fn children_order(boxes: Seq<BoxView>, depth: nat, kids: Seq<BoxId>, k: int) -> Seq<
    BoxId,
>
    decreases depth, 0nat, kids.len() - k,
{
    if depth == 0 || k >= kids.len() {
        Seq::empty()
    } else {
        paint_order(boxes, (depth - 1) as nat, kids[k]) + children_order(boxes, depth, kids, k + 1)
    }
}

/// [`paint_order`] with the clip that each box's own output is confined to.
/// What lies under a collapsed clip is left out.
pub open spec fn clipped_order(boxes: Seq<BoxView>, depth: nat, id: BoxId, clip: Clip) -> Seq<
    (BoxId, Clip),
>
    decreases depth, 0nat,
{
    if depth == 0 || id.0 >= boxes.len() {
        Seq::empty()
    } else {
        let b = boxes[id.0 as int];
        let inside = clip.inside_of(b);
        seq![(id, clip)] + if inside.is_empty() {
            Seq::empty()
        } else {
            clipped_children(boxes, depth, b.children, 0, inside)
        }
    }
}

pub open spec fn clipped_children(
    boxes: Seq<BoxView>,
    depth: nat,
    kids: Seq<BoxId>,
    k: int,
    clip: Clip,
) -> Seq<(BoxId, Clip)>
    decreases depth, 0nat, kids.len() - k,
{
    if depth == 0 || k >= kids.len() {
        Seq::empty()
    } else {
        clipped_order(boxes, (depth - 1) as nat, kids[k], clip) + clipped_children(
            boxes,
            depth,
            kids,
            k + 1,
            clip,
        )
    }
}

/// The walk behind [`LayoutTree::walk`], appending to `out`.
pub fn walk_from(boxes: &Vec<LayoutBox>, depth: usize, id: BoxId, out: &mut Vec<BoxId>)
    ensures
        final(out)@ == old(out)@ + paint_order(views(boxes@), depth as nat, id),
    decreases depth,
{
    if depth == 0 || id.0 >= boxes.len() {
        proof {
            assert(out@ + Seq::<BoxId>::empty() =~= out@);
        }
        return;
    }
    let ghost start = out@;
    let ghost all = views(boxes@);
    let ghost kids = all[id.0 as int].children;
    out.push(id);
    proof {
        assert(start + (seq![id] + children_order(all, depth as nat, kids, 0)) =~= out@
            + children_order(all, depth as nat, kids, 0));
    }
    let mut k: usize = 0;
    while k < boxes[id.0].children.len()
        invariant
            depth > 0,
            all == views(boxes@),
            id.0 < boxes@.len(),
            kids == boxes@[id.0 as int].children@,
            k <= kids.len(),
            out@ + children_order(all, depth as nat, kids, k as int) == start + paint_order(
                all,
                depth as nat,
                id,
            ),
        decreases kids.len() - k,
    {
        let ghost before = out@;
        walk_from(boxes, depth - 1, boxes[id.0].children[k], out);
        proof {
            let here = paint_order(all, (depth - 1) as nat, kids[k as int]);
            let rest = children_order(all, depth as nat, kids, k + 1);
            assert(before + (here + rest) =~= (before + here) + rest);
        }
        k += 1;
    }
    proof {
        assert(out@ + Seq::<BoxId>::empty() =~= out@);
    }
}

fn walk_clipped_from(
    boxes: &Vec<LayoutBox>,
    depth: usize,
    id: BoxId,
    clip: Clip,
    out: &mut Vec<(BoxId, Clip)>,
)
    ensures
        final(out)@ == old(out)@ + clipped_order(views(boxes@), depth as nat, id, clip),
    decreases depth,
{
    if depth == 0 || id.0 >= boxes.len() {
        proof {
            assert(out@ + Seq::<(BoxId, Clip)>::empty() =~= out@);
        }
        return;
    }
    let ghost start = out@;
    let ghost all = views(boxes@);
    let ghost kids = all[id.0 as int].children;
    out.push((id, clip));
    let inside: Clip = clip.inside(&boxes[id.0]);
    if inside.is_empty() {
        proof {
            assert(out@ =~= start + (seq![(id, clip)] + Seq::<(BoxId, Clip)>::empty()));
        }
        return;
    }
    proof {
        let rest = clipped_children(all, depth as nat, kids, 0, inside);
        assert(start + (seq![(id, clip)] + rest) =~= out@ + rest);
    }
    let mut k: usize = 0;
    while k < boxes[id.0].children.len()
        invariant
            depth > 0,
            all == views(boxes@),
            id.0 < boxes@.len(),
            kids == boxes@[id.0 as int].children@,
            k <= kids.len(),
            out@ + clipped_children(all, depth as nat, kids, k as int, inside) == start
                + clipped_order(all, depth as nat, id, clip),
        decreases kids.len() - k,
    {
        let ghost before = out@;
        walk_clipped_from(boxes, depth - 1, boxes[id.0].children[k], inside, out);
        proof {
            let here = clipped_order(all, (depth - 1) as nat, kids[k as int], inside);
            let rest = clipped_children(all, depth as nat, kids, k + 1, inside);
            assert(before + (here + rest) =~= (before + here) + rest);
        }
        k += 1;
    }
    proof {
        assert(out@ + Seq::<(BoxId, Clip)>::empty() =~= out@);
    }
}

impl LayoutTree {
    /// The boxes' values.
    pub open spec fn list(&self) -> Seq<BoxView> {
        views(self.boxes@)
    }

    /// The root and every child is a box of the arena.
    pub open spec fn wf(&self) -> bool {
        &&& self.root.0 < self.boxes@.len()
        &&& closed_under_children(self.list())
    }

    /// A tree laid out from this document.
    pub open spec fn of(&self, dom: &Dom) -> bool {
        self.wf() && boxes_known(dom, self.list())
    }

    /// No box has a negative width or height.
    pub open spec fn sized(&self) -> bool {
        boxes_sized(self.list())
    }

    /// A walk cannot be deeper than there are boxes.
    pub open spec fn depth(&self) -> nat {
        self.boxes@.len()
    }

    pub fn get(&self, id: BoxId) -> (r: &LayoutBox)
        requires
            id.0 < self.boxes@.len(),
        ensures
            *r == self.boxes@[id.0 as int],
            r@ == self.list()[id.0 as int],
    {
        &self.boxes[id.0]
    }

    /// The boxes of a subtree, in paint order.
    pub fn walk(&self, id: BoxId) -> (r: Vec<BoxId>)
        ensures
            r@ == paint_order(self.list(), self.depth(), id),
            in_range(r@, self.boxes@.len()),
    {
        let mut out: Vec<BoxId> = Vec::new();
        walk_from(&self.boxes, self.boxes.len(), id, &mut out);
        proof {
            assert(Seq::<BoxId>::empty() + paint_order(self.list(), self.depth(), id)
                =~= paint_order(self.list(), self.depth(), id));
            walks_stay_in_range(self.list(), self.depth(), id);
        }
        out
    }

    /// The boxes of the page in paint order, each with the [`Clip`] that its
    /// own output is confined to. Subtrees under a collapsed clip are left
    /// out: a clip only ever narrows, so nothing in one can reach the screen.
    pub fn walk_clipped(&self) -> (r: Vec<(BoxId, Clip)>)
        ensures
            r@ == clipped_order(self.list(), self.depth(), self.root, Clip::none()),
            pairs_in_range(r@, self.boxes@.len()),
    {
        let mut out: Vec<(BoxId, Clip)> = Vec::new();
        walk_clipped_from(&self.boxes, self.boxes.len(), self.root, Clip::none(), &mut out);
        proof {
            let all = clipped_order(self.list(), self.depth(), self.root, Clip::none());
            assert(Seq::<(BoxId, Clip)>::empty() + all =~= all);
            clipped_walks_stay_in_range(self.list(), self.depth(), self.root, Clip::none());
        }
        out
    }
}

/// A walk only ever visits boxes.
pub proof fn walks_stay_in_range(boxes: Seq<BoxView>, depth: nat, id: BoxId)
    ensures
        in_range(paint_order(boxes, depth, id), boxes.len()),
    decreases depth, 0nat,
{
    if depth > 0 && id.0 < boxes.len() {
        child_walks_stay_in_range(boxes, depth, boxes[id.0 as int].children, 0);
    }
}

proof fn child_walks_stay_in_range(boxes: Seq<BoxView>, depth: nat, kids: Seq<BoxId>, k: int)
    requires
        0 <= k,
    ensures
        in_range(children_order(boxes, depth, kids, k), boxes.len()),
    decreases depth, 0nat, kids.len() - k,
{
    if depth > 0 && k < kids.len() {
        walks_stay_in_range(boxes, (depth - 1) as nat, kids[k]);
        child_walks_stay_in_range(boxes, depth, kids, k + 1);
    }
}

/// A clipped walk only ever visits boxes.
pub proof fn clipped_walks_stay_in_range(boxes: Seq<BoxView>, depth: nat, id: BoxId, clip: Clip)
    ensures
        pairs_in_range(clipped_order(boxes, depth, id, clip), boxes.len()),
    decreases depth, 0nat,
{
    if depth > 0 && id.0 < boxes.len() {
        let b = boxes[id.0 as int];
        clipped_children_stay_in_range(boxes, depth, b.children, 0, clip.inside_of(b));
    }
}

proof fn clipped_children_stay_in_range(
    boxes: Seq<BoxView>,
    depth: nat,
    kids: Seq<BoxId>,
    k: int,
    clip: Clip,
)
    requires
        0 <= k,
    ensures
        pairs_in_range(clipped_children(boxes, depth, kids, k, clip), boxes.len()),
    decreases depth, 0nat, kids.len() - k,
{
    if depth > 0 && k < kids.len() {
        clipped_walks_stay_in_range(boxes, (depth - 1) as nat, kids[k], clip);
        clipped_children_stay_in_range(boxes, depth, kids, k + 1, clip);
    }
}

} // verus!
