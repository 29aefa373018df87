//! The arena that layout builds, and the walks over it.

use vstd::prelude::*;

use crate::boxes::{
    boxes_known, boxes_sized, closed_under_children, in_range, known, size_ok, BoxId, BoxKind,
    BoxView, GridBorder, GridLayout, GridView, LayoutBox,
};
use crate::cells::{larger, minus, plus};
use crate::context::Ctx;
use crate::dimensions::{Dimensions, Rect};
use crate::dom::NodeId;
use crate::intrinsic::IntrinsicSizer;
use crate::style::ComputedStyle;
use crate::term::Style;
use crate::views::views;

verus! {

broadcast use crate::views::group_views;

/// What layout has built so far.
pub struct Canvas {
    pub boxes: Seq<BoxView>,
    pub borders: Seq<GridBorder>,
    /// How many grid items that are tables are being laid out around here.
    pub grid_items: usize,
}

/// A box with no text, no image and no children yet.
pub open spec fn plain_box(
    kind: BoxKind,
    node: Option<NodeId>,
    dimensions: Dimensions,
    computed: ComputedStyle,
) -> BoxView {
    BoxView {
        kind,
        node,
        dimensions,
        children: Seq::empty(),
        text: None,
        term_style: Style::plain(),
        computed,
        image_src: None,
        image_size_firm: false,
        fixed_viewport: false,
        sticky: None,
        grid: None,
    }
}

/// A fragment of text.
pub open spec fn text_box(
    node: Option<NodeId>,
    content: Rect,
    text: Seq<char>,
    style: Style,
) -> BoxView {
    BoxView {
        text: Some(text),
        term_style: style,
        ..plain_box(BoxKind::Text, node, Dimensions::bare(content), ComputedStyle::initial())
    }
}

/// A replaced image.
pub open spec fn image_box(
    node: NodeId,
    content: Rect,
    computed: ComputedStyle,
    alt: Seq<char>,
    url: Seq<char>,
    firm: bool,
) -> BoxView {
    BoxView {
        text: Some(alt),
        image_src: Some(url),
        image_size_firm: firm,
        ..plain_box(BoxKind::Image, Some(node), Dimensions::bare(content), computed)
    }
}

impl Canvas {
    pub open spec fn dims(self, id: BoxId) -> Dimensions {
        self.boxes[id.0 as int].dimensions
    }

    pub open spec fn next_id(self) -> BoxId {
        BoxId(self.boxes.len() as usize)
    }

    pub open spec fn with_box(self, b: BoxView) -> Canvas {
        Canvas { boxes: self.boxes.push(b), ..self }
    }

    pub open spec fn with_dims(self, id: BoxId, dimensions: Dimensions) -> Canvas {
        Canvas {
            boxes: self.boxes.update(
                id.0 as int,
                BoxView { dimensions, ..self.boxes[id.0 as int] },
            ),
            ..self
        }
    }

    /// The box with another content height.
    pub open spec fn with_height(self, id: BoxId, height: i32) -> Canvas {
        let d = self.dims(id);
        self.with_dims(id, d.with_content(Rect { height, ..d.content }))
    }

    pub open spec fn with_children(self, id: BoxId, children: Seq<BoxId>) -> Canvas {
        Canvas {
            boxes: self.boxes.update(
                id.0 as int,
                BoxView { children, ..self.boxes[id.0 as int] },
            ),
            ..self
        }
    }

    pub open spec fn with_grid(self, id: BoxId, grid: GridView) -> Canvas {
        Canvas {
            boxes: self.boxes.update(
                id.0 as int,
                BoxView { grid: Some(grid), ..self.boxes[id.0 as int] },
            ),
            ..self
        }
    }

    pub open spec fn moved(self, id: BoxId, dx: i32, dy: i32) -> Canvas {
        Canvas { boxes: shifted(self.boxes, self.boxes.len(), id, dx, dy), ..self }
    }
}

/// A box moved without what is inside it.
pub open spec fn moved_box(b: BoxView, dx: i32, dy: i32) -> BoxView {
    BoxView {
        dimensions: b.dimensions.with_content(
            Rect {
                x: plus(b.dimensions.content.x, dx),
                y: plus(b.dimensions.content.y, dy),
                ..b.dimensions.content
            },
        ),
        ..b
    }
}

/// A box and everything inside it moved `dx` cells across the page and `dy`
/// rows down it.
pub open spec fn shifted(boxes: Seq<BoxView>, depth: nat, id: BoxId, dx: i32, dy: i32) -> Seq<
    BoxView,
>
    decreases depth, 0nat,
{
    if depth == 0 || id.0 >= boxes.len() || (dx == 0 && dy == 0) {
        boxes
    } else {
        let b = boxes[id.0 as int];
        shifted_kids(
            boxes.update(id.0 as int, moved_box(b, dx, dy)),
            depth,
            b.children,
            0,
            dx,
            dy,
        )
    }
}

pub open spec fn shifted_kids(
    boxes: Seq<BoxView>,
    depth: nat,
    kids: Seq<BoxId>,
    k: int,
    dx: i32,
    dy: i32,
) -> Seq<BoxView>
    decreases depth, 0nat, kids.len() - k,
{
    if depth == 0 || k >= kids.len() {
        boxes
    } else {
        shifted_kids(
            shifted(boxes, (depth - 1) as nat, kids[k], dx, dy),
            depth,
            kids,
            k + 1,
            dx,
            dy,
        )
    }
}

/// Two boxes that differ in their position at most.
pub open spec fn same_but_for_place(a: BoxView, b: BoxView) -> bool {
    &&& a == (BoxView { dimensions: a.dimensions, ..b })
    &&& a.dimensions == a.dimensions.with_content(a.dimensions.content)
    &&& a.dimensions.padding == b.dimensions.padding
    &&& a.dimensions.border == b.dimensions.border
    &&& a.dimensions.margin == b.dimensions.margin
    &&& a.dimensions.content.width == b.dimensions.content.width
    &&& a.dimensions.content.height == b.dimensions.content.height
}

pub open spec fn only_places_differ(a: Seq<BoxView>, b: Seq<BoxView>) -> bool {
    a.len() == b.len() && forall|i: int|
        0 <= i < a.len() ==> same_but_for_place(#[trigger] a[i], b[i])
}

/// Moving a subtree changes where its boxes are, and nothing else about them
/// or about any other box.
pub proof fn moving_only_moves(boxes: Seq<BoxView>, depth: nat, id: BoxId, dx: i32, dy: i32)
    ensures
        only_places_differ(shifted(boxes, depth, id, dx, dy), boxes),
    decreases depth, 0nat,
{
    if depth == 0 || id.0 >= boxes.len() || (dx == 0 && dy == 0) {
    } else {
        let b = boxes[id.0 as int];
        let next = boxes.update(id.0 as int, moved_box(b, dx, dy));
        assert(only_places_differ(next, boxes));
        moving_kids_only_moves(next, depth, b.children, 0, dx, dy);
        let end = shifted_kids(next, depth, b.children, 0, dx, dy);
        assert forall|i: int| 0 <= i < end.len() implies same_but_for_place(
            #[trigger] end[i],
            boxes[i],
        ) by {
            assert(same_but_for_place(end[i], next[i]));
            assert(same_but_for_place(next[i], boxes[i]));
        }
    }
}

proof fn moving_kids_only_moves(
    boxes: Seq<BoxView>,
    depth: nat,
    kids: Seq<BoxId>,
    k: int,
    dx: i32,
    dy: i32,
)
    requires
        0 <= k,
    ensures
        only_places_differ(shifted_kids(boxes, depth, kids, k, dx, dy), boxes),
    decreases depth, 0nat, kids.len() - k,
{
    if depth > 0 && k < kids.len() {
        let next = shifted(boxes, (depth - 1) as nat, kids[k], dx, dy);
        moving_only_moves(boxes, (depth - 1) as nat, kids[k], dx, dy);
        moving_kids_only_moves(next, depth, kids, k + 1, dx, dy);
        let end = shifted_kids(next, depth, kids, k + 1, dx, dy);
        assert forall|i: int| 0 <= i < end.len() implies same_but_for_place(
            #[trigger] end[i],
            boxes[i],
        ) by {
            assert(same_but_for_place(end[i], next[i]));
            assert(same_but_for_place(next[i], boxes[i]));
        }
    }
}

/// A subtree that stays with the viewport.
pub open spec fn fixed_from(boxes: Seq<BoxView>, depth: nat, id: BoxId) -> Seq<BoxView>
    decreases depth, 0nat,
{
    if depth == 0 || id.0 >= boxes.len() {
        boxes
    } else {
        let b = boxes[id.0 as int];
        fixed_kids(
            boxes.update(id.0 as int, BoxView { fixed_viewport: true, ..b }),
            depth,
            b.children,
            0,
        )
    }
}

pub open spec fn fixed_kids(boxes: Seq<BoxView>, depth: nat, kids: Seq<BoxId>, k: int) -> Seq<BoxView>
    decreases depth, 0nat, kids.len() - k,
{
    if depth == 0 || k >= kids.len() {
        boxes
    } else {
        fixed_kids(fixed_from(boxes, (depth - 1) as nat, kids[k]), depth, kids, k + 1)
    }
}

/// The rows a form control's own text sits on, its first and its last.
pub open spec fn field_rows(b: BoxView) -> Option<(i32, i32)> {
    match b.kind {
        BoxKind::Field(_) => {
            let c = b.dimensions.content;
            Some((c.y, plus(c.y, larger(minus(c.height, 1), 0))))
        },
        _ => None,
    }
}

/// The baseline row of the first line box in a subtree.
pub open spec fn first_row(boxes: Seq<BoxView>, depth: nat, id: BoxId) -> Option<i32>
    decreases depth, 2nat,
{
    if depth == 0 || id.0 >= boxes.len() {
        None
    } else {
        let b = boxes[id.0 as int];
        if b.kind is Line {
            Some(line_row(boxes, depth, id))
        } else {
            match field_rows(b) {
                Some(rows) => Some(rows.0),
                None => first_row_of(boxes, depth, b.children, 0),
            }
        }
    }
}

pub open spec fn first_row_of(boxes: Seq<BoxView>, depth: nat, kids: Seq<BoxId>, k: int) -> Option<
    i32,
>
    decreases depth, 0nat, kids.len() - k,
{
    if depth == 0 || k >= kids.len() {
        None
    } else {
        match first_row(boxes, (depth - 1) as nat, kids[k]) {
            Some(row) => Some(row),
            None => first_row_of(boxes, depth, kids, k + 1),
        }
    }
}

/// The baseline row of the last line box in a subtree.
pub open spec fn last_row(boxes: Seq<BoxView>, depth: nat, id: BoxId) -> Option<i32>
    decreases depth, 2nat,
{
    if depth == 0 || id.0 >= boxes.len() {
        None
    } else {
        let b = boxes[id.0 as int];
        if b.kind is Line {
            Some(line_row(boxes, depth, id))
        } else {
            match field_rows(b) {
                Some(rows) => Some(rows.1),
                None => last_row_of(boxes, depth, b.children, b.children.len() as int),
            }
        }
    }
}

/// The last row of the first `n` children.
pub open spec fn last_row_of(boxes: Seq<BoxView>, depth: nat, kids: Seq<BoxId>, n: int) -> Option<
    i32,
>
    decreases depth, 0nat, n,
{
    if depth == 0 || n <= 0 || n > kids.len() {
        None
    } else {
        match last_row(boxes, (depth - 1) as nat, kids[n - 1]) {
            Some(row) => Some(row),
            None => last_row_of(boxes, depth, kids, n - 1),
        }
    }
}

/// The row of the first text among children.
pub open spec fn text_row(boxes: Seq<BoxView>, kids: Seq<BoxId>, k: int) -> Option<i32>
    decreases kids.len() - k,
{
    if k >= kids.len() {
        None
    } else if kids[k].0 < boxes.len() && boxes[kids[k].0 as int].kind is Text {
        Some(boxes[kids[k].0 as int].dimensions.content.y)
    } else {
        text_row(boxes, kids, k + 1)
    }
}

/// The last row of the first child that has one.
pub open spec fn any_last_row(boxes: Seq<BoxView>, depth: nat, kids: Seq<BoxId>, k: int) -> Option<
    i32,
>
    decreases depth, 0nat, kids.len() - k,
{
    if depth == 0 || k >= kids.len() {
        None
    } else {
        match last_row(boxes, (depth - 1) as nat, kids[k]) {
            Some(row) => Some(row),
            None => any_last_row(boxes, depth, kids, k + 1),
        }
    }
}

/// Which of a line box's rows carries its baseline: the one its text sits on,
/// or else that of whatever box is on it, or else its first.
pub open spec fn line_row(boxes: Seq<BoxView>, depth: nat, id: BoxId) -> i32
    decreases depth, 1nat,
{
    let b = boxes[id.0 as int];
    match text_row(boxes, b.children, 0) {
        Some(row) => row,
        None => match any_last_row(boxes, depth, b.children, 0) {
            Some(row) => row,
            None => b.dimensions.content.y,
        },
    }
}

/// The last box generated for that node among the first `n`.
pub open spec fn last_box_of(boxes: Seq<BoxView>, node: NodeId, n: int) -> Option<BoxId>
    decreases n,
{
    if n <= 0 || n > boxes.len() {
        None
    } else if boxes[n - 1].node == Some(node) {
        Some(BoxId((n - 1) as usize))
    } else {
        last_box_of(boxes, node, n - 1)
    }
}

/// A layout pass in progress.
pub struct Engine<'a> {
    pub ctx: Ctx<'a>,
    pub boxes: Vec<LayoutBox>,
    pub sizer: IntrinsicSizer<'a>,
    pub grid_borders: Vec<GridBorder>,
    pub grid_item_depth: usize,
    /// How tall the viewport is, in rows.
    pub viewport: i32,
}

pub fn new_box(
    kind: BoxKind,
    node: Option<NodeId>,
    dimensions: Dimensions,
    computed: ComputedStyle,
) -> (r: LayoutBox)
    ensures
        r@ == plain_box(kind, node, dimensions, computed),
{
    let b: LayoutBox = LayoutBox {
        kind,
        node,
        dimensions,
        children: Vec::new(),
        text: None,
        term_style: Style::plain(),
        computed,
        image_src: None,
        image_size_firm: false,
        fixed_viewport: false,
        sticky: None,
        grid: None,
    };
    assert(b@.children =~= Seq::<BoxId>::empty());
    b
}

pub fn new_text_box(node: Option<NodeId>, content: Rect, text: String, style: Style) -> (r:
    LayoutBox)
    ensures
        r@ == text_box(node, content, text@, style),
{
    let mut b: LayoutBox = new_box(
        BoxKind::Text,
        node,
        Dimensions::bare(content),
        ComputedStyle::initial(),
    );
    b.text = Some(text);
    b.term_style = style;
    b
}

pub fn new_image_box(
    node: NodeId,
    content: Rect,
    computed: ComputedStyle,
    alt: String,
    url: String,
    firm: bool,
) -> (r: LayoutBox)
    ensures
        r@ == image_box(node, content, computed, alt@, url@, firm),
{
    let mut b: LayoutBox = new_box(
        BoxKind::Image,
        Some(node),
        Dimensions::bare(content),
        computed,
    );
    b.text = Some(alt);
    b.image_src = Some(url);
    b.image_size_firm = firm;
    b
}

impl<'a> Engine<'a> {
    pub open spec fn canvas(&self) -> Canvas {
        Canvas {
            boxes: views(self.boxes@),
            borders: self.grid_borders@,
            grid_items: self.grid_item_depth,
        }
    }

    pub open spec fn ok(&self) -> bool {
        &&& self.ctx.wf()
        &&& self.sizer.ok()
        &&& self.sizer.ctx == self.ctx
        &&& closed_under_children(views(self.boxes@))
        &&& boxes_known(self.ctx.dom, views(self.boxes@))
        &&& boxes_sized(views(self.boxes@))
    }

    /// The same pass, further on.
    pub open spec fn follows(&self, old: Self) -> bool {
        &&& self.ok()
        &&& self.ctx == old.ctx
        &&& self.viewport == old.viewport
        &&& self.boxes@.len() >= old.boxes@.len()
    }

    pub open spec fn has_box(&self, id: BoxId) -> bool {
        id.0 < self.boxes@.len()
    }

    pub fn add_box(&mut self, b: LayoutBox) -> (r: BoxId)
        requires
            old(self).ok(),
            in_range(b.children@, old(self).boxes@.len()),
            known(old(self).ctx.dom, b.node),
            size_ok(b.dimensions),
        ensures
            final(self).follows(*old(self)),
            final(self).boxes@.len() == old(self).boxes@.len() + 1,
            r.0 == old(self).boxes@.len(),
            r == old(self).canvas().next_id(),
            final(self).canvas() == old(self).canvas().with_box(b@),
    {
        let id: BoxId = BoxId(self.boxes.len());
        let ghost before = views(self.boxes@);
        self.boxes.push(b);
        proof {
            let after = views(self.boxes@);
            assert forall|i: int| 0 <= i < after.len() implies in_range(
                #[trigger] after[i].children,
                after.len(),
            ) by {
                if i < before.len() {
                    assert(after[i] == before[i]);
                    assert(in_range(before[i].children, before.len()));
                }
            }
        }
        id
    }

    pub fn dims(&self, id: BoxId) -> (r: Dimensions)
        requires
            self.has_box(id),
        ensures
            r == self.canvas().dims(id),
    {
        self.boxes[id.0].dimensions
    }

    pub fn set_dims(&mut self, id: BoxId, dimensions: Dimensions)
        requires
            old(self).ok(),
            old(self).has_box(id),
            size_ok(dimensions),
        ensures
            final(self).follows(*old(self)),
            final(self).boxes@.len() == old(self).boxes@.len(),
            final(self).canvas() == old(self).canvas().with_dims(id, dimensions),
    {
        let ghost before = views(self.boxes@);
        self.boxes[id.0].dimensions = dimensions;
        proof {
            let after = views(self.boxes@);
            assert(after =~= before.update(
                id.0 as int,
                BoxView { dimensions, ..before[id.0 as int] },
            ));
            assert forall|i: int| 0 <= i < after.len() implies in_range(
                #[trigger] after[i].children,
                after.len(),
            ) by {
                assert(in_range(before[i].children, before.len()));
            }
        }
    }

    pub fn set_height(&mut self, id: BoxId, height: i32)
        requires
            old(self).ok(),
            old(self).has_box(id),
            height >= 0,
        ensures
            final(self).follows(*old(self)),
            final(self).boxes@.len() == old(self).boxes@.len(),
            final(self).canvas() == old(self).canvas().with_height(id, height),
    {
        let d: Dimensions = self.dims(id);
        let c: Rect = Rect { x: d.content.x, y: d.content.y, width: d.content.width, height };
        self.set_dims(id, d.with_content(c));
    }

    pub fn set_children(&mut self, id: BoxId, children: Vec<BoxId>)
        requires
            old(self).ok(),
            old(self).has_box(id),
            in_range(children@, old(self).boxes@.len()),
        ensures
            final(self).follows(*old(self)),
            final(self).boxes@.len() == old(self).boxes@.len(),
            final(self).canvas() == old(self).canvas().with_children(id, children@),
    {
        let ghost before = views(self.boxes@);
        self.boxes[id.0].children = children;
        proof {
            let after = views(self.boxes@);
            assert(after =~= before.update(
                id.0 as int,
                BoxView { children: children@, ..before[id.0 as int] },
            ));
            assert forall|i: int| 0 <= i < after.len() implies in_range(
                #[trigger] after[i].children,
                after.len(),
            ) by {
                assert(in_range(before[i].children, before.len()));
            }
        }
    }

    /// One more child.
    pub fn push_child(&mut self, id: BoxId, child: BoxId)
        requires
            old(self).ok(),
            old(self).has_box(id),
            old(self).has_box(child),
        ensures
            final(self).follows(*old(self)),
            final(self).boxes@.len() == old(self).boxes@.len(),
            final(self).canvas() == old(self).canvas().with_children(
                id,
                old(self).canvas().boxes[id.0 as int].children.push(child),
            ),
    {
        let ghost before = views(self.boxes@);
        self.boxes[id.0].children.push(child);
        proof {
            let after = views(self.boxes@);
            assert(after =~= before.update(
                id.0 as int,
                BoxView {
                    children: before[id.0 as int].children.push(child),
                    ..before[id.0 as int]
                },
            ));
            assert forall|i: int| 0 <= i < after.len() implies in_range(
                #[trigger] after[i].children,
                after.len(),
            ) by {
                assert(in_range(before[i].children, before.len()));
            }
        }
    }

    pub fn set_grid(&mut self, id: BoxId, grid: GridLayout)
        requires
            old(self).ok(),
            old(self).has_box(id),
        ensures
            final(self).follows(*old(self)),
            final(self).boxes@.len() == old(self).boxes@.len(),
            final(self).canvas() == old(self).canvas().with_grid(id, grid@),
    {
        let ghost before = views(self.boxes@);
        self.boxes[id.0].grid = Some(grid);
        proof {
            let after = views(self.boxes@);
            assert(after =~= before.update(
                id.0 as int,
                BoxView { grid: Some(grid@), ..before[id.0 as int] },
            ));
            assert forall|i: int| 0 <= i < after.len() implies in_range(
                #[trigger] after[i].children,
                after.len(),
            ) by {
                assert(in_range(before[i].children, before.len()));
            }
        }
    }

    /// Move a box and everything under it.
    pub fn shift_subtree(&mut self, id: BoxId, dx: i32, dy: i32)
        requires
            old(self).ok(),
        ensures
            final(self).follows(*old(self)),
            final(self).boxes@.len() == old(self).boxes@.len(),
            final(self).canvas() == old(self).canvas().moved(id, dx, dy),
    {
        let depth: usize = self.boxes.len();
        self.shift_from(depth, id, dx, dy);
    }

    fn shift_from(&mut self, depth: usize, id: BoxId, dx: i32, dy: i32)
        requires
            old(self).ok(),
        ensures
            final(self).follows(*old(self)),
            final(self).boxes@.len() == old(self).boxes@.len(),
            final(self).canvas() == (Canvas {
                boxes: shifted(old(self).canvas().boxes, depth as nat, id, dx, dy),
                ..old(self).canvas()
            }),
        decreases depth,
    {
        if depth == 0 || id.0 >= self.boxes.len() || (dx == 0 && dy == 0) {
            return;
        }
        let ghost start = self.canvas();
        let d: Dimensions = self.dims(id);
        let c: Rect = Rect {
            x: plus(d.content.x, dx),
            y: plus(d.content.y, dy),
            width: d.content.width,
            height: d.content.height,
        };
        self.set_dims(id, d.with_content(c));
        let ghost kids = start.boxes[id.0 as int].children;
        let ghost goal = shifted_kids(self.canvas().boxes, depth as nat, kids, 0, dx, dy);
        proof {
            assert(start.boxes[id.0 as int].children == self.canvas().boxes[id.0 as int].children);
        }
        let mut k: usize = 0;
        let n: usize = self.boxes[id.0].children.len();
        while k < n
            invariant
                depth > 0,
                self.follows(*old(self)),
                self.boxes@.len() == old(self).boxes@.len(),
                id.0 < self.boxes@.len(),
                n == kids.len(),
                k <= n,
                self.canvas().boxes[id.0 as int].children == kids,
                self.canvas().borders == start.borders,
                self.canvas().grid_items == start.grid_items,
                goal == shifted_kids(
                    self.canvas().boxes,
                    depth as nat,
                    kids,
                    k as int,
                    dx,
                    dy,
                ),
            decreases n - k,
        {
            let child: BoxId = self.boxes[id.0].children[k];
            let ghost before = self.canvas().boxes;
            proof {
                moving_only_moves(before, (depth - 1) as nat, child, dx, dy);
            }
            self.shift_from(depth - 1, child, dx, dy);
            proof {
                assert(same_but_for_place(self.canvas().boxes[id.0 as int], before[id.0 as int]));
            }
            k += 1;
        }
    }

    /// Everything in this subtree stays with the viewport.
    pub fn mark_fixed_subtree(&mut self, id: BoxId)
        requires
            old(self).ok(),
        ensures
            final(self).follows(*old(self)),
            final(self).boxes@.len() == old(self).boxes@.len(),
            final(self).canvas() == (Canvas {
                boxes: fixed_from(old(self).canvas().boxes, old(self).boxes@.len(), id),
                ..old(self).canvas()
            }),
    {
        let depth: usize = self.boxes.len();
        self.fix_from(depth, id);
    }

    fn fix_from(&mut self, depth: usize, id: BoxId)
        requires
            old(self).ok(),
        ensures
            final(self).follows(*old(self)),
            final(self).boxes@.len() == old(self).boxes@.len(),
            forall|i: int|
                0 <= i < old(self).boxes@.len() ==> (
                #[trigger] final(self).canvas().boxes[i]).children
                    == old(self).canvas().boxes[i].children,
            final(self).canvas() == (Canvas {
                boxes: fixed_from(old(self).canvas().boxes, depth as nat, id),
                ..old(self).canvas()
            }),
        decreases depth,
    {
        if depth == 0 || id.0 >= self.boxes.len() {
            return;
        }
        let ghost start = self.canvas();
        let ghost kids = start.boxes[id.0 as int].children;
        self.boxes[id.0].fixed_viewport = true;
        proof {
            let before = start.boxes;
            let after = views(self.boxes@);
            assert(after =~= before.update(
                id.0 as int,
                BoxView { fixed_viewport: true, ..before[id.0 as int] },
            ));
            assert forall|i: int| 0 <= i < after.len() implies in_range(
                #[trigger] after[i].children,
                after.len(),
            ) by {
                assert(in_range(before[i].children, before.len()));
            }
        }
        let ghost goal = fixed_kids(self.canvas().boxes, depth as nat, kids, 0);
        let mut k: usize = 0;
        let n: usize = self.boxes[id.0].children.len();
        while k < n
            invariant
                depth > 0,
                self.follows(*old(self)),
                self.boxes@.len() == old(self).boxes@.len(),
                id.0 < self.boxes@.len(),
                n == kids.len(),
                k <= n,
                kids == start.boxes[id.0 as int].children,
                start == old(self).canvas(),
                forall|i: int|
                    0 <= i < start.boxes.len() ==> (#[trigger] self.canvas().boxes[i]).children
                        == start.boxes[i].children,
                self.canvas().borders == start.borders,
                self.canvas().grid_items == start.grid_items,
                goal == fixed_kids(self.canvas().boxes, depth as nat, kids, k as int),
            decreases n - k,
        {
            proof {
                assert(self.canvas().boxes[id.0 as int].children == kids);
            }
            let child: BoxId = self.boxes[id.0].children[k];
            self.fix_from(depth - 1, child);
            k += 1;
        }
    }

    /// See [`first_row`].
    pub fn first_line_row(&self, depth: usize, id: BoxId) -> (r: Option<i32>)
        ensures
            r == first_row(self.canvas().boxes, depth as nat, id),
        decreases depth, 2nat,
    {
        if depth == 0 || id.0 >= self.boxes.len() {
            return None;
        }
        let ghost all = self.canvas().boxes;
        let b: &LayoutBox = &self.boxes[id.0];
        if matches!(b.kind, BoxKind::Line) {
            return Some(self.line_baseline_row(depth, id));
        }
        match field_baseline_rows(b) {
            Some(rows) => {
                return Some(rows.0);
            },
            None => {},
        }
        let mut k: usize = 0;
        while k < b.children.len()
            invariant
                depth > 0,
                all == self.canvas().boxes,
                k <= b.children@.len(),
                first_row(all, depth as nat, id) == first_row_of(
                    all,
                    depth as nat,
                    b.children@,
                    k as int,
                ),
            decreases b.children@.len() - k,
        {
            match self.first_line_row(depth - 1, b.children[k]) {
                Some(row) => {
                    return Some(row);
                },
                None => {},
            }
            k += 1;
        }
        None
    }

    /// See [`last_row`].
    pub fn last_line_row(&self, depth: usize, id: BoxId) -> (r: Option<i32>)
        ensures
            r == last_row(self.canvas().boxes, depth as nat, id),
        decreases depth, 2nat,
    {
        if depth == 0 || id.0 >= self.boxes.len() {
            return None;
        }
        let ghost all = self.canvas().boxes;
        let b: &LayoutBox = &self.boxes[id.0];
        if matches!(b.kind, BoxKind::Line) {
            return Some(self.line_baseline_row(depth, id));
        }
        match field_baseline_rows(b) {
            Some(rows) => {
                return Some(rows.1);
            },
            None => {},
        }
        let mut n: usize = b.children.len();
        while n > 0
            invariant
                depth > 0,
                all == self.canvas().boxes,
                n <= b.children@.len(),
                last_row(all, depth as nat, id) == last_row_of(
                    all,
                    depth as nat,
                    b.children@,
                    n as int,
                ),
            decreases n,
        {
            match self.last_line_row(depth - 1, b.children[n - 1]) {
                Some(row) => {
                    return Some(row);
                },
                None => {},
            }
            n -= 1;
        }
        None
    }

    fn line_baseline_row(&self, depth: usize, id: BoxId) -> (r: i32)
        requires
            depth > 0,
            self.has_box(id),
        ensures
            r == line_row(self.canvas().boxes, depth as nat, id),
        decreases depth, 1nat,
    {
        let ghost all = self.canvas().boxes;
        let b: &LayoutBox = &self.boxes[id.0];
        let mut k: usize = 0;
        while k < b.children.len()
            invariant
                all == self.canvas().boxes,
                all == views(self.boxes@),
                id.0 < self.boxes@.len(),
                *b == self.boxes@[id.0 as int],
                k <= b.children@.len(),
                text_row(all, b.children@, 0) == text_row(all, b.children@, k as int),
            decreases b.children@.len() - k,
        {
            let c: BoxId = b.children[k];
            if c.0 < self.boxes.len() && matches!(self.boxes[c.0].kind, BoxKind::Text) {
                return self.boxes[c.0].dimensions.content.y;
            }
            k += 1;
        }
        let mut k: usize = 0;
        while k < b.children.len()
            invariant
                depth > 0,
                all == self.canvas().boxes,
                id.0 < self.boxes@.len(),
                *b == self.boxes@[id.0 as int],
                k <= b.children@.len(),
                text_row(all, b.children@, 0) is None,
                any_last_row(all, depth as nat, b.children@, 0) == any_last_row(
                    all,
                    depth as nat,
                    b.children@,
                    k as int,
                ),
            decreases b.children@.len() - k,
        {
            match self.last_line_row(depth - 1, b.children[k]) {
                Some(row) => {
                    return row;
                },
                None => {},
            }
            k += 1;
        }
        b.dimensions.content.y
    }

    /// See [`last_box_of`].
    pub fn find_last_box(&self, node: NodeId) -> (r: Option<BoxId>)
        ensures
            r == last_box_of(self.canvas().boxes, node, self.boxes@.len() as int),
            r matches Some(id) ==> self.has_box(id),
    {
        let ghost all = self.canvas().boxes;
        let mut n: usize = self.boxes.len();
        while n > 0
            invariant
                all == views(self.boxes@),
                n <= self.boxes@.len(),
                last_box_of(all, node, self.boxes@.len() as int) == last_box_of(
                    all,
                    node,
                    n as int,
                ),
            decreases n,
        {
            if self.boxes[n - 1].node == Some(node) {
                return Some(BoxId(n - 1));
            }
            n -= 1;
        }
        None
    }
}

fn field_baseline_rows(b: &LayoutBox) -> (r: Option<(i32, i32)>)
    ensures
        r == field_rows(b@),
{
    match b.kind {
        BoxKind::Field(_) => {
            let c: Rect = b.dimensions.content;
            Some((c.y, plus(c.y, larger(minus(c.height, 1), 0))))
        },
        _ => None,
    }
}

} // verus!
