//! What holds of every page.

use vstd::prelude::*;

use crate::blocks::{axis_v, heights_of, used_height, BoxArgs, Built, FlowEnv, FlowView, Recipe};
use crate::boxes::{
    boxes_known, clipped_children, clipped_order, known, BoxId, BoxKind, BoxView, LayoutTree,
};
use crate::boxmodel::{resolve_block_dims, term_style};
use crate::cells::{fit, larger, minus};
use crate::clip::{trimming_only_removes, Clip};
use crate::context::Ctx;
use crate::dimensions::{Dimensions, Rect};
use crate::dom::NodeId;
use crate::engine::{plain_box, Canvas};
use crate::field::control_tag;
use crate::flexbox::own_path;
use crate::inline::{frags_from, InlineItem};
use crate::intrinsic::{text_pieces, Run, Sizes};
use crate::line_laws::{
    a_text_measures_its_words, bottom_of, text_items, unwrapped, unwrapped_grows,
};
use crate::lines::{lines_of_tree, rows_fit};
use crate::page::{
    at_least_one, lowest_from, page_rect, same_shape, sticking_keeps_the_shape, stuck,
};
use crate::row_laws::{
    a_row_that_shows_is_not_blank, all_rows_shown, four_boxes_down, line_is_blank, line_shows,
    only_texts, rows_shown,
};
use crate::style::{ComputedStyle, Edges, Length};
use crate::text::{cells_of, words_of, Spaces};

verus! {

broadcast use crate::views::group_views;

/// Two lists of boxes that hold the same tree and clip it the same way.
pub open spec fn clipped_alike(a: Seq<BoxView>, b: Seq<BoxView>) -> bool {
    &&& a.len() == b.len()
    &&& forall|i: int|
        0 <= i < a.len() ==> {
            &&& (#[trigger] a[i]).children == b[i].children
            &&& a[i].computed == b[i].computed
            &&& a[i].dimensions == b[i].dimensions || !(a[i].computed.overflow_x.clips()
                || a[i].computed.overflow_y.clips())
        }
}

proof fn same_walk(a: Seq<BoxView>, b: Seq<BoxView>, depth: nat, id: BoxId, clip: Clip)
    requires
        clipped_alike(a, b),
    ensures
        clipped_order(a, depth, id, clip) == clipped_order(b, depth, id, clip),
    decreases depth, 0nat,
{
    if depth > 0 && id.0 < a.len() {
        let box_a = a[id.0 as int];
        assert(clip.inside_of(box_a) == clip.inside_of(b[id.0 as int]));
        same_children(a, b, depth, box_a.children, 0, clip.inside_of(box_a));
    }
}

proof fn same_children(
    a: Seq<BoxView>,
    b: Seq<BoxView>,
    depth: nat,
    kids: Seq<BoxId>,
    k: int,
    clip: Clip,
)
    requires
        clipped_alike(a, b),
        0 <= k,
    ensures
        clipped_children(a, depth, kids, k, clip) == clipped_children(b, depth, kids, k, clip),
    decreases depth, 0nat, kids.len() - k,
{
    if depth > 0 && k < kids.len() {
        same_walk(a, b, (depth - 1) as nat, kids[k], clip);
        same_children(a, b, depth, kids, k + 1, clip);
    }
}

/// Nothing of a walk paints below the lowest row.
proof fn lowest_is_lowest(
    boxes: Seq<BoxView>,
    walk: Seq<(BoxId, Clip)>,
    i: int,
    so_far: i32,
    k: int,
)
    requires
        0 <= i,
    ensures
        lowest_from(boxes, walk, i, so_far) >= so_far,
        i <= k < walk.len() ==> {
            let visible = walk[k].1.apply(boxes[walk[k].0.0 as int].dimensions.border_box());
            visible.height > 0 ==> visible.bottom() <= lowest_from(boxes, walk, i, so_far)
        },
    decreases walk.len() - i,
{
    if i < walk.len() {
        let (id, clip) = walk[i];
        let visible = clip.apply(boxes[id.0 as int].dimensions.border_box());
        let next = if visible.height > 0 {
            larger(so_far, visible.bottom())
        } else {
            so_far
        };
        lowest_is_lowest(boxes, walk, i + 1, next, k);
    }
}

impl<'a> Ctx<'a> {
    pub proof fn sticking_all_keeps_the_shape(
        &self,
        boxes: Seq<BoxView>,
        i: int,
        width: i32,
        viewport: i32,
    )
        requires
            0 <= i,
        ensures
            same_shape(self.stuck_from(boxes, i, width, viewport), boxes),
        decreases boxes.len() - i,
    {
        if i < boxes.len() {
            match self.constraint_of(boxes, i, width, viewport) {
                None => {
                    self.sticking_all_keeps_the_shape(boxes, i + 1, width, viewport);
                },
                Some(c) => {
                    let next = stuck(boxes, boxes.len(), BoxId(i as usize), c);
                    sticking_keeps_the_shape(boxes, boxes.len(), BoxId(i as usize), c);
                    self.sticking_all_keeps_the_shape(next, i + 1, width, viewport);
                    let end = self.stuck_from(next, i + 1, width, viewport);
                    assert forall|j: int| 0 <= j < end.len() implies (#[trigger] end[j]) == (
                    BoxView { sticky: end[j].sticky, ..boxes[j] }) by {
                        assert(end[j] == (BoxView { sticky: end[j].sticky, ..next[j] }));
                        assert(next[j] == (BoxView { sticky: next[j].sticky, ..boxes[j] }));
                    }
                },
            }
        }
    }

    /// No element slides with the viewport.
    pub open spec fn nothing_is_sticky(&self) -> bool {
        forall|id: NodeId| self.dom.has(id) ==> !(#[trigger] self.style(id).position is Sticky)
    }

    proof fn nothing_sticks(&self, boxes: Seq<BoxView>, i: int, width: i32, viewport: i32)
        requires
            0 <= i,
            boxes_known(self.dom, boxes),
            self.nothing_is_sticky(),
        ensures
            self.stuck_from(boxes, i, width, viewport) == boxes,
        decreases boxes.len() - i,
    {
        if i < boxes.len() {
            assert(known(self.dom, boxes[i].node));
            self.nothing_sticks(boxes, i + 1, width, viewport);
        }
    }

    /// Document flow has no height to fill: where nothing is fixed or sticky, a
    /// page comes out the same in every viewport.
    pub proof fn only_what_is_anchored_sees_the_viewport(
        &self,
        tree: &LayoutTree,
        width: u16,
        viewport: u16,
        other: u16,
    )
        requires
            self.wf(),
            tree@ == self.page(width, viewport),
            tree.of(self.dom),
            self.nothing_is_fixed(),
            self.nothing_is_sticky(),
        ensures
            tree@ == self.page(width, other),
    {
        reveal(Ctx::page);
        let w = at_least_one(width);
        let (u, v) = (at_least_one(viewport), at_least_one(other));
        self.the_viewport_moves_only_what_is_fixed(w, u, v);
        let (laid, y) = self.stacked_on(self.builder(u, self.dom.nodes@.len()), w);
        let drawn = self.page_drawn(laid.boxes, w, self.page_height(laid.boxes, y, w));
        self.sticking_all_keeps_the_shape(drawn, 0, w, u);
        assert(boxes_known(self.dom, drawn)) by {
            assert forall|i: int| 0 <= i < drawn.len() implies known(
                self.dom,
                (#[trigger] drawn[i]).node,
            ) by {
                assert(tree.list()[i] == (BoxView { sticky: tree.list()[i].sticky, ..drawn[i] }));
                assert(known(self.dom, tree.list()[i].node));
            }
        }
        self.nothing_sticks(drawn, 0, w, u);
        self.nothing_sticks(drawn, 0, w, v);
    }

    /// The page's own box is the document's, as wide as the page and as tall,
    /// and nothing that can be seen lies below it: what is clipped away does
    /// not extend a page, and what overflows a short box does.
    pub proof fn no_visible_row_is_below_the_page(
        &self,
        tree: &LayoutTree,
        width: u16,
        viewport: u16,
    )
        requires
            self.wf(),
            tree@ == self.page(width, viewport),
            tree.of(self.dom),
        ensures
            tree.root == BoxId(0),
            tree.list()[0].node == Some(self.dom.root),
            tree.list()[0].dimensions.content == (Rect {
                x: 0,
                y: 0,
                width: at_least_one(width),
                height: tree.height,
            }),
            ({
                let walk = clipped_order(tree.list(), tree.depth(), tree.root, Clip::none());
                forall|k: int|
                    0 <= k < walk.len() ==> {
                        let (id, clip) = #[trigger] walk[k];
                        let visible = clip.apply(
                            tree.list()[id.0 as int].dimensions.border_box(),
                        );
                        visible.height > 0 ==> visible.bottom() <= tree.height
                    }
            }),
    {
        reveal(Ctx::page);
        let w = at_least_one(width);
        let h = at_least_one(viewport);
        let (laid, y) = self.stacked_on(self.builder(h, self.dom.nodes@.len()), w);
        let flat = self.page_drawn(laid.boxes, w, 0);
        let drawn = self.page_drawn(laid.boxes, w, tree.height);
        let full = tree.list();
        self.sticking_all_keeps_the_shape(drawn, 0, w, h);
        assert(laid.boxes.len() > 0);
        assert(full.len() == flat.len());
        assert(full[0] == (BoxView { sticky: full[0].sticky, ..drawn[0] }));
        assert(clipped_alike(full, flat)) by {
            assert forall|i: int| 0 <= i < full.len() implies {
                &&& (#[trigger] full[i]).children == flat[i].children
                &&& full[i].computed == flat[i].computed
                &&& full[i].dimensions == flat[i].dimensions || !(
                full[i].computed.overflow_x.clips() || full[i].computed.overflow_y.clips())
            } by {
                assert(full[i] == (BoxView { sticky: full[i].sticky, ..drawn[i] }));
                if i == 0 {
                    assert(!full[0].computed.overflow_x.clips());
                } else {
                    assert(drawn[i] == flat[i]);
                }
            }
        }
        same_walk(full, flat, full.len(), BoxId(0), Clip::none());
        let walk = clipped_order(full, full.len(), BoxId(0), Clip::none());
        crate::boxes::clipped_walks_stay_in_range(full, full.len(), BoxId(0), Clip::none());
        assert forall|k: int| 0 <= k < walk.len() implies {
            let (id, clip) = #[trigger] walk[k];
            let visible = clip.apply(full[id.0 as int].dimensions.border_box());
            visible.height > 0 ==> visible.bottom() <= tree.height
        } by {
            let (id, clip) = walk[k];
            lowest_is_lowest(flat, walk, 0, 0, k);
            assert(full[id.0 as int] == (BoxView {
                sticky: full[id.0 as int].sticky,
                ..drawn[id.0 as int]
            }));
            if id.0 == 0 {
                trimming_only_removes(clip, drawn[0].dimensions.border_box());
            }
        }
    }
}

/// A tag with no layout of its own: its element is laid out as its style says.
pub open spec fn ordinary_tag(tag: Seq<char>) -> bool {
    &&& !own_path(tag)
    &&& !control_tag(tag)
    &&& tag != "table"@
    &&& tag != "pre"@
    &&& tag != "li"@
}

/// A block with no size and no edges of its own.
pub open spec fn bare_block(c: ComputedStyle) -> bool {
    &&& c.display is Block
    &&& c.position is Static
    &&& c.width is Auto && c.min_width is Auto && c.max_width is Auto
    &&& c.height is Auto && c.min_height is Auto && c.max_height is Auto
    &&& c.margin == Edges::all(Length::Px(0))
    &&& c.padding == Edges::all(Length::Px(0))
    &&& c.border == Edges::all(Length::Px(0))
}

proof fn a_bare_block_fills_its_column(c: ComputedStyle, width: i32)
    requires
        bare_block(c),
        width >= 0,
    ensures
        resolve_block_dims(&c, width, None) == Dimensions::bare(page_rect(width, 0)),
{
}

/// What lies in a walk ends no further down than everything does.
proof fn lowest_at_most(
    boxes: Seq<BoxView>,
    walk: Seq<(BoxId, Clip)>,
    i: int,
    so_far: i32,
    bound: i32,
)
    requires
        0 <= i,
        so_far <= bound,
        crate::boxes::pairs_in_range(walk, boxes.len()),
        forall|k: int| 0 <= k < boxes.len() ==> bottom_of(#[trigger] boxes[k]) <= bound,
    ensures
        lowest_from(boxes, walk, i, so_far) <= bound,
    decreases walk.len() - i,
{
    if i < walk.len() {
        let (id, clip) = walk[i];
        assert(walk[i].0.0 < boxes.len());
        let rect = boxes[id.0 as int].dimensions.border_box();
        assert(bottom_of(boxes[id.0 as int]) <= bound);
        let visible = clip.apply(rect);
        let next = if visible.height > 0 {
            larger(so_far, visible.bottom())
        } else {
            so_far
        };
        lowest_at_most(boxes, walk, i + 1, next, bound);
    }
}

/// A text whose words take at most that many cells on one line.
pub open spec fn fits_unwrapped(text: Seq<char>, cells: int) -> bool {
    let words = words_of(text, Spaces::Html);
    unwrapped(words, words.len() as int) <= cells
}

/// One of two words or more takes less than all of them on one line.
proof fn a_word_leaves_room(words: Seq<Seq<char>>, j: int, k: int)
    requires
        0 <= j < k,
        2 <= k,
    ensures
        cells_of(words[j]) < unwrapped(words, k),
    decreases k,
{
    unwrapped_grows(words, 0, k - 1);
    assert(cells_of(words[k - 1]) >= 0);
    if j < k - 1 && k > 2 {
        a_word_leaves_room(words, j, k - 1);
    }
}

/// The block holds the anonymous one, that holds the lines, and the rest is
/// what breaking left.
spec fn holds_lines(boxes: Seq<BoxView>, after: Seq<BoxView>, lines: Seq<BoxId>) -> bool {
    &&& boxes.len() == after.len()
    &&& boxes[1].children == seq![BoxId(2)]
    &&& boxes[2].children == lines
    &&& forall|i: int| 3 <= i < boxes.len() ==> #[trigger] boxes[i] == after[i]
}

impl<'a> Ctx<'a> {
    /// A document of one bare block that holds one text, outside `pre`.
    pub open spec fn is_one_text(&self, block: NodeId, text: NodeId) -> bool {
        &&& self.dom.kids(self.dom.root) == seq![block]
        &&& self.dom.kids(block) == seq![text]
        &&& self.dom.is_element(block)
        &&& ordinary_tag(self.dom.tag_of(block))
        &&& bare_block(self.style(block))
        &&& self.dom.is_text(text)
        &&& self.dom.kids(text).len() == 0
        &&& !self.inside_pre(block)
    }

    proof fn one_text_is_known(&self, block: NodeId, text: NodeId)
        requires
            self.wf(),
            self.is_one_text(block, text),
            fits_unwrapped(self.dom.text_of(text), i32::MAX as int - 1),
        ensures
            self.dom.has(block),
            self.dom.has(text),
            !self.inside_pre(text),
            self.dom.rank_of(text) < self.dom.rank_of(block),
            self.sizes(block) == self.sizes(text),
    {
        let root = self.dom.root;
        assert(self.dom.nodes@[root.0 as int].children@[0] == self.dom.kids(root)[0]);
        assert(self.dom.nodes@[block.0 as int].children@[0] == self.dom.kids(block)[0]);
        assert(self.dom.parent_of(text) == Some(block));
        let run = Run::new(false);
        let zero = Sizes::both(0);
        let sizes = text_pieces(self.dom.text_of(text), run).finish();
        assert(self.block_sizes(block, 1, zero, text_pieces(self.dom.text_of(text), run))
            == zero.max_with(sizes));
        assert(self.children_sizes(block) == zero.max_with(sizes));
        let words = words_of(self.dom.text_of(text), Spaces::Html);
        a_text_measures_its_words(self.dom.text_of(text));
        unwrapped_grows(words, 0, words.len() as int);
        assert(sizes.max >= 0);
        assert(sizes.min >= 0);
        assert(zero.max_with(sizes) == sizes);
    }

    /// A document of one bare block, outside `pre`, whose content is one run of
    /// inline text.
    pub open spec fn is_one_run(&self, block: NodeId) -> bool {
        &&& self.dom.kids(self.dom.root) == seq![block]
        &&& self.dom.is_element(block)
        &&& ordinary_tag(self.dom.tag_of(block))
        &&& bare_block(self.style(block))
        &&& self.holds_one_run(block)
        &&& !self.inside_pre(block)
    }

    proof fn one_text_is_one_run(&self, block: NodeId, text: NodeId)
        requires
            self.wf(),
            self.is_one_text(block, text),
        ensures
            self.is_one_run(block),
            forall|width: i32|
                #[trigger] self.run_of(block, width) == seq![
                    InlineItem::Text { node: text, style: term_style(&self.style(text)) },
                ],
    {
        let root = self.dom.root;
        assert(self.dom.nodes@[root.0 as int].children@[0] == self.dom.kids(root)[0]);
        assert(self.dom.nodes@[block.0 as int].children@[0] == self.dom.kids(block)[0]);
        assert(self.holds_plain_inlines(text, 0));
        assert(self.holds_plain_inlines(block, 1));
        assert(self.holds_plain_inlines(block, 0));
        assert forall|width: i32| #[trigger] self.run_of(block, width) == seq![
            InlineItem::Text { node: text, style: term_style(&self.style(text)) },
        ] by {
            assert(self.dom.kids(block)[0] == text);
            assert(self.dom.has(text));
            assert(self.inline_items(text, width) == seq![
                InlineItem::Text { node: text, style: term_style(&self.style(text)) },
            ]);
            assert(self.kid_items(block, width, 1) =~= Seq::<InlineItem>::empty());
            assert(self.kid_items(block, width, 0) == self.inline_items(text, width)
                + self.kid_items(block, width, 1));
            assert(self.run_of(block, width) =~= seq![
                InlineItem::Text { node: text, style: term_style(&self.style(text)) },
            ]);
        }
    }

    proof fn plain_inlines_hold_nothing_loose(&self, id: NodeId, k: int)
        requires
            self.wf(),
            self.dom.has(id),
            0 <= k,
            self.holds_plain_inlines(id, k),
        ensures
            self.loose_absolutes(id, k) == Seq::<NodeId>::empty(),
        decreases self.dom.rank_of(id), self.dom.kids(id).len() - k,
    {
        if k < self.dom.kids(id).len() {
            let c = self.dom.kids(id)[k];
            assert(self.dom.nodes@[id.0 as int].children@[k] == c);
            self.plain_inlines_hold_nothing_loose(c, 0);
            self.plain_inlines_hold_nothing_loose(id, k + 1);
            assert(self.loose_absolutes(id, k) =~= Seq::<NodeId>::empty());
        }
    }

    /// Inline children only add to the run.
    proof fn a_run_is_collected(
        &self,
        rec: Recipe,
        cv: Canvas,
        flow: FlowView,
        env: FlowEnv,
        id: NodeId,
        k: int,
    )
        requires
            self.wf(),
            self.dom.has(id),
            self.holds_one_run(id),
            self.holds_plain_inlines(id, k),
            0 <= k,
            !flow.marker,
        ensures
            self.flow_children(rec, cv, flow, env, self.dom.kids(id), k) == (
                cv,
                (FlowView { run: flow.run + self.kid_items(id, env.width, k), ..flow }),
            ),
        decreases self.dom.kids(id).len() - k,
    {
        let kids = self.dom.kids(id);
        let more = self.kid_items(id, env.width, k);
        if k < kids.len() {
            reveal(Ctx::flow_child);
            let c = kids[k];
            assert(self.dom.nodes@[id.0 as int].children@[k] == c);
            assert(!(self.mode_of(self.dom.kids(id)[k]) is Block));
            assert(!self.leaves_flow(c));
            let here = self.inline_items(c, env.width);
            let rest = self.kid_items(id, env.width, k + 1);
            let next = FlowView { run: flow.run + here, ..flow };
            self.plain_inlines_hold_nothing_loose(c, 0);
            assert(flow.absolutes + Seq::<NodeId>::empty() =~= flow.absolutes);
            if self.mode_of(c) is Skip {
                assert(flow.run + here =~= flow.run);
            }
            assert(self.flow_child(rec, cv, flow, env, c) == (cv, next));
            self.a_run_is_collected(rec, cv, next, env, id, k + 1);
            assert((flow.run + here) + rest =~= flow.run + more);
        } else {
            assert(flow.run + more =~= flow.run);
        }
    }

    /// The run of such a document broken into lines, on a page with its block
    /// and the anonymous one around the lines.
    spec fn one_run_broken(
        &self,
        rec: Recipe,
        block: NodeId,
        width: i32,
    ) -> (Canvas, Seq<BoxId>) {
        let c = self.style(block);
        let empty = Dimensions::bare(page_rect(width, 0));
        let with = self.blank_page(width).with_box(self.bare_box(block, c, empty));
        let inner = with.with_box(
            plain_box(BoxKind::AnonymousBlock, None, empty, ComputedStyle::initial()),
        );
        let items = self.run_of(block, width);
        self.inline_laid(rec, inner, items, 0, 0, width, c.text_align)
    }

    proof fn one_run_flows(&self, rec: Recipe, block: NodeId, width: i32)
        requires
            self.wf(),
            self.is_one_run(block),
            self.dom.has(block),
            width >= 1,
            self.run_of(block, width).len() > 0,
            text_items(self.run_of(block, width)),
        ensures
            ({
                let c = self.style(block);
                let (after, lines) = self.one_run_broken(rec, block, width);
                let rows = fit(lines.len() as int);
                let empty = Dimensions::bare(page_rect(width, 0));
                let with = self.blank_page(width).with_box(self.bare_box(block, c, empty));
                let r = self.any_contents(
                    rec,
                    with,
                    block,
                    c,
                    BoxId(1),
                    heights_of(empty, &c, None),
                    false,
                );
                &&& r.0.boxes.len() == after.boxes.len()
                &&& r.0.boxes.len() >= 3
                &&& after.boxes.len() <= usize::MAX ==> {
                    &&& r.1 == rows
                    &&& r.0.boxes[0] == self.blank_page(width).boxes[0]
                    &&& r.0.boxes[1].dimensions == empty
                    &&& holds_lines(r.0.boxes, after.boxes, lines)
                    &&& forall|i: int|
                        2 <= i < r.0.boxes.len() ==> bottom_of(#[trigger] r.0.boxes[i]) <= rows
                }
            }),
    {
        reveal(Ctx::any_contents);
        reveal(Ctx::contents);
        reveal(Ctx::block_contents);
        reveal(Ctx::flow_flushed);
        reveal(Ctx::anonymous);
        let c = self.style(block);
        let align = c.text_align;
        let empty = Dimensions::bare(page_rect(width, 0));
        let with = self.blank_page(width).with_box(self.bare_box(block, c, empty));
        let inner = with.with_box(
            plain_box(BoxKind::AnonymousBlock, None, empty, ComputedStyle::initial()),
        );
        let items = self.run_of(block, width);
        let (after, lines) = self.inline_laid(rec, inner, items, 0, 0, width, align);
        let rows = fit(lines.len() as int);
        self.breaking_text_adds(rec, inner, items, 0, 0, width, align);
        assert(with.boxes.len() == 2);
        assert(inner.boxes.len() == 3);
        assert(inner.boxes[0] == self.blank_page(width).boxes[0]);
        assert(inner.boxes[1].dimensions == empty);
        let env = FlowEnv { x: 0, width, height: None, align, pre: false };
        let start = FlowView {
            y: 0,
            prev: 0,
            children: Seq::empty(),
            run: Seq::empty(),
            marker: false,
            absolutes: Seq::empty(),
        };
        let kids = self.dom.kids(block);
        self.a_run_is_collected(rec, with, start, env, block, 0);
        let flow1 = FlowView { run: start.run + items, ..start };
        assert(flow1.run =~= items);
        let laid = self.anonymous(rec, with, 0, width, 0, 0, items, align, false);
        let (cv2, flow2) = self.flow_flushed(rec, with, flow1, env);
        let r = self.block_contents(
            rec,
            with,
            block,
            c,
            BoxId(1),
            heights_of(empty, &c, None),
            false,
        );
        if after.boxes.len() <= usize::MAX {
            self.a_text_takes_a_row_for_each_line(rec, inner, items, 0, width, align);
            assert(after.boxes[0] == inner.boxes[0]);
            assert(after.boxes[1] == inner.boxes[1]);
            assert(after.boxes[2] == inner.boxes[2]);
            assert(laid.cv.dims(BoxId(2)).content.height == rows);
            assert(flow2.y == rows);
            assert(flow2.children =~= seq![BoxId(2)]);
            assert forall|i: int| 3 <= i < r.0.boxes.len() implies #[trigger] r.0.boxes[i]
                == after.boxes[i] by {}
            assert forall|i: int| 2 <= i < r.0.boxes.len() implies bottom_of(
                #[trigger] r.0.boxes[i],
            ) <= rows by {
                if i > 2 {
                    assert(bottom_of(after.boxes[i]) <= rows);
                    assert(r.0.boxes[i].dimensions == after.boxes[i].dimensions);
                }
            }
        }
    }

    /// The block's box, filled.
    spec fn one_run_built(&self, viewport: i32, block: NodeId, width: i32) -> Built {
        let args = BoxArgs {
            cv: self.blank_page(width),
            id: block,
            computed: self.style(block),
            dims: Dimensions::bare(page_rect(width, 0)),
            ch: None,
            pre: false,
        };
        self.box_at(viewport, self.dom.nodes@.len(), args)
    }

    proof fn one_run_is_boxed(&self, viewport: i32, block: NodeId, width: i32)
        requires
            self.wf(),
            self.is_one_run(block),
            self.dom.has(block),
            width >= 1,
            self.run_of(block, width).len() > 0,
            text_items(self.run_of(block, width)),
        ensures
            ({
                let rec = self.builder(viewport, (self.dom.nodes@.len() - 1) as nat);
                let (after, lines) = self.one_run_broken(rec, block, width);
                let rows = fit(lines.len() as int);
                let built = self.one_run_built(viewport, block, width);
                &&& built.id == BoxId(1)
                &&& built.cv.boxes.len() == after.boxes.len()
                &&& built.cv.boxes.len() >= 3
                &&& after.boxes.len() <= usize::MAX ==> {
                    &&& built.cv.boxes[1].dimensions == Dimensions::bare(page_rect(width, rows))
                    &&& built.cv.boxes[0] == self.blank_page(width).boxes[0]
                    &&& holds_lines(built.cv.boxes, after.boxes, lines)
                    &&& forall|i: int|
                        2 <= i < built.cv.boxes.len() ==> bottom_of(#[trigger] built.cv.boxes[i])
                            <= rows
                }
            }),
    {
        reveal(Ctx::box_with);
        let rec = self.builder(viewport, (self.dom.nodes@.len() - 1) as nat);
        self.one_run_flows(rec, block, width);
        let c = self.style(block);
        let empty = Dimensions::bare(page_rect(width, 0));
        let cv0 = self.blank_page(width);
        let with = cv0.with_box(self.bare_box(block, c, empty));
        let heights = heights_of(empty, &c, None);
        let (full, content) = self.any_contents(rec, with, block, c, BoxId(1), heights, false);
        let built = self.one_run_built(viewport, block, width);
        assert(cv0.next_id() == BoxId(1));
        assert(built.cv == full.with_height(
            BoxId(1),
            used_height(axis_v(empty, &c), heights, content),
        ));
        let (after, lines) = self.one_run_broken(rec, block, width);
        let rows = fit(lines.len() as int);
        if after.boxes.len() <= usize::MAX {
            assert forall|i: int| 2 <= i < built.cv.boxes.len() implies bottom_of(
                #[trigger] built.cv.boxes[i],
            ) <= rows by {
                assert(built.cv.boxes[i] == full.boxes[i]);
            }
        }
    }

    proof fn one_run_is_stacked(&self, viewport: i32, block: NodeId, width: i32)
        requires
            self.wf(),
            self.is_one_run(block),
            self.dom.has(block),
            self.one_run_built(viewport, block, width).id == BoxId(1),
            self.one_run_built(viewport, block, width).cv.boxes.len() >= 3,
            width >= 1,
        ensures
            ({
                let built = self.one_run_built(viewport, block, width).cv;
                let next = built.with_children(BoxId(0), built.boxes[0].children.push(BoxId(1)));
                self.stacked_on(self.builder(viewport, self.dom.nodes@.len()), width) == (
                    next,
                    minus(next.dims(BoxId(1)).margin_box().bottom(), 0),
                )
            }),
    {
        reveal(Ctx::lay_node);
        reveal(Ctx::element_laid);
        reveal(Ctx::block_laid);
        let rec = self.builder(viewport, self.dom.nodes@.len());
        let cv0 = self.blank_page(width);
        a_bare_block_fills_its_column(self.style(block), width);
        let built = self.one_run_built(viewport, block, width);
        let laid = self.lay_node(rec, cv0, block, 0, width, None, 0, 0, false);
        assert(laid.cv == built.cv);
        assert(laid.id == Some(BoxId(1)));
        let kids = self.dom.kids(self.dom.root);
        let next = laid.cv.with_children(BoxId(0), laid.cv.boxes[0].children.push(BoxId(1)));
        let y = minus(next.dims(BoxId(1)).margin_box().bottom(), 0);
        let prev = next.dims(BoxId(1)).margin.bottom;
        assert(self.page_children(rec, next, kids, 1, width, y, prev) == (next, y));
    }

    /// A page of one run is as tall as the run has lines.
    proof fn one_run_stacks(
        &self,
        tree: &LayoutTree,
        block: NodeId,
        width: u16,
        viewport: u16,
    )
        requires
            self.wf(),
            self.is_one_run(block),
            self.dom.has(block),
            tree@ == self.page(width, viewport),
            tree.of(self.dom),
            self.run_of(block, at_least_one(width)).len() > 0,
            text_items(self.run_of(block, at_least_one(width))),
        ensures
            tree.height == fit(
                self.one_run_broken(
                    self.builder(at_least_one(viewport), (self.dom.nodes@.len() - 1) as nat),
                    block,
                    at_least_one(width),
                ).1.len() as int,
            ),
    {
        reveal(Ctx::page);
        let w = at_least_one(width);
        let h = at_least_one(viewport);
        let rec = self.builder(h, (self.dom.nodes@.len() - 1) as nat);
        let (after, lines) = self.one_run_broken(rec, block, w);
        let rows = fit(lines.len() as int);
        self.one_run_is_boxed(h, block, w);
        self.one_run_is_stacked(h, block, w);
        let built = self.one_run_built(h, block, w).cv;
        let page = BoxId(0);
        let next = built.with_children(page, built.boxes[0].children.push(BoxId(1)));
        let y = minus(next.dims(BoxId(1)).margin_box().bottom(), 0);
        let drawn = self.page_drawn(next.boxes, w, self.page_height(next.boxes, y, w));
        self.sticking_all_keeps_the_shape(drawn, 0, w, h);
        assert(tree.boxes.len() == tree.list().len());
        assert(after.boxes.len() <= usize::MAX);
        let flat = self.page_drawn(next.boxes, w, 0);
        let walk = clipped_order(flat, flat.len(), page, Clip::none());
        crate::boxes::clipped_walks_stay_in_range(flat, flat.len(), page, Clip::none());
        assert forall|k: int| 0 <= k < flat.len() implies bottom_of(#[trigger] flat[k])
            <= rows by {
            if k >= 1 {
                assert(flat[k] == built.boxes[k]);
            }
        }
        lowest_at_most(flat, walk, 0, 0, rows);
    }

    /// Every row of a page of one run of words shows some of it.
    pub proof fn every_row_of_a_text_shows_a_word(
        &self,
        tree: &LayoutTree,
        block: NodeId,
        width: u16,
        viewport: u16,
    )
        requires
            self.wf(),
            self.is_one_run(block),
            self.dom.has(block),
            only_texts(self.run_of(block, at_least_one(width))),
            tree@ == self.page(width, viewport),
            tree.of(self.dom),
            rows_fit(tree@),
            self.run_of(block, at_least_one(width)).len() > 0,
        ensures
            ({
                let lines = lines_of_tree(tree@);
                forall|y: int| 0 <= y < lines.len() ==> !line_is_blank(#[trigger] lines[y])
            }),
    {
        reveal(Ctx::page);
        let w = at_least_one(width);
        let h = at_least_one(viewport);
        let items = self.run_of(block, w);
        assert(text_items(items)) by {
            assert forall|i: int| 0 <= i < items.len() implies !((#[trigger] items[i]) is Image)
                && !(items[i] is Atomic) by {
                assert(items[i] is Text);
            }
        }
        let rec = self.builder(h, (self.dom.nodes@.len() - 1) as nat);
        let (after, lines) = self.one_run_broken(rec, block, w);
        self.one_run_stacks(tree, block, width, viewport);
        self.one_run_is_boxed(h, block, w);
        self.one_run_is_stacked(h, block, w);
        let built = self.one_run_built(h, block, w).cv;
        let page = BoxId(0);
        let next = built.with_children(page, built.boxes[0].children.push(BoxId(1)));
        let y0 = minus(next.dims(BoxId(1)).margin_box().bottom(), 0);
        let drawn = self.page_drawn(next.boxes, w, self.page_height(next.boxes, y0, w));
        self.sticking_all_keeps_the_shape(drawn, 0, w, h);
        let full = tree.list();
        assert(tree.boxes.len() == full.len());
        assert(after.boxes.len() <= usize::MAX);
        let c = self.style(block);
        let empty = Dimensions::bare(page_rect(w, 0));
        let with = self.blank_page(w).with_box(self.bare_box(block, c, empty));
        let inner = with.with_box(
            plain_box(BoxKind::AnonymousBlock, None, empty, ComputedStyle::initial()),
        );
        assert(inner.boxes.len() == 3);
        self.every_line_of_a_text_shows_a_word(rec, inner, items, 0, w, c.text_align);
        self.breaking_text_adds(rec, inner, items, 0, 0, w, c.text_align);
        assert(full[0] == (BoxView { sticky: full[0].sticky, ..drawn[0] }));
        assert(full[1] == (BoxView { sticky: full[1].sticky, ..drawn[1] }));
        assert(full[2] == (BoxView { sticky: full[2].sticky, ..drawn[2] }));
        assert(full[0].children =~= seq![BoxId(1)]);
        let shown = lines_of_tree(tree@);
        assert forall|y: int| 0 <= y < shown.len() implies !line_is_blank(#[trigger] shown[y]) by {
            assert(y < lines.len());
            let line = lines[y];
            assert(line_shows(after.boxes, line, fit(y)));
            let l = line.0 as int;
            assert(full[l] == (BoxView { sticky: full[l].sticky, ..drawn[l] }));
            let b = after.boxes[l].children[0];
            let t = b.0 as int;
            assert(full[t] == (BoxView { sticky: full[t].sticky, ..drawn[t] }));
            four_boxes_down(full, full.len(), page, BoxId(1), BoxId(2), line, y);
            a_row_that_shows_is_not_blank(tree@, b, y as i32);
        }
    }

    /// Max-content is the least width at which a page of one run does not wrap:
    /// in every column that holds its widest piece, the page has only the rows
    /// that its forced breaks ask for if and only if the column is at least that
    /// wide, and more otherwise.
    pub proof fn a_page_wraps_just_below_its_max_content_width(
        &self,
        tree: &LayoutTree,
        block: NodeId,
        width: u16,
        viewport: u16,
    )
        requires
            self.wf(),
            self.is_one_run(block),
            self.dom.has(block),
            self.run_is_clean(block, at_least_one(width)),
            self.items_fit_a_number(self.run_of(block, at_least_one(width))),
            0 < self.lines_unwrapped(self.run_of(block, at_least_one(width))) < i32::MAX,
            self.sizes(block).min <= at_least_one(width),
            tree@ == self.page(width, viewport),
            tree.of(self.dom),
        ensures
            ({
                let rows = self.lines_unwrapped(self.run_of(block, at_least_one(width)));
                &&& self.sizes(block).max <= at_least_one(width) ==> tree.height == rows
                &&& self.sizes(block).max > at_least_one(width) ==> tree.height > rows
            }),
    {
        let w = at_least_one(width);
        let rec = self.builder(at_least_one(viewport), (self.dom.nodes@.len() - 1) as nat);
        let c = self.style(block);
        let empty = Dimensions::bare(page_rect(w, 0));
        let with = self.blank_page(w).with_box(self.bare_box(block, c, empty));
        let inner = with.with_box(
            plain_box(BoxKind::AnonymousBlock, None, empty, ComputedStyle::initial()),
        );
        let items = self.run_of(block, w);
        self.the_sizer_measures_what_the_breaker_is_handed(block, w);
        assert(self.sizes(block) == self.element_sizes(block));
        assert(self.content_sizes(block) == self.children_sizes(block));
        self.a_run_wraps_just_below_its_unwrapped_width(
            rec,
            inner,
            items,
            0,
            0,
            w,
            c.text_align,
        );
        if items.len() == 0 {
            assert(frags_from(self.dom, items, 0, None).len() == 0);
        }
        self.one_run_stacks(tree, block, width, viewport);
    }

    proof fn one_text_rows(
        &self,
        tree: &LayoutTree,
        block: NodeId,
        text: NodeId,
        width: u16,
        viewport: u16,
    )
        requires
            self.wf(),
            self.is_one_text(block, text),
            words_of(self.dom.text_of(text), Spaces::Html).len() > 0,
            fits_unwrapped(self.dom.text_of(text), i32::MAX as int - 1),
            self.sizes(block).min <= at_least_one(width),
            tree@ == self.page(width, viewport),
            tree.of(self.dom),
        ensures
            tree.height == 1 <==> self.sizes(block).max <= at_least_one(width),
            tree.height >= 1,
    {
        self.one_text_is_known(block, text);
        self.one_text_is_one_run(block, text);
        let w = at_least_one(width);
        let rec = self.builder(at_least_one(viewport), (self.dom.nodes@.len() - 1) as nat);
        let c = self.style(block);
        let empty = Dimensions::bare(page_rect(w, 0));
        let with = self.blank_page(w).with_box(self.bare_box(block, c, empty));
        let inner = with.with_box(
            plain_box(BoxKind::AnonymousBlock, None, empty, ComputedStyle::initial()),
        );
        let style = term_style(&self.style(text));
        assert(self.run_of(block, w) == seq![InlineItem::Text { node: text, style }]);
        self.a_text_wraps_just_below_its_max_content_width(
            rec,
            inner,
            text,
            style,
            0,
            0,
            w,
            c.text_align,
        );
        self.one_run_stacks(tree, block, width, viewport);
    }

    /// A page of one text of two words or more is one row tall in a column of
    /// its max-content width, and takes at least two in one a cell narrower. No
    /// row of it is blank.
    pub proof fn one_cell_less_than_max_content_wraps(
        &self,
        wide: &LayoutTree,
        narrow: &LayoutTree,
        block: NodeId,
        text: NodeId,
        width: u16,
        viewport: u16,
    )
        requires
            self.wf(),
            self.is_one_text(block, text),
            words_of(self.dom.text_of(text), Spaces::Html).len() > 1,
            fits_unwrapped(self.dom.text_of(text), u16::MAX as int),
            width == self.sizes(block).max,
            width > 1,
            wide@ == self.page(width, viewport),
            wide.of(self.dom),
            narrow@ == self.page((width - 1) as u16, viewport),
            narrow.of(self.dom),
            rows_fit(wide@),
            rows_fit(narrow@),
        ensures
            wide.height == 1,
            narrow.height >= 2,
            rows_shown(lines_of_tree(wide@), wide.height as int) == 1,
            rows_shown(lines_of_tree(narrow@), narrow.height as int) >= 2,
    {
        self.one_text_is_known(block, text);
        self.one_text_is_one_run(block, text);
        let words = words_of(self.dom.text_of(text), Spaces::Html);
        let sizes = self.sizes(block);
        a_text_measures_its_words(self.dom.text_of(text));
        if sizes.min > 0 {
            let j = choose|j: int| 0 <= j < words.len() && cells_of(#[trigger] words[j])
                == sizes.min;
            a_word_leaves_room(words, j, words.len() as int);
        }
        self.one_text_rows(wide, block, text, width, viewport);
        self.one_text_rows(narrow, block, text, (width - 1) as u16, viewport);
        self.every_row_of_a_text_shows_a_word(wide, block, width, viewport);
        self.every_row_of_a_text_shows_a_word(narrow, block, (width - 1) as u16, viewport);
        all_rows_shown(lines_of_tree(wide@), wide.height as int);
        all_rows_shown(lines_of_tree(narrow@), narrow.height as int);
    }
}

proof fn lowest_is_some_row(
    boxes: Seq<BoxView>,
    walk: Seq<(BoxId, Clip)>,
    i: int,
    so_far: i32,
)
    requires
        0 <= i <= walk.len(),
    ensures
        ({
            let r = lowest_from(boxes, walk, i, so_far);
            r == so_far || exists|k: int|
                i <= k < walk.len() && r == (#[trigger] walk[k]).1.apply(
                    boxes[walk[k].0.0 as int].dimensions.border_box(),
                ).bottom()
        }),
    decreases walk.len() - i,
{
    if i < walk.len() {
        let (id, clip) = walk[i];
        let visible = clip.apply(boxes[id.0 as int].dimensions.border_box());
        let next = if visible.height > 0 {
            larger(so_far, visible.bottom())
        } else {
            so_far
        };
        lowest_is_some_row(boxes, walk, i + 1, next);
        let r = lowest_from(boxes, walk, i, so_far);
        if r == next {
            if next != so_far {
                assert(r == walk[i].1.apply(boxes[walk[i].0.0 as int].dimensions.border_box()).bottom());
            }
        } else {
            let k = choose|k: int|
                i + 1 <= k < walk.len() && r == (#[trigger] walk[k]).1.apply(
                    boxes[walk[k].0.0 as int].dimensions.border_box(),
                ).bottom();
            assert(r == walk[k].1.apply(boxes[walk[k].0.0 as int].dimensions.border_box()).bottom());
        }
    }
}

impl<'a> Ctx<'a> {
    /// A page is no taller than it must be: it ends where what stacks on it does, or
    /// where something on it that can be seen does, or it has no rows at all.
    pub proof fn a_page_is_no_taller_than_it_must_be(
        &self,
        boxes: Seq<BoxView>,
        y: i32,
        width: i32,
    )
        ensures
            ({
                let h = self.page_height(boxes, y, width);
                let drawn = self.page_drawn(boxes, width, 0);
                let walk = clipped_order(drawn, drawn.len(), BoxId(0), Clip::none());
                &&& 0 <= h && y <= h
                &&& h == 0 || h == y || exists|k: int|
                    0 <= k < walk.len() && h == (#[trigger] walk[k]).1.apply(
                        drawn[walk[k].0.0 as int].dimensions.border_box(),
                    ).bottom()
            }),
    {
        let drawn = self.page_drawn(boxes, width, 0);
        let walk = clipped_order(drawn, drawn.len(), BoxId(0), Clip::none());
        lowest_is_some_row(drawn, walk, 0, 0);
    }
}

} // verus!
