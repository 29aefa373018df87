//! Inline formatting contexts: text, images and boxes broken into lines.

use vstd::prelude::*;

use crate::boxes::{known, BoxId};
use crate::boxmodel::{is_out_of_flow, term_style};
use crate::cells::plus;
use crate::context::Ctx;

use crate::dom::{Dom, NodeData, NodeId};

use crate::field::{generates_no_box, kind_of, Kind};
use crate::image::image_size;
use crate::intrinsic::list_marker;
use crate::style::{ComputedStyle, Display};
use crate::term::Style;
use crate::text::{
    cells_of, chars_of, is_html_space, owned, repeat, repeated, same, str_cells, words, words_of,
    Spaces,
};
use crate::views::views;

verus! {

broadcast use crate::views::group_views;

/// One thing an inline formatting context is made of.
#[derive(Clone, Copy, PartialEq, Eq, Debug)]
pub enum InlineItem {
    /// The text of a text node.
    Text { node: NodeId, style: Style },
    /// A list item's bullet.
    Marker { style: Style },
    /// Fixed-width gap from an inline's horizontal edges.
    Spacer { cells: i32 },
    /// Forced line break.
    Break,
    /// A replaced image, on rows of its own.
    Image { node: NodeId, cells_w: i32, cells_h: i32, firm: bool },
    /// A box that joins the line whole.
    Atomic { node: NodeId },
}

/// Every item's node is one of the document.
pub open spec fn items_known(dom: &Dom, items: Seq<InlineItem>) -> bool {
    forall|i: int| 0 <= i < items.len() ==> item_known(dom, #[trigger] items[i])
}

pub open spec fn item_known(dom: &Dom, item: InlineItem) -> bool {
    match item {
        InlineItem::Text { node, .. } => dom.has(node) && dom.is_text(node),
        InlineItem::Image { node, .. } => dom.has(node),
        InlineItem::Atomic { node } => dom.has(node),
        _ => true,
    }
}

/// What a piece is.
#[derive(Clone, Copy, PartialEq, Eq, Debug, Structural)]
pub enum PieceKind {
    /// A word, a marker or a spacer.
    Word,
    /// Collapsible whitespace: dropped at either end of a line.
    Space,
    /// A forced break.
    Break,
    /// A box already built and sized, which the line places whole.
    Atomic(BoxId),
}

/// One unit the line breaker places.
#[derive(Debug)]
pub struct Piece {
    pub text: String,
    /// Cells on the line; for a box, its whole margin box.
    pub cells: i32,
    pub style: Style,
    pub node: Option<NodeId>,
    pub kind: PieceKind,
}

/// The value of a [`Piece`].
pub struct PieceView {
    pub text: Seq<char>,
    pub cells: i32,
    pub style: Style,
    pub node: Option<NodeId>,
    pub kind: PieceKind,
}

impl View for Piece {
    type V = PieceView;

    open spec fn view(&self) -> PieceView {
        PieceView {
            text: self.text@,
            cells: self.cells,
            style: self.style,
            node: self.node,
            kind: self.kind,
        }
    }
}

pub open spec fn word_piece(text: Seq<char>, cells: i32, style: Style, node: Option<NodeId>) -> PieceView {
    PieceView { text, cells, style, node, kind: PieceKind::Word }
}

pub open spec fn space_piece(style: Style) -> PieceView {
    PieceView { text: " "@, cells: 1, style, node: None, kind: PieceKind::Space }
}

pub open spec fn break_piece() -> PieceView {
    PieceView {
        text: Seq::empty(),
        cells: 0,
        style: Style::plain(),
        node: None,
        kind: PieceKind::Break,
    }
}

pub open spec fn atomic_piece(id: BoxId, cells: i32) -> PieceView {
    PieceView {
        text: Seq::empty(),
        cells,
        style: Style::plain(),
        node: None,
        kind: PieceKind::Atomic(id),
    }
}

impl Piece {
    pub fn word(text: String, cells: i32, style: Style, node: Option<NodeId>) -> (r: Piece)
        ensures
            r@ == word_piece(text@, cells, style, node),
    {
        Piece { text, cells, style, node, kind: PieceKind::Word }
    }

    pub fn space(style: Style) -> (r: Piece)
        ensures
            r@ == space_piece(style),
    {
        Piece { text: owned(" "), cells: 1, style, node: None, kind: PieceKind::Space }
    }

    pub fn line_break() -> (r: Piece)
        ensures
            r@ == break_piece(),
    {
        Piece {
            text: String::new(),
            cells: 0,
            style: Style::plain(),
            node: None,
            kind: PieceKind::Break,
        }
    }

    pub fn atomic(id: BoxId, cells: i32) -> (r: Piece)
        ensures
            r@ == atomic_piece(id, cells),
    {
        Piece {
            text: String::new(),
            cells,
            style: Style::plain(),
            node: None,
            kind: PieceKind::Atomic(id),
        }
    }

    pub fn is_space(&self) -> (r: bool)
        ensures
            r == self@.kind is Space,
    {
        matches!(self.kind, PieceKind::Space)
    }

    pub fn copied(&self) -> (r: Piece)
        ensures
            r@ == self@,
    {
        Piece {
            text: self.text.clone(),
            cells: self.cells,
            style: self.style,
            node: self.node,
            kind: self.kind,
        }
    }
}

/// What the line breaker is handed, in order.
#[derive(Debug)]
pub enum InlineFrag {
    Piece(Piece),
    Image { node: NodeId, cells_w: i32, cells_h: i32, firm: bool },
    /// A box, still unsized: how wide it is depends on what is left of the line
    /// when the breaker reaches it.
    Atomic { node: NodeId },
}

/// The value of an [`InlineFrag`].
pub enum FragView {
    Piece(PieceView),
    Image { node: NodeId, cells_w: i32, cells_h: i32, firm: bool },
    Atomic { node: NodeId },
}

impl View for InlineFrag {
    type V = FragView;

    open spec fn view(&self) -> FragView {
        match self {
            InlineFrag::Piece(p) => FragView::Piece(p@),
            InlineFrag::Image { node, cells_w, cells_h, firm } => FragView::Image {
                node: *node,
                cells_w: *cells_w,
                cells_h: *cells_h,
                firm: *firm,
            },
            InlineFrag::Atomic { node } => FragView::Atomic { node: *node },
        }
    }
}

/// Fragments come from items: their nodes are known, and none is a box yet.
pub open spec fn frags_known(dom: &Dom, frags: Seq<FragView>) -> bool {
    forall|i: int| 0 <= i < frags.len() ==> frag_known(dom, #[trigger] frags[i])
}

pub open spec fn frag_known(dom: &Dom, frag: FragView) -> bool {
    match frag {
        FragView::Piece(p) => !(p.kind is Atomic) && p.cells >= 0 && known(dom, p.node),
        FragView::Image { node, .. } => dom.has(node),
        FragView::Atomic { node } => dom.has(node),
    }
}

impl<'a> Ctx<'a> {
    /// Flatten an inline subtree into items.
    pub open spec fn inline_items(&self, id: NodeId, width: i32) -> Seq<InlineItem>
        decreases self.dom.rank_of(id), 1nat,
        when self.wf() && self.dom.has(id)
    {
        let c = self.style(id);
        let tag = self.dom.tag_of(id);
        if self.dom.is_text(id) {
            seq![InlineItem::Text { node: id, style: term_style(&c) }]
        } else if !self.dom.is_element(id) || self.hides(id) || is_out_of_flow(c.position) {
            Seq::empty()
        } else if tag == "br"@ {
            seq![InlineItem::Break]
        } else if tag == "img"@ {
            match self.images.of(id) {
                Some(img) => seq![
                    InlineItem::Image {
                        node: id,
                        cells_w: image_size(img, width).0,
                        cells_h: image_size(img, width).1,
                        firm: img.firm,
                    },
                ],
                None => Seq::empty(),
            }
        } else if kind_of(self.dom, id, tag) == Some(Kind::Absent) {
            Seq::empty()
        } else if self.goes_whole(id) {
            seq![InlineItem::Atomic { node: id }]
        } else {
            let lead = plus(
                plus(c.margin.left.to_cells_h(width), c.padding.left.to_cells_h(width)),
                c.border.left.to_cells_h(width),
            );
            let trail = plus(
                plus(c.margin.right.to_cells_h(width), c.padding.right.to_cells_h(width)),
                c.border.right.to_cells_h(width),
            );
            spacer(lead) + self.kid_items(id, width, 0) + spacer(trail)
        }
    }

    /// The items of the children from the `k`th on.
    pub open spec fn kid_items(&self, id: NodeId, width: i32, k: int) -> Seq<InlineItem>
        decreases self.dom.rank_of(id), 0nat, self.dom.kids(id).len() - k,
        when self.wf() && self.dom.has(id) && k >= 0
    {
        if k >= self.dom.kids(id).len() {
            Seq::empty()
        } else {
            self.inline_items(self.dom.kids(id)[k], width) + self.kid_items(id, width, k + 1)
        }
    }

    /// Append the items of an inline subtree.
    pub fn push_inline(&self, id: NodeId, width: i32, out: &mut Vec<InlineItem>)
        requires
            self.wf(),
            self.dom.has(id),
            items_known(self.dom, old(out)@),
        ensures
            final(out)@ == old(out)@ + self.inline_items(id, width),
            items_known(self.dom, final(out)@),
        decreases self.dom.rank_of(id),
    {
        let ghost start = out@;
        let dom: &Dom = self.dom;
        match &dom.node(id).data {
            NodeData::Text(_) => {
                let c: ComputedStyle = self.styles.get(id);
                out.push(InlineItem::Text { node: id, style: term_style(&c) });
                proof {
                    assert(out@ =~= start + self.inline_items(id, width));
                }
            },
            NodeData::Element { tag, .. } => {
                let tag: &str = tag.as_str();
                let c: ComputedStyle = self.styles.get(id);
                if self.is_hidden(id) || is_out_of_flow(c.position) {
                    proof {
                        assert(out@ =~= start + self.inline_items(id, width));
                    }
                    return;
                }
                if same(tag, "br") {
                    out.push(InlineItem::Break);
                    proof {
                        assert(out@ =~= start + self.inline_items(id, width));
                    }
                    return;
                }
                if same(tag, "img") {
                    match self.images.get(id) {
                        Some(img) => {
                            let (cells_w, cells_h, firm): (i32, i32, bool) = self.images.size_for(
                                img,
                                width,
                            );
                            out.push(InlineItem::Image { node: id, cells_w, cells_h, firm });
                        },
                        None => {},
                    }
                    proof {
                        assert(out@ =~= start + self.inline_items(id, width));
                    }
                    return;
                }
                if generates_no_box(dom, id, tag) {
                    proof {
                        assert(out@ =~= start + self.inline_items(id, width));
                    }
                    return;
                }
                if self.is_whole(id) {
                    out.push(InlineItem::Atomic { node: id });
                    proof {
                        assert(out@ =~= start + self.inline_items(id, width));
                    }
                    return;
                }
                let lead: i32 = plus(
                    plus(c.margin.left.to_cells_h(width), c.padding.left.to_cells_h(width)),
                    c.border.left.to_cells_h(width),
                );
                let trail: i32 = plus(
                    plus(c.margin.right.to_cells_h(width), c.padding.right.to_cells_h(width)),
                    c.border.right.to_cells_h(width),
                );
                if lead > 0 {
                    out.push(InlineItem::Spacer { cells: lead });
                }
                let ghost led = out@;
                proof {
                    assert(led =~= start + spacer(lead));
                    assert(led + self.kid_items(id, width, 0) =~= led + self.kid_items(
                        id,
                        width,
                        0,
                    ));
                }
                let kids: &Vec<NodeId> = dom.children(id);
                let mut k: usize = 0;
                while k < kids.len()
                    invariant
                        self.wf(),
                        dom == self.dom,
                        dom.has(id),
                        kids@ == dom.kids(id),
                        k <= kids@.len(),
                        items_known(self.dom, out@),
                        out@ + self.kid_items(id, width, k as int) == led + self.kid_items(
                            id,
                            width,
                            0,
                        ),
                    decreases kids@.len() - k,
                {
                    let ghost before = out@;
                    proof {
                        assert(dom.nodes@[id.0 as int].children@[k as int] == kids@[k as int]);
                    }
                    self.push_inline(kids[k], width, out);
                    proof {
                        let here = self.inline_items(kids@[k as int], width);
                        let rest = self.kid_items(id, width, k + 1);
                        assert((before + here) + rest =~= before + (here + rest));
                    }
                    k += 1;
                }
                let ghost inner = out@;
                if trail > 0 {
                    out.push(InlineItem::Spacer { cells: trail });
                }
                proof {
                    assert(inner =~= led + self.kid_items(id, width, 0));
                    assert(out@ =~= inner + spacer(trail));
                    assert(out@ =~= start + self.inline_items(id, width));
                }
            },
            _ => {
                proof {
                    assert(out@ =~= start + self.inline_items(id, width));
                }
            },
        }
    }

    /// The items of one inline subtree.
    pub fn collect_inline(&self, id: NodeId, width: i32) -> (r: Vec<InlineItem>)
        requires
            self.wf(),
            self.dom.has(id),
        ensures
            r@ == self.inline_items(id, width),
            items_known(self.dom, r@),
    {
        let mut out: Vec<InlineItem> = Vec::new();
        self.push_inline(id, width, &mut out);
        proof {
            let all = self.inline_items(id, width);
            assert(Seq::<InlineItem>::empty() + all =~= all);
        }
        out
    }

    /// The out-of-flow elements under ordinary inline wrappers, among the
    /// children of `id` from the `k`th on.
    pub open spec fn loose_absolutes(&self, id: NodeId, k: int) -> Seq<NodeId>
        decreases self.dom.rank_of(id), self.dom.kids(id).len() - k,
        when self.wf() && self.dom.has(id) && k >= 0
    {
        if k >= self.dom.kids(id).len() {
            Seq::empty()
        } else {
            let c = self.dom.kids(id)[k];
            (if !self.dom.is_element(c) {
                Seq::empty()
            } else if is_out_of_flow(self.style(c).position) {
                seq![c]
            } else if self.style(c).display is Inline {
                self.loose_absolutes(c, 0)
            } else {
                Seq::empty()
            }) + self.loose_absolutes(id, k + 1)
        }
    }

    /// Append what [`loose_absolutes`](Self::loose_absolutes) finds.
    pub fn push_loose_absolutes(&self, id: NodeId, out: &mut Vec<NodeId>)
        requires
            self.wf(),
            self.dom.has(id),
            forall|i: int| 0 <= i < old(out)@.len() ==> self.dom.has(#[trigger] old(out)@[i]),
        ensures
            final(out)@ == old(out)@ + self.loose_absolutes(id, 0),
            forall|i: int| 0 <= i < final(out)@.len() ==> self.dom.has(#[trigger] final(out)@[i]),
        decreases self.dom.rank_of(id),
    {
        let ghost start = out@;
        let dom: &Dom = self.dom;
        let kids: &Vec<NodeId> = dom.children(id);
        let mut k: usize = 0;
        while k < kids.len()
            invariant
                self.wf(),
                dom == self.dom,
                dom.has(id),
                kids@ == dom.kids(id),
                k <= kids@.len(),
                forall|i: int| 0 <= i < out@.len() ==> self.dom.has(#[trigger] out@[i]),
                out@ + self.loose_absolutes(id, k as int) == start + self.loose_absolutes(id, 0),
            decreases kids@.len() - k,
        {
            let c: NodeId = kids[k];
            let ghost before = out@;
            proof {
                assert(dom.nodes@[id.0 as int].children@[k as int] == c);
            }
            let ghost mut here: Seq<NodeId> = Seq::empty();
            match &dom.node(c).data {
                NodeData::Element { .. } => {
                    let style: ComputedStyle = self.styles.get(c);
                    if is_out_of_flow(style.position) {
                        out.push(c);
                        proof {
                            here = seq![c];
                            assert(out@ =~= before + here);
                        }
                    } else if matches!(style.display, Display::Inline) {
                        self.push_loose_absolutes(c, out);
                        proof {
                            here = self.loose_absolutes(c, 0);
                        }
                    } else {
                        proof {
                            assert(before + here =~= before);
                        }
                    }
                },
                _ => {
                    proof {
                        assert(before + here =~= before);
                    }
                },
            }
            proof {
                let rest = self.loose_absolutes(id, k + 1);
                assert(out@ == before + here);
                assert((before + here) + rest =~= before + (here + rest));
            }
            k += 1;
        }
        proof {
            assert(out@ + Seq::<NodeId>::empty() =~= out@);
        }
    }
}

pub open spec fn spacer(cells: i32) -> Seq<InlineItem> {
    if cells > 0 {
        seq![InlineItem::Spacer { cells }]
    } else {
        Seq::empty()
    }
}

/// The words of a text from the `i`th on, each after the space it needs.
pub open spec fn word_frags(
    words: Seq<Seq<char>>,
    i: int,
    pending: Option<Style>,
    style: Style,
    node: NodeId,
) -> Seq<FragView>
    decreases words.len() - i,
{
    if i >= words.len() {
        Seq::empty()
    } else {
        (if i > 0 || pending is Some {
            seq![
                FragView::Piece(
                    space_piece(
                        match pending {
                            Some(s) => s,
                            None => style,
                        },
                    ),
                ),
            ]
        } else {
            Seq::empty()
        }) + seq![
            FragView::Piece(word_piece(words[i], cells_of(words[i]), style, Some(node))),
        ] + word_frags(words, i + 1, None, style, node)
    }
}

pub open spec fn spacer_frag(cells: i32) -> Seq<FragView> {
    if cells > 0 {
        seq![
            FragView::Piece(
                word_piece(repeated(' ', cells as int), cells, Style::plain(), None),
            ),
        ]
    } else {
        Seq::empty()
    }
}

/// The fragments of one item, and the collapsed space owed after it.
pub open spec fn item_frags(dom: &Dom, item: InlineItem, pending: Option<Style>) -> (
    Seq<FragView>,
    Option<Style>,
) {
    match item {
        InlineItem::Marker { style } => (
            seq![
                FragView::Piece(
                    word_piece(list_marker(), cells_of(list_marker()), style, None),
                ),
            ],
            pending,
        ),
        InlineItem::Spacer { cells } => (spacer_frag(cells), pending),
        InlineItem::Break => (seq![FragView::Piece(break_piece())], None),
        InlineItem::Atomic { node } => (
            (match pending {
                Some(style) => seq![FragView::Piece(space_piece(style))],
                None => Seq::empty(),
            }) + seq![FragView::Atomic { node }],
            None,
        ),
        InlineItem::Image { node, cells_w, cells_h, firm } => (
            seq![FragView::Image { node, cells_w, cells_h, firm }],
            None,
        ),
        InlineItem::Text { node, style } => {
            let text = dom.text_of(node);
            let parts = words_of(text, Spaces::Html);
            let before = if text.len() > 0 && is_html_space(text[0]) {
                Some(style)
            } else {
                pending
            };
            let after = if text.len() > 0 && is_html_space(text[text.len() - 1]) {
                Some(style)
            } else if parts.len() > 0 {
                None
            } else {
                before
            };
            (word_frags(parts, 0, before, style, node), after)
        },
    }
}

/// The fragments of the items from the `i`th on.
pub open spec fn frags_from(dom: &Dom, items: Seq<InlineItem>, i: int, pending: Option<Style>) -> Seq<
    FragView,
>
    decreases items.len() - i,
{
    if i >= items.len() {
        Seq::empty()
    } else {
        let (here, next) = item_frags(dom, items[i], pending);
        here + frags_from(dom, items, i + 1, next)
    }
}

fn push_words(
    text: &str,
    pending: Option<Style>,
    style: Style,
    node: NodeId,
    out: &mut Vec<InlineFrag>,
) -> (r: bool)
    ensures
        views(final(out)@) == views(old(out)@) + word_frags(
            words_of(text@, Spaces::Html),
            0,
            pending,
            style,
            node,
        ),
        r == (words_of(text@, Spaces::Html).len() > 0),
        forall|dom: &Dom| #[trigger]
            frags_known(dom, views(old(out)@)) && dom.has(node) ==> frags_known(
                dom,
                views(final(out)@),
            ),
{
    let parts: Vec<String> = words(text, Spaces::Html);
    let ghost all = views(parts@);
    let ghost start = views(out@);
    let mut pending: Option<Style> = pending;
    let ghost goal = start + word_frags(all, 0, pending, style, node);
    let mut i: usize = 0;
    while i < parts.len()
        invariant
            all == views(parts@),
            i <= parts@.len(),
            views(out@) + word_frags(all, i as int, pending, style, node) == goal,
            forall|dom: &Dom| #[trigger]
                frags_known(dom, start) && dom.has(node) ==> frags_known(dom, views(out@)),
        decreases parts@.len() - i,
    {
        let ghost before = views(out@);
        let ghost was = pending;
        if i > 0 || pending.is_some() {
            let s: Style = match pending {
                Some(s) => s,
                None => style,
            };
            out.push(InlineFrag::Piece(Piece::space(s)));
        }
        pending = None;
        let word: String = parts[i].clone();
        let cells: i32 = str_cells(word.as_str());
        out.push(InlineFrag::Piece(Piece::word(word, cells, style, Some(node))));
        proof {
            let rest = word_frags(all, i + 1, None, style, node);
            assert(views(out@) + rest =~= before + word_frags(all, i as int, was, style, node));
        }
        i += 1;
    }
    proof {
        assert(views(out@) + Seq::<FragView>::empty() =~= views(out@));
    }
    parts.len() > 0
}

/// The fragments of a run of items. See [`frags_from`].
pub fn fragments(dom: &Dom, items: &Vec<InlineItem>) -> (r: Vec<InlineFrag>)
    requires
        dom.wf(),
        items_known(dom, items@),
    ensures
        views(r@) == frags_from(dom, items@, 0, None),
        frags_known(dom, views(r@)),
{
    let mut out: Vec<InlineFrag> = Vec::new();
    let mut pending: Option<Style> = None;
    let ghost goal = frags_from(dom, items@, 0, None);
    let mut i: usize = 0;
    proof {
        assert(views(out@) + goal =~= goal);
    }
    while i < items.len()
        invariant
            dom.wf(),
            items_known(dom, items@),
            i <= items@.len(),
            frags_known(dom, views(out@)),
            views(out@) + frags_from(dom, items@, i as int, pending) == goal,
        decreases items@.len() - i,
    {
        let ghost before = views(out@);
        let ghost was = pending;
        let item: InlineItem = items[i];
        proof {
            assert(item_known(dom, items@[i as int]));
        }
        match item {
            InlineItem::Marker { style } => {
                let text: String = owned("• ");
                let cells: i32 = str_cells(text.as_str());
                out.push(InlineFrag::Piece(Piece::word(text, cells, style, None)));
            },
            InlineItem::Spacer { cells } => {
                if cells > 0 {
                    out.push(
                        InlineFrag::Piece(
                            Piece::word(repeat(' ', cells), cells, Style::plain(), None),
                        ),
                    );
                }
            },
            InlineItem::Break => {
                pending = None;
                out.push(InlineFrag::Piece(Piece::line_break()));
            },
            InlineItem::Atomic { node } => {
                match pending {
                    Some(style) => {
                        out.push(InlineFrag::Piece(Piece::space(style)));
                    },
                    None => {},
                }
                pending = None;
                out.push(InlineFrag::Atomic { node });
            },
            InlineItem::Image { node, cells_w, cells_h, firm } => {
                pending = None;
                out.push(InlineFrag::Image { node, cells_w, cells_h, firm });
            },
            InlineItem::Text { node, style } => {
                match &dom.node(node).data {
                    NodeData::Text(text) => {
                        let chars: Vec<char> = chars_of(text.as_str());
                        let n: usize = chars.len();
                        if n > 0 && is_html_space(chars[0]) {
                            pending = Some(style);
                        }
                        let any: bool = push_words(text.as_str(), pending, style, node, &mut out);
                        if any {
                            pending = None;
                        }
                        if n > 0 && is_html_space(chars[n - 1]) {
                            pending = Some(style);
                        }
                    },
                    _ => {},
                }
            },
        }
        proof {
            let (here, next) = item_frags(dom, item, was);
            let rest = frags_from(dom, items@, i + 1, next);
            assert(pending == next);
            assert(views(out@) =~= before + here);
            assert((before + here) + rest =~= before + (here + rest));
        }
        i += 1;
    }
    proof {
        assert(views(out@) + Seq::<FragView>::empty() =~= views(out@));
    }
    out
}

} // verus!
