//! The line breaker: an inline formatting context as line boxes.

use vstd::prelude::*;

use crate::blocks::{BoxArgs, Recipe};
use crate::boxes::{in_range, known, BoxId, BoxKind, LayoutBox};
use crate::boxmodel::{inset_h, resolve_block_dims, shrink_to_fit, Axis};
use crate::cells::{larger, minus, plus, smaller};
use crate::context::Ctx;
use crate::dimensions::{Dimensions, EdgeSizes, Rect};
use crate::dom::{NodeData, NodeId};
use crate::engine::{image_box, new_box, new_image_box, plain_box, Canvas, Engine};
use crate::inline::{
    atomic_piece, frag_known, fragments, frags_from, frags_known, item_known, items_known,
    word_piece, FragView, InlineFrag, InlineItem, Piece, PieceKind, PieceView,
};
use crate::intrinsic::list_marker;
use crate::linebox::{
    emitted, empty_line, image_width_in, piece_ok, run_cells, without_space, LineBuilder, LineView,
};
use crate::style::{ComputedStyle, TextAlign};
use crate::term::Style;
use crate::text::{
    cells_of, char_cells, char_cells_of, chars_of, lines_of, owned, repeat, repeated, slice_text,
    split_lines, str_cells,
};
use crate::views::views;

verus! {

broadcast use crate::views::group_views;

/// Where the part of a word that starts at `from` has to end to fit in `limit`
/// cells, and how many it takes. It has at least one character.
pub open spec fn chunk(s: Seq<char>, from: int, i: int, cells: i32, limit: i32) -> (int, i32)
    decreases s.len() - i,
{
    if i >= s.len() {
        (i, cells)
    } else {
        let w = char_cells_of(s[i]);
        if i > from && plus(cells, w) > limit {
            (i, cells)
        } else {
            chunk(s, from, i + 1, plus(cells, w), limit)
        }
    }
}

pub proof fn chunk_moves_on(s: Seq<char>, from: int, i: int, cells: i32, limit: i32)
    requires
        0 <= from <= i <= s.len(),
    ensures
        i <= chunk(s, from, i, cells, limit).0 <= s.len(),
        i == from && from < s.len() ==> chunk(s, from, i, cells, limit).0 > from,
    decreases s.len() - i,
{
    if i < s.len() {
        let w = char_cells_of(s[i]);
        if !(i > from && plus(cells, w) > limit) {
            chunk_moves_on(s, from, i + 1, plus(cells, w), limit);
        }
    }
}

/// An overlong word from character `from` on: broken by cells, a line closed
/// after each part but the last.
pub open spec fn hard_broken(
    cv: Canvas,
    lb: LineView,
    p: PieceView,
    from: int,
    x: i32,
    width: i32,
    align: TextAlign,
) -> (Canvas, LineView)
    decreases p.text.len() - from,
    when 0 <= from
    via hard_break_moves_on
{
    if from >= p.text.len() {
        (cv, lb)
    } else {
        let (end, cells) = chunk(p.text, from, from, 0, width);
        let with = lb.with_cur(
            lb.cur.push(word_piece(p.text.subrange(from, end), cells, p.style, p.node)),
        );
        if end < p.text.len() {
            let (cv2, lb2) = emitted(cv, with, x, width, align);
            hard_broken(cv2, lb2, p, end, x, width, align)
        } else {
            (cv, with)
        }
    }
}

#[via_fn]
proof fn hard_break_moves_on(
    cv: Canvas,
    lb: LineView,
    p: PieceView,
    from: int,
    x: i32,
    width: i32,
    align: TextAlign,
) {
    if 0 <= from < p.text.len() {
        chunk_moves_on(p.text, from, from, 0, width);
    }
}

/// The line closed after dropping one space at its end.
pub open spec fn wrapped(cv: Canvas, lb: LineView, x: i32, width: i32, align: TextAlign) -> (
    Canvas,
    LineView,
) {
    emitted(cv, lb.with_cur(without_space(lb.cur)), x, width, align)
}

/// One piece of text put on the line, or on the next one.
pub open spec fn piece_placed(
    cv: Canvas,
    lb: LineView,
    p: PieceView,
    x: i32,
    width: i32,
    align: TextAlign,
) -> (Canvas, LineView) {
    match p.kind {
        PieceKind::Break => {
            let (cv2, lb2) = if lb.cur.len() == 0 {
                empty_line(cv, lb, x, width)
            } else {
                emitted(cv, lb, x, width, align)
            };
            (cv2, lb2.with_cells(0))
        },
        PieceKind::Space => if lb.cur.len() == 0 {
            (cv, lb)
        } else {
            (cv, lb.with_cur(lb.cur.push(p)).with_cells(plus(lb.cells, 1)))
        },
        PieceKind::Atomic(_) => (
            cv,
            lb.with_cur(lb.cur.push(p)).with_cells(plus(lb.cells, p.cells)),
        ),
        PieceKind::Word => if p.cells > width {
            let (cv2, lb2) = wrapped(cv, lb, x, width, align);
            let (cv3, lb3) = hard_broken(cv2, lb2, p, 0, x, width, align);
            (cv3, lb3.with_cells(run_cells(lb3.cur, 0, 0)))
        } else {
            let (cv2, lb2) = if lb.cur.len() > 0 && plus(lb.cells, p.cells) > width {
                wrapped(cv, lb, x, width, align)
            } else {
                (cv, lb)
            };
            let cur = lb2.cur.push(p);
            (cv2, lb2.with_cur(cur).with_cells(run_cells(cur, 0, 0)))
        },
    }
}

/// The line closed before an image, if anything is on it.
pub open spec fn flushed(cv: Canvas, lb: LineView, x: i32, width: i32, align: TextAlign) -> (
    Canvas,
    LineView,
) {
    if lb.cur.len() == 0 {
        (cv, lb)
    } else {
        let (cv2, lb2) = wrapped(cv, lb, x, width, align);
        (cv2, lb2.with_cells(0))
    }
}

impl<'a> Ctx<'a> {
    /// An image on rows of its own.
    pub open spec fn image_line(
        &self,
        cv: Canvas,
        lb: LineView,
        x: i32,
        width: i32,
        node: NodeId,
        cells_w: i32,
        cells_h: i32,
        firm: bool,
    ) -> (Canvas, LineView) {
        match self.images.of(node) {
            None => (cv, lb),
            Some(img) => {
                let height = larger(cells_h, 1);
                (
                    cv.with_box(
                        image_box(
                            node,
                            Rect { x, y: lb.y, width: image_width_in(cells_w, width), height },
                            self.style(node),
                            img.alt,
                            img.url,
                            firm,
                        ),
                    ),
                    LineView {
                        lines: lb.lines.push(cv.next_id()),
                        y: plus(lb.y, height),
                        ..lb
                    },
                )
            },
        }
    }

    /// How wide an atomic inline is, and what its edges are, given the cells
    /// left on the line for its margin box.
    pub open spec fn atomic_size(&self, node: NodeId, containing: i32, available: i32) -> Dimensions {
        let c = self.style(node);
        let d = resolve_block_dims(&c, containing, None);
        let dims = d.with_margin(
            EdgeSizes {
                left: if c.margin.left.is_auto() {
                    0
                } else {
                    d.margin.left
                },
                right: if c.margin.right.is_auto() {
                    0
                } else {
                    d.margin.right
                },
                ..d.margin
            },
        );
        if c.width.is_auto() {
            let edges = minus(dims.margin_box_width(), dims.content.width);
            let (min, max) = self.content_widths_of(node);
            let axis = Axis { edges: dims.inner_edges_h(), box_sizing: c.box_sizing };
            let width = axis.clamp(
                shrink_to_fit(min, max, minus(available, edges)),
                inset_h(c.min_width, containing),
                inset_h(c.max_width, containing),
            );
            dims.with_content(Rect { width, ..dims.content })
        } else {
            dims
        }
    }

    /// An atomic inline built with its margin box at (`x`, `y`).
    #[verifier::opaque]
    pub open spec fn atomic_built(
        &self,
        rec: Recipe,
        cv: Canvas,
        node: NodeId,
        dims: Dimensions,
        x: i32,
        y: i32,
        pre: bool,
    ) -> (Canvas, PieceView)
    {
        let at = dims.with_content(
            Rect {
                x: plus(plus(plus(x, dims.margin.left), dims.border.left), dims.padding.left),
                y: plus(plus(plus(y, dims.margin.top), dims.border.top), dims.padding.top),
                width: dims.content.width,
                height: 0,
            },
        );
        let built = (rec.build)(
            BoxArgs { cv, id: node, computed: self.style(node), dims: at, ch: None, pre },
        );
        (built.cv, atomic_piece(built.id, dims.margin_box_width()))
    }

    /// One fragment placed.
    #[verifier::opaque]
    pub open spec fn frag_placed(
        &self,
        rec: Recipe,
        cv: Canvas,
        lb: LineView,
        frag: FragView,
        x: i32,
        width: i32,
        align: TextAlign,
    ) -> (Canvas, LineView)
    {
        match frag {
            FragView::Image { node, cells_w, cells_h, firm } => {
                let (cv2, lb2) = flushed(cv, lb, x, width, align);
                self.image_line(cv2, lb2, x, width, node, cells_w, cells_h, firm)
            },
            FragView::Atomic { node } => {
                let first = self.atomic_size(node, width, minus(width, lb.cells));
                if lb.cur.len() > 0 && plus(lb.cells, first.margin_box_width()) > width {
                    let (cv2, lb2) = wrapped(cv, lb, x, width, align);
                    let dims = self.atomic_size(node, width, width);
                    let (cv3, p) = self.atomic_built(
                        rec,
                        cv2,
                        node,
                        dims,
                        plus(x, 0),
                        lb2.y,
                        false,
                    );
                    piece_placed(cv3, lb2.with_cells(0), p, x, width, align)
                } else {
                    let (cv2, p) = self.atomic_built(
                        rec,
                        cv,
                        node,
                        first,
                        plus(x, lb.cells),
                        lb.y,
                        false,
                    );
                    piece_placed(cv2, lb, p, x, width, align)
                }
            },
            FragView::Piece(p) => piece_placed(cv, lb, p, x, width, align),
        }
    }

    /// The fragments from the `i`th on placed.
    pub open spec fn frags_placed(
        &self,
        rec: Recipe,
        cv: Canvas,
        lb: LineView,
        frags: Seq<FragView>,
        i: int,
        x: i32,
        width: i32,
        align: TextAlign,
    ) -> (Canvas, LineView)
        decreases frags.len() - i,
    {
        if i >= frags.len() {
            (cv, lb)
        } else {
            let (cv2, lb2) = self.frag_placed(rec, cv, lb, frags[i], x, width, align);
            self.frags_placed(rec, cv2, lb2, frags, i + 1, x, width, align)
        }
    }

    /// An inline formatting context broken into lines.
    #[verifier::opaque]
    pub open spec fn inline_laid(
        &self,
        rec: Recipe,
        cv: Canvas,
        items: Seq<InlineItem>,
        x: i32,
        y: i32,
        width: i32,
        align: TextAlign,
    ) -> (Canvas, Seq<BoxId>)
    {
        let w = larger(width, 1);
        let (cv2, lb) = self.frags_placed(
            rec,
            cv,
            LineView::begin(y),
            frags_from(self.dom, items, 0, None),
            0,
            x,
            w,
            align,
        );
        let (cv3, end) = emitted(cv2, lb, x, w, align);
        (cv3, end.lines)
    }

    /// Lines of preformatted text from the `i`th on.
    pub open spec fn pre_text(
        &self,
        cv: Canvas,
        lb: LineView,
        lines: Seq<Seq<char>>,
        i: int,
        style: Style,
        node: NodeId,
        x: i32,
        width: i32,
    ) -> (Canvas, LineView)
        decreases lines.len() - i,
    {
        if i >= lines.len() {
            (cv, lb)
        } else {
            let with = if lines[i].len() > 0 {
                lb.with_cur(
                    lb.cur.push(word_piece(lines[i], cells_of(lines[i]), style, Some(node))),
                )
            } else {
                lb
            };
            if i + 1 < lines.len() {
                let (cv2, lb2) = pre_broken(cv, with, x, width);
                self.pre_text(cv2, lb2, lines, i + 1, style, node, x, width)
            } else {
                (cv, with)
            }
        }
    }

    /// One item of preformatted content: nothing collapses and nothing wraps.
    #[verifier::opaque]
    pub open spec fn pre_item(
        &self,
        rec: Recipe,
        cv: Canvas,
        lb: LineView,
        item: InlineItem,
        x: i32,
        width: i32,
    ) -> (Canvas, LineView)
    {
        match item {
            InlineItem::Break => pre_broken(cv, lb, x, width),
            InlineItem::Spacer { cells } => (
                cv,
                if cells > 0 {
                    lb.with_cur(
                        lb.cur.push(
                            word_piece(
                                repeated(' ', cells as int),
                                cells,
                                Style::plain(),
                                None,
                            ),
                        ),
                    )
                } else {
                    lb
                },
            ),
            InlineItem::Marker { style } => (
                cv,
                lb.with_cur(
                    lb.cur.push(
                        word_piece(list_marker(), cells_of(list_marker()), style, None),
                    ),
                ),
            ),
            InlineItem::Atomic { node } => {
                let placed = run_cells(lb.cur, 0, 0);
                let dims = self.atomic_size(node, width, minus(width, placed));
                let (cv2, p) = self.atomic_built(
                    rec,
                    cv,
                    node,
                    dims,
                    plus(x, placed),
                    lb.y,
                    true,
                );
                (cv2, lb.with_cur(lb.cur.push(p)))
            },
            InlineItem::Image { node, cells_w, cells_h, firm } => {
                let (cv2, lb2) = if lb.cur.len() > 0 {
                    emitted(cv, lb, x, width, TextAlign::Left)
                } else {
                    (cv, lb)
                };
                self.image_line(cv2, lb2, x, width, node, cells_w, cells_h, firm)
            },
            InlineItem::Text { node, style } => self.pre_text(
                cv,
                lb,
                lines_of(self.dom.text_of(node)),
                0,
                style,
                node,
                x,
                width,
            ),
        }
    }

    /// The items of preformatted content from the `i`th on.
    pub open spec fn pre_items(
        &self,
        rec: Recipe,
        cv: Canvas,
        lb: LineView,
        items: Seq<InlineItem>,
        i: int,
        x: i32,
        width: i32,
    ) -> (Canvas, LineView)
        decreases items.len() - i,
    {
        if i >= items.len() {
            (cv, lb)
        } else {
            let (cv2, lb2) = self.pre_item(rec, cv, lb, items[i], x, width);
            self.pre_items(rec, cv2, lb2, items, i + 1, x, width)
        }
    }

    /// Preformatted content as lines.
    #[verifier::opaque]
    pub open spec fn pre_laid(
        &self,
        rec: Recipe,
        cv: Canvas,
        items: Seq<InlineItem>,
        x: i32,
        y: i32,
        width: i32,
    ) -> (Canvas, Seq<BoxId>)
    {
        let (cv2, lb) = self.pre_items(rec, cv, LineView::begin(y), items, 0, x, width);
        let (cv3, end) = if lb.cur.len() > 0 {
            emitted(cv2, lb, x, width, TextAlign::Left)
        } else if lb.lines.len() == 0 {
            empty_line(cv2, lb, x, width)
        } else {
            (cv2, lb)
        };
        (cv3, end.lines)
    }

    /// An anonymous block around inline content. It has no margin of its own,
    /// but the one before it is kept.
    #[verifier::opaque]
    pub open spec fn anonymous(
        &self,
        rec: Recipe,
        cv: Canvas,
        x: i32,
        width: i32,
        y: i32,
        prev: i32,
        items: Seq<InlineItem>,
        align: TextAlign,
        pre: bool,
    ) -> Laid
    {
        if items.len() == 0 {
            Laid { cv, id: None, prev }
        } else {
            let after = minus(y, prev);
            let used_top = if after == 0 && prev == 0 {
                0
            } else {
                prev
            };
            let top = plus(after, used_top);
            let id = cv.next_id();
            let with = cv.with_box(
                plain_box(
                    BoxKind::AnonymousBlock,
                    None,
                    Dimensions::bare(Rect { x, y: top, width, height: 0 }),
                    ComputedStyle::initial(),
                ),
            );
            let (cv2, lines) = if pre {
                self.pre_laid(rec, with, items, x, top, width)
            } else {
                self.inline_laid(rec, with, items, x, top, width, align)
            };
            let height = if lines.len() == 0 {
                0
            } else {
                let last = cv2.dims(lines.last()).content;
                larger(minus(last.bottom(), top), 0)
            };
            Laid {
                cv: cv2.with_height(id, height).with_children(id, lines),
                id: Some(id),
                prev: 0,
            }
        }
    }
}

/// The current line closed, or an empty one where nothing is on it.
pub open spec fn pre_broken(cv: Canvas, lb: LineView, x: i32, width: i32) -> (Canvas, LineView) {
    if lb.cur.len() == 0 {
        empty_line(cv, lb, x, width)
    } else {
        emitted(cv, lb, x, width, TextAlign::Left)
    }
}

/// What laying one node out left: the canvas, the box if there is one, and the
/// bottom margin that the next sibling's collapses with.
pub struct Laid {
    pub cv: Canvas,
    pub id: Option<BoxId>,
    pub prev: i32,
}

impl<'a> Engine<'a> {
    fn wrap_line(&mut self, lb: &mut LineBuilder, x: i32, width: i32, align: TextAlign)
        requires
            old(self).ok(),
            width >= 0,
            old(lb)@.ok(old(self).ctx.dom, old(self).boxes@.len()),
        ensures
            final(self).follows(*old(self)),
            final(lb)@.ok(final(self).ctx.dom, final(self).boxes@.len()),
            (final(self).canvas(), final(lb)@) == wrapped(
                old(self).canvas(),
                old(lb)@,
                x,
                width,
                align,
            ),
    {
        lb.drop_space();
        self.emit_line(lb, x, width, align);
    }

    fn hard_break(&mut self, lb: &mut LineBuilder, p: &Piece, x: i32, width: i32, align: TextAlign)
        requires
            old(self).ok(),
            width >= 0,
            old(lb)@.ok(old(self).ctx.dom, old(self).boxes@.len()),
            known(old(self).ctx.dom, p@.node),
        ensures
            final(self).follows(*old(self)),
            final(lb)@.ok(final(self).ctx.dom, final(self).boxes@.len()),
            (final(self).canvas(), final(lb)@) == hard_broken(
                old(self).canvas(),
                old(lb)@,
                p@,
                0,
                x,
                width,
                align,
            ),
    {
        let chars: Vec<char> = chars_of(p.text.as_str());
        let ghost goal = hard_broken(self.canvas(), lb@, p@, 0, x, width, align);
        let mut from: usize = 0;
        while from < chars.len()
            invariant
                self.follows(*old(self)),
                known(self.ctx.dom, p@.node),
                width >= 0,
                lb@.ok(self.ctx.dom, self.boxes@.len()),
                chars@ == p@.text,
                from <= chars@.len(),
                goal == hard_broken(self.canvas(), lb@, p@, from as int, x, width, align),
            decreases chars@.len() - from,
        {
            let mut end: usize = from;
            let mut cells: i32 = 0;
            let mut full: bool = false;
            proof {
                chunk_moves_on(chars@, from as int, from as int, 0, width);
            }
            while end < chars.len() && !full
                invariant
                    from <= end <= chars@.len(),
                    cells >= 0,
                    full ==> chunk(chars@, from as int, from as int, 0, width) == (
                        end as int,
                        cells,
                    ),
                    !full ==> chunk(chars@, from as int, from as int, 0, width) == chunk(
                        chars@,
                        from as int,
                        end as int,
                        cells,
                        width,
                    ),
                decreases
                        chars@.len() - end + (if full {
                            0int
                        } else {
                            1int
                        }),
            {
                let w: i32 = char_cells(chars[end]);
                if end > from && plus(cells, w) > width {
                    full = true;
                } else {
                    cells = plus(cells, w);
                    end += 1;
                }
            }
            let text: String = slice_text(&chars, from, end);
            lb.push(Piece::word(text, cells, p.style, p.node));
            if end < chars.len() {
                self.emit_line(lb, x, width, align);
            }
            from = end;
        }
    }

    fn place_piece(&mut self, lb: &mut LineBuilder, p: Piece, x: i32, width: i32, align: TextAlign)
        requires
            old(self).ok(),
            width >= 0,
            old(lb)@.ok(old(self).ctx.dom, old(self).boxes@.len()),
            piece_ok(p@, old(self).ctx.dom, old(self).boxes@.len()),
        ensures
            final(self).follows(*old(self)),
            final(lb)@.ok(final(self).ctx.dom, final(self).boxes@.len()),
            (final(self).canvas(), final(lb)@) == piece_placed(
                old(self).canvas(),
                old(lb)@,
                p@,
                x,
                width,
                align,
            ),
    {
        match p.kind {
            PieceKind::Break => {
                if lb.cur.len() == 0 {
                    self.emit_empty_line(lb, x, width);
                } else {
                    self.emit_line(lb, x, width, align);
                }
                lb.cells = 0;
            },
            PieceKind::Space => {
                if lb.cur.len() > 0 {
                    lb.push(p);
                    lb.cells = plus(lb.cells, 1);
                }
            },
            PieceKind::Atomic(_) => {
                lb.cells = plus(lb.cells, p.cells);
                lb.push(p);
            },
            PieceKind::Word => {
                if p.cells > width {
                    self.wrap_line(lb, x, width, align);
                    self.hard_break(lb, &p, x, width, align);
                } else {
                    if lb.cur.len() > 0 && plus(lb.cells, p.cells) > width {
                        self.wrap_line(lb, x, width, align);
                    }
                    lb.push(p);
                }
                lb.cells = lb.sum_cells();
            },
        }
    }

    fn emit_image(
        &mut self,
        lb: &mut LineBuilder,
        x: i32,
        width: i32,
        node: NodeId,
        cells_w: i32,
        cells_h: i32,
        firm: bool,
    )
        requires
            old(self).ok(),
            width >= 0,
            old(lb)@.ok(old(self).ctx.dom, old(self).boxes@.len()),
            old(self).ctx.dom.has(node),
        ensures
            final(self).follows(*old(self)),
            final(lb)@.ok(final(self).ctx.dom, final(self).boxes@.len()),
            (final(self).canvas(), final(lb)@) == old(self).ctx.image_line(
                old(self).canvas(),
                old(lb)@,
                x,
                width,
                node,
                cells_w,
                cells_h,
                firm,
            ),
    {
        let ctx: Ctx<'a> = self.ctx;
        match ctx.images.get(node) {
            None => {},
            Some(img) => {
                let height: i32 = larger(cells_h, 1);
                let w: i32 = larger(smaller(cells_w, width), 1);
                let b: LayoutBox = new_image_box(
                    node,
                    Rect { x, y: lb.y, width: w, height },
                    ctx.styles.get(node),
                    img.alt.clone(),
                    img.url.clone(),
                    firm,
                );
                let id: BoxId = self.add_box(b);
                lb.lines.push(id);
                lb.y = plus(lb.y, height);
            },
        }
    }

    /// See [`Ctx::atomic_size`].
    pub fn atomic_dims(&mut self, node: NodeId, containing: i32, available: i32) -> (r: Dimensions)
        requires
            old(self).ok(),
            old(self).ctx.dom.has(node),
        ensures
            r.content.width >= 0,
            r == old(self).ctx.atomic_size(node, containing, available),
            final(self).follows(*old(self)),
            final(self).boxes == old(self).boxes,
            final(self).canvas() == old(self).canvas(),
    {
        let c: ComputedStyle = self.ctx.styles.get(node);
        let d: Dimensions = resolve_block_dims(&c, containing, None);
        let margin: EdgeSizes = EdgeSizes {
            top: d.margin.top,
            bottom: d.margin.bottom,
            left: if c.margin.left.is_auto() {
                0
            } else {
                d.margin.left
            },
            right: if c.margin.right.is_auto() {
                0
            } else {
                d.margin.right
            },
        };
        let dims: Dimensions = d.with_margin(margin);
        if c.width.is_auto() {
            let edges: i32 = minus(dims.margin_box_width(), dims.content.width);
            let (min, max): (i32, i32) = self.sizer.content_widths(node);
            let axis: Axis = Axis { edges: dims.inner_edges_h(), box_sizing: c.box_sizing };
            let width: i32 = axis.clamp(
                shrink_to_fit(min, max, minus(available, edges)),
                inset_h(c.min_width, containing),
                inset_h(c.max_width, containing),
            );
            dims.with_content(
                Rect { x: dims.content.x, y: dims.content.y, width, height: dims.content.height },
            )
        } else {
            dims
        }
    }

    fn build_atomic(
        &mut self,
        fuel: usize,
        node: NodeId,
        dims: Dimensions,
        x: i32,
        y: i32,
        pre: bool,
    ) -> (r: Piece)
        requires
            old(self).ok(),
            dims.content.width >= 0,
            old(self).ctx.dom.has(node),
        ensures
            r@.node is None,
            final(self).follows(*old(self)),
            r@.kind matches PieceKind::Atomic(id) && final(self).has_box(id),
            (final(self).canvas(), r@) == old(self).ctx.atomic_built(
                old(self).ctx.builder(old(self).viewport, fuel as nat),
                old(self).canvas(),
                node,
                dims,
                x,
                y,
                pre,
            ),
        decreases fuel, 1nat,
    {
        proof {
            reveal(Ctx::atomic_built);
        }
        let at: Dimensions = dims.with_content(
            Rect {
                x: plus(plus(plus(x, dims.margin.left), dims.border.left), dims.padding.left),
                y: plus(plus(plus(y, dims.margin.top), dims.border.top), dims.padding.top),
                width: dims.content.width,
                height: 0,
            },
        );
        let style: ComputedStyle = self.ctx.styles.get(node);
        let (id, _): (BoxId, i32) = self.layout_box_at(fuel, node, style, at, None, pre);
        Piece::atomic(id, dims.margin_box_width())
    }

    fn place_frag(
        &mut self,
        fuel: usize,
        lb: &mut LineBuilder,
        frag: &InlineFrag,
        x: i32,
        width: i32,
        align: TextAlign,
    )
        requires
            old(self).ok(),
            width >= 0,
            old(lb)@.ok(old(self).ctx.dom, old(self).boxes@.len()),
            frag_known(old(self).ctx.dom, frag@),
        ensures
            final(self).follows(*old(self)),
            final(lb)@.ok(final(self).ctx.dom, final(self).boxes@.len()),
            (final(self).canvas(), final(lb)@) == old(self).ctx.frag_placed(
                old(self).ctx.builder(old(self).viewport, fuel as nat),
                old(self).canvas(),
                old(lb)@,
                frag@,
                x,
                width,
                align,
            ),
        decreases fuel, 2nat,
    {
        proof {
            reveal(Ctx::frag_placed);
        }
        match frag {
            InlineFrag::Image { node, cells_w, cells_h, firm } => {
                if lb.cur.len() > 0 {
                    self.wrap_line(lb, x, width, align);
                    lb.cells = 0;
                }
                self.emit_image(lb, x, width, *node, *cells_w, *cells_h, *firm);
            },
            InlineFrag::Atomic { node } => {
                let mut dims: Dimensions = self.atomic_dims(*node, width, minus(width, lb.cells));
                if lb.cur.len() > 0 && plus(lb.cells, dims.margin_box_width()) > width {
                    self.wrap_line(lb, x, width, align);
                    lb.cells = 0;
                    dims = self.atomic_dims(*node, width, width);
                }
                let p: Piece = self.build_atomic(
                    fuel,
                    *node,
                    dims,
                    plus(x, lb.cells),
                    lb.y,
                    false,
                );
                self.place_piece(lb, p, x, width, align);
            },
            InlineFrag::Piece(p) => {
                let p: Piece = p.copied();
                self.place_piece(lb, p, x, width, align);
            },
        }
    }

    /// Wrap items into line boxes. See [`Ctx::inline_laid`].
    fn layout_inline(
        &mut self,
        fuel: usize,
        items: &Vec<InlineItem>,
        x: i32,
        y: i32,
        width: i32,
        align: TextAlign,
    ) -> (r: Vec<BoxId>)
        requires
            old(self).ok(),
            items_known(old(self).ctx.dom, items@),
        ensures
            final(self).follows(*old(self)),
            in_range(r@, final(self).boxes@.len()),
            (final(self).canvas(), r@) == old(self).ctx.inline_laid(
                old(self).ctx.builder(old(self).viewport, fuel as nat),
                old(self).canvas(),
                items@,
                x,
                y,
                width,
                align,
            ),
        decreases fuel, 4nat,
    {
        proof {
            reveal(Ctx::inline_laid);
        }
        let w: i32 = larger(width, 1);
        let frags: Vec<InlineFrag> = fragments(self.ctx.dom, items);
        let mut lb: LineBuilder = LineBuilder::begin(y);
        let ghost all = views(frags@);
        let ghost ctx = self.ctx;
        let ghost goal = ctx.frags_placed(
            ctx.builder(self.viewport, fuel as nat),
            self.canvas(),
            lb@,
            all,
            0,
            x,
            w,
            align,
        );
        let mut i: usize = 0;
        while i < frags.len()
            invariant
                self.follows(*old(self)),
                ctx == self.ctx,
                all == views(frags@),
                frags_known(ctx.dom, all),
                w >= 0,
                lb@.ok(self.ctx.dom, self.boxes@.len()),
                i <= frags@.len(),
                goal == ctx.frags_placed(
                    ctx.builder(self.viewport, fuel as nat),
                    self.canvas(),
                    lb@,
                    all,
                    i as int,
                    x,
                    w,
                    align,
                ),
            decreases frags@.len() - i,
        {
            proof {
                assert(frag_known(ctx.dom, all[i as int]));
            }
            self.place_frag(fuel, &mut lb, &frags[i], x, w, align);
            i += 1;
        }
        self.emit_line(&mut lb, x, w, align);
        lb.lines
    }

    fn pre_break(&mut self, lb: &mut LineBuilder, x: i32, width: i32)
        requires
            old(self).ok(),
            width >= 0,
            old(lb)@.ok(old(self).ctx.dom, old(self).boxes@.len()),
        ensures
            final(self).follows(*old(self)),
            final(lb)@.ok(final(self).ctx.dom, final(self).boxes@.len()),
            (final(self).canvas(), final(lb)@) == pre_broken(
                old(self).canvas(),
                old(lb)@,
                x,
                width,
            ),
    {
        if lb.cur.len() == 0 {
            self.emit_empty_line(lb, x, width);
        } else {
            self.emit_line(lb, x, width, TextAlign::Left);
        }
    }

    fn place_pre_text(
        &mut self,
        lb: &mut LineBuilder,
        text: &str,
        style: Style,
        node: NodeId,
        x: i32,
        width: i32,
    )
        requires
            old(self).ok(),
            width >= 0,
            old(lb)@.ok(old(self).ctx.dom, old(self).boxes@.len()),
            old(self).ctx.dom.has(node),
        ensures
            final(self).follows(*old(self)),
            final(lb)@.ok(final(self).ctx.dom, final(self).boxes@.len()),
            (final(self).canvas(), final(lb)@) == old(self).ctx.pre_text(
                old(self).canvas(),
                old(lb)@,
                lines_of(text@),
                0,
                style,
                node,
                x,
                width,
            ),
    {
        let lines: Vec<String> = split_lines(text);
        let ghost all = views(lines@);
        let ghost ctx = self.ctx;
        let ghost goal = ctx.pre_text(self.canvas(), lb@, all, 0, style, node, x, width);
        let mut i: usize = 0;
        while i < lines.len()
            invariant
                self.follows(*old(self)),
                ctx == self.ctx,
                ctx.dom.has(node),
                width >= 0,
                all == views(lines@),
                lb@.ok(self.ctx.dom, self.boxes@.len()),
                i <= lines@.len(),
                goal == ctx.pre_text(self.canvas(), lb@, all, i as int, style, node, x, width),
            decreases lines@.len() - i,
        {
            if !lines[i].as_str().is_empty() {
                let line: String = lines[i].clone();
                let cells: i32 = str_cells(line.as_str());
                lb.push(Piece::word(line, cells, style, Some(node)));
            }
            if i + 1 < lines.len() {
                self.pre_break(lb, x, width);
            }
            i += 1;
        }
    }

    fn place_pre_item(
        &mut self,
        fuel: usize,
        lb: &mut LineBuilder,
        item: InlineItem,
        x: i32,
        width: i32,
    )
        requires
            old(self).ok(),
            width >= 0,
            old(lb)@.ok(old(self).ctx.dom, old(self).boxes@.len()),
            item_known(old(self).ctx.dom, item),
        ensures
            final(self).follows(*old(self)),
            final(lb)@.ok(final(self).ctx.dom, final(self).boxes@.len()),
            (final(self).canvas(), final(lb)@) == old(self).ctx.pre_item(
                old(self).ctx.builder(old(self).viewport, fuel as nat),
                old(self).canvas(),
                old(lb)@,
                item,
                x,
                width,
            ),
        decreases fuel, 2nat,
    {
        proof {
            reveal(Ctx::pre_item);
        }
        match item {
            InlineItem::Break => {
                self.pre_break(lb, x, width);
            },
            InlineItem::Spacer { cells } => {
                if cells > 0 {
                    lb.push(Piece::word(repeat(' ', cells), cells, Style::plain(), None));
                }
            },
            InlineItem::Marker { style } => {
                let text: String = owned("• ");
                let cells: i32 = str_cells(text.as_str());
                lb.push(Piece::word(text, cells, style, None));
            },
            InlineItem::Atomic { node } => {
                let placed: i32 = lb.sum_cells();
                let dims: Dimensions = self.atomic_dims(node, width, minus(width, placed));
                let p: Piece = self.build_atomic(fuel, node, dims, plus(x, placed), lb.y, true);
                lb.push(p);
            },
            InlineItem::Image { node, cells_w, cells_h, firm } => {
                if lb.cur.len() > 0 {
                    self.emit_line(lb, x, width, TextAlign::Left);
                }
                self.emit_image(lb, x, width, node, cells_w, cells_h, firm);
            },
            InlineItem::Text { node, style } => {
                let ctx: Ctx<'a> = self.ctx;
                match &ctx.dom.node(node).data {
                    NodeData::Text(text) => {
                        self.place_pre_text(lb, text.as_str(), style, node, x, width);
                    },
                    _ => {},
                }
            },
        }
    }

    /// Preserve newlines and per-span styles. See [`Ctx::pre_laid`].
    fn layout_pre(&mut self, fuel: usize, items: &Vec<InlineItem>, x: i32, y: i32, width: i32) -> (r:
        Vec<BoxId>)
        requires
            old(self).ok(),
            width >= 0,
            items_known(old(self).ctx.dom, items@),
        ensures
            final(self).follows(*old(self)),
            in_range(r@, final(self).boxes@.len()),
            (final(self).canvas(), r@) == old(self).ctx.pre_laid(
                old(self).ctx.builder(old(self).viewport, fuel as nat),
                old(self).canvas(),
                items@,
                x,
                y,
                width,
            ),
        decreases fuel, 4nat,
    {
        proof {
            reveal(Ctx::pre_laid);
        }
        let mut lb: LineBuilder = LineBuilder::begin(y);
        let ghost ctx = self.ctx;
        let ghost goal = ctx.pre_items(
            ctx.builder(self.viewport, fuel as nat),
            self.canvas(),
            lb@,
            items@,
            0,
            x,
            width,
        );
        let mut i: usize = 0;
        while i < items.len()
            invariant
                self.follows(*old(self)),
                ctx == self.ctx,
                items_known(ctx.dom, items@),
                width >= 0,
                lb@.ok(self.ctx.dom, self.boxes@.len()),
                i <= items@.len(),
                goal == ctx.pre_items(
                    ctx.builder(self.viewport, fuel as nat),
                    self.canvas(),
                    lb@,
                    items@,
                    i as int,
                    x,
                    width,
                ),
            decreases items@.len() - i,
        {
            proof {
                assert(item_known(ctx.dom, items@[i as int]));
            }
            self.place_pre_item(fuel, &mut lb, items[i], x, width);
            i += 1;
        }
        if lb.cur.len() > 0 {
            self.emit_line(&mut lb, x, width, TextAlign::Left);
        } else if lb.lines.len() == 0 {
            self.emit_empty_line(&mut lb, x, width);
        }
        lb.lines
    }

    /// An anonymous block around inline content. See [`Ctx::anonymous`].
    pub fn layout_anonymous_block(
        &mut self,
        fuel: usize,
        x: i32,
        width: i32,
        y: i32,
        prev: i32,
        items: &Vec<InlineItem>,
        align: TextAlign,
        pre: bool,
    ) -> (r: (Option<BoxId>, i32))
        requires
            old(self).ok(),
            width >= 0,
            items_known(old(self).ctx.dom, items@),
        ensures
            final(self).follows(*old(self)),
            r.0 matches Some(id) ==> final(self).has_box(id),
            items@.len() > 0 ==> r.0 is Some,
            (Laid { cv: final(self).canvas(), id: r.0, prev: r.1 }) == old(self).ctx.anonymous(
                old(self).ctx.builder(old(self).viewport, fuel as nat),
                old(self).canvas(),
                x,
                width,
                y,
                prev,
                items@,
                align,
                pre,
            ),
        decreases fuel, 5nat,
    {
        proof {
            reveal(Ctx::anonymous);
        }
        if items.len() == 0 {
            return (None, prev);
        }
        let after: i32 = minus(y, prev);
        let used_top: i32 = if after == 0 && prev == 0 {
            0
        } else {
            prev
        };
        let top: i32 = plus(after, used_top);
        let b: LayoutBox = new_box(
            BoxKind::AnonymousBlock,
            None,
            Dimensions::bare(Rect { x, y: top, width, height: 0 }),
            ComputedStyle::initial(),
        );
        let id: BoxId = self.add_box(b);
        let lines: Vec<BoxId> = if pre {
            self.layout_pre(fuel, items, x, top, width)
        } else {
            self.layout_inline(fuel, items, x, top, width, align)
        };
        let height: i32 = if lines.len() == 0 {
            0
        } else {
            let last: BoxId = lines[lines.len() - 1];
            larger(minus(self.dims(last).content.bottom(), top), 0)
        };
        self.set_height(id, height);
        self.set_children(id, lines);
        (Some(id), 0)
    }
}

} // verus!
