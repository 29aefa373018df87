//! Line boxes: the pieces of one line, aligned on a shared baseline row.

use vstd::prelude::*;

use crate::boxes::{in_range, known, BoxId, BoxKind, BoxView, LayoutBox};
use crate::boxmodel::{flow_delta, is_shifted};
use crate::cells::{half, larger, minus, plus, smaller};
use crate::dimensions::{Dimensions, Rect};
use crate::dom::Dom;
use crate::engine::{last_row, new_box, new_text_box, plain_box, text_box, Canvas, Engine};
use crate::inline::{Piece, PieceKind, PieceView};
use crate::style::{ComputedStyle, TextAlign};
use crate::views::views;

verus! {

broadcast use crate::views::group_views;

/// The lines of a block so far, and the one being filled.
#[derive(Debug)]
pub struct LineBuilder {
    pub lines: Vec<BoxId>,
    /// The row the next line starts on.
    pub y: i32,
    pub cur: Vec<Piece>,
    /// Cells used on the current line.
    pub cells: i32,
}

/// The value of a [`LineBuilder`].
pub struct LineView {
    pub lines: Seq<BoxId>,
    pub y: i32,
    pub cur: Seq<PieceView>,
    pub cells: i32,
}

impl View for LineBuilder {
    type V = LineView;

    open spec fn view(&self) -> LineView {
        LineView { lines: self.lines@, y: self.y, cur: views(self.cur@), cells: self.cells }
    }
}

/// A piece has a width, its node is of the document, and a box on the line is
/// one of `n`.
pub open spec fn piece_ok(p: PieceView, dom: &Dom, n: nat) -> bool {
    &&& known(dom, p.node)
    &&& p.kind is Atomic || p.cells >= 0
    &&& match p.kind {
        PieceKind::Atomic(id) => id.0 < n,
        _ => true,
    }
}

pub open spec fn pieces_in_range(cur: Seq<PieceView>, dom: &Dom, n: nat) -> bool {
    forall|i: int| 0 <= i < cur.len() ==> piece_ok(#[trigger] cur[i], dom, n)
}

impl LineView {
    pub open spec fn ok(self, dom: &Dom, n: nat) -> bool {
        in_range(self.lines, n) && pieces_in_range(self.cur, dom, n)
    }

    pub open spec fn begin(y: i32) -> LineView {
        LineView { lines: Seq::empty(), y, cur: Seq::empty(), cells: 0 }
    }

    pub open spec fn with_cur(self, cur: Seq<PieceView>) -> LineView {
        LineView { cur, ..self }
    }

    pub open spec fn with_cells(self, cells: i32) -> LineView {
        LineView { cells, ..self }
    }
}

/// The pieces without the spaces at their end.
pub open spec fn closed(cur: Seq<PieceView>) -> Seq<PieceView>
    decreases cur.len(),
{
    if cur.len() > 0 && cur.last().kind is Space {
        closed(cur.drop_last())
    } else {
        cur
    }
}

/// The pieces without one space at their end.
pub open spec fn without_space(cur: Seq<PieceView>) -> Seq<PieceView> {
    if cur.len() > 0 && cur.last().kind is Space {
        cur.drop_last()
    } else {
        cur
    }
}

/// The cells of the pieces from the `i`th on.
pub open spec fn run_cells(cur: Seq<PieceView>, i: int, sum: i32) -> i32
    decreases cur.len() - i,
{
    if i >= cur.len() {
        sum
    } else {
        run_cells(cur, i + 1, plus(sum, cur[i].cells))
    }
}

/// How many rows a box on a line occupies, and which of them carries its
/// baseline: that of its last line, or else the one past its bottom.
pub open spec fn rows_of_atomic(boxes: Seq<BoxView>, id: BoxId) -> (i32, i32) {
    let outer = boxes[id.0 as int].dimensions.margin_box();
    (
        outer.height,
        match last_row(boxes, boxes.len(), id) {
            Some(row) => minus(row, outer.y),
            None => outer.height,
        },
    )
}

/// How wide a line's content is, and how many rows it needs either side of its
/// baseline.
#[derive(Clone, Copy, PartialEq, Eq, Debug, Structural)]
pub struct Extent {
    pub cells: i32,
    pub above: i32,
    pub below: i32,
}

pub open spec fn extent_from(boxes: Seq<BoxView>, cur: Seq<PieceView>, i: int, e: Extent) -> Extent
    decreases cur.len() - i,
{
    if i >= cur.len() {
        e
    } else {
        let cells = plus(e.cells, cur[i].cells);
        extent_from(
            boxes,
            cur,
            i + 1,
            match cur[i].kind {
                PieceKind::Atomic(id) => {
                    let (height, baseline) = rows_of_atomic(boxes, id);
                    Extent {
                        cells,
                        above: larger(e.above, baseline),
                        below: larger(
                            e.below,
                            larger(minus(minus(height, 1), baseline), 0),
                        ),
                    }
                },
                _ => Extent { cells, ..e },
            },
        )
    }
}

/// One more piece, joined to the last one where both are text of one style.
pub open spec fn joined_with(acc: Seq<PieceView>, p: PieceView) -> Seq<PieceView> {
    if acc.len() > 0 && !(p.kind is Atomic) && !(acc.last().kind is Atomic) && acc.last().style
        == p.style {
        let last = acc.last();
        acc.drop_last().push(
            PieceView {
                text: last.text + p.text,
                cells: plus(last.cells, p.cells),
                node: match last.node {
                    Some(n) => Some(n),
                    None => p.node,
                },
                ..last
            },
        )
    } else {
        acc.push(p)
    }
}

pub open spec fn merged_from(cur: Seq<PieceView>, i: int, acc: Seq<PieceView>) -> Seq<PieceView>
    decreases cur.len() - i,
{
    if i >= cur.len() {
        acc
    } else {
        merged_from(cur, i + 1, joined_with(acc, cur[i]))
    }
}

/// Adjacent pieces of one style as one.
pub open spec fn merged(cur: Seq<PieceView>) -> Seq<PieceView> {
    merged_from(cur, 0, Seq::empty())
}

/// A box put on its line: its baseline on the shared row, and moved from there
/// if its style says so.
pub open spec fn hung(cv: Canvas, id: BoxId, cx: i32, baseline_row: i32, width: i32) -> Canvas {
    let outer = cv.dims(id).margin_box();
    let (_, baseline) = rows_of_atomic(cv.boxes, id);
    let there = cv.moved(id, minus(cx, outer.x), minus(minus(baseline_row, baseline), outer.y));
    let style = there.boxes[id.0 as int].computed;
    if is_shifted(style.position) {
        let (dx, dy) = flow_delta(style, width, None);
        there.moved(id, dx, dy)
    } else {
        there
    }
}

/// The pieces from the `i`th on, placed from column `cx`.
pub open spec fn placed_from(
    cv: Canvas,
    pieces: Seq<PieceView>,
    i: int,
    cx: i32,
    baseline_row: i32,
    width: i32,
    ids: Seq<BoxId>,
) -> (Canvas, Seq<BoxId>)
    decreases pieces.len() - i,
{
    if i >= pieces.len() {
        (cv, ids)
    } else {
        let p = pieces[i];
        let (next, id) = match p.kind {
            PieceKind::Atomic(id) => (hung(cv, id, cx, baseline_row, width), id),
            _ => (
                cv.with_box(
                    text_box(
                        p.node,
                        Rect { x: cx, y: baseline_row, width: p.cells, height: 1 },
                        p.text,
                        p.style,
                    ),
                ),
                cv.next_id(),
            ),
        };
        placed_from(next, pieces, i + 1, plus(cx, p.cells), baseline_row, width, ids.push(id))
    }
}

/// How far a line's content moves right.
#[verifier::allow_in_spec]
pub fn align_shift(align: TextAlign, width: i32, cells: i32) -> (r: i32)
    returns
        (match align {
            TextAlign::Left => 0,
            TextAlign::Center => larger(half(minus(width, cells)), 0),
            TextAlign::Right => larger(minus(width, cells), 0),
        }),
{
    match align {
        TextAlign::Left => 0,
        TextAlign::Center => larger(half(minus(width, cells)), 0),
        TextAlign::Right => larger(minus(width, cells), 0),
    }
}

/// The current line closed and put in a line box, unless it has nothing on it.
pub open spec fn emitted(cv: Canvas, lb: LineView, x: i32, width: i32, align: TextAlign) -> (
    Canvas,
    LineView,
) {
    let cur = closed(lb.cur);
    if cur.len() == 0 {
        (cv, lb.with_cur(cur))
    } else {
        let e = extent_from(cv.boxes, cur, 0, Extent { cells: 0, above: 0, below: 0 });
        let height = plus(plus(e.above, 1), e.below);
        let line = cv.next_id();
        let with_line = cv.with_box(
            plain_box(
                BoxKind::Line,
                None,
                Dimensions::bare(Rect { x, y: lb.y, width, height }),
                ComputedStyle::initial(),
            ),
        );
        let (full, ids) = placed_from(
            with_line,
            merged(cur),
            0,
            plus(x, align_shift(align, width, e.cells)),
            plus(lb.y, e.above),
            width,
            Seq::empty(),
        );
        (
            full.with_children(line, ids),
            LineView {
                lines: lb.lines.push(line),
                y: plus(lb.y, height),
                cur: Seq::empty(),
                cells: lb.cells,
            },
        )
    }
}

/// An empty line one row tall.
pub open spec fn empty_line(cv: Canvas, lb: LineView, x: i32, width: i32) -> (Canvas, LineView) {
    (
        cv.with_box(
            plain_box(
                BoxKind::Line,
                None,
                Dimensions::bare(Rect { x, y: lb.y, width, height: 1 }),
                ComputedStyle::initial(),
            ),
        ),
        LineView { lines: lb.lines.push(cv.next_id()), y: plus(lb.y, 1), ..lb },
    )
}

/// An image's width kept within its column, and never nothing.
pub open spec fn image_width_in(cells_w: i32, width: i32) -> i32 {
    larger(smaller(cells_w, width), 1)
}

impl LineBuilder {
    pub fn begin(y: i32) -> (r: LineBuilder)
        ensures
            r@ == LineView::begin(y),
    {
        LineBuilder { lines: Vec::new(), y, cur: Vec::new(), cells: 0 }
    }

    pub fn ends_in_space(&self) -> (r: bool)
        ensures
            r == (self@.cur.len() > 0 && self@.cur.last().kind is Space),
    {
        self.cur.len() > 0 && self.cur[self.cur.len() - 1].is_space()
    }

    /// Drop one space at the end of the line.
    pub fn drop_space(&mut self)
        ensures
            final(self)@ == old(self)@.with_cur(without_space(old(self)@.cur)),
    {
        if self.ends_in_space() {
            let ghost before = views(self.cur@);
            self.cur.pop();
            proof {
                assert(views(self.cur@) =~= before.drop_last());
            }
        }
    }

    pub fn push(&mut self, p: Piece)
        ensures
            final(self)@ == old(self)@.with_cur(old(self)@.cur.push(p@)),
    {
        self.cur.push(p);
    }

    /// The cells of everything on the line.
    pub fn sum_cells(&self) -> (r: i32)
        ensures
            r == run_cells(self@.cur, 0, 0),
    {
        let ghost cur = self@.cur;
        let mut sum: i32 = 0;
        let mut i: usize = 0;
        while i < self.cur.len()
            invariant
                cur == views(self.cur@),
                i <= self.cur@.len(),
                run_cells(cur, 0, 0) == run_cells(cur, i as int, sum),
            decreases self.cur@.len() - i,
        {
            sum = plus(sum, self.cur[i].cells);
            i += 1;
        }
        sum
    }
}

fn merge(cur: &Vec<Piece>, Ghost(dom): Ghost<&Dom>, Ghost(n): Ghost<nat>) -> (r: Vec<Piece>)
    requires
        pieces_in_range(views(cur@), dom, n),
    ensures
        views(r@) == merged(views(cur@)),
        pieces_in_range(views(r@), dom, n),
{
    let ghost all = views(cur@);
    let mut acc: Vec<Piece> = Vec::new();
    let mut i: usize = 0;
    while i < cur.len()
        invariant
            all == views(cur@),
            pieces_in_range(all, dom, n),
            pieces_in_range(views(acc@), dom, n),
            i <= cur@.len(),
            merged(all) == merged_from(all, i as int, views(acc@)),
        decreases cur@.len() - i,
    {
        let p: &Piece = &cur[i];
        let ghost before = views(acc@);
        let m: usize = acc.len();
        let fits: bool = m > 0 && !matches!(p.kind, PieceKind::Atomic(_)) && !matches!(
            acc[m - 1].kind,
            PieceKind::Atomic(_)
        ) && acc[m - 1].style == p.style;
        if fits {
            let last: &Piece = &acc[m - 1];
            let mut text: String = last.text.clone();
            text.append(p.text.as_str());
            let grown: Piece = Piece {
                text,
                cells: plus(last.cells, p.cells),
                style: last.style,
                node: match last.node {
                    Some(n) => Some(n),
                    None => p.node,
                },
                kind: last.kind,
            };
            acc.set(m - 1, grown);
        } else {
            acc.push(p.copied());
        }
        proof {
            assert(p@ == all[i as int]);
            assert(views(acc@) =~= joined_with(before, all[i as int]));
        }
        i += 1;
    }
    acc
}

impl<'a> Engine<'a> {
    /// See [`rows_of_atomic`].
    pub fn atomic_rows(&self, id: BoxId) -> (r: (i32, i32))
        requires
            self.has_box(id),
        ensures
            r == rows_of_atomic(self.canvas().boxes, id),
    {
        let outer: Rect = self.dims(id).margin_box();
        let baseline: i32 = match self.last_line_row(self.boxes.len(), id) {
            Some(row) => minus(row, outer.y),
            None => outer.height,
        };
        (outer.height, baseline)
    }

    fn extent(&self, cur: &Vec<Piece>) -> (r: Extent)
        requires
            pieces_in_range(views(cur@), self.ctx.dom, self.boxes@.len()),
        ensures
            r == extent_from(
                self.canvas().boxes,
                views(cur@),
                0,
                Extent { cells: 0, above: 0, below: 0 },
            ),
            r.above >= 0,
            r.below >= 0,
    {
        let ghost all = views(cur@);
        let ghost boxes = self.canvas().boxes;
        let mut e: Extent = Extent { cells: 0, above: 0, below: 0 };
        let ghost goal = extent_from(boxes, all, 0, e);
        let mut i: usize = 0;
        while i < cur.len()
            invariant
                all == views(cur@),
                boxes == self.canvas().boxes,
                pieces_in_range(all, self.ctx.dom, self.boxes@.len()),
                i <= cur@.len(),
                e.above >= 0,
                e.below >= 0,
                goal == extent_from(boxes, all, i as int, e),
            decreases cur@.len() - i,
        {
            proof {
                assert(all[i as int] == cur@[i as int]@);
            }
            e.cells = plus(e.cells, cur[i].cells);
            match cur[i].kind {
                PieceKind::Atomic(id) => {
                    let (height, baseline): (i32, i32) = self.atomic_rows(id);
                    e.above = larger(e.above, baseline);
                    e.below = larger(e.below, larger(minus(minus(height, 1), baseline), 0));
                },
                _ => {},
            }
            i += 1;
        }
        e
    }

    fn hang(&mut self, id: BoxId, cx: i32, baseline_row: i32, width: i32)
        requires
            old(self).ok(),
            old(self).has_box(id),
        ensures
            final(self).follows(*old(self)),
            final(self).boxes@.len() == old(self).boxes@.len(),
            final(self).canvas() == hung(old(self).canvas(), id, cx, baseline_row, width),
    {
        let outer: Rect = self.dims(id).margin_box();
        let (_, baseline): (i32, i32) = self.atomic_rows(id);
        self.shift_subtree(
            id,
            minus(cx, outer.x),
            minus(minus(baseline_row, baseline), outer.y),
        );
        let style: ComputedStyle = self.boxes[id.0].computed;
        if is_shifted(style.position) {
            let (dx, dy): (i32, i32) = flow_delta(style, width, None);
            self.shift_subtree(id, dx, dy);
        }
    }

    fn place_pieces(
        &mut self,
        pieces: &Vec<Piece>,
        from: i32,
        baseline_row: i32,
        width: i32,
    ) -> (r: Vec<BoxId>)
        requires
            old(self).ok(),
            pieces_in_range(views(pieces@), old(self).ctx.dom, old(self).boxes@.len()),
        ensures
            final(self).follows(*old(self)),
            in_range(r@, final(self).boxes@.len()),
            (final(self).canvas(), r@) == placed_from(
                old(self).canvas(),
                views(pieces@),
                0,
                from,
                baseline_row,
                width,
                Seq::empty(),
            ),
    {
        let ghost all = views(pieces@);
        let mut ids: Vec<BoxId> = Vec::new();
        let mut cx: i32 = from;
        let ghost goal = placed_from(self.canvas(), all, 0, cx, baseline_row, width, Seq::empty());
        let mut i: usize = 0;
        while i < pieces.len()
            invariant
                self.follows(*old(self)),
                all == views(pieces@),
                pieces_in_range(all, old(self).ctx.dom, old(self).boxes@.len()),
                in_range(ids@, self.boxes@.len()),
                i <= pieces@.len(),
                goal == placed_from(
                    self.canvas(),
                    all,
                    i as int,
                    cx,
                    baseline_row,
                    width,
                    ids@,
                ),
            decreases pieces@.len() - i,
        {
            let p: &Piece = &pieces[i];
            proof {
                assert(p@ == all[i as int]);
            }
            let id: BoxId = match p.kind {
                PieceKind::Atomic(id) => {
                    self.hang(id, cx, baseline_row, width);
                    id
                },
                _ => {
                    let b: LayoutBox = new_text_box(
                        p.node,
                        Rect { x: cx, y: baseline_row, width: p.cells, height: 1 },
                        p.text.clone(),
                        p.style,
                    );
                    self.add_box(b)
                },
            };
            ids.push(id);
            cx = plus(cx, p.cells);
            i += 1;
        }
        ids
    }

    /// Close the current line and put it in a line box. See [`emitted`].
    pub fn emit_line(&mut self, lb: &mut LineBuilder, x: i32, width: i32, align: TextAlign)
        requires
            old(self).ok(),
            width >= 0,
            old(lb)@.ok(old(self).ctx.dom, old(self).boxes@.len()),
        ensures
            final(self).follows(*old(self)),
            final(lb)@.ok(final(self).ctx.dom, final(self).boxes@.len()),
            (final(self).canvas(), final(lb)@) == emitted(
                old(self).canvas(),
                old(lb)@,
                x,
                width,
                align,
            ),
    {
        let ghost start = lb@;
        let ghost n = self.boxes@.len();
        while lb.ends_in_space()
            invariant
                lb@.lines == start.lines,
                lb@.y == start.y,
                lb@.cells == start.cells,
                lb@.ok(self.ctx.dom, n),
                closed(start.cur) == closed(lb@.cur),
            decreases lb@.cur.len(),
        {
            lb.drop_space();
        }
        if lb.cur.len() == 0 {
            return;
        }
        let e: Extent = self.extent(&lb.cur);
        let height: i32 = plus(plus(e.above, 1), e.below);
        let shift: i32 = align_shift(align, width, e.cells);
        let line: LayoutBox = new_box(
            BoxKind::Line,
            None,
            Dimensions::bare(Rect { x, y: lb.y, width, height }),
            ComputedStyle::initial(),
        );
        let id: BoxId = self.add_box(line);
        let pieces: Vec<Piece> = merge(&lb.cur, Ghost(self.ctx.dom), Ghost(n));
        let ids: Vec<BoxId> = self.place_pieces(
            &pieces,
            plus(x, shift),
            plus(lb.y, e.above),
            width,
        );
        self.set_children(id, ids);
        lb.lines.push(id);
        lb.y = plus(lb.y, height);
        lb.cur = Vec::new();
    }

    /// An empty line one row tall. See [`empty_line`].
    pub fn emit_empty_line(&mut self, lb: &mut LineBuilder, x: i32, width: i32)
        requires
            old(self).ok(),
            width >= 0,
            old(lb)@.ok(old(self).ctx.dom, old(self).boxes@.len()),
        ensures
            final(self).follows(*old(self)),
            final(lb)@.ok(final(self).ctx.dom, final(self).boxes@.len()),
            (final(self).canvas(), final(lb)@) == empty_line(
                old(self).canvas(),
                old(lb)@,
                x,
                width,
            ),
    {
        let line: LayoutBox = new_box(
            BoxKind::Line,
            None,
            Dimensions::bare(Rect { x, y: lb.y, width, height: 1 }),
            ComputedStyle::initial(),
        );
        let id: BoxId = self.add_box(line);
        lb.lines.push(id);
        lb.y = plus(lb.y, 1);
    }
}

} // verus!
