//! What holds of every broken line of text.

use vstd::prelude::*;

use crate::blocks::Recipe;
use crate::boxes::{BoxId, BoxKind, BoxView};
use crate::breaker::{chunk, hard_broken, piece_placed, wrapped};
use crate::cells::{fit, larger, plus};
use crate::context::Ctx;
use crate::dom::NodeId;
use crate::engine::{text_box, Canvas};
use crate::dimensions::Rect;
use crate::inline::{
    frags_from, item_frags, word_frags, word_piece, FragView, InlineItem, PieceKind, PieceView,
};
use crate::intrinsic::{text_pieces, word_pieces, Run};
use crate::linebox::{
    closed, emitted, empty_line, joined_with, merged, merged_from, placed_from, run_cells,
    without_space, LineView,
};
use crate::style::TextAlign;
use crate::sums::{sum, sum_is_not_negative};
use crate::term::Style;
use crate::text::{cells_of, char_cells_of, is_html_space, words_of, Spaces};

verus! {

/// The cells of some pieces.
pub open spec fn cells_on(cur: Seq<PieceView>) -> int {
    sum(cur.map_values(|p: PieceView| p.cells as int))
}

/// A piece of text: no box, and no negative width.
pub open spec fn is_text_piece(p: PieceView) -> bool {
    !(p.kind is Atomic) && 0 <= p.cells
}

pub open spec fn all_text(cur: Seq<PieceView>) -> bool {
    forall|i: int| 0 <= i < cur.len() ==> is_text_piece(#[trigger] cur[i])
}

/// Fragments that are all text.
pub open spec fn text_frags(frags: Seq<FragView>) -> bool {
    forall|i: int|
        0 <= i < frags.len() ==> ((#[trigger] frags[i]) matches FragView::Piece(p) && is_text_piece(
            p,
        ) && (p.kind is Space ==> p.cells == 1))
}

/// Items that are all text: no image, and nothing that joins its line whole.
pub open spec fn text_items(items: Seq<InlineItem>) -> bool {
    forall|i: int|
        0 <= i < items.len() ==> !((#[trigger] items[i]) is Image) && !(items[i] is Atomic)
}

pub proof fn cells_of_one_more(cur: Seq<PieceView>, p: PieceView)
    ensures
        cells_on(cur.push(p)) == cells_on(cur) + p.cells,
{
    let m = |p: PieceView| p.cells as int;
    assert(cur.push(p).map_values(m) =~= cur.map_values(m).push(p.cells as int));
    assert(cur.map_values(m).push(p.cells as int).drop_last() =~= cur.map_values(m));
}

proof fn cells_of_one_fewer(cur: Seq<PieceView>)
    requires
        cur.len() > 0,
    ensures
        cells_on(cur) == cells_on(cur.drop_last()) + cur.last().cells,
{
    cells_of_one_more(cur.drop_last(), cur.last());
    assert(cur.drop_last().push(cur.last()) =~= cur);
}

pub proof fn cells_are_not_negative(cur: Seq<PieceView>)
    requires
        all_text(cur),
    ensures
        0 <= cells_on(cur),
{
    let s = cur.map_values(|p: PieceView| p.cells as int);
    assert forall|j: int| 0 <= j < s.len() implies 0 <= #[trigger] s[j] by {
        assert(is_text_piece(cur[j]));
    }
    sum_is_not_negative(s);
}

/// A piece joined to others keeps the sum of their cells.
proof fn joining_keeps_cells(acc: Seq<PieceView>, p: PieceView)
    requires
        all_text(acc),
        is_text_piece(p),
        cells_on(acc) + p.cells <= i32::MAX,
    ensures
        cells_on(joined_with(acc, p)) == cells_on(acc) + p.cells,
        all_text(joined_with(acc, p)),
{
    if acc.len() > 0 && acc.last().style == p.style {
        let rest = acc.drop_last();
        cells_of_one_fewer(acc);
        assert(all_text(rest)) by {
            assert forall|i: int| 0 <= i < rest.len() implies is_text_piece(#[trigger] rest[i]) by {
                assert(is_text_piece(acc[i]));
            }
        }
        cells_are_not_negative(rest);
        assert(is_text_piece(acc[acc.len() - 1]));
        let last = acc.last();
        let grown = PieceView {
            text: last.text + p.text,
            cells: plus(last.cells, p.cells),
            node: match last.node {
                Some(n) => Some(n),
                None => p.node,
            },
            ..last
        };
        cells_of_one_more(rest, grown);
    } else {
        cells_of_one_more(acc, p);
    }
}

proof fn merging_keeps_cells(cur: Seq<PieceView>, i: int, acc: Seq<PieceView>)
    requires
        0 <= i <= cur.len(),
        all_text(cur),
        all_text(acc),
        cells_on(acc) + cells_on(cur.skip(i)) <= i32::MAX,
    ensures
        cells_on(merged_from(cur, i, acc)) == cells_on(acc) + cells_on(cur.skip(i)),
        all_text(merged_from(cur, i, acc)),
    decreases cur.len() - i,
{
    if i < cur.len() {
        let rest = cur.skip(i + 1);
        assert(is_text_piece(cur[i]));
        assert(all_text(rest)) by {
            assert forall|j: int| 0 <= j < rest.len() implies is_text_piece(#[trigger] rest[j]) by {
                assert(is_text_piece(cur[i + 1 + j]));
            }
        }
        cells_are_not_negative(rest);
        first_and_rest(cur.skip(i));
        assert(cur.skip(i).drop_first() =~= rest);
        joining_keeps_cells(acc, cur[i]);
        merging_keeps_cells(cur, i + 1, joined_with(acc, cur[i]));
    } else {
        assert(cur.skip(i) =~= Seq::<PieceView>::empty());
        assert(cells_on(Seq::<PieceView>::empty()) == 0) by {
            assert(Seq::<PieceView>::empty().map_values(|p: PieceView| p.cells as int) =~= Seq::<
                int,
            >::empty());
        }
    }
}

proof fn first_and_rest(cur: Seq<PieceView>)
    requires
        cur.len() > 0,
    ensures
        cells_on(cur) == cur[0].cells + cells_on(cur.drop_first()),
    decreases cur.len(),
{
    cells_of_one_fewer(cur);
    let none = Seq::<PieceView>::empty();
    assert(none.map_values(|p: PieceView| p.cells as int) =~= Seq::<int>::empty());
    if cur.len() == 1 {
        assert(cur.drop_last() =~= none);
        assert(cur.drop_first() =~= none);
    } else {
        first_and_rest(cur.drop_last());
        cells_of_one_fewer(cur.drop_first());
        assert(cur.drop_last().drop_first() =~= cur.drop_first().drop_last());
        assert(cur.drop_first().last() == cur.last());
        assert(cur.drop_last()[0] == cur[0]);
    }
}

/// What boxes `ids[..n]` take side by side.
pub open spec fn across(boxes: Seq<BoxView>, ids: Seq<BoxId>, n: int) -> int
    decreases n,
{
    if n <= 0 {
        0
    } else {
        across(boxes, ids, n - 1) + boxes[ids[n - 1].0 as int].dimensions.content.width
    }
}

/// A line box whose contents fit in `width` cells.
pub open spec fn line_fits(boxes: Seq<BoxView>, id: BoxId, width: i32) -> bool {
    let line = boxes[id.0 as int];
    &&& id.0 < boxes.len()
    &&& line.kind is Line
    &&& forall|k: int| 0 <= k < line.children.len() ==> (#[trigger] line.children[k]).0 < boxes.len()
    &&& across(boxes, line.children, line.children.len() as int) <= width
}

pub open spec fn lines_fit(boxes: Seq<BoxView>, lines: Seq<BoxId>, width: i32) -> bool {
    forall|i: int| 0 <= i < lines.len() ==> line_fits(boxes, #[trigger] lines[i], width)
}

/// Boxes that begin with others, unchanged.
pub open spec fn begins_with(boxes: Seq<BoxView>, start: Seq<BoxView>) -> bool {
    &&& start.len() <= boxes.len()
    &&& forall|i: int| 0 <= i < start.len() ==> #[trigger] boxes[i] == start[i]
}

proof fn across_is_unchanged(a: Seq<BoxView>, b: Seq<BoxView>, ids: Seq<BoxId>, n: int)
    requires
        begins_with(b, a),
        0 <= n <= ids.len(),
        forall|k: int| 0 <= k < ids.len() ==> (#[trigger] ids[k]).0 < a.len(),
    ensures
        across(b, ids, n) == across(a, ids, n),
    decreases n,
{
    if n > 0 {
        across_is_unchanged(a, b, ids, n - 1);
        assert(ids[n - 1].0 < a.len());
        assert(b[ids[n - 1].0 as int] == a[ids[n - 1].0 as int]);
    }
}

proof fn lines_still_fit(a: Seq<BoxView>, b: Seq<BoxView>, lines: Seq<BoxId>, width: i32)
    requires
        begins_with(b, a),
        lines_fit(a, lines, width),
    ensures
        lines_fit(b, lines, width),
{
    assert forall|i: int| 0 <= i < lines.len() implies line_fits(b, #[trigger] lines[i], width) by {
        assert(line_fits(a, lines[i], width));
        let line = a[lines[i].0 as int];
        assert(b[lines[i].0 as int] == line);
        across_is_unchanged(a, b, line.children, line.children.len() as int);
    }
}

/// Where a box's border box ends.
pub open spec fn bottom_of(b: BoxView) -> i32 {
    b.dimensions.border_box().bottom()
}

pub proof fn placing_text(
    cv: Canvas,
    pieces: Seq<PieceView>,
    i: int,
    cx: i32,
    row: i32,
    width: i32,
    ids: Seq<BoxId>,
)
    requires
        0 <= i <= pieces.len(),
        all_text(pieces),
        cv.boxes.len() + (pieces.len() - i) <= usize::MAX,
    ensures
        ({
            let r = placed_from(cv, pieces, i, cx, row, width, ids);
            &&& r.0.boxes.len() == cv.boxes.len() + (pieces.len() - i)
            &&& begins_with(r.0.boxes, cv.boxes)
            &&& r.0.borders == cv.borders
            &&& r.1.len() == ids.len() + (pieces.len() - i)
            &&& forall|k: int| 0 <= k < ids.len() ==> #[trigger] r.1[k] == ids[k]
            &&& forall|k: int|
                ids.len() <= k < r.1.len() ==> (#[trigger] r.1[k]).0 == cv.boxes.len() + (k
                    - ids.len())
            &&& forall|k: int|
                cv.boxes.len() <= k < r.0.boxes.len() ==> (
                #[trigger] r.0.boxes[k]).dimensions.content.width == pieces[i + (k
                    - cv.boxes.len())].cells
            &&& forall|k: int|
                cv.boxes.len() <= k < r.0.boxes.len() ==> bottom_of(#[trigger] r.0.boxes[k]) == plus(
                    row,
                    1,
                )
            &&& forall|k: int|
                cv.boxes.len() <= k < r.0.boxes.len() ==> {
                    let b = #[trigger] r.0.boxes[k];
                    &&& b.kind is Text
                    &&& b.dimensions.content.y == row
                    &&& b.text == Some(pieces[i + (k - cv.boxes.len())].text)
                }
        }),
    decreases pieces.len() - i,
{
    if i < pieces.len() {
        let p = pieces[i];
        assert(is_text_piece(p));
        let b = text_box(
            p.node,
            Rect { x: cx, y: row, width: p.cells, height: 1 },
            p.text,
            p.style,
        );
        let next = cv.with_box(b);
        let id = cv.next_id();
        placing_text(next, pieces, i + 1, plus(cx, p.cells), row, width, ids.push(id));
        let r = placed_from(next, pieces, i + 1, plus(cx, p.cells), row, width, ids.push(id));
        assert forall|k: int| 0 <= k < cv.boxes.len() implies #[trigger] r.0.boxes[k]
            == cv.boxes[k] by {
            assert(next.boxes[k] == cv.boxes[k]);
        }
        assert forall|k: int| 0 <= k < ids.len() implies #[trigger] r.1[k] == ids[k] by {
            assert(ids.push(id)[k] == ids[k]);
        }
        assert(r.1[ids.len() as int] == ids.push(id)[ids.len() as int]);
        assert(r.0.boxes[cv.boxes.len() as int] == next.boxes[cv.boxes.len() as int]);
    }
}

pub proof fn placing_adds(
    cv: Canvas,
    pieces: Seq<PieceView>,
    i: int,
    cx: i32,
    row: i32,
    width: i32,
    ids: Seq<BoxId>,
)
    requires
        0 <= i <= pieces.len(),
        all_text(pieces),
    ensures
        placed_from(cv, pieces, i, cx, row, width, ids).0.boxes.len() == cv.boxes.len() + (
        pieces.len() - i),
    decreases pieces.len() - i,
{
    if i < pieces.len() {
        let p = pieces[i];
        assert(is_text_piece(p));
        let b = text_box(
            p.node,
            Rect { x: cx, y: row, width: p.cells, height: 1 },
            p.text,
            p.style,
        );
        placing_adds(
            cv.with_box(b),
            pieces,
            i + 1,
            plus(cx, p.cells),
            row,
            width,
            ids.push(cv.next_id()),
        );
    }
}

proof fn across_text(boxes: Seq<BoxView>, ids: Seq<BoxId>, pieces: Seq<PieceView>, base: int, n: int)
    requires
        ids.len() == pieces.len(),
        0 <= n <= ids.len(),
        0 <= base,
        base + ids.len() <= boxes.len(),
        forall|k: int| 0 <= k < ids.len() ==> (#[trigger] ids[k]).0 == base + k,
        forall|k: int|
            base <= k < base + ids.len() ==> (#[trigger] boxes[k]).dimensions.content.width
                == pieces[k - base].cells,
    ensures
        across(boxes, ids, n) == cells_on(pieces.take(n)),
    decreases n,
{
    if n > 0 {
        across_text(boxes, ids, pieces, base, n - 1);
        cells_of_one_more(pieces.take(n - 1), pieces[n - 1]);
        assert(pieces.take(n - 1).push(pieces[n - 1]) =~= pieces.take(n));
        assert(ids[n - 1].0 == base + n - 1);
        assert(boxes[base + n - 1].dimensions.content.width == pieces[n - 1].cells);
    } else {
        assert(pieces.take(0).map_values(|p: PieceView| p.cells as int) =~= Seq::<int>::empty());
    }
}

pub proof fn closing_keeps_text(cur: Seq<PieceView>)
    requires
        all_text(cur),
    ensures
        all_text(closed(cur)),
        cells_on(closed(cur)) <= cells_on(cur),
        closed(without_space(cur)) == closed(cur),
        closed(closed(cur)) == closed(cur),
    decreases cur.len(),
{
    if cur.len() > 0 && cur.last().kind is Space {
        let rest = cur.drop_last();
        assert forall|i: int| 0 <= i < rest.len() implies is_text_piece(#[trigger] rest[i]) by {
            assert(is_text_piece(cur[i]));
        }
        closing_keeps_text(rest);
        cells_of_one_fewer(cur);
        assert(is_text_piece(cur[cur.len() - 1]));
    }
}

/// Closing a line of text that fits adds a line that fits, and changes nothing
/// that was there.
proof fn a_closed_line_fits(cv: Canvas, lb: LineView, x: i32, width: i32, align: TextAlign)
    requires
        all_text(lb.cur),
        cells_on(closed(lb.cur)) <= width,
        lines_fit(cv.boxes, lb.lines, width),
        emitted(cv, lb, x, width, align).0.boxes.len() <= usize::MAX,
    ensures
        ({
            let r = emitted(cv, lb, x, width, align);
            &&& begins_with(r.0.boxes, cv.boxes)
            &&& lines_fit(r.0.boxes, r.1.lines, width)
            &&& r.1.cur.len() == 0
            &&& closed(lb.cur).len() == 0 ==> r.1.lines == lb.lines && r.0 == cv
            &&& closed(lb.cur).len() > 0 ==> r.1.lines.len() == lb.lines.len() + 1
        }),
{
    let cur = closed(lb.cur);
    closing_keeps_text(lb.cur);
    let r = emitted(cv, lb, x, width, align);
    if cur.len() > 0 {
        let pieces = merged(cur);
        assert(cur.skip(0) =~= cur);
        let none = Seq::<PieceView>::empty();
        assert(none.map_values(|p: PieceView| p.cells as int) =~= Seq::<int>::empty());
        merging_keeps_cells(cur, 0, none);
        let e = crate::linebox::extent_from(
            cv.boxes,
            cur,
            0,
            crate::linebox::Extent { cells: 0, above: 0, below: 0 },
        );
        let height = plus(plus(e.above, 1), e.below);
        let line = cv.next_id();
        let with_line = cv.with_box(
            crate::engine::plain_box(
                BoxKind::Line,
                None,
                crate::dimensions::Dimensions::bare(Rect { x, y: lb.y, width, height }),
                crate::style::ComputedStyle::initial(),
            ),
        );
        let cx = plus(x, crate::linebox::align_shift(align, width, e.cells));
        let row = plus(lb.y, e.above);
        placing_adds(with_line, pieces, 0, cx, row, width, Seq::empty());
        placing_text(with_line, pieces, 0, cx, row, width, Seq::empty());
        let (full, ids) = placed_from(with_line, pieces, 0, cx, row, width, Seq::empty());
        let after = full.with_children(line, ids).boxes;
        assert(r.0.boxes == after);
        let n = cv.boxes.len() as int;
        assert(full.boxes[n] == with_line.boxes[n]);
        assert forall|i: int| 0 <= i < n implies #[trigger] after[i] == cv.boxes[i] by {
            assert(full.boxes[i] == with_line.boxes[i]);
        }
        assert forall|k: int| n + 1 <= k < n + 1 + ids.len() implies (
        #[trigger] after[k]).dimensions.content.width == pieces[k - (n + 1)].cells by {
            assert(full.boxes[k].dimensions.content.width == pieces[0 + (k - (n + 1))].cells);
        }
        across_text(after, ids, pieces, n + 1, ids.len() as int);
        assert(pieces.take(ids.len() as int) =~= pieces);
        assert(line_fits(after, line, width));
        lines_still_fit(cv.boxes, after, lb.lines, width);
        assert forall|i: int| 0 <= i < r.1.lines.len() implies line_fits(
            after,
            #[trigger] r.1.lines[i],
            width,
        ) by {
            if i < lb.lines.len() {
                assert(line_fits(after, lb.lines[i], width));
            }
        }
    }
}

/// No character is wider than the line.
pub open spec fn glyphs_fit(width: i32) -> bool {
    forall|c: char| #[trigger] char_cells_of(c) <= width
}

proof fn a_chunk_fits(s: Seq<char>, from: int, i: int, cells: i32, limit: i32)
    requires
        0 <= from <= i,
        0 <= cells <= limit,
        glyphs_fit(limit),
        i == from ==> cells == 0,
    ensures
        0 <= chunk(s, from, i, cells, limit).1 <= limit,
    decreases s.len() - i,
{
    if i < s.len() {
        let w = char_cells_of(s[i]);
        assert(w >= 0);
        if !(i > from && plus(cells, w) > limit) {
            a_chunk_fits(s, from, i + 1, plus(cells, w), limit);
        }
    }
}

/// Where the breaking of a line stands: what is on it fits, its cells are
/// counted, and so far every line fits.
spec fn breaking(cv: Canvas, lb: LineView, width: i32) -> bool {
    &&& all_text(lb.cur)
    &&& cells_on(closed(lb.cur)) <= width
    &&& lines_fit(cv.boxes, lb.lines, width)
    &&& lb.cur.len() > 0 ==> lb.cells == fit(cells_on(lb.cur))
}

proof fn counting_cells(cur: Seq<PieceView>, i: int, so_far: i32)
    requires
        0 <= i <= cur.len(),
        all_text(cur),
        so_far == fit(cells_on(cur.take(i))),
    ensures
        run_cells(cur, i, so_far) == fit(cells_on(cur)),
    decreases cur.len() - i,
{
    if i < cur.len() {
        assert(is_text_piece(cur[i]));
        cells_of_one_more(cur.take(i), cur[i]);
        assert(cur.take(i).push(cur[i]) =~= cur.take(i + 1));
        assert(all_text(cur.take(i))) by {
            assert forall|j: int| 0 <= j < i implies is_text_piece(#[trigger] cur.take(i)[j]) by {
                assert(is_text_piece(cur[j]));
            }
        }
        cells_are_not_negative(cur.take(i));
        counting_cells(cur, i + 1, plus(so_far, cur[i].cells));
    } else {
        assert(cur.take(i) =~= cur);
    }
}

pub proof fn all_counted(cur: Seq<PieceView>)
    requires
        all_text(cur),
    ensures
        run_cells(cur, 0, 0) == fit(cells_on(cur)),
{
    assert(cur.take(0).map_values(|p: PieceView| p.cells as int) =~= Seq::<int>::empty());
    counting_cells(cur, 0, 0);
}

pub proof fn one_piece(p: PieceView)
    requires
        is_text_piece(p),
    ensures
        all_text(seq![p]),
        cells_on(seq![p]) == p.cells,
        cells_on(closed(seq![p])) <= p.cells,
{
    let none = Seq::<PieceView>::empty();
    assert(none.map_values(|p: PieceView| p.cells as int) =~= Seq::<int>::empty());
    cells_of_one_more(none, p);
    assert(none.push(p) =~= seq![p]);
    assert(all_text(seq![p]));
    closing_keeps_text(seq![p]);
}

proof fn parts_of_a_word_fit(
    cv: Canvas,
    lb: LineView,
    p: PieceView,
    from: int,
    x: i32,
    width: i32,
    align: TextAlign,
)
    requires
        0 <= from,
        lb.cur.len() == 0,
        lines_fit(cv.boxes, lb.lines, width),
        glyphs_fit(width),
        1 <= width < i32::MAX,
        hard_broken(cv, lb, p, from, x, width, align).0.boxes.len() <= usize::MAX,
    ensures
        ({
            let r = hard_broken(cv, lb, p, from, x, width, align);
            &&& all_text(r.1.cur)
            &&& cells_on(closed(r.1.cur)) <= width
            &&& lines_fit(r.0.boxes, r.1.lines, width)
            &&& cv.boxes.len() <= r.0.boxes.len()
        }),
    decreases p.text.len() - from,
{
    if from < p.text.len() {
        crate::breaker::chunk_moves_on(p.text, from, from, 0, width);
        a_chunk_fits(p.text, from, from, 0, width);
        let (end, cells) = chunk(p.text, from, from, 0, width);
        let part = word_piece(p.text.subrange(from, end), cells, p.style, p.node);
        one_piece(part);
        let with = lb.with_cur(lb.cur.push(part));
        assert(with.cur =~= seq![part]);
        if end < p.text.len() {
            let (cv2, lb2) = emitted(cv, with, x, width, align);
            breaking_adds(cv2, lb2, p, end, x, width, align);
            a_closed_line_fits(cv, with, x, width, align);
            parts_of_a_word_fit(cv2, lb2, p, end, x, width, align);
        }
    } else {
        assert(lb.cur =~= Seq::<PieceView>::empty());
        assert(lb.cur.map_values(|p: PieceView| p.cells as int) =~= Seq::<int>::empty());
    }
}

/// Breaking a word only ever adds boxes.
pub proof fn breaking_adds(
    cv: Canvas,
    lb: LineView,
    p: PieceView,
    from: int,
    x: i32,
    width: i32,
    align: TextAlign,
)
    requires
        0 <= from,
        all_text(lb.cur),
    ensures
        cv.boxes.len() <= hard_broken(cv, lb, p, from, x, width, align).0.boxes.len(),
        all_text(hard_broken(cv, lb, p, from, x, width, align).1.cur),
    decreases p.text.len() - from,
{
    if from < p.text.len() {
        crate::breaker::chunk_moves_on(p.text, from, from, 0, width);
        let (end, cells) = chunk(p.text, from, from, 0, width);
        chunks_are_not_negative(p.text, from, from, 0, width);
        let part = word_piece(p.text.subrange(from, end), cells, p.style, p.node);
        let with = lb.with_cur(lb.cur.push(part));
        assert forall|i: int| 0 <= i < with.cur.len() implies is_text_piece(
            #[trigger] with.cur[i],
        ) by {
            if i < lb.cur.len() {
                assert(is_text_piece(lb.cur[i]));
            }
        }
        if end < p.text.len() {
            let (cv2, lb2) = emitted(cv, with, x, width, align);
            closing_adds(cv, with, x, width, align);
            breaking_adds(cv2, lb2, p, end, x, width, align);
        }
    }
}

pub proof fn chunks_are_not_negative(s: Seq<char>, from: int, i: int, cells: i32, limit: i32)
    requires
        0 <= cells,
    ensures
        0 <= chunk(s, from, i, cells, limit).1,
    decreases s.len() - i,
{
    if i < s.len() {
        let w = char_cells_of(s[i]);
        if !(i > from && plus(cells, w) > limit) {
            chunks_are_not_negative(s, from, i + 1, plus(cells, w), limit);
        }
    }
}

/// How many boxes a line of text gets: its own, and one for each run of pieces
/// of one style.
pub open spec fn boxes_of_line(cur: Seq<PieceView>) -> nat {
    if closed(cur).len() == 0 {
        0
    } else {
        1 + merged(closed(cur)).len()
    }
}

/// Closing a line only ever adds boxes, and leaves nothing on it.
pub proof fn closing_adds(cv: Canvas, lb: LineView, x: i32, width: i32, align: TextAlign)
    requires
        all_text(lb.cur),
    ensures
        cv.boxes.len() <= emitted(cv, lb, x, width, align).0.boxes.len(),
        emitted(cv, lb, x, width, align).0.boxes.len() == cv.boxes.len() + boxes_of_line(lb.cur),
        emitted(cv, lb, x, width, align).1.cur.len() == 0,
        emitted(cv, lb, x, width, align).1.cells == lb.cells,
{
    let cur = closed(lb.cur);
    closing_keeps_text(lb.cur);
    if cur.len() > 0 {
        merging_keeps_text(cur, 0, Seq::empty());
        let pieces = merged(cur);
        let e = crate::linebox::extent_from(
            cv.boxes,
            cur,
            0,
            crate::linebox::Extent { cells: 0, above: 0, below: 0 },
        );
        let height = plus(plus(e.above, 1), e.below);
        let with_line = cv.with_box(
            crate::engine::plain_box(
                BoxKind::Line,
                None,
                crate::dimensions::Dimensions::bare(Rect { x, y: lb.y, width, height }),
                crate::style::ComputedStyle::initial(),
            ),
        );
        placing_adds(
            with_line,
            pieces,
            0,
            plus(x, crate::linebox::align_shift(align, width, e.cells)),
            plus(lb.y, e.above),
            width,
            Seq::empty(),
        );
    }
}

pub proof fn merging_keeps_text(cur: Seq<PieceView>, i: int, acc: Seq<PieceView>)
    requires
        0 <= i,
        all_text(cur),
        all_text(acc),
    ensures
        all_text(merged_from(cur, i, acc)),
    decreases cur.len() - i,
{
    if i < cur.len() {
        let next = joined_with(acc, cur[i]);
        assert forall|j: int| 0 <= j < next.len() implies is_text_piece(#[trigger] next[j]) by {
            assert(is_text_piece(cur[i]));
            if j < acc.len() {
                assert(is_text_piece(acc[j]));
            }
        }
        merging_keeps_text(cur, i + 1, next);
    }
}

proof fn a_placed_piece_fits(
    cv: Canvas,
    lb: LineView,
    p: PieceView,
    x: i32,
    width: i32,
    align: TextAlign,
)
    requires
        breaking(cv, lb, width),
        is_text_piece(p),
        p.kind is Space ==> p.cells == 1,
        glyphs_fit(width),
        1 <= width < i32::MAX,
        piece_placed(cv, lb, p, x, width, align).0.boxes.len() <= usize::MAX,
    ensures
        ({
            let r = piece_placed(cv, lb, p, x, width, align);
            &&& breaking(r.0, r.1, width)
            &&& cv.boxes.len() <= r.0.boxes.len()
        }),
{
    closing_keeps_text(lb.cur);
    cells_are_not_negative(lb.cur);
    let none = Seq::<PieceView>::empty();
    assert(none.map_values(|p: PieceView| p.cells as int) =~= Seq::<int>::empty());
    match p.kind {
        PieceKind::Break => {
            if lb.cur.len() == 0 {
                assert(lb.cur =~= none);
                let r = empty_line(cv, lb, x, width);
                let after = r.0.boxes;
                assert(begins_with(after, cv.boxes));
                lines_still_fit(cv.boxes, after, lb.lines, width);
                assert(line_fits(after, cv.next_id(), width));
                assert forall|i: int| 0 <= i < r.1.lines.len() implies line_fits(
                    after,
                    #[trigger] r.1.lines[i],
                    width,
                ) by {
                    if i < lb.lines.len() {
                        assert(line_fits(after, lb.lines[i], width));
                    }
                }
            } else {
                a_closed_line_fits(cv, lb, x, width, align);
                let r = emitted(cv, lb, x, width, align);
                assert(r.1.cur =~= none);
            }
        },
        PieceKind::Space => {
            if lb.cur.len() > 0 {
                let next = lb.cur.push(p);
                cells_of_one_more(lb.cur, p);
                assert(next.drop_last() =~= lb.cur);
                assert forall|i: int| 0 <= i < next.len() implies is_text_piece(
                    #[trigger] next[i],
                ) by {
                    if i < lb.cur.len() {
                        assert(is_text_piece(lb.cur[i]));
                    }
                }
            }
        },
        PieceKind::Atomic(_) => {},
        PieceKind::Word => {
            let dropped = lb.with_cur(without_space(lb.cur));
            assert forall|i: int| 0 <= i < dropped.cur.len() implies is_text_piece(
                #[trigger] dropped.cur[i],
            ) by {
                assert(is_text_piece(lb.cur[i]));
            }
            if p.cells > width {
                let (cv2, lb2) = wrapped(cv, lb, x, width, align);
                closing_adds(cv, dropped, x, width, align);
                breaking_adds(cv2, lb2, p, 0, x, width, align);
                a_closed_line_fits(cv, dropped, x, width, align);
                parts_of_a_word_fit(cv2, lb2, p, 0, x, width, align);
                let (cv3, lb3) = hard_broken(cv2, lb2, p, 0, x, width, align);
                all_counted(lb3.cur);
            } else if lb.cur.len() > 0 && plus(lb.cells, p.cells) > width {
                a_closed_line_fits(cv, dropped, x, width, align);
                let (cv2, lb2) = wrapped(cv, lb, x, width, align);
                one_piece(p);
                assert(lb2.cur.push(p) =~= seq![p]);
                all_counted(seq![p]);
            } else {
                let next = lb.cur.push(p);
                cells_of_one_more(lb.cur, p);
                assert forall|i: int| 0 <= i < next.len() implies is_text_piece(
                    #[trigger] next[i],
                ) by {
                    if i < lb.cur.len() {
                        assert(is_text_piece(lb.cur[i]));
                    }
                }
                if lb.cur.len() == 0 {
                    assert(lb.cur =~= none);
                }
                assert(closed(next) == next);
                all_counted(next);
            }
        },
    }
}

/// Placing a piece of text only ever adds boxes.
pub proof fn placing_a_piece_adds(
    cv: Canvas,
    lb: LineView,
    p: PieceView,
    x: i32,
    width: i32,
    align: TextAlign,
)
    requires
        all_text(lb.cur),
        is_text_piece(p),
    ensures
        cv.boxes.len() <= piece_placed(cv, lb, p, x, width, align).0.boxes.len(),
        all_text(piece_placed(cv, lb, p, x, width, align).1.cur),
{
    let dropped = lb.with_cur(without_space(lb.cur));
    assert forall|i: int| 0 <= i < dropped.cur.len() implies is_text_piece(
        #[trigger] dropped.cur[i],
    ) by {
        assert(is_text_piece(lb.cur[i]));
    }
    closing_adds(cv, lb, x, width, align);
    closing_adds(cv, dropped, x, width, align);
    if p.kind is Word && p.cells > width {
        let (cv2, lb2) = wrapped(cv, lb, x, width, align);
        breaking_adds(cv2, lb2, p, 0, x, width, align);
    }
    let next = piece_placed(cv, lb, p, x, width, align).1.cur;
    if !(p.kind is Word && p.cells > width) {
        assert forall|i: int| 0 <= i < next.len() implies is_text_piece(#[trigger] next[i]) by {
            if i < lb.cur.len() {
                assert(is_text_piece(lb.cur[i]));
            }
        }
    }
}

impl<'a> Ctx<'a> {
    proof fn placed_frags_fit(
        &self,
        rec: Recipe,
        cv: Canvas,
        lb: LineView,
        frags: Seq<FragView>,
        i: int,
        x: i32,
        width: i32,
        align: TextAlign,
    )
        requires
            0 <= i <= frags.len(),
            text_frags(frags),
            breaking(cv, lb, width),
            glyphs_fit(width),
            1 <= width < i32::MAX,
            self.frags_placed(rec, cv, lb, frags, i, x, width, align).0.boxes.len() <= usize::MAX,
        ensures
            ({
                let r = self.frags_placed(rec, cv, lb, frags, i, x, width, align);
                &&& breaking(r.0, r.1, width)
                &&& cv.boxes.len() <= r.0.boxes.len()
            }),
        decreases frags.len() - i,
    {
        if i < frags.len() {
            reveal(Ctx::frag_placed);
            let p = frags[i]->Piece_0;
            assert(frags[i] matches FragView::Piece(q) && is_text_piece(q));
            let (cv2, lb2) = piece_placed(cv, lb, p, x, width, align);
            placing_a_piece_adds(cv, lb, p, x, width, align);
            self.placing_frags_adds(rec, cv2, lb2, frags, i + 1, x, width, align);
            a_placed_piece_fits(cv, lb, p, x, width, align);
            self.placed_frags_fit(rec, cv2, lb2, frags, i + 1, x, width, align);
        }
    }

    /// Placing text only ever adds boxes.
    pub proof fn placing_frags_adds(
        &self,
        rec: Recipe,
        cv: Canvas,
        lb: LineView,
        frags: Seq<FragView>,
        i: int,
        x: i32,
        width: i32,
        align: TextAlign,
    )
        requires
            0 <= i <= frags.len(),
            text_frags(frags),
            all_text(lb.cur),
        ensures
            cv.boxes.len() <= self.frags_placed(
                rec,
                cv,
                lb,
                frags,
                i,
                x,
                width,
                align,
            ).0.boxes.len(),
        decreases frags.len() - i,
    {
        if i < frags.len() {
            reveal(Ctx::frag_placed);
            let p = frags[i]->Piece_0;
            assert(frags[i] matches FragView::Piece(q) && is_text_piece(q));
            let (cv2, lb2) = piece_placed(cv, lb, p, x, width, align);
            placing_a_piece_adds(cv, lb, p, x, width, align);
            self.placing_frags_adds(rec, cv2, lb2, frags, i + 1, x, width, align);
        }
    }
}

proof fn words_are_text(
    words: Seq<Seq<char>>,
    k: int,
    pending: Option<Style>,
    style: Style,
    node: NodeId,
)
    requires
        0 <= k,
    ensures
        text_frags(word_frags(words, k, pending, style, node)),
    decreases words.len() - k,
{
    if k < words.len() {
        words_are_text(words, k + 1, None, style, node);
        let rest = word_frags(words, k + 1, None, style, node);
        let all = word_frags(words, k, pending, style, node);
        let lead = all.len() - rest.len();
        assert forall|i: int| 0 <= i < all.len() implies ((#[trigger] all[i]) matches FragView::Piece(
            p,
        ) && is_text_piece(p) && (p.kind is Space ==> p.cells == 1)) by {
            if i >= lead {
                assert(all[i] == rest[i - lead]);
            }
        }
    }
}

impl<'a> Ctx<'a> {
    pub proof fn items_are_text(&self, items: Seq<InlineItem>, i: int, pending: Option<Style>)
        requires
            0 <= i,
            text_items(items),
        ensures
            text_frags(frags_from(self.dom, items, i, pending)),
        decreases items.len() - i,
    {
        if i < items.len() {
            let (here, next) = item_frags(self.dom, items[i], pending);
            let rest = frags_from(self.dom, items, i + 1, next);
            self.items_are_text(items, i + 1, next);
            assert(!(items[i] is Image) && !(items[i] is Atomic));
            if let InlineItem::Text { node, style } = items[i] {
                let text = self.dom.text_of(node);
                let before = if text.len() > 0 && is_html_space(text[0]) {
                    Some(style)
                } else {
                    pending
                };
                words_are_text(words_of(text, Spaces::Html), 0, before, style, node);
            }
            assert(text_frags(here));
            let all = here + rest;
            assert forall|j: int| 0 <= j < all.len() implies ((#[trigger] all[j]) matches FragView::Piece(
                p,
            ) && is_text_piece(p) && (p.kind is Space ==> p.cells == 1)) by {
                if j < here.len() {
                    assert(all[j] == here[j]);
                } else {
                    assert(all[j] == rest[j - here.len()]);
                }
            }
        }
    }

    /// No line of text is wider than the column it was broken for, as long as
    /// no single character is.
    pub proof fn no_line_of_text_is_overfull(
        &self,
        rec: Recipe,
        cv: Canvas,
        items: Seq<InlineItem>,
        x: i32,
        y: i32,
        width: i32,
        align: TextAlign,
    )
        requires
            text_items(items),
            width < i32::MAX,
            glyphs_fit(larger(width, 1)),
            self.inline_laid(rec, cv, items, x, y, width, align).0.boxes.len() <= usize::MAX,
        ensures
            lines_fit(
                self.inline_laid(rec, cv, items, x, y, width, align).0.boxes,
                self.inline_laid(rec, cv, items, x, y, width, align).1,
                larger(width, 1),
            ),
    {
        reveal(Ctx::inline_laid);
        let w = larger(width, 1);
        let frags = frags_from(self.dom, items, 0, None);
        self.items_are_text(items, 0, None);
        let start = LineView::begin(y);
        assert(start.cur.map_values(|p: PieceView| p.cells as int) =~= Seq::<int>::empty());
        let (cv2, lb) = self.frags_placed(rec, cv, start, frags, 0, x, w, align);
        self.text_stays_text(rec, cv, start, frags, 0, x, w, align);
        closing_adds(cv2, lb, x, w, align);
        self.placed_frags_fit(rec, cv, start, frags, 0, x, w, align);
        a_closed_line_fits(cv2, lb, x, w, align);
    }

    pub proof fn text_stays_text(
        &self,
        rec: Recipe,
        cv: Canvas,
        lb: LineView,
        frags: Seq<FragView>,
        i: int,
        x: i32,
        width: i32,
        align: TextAlign,
    )
        requires
            0 <= i <= frags.len(),
            text_frags(frags),
            all_text(lb.cur),
        ensures
            all_text(self.frags_placed(rec, cv, lb, frags, i, x, width, align).1.cur),
        decreases frags.len() - i,
    {
        if i < frags.len() {
            reveal(Ctx::frag_placed);
            let p = frags[i]->Piece_0;
            assert(frags[i] matches FragView::Piece(q) && is_text_piece(q));
            let (cv2, lb2) = piece_placed(cv, lb, p, x, width, align);
            placing_a_piece_adds(cv, lb, p, x, width, align);
            self.text_stays_text(rec, cv2, lb2, frags, i + 1, x, width, align);
        }
    }
}

/// What the first `k` words of a text take on one line, a space between each
/// two.
pub open spec fn unwrapped(words: Seq<Seq<char>>, k: int) -> int
    decreases k,
{
    if k <= 0 {
        0
    } else if k == 1 {
        cells_of(words[0]) as int
    } else {
        unwrapped(words, k - 1) + 1 + cells_of(words[k - 1])
    }
}

pub proof fn unwrapped_grows(words: Seq<Seq<char>>, j: int, k: int)
    requires
        0 <= j <= k,
    ensures
        0 <= unwrapped(words, j) <= unwrapped(words, k),
    decreases k,
{
    if j < k {
        unwrapped_grows(words, j, k - 1);
    } else if k > 0 {
        unwrapped_grows(words, k - 1, k - 1);
    }
}

proof fn measuring_words(words: Seq<Seq<char>>, i: int, run: Run)
    requires
        0 <= i <= words.len(),
        unwrapped(words, words.len() as int) < i32::MAX,
        !run.pre,
        run.max == 0,
        run.cur == unwrapped(words, i),
        run.at_start == (i == 0),
        i > 0 ==> !run.pending_space,
        run.min >= 0,
        forall|j: int| 0 <= j < i ==> cells_of(#[trigger] words[j]) <= run.min,
        run.min == 0 || exists|j: int| 0 <= j < i && cells_of(#[trigger] words[j]) == run.min,
    ensures
        ({
            let r = word_pieces(words, i, run);
            &&& !r.pre
            &&& r.max == 0
            &&& r.cur == unwrapped(words, words.len() as int)
            &&& r.min >= 0
            &&& forall|j: int| 0 <= j < words.len() ==> cells_of(#[trigger] words[j]) <= r.min
            &&& r.min == 0 || exists|j: int|
                0 <= j < words.len() && cells_of(#[trigger] words[j]) == r.min
        }),
    decreases words.len() - i,
{
    if i < words.len() {
        let spaced = if i > 0 {
            run.space()
        } else {
            run
        };
        let next = spaced.piece(cells_of(words[i]));
        unwrapped_grows(words, i, words.len() as int);
        unwrapped_grows(words, i + 1, words.len() as int);
        assert forall|j: int| 0 <= j < i + 1 implies cells_of(#[trigger] words[j]) <= next.min by {
            if j < i {
                assert(cells_of(words[j]) <= run.min);
            }
        }
        if next.min != 0 {
            if next.min == cells_of(words[i]) {
                assert(cells_of(words[i]) == next.min);
            } else {
                let j = choose|j: int| 0 <= j < i && cells_of(#[trigger] words[j]) == run.min;
                assert(cells_of(words[j]) == next.min);
            }
        }
        measuring_words(words, i + 1, next);
    }
}

/// The two widths of a text outside `pre`: its widest word, and all its words
/// on one line.
pub proof fn a_text_measures_its_words(text: Seq<char>)
    requires
        unwrapped(words_of(text, Spaces::Html), words_of(text, Spaces::Html).len() as int)
            < i32::MAX,
    ensures
        ({
            let words = words_of(text, Spaces::Html);
            let sizes = text_pieces(text, Run::new(false)).finish();
            &&& sizes.max == unwrapped(words, words.len() as int)
            &&& forall|j: int| 0 <= j < words.len() ==> cells_of(#[trigger] words[j]) <= sizes.min
            &&& sizes.min == 0 || exists|j: int|
                0 <= j < words.len() && cells_of(#[trigger] words[j]) == sizes.min
        }),
{
    let words = words_of(text, Spaces::Html);
    let run = Run::new(false);
    let lead = if text.len() > 0 && is_html_space(text[0]) {
        run.space()
    } else {
        run
    };
    measuring_words(words, 0, lead);
    unwrapped_grows(words, 0, words.len() as int);
}

/// What comes next in a text's fragments: a word, after the space it needs.
proof fn one_word_on(
    frags: Seq<FragView>,
    i: int,
    words: Seq<Seq<char>>,
    k: int,
    pending: Option<Style>,
    style: Style,
    node: NodeId,
)
    requires
        0 <= i <= frags.len(),
        0 <= k < words.len(),
        frags.skip(i) == word_frags(words, k, pending, style, node),
    ensures
        ({
            let spaced = k > 0 || pending is Some;
            let skip = if spaced {
                2int
            } else {
                1int
            };
            let word = word_piece(words[k], cells_of(words[k]), style, Some(node));
            &&& i + skip <= frags.len()
            &&& spaced ==> frags[i] == FragView::Piece(
                crate::inline::space_piece(
                    match pending {
                        Some(s) => s,
                        None => style,
                    },
                ),
            )
            &&& frags[i + skip - 1] == FragView::Piece(word)
            &&& frags.skip(i + skip) == word_frags(words, k + 1, None, style, node)
        }),
{
    let spaced = k > 0 || pending is Some;
    let skip = if spaced {
        2int
    } else {
        1int
    };
    let rest = word_frags(words, k + 1, None, style, node);
    let tail = frags.skip(i);
    assert(tail.len() == skip + rest.len());
    assert(frags[i] == tail[0]);
    assert(frags[i + skip - 1] == tail[skip - 1]);
    assert forall|j: int| 0 <= j < rest.len() implies frags.skip(i + skip)[j] == rest[j] by {
        assert(tail[skip + j] == frags[i + skip + j]);
        assert(tail[skip + j] == rest[j]);
    }
    assert(frags.skip(i + skip) =~= rest);
}

/// How a text stands after `k` of its words: as long as nothing wrapped, the
/// line holds exactly what they take.
spec fn after_words(lb: LineView, words: Seq<Seq<char>>, k: int, width: i32) -> bool {
    &&& all_text(lb.cur)
    &&& k == 0 <==> lb.cur.len() == 0
    &&& k > 0 ==> lb.cur.last().kind is Word
    &&& k > 0 ==> lb.cells == fit(cells_on(lb.cur))
    &&& k == 0 ==> lb.lines.len() == 0
    &&& lb.lines.len() == 0 ==> cells_on(lb.cur) == unwrapped(words, k) && unwrapped(words, k)
        <= width
    &&& unwrapped(words, k) <= width ==> lb.lines.len() == 0
}

impl<'a> Ctx<'a> {
    proof fn a_word_wraps_when_it_must(
        cv: Canvas,
        lb: LineView,
        words: Seq<Seq<char>>,
        k: int,
        pending: Option<Style>,
        style: Style,
        node: NodeId,
        x: i32,
        width: i32,
        align: TextAlign,
    ) -> (r: (Canvas, LineView))
        requires
            0 <= k < words.len(),
            1 <= width < i32::MAX,
            cells_of(words[k]) <= width,
            unwrapped(words, words.len() as int) < i32::MAX,
            after_words(lb, words, k, width),
            k > 0 ==> pending is None,
        ensures
            r == ({
                let spaced = if k > 0 || pending is Some {
                    piece_placed(
                        cv,
                        lb,
                        crate::inline::space_piece(
                            match pending {
                                Some(s) => s,
                                None => style,
                            },
                        ),
                        x,
                        width,
                        align,
                    )
                } else {
                    (cv, lb)
                };
                piece_placed(
                    spaced.0,
                    spaced.1,
                    word_piece(words[k], cells_of(words[k]), style, Some(node)),
                    x,
                    width,
                    align,
                )
            }),
            after_words(r.1, words, k + 1, width),
    {
        let space = crate::inline::space_piece(
            match pending {
                Some(s) => s,
                None => style,
            },
        );
        let word = word_piece(words[k], cells_of(words[k]), style, Some(node));
        let none = Seq::<PieceView>::empty();
        assert(none.map_values(|p: PieceView| p.cells as int) =~= Seq::<int>::empty());
        let (cv1, lb1) = if k > 0 || pending is Some {
            piece_placed(cv, lb, space, x, width, align)
        } else {
            (cv, lb)
        };
        unwrapped_grows(words, k, k + 1);
        unwrapped_grows(words, k + 1, words.len() as int);
        cells_are_not_negative(lb.cur);
        let r = piece_placed(cv1, lb1, word, x, width, align);
        if k == 0 {
            assert(lb.cur =~= none);
            assert(lb1.cur =~= none);
            one_piece(word);
            assert(lb1.cur.push(word) =~= seq![word]);
            all_counted(seq![word]);
        } else {
            cells_of_one_more(lb.cur, space);
            assert(lb1.cur == lb.cur.push(space));
            assert(all_text(lb1.cur)) by {
                assert forall|i: int| 0 <= i < lb1.cur.len() implies is_text_piece(
                    #[trigger] lb1.cur[i],
                ) by {
                    if i < lb.cur.len() {
                        assert(is_text_piece(lb.cur[i]));
                    }
                }
            }
            assert(lb1.cells == fit(cells_on(lb1.cur)));
            if plus(lb1.cells, word.cells) > width {
                let dropped = lb1.with_cur(without_space(lb1.cur));
                assert(dropped.cur =~= lb.cur);
                assert(closed(lb.cur) == lb.cur);
                closing_adds(cv1, dropped, x, width, align);
                let (cv2, lb2) = wrapped(cv1, lb1, x, width, align);
                assert(lb2.lines.len() == lb.lines.len() + 1);
                one_piece(word);
                assert(lb2.cur.push(word) =~= seq![word]);
                all_counted(seq![word]);
            } else {
                let next = lb1.cur.push(word);
                cells_of_one_more(lb1.cur, word);
                assert(all_text(next)) by {
                    assert forall|i: int| 0 <= i < next.len() implies is_text_piece(
                        #[trigger] next[i],
                    ) by {
                        if i < lb1.cur.len() {
                            assert(is_text_piece(lb1.cur[i]));
                        }
                    }
                }
                all_counted(next);
            }
        }
        r
    }

    pub proof fn placing_a_piece(
        &self,
        rec: Recipe,
        cv: Canvas,
        lb: LineView,
        frags: Seq<FragView>,
        i: int,
        p: PieceView,
        x: i32,
        width: i32,
        align: TextAlign,
    )
        requires
            0 <= i < frags.len(),
            frags[i] == FragView::Piece(p),
        ensures
            ({
                let next = piece_placed(cv, lb, p, x, width, align);
                self.frags_placed(rec, cv, lb, frags, i, x, width, align) == self.frags_placed(
                    rec,
                    next.0,
                    next.1,
                    frags,
                    i + 1,
                    x,
                    width,
                    align,
                )
            }),
    {
        reveal(Ctx::frag_placed);
    }

    proof fn words_wrap_when_they_must(
        &self,
        rec: Recipe,
        cv: Canvas,
        lb: LineView,
        frags: Seq<FragView>,
        i: int,
        words: Seq<Seq<char>>,
        k: int,
        pending: Option<Style>,
        style: Style,
        node: NodeId,
        x: i32,
        width: i32,
        align: TextAlign,
    )
        requires
            0 <= i <= frags.len(),
            0 <= k <= words.len(),
            frags.skip(i) == word_frags(words, k, pending, style, node),
            1 <= width < i32::MAX,
            forall|j: int| 0 <= j < words.len() ==> cells_of(#[trigger] words[j]) <= width,
            unwrapped(words, words.len() as int) < i32::MAX,
            after_words(lb, words, k, width),
            k > 0 ==> pending is None,
        ensures
            after_words(
                self.frags_placed(rec, cv, lb, frags, i, x, width, align).1,
                words,
                words.len() as int,
                width,
            ),
        decreases words.len() - k,
    {
        if k < words.len() {
            assert(cells_of(words[k]) <= width);
            let spaced = k > 0 || pending is Some;
            let (cv2, lb2) = Self::a_word_wraps_when_it_must(
                cv,
                lb,
                words,
                k,
                pending,
                style,
                node,
                x,
                width,
                align,
            );
            let skip = if spaced {
                2int
            } else {
                1int
            };
            one_word_on(frags, i, words, k, pending, style, node);
            let space = crate::inline::space_piece(
                match pending {
                    Some(s) => s,
                    None => style,
                },
            );
            let word = word_piece(words[k], cells_of(words[k]), style, Some(node));
            if spaced {
                let (cv1, lb1) = piece_placed(cv, lb, space, x, width, align);
                self.placing_a_piece(rec, cv, lb, frags, i, space, x, width, align);
                self.placing_a_piece(rec, cv1, lb1, frags, i + 1, word, x, width, align);
            } else {
                self.placing_a_piece(rec, cv, lb, frags, i, word, x, width, align);
            }
            self.words_wrap_when_they_must(
                rec,
                cv2,
                lb2,
                frags,
                i + skip,
                words,
                k + 1,
                None,
                style,
                node,
                x,
                width,
                align,
            );
        } else {
            assert(frags.skip(i).len() == 0);
            assert(i == frags.len());
        }
    }

    /// A text's max-content width is the narrowest that keeps it on one line:
    /// of the columns that hold its widest word, exactly those that wide or
    /// wider do.
    pub proof fn a_text_wraps_just_below_its_max_content_width(
        &self,
        rec: Recipe,
        cv: Canvas,
        node: NodeId,
        style: Style,
        x: i32,
        y: i32,
        width: i32,
        align: TextAlign,
    )
        requires
            self.wf(),
            self.dom.has(node),
            self.dom.is_text(node),
            !self.inside_pre(node),
            words_of(self.dom.text_of(node), Spaces::Html).len() > 0,
            unwrapped(
                words_of(self.dom.text_of(node), Spaces::Html),
                words_of(self.dom.text_of(node), Spaces::Html).len() as int,
            ) < i32::MAX,
            1 <= width < i32::MAX,
            self.sizes(node).min <= width,
        ensures
            self.inline_laid(
                rec,
                cv,
                seq![InlineItem::Text { node, style }],
                x,
                y,
                width,
                align,
            ).1.len() == 1 <==> self.sizes(node).max <= width,
            self.inline_laid(
                rec,
                cv,
                seq![InlineItem::Text { node, style }],
                x,
                y,
                width,
                align,
            ).1.len() >= 1,
    {
        reveal(Ctx::inline_laid);
        let text = self.dom.text_of(node);
        let words = words_of(text, Spaces::Html);
        a_text_measures_its_words(text);
        let items = seq![InlineItem::Text { node, style }];
        let frags = frags_from(self.dom, items, 0, None);
        let (here, next) = item_frags(self.dom, items[0], None);
        assert(frags_from(self.dom, items, 1, next) =~= Seq::<FragView>::empty());
        assert(frags =~= here);
        let before = if text.len() > 0 && is_html_space(text[0]) {
            Some(style)
        } else {
            None
        };
        assert(here == word_frags(words, 0, before, style, node));
        assert(frags.skip(0) =~= frags);
        let start = LineView::begin(y);
        assert(start.cur.map_values(|p: PieceView| p.cells as int) =~= Seq::<int>::empty());
        self.words_wrap_when_they_must(
            rec,
            cv,
            start,
            frags,
            0,
            words,
            0,
            before,
            style,
            node,
            x,
            width,
            align,
        );
        let (cv2, lb) = self.frags_placed(rec, cv, start, frags, 0, x, width, align);
        assert(closed(lb.cur) == lb.cur);
        assert(larger(width, 1) == width);
    }
}

/// Where a text that starts on row 0 stands: a row for every line, and no box
/// from the `base`th on below the last of them.
spec fn rows_so_far(base: nat, cv: Canvas, lb: LineView) -> bool {
    &&& all_text(lb.cur)
    &&& base <= cv.boxes.len()
    &&& lb.y == fit(lb.lines.len() as int)
    &&& forall|i: int| base <= i < cv.boxes.len() ==> bottom_of(#[trigger] cv.boxes[i]) <= lb.y
    &&& lb.lines.len() > 0 ==> {
        &&& lb.lines.last().0 < cv.boxes.len()
        &&& cv.dims(lb.lines.last()).content.bottom() == lb.y
    }
}

pub proof fn text_is_one_row_tall(
    boxes: Seq<BoxView>,
    cur: Seq<PieceView>,
    i: int,
    e: crate::linebox::Extent,
)
    requires
        0 <= i,
        all_text(cur),
    ensures
        ({
            let r = crate::linebox::extent_from(boxes, cur, i, e);
            r.above == e.above && r.below == e.below
        }),
    decreases cur.len() - i,
{
    if i < cur.len() {
        assert(is_text_piece(cur[i]));
        let cells = plus(e.cells, cur[i].cells);
        text_is_one_row_tall(boxes, cur, i + 1, crate::linebox::Extent { cells, ..e });
    }
}

/// Closing a line of text adds one row.
proof fn closing_adds_a_row(
    base: nat,
    cv: Canvas,
    lb: LineView,
    x: i32,
    width: i32,
    align: TextAlign,
)
    requires
        rows_so_far(base, cv, lb),
        emitted(cv, lb, x, width, align).0.boxes.len() <= usize::MAX,
    ensures
        ({
            let r = emitted(cv, lb, x, width, align);
            &&& rows_so_far(base, r.0, r.1)
            &&& begins_with(r.0.boxes, cv.boxes)
            &&& r.1.cur.len() == 0
        }),
{
    let cur = closed(lb.cur);
    closing_keeps_text(lb.cur);
    if cur.len() > 0 {
        merging_keeps_text(cur, 0, Seq::empty());
        let pieces = merged(cur);
        let zero = crate::linebox::Extent { cells: 0, above: 0, below: 0 };
        let e = crate::linebox::extent_from(cv.boxes, cur, 0, zero);
        text_is_one_row_tall(cv.boxes, cur, 0, zero);
        let height = plus(plus(e.above, 1), e.below);
        let line = cv.next_id();
        let with_line = cv.with_box(
            crate::engine::plain_box(
                BoxKind::Line,
                None,
                crate::dimensions::Dimensions::bare(Rect { x, y: lb.y, width, height }),
                crate::style::ComputedStyle::initial(),
            ),
        );
        let cx = plus(x, crate::linebox::align_shift(align, width, e.cells));
        let row = plus(lb.y, e.above);
        placing_adds(with_line, pieces, 0, cx, row, width, Seq::empty());
        placing_text(with_line, pieces, 0, cx, row, width, Seq::empty());
        let (full, ids) = placed_from(with_line, pieces, 0, cx, row, width, Seq::empty());
        let after = full.with_children(line, ids).boxes;
        let r = emitted(cv, lb, x, width, align);
        assert(r.0.boxes == after);
        let n = cv.boxes.len() as int;
        assert(full.boxes[n] == with_line.boxes[n]);
        assert forall|i: int| 0 <= i < n implies #[trigger] after[i] == cv.boxes[i] by {
            assert(full.boxes[i] == with_line.boxes[i]);
        }
        assert forall|i: int| base <= i < after.len() implies bottom_of(#[trigger] after[i])
            <= r.1.y by {
            if i < n {
                assert(bottom_of(cv.boxes[i]) <= lb.y);
            } else if i > n {
                assert(bottom_of(full.boxes[i]) == plus(row, 1));
            }
        }
    }
}

/// Breaking a word adds a row for each part but the last.
proof fn breaking_adds_rows(
    base: nat,
    cv: Canvas,
    lb: LineView,
    p: PieceView,
    from: int,
    x: i32,
    width: i32,
    align: TextAlign,
)
    requires
        0 <= from,
        rows_so_far(base, cv, lb),
        hard_broken(cv, lb, p, from, x, width, align).0.boxes.len() <= usize::MAX,
    ensures
        ({
            let r = hard_broken(cv, lb, p, from, x, width, align);
            &&& rows_so_far(base, r.0, r.1)
            &&& begins_with(r.0.boxes, cv.boxes)
        }),
    decreases p.text.len() - from,
{
    if from < p.text.len() {
        crate::breaker::chunk_moves_on(p.text, from, from, 0, width);
        let (end, cells) = chunk(p.text, from, from, 0, width);
        chunks_are_not_negative(p.text, from, from, 0, width);
        let part = word_piece(p.text.subrange(from, end), cells, p.style, p.node);
        let with = lb.with_cur(lb.cur.push(part));
        assert forall|i: int| 0 <= i < with.cur.len() implies is_text_piece(
            #[trigger] with.cur[i],
        ) by {
            if i < lb.cur.len() {
                assert(is_text_piece(lb.cur[i]));
            }
        }
        if end < p.text.len() {
            let (cv2, lb2) = emitted(cv, with, x, width, align);
            closing_adds(cv, with, x, width, align);
            breaking_adds(cv2, lb2, p, end, x, width, align);
            closing_adds_a_row(base, cv, with, x, width, align);
            breaking_adds_rows(base, cv2, lb2, p, end, x, width, align);
        }
    }
}

/// Placing a piece of text adds a row for each line it closes.
proof fn placing_a_piece_adds_rows(
    base: nat,
    cv: Canvas,
    lb: LineView,
    p: PieceView,
    x: i32,
    width: i32,
    align: TextAlign,
)
    requires
        rows_so_far(base, cv, lb),
        is_text_piece(p),
        piece_placed(cv, lb, p, x, width, align).0.boxes.len() <= usize::MAX,
    ensures
        ({
            let r = piece_placed(cv, lb, p, x, width, align);
            &&& rows_so_far(base, r.0, r.1)
            &&& begins_with(r.0.boxes, cv.boxes)
        }),
{
    placing_a_piece_adds(cv, lb, p, x, width, align);
    let dropped = lb.with_cur(without_space(lb.cur));
    assert forall|i: int| 0 <= i < dropped.cur.len() implies is_text_piece(
        #[trigger] dropped.cur[i],
    ) by {
        assert(is_text_piece(lb.cur[i]));
    }
    match p.kind {
        PieceKind::Break => {
            if lb.cur.len() == 0 {
                let r = empty_line(cv, lb, x, width);
                assert forall|i: int| base <= i < r.0.boxes.len() implies bottom_of(
                    #[trigger] r.0.boxes[i],
                ) <= r.1.y by {
                    if i < cv.boxes.len() {
                        assert(bottom_of(cv.boxes[i]) <= lb.y);
                    }
                }
            } else {
                closing_adds_a_row(base, cv, lb, x, width, align);
            }
        },
        PieceKind::Word => {
            if p.cells > width {
                let (cv2, lb2) = wrapped(cv, lb, x, width, align);
                closing_adds(cv, dropped, x, width, align);
                breaking_adds(cv2, lb2, p, 0, x, width, align);
                closing_adds_a_row(base, cv, dropped, x, width, align);
                breaking_adds_rows(base, cv2, lb2, p, 0, x, width, align);
            } else if lb.cur.len() > 0 && plus(lb.cells, p.cells) > width {
                closing_adds_a_row(base, cv, dropped, x, width, align);
            }
        },
        _ => {},
    }
}

impl<'a> Ctx<'a> {
    proof fn placing_frags_adds_rows(
        &self,
        base: nat,
        rec: Recipe,
        cv: Canvas,
        lb: LineView,
        frags: Seq<FragView>,
        i: int,
        x: i32,
        width: i32,
        align: TextAlign,
    )
        requires
            0 <= i <= frags.len(),
            text_frags(frags),
            rows_so_far(base, cv, lb),
            self.frags_placed(rec, cv, lb, frags, i, x, width, align).0.boxes.len() <= usize::MAX,
        ensures
            ({
                let r = self.frags_placed(rec, cv, lb, frags, i, x, width, align);
                &&& rows_so_far(base, r.0, r.1)
                &&& begins_with(r.0.boxes, cv.boxes)
            }),
        decreases frags.len() - i,
    {
        if i < frags.len() {
            reveal(Ctx::frag_placed);
            let p = frags[i]->Piece_0;
            assert(frags[i] matches FragView::Piece(q) && is_text_piece(q));
            let (cv2, lb2) = piece_placed(cv, lb, p, x, width, align);
            placing_a_piece_adds(cv, lb, p, x, width, align);
            self.placing_frags_adds(rec, cv2, lb2, frags, i + 1, x, width, align);
            placing_a_piece_adds_rows(base, cv, lb, p, x, width, align);
            self.placing_frags_adds_rows(base, rec, cv2, lb2, frags, i + 1, x, width, align);
        }
    }

    /// Breaking text into lines only ever adds boxes.
    pub proof fn breaking_text_adds(
        &self,
        rec: Recipe,
        cv: Canvas,
        items: Seq<InlineItem>,
        x: i32,
        y: i32,
        width: i32,
        align: TextAlign,
    )
        requires
            text_items(items),
        ensures
            cv.boxes.len() <= self.inline_laid(rec, cv, items, x, y, width, align).0.boxes.len(),
    {
        reveal(Ctx::inline_laid);
        let w = larger(width, 1);
        let frags = frags_from(self.dom, items, 0, None);
        self.items_are_text(items, 0, None);
        let start = LineView::begin(y);
        let (cv2, lb) = self.frags_placed(rec, cv, start, frags, 0, x, w, align);
        self.text_stays_text(rec, cv, start, frags, 0, x, w, align);
        self.placing_frags_adds(rec, cv, start, frags, 0, x, w, align);
        closing_adds(cv2, lb, x, w, align);
    }

    /// Text that starts on row 0 takes a row for every line it was broken into:
    /// the last line ends there, and no box of it reaches further down.
    pub proof fn a_text_takes_a_row_for_each_line(
        &self,
        rec: Recipe,
        cv: Canvas,
        items: Seq<InlineItem>,
        x: i32,
        width: i32,
        align: TextAlign,
    )
        requires
            text_items(items),
            self.inline_laid(rec, cv, items, x, 0, width, align).0.boxes.len() <= usize::MAX,
        ensures
            ({
                let (after, lines) = self.inline_laid(rec, cv, items, x, 0, width, align);
                let rows = fit(lines.len() as int);
                &&& begins_with(after.boxes, cv.boxes)
                &&& forall|i: int|
                    cv.boxes.len() <= i < after.boxes.len() ==> bottom_of(
                        #[trigger] after.boxes[i],
                    ) <= rows
                &&& lines.len() > 0 ==> after.dims(lines.last()).content.bottom() == rows
            }),
    {
        reveal(Ctx::inline_laid);
        let w = larger(width, 1);
        let frags = frags_from(self.dom, items, 0, None);
        self.items_are_text(items, 0, None);
        let start = LineView::begin(0);
        let (cv2, lb) = self.frags_placed(rec, cv, start, frags, 0, x, w, align);
        self.text_stays_text(rec, cv, start, frags, 0, x, w, align);
        closing_adds(cv2, lb, x, w, align);
        self.placing_frags_adds_rows(cv.boxes.len(), rec, cv, start, frags, 0, x, w, align);
        closing_adds_a_row(cv.boxes.len(), cv2, lb, x, w, align);
    }
}

/// Two lines of text in the making with the same pieces on them, on canvases of
/// which one has `d` boxes more.
spec fn in_step(cv1: Canvas, lb1: LineView, cv2: Canvas, lb2: LineView, d: int) -> bool {
    &&& all_text(lb1.cur)
    &&& lb1.cur =~= lb2.cur
    &&& lb1.cells == lb2.cells
    &&& cv1.boxes.len() - cv2.boxes.len() == d
}

proof fn breaking_keeps_step(
    cv1: Canvas,
    lb1: LineView,
    cv2: Canvas,
    lb2: LineView,
    p: PieceView,
    from: int,
    x1: i32,
    x2: i32,
    width: i32,
    a1: TextAlign,
    a2: TextAlign,
)
    requires
        0 <= from,
        all_text(lb1.cur),
        lb1.cur =~= lb2.cur,
    ensures
        ({
            let r1 = hard_broken(cv1, lb1, p, from, x1, width, a1);
            let r2 = hard_broken(cv2, lb2, p, from, x2, width, a2);
            &&& all_text(r1.1.cur)
            &&& r1.1.cur =~= r2.1.cur
            &&& r1.0.boxes.len() - r2.0.boxes.len() == cv1.boxes.len() - cv2.boxes.len()
        }),
    decreases p.text.len() - from,
{
    breaking_adds(cv1, lb1, p, from, x1, width, a1);
    if from < p.text.len() {
        crate::breaker::chunk_moves_on(p.text, from, from, 0, width);
        let (end, cells) = chunk(p.text, from, from, 0, width);
        chunks_are_not_negative(p.text, from, from, 0, width);
        let part = word_piece(p.text.subrange(from, end), cells, p.style, p.node);
        let with1 = lb1.with_cur(lb1.cur.push(part));
        let with2 = lb2.with_cur(lb2.cur.push(part));
        assert(with1.cur == with2.cur);
        assert forall|i: int| 0 <= i < with1.cur.len() implies is_text_piece(
            #[trigger] with1.cur[i],
        ) by {
            if i < lb1.cur.len() {
                assert(is_text_piece(lb1.cur[i]));
            }
        }
        if end < p.text.len() {
            let (next1, line1) = emitted(cv1, with1, x1, width, a1);
            let (next2, line2) = emitted(cv2, with2, x2, width, a2);
            closing_adds(cv1, with1, x1, width, a1);
            closing_adds(cv2, with2, x2, width, a2);
            breaking_keeps_step(next1, line1, next2, line2, p, end, x1, x2, width, a1, a2);
        }
    }
}

proof fn placing_a_piece_keeps_step(
    cv1: Canvas,
    lb1: LineView,
    cv2: Canvas,
    lb2: LineView,
    d: int,
    p: PieceView,
    x1: i32,
    x2: i32,
    width: i32,
    a1: TextAlign,
    a2: TextAlign,
)
    requires
        in_step(cv1, lb1, cv2, lb2, d),
        is_text_piece(p),
    ensures
        ({
            let r1 = piece_placed(cv1, lb1, p, x1, width, a1);
            let r2 = piece_placed(cv2, lb2, p, x2, width, a2);
            in_step(r1.0, r1.1, r2.0, r2.1, d)
        }),
{
    placing_a_piece_adds(cv1, lb1, p, x1, width, a1);
    assert(lb1.cur == lb2.cur);
    let dropped1 = lb1.with_cur(without_space(lb1.cur));
    let dropped2 = lb2.with_cur(without_space(lb2.cur));
    assert forall|i: int| 0 <= i < dropped1.cur.len() implies is_text_piece(
        #[trigger] dropped1.cur[i],
    ) by {
        assert(is_text_piece(lb1.cur[i]));
    }
    closing_adds(cv1, lb1, x1, width, a1);
    closing_adds(cv2, lb2, x2, width, a2);
    closing_adds(cv1, dropped1, x1, width, a1);
    closing_adds(cv2, dropped2, x2, width, a2);
    if p.kind is Word && p.cells > width {
        let (next1, line1) = wrapped(cv1, lb1, x1, width, a1);
        let (next2, line2) = wrapped(cv2, lb2, x2, width, a2);
        breaking_keeps_step(next1, line1, next2, line2, p, 0, x1, x2, width, a1, a2);
    }
}

impl<'a> Ctx<'a> {
    proof fn placing_frags_keeps_step(
        &self,
        other: &Ctx,
        r1: Recipe,
        r2: Recipe,
        cv1: Canvas,
        lb1: LineView,
        cv2: Canvas,
        lb2: LineView,
        d: int,
        frags: Seq<FragView>,
        i: int,
        x1: i32,
        x2: i32,
        width: i32,
        a1: TextAlign,
        a2: TextAlign,
    )
        requires
            0 <= i <= frags.len(),
            text_frags(frags),
            in_step(cv1, lb1, cv2, lb2, d),
        ensures
            ({
                let e1 = self.frags_placed(r1, cv1, lb1, frags, i, x1, width, a1);
                let e2 = other.frags_placed(r2, cv2, lb2, frags, i, x2, width, a2);
                in_step(e1.0, e1.1, e2.0, e2.1, d)
            }),
        decreases frags.len() - i,
    {
        if i < frags.len() {
            reveal(Ctx::frag_placed);
            let p = frags[i]->Piece_0;
            assert(frags[i] matches FragView::Piece(q) && is_text_piece(q));
            let (next1, line1) = piece_placed(cv1, lb1, p, x1, width, a1);
            let (next2, line2) = piece_placed(cv2, lb2, p, x2, width, a2);
            placing_a_piece_keeps_step(cv1, lb1, cv2, lb2, d, p, x1, x2, width, a1, a2);
            self.placing_frags_keeps_step(
                other,
                r1,
                r2,
                next1,
                line1,
                next2,
                line2,
                d,
                frags,
                i + 1,
                x1,
                x2,
                width,
                a1,
                a2,
            );
        }
    }

    /// Text takes as many boxes wherever it is put, as long as the column is as
    /// wide.
    pub proof fn text_takes_as_many_boxes_anywhere(
        &self,
        other: &Ctx,
        r1: Recipe,
        r2: Recipe,
        cv1: Canvas,
        cv2: Canvas,
        items: Seq<InlineItem>,
        at1: (i32, i32),
        at2: (i32, i32),
        width: i32,
        a1: TextAlign,
        a2: TextAlign,
    )
        requires
            self.dom == other.dom,
            text_items(items),
        ensures
            self.inline_laid(r1, cv1, items, at1.0, at1.1, width, a1).0.boxes.len()
                - cv1.boxes.len() == other.inline_laid(
                r2,
                cv2,
                items,
                at2.0,
                at2.1,
                width,
                a2,
            ).0.boxes.len() - cv2.boxes.len(),
            self.inline_laid(r1, cv1, items, at1.0, at1.1, width, a1).0.boxes.len()
                >= cv1.boxes.len(),
    {
        reveal(Ctx::inline_laid);
        let w = larger(width, 1);
        let frags = frags_from(self.dom, items, 0, None);
        self.items_are_text(items, 0, None);
        self.breaking_text_adds(r1, cv1, items, at1.0, at1.1, width, a1);
        let start1 = LineView::begin(at1.1);
        let start2 = LineView::begin(at2.1);
        let d = cv1.boxes.len() - cv2.boxes.len();
        self.placing_frags_keeps_step(
            other,
            r1,
            r2,
            cv1,
            start1,
            cv2,
            start2,
            d,
            frags,
            0,
            at1.0,
            at2.0,
            w,
            a1,
            a2,
        );
        let (next1, line1) = self.frags_placed(r1, cv1, start1, frags, 0, at1.0, w, a1);
        let (next2, line2) = other.frags_placed(r2, cv2, start2, frags, 0, at2.0, w, a2);
        closing_adds(next1, line1, at1.0, w, a1);
        closing_adds(next2, line2, at2.0, w, a2);
    }
}

} // verus!
