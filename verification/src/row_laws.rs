//! Every row of a text shows some of it.

use vstd::prelude::*;

use crate::blocks::Recipe;
use crate::boxes::{children_order, paint_order, BoxId, BoxKind, BoxView, TreeView};
use crate::breaker::{chunk, hard_broken, piece_placed, wrapped};
use crate::cells::{fit, larger, minus, plus};
use crate::context::Ctx;
use crate::dimensions::{Dimensions, Rect};
use crate::dom::NodeId;
use crate::engine::{plain_box, Canvas};
use crate::inline::{
    frags_from, item_frags, word_frags, word_piece, FragView, InlineItem, PieceView,
};
use crate::line_laws::{
    all_text, begins_with, breaking_adds, chunks_are_not_negative, closing_adds,
    closing_keeps_text, is_text_piece, merging_keeps_text, placing_a_piece_adds, placing_adds,
    placing_text, text_frags, text_is_one_row_tall, text_items,
};
use crate::linebox::{
    align_shift, closed, emitted, extent_from, joined_with, merged, merged_from, placed_from,
    without_space, Extent, LineView,
};
use crate::lines::{
    box_runs, from_the_left, line_at, row_runs, run_keys, runs_on, span_added, spans_from, SpanView,
};
use crate::order::{slot_for, slot_splits, sorted_indices, sorting_sorts};
use crate::painted::RunView;
use crate::style::{ComputedStyle, TextAlign};
use crate::term::Style;
use crate::text::{
    blank, cells_of, finished, is_html_space, repeated, words_from, words_of, Spaces,
};

verus! {

/// A piece of a word: something, and no space in it.
pub open spec fn is_word(text: Seq<char>) -> bool {
    text.len() > 0 && forall|i: int| 0 <= i < text.len() ==> !is_html_space(#[trigger] text[i])
}

spec fn all_words(words: Seq<Seq<char>>) -> bool {
    forall|k: int| 0 <= k < words.len() ==> is_word(#[trigger] words[k])
}

proof fn words_are_words(s: Seq<char>, i: int, word: Seq<char>)
    requires
        0 <= i,
        word.len() > 0 ==> is_word(word),
    ensures
        all_words(words_from(s, Spaces::Html, i, word)),
    decreases s.len() - i,
{
    if i < s.len() {
        if is_html_space(s[i]) {
            words_are_words(s, i + 1, Seq::empty());
            let rest = words_from(s, Spaces::Html, i + 1, Seq::empty());
            let all = finished(word) + rest;
            assert forall|k: int| 0 <= k < all.len() implies is_word(#[trigger] all[k]) by {
                if k >= finished(word).len() {
                    assert(all[k] == rest[k - finished(word).len()]);
                }
            }
        } else {
            let more = word.push(s[i]);
            assert forall|k: int| 0 <= k < more.len() implies !is_html_space(#[trigger] more[k]) by {
                if k < word.len() {
                    assert(more[k] == word[k]);
                }
            }
            words_are_words(s, i + 1, more);
        }
    }
}

/// A piece that is a space or part of a word.
pub open spec fn is_wordy(p: PieceView) -> bool {
    &&& is_text_piece(p)
    &&& p.kind is Space || (p.kind is Word && is_word(p.text))
}

pub open spec fn all_wordy(cur: Seq<PieceView>) -> bool {
    &&& forall|i: int| 0 <= i < cur.len() ==> is_wordy(#[trigger] cur[i])
    &&& cur.len() > 0 ==> cur[0].kind is Word
}

pub open spec fn wordy_frags(frags: Seq<FragView>) -> bool {
    forall|i: int|
        0 <= i < frags.len() ==> ((#[trigger] frags[i]) matches FragView::Piece(p) && is_wordy(p))
}

/// Items that are all text of the document.
pub open spec fn only_texts(items: Seq<InlineItem>) -> bool {
    forall|i: int| 0 <= i < items.len() ==> (#[trigger] items[i]) is Text
}

proof fn words_are_wordy(
    words: Seq<Seq<char>>,
    k: int,
    pending: Option<Style>,
    style: Style,
    node: NodeId,
)
    requires
        0 <= k,
        all_words(words),
    ensures
        wordy_frags(word_frags(words, k, pending, style, node)),
    decreases words.len() - k,
{
    if k < words.len() {
        words_are_wordy(words, k + 1, None, style, node);
        assert(is_word(words[k]));
        let rest = word_frags(words, k + 1, None, style, node);
        let all = word_frags(words, k, pending, style, node);
        let lead = all.len() - rest.len();
        assert forall|i: int| 0 <= i < all.len() implies ((#[trigger] all[i]) matches FragView::Piece(
            p,
        ) && is_wordy(p)) by {
            if i >= lead {
                assert(all[i] == rest[i - lead]);
            }
        }
    }
}

impl<'a> Ctx<'a> {
    proof fn texts_are_wordy(&self, items: Seq<InlineItem>, i: int, pending: Option<Style>)
        requires
            0 <= i,
            only_texts(items),
        ensures
            wordy_frags(frags_from(self.dom, items, i, pending)),
        decreases items.len() - i,
    {
        if i < items.len() {
            let (here, next) = item_frags(self.dom, items[i], pending);
            let rest = frags_from(self.dom, items, i + 1, next);
            self.texts_are_wordy(items, i + 1, next);
            assert(items[i] is Text);
            if let InlineItem::Text { node, style } = items[i] {
                let text = self.dom.text_of(node);
                let before = if text.len() > 0 && is_html_space(text[0]) {
                    Some(style)
                } else {
                    pending
                };
                words_are_words(text, 0, Seq::empty());
                words_are_wordy(words_of(text, Spaces::Html), 0, before, style, node);
            }
            let all = here + rest;
            assert forall|j: int| 0 <= j < all.len() implies ((
            #[trigger] all[j]) matches FragView::Piece(p) && is_wordy(p)) by {
                if j < here.len() {
                    assert(all[j] == here[j]);
                } else {
                    assert(all[j] == rest[j - here.len()]);
                }
            }
        }
    }
}

/// A line box whose first child, made after it, is text on that row, not all of
/// it blank.
pub open spec fn line_shows(boxes: Seq<BoxView>, id: BoxId, y: i32) -> bool {
    &&& id.0 < boxes.len()
    &&& boxes[id.0 as int].children.len() > 0
    &&& id.0 < boxes[id.0 as int].children[0].0 < boxes.len()
    &&& shows_on(boxes[boxes[id.0 as int].children[0].0 as int], y)
}

pub open spec fn shows_on(b: BoxView, y: i32) -> bool {
    &&& b.kind is Text
    &&& b.dimensions.content.y == y
    &&& b.text matches Some(t) && !blank(t)
}

/// Where a text that starts on row 0 stands: every line so far shows some of
/// it.
spec fn shown_so_far(base: nat, cv: Canvas, lb: LineView) -> bool {
    &&& all_wordy(lb.cur)
    &&& base <= cv.boxes.len()
    &&& lb.y == fit(lb.lines.len() as int)
    &&& forall|r: int|
        0 <= r < lb.lines.len() ==> {
            &&& base <= (#[trigger] lb.lines[r]).0
            &&& line_shows(cv.boxes, lb.lines[r], fit(r))
        }
}

proof fn wordy_is_text(cur: Seq<PieceView>)
    requires
        all_wordy(cur),
    ensures
        all_text(cur),
{
    assert forall|i: int| 0 <= i < cur.len() implies is_text_piece(#[trigger] cur[i]) by {
        assert(is_wordy(cur[i]));
    }
}

proof fn closing_keeps_the_first(cur: Seq<PieceView>)
    requires
        cur.len() > 0,
        cur[0].kind is Word,
    ensures
        closed(cur).len() > 0,
        closed(cur)[0] == cur[0],
    decreases cur.len(),
{
    if cur.last().kind is Space {
        assert(cur.len() > 1);
        assert(cur.drop_last()[0] == cur[0]);
        closing_keeps_the_first(cur.drop_last());
    }
}

proof fn merging_keeps_the_first(cur: Seq<PieceView>, i: int, acc: Seq<PieceView>, c: char)
    requires
        0 <= i,
        acc.len() > 0,
        acc[0].text.len() > 0,
        acc[0].text[0] == c,
    ensures
        merged_from(cur, i, acc).len() > 0,
        merged_from(cur, i, acc)[0].text.len() > 0,
        merged_from(cur, i, acc)[0].text[0] == c,
    decreases cur.len() - i,
{
    if i < cur.len() {
        merging_keeps_the_first(cur, i + 1, joined_with(acc, cur[i]), c);
    }
}

proof fn a_line_still_shows(a: Seq<BoxView>, b: Seq<BoxView>, id: BoxId, y: i32)
    requires
        begins_with(b, a),
        line_shows(a, id, y),
    ensures
        line_shows(b, id, y),
{
    assert(b[id.0 as int] == a[id.0 as int]);
    let c = a[id.0 as int].children[0].0 as int;
    assert(b[c] == a[c]);
}

proof fn closing_shows_a_word(
    base: nat,
    cv: Canvas,
    lb: LineView,
    x: i32,
    width: i32,
    align: TextAlign,
)
    requires
        shown_so_far(base, cv, lb),
        emitted(cv, lb, x, width, align).0.boxes.len() <= usize::MAX,
    ensures
        ({
            let r = emitted(cv, lb, x, width, align);
            shown_so_far(base, r.0, r.1)
        }),
{
    wordy_is_text(lb.cur);
    let cur = closed(lb.cur);
    closing_keeps_text(lb.cur);
    closing_adds(cv, lb, x, width, align);
    if lb.cur.len() > 0 {
        closing_keeps_the_first(lb.cur);
        assert(is_wordy(lb.cur[0]));
        merging_keeps_text(cur, 0, Seq::empty());
        let pieces = merged(cur);
        let c = cur[0].text[0];
        assert(!is_html_space(c));
        assert(joined_with(Seq::empty(), cur[0]) =~= seq![cur[0]]);
        merging_keeps_the_first(cur, 1, seq![cur[0]], c);
        assert(pieces == merged_from(cur, 1, seq![cur[0]]));
        let zero = Extent { cells: 0, above: 0, below: 0 };
        let e = extent_from(cv.boxes, cur, 0, zero);
        text_is_one_row_tall(cv.boxes, cur, 0, zero);
        let height = plus(plus(e.above, 1), e.below);
        let line = cv.next_id();
        let with_line = cv.with_box(
            plain_box(
                BoxKind::Line,
                None,
                Dimensions::bare(Rect { x, y: lb.y, width, height }),
                ComputedStyle::initial(),
            ),
        );
        let cx = plus(x, align_shift(align, width, e.cells));
        let row = plus(lb.y, e.above);
        placing_adds(with_line, pieces, 0, cx, row, width, Seq::empty());
        placing_text(with_line, pieces, 0, cx, row, width, Seq::empty());
        let (full, ids) = placed_from(with_line, pieces, 0, cx, row, width, Seq::empty());
        let after = full.with_children(line, ids).boxes;
        let r = emitted(cv, lb, x, width, align);
        assert(r.0.boxes == after);
        let n = cv.boxes.len() as int;
        assert forall|i: int| 0 <= i < n implies #[trigger] after[i] == cv.boxes[i] by {
            assert(full.boxes[i] == with_line.boxes[i]);
        }
        assert(begins_with(after, cv.boxes));
        assert(ids[0].0 == n + 1);
        assert(after[n + 1] == full.boxes[n + 1]);
        assert(full.boxes[n + 1].text == Some(pieces[0].text));
        assert(!blank(pieces[0].text)) by {
            assert(!is_html_space(pieces[0].text[0]));
        }
        assert(line_shows(after, line, lb.y));
        assert forall|k: int| 0 <= k < r.1.lines.len() implies {
            &&& base <= (#[trigger] r.1.lines[k]).0
            &&& line_shows(after, r.1.lines[k], fit(k))
        } by {
            if k < lb.lines.len() {
                assert(base <= lb.lines[k].0);
                a_line_still_shows(cv.boxes, after, lb.lines[k], fit(k));
            }
        }
    } else {
        assert(lb.cur =~= Seq::<PieceView>::empty());
        assert(cur.len() == 0);
    }
}

proof fn breaking_shows_words(
    base: nat,
    cv: Canvas,
    lb: LineView,
    p: PieceView,
    from: int,
    x: i32,
    width: i32,
    align: TextAlign,
)
    requires
        0 <= from,
        shown_so_far(base, cv, lb),
        is_word(p.text),
        hard_broken(cv, lb, p, from, x, width, align).0.boxes.len() <= usize::MAX,
    ensures
        ({
            let r = hard_broken(cv, lb, p, from, x, width, align);
            shown_so_far(base, r.0, r.1)
        }),
    decreases p.text.len() - from,
{
    wordy_is_text(lb.cur);
    if from < p.text.len() {
        crate::breaker::chunk_moves_on(p.text, from, from, 0, width);
        let (end, cells) = chunk(p.text, from, from, 0, width);
        chunks_are_not_negative(p.text, from, from, 0, width);
        let part = word_piece(p.text.subrange(from, end), cells, p.style, p.node);
        let with = lb.with_cur(lb.cur.push(part));
        assert(is_word(part.text)) by {
            assert forall|i: int| 0 <= i < part.text.len() implies !is_html_space(
                #[trigger] part.text[i],
            ) by {
                assert(part.text[i] == p.text[from + i]);
            }
        }
        assert forall|i: int| 0 <= i < with.cur.len() implies is_wordy(#[trigger] with.cur[i]) by {
            if i < lb.cur.len() {
                assert(is_wordy(lb.cur[i]));
            }
        }
        if end < p.text.len() {
            let (cv2, lb2) = emitted(cv, with, x, width, align);
            wordy_is_text(with.cur);
            closing_adds(cv, with, x, width, align);
            assert(all_text(lb2.cur));
            breaking_adds(cv2, lb2, p, end, x, width, align);
            closing_shows_a_word(base, cv, with, x, width, align);
            breaking_shows_words(base, cv2, lb2, p, end, x, width, align);
        }
    }
}

proof fn placing_shows_words(
    base: nat,
    cv: Canvas,
    lb: LineView,
    p: PieceView,
    x: i32,
    width: i32,
    align: TextAlign,
)
    requires
        shown_so_far(base, cv, lb),
        is_wordy(p),
        piece_placed(cv, lb, p, x, width, align).0.boxes.len() <= usize::MAX,
    ensures
        ({
            let r = piece_placed(cv, lb, p, x, width, align);
            shown_so_far(base, r.0, r.1)
        }),
{
    wordy_is_text(lb.cur);
    placing_a_piece_adds(cv, lb, p, x, width, align);
    let dropped = lb.with_cur(without_space(lb.cur));
    assert(all_wordy(dropped.cur)) by {
        assert forall|i: int| 0 <= i < dropped.cur.len() implies is_wordy(
            #[trigger] dropped.cur[i],
        ) by {
            assert(is_wordy(lb.cur[i]));
        }
    }
    wordy_is_text(dropped.cur);
    let r = piece_placed(cv, lb, p, x, width, align);
    if p.kind is Word {
        if p.cells > width {
            let (cv2, lb2) = wrapped(cv, lb, x, width, align);
            closing_adds(cv, dropped, x, width, align);
            breaking_adds(cv2, lb2, p, 0, x, width, align);
            closing_shows_a_word(base, cv, dropped, x, width, align);
            breaking_shows_words(base, cv2, lb2, p, 0, x, width, align);
        } else {
            if lb.cur.len() > 0 && plus(lb.cells, p.cells) > width {
                closing_shows_a_word(base, cv, dropped, x, width, align);
                closing_adds(cv, dropped, x, width, align);
            }
            assert forall|i: int| 0 <= i < r.1.cur.len() implies is_wordy(#[trigger] r.1.cur[i]) by {
                if i < lb.cur.len() {
                    assert(is_wordy(lb.cur[i]));
                }
            }
        }
    } else {
        assert forall|i: int| 0 <= i < r.1.cur.len() implies is_wordy(#[trigger] r.1.cur[i]) by {
            if i < lb.cur.len() {
                assert(is_wordy(lb.cur[i]));
            }
        }
    }
}

impl<'a> Ctx<'a> {
    proof fn placing_frags_shows_words(
        &self,
        base: nat,
        rec: Recipe,
        cv: Canvas,
        lb: LineView,
        frags: Seq<FragView>,
        i: int,
        x: i32,
        width: i32,
        align: TextAlign,
    )
        requires
            0 <= i <= frags.len(),
            text_frags(frags),
            wordy_frags(frags),
            shown_so_far(base, cv, lb),
            self.frags_placed(rec, cv, lb, frags, i, x, width, align).0.boxes.len() <= usize::MAX,
        ensures
            ({
                let r = self.frags_placed(rec, cv, lb, frags, i, x, width, align);
                shown_so_far(base, r.0, r.1)
            }),
        decreases frags.len() - i,
    {
        if i < frags.len() {
            let p = frags[i]->Piece_0;
            assert(frags[i] matches FragView::Piece(q) && is_wordy(q));
            wordy_is_text(lb.cur);
            let (cv2, lb2) = piece_placed(cv, lb, p, x, width, align);
            self.placing_a_piece(rec, cv, lb, frags, i, p, x, width, align);
            placing_a_piece_adds(cv, lb, p, x, width, align);
            self.placing_frags_adds(rec, cv2, lb2, frags, i + 1, x, width, align);
            placing_shows_words(base, cv, lb, p, x, width, align);
            self.placing_frags_shows_words(base, rec, cv2, lb2, frags, i + 1, x, width, align);
        }
    }

    /// Every line of a text shows some of it.
    pub proof fn every_line_of_a_text_shows_a_word(
        &self,
        rec: Recipe,
        cv: Canvas,
        items: Seq<InlineItem>,
        x: i32,
        width: i32,
        align: TextAlign,
    )
        requires
            only_texts(items),
            self.inline_laid(rec, cv, items, x, 0, width, align).0.boxes.len() <= usize::MAX,
        ensures
            ({
                let (after, lines) = self.inline_laid(rec, cv, items, x, 0, width, align);
                forall|r: int|
                    0 <= r < lines.len() ==> {
                        &&& cv.boxes.len() <= (#[trigger] lines[r]).0
                        &&& line_shows(after.boxes, lines[r], fit(r))
                    }
            }),
    {
        reveal(Ctx::inline_laid);
        let w = larger(width, 1);
        let frags = frags_from(self.dom, items, 0, None);
        assert(text_items(items)) by {
            assert forall|i: int| 0 <= i < items.len() implies !((#[trigger] items[i]) is Image)
                && !(items[i] is Atomic) by {
                assert(items[i] is Text);
            }
        }
        self.items_are_text(items, 0, None);
        self.texts_are_wordy(items, 0, None);
        let start = LineView::begin(0);
        let (cv2, lb) = self.frags_placed(rec, cv, start, frags, 0, x, w, align);
        self.text_stays_text(rec, cv, start, frags, 0, x, w, align);
        closing_adds(cv2, lb, x, w, align);
        self.placing_frags_shows_words(cv.boxes.len(), rec, cv, start, frags, 0, x, w, align);
        closing_shows_a_word(cv.boxes.len(), cv2, lb, x, w, align);
    }
}

/// A line none of whose characters shows.
pub open spec fn line_is_blank(line: Seq<SpanView>) -> bool {
    forall|j: int| 0 <= j < line.len() ==> blank((#[trigger] line[j]).text)
}

/// Some run of them shows.
spec fn some_run_shows(runs: Seq<RunView>) -> bool {
    exists|j: int| 0 <= j < runs.len() && !blank((#[trigger] runs[j]).text)
}

proof fn a_walk_begins(boxes: Seq<BoxView>, depth: nat, id: BoxId)
    requires
        depth > 0,
        id.0 < boxes.len(),
    ensures
        paint_order(boxes, depth, id).contains(id),
{
    assert(paint_order(boxes, depth, id)[0] == id);
}

proof fn children_are_walked(
    boxes: Seq<BoxView>,
    depth: nat,
    kids: Seq<BoxId>,
    k: int,
    m: int,
    b: BoxId,
)
    requires
        depth > 0,
        0 <= k <= m < kids.len(),
        paint_order(boxes, (depth - 1) as nat, kids[m]).contains(b),
    ensures
        children_order(boxes, depth, kids, k).contains(b),
    decreases m - k,
{
    let here = paint_order(boxes, (depth - 1) as nat, kids[k]);
    let rest = children_order(boxes, depth, kids, k + 1);
    let all = here + rest;
    if k == m {
        let j = here.index_of(b);
        assert(all[j] == b);
    } else {
        children_are_walked(boxes, depth, kids, k + 1, m, b);
        let j = rest.index_of(b);
        assert(all[here.len() + j] == b);
    }
}

/// What a walk from a child meets, the walk from its parent meets.
proof fn a_child_is_walked(boxes: Seq<BoxView>, depth: nat, id: BoxId, m: int, b: BoxId)
    requires
        depth > 0,
        id.0 < boxes.len(),
        0 <= m < boxes[id.0 as int].children.len(),
        paint_order(boxes, (depth - 1) as nat, boxes[id.0 as int].children[m]).contains(b),
    ensures
        paint_order(boxes, depth, id).contains(b),
{
    let kids = boxes[id.0 as int].children;
    children_are_walked(boxes, depth, kids, 0, m, b);
    let rest = children_order(boxes, depth, kids, 0);
    let j = rest.index_of(b);
    assert(paint_order(boxes, depth, id)[1 + j] == b);
}

proof fn a_shown_box_is_on_its_row(
    boxes: Seq<BoxView>,
    walk: Seq<BoxId>,
    n: int,
    m: int,
    y: i32,
)
    requires
        0 <= m < n <= walk.len(),
        shows_on(boxes[walk[m].0 as int], y),
    ensures
        some_run_shows(row_runs(boxes, walk, n, y as int)),
    decreases n,
{
    let here = box_runs(boxes[walk[n - 1].0 as int]);
    let before = row_runs(boxes, walk, n - 1, y as int);
    let on = runs_on(here, here.len() as int, y as int);
    let all = before + on;
    if m == n - 1 {
        assert(here.len() == 1);
        assert(!blank(here[0].text));
        assert(runs_on(here, 0, y as int) =~= Seq::<RunView>::empty());
        assert(on =~= seq![here[0]]);
        assert(all[before.len() as int] == here[0]);
    } else {
        a_shown_box_is_on_its_row(boxes, walk, n - 1, m, y);
        let j = choose|j: int| 0 <= j < before.len() && !blank((#[trigger] before[j]).text);
        assert(all[j] == before[j]);
    }
}

proof fn every_index_is_sorted(keys: Seq<i128>, n: int, k: int)
    requires
        0 <= k < n <= keys.len(),
        n <= usize::MAX,
    ensures
        sorted_indices(keys, n).contains(k as usize),
    decreases n,
{
    sorting_sorts(keys, n - 1);
    let before = sorted_indices(keys, n - 1);
    let after = sorted_indices(keys, n);
    let at = slot_for(keys, before, n - 1, before.len() as int);
    slot_splits(keys, before, n - 1, before.len() as int);
    if k == n - 1 {
        assert(after[at] == k as usize);
    } else {
        every_index_is_sorted(keys, n - 1, k);
        let j = before.index_of(k as usize);
        if j < at {
            assert(after[j] == k as usize);
        } else {
            assert(after[j + 1] == k as usize);
        }
    }
}

proof fn sorting_keeps_what_shows(runs: Seq<RunView>)
    requires
        some_run_shows(runs),
        runs.len() <= usize::MAX,
    ensures
        some_run_shows(from_the_left(runs)),
{
    let j = choose|j: int| 0 <= j < runs.len() && !blank((#[trigger] runs[j]).text);
    let keys = run_keys(runs);
    sorting_sorts(keys, keys.len() as int);
    every_index_is_sorted(keys, keys.len() as int, j);
    let order = sorted_indices(keys, keys.len() as int);
    let k = order.index_of(j as usize);
    assert(from_the_left(runs)[k] == runs[j]);
}

proof fn more_is_not_blank(a: Seq<char>, b: Seq<char>)
    ensures
        !blank(a) || !blank(b) ==> !blank(a + b),
{
    if !blank(a) {
        let i = choose|i: int| 0 <= i < a.len() && !is_html_space(#[trigger] a[i]);
        assert((a + b)[i] == a[i]);
    } else if !blank(b) {
        let i = choose|i: int| 0 <= i < b.len() && !is_html_space(#[trigger] b[i]);
        assert((a + b)[a.len() + i] == b[i]);
    }
}

proof fn adding_keeps_what_shows(spans: Seq<SpanView>, text: Seq<char>, style: Style)
    ensures
        !line_is_blank(spans) || !blank(text) ==> !line_is_blank(span_added(spans, text, style)),
{
    let all = span_added(spans, text, style);
    if spans.len() > 0 {
        more_is_not_blank(spans.last().text, text);
    }
    if !blank(text) {
        assert(!blank(all[all.len() - 1].text));
    } else if !line_is_blank(spans) {
        let j = choose|j: int| 0 <= j < spans.len() && !blank((#[trigger] spans[j]).text);
        assert(!blank(all[j].text));
    }
}

proof fn spans_keep_what_shows(runs: Seq<RunView>, i: int, cursor: i32, spans: Seq<SpanView>)
    requires
        0 <= i,
    ensures
        !line_is_blank(spans) ==> !line_is_blank(spans_from(runs, i, cursor, spans)),
        (exists|j: int| i <= j < runs.len() && !blank((#[trigger] runs[j]).text))
            ==> !line_is_blank(spans_from(runs, i, cursor, spans)),
    decreases runs.len() - i,
{
    if i < runs.len() {
        let r = runs[i];
        let gap = r.x > cursor;
        let padded = if gap {
            spans.push(
                SpanView { text: repeated(' ', minus(r.x, cursor) as int), style: Style::plain() },
            )
        } else {
            spans
        };
        let at = if gap {
            r.x
        } else {
            cursor
        };
        if !line_is_blank(spans) {
            let j = choose|j: int| 0 <= j < spans.len() && !blank((#[trigger] spans[j]).text);
            assert(padded[j] == spans[j]);
        }
        adding_keeps_what_shows(padded, r.text, r.style);
        spans_keep_what_shows(
            runs,
            i + 1,
            plus(at, cells_of(r.text)),
            span_added(padded, r.text, r.style),
        );
    }
}

/// A row with a box on it that shows is not blank.
pub proof fn a_row_that_shows_is_not_blank(tree: TreeView, b: BoxId, y: i32)
    requires
        b.0 < tree.boxes.len(),
        shows_on(tree.boxes[b.0 as int], y),
        paint_order(tree.boxes, tree.boxes.len(), tree.root).contains(b),
        ({
            let walk = paint_order(tree.boxes, tree.boxes.len(), tree.root);
            row_runs(tree.boxes, walk, walk.len() as int, y as int).len() <= usize::MAX
        }),
    ensures
        !line_is_blank(line_at(tree, y as int)),
{
    let walk = paint_order(tree.boxes, tree.boxes.len(), tree.root);
    let m = walk.index_of(b);
    a_shown_box_is_on_its_row(tree.boxes, walk, walk.len() as int, m, y);
    let runs = row_runs(tree.boxes, walk, walk.len() as int, y as int);
    sorting_keeps_what_shows(runs);
    spans_keep_what_shows(from_the_left(runs), 0, 0, Seq::empty());
}

/// Four boxes down, a box is still on the walk.
pub proof fn four_boxes_down(
    boxes: Seq<BoxView>,
    depth: nat,
    root: BoxId,
    block: BoxId,
    inner: BoxId,
    line: BoxId,
    r: int,
)
    requires
        depth >= 5,
        root.0 < boxes.len(),
        boxes[root.0 as int].children == seq![block],
        block.0 < boxes.len(),
        boxes[block.0 as int].children == seq![inner],
        inner.0 < boxes.len(),
        0 <= r < boxes[inner.0 as int].children.len(),
        boxes[inner.0 as int].children[r] == line,
        line.0 < boxes.len(),
        boxes[line.0 as int].children.len() > 0,
        boxes[line.0 as int].children[0].0 < boxes.len(),
    ensures
        paint_order(boxes, depth, root).contains(boxes[line.0 as int].children[0]),
{
    let b = boxes[line.0 as int].children[0];
    a_walk_begins(boxes, (depth - 4) as nat, b);
    a_child_is_walked(boxes, (depth - 3) as nat, line, 0, b);
    a_child_is_walked(boxes, (depth - 2) as nat, inner, r, b);
    a_child_is_walked(boxes, (depth - 1) as nat, block, 0, b);
    a_child_is_walked(boxes, depth, root, 0, b);
}

/// How many lines show something.
pub open spec fn rows_shown(lines: Seq<Seq<SpanView>>, n: int) -> nat
    decreases n,
{
    if n <= 0 {
        0
    } else {
        rows_shown(lines, n - 1) + if line_is_blank(lines[n - 1]) {
            0nat
        } else {
            1nat
        }
    }
}

/// If every line shows something, as many do as there are.
pub proof fn all_rows_shown(lines: Seq<Seq<SpanView>>, n: int)
    requires
        0 <= n <= lines.len(),
        forall|y: int| 0 <= y < lines.len() ==> !line_is_blank(#[trigger] lines[y]),
    ensures
        rows_shown(lines, n) == n,
    decreases n,
{
    if n > 0 {
        assert(!line_is_blank(lines[n - 1]));
        all_rows_shown(lines, n - 1);
    }
}

} // verus!
