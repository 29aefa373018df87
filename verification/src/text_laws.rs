//! Wrapping loses nothing: read row by row, the lines of a text hold all its
//! characters but the spaces, in their order.

use vstd::prelude::*;

use crate::blocks::Recipe;
use crate::boxes::BoxView;
use crate::breaker::{chunk, chunk_moves_on, hard_broken, piece_placed, pre_broken, wrapped};
use crate::cells::{larger, plus};
use crate::context::Ctx;
use crate::dom::{Dom, NodeId};
use crate::engine::Canvas;
use crate::inline::{
    frags_from, item_frags, space_piece, spacer, word_frags, word_piece, FragView, InlineItem,
    PieceKind, PieceView,
};
use crate::intrinsic::list_marker;
use crate::line_laws::{
    all_text, breaking_adds, chunks_are_not_negative, closing_adds, closing_keeps_text,
    is_text_piece, merging_keeps_text, placing_a_piece_adds, placing_adds, text_frags, text_items,
};
use crate::linebox::{
    align_shift, closed, emitted, extent_from, joined_with, merged, merged_from, placed_from,
    without_space, Extent, LineView,
};
use crate::style::{ComputedStyle, TextAlign};
use crate::term::Style;
use crate::text::{
    finished, is_html_space, is_white_space, lines_of, repeated, trimmed, trimmed_end,
    trimmed_start, words_from, words_of, Spaces,
};

verus! {

// ---- words -----------------------------------------------------------------

/// Characters without those that separate words.
pub open spec fn letters(s: Seq<char>, by: Spaces) -> Seq<char>
    decreases s.len(),
{
    if s.len() == 0 {
        Seq::empty()
    } else if by.holds(s.last()) {
        letters(s.drop_last(), by)
    } else {
        letters(s.drop_last(), by).push(s.last())
    }
}

/// Words one after another.
pub open spec fn run_together(words: Seq<Seq<char>>) -> Seq<char>
    decreases words.len(),
{
    if words.len() == 0 {
        Seq::empty()
    } else {
        run_together(words.drop_last()) + words.last()
    }
}

proof fn letters_add(a: Seq<char>, b: Seq<char>, by: Spaces)
    ensures
        letters(a + b, by) == letters(a, by) + letters(b, by),
    decreases b.len(),
{
    if b.len() == 0 {
        assert(a + b =~= a);
        assert(letters(a, by) + letters(b, by) =~= letters(a, by));
    } else {
        letters_add(a, b.drop_last(), by);
        assert((a + b).drop_last() =~= a + b.drop_last());
        assert(letters(a + b, by) =~= letters(a, by) + letters(b, by));
    }
}

proof fn run_together_adds(a: Seq<Seq<char>>, b: Seq<Seq<char>>)
    ensures
        run_together(a + b) == run_together(a) + run_together(b),
    decreases b.len(),
{
    if b.len() == 0 {
        assert(a + b =~= a);
        assert(run_together(a) + run_together(b) =~= run_together(a));
    } else {
        run_together_adds(a, b.drop_last());
        assert((a + b).drop_last() =~= a + b.drop_last());
        assert(run_together(a + b) =~= run_together(a) + run_together(b));
    }
}

proof fn one_word(word: Seq<char>)
    ensures
        run_together(finished(word)) == word,
{
    if word.len() > 0 {
        let s = seq![word];
        assert(s.drop_last() =~= Seq::<Seq<char>>::empty());
        assert(run_together(s.drop_last()) == Seq::<char>::empty());
        assert(run_together(s) =~= word);
    } else {
        assert(word =~= Seq::<char>::empty());
    }
}

/// A word has a character, and none of them separates words.
pub open spec fn is_word(w: Seq<char>, by: Spaces) -> bool {
    0 < w.len() && forall|i: int| 0 <= i < w.len() ==> !by.holds(#[trigger] w[i])
}

proof fn words_so_far(s: Seq<char>, by: Spaces, i: int, word: Seq<char>)
    requires
        0 <= i <= s.len(),
        forall|k: int| 0 <= k < word.len() ==> !by.holds(#[trigger] word[k]),
    ensures
        run_together(words_from(s, by, i, word)) == word + letters(s.skip(i), by),
        forall|k: int|
            0 <= k < words_from(s, by, i, word).len() ==> is_word(
                #[trigger] words_from(s, by, i, word)[k],
                by,
            ),
    decreases s.len() - i,
{
    let all = words_from(s, by, i, word);
    if i >= s.len() {
        one_word(word);
        assert(s.skip(i) =~= Seq::<char>::empty());
        assert(word + letters(s.skip(i), by) =~= word);
    } else {
        let c = seq![s[i]];
        assert(s.skip(i) =~= c + s.skip(i + 1));
        letters_add(c, s.skip(i + 1), by);
        assert(c.drop_last() =~= Seq::<char>::empty());
        assert(letters(c.drop_last(), by) == Seq::<char>::empty());
        if by.holds(s[i]) {
            words_so_far(s, by, i + 1, Seq::empty());
            let rest = words_from(s, by, i + 1, Seq::empty());
            one_word(word);
            run_together_adds(finished(word), rest);
            assert(letters(c, by) =~= Seq::<char>::empty());
            assert(word + letters(s.skip(i), by) =~= run_together(all));
            assert forall|k: int| 0 <= k < all.len() implies is_word(#[trigger] all[k], by) by {
                if k >= finished(word).len() {
                    assert(all[k] == rest[k - finished(word).len()]);
                }
            }
        } else {
            words_so_far(s, by, i + 1, word.push(s[i]));
            assert(letters(c, by) =~= c);
            assert(word + letters(s.skip(i), by) =~= word.push(s[i]) + letters(s.skip(i + 1), by));
        }
    }
}

/// The words of a text hold all its characters but those that separate words,
/// in their order, and no word is empty or holds one of those.
pub proof fn words_hold_the_letters(s: Seq<char>, by: Spaces, k: int)
    ensures
        run_together(words_of(s, by)) == letters(s, by),
        0 <= k < words_of(s, by).len() ==> is_word(words_of(s, by)[k], by),
{
    words_so_far(s, by, 0, Seq::empty());
    assert(s.skip(0) =~= s);
    assert(Seq::<char>::empty() + letters(s, by) =~= letters(s, by));
}

proof fn words_from_a_part(a: Seq<char>, b: Seq<char>, sep: char, by: Spaces, i: int, word: Seq<char>)
    requires
        0 <= i <= a.len(),
        by.holds(sep),
    ensures
        words_from(a.push(sep) + b, by, i, word) == words_from(a, by, i, word) + words_of(b, by),
    decreases a.len() - i,
{
    let s = a.push(sep) + b;
    if i < a.len() {
        assert(s[i] == a[i]);
        if by.holds(a[i]) {
            words_from_a_part(a, b, sep, by, i + 1, Seq::empty());
            assert(words_from(s, by, i, word) =~= words_from(a, by, i, word) + words_of(b, by));
        } else {
            words_from_a_part(a, b, sep, by, i + 1, word.push(a[i]));
        }
    } else {
        assert(s[i] == sep);
        words_from_the_middle(s, b, by, a.len() as int + 1, 0, Seq::empty());
    }
}

proof fn words_from_the_middle(
    s: Seq<char>,
    b: Seq<char>,
    by: Spaces,
    at: int,
    i: int,
    word: Seq<char>,
)
    requires
        0 <= i <= b.len(),
        0 <= at,
        s.len() == at + b.len(),
        forall|k: int| 0 <= k < b.len() ==> #[trigger] b[k] == s[at + k],
    ensures
        words_from(s, by, at + i, word) == words_from(b, by, i, word),
    decreases b.len() - i,
{
    if i < b.len() {
        assert(b[i] == s[at + i]);
        if by.holds(b[i]) {
            words_from_the_middle(s, b, by, at, i + 1, Seq::empty());
        } else {
            words_from_the_middle(s, b, by, at, i + 1, word.push(b[i]));
        }
    }
}

/// Words end where a character separates them: the words of two texts with one
/// between them are the words of the one and then those of the other.
pub proof fn spaces_separate_words(a: Seq<char>, sep: char, b: Seq<char>, by: Spaces)
    requires
        by.holds(sep),
    ensures
        words_of(a.push(sep) + b, by) == words_of(a, by) + words_of(b, by),
{
    words_from_a_part(a, b, sep, by, 0, Seq::empty());
}

/// And nowhere else: characters none of which separates words are one word.
pub proof fn a_word_is_one_word(w: Seq<char>, by: Spaces)
    requires
        is_word(w, by),
    ensures
        words_of(w, by) == seq![w],
{
    a_word_is_read_on(w, by, 0);
    assert(w.take(0) =~= Seq::<char>::empty());
}

proof fn a_word_is_read_on(w: Seq<char>, by: Spaces, i: int)
    requires
        0 <= i <= w.len(),
        is_word(w, by),
    ensures
        words_from(w, by, i, w.take(i)) == seq![w],
    decreases w.len() - i,
{
    if i < w.len() {
        assert(!by.holds(w[i]));
        assert(w.take(i).push(w[i]) =~= w.take(i + 1));
        a_word_is_read_on(w, by, i + 1);
    } else {
        assert(w.take(i) =~= w);
    }
}

// ---- ink -------------------------------------------------------------------

/// Characters without the blanks.
pub open spec fn ink(s: Seq<char>) -> Seq<char>
    decreases s.len(),
{
    if s.len() == 0 {
        Seq::empty()
    } else if s.last() == ' ' {
        ink(s.drop_last())
    } else {
        ink(s.drop_last()).push(s.last())
    }
}

proof fn ink_adds(a: Seq<char>, b: Seq<char>)
    ensures
        ink(a + b) == ink(a) + ink(b),
    decreases b.len(),
{
    if b.len() == 0 {
        assert(a + b =~= a);
        assert(ink(a) + ink(b) =~= ink(a));
    } else {
        ink_adds(a, b.drop_last());
        assert((a + b).drop_last() =~= a + b.drop_last());
        assert(ink(a + b) =~= ink(a) + ink(b));
    }
}

proof fn all_ink(s: Seq<char>)
    requires
        forall|i: int| 0 <= i < s.len() ==> #[trigger] s[i] != ' ',
    ensures
        ink(s) == s,
    decreases s.len(),
{
    if s.len() > 0 {
        assert(s[s.len() - 1] != ' ');
        all_ink(s.drop_last());
        assert(s.drop_last().push(s.last()) =~= s);
    }
}

proof fn no_ink(s: Seq<char>)
    requires
        forall|i: int| 0 <= i < s.len() ==> #[trigger] s[i] == ' ',
    ensures
        ink(s) == Seq::<char>::empty(),
    decreases s.len(),
{
    if s.len() > 0 {
        assert(s[s.len() - 1] == ' ');
        no_ink(s.drop_last());
    }
}

/// What the boxes from the `s`th to the `n`th say.
pub open spec fn said(boxes: Seq<BoxView>, s: int, n: int) -> Seq<char>
    decreases n - s,
{
    if n <= s {
        Seq::empty()
    } else {
        said(boxes, s, n - 1) + (match boxes[n - 1].text {
            Some(t) => t,
            None => Seq::empty(),
        })
    }
}

/// What pieces say.
pub open spec fn pieces_say(cur: Seq<PieceView>) -> Seq<char>
    decreases cur.len(),
{
    if cur.len() == 0 {
        Seq::empty()
    } else {
        pieces_say(cur.drop_last()) + cur.last().text
    }
}

/// Spaces and breaks leave no ink.
pub open spec fn is_blank_piece(p: PieceView) -> bool {
    (p.kind is Space || p.kind is Break) ==> ink(p.text) == Seq::<char>::empty()
}

pub open spec fn blanks_are_blank(cur: Seq<PieceView>) -> bool {
    forall|i: int| 0 <= i < cur.len() ==> is_blank_piece(#[trigger] cur[i])
}

proof fn said_is_kept(a: Seq<BoxView>, b: Seq<BoxView>, s: int, n: int)
    requires
        0 <= s,
        n <= a.len(),
        n <= b.len(),
        forall|i: int| s <= i < n ==> (#[trigger] b[i]).text == a[i].text,
    ensures
        said(b, s, n) == said(a, s, n),
    decreases n - s,
{
    if n > s {
        said_is_kept(a, b, s, n - 1);
        assert(b[n - 1].text == a[n - 1].text);
    }
}

proof fn one_piece_says_more(cur: Seq<PieceView>, p: PieceView)
    ensures
        pieces_say(cur.push(p)) == pieces_say(cur) + p.text,
{
    assert(cur.push(p).drop_last() =~= cur);
}

proof fn closing_loses_no_ink(cur: Seq<PieceView>)
    requires
        blanks_are_blank(cur),
    ensures
        ink(pieces_say(closed(cur))) == ink(pieces_say(cur)),
        blanks_are_blank(closed(cur)),
        ink(pieces_say(without_space(cur))) == ink(pieces_say(cur)),
        blanks_are_blank(without_space(cur)),
    decreases cur.len(),
{
    if cur.len() > 0 && cur.last().kind is Space {
        let rest = cur.drop_last();
        assert(is_blank_piece(cur[cur.len() - 1]));
        assert forall|i: int| 0 <= i < rest.len() implies is_blank_piece(#[trigger] rest[i]) by {
            assert(is_blank_piece(cur[i]));
        }
        closing_loses_no_ink(rest);
        ink_adds(pieces_say(rest), cur.last().text);
        assert(ink(pieces_say(rest)) + Seq::<char>::empty() =~= ink(pieces_say(rest)));
    }
}

proof fn merging_says_the_same(cur: Seq<PieceView>, i: int, acc: Seq<PieceView>)
    requires
        0 <= i <= cur.len(),
    ensures
        pieces_say(merged_from(cur, i, acc)) == pieces_say(acc) + pieces_say(cur.skip(i)),
    decreases cur.len() - i,
{
    if i < cur.len() {
        let p = cur[i];
        let next = joined_with(acc, p);
        merging_says_the_same(cur, i + 1, next);
        say_the_first(cur, i);
        assert(pieces_say(next) =~= pieces_say(acc) + p.text) by {
            if next.len() == acc.len() + 1 {
                one_piece_says_more(acc, p);
            } else {
                let last = next.last();
                assert(next =~= acc.drop_last().push(last));
                one_piece_says_more(acc.drop_last(), last);
                assert((pieces_say(acc.drop_last()) + acc.last().text) + p.text =~= pieces_say(
                    acc.drop_last(),
                ) + (acc.last().text + p.text));
            }
        }
        assert((pieces_say(acc) + p.text) + pieces_say(cur.skip(i + 1)) =~= pieces_say(acc) + (
        p.text + pieces_say(cur.skip(i + 1))));
    } else {
        assert(cur.skip(i) =~= Seq::<PieceView>::empty());
        assert(pieces_say(acc) + pieces_say(cur.skip(i)) =~= pieces_say(acc));
    }
}

proof fn say_the_first(cur: Seq<PieceView>, i: int)
    requires
        0 <= i < cur.len(),
    ensures
        pieces_say(cur.skip(i)) == cur[i].text + pieces_say(cur.skip(i + 1)),
    decreases cur.len() - i,
{
    pieces_say_both(seq![cur[i]], cur.skip(i + 1));
    assert(cur.skip(i) =~= seq![cur[i]] + cur.skip(i + 1));
    let one = seq![cur[i]];
    assert(one.drop_last() =~= Seq::<PieceView>::empty());
    assert(pieces_say(one.drop_last()) == Seq::<char>::empty());
    assert(pieces_say(one) =~= cur[i].text);
}

proof fn pieces_say_both(a: Seq<PieceView>, b: Seq<PieceView>)
    ensures
        pieces_say(a + b) == pieces_say(a) + pieces_say(b),
    decreases b.len(),
{
    if b.len() == 0 {
        assert(a + b =~= a);
        assert(pieces_say(a) + pieces_say(b) =~= pieces_say(a));
    } else {
        pieces_say_both(a, b.drop_last());
        assert((a + b).drop_last() =~= a + b.drop_last());
        assert(pieces_say(a + b) =~= pieces_say(a) + pieces_say(b));
    }
}

proof fn placing_says(
    cv: Canvas,
    pieces: Seq<PieceView>,
    i: int,
    cx: i32,
    row: i32,
    width: i32,
    ids: Seq<crate::boxes::BoxId>,
    s: int,
)
    requires
        0 <= i <= pieces.len(),
        0 <= s <= cv.boxes.len(),
        all_text(pieces),
    ensures
        ({
            let r = placed_from(cv, pieces, i, cx, row, width, ids).0;
            said(r.boxes, s, r.boxes.len() as int) == said(cv.boxes, s, cv.boxes.len() as int)
                + pieces_say(pieces.skip(i))
        }),
    decreases pieces.len() - i,
{
    let n = cv.boxes.len() as int;
    if i < pieces.len() {
        let p = pieces[i];
        assert(is_text_piece(pieces[i]));
        let b = crate::engine::text_box(
            p.node,
            crate::dimensions::Rect { x: cx, y: row, width: p.cells, height: 1 },
            p.text,
            p.style,
        );
        let next = cv.with_box(b);
        said_is_kept(cv.boxes, next.boxes, s, n);
        assert(said(next.boxes, s, n + 1) == said(cv.boxes, s, n) + p.text);
        placing_says(
            next,
            pieces,
            i + 1,
            plus(cx, p.cells),
            row,
            width,
            ids.push(cv.next_id()),
            s,
        );
        say_the_first(pieces, i);
        assert((said(cv.boxes, s, n) + p.text) + pieces_say(pieces.skip(i + 1)) =~= said(
            cv.boxes,
            s,
            n,
        ) + (p.text + pieces_say(pieces.skip(i + 1))));
    } else {
        assert(pieces.skip(i) =~= Seq::<PieceView>::empty());
        assert(said(cv.boxes, s, n) + pieces_say(pieces.skip(i)) =~= said(cv.boxes, s, n));
    }
}

/// The ink on the lines so far, and on the one being filled.
spec fn inked(cv: Canvas, lb: LineView, s: int) -> Seq<char> {
    ink(said(cv.boxes, s, cv.boxes.len() as int)) + ink(pieces_say(lb.cur))
}

proof fn closing_keeps_the_ink(
    cv: Canvas,
    lb: LineView,
    x: i32,
    width: i32,
    align: TextAlign,
    s: int,
)
    requires
        all_text(lb.cur),
        blanks_are_blank(lb.cur),
        0 <= s <= cv.boxes.len(),
        emitted(cv, lb, x, width, align).0.boxes.len() <= usize::MAX,
    ensures
        ({
            let r = emitted(cv, lb, x, width, align);
            &&& inked(r.0, r.1, s) == inked(cv, lb, s)
            &&& r.1.cur.len() == 0
        }),
{
    let cur = closed(lb.cur);
    let r = emitted(cv, lb, x, width, align);
    let n = cv.boxes.len() as int;
    closing_adds(cv, lb, x, width, align);
    closing_keeps_text(lb.cur);
    closing_loses_no_ink(lb.cur);
    let before = said(cv.boxes, s, n);
    if cur.len() > 0 {
        let e = extent_from(cv.boxes, cur, 0, Extent { cells: 0, above: 0, below: 0 });
        let height = plus(plus(e.above, 1), e.below);
        let with_line = cv.with_box(
            crate::engine::plain_box(
                crate::boxes::BoxKind::Line,
                None,
                crate::dimensions::Dimensions::bare(
                    crate::dimensions::Rect { x, y: lb.y, width, height },
                ),
                ComputedStyle::initial(),
            ),
        );
        said_is_kept(cv.boxes, with_line.boxes, s, n);
        assert(said(with_line.boxes, s, n + 1) =~= before);
        merging_keeps_text(cur, 0, Seq::empty());
        merging_says_the_same(cur, 0, Seq::empty());
        assert(cur.skip(0) =~= cur);
        let pieces = merged(cur);
        assert(pieces_say(pieces) =~= pieces_say(cur));
        let full = placed_from(
            with_line,
            pieces,
            0,
            plus(x, align_shift(align, width, e.cells)),
            plus(lb.y, e.above),
            width,
            Seq::empty(),
        );
        placing_adds(
            with_line,
            pieces,
            0,
            plus(x, align_shift(align, width, e.cells)),
            plus(lb.y, e.above),
            width,
            Seq::empty(),
        );
        placing_says(
            with_line,
            pieces,
            0,
            plus(x, align_shift(align, width, e.cells)),
            plus(lb.y, e.above),
            width,
            Seq::empty(),
            s,
        );
        assert(pieces.skip(0) =~= pieces);
        assert(r.0 == full.0.with_children(cv.next_id(), full.1));
        assert(r.0.boxes.len() == full.0.boxes.len());
        said_is_kept(full.0.boxes, r.0.boxes, s, r.0.boxes.len() as int);
        ink_adds(before, pieces_say(cur));
        assert(inked(r.0, r.1, s) =~= inked(cv, lb, s));
    } else {
        assert(cur =~= Seq::<PieceView>::empty());
    }
}

proof fn breaking_keeps_the_ink(
    cv: Canvas,
    lb: LineView,
    p: PieceView,
    from: int,
    x: i32,
    width: i32,
    align: TextAlign,
    s: int,
)
    requires
        0 <= from <= p.text.len(),
        all_text(lb.cur),
        blanks_are_blank(lb.cur),
        0 <= s <= cv.boxes.len(),
        hard_broken(cv, lb, p, from, x, width, align).0.boxes.len() <= usize::MAX,
    ensures
        ({
            let r = hard_broken(cv, lb, p, from, x, width, align);
            &&& inked(r.0, r.1, s) == inked(cv, lb, s) + ink(p.text.skip(from))
            &&& blanks_are_blank(r.1.cur)
        }),
    decreases p.text.len() - from,
{
    if from < p.text.len() {
        chunk_moves_on(p.text, from, from, 0, width);
        let (end, cells) = chunk(p.text, from, from, 0, width);
        chunks_are_not_negative(p.text, from, from, 0, width);
        let t = p.text.subrange(from, end);
        let part = word_piece(t, cells, p.style, p.node);
        let with = lb.with_cur(lb.cur.push(part));
        assert forall|i: int| 0 <= i < with.cur.len() implies is_text_piece(
            #[trigger] with.cur[i],
        ) && is_blank_piece(with.cur[i]) by {
            if i < lb.cur.len() {
                assert(is_text_piece(lb.cur[i]));
                assert(is_blank_piece(lb.cur[i]));
            }
        }
        one_piece_says_more(lb.cur, part);
        ink_adds(pieces_say(lb.cur), t);
        assert(p.text.skip(from) =~= t + p.text.skip(end));
        ink_adds(t, p.text.skip(end));
        assert(inked(cv, with, s) =~= inked(cv, lb, s) + ink(t));
        if end < p.text.len() {
            let (cv2, lb2) = emitted(cv, with, x, width, align);
            closing_adds(cv, with, x, width, align);
            breaking_adds(cv2, lb2, p, end, x, width, align);
            closing_keeps_the_ink(cv, with, x, width, align, s);
            breaking_keeps_the_ink(cv2, lb2, p, end, x, width, align, s);
            assert((inked(cv, lb, s) + ink(t)) + ink(p.text.skip(end)) =~= inked(cv, lb, s) + ink(
                p.text.skip(from),
            ));
        } else {
            assert(p.text.skip(end) =~= Seq::<char>::empty());
            assert(inked(cv, lb, s) + ink(t) =~= inked(cv, lb, s) + ink(p.text.skip(from)));
        }
    } else {
        assert(p.text.skip(from) =~= Seq::<char>::empty());
        assert(inked(cv, lb, s) + ink(p.text.skip(from)) =~= inked(cv, lb, s));
    }
}

proof fn placing_keeps_the_ink(
    cv: Canvas,
    lb: LineView,
    p: PieceView,
    x: i32,
    width: i32,
    align: TextAlign,
    s: int,
)
    requires
        all_text(lb.cur),
        blanks_are_blank(lb.cur),
        is_text_piece(p),
        is_blank_piece(p),
        0 <= s <= cv.boxes.len(),
        piece_placed(cv, lb, p, x, width, align).0.boxes.len() <= usize::MAX,
    ensures
        ({
            let r = piece_placed(cv, lb, p, x, width, align);
            &&& inked(r.0, r.1, s) == inked(cv, lb, s) + ink(p.text)
            &&& blanks_are_blank(r.1.cur)
        }),
{
    let r = piece_placed(cv, lb, p, x, width, align);
    let dropped = lb.with_cur(without_space(lb.cur));
    closing_loses_no_ink(lb.cur);
    assert forall|i: int| 0 <= i < dropped.cur.len() implies is_text_piece(
        #[trigger] dropped.cur[i],
    ) by {
        assert(is_text_piece(lb.cur[i]));
    }
    closing_adds(cv, lb, x, width, align);
    closing_adds(cv, dropped, x, width, align);
    let old = inked(cv, lb, s);
    match p.kind {
        PieceKind::Break => {
            assert(old + ink(p.text) =~= old);
            if lb.cur.len() == 0 {
                let n = cv.boxes.len() as int;
                said_is_kept(cv.boxes, r.0.boxes, s, n);
                assert(said(r.0.boxes, s, n + 1) =~= said(cv.boxes, s, n));
            } else {
                closing_keeps_the_ink(cv, lb, x, width, align, s);
            }
        },
        PieceKind::Space => {
            assert(old + ink(p.text) =~= old);
            if lb.cur.len() > 0 {
                one_piece_says_more(lb.cur, p);
                ink_adds(pieces_say(lb.cur), p.text);
                assert(inked(r.0, r.1, s) =~= old);
                assert forall|i: int| 0 <= i < r.1.cur.len() implies is_blank_piece(
                    #[trigger] r.1.cur[i],
                ) by {
                    if i < lb.cur.len() {
                        assert(is_blank_piece(lb.cur[i]));
                    }
                }
            }
        },
        PieceKind::Atomic(_) => {},
        PieceKind::Word => {
            let (cv2, lb2) = wrapped(cv, lb, x, width, align);
            if p.cells > width {
                breaking_adds(cv2, lb2, p, 0, x, width, align);
                closing_keeps_the_ink(cv, dropped, x, width, align, s);
                breaking_keeps_the_ink(cv2, lb2, p, 0, x, width, align, s);
                assert(p.text.skip(0) =~= p.text);
            } else {
                let (cv3, lb3) = if lb.cur.len() > 0 && plus(lb.cells, p.cells) > width {
                    (cv2, lb2)
                } else {
                    (cv, lb)
                };
                if lb.cur.len() > 0 && plus(lb.cells, p.cells) > width {
                    closing_keeps_the_ink(cv, dropped, x, width, align, s);
                }
                assert(inked(cv3, lb3, s) == old);
                one_piece_says_more(lb3.cur, p);
                ink_adds(pieces_say(lb3.cur), p.text);
                assert(inked(r.0, r.1, s) =~= old + ink(p.text));
                assert forall|i: int| 0 <= i < r.1.cur.len() implies is_blank_piece(
                    #[trigger] r.1.cur[i],
                ) by {
                    if i < lb3.cur.len() {
                        assert(is_blank_piece(lb3.cur[i]));
                    }
                }
            }
        },
    }
}

/// What fragments from the `i`th on leave on the page.
spec fn frags_ink(frags: Seq<FragView>, i: int) -> Seq<char>
    decreases frags.len() - i,
{
    if i >= frags.len() {
        Seq::empty()
    } else {
        (match frags[i] {
            FragView::Piece(p) => ink(p.text),
            _ => Seq::empty(),
        }) + frags_ink(frags, i + 1)
    }
}

spec fn blank_frags(frags: Seq<FragView>) -> bool {
    forall|i: int|
        0 <= i < frags.len() ==> ((#[trigger] frags[i]) matches FragView::Piece(p)
            ==> is_blank_piece(p))
}

/// What an item leaves on the page: a text its letters, a bullet itself.
pub open spec fn item_ink(dom: &Dom, item: InlineItem) -> Seq<char> {
    match item {
        InlineItem::Text { node, .. } => letters(dom.text_of(node), Spaces::Html),
        InlineItem::Marker { .. } => ink(list_marker()),
        _ => Seq::empty(),
    }
}

pub open spec fn items_ink(dom: &Dom, items: Seq<InlineItem>, i: int) -> Seq<char>
    decreases items.len() - i,
{
    if i >= items.len() {
        Seq::empty()
    } else {
        item_ink(dom, items[i]) + items_ink(dom, items, i + 1)
    }
}

proof fn frags_ink_adds(a: Seq<FragView>, b: Seq<FragView>, i: int)
    requires
        0 <= i <= a.len(),
    ensures
        frags_ink(a + b, i) == frags_ink(a, i) + frags_ink(b, 0),
    decreases a.len() - i,
{
    let all = a + b;
    if i < a.len() {
        frags_ink_adds(a, b, i + 1);
        assert(all[i] == a[i]);
        assert(frags_ink(all, i) =~= frags_ink(a, i) + frags_ink(b, 0));
    } else {
        frags_ink_from(all, b, a.len() as int, 0);
        assert(frags_ink(a, i) + frags_ink(b, 0) =~= frags_ink(b, 0));
    }
}

proof fn frags_ink_from(all: Seq<FragView>, b: Seq<FragView>, at: int, i: int)
    requires
        0 <= at,
        0 <= i <= b.len(),
        all.len() == at + b.len(),
        forall|k: int| 0 <= k < b.len() ==> #[trigger] b[k] == all[at + k],
    ensures
        frags_ink(all, at + i) == frags_ink(b, i),
    decreases b.len() - i,
{
    if i < b.len() {
        frags_ink_from(all, b, at, i + 1);
        assert(b[i] == all[at + i]);
    }
}

proof fn a_space_leaves_no_ink(style: Style)
    ensures
        ink(space_piece(style).text) == Seq::<char>::empty(),
{
    reveal_strlit(" ");
    no_ink(" "@);
}

proof fn words_leave_their_ink(
    words: Seq<Seq<char>>,
    k: int,
    pending: Option<Style>,
    style: Style,
    node: crate::dom::NodeId,
)
    requires
        0 <= k <= words.len(),
        forall|j: int| 0 <= j < words.len() ==> is_word(#[trigger] words[j], Spaces::Html),
    ensures
        frags_ink(word_frags(words, k, pending, style, node), 0) == run_together(words.skip(k)),
        blank_frags(word_frags(words, k, pending, style, node)),
    decreases words.len() - k,
{
    let all = word_frags(words, k, pending, style, node);
    if k < words.len() {
        let sp = space_piece(
            match pending {
                Some(s) => s,
                None => style,
            },
        );
        a_space_leaves_no_ink(sp.style);
        let lead = if k > 0 || pending is Some {
            seq![FragView::Piece(sp)]
        } else {
            Seq::empty()
        };
        let w = word_piece(words[k], crate::text::cells_of(words[k]), style, Some(node));
        let one = seq![FragView::Piece(w)];
        let rest = word_frags(words, k + 1, None, style, node);
        words_leave_their_ink(words, k + 1, None, style, node);
        frags_ink_adds(lead + one, rest, 0);
        frags_ink_adds(lead, one, 0);
        assert(is_word(words[k], Spaces::Html));
        all_ink(words[k]);
        assert(frags_ink(lead, 0) =~= Seq::<char>::empty()) by {
            if lead.len() > 0 {
                assert(frags_ink(lead, 1) == Seq::<char>::empty());
            }
        }
        assert(frags_ink(one, 1) == Seq::<char>::empty());
        assert(frags_ink(one, 0) =~= words[k]);
        let s = seq![words[k]];
        assert(words.skip(k) =~= s + words.skip(k + 1));
        run_together_adds(s, words.skip(k + 1));
        one_word(words[k]);
        assert(finished(words[k]) == s);
        assert(all =~= lead + one + rest);
        assert(frags_ink(all, 0) =~= run_together(words.skip(k)));
        assert forall|i: int| 0 <= i < all.len() implies ((#[trigger] all[i]) matches FragView::Piece(
            p,
        ) ==> is_blank_piece(p)) by {
            let m = lead.len() + 1;
            if i >= m {
                assert(all[i] == rest[i - m]);
            }
        }
    } else {
        assert(words.skip(k) =~= Seq::<Seq<char>>::empty());
    }
}

impl<'a> Ctx<'a> {
    proof fn items_leave_their_ink(&self, items: Seq<InlineItem>, i: int, pending: Option<Style>)
        requires
            0 <= i <= items.len(),
            text_items(items),
        ensures
            frags_ink(frags_from(self.dom, items, i, pending), 0) == items_ink(self.dom, items, i),
            blank_frags(frags_from(self.dom, items, i, pending)),
        decreases items.len() - i,
    {
        let all = frags_from(self.dom, items, i, pending);
        if i < items.len() {
            let (here, next) = item_frags(self.dom, items[i], pending);
            let rest = frags_from(self.dom, items, i + 1, next);
            self.items_leave_their_ink(items, i + 1, next);
            frags_ink_adds(here, rest, 0);
            assert(!(items[i] is Image) && !(items[i] is Atomic));
            assert(frags_ink(here, 0) =~= item_ink(self.dom, items[i]) && blank_frags(here)) by {
                match items[i] {
                    InlineItem::Text { node, style } => {
                        let text = self.dom.text_of(node);
                        let before = if text.len() > 0 && is_html_space(text[0]) {
                            Some(style)
                        } else {
                            pending
                        };
                        let words = words_of(text, Spaces::Html);
                        assert forall|j: int| 0 <= j < words.len() implies is_word(
                            #[trigger] words[j],
                            Spaces::Html,
                        ) by {
                            words_hold_the_letters(text, Spaces::Html, j);
                        }
                        words_leave_their_ink(words, 0, before, style, node);
                        words_hold_the_letters(text, Spaces::Html, 0);
                        assert(words.skip(0) =~= words);
                    },
                    InlineItem::Marker { style } => {
                        assert(frags_ink(here, 1) == Seq::<char>::empty());
                        assert(here[0] is Piece);
                    },
                    InlineItem::Spacer { cells } => {
                        if cells > 0 {
                            no_ink(repeated(' ', cells as int));
                            assert(frags_ink(here, 1) == Seq::<char>::empty());
                        }
                    },
                    InlineItem::Break => {
                        assert(frags_ink(here, 1) == Seq::<char>::empty());
                    },
                    _ => {},
                }
            }
            assert forall|j: int| 0 <= j < all.len() implies ((
            #[trigger] all[j]) matches FragView::Piece(p) ==> is_blank_piece(p)) by {
                if j < here.len() {
                    assert(all[j] == here[j]);
                } else {
                    assert(all[j] == rest[j - here.len()]);
                }
            }
        }
    }

    #[verifier::rlimit(60)]
    proof fn frags_keep_the_ink(
        &self,
        rec: Recipe,
        cv: Canvas,
        lb: LineView,
        frags: Seq<FragView>,
        i: int,
        x: i32,
        width: i32,
        align: TextAlign,
        s: int,
    )
        requires
            0 <= i <= frags.len(),
            text_frags(frags),
            blank_frags(frags),
            all_text(lb.cur),
            blanks_are_blank(lb.cur),
            0 <= s <= cv.boxes.len(),
            self.frags_placed(rec, cv, lb, frags, i, x, width, align).0.boxes.len() <= usize::MAX,
        ensures
            ({
                let r = self.frags_placed(rec, cv, lb, frags, i, x, width, align);
                &&& inked(r.0, r.1, s) == inked(cv, lb, s) + frags_ink(frags, i)
                &&& blanks_are_blank(r.1.cur)
                &&& all_text(r.1.cur)
                &&& cv.boxes.len() <= r.0.boxes.len()
            }),
        decreases frags.len() - i,
    {
        if i < frags.len() {
            let p = frags[i]->Piece_0;
            assert(frags[i] matches FragView::Piece(q) && is_text_piece(q));
            assert(self.frag_placed(rec, cv, lb, frags[i], x, width, align) == piece_placed(
                cv,
                lb,
                p,
                x,
                width,
                align,
            )) by {
                reveal(Ctx::frag_placed);
            }
            assert(frags[i] matches FragView::Piece(q) ==> is_blank_piece(q));
            let (cv2, lb2) = piece_placed(cv, lb, p, x, width, align);
            placing_a_piece_adds(cv, lb, p, x, width, align);
            self.placing_frags_adds(rec, cv2, lb2, frags, i + 1, x, width, align);
            placing_keeps_the_ink(cv, lb, p, x, width, align, s);
            self.frags_keep_the_ink(rec, cv2, lb2, frags, i + 1, x, width, align, s);
            assert((inked(cv, lb, s) + ink(p.text)) + frags_ink(frags, i + 1) =~= inked(cv, lb, s)
                + frags_ink(frags, i));
        } else {
            assert(inked(cv, lb, s) + frags_ink(frags, i) =~= inked(cv, lb, s));
        }
    }

    /// Breaking text into lines loses nothing of it: read in the order they were
    /// made, which is row by row and from the left, the boxes of its lines hold
    /// the characters of its texts that are not spaces, each as often as there
    /// and in their order, whatever the column and however it is aligned.
    pub proof fn wrapping_loses_nothing(
        &self,
        rec: Recipe,
        cv: Canvas,
        items: Seq<InlineItem>,
        x: i32,
        y: i32,
        width: i32,
        align: TextAlign,
    )
        requires
            text_items(items),
            self.inline_laid(rec, cv, items, x, y, width, align).0.boxes.len() <= usize::MAX,
        ensures
            ({
                let r = self.inline_laid(rec, cv, items, x, y, width, align).0;
                ink(said(r.boxes, cv.boxes.len() as int, r.boxes.len() as int)) == items_ink(
                    self.dom,
                    items,
                    0,
                )
            }),
    {
        reveal(Ctx::inline_laid);
        let w = larger(width, 1);
        let s = cv.boxes.len() as int;
        let frags = frags_from(self.dom, items, 0, None);
        self.items_are_text(items, 0, None);
        self.items_leave_their_ink(items, 0, None);
        let start = LineView::begin(y);
        let (cv2, lb) = self.frags_placed(rec, cv, start, frags, 0, x, w, align);
        self.text_stays_text(rec, cv, start, frags, 0, x, w, align);
        self.placing_frags_adds(rec, cv, start, frags, 0, x, w, align);
        closing_adds(cv2, lb, x, w, align);
        self.frags_keep_the_ink(rec, cv, start, frags, 0, x, w, align, s);
        closing_keeps_the_ink(cv2, lb, x, w, align, s);
        let r = emitted(cv2, lb, x, w, align);
        assert(inked(cv, start, s) =~= Seq::<char>::empty());
        assert(r.1.cur =~= Seq::<PieceView>::empty());
        assert(inked(r.0, r.1, s) =~= ink(said(r.0.boxes, s, r.0.boxes.len() as int)));
        assert(inked(cv, start, s) + frags_ink(frags, 0) =~= frags_ink(frags, 0));
    }
}

// ---- alignment -------------------------------------------------------------

/// A line narrower than its column is aligned in it: at the left, at the right,
/// or in the middle, to a cell. One as wide or wider starts at the left.
pub proof fn a_line_is_aligned_in_its_column(align: TextAlign, width: i32, cells: i32)
    requires
        0 <= width,
        0 <= cells,
    ensures
        ({
            let before = align_shift(align, width, cells);
            let after = width - cells - before;
            &&& 0 <= before
            &&& cells >= width ==> before == 0
            &&& cells < width ==> match align {
                TextAlign::Left => before == 0,
                TextAlign::Right => after == 0,
                TextAlign::Center => 0 <= after - before <= 1,
            }
        }),
{
}

/// A word that fits a line goes on the one being filled if there is room for it
/// after what is there, and else on a new one; a space never starts a line, and
/// a break always ends one.
pub proof fn a_word_wraps_only_for_want_of_room(
    cv: Canvas,
    lb: LineView,
    p: PieceView,
    x: i32,
    width: i32,
    align: TextAlign,
)
    requires
        all_text(lb.cur),
        lb.cur.len() > 0 ==> closed(lb.cur).len() > 0,
        0 <= lb.cells,
        0 <= p.cells,
        lb.cells + p.cells <= i32::MAX,
    ensures
        ({
            let (cv2, lb2) = piece_placed(cv, lb, p, x, width, align);
            let fits = lb.cur.len() == 0 || lb.cells + p.cells <= width;
            &&& p.kind is Word && p.cells <= width && fits ==> cv2 == cv && lb2.lines == lb.lines
                && lb2.y == lb.y && lb2.cur == lb.cur.push(p)
            &&& p.kind is Word && p.cells <= width && !fits ==> lb2.lines.len() == lb.lines.len() + 1
                && lb2.cur == seq![p]
            &&& p.kind is Space ==> cv2 == cv && lb2.lines == lb.lines
            &&& p.kind is Space && lb.cur.len() == 0 ==> lb2.cur.len() == 0
            &&& p.kind is Break ==> lb2.lines.len() == lb.lines.len() + 1 && lb2.cur.len() == 0
                && lb2.cells == 0
        }),
{
    closing_keeps_text(lb.cur);
    let dropped = lb.with_cur(without_space(lb.cur));
    assert forall|i: int| 0 <= i < dropped.cur.len() implies is_text_piece(
        #[trigger] dropped.cur[i],
    ) by {
        assert(is_text_piece(lb.cur[i]));
    }
    closing_adds(cv, lb, x, width, align);
    closing_adds(cv, dropped, x, width, align);
    let (cv2, lb2) = wrapped(cv, lb, x, width, align);
    assert(lb2.cur.len() == 0);
    assert(lb2.cur.push(p) =~= seq![p]);
}

/// The cells of the first `n` pieces.
pub open spec fn cells_before(pieces: Seq<PieceView>, n: int) -> int
    decreases n,
{
    if n <= 0 {
        0
    } else {
        cells_before(pieces, n - 1) + pieces[n - 1].cells
    }
}

proof fn cells_before_grow(pieces: Seq<PieceView>, m: int, n: int)
    requires
        0 <= m <= n <= pieces.len(),
        all_text(pieces),
    ensures
        0 <= cells_before(pieces, m) <= cells_before(pieces, n),
    decreases n,
{
    if m < n {
        assert(is_text_piece(pieces[n - 1]));
        cells_before_grow(pieces, m, n - 1);
    } else if m > 0 {
        assert(is_text_piece(pieces[m - 1]));
        cells_before_grow(pieces, m - 1, m - 1);
    }
}

/// Pieces of text sit side by side on their row, each where the one before it
/// ends, as wide as it is and saying what it says.
pub proof fn pieces_sit_side_by_side(
    cv: Canvas,
    pieces: Seq<PieceView>,
    i: int,
    cx: i32,
    row: i32,
    width: i32,
    ids: Seq<crate::boxes::BoxId>,
    k: int,
)
    requires
        0 <= i <= k < pieces.len(),
        all_text(pieces),
        cv.boxes.len() + pieces.len() - i <= usize::MAX,
        cx + cells_before(pieces, pieces.len() as int) - cells_before(pieces, i) <= i32::MAX,
    ensures
        ({
            let r = placed_from(cv, pieces, i, cx, row, width, ids);
            let at = cv.boxes.len() + k - i;
            let b = r.0.boxes[at];
            &&& at < r.0.boxes.len()
            &&& r.1[ids.len() + k - i].0 == at
            &&& b.text == Some(pieces[k].text)
            &&& b.node == pieces[k].node
            &&& b.dimensions == crate::dimensions::Dimensions::bare(
                crate::dimensions::Rect {
                    x: (cx + cells_before(pieces, k) - cells_before(pieces, i)) as i32,
                    y: row,
                    width: pieces[k].cells,
                    height: 1,
                },
            )
        }),
    decreases pieces.len() - i,
{
    let p = pieces[i];
    assert(is_text_piece(pieces[i]));
    cells_before_grow(pieces, i, i + 1);
    cells_before_grow(pieces, i + 1, pieces.len() as int);
    cells_before_grow(pieces, i, k);
    cells_before_grow(pieces, k, pieces.len() as int);
    let b = crate::engine::text_box(
        p.node,
        crate::dimensions::Rect { x: cx, y: row, width: p.cells, height: 1 },
        p.text,
        p.style,
    );
    let next = cv.with_box(b);
    let more = ids.push(cv.next_id());
    if i < k {
        pieces_sit_side_by_side(next, pieces, i + 1, plus(cx, p.cells), row, width, more, k);
    } else {
        crate::line_laws::placing_text(
            next,
            pieces,
            i + 1,
            plus(cx, p.cells),
            row,
            width,
            more,
        );
        let r = placed_from(next, pieces, i + 1, plus(cx, p.cells), row, width, more);
        assert(r.0.boxes[cv.boxes.len() as int] == next.boxes[cv.boxes.len() as int]);
        assert(r.1[ids.len() as int] == more[ids.len() as int]);
    }
}

proof fn text_takes_one_row(boxes: Seq<BoxView>, cur: Seq<PieceView>, i: int, e: Extent)
    requires
        0 <= i <= cur.len(),
        all_text(cur),
    ensures
        extent_from(boxes, cur, i, e).above == e.above,
        extent_from(boxes, cur, i, e).below == e.below,
    decreases cur.len() - i,
{
    if i < cur.len() {
        assert(is_text_piece(cur[i]));
        text_takes_one_row(boxes, cur, i + 1, Extent { cells: plus(e.cells, cur[i].cells), ..e });
    }
}

/// A line of text is one row of its column: it starts where the column does and
/// is as wide, and the next line is on the row below. Nothing is added for a
/// line with nothing on it.
pub proof fn a_line_of_text_is_one_row(
    cv: Canvas,
    lb: LineView,
    x: i32,
    width: i32,
    align: TextAlign,
)
    requires
        all_text(lb.cur),
        lb.y < i32::MAX,
        emitted(cv, lb, x, width, align).0.boxes.len() <= usize::MAX,
    ensures
        ({
            let (cv2, lb2) = emitted(cv, lb, x, width, align);
            let n = cv.boxes.len() as int;
            let line = crate::boxes::BoxId(n as usize);
            &&& closed(lb.cur).len() == 0 ==> cv2 == cv && lb2.lines == lb.lines && lb2.y == lb.y
            &&& closed(lb.cur).len() > 0 ==> {
                &&& lb2.lines == lb.lines.push(line)
                &&& lb2.y == lb.y + 1
                &&& cv2.boxes[n].dimensions == crate::dimensions::Dimensions::bare(
                    crate::dimensions::Rect { x, y: lb.y, width, height: 1 },
                )
                &&& cv2.boxes[n].kind is Line
                &&& forall|i: int| 0 <= i < n ==> #[trigger] cv2.boxes[i] == cv.boxes[i]
                &&& forall|i: int|
                    n < i < cv2.boxes.len() ==> (#[trigger] cv2.boxes[i]).dimensions.content.y
                        == lb.y
            }
        }),
{
    let cur = closed(lb.cur);
    closing_keeps_text(lb.cur);
    closing_adds(cv, lb, x, width, align);
    let n = cv.boxes.len() as int;
    if cur.len() > 0 {
        let start = Extent { cells: 0, above: 0, below: 0 };
        text_takes_one_row(cv.boxes, cur, 0, start);
        let e = extent_from(cv.boxes, cur, 0, start);
        let with_line = cv.with_box(
            crate::engine::plain_box(
                crate::boxes::BoxKind::Line,
                None,
                crate::dimensions::Dimensions::bare(
                    crate::dimensions::Rect { x, y: lb.y, width, height: 1 },
                ),
                ComputedStyle::initial(),
            ),
        );
        merging_keeps_text(cur, 0, Seq::empty());
        let pieces = merged(cur);
        let at = plus(x, align_shift(align, width, e.cells));
        placing_adds(with_line, pieces, 0, at, lb.y, width, Seq::empty());
        crate::line_laws::placing_text(with_line, pieces, 0, at, lb.y, width, Seq::empty());
        let full = placed_from(with_line, pieces, 0, at, lb.y, width, Seq::empty());
        let (cv2, lb2) = emitted(cv, lb, x, width, align);
        assert(cv2 == full.0.with_children(cv.next_id(), full.1));
        assert(full.0.boxes[n] == with_line.boxes[n]);
        assert forall|i: int| 0 <= i < n implies #[trigger] cv2.boxes[i] == cv.boxes[i] by {
            assert(full.0.boxes[i] == with_line.boxes[i]);
        }
        assert forall|i: int| n < i < cv2.boxes.len() implies (
        #[trigger] cv2.boxes[i]).dimensions.content.y == lb.y by {
            assert(full.0.boxes[i].dimensions.content.y == lb.y);
        }
    }
}

// ---- trimming --------------------------------------------------------------

proof fn trimming_the_start(s: Seq<char>) -> (i: int)
    ensures
        0 <= i <= s.len(),
        trimmed_start(s) == s.skip(i),
        forall|k: int| 0 <= k < i ==> is_white_space(#[trigger] s[k]),
        i < s.len() ==> !is_white_space(s[i]),
    decreases s.len(),
{
    if s.len() > 0 && is_white_space(s[0]) {
        let rest = s.drop_first();
        let j = trimming_the_start(rest);
        assert(rest.skip(j) =~= s.skip(j + 1));
        assert forall|k: int| 0 <= k < j + 1 implies is_white_space(#[trigger] s[k]) by {
            if k > 0 {
                assert(s[k] == rest[k - 1]);
            }
        }
        if j < rest.len() {
            assert(rest[j] == s[j + 1]);
        }
        j + 1
    } else {
        assert(s.skip(0) =~= s);
        0
    }
}

proof fn trimming_the_end(s: Seq<char>) -> (j: int)
    ensures
        0 <= j <= s.len(),
        trimmed_end(s) == s.take(j),
        forall|k: int| j <= k < s.len() ==> is_white_space(#[trigger] s[k]),
        0 < j ==> !is_white_space(s[j - 1]),
    decreases s.len(),
{
    if s.len() > 0 && is_white_space(s.last()) {
        let rest = s.drop_last();
        let j = trimming_the_end(rest);
        assert(rest.take(j) =~= s.take(j));
        assert forall|k: int| j <= k < s.len() implies is_white_space(#[trigger] s[k]) by {
            if k < rest.len() {
                assert(s[k] == rest[k]);
            }
        }
        if 0 < j {
            assert(rest[j - 1] == s[j - 1]);
        }
        j
    } else {
        assert(s.take(s.len() as int) =~= s);
        s.len() as int
    }
}

/// Trimming takes off white space at both ends, all of it, and nothing else.
pub proof fn trimming_takes_off_white_space(s: Seq<char>) -> (part: (int, int))
    ensures
        0 <= part.0 <= part.1 <= s.len(),
        trimmed(s) == s.subrange(part.0, part.1),
        forall|k: int| 0 <= k < part.0 || part.1 <= k < s.len() ==> is_white_space(#[trigger] s[k]),
        trimmed(s).len() > 0 ==> !is_white_space(trimmed(s)[0]) && !is_white_space(trimmed(s).last()),
{
    let i = trimming_the_start(s);
    let t = trimmed_start(s);
    let j = trimming_the_end(t);
    assert(t.take(j) =~= s.subrange(i, i + j));
    assert forall|k: int| 0 <= k < i || i + j <= k < s.len() implies is_white_space(
        #[trigger] s[k],
    ) by {
        if k >= i + j {
            assert(s[k] == t[k - i]);
        }
    }
    if j > 0 {
        assert(t[0] == s[i]);
        assert(trimmed(s)[0] == t[0]);
        assert(trimmed(s).last() == t[j - 1]);
    }
    (i, i + j)
}

// ---- inline text -----------------------------------------------------------

impl<'a> Ctx<'a> {
    /// The letters of the text inside a node that is neither hidden nor a box of
    /// its own, in document order.
    pub open spec fn letters_in(&self, id: NodeId) -> Seq<char>
        decreases self.dom.rank_of(id), 1nat,
        when self.wf() && self.dom.has(id)
    {
        if self.dom.is_text(id) {
            letters(self.dom.text_of(id), Spaces::Html)
        } else if !self.dom.is_element(id) || self.hides(id) || self.goes_whole(id) {
            Seq::empty()
        } else {
            self.letters_in_kids(id, 0)
        }
    }

    pub open spec fn letters_in_kids(&self, id: NodeId, k: int) -> Seq<char>
        decreases self.dom.rank_of(id), 0nat, self.dom.kids(id).len() - k,
        when self.wf() && self.dom.has(id) && k >= 0
    {
        if k >= self.dom.kids(id).len() {
            Seq::empty()
        } else {
            self.letters_in(self.dom.kids(id)[k]) + self.letters_in_kids(id, k + 1)
        }
    }

    /// The items of an inline are all the text inside it that is neither hidden nor
    /// in a box of its own, in document order, whatever its nesting and its edges.
    pub proof fn an_inline_holds_all_its_text(&self, id: NodeId, width: i32)
        requires
            self.wf(),
            self.is_flowing(),
            self.dom.has(id),
        ensures
            items_ink(self.dom, self.inline_items(id, width), 0) == self.letters_in(id),
        decreases self.dom.rank_of(id), 1nat,
    {
        let items = self.inline_items(id, width);
        if self.dom.is_element(id) {
            assert(self.flows_or_flexes(id));
        }
        if self.dom.is_text(id) {
            assert(items_ink(self.dom, items, 1) == Seq::<char>::empty());
            assert(items_ink(self.dom, items, 0) =~= self.letters_in(id));
        } else if self.dom.is_element(id) && !self.hides(id) && !self.goes_whole(id) {
            let c = self.style(id);
            let lead = plus(
                plus(c.margin.left.to_cells_h(width), c.padding.left.to_cells_h(width)),
                c.border.left.to_cells_h(width),
            );
            let trail = plus(
                plus(c.margin.right.to_cells_h(width), c.padding.right.to_cells_h(width)),
                c.border.right.to_cells_h(width),
            );
            let kids = self.kid_items(id, width, 0);
            self.inline_kids_hold_all_their_text(id, width, 0);
            items_ink_adds(self.dom, spacer(lead) + kids, spacer(trail), 0);
            items_ink_adds(self.dom, spacer(lead), kids, 0);
            spacers_leave_no_ink(self.dom, lead);
            spacers_leave_no_ink(self.dom, trail);
            assert(items_ink(self.dom, items, 0) =~= self.letters_in(id));
        } else if self.dom.is_element(id) && !self.hides(id) {
            assert(items_ink(self.dom, items, 1) == Seq::<char>::empty());
            assert(items_ink(self.dom, items, 0) =~= Seq::<char>::empty());
        }
    }

    proof fn inline_kids_hold_all_their_text(&self, id: NodeId, width: i32, k: int)
        requires
            self.wf(),
            self.is_flowing(),
            self.dom.has(id),
            0 <= k,
        ensures
            items_ink(self.dom, self.kid_items(id, width, k), 0) == self.letters_in_kids(
                id,
                k,
            ),
        decreases self.dom.rank_of(id), 0nat, self.dom.kids(id).len() - k,
    {
        if k < self.dom.kids(id).len() {
            let c = self.dom.kids(id)[k];
            assert(self.dom.nodes@[id.0 as int].children@[k] == c);
            self.an_inline_holds_all_its_text(c, width);
            self.inline_kids_hold_all_their_text(id, width, k + 1);
            items_ink_adds(
                self.dom,
                self.inline_items(c, width),
                self.kid_items(id, width, k + 1),
                0,
            );
        }
    }
}

proof fn items_ink_adds(dom: &Dom, a: Seq<InlineItem>, b: Seq<InlineItem>, i: int)
    requires
        0 <= i <= a.len(),
    ensures
        items_ink(dom, a + b, i) == items_ink(dom, a, i) + items_ink(dom, b, 0),
    decreases a.len() - i,
{
    let all = a + b;
    if i < a.len() {
        items_ink_adds(dom, a, b, i + 1);
        assert(all[i] == a[i]);
        assert(items_ink(dom, all, i) =~= items_ink(dom, a, i) + items_ink(dom, b, 0));
    } else {
        items_ink_from(dom, all, b, a.len() as int, 0);
        assert(items_ink(dom, a, i) + items_ink(dom, b, 0) =~= items_ink(dom, b, 0));
    }
}

proof fn items_ink_from(dom: &Dom, all: Seq<InlineItem>, b: Seq<InlineItem>, at: int, i: int)
    requires
        0 <= at,
        0 <= i <= b.len(),
        all.len() == at + b.len(),
        forall|k: int| 0 <= k < b.len() ==> #[trigger] b[k] == all[at + k],
    ensures
        items_ink(dom, all, at + i) == items_ink(dom, b, i),
    decreases b.len() - i,
{
    if i < b.len() {
        items_ink_from(dom, all, b, at, i + 1);
        assert(b[i] == all[at + i]);
    }
}

proof fn spacers_leave_no_ink(dom: &Dom, cells: i32)
    ensures
        items_ink(dom, spacer(cells), 0) == Seq::<char>::empty(),
{
    let s = spacer(cells);
    assert(items_ink(dom, s, s.len() as int) == Seq::<char>::empty());
    if cells > 0 {
        assert(items_ink(dom, s, 1) == Seq::<char>::empty());
        assert(items_ink(dom, s, 0) =~= Seq::<char>::empty());
    }
}

// ---- preformatted text -----------------------------------------------------

/// Pieces none of which is a space that could be dropped.
pub open spec fn none_drops(cur: Seq<PieceView>) -> bool {
    forall|i: int| 0 <= i < cur.len() ==> !((#[trigger] cur[i]).kind is Space)
}

/// What the lines so far say, and the one being filled.
spec fn told(cv: Canvas, lb: LineView, s: int) -> Seq<char> {
    said(cv.boxes, s, cv.boxes.len() as int) + pieces_say(lb.cur)
}

proof fn closing_tells_all(cv: Canvas, lb: LineView, x: i32, width: i32, align: TextAlign, s: int)
    requires
        all_text(lb.cur),
        none_drops(lb.cur),
        0 <= s <= cv.boxes.len(),
        emitted(cv, lb, x, width, align).0.boxes.len() <= usize::MAX,
    ensures
        ({
            let r = emitted(cv, lb, x, width, align);
            &&& told(r.0, r.1, s) == told(cv, lb, s)
            &&& r.1.cur.len() == 0
        }),
{
    let cur = lb.cur;
    if cur.len() > 0 {
        assert(!(cur[cur.len() - 1].kind is Space));
    }
    assert(closed(cur) == cur);
    let r = emitted(cv, lb, x, width, align);
    let n = cv.boxes.len() as int;
    closing_adds(cv, lb, x, width, align);
    if cur.len() > 0 {
        let e = extent_from(cv.boxes, cur, 0, Extent { cells: 0, above: 0, below: 0 });
        let height = plus(plus(e.above, 1), e.below);
        let with_line = cv.with_box(
            crate::engine::plain_box(
                crate::boxes::BoxKind::Line,
                None,
                crate::dimensions::Dimensions::bare(
                    crate::dimensions::Rect { x, y: lb.y, width, height },
                ),
                ComputedStyle::initial(),
            ),
        );
        said_is_kept(cv.boxes, with_line.boxes, s, n);
        assert(said(with_line.boxes, s, n + 1) =~= said(cv.boxes, s, n));
        merging_keeps_text(cur, 0, Seq::empty());
        merging_says_the_same(cur, 0, Seq::empty());
        assert(cur.skip(0) =~= cur);
        let pieces = merged(cur);
        assert(pieces_say(pieces) =~= pieces_say(cur));
        let at = plus(x, align_shift(align, width, e.cells));
        let full = placed_from(
            with_line,
            pieces,
            0,
            at,
            plus(lb.y, e.above),
            width,
            Seq::empty(),
        );
        placing_adds(with_line, pieces, 0, at, plus(lb.y, e.above), width, Seq::empty());
        placing_says(with_line, pieces, 0, at, plus(lb.y, e.above), width, Seq::empty(), s);
        assert(pieces.skip(0) =~= pieces);
        assert(r.0 == full.0.with_children(cv.next_id(), full.1));
        said_is_kept(full.0.boxes, r.0.boxes, s, r.0.boxes.len() as int);
        assert(told(r.0, r.1, s) =~= told(cv, lb, s));
    } else {
        assert(cur =~= Seq::<PieceView>::empty());
    }
}

proof fn breaking_a_line_tells_all(cv: Canvas, lb: LineView, x: i32, width: i32, s: int)
    requires
        all_text(lb.cur),
        none_drops(lb.cur),
        0 <= s <= cv.boxes.len(),
        pre_broken(cv, lb, x, width).0.boxes.len() <= usize::MAX,
    ensures
        ({
            let r = pre_broken(cv, lb, x, width);
            &&& told(r.0, r.1, s) == told(cv, lb, s)
            &&& r.1.cur.len() == 0
            &&& cv.boxes.len() <= r.0.boxes.len()
        }),
{
    let r = pre_broken(cv, lb, x, width);
    if lb.cur.len() == 0 {
        let n = cv.boxes.len() as int;
        said_is_kept(cv.boxes, r.0.boxes, s, n);
        assert(said(r.0.boxes, s, n + 1) =~= said(cv.boxes, s, n));
    } else {
        closing_adds(cv, lb, x, width, TextAlign::Left);
        closing_tells_all(cv, lb, x, width, TextAlign::Left, s);
    }
}

proof fn a_broken_line_adds(cv: Canvas, lb: LineView, x: i32, width: i32)
    requires
        all_text(lb.cur),
    ensures
        cv.boxes.len() <= pre_broken(cv, lb, x, width).0.boxes.len(),
        pre_broken(cv, lb, x, width).1.cur.len() == 0,
{
    closing_adds(cv, lb, x, width, TextAlign::Left);
}

proof fn one_word_on(lb: LineView, w: PieceView, s: int, cv: Canvas)
    requires
        all_text(lb.cur),
        none_drops(lb.cur),
        is_text_piece(w),
        !(w.kind is Space),
    ensures
        ({
            let with = lb.with_cur(lb.cur.push(w));
            &&& told(cv, with, s) == told(cv, lb, s) + w.text
            &&& all_text(with.cur)
            &&& none_drops(with.cur)
        }),
{
    let with = lb.with_cur(lb.cur.push(w));
    one_piece_says_more(lb.cur, w);
    assert(told(cv, with, s) =~= told(cv, lb, s) + w.text);
    assert forall|i: int| 0 <= i < with.cur.len() implies is_text_piece(#[trigger] with.cur[i])
        && !(with.cur[i].kind is Space) by {
        if i < lb.cur.len() {
            assert(is_text_piece(lb.cur[i]));
            assert(!(lb.cur[i].kind is Space));
        }
    }
}

impl<'a> Ctx<'a> {
    proof fn pre_text_adds(
        &self,
        cv: Canvas,
        lb: LineView,
        lines: Seq<Seq<char>>,
        i: int,
        style: Style,
        node: NodeId,
        x: i32,
        width: i32,
    )
        requires
            0 <= i,
            all_text(lb.cur),
            none_drops(lb.cur),
        ensures
            ({
                let r = self.pre_text(cv, lb, lines, i, style, node, x, width);
                &&& cv.boxes.len() <= r.0.boxes.len()
                &&& all_text(r.1.cur)
                &&& none_drops(r.1.cur)
            }),
        decreases lines.len() - i,
    {
        if i < lines.len() {
            let w = word_piece(lines[i], crate::text::cells_of(lines[i]), style, Some(node));
            let with = if lines[i].len() > 0 {
                lb.with_cur(lb.cur.push(w))
            } else {
                lb
            };
            one_word_on(lb, w, 0, cv);
            if i + 1 < lines.len() {
                let (cv2, lb2) = pre_broken(cv, with, x, width);
                a_broken_line_adds(cv, with, x, width);
                self.pre_text_adds(cv2, lb2, lines, i + 1, style, node, x, width);
            }
        }
    }

    proof fn pre_text_tells_all(
        &self,
        cv: Canvas,
        lb: LineView,
        lines: Seq<Seq<char>>,
        i: int,
        style: Style,
        node: NodeId,
        x: i32,
        width: i32,
        s: int,
    )
        requires
            0 <= i <= lines.len(),
            all_text(lb.cur),
            none_drops(lb.cur),
            0 <= s <= cv.boxes.len(),
            self.pre_text(cv, lb, lines, i, style, node, x, width).0.boxes.len() <= usize::MAX,
        ensures
            ({
                let r = self.pre_text(cv, lb, lines, i, style, node, x, width);
                told(r.0, r.1, s) == told(cv, lb, s) + run_together(lines.skip(i))
            }),
        decreases lines.len() - i,
    {
        if i < lines.len() {
            let w = word_piece(lines[i], crate::text::cells_of(lines[i]), style, Some(node));
            let with = if lines[i].len() > 0 {
                lb.with_cur(lb.cur.push(w))
            } else {
                lb
            };
            one_word_on(lb, w, s, cv);
            let one = seq![lines[i]];
            assert(lines.skip(i) =~= one + lines.skip(i + 1));
            run_together_adds(one, lines.skip(i + 1));
            assert(one.drop_last() =~= Seq::<Seq<char>>::empty());
            assert(run_together(one.drop_last()) == Seq::<char>::empty());
            assert(run_together(one) =~= lines[i]);
            assert(told(cv, with, s) =~= told(cv, lb, s) + lines[i]);
            if i + 1 < lines.len() {
                let (cv2, lb2) = pre_broken(cv, with, x, width);
                a_broken_line_adds(cv, with, x, width);
                self.pre_text_adds(cv2, lb2, lines, i + 1, style, node, x, width);
                breaking_a_line_tells_all(cv, with, x, width, s);
                self.pre_text_tells_all(cv2, lb2, lines, i + 1, style, node, x, width, s);
                assert((told(cv, lb, s) + lines[i]) + run_together(lines.skip(i + 1)) =~= told(
                    cv,
                    lb,
                    s,
                ) + run_together(lines.skip(i)));
            } else {
                assert(lines.skip(i + 1) =~= Seq::<Seq<char>>::empty());
                assert(told(cv, lb, s) + lines[i] =~= told(cv, lb, s) + run_together(
                    lines.skip(i),
                ));
            }
        } else {
            assert(lines.skip(i) =~= Seq::<Seq<char>>::empty());
            assert(told(cv, lb, s) + run_together(lines.skip(i)) =~= told(cv, lb, s));
        }
    }

    /// Preformatted text keeps all its characters but its newlines, spaces and
    /// all, in their order, however narrow the column.
    pub proof fn preformatted_text_keeps_its_spaces(
        &self,
        rec: Recipe,
        cv: Canvas,
        node: NodeId,
        style: Style,
        x: i32,
        y: i32,
        width: i32,
    )
        requires
            self.pre_laid(
                rec,
                cv,
                seq![InlineItem::Text { node, style }],
                x,
                y,
                width,
            ).0.boxes.len() <= usize::MAX,
        ensures
            ({
                let r = self.pre_laid(
                    rec,
                    cv,
                    seq![InlineItem::Text { node, style }],
                    x,
                    y,
                    width,
                ).0;
                said(r.boxes, cv.boxes.len() as int, r.boxes.len() as int) == run_together(
                    lines_of(self.dom.text_of(node)),
                )
            }),
    {
        reveal(Ctx::pre_laid);
        reveal(Ctx::pre_item);
        let items = seq![InlineItem::Text { node, style }];
        let s = cv.boxes.len() as int;
        let start = LineView::begin(y);
        let lines = lines_of(self.dom.text_of(node));
        let (cv2, lb) = self.pre_text(cv, start, lines, 0, style, node, x, width);
        assert(self.pre_item(rec, cv, start, items[0], x, width) == (cv2, lb));
        assert(self.pre_items(rec, cv2, lb, items, 1, x, width) == (cv2, lb));
        assert(self.pre_items(rec, cv, start, items, 0, x, width) == (cv2, lb));
        self.pre_text_adds(cv, start, lines, 0, style, node, x, width);
        let r = self.pre_laid(rec, cv, items, x, y, width).0;
        if lb.cur.len() > 0 {
            closing_adds(cv2, lb, x, width, TextAlign::Left);
        }
        self.pre_text_tells_all(cv, start, lines, 0, style, node, x, width, s);
        assert(lines.skip(0) =~= lines);
        assert(told(cv, start, s) =~= Seq::<char>::empty());
        assert(told(cv, start, s) + run_together(lines) =~= run_together(lines));
        if lb.cur.len() > 0 {
            closing_tells_all(cv2, lb, x, width, TextAlign::Left, s);
            let e = emitted(cv2, lb, x, width, TextAlign::Left);
            assert(e.1.cur =~= Seq::<PieceView>::empty());
            assert(told(e.0, e.1, s) =~= said(r.boxes, s, r.boxes.len() as int));
        } else {
            assert(lb.cur =~= Seq::<PieceView>::empty());
            assert(told(cv2, lb, s) =~= said(cv2.boxes, s, cv2.boxes.len() as int));
            if lb.lines.len() == 0 {
                let n = cv2.boxes.len() as int;
                said_is_kept(cv2.boxes, r.boxes, s, n);
                assert(said(r.boxes, s, n + 1) =~= said(cv2.boxes, s, n));
            }
        }
    }
}

} // verus!
