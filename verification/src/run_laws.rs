//! What a run of inline content measures is what the line breaker makes of it.

use vstd::prelude::*;

use crate::blocks::Recipe;
use crate::boxmodel::{is_out_of_flow, term_style};
use crate::breaker::{piece_placed, pre_broken, wrapped};
use crate::cells::{fit, larger, plus};
use crate::context::Ctx;
use crate::engine::Canvas;
use crate::dom::{Dom, NodeId};
use crate::inline::{
    frags_from, item_frags, spacer, spacer_frag, word_frags, word_piece, FragView, InlineItem,
    PieceKind, PieceView,
};
use crate::intrinsic::{pre_pieces, text_pieces, word_pieces, Run, Sizes};
use crate::line_laws::{
    all_counted, all_text, cells_are_not_negative, cells_of_one_more, cells_on, closing_adds,
    is_text_piece, one_piece, placing_a_piece_adds, text_frags, text_items,
};
use crate::linebox::{closed, emitted, without_space, LineView};
use crate::style::{Length, TextAlign};
use crate::term::Style;
use crate::text::{cells_of, is_html_space, lines_from, lines_of, words_of, Spaces};

verus! {

/// A run measured fragment by fragment, as if nothing wrapped.
pub open spec fn frags_measured(frags: Seq<FragView>, i: int, run: Run) -> Run
    decreases frags.len() - i,
{
    if i >= frags.len() {
        run
    } else {
        frags_measured(frags, i + 1, frag_measured(frags[i], run))
    }
}

pub open spec fn frag_measured(frag: FragView, run: Run) -> Run {
    match frag {
        FragView::Piece(p) => match p.kind {
            PieceKind::Space => run.space(),
            PieceKind::Break => run.line_break(),
            _ => run.piece(p.cells),
        },
        _ => run,
    }
}

/// How many lines the fragments from the `i`th on take if nothing wraps: one
/// for each forced break, and one for what is left. `open` says that there is
/// something on the line already.
pub open spec fn rows_unwrapped(frags: Seq<FragView>, i: int, open: bool) -> nat
    decreases frags.len() - i,
{
    if i >= frags.len() {
        if open {
            1
        } else {
            0
        }
    } else {
        match frags[i] {
            FragView::Piece(p) => match p.kind {
                PieceKind::Space => rows_unwrapped(frags, i + 1, open),
                PieceKind::Break => 1 + rows_unwrapped(frags, i + 1, false),
                _ => rows_unwrapped(frags, i + 1, true),
            },
            _ => rows_unwrapped(frags, i + 1, open),
        }
    }
}

/// Every collapsed space stands before a word.
pub open spec fn spaces_separate(frags: Seq<FragView>) -> bool {
    forall|i: int|
        0 <= i < frags.len() && (#[trigger] frags[i]) is Piece && frags[i]->Piece_0.kind is Space
            ==> i + 1 < frags.len() && frags[i + 1] is Piece && frags[i + 1]->Piece_0.kind is Word
}

/// The cells of the first `n` fragments.
pub open spec fn cells_of_frags(frags: Seq<FragView>, n: int) -> int
    decreases n,
{
    if n <= 0 {
        0
    } else {
        cells_of_frags(frags, n - 1) + (if frags[n - 1] is Piece {
            frags[n - 1]->Piece_0.cells as int
        } else {
            0
        })
    }
}

proof fn cells_of_frags_grow(frags: Seq<FragView>, j: int, n: int)
    requires
        text_frags(frags),
        0 <= j <= n <= frags.len(),
    ensures
        0 <= cells_of_frags(frags, j) <= cells_of_frags(frags, n),
    decreases n,
{
    if n > 0 {
        assert(frags[n - 1] matches FragView::Piece(p) && is_text_piece(p));
        if j < n {
            cells_of_frags_grow(frags, j, n - 1);
        } else {
            cells_of_frags_grow(frags, n - 1, n - 1);
        }
    }
}

/// Where breaking and measuring stand after the same fragments: as long as
/// everything measured so far fits, no line was closed but by a break, and the
/// line holds exactly what was measured of it.
spec fn together(lb: LineView, run: Run, breaks: nat, width: i32) -> bool {
    let owed = if run.pending_space && !run.at_start {
        1int
    } else {
        0
    };
    &&& all_text(lb.cur)
    &&& (lb.cur.len() == 0 <==> run.at_start)
    &&& lb.cur.len() > 0 ==> !(lb.cur[0].kind is Space)
    &&& lb.cur.len() > 0 ==> lb.cells == fit(cells_on(lb.cur))
    &&& 0 <= run.cur
    &&& 0 <= run.max
    &&& run.at_start ==> run.cur == 0
    &&& larger(run.max, run.cur) <= width ==> {
        &&& lb.lines.len() == breaks
        &&& lb.cur.len() > 0 ==> cells_on(lb.cur) == run.cur + owed
    }
    &&& larger(run.max, run.cur) > width ==> lb.lines.len() > breaks
}

proof fn a_line_with_a_word_on_it_closes(cur: Seq<PieceView>)
    requires
        cur.len() > 0,
        !(cur[0].kind is Space),
    ensures
        closed(cur).len() > 0,
    decreases cur.len(),
{
    if cur.last().kind is Space {
        assert(cur.len() > 1);
        assert(cur.drop_last()[0] == cur[0]);
        a_line_with_a_word_on_it_closes(cur.drop_last());
    }
}

proof fn closing_a_word(cv: Canvas, lb: LineView, x: i32, width: i32, align: TextAlign)
    requires
        all_text(lb.cur),
        lb.cur.len() > 0,
        !(lb.cur[0].kind is Space),
    ensures
        emitted(cv, lb, x, width, align).1.lines.len() == lb.lines.len() + 1,
        emitted(cv, lb, x, width, align).1.cur.len() == 0,
        wrapped(cv, lb, x, width, align).1.lines.len() == lb.lines.len() + 1,
        wrapped(cv, lb, x, width, align).1.cur.len() == 0,
{
    a_line_with_a_word_on_it_closes(lb.cur);
    closing_adds(cv, lb, x, width, align);
    let dropped = lb.with_cur(without_space(lb.cur));
    assert forall|i: int| 0 <= i < dropped.cur.len() implies is_text_piece(
        #[trigger] dropped.cur[i],
    ) by {
        assert(is_text_piece(lb.cur[i]));
    }
    assert(dropped.cur.len() > 0 && dropped.cur[0] == lb.cur[0]);
    a_line_with_a_word_on_it_closes(dropped.cur);
    closing_adds(cv, dropped, x, width, align);
}

proof fn breaking_and_measuring_one(
    cv: Canvas,
    lb: LineView,
    run: Run,
    breaks: nat,
    p: PieceView,
    x: i32,
    width: i32,
    align: TextAlign,
)
    requires
        together(lb, run, breaks, width),
        is_text_piece(p),
        p.kind is Space ==> p.cells == 1 && !run.pending_space,
        p.kind is Word ==> p.cells <= width,
        run.cur + 1 + p.cells < i32::MAX,
        1 <= width,
    ensures
        together(
            piece_placed(cv, lb, p, x, width, align).1,
            frag_measured(FragView::Piece(p), run),
            if p.kind is Break {
                breaks + 1
            } else {
                breaks
            },
            width,
        ),
{
    placing_a_piece_adds(cv, lb, p, x, width, align);
    let next = piece_placed(cv, lb, p, x, width, align).1;
    let after = frag_measured(FragView::Piece(p), run);
    cells_are_not_negative(lb.cur);
    if lb.cur.len() > 0 {
        closing_a_word(cv, lb, x, width, align);
        cells_of_one_more(lb.cur, p);
    }
    match p.kind {
        PieceKind::Break => {},
        PieceKind::Space => {},
        PieceKind::Word => {
            one_piece(p);
            if lb.cur.len() == 0 {
                assert(lb.cur =~= Seq::<PieceView>::empty());
                assert(lb.cur.push(p) =~= seq![p]);
                all_counted(seq![p]);
            } else if plus(lb.cells, p.cells) > width {
                let line = wrapped(cv, lb, x, width, align).1;
                assert(line.cur =~= Seq::<PieceView>::empty());
                assert(line.cur.push(p) =~= seq![p]);
                all_counted(seq![p]);
                assert(next.lines.len() == lb.lines.len() + 1);
                if larger(run.max, run.cur) <= width {
                    assert(larger(after.max, after.cur) > width);
                }
            } else {
                all_counted(next.cur);
                assert(next.cur[0] == lb.cur[0]);
                assert(next.lines == lb.lines);
            }
        },
        PieceKind::Atomic(_) => {},
    }
}

impl<'a> Ctx<'a> {
    proof fn breaking_and_measuring(
        &self,
        rec: Recipe,
        cv: Canvas,
        lb: LineView,
        run: Run,
        breaks: nat,
        frags: Seq<FragView>,
        i: int,
        x: i32,
        width: i32,
        align: TextAlign,
    )
        requires
            0 <= i <= frags.len(),
            text_frags(frags),
            spaces_separate(frags),
            cells_of_frags(frags, frags.len() as int) < i32::MAX - 1,
            run.cur + (if run.pending_space {
                1int
            } else {
                0
            }) <= cells_of_frags(frags, i),
            run.pending_space ==> i < frags.len() && frags[i] is Piece
                && frags[i]->Piece_0.kind is Word,
            frags_measured(frags, i, run).min <= width,
            together(lb, run, breaks, width),
            1 <= width,
        ensures
            ({
                let end = self.frags_placed(rec, cv, lb, frags, i, x, width, align).1;
                let all = frags_measured(frags, i, run);
                let rows = breaks + rows_unwrapped(frags, i, !run.at_start);
                let last = if end.cur.len() > 0 {
                    1nat
                } else {
                    0nat
                };
                &&& all_text(end.cur)
                &&& end.cur.len() > 0 ==> !(end.cur[0].kind is Space)
                &&& larger(all.max, all.cur) <= width ==> end.lines.len() + last == rows
                &&& larger(all.max, all.cur) > width ==> end.lines.len() + last > rows
            }),
        decreases frags.len() - i,
    {
        if i < frags.len() {
            let p = frags[i]->Piece_0;
            assert(frags[i] matches FragView::Piece(q) && is_text_piece(q) && (q.kind is Space
                ==> q.cells == 1));
            cells_of_frags_grow(frags, i + 1, frags.len() as int);
            let next_run = frag_measured(frags[i], run);
            measuring_only_widens(frags, i + 1, next_run);
            if p.kind is Word {
                assert(p.cells <= width);
            }
            breaking_and_measuring_one(cv, lb, run, breaks, p, x, width, align);
            self.placing_a_piece(rec, cv, lb, frags, i, p, x, width, align);
            let (cv2, lb2) = piece_placed(cv, lb, p, x, width, align);
            self.breaking_and_measuring(
                rec,
                cv2,
                lb2,
                next_run,
                if p.kind is Break {
                    breaks + 1
                } else {
                    breaks
                },
                frags,
                i + 1,
                x,
                width,
                align,
            );
        }
    }
}

/// Measuring more of a run never makes it narrower.
proof fn measuring_only_widens(frags: Seq<FragView>, i: int, run: Run)
    requires
        text_frags(frags),
        0 <= i,
    ensures
        frags_measured(frags, i, run).min >= run.min,
    decreases frags.len() - i,
{
    if i < frags.len() {
        measuring_only_widens(frags, i + 1, frag_measured(frags[i], run));
    }
}

proof fn words_separate(
    words: Seq<Seq<char>>,
    k: int,
    pending: Option<Style>,
    style: Style,
    node: NodeId,
)
    requires
        0 <= k,
    ensures
        spaces_separate(word_frags(words, k, pending, style, node)),
    decreases words.len() - k,
{
    if k < words.len() {
        words_separate(words, k + 1, None, style, node);
        let rest = word_frags(words, k + 1, None, style, node);
        let all = word_frags(words, k, pending, style, node);
        let lead = all.len() - rest.len();
        assert forall|i: int|
            0 <= i < all.len() && (#[trigger] all[i]) is Piece && all[i]->Piece_0.kind is Space implies i
            + 1 < all.len() && all[i + 1] is Piece && all[i + 1]->Piece_0.kind is Word by {
            if i >= lead {
                assert(all[i] == rest[i - lead]);
                assert(all[i + 1] == rest[i - lead + 1]);
            }
        }
    }
}

impl<'a> Ctx<'a> {
    proof fn items_separate(&self, items: Seq<InlineItem>, i: int, pending: Option<Style>)
        requires
            0 <= i,
            text_items(items),
        ensures
            spaces_separate(frags_from(self.dom, items, i, pending)),
        decreases items.len() - i,
    {
        if i < items.len() {
            let (here, next) = item_frags(self.dom, items[i], pending);
            let rest = frags_from(self.dom, items, i + 1, next);
            self.items_separate(items, i + 1, next);
            assert(!(items[i] is Image) && !(items[i] is Atomic));
            if let InlineItem::Text { node, style } = items[i] {
                let text = self.dom.text_of(node);
                let before = if text.len() > 0 && is_html_space(text[0]) {
                    Some(style)
                } else {
                    pending
                };
                words_separate(words_of(text, Spaces::Html), 0, before, style, node);
            }
            assert(spaces_separate(here));
            let all = here + rest;
            assert forall|j: int|
                0 <= j < all.len() && (#[trigger] all[j]) is Piece
                    && all[j]->Piece_0.kind is Space implies j + 1 < all.len() && all[j + 1] is Piece
                && all[j + 1]->Piece_0.kind is Word by {
                if j < here.len() {
                    assert(all[j] == here[j]);
                    assert(all[j + 1] == here[j + 1]);
                } else {
                    assert(all[j] == rest[j - here.len()]);
                    assert(all[j + 1] == rest[j - here.len() + 1]);
                }
            }
        }
    }

    /// What some items measure if nothing wraps.
    pub open spec fn items_measured(&self, items: Seq<InlineItem>) -> Sizes {
        frags_measured(frags_from(self.dom, items, 0, None), 0, Run::new(false)).finish()
    }

    /// How many lines some items take if nothing wraps.
    pub open spec fn lines_unwrapped(&self, items: Seq<InlineItem>) -> nat {
        rows_unwrapped(frags_from(self.dom, items, 0, None), 0, false)
    }

    /// Items whose cells can be counted.
    pub open spec fn items_fit_a_number(&self, items: Seq<InlineItem>) -> bool {
        let frags = frags_from(self.dom, items, 0, None);
        cells_of_frags(frags, frags.len() as int) < i32::MAX - 1
    }

    /// A run of inline content wraps just below its unwrapped width: in a column
    /// that holds its widest piece it takes as many lines as it has to if and
    /// only if the column is at least that wide, and more otherwise.
    pub proof fn a_run_wraps_just_below_its_unwrapped_width(
        &self,
        rec: Recipe,
        cv: Canvas,
        items: Seq<InlineItem>,
        x: i32,
        y: i32,
        width: i32,
        align: TextAlign,
    )
        requires
            text_items(items),
            self.items_fit_a_number(items),
            1 <= width,
            self.items_measured(items).min <= width,
        ensures
            ({
                let lines = self.inline_laid(rec, cv, items, x, y, width, align).1.len();
                &&& self.items_measured(items).max <= width ==> lines == self.lines_unwrapped(items)
                &&& self.items_measured(items).max > width ==> lines > self.lines_unwrapped(items)
            }),
    {
        reveal(Ctx::inline_laid);
        let frags = frags_from(self.dom, items, 0, None);
        self.items_are_text(items, 0, None);
        self.items_separate(items, 0, None);
        let start = LineView::begin(y);
        assert(start.cur.map_values(|p: PieceView| p.cells as int) =~= Seq::<int>::empty());
        measuring_keeps_pre(frags, 0, Run::new(false));
        self.breaking_and_measuring(
            rec,
            cv,
            start,
            Run::new(false),
            0,
            frags,
            0,
            x,
            width,
            align,
        );
        let (cv2, lb) = self.frags_placed(rec, cv, start, frags, 0, x, width, align);
        if lb.cur.len() > 0 {
            closing_a_word(cv2, lb, x, width, align);
        } else {
            assert(lb.cur =~= Seq::<PieceView>::empty());
            assert(closed(lb.cur).len() == 0);
        }
    }
}

proof fn measuring_keeps_pre(frags: Seq<FragView>, i: int, run: Run)
    requires
        0 <= i,
    ensures
        frags_measured(frags, i, run).pre == run.pre,
    decreases frags.len() - i,
{
    if i < frags.len() {
        measuring_keeps_pre(frags, i + 1, frag_measured(frags[i], run));
    }
}

/// A run being measured item by item.
pub struct Measuring {
    pub run: Run,
    /// The collapsed space owed before the next word.
    pub owed: Option<Style>,
    /// No gap so far stood where a space was owed.
    pub clean: bool,
}

/// One more item. The breaker puts a gap before a space that is owed, and the
/// sizer after it.
pub open spec fn item_measured(dom: &Dom, item: InlineItem, m: Measuring) -> Measuring {
    let (frags, owed) = item_frags(dom, item, m.owed);
    Measuring {
        run: frags_measured(frags, 0, m.run),
        owed,
        clean: m.clean && (item is Spacer || item is Marker ==> m.owed is None),
    }
}

pub open spec fn all_measured(dom: &Dom, items: Seq<InlineItem>, i: int, m: Measuring) -> Measuring
    decreases items.len() - i,
{
    if i >= items.len() {
        m
    } else {
        all_measured(dom, items, i + 1, item_measured(dom, items[i], m))
    }
}

/// Nothing measured yet.
pub open spec fn unmeasured() -> Measuring {
    Measuring { run: Run::new(false), owed: None, clean: true }
}

proof fn measuring_in_two(f: Seq<FragView>, g: Seq<FragView>, i: int, run: Run)
    requires
        0 <= i <= f.len(),
    ensures
        frags_measured(f + g, i, run) == frags_measured(g, 0, frags_measured(f, i, run)),
    decreases f.len() - i,
{
    if i < f.len() {
        assert((f + g)[i] == f[i]);
        measuring_in_two(f, g, i + 1, frag_measured(f[i], run));
    } else {
        measuring_the_rest(f, g, 0, run);
    }
}

proof fn measuring_the_rest(f: Seq<FragView>, g: Seq<FragView>, j: int, run: Run)
    requires
        0 <= j <= g.len(),
    ensures
        frags_measured(f + g, f.len() + j, run) == frags_measured(g, j, run),
    decreases g.len() - j,
{
    if j < g.len() {
        assert((f + g)[f.len() + j] == g[j]);
        measuring_the_rest(f, g, j + 1, frag_measured(g[j], run));
    }
}

proof fn items_are_measured_one_by_one(dom: &Dom, items: Seq<InlineItem>, i: int, m: Measuring)
    requires
        0 <= i,
    ensures
        frags_measured(frags_from(dom, items, i, m.owed), 0, m.run) == all_measured(
            dom,
            items,
            i,
            m,
        ).run,
    decreases items.len() - i,
{
    if i < items.len() {
        let (here, next) = item_frags(dom, items[i], m.owed);
        let rest = frags_from(dom, items, i + 1, next);
        measuring_in_two(here, rest, 0, m.run);
        items_are_measured_one_by_one(dom, items, i + 1, item_measured(dom, items[i], m));
    }
}

proof fn items_in_two(dom: &Dom, a: Seq<InlineItem>, b: Seq<InlineItem>, i: int, m: Measuring)
    requires
        0 <= i <= a.len(),
    ensures
        all_measured(dom, a + b, i, m) == all_measured(dom, b, 0, all_measured(dom, a, i, m)),
    decreases a.len() - i,
{
    if i < a.len() {
        assert((a + b)[i] == a[i]);
        items_in_two(dom, a, b, i + 1, item_measured(dom, a[i], m));
    } else {
        items_after(dom, a, b, 0, m);
    }
}

proof fn items_after(dom: &Dom, a: Seq<InlineItem>, b: Seq<InlineItem>, j: int, m: Measuring)
    requires
        0 <= j <= b.len(),
    ensures
        all_measured(dom, a + b, a.len() + j, m) == all_measured(dom, b, j, m),
    decreases b.len() - j,
{
    if j < b.len() {
        assert((a + b)[a.len() + j] == b[j]);
        items_after(dom, a, b, j + 1, item_measured(dom, b[j], m));
    }
}

proof fn once_unclean(dom: &Dom, items: Seq<InlineItem>, i: int, m: Measuring)
    requires
        0 <= i,
    ensures
        all_measured(dom, items, i, m).clean ==> m.clean,
    decreases items.len() - i,
{
    if i < items.len() {
        once_unclean(dom, items, i + 1, item_measured(dom, items[i], m));
    }
}

/// The sizer stands where the measuring of items does.
spec fn sizer_at(run: Run, m: Measuring) -> bool {
    &&& !m.run.pre
    &&& !m.run.pending_space
    &&& run == (Run { pending_space: m.owed is Some, ..m.run })
}

proof fn words_measure_alike(
    words: Seq<Seq<char>>,
    k: int,
    pending: Option<Style>,
    style: Style,
    node: NodeId,
    run: Run,
    m: Run,
)
    requires
        0 <= k < words.len(),
        !m.pending_space,
        k > 0 ==> pending is None,
        run == (Run { pending_space: k == 0 && pending is Some, ..m }),
    ensures
        word_pieces(words, k, run) == frags_measured(
            word_frags(words, k, pending, style, node),
            0,
            m,
        ),
        !word_pieces(words, k, run).pending_space,
        word_pieces(words, k, run).pre == run.pre,
    decreases words.len() - k,
{
    let rest = word_frags(words, k + 1, None, style, node);
    let all = word_frags(words, k, pending, style, node);
    let lead = all.len() - rest.len();
    let head = all.take(lead as int);
    assert(all =~= head + rest);
    let cells = cells_of(words[k]);
    let next = (if k > 0 {
        run.space()
    } else {
        run
    }).piece(cells);
    measuring_in_two(head, rest, 0, m);
    let spaced = k > 0 || pending is Some;
    if spaced {
        assert(head.len() == 2);
        assert(frags_measured(head, 2, m.space().piece(cells)) == m.space().piece(cells));
        assert(frags_measured(head, 1, m.space()) == m.space().piece(cells));
    } else {
        assert(head.len() == 1);
        assert(frags_measured(head, 1, m.piece(cells)) == m.piece(cells));
    }
    assert(frags_measured(head, 0, m) == next);
    if k + 1 < words.len() {
        words_measure_alike(words, k + 1, None, style, node, next, next);
    } else {
        assert(rest.len() == 0);
        assert(frags_measured(rest, 0, next) == next);
        assert(word_pieces(words, k + 1, next) == next);
    }
}

/// An edge that does not depend on the containing width.
pub open spec fn steady(len: Length) -> bool {
    !(len is Percent)
}

impl<'a> Ctx<'a> {
    /// A node that puts only text on a line: no image, no box of its own, and
    /// gaps of a fixed width.
    pub open spec fn is_plain_inline(&self, id: NodeId) -> bool {
        let c = self.style(id);
        let tag = self.dom.tag_of(id);
        self.dom.is_element(id) ==> {
            &&& !is_out_of_flow(c.position)
            &&& !self.hides(id) && tag != "br"@ ==> {
                &&& tag == "img"@ ==> self.images.of(id) is None
                &&& !self.goes_whole(id)
                &&& steady(c.margin.left) && steady(c.margin.right)
                &&& steady(c.padding.left) && steady(c.padding.right)
                &&& steady(c.border.left) && steady(c.border.right)
            }
        }
    }

    /// The children from the `k`th on, and all that is inside them, put only
    /// text on a line.
    pub open spec fn holds_plain_inlines(&self, id: NodeId, k: int) -> bool
        decreases self.dom.rank_of(id), self.dom.kids(id).len() - k,
        when self.wf() && self.dom.has(id) && 0 <= k
    {
        k >= self.dom.kids(id).len() || {
            &&& self.is_plain_inline(self.dom.kids(id)[k])
            &&& self.holds_plain_inlines(self.dom.kids(id)[k], 0)
            &&& self.holds_plain_inlines(id, k + 1)
        }
    }

    proof fn a_text_measures_alike(&self, id: NodeId, run: Run, m: Measuring)
        requires
            self.dom.is_text(id),
            sizer_at(run, m),
        ensures
            ({
                let item = InlineItem::Text { node: id, style: term_style(&self.style(id)) };
                sizer_at(
                    text_pieces(self.dom.text_of(id), run),
                    item_measured(self.dom, item, m),
                )
            }),
    {
        let style = term_style(&self.style(id));
        let text = self.dom.text_of(id);
        let words = words_of(text, Spaces::Html);
        let before = if text.len() > 0 && is_html_space(text[0]) {
            Some(style)
        } else {
            m.owed
        };
        let lead = if text.len() > 0 && is_html_space(text[0]) {
            run.space()
        } else {
            run
        };
        if words.len() > 0 {
            words_measure_alike(words, 0, before, style, id, lead, m.run);
        } else {
            assert(word_frags(words, 0, before, style, id).len() == 0);
            assert(frags_measured(word_frags(words, 0, before, style, id), 0, m.run) == m.run);
            assert(word_pieces(words, 0, lead) == lead);
        }
    }

    proof fn a_gap_measures_alike(&self, cells: i32, run: Run, m: Measuring)
        requires
            sizer_at(run, m),
            all_measured(self.dom, spacer(cells), 0, m).clean,
        ensures
            sizer_at(
                if cells > 0 {
                    run.piece(cells)
                } else {
                    run
                },
                all_measured(self.dom, spacer(cells), 0, m),
            ),
    {
        if cells > 0 {
            let item = InlineItem::Spacer { cells };
            let items = spacer(cells);
            assert(items[0] == item);
            let next = item_measured(self.dom, item, m);
            assert(all_measured(self.dom, items, 1, next) == next);
            let frags = spacer_frag(cells);
            assert(frags.len() == 1);
            assert(frags_measured(frags, 1, m.run.piece(cells)) == m.run.piece(cells));
            assert(frags_measured(frags, 0, m.run) == m.run.piece(cells));
        }
    }

    /// The sizer measures an inline subtree as the breaker is handed it.
    proof fn a_node_measures_alike(
        &self,
        id: NodeId,
        nested: bool,
        width: i32,
        run: Run,
        m: Measuring,
    )
        requires
            self.wf(),
            self.dom.has(id),
            self.is_plain_inline(id),
            self.holds_plain_inlines(id, 0),
            sizer_at(run, m),
            all_measured(self.dom, self.inline_items(id, width), 0, m).clean,
        ensures
            sizer_at(
                self.pieces(id, nested, run),
                all_measured(self.dom, self.inline_items(id, width), 0, m),
            ),
            text_items(self.inline_items(id, width)),
        decreases self.dom.rank_of(id), 1nat,
    {
        let c = self.style(id);
        let tag = self.dom.tag_of(id);
        let items = self.inline_items(id, width);
        if self.dom.is_text(id) {
            let item = InlineItem::Text { node: id, style: term_style(&c) };
            assert(items[0] == item);
            let next = item_measured(self.dom, item, m);
            assert(all_measured(self.dom, items, 1, next) == next);
            self.a_text_measures_alike(id, run, m);
        } else if !self.dom.is_element(id) || self.hides(id) {
        } else if tag == "br"@ {
            assert(items[0] == InlineItem::Break);
            let next = item_measured(self.dom, items[0], m);
            assert(all_measured(self.dom, items, 1, next) == next);
            let frags = seq![FragView::Piece(crate::inline::break_piece())];
            assert(frags_measured(frags, 1, m.run.line_break()) == m.run.line_break());
            assert(frags_measured(frags, 0, m.run) == m.run.line_break());
        } else if tag == "img"@ {
        } else {
            let lead = plus(
                plus(c.margin.left.to_cells_h(width), c.padding.left.to_cells_h(width)),
                c.border.left.to_cells_h(width),
            );
            let trail = plus(
                plus(c.margin.right.to_cells_h(width), c.padding.right.to_cells_h(width)),
                c.border.right.to_cells_h(width),
            );
            let kids = self.kid_items(id, width, 0);
            let m1 = all_measured(self.dom, spacer(lead), 0, m);
            let m2 = all_measured(self.dom, kids, 0, m1);
            items_in_two(self.dom, spacer(lead) + kids, spacer(trail), 0, m);
            items_in_two(self.dom, spacer(lead), kids, 0, m);
            once_unclean(self.dom, spacer(trail), 0, m2);
            once_unclean(self.dom, kids, 0, m1);
            self.a_gap_measures_alike(lead, run, m);
            let r1 = if lead > 0 {
                run.piece(lead)
            } else {
                run
            };
            self.kids_measure_alike(id, width, 0, r1, m1);
            self.a_gap_measures_alike(trail, self.kid_pieces(id, 0, r1), m2);
        }
    }

    proof fn kids_measure_alike(&self, id: NodeId, width: i32, k: int, run: Run, m: Measuring)
        requires
            self.wf(),
            self.dom.has(id),
            0 <= k,
            self.holds_plain_inlines(id, k),
            sizer_at(run, m),
            all_measured(self.dom, self.kid_items(id, width, k), 0, m).clean,
        ensures
            sizer_at(
                self.kid_pieces(id, k, run),
                all_measured(self.dom, self.kid_items(id, width, k), 0, m),
            ),
            text_items(self.kid_items(id, width, k)),
        decreases self.dom.rank_of(id), 0nat, self.dom.kids(id).len() - k,
    {
        if k < self.dom.kids(id).len() {
            let c = self.dom.kids(id)[k];
            assert(self.dom.nodes@[id.0 as int].children@[k] == c);
            let here = self.inline_items(c, width);
            let rest = self.kid_items(id, width, k + 1);
            let m1 = all_measured(self.dom, here, 0, m);
            items_in_two(self.dom, here, rest, 0, m);
            once_unclean(self.dom, rest, 0, m1);
            self.a_node_measures_alike(c, true, width, run, m);
            self.kids_measure_alike(id, width, k + 1, self.pieces(c, true, run), m1);
        }
    }

    /// A block whose content is all inline text: nested inlines, gaps and
    /// breaks among it.
    pub open spec fn holds_one_run(&self, id: NodeId) -> bool {
        &&& self.holds_plain_inlines(id, 0)
        &&& forall|k: int|
            0 <= k < self.dom.kids(id).len() ==> !(self.mode_of(
                #[trigger] self.dom.kids(id)[k],
            ) is Block)
    }

    proof fn a_run_measures_alike(
        &self,
        id: NodeId,
        width: i32,
        k: int,
        out: Sizes,
        run: Run,
        m: Measuring,
    )
        requires
            self.wf(),
            self.dom.has(id),
            0 <= k,
            self.holds_plain_inlines(id, k),
            self.holds_one_run(id),
            sizer_at(run, m),
            all_measured(self.dom, self.kid_items(id, width, k), 0, m).clean,
        ensures
            self.block_sizes(id, k, out, run) == out.max_with(
                all_measured(self.dom, self.kid_items(id, width, k), 0, m).run.finish(),
            ),
            text_items(self.kid_items(id, width, k)),
        decreases self.dom.kids(id).len() - k,
    {
        if k < self.dom.kids(id).len() {
            let c = self.dom.kids(id)[k];
            assert(self.dom.nodes@[id.0 as int].children@[k] == c);
            assert(!(self.mode_of(self.dom.kids(id)[k]) is Block));
            let here = self.inline_items(c, width);
            let rest = self.kid_items(id, width, k + 1);
            let m1 = all_measured(self.dom, here, 0, m);
            items_in_two(self.dom, here, rest, 0, m);
            once_unclean(self.dom, rest, 0, m1);
            self.a_node_measures_alike(c, false, width, run, m);
            let next = self.pieces(c, false, run);
            if self.mode_of(c) is Skip || self.leaves_flow(c) {
                assert(next == run);
            }
            self.a_run_measures_alike(id, width, k + 1, out, next, m1);
        }
    }

    /// What a block's inline content is handed to the breaker as, in a column
    /// of that width.
    pub open spec fn run_of(&self, id: NodeId, width: i32) -> Seq<InlineItem> {
        self.kid_items(id, width, 0)
    }

    /// No gap of a run stands where a collapsed space is owed.
    pub open spec fn run_is_clean(&self, id: NodeId, width: i32) -> bool {
        all_measured(self.dom, self.run_of(id, width), 0, unmeasured()).clean
    }

    /// The sizer measures a block's inline content as the breaker breaks it.
    pub proof fn the_sizer_measures_what_the_breaker_is_handed(&self, id: NodeId, width: i32)
        requires
            self.wf(),
            self.dom.has(id),
            self.holds_one_run(id),
            self.run_is_clean(id, width),
            !self.inside_pre(id),
            !(self.dom.is_element(id) && self.dom.tag_of(id) == "li"@),
        ensures
            self.children_sizes(id) == Sizes::both(0).max_with(
                self.items_measured(self.run_of(id, width)),
            ),
            text_items(self.run_of(id, width)),
    {
        let zero = Sizes::both(0);
        self.a_run_measures_alike(id, width, 0, zero, Run::new(false), unmeasured());
        items_are_measured_one_by_one(self.dom, self.run_of(id, width), 0, unmeasured());
    }
}

/// Two preformatted lines in the making with the same on them, after as many
/// lines.
spec fn as_far(lb1: LineView, lb2: LineView) -> bool {
    lb1.cur =~= lb2.cur && lb1.lines.len() == lb2.lines.len()
}

proof fn closing_stays_as_far(
    cv1: Canvas,
    lb1: LineView,
    cv2: Canvas,
    lb2: LineView,
    x: i32,
    w1: i32,
    w2: i32,
)
    requires
        as_far(lb1, lb2),
    ensures
        as_far(pre_broken(cv1, lb1, x, w1).1, pre_broken(cv2, lb2, x, w2).1),
        as_far(
            emitted(cv1, lb1, x, w1, TextAlign::Left).1,
            emitted(cv2, lb2, x, w2, TextAlign::Left).1,
        ),
{
    assert(lb1.cur == lb2.cur);
}

impl<'a> Ctx<'a> {
    proof fn pre_text_stays_as_far(
        &self,
        cv1: Canvas,
        lb1: LineView,
        cv2: Canvas,
        lb2: LineView,
        lines: Seq<Seq<char>>,
        i: int,
        style: Style,
        node: NodeId,
        x: i32,
        w1: i32,
        w2: i32,
    )
        requires
            0 <= i,
            as_far(lb1, lb2),
        ensures
            as_far(
                self.pre_text(cv1, lb1, lines, i, style, node, x, w1).1,
                self.pre_text(cv2, lb2, lines, i, style, node, x, w2).1,
            ),
        decreases lines.len() - i,
    {
        if i < lines.len() {
            let piece = word_piece(lines[i], cells_of(lines[i]), style, Some(node));
            let with1 = if lines[i].len() > 0 {
                lb1.with_cur(lb1.cur.push(piece))
            } else {
                lb1
            };
            let with2 = if lines[i].len() > 0 {
                lb2.with_cur(lb2.cur.push(piece))
            } else {
                lb2
            };
            if i + 1 < lines.len() {
                closing_stays_as_far(cv1, with1, cv2, with2, x, w1, w2);
                let (next1, line1) = pre_broken(cv1, with1, x, w1);
                let (next2, line2) = pre_broken(cv2, with2, x, w2);
                self.pre_text_stays_as_far(
                    next1,
                    line1,
                    next2,
                    line2,
                    lines,
                    i + 1,
                    style,
                    node,
                    x,
                    w1,
                    w2,
                );
            }
        }
    }

    proof fn pre_items_stay_as_far(
        &self,
        rec: Recipe,
        cv1: Canvas,
        lb1: LineView,
        cv2: Canvas,
        lb2: LineView,
        items: Seq<InlineItem>,
        i: int,
        x: i32,
        w1: i32,
        w2: i32,
    )
        requires
            0 <= i,
            text_items(items),
            as_far(lb1, lb2),
        ensures
            as_far(
                self.pre_items(rec, cv1, lb1, items, i, x, w1).1,
                self.pre_items(rec, cv2, lb2, items, i, x, w2).1,
            ),
        decreases items.len() - i,
    {
        if i < items.len() {
            reveal(Ctx::pre_item);
            assert(!(items[i] is Image) && !(items[i] is Atomic));
            closing_stays_as_far(cv1, lb1, cv2, lb2, x, w1, w2);
            if let InlineItem::Text { node, style } = items[i] {
                let lines = lines_of(self.dom.text_of(node));
                self.pre_text_stays_as_far(
                    cv1,
                    lb1,
                    cv2,
                    lb2,
                    lines,
                    0,
                    style,
                    node,
                    x,
                    w1,
                    w2,
                );
            }
            let (next1, line1) = self.pre_item(rec, cv1, lb1, items[i], x, w1);
            let (next2, line2) = self.pre_item(rec, cv2, lb2, items[i], x, w2);
            self.pre_items_stay_as_far(
                rec,
                next1,
                line1,
                next2,
                line2,
                items,
                i + 1,
                x,
                w1,
                w2,
            );
        }
    }

    /// Preformatted text never wraps: it takes as many lines in every column.
    pub proof fn preformatted_text_never_wraps(
        &self,
        rec: Recipe,
        cv: Canvas,
        items: Seq<InlineItem>,
        x: i32,
        y: i32,
        w1: i32,
        w2: i32,
    )
        requires
            text_items(items),
        ensures
            self.pre_laid(rec, cv, items, x, y, w1).1.len() == self.pre_laid(
                rec,
                cv,
                items,
                x,
                y,
                w2,
            ).1.len(),
    {
        reveal(Ctx::pre_laid);
        let start = LineView::begin(y);
        self.pre_items_stay_as_far(rec, cv, start, cv, start, items, 0, x, w1, w2);
        let (cv1, lb1) = self.pre_items(rec, cv, start, items, 0, x, w1);
        let (cv2, lb2) = self.pre_items(rec, cv, start, items, 0, x, w2);
        closing_stays_as_far(cv1, lb1, cv2, lb2, x, w1, w2);
    }
}

/// The widest of some lines; an empty one takes no cells.
pub open spec fn widest(lines: Seq<Seq<char>>, n: int) -> i32
    decreases n,
{
    if n <= 0 {
        0
    } else if lines[n - 1].len() > 0 {
        larger(widest(lines, n - 1), cells_of(lines[n - 1]))
    } else {
        widest(lines, n - 1)
    }
}

proof fn pre_lines_measure(lines: Seq<Seq<char>>, i: int, run: Run)
    requires
        0 <= i < lines.len(),
        run.pre,
        run.at_start,
        !run.pending_space,
        run.cur == 0,
        run.max == widest(lines, i),
    ensures
        ({
            let end = pre_pieces(lines, i, run);
            &&& end.pre
            &&& larger(end.max, end.cur) == widest(lines, lines.len() as int)
        }),
    decreases lines.len() - i,
{
    let with = if lines[i].len() > 0 {
        run.piece(cells_of(lines[i]))
    } else {
        run
    };
    widest_is_not_negative(lines, i);
    if i + 1 < lines.len() {
        pre_lines_measure(lines, i + 1, with.line_break());
    } else {
        assert(pre_pieces(lines, i + 1, with) == with);
    }
}

proof fn widest_is_not_negative(lines: Seq<Seq<char>>, n: int)
    ensures
        widest(lines, n) >= 0,
    decreases n,
{
    if n > 0 {
        widest_is_not_negative(lines, n - 1);
    }
}

proof fn there_is_always_a_line(text: Seq<char>, i: int, line: Seq<char>)
    requires
        0 <= i,
    ensures
        lines_from(text, i, line).len() > 0,
    decreases text.len() - i,
{
    if i < text.len() && text[i] != '\n' {
        there_is_always_a_line(text, i + 1, line.push(text[i]));
    }
}

/// A preformatted text is exactly as wide as its widest line, however much room
/// there is.
pub proof fn a_preformatted_text_measures_its_widest_line(text: Seq<char>)
    ensures
        text_pieces(text, Run::new(true)).finish() == Sizes::both(
            widest(lines_of(text), lines_of(text).len() as int),
        ),
{
    let lines = lines_of(text);
    there_is_always_a_line(text, 0, Seq::empty());
    pre_lines_measure(lines, 0, Run::new(true));
}

} // verus!
