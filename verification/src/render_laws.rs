//! What a row of a page shows: every text at its place, in its style, and
//! nothing else.

use vstd::prelude::*;

use crate::boxes::{BoxId, BoxView};
use crate::cells::{minus, plus};
use crate::headless::{page_text, spans_text};
use crate::lines::{
    box_runs, from_the_left, row_runs, run_keys, runs_on, span_added, spans_from, SpanView,
};
use crate::order::{slot_for, slot_splits, sorted_indices, sorting_sorts};
use crate::painted::RunView;
use crate::term::Style;
use crate::text::{cells_of, lines_from, lines_of, repeated};

verus! {

/// Characters in one style.
pub open spec fn styled(text: Seq<char>, style: Style) -> Seq<(char, Style)> {
    text.map_values(|c: char| (c, style))
}

/// What a line shows: its characters, each in its style.
pub open spec fn shown(spans: Seq<SpanView>) -> Seq<(char, Style)>
    decreases spans.len(),
{
    if spans.len() == 0 {
        Seq::empty()
    } else {
        shown(spans.drop_last()) + styled(spans.last().text, spans.last().style)
    }
}

/// The column that the first `n` runs of a row reach.
pub open spec fn ends_at(runs: Seq<RunView>, n: int) -> int {
    if n <= 0 {
        0
    } else {
        runs[n - 1].x + cells_of(runs[n - 1].text)
    }
}

/// Runs from left to right that do not overlap.
pub open spec fn are_apart(runs: Seq<RunView>) -> bool {
    forall|i: int|
        0 <= i < runs.len() ==> ends_at(runs, i) <= (#[trigger] runs[i]).x && runs[i].x + cells_of(
            runs[i].text,
        ) <= i32::MAX
}

/// What a row shows of its first `n` runs: each at its own column, with blanks
/// up to it.
pub open spec fn row_shows(runs: Seq<RunView>, n: int) -> Seq<(char, Style)>
    decreases n,
{
    if n <= 0 {
        Seq::empty()
    } else {
        row_shows(runs, n - 1) + styled(
            repeated(' ', runs[n - 1].x - ends_at(runs, n - 1)),
            Style::plain(),
        ) + styled(runs[n - 1].text, runs[n - 1].style)
    }
}

proof fn styled_adds(a: Seq<char>, b: Seq<char>, style: Style)
    ensures
        styled(a + b, style) == styled(a, style) + styled(b, style),
{
    assert(styled(a + b, style) =~= styled(a, style) + styled(b, style));
}

proof fn one_span_more(spans: Seq<SpanView>, span: SpanView)
    ensures
        shown(spans.push(span)) == shown(spans) + styled(span.text, span.style),
{
    assert(spans.push(span).drop_last() =~= spans);
}

proof fn adding_a_span_shows_it(spans: Seq<SpanView>, text: Seq<char>, style: Style)
    ensures
        shown(span_added(spans, text, style)) == shown(spans) + styled(text, style),
{
    if spans.len() > 0 && spans.last().style == style {
        let last = SpanView { text: spans.last().text + text, style };
        assert(span_added(spans, text, style) =~= spans.drop_last().push(last));
        one_span_more(spans.drop_last(), last);
        styled_adds(spans.last().text, text, style);
        assert(shown(span_added(spans, text, style)) =~= shown(spans) + styled(text, style));
    } else {
        one_span_more(spans, SpanView { text, style });
    }
}

proof fn a_row_is_shown_from(runs: Seq<RunView>, i: int, cursor: i32, spans: Seq<SpanView>)
    requires
        0 <= i <= runs.len(),
        are_apart(runs),
        cursor == ends_at(runs, i),
        shown(spans) == row_shows(runs, i),
    ensures
        shown(spans_from(runs, i, cursor, spans)) == row_shows(runs, runs.len() as int),
    decreases runs.len() - i,
{
    if i < runs.len() {
        let r = runs[i];
        assert(ends_at(runs, i) <= runs[i].x);
        let gap = r.x > cursor;
        ends_are_not_negative(runs, i);
        let blanks = repeated(' ', r.x - cursor);
        let pad = SpanView { text: repeated(' ', minus(r.x, cursor) as int), style: Style::plain() };
        let padded = if gap {
            spans.push(pad)
        } else {
            spans
        };
        one_span_more(spans, pad);
        if !gap {
            assert(styled(blanks, Style::plain()) =~= Seq::<(char, Style)>::empty());
            assert(shown(spans) + styled(blanks, Style::plain()) =~= shown(spans));
        }
        assert(shown(padded) == shown(spans) + styled(blanks, Style::plain()));
        adding_a_span_shows_it(padded, r.text, r.style);
        let next = span_added(padded, r.text, r.style);
        let at = if gap {
            r.x
        } else {
            cursor
        };
        a_row_is_shown_from(runs, i + 1, plus(at, cells_of(r.text)), next);
    }
}

proof fn ends_are_not_negative(runs: Seq<RunView>, i: int)
    requires
        0 <= i <= runs.len(),
        are_apart(runs),
    ensures
        0 <= ends_at(runs, i),
    decreases i,
{
    if i > 0 {
        ends_are_not_negative(runs, i - 1);
        assert(ends_at(runs, i - 1) <= runs[i - 1].x);
        assert(0 <= cells_of(runs[i - 1].text));
    }
}

/// A row shows each of its texts at its own column and in its own style, with
/// plain blanks before it, as long as none of them overlap.
pub proof fn a_row_shows_each_text_at_its_column(runs: Seq<RunView>)
    requires
        are_apart(runs),
    ensures
        shown(spans_from(runs, 0, 0, Seq::empty())) == row_shows(runs, runs.len() as int),
{
    a_row_is_shown_from(runs, 0, 0, Seq::empty());
}

proof fn runs_on_a_row(runs: Seq<RunView>, n: int, y: int, r: RunView)
    requires
        0 <= n <= runs.len(),
    ensures
        runs_on(runs, n, y).contains(r) <==> runs.take(n).contains(r) && r.y == y && 0
            < r.text.len(),
    decreases n,
{
    if n > 0 {
        runs_on_a_row(runs, n - 1, y, r);
        let before = runs_on(runs, n - 1, y);
        let last = runs[n - 1];
        assert(runs.take(n) =~= runs.take(n - 1).push(last));
        one_more_held(runs.take(n - 1), last, r);
        one_more_held(before, last, r);
    } else {
        assert(!runs.take(0).contains(r));
        assert(!Seq::<RunView>::empty().contains(r));
    }
}

proof fn one_more_held(s: Seq<RunView>, last: RunView, r: RunView)
    ensures
        s.push(last).contains(r) <==> s.contains(r) || r == last,
{
    let t = s.push(last);
    if s.contains(r) {
        let i = choose|i: int| 0 <= i < s.len() && s[i] == r;
        assert(t[i] == r);
    }
    if r == last {
        assert(t[s.len() as int] == r);
    }
    if t.contains(r) {
        let i = choose|i: int| 0 <= i < t.len() && t[i] == r;
        if i < s.len() {
            assert(s[i] == r);
        }
    }
}

proof fn either_holds(a: Seq<RunView>, b: Seq<RunView>, r: RunView)
    ensures
        (a + b).contains(r) <==> a.contains(r) || b.contains(r),
{
    let t = a + b;
    if a.contains(r) {
        let i = choose|i: int| 0 <= i < a.len() && a[i] == r;
        assert(t[i] == r);
    }
    if b.contains(r) {
        let i = choose|i: int| 0 <= i < b.len() && b[i] == r;
        assert(t[a.len() + i] == r);
    }
    if t.contains(r) {
        let i = choose|i: int| 0 <= i < t.len() && t[i] == r;
        if i < a.len() {
            assert(a[i] == r);
        } else {
            assert(b[i - a.len()] == r);
        }
    }
}

/// A row holds exactly what the boxes of the page put on that row: what any of
/// them puts there, and nothing that none of them does or that is of another
/// row.
pub proof fn a_row_holds_what_is_put_on_it(
    boxes: Seq<BoxView>,
    walk: Seq<BoxId>,
    n: int,
    y: int,
    r: RunView,
)
    requires
        0 <= n <= walk.len(),
    ensures
        row_runs(boxes, walk, n, y).contains(r) <==> r.y == y && 0 < r.text.len() && exists|k: int|
            0 <= k < n && box_runs(boxes[(#[trigger] walk[k]).0 as int]).contains(r),
    decreases n,
{
    if n > 0 {
        a_row_holds_what_is_put_on_it(boxes, walk, n - 1, y, r);
        let here = box_runs(boxes[walk[n - 1].0 as int]);
        let before = row_runs(boxes, walk, n - 1, y);
        runs_on_a_row(here, here.len() as int, y, r);
        assert(here.take(here.len() as int) =~= here);
        either_holds(before, runs_on(here, here.len() as int, y), r);
        if here.contains(r) {
            assert(box_runs(boxes[walk[n - 1].0 as int]).contains(r));
        }
        if exists|k: int| 0 <= k < n - 1 && box_runs(boxes[(#[trigger] walk[k]).0 as int]).contains(r) {
            let k = choose|k: int|
                0 <= k < n - 1 && box_runs(boxes[(#[trigger] walk[k]).0 as int]).contains(r);
            assert(box_runs(boxes[walk[k].0 as int]).contains(r));
        }
    } else {
        assert(!Seq::<RunView>::empty().contains(r));
    }
}

/// A box of text puts its text at its own place on its own row, in its own
/// style, and nothing more.
pub proof fn a_text_is_put_at_its_place(b: BoxView)
    requires
        b.kind is Text,
        b.text is Some,
    ensures
        ({
            let runs = box_runs(b);
            &&& runs.len() == 1
            &&& runs[0].x == b.dimensions.content.x
            &&& runs[0].y == b.dimensions.content.y
            &&& runs[0].text == b.text->0
            &&& runs[0].style == b.term_style
        }),
{
}

pub(crate) proof fn every_index_is_sorted(keys: Seq<i128>, n: int, k: int)
    requires
        0 <= k < n <= keys.len(),
        n <= usize::MAX,
    ensures
        exists|i: int|
            0 <= i < sorted_indices(keys, n).len() && #[trigger] sorted_indices(keys, n)[i] == k,
    decreases n,
{
    sorting_sorts(keys, n - 1);
    let before = sorted_indices(keys, n - 1);
    let at = slot_for(keys, before, n - 1, before.len() as int);
    slot_splits(keys, before, n - 1, before.len() as int);
    let after = sorted_indices(keys, n);
    assert(after == before.insert(at, (n - 1) as usize));
    if k == n - 1 {
        assert(after[at] == k);
    } else {
        every_index_is_sorted(keys, n - 1, k);
        let i = choose|i: int| 0 <= i < before.len() && #[trigger] before[i] == k;
        if i < at {
            assert(after[i] == k);
        } else {
            assert(after[i + 1] == k);
        }
    }
}

/// A row is read from the left: its runs come by column, each of them, and none
/// other.
pub proof fn a_row_is_read_from_the_left(runs: Seq<RunView>, i: int, j: int, r: RunView)
    requires
        runs.len() <= usize::MAX,
        0 <= i < j < runs.len(),
    ensures
        from_the_left(runs).len() == runs.len(),
        from_the_left(runs)[i].x <= from_the_left(runs)[j].x,
        from_the_left(runs).contains(r) <==> runs.contains(r),
{
    let keys = run_keys(runs);
    let n = runs.len() as int;
    sorting_sorts(keys, n);
    let order = sorted_indices(keys, n);
    let out = from_the_left(runs);
    assert(order[i] < n && order[j] < n);
    assert(keys[order[i] as int] <= keys[order[j] as int]);
    assert(out[i] == runs[order[i] as int]);
    assert(out[j] == runs[order[j] as int]);
    if runs.contains(r) {
        let k = choose|k: int| 0 <= k < runs.len() && runs[k] == r;
        every_index_is_sorted(keys, n, k);
        let m = choose|m: int| 0 <= m < order.len() && #[trigger] order[m] == k;
        assert(out[m] == r);
    }
    if out.contains(r) {
        let m = choose|m: int| 0 <= m < out.len() && out[m] == r;
        assert(order[m] < n);
        assert(runs[order[m] as int] == r);
    }
}

// ---- plain text ------------------------------------------------------------

/// The text of a line, its styles left out.
pub open spec fn line_text(spans: Seq<SpanView>) -> Seq<char> {
    shown(spans).map_values(|c: (char, Style)| c.0)
}

proof fn line_texts_agree(spans: Seq<SpanView>, n: int)
    requires
        0 <= n <= spans.len(),
    ensures
        spans_text(spans, n) == line_text(spans.take(n)),
    decreases n,
{
    if n > 0 {
        line_texts_agree(spans, n - 1);
        let last = spans[n - 1];
        assert(spans.take(n) =~= spans.take(n - 1).push(last));
        one_span_more(spans.take(n - 1), last);
        assert(line_text(spans.take(n)) =~= line_text(spans.take(n - 1)) + last.text);
    } else {
        assert(spans.take(0) =~= Seq::<SpanView>::empty());
        assert(line_text(spans.take(0)) =~= Seq::<char>::empty());
    }
}

proof fn lines_read_on(a: Seq<char>, b: Seq<char>, i: int, line: Seq<char>)
    requires
        0 <= i <= a.len(),
    ensures
        lines_from(a.push('\n') + b, i, line) == lines_from(a, i, line) + lines_of(b),
    decreases a.len() - i,
{
    let s = a.push('\n') + b;
    if i < a.len() {
        assert(s[i] == a[i]);
        if a[i] == '\n' {
            lines_read_on(a, b, i + 1, Seq::empty());
            assert(lines_from(s, i, line) =~= lines_from(a, i, line) + lines_of(b));
        } else {
            lines_read_on(a, b, i + 1, line.push(a[i]));
        }
    } else {
        assert(s[i] == '\n');
        lines_of_the_rest(s, b, a.len() as int + 1, 0, Seq::empty());
        assert(lines_from(s, i, line) =~= lines_from(a, i, line) + lines_of(b));
    }
}

proof fn lines_of_the_rest(s: Seq<char>, b: Seq<char>, at: int, i: int, line: Seq<char>)
    requires
        0 <= i <= b.len(),
        0 <= at,
        s.len() == at + b.len(),
        forall|k: int| 0 <= k < b.len() ==> #[trigger] b[k] == s[at + k],
    ensures
        lines_from(s, at + i, line) == lines_from(b, i, line),
    decreases b.len() - i,
{
    if i < b.len() {
        assert(b[i] == s[at + i]);
        if b[i] == '\n' {
            lines_of_the_rest(s, b, at, i + 1, Seq::empty());
        } else {
            lines_of_the_rest(s, b, at, i + 1, line.push(b[i]));
        }
    }
}

/// Lines end where a newline does: the lines of two texts with one between them
/// are the lines of the one and then those of the other.
pub proof fn newlines_separate_lines(a: Seq<char>, b: Seq<char>)
    ensures
        lines_of(a.push('\n') + b) == lines_of(a) + lines_of(b),
{
    lines_read_on(a, b, 0, Seq::empty());
}

/// And nowhere else: a text without one is one line.
pub proof fn a_text_without_newlines_is_one_line(s: Seq<char>)
    requires
        forall|i: int| 0 <= i < s.len() ==> #[trigger] s[i] != '\n',
    ensures
        lines_of(s) == seq![s],
{
    one_line_is_read_on(s, 0);
    assert(s.take(0) =~= Seq::<char>::empty());
}

proof fn one_line_is_read_on(s: Seq<char>, i: int)
    requires
        0 <= i <= s.len(),
        forall|k: int| 0 <= k < s.len() ==> #[trigger] s[k] != '\n',
    ensures
        lines_from(s, i, s.take(i)) == seq![s],
    decreases s.len() - i,
{
    if i < s.len() {
        assert(s[i] != '\n');
        assert(s.take(i).push(s[i]) =~= s.take(i + 1));
        one_line_is_read_on(s, i + 1);
    } else {
        assert(s.take(i) =~= s);
    }
}

/// A page written out as plain text can be read back: its lines are the texts of
/// the rows, in order, and there is a newline after the last.
pub proof fn a_page_is_written_line_by_line(lines: Seq<Seq<SpanView>>, n: int)
    requires
        0 <= n <= lines.len(),
        forall|i: int, k: int|
            0 <= i < lines.len() && 0 <= k < line_text(lines[i]).len() ==> #[trigger] line_text(
                lines[i],
            )[k] != '\n',
    ensures
        lines_of(page_text(lines, n)) == Seq::new(n as nat, |i: int| line_text(lines[i])).push(
            Seq::empty(),
        ),
    decreases n,
{
    let texts = Seq::new(n as nat, |i: int| line_text(lines[i]));
    if n > 0 {
        a_page_is_written_line_by_line(lines, n - 1);
        let line = lines[n - 1];
        line_texts_agree(line, line.len() as int);
        assert(line.take(line.len() as int) =~= line);
        let (before, last) = (page_text(lines, n - 1), line_text(line));
        assert forall|k: int| 0 <= k < last.len() implies #[trigger] last[k] != '\n' by {
            assert(line_text(lines[n - 1])[k] != '\n');
        }
        a_text_without_newlines_is_one_line(last);
        let all = page_text(lines, n);
        assert(all =~= (before + last).push('\n') + Seq::<char>::empty());
        newlines_separate_lines(before + last, Seq::empty());
        assert(lines_of(Seq::<char>::empty()) =~= seq![Seq::<char>::empty()]);
        if n == 1 {
            assert(before + last =~= last);
        } else {
            let older = page_text(lines, n - 2) + spans_text(
                lines[n - 2],
                lines[n - 2].len() as int,
            );
            assert(before =~= older.push('\n') + Seq::<char>::empty());
            newlines_separate_lines(older, Seq::empty());
            assert(before + last =~= older.push('\n') + last);
            newlines_separate_lines(older, last);
            let had = Seq::new((n - 1) as nat, |i: int| line_text(lines[i]));
            assert(lines_of(older) + seq![Seq::<char>::empty()] =~= had.push(Seq::empty()));
            assert(lines_of(older) =~= had) by {
                let l = lines_of(older) + seq![Seq::<char>::empty()];
                let r = had.push(Seq::empty());
                assert(l.len() == r.len());
                assert forall|i: int| 0 <= i < had.len() implies lines_of(older)[i] == had[i] by {
                    assert(l[i] == r[i]);
                }
            }
        }
        assert(lines_of(all) =~= texts.push(Seq::empty()));
    } else {
        assert(page_text(lines, 0) =~= Seq::<char>::empty());
        assert(lines_of(Seq::<char>::empty()) =~= seq![Seq::<char>::empty()]);
        assert(texts.push(Seq::empty()) =~= seq![Seq::<char>::empty()]);
    }
}

} // verus!
