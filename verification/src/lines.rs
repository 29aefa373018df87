//! A layout tree as display lines, one per row of cells.

use vstd::prelude::*;

use crate::boxes::{in_range, paint_order, BoxId, BoxKind, BoxView, LayoutBox, LayoutTree, TreeView};
use crate::cells::{minus, plus};
use crate::order::{sorted_indices, stable_order};
use crate::painted::{painted_of, runs, Run, RunView};
use crate::term::{Color, Style};
use crate::text::{cells_of, owned, repeat, repeated, str_cells};
use crate::views::views;

verus! {

broadcast use crate::views::group_views;

/// A run of text sharing one style. Never holds a newline.
#[derive(Debug, PartialEq, Eq)]
pub struct Span {
    pub text: String,
    pub style: Style,
}

/// The value of a [`Span`].
pub struct SpanView {
    pub text: Seq<char>,
    pub style: Style,
}

impl View for Span {
    type V = SpanView;

    open spec fn view(&self) -> SpanView {
        SpanView { text: self.text@, style: self.style }
    }
}

/// One row of laid-out content. A line without spans is a blank row.
#[derive(Debug, PartialEq, Eq)]
pub struct Line {
    pub spans: Vec<Span>,
}

impl View for Line {
    type V = Seq<SpanView>;

    open spec fn view(&self) -> Seq<SpanView> {
        views(self.spans@)
    }
}

impl Default for Line {
    fn default() -> (r: Line)
        ensures
            r@ == Seq::<SpanView>::empty(),
    {
        Line { spans: Vec::new() }
    }
}

/// What a box puts on rows: a fragment its text, a control its own cells.
pub open spec fn box_runs(b: BoxView) -> Seq<RunView> {
    match b.kind {
        BoxKind::Text => match b.text {
            Some(text) => seq![
                RunView {
                    x: b.dimensions.content.x,
                    y: b.dimensions.content.y,
                    text,
                    style: b.term_style,
                },
            ],
            None => Seq::empty(),
        },
        BoxKind::Field(_) => painted_of(b, None, None).runs,
        _ => Seq::empty(),
    }
}

fn runs_of(b: &LayoutBox) -> (r: Vec<Run>)
    ensures
        views(r@) == box_runs(b@),
{
    match b.kind {
        BoxKind::Text => {
            let mut out: Vec<Run> = Vec::new();
            match &b.text {
                Some(text) => {
                    out.push(
                        Run {
                            x: b.dimensions.content.x,
                            y: b.dimensions.content.y,
                            text: owned(text.as_str()),
                            style: b.term_style,
                        },
                    );
                },
                None => {},
            }
            proof {
                assert(views(out@) =~= box_runs(b@));
            }
            out
        },
        BoxKind::Field(_) => runs(b),
        _ => Vec::new(),
    }
}

/// Those of the first `n` runs that are on row `y` and show something.
pub open spec fn runs_on(runs: Seq<RunView>, n: int, y: int) -> Seq<RunView>
    decreases n,
{
    if n <= 0 {
        Seq::empty()
    } else {
        let before = runs_on(runs, n - 1, y);
        if runs[n - 1].y == y && runs[n - 1].text.len() > 0 {
            before.push(runs[n - 1])
        } else {
            before
        }
    }
}

/// What the first `n` boxes of a walk put on row `y`.
pub open spec fn row_runs(boxes: Seq<BoxView>, walk: Seq<BoxId>, n: int, y: int) -> Seq<RunView>
    decreases n,
{
    if n <= 0 {
        Seq::empty()
    } else {
        let here = box_runs(boxes[walk[n - 1].0 as int]);
        row_runs(boxes, walk, n - 1, y) + runs_on(here, here.len() as int, y)
    }
}

/// The runs from left to right; those at one place stay in paint order.
pub open spec fn from_the_left(runs: Seq<RunView>) -> Seq<RunView> {
    let order = sorted_indices(run_keys(runs), runs.len() as int);
    order.map_values(|i: usize| runs[i as int])
}

pub open spec fn run_keys(runs: Seq<RunView>) -> Seq<i128> {
    runs.map_values(|r: RunView| r.x as i128)
}

/// A run joined to a line: into the last span where the styles agree.
pub open spec fn span_added(spans: Seq<SpanView>, text: Seq<char>, style: Style) -> Seq<SpanView> {
    if spans.len() > 0 && spans.last().style == style {
        spans.update(spans.len() - 1, SpanView { text: spans.last().text + text, style })
    } else {
        spans.push(SpanView { text, style })
    }
}

/// The spans of sorted runs from the `i`th on. A gap before a run becomes
/// spaces; `cursor` is the column reached so far.
pub open spec fn spans_from(runs: Seq<RunView>, i: int, cursor: i32, spans: Seq<SpanView>) -> Seq<
    SpanView,
>
    decreases runs.len() - i,
{
    if i >= runs.len() {
        spans
    } else {
        let r = runs[i];
        let gap = r.x > cursor;
        let padded = if gap {
            spans.push(
                SpanView { text: repeated(' ', minus(r.x, cursor) as int), style: Style::plain() },
            )
        } else {
            spans
        };
        let at = if gap {
            r.x
        } else {
            cursor
        };
        spans_from(runs, i + 1, plus(at, cells_of(r.text)), span_added(padded, r.text, r.style))
    }
}

/// The line of row `y`.
pub open spec fn line_at(tree: TreeView, y: int) -> Seq<SpanView> {
    let walk = paint_order(tree.boxes, tree.boxes.len(), tree.root);
    spans_from(
        from_the_left(row_runs(tree.boxes, walk, walk.len() as int, y)),
        0,
        0,
        Seq::empty(),
    )
}

/// The rows of a page, blank ones too, so that a line's index is its row.
pub open spec fn lines_of_tree(tree: TreeView) -> Seq<Seq<SpanView>> {
    Seq::new(
        if tree.height > 0 {
            tree.height as nat
        } else {
            0
        },
        |y: int| line_at(tree, y),
    )
}

/// No row of a tree holds more than can be counted.
pub open spec fn rows_fit(tree: TreeView) -> bool {
    let walk = paint_order(tree.boxes, tree.boxes.len(), tree.root);
    forall|y: int|
        0 <= y < tree.height ==> (#[trigger] row_runs(
            tree.boxes,
            walk,
            walk.len() as int,
            y,
        )).len() <= usize::MAX
}

/// Rows that hold what the first `n` boxes of a walk put on them.
spec fn rows_hold(
    rows: Seq<Vec<Run>>,
    boxes: Seq<BoxView>,
    walk: Seq<BoxId>,
    n: int,
    height: int,
) -> bool {
    &&& rows.len() == height
    &&& forall|y: int|
        0 <= y < height ==> views((#[trigger] rows[y])@) == row_runs(boxes, walk, n, y)
}

fn empty_rows(height: usize) -> (r: Vec<Vec<Run>>)
    ensures
        r@.len() == height,
        forall|y: int| 0 <= y < height ==> (#[trigger] r@[y])@ == Seq::<Run>::empty(),
{
    let mut rows: Vec<Vec<Run>> = Vec::new();
    while rows.len() < height
        invariant
            rows@.len() <= height,
            forall|y: int| 0 <= y < rows@.len() ==> (#[trigger] rows@[y])@ == Seq::<Run>::empty(),
        decreases height - rows@.len(),
    {
        rows.push(Vec::new());
    }
    rows
}

/// Put a box's runs on their rows.
fn place_runs(rows: &mut Vec<Vec<Run>>, here: &Vec<Run>)
    ensures
        final(rows)@.len() == old(rows)@.len(),
        forall|y: int|
            0 <= y < old(rows)@.len() ==> views((#[trigger] final(rows)@[y])@) == views(
                old(rows)@[y]@,
            ) + runs_on(views(here@), here@.len() as int, y),
{
    let ghost start = rows@;
    let height: usize = rows.len();
    let mut k: usize = 0;
    proof {
        assert forall|y: int| 0 <= y < height implies views((#[trigger] rows@[y])@) =~= views(
            start[y]@,
        ) + runs_on(views(here@), 0, y) by {}
    }
    while k < here.len()
        invariant
            rows@.len() == height,
            start.len() == height,
            k <= here@.len(),
            forall|y: int|
                0 <= y < height ==> views((#[trigger] rows@[y])@) =~= views(start[y]@) + runs_on(
                    views(here@),
                    k as int,
                    y,
                ),
        decreases here@.len() - k,
    {
        let r: &Run = &here[k];
        let ghost before = rows@;
        if r.y >= 0 && (r.y as u64) < height as u64 && !r.text.as_str().is_empty() {
            let copy: Run = Run {
                x: r.x,
                y: r.y,
                text: owned(r.text.as_str()),
                style: r.style,
            };
            let at: usize = r.y as usize;
            rows[at].push(copy);
            proof {
                assert(copy@ == views(here@)[k as int]);
                assert(rows@[at as int]@ == before[at as int]@.push(copy));
            }
        }
        proof {
            assert forall|y: int| 0 <= y < height implies views((#[trigger] rows@[y])@) =~= views(
                start[y]@,
            ) + runs_on(views(here@), k + 1, y) by {
                assert(views(before[y]@) =~= views(start[y]@) + runs_on(views(here@), k as int, y));
                assert(r@ == views(here@)[k as int]);
            }
        }
        k += 1;
    }
}

/// One row's runs as a line.
fn make_line(runs: &Vec<Run>) -> (r: Line)
    ensures
        r@ == spans_from(from_the_left(views(runs@)), 0, 0, Seq::empty()),
{
    let mut keys: Vec<i128> = Vec::new();
    let mut k: usize = 0;
    while k < runs.len()
        invariant
            k <= runs@.len(),
            keys@ =~= run_keys(views(runs@)).take(k as int),
        decreases runs@.len() - k,
    {
        keys.push(runs[k].x as i128);
        k += 1;
    }
    proof {
        assert(keys@ =~= run_keys(views(runs@)));
    }
    let order: Vec<usize> = stable_order(&keys);
    let ghost sorted = from_the_left(views(runs@));
    let mut spans: Vec<Span> = Vec::new();
    let mut cursor: i32 = 0;
    let mut i: usize = 0;
    let ghost goal = spans_from(sorted, 0, 0, Seq::empty());
    proof {
        assert(views(spans@) =~= Seq::<SpanView>::empty());
    }
    while i < order.len()
        invariant
            sorted == from_the_left(views(runs@)),
            order@ == sorted_indices(run_keys(views(runs@)), runs@.len() as int),
            crate::order::indices_below(order@, runs@.len() as int),
            sorted.len() == order@.len(),
            i <= order@.len(),
            goal == spans_from(sorted, i as int, cursor, views(spans@)),
        decreases order@.len() - i,
    {
        proof {
            assert(order@[i as int] < runs@.len());
        }
        let r: &Run = &runs[order[i]];
        proof {
            assert(r@ == sorted[i as int]);
        }
        if r.x > cursor {
            let pad: Span = Span {
                text: repeat(' ', minus(r.x, cursor)),
                style: Style::plain(),
            };
            spans.push(pad);
            cursor = r.x;
        }
        let cells: i32 = str_cells(r.text.as_str());
        let n: usize = spans.len();
        let ghost before = views(spans@);
        if n > 0 && spans[n - 1].style == r.style {
            let mut text: String = spans[n - 1].text.clone();
            text.append(r.text.as_str());
            let grown: Span = Span { text, style: r.style };
            spans.set(n - 1, grown);
        } else {
            let fresh: Span = Span { text: owned(r.text.as_str()), style: r.style };
            spans.push(fresh);
        }
        proof {
            assert(views(spans@) =~= span_added(before, r@.text, r@.style));
        }
        cursor = plus(cursor, cells);
        i += 1;
    }
    Line { spans }
}

/// Flatten what a tree's boxes show into rows.
pub fn from_tree(tree: &LayoutTree) -> (r: Vec<Line>)
    ensures
        views(r@) == lines_of_tree(tree@),
        rows_fit(tree@),
{
    if tree.height <= 0 {
        let none: Vec<Line> = Vec::new();
        proof {
            assert(views(none@) =~= lines_of_tree(tree@));
        }
        return none;
    }
    let height: usize = tree.height as usize;
    let walk: Vec<BoxId> = tree.walk(tree.root);
    let ghost boxes = tree.list();
    let mut rows: Vec<Vec<Run>> = empty_rows(height);
    let mut n: usize = 0;
    proof {
        assert forall|y: int| 0 <= y < height implies views((#[trigger] rows@[y])@) == row_runs(
            boxes,
            walk@,
            0,
            y,
        ) by {
            assert(views(rows@[y]@) =~= Seq::<RunView>::empty());
        }
    }
    while n < walk.len()
        invariant
            boxes == tree.list(),
            in_range(walk@, tree.boxes@.len()),
            n <= walk@.len(),
            rows_hold(rows@, boxes, walk@, n as int, height as int),
        decreases walk@.len() - n,
    {
        proof {
            assert(walk@[n as int].0 < tree.boxes@.len());
        }
        let here: Vec<Run> = runs_of(tree.get(walk[n]));
        let ghost before = rows@;
        place_runs(&mut rows, &here);
        proof {
            assert forall|y: int| 0 <= y < height implies views((#[trigger] rows@[y])@) == row_runs(
                boxes,
                walk@,
                n + 1,
                y,
            ) by {
                assert(views(before[y]@) == row_runs(boxes, walk@, n as int, y));
            }
        }
        n += 1;
    }
    proof {
        let full = paint_order(boxes, tree.depth(), tree.root);
        assert forall|y: int| 0 <= y < tree.height implies (#[trigger] row_runs(
            tree@.boxes,
            full,
            full.len() as int,
            y,
        )).len() <= usize::MAX by {
            assert(views(rows@[y]@).len() == rows@[y].len());
        }
    }
    let mut out: Vec<Line> = Vec::new();
    let ghost goal = lines_of_tree(tree@);
    let mut y: usize = 0;
    while y < height
        invariant
            boxes == tree.list(),
            walk@ == paint_order(boxes, tree.depth(), tree.root),
            height == tree.height,
            y <= height,
            rows_hold(rows@, boxes, walk@, walk@.len() as int, height as int),
            goal == lines_of_tree(tree@),
            views(out@) =~= goal.take(y as int),
        decreases height - y,
    {
        let line: Line = make_line(&rows[y]);
        proof {
            assert(views(rows@[y as int]@) == row_runs(boxes, walk@, walk@.len() as int, y as int));
            assert(line@ == line_at(tree@, y as int));
        }
        out.push(line);
        y += 1;
    }
    proof {
        assert(views(out@) =~= goal);
    }
    out
}

/// A digit of a number in base sixteen.
#[verifier::allow_in_spec]
pub fn hex_digit(d: u8) -> (r: char)
    returns
        (match d {
            0 => '0',
            1 => '1',
            2 => '2',
            3 => '3',
            4 => '4',
            5 => '5',
            6 => '6',
            7 => '7',
            8 => '8',
            9 => '9',
            10 => 'a',
            11 => 'b',
            12 => 'c',
            13 => 'd',
            14 => 'e',
            _ => 'f',
        }),
{
    match d {
        0 => '0',
        1 => '1',
        2 => '2',
        3 => '3',
        4 => '4',
        5 => '5',
        6 => '6',
        7 => '7',
        8 => '8',
        9 => '9',
        10 => 'a',
        11 => 'b',
        12 => 'c',
        13 => 'd',
        14 => 'e',
        _ => 'f',
    }
}

/// Two lower-case hexadecimal digits.
pub open spec fn hex_pair(n: u8) -> Seq<char> {
    seq![hex_digit(n / 16), hex_digit(n % 16)]
}

/// A number in decimal, without leading zeros.
pub open spec fn decimal(n: u8) -> Seq<char> {
    if n >= 100 {
        seq![hex_digit(n / 100), hex_digit(n / 10 % 10), hex_digit(n % 10)]
    } else if n >= 10 {
        seq![hex_digit(n / 10), hex_digit(n % 10)]
    } else {
        seq![hex_digit(n)]
    }
}

fn push_hex(out: &mut String, n: u8)
    ensures
        final(out)@ == old(out)@ + hex_pair(n),
{
    let ghost start = out@;
    out.push(hex_digit(n / 16));
    out.push(hex_digit(n % 16));
    proof {
        assert(out@ =~= start + hex_pair(n));
    }
}

fn push_decimal(out: &mut String, n: u8)
    ensures
        final(out)@ == old(out)@ + decimal(n),
{
    let ghost start = out@;
    if n >= 100 {
        out.push(hex_digit(n / 100));
    }
    if n >= 10 {
        out.push(hex_digit(n / 10 % 10));
    }
    out.push(hex_digit(n % 10));
    proof {
        assert(out@ =~= start + decimal(n));
    }
}

/// The letters of a style's attributes.
pub open spec fn attr_letters(style: Style) -> Seq<char> {
    (if style.attrs.bold {
        seq!['b']
    } else {
        Seq::empty()
    }) + (if style.attrs.underline {
        seq!['u']
    } else {
        Seq::empty()
    }) + (if style.attrs.italic {
        seq!['i']
    } else {
        Seq::empty()
    })
}

/// A style's own foreground colour, if it has one.
pub open spec fn color_name(color: Color) -> Seq<char> {
    match color {
        Color::Ansi(n) => seq!['c'] + decimal(n),
        Color::Rgb(r, g, b) => seq!['#'] + hex_pair(r) + hex_pair(g) + hex_pair(b),
        Color::Default => Seq::empty(),
    }
}

/// What stands between a marked span's brackets.
pub open spec fn span_label(style: Style) -> Seq<char> {
    let letters = attr_letters(style);
    let color = color_name(style.fg);
    if letters.len() > 0 && color.len() > 0 {
        letters + seq![' '] + color
    } else {
        letters + color
    }
}

/// A span as text: `[b]bold[/]`, `[u #5c5cff]link[/]`, or bare.
pub open spec fn marked_span(span: SpanView) -> Seq<char> {
    let label = span_label(span.style);
    if label.len() == 0 {
        span.text
    } else {
        seq!['['] + label + seq![']'] + span.text + "[/]"@
    }
}

/// The first `n` spans of a line, marked.
pub open spec fn marked_spans(spans: Seq<SpanView>, n: int) -> Seq<char>
    decreases n,
{
    if n <= 0 {
        Seq::empty()
    } else {
        marked_spans(spans, n - 1) + marked_span(spans[n - 1])
    }
}

/// The first `n` lines, marked, each ended by a newline.
pub open spec fn marked_lines(lines: Seq<Seq<SpanView>>, n: int) -> Seq<char>
    decreases n,
{
    if n <= 0 {
        Seq::empty()
    } else {
        let line = lines[n - 1];
        marked_lines(lines, n - 1) + marked_spans(line, line.len() as int) + seq!['\n']
    }
}

fn label_of(style: Style) -> (r: String)
    ensures
        r@ == span_label(style),
{
    let mut out: String = String::new();
    if style.attrs.bold {
        out.push('b');
    }
    if style.attrs.underline {
        out.push('u');
    }
    if style.attrs.italic {
        out.push('i');
    }
    let marked: bool = style.attrs.bold || style.attrs.underline || style.attrs.italic;
    proof {
        assert(out@ =~= attr_letters(style));
        assert(marked == (attr_letters(style).len() > 0));
    }
    let colored: bool = !matches!(style.fg, Color::Default);
    let ghost letters = out@;
    if marked && colored {
        out.push(' ');
    }
    let ghost before = out@;
    match style.fg {
        Color::Ansi(n) => {
            out.push('c');
            push_decimal(&mut out, n);
        },
        Color::Rgb(r, g, b) => {
            out.push('#');
            push_hex(&mut out, r);
            push_hex(&mut out, g);
            push_hex(&mut out, b);
        },
        Color::Default => {},
    }
    proof {
        assert(out@ =~= before + color_name(style.fg));
        assert(colored == (color_name(style.fg).len() > 0));
        assert(out@ =~= span_label(style));
    }
    out
}

/// Lines as text with style markers.
pub fn debug_lines(lines: &Vec<Line>) -> (r: String)
    ensures
        r@ == marked_lines(views(lines@), lines@.len() as int),
{
    let mut out: String = String::new();
    let ghost all = views(lines@);
    let mut i: usize = 0;
    proof {
        assert(out@ =~= marked_lines(all, 0));
    }
    while i < lines.len()
        invariant
            all == views(lines@),
            i <= lines@.len(),
            out@ == marked_lines(all, i as int),
        decreases lines@.len() - i,
    {
        let spans: &Vec<Span> = &lines[i].spans;
        let ghost start = out@;
        let ghost line = all[i as int];
        let mut k: usize = 0;
        proof {
            assert(line == views(spans@));
            assert(out@ =~= start + marked_spans(line, 0));
        }
        while k < spans.len()
            invariant
                line == views(spans@),
                k <= spans@.len(),
                out@ == start + marked_spans(line, k as int),
            decreases spans@.len() - k,
        {
            let span: &Span = &spans[k];
            let label: String = label_of(span.style);
            let ghost before = out@;
            if label.as_str().is_empty() {
                out.append(span.text.as_str());
            } else {
                out.push('[');
                out.append(label.as_str());
                out.push(']');
                out.append(span.text.as_str());
                out.append("[/]");
            }
            proof {
                assert(span@ == line[k as int]);
                assert(out@ =~= before + marked_span(span@));
                assert(out@ =~= start + marked_spans(line, k + 1));
            }
            k += 1;
        }
        out.push('\n');
        proof {
            assert(out@ =~= marked_lines(all, i + 1));
        }
        i += 1;
    }
    out
}

/// A page has a line for each of its rows, and none for a page without rows.
pub proof fn every_row_has_a_line(tree: TreeView)
    ensures
        lines_of_tree(tree).len() == (if tree.height > 0 {
            tree.height as int
        } else {
            0
        }),
{
}

} // verus!
