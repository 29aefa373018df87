//! What a form control's box draws.
//!
//! One answer is read by paint, by the text dump and by the focus overlay, so
//! that the three cannot disagree about where a field's cells are or what is
//! in them. The caret is a cell of the same window the text is drawn from.

use vstd::prelude::*;

use crate::boxes::{BoxKind, BoxView, LayoutBox};
use crate::cells::{count, larger, minus, plus, smaller};
use crate::dimensions::Rect;
use crate::field::{FieldPaint, Shows};
use crate::term::{Attrs, Color, Style};
use crate::text::{
    cells_of, char_cells, char_cells_of, chars_of, lines_of, owned, repeated, slice_text,
    split_lines, str_cells,
};
use crate::views::views;

verus! {

broadcast use crate::views::group_views;

/// The cells that characters take, added up.
pub open spec fn cells_sum(s: Seq<char>) -> int
    decreases s.len(),
{
    if s.len() == 0 {
        0
    } else {
        cells_sum(s.drop_last()) + char_cells_of(s.last())
    }
}

pub proof fn cells_sum_adds(a: Seq<char>, b: Seq<char>)
    ensures
        cells_sum(a + b) == cells_sum(a) + cells_sum(b),
    decreases b.len(),
{
    if b.len() == 0 {
        assert(a + b =~= a);
    } else {
        cells_sum_adds(a, b.drop_last());
        assert((a + b).drop_last() =~= a + b.drop_last());
    }
}

proof fn cells_sum_of_blanks(n: int)
    requires
        char_cells_of(' ') == 1,
    ensures
        cells_sum(repeated(' ', n)) == if n > 0 {
            n
        } else {
            0
        },
    decreases n,
{
    if n > 0 {
        cells_sum_of_blanks(n - 1);
        assert(repeated(' ', n).drop_last() =~= repeated(' ', n - 1));
    }
}

/// What is left to draw of a window `cells` wide: `used` cells are filled, and
/// character `i` of `s` starts at column `x` of the line.
pub open spec fn window_from(
    s: Seq<char>,
    x_off: i32,
    cells: i32,
    i: int,
    used: i32,
    x: i32,
) -> Seq<char>
    decreases s.len() - i,
{
    if i >= s.len() || used >= cells {
        repeated(' ', cells - used)
    } else {
        let w = char_cells_of(s[i]);
        let end = plus(x, w);
        if end <= x_off {
            window_from(s, x_off, cells, i + 1, used, end)
        } else if x < x_off {
            let blanks = smaller(minus(end, x_off), minus(cells, used));
            repeated(' ', blanks as int) + window_from(
                s,
                x_off,
                cells,
                i + 1,
                plus(used, blanks),
                end,
            )
        } else if w > minus(cells, used) {
            repeated(' ', cells - used)
        } else {
            seq![s[i]] + window_from(s, x_off, cells, i + 1, plus(used, w), end)
        }
    }
}

/// The `cells` columns of `s` starting `x_off` columns in.
pub open spec fn window_of_text(s: Seq<char>, x_off: i32, cells: i32) -> Seq<char> {
    if cells <= 0 {
        Seq::empty()
    } else {
        window_from(s, x_off, cells, 0, 0, 0)
    }
}

fn push_blanks(out: &mut String, n: i32)
    ensures
        final(out)@ == old(out)@ + repeated(' ', n as int),
{
    let ghost start = out@;
    let mut i: i32 = 0;
    while i < n
        invariant
            0 <= i,
            n > 0 ==> i <= n,
            n <= 0 ==> i == 0,
            out@ =~= start + repeated(' ', i as int),
        decreases n - i,
    {
        out.push(' ');
        i += 1;
    }
    proof {
        assert(out@ =~= start + repeated(' ', n as int));
    }
}

/// The `cells` columns of `text` starting `x_off` columns in, padded back out
/// to exactly that many.
///
/// Cut by width rather than by characters at both ends, and a wide glyph that
/// would straddle either edge is blanked rather than halved, so every row of a
/// field is exactly as wide as the field.
pub fn window(text: &str, x_off: i32, cells: i32) -> (r: String)
    ensures
        r@ == window_of_text(text@, x_off, cells),
        cells >= 0 ==> cells_sum(r@) == cells,
{
    let mut out: String = String::new();
    if cells <= 0 {
        return out;
    }
    let blank: i32 = char_cells(' ');
    let chars: Vec<char> = chars_of(text);
    let mut used: i32 = 0;
    let mut x: i32 = 0;
    let mut i: usize = 0;
    let mut full: bool = false;
    let ghost all = window_of_text(text@, x_off, cells);
    proof {
        assert(out@ + all =~= all);
    }
    while i < chars.len() && used < cells && !full
        invariant
            i <= chars@.len(),
            chars@ == text@,
            0 <= used <= cells,
            0 <= x,
            char_cells_of(' ') == 1,
            cells_sum(out@) == used,
            !full ==> all == out@ + window_from(text@, x_off, cells, i as int, used, x),
            full ==> all == out@ + repeated(' ', cells - used),
        decreases
                chars@.len() - i + (if full {
                    0int
                } else {
                    1int
                }),
    {
        let c: char = chars[i];
        let w: i32 = char_cells(c);
        let end: i32 = plus(x, w);
        let ghost before = out@;
        if end <= x_off {
            x = end;
            i += 1;
        } else if x < x_off {
            let blanks: i32 = smaller(minus(end, x_off), minus(cells, used));
            push_blanks(&mut out, blanks);
            proof {
                let rest = window_from(text@, x_off, cells, i + 1, plus(used, blanks), end);
                let pad = repeated(' ', blanks as int);
                assert(before + (pad + rest) =~= (before + pad) + rest);
                cells_sum_adds(before, pad);
                cells_sum_of_blanks(blanks as int);
            }
            used = plus(used, blanks);
            x = end;
            i += 1;
        } else if w > minus(cells, used) {
            full = true;
        } else {
            out.push(c);
            proof {
                let rest = window_from(text@, x_off, cells, i + 1, plus(used, w), end);
                assert(before + (seq![c] + rest) =~= before.push(c) + rest);
                assert(before.push(c).drop_last() =~= before);
            }
            used = plus(used, w);
            x = end;
            i += 1;
        }
    }
    proof {
        let pad = repeated(' ', cells - used);
        cells_sum_adds(out@, pad);
        cells_sum_of_blanks(cells - used);
    }
    push_blanks(&mut out, minus(cells, used));
    out
}

/// One run of cells a control's box draws, in document coordinates.
#[derive(Debug)]
pub struct Run {
    pub x: i32,
    pub y: i32,
    pub text: String,
    pub style: Style,
}

/// The value of a [`Run`].
pub struct RunView {
    pub x: i32,
    pub y: i32,
    pub text: Seq<char>,
    pub style: Style,
}

impl View for Run {
    type V = RunView;

    open spec fn view(&self) -> RunView {
        RunView { x: self.x, y: self.y, text: self.text@, style: self.style }
    }
}

/// Everything a control's box puts on screen.
#[derive(Debug)]
pub struct Painted {
    pub runs: Vec<Run>,
    /// Document coordinates, or `None` for a control that takes no caret.
    pub caret: Option<(i32, i32)>,
    /// Content row occupied by a select's cursor.
    pub cursor_row: Option<i32>,
}

/// The value of a [`Painted`].
pub struct PaintedView {
    pub runs: Seq<RunView>,
    pub caret: Option<(i32, i32)>,
    pub cursor_row: Option<i32>,
}

impl View for Painted {
    type V = PaintedView;

    open spec fn view(&self) -> PaintedView {
        PaintedView { runs: views(self.runs@), caret: self.caret, cursor_row: self.cursor_row }
    }
}

/// Where character `left` of what is shown from line `i` on lies: which line,
/// and how many cells into it. The newline between two lines counts as one
/// character.
pub open spec fn caret_from(lines: Seq<Seq<char>>, left: int, i: int) -> (int, i32)
    decreases lines.len() - i,
{
    if i >= lines.len() {
        (lines.len() - 1, cells_of(lines[lines.len() - 1]))
    } else if left <= lines[i].len() || i == lines.len() - 1 {
        (
            i,
            cells_of(
                lines[i].take(
                    if left <= lines[i].len() {
                        left
                    } else {
                        lines[i].len() as int
                    },
                ),
            ),
        )
    } else {
        caret_from(lines, left - (lines[i].len() + 1), i + 1)
    }
}

/// Where the caret is in the value, if this control takes one. Without an
/// index it is at the end of the value; a placeholder pins it to the front.
pub open spec fn caret_at(paint: FieldPaint, lines: Seq<Seq<char>>, caret: Option<usize>) -> Option<
    (int, i32),
> {
    if paint.disabled {
        None
    } else if paint.shows == Shows::Placeholder {
        Some((0, 0i32))
    } else if paint.shows == Shows::Value {
        match caret {
            None => Some((lines.len() - 1, cells_of(lines[lines.len() - 1]))),
            Some(at) => Some(caret_from(lines, at as int, 0)),
        }
    } else {
        None
    }
}

fn caret_in_value(paint: FieldPaint, lines: &Vec<String>, caret: Option<usize>) -> (r: Option<
    (usize, i32),
>)
    requires
        lines@.len() > 0,
    ensures
        (match r {
            Some(at) => caret_at(paint, views(lines@), caret) == Some((at.0 as int, at.1)),
            None => caret_at(paint, views(lines@), caret) == None::<(int, i32)>,
        }),
{
    if paint.disabled {
        return None;
    }
    if paint.shows == Shows::Placeholder {
        return Some((0, 0));
    }
    if paint.shows != Shows::Value {
        return None;
    }
    let ghost all = views(lines@);
    let last: usize = lines.len() - 1;
    let mut left: usize = match caret {
        None => {
            return Some((last, str_cells(lines[last].as_str())));
        },
        Some(at) => at,
    };
    let mut i: usize = 0;
    loop
        invariant
            all == views(lines@),
            i <= last,
            last == lines@.len() - 1,
            !paint.disabled,
            paint.shows == Shows::Value,
            caret_at(paint, all, caret) == Some(caret_from(all, left as int, i as int)),
        decreases last - i,
    {
        let chars: Vec<char> = chars_of(lines[i].as_str());
        if left <= chars.len() || i == last {
            let upto: usize = if left <= chars.len() {
                left
            } else {
                chars.len()
            };
            let before: String = slice_text(&chars, 0, upto);
            proof {
                assert(before@ =~= all[i as int].take(upto as int));
            }
            return Some((i, str_cells(before.as_str())));
        }
        left = left - chars.len() - 1;
        i += 1;
    }
}

pub open spec fn clamped(v: i32, low: i32, high: i32) -> i32 {
    if v < low {
        low
    } else if v > high {
        high
    } else {
        v
    }
}

fn clamp(v: i32, low: i32, high: i32) -> (r: i32)
    ensures
        r == clamped(v, low, high),
{
    if v < low {
        low
    } else if v > high {
        high
    } else {
        v
    }
}

/// The first selected row of a list, or the top.
pub open spec fn base_row(first_selected: Option<usize>) -> i32 {
    match first_selected {
        Some(i) => count(i),
        None => 0,
    }
}

/// Which line and column the box's window starts at, and the caret's cell.
///
/// A caret drags the window after it; a control nobody is typing into shows
/// its start.
pub open spec fn view_window(
    rect: Rect,
    paint: FieldPaint,
    lines: Seq<Seq<char>>,
    caret: Option<usize>,
) -> (i32, i32, Option<(i32, i32)>) {
    let at = caret_at(paint, lines, caret);
    let (first_row, x_off): (i32, i32) = match (at, caret) {
        (Some(p), Some(_)) => (
            larger(plus(minus(crate::cells::fit(p.0), rect.height), 1), 0),
            larger(plus(minus(p.1, rect.width), 1), 0),
        ),
        _ => match paint.shows {
            Shows::SelectList { first_selected, .. } => (base_row(first_selected), 0i32),
            _ => (0i32, 0i32),
        },
    };
    let cell = match at {
        Some(p) => if rect.width > 0 && rect.height > 0 {
            Some(
                (
                    plus(rect.x, clamped(minus(p.1, x_off), 0, minus(rect.width, 1))),
                    plus(
                        rect.y,
                        clamped(
                            minus(crate::cells::fit(p.0), first_row),
                            0,
                            minus(rect.height, 1),
                        ),
                    ),
                ),
            )
        } else {
            None
        },
        None => None,
    };
    (first_row, x_off, cell)
}

fn window_of(rect: Rect, paint: FieldPaint, lines: &Vec<String>, caret: Option<usize>) -> (r: (
    i32,
    i32,
    Option<(i32, i32)>,
))
    requires
        lines@.len() > 0,
    ensures
        r == view_window(rect, paint, views(lines@), caret),
{
    let at: Option<(usize, i32)> = caret_in_value(paint, lines, caret);
    let mut first_row: i32 = 0;
    let mut x_off: i32 = 0;
    match (at, caret) {
        (Some(p), Some(_)) => {
            first_row = larger(plus(minus(count(p.0), rect.height), 1), 0);
            x_off = larger(plus(minus(p.1, rect.width), 1), 0);
        },
        _ => match paint.shows {
            Shows::SelectList { first_selected, .. } => {
                first_row = match first_selected {
                    Some(i) => count(i),
                    None => 0,
                };
            },
            _ => {},
        },
    }
    let cell: Option<(i32, i32)> = match at {
        Some(p) => if rect.width > 0 && rect.height > 0 {
            Some(
                (
                    plus(rect.x, clamp(minus(p.1, x_off), 0, minus(rect.width, 1))),
                    plus(
                        rect.y,
                        clamp(minus(count(p.0), first_row), 0, minus(rect.height, 1)),
                    ),
                ),
            )
        } else {
            None
        },
        None => None,
    };
    (first_row, x_off, cell)
}

/// The style of the control's own cells: what the cascade gave the element,
/// plus what makes it read as a control.
pub open spec fn interior_of(style: Style, paint: FieldPaint) -> Style {
    let typed = paint.shows == Shows::Value || paint.shows == Shows::Placeholder;
    Style {
        fg: if paint.disabled || paint.shows == Shows::Placeholder {
            Color::Ansi(8)
        } else {
            style.fg
        },
        bg: style.bg,
        attrs: Attrs {
            bold: style.attrs.bold,
            italic: style.attrs.italic || paint.shows == Shows::Placeholder,
            underline: style.attrs.underline || typed,
        },
    }
}

fn interior_style(style: Style, paint: FieldPaint) -> (r: Style)
    ensures
        r == interior_of(style, paint),
{
    let hinted: bool = paint.shows == Shows::Placeholder;
    let typed: bool = hinted || paint.shows == Shows::Value;
    Style {
        fg: if paint.disabled || hinted {
            Color::Ansi(8)
        } else {
            style.fg
        },
        bg: style.bg,
        attrs: Attrs {
            bold: style.attrs.bold,
            italic: style.attrs.italic || hinted,
            underline: style.attrs.underline || typed,
        },
    }
}

pub open spec fn frame_of(style: Style, paint: FieldPaint) -> Style {
    Style {
        fg: if paint.disabled {
            Color::Ansi(8)
        } else {
            style.fg
        },
        bg: style.bg,
        attrs: Attrs::none(),
    }
}

fn frame_style(style: Style, paint: FieldPaint) -> (r: Style)
    ensures
        r == frame_of(style, paint),
{
    Style {
        fg: if paint.disabled {
            Color::Ansi(8)
        } else {
            style.fg
        },
        bg: style.bg,
        attrs: Attrs::none(),
    }
}

/// Line `k`, empty where there is none.
pub open spec fn line_at(lines: Seq<Seq<char>>, k: int) -> Seq<char> {
    if 0 <= k < lines.len() {
        lines[k]
    } else {
        Seq::empty()
    }
}

/// The one row of a collapsed select, if this is one.
pub open spec fn collapsed_row(
    paint: FieldPaint,
    lines: Seq<Seq<char>>,
    cursor: Option<usize>,
) -> Option<Seq<char>> {
    match paint.shows {
        Shows::Select { selected } => {
            let at = match cursor {
                Some(i) => Some(i),
                None => selected,
            };
            Some(
                (match at {
                    Some(i) => line_at(lines, i as int),
                    None => Seq::empty(),
                }) + " v"@,
            )
        },
        _ => None,
    }
}

/// The first row shown: a select's cursor drags a list after it.
pub open spec fn shown_from(rect: Rect, paint: FieldPaint, first_row: i32, cursor: Option<usize>) -> i32 {
    match (paint.shows, cursor) {
        (Shows::SelectList { first_selected, .. }, Some(at)) => {
            let base = base_row(first_selected);
            let at = count(at);
            if at < base {
                at
            } else if at >= plus(base, rect.height) {
                plus(minus(at, rect.height), 1)
            } else {
                base
            }
        },
        _ => first_row,
    }
}

/// Everything one row of a control needs to be drawn.
pub struct RowPaint {
    pub rect: Rect,
    pub framed_left: bool,
    pub framed_right: bool,
    pub disabled: bool,
    pub frame: Style,
    pub interior: Style,
    pub x_off: i32,
}

/// The runs of one row: the frame sits in the innermost cell of the control's
/// own padding, so it is there exactly when the page left room for it.
pub open spec fn row_runs(p: RowPaint, row: i32, line: Seq<char>) -> Seq<RunView> {
    let y = plus(p.rect.y, row);
    let open = RunView {
        x: minus(p.rect.x, 1),
        y,
        text: if p.disabled {
            "("@
        } else {
            "["@
        },
        style: p.frame,
    };
    let shown = window_of_text(line, p.x_off, p.rect.width);
    let body = RunView { x: p.rect.x, y, text: shown, style: p.interior };
    let close = RunView {
        x: p.rect.right(),
        y,
        text: if p.disabled {
            ")"@
        } else {
            "]"@
        },
        style: p.frame,
    };
    (if p.framed_left {
        seq![open]
    } else {
        Seq::empty()
    }) + (if shown.len() > 0 {
        seq![body]
    } else {
        Seq::empty()
    }) + (if p.framed_right {
        seq![close]
    } else {
        Seq::empty()
    })
}

/// The line that row `row` shows.
pub open spec fn row_line(
    lines: Seq<Seq<char>>,
    collapsed: Option<Seq<char>>,
    first_row: i32,
    row: i32,
) -> Seq<char> {
    match collapsed {
        Some(line) => if row == 0 {
            line
        } else {
            Seq::empty()
        },
        None => line_at(lines, plus(first_row, row) as int),
    }
}

/// The runs of the rows from `row` on.
pub open spec fn rows_from(
    p: RowPaint,
    lines: Seq<Seq<char>>,
    collapsed: Option<Seq<char>>,
    first_row: i32,
    row: int,
) -> Seq<RunView>
    decreases p.rect.height - row,
{
    if row >= p.rect.height {
        Seq::empty()
    } else {
        row_runs(p, row as i32, row_line(lines, collapsed, first_row, row as i32)) + rows_from(
            p,
            lines,
            collapsed,
            first_row,
            row + 1,
        )
    }
}

/// What a control's box draws, with a caret or a select's cursor.
pub open spec fn painted_of(b: BoxView, caret: Option<usize>, cursor: Option<usize>) -> PaintedView {
    match b.kind {
        BoxKind::Field(paint) => {
            let rect = b.dimensions.content;
            let lines = lines_of(
                match b.text {
                    Some(text) => text,
                    None => ""@,
                },
            );
            let (top, x_off, cell) = view_window(rect, paint, lines, caret);
            let first_row = shown_from(rect, paint, top, cursor);
            let p = RowPaint {
                rect,
                framed_left: b.dimensions.padding.left > 0,
                framed_right: b.dimensions.padding.right > 0,
                disabled: paint.disabled,
                frame: frame_of(b.term_style, paint),
                interior: interior_of(b.term_style, paint),
                x_off,
            };
            PaintedView {
                runs: rows_from(p, lines, collapsed_row(paint, lines, cursor), first_row, 0),
                caret: cell,
                cursor_row: match cursor {
                    None => None,
                    Some(at) => Some(
                        match paint.shows {
                            Shows::SelectList { .. } => minus(count(at), first_row),
                            _ => 0,
                        },
                    ),
                },
            }
        },
        _ => PaintedView { runs: Seq::empty(), caret: None, cursor_row: None },
    }
}

fn push_row(p: &RowPaint, row: i32, line: &str, out: &mut Vec<Run>)
    ensures
        views(final(out)@) == views(old(out)@) + row_runs(*p, row, line@),
{
    let ghost start = views(out@);
    let y: i32 = plus(p.rect.y, row);
    if p.framed_left {
        let text: String = owned(
            if p.disabled {
                "("
            } else {
                "["
            },
        );
        out.push(Run { x: minus(p.rect.x, 1), y, text, style: p.frame });
    }
    let shown: String = window(line, p.x_off, p.rect.width);
    let empty: bool = shown.as_str().is_empty();
    if !empty {
        out.push(Run { x: p.rect.x, y, text: shown, style: p.interior });
    }
    if p.framed_right {
        let text: String = owned(
            if p.disabled {
                ")"
            } else {
                "]"
            },
        );
        out.push(Run { x: p.rect.right(), y, text, style: p.frame });
    }
    proof {
        assert(views(out@) =~= start + row_runs(*p, row, line@));
    }
}

fn painted_inner(b: &LayoutBox, caret: Option<usize>, cursor: Option<usize>) -> (r: Painted)
    ensures
        r@ == painted_of(b@, caret, cursor),
{
    let mut out: Vec<Run> = Vec::new();
    let paint: FieldPaint = match b.kind {
        BoxKind::Field(paint) => paint,
        _ => {
            return Painted { runs: out, caret: None, cursor_row: None };
        },
    };
    let rect: Rect = b.dimensions.content;
    let lines: Vec<String> = split_lines(
        match &b.text {
            Some(text) => text.as_str(),
            None => "",
        },
    );
    let ghost all = views(lines@);
    let (top, x_off, cell): (i32, i32, Option<(i32, i32)>) = window_of(rect, paint, &lines, caret);
    let collapsed: Option<String> = match paint.shows {
        Shows::Select { selected } => {
            let at: Option<usize> = match cursor {
                Some(i) => Some(i),
                None => selected,
            };
            let mut row: String = String::new();
            match at {
                Some(i) => {
                    if i < lines.len() {
                        row.append(lines[i].as_str());
                        proof {
                            assert(row@ =~= all[i as int]);
                        }
                    }
                },
                None => {},
            }
            row.append(" v");
            Some(row)
        },
        _ => None,
    };
    let ghost folded = collapsed_row(paint, all, cursor);
    let first_row: i32 = match (paint.shows, cursor) {
        (Shows::SelectList { first_selected, .. }, Some(at)) => {
            let base: i32 = match first_selected {
                Some(i) => count(i),
                None => 0,
            };
            let at: i32 = count(at);
            if at < base {
                at
            } else if at >= plus(base, rect.height) {
                plus(minus(at, rect.height), 1)
            } else {
                base
            }
        },
        _ => top,
    };
    let cursor_row: Option<i32> = match cursor {
        None => None,
        Some(at) => Some(
            match paint.shows {
                Shows::SelectList { .. } => minus(count(at), first_row),
                _ => 0,
            },
        ),
    };
    let p: RowPaint = RowPaint {
        rect,
        framed_left: b.dimensions.padding.left > 0,
        framed_right: b.dimensions.padding.right > 0,
        disabled: paint.disabled,
        frame: frame_style(b.term_style, paint),
        interior: interior_style(b.term_style, paint),
        x_off,
    };
    let mut row: i32 = 0;
    proof {
        let runs = rows_from(p, all, folded, first_row, 0);
        assert(views(out@) + runs =~= runs);
    }
    while row < rect.height
        invariant
            0 <= row,
            p.rect == rect,
            all == views(lines@),
            (match collapsed {
                Some(line) => folded == Some(line@),
                None => folded == None::<Seq<char>>,
            }),
            views(out@) + rows_from(p, all, folded, first_row, row as int) == rows_from(
                p,
                all,
                folded,
                first_row,
                0,
            ),
        decreases rect.height - row,
    {
        let k: i32 = plus(first_row, row);
        let line: &str = match &collapsed {
            Some(line) => if row == 0 {
                line.as_str()
            } else {
                ""
            },
            None => if k >= 0 && (k as usize) < lines.len() {
                lines[k as usize].as_str()
            } else {
                ""
            },
        };
        proof {
            reveal_strlit("");
            assert(""@ =~= Seq::<char>::empty());
        }
        let ghost before = views(out@);
        push_row(&p, row, line, &mut out);
        proof {
            let here = row_runs(p, row, line@);
            let rest = rows_from(p, all, folded, first_row, row + 1);
            assert(line@ == row_line(all, folded, first_row, row));
            assert((before + here) + rest =~= before + (here + rest));
        }
        row += 1;
    }
    proof {
        assert(views(out@) + Seq::<RunView>::empty() =~= views(out@));
    }
    Painted { runs: out, caret: cell, cursor_row }
}

/// The cells of a control that the page's own paint draws: the start of the
/// value, which is what a browser shows before a field is focused.
pub fn runs(b: &LayoutBox) -> (r: Vec<Run>)
    ensures
        views(r@) == painted_of(b@, None, None).runs,
{
    painted_inner(b, None, None).runs
}

/// The same cells, windowed on a caret that many characters into the value.
pub fn painted(b: &LayoutBox, caret: Option<usize>) -> (r: Painted)
    ensures
        r@ == painted_of(b@, caret, None),
{
    painted_inner(b, caret, None)
}

/// A select's cells, windowed on the option under its cursor.
pub fn painted_select(b: &LayoutBox, cursor: usize) -> (r: Painted)
    ensures
        r@ == painted_of(b@, None, Some(cursor)),
{
    painted_inner(b, None, Some(cursor))
}

/// Just the caret's cell.
pub fn caret(b: &LayoutBox) -> (r: Option<(i32, i32)>)
    ensures
        r == painted_of(b@, None, None).caret,
{
    let paint: FieldPaint = match b.kind {
        BoxKind::Field(paint) => paint,
        _ => {
            return None;
        },
    };
    let lines: Vec<String> = split_lines(
        match &b.text {
            Some(text) => text.as_str(),
            None => "",
        },
    );
    window_of(b.dimensions.content, paint, &lines, None).2
}

/// A caret is always on one of the cells that its box's content covers.
pub proof fn the_caret_is_inside_its_box(b: BoxView, caret: Option<usize>, cursor: Option<usize>)
    requires
        b.dimensions.content.x + b.dimensions.content.width <= i32::MAX,
        b.dimensions.content.y + b.dimensions.content.height <= i32::MAX,
    ensures
        painted_of(b, caret, cursor).caret matches Some(cell) ==> {
            let rect = b.dimensions.content;
            &&& rect.x <= cell.0 < rect.right()
            &&& rect.y <= cell.1 < rect.bottom()
        },
{
}

} // verus!
