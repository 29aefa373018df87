//! What clipping leaves, and what a control's window shows, cell by cell.

use vstd::prelude::*;

use crate::boxes::BoxView;
use crate::cells::plus;
use crate::clip::{kept_text, Clip};
use crate::dimensions::Rect;
use crate::field::FieldPaint;
use crate::hit::rect_holds;
use crate::painted::{caret_from, row_runs, shown_from, window_from, window_of_text, RowPaint};
use crate::text::{cells_of, char_cells_of};

verus! {

/// What is inside a box can be seen where the box's own clips let it, and on
/// each axis on which the box clips only in its padding box.
pub proof fn a_box_clips_to_its_padding_box(clip: Clip, b: BoxView, x: i32, y: i32)
    ensures
        ({
            let pad = b.dimensions.padding_box();
            clip.inside_of(b).contains(x, y) <==> clip.contains(x, y) && (
            b.computed.overflow_x.clips() ==> pad.x <= x < pad.right()) && (
            b.computed.overflow_y.clips() ==> pad.y <= y < pad.bottom())
        }),
{
}

/// A rectangle trimmed to a clip is those of its cells that the clip shows.
pub proof fn trimming_keeps_the_cells_that_show(clip: Clip, rect: Rect, x: i32, y: i32)
    requires
        0 <= rect.width && 0 <= rect.height,
        rect.x + rect.width <= i32::MAX,
        rect.y + rect.height <= i32::MAX,
    ensures
        rect_holds(clip.apply(rect), x, y) <==> rect_holds(rect, x, y) && clip.contains(x, y),
{
}

/// Characters of one cell each.
pub open spec fn all_narrow(s: Seq<char>) -> bool {
    forall|i: int| 0 <= i < s.len() ==> char_cells_of(#[trigger] s[i]) == 1
}

proof fn narrow_text_is_kept(
    s: Seq<char>,
    left: i32,
    right: i32,
    i: int,
    x: i32,
    at: i32,
    kept: Seq<char>,
    rides: bool,
    lo: int,
    hi: int,
)
    requires
        0 <= i <= s.len(),
        all_narrow(s),
        x + s.len() <= i32::MAX,
        lo == (if left > x {
            left - x
        } else {
            0
        }),
        hi == (if right - x < s.len() {
            right - x
        } else {
            s.len() as int
        }),
        i <= lo || i <= hi,
        i <= lo ==> kept.len() == 0,
        lo < i ==> kept == s.subrange(lo, i) && at == x + lo,
    ensures
        kept_text(s, left, right, i, (x + i) as i32, at, kept, rides) == (if lo < hi {
            Some(((x + lo) as i32, s.subrange(lo, hi)))
        } else {
            None
        }),
    decreases s.len() - i,
{
    if i < s.len() {
        let col = (x + i) as i32;
        assert(char_cells_of(s[i]) == 1);
        if col >= right {
        } else if col >= left && plus(col, 1) <= right {
            let at2 = if kept.len() > 0 {
                at
            } else {
                col
            };
            let next = kept.push(s[i]);
            if i == lo {
                assert(next =~= s.subrange(lo, i + 1));
            } else {
                assert(next =~= s.subrange(lo, i + 1));
            }
            narrow_text_is_kept(s, left, right, i + 1, x, at2, next, true, lo, hi);
        } else {
            narrow_text_is_kept(s, left, right, i + 1, x, at, kept, false, lo, hi);
        }
    }
}

/// A text of narrow characters trimmed to a clip is the part of it in the
/// clip's columns, at the column where that starts; and nothing is left of it
/// where that is nothing, or on another row.
pub proof fn a_text_is_trimmed_to_the_columns_that_show(
    clip: Clip,
    x: i32,
    y: i32,
    s: Seq<char>,
    left: i32,
    right: i32,
)
    requires
        clip.x == Some((left, right)),
        all_narrow(s),
        x + s.len() <= i32::MAX,
    ensures
        ({
            let lo = if left > x {
                left - x
            } else {
                0
            };
            let hi = if right - x < s.len() {
                right - x
            } else {
                s.len() as int
            };
            &&& !clip.shows_row(y) ==> clip.trimmed_text(x, y, s) is None
            &&& clip.shows_row(y) && lo < hi ==> clip.trimmed_text(x, y, s) == Some(
                ((x + lo) as i32, s.subrange(lo, hi)),
            )
            &&& lo >= hi ==> clip.trimmed_text(x, y, s) is None
        }),
{
    let lo = if left > x {
        left - x
    } else {
        0
    };
    let hi = if right - x < s.len() {
        right - x
    } else {
        s.len() as int
    };
    narrow_text_is_kept(s, left, right, 0, x, x, Seq::empty(), false, lo, hi);
}

proof fn a_window_shows_from(s: Seq<char>, x_off: i32, cells: i32, i: int, used: i32, k: int)
    requires
        0 <= i <= s.len() <= i32::MAX,
        all_narrow(s),
        0 <= x_off,
        0 <= used <= cells,
        i <= x_off ==> used == 0,
        x_off < i ==> used == i - x_off,
        x_off + cells <= i32::MAX,
        0 <= k < cells - used,
    ensures
        ({
            let w = window_from(s, x_off, cells, i, used, i as i32);
            let at = x_off + used + k;
            &&& w.len() == cells - used
            &&& w[k] == (if at < s.len() {
                s[at]
            } else {
                ' '
            })
        }),
    decreases s.len() - i,
{
    if i < s.len() && used < cells {
        assert(char_cells_of(s[i]) == 1);
        let end = plus(i as i32, 1);
        let w = window_from(s, x_off, cells, i, used, i as i32);
        if end <= x_off {
            a_window_shows_from(s, x_off, cells, i + 1, used, k);
        } else {
            let rest = window_from(s, x_off, cells, i + 1, plus(used, 1), end);
            assert(w == seq![s[i]] + rest);
            if used + 1 < cells {
                if k > 0 {
                    a_window_shows_from(s, x_off, cells, i + 1, (used + 1) as i32, k - 1);
                    assert(w[k] == rest[k - 1]);
                } else {
                    a_window_shows_from(s, x_off, cells, i + 1, (used + 1) as i32, 0);
                }
            } else {
                assert(rest.len() == 0);
            }
        }
    }
}

/// A window onto a line of narrow characters shows the characters of its
/// columns, blanks where the line has ended, and is as wide as it is to be.
pub proof fn a_window_shows_its_columns(s: Seq<char>, x_off: i32, cells: i32, k: int)
    requires
        all_narrow(s),
        s.len() <= i32::MAX,
        0 <= x_off,
        x_off + cells <= i32::MAX,
        0 <= k < cells,
    ensures
        ({
            let w = window_of_text(s, x_off, cells);
            &&& w.len() == cells
            &&& w[k] == (if x_off + k < s.len() {
                s[x_off + k]
            } else {
                ' '
            })
        }),
{
    a_window_shows_from(s, x_off, cells, 0, 0, k);
}

/// A row of a control is its window at its own place, in brackets where there is
/// room for them, or in parentheses where it is disabled.
pub proof fn a_row_is_framed(p: RowPaint, row: i32, line: Seq<char>)
    requires
        0 < p.rect.width,
        p.framed_left && p.framed_right,
        i32::MIN < p.rect.x,
        p.rect.x + p.rect.width <= i32::MAX,
        i32::MIN <= p.rect.y + row <= i32::MAX,
        0 < window_of_text(line, p.x_off, p.rect.width).len(),
    ensures
        ({
            let r = row_runs(p, row, line);
            &&& r.len() == 3
            &&& r[0].x == p.rect.x - 1 && r[1].x == p.rect.x && r[2].x == p.rect.x + p.rect.width
            &&& forall|k: int| 0 <= k < 3 ==> (#[trigger] r[k]).y == p.rect.y + row
            &&& r[1].text == window_of_text(line, p.x_off, p.rect.width)
            &&& r[1].style == p.interior && r[0].style == p.frame && r[2].style == p.frame
            &&& !p.disabled ==> r[0].text == "["@ && r[2].text == "]"@
            &&& p.disabled ==> r[0].text == "("@ && r[2].text == ")"@
        }),
{
}

/// A list of options shows the row its cursor is on.
pub proof fn a_list_shows_its_cursor(rect: Rect, paint: FieldPaint, first_row: i32, at: usize)
    requires
        paint.shows is SelectList,
        1 <= rect.height <= 0x1000_0000,
        at <= 0x1000_0000,
        paint.shows->first_selected matches Some(i) ==> i <= 0x1000_0000,
    ensures
        ({
            let first = shown_from(rect, paint, first_row, Some(at));
            first <= at < first + rect.height
        }),
{
}

/// A caret is as many cells into its line as the characters before it take, and
/// the end of a line counts as one character.
pub proof fn a_caret_is_behind_what_is_before_it(lines: Seq<Seq<char>>, left: int, i: int)
    requires
        0 <= i < lines.len(),
        0 <= left,
    ensures
        left <= lines[i].len() ==> caret_from(lines, left, i) == (i, cells_of(lines[i].take(left))),
        i + 1 < lines.len() ==> caret_from(lines, lines[i].len() + 1 + left, i) == caret_from(
            lines,
            left,
            i + 1,
        ),
{
}

} // verus!
