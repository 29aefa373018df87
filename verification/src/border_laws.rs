//! The lines of a table: each as thick as the thickest border that meets there,
//! drawn once, where its tracks meet.

use vstd::prelude::*;

use crate::borders::{border_edge, GridFacts, Side};
use crate::boxes::{BoxId, GridBorder};
use crate::context::Ctx;
use crate::dimensions::Rect;
use crate::engine::Canvas;
use crate::grid_laws::{ints, none_negative};
use crate::style::ComputedStyle;
use crate::sums::{sum, sum_step};

verus! {

/// Cells side by side start where the ones before them end.
pub proof fn columns_start_where_the_others_end(g: GridFacts, x: i32, c: int)
    requires
        0 <= c <= g.widths.len(),
        none_negative(g.widths),
        x + sum(ints(g.widths)) <= i32::MAX,
    ensures
        g.x_at(x, c) == x + sum(ints(g.widths).take(c)),
        0 <= sum(ints(g.widths).take(c)) <= sum(ints(g.widths)),
    decreases c,
{
    let all = ints(g.widths);
    crate::table_laws::sums_only_grow(all, c);
    if c > 0 {
        columns_start_where_the_others_end(g, x, c - 1);
        sum_step(all, c - 1);
        assert(0 <= g.widths[c - 1]);
    } else {
        assert(all.take(0) =~= Seq::<int>::empty());
    }
}

impl<'a> Ctx<'a> {
    /// The line above row `r` at column `c` is as thick as the thickest border
    /// that meets there: the table's at its top and bottom, the rows' on either
    /// side, and the cells' unless one cell covers both sides. It is no thicker.
    pub proof fn a_line_across_is_the_thickest_border(
        &self,
        g: GridFacts,
        style: ComputedStyle,
        basis: i32,
        r: int,
        c: int,
    )
        requires
            0 <= r <= g.rows.len(),
            0 <= c < g.widths.len(),
        ensures
            ({
                let n = g.rows.len();
                let t = self.across_at(g, style, basis, r, c);
                let (above, below) = (g.owner(r - 1, c), g.owner(r, c));
                let top = border_edge(&style, Side::Top, basis);
                let bottom = border_edge(&style, Side::Bottom, basis);
                let row_above = border_edge(&self.style(g.rows[r - 1].row), Side::Bottom, basis);
                let row_below = border_edge(&self.style(g.rows[r].row), Side::Top, basis);
                let cell_above = border_edge(
                    &self.style(g.placed[above->0 as int].cell),
                    Side::Bottom,
                    basis,
                );
                let cell_below = border_edge(
                    &self.style(g.placed[below->0 as int].cell),
                    Side::Top,
                    basis,
                );
                &&& 0 <= t
                &&& r == 0 ==> top <= t
                &&& r == n ==> bottom <= t
                &&& r > 0 ==> row_above <= t
                &&& r < n ==> row_below <= t
                &&& above != below && above is Some ==> cell_above <= t
                &&& above != below && below is Some ==> cell_below <= t
                &&& t == 0 || (r == 0 && t == top) || (r == n && t == bottom) || (r > 0 && t
                    == row_above) || (r < n && t == row_below) || (above != below && above is Some
                    && t == cell_above) || (above != below && below is Some && t == cell_below)
            }),
    {
    }

    /// The line left of column `c` at row `r` is as thick as the thickest border
    /// that meets there: the table's at its sides, and the cells' unless one cell
    /// covers both sides. It is no thicker.
    pub proof fn a_line_down_is_the_thickest_border(
        &self,
        g: GridFacts,
        style: ComputedStyle,
        basis: i32,
        r: int,
        c: int,
    )
        requires
            0 <= r < g.rows.len(),
            0 <= c <= g.widths.len(),
        ensures
            ({
                let n = g.widths.len();
                let t = self.down_at(g, style, basis, r, c);
                let (left, right) = (g.owner(r, c - 1), g.owner(r, c));
                let near = border_edge(&style, Side::Left, basis);
                let far = border_edge(&style, Side::Right, basis);
                let cell_left = border_edge(
                    &self.style(g.placed[left->0 as int].cell),
                    Side::Right,
                    basis,
                );
                let cell_right = border_edge(
                    &self.style(g.placed[right->0 as int].cell),
                    Side::Left,
                    basis,
                );
                &&& 0 <= t
                &&& c == 0 ==> near <= t
                &&& c == n ==> far <= t
                &&& left != right && left is Some ==> cell_left <= t
                &&& left != right && right is Some ==> cell_right <= t
                &&& t == 0 || (c == 0 && t == near) || (c == n && t == far) || (left != right
                    && left is Some && t == cell_left) || (left != right && right is Some && t
                    == cell_right)
            }),
    {
    }

    /// The piece of the line above row `r` at column `c`: as long as the column,
    /// at the top of the row, or on the last row of the table below them all.
    pub open spec fn piece_across(
        &self,
        g: GridFacts,
        owner: BoxId,
        table: Rect,
        style: ComputedStyle,
        r: int,
        c: int,
    ) -> GridBorder {
        GridBorder {
            owner,
            x: g.x_at(table.x, c),
            y: if r == g.rows.len() {
                (g.row_y[r - 1] + g.row_heights[r - 1] - 1) as i32
            } else {
                g.row_y[r]
            },
            length: g.widths[c],
            horizontal: true,
            thickness: self.across_at(g, style, table.width, r, c),
        }
    }

    /// The piece of the line left of column `c` at row `r`: as long as the row is
    /// tall, at the left of the column, or on the last column of the table behind
    /// them all.
    pub open spec fn piece_down(
        &self,
        g: GridFacts,
        owner: BoxId,
        table: Rect,
        style: ComputedStyle,
        r: int,
        c: int,
    ) -> GridBorder {
        GridBorder {
            owner,
            x: if c == g.widths.len() {
                (table.x + table.width - 1) as i32
            } else {
                g.x_at(table.x, c)
            },
            y: g.row_y[r],
            length: g.row_heights[r],
            horizontal: false,
            thickness: self.down_at(g, style, table.width, r, c),
        }
    }

    proof fn lines_across_are_drawn(
        &self,
        g: GridFacts,
        owner: BoxId,
        table: Rect,
        style: ComputedStyle,
        r: int,
        c: int,
        drawn: Seq<GridBorder>,
        b: GridBorder,
    )
        requires
            0 < g.rows.len(),
            0 <= r,
            0 <= c,
            i32::MIN < g.row_y[g.rows.len() - 1] + g.row_heights[g.rows.len() - 1] <= i32::MAX,
        ensures
            self.across_from(g, owner, table, style, r, c, drawn).contains(b) <==> drawn.contains(b)
                || exists|p: int, q: int|
                (p > r || (p == r && q >= c)) && 0 <= p <= g.rows.len() && 0 <= q < g.widths.len()
                    && #[trigger] self.across_at(g, style, table.width, p, q) > 0 && b
                    == self.piece_across(g, owner, table, style, p, q),
        decreases g.rows.len() + 1 - r, g.widths.len() - c,
    {
        if r > g.rows.len() {
        } else if c >= g.widths.len() {
            self.lines_across_are_drawn(g, owner, table, style, r + 1, 0, drawn, b);
        } else {
            let t = self.across_at(g, style, table.width, r, c);
            let piece = self.piece_across(g, owner, table, style, r, c);
            let next = if t > 0 {
                drawn.push(piece)
            } else {
                drawn
            };
            self.lines_across_are_drawn(g, owner, table, style, r, c + 1, next, b);
            one_line_more(drawn, piece, b);
            let all = self.across_from(g, owner, table, style, r, c, drawn);
            assert(all == self.across_from(g, owner, table, style, r, c + 1, next));
            if next.contains(b) && !drawn.contains(b) {
                assert(self.across_at(g, style, table.width, r, c) > 0);
            }
        }
    }

    proof fn lines_down_are_drawn(
        &self,
        g: GridFacts,
        owner: BoxId,
        table: Rect,
        style: ComputedStyle,
        r: int,
        c: int,
        drawn: Seq<GridBorder>,
        b: GridBorder,
    )
        requires
            0 <= r,
            0 <= c,
            i32::MIN < table.x + table.width <= i32::MAX,
        ensures
            self.down_from(g, owner, table, style, r, c, drawn).contains(b) <==> drawn.contains(b)
                || exists|p: int, q: int|
                (p > r || (p == r && q >= c)) && 0 <= p < g.rows.len() && 0 <= q <= g.widths.len()
                    && #[trigger] self.down_at(g, style, table.width, p, q) > 0 && b
                    == self.piece_down(g, owner, table, style, p, q),
        decreases g.rows.len() - r, g.widths.len() + 1 - c,
    {
        if r >= g.rows.len() {
        } else if c > g.widths.len() {
            self.lines_down_are_drawn(g, owner, table, style, r + 1, 0, drawn, b);
        } else {
            let t = self.down_at(g, style, table.width, r, c);
            let piece = self.piece_down(g, owner, table, style, r, c);
            let next = if t > 0 {
                drawn.push(piece)
            } else {
                drawn
            };
            self.lines_down_are_drawn(g, owner, table, style, r, c + 1, next, b);
            one_line_more(drawn, piece, b);
            let all = self.down_from(g, owner, table, style, r, c, drawn);
            assert(all == self.down_from(g, owner, table, style, r, c + 1, next));
            if next.contains(b) && !drawn.contains(b) {
                assert(self.down_at(g, style, table.width, r, c) > 0);
            }
        }
    }

    /// A table's lines are drawn where its tracks meet, each piece that has any
    /// thickness and no other, and drawing them changes nothing else.
    pub proof fn a_table_draws_its_lines(
        &self,
        cv: Canvas,
        g: GridFacts,
        owner: BoxId,
        table: Rect,
        style: ComputedStyle,
        b: GridBorder,
    )
        requires
            0 < g.rows.len(),
            i32::MIN < g.row_y[g.rows.len() - 1] + g.row_heights[g.rows.len() - 1] <= i32::MAX,
            i32::MIN < table.x + table.width <= i32::MAX,
        ensures
            ({
                let r = self.bordered(cv, g, owner, table, style);
                &&& r.boxes == cv.boxes
                &&& r.grid_items == cv.grid_items
                &&& r.borders.contains(b) <==> cv.borders.contains(b) || (exists|p: int, q: int|
                    0 <= p <= g.rows.len() && 0 <= q < g.widths.len() && #[trigger] self.across_at(
                        g,
                        style,
                        table.width,
                        p,
                        q,
                    ) > 0 && b == self.piece_across(g, owner, table, style, p, q)) || (exists|
                    p: int,
                    q: int,
                |
                    0 <= p < g.rows.len() && 0 <= q <= g.widths.len() && #[trigger] self.down_at(
                        g,
                        style,
                        table.width,
                        p,
                        q,
                    ) > 0 && b == self.piece_down(g, owner, table, style, p, q))
            }),
    {
        reveal(Ctx::bordered);
        let across = self.across_from(g, owner, table, style, 0, 0, cv.borders);
        self.lines_across_are_drawn(g, owner, table, style, 0, 0, cv.borders, b);
        self.lines_down_are_drawn(g, owner, table, style, 0, 0, across, b);
    }
}

proof fn one_line_more(drawn: Seq<GridBorder>, piece: GridBorder, b: GridBorder)
    ensures
        drawn.push(piece).contains(b) <==> drawn.contains(b) || b == piece,
{
    let t = drawn.push(piece);
    if drawn.contains(b) {
        let i = choose|i: int| 0 <= i < drawn.len() && drawn[i] == b;
        assert(t[i] == b);
    }
    if b == piece {
        assert(t[drawn.len() as int] == b);
    }
    if t.contains(b) {
        let i = choose|i: int| 0 <= i < t.len() && t[i] == b;
        if i < drawn.len() {
            assert(drawn[i] == b);
        }
    }
}

} // verus!
