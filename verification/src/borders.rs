//! Collapsed table borders: where two boxes share an edge, the thickest of the
//! borders that meet there is drawn, once.

use vstd::prelude::*;

use crate::boxes::{BoxId, GridBorder};
use crate::cells::{larger, minus, plus};
use crate::context::Ctx;
use crate::dimensions::Rect;
use crate::engine::{Canvas, Engine};
use crate::style::{ComputedStyle, Length};
use crate::table::{
    cells_in, no_owners, owner_of, owners_agree, placements_fit, rows_in, take_slots, RowView,
    TablePlacement, TableRow,
};
use crate::views::views;

verus! {

broadcast use crate::views::group_views;

#[derive(Clone, Copy, PartialEq, Eq, Debug, Structural)]
pub enum Side {
    Top,
    Right,
    Bottom,
    Left,
}

#[verifier::allow_in_spec]
pub fn border_side(style: &ComputedStyle, side: Side) -> (r: Length)
    returns
        (match side {
            Side::Top => style.border.top,
            Side::Right => style.border.right,
            Side::Bottom => style.border.bottom,
            Side::Left => style.border.left,
        }),
{
    match side {
        Side::Top => style.border.top,
        Side::Right => style.border.right,
        Side::Bottom => style.border.bottom,
        Side::Left => style.border.left,
    }
}

/// How thick a style's border is on one side.
#[verifier::allow_in_spec]
pub fn border_edge(style: &ComputedStyle, side: Side, basis: i32) -> (r: i32)
    returns
        (if border_side(style, side).is_auto() {
            0
        } else {
            larger(border_side(style, side).to_cells_h(basis), 0)
        }),
{
    if border_side(style, side).is_auto() {
        0
    } else {
        larger(border_side(style, side).to_cells_h(basis), 0)
    }
}

/// A settled table: who is where, and how large the tracks are.
pub struct TableGrid<'g> {
    pub placed: &'g Vec<TablePlacement>,
    pub rows: &'g Vec<TableRow>,
    pub widths: &'g Vec<i32>,
    pub row_y: &'g Vec<i32>,
    pub row_heights: &'g Vec<i32>,
}

/// What a settled table is, as plain values.
pub struct GridFacts {
    pub placed: Seq<TablePlacement>,
    pub rows: Seq<RowView>,
    pub widths: Seq<i32>,
    pub row_y: Seq<i32>,
    pub row_heights: Seq<i32>,
}

impl<'g> TableGrid<'g> {
    pub open spec fn facts(&self) -> GridFacts {
        GridFacts {
            placed: self.placed@,
            rows: views(self.rows@),
            widths: self.widths@,
            row_y: self.row_y@,
            row_heights: self.row_heights@,
        }
    }
}

impl GridFacts {
    pub open spec fn ok(self, ctx: Ctx) -> bool {
        &&& 0 < self.rows.len()
        &&& self.row_y.len() == self.rows.len()
        &&& self.row_heights.len() == self.rows.len()
        &&& rows_in(ctx.dom, self.rows)
        &&& cells_in(ctx.dom, self.placed)
        &&& placements_fit(self.placed, self.rows.len() as int, self.widths.len() as int)
    }

    /// Who has a slot, or nobody outside the grid.
    pub open spec fn owner(self, r: int, c: int) -> Option<usize> {
        if 0 <= r < self.rows.len() && 0 <= c < self.widths.len() {
            owner_of(self.placed, r, c)
        } else {
            None
        }
    }

    /// The left edge of a column.
    pub open spec fn x_at(self, x: i32, c: int) -> i32
        decreases c,
    {
        if c <= 0 {
            x
        } else {
            plus(self.x_at(x, c - 1), self.widths[c - 1])
        }
    }
}

impl<'a> Ctx<'a> {
    /// The border that the owner of a slot has on one side.
    pub open spec fn owner_edge(
        &self,
        placed: Seq<TablePlacement>,
        owner: Option<usize>,
        side: Side,
        basis: i32,
    ) -> i32 {
        match owner {
            Some(i) => border_edge(&self.style(placed[i as int].cell), side, basis),
            None => 0,
        }
    }

    /// The thickest border along the top of row `r` at column `c`; past the
    /// last row, along the table's bottom.
    pub open spec fn across_at(&self, g: GridFacts, style: ComputedStyle, basis: i32, r: int, c: int) -> i32 {
        let n = g.rows.len();
        let outer = larger(
            if r == 0 {
                border_edge(&style, Side::Top, basis)
            } else {
                0
            },
            if r == n {
                border_edge(&style, Side::Bottom, basis)
            } else {
                0
            },
        );
        let of_rows = larger(
            if r > 0 {
                border_edge(&self.style(g.rows[r - 1].row), Side::Bottom, basis)
            } else {
                0
            },
            if r < n {
                border_edge(&self.style(g.rows[r].row), Side::Top, basis)
            } else {
                0
            },
        );
        let above = g.owner(r - 1, c);
        let below = g.owner(r, c);
        let of_cells = if above == below {
            0
        } else {
            larger(
                self.owner_edge(g.placed, above, Side::Bottom, basis),
                self.owner_edge(g.placed, below, Side::Top, basis),
            )
        };
        larger(larger(outer, of_rows), of_cells)
    }

    /// The thickest border along the left of column `c` at row `r`; past the
    /// last column, along the table's right.
    pub open spec fn down_at(&self, g: GridFacts, style: ComputedStyle, basis: i32, r: int, c: int) -> i32 {
        let n = g.widths.len();
        let outer = larger(
            if c == 0 {
                border_edge(&style, Side::Left, basis)
            } else {
                0
            },
            if c == n {
                border_edge(&style, Side::Right, basis)
            } else {
                0
            },
        );
        let left = g.owner(r, c - 1);
        let right = g.owner(r, c);
        let of_cells = if left == right {
            0
        } else {
            larger(
                self.owner_edge(g.placed, left, Side::Right, basis),
                self.owner_edge(g.placed, right, Side::Left, basis),
            )
        };
        larger(outer, of_cells)
    }

    /// Horizontal borders from row line `r`, column `c` on.
    pub open spec fn across_from(
        &self,
        g: GridFacts,
        owner: BoxId,
        table: Rect,
        style: ComputedStyle,
        r: int,
        c: int,
        drawn: Seq<GridBorder>,
    ) -> Seq<GridBorder>
        decreases g.rows.len() + 1 - r, g.widths.len() - c,
    {
        if r > g.rows.len() {
            drawn
        } else if c >= g.widths.len() {
            self.across_from(g, owner, table, style, r + 1, 0, drawn)
        } else {
            let thickness = self.across_at(g, style, table.width, r, c);
            let y = if r == g.rows.len() {
                minus(plus(g.row_y[r - 1], g.row_heights[r - 1]), 1)
            } else {
                g.row_y[r]
            };
            self.across_from(
                g,
                owner,
                table,
                style,
                r,
                c + 1,
                if thickness > 0 {
                    drawn.push(
                        GridBorder {
                            owner,
                            x: g.x_at(table.x, c),
                            y,
                            length: g.widths[c],
                            horizontal: true,
                            thickness,
                        },
                    )
                } else {
                    drawn
                },
            )
        }
    }

    /// Vertical borders from row `r`, column line `c` on.
    pub open spec fn down_from(
        &self,
        g: GridFacts,
        owner: BoxId,
        table: Rect,
        style: ComputedStyle,
        r: int,
        c: int,
        drawn: Seq<GridBorder>,
    ) -> Seq<GridBorder>
        decreases g.rows.len() - r, g.widths.len() + 1 - c,
    {
        if r >= g.rows.len() {
            drawn
        } else if c > g.widths.len() {
            self.down_from(g, owner, table, style, r + 1, 0, drawn)
        } else {
            let thickness = self.down_at(g, style, table.width, r, c);
            let x = if c == g.widths.len() {
                minus(plus(table.x, table.width), 1)
            } else {
                g.x_at(table.x, c)
            };
            self.down_from(
                g,
                owner,
                table,
                style,
                r,
                c + 1,
                if thickness > 0 {
                    drawn.push(
                        GridBorder {
                            owner,
                            x,
                            y: g.row_y[r],
                            length: g.row_heights[r],
                            horizontal: false,
                            thickness,
                        },
                    )
                } else {
                    drawn
                },
            )
        }
    }

    /// A canvas with a settled table's borders drawn.
    #[verifier::opaque]
    pub open spec fn bordered(
        &self,
        cv: Canvas,
        g: GridFacts,
        owner: BoxId,
        table: Rect,
        style: ComputedStyle,
    ) -> Canvas {
        let across = self.across_from(g, owner, table, style, 0, 0, cv.borders);
        Canvas { borders: self.down_from(g, owner, table, style, 0, 0, across), ..cv }
    }

    fn edge_of(
        &self,
        placed: &Vec<TablePlacement>,
        owner: Option<usize>,
        side: Side,
        basis: i32,
    ) -> (r: i32)
        requires
            self.wf(),
            cells_in(self.dom, placed@),
            owner matches Some(i) ==> i < placed@.len(),
        ensures
            r == self.owner_edge(placed@, owner, side, basis),
    {
        match owner {
            Some(i) => {
                proof {
                    assert(self.dom.has(placed@[i as int].cell));
                }
                border_edge(&self.styles.get(placed[i].cell), side, basis)
            },
            None => 0,
        }
    }

    fn across(
        &self,
        grid: &TableGrid,
        owners: &Vec<Vec<Option<usize>>>,
        style: ComputedStyle,
        basis: i32,
        r: usize,
        c: usize,
    ) -> (t: i32)
        requires
            self.wf(),
            grid.facts().ok(*self),
            owners_agree(
                owners@,
                grid.placed@,
                grid.rows@.len() as int,
                grid.widths@.len() as int,
            ),
            r <= grid.rows@.len(),
            c < grid.widths@.len(),
        ensures
            t == self.across_at(grid.facts(), style, basis, r as int, c as int),
    {
        let n: usize = grid.rows.len();
        let count: usize = grid.placed.len();
        let ghost g = grid.facts();
        let top: i32 = if r == 0 {
            border_edge(&style, Side::Top, basis)
        } else {
            0
        };
        let bottom: i32 = if r == n {
            border_edge(&style, Side::Bottom, basis)
        } else {
            0
        };
        let row_above: i32 = if r > 0 {
            proof {
                assert(crate::table::row_in(self.dom, g.rows[r - 1]));
            }
            border_edge(&self.styles.get(grid.rows[r - 1].row), Side::Bottom, basis)
        } else {
            0
        };
        let row_below: i32 = if r < n {
            proof {
                assert(crate::table::row_in(self.dom, g.rows[r as int]));
            }
            border_edge(&self.styles.get(grid.rows[r].row), Side::Top, basis)
        } else {
            0
        };
        let above: Option<usize> = if r > 0 {
            owners[r - 1][c]
        } else {
            None
        };
        let below: Option<usize> = if r < n {
            owners[r][c]
        } else {
            None
        };
        proof {
            if r > 0 {
                assert(owners@[r - 1]@[c as int] == owner_of(g.placed, r - 1, c as int));
                owners_exist(g.placed, count as int, r - 1, c as int);
            }
            if r < n {
                assert(owners@[r as int]@[c as int] == owner_of(g.placed, r as int, c as int));
                owners_exist(g.placed, count as int, r as int, c as int);
            }
        }
        let of_cells: i32 = if same_owner(above, below) {
            0
        } else {
            larger(
                self.edge_of(grid.placed, above, Side::Bottom, basis),
                self.edge_of(grid.placed, below, Side::Top, basis),
            )
        };
        larger(larger(larger(top, bottom), larger(row_above, row_below)), of_cells)
    }

    fn down(
        &self,
        grid: &TableGrid,
        owners: &Vec<Vec<Option<usize>>>,
        style: ComputedStyle,
        basis: i32,
        r: usize,
        c: usize,
    ) -> (t: i32)
        requires
            self.wf(),
            grid.facts().ok(*self),
            owners_agree(
                owners@,
                grid.placed@,
                grid.rows@.len() as int,
                grid.widths@.len() as int,
            ),
            r < grid.rows@.len(),
            c <= grid.widths@.len(),
        ensures
            t == self.down_at(grid.facts(), style, basis, r as int, c as int),
    {
        let n: usize = grid.widths.len();
        let count: usize = grid.placed.len();
        let ghost g = grid.facts();
        let at_left: i32 = if c == 0 {
            border_edge(&style, Side::Left, basis)
        } else {
            0
        };
        let at_right: i32 = if c == n {
            border_edge(&style, Side::Right, basis)
        } else {
            0
        };
        let left: Option<usize> = if c > 0 {
            owners[r][c - 1]
        } else {
            None
        };
        let right: Option<usize> = if c < n {
            owners[r][c]
        } else {
            None
        };
        proof {
            if c > 0 {
                assert(owners@[r as int]@[c - 1] == owner_of(g.placed, r as int, c - 1));
                owners_exist(g.placed, count as int, r as int, c - 1);
            }
            if c < n {
                assert(owners@[r as int]@[c as int] == owner_of(g.placed, r as int, c as int));
                owners_exist(g.placed, count as int, r as int, c as int);
            }
        }
        let of_cells: i32 = if same_owner(left, right) {
            0
        } else {
            larger(
                self.edge_of(grid.placed, left, Side::Right, basis),
                self.edge_of(grid.placed, right, Side::Left, basis),
            )
        };
        larger(larger(at_left, at_right), of_cells)
    }
}

fn same_owner(a: Option<usize>, b: Option<usize>) -> (r: bool)
    ensures
        r == (a == b),
{
    match (a, b) {
        (Some(i), Some(j)) => i == j,
        (None, None) => true,
        _ => false,
    }
}

proof fn owners_exist(placed: Seq<TablePlacement>, n: int, r: int, c: int)
    requires
        n <= placed.len() <= usize::MAX,
    ensures
        crate::table::owner_at(placed, n, r, c) matches Some(i) ==> i < n,
    decreases n,
{
    if n > 0 {
        owners_exist(placed, n - 1, r, c);
    }
}

/// Who has each slot of a settled table.
fn owners_of(grid: &TableGrid, Ghost(ctx): Ghost<Ctx>) -> (r: Vec<Vec<Option<usize>>>)
    requires
        grid.facts().ok(ctx),
    ensures
        owners_agree(r@, grid.placed@, grid.rows@.len() as int, grid.widths@.len() as int),
{
    let rows: usize = grid.rows.len();
    let cols: usize = grid.widths.len();
    let mut owners: Vec<Vec<Option<usize>>> = no_owners(rows, cols);
    let mut k: usize = 0;
    proof {
        assert(grid.placed@.take(0) =~= Seq::<TablePlacement>::empty());
    }
    while k < grid.placed.len()
        invariant
            grid.facts().ok(ctx),
            rows == grid.rows@.len(),
            cols == grid.widths@.len(),
            k <= grid.placed@.len(),
            owners@.len() == rows,
            owners_agree(owners@, grid.placed@.take(k as int), rows as int, cols as int),
        decreases grid.placed@.len() - k,
    {
        let p: TablePlacement = grid.placed[k];
        let ghost so_far = grid.placed@.take(k as int);
        proof {
            assert(crate::table::placement_fits(grid.placed@[k as int], rows as int, cols as int));
            assert(so_far.push(p) =~= grid.placed@.take(k + 1));
        }
        take_slots(&mut owners, p, k, cols, Ghost(so_far));
        k += 1;
    }
    proof {
        assert(grid.placed@.take(k as int) =~= grid.placed@);
    }
    owners
}

impl<'a> Engine<'a> {
    /// Draw a settled table's borders. See [`Ctx::bordered`].
    pub fn resolve_table_borders(
        &mut self,
        grid: &TableGrid,
        owner: BoxId,
        table: Rect,
        style: ComputedStyle,
    )
        requires
            old(self).ok(),
            grid.facts().ok(old(self).ctx),
        ensures
            final(self).follows(*old(self)),
            final(self).boxes@.len() == old(self).boxes@.len(),
            final(self).canvas() == old(self).ctx.bordered(
                old(self).canvas(),
                grid.facts(),
                owner,
                table,
                style,
            ),
    {
        proof {
            reveal(Ctx::bordered);
        }
        let ctx: Ctx<'a> = self.ctx;
        let ghost g = grid.facts();
        let rows: usize = grid.rows.len();
        let cols: usize = grid.widths.len();
        let owners: Vec<Vec<Option<usize>>> = owners_of(grid, Ghost(ctx));
        let mut xs: Vec<i32> = Vec::new();
        let mut x: i32 = table.x;
        let mut c: usize = 0;
        while c < cols
            invariant
                g == grid.facts(),
                cols == grid.widths@.len(),
                c <= cols,
                xs@.len() == c,
                x == g.x_at(table.x, c as int),
                forall|j: int| 0 <= j < c ==> #[trigger] xs@[j] == g.x_at(table.x, j),
            decreases cols - c,
        {
            xs.push(x);
            x = plus(x, grid.widths[c]);
            c += 1;
        }
        let ghost across = ctx.across_from(g, owner, table, style, 0, 0, self.grid_borders@);
        let mut r: usize = 0;
        while r <= rows
            invariant_except_break
                across == ctx.across_from(
                    g,
                    owner,
                    table,
                    style,
                    r as int,
                    0,
                    self.grid_borders@,
                ),
            invariant
                g == grid.facts(),
                g.ok(ctx),
                ctx.wf(),
                rows == grid.rows@.len(),
                cols == grid.widths@.len(),
                xs@.len() == cols,
                forall|j: int| 0 <= j < cols ==> #[trigger] xs@[j] == g.x_at(table.x, j),
                owners_agree(owners@, grid.placed@, rows as int, cols as int),
                r <= rows + 1,
                self.follows(*old(self)),
                self.boxes == old(self).boxes,
                self.grid_item_depth == old(self).grid_item_depth,
            ensures
                self.grid_borders@ == across,
            decreases rows + 1 - r,
        {
            let mut c: usize = 0;
            while c < cols
                invariant
                    g == grid.facts(),
                    g.ok(ctx),
                    ctx.wf(),
                    rows == grid.rows@.len(),
                    cols == grid.widths@.len(),
                    xs@.len() == cols,
                    forall|j: int| 0 <= j < cols ==> #[trigger] xs@[j] == g.x_at(table.x, j),
                    owners_agree(owners@, grid.placed@, rows as int, cols as int),
                    r <= rows,
                    c <= cols,
                    self.follows(*old(self)),
                    self.boxes == old(self).boxes,
                    self.grid_item_depth == old(self).grid_item_depth,
                    across == ctx.across_from(
                        g,
                        owner,
                        table,
                        style,
                        r as int,
                        c as int,
                        self.grid_borders@,
                    ),
                decreases cols - c,
            {
                let thickness: i32 = ctx.across(grid, &owners, style, table.width, r, c);
                if thickness > 0 {
                    let y: i32 = if r == rows {
                        minus(plus(grid.row_y[r - 1], grid.row_heights[r - 1]), 1)
                    } else {
                        grid.row_y[r]
                    };
                    self.grid_borders.push(
                        GridBorder {
                            owner,
                            x: xs[c],
                            y,
                            length: grid.widths[c],
                            horizontal: true,
                            thickness,
                        },
                    );
                }
                c += 1;
            }
            if r == rows {
                proof {
                    let drawn = self.grid_borders@;
                    assert(ctx.across_from(g, owner, table, style, rows + 1, 0, drawn) == drawn);
                }
                break ;
            }
            r += 1;
        }
        let ghost down = ctx.down_from(g, owner, table, style, 0, 0, across);
        let mut r: usize = 0;
        while r < rows
            invariant
                g == grid.facts(),
                g.ok(ctx),
                ctx.wf(),
                rows == grid.rows@.len(),
                cols == grid.widths@.len(),
                xs@.len() == cols,
                forall|j: int| 0 <= j < cols ==> #[trigger] xs@[j] == g.x_at(table.x, j),
                owners_agree(owners@, grid.placed@, rows as int, cols as int),
                r <= rows,
                self.follows(*old(self)),
                self.boxes == old(self).boxes,
                self.grid_item_depth == old(self).grid_item_depth,
                down == ctx.down_from(g, owner, table, style, r as int, 0, self.grid_borders@),
            decreases rows - r,
        {
            let mut c: usize = 0;
            let mut more: bool = true;
            while more
                invariant
                    g == grid.facts(),
                    g.ok(ctx),
                    ctx.wf(),
                    rows == grid.rows@.len(),
                    cols == grid.widths@.len(),
                    xs@.len() == cols,
                    forall|j: int| 0 <= j < cols ==> #[trigger] xs@[j] == g.x_at(table.x, j),
                    owners_agree(owners@, grid.placed@, rows as int, cols as int),
                    r < rows,
                    c <= cols,
                    self.follows(*old(self)),
                    self.boxes == old(self).boxes,
                    self.grid_item_depth == old(self).grid_item_depth,
                    down == ctx.down_from(
                        g,
                        owner,
                        table,
                        style,
                        r as int,
                        if more {
                            c as int
                        } else {
                            cols + 1
                        },
                        self.grid_borders@,
                    ),
                decreases cols - c + (if more {
                    1int
                } else {
                    0
                }),
            {
                let thickness: i32 = ctx.down(grid, &owners, style, table.width, r, c);
                if thickness > 0 {
                    let x: i32 = if c == cols {
                        minus(plus(table.x, table.width), 1)
                    } else {
                        xs[c]
                    };
                    self.grid_borders.push(
                        GridBorder {
                            owner,
                            x,
                            y: grid.row_y[r],
                            length: grid.row_heights[r],
                            horizontal: false,
                            thickness,
                        },
                    );
                }
                if c == cols {
                    more = false;
                } else {
                    c += 1;
                }
            }
            r += 1;
        }
    }
}

} // verus!
