//! Automatic table layout: cells placed in a bounded grid, each laid out once
//! at its final width, then moved and enlarged as its rows settle.

use vstd::prelude::*;

use crate::blocks::{content_at, nodes_in, BlockHeight, BoxArgs, Recipe};
use crate::borders::{GridFacts, TableGrid};
use crate::boxes::{in_range, BoxId, BoxKind, LayoutBox};
use crate::boxmodel::{inset_h, is_out_of_flow, resolve_block_dims, Axis};
use crate::cells::{larger, minus, plus, smaller, total, total_is_not_negative, total_of};
use crate::columns::{
    columns_fitted, columns_raised, column_sum, fit_table_columns, fitted_columns_keep_their_minima, raise_row_sum, raise_track_sum,
    rows_raised, span_asked, sum_columns, table_span, TableColumn, TABLE_TRACKS,
};
use crate::context::Ctx;
use crate::dimensions::{Dimensions, EdgeSizes, Rect};
use crate::dom::{NodeData, NodeId};
use crate::engine::{new_box, plain_box, Canvas, Engine};
use crate::style::ComputedStyle;
use crate::text::{blank, is_blank, same};
use crate::views::views;

verus! {

broadcast use crate::views::group_views;

/// A row of a table with the cells that take part in the grid.
pub struct TableRow {
    pub row: NodeId,
    pub cells: Vec<NodeId>,
}

/// What a row is, as plain values.
pub struct RowView {
    pub row: NodeId,
    pub cells: Seq<NodeId>,
}

impl View for TableRow {
    type V = RowView;

    open spec fn view(&self) -> RowView {
        RowView { row: self.row, cells: self.cells@ }
    }
}

/// The rectangle of tracks that a cell takes.
#[derive(Clone, Copy, PartialEq, Eq, Debug)]
pub struct TablePlacement {
    pub cell: NodeId,
    pub row: usize,
    pub col: usize,
    pub rowspan: usize,
    pub colspan: usize,
}

/// A placement takes the slot at row `r`, column `c`.
pub open spec fn takes(p: TablePlacement, r: int, c: int) -> bool {
    p.row <= r < p.row + p.rowspan && p.col <= c < p.col + p.colspan
}

/// Which of the first `n` placements has a slot: the last that takes it.
pub open spec fn owner_at(placed: Seq<TablePlacement>, n: int, r: int, c: int) -> Option<usize>
    decreases n,
{
    if n <= 0 {
        None
    } else if takes(placed[n - 1], r, c) {
        Some((n - 1) as usize)
    } else {
        owner_at(placed, n - 1, r, c)
    }
}

/// Who has a slot of the grid.
pub open spec fn owner_of(placed: Seq<TablePlacement>, r: int, c: int) -> Option<usize> {
    owner_at(placed, placed.len() as int, r, c)
}

/// The first free column of a row from `cursor` on, or the track limit.
pub open spec fn free_from(placed: Seq<TablePlacement>, row: int, cursor: int) -> int
    decreases TABLE_TRACKS - cursor,
{
    if cursor < TABLE_TRACKS && owner_of(placed, row, cursor) is Some {
        free_from(placed, row, cursor + 1)
    } else {
        cursor
    }
}

/// A placement stays inside a grid of that many rows and columns.
pub open spec fn placement_fits(p: TablePlacement, rows: int, columns: int) -> bool {
    &&& 0 < p.rowspan
    &&& 0 < p.colspan
    &&& p.row + p.rowspan <= rows
    &&& p.col + p.colspan <= columns
}

pub open spec fn placements_fit(placed: Seq<TablePlacement>, rows: int, columns: int) -> bool {
    forall|k: int| 0 <= k < placed.len() ==> placement_fits(#[trigger] placed[k], rows, columns)
}

proof fn owner_ignores_later(placed: Seq<TablePlacement>, p: TablePlacement, n: int, r: int, c: int)
    requires
        n <= placed.len(),
    ensures
        owner_at(placed.push(p), n, r, c) == owner_at(placed, n, r, c),
    decreases n,
{
    if n > 0 {
        assert(placed.push(p)[n - 1] == placed[n - 1]);
        owner_ignores_later(placed, p, n - 1, r, c);
    }
}

/// A matrix holds who has each slot.
pub open spec fn owners_agree(
    owner: Seq<Vec<Option<usize>>>,
    placed: Seq<TablePlacement>,
    rows: int,
    columns: int,
) -> bool {
    &&& owner.len() == rows
    &&& forall|r: int| 0 <= r < rows ==> (#[trigger] owner[r])@.len() == columns
    &&& forall|r: int, c: int|
        0 <= r < rows && 0 <= c < columns ==> (#[trigger] owner[r]@[c]) == owner_of(placed, r, c)
}

/// Nobody has any slot yet.
pub fn no_owners(rows: usize, columns: usize) -> (r: Vec<Vec<Option<usize>>>)
    ensures
        owners_agree(r@, Seq::empty(), rows as int, columns as int),
{
    let mut owner: Vec<Vec<Option<usize>>> = Vec::new();
    while owner.len() < rows
        invariant
            owner@.len() <= rows,
            forall|i: int| 0 <= i < owner@.len() ==> (#[trigger] owner@[i])@.len() == columns,
            forall|i: int, c: int|
                0 <= i < owner@.len() && 0 <= c < columns ==> (#[trigger] owner@[i]@[c]) is None,
        decreases rows - owner@.len(),
    {
        let mut free: Vec<Option<usize>> = Vec::new();
        while free.len() < columns
            invariant
                free@.len() <= columns,
                forall|c: int| 0 <= c < free@.len() ==> (#[trigger] free@[c]) is None,
            decreases columns - free@.len(),
        {
            free.push(None);
        }
        owner.push(free);
    }
    owner
}

/// Give a placement, the next one, its slots.
pub fn take_slots(
    owner: &mut Vec<Vec<Option<usize>>>,
    p: TablePlacement,
    index: usize,
    columns: usize,
    Ghost(placed): Ghost<Seq<TablePlacement>>,
)
    requires
        owners_agree(old(owner)@, placed, old(owner)@.len() as int, columns as int),
        placement_fits(p, old(owner)@.len() as int, columns as int),
        index == placed.len(),
    ensures
        final(owner)@.len() == old(owner)@.len(),
        owners_agree(final(owner)@, placed.push(p), old(owner)@.len() as int, columns as int),
{
    let ghost start = owner@;
    let rows: usize = owner.len();
    let last: usize = p.row + p.rowspan;
    let end: usize = p.col + p.colspan;
    let mut r: usize = p.row;
    while r < last
        invariant
            rows == owner@.len(),
            rows == start.len(),
            last == p.row + p.rowspan,
            end == p.col + p.colspan,
            p.row <= r <= last <= rows,
            end <= columns,
            forall|i: int| 0 <= i < rows ==> (#[trigger] owner@[i])@.len() == columns,
            forall|i: int| 0 <= i < rows ==> (#[trigger] start[i])@.len() == columns,
            forall|i: int, c: int|
                0 <= i < rows && 0 <= c < columns ==> (#[trigger] owner@[i]@[c]) == (if p.row <= i
                    < r && p.col <= c < end {
                    Some(index)
                } else {
                    start[i]@[c]
                }),
        decreases last - r,
    {
        let mut c: usize = p.col;
        while c < end
            invariant
                rows == owner@.len(),
                rows == start.len(),
                p.row <= r < rows,
                p.col <= c <= end <= columns,
                forall|i: int| 0 <= i < rows ==> (#[trigger] owner@[i])@.len() == columns,
                forall|i: int| 0 <= i < rows ==> (#[trigger] start[i])@.len() == columns,
                forall|i: int, k: int|
                    0 <= i < rows && 0 <= k < columns ==> (#[trigger] owner@[i]@[k]) == (if (p.row
                        <= i < r && p.col <= k < end) || (i == r && p.col <= k < c) {
                        Some(index)
                    } else {
                        start[i]@[k]
                    }),
            decreases end - c,
        {
            let ghost before = owner@;
            owner[r].set(c, Some(index));
            proof {
                assert forall|i: int, k: int| 0 <= i < rows && 0 <= k < columns implies (
                #[trigger] owner@[i]@[k]) == (if (p.row <= i < r && p.col <= k < end) || (i == r
                    && p.col <= k < c + 1) {
                    Some(index)
                } else {
                    start[i]@[k]
                }) by {
                    let was = before[i]@[k];
                }
            }
            c += 1;
        }
        r += 1;
    }
    proof {
        let next = placed.push(p);
        assert forall|i: int, c: int| 0 <= i < rows && 0 <= c < columns implies (
        #[trigger] owner@[i]@[c]) == owner_of(next, i, c) by {
            owner_ignores_later(placed, p, placed.len() as int, i, c);
            assert(start[i]@[c] == owner_of(placed, i, c));
        }
    }
}

impl<'a> Ctx<'a> {
    /// A table cell element.
    pub open spec fn is_cell(&self, id: NodeId) -> bool {
        self.dom.is_element(id) && (self.dom.tag_of(id) == "td"@ || self.dom.tag_of(id) == "th"@)
    }

    fn cell_tag(&self, id: NodeId) -> (r: bool)
        requires
            self.wf(),
            self.dom.has(id),
        ensures
            r == self.is_cell(id),
    {
        match &self.dom.node(id).data {
            NodeData::Element { tag, .. } => same(tag.as_str(), "td") || same(tag.as_str(), "th"),
            _ => false,
        }
    }

    /// The cells among the children from the `k`th on.
    pub open spec fn cells_from(&self, kids: Seq<NodeId>, k: int) -> Seq<NodeId>
        decreases kids.len() - k,
    {
        if k >= kids.len() {
            Seq::empty()
        } else {
            let rest = self.cells_from(kids, k + 1);
            let c = kids[k];
            if !self.hides(c) && !is_out_of_flow(self.style(c).position) && self.is_cell(c) {
                seq![c] + rest
            } else {
                rest
            }
        }
    }

    /// The rows below an element, through harmless grouping elements, but
    /// never inside a nested table or a cell.
    pub open spec fn rows_below(&self, id: NodeId, k: int) -> Seq<RowView>
        decreases self.dom.rank_of(id), self.dom.kids(id).len() - k,
        when self.wf() && self.dom.has(id) && 0 <= k
    {
        if k >= self.dom.kids(id).len() {
            Seq::empty()
        } else {
            let c = self.dom.kids(id)[k];
            let tag = self.dom.tag_of(c);
            let here = if !self.dom.is_element(c) || self.hides(c) || is_out_of_flow(
                self.style(c).position,
            ) || tag == "table"@ || self.is_cell(c) {
                Seq::empty()
            } else if tag == "tr"@ {
                seq![RowView { row: c, cells: self.cells_from(self.dom.kids(c), 0) }]
            } else {
                self.rows_below(c, 0)
            };
            here + self.rows_below(id, k + 1)
        }
    }

    pub open spec fn rows_of(&self, table: NodeId) -> Seq<RowView> {
        self.rows_below(table, 0)
    }

    /// A direct child that is no part of the row structure and still shows.
    pub open spec fn is_loose(&self, c: NodeId) -> bool {
        if self.dom.is_text(c) {
            !blank(self.dom.text_of(c))
        } else {
            self.dom.is_element(c) && !self.hides(c) && (is_out_of_flow(self.style(c).position) || {
                let tag = self.dom.tag_of(c);
                !(tag == "tr"@ || tag == "thead"@ || tag == "tbody"@ || tag == "tfoot"@)
            })
        }
    }

    /// The loose children from the `k`th on.
    pub open spec fn loose_from(&self, kids: Seq<NodeId>, k: int) -> Seq<NodeId>
        decreases kids.len() - k,
    {
        if k >= kids.len() {
            Seq::empty()
        } else if self.is_loose(kids[k]) {
            seq![kids[k]] + self.loose_from(kids, k + 1)
        } else {
            self.loose_from(kids, k + 1)
        }
    }

    /// The cells of one row from the `i`th on, placed at the first columns
    /// free. Past the track limit none are.
    pub open spec fn cells_placed(
        &self,
        rows: int,
        row: int,
        cells: Seq<NodeId>,
        i: int,
        cursor: int,
        placed: Seq<TablePlacement>,
    ) -> Seq<TablePlacement>
        decreases cells.len() - i,
    {
        if i >= cells.len() {
            placed
        } else {
            let col = free_from(placed, row, cursor);
            if col >= TABLE_TRACKS {
                placed
            } else {
                let colspan = span_asked(
                    self.dom.attr_of(cells[i], "colspan"@),
                    TABLE_TRACKS - col,
                );
                let rowspan = span_asked(self.dom.attr_of(cells[i], "rowspan"@), rows - row);
                self.cells_placed(
                    rows,
                    row,
                    cells,
                    i + 1,
                    col + colspan,
                    placed.push(
                        TablePlacement {
                            cell: cells[i],
                            row: row as usize,
                            col: col as usize,
                            rowspan: rowspan as usize,
                            colspan: colspan as usize,
                        },
                    ),
                )
            }
        }
    }

    pub open spec fn rows_placed(&self, rows: Seq<RowView>, r: int, placed: Seq<TablePlacement>) -> Seq<
        TablePlacement,
    >
        decreases rows.len() - r,
    {
        if r >= rows.len() {
            placed
        } else {
            self.rows_placed(
                rows,
                r + 1,
                self.cells_placed(rows.len() as int, r, rows[r].cells, 0, 0, placed),
            )
        }
    }

    /// The rectangles of a table's cells.
    pub open spec fn placements_of(&self, rows: Seq<RowView>) -> Seq<TablePlacement> {
        self.rows_placed(rows, 0, Seq::empty())
    }
}

/// Rows whose nodes exist.
pub open spec fn row_in(dom: &crate::dom::Dom, row: RowView) -> bool {
    dom.has(row.row) && nodes_in(dom, row.cells)
}

pub open spec fn rows_in(dom: &crate::dom::Dom, rows: Seq<RowView>) -> bool {
    forall|k: int| 0 <= k < rows.len() ==> row_in(dom, #[trigger] rows[k])
}

pub open spec fn cells_in(dom: &crate::dom::Dom, placed: Seq<TablePlacement>) -> bool {
    forall|k: int| 0 <= k < placed.len() ==> dom.has((#[trigger] placed[k]).cell)
}

impl<'a> Ctx<'a> {
    fn row_cells(&self, row: NodeId) -> (r: Vec<NodeId>)
        requires
            self.wf(),
            self.dom.has(row),
        ensures
            r@ == self.cells_from(self.dom.kids(row), 0),
            nodes_in(self.dom, r@),
    {
        let kids: &Vec<NodeId> = self.dom.children(row);
        let mut out: Vec<NodeId> = Vec::new();
        let ghost goal = self.cells_from(kids@, 0);
        let mut k: usize = 0;
        while k < kids.len()
            invariant
                self.wf(),
                self.dom.has(row),
                kids@ == self.dom.kids(row),
                k <= kids@.len(),
                nodes_in(self.dom, out@),
                goal =~= out@ + self.cells_from(kids@, k as int),
            decreases kids@.len() - k,
        {
            let c: NodeId = kids[k];
            proof {
                assert(self.dom.nodes@[row.0 as int].children@[k as int] == c);
            }
            if !self.is_hidden(c) && !is_out_of_flow(self.styles.get(c).position)
                && self.cell_tag(c) {
                out.push(c);
            }
            k += 1;
        }
        out
    }

    fn push_rows(&self, id: NodeId, out: &mut Vec<TableRow>)
        requires
            self.wf(),
            self.dom.has(id),
            rows_in(self.dom, views(old(out)@)),
        ensures
            views(final(out)@) == views(old(out)@) + self.rows_below(id, 0),
            rows_in(self.dom, views(final(out)@)),
        decreases self.dom.rank_of(id),
    {
        let kids: &Vec<NodeId> = self.dom.children(id);
        let ghost goal = views(out@) + self.rows_below(id, 0);
        let mut k: usize = 0;
        while k < kids.len()
            invariant
                self.wf(),
                self.dom.has(id),
                kids@ == self.dom.kids(id),
                k <= kids@.len(),
                rows_in(self.dom, views(out@)),
                goal =~= views(out@) + self.rows_below(id, k as int),
            decreases kids@.len() - k,
        {
            let c: NodeId = kids[k];
            proof {
                assert(self.dom.nodes@[id.0 as int].children@[k as int] == c);
            }
            let ghost before = views(out@);
            match &self.dom.node(c).data {
                NodeData::Element { tag, .. } => {
                    let tag: &str = tag.as_str();
                    if self.is_hidden(c) || is_out_of_flow(self.styles.get(c).position) || same(
                        tag,
                        "table",
                    ) || self.cell_tag(c) {
                    } else if same(tag, "tr") {
                        let row: TableRow = TableRow { row: c, cells: self.row_cells(c) };
                        out.push(row);
                        proof {
                            assert(views(out@) =~= before.push(row@));
                            assert(row_in(self.dom, row@));
                            assert(before.push(row@) =~= before + seq![row@]);
                        }
                    } else {
                        self.push_rows(c, out);
                    }
                },
                _ => {},
            }
            k += 1;
        }
        proof {
            assert(self.rows_below(id, k as int) =~= Seq::<RowView>::empty());
            assert(views(out@) =~= goal);
        }
    }

    fn loose_children(&self, table: NodeId) -> (r: Vec<NodeId>)
        requires
            self.wf(),
            self.dom.has(table),
        ensures
            r@ == self.loose_from(self.dom.kids(table), 0),
            nodes_in(self.dom, r@),
    {
        let kids: &Vec<NodeId> = self.dom.children(table);
        let mut out: Vec<NodeId> = Vec::new();
        let ghost goal = self.loose_from(kids@, 0);
        let mut k: usize = 0;
        while k < kids.len()
            invariant
                self.wf(),
                self.dom.has(table),
                kids@ == self.dom.kids(table),
                k <= kids@.len(),
                nodes_in(self.dom, out@),
                goal =~= out@ + self.loose_from(kids@, k as int),
            decreases kids@.len() - k,
        {
            let c: NodeId = kids[k];
            proof {
                assert(self.dom.nodes@[table.0 as int].children@[k as int] == c);
            }
            let loose: bool = match &self.dom.node(c).data {
                NodeData::Text(text) => !is_blank(text.as_str()),
                NodeData::Element { tag, .. } => {
                    let tag: &str = tag.as_str();
                    !self.is_hidden(c) && (is_out_of_flow(self.styles.get(c).position) || !(same(
                        tag,
                        "tr",
                    ) || same(tag, "thead") || same(tag, "tbody") || same(tag, "tfoot")))
                },
                _ => false,
            };
            if loose {
                out.push(c);
            }
            k += 1;
        }
        out
    }

    /// The rows of a table, and the children of it that are no part of them.
    pub fn table_rows(&self, table: NodeId) -> (r: (Vec<TableRow>, Vec<NodeId>))
        requires
            self.wf(),
            self.dom.has(table),
        ensures
            views(r.0@) == self.rows_of(table),
            r.1@ == self.loose_from(self.dom.kids(table), 0),
            rows_in(self.dom, views(r.0@)),
            nodes_in(self.dom, r.1@),
    {
        let mut rows: Vec<TableRow> = Vec::new();
        proof {
            assert(views(rows@) =~= Seq::<RowView>::empty());
        }
        self.push_rows(table, &mut rows);
        proof {
            assert(Seq::<RowView>::empty() + self.rows_below(table, 0) =~= self.rows_below(
                table,
                0,
            ));
        }
        (rows, self.loose_children(table))
    }

    /// Turn rows into finite rectangles. The track limit does not depend on
    /// what a span asks for, so none can become an allocation request.
    pub fn table_placements(&self, rows: &Vec<TableRow>) -> (r: Vec<TablePlacement>)
        requires
            self.wf(),
            rows_in(self.dom, views(rows@)),
        ensures
            r@ == self.placements_of(views(rows@)),
            placements_fit(r@, rows@.len() as int, TABLE_TRACKS as int),
            cells_in(self.dom, r@),
    {
        let n: usize = rows.len();
        let mut owner: Vec<Vec<Option<usize>>> = no_owners(n, TABLE_TRACKS);
        let mut placed: Vec<TablePlacement> = Vec::new();
        let ghost goal = self.placements_of(views(rows@));
        let mut row: usize = 0;
        while row < n
            invariant
                self.wf(),
                rows_in(self.dom, views(rows@)),
                row <= n,
                n == rows@.len(),
                owners_agree(owner@, placed@, n as int, TABLE_TRACKS as int),
                placements_fit(placed@, n as int, TABLE_TRACKS as int),
                cells_in(self.dom, placed@),
                goal == self.rows_placed(views(rows@), row as int, placed@),
            decreases n - row,
        {
            let cells: &Vec<NodeId> = &rows[row].cells;
            proof {
                assert(row_in(self.dom, views(rows@)[row as int]));
            }
            let ghost row_goal = self.cells_placed(n as int, row as int, cells@, 0, 0, placed@);
            let mut cursor: usize = 0;
            let mut i: usize = 0;
            while i < cells.len()
                invariant_except_break
                    row_goal == self.cells_placed(
                        n as int,
                        row as int,
                        cells@,
                        i as int,
                        cursor as int,
                        placed@,
                    ),
                invariant
                    self.wf(),
                    nodes_in(self.dom, cells@),
                    row < n,
                    i <= cells@.len(),
                    cursor <= TABLE_TRACKS,
                    owners_agree(owner@, placed@, n as int, TABLE_TRACKS as int),
                    placements_fit(placed@, n as int, TABLE_TRACKS as int),
                    cells_in(self.dom, placed@),
                ensures
                    row_goal == placed@,
                decreases cells@.len() - i,
            {
                let ghost col = free_from(placed@, row as int, cursor as int);
                while cursor < TABLE_TRACKS && owner[row][cursor].is_some()
                    invariant
                        row < n,
                        cursor <= TABLE_TRACKS,
                        owners_agree(owner@, placed@, n as int, TABLE_TRACKS as int),
                        col == free_from(placed@, row as int, cursor as int),
                    decreases TABLE_TRACKS - cursor,
                {
                    proof {
                        assert(owner@[row as int]@[cursor as int] == owner_of(
                            placed@,
                            row as int,
                            cursor as int,
                        ));
                    }
                    cursor += 1;
                }
                proof {
                    if cursor < TABLE_TRACKS {
                        assert(owner@[row as int]@[cursor as int] == owner_of(
                            placed@,
                            row as int,
                            cursor as int,
                        ));
                    }
                    assert(col == cursor);
                }
                if cursor == TABLE_TRACKS {
                    break ;
                }
                let cell: NodeId = cells[i];
                let colspan: usize = table_span(
                    self.dom.attr(cell, "colspan"),
                    TABLE_TRACKS - cursor,
                );
                let rowspan: usize = table_span(self.dom.attr(cell, "rowspan"), n - row);
                let p: TablePlacement = TablePlacement { cell, row, col: cursor, rowspan, colspan };
                take_slots(&mut owner, p, placed.len(), TABLE_TRACKS, Ghost(placed@));
                placed.push(p);
                cursor += colspan;
                i += 1;
            }
            row += 1;
        }
        placed
    }
}

/// How many columns the placements from the `k`th on reach.
pub open spec fn columns_reached(placed: Seq<TablePlacement>, k: int, so_far: usize) -> usize
    decreases placed.len() - k,
{
    if k >= placed.len() {
        so_far
    } else {
        let end = (placed[k].col + placed[k].colspan) as usize;
        columns_reached(
            placed,
            k + 1,
            if end > so_far {
                end
            } else {
                so_far
            },
        )
    }
}

fn count_columns(placed: &Vec<TablePlacement>, Ghost(rows): Ghost<int>) -> (r: usize)
    requires
        placements_fit(placed@, rows, TABLE_TRACKS as int),
    ensures
        r == columns_reached(placed@, 0, 0),
        r <= TABLE_TRACKS,
        placements_fit(placed@, rows, r as int),
{
    let mut most: usize = 0;
    let mut k: usize = 0;
    while k < placed.len()
        invariant
            k <= placed@.len(),
            most <= TABLE_TRACKS,
            placements_fit(placed@, rows, TABLE_TRACKS as int),
            forall|j: int| 0 <= j < k ==> placement_fits(#[trigger] placed@[j], rows, most as int),
            columns_reached(placed@, 0, 0) == columns_reached(placed@, k as int, most),
        decreases placed@.len() - k,
    {
        let p: TablePlacement = placed[k];
        proof {
            assert(placement_fits(placed@[k as int], rows, TABLE_TRACKS as int));
        }
        let end: usize = p.col + p.colspan;
        if end > most {
            most = end;
        }
        k += 1;
    }
    most
}

/// One cell's outer horizontal contribution to its columns: what it needs and
/// what it wants, by its own size properties and its content widths.
#[verifier::allow_in_spec]
pub fn cell_bounds(computed: &ComputedStyle, cw: i32, min: i32, max: i32) -> (r: TableColumn)
    returns
        ({
            let padding = plus(
                computed.padding.left.to_cells_h(cw),
                computed.padding.right.to_cells_h(cw),
            );
            let border = plus(
                computed.border.left.to_cells_h(cw),
                computed.border.right.to_cells_h(cw),
            );
            let axis = Axis { edges: plus(padding, border), box_sizing: computed.box_sizing };
            let width = inset_h(computed.width, cw);
            let min = match width {
                Some(w) => axis.content_from(w),
                None => min,
            };
            let max = match width {
                Some(w) => axis.content_from(w),
                None => max,
            };
            let low = inset_h(computed.min_width, cw);
            let high = inset_h(computed.max_width, cw);
            let c = TableColumn {
                min: larger(plus(axis.clamp(min, low, high), axis.edges), 1),
                max: larger(plus(axis.clamp(max, low, high), axis.edges), 1),
                used: 1,
            };
            c.normalized()
        }),
{
    let padding: i32 = plus(
        computed.padding.left.to_cells_h(cw),
        computed.padding.right.to_cells_h(cw),
    );
    let border: i32 = plus(
        computed.border.left.to_cells_h(cw),
        computed.border.right.to_cells_h(cw),
    );
    let axis: Axis = Axis { edges: plus(padding, border), box_sizing: computed.box_sizing };
    let width: Option<i32> = inset_h(computed.width, cw);
    let min: i32 = match width {
        Some(w) => axis.content_from(w),
        None => min,
    };
    let max: i32 = match width {
        Some(w) => axis.content_from(w),
        None => max,
    };
    let low: Option<i32> = inset_h(computed.min_width, cw);
    let high: Option<i32> = inset_h(computed.max_width, cw);
    let c: TableColumn = TableColumn {
        min: larger(plus(axis.clamp(min, low, high), axis.edges), 1),
        max: larger(plus(axis.clamp(max, low, high), axis.edges), 1),
        used: 1,
    };
    c.normalized()
}

/// One cell's floor in its columns.
pub open spec fn floor_set(columns: Seq<TableColumn>, p: TablePlacement, c: TableColumn) -> Seq<
    TableColumn,
> {
    if p.colspan == 1 {
        let was = columns[p.col as int];
        columns.update(p.col as int, TableColumn { min: larger(was.min, c.min), ..was })
    } else {
        columns_raised(columns, p.col as int, p.colspan as int, c.min, true)
    }
}

/// One cell's ceiling in its columns.
pub open spec fn ceiling_set(columns: Seq<TableColumn>, p: TablePlacement, c: TableColumn) -> Seq<
    TableColumn,
> {
    if p.colspan == 1 {
        let was = columns[p.col as int];
        columns.update(
            p.col as int,
            TableColumn { max: larger(larger(was.max, c.max), was.min), ..was },
        )
    } else {
        columns_raised(columns, p.col as int, p.colspan as int, c.max, false)
    }
}

pub open spec fn floors_set(
    columns: Seq<TableColumn>,
    placed: Seq<TablePlacement>,
    cs: Seq<TableColumn>,
    i: int,
) -> Seq<TableColumn>
    decreases placed.len() - i,
{
    if i >= placed.len() {
        columns
    } else {
        floors_set(floor_set(columns, placed[i], cs[i]), placed, cs, i + 1)
    }
}

pub open spec fn ceilings_set(
    columns: Seq<TableColumn>,
    placed: Seq<TablePlacement>,
    cs: Seq<TableColumn>,
    i: int,
) -> Seq<TableColumn>
    decreases placed.len() - i,
{
    if i >= placed.len() {
        columns
    } else {
        ceilings_set(ceiling_set(columns, placed[i], cs[i]), placed, cs, i + 1)
    }
}

/// What the columns need and want together. All floors settle before any
/// ceiling: a later cell's minimum takes part in an earlier span's maximum.
pub open spec fn columns_asked(placed: Seq<TablePlacement>, cs: Seq<TableColumn>, n: nat) -> Seq<
    TableColumn,
> {
    let empty = Seq::new(n, |i: int| TableColumn::empty());
    ceilings_set(floors_set(empty, placed, cs, 0), placed, cs, 0)
}

fn ask_columns(placed: &Vec<TablePlacement>, cs: &Vec<TableColumn>, n: usize, Ghost(rows): Ghost<int>) -> (r:
    Vec<TableColumn>)
    requires
        placements_fit(placed@, rows, n as int),
        cs@.len() == placed@.len(),
    ensures
        r@ == columns_asked(placed@, cs@, n as nat),
        r@.len() == n,
{
    let mut columns: Vec<TableColumn> = Vec::new();
    while columns.len() < n
        invariant
            columns@.len() <= n,
            forall|i: int|
                0 <= i < columns@.len() ==> (#[trigger] columns@[i]) == TableColumn::empty(),
        decreases n - columns@.len(),
    {
        columns.push(TableColumn::empty());
    }
    proof {
        assert(columns@ =~= Seq::new(n as nat, |i: int| TableColumn::empty()));
    }
    let ghost goal = floors_set(columns@, placed@, cs@, 0);
    let mut i: usize = 0;
    while i < placed.len()
        invariant
            i <= placed@.len(),
            cs@.len() == placed@.len(),
            columns@.len() == n,
            placements_fit(placed@, rows, n as int),
            goal == floors_set(columns@, placed@, cs@, i as int),
        decreases placed@.len() - i,
    {
        let p: TablePlacement = placed[i];
        proof {
            assert(placement_fits(placed@[i as int], rows, n as int));
        }
        if p.colspan == 1 {
            let was: TableColumn = columns[p.col];
            let now: TableColumn = TableColumn {
                min: larger(was.min, cs[i].min),
                max: was.max,
                used: was.used,
            };
            columns.set(p.col, now);
        } else {
            raise_track_sum(&mut columns, p.col, p.colspan, cs[i].min, true);
        }
        i += 1;
    }
    let ghost goal = ceilings_set(columns@, placed@, cs@, 0);
    let mut i: usize = 0;
    while i < placed.len()
        invariant
            i <= placed@.len(),
            cs@.len() == placed@.len(),
            columns@.len() == n,
            placements_fit(placed@, rows, n as int),
            goal == ceilings_set(columns@, placed@, cs@, i as int),
        decreases placed@.len() - i,
    {
        let p: TablePlacement = placed[i];
        proof {
            assert(placement_fits(placed@[i as int], rows, n as int));
        }
        if p.colspan == 1 {
            let was: TableColumn = columns[p.col];
            let now: TableColumn = TableColumn {
                min: was.min,
                max: larger(larger(was.max, cs[i].max), was.min),
                used: was.used,
            };
            columns.set(p.col, now);
        } else {
            raise_track_sum(&mut columns, p.col, p.colspan, cs[i].max, false);
        }
        i += 1;
    }
    columns
}

/// How wide a table's columns are to be together. A table of automatic width
/// shrinks to what it wants before its own clamps apply; any other one, and one
/// that is a grid item, has the width it was given.
#[verifier::allow_in_spec]
pub fn table_target(
    computed: &ComputedStyle,
    dims: Dimensions,
    requested: i32,
    least: i32,
    most: i32,
    grid_items: usize,
) -> (r: i32)
    returns
        (if computed.width.is_auto() && grid_items == 0 {
            let axis = Axis {
                edges: plus(
                    plus(plus(dims.padding.left, dims.padding.right), dims.border.left),
                    dims.border.right,
                ),
                box_sizing: computed.box_sizing,
            };
            let target = larger(smaller(requested, most), least);
            let target = match inset_h(computed.max_width, requested) {
                Some(w) => smaller(target, axis.content_from(w)),
                None => target,
            };
            match inset_h(computed.min_width, requested) {
                Some(w) => larger(target, axis.content_from(w)),
                None => target,
            }
        } else {
            requested
        }),
{
    if computed.width.is_auto() && grid_items == 0 {
        let axis: Axis = Axis {
            edges: plus(
                plus(plus(dims.padding.left, dims.padding.right), dims.border.left),
                dims.border.right,
            ),
            box_sizing: computed.box_sizing,
        };
        let target: i32 = larger(smaller(requested, most), least);
        let target: i32 = match inset_h(computed.max_width, requested) {
            Some(w) => smaller(target, axis.content_from(w)),
            None => target,
        };
        match inset_h(computed.min_width, requested) {
            Some(w) => larger(target, axis.content_from(w)),
            None => target,
        }
    } else {
        requested
    }
}

/// A cell's edges and content box in its slot. The slot fixes the outer width:
/// neither a `width` nor auto margins let a cell drift into a neighbour.
#[verifier::allow_in_spec]
pub fn cell_dims(computed: &ComputedStyle, x: i32, y: i32, slot: i32) -> (r: Dimensions)
    returns
        ({
            let d = resolve_block_dims(computed, slot, None);
            let width = larger(
                minus(
                    minus(minus(minus(slot, d.padding.left), d.padding.right), d.border.left),
                    d.border.right,
                ),
                0,
            );
            let d = d.with_margin(
                EdgeSizes { top: d.margin.top, right: 0, bottom: d.margin.bottom, left: 0 },
            ).with_content(Rect { x: 0, y: 0, width, height: 0 });
            content_at(d, x, y, 0)
        }),
{
    let d: Dimensions = resolve_block_dims(computed, slot, None);
    let width: i32 = larger(
        minus(
            minus(minus(minus(slot, d.padding.left), d.padding.right), d.border.left),
            d.border.right,
        ),
        0,
    );
    let d: Dimensions = d.with_margin(
        EdgeSizes { top: d.margin.top, right: 0, bottom: d.margin.bottom, left: 0 },
    ).with_content(Rect { x: 0, y: 0, width, height: 0 });
    content_at(d, x, y, 0)
}

/// What stays the same while one table's rows are laid out.
#[derive(Clone, Copy)]
pub struct TableEnv {
    pub bid: BoxId,
    pub table: Rect,
    pub computed: ComputedStyle,
    pub ch: Option<i32>,
    pub pre: bool,
    /// Where the rows start.
    pub y: i32,
}

/// A cell's box and the height it asks of its rows.
#[derive(Clone, Copy)]
pub struct CellBox {
    pub id: BoxId,
    pub height: i32,
}

/// The heights of the rows after the cells from the `i`th on have asked.
pub open spec fn heights_from(
    placed: Seq<TablePlacement>,
    cells: Seq<CellBox>,
    i: int,
    heights: Seq<i32>,
) -> Seq<i32>
    decreases placed.len() - i,
{
    if i >= placed.len() {
        heights
    } else {
        let p = placed[i];
        heights_from(
            placed,
            cells,
            i + 1,
            if p.rowspan == 1 {
                heights.update(p.row as int, larger(heights[p.row as int], cells[i].height))
            } else {
                rows_raised(heights, p.row as int, p.rowspan as int, cells[i].height)
            },
        )
    }
}

/// The top of row `i`.
pub open spec fn row_top(heights: Seq<i32>, y: i32, i: int) -> i32
    decreases i,
{
    if i <= 0 {
        y
    } else {
        plus(row_top(heights, y, i - 1), heights[i - 1])
    }
}

pub open spec fn row_tops(heights: Seq<i32>, y: i32) -> Seq<i32> {
    Seq::new(heights.len(), |i: int| row_top(heights, y, i))
}

/// The box of row `i`, where rows start at `base`.
pub open spec fn row_box(base: nat, i: int) -> BoxId {
    BoxId((base + i) as usize)
}

/// The rows from the `i`th on at their final places. A row that gave up more
/// than it had is nothing tall.
pub open spec fn rows_settled(cv: Canvas, base: nat, heights: Seq<i32>, y: i32, i: int) -> Canvas
    decreases heights.len() - i,
{
    if i >= heights.len() {
        cv
    } else {
        let id = row_box(base, i);
        let d = cv.dims(id);
        rows_settled(
            cv.with_dims(
                id,
                d.with_content(
                    Rect { y: row_top(heights, y, i), height: larger(heights[i], 0), ..d.content },
                ),
            ),
            base,
            heights,
            y,
            i + 1,
        )
    }
}

/// A cell at its final place, in its row. One that spans rows takes their
/// whole height.
pub open spec fn cell_settled(
    cv: Canvas,
    base: nat,
    heights: Seq<i32>,
    y: i32,
    p: TablePlacement,
    id: BoxId,
) -> Canvas {
    let d = cv.dims(id);
    let outer = total(heights.subrange(p.row as int, p.row + p.rowspan));
    let inner = larger(
        minus(
            minus(minus(minus(outer, d.padding.top), d.padding.bottom), d.border.top),
            d.border.bottom,
        ),
        1,
    );
    let grown = if p.rowspan > 1 {
        cv.with_height(id, inner)
    } else {
        cv
    };
    let moved = grown.moved(
        id,
        0,
        minus(
            plus(plus(row_top(heights, y, p.row as int), d.border.top), d.padding.top),
            d.content.y,
        ),
    );
    let row = row_box(base, p.row as int);
    moved.with_children(row, moved.boxes[row.0 as int].children.push(id))
}

pub open spec fn cells_settled(
    cv: Canvas,
    base: nat,
    heights: Seq<i32>,
    y: i32,
    placed: Seq<TablePlacement>,
    cells: Seq<CellBox>,
    i: int,
) -> Canvas
    decreases placed.len() - i,
{
    if i >= placed.len() {
        cv
    } else {
        cells_settled(
            cell_settled(cv, base, heights, y, placed[i], cells[i].id),
            base,
            heights,
            y,
            placed,
            cells,
            i + 1,
        )
    }
}

impl<'a> Ctx<'a> {
    /// What each cell asks of its columns.
    pub open spec fn contributions(&self, placed: Seq<TablePlacement>, cw: i32) -> Seq<TableColumn> {
        placed.map_values(
            |p: TablePlacement|
                cell_bounds(
                    &self.style(p.cell),
                    cw,
                    self.sizes(p.cell).min,
                    self.sizes(p.cell).max,
                ),
        )
    }

    /// The widths of a table's columns.
    #[verifier::opaque]
    pub open spec fn table_widths(
        &self,
        cv: Canvas,
        computed: ComputedStyle,
        bid: BoxId,
        placed: Seq<TablePlacement>,
        n: nat,
    ) -> Seq<i32> {
        let requested = larger(cv.dims(bid).content.width, 1);
        let asked = columns_asked(placed, self.contributions(placed, requested), n);
        let least = column_sum(asked, true, 0, n as int, 0);
        let most = column_sum(asked, false, 0, n as int, 0);
        columns_fitted(
            asked,
            table_target(&computed, cv.dims(bid), requested, least, most, cv.grid_items),
        )
    }

    /// The children that are no part of the rows, from the `i`th on: blocks
    /// above the rows.
    pub open spec fn loose_laid(
        &self,
        rec: Recipe,
        cv: Canvas,
        env: TableEnv,
        nodes: Seq<NodeId>,
        i: int,
        y: i32,
        prev: i32,
        children: Seq<BoxId>,
    ) -> (Canvas, i32, Seq<BoxId>)
        decreases nodes.len() - i,
    {
        if i >= nodes.len() {
            (cv, y, children)
        } else {
            let c = nodes[i];
            if self.leaves_flow(c) {
                let (cv2, abs) = self.positioned(rec, cv, c, env.bid, env.pre);
                self.loose_laid(
                    rec,
                    cv2,
                    env,
                    nodes,
                    i + 1,
                    y,
                    prev,
                    match abs {
                        Some(id) => children.push(id),
                        None => children,
                    },
                )
            } else {
                let laid = self.lay_node(
                    rec,
                    cv,
                    c,
                    env.table.x,
                    env.table.width,
                    env.ch,
                    y,
                    prev,
                    env.pre,
                );
                match laid.id {
                    Some(id) => {
                        let d = laid.cv.dims(id);
                        self.loose_laid(
                            rec,
                            laid.cv,
                            env,
                            nodes,
                            i + 1,
                            d.margin_box().bottom(),
                            d.margin.bottom,
                            children.push(id),
                        )
                    },
                    None => self.loose_laid(
                        rec,
                        laid.cv,
                        env,
                        nodes,
                        i + 1,
                        y,
                        laid.prev,
                        children,
                    ),
                }
            }
        }
    }

    /// A box for each row from the `i`th on.
    pub open spec fn rows_added(&self, cv: Canvas, env: TableEnv, rows: Seq<RowView>, i: int) -> Canvas
        decreases rows.len() - i,
    {
        if i >= rows.len() {
            cv
        } else {
            self.rows_added(
                cv.with_box(
                    plain_box(
                        BoxKind::TableRow,
                        Some(rows[i].row),
                        Dimensions::bare(
                            Rect {
                                x: env.table.x,
                                y: env.y,
                                width: env.table.width,
                                height: 0,
                            },
                        ),
                        self.style(rows[i].row),
                    ),
                ),
                env,
                rows,
                i + 1,
            )
        }
    }

    /// One cell laid out at its final width, above where it will go.
    #[verifier::opaque]
    pub open spec fn cell_laid(
        &self,
        rec: Recipe,
        cv: Canvas,
        env: TableEnv,
        widths: Seq<i32>,
        p: TablePlacement,
    ) -> (Canvas, CellBox) {
        let c = self.style(p.cell);
        let x = plus(env.table.x, total(widths.subrange(0, p.col as int)));
        let slot = total(widths.subrange(p.col as int, p.col + p.colspan));
        let built = (rec.build)(
            BoxArgs {
                cv,
                id: p.cell,
                computed: c,
                dims: cell_dims(&c, x, env.y, slot),
                ch: env.ch,
                pre: env.pre,
            },
        );
        let d = built.cv.dims(built.id);
        (
            built.cv.with_height(built.id, larger(d.content.height, 1)),
            CellBox { id: built.id, height: larger(d.margin_box().height, 1) },
        )
    }

    pub open spec fn cells_laid(
        &self,
        rec: Recipe,
        cv: Canvas,
        env: TableEnv,
        widths: Seq<i32>,
        placed: Seq<TablePlacement>,
        i: int,
        cells: Seq<CellBox>,
    ) -> (Canvas, Seq<CellBox>)
        decreases placed.len() - i,
    {
        if i >= placed.len() {
            (cv, cells)
        } else {
            let (cv2, cell) = self.cell_laid(rec, cv, env, widths, placed[i]);
            self.cells_laid(rec, cv2, env, widths, placed, i + 1, cells.push(cell))
        }
    }

    /// A row's positioned cells from the `k`th child on. They stay the row's,
    /// but take no track.
    pub open spec fn row_positioned(
        &self,
        rec: Recipe,
        cv: Canvas,
        kids: Seq<NodeId>,
        k: int,
        row: BoxId,
        pre: bool,
    ) -> Canvas
        decreases kids.len() - k,
    {
        if k >= kids.len() {
            cv
        } else if is_out_of_flow(self.style(kids[k]).position) && self.is_cell(kids[k]) {
            let (cv2, abs) = self.positioned(rec, cv, kids[k], row, pre);
            self.row_positioned(
                rec,
                match abs {
                    Some(id) => cv2.with_children(
                        row,
                        cv2.boxes[row.0 as int].children.push(id),
                    ),
                    None => cv2,
                },
                kids,
                k + 1,
                row,
                pre,
            )
        } else {
            self.row_positioned(rec, cv, kids, k + 1, row, pre)
        }
    }

    pub open spec fn rows_positioned(
        &self,
        rec: Recipe,
        cv: Canvas,
        rows: Seq<RowView>,
        i: int,
        base: nat,
        pre: bool,
    ) -> Canvas
        decreases rows.len() - i,
    {
        if i >= rows.len() {
            cv
        } else {
            let next = self.row_positioned(
                rec,
                cv,
                self.dom.kids(rows[i].row),
                0,
                row_box(base, i),
                pre,
            );
            self.rows_positioned(rec, next, rows, i + 1, base, pre)
        }
    }

    /// A table's rows and their cells, below what was loose.
    #[verifier::opaque]
    pub open spec fn body_laid(
        &self,
        rec: Recipe,
        cv: Canvas,
        env: TableEnv,
        rows: Seq<RowView>,
        placed: Seq<TablePlacement>,
        widths: Seq<i32>,
        children: Seq<BoxId>,
    ) -> (Canvas, i32) {
        let base = cv.boxes.len();
        let with_rows = self.rows_added(cv, env, rows, 0);
        let (built, cells) = self.cells_laid(
            rec,
            with_rows,
            env,
            widths,
            placed,
            0,
            Seq::empty(),
        );
        let heights = heights_from(placed, cells, 0, Seq::new(rows.len(), |i: int| 1i32));
        let settled = cells_settled(
            rows_settled(built, base, heights, env.y, 0),
            base,
            heights,
            env.y,
            placed,
            cells,
            0,
        );
        let whole = self.rows_positioned(rec, settled, rows, 0, base, env.pre);
        let facts = GridFacts {
            placed,
            rows,
            widths,
            row_y: row_tops(heights, env.y),
            row_heights: heights,
        };
        let drawn = self.bordered(whole, facts, env.bid, env.table, env.computed);
        (
            drawn.with_children(
                env.bid,
                children + Seq::new(rows.len(), |i: int| row_box(base, i)),
            ),
            larger(minus(row_top(heights, env.y, rows.len() as int), env.table.y), 0),
        )
    }

    /// A table's contents: what is loose in it, then its rows. One without
    /// rows or cells is an ordinary container.
    #[verifier::opaque]
    pub open spec fn table_contents(
        &self,
        rec: Recipe,
        cv: Canvas,
        id: NodeId,
        computed: ComputedStyle,
        bid: BoxId,
        heights: BlockHeight,
        pre: bool,
    ) -> (Canvas, i32) {
        let rows = self.rows_of(id);
        let placed = self.placements_of(rows);
        let n = columns_reached(placed, 0, 0);
        if rows.len() == 0 || n == 0 {
            self.contents(rec, cv, id, computed, bid, heights, pre)
        } else {
            let widths = self.table_widths(cv, computed, bid, placed, n as nat);
            let d = cv.dims(bid);
            let sized = cv.with_dims(
                bid,
                d.with_content(Rect { width: total(widths), ..d.content }),
            );
            let table = sized.dims(bid).content;
            let env = TableEnv {
                bid,
                table,
                computed,
                ch: heights.specified,
                pre,
                y: table.y,
            };
            let (cv2, y, children) = self.loose_laid(
                rec,
                sized,
                env,
                self.loose_from(self.dom.kids(id), 0),
                0,
                table.y,
                0,
                Seq::empty(),
            );
            self.body_laid(rec, cv2, TableEnv { y, ..env }, rows, placed, widths, children)
        }
    }
}

/// Boxes of cells that exist.
spec fn cell_boxes_in(cells: Seq<CellBox>, n: nat) -> bool {
    forall|k: int| 0 <= k < cells.len() ==> (#[trigger] cells[k]).id.0 < n
}

impl<'a> Engine<'a> {
    #[verifier::rlimit(50)]
    fn measure_cells(&mut self, placed: &Vec<TablePlacement>, cw: i32) -> (r: Vec<TableColumn>)
        requires
            old(self).ok(),
            cells_in(old(self).ctx.dom, placed@),
        ensures
            r@ == old(self).ctx.contributions(placed@, cw),
            r@.len() == placed@.len(),
            final(self).follows(*old(self)),
            final(self).boxes == old(self).boxes,
            final(self).canvas() == old(self).canvas(),
    {
        let ctx: Ctx<'a> = self.ctx;
        let ghost goal = ctx.contributions(placed@, cw);
        let mut out: Vec<TableColumn> = Vec::new();
        let mut k: usize = 0;
        while k < placed.len()
            invariant
                self.follows(*old(self)),
                self.boxes == old(self).boxes,
                self.canvas() == old(self).canvas(),
                ctx == self.ctx,
                cells_in(ctx.dom, placed@),
                goal == ctx.contributions(placed@, cw),
                k <= placed@.len(),
                out@ =~= goal.take(k as int),
            decreases placed@.len() - k,
        {
            let cell: NodeId = placed[k].cell;
            proof {
                assert(ctx.dom.has(placed@[k as int].cell));
            }
            let min: i32 = self.sizer.min_content_width(cell);
            let max: i32 = self.sizer.max_content_width(cell);
            let asks: TableColumn = cell_bounds(&ctx.styles.get(cell), cw, min, max);
            proof {
                assert(asks == goal[k as int]);
            }
            out.push(asks);
            k += 1;
        }
        proof {
            assert(out@ =~= goal);
        }
        out
    }

    fn fit_columns(
        &mut self,
        computed: ComputedStyle,
        bid: BoxId,
        placed: &Vec<TablePlacement>,
        n: usize,
        Ghost(rows): Ghost<int>,
    ) -> (r: Vec<i32>)
        requires
            old(self).ok(),
            old(self).has_box(bid),
            0 < n,
            cells_in(old(self).ctx.dom, placed@),
            placements_fit(placed@, rows, n as int),
        ensures
            r@ == old(self).ctx.table_widths(old(self).canvas(), computed, bid, placed@, n as nat),
            r@.len() == n,
            forall|k: int| 0 <= k < r@.len() ==> #[trigger] r@[k] >= 1,
            final(self).follows(*old(self)),
            final(self).boxes == old(self).boxes,
            final(self).canvas() == old(self).canvas(),
    {
        proof {
            reveal(Ctx::table_widths);
        }
        let d: Dimensions = self.dims(bid);
        let requested: i32 = larger(d.content.width, 1);
        let cs: Vec<TableColumn> = self.measure_cells(placed, requested);
        let asked: Vec<TableColumn> = ask_columns(placed, &cs, n, Ghost(rows));
        let least: i32 = sum_columns(&asked, true);
        let most: i32 = sum_columns(&asked, false);
        let target: i32 = table_target(
            &computed,
            d,
            requested,
            least,
            most,
            self.grid_item_depth,
        );
        proof {
            let fitted = columns_fitted(asked@, target);
            fitted_columns_keep_their_minima(asked@, target, 0);
            assert forall|k: int| 0 <= k < fitted.len() implies #[trigger] fitted[k] >= 1 by {
                fitted_columns_keep_their_minima(asked@, target, k);
            }
        }
        fit_table_columns(&asked, target)
    }

    fn lay_loose(&mut self, fuel: usize, env: TableEnv, nodes: &Vec<NodeId>) -> (r: (i32, Vec<BoxId>))
        requires
            old(self).ok(),
            env.table.width >= 0,
            old(self).has_box(env.bid),
            nodes_in(old(self).ctx.dom, nodes@),
        ensures
            final(self).follows(*old(self)),
            in_range(r.1@, final(self).boxes@.len()),
            (final(self).canvas(), r.0, r.1@) == old(self).ctx.loose_laid(
                old(self).ctx.builder(old(self).viewport, fuel as nat),
                old(self).canvas(),
                env,
                nodes@,
                0,
                env.y,
                0,
                Seq::empty(),
            ),
        decreases fuel, 15nat,
    {
        let ctx: Ctx<'a> = self.ctx;
        let ghost rec = ctx.builder(self.viewport, fuel as nat);
        let mut children: Vec<BoxId> = Vec::new();
        let mut y: i32 = env.y;
        let mut prev: i32 = 0;
        proof {
            assert(children@ =~= Seq::<BoxId>::empty());
        }
        let ghost goal = ctx.loose_laid(rec, self.canvas(), env, nodes@, 0, y, prev, children@);
        let mut i: usize = 0;
        while i < nodes.len()
            invariant
                self.follows(*old(self)),
                env.table.width >= 0,
                ctx == self.ctx,
                ctx == old(self).ctx,
                rec == ctx.builder(self.viewport, fuel as nat),
                self.has_box(env.bid),
                i <= nodes@.len(),
                nodes_in(ctx.dom, nodes@),
                in_range(children@, self.boxes@.len()),
                goal == ctx.loose_laid(
                    rec,
                    self.canvas(),
                    env,
                    nodes@,
                    i as int,
                    y,
                    prev,
                    children@,
                ),
            decreases nodes@.len() - i,
        {
            let c: NodeId = nodes[i];
            if ctx.is_element_out_of_flow(c) {
                match self.layout_positioned(fuel, c, env.bid, env.pre) {
                    Some(id) => {
                        children.push(id);
                    },
                    None => {},
                }
            } else {
                let (laid, left): (Option<BoxId>, i32) = self.layout_node(
                    fuel,
                    c,
                    env.table.x,
                    env.table.width,
                    env.ch,
                    y,
                    prev,
                    env.pre,
                );
                match laid {
                    Some(id) => {
                        let d: Dimensions = self.dims(id);
                        y = d.margin_box().bottom();
                        prev = d.margin.bottom;
                        children.push(id);
                    },
                    None => {
                        prev = left;
                    },
                }
            }
            i += 1;
        }
        (y, children)
    }

    fn add_rows(&mut self, env: TableEnv, rows: &Vec<TableRow>)
        requires
            old(self).ok(),
            env.table.width >= 0,
            rows_in(old(self).ctx.dom, views(rows@)),
        ensures
            final(self).follows(*old(self)),
            final(self).boxes@.len() == old(self).boxes@.len() + rows@.len(),
            final(self).canvas() == old(self).ctx.rows_added(
                old(self).canvas(),
                env,
                views(rows@),
                0,
            ),
    {
        let ctx: Ctx<'a> = self.ctx;
        let ghost goal = ctx.rows_added(self.canvas(), env, views(rows@), 0);
        let mut i: usize = 0;
        while i < rows.len()
            invariant
                self.follows(*old(self)),
                env.table.width >= 0,
                ctx == self.ctx,
                i <= rows@.len(),
                rows_in(ctx.dom, views(rows@)),
                self.boxes@.len() == old(self).boxes@.len() + i,
                goal == ctx.rows_added(self.canvas(), env, views(rows@), i as int),
            decreases rows@.len() - i,
        {
            let row: NodeId = rows[i].row;
            proof {
                assert(row_in(ctx.dom, views(rows@)[i as int]));
            }
            let content: Rect = Rect {
                x: env.table.x,
                y: env.y,
                width: env.table.width,
                height: 0,
            };
            let b: LayoutBox = new_box(
                BoxKind::TableRow,
                Some(row),
                Dimensions::bare(content),
                ctx.styles.get(row),
            );
            self.add_box(b);
            i += 1;
        }
    }

    fn lay_cell(&mut self, fuel: usize, env: TableEnv, widths: &Vec<i32>, p: TablePlacement) -> (r:
        CellBox)
        requires
            old(self).ok(),
            old(self).ctx.dom.has(p.cell),
            p.col + p.colspan <= widths@.len(),
        ensures
            final(self).follows(*old(self)),
            final(self).has_box(r.id),
            (final(self).canvas(), r) == old(self).ctx.cell_laid(
                old(self).ctx.builder(old(self).viewport, fuel as nat),
                old(self).canvas(),
                env,
                widths@,
                p,
            ),
        decreases fuel, 1nat,
    {
        proof {
            reveal(Ctx::cell_laid);
        }
        let c: ComputedStyle = self.ctx.styles.get(p.cell);
        let wide: usize = widths.len();
        let x: i32 = plus(env.table.x, total_of(widths, 0, p.col));
        let slot: i32 = total_of(widths, p.col, p.col + p.colspan);
        let dims: Dimensions = cell_dims(&c, x, env.y, slot);
        let (id, _): (BoxId, i32) = self.layout_box_at(fuel, p.cell, c, dims, env.ch, env.pre);
        let d: Dimensions = self.dims(id);
        let height: i32 = larger(d.margin_box().height, 1);
        self.set_height(id, larger(d.content.height, 1));
        CellBox { id, height }
    }

    fn lay_cells(
        &mut self,
        fuel: usize,
        env: TableEnv,
        widths: &Vec<i32>,
        placed: &Vec<TablePlacement>,
        Ghost(rows): Ghost<int>,
    ) -> (r: Vec<CellBox>)
        requires
            old(self).ok(),
            cells_in(old(self).ctx.dom, placed@),
            placements_fit(placed@, rows, widths@.len() as int),
        ensures
            final(self).follows(*old(self)),
            r@.len() == placed@.len(),
            cell_boxes_in(r@, final(self).boxes@.len()),
            (final(self).canvas(), r@) == old(self).ctx.cells_laid(
                old(self).ctx.builder(old(self).viewport, fuel as nat),
                old(self).canvas(),
                env,
                widths@,
                placed@,
                0,
                Seq::empty(),
            ),
        decreases fuel, 2nat,
    {
        let ghost ctx = self.ctx;
        let ghost rec = ctx.builder(self.viewport, fuel as nat);
        let mut cells: Vec<CellBox> = Vec::new();
        proof {
            assert(cells@ =~= Seq::<CellBox>::empty());
        }
        let ghost goal = ctx.cells_laid(rec, self.canvas(), env, widths@, placed@, 0, cells@);
        let mut i: usize = 0;
        while i < placed.len()
            invariant
                self.follows(*old(self)),
                ctx == self.ctx,
                ctx == old(self).ctx,
                rec == ctx.builder(self.viewport, fuel as nat),
                i <= placed@.len(),
                cells@.len() == i,
                cells_in(ctx.dom, placed@),
                placements_fit(placed@, rows, widths@.len() as int),
                cell_boxes_in(cells@, self.boxes@.len()),
                goal == ctx.cells_laid(
                    rec,
                    self.canvas(),
                    env,
                    widths@,
                    placed@,
                    i as int,
                    cells@,
                ),
            decreases placed@.len() - i,
        {
            proof {
                assert(ctx.dom.has(placed@[i as int].cell));
                assert(placement_fits(placed@[i as int], rows, widths@.len() as int));
            }
            let cell: CellBox = self.lay_cell(fuel, env, widths, placed[i]);
            cells.push(cell);
            i += 1;
        }
        cells
    }

    fn settle_rows(&mut self, base: usize, heights: &Vec<i32>, y: i32) -> (r: (i32, Vec<i32>))
        requires
            old(self).ok(),
            base + heights@.len() <= old(self).boxes@.len(),
        ensures
            final(self).follows(*old(self)),
            final(self).boxes@.len() == old(self).boxes@.len(),
            r.0 == row_top(heights@, y, heights@.len() as int),
            r.1@ == row_tops(heights@, y),
            final(self).canvas() == rows_settled(
                old(self).canvas(),
                base as nat,
                heights@,
                y,
                0,
            ),
    {
        let ghost goal = rows_settled(self.canvas(), base as nat, heights@, y, 0);
        let ghost tops_goal = row_tops(heights@, y);
        let all: usize = self.boxes.len();
        let mut tops: Vec<i32> = Vec::new();
        let mut top: i32 = y;
        let mut i: usize = 0;
        while i < heights.len()
            invariant
                self.follows(*old(self)),
                self.boxes@.len() == all,
                base + heights@.len() <= all,
                i <= heights@.len(),
                top == row_top(heights@, y, i as int),
                tops_goal == row_tops(heights@, y),
                tops@ =~= tops_goal.take(i as int),
                goal == rows_settled(self.canvas(), base as nat, heights@, y, i as int),
            decreases heights@.len() - i,
        {
            let id: BoxId = BoxId(base + i);
            let d: Dimensions = self.dims(id);
            tops.push(top);
            let c: Rect = Rect {
                x: d.content.x,
                y: top,
                width: d.content.width,
                height: larger(heights[i], 0),
            };
            self.set_dims(id, d.with_content(c));
            top = plus(top, heights[i]);
            i += 1;
        }
        proof {
            assert(tops@ =~= tops_goal);
        }
        (top, tops)
    }

    fn settle_cell(
        &mut self,
        base: usize,
        heights: &Vec<i32>,
        tops: &Vec<i32>,
        Ghost(y): Ghost<i32>,
        p: TablePlacement,
        id: BoxId,
    )
        requires
            old(self).ok(),
            base + heights@.len() <= old(self).boxes@.len(),
            old(self).has_box(id),
            p.row + p.rowspan <= heights@.len(),
            0 < p.rowspan,
            tops@ == row_tops(heights@, y),
        ensures
            final(self).follows(*old(self)),
            final(self).boxes@.len() == old(self).boxes@.len(),
            final(self).canvas() == cell_settled(
                old(self).canvas(),
                base as nat,
                heights@,
                y,
                p,
                id,
            ),
    {
        let all: usize = self.boxes.len();
        let rows: usize = heights.len();
        let d: Dimensions = self.dims(id);
        let outer: i32 = total_of(heights, p.row, p.row + p.rowspan);
        if p.rowspan > 1 {
            let inner: i32 = larger(
                minus(
                    minus(minus(minus(outer, d.padding.top), d.padding.bottom), d.border.top),
                    d.border.bottom,
                ),
                1,
            );
            self.set_height(id, inner);
        }
        let top: i32 = tops[p.row];
        self.shift_subtree(
            id,
            0,
            minus(plus(plus(top, d.border.top), d.padding.top), d.content.y),
        );
        self.push_child(BoxId(base + p.row), id);
    }

    fn settle_cells(
        &mut self,
        base: usize,
        heights: &Vec<i32>,
        tops: &Vec<i32>,
        Ghost(y): Ghost<i32>,
        placed: &Vec<TablePlacement>,
        cells: &Vec<CellBox>,
        Ghost(columns): Ghost<int>,
    )
        requires
            old(self).ok(),
            base + heights@.len() <= old(self).boxes@.len(),
            placements_fit(placed@, heights@.len() as int, columns),
            cells@.len() == placed@.len(),
            cell_boxes_in(cells@, old(self).boxes@.len()),
            tops@ == row_tops(heights@, y),
        ensures
            final(self).follows(*old(self)),
            final(self).boxes@.len() == old(self).boxes@.len(),
            final(self).canvas() == cells_settled(
                old(self).canvas(),
                base as nat,
                heights@,
                y,
                placed@,
                cells@,
                0,
            ),
    {
        let ghost goal = cells_settled(
            self.canvas(),
            base as nat,
            heights@,
            y,
            placed@,
            cells@,
            0,
        );
        let mut i: usize = 0;
        while i < placed.len()
            invariant
                self.follows(*old(self)),
                self.boxes@.len() == old(self).boxes@.len(),
                base + heights@.len() <= self.boxes@.len(),
                i <= placed@.len(),
                placements_fit(placed@, heights@.len() as int, columns),
                cells@.len() == placed@.len(),
                cell_boxes_in(cells@, self.boxes@.len()),
                tops@ == row_tops(heights@, y),
                goal == cells_settled(
                    self.canvas(),
                    base as nat,
                    heights@,
                    y,
                    placed@,
                    cells@,
                    i as int,
                ),
            decreases placed@.len() - i,
        {
            proof {
                assert(placement_fits(placed@[i as int], heights@.len() as int, columns));
                assert(cells@[i as int].id.0 < self.boxes@.len());
            }
            self.settle_cell(base, heights, tops, Ghost(y), placed[i], cells[i].id);
            i += 1;
        }
    }

    fn lay_row_positioned(&mut self, fuel: usize, row: NodeId, bid: BoxId, pre: bool)
        requires
            old(self).ok(),
            old(self).ctx.dom.has(row),
            old(self).has_box(bid),
        ensures
            final(self).follows(*old(self)),
            final(self).canvas() == old(self).ctx.row_positioned(
                old(self).ctx.builder(old(self).viewport, fuel as nat),
                old(self).canvas(),
                old(self).ctx.dom.kids(row),
                0,
                bid,
                pre,
            ),
        decreases fuel, 5nat,
    {
        let ctx: Ctx<'a> = self.ctx;
        let ghost rec = ctx.builder(self.viewport, fuel as nat);
        let kids: &Vec<NodeId> = ctx.dom.children(row);
        let ghost goal = ctx.row_positioned(rec, self.canvas(), kids@, 0, bid, pre);
        let mut k: usize = 0;
        while k < kids.len()
            invariant
                self.follows(*old(self)),
                ctx == self.ctx,
                ctx == old(self).ctx,
                rec == ctx.builder(self.viewport, fuel as nat),
                ctx.dom.has(row),
                self.has_box(bid),
                kids@ == ctx.dom.kids(row),
                k <= kids@.len(),
                goal == ctx.row_positioned(rec, self.canvas(), kids@, k as int, bid, pre),
            decreases kids@.len() - k,
        {
            let c: NodeId = kids[k];
            proof {
                assert(ctx.dom.nodes@[row.0 as int].children@[k as int] == c);
            }
            if is_out_of_flow(ctx.styles.get(c).position) && ctx.cell_tag(c) {
                match self.layout_positioned(fuel, c, bid, pre) {
                    Some(id) => {
                        self.push_child(bid, id);
                    },
                    None => {},
                }
            }
            k += 1;
        }
    }

    fn lay_rows_positioned(&mut self, fuel: usize, rows: &Vec<TableRow>, base: usize, pre: bool)
        requires
            old(self).ok(),
            rows_in(old(self).ctx.dom, views(rows@)),
            base + rows@.len() <= old(self).boxes@.len(),
        ensures
            final(self).follows(*old(self)),
            final(self).canvas() == old(self).ctx.rows_positioned(
                old(self).ctx.builder(old(self).viewport, fuel as nat),
                old(self).canvas(),
                views(rows@),
                0,
                base as nat,
                pre,
            ),
        decreases fuel, 6nat,
    {
        let ghost ctx = self.ctx;
        let ghost rec = ctx.builder(self.viewport, fuel as nat);
        let ghost goal = ctx.rows_positioned(rec, self.canvas(), views(rows@), 0, base as nat, pre);
        let mut i: usize = 0;
        while i < rows.len()
            invariant
                self.follows(*old(self)),
                ctx == self.ctx,
                ctx == old(self).ctx,
                rec == ctx.builder(self.viewport, fuel as nat),
                rows_in(ctx.dom, views(rows@)),
                base + rows@.len() <= self.boxes@.len(),
                i <= rows@.len(),
                goal == ctx.rows_positioned(
                    rec,
                    self.canvas(),
                    views(rows@),
                    i as int,
                    base as nat,
                    pre,
                ),
            decreases rows@.len() - i,
        {
            proof {
                assert(row_in(ctx.dom, views(rows@)[i as int]));
            }
            let all: usize = self.boxes.len();
            self.lay_row_positioned(fuel, rows[i].row, BoxId(base + i), pre);
            i += 1;
        }
    }

    fn lay_body(
        &mut self,
        fuel: usize,
        env: TableEnv,
        rows: &Vec<TableRow>,
        placed: &Vec<TablePlacement>,
        widths: &Vec<i32>,
        children: Vec<BoxId>,
    ) -> (r: i32)
        requires
            old(self).ok(),
            env.table.width >= 0,
            old(self).has_box(env.bid),
            0 < rows@.len(),
            rows_in(old(self).ctx.dom, views(rows@)),
            cells_in(old(self).ctx.dom, placed@),
            placements_fit(placed@, rows@.len() as int, widths@.len() as int),
            in_range(children@, old(self).boxes@.len()),
        ensures
            final(self).follows(*old(self)),
            (final(self).canvas(), r) == old(self).ctx.body_laid(
                old(self).ctx.builder(old(self).viewport, fuel as nat),
                old(self).canvas(),
                env,
                views(rows@),
                placed@,
                widths@,
                children@,
            ),
        decreases fuel, 15nat,
    {
        proof {
            reveal(Ctx::body_laid);
        }
        let base: usize = self.boxes.len();
        self.add_rows(env, rows);
        let n: usize = rows.len();
        let cells: Vec<CellBox> = self.lay_cells(fuel, env, widths, placed, Ghost(n as int));
        let heights: Vec<i32> = row_heights(placed, &cells, n, Ghost(widths@.len() as int));
        let (bottom, tops): (i32, Vec<i32>) = self.settle_rows(base, &heights, env.y);
        self.settle_cells(
            base,
            &heights,
            &tops,
            Ghost(env.y),
            placed,
            &cells,
            Ghost(widths@.len() as int),
        );
        self.lay_rows_positioned(fuel, rows, base, env.pre);
        let grid: TableGrid = TableGrid {
            placed,
            rows,
            widths,
            row_y: &tops,
            row_heights: &heights,
        };
        self.resolve_table_borders(&grid, env.bid, env.table, env.computed);
        let ghost loose = children@;
        let ghost ids = Seq::new(rows@.len(), |i: int| row_box(base as nat, i));
        let mut children: Vec<BoxId> = children;
        let all: usize = self.boxes.len();
        let mut i: usize = 0;
        while i < n
            invariant
                i <= n,
                n == rows@.len(),
                base + n <= all,
                ids == Seq::new(rows@.len(), |i: int| row_box(base as nat, i)),
                children@ =~= loose + ids.take(i as int),
                in_range(children@, all as nat),
            decreases n - i,
        {
            children.push(BoxId(base + i));
            i += 1;
        }
        proof {
            assert(ids.take(i as int) =~= ids);
        }
        self.set_children(env.bid, children);
        larger(minus(bottom, env.table.y), 0)
    }

    /// Lay a table's contents out. See [`Ctx::table_contents`].
    pub fn layout_table_contents(
        &mut self,
        fuel: usize,
        id: NodeId,
        computed: ComputedStyle,
        bid: BoxId,
        heights: BlockHeight,
        pre: bool,
    ) -> (r: i32)
        requires
            old(self).ok(),
            old(self).ctx.dom.has(id),
            old(self).has_box(bid),
            old(self).canvas().dims(bid).content.width >= 0,
        ensures
            final(self).follows(*old(self)),
            (final(self).canvas(), r) == old(self).ctx.table_contents(
                old(self).ctx.builder(old(self).viewport, fuel as nat),
                old(self).canvas(),
                id,
                computed,
                bid,
                heights,
                pre,
            ),
        decreases fuel, 16nat,
    {
        proof {
            reveal(Ctx::table_contents);
        }
        let ctx: Ctx<'a> = self.ctx;
        let (rows, loose): (Vec<TableRow>, Vec<NodeId>) = ctx.table_rows(id);
        let placed: Vec<TablePlacement> = ctx.table_placements(&rows);
        let n: usize = count_columns(&placed, Ghost(rows@.len() as int));
        if rows.len() == 0 || n == 0 {
            return self.layout_contents(fuel, id, computed, bid, heights, pre);
        }
        let widths: Vec<i32> = self.fit_columns(
            computed,
            bid,
            &placed,
            n,
            Ghost(rows@.len() as int),
        );
        let d: Dimensions = self.dims(bid);
        proof {
            assert(widths@.subrange(0, widths@.len() as int) =~= widths@);
            total_is_not_negative(widths@);
        }
        let wide: Rect = Rect {
            x: d.content.x,
            y: d.content.y,
            width: total_of(&widths, 0, widths.len()),
            height: d.content.height,
        };
        self.set_dims(bid, d.with_content(wide));
        let table: Rect = self.dims(bid).content;
        let env: TableEnv = TableEnv {
            bid,
            table,
            computed,
            ch: heights.specified,
            pre,
            y: table.y,
        };
        let (y, children): (i32, Vec<BoxId>) = self.lay_loose(fuel, env, &loose);
        let env: TableEnv = TableEnv {
            bid,
            table,
            computed,
            ch: heights.specified,
            pre,
            y,
        };
        self.lay_body(fuel, env, &rows, &placed, &widths, children)
    }
}

/// How tall the rows are that hold these cells.
fn row_heights(
    placed: &Vec<TablePlacement>,
    cells: &Vec<CellBox>,
    n: usize,
    Ghost(columns): Ghost<int>,
) -> (r: Vec<i32>)
    requires
        placements_fit(placed@, n as int, columns),
        cells@.len() == placed@.len(),
    ensures
        r@ == heights_from(placed@, cells@, 0, Seq::new(n as nat, |i: int| 1i32)),
        r@.len() == n,
{
    let mut heights: Vec<i32> = Vec::new();
    while heights.len() < n
        invariant
            heights@.len() <= n,
            forall|i: int| 0 <= i < heights@.len() ==> (#[trigger] heights@[i]) == 1,
        decreases n - heights@.len(),
    {
        heights.push(1);
    }
    proof {
        assert(heights@ =~= Seq::new(n as nat, |i: int| 1i32));
    }
    let ghost goal = heights_from(placed@, cells@, 0, heights@);
    let mut i: usize = 0;
    while i < placed.len()
        invariant
            i <= placed@.len(),
            heights@.len() == n,
            placements_fit(placed@, n as int, columns),
            cells@.len() == placed@.len(),
            goal == heights_from(placed@, cells@, i as int, heights@),
        decreases placed@.len() - i,
    {
        let p: TablePlacement = placed[i];
        proof {
            assert(placement_fits(placed@[i as int], n as int, columns));
        }
        if p.rowspan == 1 {
            let now: i32 = larger(heights[p.row], cells[i].height);
            heights.set(p.row, now);
        } else {
            raise_row_sum(&mut heights, p.row, p.rowspan, cells[i].height);
        }
        i += 1;
    }
    heights
}

/// Every placement's first slot belongs to no earlier one.
pub open spec fn corners_are_free(placed: Seq<TablePlacement>) -> bool {
    forall|k: int|
        0 <= k < placed.len() ==> owner_at(
            placed,
            k,
            (#[trigger] placed[k]).row as int,
            placed[k].col as int,
        ) is None
}

proof fn nobody_takes_a_free_slot(placed: Seq<TablePlacement>, n: int, r: int, c: int, j: int)
    requires
        0 <= j < n <= placed.len(),
        owner_at(placed, n, r, c) is None,
    ensures
        !takes(placed[j], r, c),
    decreases n,
{
    if j < n - 1 {
        nobody_takes_a_free_slot(placed, n - 1, r, c, j);
    }
}

proof fn a_found_column_is_free(placed: Seq<TablePlacement>, row: int, cursor: int)
    ensures
        cursor <= free_from(placed, row, cursor),
        free_from(placed, row, cursor) < TABLE_TRACKS ==> owner_of(
            placed,
            row,
            free_from(placed, row, cursor),
        ) is None,
    decreases TABLE_TRACKS - cursor,
{
    if cursor < TABLE_TRACKS && owner_of(placed, row, cursor) is Some {
        a_found_column_is_free(placed, row, cursor + 1);
    }
}

impl<'a> Ctx<'a> {
    proof fn cells_get_corners(
        &self,
        rows: int,
        row: int,
        cells: Seq<NodeId>,
        i: int,
        cursor: int,
        placed: Seq<TablePlacement>,
    )
        requires
            corners_are_free(placed),
            0 <= row < rows <= usize::MAX,
            0 <= i,
            0 <= cursor,
        ensures
            corners_are_free(self.cells_placed(rows, row, cells, i, cursor, placed)),
        decreases cells.len() - i,
    {
        if i < cells.len() {
            let col = free_from(placed, row, cursor);
            a_found_column_is_free(placed, row, cursor);
            if col < TABLE_TRACKS {
                let colspan = span_asked(
                    self.dom.attr_of(cells[i], "colspan"@),
                    TABLE_TRACKS - col,
                );
                let rowspan = span_asked(self.dom.attr_of(cells[i], "rowspan"@), rows - row);
                let p = TablePlacement {
                    cell: cells[i],
                    row: row as usize,
                    col: col as usize,
                    rowspan: rowspan as usize,
                    colspan: colspan as usize,
                };
                let next = placed.push(p);
                assert forall|k: int| 0 <= k < next.len() implies owner_at(
                    next,
                    k,
                    (#[trigger] next[k]).row as int,
                    next[k].col as int,
                ) is None by {
                    owner_ignores_later(placed, p, k, next[k].row as int, next[k].col as int);
                    if k < placed.len() {
                        assert(next[k] == placed[k]);
                        assert(owner_at(
                            placed,
                            k,
                            placed[k].row as int,
                            placed[k].col as int,
                        ) is None);
                    }
                }
                self.cells_get_corners(rows, row, cells, i + 1, col + colspan, next);
            }
        }
    }

    proof fn rows_get_corners(&self, rows: Seq<RowView>, r: int, placed: Seq<TablePlacement>)
        requires
            corners_are_free(placed),
            0 <= r,
            rows.len() <= usize::MAX,
        ensures
            corners_are_free(self.rows_placed(rows, r, placed)),
        decreases rows.len() - r,
    {
        if r < rows.len() {
            self.cells_get_corners(rows.len() as int, r, rows[r].cells, 0, 0, placed);
            self.rows_get_corners(
                rows,
                r + 1,
                self.cells_placed(rows.len() as int, r, rows[r].cells, 0, 0, placed),
            );
        }
    }

    /// Every cell of a table starts in a slot that no earlier cell takes,
    /// however its neighbours span.
    pub proof fn every_cell_has_a_corner_of_its_own(&self, rows: Seq<RowView>, j: int, k: int)
        requires
            rows.len() <= usize::MAX,
            0 <= j < k < self.placements_of(rows).len(),
        ensures
            ({
                let placed = self.placements_of(rows);
                !takes(placed[j], placed[k].row as int, placed[k].col as int)
            }),
    {
        self.rows_get_corners(rows, 0, Seq::empty());
        let placed = self.placements_of(rows);
        assert(owner_at(placed, k, placed[k].row as int, placed[k].col as int) is None);
        nobody_takes_a_free_slot(placed, k, placed[k].row as int, placed[k].col as int, j);
    }
}

} // verus!
