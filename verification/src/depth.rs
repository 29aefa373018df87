//! Layout follows a document as deep as it goes.
//!
//! A box is described with a bound on how many boxes deep it may be filled.
//! Here it is shown that the bound is never met: a document nests no deeper
//! than it has nodes, and below that depth nothing asks for more.

use vstd::prelude::*;

use crate::blocks::{BlockHeight, BoxArgs, FlowEnv, FlowView, Recipe};
use crate::boxes::{BoxId, BoxKind};
use crate::boxmodel::{
    column_cross_align, is_out_of_flow, relative_delta, shrink_to_fit, term_style,
};
use crate::breaker::wrapped;
use crate::cells::{larger, minus, plus, total};
use crate::columns::{span_asked, TABLE_TRACKS};
use crate::context::{text_source, ChildMode, Ctx, SourceView};
use crate::dimensions::{Dimensions, Rect};
use crate::dom::{Dom, NodeId};
use crate::engine::{plain_box, Canvas};
use crate::flex::{a_line_ends_past_its_start, line_end, lines_from, lines_ok, Item};
use crate::flexbox::{
    column_placed, cross_aligned, in_order, placement, plan_line, FlexAxis, FlexEnv, FlexItem,
    ItemPlacement, LinePlan,
};
use crate::grid::{
    grid_moved, grid_row_accepts_content, offset_from, one_more, placed_next, span_of,
    tracks_fitted, tracks_resolved, GridChild, GridItem, GridPlan, GridTrackAxis,
};
use crate::inline::{frags_from, item_frags, word_frags, FragView, InlineItem};
use crate::linebox::{run_cells, LineView};
use crate::order::sorting_sorts;
use crate::style::{ComputedStyle, TextAlign};
use crate::table::{
    cells_settled, columns_reached, free_from, heights_from, row_box, rows_settled, CellBox,
    RowView, TableEnv, TablePlacement,
};
use crate::term::Style;
use crate::text::{is_html_space, words_of, Spaces};

verus! {

impl Dom {
    /// How many nodes deep a node and what is inside it go.
    pub open spec fn height(&self, id: NodeId) -> nat
        decreases self.rank_of(id), self.kids(id).len() + 1,
        when self.wf() && self.has(id)
    {
        1 + self.tallest(id, 0)
    }

    /// The height of the tallest child from the `k`th on.
    pub open spec fn tallest(&self, id: NodeId, k: int) -> nat
        decreases self.rank_of(id), self.kids(id).len() - k,
        when self.wf() && self.has(id) && k >= 0
    {
        if k >= self.kids(id).len() {
            0
        } else {
            let here = self.height(self.kids(id)[k]);
            let rest = self.tallest(id, k + 1);
            if here >= rest {
                here
            } else {
                rest
            }
        }
    }

    proof fn a_kid_is_no_taller(&self, id: NodeId, k: int, m: int)
        requires
            self.wf(),
            self.has(id),
            0 <= k <= m < self.kids(id).len(),
        ensures
            self.height(self.kids(id)[m]) <= self.tallest(id, k),
        decreases m - k,
    {
        if k < m {
            self.a_kid_is_no_taller(id, k + 1, m);
        }
    }

    /// A child is less tall than its parent.
    pub proof fn a_kid_is_lower(&self, id: NodeId, k: int)
        requires
            self.wf(),
            self.has(id),
            0 <= k < self.kids(id).len(),
        ensures
            self.has(self.kids(id)[k]),
            self.height(self.kids(id)[k]) < self.height(id),
    {
        assert(self.nodes@[id.0 as int].children@[k] == self.kids(id)[k]);
        self.a_kid_is_no_taller(id, 0, k);
    }

    proof fn a_tallest_kid(&self, id: NodeId, k: int) -> (m: int)
        requires
            self.wf(),
            self.has(id),
            0 <= k < self.kids(id).len(),
        ensures
            k <= m < self.kids(id).len(),
            self.height(self.kids(id)[m]) == self.tallest(id, k),
        decreases self.kids(id).len() - k,
    {
        if self.height(self.kids(id)[k]) >= self.tallest(id, k + 1) {
            k
        } else {
            self.a_tallest_kid(id, k + 1)
        }
    }

    /// A way down from a node, as long as the node is tall.
    proof fn a_longest_way_down(&self, id: NodeId) -> (way: Seq<int>)
        requires
            self.wf(),
            self.has(id),
        ensures
            way.len() == self.height(id),
            way[0] == id.0,
            forall|i: int| 0 <= i < way.len() ==> 0 <= #[trigger] way[i] < self.nodes@.len(),
            forall|i: int, j: int|
                0 <= i < j < way.len() ==> self.rank@[#[trigger] way[i]]
                    > self.rank@[#[trigger] way[j]],
        decreases self.rank_of(id),
    {
        let here = seq![id.0 as int];
        if self.kids(id).len() == 0 {
            here
        } else {
            let m = self.a_tallest_kid(id, 0);
            let kid = self.kids(id)[m];
            assert(self.nodes@[id.0 as int].children@[m] == kid);
            let rest = self.a_longest_way_down(kid);
            let way = here + rest;
            assert forall|i: int| 0 <= i < way.len() implies 0 <= #[trigger] way[i]
                < self.nodes@.len() by {
                if i > 0 {
                    assert(way[i] == rest[i - 1]);
                }
            }
            assert forall|i: int, j: int| 0 <= i < j < way.len() implies self.rank@[
                #[trigger] way[i]]
                > self.rank@[#[trigger] way[j]] by {
                assert(way[j] == rest[j - 1]);
                if i > 0 {
                    assert(way[i] == rest[i - 1]);
                } else if j > 1 {
                    assert(self.rank@[rest[0]] > self.rank@[rest[j - 1]]);
                }
            }
            way
        }
    }

    /// No document nests deeper than it has nodes.
    pub proof fn a_document_is_no_deeper_than_its_nodes(&self, id: NodeId)
        requires
            self.wf(),
            self.has(id),
        ensures
            self.height(id) <= self.nodes@.len(),
    {
        let way = self.a_longest_way_down(id);
        let n = self.nodes@.len() as int;
        assert(way.no_duplicates()) by {
            assert forall|i: int, j: int| 0 <= i < way.len() && 0 <= j < way.len() && i
                != j implies way[i] != way[j] by {
                if i < j {
                    assert(self.rank@[way[i]] > self.rank@[way[j]]);
                } else {
                    assert(self.rank@[way[j]] > self.rank@[way[i]]);
                }
            }
        }
        way.unique_seq_to_set();
        let all = vstd::set_lib::set_int_range(0, n);
        vstd::set_lib::lemma_int_range(0, n);
        assert(way.to_set().subset_of(all)) by {
            assert forall|v: int| way.to_set().contains(v) implies all.contains(v) by {
                let i = way.index_of(v);
                assert(0 <= way[i] < n);
            }
        }
        vstd::set_lib::lemma_len_subset(way.to_set(), all);
    }
}

/// Every item stands for one of the sources.
spec fn known_sources(items: Seq<FlexItem>, n: nat) -> bool {
    forall|j: int| 0 <= j < items.len() ==> (#[trigger] items[j]).source < n
}

proof fn ordering_keeps_sources(items: Seq<FlexItem>, n: nat)
    requires
        known_sources(items, n),
        items.len() <= usize::MAX,
    ensures
        known_sources(in_order(items), n),
        in_order(items).len() == items.len(),
{
    let keys = items.map_values(|i: FlexItem| i.order as i128);
    sorting_sorts(keys, keys.len() as int);
    let order = crate::order::sorted_indices(keys, keys.len() as int);
    let sorted = in_order(items);
    assert forall|j: int| 0 <= j < sorted.len() implies (#[trigger] sorted[j]).source < n by {
        assert(order[j] < keys.len());
        assert(sorted[j] == items[order[j] as int]);
    }
}

proof fn lines_are_ranges(items: Seq<Item>, inner_main: i32, gap: i32, wraps: bool, i: int)
    requires
        0 <= i,
        items.len() <= usize::MAX,
    ensures
        lines_ok(lines_from(items, inner_main, gap, wraps, i), items.len() as int),
    decreases items.len() - i,
{
    if i < items.len() {
        a_line_ends_past_its_start(
            items,
            inner_main,
            gap,
            wraps,
            i + 1,
            plus(items[i].hypothetical, items[i].outer_edges),
        );
        let end = line_end(items, inner_main, gap, wraps, i);
        lines_are_ranges(items, inner_main, gap, wraps, end);
        let rest = lines_from(items, inner_main, gap, wraps, end);
        let all = lines_from(items, inner_main, gap, wraps, i);
        assert forall|k: int| 0 <= k < all.len() implies (#[trigger] all[k]).0 < all[k].1
            && all[k].1 <= items.len() by {
            if k > 0 {
                assert(all[k] == rest[k - 1]);
            }
        }
    }
}

impl<'a> Ctx<'a> {
    /// A node less tall than `h`.
    pub open spec fn low(&self, id: NodeId, h: nat) -> bool {
        self.dom.has(id) && self.dom.height(id) < h
    }

    pub open spec fn nodes_low(&self, nodes: Seq<NodeId>, h: nat) -> bool {
        forall|i: int| 0 <= i < nodes.len() ==> self.low(#[trigger] nodes[i], h)
    }

    spec fn item_low(&self, item: InlineItem, h: nat) -> bool {
        item matches InlineItem::Atomic { node } ==> self.low(node, h)
    }

    spec fn items_low(&self, items: Seq<InlineItem>, h: nat) -> bool {
        forall|i: int| 0 <= i < items.len() ==> self.item_low(#[trigger] items[i], h)
    }

    spec fn frag_low(&self, frag: FragView, h: nat) -> bool {
        frag matches FragView::Atomic { node } ==> self.low(node, h)
    }

    spec fn frags_low(&self, frags: Seq<FragView>, h: nat) -> bool {
        forall|i: int| 0 <= i < frags.len() ==> self.frag_low(#[trigger] frags[i], h)
    }

    spec fn flow_low(&self, flow: FlowView, h: nat) -> bool {
        self.items_low(flow.run, h) && self.nodes_low(flow.absolutes, h)
    }

    spec fn source_low(&self, source: SourceView, h: nat) -> bool {
        match source {
            SourceView::Element(node) => self.low(node, h),
            SourceView::Text(nodes) => self.all_texts(nodes),
        }
    }

    spec fn sources_low(&self, sources: Seq<SourceView>, h: nat) -> bool {
        forall|i: int| 0 <= i < sources.len() ==> self.source_low(#[trigger] sources[i], h)
    }

    spec fn all_texts(&self, nodes: Seq<NodeId>) -> bool {
        forall|i: int|
            0 <= i < nodes.len() ==> self.dom.has(#[trigger] nodes[i]) && self.dom.is_text(nodes[i])
    }

    spec fn row_low(&self, row: RowView, h: nat) -> bool {
        &&& self.low(row.row, h)
        &&& self.nodes_low(self.dom.kids(row.row), h)
        &&& self.nodes_low(row.cells, h)
    }

    spec fn rows_low(&self, rows: Seq<RowView>, h: nat) -> bool {
        forall|i: int| 0 <= i < rows.len() ==> self.row_low(#[trigger] rows[i], h)
    }

    spec fn cells_low(&self, placed: Seq<TablePlacement>, h: nat) -> bool {
        forall|i: int| 0 <= i < placed.len() ==> self.low((#[trigger] placed[i]).cell, h)
    }

    spec fn grid_low(&self, placed: Seq<GridItem>, h: nat) -> bool {
        forall|i: int| 0 <= i < placed.len() ==> self.low((#[trigger] placed[i]).child, h)
    }

    /// No element keeps its place in the viewport.
    pub open spec fn nothing_is_fixed(&self) -> bool {
        forall|id: NodeId| self.dom.has(id) ==> !(#[trigger] self.style(id).position is Fixed)
    }

    /// Two ways to build boxes that agree on every node less tall than `h`, and
    /// on the viewport if it matters.
    spec fn agree(
        &self,
        r1: Recipe,
        r2: Recipe,
        h: nat,
    ) -> bool {
        &&& forall|a: BoxArgs| self.low(a.id, h) ==> #[trigger] (r1.build)(a) == (r2.build)(a)
        &&& r1.viewport == r2.viewport || self.nothing_is_fixed()
    }

    pub proof fn kids_are_low(&self, id: NodeId)
        requires
            self.wf(),
            self.dom.has(id),
        ensures
            self.nodes_low(self.dom.kids(id), self.dom.height(id)),
    {
        let kids = self.dom.kids(id);
        assert forall|k: int| 0 <= k < kids.len() implies self.low(
            #[trigger] kids[k],
            self.dom.height(id),
        ) by {
            self.dom.a_kid_is_lower(id, k);
        }
    }

    proof fn inline_items_are_low(&self, id: NodeId, width: i32, h: nat)
        requires
            self.wf(),
            self.low(id, h),
        ensures
            self.items_low(self.inline_items(id, width), h),
        decreases self.dom.rank_of(id), 1nat,
    {
        self.kid_items_are_low(id, width, 0, h);
    }

    proof fn kid_items_are_low(&self, id: NodeId, width: i32, k: int, h: nat)
        requires
            self.wf(),
            self.low(id, h),
            0 <= k,
        ensures
            self.items_low(self.kid_items(id, width, k), h),
        decreases self.dom.rank_of(id), 0nat, self.dom.kids(id).len() - k,
    {
        if k < self.dom.kids(id).len() {
            let c = self.dom.kids(id)[k];
            assert(self.dom.nodes@[id.0 as int].children@[k] == c);
            self.dom.a_kid_is_lower(id, k);
            self.inline_items_are_low(c, width, h);
            self.kid_items_are_low(id, width, k + 1, h);
        }
    }

    proof fn loose_absolutes_are_low(&self, id: NodeId, k: int, h: nat)
        requires
            self.wf(),
            self.low(id, h),
            0 <= k,
        ensures
            self.nodes_low(self.loose_absolutes(id, k), h),
        decreases self.dom.rank_of(id), self.dom.kids(id).len() - k,
    {
        if k < self.dom.kids(id).len() {
            let c = self.dom.kids(id)[k];
            assert(self.dom.nodes@[id.0 as int].children@[k] == c);
            self.dom.a_kid_is_lower(id, k);
            self.loose_absolutes_are_low(c, 0, h);
            self.loose_absolutes_are_low(id, k + 1, h);
        }
    }

    proof fn words_are_low(
        &self,
        words: Seq<Seq<char>>,
        k: int,
        pending: Option<Style>,
        style: Style,
        node: NodeId,
        h: nat,
    )
        requires
            0 <= k,
        ensures
            self.frags_low(word_frags(words, k, pending, style, node), h),
        decreases words.len() - k,
    {
        if k < words.len() {
            self.words_are_low(words, k + 1, None, style, node, h);
            let rest = word_frags(words, k + 1, None, style, node);
            let all = word_frags(words, k, pending, style, node);
            let lead = all.len() - rest.len();
            assert forall|i: int| 0 <= i < all.len() implies self.frag_low(
                #[trigger] all[i],
                h,
            ) by {
                if i >= lead {
                    assert(all[i] == rest[i - lead]);
                }
            }
        }
    }

    proof fn low_items_make_low_frags(
        &self,
        items: Seq<InlineItem>,
        i: int,
        pending: Option<Style>,
        h: nat,
    )
        requires
            0 <= i,
            self.items_low(items, h),
        ensures
            self.frags_low(frags_from(self.dom, items, i, pending), h),
        decreases items.len() - i,
    {
        if i < items.len() {
            let (here, next) = item_frags(self.dom, items[i], pending);
            let rest = frags_from(self.dom, items, i + 1, next);
            self.low_items_make_low_frags(items, i + 1, next, h);
            assert(self.item_low(items[i], h));
            if let InlineItem::Text { node, style } = items[i] {
                let text = self.dom.text_of(node);
                let before = if text.len() > 0 && is_html_space(text[0]) {
                    Some(style)
                } else {
                    pending
                };
                self.words_are_low(words_of(text, Spaces::Html), 0, before, style, node, h);
            }
            assert(self.frags_low(here, h));
            let all = here + rest;
            assert forall|j: int| 0 <= j < all.len() implies self.frag_low(
                #[trigger] all[j],
                h,
            ) by {
                if j < here.len() {
                    assert(all[j] == here[j]);
                } else {
                    assert(all[j] == rest[j - here.len()]);
                }
            }
        }
    }

    proof fn runs_are_low(&self, nodes: Seq<NodeId>, width: i32, i: int, h: nat)
        requires
            self.wf(),
            self.all_texts(nodes),
            0 <= i,
        ensures
            self.items_low(self.run_items(nodes, width, i), h),
        decreases nodes.len() - i,
    {
        if i < nodes.len() {
            assert(self.dom.is_text(nodes[i]));
            self.runs_are_low(nodes, width, i + 1, h);
        }
    }

    proof fn sources_are_low(&self, kids: Seq<NodeId>, pre: bool, k: int, run: Seq<NodeId>, h: nat)
        requires
            self.wf(),
            self.nodes_low(kids, h),
            self.all_texts(run),
            0 <= k,
        ensures
            self.sources_low(self.sources_from(kids, pre, k, run), h),
        decreases kids.len() - k,
    {
        assert(self.sources_low(text_source(self.dom, run, pre), h));
        if k < kids.len() {
            let c = kids[k];
            assert(self.low(kids[k], h));
            if self.dom.is_text(c) {
                self.sources_are_low(kids, pre, k + 1, run.push(c), h);
            } else if self.dom.is_element(c) && !self.hides(c) {
                self.sources_are_low(kids, pre, k + 1, Seq::empty(), h);
            } else {
                self.sources_are_low(kids, pre, k + 1, run, h);
            }
        }
    }

    proof fn gone_kids_are_low(&self, kids: Seq<NodeId>, k: int, h: nat)
        requires
            self.nodes_low(kids, h),
            0 <= k,
        ensures
            self.nodes_low(self.out_of_flow_kids(kids, k), h),
        decreases kids.len() - k,
    {
        if k < kids.len() {
            assert(self.low(kids[k], h));
            self.gone_kids_are_low(kids, k + 1, h);
        }
    }

    proof fn loose_kids_are_low(&self, kids: Seq<NodeId>, k: int, h: nat)
        requires
            self.nodes_low(kids, h),
            0 <= k,
        ensures
            self.nodes_low(self.loose_from(kids, k), h),
        decreases kids.len() - k,
    {
        if k < kids.len() {
            assert(self.low(kids[k], h));
            self.loose_kids_are_low(kids, k + 1, h);
        }
    }

    proof fn cells_are_low(&self, kids: Seq<NodeId>, k: int, h: nat)
        requires
            self.nodes_low(kids, h),
            0 <= k,
        ensures
            self.nodes_low(self.cells_from(kids, k), h),
        decreases kids.len() - k,
    {
        if k < kids.len() {
            assert(self.low(kids[k], h));
            self.cells_are_low(kids, k + 1, h);
        }
    }

    proof fn rows_are_low(&self, id: NodeId, k: int, h: nat)
        requires
            self.wf(),
            self.dom.has(id),
            self.dom.height(id) <= h,
            0 <= k,
        ensures
            self.rows_low(self.rows_below(id, k), h),
        decreases self.dom.rank_of(id), self.dom.kids(id).len() - k,
    {
        if k < self.dom.kids(id).len() {
            let c = self.dom.kids(id)[k];
            assert(self.dom.nodes@[id.0 as int].children@[k] == c);
            self.dom.a_kid_is_lower(id, k);
            self.rows_are_low(c, 0, h);
            self.rows_are_low(id, k + 1, h);
            self.kids_are_low(c);
            let kids = self.dom.kids(c);
            assert(self.nodes_low(kids, h)) by {
                assert forall|j: int| 0 <= j < kids.len() implies self.low(
                    #[trigger] kids[j],
                    h,
                ) by {
                    assert(self.low(kids[j], self.dom.height(c)));
                }
            }
            self.cells_are_low(kids, 0, h);
            let all = self.rows_below(id, k);
            let rest = self.rows_below(id, k + 1);
            let lead = all.len() - rest.len();
            assert forall|j: int| 0 <= j < all.len() implies self.row_low(#[trigger] all[j], h) by {
                if j >= lead {
                    assert(all[j] == rest[j - lead]);
                } else if self.dom.tag_of(c) == "tr"@ {
                    assert(all[j] == (RowView { row: c, cells: self.cells_from(kids, 0) }));
                } else {
                    assert(all[j] == self.rows_below(c, 0)[j]);
                }
            }
        }
    }

    proof fn row_cells_are_low(
        &self,
        rows: int,
        row: int,
        cells: Seq<NodeId>,
        i: int,
        cursor: int,
        placed: Seq<TablePlacement>,
        h: nat,
    )
        requires
            self.nodes_low(cells, h),
            0 <= i,
            self.cells_low(placed, h),
        ensures
            self.cells_low(self.cells_placed(rows, row, cells, i, cursor, placed), h),
        decreases cells.len() - i,
    {
        if i < cells.len() {
            assert(self.low(cells[i], h));
            let col = free_from(placed, row, cursor);
            if col < TABLE_TRACKS {
                let colspan = span_asked(
                    self.dom.attr_of(cells[i], "colspan"@),
                    TABLE_TRACKS - col,
                );
                let rowspan = span_asked(self.dom.attr_of(cells[i], "rowspan"@), rows - row);
                let next = placed.push(
                    TablePlacement {
                        cell: cells[i],
                        row: row as usize,
                        col: col as usize,
                        rowspan: rowspan as usize,
                        colspan: colspan as usize,
                    },
                );
                self.row_cells_are_low(rows, row, cells, i + 1, col + colspan, next, h);
            }
        }
    }

    proof fn placed_cells_are_low(
        &self,
        rows: Seq<RowView>,
        r: int,
        placed: Seq<TablePlacement>,
        h: nat,
    )
        requires
            self.rows_low(rows, h),
            0 <= r,
            self.cells_low(placed, h),
        ensures
            self.cells_low(self.rows_placed(rows, r, placed), h),
        decreases rows.len() - r,
    {
        if r < rows.len() {
            assert(self.row_low(rows[r], h));
            self.row_cells_are_low(rows.len() as int, r, rows[r].cells, 0, 0, placed, h);
            let next = self.cells_placed(rows.len() as int, r, rows[r].cells, 0, 0, placed);
            self.placed_cells_are_low(rows, r + 1, next, h);
        }
    }

    proof fn placed_kids_are_low(
        &self,
        kids: Seq<NodeId>,
        k: int,
        columns: usize,
        placed: Seq<GridItem>,
        h: nat,
    )
        requires
            self.nodes_low(kids, h),
            0 <= k,
            self.grid_low(placed, h),
        ensures
            self.grid_low(self.placed_from(kids, k, columns, placed), h),
        decreases kids.len() - k,
    {
        if k < kids.len() {
            assert(self.low(kids[k], h));
            let next = if self.is_grid_item(kids[k]) {
                placed.push(placed_next(placed, kids[k], self.style(kids[k]), columns))
            } else {
                placed
            };
            self.placed_kids_are_low(kids, k + 1, columns, next, h);
        }
    }

    proof fn items_know_their_sources(
        &self,
        rec: Recipe,
        cv: Canvas,
        sources: Seq<SourceView>,
        k: int,
        env: FlexEnv,
        items: Seq<FlexItem>,
    )
        requires
            0 <= k <= sources.len(),
            sources.len() <= usize::MAX,
            items.len() == k,
            known_sources(items, sources.len()),
        ensures
            ({
                let all = self.flex_items_from(rec, cv, sources, k, env, items).1;
                known_sources(all, sources.len()) && all.len() == sources.len()
            }),
        decreases sources.len() - k,
    {
        if k < sources.len() {
            reveal(Ctx::column_item);
            reveal(Ctx::row_item);
            let (cv2, item) = if env.axis.vertical {
                self.column_item(rec, cv, sources[k], k as usize, env)
            } else {
                (cv, self.row_item(sources[k], k as usize, env.axis))
            };
            assert(item.source == k);
            let next = items.push(item);
            assert forall|j: int| 0 <= j < next.len() implies (#[trigger] next[j]).source
                < sources.len() by {
                if j < items.len() {
                    assert(items[j].source < sources.len());
                }
            }
            self.items_know_their_sources(rec, cv2, sources, k + 1, env, next);
        }
    }

    pub proof fn no_more_sources_than_kids(
        &self,
        kids: Seq<NodeId>,
        pre: bool,
        k: int,
        run: Seq<NodeId>,
    )
        requires
            0 <= k <= kids.len(),
        ensures
            self.sources_from(kids, pre, k, run).len() <= kids.len() - k + if run.len() > 0 {
                1int
            } else {
                0
            },
        decreases kids.len() - k,
    {
        if k < kids.len() {
            let c = kids[k];
            self.no_more_sources_than_kids(kids, pre, k + 1, run.push(c));
            self.no_more_sources_than_kids(kids, pre, k + 1, Seq::empty());
            self.no_more_sources_than_kids(kids, pre, k + 1, run);
        }
    }

    // What is made of nodes less tall than `h` comes out the same by two ways
    // to build boxes that agree on those nodes. One statement of this for each
    // step of layout follows, the innermost first.

    proof fn same_atomic(
        &self,
        r1: Recipe,
        r2: Recipe,
        h: nat,
        cv: Canvas,
        node: NodeId,
        dims: Dimensions,
        x: i32,
        y: i32,
        pre: bool,
    )
        requires
            self.wf(),
            self.agree(r1, r2, h),
            self.low(node, h),
        ensures
            self.atomic_built(r1, cv, node, dims, x, y, pre)
                == self.atomic_built(r2, cv, node, dims, x, y, pre),
    {
        reveal(Ctx::atomic_built);
    }

    proof fn same_frag(
        &self,
        r1: Recipe,
        r2: Recipe,
        h: nat,
        cv: Canvas,
        lb: LineView,
        frag: FragView,
        x: i32,
        width: i32,
        align: TextAlign,
    )
        requires
            self.wf(),
            self.agree(r1, r2, h),
            self.frag_low(frag, h),
        ensures
            self.frag_placed(r1, cv, lb, frag, x, width, align)
                == self.frag_placed(r2, cv, lb, frag, x, width, align),
    {
        reveal(Ctx::frag_placed);
        if let FragView::Atomic { node } = frag {
            let first = self.atomic_size(node, width, minus(width, lb.cells));
            let (cv2, lb2) = wrapped(cv, lb, x, width, align);
            let dims = self.atomic_size(node, width, width);
            self.same_atomic(r1, r2, h, cv2, node, dims, plus(x, 0), lb2.y, false);
            self.same_atomic(r1, r2, h, cv, node, first, plus(x, lb.cells), lb.y, false);
        }
    }

    proof fn same_frags(
        &self,
        r1: Recipe,
        r2: Recipe,
        h: nat,
        cv: Canvas,
        lb: LineView,
        frags: Seq<FragView>,
        i: int,
        x: i32,
        width: i32,
        align: TextAlign,
    )
        requires
            self.wf(),
            self.agree(r1, r2, h),
            0 <= i,
            self.frags_low(frags, h),
        ensures
            self.frags_placed(r1, cv, lb, frags, i, x, width, align)
                == self.frags_placed(r2, cv, lb, frags, i, x, width, align),
        decreases frags.len() - i,
    {
        if i < frags.len() {
            assert(self.frag_low(frags[i], h));
            self.same_frag(r1, r2, h, cv, lb, frags[i], x, width, align);
            let (cv2, lb2) = self.frag_placed(r1, cv, lb, frags[i], x, width, align);
            self.same_frags(r1, r2, h, cv2, lb2, frags, i + 1, x, width, align);
        }
    }

    proof fn same_inline(
        &self,
        r1: Recipe,
        r2: Recipe,
        h: nat,
        cv: Canvas,
        items: Seq<InlineItem>,
        x: i32,
        y: i32,
        width: i32,
        align: TextAlign,
    )
        requires
            self.wf(),
            self.agree(r1, r2, h),
            self.items_low(items, h),
        ensures
            self.inline_laid(r1, cv, items, x, y, width, align)
                == self.inline_laid(r2, cv, items, x, y, width, align),
    {
        reveal(Ctx::inline_laid);
        self.low_items_make_low_frags(items, 0, None, h);
        self.same_frags(
            r1,
            r2,
            h,
            cv,
            LineView::begin(y),
            frags_from(self.dom, items, 0, None),
            0,
            x,
            larger(width, 1),
            align,
        );
    }

    proof fn same_pre_item(
        &self,
        r1: Recipe,
        r2: Recipe,
        h: nat,
        cv: Canvas,
        lb: LineView,
        item: InlineItem,
        x: i32,
        width: i32,
    )
        requires
            self.wf(),
            self.agree(r1, r2, h),
            self.item_low(item, h),
        ensures
            self.pre_item(r1, cv, lb, item, x, width) == self.pre_item(r2, cv, lb, item, x, width),
    {
        reveal(Ctx::pre_item);
        if let InlineItem::Atomic { node } = item {
            let placed = run_cells(lb.cur, 0, 0);
            let dims = self.atomic_size(node, width, minus(width, placed));
            self.same_atomic(r1, r2, h, cv, node, dims, plus(x, placed), lb.y, true);
        }
    }

    proof fn same_pre_items(
        &self,
        r1: Recipe,
        r2: Recipe,
        h: nat,
        cv: Canvas,
        lb: LineView,
        items: Seq<InlineItem>,
        i: int,
        x: i32,
        width: i32,
    )
        requires
            self.wf(),
            self.agree(r1, r2, h),
            0 <= i,
            self.items_low(items, h),
        ensures
            self.pre_items(r1, cv, lb, items, i, x, width)
                == self.pre_items(r2, cv, lb, items, i, x, width),
        decreases items.len() - i,
    {
        if i < items.len() {
            assert(self.item_low(items[i], h));
            self.same_pre_item(r1, r2, h, cv, lb, items[i], x, width);
            let (cv2, lb2) = self.pre_item(r1, cv, lb, items[i], x, width);
            self.same_pre_items(r1, r2, h, cv2, lb2, items, i + 1, x, width);
        }
    }

    proof fn same_pre(
        &self,
        r1: Recipe,
        r2: Recipe,
        h: nat,
        cv: Canvas,
        items: Seq<InlineItem>,
        x: i32,
        y: i32,
        width: i32,
    )
        requires
            self.wf(),
            self.agree(r1, r2, h),
            self.items_low(items, h),
        ensures
            self.pre_laid(r1, cv, items, x, y, width) == self.pre_laid(r2, cv, items, x, y, width),
    {
        reveal(Ctx::pre_laid);
        self.same_pre_items(r1, r2, h, cv, LineView::begin(y), items, 0, x, width);
    }

    proof fn same_anonymous(
        &self,
        r1: Recipe,
        r2: Recipe,
        h: nat,
        cv: Canvas,
        x: i32,
        width: i32,
        y: i32,
        prev: i32,
        items: Seq<InlineItem>,
        align: TextAlign,
        pre: bool,
    )
        requires
            self.wf(),
            self.agree(r1, r2, h),
            self.items_low(items, h),
        ensures
            self.anonymous(r1, cv, x, width, y, prev, items, align, pre)
                == self.anonymous(r2, cv, x, width, y, prev, items, align, pre),
    {
        reveal(Ctx::anonymous);
        if items.len() > 0 {
            let after = minus(y, prev);
            let used_top = if after == 0 && prev == 0 {
                0
            } else {
                prev
            };
            let top = plus(after, used_top);
            let with = cv.with_box(
                plain_box(
                    BoxKind::AnonymousBlock,
                    None,
                    Dimensions::bare(Rect { x, y: top, width, height: 0 }),
                    ComputedStyle::initial(),
                ),
            );
            self.same_pre(r1, r2, h, with, items, x, top, width);
            self.same_inline(r1, r2, h, with, items, x, top, width, align);
        }
    }

    proof fn same_block(
        &self,
        r1: Recipe,
        r2: Recipe,
        h: nat,
        cv: Canvas,
        id: NodeId,
        computed: ComputedStyle,
        x: i32,
        cw: i32,
        ch: Option<i32>,
        y: i32,
        prev: i32,
        pre: bool,
    )
        requires
            self.wf(),
            self.agree(r1, r2, h),
            self.low(id, h),
        ensures
            self.block_laid(r1, cv, id, computed, x, cw, ch, y, prev, pre)
                == self.block_laid(r2, cv, id, computed, x, cw, ch, y, prev, pre),
    {
        reveal(Ctx::block_laid);
    }

    proof fn same_element(
        &self,
        r1: Recipe,
        r2: Recipe,
        h: nat,
        cv: Canvas,
        id: NodeId,
        x: i32,
        cw: i32,
        ch: Option<i32>,
        y: i32,
        prev: i32,
        pre: bool,
    )
        requires
            self.wf(),
            self.agree(r1, r2, h),
            self.low(id, h),
        ensures
            self.element_laid(r1, cv, id, x, cw, ch, y, prev, pre)
                == self.element_laid(r2, cv, id, x, cw, ch, y, prev, pre),
    {
        reveal(Ctx::element_laid);
        let c = self.shown_style(id);
        let kept = pre || self.dom.tag_of(id) == "pre"@;
        self.same_block(r1, r2, h, cv, id, c, x, cw, ch, y, prev, kept);
        let items = self.inline_items(id, cw);
        self.inline_items_are_low(id, cw, h);
        self.same_anonymous(r1, r2, h, cv, x, cw, y, prev, items, TextAlign::Left, kept);
    }

    proof fn same_node(
        &self,
        r1: Recipe,
        r2: Recipe,
        h: nat,
        cv: Canvas,
        id: NodeId,
        x: i32,
        cw: i32,
        ch: Option<i32>,
        y: i32,
        prev: i32,
        pre: bool,
    )
        requires
            self.wf(),
            self.agree(r1, r2, h),
            self.low(id, h),
        ensures
            self.lay_node(r1, cv, id, x, cw, ch, y, prev, pre)
                == self.lay_node(r2, cv, id, x, cw, ch, y, prev, pre),
    {
        reveal(Ctx::lay_node);
        let text = seq![InlineItem::Text { node: id, style: term_style(&self.style(id)) }];
        self.same_anonymous(r1, r2, h, cv, x, cw, y, prev, text, TextAlign::Left, pre);
        self.same_element(r1, r2, h, cv, id, x, cw, ch, y, prev, pre);
    }

    proof fn same_positioned(
        &self,
        r1: Recipe,
        r2: Recipe,
        h: nat,
        cv: Canvas,
        id: NodeId,
        parent: BoxId,
        pre: bool,
    )
        requires
            self.wf(),
            self.agree(r1, r2, h),
            self.low(id, h),
        ensures
            self.positioned(r1, cv, id, parent, pre) == self.positioned(r2, cv, id, parent, pre),
    {
        reveal(Ctx::positioned);
    }

    proof fn same_absolutes(
        &self,
        r1: Recipe,
        r2: Recipe,
        h: nat,
        cv: Canvas,
        nodes: Seq<NodeId>,
        i: int,
        bid: BoxId,
        pre: bool,
        children: Seq<BoxId>,
    )
        requires
            self.wf(),
            self.agree(r1, r2, h),
            0 <= i,
            self.nodes_low(nodes, h),
        ensures
            self.absolutes_laid(r1, cv, nodes, i, bid, pre, children)
                == self.absolutes_laid(r2, cv, nodes, i, bid, pre, children),
        decreases nodes.len() - i,
    {
        if i < nodes.len() {
            assert(self.low(nodes[i], h));
            self.same_positioned(r1, r2, h, cv, nodes[i], bid, pre);
            let (cv2, abs) = self.positioned(r1, cv, nodes[i], bid, pre);
            let next = match abs {
                Some(id) => children.push(id),
                None => children,
            };
            self.same_absolutes(r1, r2, h, cv2, nodes, i + 1, bid, pre, next);
        }
    }

    proof fn same_flush(
        &self,
        r1: Recipe,
        r2: Recipe,
        h: nat,
        cv: Canvas,
        flow: FlowView,
        env: FlowEnv,
    )
        requires
            self.wf(),
            self.agree(r1, r2, h),
            self.flow_low(flow, h),
        ensures
            self.flow_flushed(r1, cv, flow, env) == self.flow_flushed(r2, cv, flow, env),
            self.flow_low(self.flow_flushed(r1, cv, flow, env).1, h),
    {
        reveal(Ctx::flow_flushed);
        self.same_anonymous(
            r1,
            r2,
            h,
            cv,
            env.x,
            env.width,
            flow.y,
            flow.prev,
            flow.run,
            env.align,
            env.pre,
        );
    }

    proof fn same_marker(
        &self,
        r1: Recipe,
        r2: Recipe,
        h: nat,
        cv: Canvas,
        flow: FlowView,
        env: FlowEnv,
    )
        requires
            self.wf(),
            self.agree(r1, r2, h),
            self.flow_low(flow, h),
        ensures
            self.flow_marked(r1, cv, flow, env) == self.flow_marked(r2, cv, flow, env),
            self.flow_low(self.flow_marked(r1, cv, flow, env).1, h),
    {
        reveal(Ctx::flow_marked);
        let marker = seq![InlineItem::Marker { style: Style::plain() }];
        self.same_anonymous(
            r1,
            r2,
            h,
            cv,
            env.x,
            env.width,
            flow.y,
            flow.prev,
            marker,
            env.align,
            env.pre,
        );
    }

    proof fn same_flow_child(
        &self,
        r1: Recipe,
        r2: Recipe,
        h: nat,
        cv: Canvas,
        flow: FlowView,
        env: FlowEnv,
        c: NodeId,
    )
        requires
            self.wf(),
            self.agree(r1, r2, h),
            self.flow_low(flow, h),
            self.low(c, h),
        ensures
            self.flow_child(r1, cv, flow, env, c) == self.flow_child(r2, cv, flow, env, c),
            self.flow_low(self.flow_child(r1, cv, flow, env, c).1, h),
    {
        reveal(Ctx::flow_child);
        if !self.leaves_flow(c) {
            match self.mode_of(c) {
                ChildMode::Skip => {},
                ChildMode::Inline => {
                    self.inline_items_are_low(c, env.width, h);
                    self.loose_absolutes_are_low(c, 0, h);
                },
                ChildMode::Block => {
                    self.same_flush(r1, r2, h, cv, flow, env);
                    let (cv1, flow1) = self.flow_flushed(r1, cv, flow, env);
                    self.same_marker(r1, r2, h, cv1, flow1, env);
                    let (cv2, flow2) = if flow1.marker {
                        self.flow_marked(r1, cv1, flow1, env)
                    } else {
                        (cv1, flow1)
                    };
                    self.same_node(
                        r1,
                        r2,
                        h,
                        cv2,
                        c,
                        env.x,
                        env.width,
                        env.height,
                        flow2.y,
                        flow2.prev,
                        env.pre,
                    );
                },
            }
        }
    }

    proof fn same_flow_children(
        &self,
        r1: Recipe,
        r2: Recipe,
        h: nat,
        cv: Canvas,
        flow: FlowView,
        env: FlowEnv,
        kids: Seq<NodeId>,
        k: int,
    )
        requires
            self.wf(),
            self.agree(r1, r2, h),
            0 <= k,
            self.flow_low(flow, h),
            self.nodes_low(kids, h),
        ensures
            self.flow_children(r1, cv, flow, env, kids, k)
                == self.flow_children(r2, cv, flow, env, kids, k),
            self.flow_low(self.flow_children(r1, cv, flow, env, kids, k).1, h),
        decreases kids.len() - k,
    {
        if k < kids.len() {
            assert(self.low(kids[k], h));
            self.same_flow_child(r1, r2, h, cv, flow, env, kids[k]);
            let (cv2, flow2) = self.flow_child(r1, cv, flow, env, kids[k]);
            self.same_flow_children(r1, r2, h, cv2, flow2, env, kids, k + 1);
        }
    }

    proof fn same_block_contents(
        &self,
        r1: Recipe,
        r2: Recipe,
        h: nat,
        cv: Canvas,
        id: NodeId,
        computed: ComputedStyle,
        bid: BoxId,
        heights: BlockHeight,
        pre: bool,
    )
        requires
            self.wf(),
            self.agree(r1, r2, h),
            self.dom.has(id),
            h == self.dom.height(id),
        ensures
            self.block_contents(r1, cv, id, computed, bid, heights, pre)
                == self.block_contents(r2, cv, id, computed, bid, heights, pre),
    {
        reveal(Ctx::block_contents);
        self.kids_are_low(id);
        let dims = cv.dims(bid);
        let env = FlowEnv {
            x: dims.content.x,
            width: dims.content.width,
            height: heights.specified,
            align: computed.text_align,
            pre,
        };
        let start = FlowView {
            y: dims.content.y,
            prev: 0,
            children: Seq::empty(),
            run: Seq::empty(),
            marker: self.dom.tag_of(id) == "li"@,
            absolutes: Seq::empty(),
        };
        self.same_flow_children(r1, r2, h, cv, start, env, self.dom.kids(id), 0);
        let (cv1, flow1) = self.flow_children(r1, cv, start, env, self.dom.kids(id), 0);
        self.same_flush(r1, r2, h, cv1, flow1, env);
        let (cv2, flow2) = self.flow_flushed(r1, cv1, flow1, env);
        self.same_absolutes(r1, r2, h, cv2, flow2.absolutes, 0, bid, pre, flow2.children);
        let (cv3, with) = self.absolutes_laid(
            r1,
            cv2,
            flow2.absolutes,
            0,
            bid,
            pre,
            flow2.children,
        );
        let flow3 = FlowView { children: with, ..flow2 };
        self.same_marker(r1, r2, h, cv3, flow3, env);
    }

    proof fn same_column_box(
        &self,
        r1: Recipe,
        r2: Recipe,
        h: nat,
        cv: Canvas,
        node: NodeId,
        env: FlexEnv,
    )
        requires
            self.wf(),
            self.agree(r1, r2, h),
            self.low(node, h),
        ensures
            self.column_box(r1, cv, node, env) == self.column_box(r2, cv, node, env),
    {
        reveal(Ctx::column_box);
        let c = self.style(node);
        let d = self.column_dims(c, env.content.width);
        let cross = self.column_width(node, c, env, d);
        self.same_node(
            r1,
            r2,
            h,
            cv,
            node,
            env.content.x,
            plus(plus(cross, d.inner_edges_h()), d.margin.across()),
            env.height,
            env.content.y,
            0,
            env.pre,
        );
    }

    proof fn same_column_item(
        &self,
        r1: Recipe,
        r2: Recipe,
        h: nat,
        cv: Canvas,
        source: SourceView,
        k: usize,
        env: FlexEnv,
    )
        requires
            self.wf(),
            self.agree(r1, r2, h),
            self.source_low(source, h),
        ensures
            self.column_item(r1, cv, source, k, env) == self.column_item(r2, cv, source, k, env),
    {
        reveal(Ctx::column_item);
        match source {
            SourceView::Element(node) => {
                self.same_column_box(r1, r2, h, cv, node, env);
            },
            SourceView::Text(nodes) => {
                let (min, max) = self.run_widths_of(nodes);
                let stretches = column_cross_align(env.style.align_items) is Stretch;
                let cross = if stretches && !env.axis.wraps {
                    env.content.width
                } else {
                    shrink_to_fit(min, max, env.content.width)
                };
                self.runs_are_low(nodes, cross, 0, h);
                self.same_anonymous(
                    r1,
                    r2,
                    h,
                    cv,
                    env.content.x,
                    cross,
                    env.content.y,
                    0,
                    self.run_items(nodes, cross, 0),
                    env.style.text_align,
                    env.pre,
                );
            },
        }
    }

    proof fn same_flex_items(
        &self,
        r1: Recipe,
        r2: Recipe,
        h: nat,
        cv: Canvas,
        sources: Seq<SourceView>,
        k: int,
        env: FlexEnv,
        items: Seq<FlexItem>,
    )
        requires
            self.wf(),
            self.agree(r1, r2, h),
            0 <= k,
            self.sources_low(sources, h),
        ensures
            self.flex_items_from(r1, cv, sources, k, env, items)
                == self.flex_items_from(r2, cv, sources, k, env, items),
        decreases sources.len() - k,
    {
        if k < sources.len() {
            assert(self.source_low(sources[k], h));
            if env.axis.vertical {
                self.same_column_item(r1, r2, h, cv, sources[k], k as usize, env);
                let (cv2, item) = self.column_item(r1, cv, sources[k], k as usize, env);
                self.same_flex_items(r1, r2, h, cv2, sources, k + 1, env, items.push(item));
            } else {
                let item = self.row_item(sources[k], k as usize, env.axis);
                self.same_flex_items(r1, r2, h, cv, sources, k + 1, env, items.push(item));
            }
        }
    }

    proof fn same_row_box(
        &self,
        r1: Recipe,
        r2: Recipe,
        h: nat,
        cv: Canvas,
        item: FlexItem,
        source: SourceView,
        p: ItemPlacement,
        env: FlexEnv,
    )
        requires
            self.wf(),
            self.agree(r1, r2, h),
            self.source_low(source, h),
        ensures
            self.row_box(r1, cv, item, source, p, env)
                == self.row_box(r2, cv, item, source, p, env),
    {
        reveal(Ctx::row_box);
        match source {
            SourceView::Element(node) => {
                self.same_node(
                    r1,
                    r2,
                    h,
                    cv,
                    node,
                    plus(p.near, p.auto_near),
                    plus(p.main_size, item.metrics.outer_edges),
                    env.height,
                    env.content.y,
                    0,
                    env.pre,
                );
            },
            SourceView::Text(nodes) => {
                self.runs_are_low(nodes, p.main_size, 0, h);
                self.same_anonymous(
                    r1,
                    r2,
                    h,
                    cv,
                    p.near,
                    p.main_size,
                    env.content.y,
                    0,
                    self.run_items(nodes, p.main_size, 0),
                    env.style.text_align,
                    env.pre,
                );
            },
        }
    }

    proof fn same_line(
        &self,
        r1: Recipe,
        r2: Recipe,
        h: nat,
        cv: Canvas,
        items: Seq<FlexItem>,
        sources: Seq<SourceView>,
        plan: LinePlan,
        j: int,
        env: FlexEnv,
        inner_main: i32,
        children: Seq<BoxId>,
    )
        requires
            self.wf(),
            self.agree(r1, r2, h),
            0 <= j,
            self.sources_low(sources, h),
            known_sources(items, sources.len()),
        ensures
            self.line_laid(r1, cv, items, sources, plan, j, env, inner_main, children)
                == self.line_laid(r2, cv, items, sources, plan, j, env, inner_main, children),
        decreases items.len() - j,
    {
        if j < items.len() {
            assert(items[j].source < sources.len());
            let source = sources[items[j].source as int];
            assert(self.source_low(source, h));
            let p = placement(plan, j, env, inner_main);
            self.same_row_box(r1, r2, h, cv, items[j], source, p, env);
            let (cv2, id) = match items[j].built {
                Some(id) => (column_placed(cv, id, items[j], env.axis, p), id),
                None => self.row_box(r1, cv, items[j], source, p, env),
            };
            self.same_line(
                r1,
                r2,
                h,
                cv2,
                items,
                sources,
                plan,
                j + 1,
                env,
                inner_main,
                children.push(id),
            );
        }
    }

    proof fn same_lines(
        &self,
        r1: Recipe,
        r2: Recipe,
        h: nat,
        cv: Canvas,
        items: Seq<FlexItem>,
        sources: Seq<SourceView>,
        lines: Seq<(usize, usize)>,
        k: int,
        env: FlexEnv,
        inner_main: i32,
        gap: i32,
        children: Seq<BoxId>,
    )
        requires
            self.wf(),
            self.agree(r1, r2, h),
            0 <= k,
            self.sources_low(sources, h),
            known_sources(items, sources.len()),
            lines_ok(lines, items.len() as int),
        ensures
            self.lines_laid(
                r1,
                cv,
                items,
                sources,
                lines,
                k,
                env,
                inner_main,
                gap,
                children,
            ) == self.lines_laid(
                r2,
                cv,
                items,
                sources,
                lines,
                k,
                env,
                inner_main,
                gap,
                children,
            ),
        decreases lines.len() - k,
    {
        if k < lines.len() {
            assert(lines[k].0 < lines[k].1 && lines[k].1 <= items.len());
            let line = items.subrange(lines[k].0 as int, lines[k].1 as int);
            let plan = plan_line(line, env, inner_main, gap);
            assert forall|j: int| 0 <= j < line.len() implies (#[trigger] line[j]).source
                < sources.len() by {
                assert(line[j] == items[lines[k].0 + j]);
            }
            self.same_line(r1, r2, h, cv, line, sources, plan, 0, env, inner_main, children);
            let (cv2, next) = self.line_laid(
                r1,
                cv,
                line,
                sources,
                plan,
                0,
                env,
                inner_main,
                children,
            );
            self.same_lines(
                r1,
                r2,
                h,
                cv2,
                items,
                sources,
                lines,
                k + 1,
                env,
                inner_main,
                gap,
                next,
            );
        }
    }

    proof fn same_flex_contents(
        &self,
        r1: Recipe,
        r2: Recipe,
        h: nat,
        cv: Canvas,
        id: NodeId,
        computed: ComputedStyle,
        bid: BoxId,
        heights: BlockHeight,
        pre: bool,
    )
        requires
            self.wf(),
            self.agree(r1, r2, h),
            self.dom.has(id),
            h == self.dom.height(id),
        ensures
            self.flex_contents(r1, cv, id, computed, bid, heights, pre)
                == self.flex_contents(r2, cv, id, computed, bid, heights, pre),
    {
        reveal(Ctx::flex_contents);
        self.kids_are_low(id);
        let content = cv.dims(bid).content;
        let env = FlexEnv {
            axis: FlexAxis::of(
                computed.flex_direction,
                computed.flex_wrap,
                content.width,
                heights,
            ),
            style: computed,
            content,
            height: heights.specified,
            pre,
        };
        let sources = self.sources_of(id, pre);
        assert(self.dom.nodes@[id.0 as int].children@.len() <= self.dom.nodes@.len());
        self.no_more_sources_than_kids(self.dom.kids(id), pre, 0, Seq::empty());
        self.sources_are_low(self.dom.kids(id), pre, 0, Seq::empty(), h);
        self.same_flex_items(r1, r2, h, cv, sources, 0, env, Seq::empty());
        let (cv1, found) = self.flex_items_from(r1, cv, sources, 0, env, Seq::empty());
        self.items_know_their_sources(r1, cv, sources, 0, env, Seq::empty());
        if found.len() > 0 {
            let items = in_order(found);
            ordering_keeps_sources(found, sources.len());
            let gap = env.axis.main_gap(computed.gap);
            let main = self.inner_main(cv1, items, bid, env, heights, gap);
            let metrics = items.map_values(|i: FlexItem| i.metrics);
            let lines = lines_from(metrics, main, gap, env.axis.wraps, 0);
            lines_are_ranges(metrics, main, gap, env.axis.wraps, 0);
            self.same_lines(r1, r2, h, cv1, items, sources, lines, 0, env, main, gap, Seq::empty());
            let (cv2, ids) = self.lines_laid(
                r1,
                cv1,
                items,
                sources,
                lines,
                0,
                env,
                main,
                gap,
                Seq::empty(),
            );
            let (cv3, cross) = cross_aligned(cv2, items, ids, lines, env, bid, heights);
            let gone = self.out_of_flow_kids(self.dom.kids(id), 0);
            self.gone_kids_are_low(self.dom.kids(id), 0, h);
            self.same_absolutes(r1, r2, h, cv3, gone, 0, bid, pre, ids);
        }
    }

    proof fn same_grid_root(
        &self,
        r1: Recipe,
        r2: Recipe,
        h: nat,
        cv: Canvas,
        id: NodeId,
        x: i32,
        width: i32,
        pre: bool,
    )
        requires
            self.wf(),
            self.agree(r1, r2, h),
            self.low(id, h),
        ensures
            self.grid_root(r1, cv, id, x, width, pre) == self.grid_root(r2, cv, id, x, width, pre),
    {
        reveal(Ctx::grid_root);
    }

    proof fn same_grid_item(
        &self,
        r1: Recipe,
        r2: Recipe,
        h: nat,
        cv: Canvas,
        p: GridItem,
        plan: GridPlan,
    )
        requires
            self.wf(),
            self.agree(r1, r2, h),
            self.low(p.child, h),
        ensures
            self.grid_item_laid(r1, cv, p, plan) == self.grid_item_laid(r2, cv, p, plan),
    {
        reveal(Ctx::grid_item_laid);
        let x = plus(
            plan.content.x,
            offset_from(plan.widths, p.col as int, plan.col_gap, 0, 0),
        );
        let w = larger(span_of(plan.widths, p.col as int, p.cspan as int, plan.col_gap), 1);
        let table = self.dom.is_element(p.child) && self.dom.tag_of(p.child) == "table"@;
        let start = if table {
            Canvas { grid_items: one_more(cv.grid_items), ..cv }
        } else {
            cv
        };
        self.same_grid_root(r1, r2, h, start, p.child, x, w, plan.pre);
        self.same_node(r1, r2, h, start, p.child, x, w, None, 0, 0, plan.pre);
    }

    proof fn same_grid_items(
        &self,
        r1: Recipe,
        r2: Recipe,
        h: nat,
        cv: Canvas,
        placed: Seq<GridItem>,
        k: int,
        plan: GridPlan,
        heights: Seq<i32>,
        children: Seq<GridChild>,
    )
        requires
            self.wf(),
            self.agree(r1, r2, h),
            0 <= k,
            self.grid_low(placed, h),
        ensures
            self.grid_items_laid(r1, cv, placed, k, plan, heights, children)
                == self.grid_items_laid(r2, cv, placed, k, plan, heights, children),
        decreases placed.len() - k,
    {
        if k < placed.len() {
            let p = placed[k];
            assert(self.low(placed[k].child, h));
            self.same_grid_item(r1, r2, h, cv, p, plan);
            let (cv2, laid) = self.grid_item_laid(r1, cv, p, plan);
            match laid {
                None => {
                    self.same_grid_items(r1, r2, h, cv2, placed, k + 1, plan, heights, children);
                },
                Some(id) => {
                    let tall = larger(cv2.dims(id).margin_box().height, 0);
                    let grown = if p.rspan == 1 && p.row < plan.rows.len()
                        && grid_row_accepts_content(plan.rows[p.row as int], plan.definite) {
                        heights.update(p.row as int, larger(heights[p.row as int], tall))
                    } else {
                        heights
                    };
                    let next = children.push(GridChild { id, row: p.row, col: p.col });
                    self.same_grid_items(r1, r2, h, cv2, placed, k + 1, plan, grown, next);
                },
            }
        }
    }

    proof fn same_grid_contents(
        &self,
        r1: Recipe,
        r2: Recipe,
        h: nat,
        cv: Canvas,
        id: NodeId,
        computed: ComputedStyle,
        bid: BoxId,
        heights: BlockHeight,
        pre: bool,
    )
        requires
            self.wf(),
            self.agree(r1, r2, h),
            self.dom.has(id),
            h == self.dom.height(id),
        ensures
            self.grid_contents(r1, cv, id, computed, bid, heights, pre)
                == self.grid_contents(r2, cv, id, computed, bid, heights, pre),
    {
        reveal(Ctx::grid_contents);
        self.kids_are_low(id);
        let content = cv.dims(bid).content;
        let columns = self.grid_columns(computed).len() as usize;
        let placed = self.placed_from(self.dom.kids(id), 0, columns, Seq::empty());
        self.placed_kids_are_low(self.dom.kids(id), 0, columns, Seq::empty(), h);
        let plan = self.grid_plan(content, computed, placed, heights.specified, pre);
        let axis = GridTrackAxis::Rows { width: content.width, height: heights.specified };
        let rows = tracks_resolved(plan.rows, axis, plan.row_gap);
        self.same_grid_items(r1, r2, h, cv, placed, 0, plan, rows, Seq::empty());
        let (cv1, grown, children) = self.grid_items_laid(
            r1,
            cv,
            placed,
            0,
            plan,
            rows,
            Seq::empty(),
        );
        let tall = tracks_fitted(plan.rows, grown, axis, plan.row_gap);
        let cv2 = grid_moved(cv1, children, 0, plan, tall);
        let gone = self.out_of_flow_kids(self.dom.kids(id), 0);
        self.gone_kids_are_low(self.dom.kids(id), 0, h);
        self.same_absolutes(
            r1,
            r2,
            h,
            cv2,
            gone,
            0,
            bid,
            pre,
            children.map_values(|c: GridChild| c.id),
        );
    }

    proof fn same_contents(
        &self,
        r1: Recipe,
        r2: Recipe,
        h: nat,
        cv: Canvas,
        id: NodeId,
        computed: ComputedStyle,
        bid: BoxId,
        heights: BlockHeight,
        pre: bool,
    )
        requires
            self.wf(),
            self.agree(r1, r2, h),
            self.dom.has(id),
            h == self.dom.height(id),
        ensures
            self.contents(r1, cv, id, computed, bid, heights, pre)
                == self.contents(r2, cv, id, computed, bid, heights, pre),
    {
        reveal(Ctx::contents);
        self.same_flex_contents(r1, r2, h, cv, id, computed, bid, heights, pre);
        self.same_grid_contents(r1, r2, h, cv, id, computed, bid, heights, pre);
        self.same_block_contents(r1, r2, h, cv, id, computed, bid, heights, pre);
    }

    proof fn same_loose(
        &self,
        r1: Recipe,
        r2: Recipe,
        h: nat,
        cv: Canvas,
        env: TableEnv,
        nodes: Seq<NodeId>,
        i: int,
        y: i32,
        prev: i32,
        children: Seq<BoxId>,
    )
        requires
            self.wf(),
            self.agree(r1, r2, h),
            0 <= i,
            self.nodes_low(nodes, h),
        ensures
            self.loose_laid(r1, cv, env, nodes, i, y, prev, children)
                == self.loose_laid(r2, cv, env, nodes, i, y, prev, children),
        decreases nodes.len() - i,
    {
        if i < nodes.len() {
            let c = nodes[i];
            assert(self.low(nodes[i], h));
            if self.leaves_flow(c) {
                self.same_positioned(r1, r2, h, cv, c, env.bid, env.pre);
                let (cv2, abs) = self.positioned(r1, cv, c, env.bid, env.pre);
                let next = match abs {
                    Some(id) => children.push(id),
                    None => children,
                };
                self.same_loose(r1, r2, h, cv2, env, nodes, i + 1, y, prev, next);
            } else {
                let (x, w) = (env.table.x, env.table.width);
                self.same_node(r1, r2, h, cv, c, x, w, env.ch, y, prev, env.pre);
                let laid = self.lay_node(r1, cv, c, x, w, env.ch, y, prev, env.pre);
                match laid.id {
                    Some(id) => {
                        let d = laid.cv.dims(id);
                        self.same_loose(
                            r1,
                            r2,
                            h,
                            laid.cv,
                            env,
                            nodes,
                            i + 1,
                            d.margin_box().bottom(),
                            d.margin.bottom,
                            children.push(id),
                        );
                    },
                    None => {
                        let next = laid.cv;
                        self.same_loose(r1, r2, h, next, env, nodes, i + 1, y, laid.prev, children);
                    },
                }
            }
        }
    }

    proof fn same_cell(
        &self,
        r1: Recipe,
        r2: Recipe,
        h: nat,
        cv: Canvas,
        env: TableEnv,
        widths: Seq<i32>,
        p: TablePlacement,
    )
        requires
            self.wf(),
            self.agree(r1, r2, h),
            self.low(p.cell, h),
        ensures
            self.cell_laid(r1, cv, env, widths, p) == self.cell_laid(r2, cv, env, widths, p),
    {
        reveal(Ctx::cell_laid);
    }

    proof fn same_cells(
        &self,
        r1: Recipe,
        r2: Recipe,
        h: nat,
        cv: Canvas,
        env: TableEnv,
        widths: Seq<i32>,
        placed: Seq<TablePlacement>,
        i: int,
        cells: Seq<CellBox>,
    )
        requires
            self.wf(),
            self.agree(r1, r2, h),
            0 <= i,
            self.cells_low(placed, h),
        ensures
            self.cells_laid(r1, cv, env, widths, placed, i, cells)
                == self.cells_laid(r2, cv, env, widths, placed, i, cells),
        decreases placed.len() - i,
    {
        if i < placed.len() {
            assert(self.low(placed[i].cell, h));
            self.same_cell(r1, r2, h, cv, env, widths, placed[i]);
            let (cv2, cell) = self.cell_laid(r1, cv, env, widths, placed[i]);
            self.same_cells(r1, r2, h, cv2, env, widths, placed, i + 1, cells.push(cell));
        }
    }

    proof fn same_row_positioned(
        &self,
        r1: Recipe,
        r2: Recipe,
        h: nat,
        cv: Canvas,
        kids: Seq<NodeId>,
        k: int,
        row: BoxId,
        pre: bool,
    )
        requires
            self.wf(),
            self.agree(r1, r2, h),
            0 <= k,
            self.nodes_low(kids, h),
        ensures
            self.row_positioned(r1, cv, kids, k, row, pre)
                == self.row_positioned(r2, cv, kids, k, row, pre),
        decreases kids.len() - k,
    {
        if k < kids.len() {
            assert(self.low(kids[k], h));
            if is_out_of_flow(self.style(kids[k]).position) && self.is_cell(kids[k]) {
                self.same_positioned(r1, r2, h, cv, kids[k], row, pre);
                let (cv2, abs) = self.positioned(r1, cv, kids[k], row, pre);
                let next = match abs {
                    Some(id) => cv2.with_children(row, cv2.boxes[row.0 as int].children.push(id)),
                    None => cv2,
                };
                self.same_row_positioned(r1, r2, h, next, kids, k + 1, row, pre);
            } else {
                self.same_row_positioned(r1, r2, h, cv, kids, k + 1, row, pre);
            }
        }
    }

    proof fn same_rows_positioned(
        &self,
        r1: Recipe,
        r2: Recipe,
        h: nat,
        cv: Canvas,
        rows: Seq<RowView>,
        i: int,
        base: nat,
        pre: bool,
    )
        requires
            self.wf(),
            self.agree(r1, r2, h),
            0 <= i,
            self.rows_low(rows, h),
        ensures
            self.rows_positioned(r1, cv, rows, i, base, pre)
                == self.rows_positioned(r2, cv, rows, i, base, pre),
        decreases rows.len() - i,
    {
        if i < rows.len() {
            assert(self.row_low(rows[i], h));
            let kids = self.dom.kids(rows[i].row);
            let row = row_box(base, i);
            self.same_row_positioned(r1, r2, h, cv, kids, 0, row, pre);
            let next = self.row_positioned(r1, cv, kids, 0, row, pre);
            self.same_rows_positioned(r1, r2, h, next, rows, i + 1, base, pre);
        }
    }

    proof fn same_body(
        &self,
        r1: Recipe,
        r2: Recipe,
        h: nat,
        cv: Canvas,
        env: TableEnv,
        rows: Seq<RowView>,
        placed: Seq<TablePlacement>,
        widths: Seq<i32>,
        children: Seq<BoxId>,
    )
        requires
            self.wf(),
            self.agree(r1, r2, h),
            self.rows_low(rows, h),
            self.cells_low(placed, h),
        ensures
            self.body_laid(r1, cv, env, rows, placed, widths, children)
                == self.body_laid(r2, cv, env, rows, placed, widths, children),
    {
        reveal(Ctx::body_laid);
        let base = cv.boxes.len();
        let with_rows = self.rows_added(cv, env, rows, 0);
        self.same_cells(r1, r2, h, with_rows, env, widths, placed, 0, Seq::empty());
        let (built, cells) = self.cells_laid(
            r1,
            with_rows,
            env,
            widths,
            placed,
            0,
            Seq::empty(),
        );
        let heights = heights_from(placed, cells, 0, Seq::new(rows.len(), |i: int| 1i32));
        let settled = cells_settled(
            rows_settled(built, base, heights, env.y, 0),
            base,
            heights,
            env.y,
            placed,
            cells,
            0,
        );
        self.same_rows_positioned(r1, r2, h, settled, rows, 0, base, env.pre);
    }

    proof fn same_table_contents(
        &self,
        r1: Recipe,
        r2: Recipe,
        h: nat,
        cv: Canvas,
        id: NodeId,
        computed: ComputedStyle,
        bid: BoxId,
        heights: BlockHeight,
        pre: bool,
    )
        requires
            self.wf(),
            self.agree(r1, r2, h),
            self.dom.has(id),
            h == self.dom.height(id),
        ensures
            self.table_contents(r1, cv, id, computed, bid, heights, pre)
                == self.table_contents(r2, cv, id, computed, bid, heights, pre),
    {
        reveal(Ctx::table_contents);
        self.kids_are_low(id);
        self.same_contents(r1, r2, h, cv, id, computed, bid, heights, pre);
        let rows = self.rows_of(id);
        self.rows_are_low(id, 0, h);
        let placed = self.placements_of(rows);
        self.placed_cells_are_low(rows, 0, Seq::empty(), h);
        let n = columns_reached(placed, 0, 0);
        let widths = self.table_widths(cv, computed, bid, placed, n as nat);
        let d = cv.dims(bid);
        let sized = cv.with_dims(bid, d.with_content(Rect { width: total(widths), ..d.content }));
        let table = sized.dims(bid).content;
        let env = TableEnv { bid, table, computed, ch: heights.specified, pre, y: table.y };
        let loose = self.loose_from(self.dom.kids(id), 0);
        self.loose_kids_are_low(self.dom.kids(id), 0, h);
        self.same_loose(r1, r2, h, sized, env, loose, 0, table.y, 0, Seq::empty());
        let (cv2, y, children) = self.loose_laid(
            r1,
            sized,
            env,
            loose,
            0,
            table.y,
            0,
            Seq::empty(),
        );
        let below = TableEnv { y, ..env };
        self.same_body(r1, r2, h, cv2, below, rows, placed, widths, children);
    }

    proof fn same_any_contents(
        &self,
        r1: Recipe,
        r2: Recipe,
        h: nat,
        cv: Canvas,
        id: NodeId,
        computed: ComputedStyle,
        bid: BoxId,
        heights: BlockHeight,
        pre: bool,
    )
        requires
            self.wf(),
            self.agree(r1, r2, h),
            self.dom.has(id),
            h == self.dom.height(id),
        ensures
            self.any_contents(r1, cv, id, computed, bid, heights, pre)
                == self.any_contents(r2, cv, id, computed, bid, heights, pre),
    {
        reveal(Ctx::any_contents);
        self.same_table_contents(r1, r2, h, cv, id, computed, bid, heights, pre);
        self.same_contents(r1, r2, h, cv, id, computed, bid, heights, pre);
    }

    /// However much deeper than a node is tall its box may be filled, it comes
    /// out the same. Where nothing is fixed the viewport makes no difference
    /// either.
    pub proof fn depth_past_the_bottom_changes_nothing(
        &self,
        a: BoxArgs,
        f: nat,
        g: nat,
        u: i32,
        v: i32,
    )
        requires
            self.wf(),
            self.dom.has(a.id),
            self.dom.height(a.id) <= f,
            self.dom.height(a.id) <= g,
            u == v || self.nothing_is_fixed(),
        ensures
            self.box_at(u, f, a) == self.box_at(v, g, a),
        decreases self.dom.height(a.id),
    {
        reveal(Ctx::box_with);
        let h = self.dom.height(a.id);
        let r1 = self.builder(u, (f - 1) as nat);
        let r2 = self.builder(v, (g - 1) as nat);
        assert forall|b: BoxArgs| self.low(b.id, h) implies #[trigger] (r1.build)(b) == (r2.build)(
            b,
        ) by {
            self.depth_past_the_bottom_changes_nothing(b, (f - 1) as nat, (g - 1) as nat, u, v);
        }
        let with = a.cv.with_box(self.bare_box(a.id, a.computed, a.dims));
        let bid = a.cv.next_id();
        let heights = crate::blocks::heights_of(a.dims, &a.computed, a.ch);
        self.same_any_contents(r1, r2, h, with, a.id, a.computed, bid, heights, a.pre);
    }

    /// The bound that layout starts with is deep enough for every document:
    /// no deeper one would fill any box differently.
    pub proof fn no_document_is_cut_short(&self, a: BoxArgs, viewport: i32, deeper: nat)
        requires
            self.wf(),
            self.dom.has(a.id),
            deeper >= self.dom.nodes@.len(),
        ensures
            self.box_at(viewport, deeper, a) == self.box_at(viewport, self.dom.nodes@.len(), a),
    {
        self.dom.a_document_is_no_deeper_than_its_nodes(a.id);
        self.depth_past_the_bottom_changes_nothing(
            a,
            deeper,
            self.dom.nodes@.len(),
            viewport,
            viewport,
        );
    }

    proof fn same_page_children(
        &self,
        r1: Recipe,
        r2: Recipe,
        h: nat,
        cv: Canvas,
        kids: Seq<NodeId>,
        k: int,
        width: i32,
        y: i32,
        prev: i32,
    )
        requires
            self.wf(),
            self.agree(r1, r2, h),
            0 <= k,
            self.nodes_low(kids, h),
        ensures
            self.page_children(r1, cv, kids, k, width, y, prev)
                == self.page_children(r2, cv, kids, k, width, y, prev),
        decreases kids.len() - k,
    {
        if k < kids.len() {
            let c = kids[k];
            let page = BoxId(0);
            assert(self.low(kids[k], h));
            if self.leaves_flow(c) {
                self.same_positioned(r1, r2, h, cv, c, page, false);
                let (cv2, abs) = self.positioned(r1, cv, c, page, false);
                let next = match abs {
                    Some(id) => cv2.with_children(page, cv2.boxes[0].children.push(id)),
                    None => cv2,
                };
                self.same_page_children(r1, r2, h, next, kids, k + 1, width, y, prev);
            } else {
                self.same_node(r1, r2, h, cv, c, 0, width, None, y, prev, false);
                let laid = self.lay_node(r1, cv, c, 0, width, None, y, prev, false);
                match laid.id {
                    Some(id) => {
                        let next = laid.cv.with_children(page, laid.cv.boxes[0].children.push(id));
                        let d = next.dims(id);
                        let dy = if self.style(c).position is Relative {
                            relative_delta(self.style(c), width, None).1
                        } else {
                            0
                        };
                        let bottom = minus(d.margin_box().bottom(), dy);
                        self.same_page_children(
                            r1,
                            r2,
                            h,
                            next,
                            kids,
                            k + 1,
                            width,
                            bottom,
                            d.margin.bottom,
                        );
                    },
                    None => {
                        let next = laid.cv;
                        self.same_page_children(r1, r2, h, next, kids, k + 1, width, y, laid.prev);
                    },
                }
            }
        }
    }

    /// Where nothing is fixed, what stacks on a page does so whatever the
    /// viewport.
    pub proof fn the_viewport_moves_only_what_is_fixed(&self, width: i32, u: i32, v: i32)
        requires
            self.wf(),
            self.nothing_is_fixed(),
        ensures
            self.stacked_on(self.builder(u, self.dom.nodes@.len()), width) == self.stacked_on(
                self.builder(v, self.dom.nodes@.len()),
                width,
            ),
    {
        let n = self.dom.nodes@.len();
        let root = self.dom.root;
        let h = self.dom.height(root);
        let r1 = self.builder(u, n);
        let r2 = self.builder(v, n);
        self.dom.a_document_is_no_deeper_than_its_nodes(root);
        self.kids_are_low(root);
        assert forall|b: BoxArgs| self.low(b.id, h) implies #[trigger] (r1.build)(b) == (r2.build)(
            b,
        ) by {
            self.depth_past_the_bottom_changes_nothing(b, n, n, u, v);
        }
        let kids = self.dom.kids(root);
        self.same_page_children(r1, r2, h, self.blank_page(width), kids, 0, width, 0, 0);
    }
}

} // verus!
