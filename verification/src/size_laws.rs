//! How big boxes are: lengths in cells, the box model, and what a container
//! asks for of what is in it.

use vstd::prelude::*;

use crate::blocks::{axis_v, heights_of, used_height, BoxArgs};
use crate::boxmodel::{lays_out_as_grid, resolve_block_dims};
use crate::cells::minus;
use crate::context::{sources_below, ChildMode, Ctx, SourceView};
use crate::dimensions::{Dimensions, EdgeSizes};
use crate::dom::NodeId;
use crate::grid_laws::nearest_is_near;
use crate::image::{image_size, ImageView};
use crate::intrinsic::{outer_edges, Run, Sizes};
use crate::position_laws::{edges_are_modest, is_mild};
use crate::style::{capped, lengths_are_capped, nearest, ComputedStyle, Length, MAX_CELLS};

verus! {

/// `cells` of `unit` each are as near to `n` as whole cells can be.
pub open spec fn is_nearest(cells: int, unit: int, n: int) -> bool {
    -unit <= 2 * (cells * unit - n) <= unit
}

proof fn nearest_both_ways(n: int, d: int)
    requires
        0 < d,
    ensures
        is_nearest(nearest(n, d), d, n),
{
    if n >= 0 {
        nearest_is_near(n, d);
    } else {
        nearest_is_near(-n, d);
        let q = nearest(-n, d);
        assert((-q) * d == -(q * d)) by (nonlinear_arith);
    }
}

proof fn small_enough(n: int, d: int, q: int)
    requires
        0 < d,
        is_nearest(q, d, n),
        -(MAX_CELLS - 1) * d <= n <= (MAX_CELLS - 1) * d,
    ensures
        capped(q) == q,
{
    assert(-(MAX_CELLS as int) <= q <= MAX_CELLS as int) by (nonlinear_arith)
        requires
            0 < d,
            -d <= 2 * (q * d - n) <= d,
            -(MAX_CELLS - 1) * d <= n <= (MAX_CELLS - 1) * d,
    ;
}

/// A length is as many cells as come nearest to it, up to the cap. Across the
/// page a cell is eight pixels, or half an em; down it a row is sixteen, or a
/// whole em. Numbers are thousandths, and a percentage is one of what it is
/// resolved against.
pub proof fn lengths_are_rounded_to_the_nearest_cell(n: i64, containing: i32)
    requires
        -1_000_000 * (MAX_CELLS - 1) <= n * containing <= 1_000_000 * (MAX_CELLS - 1),
        -(MAX_CELLS - 1) * 500 <= n <= (MAX_CELLS - 1) * 500,
        -(MAX_CELLS - 1) * 100_000 <= n * containing <= (MAX_CELLS - 1) * 100_000,
    ensures
        is_nearest(Length::Px(n).to_cells_h(containing) as int, 8000, n as int),
        is_nearest(Length::Em(n).to_cells_h(containing) as int, 500, n as int),
        is_nearest(Length::Percent(n).to_cells_h(containing) as int, 100_000, n * containing),
        is_nearest(Length::Px(n).to_cells_v(containing) as int, 16_000, n as int),
        is_nearest(Length::Em(n).to_cells_v(containing) as int, 1000, n as int),
        is_nearest(Length::Percent(n).to_cells_v(containing) as int, 100_000, n * containing),
        is_nearest(Length::Px(n).to_lines(containing) as int, 16_000, n as int),
        is_nearest(Length::Percent(n).to_lines(containing) as int, 100_000, n * containing),
        Length::Auto.to_cells_h(containing) == 0,
        Length::Auto.to_cells_v(containing) == 0,
{
    nearest_both_ways(n as int, 8000);
    nearest_both_ways(n as int, 500);
    nearest_both_ways(n as int, 16_000);
    nearest_both_ways(n as int, 1000);
    nearest_both_ways(n * containing, 100_000);
    small_enough(n as int, 8000, nearest(n as int, 8000));
    small_enough(n as int, 500, nearest(n as int, 500));
    small_enough(n as int, 16_000, nearest(n as int, 16_000));
    small_enough(n as int, 1000, nearest(n as int, 1000));
    small_enough(n * containing, 100_000, nearest(n * containing, 100_000));
}

/// Padding and border of a box across the page.
pub open spec fn edges_across(d: Dimensions) -> int {
    d.padding.left + d.padding.right + d.border.left + d.border.right
}

/// A block that asks for a width has it: as its content's, or as its border
/// box's where its sizing says so, but never less than its edges leave.
pub proof fn a_block_is_as_wide_as_it_asks(c: ComputedStyle, w: i32, intrinsic: Option<i32>)
    requires
        0 <= w <= 0x0080_0000,
        !c.width.is_auto(),
        c.min_width.is_auto(),
        c.max_width.is_auto(),
    ensures
        ({
            let d = resolve_block_dims(&c, w, intrinsic);
            let asked = c.width.to_cells_h(w) as int;
            &&& c.box_sizing is ContentBox ==> d.content.width == (if asked >= 0 {
                asked
            } else {
                0
            })
            &&& c.box_sizing is BorderBox && asked >= edges_across(d) ==> d.content.width
                + edges_across(d) == asked
            &&& c.box_sizing is BorderBox && asked < edges_across(d) ==> d.content.width == 0
        }),
{
    lengths_are_capped(c.width, w);
    lengths_are_capped(c.border.left, w);
    lengths_are_capped(c.border.right, w);
    lengths_are_capped(c.padding.left, w);
    lengths_are_capped(c.padding.right, w);
}

/// A block is never narrower than its minimum, nor wider than its maximum unless
/// the minimum is wider still.
pub proof fn a_block_keeps_its_bounds(c: ComputedStyle, w: i32, intrinsic: Option<i32>)
    requires
        0 <= w <= 0x0080_0000,
        c.box_sizing is ContentBox,
    ensures
        ({
            let width = resolve_block_dims(&c, w, intrinsic).content.width;
            let (low, high) = (c.min_width.to_cells_h(w), c.max_width.to_cells_h(w));
            &&& 0 <= width
            &&& !c.min_width.is_auto() ==> low <= width
            &&& !c.max_width.is_auto() && 0 <= high && (c.min_width.is_auto() || low <= high)
                ==> width <= high
        }),
{
}

/// A block narrower than its container whose side margins are `auto` stands in
/// the middle of it, to a cell; with one of them `auto` it stands at the other
/// side. Either way its margin box is as wide as the container.
#[verifier::rlimit(60)]
pub proof fn auto_margins_centre_a_block(c: ComputedStyle, w: i32, intrinsic: Option<i32>)
    requires
        0 <= w <= 0x0080_0000,
        intrinsic is Some ==> -0x10_0000 <= intrinsic->0 <= 0x10_0000,
        c.margin.left.is_auto() || c.margin.right.is_auto(),
        ({
            let d = resolve_block_dims(&c, w, intrinsic);
            d.content.width + edges_across(d) + c.margin.left.to_cells_h(w)
                + c.margin.right.to_cells_h(w) < w
        }),
    ensures
        ({
            let d = resolve_block_dims(&c, w, intrinsic);
            &&& d.margin.left + edges_across(d) + d.content.width + d.margin.right == w
            &&& c.margin.left.is_auto() && c.margin.right.is_auto() ==> 0 <= d.margin.right
                - d.margin.left <= 1
            &&& !c.margin.left.is_auto() ==> d.margin.left == c.margin.left.to_cells_h(w)
            &&& !c.margin.right.is_auto() ==> d.margin.right == c.margin.right.to_cells_h(w)
        }),
{
    edges_are_modest(c, w, intrinsic);
    lengths_are_capped(c.margin.left, w);
    lengths_are_capped(c.margin.right, w);
}

/// Padding and border of a box down the page.
pub open spec fn edges_down(d: Dimensions) -> int {
    d.padding.top + d.padding.bottom + d.border.top + d.border.bottom
}

/// Is this a height that can be counted? A percentage is one only of a
/// container whose height is known.
pub open spec fn is_definite(len: Length, ch: Option<i32>) -> bool {
    match len {
        Length::Auto => false,
        Length::Percent(_) => ch is Some,
        _ => true,
    }
}

pub open spec fn rows_asked(len: Length, ch: Option<i32>) -> int {
    if len is Percent {
        len.to_lines(ch->0) as int
    } else {
        len.to_lines(0) as int
    }
}

/// A box without a height of its own is as tall as what is in it; one with a
/// height has it, whatever is in it, as its content's or as its border box's. It
/// is never shorter than its minimum, nor taller than its maximum unless the
/// minimum is taller still.
pub proof fn a_box_is_as_tall_as_it_asks(
    d: Dimensions,
    c: ComputedStyle,
    ch: Option<i32>,
    content: i32,
)
    requires
        is_mild(d.padding.top) && is_mild(d.padding.bottom),
        is_mild(d.border.top) && is_mild(d.border.bottom),
        0 <= content,
    ensures
        ({
            let height = used_height(axis_v(d, &c), heights_of(d, &c, ch), content);
            let asked = rows_asked(c.height, ch);
            let free = !is_definite(c.min_height, ch) && !is_definite(c.max_height, ch);
            let (low, high) = (rows_asked(c.min_height, ch), rows_asked(c.max_height, ch));
            &&& 0 <= height
            &&& free && !is_definite(c.height, ch) ==> height == content
            &&& free && is_definite(c.height, ch) && c.box_sizing is ContentBox ==> height == (
            if asked >= 0 {
                asked
            } else {
                0
            })
            &&& free && is_definite(c.height, ch) && c.box_sizing is BorderBox ==> (if asked
                >= edges_down(d) {
                height + edges_down(d) == asked
            } else {
                height == 0
            })
            &&& is_definite(c.min_height, ch) && c.box_sizing is ContentBox ==> low <= height
            &&& is_definite(c.max_height, ch) && c.box_sizing is ContentBox && 0 <= high && (
            !is_definite(c.min_height, ch) || low <= high) ==> height <= high
        }),
{
    lengths_are_capped(c.height, 0);
    lengths_are_capped(c.min_height, 0);
    lengths_are_capped(c.max_height, 0);
    if ch is Some {
        lengths_are_capped(c.height, ch->0);
        lengths_are_capped(c.min_height, ch->0);
        lengths_are_capped(c.max_height, ch->0);
    }
}

// ---- what a container asks for ---------------------------------------------

/// Neither width of the one is more than that of the other.
pub open spec fn no_wider(a: Sizes, b: Sizes) -> bool {
    a.min <= b.min && a.max <= b.max
}

impl<'a> Ctx<'a> {
    /// Child `k` of a block container takes part in its widths as a block.
    pub open spec fn is_block_kid(&self, id: NodeId, k: int) -> bool {
        let c = self.dom.kids(id)[k];
        !self.leaves_flow(c) && self.mode_of(c) is Block
    }

    proof fn blocks_are_counted(&self, id: NodeId, k: int, out: Sizes, run: Run, j: int)
        requires
            self.wf(),
            self.dom.has(id),
            0 <= k <= j < self.dom.kids(id).len() || j < 0 <= k <= self.dom.kids(id).len(),
            j >= 0 ==> self.is_block_kid(id, j),
        ensures
            no_wider(out, self.block_sizes(id, k, out, run)),
            j >= 0 ==> ({
                let c = self.dom.kids(id)[j];
                no_wider(
                    self.sizes(c).grown_by(outer_edges(&self.style(c))),
                    self.block_sizes(id, k, out, run),
                )
            }),
        decreases self.dom.kids(id).len() - k,
    {
        let kids = self.dom.kids(id);
        if k < kids.len() {
            let c = kids[k];
            let rest = if j > k {
                j
            } else {
                -1
            };
            if self.leaves_flow(c) {
                self.blocks_are_counted(id, k + 1, out, run, rest);
            } else {
                match self.mode_of(c) {
                    ChildMode::Skip => {
                        self.blocks_are_counted(id, k + 1, out, run, rest);
                    },
                    ChildMode::Inline => {
                        self.blocks_are_counted(
                            id,
                            k + 1,
                            out,
                            self.pieces(c, false, run),
                            rest,
                        );
                    },
                    ChildMode::Block => {
                        let own = self.sizes(c).grown_by(outer_edges(&self.style(c)));
                        self.blocks_are_counted(
                            id,
                            k + 1,
                            out.max_with(run.finish()).max_with(own),
                            Run::new(run.pre),
                            rest,
                        );
                    },
                }
            }
        }
    }

    /// A block container asks for at least what each block in it does, margins
    /// and all: it can be no narrower than the widest of them can, and wants no
    /// less than the one that wants most.
    pub proof fn a_container_asks_for_its_widest_block(&self, id: NodeId, j: int)
        requires
            self.wf(),
            self.dom.has(id),
            0 <= j < self.dom.kids(id).len(),
            self.is_block_kid(id, j),
        ensures
            ({
                let c = self.dom.kids(id)[j];
                no_wider(
                    self.sizes(c).grown_by(outer_edges(&self.style(c))),
                    self.children_sizes(id),
                )
            }),
    {
        let run = Run::new(self.inside_pre(id));
        let first = if self.dom.is_element(id) && self.dom.tag_of(id) == "li"@ {
            run.piece(crate::text::cells_of(crate::intrinsic::list_marker()))
        } else {
            run
        };
        self.blocks_are_counted(id, 0, Sizes::both(0), first, j);
    }

    proof fn blocks_are_all_there_is(&self, id: NodeId, k: int, out: Sizes, pre: bool)
        requires
            self.wf(),
            self.dom.has(id),
            0 <= k <= self.dom.kids(id).len(),
            0 <= out.min && 0 <= out.max,
            forall|j: int| k <= j < self.dom.kids(id).len() ==> #[trigger] self.is_block_kid(id, j),
        ensures
            ({
                let r = self.block_sizes(id, k, out, Run::new(pre));
                &&& r.max == out.max || exists|j: int|
                    k <= j < self.dom.kids(id).len() && r.max == #[trigger] self.outer_sizes(id, j).max
                &&& r.min == out.min || exists|j: int|
                    k <= j < self.dom.kids(id).len() && r.min == #[trigger] self.outer_sizes(id, j).min
            }),
        decreases self.dom.kids(id).len() - k,
    {
        let kids = self.dom.kids(id);
        if k < kids.len() {
            let c = kids[k];
            assert(self.is_block_kid(id, k));
            let own = self.outer_sizes(id, k);
            let next = out.max_with(Run::new(pre).finish()).max_with(own);
            self.blocks_are_all_there_is(id, k + 1, next, pre);
            let r = self.block_sizes(id, k, out, Run::new(pre));
            if r.max == next.max {
                assert(r.max == out.max || r.max == self.outer_sizes(id, k).max);
            } else {
                let j = choose|j: int|
                    k + 1 <= j < kids.len() && r.max == #[trigger] self.outer_sizes(id, j).max;
                assert(r.max == self.outer_sizes(id, j).max);
            }
            if r.min == next.min {
                assert(r.min == out.min || r.min == self.outer_sizes(id, k).min);
            } else {
                let j = choose|j: int|
                    k + 1 <= j < kids.len() && r.min == #[trigger] self.outer_sizes(id, j).min;
                assert(r.min == self.outer_sizes(id, j).min);
            }
        }
    }

    /// What child `k` asks for, its own edges included.
    pub open spec fn outer_sizes(&self, id: NodeId, k: int) -> Sizes {
        let c = self.dom.kids(id)[k];
        self.sizes(c).grown_by(outer_edges(&self.style(c)))
    }

    /// A container of blocks alone asks for no more than one of them does.
    pub proof fn a_container_asks_for_no_more_than_a_block(&self, id: NodeId)
        requires
            self.wf(),
            self.dom.has(id),
            self.dom.is_element(id),
            self.dom.tag_of(id) != "li"@,
            forall|j: int| 0 <= j < self.dom.kids(id).len() ==> #[trigger] self.is_block_kid(id, j),
        ensures
            ({
                let r = self.children_sizes(id);
                &&& r.max == 0 || exists|j: int|
                    0 <= j < self.dom.kids(id).len() && r.max == #[trigger] self.outer_sizes(id, j).max
                &&& r.min == 0 || exists|j: int|
                    0 <= j < self.dom.kids(id).len() && r.min == #[trigger] self.outer_sizes(id, j).min
            }),
    {
        self.blocks_are_all_there_is(id, 0, Sizes::both(0), self.inside_pre(id));
    }

    /// An element with a width in cells asks for just that, however it is filled,
    /// between its own bounds.
    pub proof fn a_width_decides_what_is_asked_for(&self, id: NodeId)
        requires
            self.wf(),
            self.dom.has(id),
            self.dom.is_element(id),
            !self.hides(id),
            self.dom.tag_of(id) != "img"@,
            !self.style(id).width.is_auto(),
            !self.style(id).width.is_percent(),
            self.style(id).min_width.is_auto(),
            self.style(id).max_width.is_auto(),
            self.style(id).box_sizing is ContentBox,
        ensures
            ({
                let cells = self.style(id).width.to_cells_h(0);
                let r = self.sizes(id);
                &&& r.min == r.max
                &&& r.max == (if cells >= 0 {
                    cells
                } else {
                    0
                })
            }),
    {
    }
}

/// What the first `n` items ask for, added up.
pub open spec fn asked_together(asked: spec_fn(int) -> Sizes, n: int, min: bool) -> int
    decreases n,
{
    if n <= 0 {
        0
    } else {
        asked_together(asked, n - 1, min) + (if min {
            asked(n - 1).min
        } else {
            asked(n - 1).max
        })
    }
}

proof fn asked_together_grows(asked: spec_fn(int) -> Sizes, m: int, n: int)
    requires
        0 <= m <= n,
        forall|j: int| 0 <= j < n ==> 0 <= (#[trigger] asked(j)).min && 0 <= asked(j).max,
    ensures
        0 <= asked_together(asked, m, true) <= asked_together(asked, n, true),
        0 <= asked_together(asked, m, false) <= asked_together(asked, n, false),
    decreases n,
{
    if m < n {
        assert(0 <= asked(n - 1).min && 0 <= asked(n - 1).max);
        asked_together_grows(asked, m, n - 1);
    } else if m > 0 {
        assert(0 <= asked(m - 1).min && 0 <= asked(m - 1).max);
        asked_together_grows(asked, m - 1, m - 1);
    }
}

impl<'a> Ctx<'a> {
    /// The items of a flex row ask for what they do side by side, and those of a
    /// column for the widest of them.
    pub proof fn rows_add_up_and_columns_do_not(
        &self,
        limit: nat,
        column: bool,
        sources: Seq<SourceView>,
        i: int,
        out: Sizes,
        k: int,
    )
        requires
            self.wf(),
            sources_below(self.dom, sources, limit),
            0 <= i <= k < sources.len(),
            0 <= out.min && 0 <= out.max,
            ({
                let asked = |j: int| self.source_sizes(limit, column, sources[j]);
                let n = sources.len() as int;
                &&& forall|j: int| 0 <= j < n ==> 0 <= (#[trigger] asked(j)).min && 0 <= asked(j).max
                &&& out.min + asked_together(asked, n, true) - asked_together(asked, i, true)
                    <= i32::MAX
                &&& out.max + asked_together(asked, n, false) - asked_together(asked, i, false)
                    <= i32::MAX
            }),
        ensures
            ({
                let asked = |j: int| self.source_sizes(limit, column, sources[j]);
                let n = sources.len() as int;
                let r = self.items_sizes(limit, column, sources, i, out);
                &&& !column ==> r.min == out.min + asked_together(asked, n, true) - asked_together(
                    asked,
                    i,
                    true,
                )
                &&& !column ==> r.max == out.max + asked_together(asked, n, false) - asked_together(
                    asked,
                    i,
                    false,
                )
                &&& column ==> no_wider(out, r) && no_wider(asked(k), r)
            }),
        decreases sources.len() - i,
    {
        let asked = |j: int| self.source_sizes(limit, column, sources[j]);
        let n = sources.len() as int;
        let one = asked(i);
        assert(0 <= one.min && 0 <= one.max);
        asked_together_grows(asked, i, n);
        asked_together_grows(asked, i + 1, n);
        assert(asked_together(asked, i + 1, true) == asked_together(asked, i, true) + asked(i).min);
        assert(asked_together(asked, i + 1, false) == asked_together(asked, i, false) + asked(
            i,
        ).max);
        let next = if column {
            out.max_with(one)
        } else {
            out.beside(one)
        };
        if column {
            self.columns_ask_for_the_widest(limit, sources, i, out, k);
        } else if i + 1 < n {
            self.rows_add_up_and_columns_do_not(
                limit,
                column,
                sources,
                i + 1,
                next,
                if k > i {
                    k
                } else {
                    i + 1
                },
            );
        } else {
            assert(self.items_sizes(limit, column, sources, i + 1, next) == next);
        }
    }

    proof fn columns_ask_for_the_widest(
        &self,
        limit: nat,
        sources: Seq<SourceView>,
        i: int,
        out: Sizes,
        k: int,
    )
        requires
            self.wf(),
            sources_below(self.dom, sources, limit),
            0 <= i <= sources.len(),
            k < sources.len(),
        ensures
            ({
                let r = self.items_sizes(limit, true, sources, i, out);
                &&& no_wider(out, r)
                &&& i <= k ==> no_wider(self.source_sizes(limit, true, sources[k]), r)
            }),
        decreases sources.len() - i,
    {
        if i < sources.len() {
            let one = self.source_sizes(limit, true, sources[i]);
            self.columns_ask_for_the_widest(limit, sources, i + 1, out.max_with(one), k);
        }
    }
}

/// An image that fits its column keeps its size; a wider one is scaled down to
/// the column, and its height with it, to the nearest row.
pub proof fn an_image_is_scaled_down_to_its_column(img: ImageView, containing: i32)
    requires
        0 < img.cells_w <= i32::MAX,
        0 <= img.cells_h <= i32::MAX,
        1 <= containing,
    ensures
        ({
            let (w, h) = image_size(img, containing);
            &&& img.cells_w <= containing ==> w == img.cells_w && h == img.cells_h
            &&& img.cells_w > containing ==> w == containing && is_nearest(
                h as int,
                img.cells_w as int,
                img.cells_h * containing,
            )
        }),
{
    if img.cells_w > containing {
        let n = img.cells_h * containing;
        let d = img.cells_w as int;
        nearest_both_ways(n, d);
        let q = nearest(n, d);
        assert(0 <= n && n <= img.cells_h * d) by (nonlinear_arith)
            requires
                n == img.cells_h * containing,
                0 <= img.cells_h,
                1 <= containing < d,
        ;
        nearest_is_near(n, d);
        assert(q <= img.cells_h) by (nonlinear_arith)
            requires
                n <= img.cells_h * d,
                2 * (q * d - n) <= d,
                0 < d,
        ;
    }
}

impl<'a> Ctx<'a> {
    /// A laid-out box with a height of its own has it, however much is in it: in
    /// rows, as its content's.
    pub proof fn a_laid_out_box_has_the_height_it_asks_for(
        &self,
        viewport: i32,
        fuel: nat,
        a: BoxArgs,
    )
        requires
            self.wf(),
            self.is_flowing(),
            self.dom.has(a.id),
            self.dom.height(a.id) <= fuel,
            self.dom.is_element(a.id),
            !self.hides(a.id),
            !a.pre,
            !lays_out_as_grid(&a.computed),
            a.computed.box_sizing is ContentBox,
            !a.computed.height.is_auto() && !a.computed.height.is_percent(),
            a.computed.min_height.is_auto() && a.computed.max_height.is_auto(),
            self.box_at(viewport, fuel, a).cv.boxes.len() <= usize::MAX,
        ensures
            ({
                let b = self.box_at(viewport, fuel, a);
                let rows = a.computed.height.to_lines(0);
                b.cv.dims(b.id).content.height == (if rows >= 0 {
                    rows
                } else {
                    0
                })
            }),
    {
        reveal(Ctx::box_with);
        let h = self.dom.height(a.id);
        let rec = self.builder(viewport, (fuel - 1) as nat);
        assert(self.flows_or_flexes(a.id));
        self.a_builder_builds_behind(viewport, (fuel - 1) as nat, h);
        let with = a.cv.with_box(self.bare_box(a.id, a.computed, a.dims));
        let bid = a.cv.next_id();
        let heights = heights_of(a.dims, &a.computed, a.ch);
        let n = a.cv.boxes.len() + 1;
        self.contents_are_behind(rec, h, n, with, a.id, a.computed, bid, heights);
    }
}

// ---- boxes on a line -------------------------------------------------------

impl<'a> Ctx<'a> {
    /// A box on a line of text that has no width of its own is as wide as it wants
    /// to be, unless that is more than is left of the line; then it takes what is
    /// left, but never less than it needs. Its `auto` margins are nothing.
    pub proof fn a_box_on_a_line_shrinks_to_fit(&self, node: NodeId, containing: i32, available: i32)
        requires
            0 <= containing <= 0x0080_0000,
            0 <= available <= 0x0080_0000,
            self.style(node).width.is_auto(),
            self.style(node).min_width.is_auto(),
            self.style(node).max_width.is_auto(),
            0 <= self.content_widths_of(node).0 <= self.content_widths_of(node).1,
        ensures
            ({
                let d = self.atomic_size(node, containing, available);
                let (min, max) = self.content_widths_of(node);
                let c = self.style(node);
                let edges = d.margin.left + d.margin.right + edges_across(d);
                let room = available - edges;
                &&& min <= d.content.width <= max
                &&& min <= room <= max ==> d.content.width == room
                &&& max <= room ==> d.content.width == max
                &&& room <= min ==> d.content.width == min
                &&& c.margin.left.is_auto() ==> d.margin.left == 0
                &&& c.margin.right.is_auto() ==> d.margin.right == 0
            }),
    {
        let c = self.style(node);
        edges_are_modest(c, containing, None);
        let d = resolve_block_dims(&c, containing, None);
        let dims = d.with_margin(
            EdgeSizes {
                left: if c.margin.left.is_auto() {
                    0
                } else {
                    d.margin.left
                },
                right: if c.margin.right.is_auto() {
                    0
                } else {
                    d.margin.right
                },
                ..d.margin
            },
        );
        edges_are_the_rest(dims);
    }
}

/// What is left of a margin box without its content.
proof fn edges_are_the_rest(d: Dimensions)
    requires
        is_mild(d.margin.left) && is_mild(d.margin.right),
        is_mild(d.border.left) && is_mild(d.border.right),
        is_mild(d.padding.left) && is_mild(d.padding.right),
        0 <= d.content.width <= 0x0100_0000,
    ensures
        minus(d.margin_box_width(), d.content.width) == d.margin.left + d.margin.right
            + edges_across(d),
{
}

} // verus!
