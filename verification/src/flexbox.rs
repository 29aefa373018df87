//! Flex containers: what the items are, how big each wants to be, which of
//! them share a line, how each line's space is divided, and where they go.
//!
//! A row's main size is a width, which can be measured without laying anything
//! out, so its items are built where they belong. A column's is a height, which
//! nothing knows before the item is built, so its items are built first and
//! then moved. Every item is built exactly once either way.

use vstd::prelude::*;

use crate::blocks::{axis_v, nodes_in, BlockHeight, BoxArgs, Built, Recipe};
use crate::boxes::{in_range, BoxId, BoxKind, BoxView};
use crate::boxmodel::{
    column_cross_align, definite_v, edge_h, edge_v, from_far_edge, inset_h, resolve_block_dims,
    shrink_to_fit, Axis,
};
use crate::cells::{count, larger, minus, plus, smaller, times};
use crate::context::{
    nodes_below, source_below, sources_below, texts_below, Ctx, FlexItemSource, SourceView,
};
use crate::dimensions::{Dimensions, EdgeSizes, Rect};
use crate::dom::NodeId;
use crate::engine::{first_row, Canvas, Engine};
use crate::flex::{
    align_lines, collect_lines, cross_place, cross_places, cross_size, gaps, line_cross_size,
    line_used, lines_from, lines_ok, lines_reach, lines_used, reach_before, place, places, resolve, resolved, stacked,
    used_by_line, used_cross, CrossItem, CrossPlaced, Item, Placed, PlacedLine, Slot,
};
use crate::inline::{items_known, InlineItem};
use crate::order::{indices_below, sorted_indices, stable_order};
use crate::style::{AlignItems, ComputedStyle, FlexBasis, FlexDirection, FlexWrap, Gaps, Length};
use crate::text::same;
use crate::views::views;

verus! {

broadcast use crate::views::group_views;

/// Which physical direction a flex container's main axis runs in, and what
/// lengths on either axis resolve against.
#[derive(Clone, Copy, PartialEq, Eq, Debug)]
pub struct FlexAxis {
    /// The main axis runs down the page.
    pub vertical: bool,
    /// Main-start is the container's far edge.
    pub reverse: bool,
    /// Items that do not fit start a new line.
    pub wraps: bool,
    /// Cross-start is the container's far edge.
    pub cross_reverse: bool,
    /// The container's inner width.
    pub width: i32,
    /// What a percentage on the main axis resolves against.
    pub main_base: Option<i32>,
    /// What a percentage on the cross axis resolves against.
    pub cross_base: Option<i32>,
}

impl FlexAxis {
    /// A column without a height or a maximum one does not wrap: it has no edge
    /// to wrap at.
    #[verifier::allow_in_spec]
    pub fn of(
        direction: FlexDirection,
        wrap: FlexWrap,
        width: i32,
        heights: BlockHeight,
    ) -> (r: FlexAxis)
        returns
            ({
                let vertical = direction is Column || direction is ColumnReverse;
                FlexAxis {
                    vertical,
                    reverse: direction is RowReverse || direction is ColumnReverse,
                    wraps: !(wrap is NoWrap) && (!vertical || heights.specified is Some
                        || heights.max is Some),
                    cross_reverse: wrap is WrapReverse,
                    width,
                    main_base: if vertical {
                        heights.specified
                    } else {
                        Some(width)
                    },
                    cross_base: if vertical {
                        Some(width)
                    } else {
                        heights.specified
                    },
                }
            }),
    {
        let vertical: bool = matches!(
            direction,
            FlexDirection::Column | FlexDirection::ColumnReverse
        );
        FlexAxis {
            vertical,
            reverse: matches!(direction, FlexDirection::RowReverse | FlexDirection::ColumnReverse),
            wraps: !matches!(wrap, FlexWrap::NoWrap) && (!vertical || heights.specified.is_some()
                || heights.max.is_some()),
            cross_reverse: matches!(wrap, FlexWrap::WrapReverse),
            width,
            main_base: if vertical {
                heights.specified
            } else {
                Some(width)
            },
            cross_base: if vertical {
                Some(width)
            } else {
                heights.specified
            },
        }
    }

    #[verifier::allow_in_spec]
    pub fn main_size(self, c: &ComputedStyle) -> (r: Length)
        returns
            (if self.vertical {
                c.height
            } else {
                c.width
            }),
    {
        if self.vertical {
            c.height
        } else {
            c.width
        }
    }

    #[verifier::allow_in_spec]
    pub fn main_min(self, c: &ComputedStyle) -> (r: Length)
        returns
            (if self.vertical {
                c.min_height
            } else {
                c.min_width
            }),
    {
        if self.vertical {
            c.min_height
        } else {
            c.min_width
        }
    }

    #[verifier::allow_in_spec]
    pub fn main_max(self, c: &ComputedStyle) -> (r: Length)
        returns
            (if self.vertical {
                c.max_height
            } else {
                c.max_width
            }),
    {
        if self.vertical {
            c.max_height
        } else {
            c.max_width
        }
    }

    /// The main-axis margins, main-start first.
    #[verifier::allow_in_spec]
    pub fn main_margins(self, c: &ComputedStyle) -> (r: (Length, Length))
        returns
            (match (self.vertical, self.reverse) {
                (true, true) => (c.margin.bottom, c.margin.top),
                (true, false) => (c.margin.top, c.margin.bottom),
                (false, true) => (c.margin.right, c.margin.left),
                (false, false) => (c.margin.left, c.margin.right),
            }),
    {
        match (self.vertical, self.reverse) {
            (true, true) => (c.margin.bottom, c.margin.top),
            (true, false) => (c.margin.top, c.margin.bottom),
            (false, true) => (c.margin.right, c.margin.left),
            (false, false) => (c.margin.left, c.margin.right),
        }
    }

    /// The cross-axis margins, cross-start first.
    #[verifier::allow_in_spec]
    pub fn cross_margins(self, c: &ComputedStyle) -> (r: (Length, Length))
        returns
            (match (self.vertical, self.cross_reverse) {
                (true, true) => (c.margin.right, c.margin.left),
                (true, false) => (c.margin.left, c.margin.right),
                (false, true) => (c.margin.bottom, c.margin.top),
                (false, false) => (c.margin.top, c.margin.bottom),
            }),
    {
        match (self.vertical, self.cross_reverse) {
            (true, true) => (c.margin.right, c.margin.left),
            (true, false) => (c.margin.left, c.margin.right),
            (false, true) => (c.margin.bottom, c.margin.top),
            (false, false) => (c.margin.top, c.margin.bottom),
        }
    }

    /// One main-axis edge; percentages are of the container's width.
    #[verifier::allow_in_spec]
    pub fn edge(self, len: Length) -> (r: i32)
        returns
            (if self.vertical {
                edge_v(len, self.width)
            } else {
                edge_h(len, self.width)
            }),
    {
        if self.vertical {
            edge_v(len, self.width)
        } else {
            edge_h(len, self.width)
        }
    }

    /// Padding and border on the main axis.
    #[verifier::allow_in_spec]
    pub fn main_box_edges(self, c: &ComputedStyle) -> (r: i32)
        returns
            (if self.vertical {
                plus(
                    plus(
                        plus(self.edge(c.padding.top), self.edge(c.padding.bottom)),
                        self.edge(c.border.top),
                    ),
                    self.edge(c.border.bottom),
                )
            } else {
                plus(
                    plus(
                        plus(self.edge(c.padding.left), self.edge(c.padding.right)),
                        self.edge(c.border.left),
                    ),
                    self.edge(c.border.right),
                )
            }),
    {
        if self.vertical {
            plus(
                plus(
                    plus(self.edge(c.padding.top), self.edge(c.padding.bottom)),
                    self.edge(c.border.top),
                ),
                self.edge(c.border.bottom),
            )
        } else {
            plus(
                plus(
                    plus(self.edge(c.padding.left), self.edge(c.padding.right)),
                    self.edge(c.border.left),
                ),
                self.edge(c.border.right),
            )
        }
    }

    /// A main-axis size property, or `None` where it behaves as `auto`.
    #[verifier::allow_in_spec]
    pub fn main_definite(self, len: Length) -> (r: Option<i32>)
        returns
            (if self.vertical {
                definite_v(len, self.main_base)
            } else {
                inset_h(len, self.width)
            }),
    {
        if self.vertical {
            definite_v(len, self.main_base)
        } else {
            inset_h(len, self.width)
        }
    }

    /// The gap between the items on a line.
    #[verifier::allow_in_spec]
    pub fn main_gap(self, gaps: Gaps) -> (r: i32)
        returns
            larger(
                match self.main_definite(
                    if self.vertical {
                        gaps.row
                    } else {
                        gaps.column
                    },
                ) {
                    Some(n) => n,
                    None => 0,
                },
                0,
            ),
    {
        larger(
            match self.main_definite(
                if self.vertical {
                    gaps.row
                } else {
                    gaps.column
                },
            ) {
                Some(n) => n,
                None => 0,
            },
            0,
        )
    }

    /// The gap between lines.
    #[verifier::allow_in_spec]
    pub fn cross_gap(self, gaps: Gaps) -> (r: i32)
        returns
            larger(
                if self.vertical {
                    edge_h(gaps.column, self.width)
                } else {
                    match definite_v(gaps.row, self.cross_base) {
                        Some(n) => n,
                        None => 0,
                    }
                },
                0,
            ),
    {
        larger(
            if self.vertical {
                edge_h(gaps.column, self.width)
            } else {
                match definite_v(gaps.row, self.cross_base) {
                    Some(n) => n,
                    None => 0,
                }
            },
            0,
        )
    }

    /// Does this item clip on the main axis?
    #[verifier::allow_in_spec]
    pub fn main_overflow_clips(self, c: &ComputedStyle) -> (r: bool)
        returns
            (if self.vertical {
                c.overflow_y.clips()
            } else {
                c.overflow_x.clips()
            }),
    {
        if self.vertical {
            c.overflow_y.clips()
        } else {
            c.overflow_x.clips()
        }
    }

    /// A box's outer cross size.
    #[verifier::allow_in_spec]
    pub fn cross_outer(self, d: Dimensions) -> (r: i32)
        returns
            (if self.vertical {
                d.margin_box().width
            } else {
                d.margin_box().height
            }),
    {
        if self.vertical {
            d.margin_box().width
        } else {
            d.margin_box().height
        }
    }
}

/// `align-self` resolved, as this container's cross axis can honour it.
#[verifier::allow_in_spec]
pub fn cross_align(c: &ComputedStyle, axis: FlexAxis, container: &ComputedStyle) -> (r: AlignItems)
    returns
        (if axis.vertical {
            column_cross_align(c.align_self.resolve(container.align_items))
        } else {
            c.align_self.resolve(container.align_items)
        }),
{
    if axis.vertical {
        column_cross_align(c.align_self.resolve(container.align_items))
    } else {
        c.align_self.resolve(container.align_items)
    }
}

/// Does the base size or the automatic minimum need to know how big this
/// item's content wants to be?
#[verifier::allow_in_spec]
pub fn wants_content_size(c: &ComputedStyle, axis: FlexAxis) -> (r: bool)
    returns
        (c.flex.basis is Content || (c.flex.basis is Auto && axis.main_definite(axis.main_size(c))
            is None) || (axis.main_min(c).is_auto() && !axis.main_overflow_clips(c))),
{
    matches!(c.flex.basis, FlexBasis::Content) || (matches!(c.flex.basis, FlexBasis::Auto)
        && axis.main_definite(axis.main_size(c)).is_none()) || (axis.main_min(c).is_auto()
        && !axis.main_overflow_clips(c))
}

/// A content-box size from a specified one.
#[verifier::allow_in_spec]
pub fn content_of(axis: Axis, size: Option<i32>) -> (r: Option<i32>)
    returns
        (match size {
            Some(n) => Some(axis.content_from(n)),
            None => None,
        }),
{
    match size {
        Some(n) => Some(axis.content_from(n)),
        None => None,
    }
}

#[verifier::allow_in_spec]
pub fn at_most(n: i32, max: Option<i32>) -> (r: i32)
    returns
        (match max {
            Some(m) => smaller(n, m),
            None => n,
        }),
{
    match max {
        Some(m) => smaller(n, m),
        None => n,
    }
}

#[verifier::allow_in_spec]
pub fn or_else(n: Option<i32>, other: i32) -> (r: i32)
    returns
        (match n {
            Some(v) => v,
            None => other,
        }),
{
    match n {
        Some(v) => v,
        None => other,
    }
}

/// An item's sizes, from the two content sizes its axis could supply.
///
/// An automatic minimum never exceeds the size the item was given or its own
/// maximum, and an item that clips has none.
#[verifier::allow_in_spec]
pub fn item_metrics(c: &ComputedStyle, axis: FlexAxis, content: (i32, i32)) -> (r: Item)
    returns
        ({
            let box_axis = Axis { edges: axis.main_box_edges(c), box_sizing: c.box_sizing };
            let margins = axis.main_margins(c);
            let specified = content_of(box_axis, axis.main_definite(axis.main_size(c)));
            let base = match c.flex.basis {
                FlexBasis::Content => content.1,
                FlexBasis::Size(len) => or_else(
                    content_of(box_axis, axis.main_definite(len)),
                    content.1,
                ),
                FlexBasis::Auto => or_else(specified, content.1),
            };
            let max = content_of(box_axis, axis.main_definite(axis.main_max(c)));
            let min = if axis.main_min(c).is_auto() {
                if axis.main_overflow_clips(c) {
                    0
                } else {
                    at_most(at_most(content.0, specified), max)
                }
            } else {
                or_else(content_of(box_axis, axis.main_definite(axis.main_min(c))), 0)
            };
            Item {
                base,
                hypothetical: larger(larger(at_most(base, max), min), 0),
                min,
                max,
                grow: c.flex.grow,
                shrink: c.flex.shrink,
                outer_edges: plus(
                    plus(box_axis.edges, axis.edge(margins.0)),
                    axis.edge(margins.1),
                ),
            }
        }),
{
    let box_axis: Axis = Axis { edges: axis.main_box_edges(c), box_sizing: c.box_sizing };
    let margins: (Length, Length) = axis.main_margins(c);
    let specified: Option<i32> = content_of(box_axis, axis.main_definite(axis.main_size(c)));
    let base: i32 = match c.flex.basis {
        FlexBasis::Content => content.1,
        FlexBasis::Size(len) => or_else(content_of(box_axis, axis.main_definite(len)), content.1),
        FlexBasis::Auto => or_else(specified, content.1),
    };
    let max: Option<i32> = content_of(box_axis, axis.main_definite(axis.main_max(c)));
    let min: i32 = if axis.main_min(c).is_auto() {
        if axis.main_overflow_clips(c) {
            0
        } else {
            at_most(at_most(content.0, specified), max)
        }
    } else {
        or_else(content_of(box_axis, axis.main_definite(axis.main_min(c))), 0)
    };
    Item {
        base,
        hypothetical: larger(larger(at_most(base, max), min), 0),
        min,
        max,
        grow: c.flex.grow,
        shrink: c.flex.shrink,
        outer_edges: plus(plus(box_axis.edges, axis.edge(margins.0)), axis.edge(margins.1)),
    }
}

/// One flex item while it is being sized and placed.
#[derive(Clone, Copy, PartialEq, Eq, Debug)]
pub struct FlexItem {
    /// Which of the container's sources it is.
    pub source: usize,
    pub computed: ComputedStyle,
    pub order: i32,
    pub metrics: Item,
    /// The box, where measuring the item is what built it.
    pub built: Option<BoxId>,
}

/// One item's place on the line, near and far being the sides a box's
/// coordinates are in.
#[derive(Clone, Copy, PartialEq, Eq, Debug)]
pub struct ItemPlacement {
    pub near: i32,
    pub main_size: i32,
    pub auto_near: i32,
    pub auto_far: i32,
}

/// What every item of a container is laid out against.
#[derive(Clone, Copy, PartialEq, Eq, Debug)]
pub struct FlexEnv {
    pub axis: FlexAxis,
    pub style: ComputedStyle,
    pub content: Rect,
    pub height: Option<i32>,
    pub pre: bool,
}

/// Items in the order of their `order`, equal ones as they stood.
pub open spec fn in_order(items: Seq<FlexItem>) -> Seq<FlexItem> {
    let keys = items.map_values(|i: FlexItem| i.order as i128);
    sorted_indices(keys, keys.len() as int).map_values(|i: usize| items[i as int])
}

/// What the items take on the main axis, from the `i`th on.
pub open spec fn content_main_from(items: Seq<FlexItem>, i: int, acc: i32) -> i32
    decreases items.len() - i,
{
    if i >= items.len() {
        acc
    } else {
        content_main_from(
            items,
            i + 1,
            plus(plus(acc, items[i].metrics.hypothetical), items[i].metrics.outer_edges),
        )
    }
}

/// Does the tag keep its own layout path inside a flex container?
pub open spec fn own_path(tag: Seq<char>) -> bool {
    tag == "img"@ || tag == "br"@ || tag == "hr"@
}

pub proof fn no_tag_is_no_own_path()
    ensures
        !own_path(Seq::empty()),
{
    reveal_strlit("img");
    reveal_strlit("br");
    reveal_strlit("hr");
    assert("img"@.len() == 3 && "br"@.len() == 2 && "hr"@.len() == 2);
}

fn keeps_own_path(tag: &str) -> (r: bool)
    ensures
        r == own_path(tag@),
{
    same(tag, "img") || same(tag, "br") || same(tag, "hr")
}

/// The item's row, from its cross-start margin edge.
pub open spec fn baseline_of(boxes: Seq<BoxView>, id: BoxId) -> i32 {
    let d = boxes[id.0 as int].dimensions;
    match first_row(boxes, boxes.len(), id) {
        Some(row) => minus(row, d.margin_box().y),
        None => minus(d.border_box().bottom(), d.margin_box().y),
    }
}

impl<'a> Ctx<'a> {
    /// The inline items of a run of text nodes from the `i`th on.
    pub open spec fn run_items(&self, nodes: Seq<NodeId>, width: i32, i: int) -> Seq<InlineItem>
        decreases nodes.len() - i,
    {
        if i >= nodes.len() {
            Seq::empty()
        } else {
            self.inline_items(nodes[i], width) + self.run_items(nodes, width, i + 1)
        }
    }

    /// One item of a row: measured, not built.
    #[verifier::opaque]
    pub open spec fn row_item(&self, source: SourceView, k: usize, axis: FlexAxis) -> FlexItem {
        match source {
            SourceView::Element(node) => {
                let c = self.style(node);
                FlexItem {
                    source: k,
                    computed: c,
                    order: c.order,
                    metrics: item_metrics(
                        &c,
                        axis,
                        if wants_content_size(&c, axis) {
                            self.content_widths_of(node)
                        } else {
                            (0, 0)
                        },
                    ),
                    built: None,
                }
            },
            SourceView::Text(nodes) => FlexItem {
                source: k,
                computed: ComputedStyle::initial(),
                order: 0,
                metrics: item_metrics(
                    &ComputedStyle::initial(),
                    axis,
                    self.run_widths_of(nodes),
                ),
                built: None,
            },
        }
    }

    /// The edges of a column item, its `auto` cross margins counted as nothing.
    pub open spec fn column_dims(&self, c: ComputedStyle, width: i32) -> Dimensions {
        let d = resolve_block_dims(&c, width, None);
        d.with_margin(
            EdgeSizes {
                left: if c.margin.left.is_auto() {
                    0
                } else {
                    d.margin.left
                },
                right: if c.margin.right.is_auto() {
                    0
                } else {
                    d.margin.right
                },
                ..d.margin
            },
        )
    }

    /// A column item's used width. A stretching item of a container that does
    /// not wrap fills it; any other shrink-wraps its content.
    pub open spec fn column_cross(
        &self,
        node: NodeId,
        c: ComputedStyle,
        align: AlignItems,
        axis: FlexAxis,
        avail: i32,
        h_edges: i32,
    ) -> i32 {
        let h_axis = Axis { edges: h_edges, box_sizing: c.box_sizing };
        let tentative = if !c.width.is_auto() {
            h_axis.content_from(c.width.to_cells_h(axis.width))
        } else if align is Stretch && !axis.wraps && !c.margin.left.is_auto()
            && !c.margin.right.is_auto() {
            avail
        } else {
            let (min, max) = self.content_widths_of(node);
            shrink_to_fit(min, max, avail)
        };
        h_axis.clamp(
            tentative,
            inset_h(c.min_width, axis.width),
            inset_h(c.max_width, axis.width),
        )
    }

    /// The used width of any column item.
    pub open spec fn column_width(
        &self,
        node: NodeId,
        c: ComputedStyle,
        env: FlexEnv,
        d: Dimensions,
    ) -> i32 {
        let tag = self.dom.tag_of(node);
        let avail = larger(
            minus(minus(env.content.width, d.margin.across()), d.inner_edges_h()),
            0,
        );
        if tag == "img"@ {
            self.content_widths_of(node).1
        } else if tag == "br"@ || tag == "hr"@ {
            avail
        } else {
            self.column_cross(
                node,
                c,
                cross_align(&c, env.axis, &env.style),
                env.axis,
                avail,
                d.inner_edges_h(),
            )
        }
    }

    /// The box of one element of a column, and the height its contents used.
    #[verifier::opaque]
    pub open spec fn column_box(
        &self,
        rec: Recipe,
        cv: Canvas,
        node: NodeId,
        env: FlexEnv,
    ) -> Built {
        let c = self.style(node);
        let d = self.column_dims(c, env.content.width);
        let cross = self.column_width(node, c, env, d);
        let at = d.with_content(
            Rect {
                x: plus(
                    plus(plus(env.content.x, d.margin.left), d.border.left),
                    d.padding.left,
                ),
                y: plus(plus(plus(env.content.y, d.margin.top), d.border.top), d.padding.top),
                width: cross,
                height: 0,
            },
        );
        let tag = self.dom.tag_of(node);
        let own = self.lay_node(
            rec,
            cv,
            node,
            env.content.x,
            plus(plus(cross, d.inner_edges_h()), d.margin.across()),
            env.height,
            env.content.y,
            0,
            env.pre,
        );
        if own_path(tag) && own.id is Some {
            let id = own.id->0;
            let now = own.cv.dims(id);
            let there = if tag == "img"@ {
                own.cv.with_dims(
                    id,
                    now.with_content(
                        Rect { x: at.content.x, width: cross, ..now.content },
                    ),
                )
            } else {
                own.cv
            };
            Built { cv: there, id, content: there.dims(id).content.height }
        } else {
            let start = if own_path(tag) {
                own.cv
            } else {
                cv
            };
            (rec.build)(
                BoxArgs {
                    cv: start,
                    id: node,
                    computed: c,
                    dims: at,
                    ch: env.height,
                    pre: env.pre,
                },
            )
        }
    }

    /// One item of a column: built, and read back.
    #[verifier::opaque]
    pub open spec fn column_item(
        &self,
        rec: Recipe,
        cv: Canvas,
        source: SourceView,
        k: usize,
        env: FlexEnv,
    ) -> (Canvas, FlexItem) {
        match source {
            SourceView::Element(node) => {
                let c = self.style(node);
                let built = self.column_box(rec, cv, node, env);
                (
                    built.cv,
                    FlexItem {
                        source: k,
                        computed: c,
                        order: c.order,
                        metrics: item_metrics(&c, env.axis, (built.content, built.content)),
                        built: Some(built.id),
                    },
                )
            },
            SourceView::Text(nodes) => {
                let (min, max) = self.run_widths_of(nodes);
                let cross = if column_cross_align(env.style.align_items) is Stretch
                    && !env.axis.wraps {
                    env.content.width
                } else {
                    shrink_to_fit(min, max, env.content.width)
                };
                let laid = self.anonymous(
                    rec,
                    cv,
                    env.content.x,
                    cross,
                    env.content.y,
                    0,
                    self.run_items(nodes, cross, 0),
                    env.style.text_align,
                    env.pre,
                );
                let id = laid.id->0;
                let h = laid.cv.dims(id).content.height;
                (
                    laid.cv,
                    FlexItem {
                        source: k,
                        computed: ComputedStyle::initial(),
                        order: 0,
                        metrics: item_metrics(&ComputedStyle::initial(), env.axis, (h, h)),
                        built: Some(id),
                    },
                )
            },
        }
    }

    /// The items from the `k`th source on.
    pub open spec fn flex_items_from(
        &self,
        rec: Recipe,
        cv: Canvas,
        sources: Seq<SourceView>,
        k: int,
        env: FlexEnv,
        items: Seq<FlexItem>,
    ) -> (Canvas, Seq<FlexItem>)
        decreases sources.len() - k,
    {
        if k >= sources.len() {
            (cv, items)
        } else if env.axis.vertical {
            let (cv2, item) = self.column_item(rec, cv, sources[k], k as usize, env);
            self.flex_items_from(rec, cv2, sources, k + 1, env, items.push(item))
        } else {
            self.flex_items_from(
                rec,
                cv,
                sources,
                k + 1,
                env,
                items.push(self.row_item(sources[k], k as usize, env.axis)),
            )
        }
    }

    /// A row item's box, built where the line placed it.
    #[verifier::opaque]
    pub open spec fn row_box(
        &self,
        rec: Recipe,
        cv: Canvas,
        item: FlexItem,
        source: SourceView,
        p: ItemPlacement,
        env: FlexEnv,
    ) -> (Canvas, BoxId) {
        match source {
            SourceView::Element(node) => {
                let c = item.computed;
                let tag = self.dom.tag_of(node);
                let d0 = resolve_block_dims(&c, env.content.width, None);
                let d = d0.with_margin(
                    EdgeSizes {
                        left: if c.margin.left.is_auto() {
                            p.auto_near
                        } else {
                            d0.margin.left
                        },
                        right: if c.margin.right.is_auto() {
                            p.auto_far
                        } else {
                            d0.margin.right
                        },
                        ..d0.margin
                    },
                );
                let lead = plus(plus(d.margin.left, d.border.left), d.padding.left);
                let own = self.lay_node(
                    rec,
                    cv,
                    node,
                    plus(p.near, p.auto_near),
                    plus(p.main_size, item.metrics.outer_edges),
                    env.height,
                    env.content.y,
                    0,
                    env.pre,
                );
                if own_path(tag) && own.id is Some {
                    let id = own.id->0;
                    let now = own.cv.dims(id);
                    let margin = EdgeSizes {
                        left: plus(now.margin.left, p.auto_near),
                        right: plus(now.margin.right, p.auto_far),
                        ..now.margin
                    };
                    let content = if tag == "img"@ {
                        Rect { x: plus(p.near, lead), width: p.main_size, ..now.content }
                    } else {
                        now.content
                    };
                    (own.cv.with_dims(id, now.with_margin(margin).with_content(content)), id)
                } else {
                    let start = if own_path(tag) {
                        own.cv
                    } else {
                        cv
                    };
                    let at = d.with_content(
                        Rect {
                            x: plus(p.near, lead),
                            y: plus(
                                plus(plus(env.content.y, d.margin.top), d.border.top),
                                d.padding.top,
                            ),
                            width: p.main_size,
                            height: 0,
                        },
                    );
                    let built = (rec.build)(
                        BoxArgs {
                            cv: start,
                            id: node,
                            computed: c,
                            dims: at,
                            ch: env.height,
                            pre: env.pre,
                        },
                    );
                    (built.cv, built.id)
                }
            },
            SourceView::Text(nodes) => {
                let laid = self.anonymous(
                    rec,
                    cv,
                    p.near,
                    p.main_size,
                    env.content.y,
                    0,
                    self.run_items(nodes, p.main_size, 0),
                    env.style.text_align,
                    env.pre,
                );
                (laid.cv, laid.id->0)
            },
        }
    }
}

/// A column item moved to its place on the line, with the main size the line
/// gave it.
#[verifier::opaque]
pub open spec fn column_placed(
    cv: Canvas,
    id: BoxId,
    item: FlexItem,
    axis: FlexAxis,
    p: ItemPlacement,
) -> Canvas {
    let c = item.computed;
    let margin_top = if c.margin.top.is_auto() {
        p.auto_near
    } else {
        edge_v(c.margin.top, axis.width)
    };
    let y = plus(
        plus(plus(p.near, margin_top), edge_v(c.border.top, axis.width)),
        edge_v(c.padding.top, axis.width),
    );
    let there = cv.moved(id, 0, minus(y, cv.dims(id).content.y));
    let d = there.dims(id);
    there.with_dims(
        id,
        d.with_margin(
            EdgeSizes {
                top: if c.margin.top.is_auto() {
                    p.auto_near
                } else {
                    d.margin.top
                },
                bottom: if c.margin.bottom.is_auto() {
                    p.auto_far
                } else {
                    d.margin.bottom
                },
                ..d.margin
            },
        ).with_content(Rect { height: p.main_size, ..d.content }),
    )
}

pub open spec fn slot_of(item: FlexItem, size: i32, axis: FlexAxis) -> Slot {
    let margins = axis.main_margins(&item.computed);
    Slot {
        outer: plus(size, item.metrics.outer_edges),
        auto_start: margins.0.is_auto(),
        auto_end: margins.1.is_auto(),
    }
}

pub open spec fn line_slots(items: Seq<FlexItem>, sizes: Seq<i32>, axis: FlexAxis) -> Seq<Slot> {
    Seq::new(items.len(), |j: int| slot_of(items[j], sizes[j], axis))
}

/// A line's division and places, all computed before any box of it is built.
pub struct LinePlan {
    pub sizes: Seq<i32>,
    pub slots: Seq<Slot>,
    pub placed: Seq<Placed>,
    pub used: i32,
}

#[verifier::opaque]
pub open spec fn plan_line(items: Seq<FlexItem>, env: FlexEnv, inner_main: i32, gap: i32) -> LinePlan {
    let sizes = resolved(
        items.map_values(|i: FlexItem| i.metrics),
        inner_main,
        gaps(gap, items.len() as int),
    );
    let slots = line_slots(items, sizes, env.axis);
    LinePlan {
        sizes,
        slots,
        placed: places(slots, gap, inner_main, env.style.justify_content),
        used: line_used(slots, gap),
    }
}

/// Where item `j` of a planned line goes.
pub open spec fn placement(plan: LinePlan, j: int, env: FlexEnv, inner_main: i32) -> ItemPlacement {
    let p = plan.placed[j];
    let outer = plus(plus(plan.slots[j].outer, p.auto_start), p.auto_end);
    let origin = if env.axis.vertical {
        env.content.y
    } else {
        env.content.x
    };
    ItemPlacement {
        near: if env.axis.reverse {
            from_far_edge(origin, inner_main, plan.used, p.main_start, outer)
        } else {
            plus(origin, p.main_start)
        },
        main_size: plan.sizes[j],
        auto_near: if env.axis.reverse {
            p.auto_end
        } else {
            p.auto_start
        },
        auto_far: if env.axis.reverse {
            p.auto_start
        } else {
            p.auto_end
        },
    }
}

impl<'a> Ctx<'a> {
    /// The items of one line from the `j`th on.
    pub open spec fn line_laid(
        &self,
        rec: Recipe,
        cv: Canvas,
        items: Seq<FlexItem>,
        sources: Seq<SourceView>,
        plan: LinePlan,
        j: int,
        env: FlexEnv,
        inner_main: i32,
        children: Seq<BoxId>,
    ) -> (Canvas, Seq<BoxId>)
        decreases items.len() - j,
    {
        if j >= items.len() {
            (cv, children)
        } else {
            let p = placement(plan, j, env, inner_main);
            let (cv2, id) = match items[j].built {
                Some(id) => (column_placed(cv, id, items[j], env.axis, p), id),
                None => self.row_box(
                    rec,
                    cv,
                    items[j],
                    sources[items[j].source as int],
                    p,
                    env,
                ),
            };
            self.line_laid(
                rec,
                cv2,
                items,
                sources,
                plan,
                j + 1,
                env,
                inner_main,
                children.push(id),
            )
        }
    }

    /// The lines from the `k`th on.
    pub open spec fn lines_laid(
        &self,
        rec: Recipe,
        cv: Canvas,
        items: Seq<FlexItem>,
        sources: Seq<SourceView>,
        lines: Seq<(usize, usize)>,
        k: int,
        env: FlexEnv,
        inner_main: i32,
        gap: i32,
        children: Seq<BoxId>,
    ) -> (Canvas, Seq<BoxId>)
        decreases lines.len() - k,
    {
        if k >= lines.len() {
            (cv, children)
        } else {
            let line = items.subrange(lines[k].0 as int, lines[k].1 as int);
            let plan = plan_line(line, env, inner_main, gap);
            let (cv2, next) = self.line_laid(
                rec,
                cv,
                line,
                sources,
                plan,
                0,
                env,
                inner_main,
                children,
            );
            self.lines_laid(
                rec,
                cv2,
                items,
                sources,
                lines,
                k + 1,
                env,
                inner_main,
                gap,
                next,
            )
        }
    }

    /// The element children from the `k`th on that leave the flow.
    pub open spec fn out_of_flow_kids(&self, kids: Seq<NodeId>, k: int) -> Seq<NodeId>
        decreases kids.len() - k,
    {
        if k >= kids.len() {
            Seq::empty()
        } else {
            (if self.leaves_flow(kids[k]) {
                seq![kids[k]]
            } else {
                Seq::empty()
            }) + self.out_of_flow_kids(kids, k + 1)
        }
    }
}

/// An item seen across its line.
pub open spec fn cross_item_of(cv: Canvas, item: FlexItem, id: BoxId, env: FlexEnv) -> CrossItem {
    let c = item.computed;
    let align = cross_align(&c, env.axis, &env.style);
    let outer = env.axis.cross_outer(cv.dims(id));
    let margins = env.axis.cross_margins(&c);
    CrossItem {
        outer,
        baseline: if align is Baseline {
            if env.axis.cross_reverse {
                minus(outer, baseline_of(cv.boxes, id))
            } else {
                baseline_of(cv.boxes, id)
            }
        } else {
            0
        },
        align,
        auto_start: margins.0.is_auto(),
        auto_end: margins.1.is_auto(),
    }
}

pub open spec fn cross_items_of(cv: Canvas, items: Seq<FlexItem>, ids: Seq<BoxId>, env: FlexEnv) -> Seq<
    CrossItem,
> {
    Seq::new(items.len(), |k: int| cross_item_of(cv, items[k], ids[k], env))
}

/// An item stretched to its line's cross size, if its own is `auto` and it has
/// no `auto` cross margin. Never smaller than its own content.
#[verifier::opaque]
pub open spec fn stretched(cv: Canvas, id: BoxId, c: ComputedStyle, axis: FlexAxis, line: i32) -> Canvas {
    let margins = axis.cross_margins(&c);
    let size = if axis.vertical {
        c.width
    } else {
        c.height
    };
    if cv.boxes[id.0 as int].kind is Image || !size.is_auto() || margins.0.is_auto()
        || margins.1.is_auto() {
        cv
    } else {
        let d = cv.dims(id);
        let (edges, around, now) = if axis.vertical {
            (d.inner_edges_h(), d.margin.across(), d.content.width)
        } else {
            (d.inner_edges_v(), plus(d.margin.top, d.margin.bottom), d.content.height)
        };
        let box_axis = Axis { edges, box_sizing: c.box_sizing };
        let (min, max) = if axis.vertical {
            (inset_h(c.min_width, axis.width), inset_h(c.max_width, axis.width))
        } else {
            (definite_v(c.min_height, axis.cross_base), definite_v(c.max_height, axis.cross_base))
        };
        let used = larger(
            larger(
                at_most(minus(line, plus(edges, around)), content_of(box_axis, max)),
                or_else(content_of(box_axis, min), now),
            ),
            0,
        );
        cv.with_dims(
            id,
            d.with_content(
                if axis.vertical {
                    Rect { width: used, ..d.content }
                } else {
                    Rect { height: used, ..d.content }
                },
            ),
        )
    }
}

/// One item moved to its place across its line.
#[verifier::opaque]
pub open spec fn crossed(
    cv: Canvas,
    item: FlexItem,
    id: BoxId,
    ci: CrossItem,
    p: CrossPlaced,
    axis: FlexAxis,
    line_near: i32,
    line: PlacedLine,
) -> Canvas {
    let c = item.computed;
    let sized = if ci.align is Stretch {
        stretched(cv, id, c, axis, line.cross)
    } else {
        cv
    };
    let d = sized.dims(id);
    let span = plus(plus(axis.cross_outer(d), p.auto_start), p.auto_end);
    let near = if axis.cross_reverse {
        from_far_edge(line_near, line.cross, span, p.cross_start, span)
    } else {
        plus(line_near, p.cross_start)
    };
    let (auto_near, auto_far) = if axis.cross_reverse {
        (p.auto_end, p.auto_start)
    } else {
        (p.auto_start, p.auto_end)
    };
    if axis.vertical {
        let margin = if c.margin.left.is_auto() {
            auto_near
        } else {
            d.margin.left
        };
        let x = plus(plus(near, margin), plus(d.border.left, d.padding.left));
        let there = sized.moved(id, minus(x, d.content.x), 0);
        let now = there.dims(id);
        there.with_dims(
            id,
            now.with_margin(
                EdgeSizes {
                    left: if c.margin.left.is_auto() {
                        auto_near
                    } else {
                        now.margin.left
                    },
                    right: if c.margin.right.is_auto() {
                        auto_far
                    } else {
                        now.margin.right
                    },
                    ..now.margin
                },
            ),
        )
    } else {
        let margin = if c.margin.top.is_auto() {
            auto_near
        } else {
            d.margin.top
        };
        let y = plus(plus(near, margin), plus(d.border.top, d.padding.top));
        let there = sized.moved(id, 0, minus(y, d.content.y));
        let now = there.dims(id);
        there.with_dims(
            id,
            now.with_margin(
                EdgeSizes {
                    top: if c.margin.top.is_auto() {
                        auto_near
                    } else {
                        now.margin.top
                    },
                    bottom: if c.margin.bottom.is_auto() {
                        auto_far
                    } else {
                        now.margin.bottom
                    },
                    ..now.margin
                },
            ),
        )
    }
}

/// The items of one line from the `j`th on moved across it.
pub open spec fn line_crossed(
    cv: Canvas,
    items: Seq<FlexItem>,
    ids: Seq<BoxId>,
    cross: Seq<CrossItem>,
    placed: Seq<CrossPlaced>,
    j: int,
    axis: FlexAxis,
    line_near: i32,
    line: PlacedLine,
) -> Canvas
    decreases items.len() - j,
{
    if j >= items.len() {
        cv
    } else {
        line_crossed(
            crossed(cv, items[j], ids[j], cross[j], placed[j], axis, line_near, line),
            items,
            ids,
            cross,
            placed,
            j + 1,
            axis,
            line_near,
            line,
        )
    }
}

/// How the lines of a container lie across it.
pub struct CrossPlan {
    pub cross: Seq<CrossItem>,
    pub lines: Seq<PlacedLine>,
    pub inner: i32,
    pub occupied: i32,
}

pub open spec fn line_sizes(cross: Seq<CrossItem>, lines: Seq<(usize, usize)>) -> Seq<i32> {
    lines.map_values(
        |l: (usize, usize)| line_cross_size(cross.subrange(l.0 as int, l.1 as int)),
    )
}

/// The lines sized and stacked. A container that does not wrap hands its whole
/// inner cross size to its one line.
pub open spec fn plan_cross(
    cv: Canvas,
    items: Seq<FlexItem>,
    ids: Seq<BoxId>,
    lines: Seq<(usize, usize)>,
    env: FlexEnv,
    bid: BoxId,
    heights: BlockHeight,
) -> CrossPlan {
    let cross = cross_items_of(cv, items, ids, env);
    let gap = env.axis.cross_gap(env.style.gap);
    let own = line_sizes(cross, lines);
    let dims = cv.dims(bid);
    let inner = if env.axis.vertical {
        dims.content.width
    } else {
        axis_v(dims, &env.style).clamp(
            or_else(heights.specified, lines_used(own, gap)),
            heights.min,
            heights.max,
        )
    };
    let sizes = if env.axis.wraps {
        own
    } else {
        own.update(0, inner)
    };
    let placed = stacked(sizes, gap, inner, env.style.align_content);
    CrossPlan {
        cross,
        lines: placed,
        inner,
        occupied: if placed.len() == 0 {
            0
        } else {
            plus(placed.last().cross_start, placed.last().cross)
        },
    }
}

/// The lines from the `k`th on moved across the container.
pub open spec fn lines_crossed(
    cv: Canvas,
    items: Seq<FlexItem>,
    ids: Seq<BoxId>,
    lines: Seq<(usize, usize)>,
    plan: CrossPlan,
    k: int,
    axis: FlexAxis,
    origin: i32,
) -> Canvas
    decreases lines.len() - k,
{
    if k >= lines.len() {
        cv
    } else {
        let (a, b) = (lines[k].0 as int, lines[k].1 as int);
        let line = plan.lines[k];
        let near = if axis.cross_reverse {
            from_far_edge(origin, plan.inner, plan.occupied, line.cross_start, line.cross)
        } else {
            plus(origin, line.cross_start)
        };
        let cross = plan.cross.subrange(a, b);
        lines_crossed(
            line_crossed(
                cv,
                items.subrange(a, b),
                ids.subrange(a, b),
                cross,
                cross_places(cross, line.cross),
                0,
                axis,
                near,
                line,
            ),
            items,
            ids,
            lines,
            plan,
            k + 1,
            axis,
            origin,
        )
    }
}

/// Every line sized, stacked, and its items moved into their places on it; and
/// the cross size that took.
#[verifier::opaque]
pub open spec fn cross_aligned(
    cv: Canvas,
    items: Seq<FlexItem>,
    ids: Seq<BoxId>,
    lines: Seq<(usize, usize)>,
    env: FlexEnv,
    bid: BoxId,
    heights: BlockHeight,
) -> (Canvas, i32) {
    let plan = plan_cross(cv, items, ids, lines, env, bid, heights);
    let content = cv.dims(bid).content;
    (
        lines_crossed(
            cv,
            items,
            ids,
            lines,
            plan,
            0,
            env.axis,
            if env.axis.vertical {
                content.x
            } else {
                content.y
            },
        ),
        plan.inner,
    )
}

impl<'a> Ctx<'a> {
    /// The container's inner main size: a row's is its width; a column's is its
    /// height, or else its items', between its own bounds.
    pub open spec fn inner_main(
        &self,
        cv: Canvas,
        items: Seq<FlexItem>,
        bid: BoxId,
        env: FlexEnv,
        heights: BlockHeight,
        gap: i32,
    ) -> i32 {
        if env.axis.vertical {
            axis_v(cv.dims(bid), &env.style).clamp(
                or_else(
                    heights.specified,
                    content_main_from(items, 0, gaps(gap, items.len() as int)),
                ),
                heights.min,
                heights.max,
            )
        } else {
            env.content.width
        }
    }

    /// A flex container's contents, and its used content height.
    #[verifier::opaque]
    pub open spec fn flex_contents(
        &self,
        rec: Recipe,
        cv: Canvas,
        id: NodeId,
        computed: ComputedStyle,
        bid: BoxId,
        heights: BlockHeight,
        pre: bool,
    ) -> (Canvas, i32) {
        let content = cv.dims(bid).content;
        let env = FlexEnv {
            axis: FlexAxis::of(
                computed.flex_direction,
                computed.flex_wrap,
                content.width,
                heights,
            ),
            style: computed,
            content,
            height: heights.specified,
            pre,
        };
        let sources = self.sources_of(id, pre);
        let (cv1, found) = self.flex_items_from(rec, cv, sources, 0, env, Seq::empty());
        if found.len() == 0 {
            (cv1, 0)
        } else {
            let items = in_order(found);
            let gap = env.axis.main_gap(computed.gap);
            let main = self.inner_main(cv1, items, bid, env, heights, gap);
            let lines = lines_from(
                items.map_values(|i: FlexItem| i.metrics),
                main,
                gap,
                env.axis.wraps,
                0,
            );
            let (cv2, ids) = self.lines_laid(
                rec,
                cv1,
                items,
                sources,
                lines,
                0,
                env,
                main,
                gap,
                Seq::empty(),
            );
            let (cv3, cross) = cross_aligned(cv2, items, ids, lines, env, bid, heights);
            let (cv4, children) = self.absolutes_laid(
                rec,
                cv3,
                self.out_of_flow_kids(self.dom.kids(id), 0),
                0,
                bid,
                pre,
                ids,
            );
            (
                cv4.with_children(bid, children),
                if env.axis.vertical {
                    main
                } else {
                    cross
                },
            )
        }
    }
}

/// Items refer to sources and boxes that exist.
pub open spec fn flex_items_ok(items: Seq<FlexItem>, sources: nat, boxes: nat) -> bool {
    forall|k: int|
        0 <= k < items.len() ==> (#[trigger] items[k]).source < sources && match items[k].built {
            Some(id) => id.0 < boxes,
            None => true,
        }
}

impl<'a> Engine<'a> {
    fn run_inline(&self, nodes: &Vec<NodeId>, width: i32, Ghost(limit): Ghost<nat>) -> (r: Vec<
        InlineItem,
    >)
        requires
            self.ok(),
            texts_below(self.ctx.dom, nodes@, limit),
        ensures
            r@ == self.ctx.run_items(nodes@, width, 0),
            items_known(self.ctx.dom, r@),
            nodes@.len() > 0 ==> r@.len() > 0,
    {
        let ctx: Ctx<'a> = self.ctx;
        let mut out: Vec<InlineItem> = Vec::new();
        let ghost goal = ctx.run_items(nodes@, width, 0);
        let mut i: usize = 0;
        proof {
            assert(out@ + goal =~= goal);
        }
        while i < nodes.len()
            invariant
                ctx.wf(),
                texts_below(ctx.dom, nodes@, limit),
                items_known(ctx.dom, out@),
                i <= nodes@.len(),
                i > 0 ==> out@.len() > 0,
                out@ + ctx.run_items(nodes@, width, i as int) == goal,
            decreases nodes@.len() - i,
        {
            let ghost before = out@;
            proof {
                assert(ctx.dom.is_text(nodes@[i as int]));
                let here = ctx.inline_items(nodes@[i as int], width);
                let rest = ctx.run_items(nodes@, width, i + 1);
                assert(here.len() == 1);
                assert((before + here) + rest =~= before + (here + rest));
            }
            ctx.push_inline(nodes[i], width, &mut out);
            i += 1;
        }
        proof {
            assert(out@ + Seq::<InlineItem>::empty() =~= out@);
        }
        out
    }

    fn measure_row_item(
        &mut self,
        source: &FlexItemSource,
        k: usize,
        axis: FlexAxis,
        Ghost(limit): Ghost<nat>,
    ) -> (r: FlexItem)
        requires
            old(self).ok(),
            source_below(old(self).ctx.dom, source@, limit),
            limit <= old(self).ctx.above_all(),
        ensures
            r == old(self).ctx.row_item(source@, k, axis),
            r.source == k,
            r.built is None,
            final(self).follows(*old(self)),
            final(self).boxes == old(self).boxes,
            final(self).canvas() == old(self).canvas(),
    {
        proof {
            reveal(Ctx::row_item);
        }
        match source {
            FlexItemSource::Element(node) => {
                let c: ComputedStyle = self.ctx.styles.get(*node);
                let content: (i32, i32) = if wants_content_size(&c, axis) {
                    self.sizer.content_widths(*node)
                } else {
                    (0, 0)
                };
                FlexItem {
                    source: k,
                    computed: c,
                    order: c.order,
                    metrics: item_metrics(&c, axis, content),
                    built: None,
                }
            },
            FlexItemSource::Text(nodes) => {
                proof {
                    assert(nodes_below(self.ctx.dom, nodes@, self.ctx.above_all())) by {
                        assert forall|i: int| 0 <= i < nodes@.len() implies self.ctx.dom.has(
                            #[trigger] nodes@[i],
                        ) && self.ctx.dom.rank_of(nodes@[i]) < self.ctx.above_all() by {
                            assert(self.ctx.dom.is_text(nodes@[i]));
                        }
                    }
                }
                let content: (i32, i32) = self.sizer.run_widths(nodes);
                let c: ComputedStyle = ComputedStyle::initial();
                FlexItem {
                    source: k,
                    computed: c,
                    order: 0,
                    metrics: item_metrics(&c, axis, content),
                    built: None,
                }
            },
        }
    }

    fn column_item_width(&mut self, node: NodeId, c: ComputedStyle, env: FlexEnv, d: Dimensions) -> (r:
        i32)
        requires
            old(self).ok(),
            old(self).ctx.dom.has(node),
        ensures
            r >= 0,
            r == old(self).ctx.column_width(node, c, env, d),
            final(self).follows(*old(self)),
            final(self).boxes == old(self).boxes,
            final(self).canvas() == old(self).canvas(),
    {
        let ctx: Ctx<'a> = self.ctx;
        let tag: &str = ctx.dom.tag(node);
        let avail: i32 = larger(
            minus(minus(env.content.width, d.margin.across()), d.inner_edges_h()),
            0,
        );
        if same(tag, "img") {
            proof {
                no_tag_is_no_own_path();
                assert(ctx.dom.is_element(node));
            }
            return self.sizer.content_widths(node).1;
        }
        if same(tag, "br") || same(tag, "hr") {
            return avail;
        }
        let align: AlignItems = cross_align(&c, env.axis, &env.style);
        let h_axis: Axis = Axis { edges: d.inner_edges_h(), box_sizing: c.box_sizing };
        let tentative: i32 = if !c.width.is_auto() {
            h_axis.content_from(c.width.to_cells_h(env.axis.width))
        } else if matches!(align, AlignItems::Stretch) && !env.axis.wraps
            && !c.margin.left.is_auto() && !c.margin.right.is_auto() {
            avail
        } else {
            let (min, max): (i32, i32) = self.sizer.content_widths(node);
            shrink_to_fit(min, max, avail)
        };
        h_axis.clamp(
            tentative,
            inset_h(c.min_width, env.axis.width),
            inset_h(c.max_width, env.axis.width),
        )
    }

    fn build_column_box(&mut self, fuel: usize, node: NodeId, env: FlexEnv) -> (r: (BoxId, i32))
        requires
            old(self).ok(),
            old(self).ctx.dom.has(node),
        ensures
            final(self).follows(*old(self)),
            final(self).has_box(r.0),
            (Built { cv: final(self).canvas(), id: r.0, content: r.1 })
                == old(self).ctx.column_box(
                old(self).ctx.builder(old(self).viewport, fuel as nat),
                old(self).canvas(),
                node,
                env,
            ),
        decreases fuel, 10nat,
    {
        proof {
            reveal(Ctx::column_box);
        }
        let ctx: Ctx<'a> = self.ctx;
        let c: ComputedStyle = ctx.styles.get(node);
        let tag: &str = ctx.dom.tag(node);
        let d0: Dimensions = resolve_block_dims(&c, env.content.width, None);
        let margin: EdgeSizes = EdgeSizes {
            top: d0.margin.top,
            bottom: d0.margin.bottom,
            left: if c.margin.left.is_auto() {
                0
            } else {
                d0.margin.left
            },
            right: if c.margin.right.is_auto() {
                0
            } else {
                d0.margin.right
            },
        };
        let d: Dimensions = d0.with_margin(margin);
        let cross: i32 = self.column_item_width(node, c, env, d);
        let at: Dimensions = d.with_content(
            Rect {
                x: plus(
                    plus(plus(env.content.x, d.margin.left), d.border.left),
                    d.padding.left,
                ),
                y: plus(plus(plus(env.content.y, d.margin.top), d.border.top), d.padding.top),
                width: cross,
                height: 0,
            },
        );
        if keeps_own_path(tag) {
            let (own, _): (Option<BoxId>, i32) = self.layout_node(
                fuel,
                node,
                env.content.x,
                plus(plus(cross, d.inner_edges_h()), d.margin.across()),
                env.height,
                env.content.y,
                0,
                env.pre,
            );
            match own {
                Some(id) => {
                    if same(tag, "img") {
                        let now: Dimensions = self.dims(id);
                        self.set_dims(
                            id,
                            now.with_content(
                                Rect {
                                    x: at.content.x,
                                    y: now.content.y,
                                    width: cross,
                                    height: now.content.height,
                                },
                            ),
                        );
                    }
                    let h: i32 = self.dims(id).content.height;
                    return (id, h);
                },
                None => {},
            }
        }
        self.layout_box_at(fuel, node, c, at, env.height, env.pre)
    }

    fn build_column_item(
        &mut self,
        fuel: usize,
        source: &FlexItemSource,
        k: usize,
        env: FlexEnv,
        Ghost(limit): Ghost<nat>,
    ) -> (r: FlexItem)
        requires
            old(self).ok(),
            env.content.width >= 0,
            source_below(old(self).ctx.dom, source@, limit),
            limit <= old(self).ctx.above_all(),
        ensures
            final(self).follows(*old(self)),
            r.source == k,
            r.built matches Some(id) && final(self).has_box(id),
            (final(self).canvas(), r) == old(self).ctx.column_item(
                old(self).ctx.builder(old(self).viewport, fuel as nat),
                old(self).canvas(),
                source@,
                k,
                env,
            ),
        decreases fuel, 11nat,
    {
        proof {
            reveal(Ctx::column_item);
        }
        match source {
            FlexItemSource::Element(node) => {
                let c: ComputedStyle = self.ctx.styles.get(*node);
                let (id, content): (BoxId, i32) = self.build_column_box(fuel, *node, env);
                FlexItem {
                    source: k,
                    computed: c,
                    order: c.order,
                    metrics: item_metrics(&c, env.axis, (content, content)),
                    built: Some(id),
                }
            },
            FlexItemSource::Text(nodes) => {
                proof {
                    assert(nodes_below(self.ctx.dom, nodes@, self.ctx.above_all())) by {
                        assert forall|i: int| 0 <= i < nodes@.len() implies self.ctx.dom.has(
                            #[trigger] nodes@[i],
                        ) && self.ctx.dom.rank_of(nodes@[i]) < self.ctx.above_all() by {
                            assert(self.ctx.dom.is_text(nodes@[i]));
                        }
                    }
                }
                let (min, max): (i32, i32) = self.sizer.run_widths(nodes);
                let stretch: bool = matches!(
                    column_cross_align(env.style.align_items),
                    AlignItems::Stretch
                );
                let cross: i32 = if stretch && !env.axis.wraps {
                    env.content.width
                } else {
                    shrink_to_fit(min, max, env.content.width)
                };
                let run: Vec<InlineItem> = self.run_inline(nodes, cross, Ghost(limit));
                let (anon, _): (Option<BoxId>, i32) = self.layout_anonymous_block(
                    fuel,
                    env.content.x,
                    cross,
                    env.content.y,
                    0,
                    &run,
                    env.style.text_align,
                    env.pre,
                );
                let id: BoxId = anon.unwrap();
                let h: i32 = self.dims(id).content.height;
                let c: ComputedStyle = ComputedStyle::initial();
                FlexItem {
                    source: k,
                    computed: c,
                    order: 0,
                    metrics: item_metrics(&c, env.axis, (h, h)),
                    built: Some(id),
                }
            },
        }
    }

    fn flex_items(
        &mut self,
        fuel: usize,
        sources: &Vec<FlexItemSource>,
        env: FlexEnv,
        Ghost(limit): Ghost<nat>,
    ) -> (r: Vec<FlexItem>)
        requires
            old(self).ok(),
            env.content.width >= 0,
            sources_below(old(self).ctx.dom, views(sources@), limit),
            limit <= old(self).ctx.above_all(),
        ensures
            final(self).follows(*old(self)),
            r@.len() == sources@.len(),
            flex_items_ok(r@, sources@.len(), final(self).boxes@.len()),
            !env.axis.vertical ==> final(self).boxes@.len() == old(self).boxes@.len(),
            (final(self).canvas(), r@) == old(self).ctx.flex_items_from(
                old(self).ctx.builder(old(self).viewport, fuel as nat),
                old(self).canvas(),
                views(sources@),
                0,
                env,
                Seq::empty(),
            ),
        decreases fuel, 12nat,
    {
        let ghost ctx = self.ctx;
        let ghost all = views(sources@);
        let ghost rec = ctx.builder(self.viewport, fuel as nat);
        let mut items: Vec<FlexItem> = Vec::new();
        let ghost goal = ctx.flex_items_from(rec, self.canvas(), all, 0, env, Seq::empty());
        let mut k: usize = 0;
        while k < sources.len()
            invariant
                self.follows(*old(self)),
                env.content.width >= 0,
                ctx == self.ctx,
                rec == ctx.builder(self.viewport, fuel as nat),
                all == views(sources@),
                sources_below(ctx.dom, all, limit),
                limit <= ctx.above_all(),
                !env.axis.vertical ==> self.boxes@.len() == old(self).boxes@.len(),
                k <= sources@.len(),
                items@.len() == k,
                flex_items_ok(items@, sources@.len(), self.boxes@.len()),
                goal == ctx.flex_items_from(rec, self.canvas(), all, k as int, env, items@),
            decreases sources@.len() - k,
        {
            proof {
                assert(source_below(ctx.dom, all[k as int], limit));
            }
            let item: FlexItem = if env.axis.vertical {
                self.build_column_item(fuel, &sources[k], k, env, Ghost(limit))
            } else {
                self.measure_row_item(&sources[k], k, env.axis, Ghost(limit))
            };
            items.push(item);
            k += 1;
        }
        items
    }

    fn layout_flex_item(
        &mut self,
        fuel: usize,
        item: FlexItem,
        source: &FlexItemSource,
        p: ItemPlacement,
        env: FlexEnv,
        Ghost(limit): Ghost<nat>,
    ) -> (r: BoxId)
        requires
            old(self).ok(),
            p.main_size >= 0,
            source_below(old(self).ctx.dom, source@, limit),
        ensures
            final(self).follows(*old(self)),
            final(self).has_box(r),
            (final(self).canvas(), r) == old(self).ctx.row_box(
                old(self).ctx.builder(old(self).viewport, fuel as nat),
                old(self).canvas(),
                item,
                source@,
                p,
                env,
            ),
        decreases fuel, 10nat,
    {
        proof {
            reveal(Ctx::row_box);
        }
        let ctx: Ctx<'a> = self.ctx;
        match source {
            FlexItemSource::Element(node) => {
                let c: ComputedStyle = item.computed;
                let tag: &str = ctx.dom.tag(*node);
                let d0: Dimensions = resolve_block_dims(&c, env.content.width, None);
                let d: Dimensions = d0.with_margin(
                    EdgeSizes {
                        top: d0.margin.top,
                        bottom: d0.margin.bottom,
                        left: if c.margin.left.is_auto() {
                            p.auto_near
                        } else {
                            d0.margin.left
                        },
                        right: if c.margin.right.is_auto() {
                            p.auto_far
                        } else {
                            d0.margin.right
                        },
                    },
                );
                let lead: i32 = plus(plus(d.margin.left, d.border.left), d.padding.left);
                if keeps_own_path(tag) {
                    let (own, _): (Option<BoxId>, i32) = self.layout_node(
                        fuel,
                        *node,
                        plus(p.near, p.auto_near),
                        plus(p.main_size, item.metrics.outer_edges),
                        env.height,
                        env.content.y,
                        0,
                        env.pre,
                    );
                    match own {
                        Some(id) => {
                            let now: Dimensions = self.dims(id);
                            let margin: EdgeSizes = EdgeSizes {
                                top: now.margin.top,
                                bottom: now.margin.bottom,
                                left: plus(now.margin.left, p.auto_near),
                                right: plus(now.margin.right, p.auto_far),
                            };
                            let content: Rect = if same(tag, "img") {
                                Rect {
                                    x: plus(p.near, lead),
                                    y: now.content.y,
                                    width: p.main_size,
                                    height: now.content.height,
                                }
                            } else {
                                now.content
                            };
                            self.set_dims(id, now.with_margin(margin).with_content(content));
                            return id;
                        },
                        None => {},
                    }
                }
                let at: Dimensions = d.with_content(
                    Rect {
                        x: plus(p.near, lead),
                        y: plus(
                            plus(plus(env.content.y, d.margin.top), d.border.top),
                            d.padding.top,
                        ),
                        width: p.main_size,
                        height: 0,
                    },
                );
                let (id, _): (BoxId, i32) = self.layout_box_at(
                    fuel,
                    *node,
                    c,
                    at,
                    env.height,
                    env.pre,
                );
                id
            },
            FlexItemSource::Text(nodes) => {
                let run: Vec<InlineItem> = self.run_inline(nodes, p.main_size, Ghost(limit));
                let (anon, _): (Option<BoxId>, i32) = self.layout_anonymous_block(
                    fuel,
                    p.near,
                    p.main_size,
                    env.content.y,
                    0,
                    &run,
                    env.style.text_align,
                    env.pre,
                );
                anon.unwrap()
            },
        }
    }

    fn place_column_item(&mut self, id: BoxId, item: FlexItem, axis: FlexAxis, p: ItemPlacement)
        requires
            old(self).ok(),
            old(self).has_box(id),
            p.main_size >= 0,
        ensures
            final(self).follows(*old(self)),
            final(self).boxes@.len() == old(self).boxes@.len(),
            final(self).canvas() == column_placed(old(self).canvas(), id, item, axis, p),
    {
        proof {
            reveal(column_placed);
        }
        let c: ComputedStyle = item.computed;
        let margin_top: i32 = if c.margin.top.is_auto() {
            p.auto_near
        } else {
            edge_v(c.margin.top, axis.width)
        };
        let y: i32 = plus(
            plus(plus(p.near, margin_top), edge_v(c.border.top, axis.width)),
            edge_v(c.padding.top, axis.width),
        );
        let dy: i32 = minus(y, self.dims(id).content.y);
        self.shift_subtree(id, 0, dy);
        let d: Dimensions = self.dims(id);
        let margin: EdgeSizes = EdgeSizes {
            left: d.margin.left,
            right: d.margin.right,
            top: if c.margin.top.is_auto() {
                p.auto_near
            } else {
                d.margin.top
            },
            bottom: if c.margin.bottom.is_auto() {
                p.auto_far
            } else {
                d.margin.bottom
            },
        };
        self.set_dims(
            id,
            d.with_margin(margin).with_content(
                Rect {
                    x: d.content.x,
                    y: d.content.y,
                    width: d.content.width,
                    height: p.main_size,
                },
            ),
        );
    }
}

/// A planned line, computed. See [`LinePlan`].
struct LinePlanned {
    sizes: Vec<i32>,
    slots: Vec<Slot>,
    placed: Vec<Placed>,
    used: i32,
}

impl LinePlanned {
    /// No item is less than nothing long.
    spec fn ok(&self) -> bool {
        forall|j: int| 0 <= j < self.sizes@.len() ==> #[trigger] self.sizes@[j] >= 0
    }

    spec fn plan(&self) -> LinePlan {
        LinePlan {
            sizes: self.sizes@,
            slots: self.slots@,
            placed: self.placed@,
            used: self.used,
        }
    }
}

fn plan(line: &Vec<FlexItem>, env: FlexEnv, inner_main: i32, gap: i32) -> (r: LinePlanned)
    requires
        line@.len() <= crate::flex::MAX_ITEMS,
    ensures
        r.plan() == plan_line(line@, env, inner_main, gap),
        r.ok(),
        r.sizes@.len() == line@.len(),
        r.slots@.len() == line@.len(),
        r.placed@.len() == line@.len(),
{
    proof {
        reveal(plan_line);
    }
    let metrics: Vec<Item> = metrics_of(line);
    let sizes: Vec<i32> = resolve(
        &metrics,
        inner_main,
        times(gap, minus(count(line.len()), 1)),
    );
    let mut slots: Vec<Slot> = Vec::new();
    let mut j: usize = 0;
    while j < line.len()
        invariant
            sizes@.len() == line@.len(),
            j <= line@.len(),
            slots@ =~= line_slots(line@, sizes@, env.axis).take(j as int),
        decreases line@.len() - j,
    {
        let item: FlexItem = line[j];
        let margins: (Length, Length) = env.axis.main_margins(&item.computed);
        slots.push(
            Slot {
                outer: plus(sizes[j], item.metrics.outer_edges),
                auto_start: margins.0.is_auto(),
                auto_end: margins.1.is_auto(),
            },
        );
        j += 1;
    }
    proof {
        assert(slots@ =~= line_slots(line@, sizes@, env.axis));
    }
    let placed: Vec<Placed> = place(&slots, gap, inner_main, env.style.justify_content);
    let used: i32 = used_by_line(&slots, gap);
    LinePlanned { sizes, slots, placed, used }
}

fn item_placement(p: &LinePlanned, j: usize, env: FlexEnv, inner_main: i32) -> (r: ItemPlacement)
    requires
        j < p.sizes@.len(),
        p.sizes@.len() == p.slots@.len(),
        p.sizes@.len() == p.placed@.len(),
    ensures
        r == placement(p.plan(), j as int, env, inner_main),
        p.ok() ==> r.main_size >= 0,
{
    let at: Placed = p.placed[j];
    let outer: i32 = plus(plus(p.slots[j].outer, at.auto_start), at.auto_end);
    let origin: i32 = if env.axis.vertical {
        env.content.y
    } else {
        env.content.x
    };
    ItemPlacement {
        near: if env.axis.reverse {
            from_far_edge(origin, inner_main, p.used, at.main_start, outer)
        } else {
            plus(origin, at.main_start)
        },
        main_size: p.sizes[j],
        auto_near: if env.axis.reverse {
            at.auto_end
        } else {
            at.auto_start
        },
        auto_far: if env.axis.reverse {
            at.auto_start
        } else {
            at.auto_end
        },
    }
}

fn slice_items(items: &Vec<FlexItem>, from: usize, to: usize) -> (r: Vec<FlexItem>)
    requires
        from <= to <= items@.len(),
    ensures
        r@ == items@.subrange(from as int, to as int),
{
    let mut out: Vec<FlexItem> = Vec::new();
    let mut i: usize = from;
    while i < to
        invariant
            from <= i <= to <= items@.len(),
            out@ =~= items@.subrange(from as int, i as int),
        decreases to - i,
    {
        out.push(items[i]);
        i += 1;
    }
    out
}

fn sort_items(items: &Vec<FlexItem>, Ghost(sources): Ghost<nat>, Ghost(boxes): Ghost<nat>) -> (r:
    Vec<FlexItem>)
    requires
        flex_items_ok(items@, sources, boxes),
    ensures
        r@ == in_order(items@),
        r@.len() == items@.len(),
        flex_items_ok(r@, sources, boxes),
{
    let ghost want = items@.map_values(|i: FlexItem| i.order as i128);
    let mut keys: Vec<i128> = Vec::new();
    let mut i: usize = 0;
    while i < items.len()
        invariant
            want == items@.map_values(|i: FlexItem| i.order as i128),
            i <= items@.len(),
            keys@ =~= want.take(i as int),
        decreases items@.len() - i,
    {
        keys.push(items[i].order as i128);
        i += 1;
    }
    proof {
        assert(keys@ =~= want);
    }
    let order: Vec<usize> = stable_order(&keys);
    let mut out: Vec<FlexItem> = Vec::new();
    let mut i: usize = 0;
    while i < order.len()
        invariant
            flex_items_ok(items@, sources, boxes),
            flex_items_ok(out@, sources, boxes),
            indices_below(order@, items@.len() as int),
            i <= order@.len(),
            out@.len() == i,
            out@ =~= order@.take(i as int).map_values(|i: usize| items@[i as int]),
        decreases order@.len() - i,
    {
        let at: usize = order[i];
        out.push(items[at]);
        i += 1;
    }
    proof {
        assert(order@.take(order@.len() as int) =~= order@);
        assert(out@ =~= in_order(items@));
    }
    out
}

impl<'a> Engine<'a> {
    fn lay_line(
        &mut self,
        fuel: usize,
        line: &Vec<FlexItem>,
        sources: &Vec<FlexItemSource>,
        p: &LinePlanned,
        env: FlexEnv,
        inner_main: i32,
        children: &mut Vec<BoxId>,
        Ghost(limit): Ghost<nat>,
    )
        requires
            old(self).ok(),
            flex_items_ok(line@, sources@.len(), old(self).boxes@.len()),
            sources_below(old(self).ctx.dom, views(sources@), limit),
            p.ok(),
            p.sizes@.len() == line@.len(),
            p.slots@.len() == line@.len(),
            p.placed@.len() == line@.len(),
            in_range(old(children)@, old(self).boxes@.len()),
        ensures
            final(self).follows(*old(self)),
            in_range(final(children)@, final(self).boxes@.len()),
            final(children)@.len() == old(children)@.len() + line@.len(),
            (final(self).canvas(), final(children)@) == old(self).ctx.line_laid(
                old(self).ctx.builder(old(self).viewport, fuel as nat),
                old(self).canvas(),
                line@,
                views(sources@),
                p.plan(),
                0,
                env,
                inner_main,
                old(children)@,
            ),
        decreases fuel, 11nat,
    {
        let ghost ctx = self.ctx;
        let ghost all = views(sources@);
        let ghost rec = ctx.builder(self.viewport, fuel as nat);
        let ghost goal = ctx.line_laid(
            rec,
            self.canvas(),
            line@,
            all,
            p.plan(),
            0,
            env,
            inner_main,
            children@,
        );
        let mut j: usize = 0;
        while j < line.len()
            invariant
                self.follows(*old(self)),
                ctx == self.ctx,
                rec == ctx.builder(self.viewport, fuel as nat),
                all == views(sources@),
                sources_below(ctx.dom, all, limit),
                flex_items_ok(line@, sources@.len(), old(self).boxes@.len()),
                p.ok(),
                p.sizes@.len() == line@.len(),
                p.slots@.len() == line@.len(),
                p.placed@.len() == line@.len(),
                in_range(children@, self.boxes@.len()),
                children@.len() == old(children)@.len() + j,
                j <= line@.len(),
                goal == ctx.line_laid(
                    rec,
                    self.canvas(),
                    line@,
                    all,
                    p.plan(),
                    j as int,
                    env,
                    inner_main,
                    children@,
                ),
            decreases line@.len() - j,
        {
            let item: FlexItem = line[j];
            let at: ItemPlacement = item_placement(p, j, env, inner_main);
            let id: BoxId = match item.built {
                Some(id) => {
                    self.place_column_item(id, item, env.axis, at);
                    id
                },
                None => {
                    proof {
                        assert(source_below(ctx.dom, all[item.source as int], limit));
                    }
                    self.layout_flex_item(
                        fuel,
                        item,
                        &sources[item.source],
                        at,
                        env,
                        Ghost(limit),
                    )
                },
            };
            children.push(id);
            j += 1;
        }
    }

    fn lay_one_line(
        &mut self,
        fuel: usize,
        items: &Vec<FlexItem>,
        sources: &Vec<FlexItemSource>,
        from: usize,
        to: usize,
        env: FlexEnv,
        inner_main: i32,
        gap: i32,
        children: &mut Vec<BoxId>,
        Ghost(limit): Ghost<nat>,
    )
        requires
            old(self).ok(),
            from <= to <= items@.len() <= crate::flex::MAX_ITEMS,
            flex_items_ok(items@, sources@.len(), old(self).boxes@.len()),
            sources_below(old(self).ctx.dom, views(sources@), limit),
            in_range(old(children)@, old(self).boxes@.len()),
        ensures
            final(self).follows(*old(self)),
            in_range(final(children)@, final(self).boxes@.len()),
            final(children)@.len() == old(children)@.len() + (to - from),
            (final(self).canvas(), final(children)@) == old(self).ctx.line_laid(
                old(self).ctx.builder(old(self).viewport, fuel as nat),
                old(self).canvas(),
                items@.subrange(from as int, to as int),
                views(sources@),
                plan_line(items@.subrange(from as int, to as int), env, inner_main, gap),
                0,
                env,
                inner_main,
                old(children)@,
            ),
        decreases fuel, 12nat,
    {
        let line: Vec<FlexItem> = slice_items(items, from, to);
        let p: LinePlanned = plan(&line, env, inner_main, gap);
        proof {
            assert forall|j: int| 0 <= j < line@.len() implies (#[trigger] line@[j]).source
                < sources@.len() && match line@[j].built {
                Some(id) => id.0 < self.boxes@.len(),
                None => true,
            } by {
                assert(line@[j] == items@[from + j]);
            }
        }
        self.lay_line(fuel, &line, sources, &p, env, inner_main, children, Ghost(limit));
    }

    #[verifier::rlimit(60)]
    fn lay_lines(
        &mut self,
        fuel: usize,
        items: &Vec<FlexItem>,
        sources: &Vec<FlexItemSource>,
        lines: &Vec<(usize, usize)>,
        env: FlexEnv,
        inner_main: i32,
        gap: i32,
        Ghost(limit): Ghost<nat>,
    ) -> (r: Vec<BoxId>)
        requires
            old(self).ok(),
            items@.len() <= crate::flex::MAX_ITEMS,
            flex_items_ok(items@, sources@.len(), old(self).boxes@.len()),
            sources_below(old(self).ctx.dom, views(sources@), limit),
            lines_ok(lines@, items@.len() as int),
            lines_reach(lines@, items@.len() as int),
        ensures
            final(self).follows(*old(self)),
            in_range(r@, final(self).boxes@.len()),
            r@.len() == items@.len(),
            (final(self).canvas(), r@) == old(self).ctx.lines_laid(
                old(self).ctx.builder(old(self).viewport, fuel as nat),
                old(self).canvas(),
                items@,
                views(sources@),
                lines@,
                0,
                env,
                inner_main,
                gap,
                Seq::empty(),
            ),
        decreases fuel, 13nat,
    {
        let ghost ctx = self.ctx;
        let ghost all = views(sources@);
        let ghost rec = ctx.builder(self.viewport, fuel as nat);
        let mut children: Vec<BoxId> = Vec::new();
        let ghost goal = ctx.lines_laid(
            rec,
            self.canvas(),
            items@,
            all,
            lines@,
            0,
            env,
            inner_main,
            gap,
            Seq::empty(),
        );
        let mut k: usize = 0;
        while k < lines.len()
            invariant
                self.follows(*old(self)),
                ctx == self.ctx,
                rec == ctx.builder(self.viewport, fuel as nat),
                all == views(sources@),
                sources_below(ctx.dom, all, limit),
                items@.len() <= crate::flex::MAX_ITEMS,
                flex_items_ok(items@, sources@.len(), self.boxes@.len()),
                lines_ok(lines@, items@.len() as int),
                lines_reach(lines@, items@.len() as int),
                in_range(children@, self.boxes@.len()),
                k <= lines@.len(),
                children@.len() == reach_before(lines@, k as int),
                goal == ctx.lines_laid(
                    rec,
                    self.canvas(),
                    items@,
                    all,
                    lines@,
                    k as int,
                    env,
                    inner_main,
                    gap,
                    children@,
                ),
            decreases lines@.len() - k,
        {
            let (from, to): (usize, usize) = lines[k];
            proof {
                assert(lines@[k as int].0 < lines@[k as int].1);
            }
            self.lay_one_line(
                fuel,
                items,
                sources,
                from,
                to,
                env,
                inner_main,
                gap,
                &mut children,
                Ghost(limit),
            );
            k += 1;
        }
        children
    }

    /// The element children of `id` that leave the flow.
    pub fn collect_out_of_flow(&self, id: NodeId) -> (r: Vec<NodeId>)
        requires
            self.ok(),
            self.ctx.dom.has(id),
        ensures
            r@ == self.ctx.out_of_flow_kids(self.ctx.dom.kids(id), 0),
            nodes_in(self.ctx.dom, r@),
    {
        let ctx: Ctx<'a> = self.ctx;
        let kids: &Vec<NodeId> = ctx.dom.children(id);
        let mut out: Vec<NodeId> = Vec::new();
        let ghost goal = ctx.out_of_flow_kids(kids@, 0);
        let mut k: usize = 0;
        proof {
            assert(out@ + goal =~= goal);
        }
        while k < kids.len()
            invariant
                ctx.wf(),
                ctx.dom.has(id),
                kids@ == ctx.dom.kids(id),
                nodes_in(ctx.dom, out@),
                k <= kids@.len(),
                out@ + ctx.out_of_flow_kids(kids@, k as int) == goal,
            decreases kids@.len() - k,
        {
            let c: NodeId = kids[k];
            let ghost before = out@;
            proof {
                assert(ctx.dom.nodes@[id.0 as int].children@[k as int] == c);
            }
            let ghost rest = ctx.out_of_flow_kids(kids@, k + 1);
            if ctx.is_element_out_of_flow(c) {
                out.push(c);
                proof {
                    assert(out@ + rest =~= before + (seq![c] + rest));
                }
            } else {
                proof {
                    assert(out@ + rest =~= before + (Seq::<NodeId>::empty() + rest));
                }
            }
            k += 1;
        }
        proof {
            assert(out@ + Seq::<NodeId>::empty() =~= out@);
        }
        out
    }

    fn item_baseline(&self, id: BoxId) -> (r: i32)
        requires
            self.has_box(id),
        ensures
            r == baseline_of(self.canvas().boxes, id),
    {
        let d: Dimensions = self.dims(id);
        match self.first_line_row(self.boxes.len(), id) {
            Some(row) => minus(row, d.margin_box().y),
            None => minus(d.border_box().bottom(), d.margin_box().y),
        }
    }

    fn gather_cross(&self, items: &Vec<FlexItem>, ids: &Vec<BoxId>, env: FlexEnv) -> (r: Vec<
        CrossItem,
    >)
        requires
            items@.len() == ids@.len(),
            in_range(ids@, self.boxes@.len()),
        ensures
            r@ == cross_items_of(self.canvas(), items@, ids@, env),
    {
        let ghost goal = cross_items_of(self.canvas(), items@, ids@, env);
        let mut out: Vec<CrossItem> = Vec::new();
        let mut k: usize = 0;
        while k < items.len()
            invariant
                items@.len() == ids@.len(),
                in_range(ids@, self.boxes@.len()),
                goal == cross_items_of(self.canvas(), items@, ids@, env),
                k <= items@.len(),
                out@ =~= goal.take(k as int),
            decreases items@.len() - k,
        {
            let c: ComputedStyle = items[k].computed;
            let id: BoxId = ids[k];
            let align: AlignItems = cross_align(&c, env.axis, &env.style);
            let outer: i32 = env.axis.cross_outer(self.dims(id));
            let margins: (Length, Length) = env.axis.cross_margins(&c);
            let baseline: i32 = if matches!(align, AlignItems::Baseline) {
                if env.axis.cross_reverse {
                    minus(outer, self.item_baseline(id))
                } else {
                    self.item_baseline(id)
                }
            } else {
                0
            };
            let item: CrossItem = CrossItem {
                outer,
                baseline,
                align,
                auto_start: margins.0.is_auto(),
                auto_end: margins.1.is_auto(),
            };
            assert(item == goal[k as int]);
            out.push(item);
            k += 1;
        }
        proof {
            assert(out@ =~= goal);
        }
        out
    }

    fn stretch_item(&mut self, id: BoxId, c: ComputedStyle, axis: FlexAxis, line: i32)
        requires
            old(self).ok(),
            old(self).has_box(id),
        ensures
            final(self).follows(*old(self)),
            final(self).boxes@.len() == old(self).boxes@.len(),
            final(self).canvas() == stretched(old(self).canvas(), id, c, axis, line),
    {
        proof {
            reveal(stretched);
        }
        let margins: (Length, Length) = axis.cross_margins(&c);
        let size: Length = if axis.vertical {
            c.width
        } else {
            c.height
        };
        if matches!(self.boxes[id.0].kind, BoxKind::Image) || !size.is_auto()
            || margins.0.is_auto() || margins.1.is_auto() {
            return;
        }
        let d: Dimensions = self.dims(id);
        let (edges, around, now): (i32, i32, i32) = if axis.vertical {
            (d.inner_edges_h(), d.margin.across(), d.content.width)
        } else {
            (d.inner_edges_v(), plus(d.margin.top, d.margin.bottom), d.content.height)
        };
        let box_axis: Axis = Axis { edges, box_sizing: c.box_sizing };
        let (min, max): (Option<i32>, Option<i32>) = if axis.vertical {
            (inset_h(c.min_width, axis.width), inset_h(c.max_width, axis.width))
        } else {
            (definite_v(c.min_height, axis.cross_base), definite_v(c.max_height, axis.cross_base))
        };
        let used: i32 = larger(
            larger(
                at_most(minus(line, plus(edges, around)), content_of(box_axis, max)),
                or_else(content_of(box_axis, min), now),
            ),
            0,
        );
        let content: Rect = if axis.vertical {
            Rect { x: d.content.x, y: d.content.y, width: used, height: d.content.height }
        } else {
            Rect { x: d.content.x, y: d.content.y, width: d.content.width, height: used }
        };
        self.set_dims(id, d.with_content(content));
    }

    fn cross_item(
        &mut self,
        item: FlexItem,
        id: BoxId,
        ci: CrossItem,
        p: CrossPlaced,
        axis: FlexAxis,
        line_near: i32,
        line: PlacedLine,
    )
        requires
            old(self).ok(),
            old(self).has_box(id),
        ensures
            final(self).follows(*old(self)),
            final(self).boxes@.len() == old(self).boxes@.len(),
            final(self).canvas() == crossed(
                old(self).canvas(),
                item,
                id,
                ci,
                p,
                axis,
                line_near,
                line,
            ),
    {
        proof {
            reveal(crossed);
        }
        let c: ComputedStyle = item.computed;
        if matches!(ci.align, AlignItems::Stretch) {
            self.stretch_item(id, c, axis, line.cross);
        }
        let d: Dimensions = self.dims(id);
        let span: i32 = plus(plus(axis.cross_outer(d), p.auto_start), p.auto_end);
        let near: i32 = if axis.cross_reverse {
            from_far_edge(line_near, line.cross, span, p.cross_start, span)
        } else {
            plus(line_near, p.cross_start)
        };
        let (auto_near, auto_far): (i32, i32) = if axis.cross_reverse {
            (p.auto_end, p.auto_start)
        } else {
            (p.auto_start, p.auto_end)
        };
        if axis.vertical {
            let margin: i32 = if c.margin.left.is_auto() {
                auto_near
            } else {
                d.margin.left
            };
            let x: i32 = plus(plus(near, margin), plus(d.border.left, d.padding.left));
            self.shift_subtree(id, minus(x, d.content.x), 0);
            let now: Dimensions = self.dims(id);
            self.set_dims(
                id,
                now.with_margin(
                    EdgeSizes {
                        top: now.margin.top,
                        bottom: now.margin.bottom,
                        left: if c.margin.left.is_auto() {
                            auto_near
                        } else {
                            now.margin.left
                        },
                        right: if c.margin.right.is_auto() {
                            auto_far
                        } else {
                            now.margin.right
                        },
                    },
                ),
            );
        } else {
            let margin: i32 = if c.margin.top.is_auto() {
                auto_near
            } else {
                d.margin.top
            };
            let y: i32 = plus(plus(near, margin), plus(d.border.top, d.padding.top));
            self.shift_subtree(id, 0, minus(y, d.content.y));
            let now: Dimensions = self.dims(id);
            self.set_dims(
                id,
                now.with_margin(
                    EdgeSizes {
                        left: now.margin.left,
                        right: now.margin.right,
                        top: if c.margin.top.is_auto() {
                            auto_near
                        } else {
                            now.margin.top
                        },
                        bottom: if c.margin.bottom.is_auto() {
                            auto_far
                        } else {
                            now.margin.bottom
                        },
                    },
                ),
            );
        }
    }

    fn cross_line(
        &mut self,
        items: &Vec<FlexItem>,
        ids: &Vec<BoxId>,
        cross: &Vec<CrossItem>,
        from: usize,
        to: usize,
        axis: FlexAxis,
        line_near: i32,
        line: PlacedLine,
    )
        requires
            old(self).ok(),
            from <= to <= items@.len(),
            items@.len() == ids@.len(),
            items@.len() == cross@.len(),
            in_range(ids@, old(self).boxes@.len()),
        ensures
            final(self).follows(*old(self)),
            final(self).boxes@.len() == old(self).boxes@.len(),
            final(self).canvas() == line_crossed(
                old(self).canvas(),
                items@.subrange(from as int, to as int),
                ids@.subrange(from as int, to as int),
                cross@.subrange(from as int, to as int),
                cross_places(cross@.subrange(from as int, to as int), line.cross),
                0,
                axis,
                line_near,
                line,
            ),
    {
        let placed: Vec<CrossPlaced> = cross_place(cross, from, to, line.cross);
        let ghost its = items@.subrange(from as int, to as int);
        let ghost bs = ids@.subrange(from as int, to as int);
        let ghost cs = cross@.subrange(from as int, to as int);
        let ghost goal = line_crossed(
            self.canvas(),
            its,
            bs,
            cs,
            placed@,
            0,
            axis,
            line_near,
            line,
        );
        let mut j: usize = from;
        while j < to
            invariant
                self.follows(*old(self)),
                self.boxes@.len() == old(self).boxes@.len(),
                from <= j <= to <= items@.len(),
                items@.len() == ids@.len(),
                items@.len() == cross@.len(),
                in_range(ids@, self.boxes@.len()),
                placed@.len() == to - from,
                its == items@.subrange(from as int, to as int),
                bs == ids@.subrange(from as int, to as int),
                cs == cross@.subrange(from as int, to as int),
                goal == line_crossed(
                    self.canvas(),
                    its,
                    bs,
                    cs,
                    placed@,
                    j - from,
                    axis,
                    line_near,
                    line,
                ),
            decreases to - j,
        {
            self.cross_item(
                items[j],
                ids[j],
                cross[j],
                placed[j - from],
                axis,
                line_near,
                line,
            );
            j += 1;
        }
    }

    /// Size every line on the cross axis, stack the lines, and move each item
    /// into its place on its own line. See [`cross_aligned`].
    #[verifier::rlimit(40)]
    fn align_cross(
        &mut self,
        items: &Vec<FlexItem>,
        ids: &Vec<BoxId>,
        lines: &Vec<(usize, usize)>,
        env: FlexEnv,
        bid: BoxId,
        heights: BlockHeight,
    ) -> (r: i32)
        requires
            old(self).ok(),
            old(self).has_box(bid),
            items@.len() == ids@.len(),
            lines_ok(lines@, items@.len() as int),
            lines@.len() > 0,
            in_range(ids@, old(self).boxes@.len()),
        ensures
            final(self).follows(*old(self)),
            final(self).boxes@.len() == old(self).boxes@.len(),
            (final(self).canvas(), r) == cross_aligned(
                old(self).canvas(),
                items@,
                ids@,
                lines@,
                env,
                bid,
                heights,
            ),
    {
        proof {
            reveal(cross_aligned);
        }
        let cross: Vec<CrossItem> = self.gather_cross(items, ids, env);
        let gap: i32 = env.axis.cross_gap(env.style.gap);
        let mut sizes: Vec<i32> = Vec::new();
        let mut k: usize = 0;
        while k < lines.len()
            invariant
                lines_ok(lines@, cross@.len() as int),
                k <= lines@.len(),
                sizes@ =~= line_sizes(cross@, lines@).take(k as int),
            decreases lines@.len() - k,
        {
            let (from, to): (usize, usize) = lines[k];
            proof {
                assert(lines@[k as int].0 < lines@[k as int].1);
            }
            sizes.push(cross_size(&cross, from, to));
            k += 1;
        }
        proof {
            assert(sizes@ =~= line_sizes(cross@, lines@));
        }
        let dims: Dimensions = self.dims(bid);
        let inner: i32 = if env.axis.vertical {
            dims.content.width
        } else {
            axis_v(dims, &env.style).clamp(
                or_else(heights.specified, used_cross(&sizes, gap)),
                heights.min,
                heights.max,
            )
        };
        if !env.axis.wraps {
            sizes.set(0, inner);
        }
        let placed: Vec<PlacedLine> = align_lines(&sizes, gap, inner, env.style.align_content);
        let last: PlacedLine = placed[placed.len() - 1];
        let occupied: i32 = plus(last.cross_start, last.cross);
        let ghost planned = plan_cross(self.canvas(), items@, ids@, lines@, env, bid, heights);
        proof {
            assert(planned.lines == placed@);
            assert(planned.cross == cross@);
        }
        let origin: i32 = if env.axis.vertical {
            dims.content.x
        } else {
            dims.content.y
        };
        let axis: FlexAxis = env.axis;
        let ghost goal = lines_crossed(
            self.canvas(),
            items@,
            ids@,
            lines@,
            planned,
            0,
            axis,
            origin,
        );
        let mut k: usize = 0;
        while k < lines.len()
            invariant
                self.follows(*old(self)),
                self.boxes@.len() == old(self).boxes@.len(),
                items@.len() == ids@.len(),
                items@.len() == cross@.len(),
                lines_ok(lines@, items@.len() as int),
                in_range(ids@, self.boxes@.len()),
                placed@.len() == lines@.len(),
                planned.lines == placed@,
                planned.cross == cross@,
                planned.inner == inner,
                planned.occupied == occupied,
                k <= lines@.len(),
                goal == lines_crossed(
                    self.canvas(),
                    items@,
                    ids@,
                    lines@,
                    planned,
                    k as int,
                    axis,
                    origin,
                ),
            decreases lines@.len() - k,
        {
            let (from, to): (usize, usize) = lines[k];
            let line: PlacedLine = placed[k];
            proof {
                assert(lines@[k as int].0 < lines@[k as int].1);
            }
            let near: i32 = if axis.cross_reverse {
                from_far_edge(origin, inner, occupied, line.cross_start, line.cross)
            } else {
                plus(origin, line.cross_start)
            };
            self.cross_line(items, ids, &cross, from, to, axis, near, line);
            k += 1;
        }
        inner
    }

    fn main_size_of(
        &self,
        items: &Vec<FlexItem>,
        bid: BoxId,
        env: FlexEnv,
        heights: BlockHeight,
        gap: i32,
    ) -> (r: i32)
        requires
            self.has_box(bid),
        ensures
            r == self.ctx.inner_main(self.canvas(), items@, bid, env, heights, gap),
    {
        if !env.axis.vertical {
            return env.content.width;
        }
        let mut acc: i32 = times(gap, minus(count(items.len()), 1));
        let ghost goal = content_main_from(items@, 0, acc);
        let mut i: usize = 0;
        while i < items.len()
            invariant
                i <= items@.len(),
                goal == content_main_from(items@, i as int, acc),
            decreases items@.len() - i,
        {
            acc = plus(plus(acc, items[i].metrics.hypothetical), items[i].metrics.outer_edges);
            i += 1;
        }
        axis_v(self.dims(bid), &env.style).clamp(
            or_else(heights.specified, acc),
            heights.min,
            heights.max,
        )
    }

    /// A flex container's contents. See [`Ctx::flex_contents`].
    pub fn layout_flex_contents(
        &mut self,
        fuel: usize,
        id: NodeId,
        computed: ComputedStyle,
        bid: BoxId,
        heights: BlockHeight,
        pre: bool,
    ) -> (r: i32)
        requires
            old(self).ok(),
            old(self).ctx.dom.has(id),
            old(self).has_box(bid),
            old(self).canvas().dims(bid).content.width >= 0,
        ensures
            final(self).follows(*old(self)),
            (final(self).canvas(), r) == old(self).ctx.flex_contents(
                old(self).ctx.builder(old(self).viewport, fuel as nat),
                old(self).canvas(),
                id,
                computed,
                bid,
                heights,
                pre,
            ),
        decreases fuel, 14nat,
    {
        proof {
            reveal(Ctx::flex_contents);
        }
        let ctx: Ctx<'a> = self.ctx;
        let content: Rect = self.dims(bid).content;
        let env: FlexEnv = FlexEnv {
            axis: FlexAxis::of(
                computed.flex_direction,
                computed.flex_wrap,
                content.width,
                heights,
            ),
            style: computed,
            content,
            height: heights.specified,
            pre,
        };
        let sources: Vec<FlexItemSource> = ctx.flex_sources(id, pre);
        let ghost limit = ctx.dom.rank_of(id);
        proof {
            crate::dom::below_the_peak(ctx.dom.rank@, id.0 as int);
        }
        let found: Vec<FlexItem> = self.flex_items(fuel, &sources, env, Ghost(limit));
        if found.len() == 0 {
            return 0;
        }
        let items: Vec<FlexItem> = sort_items(
            &found,
            Ghost(sources@.len()),
            Ghost(self.boxes@.len()),
        );
        let gap: i32 = env.axis.main_gap(computed.gap);
        let main: i32 = self.main_size_of(&items, bid, env, heights, gap);
        let metrics: Vec<Item> = metrics_of(&items);
        let lines: Vec<(usize, usize)> = collect_lines(&metrics, main, gap, env.axis.wraps);
        let ids: Vec<BoxId> = self.lay_lines(
            fuel,
            &items,
            &sources,
            &lines,
            env,
            main,
            gap,
            Ghost(limit),
        );
        let cross: i32 = self.align_cross(&items, &ids, &lines, env, bid, heights);
        let mut children: Vec<BoxId> = ids;
        let absolutes: Vec<NodeId> = self.collect_out_of_flow(id);
        self.lay_absolutes(fuel, &absolutes, bid, pre, &mut children);
        self.set_children(bid, children);
        if env.axis.vertical {
            main
        } else {
            cross
        }
    }
}

fn metrics_of(items: &Vec<FlexItem>) -> (r: Vec<Item>)
    ensures
        r@ == items@.map_values(|i: FlexItem| i.metrics),
{
    let ghost want = items@.map_values(|i: FlexItem| i.metrics);
    let mut metrics: Vec<Item> = Vec::new();
    let mut j: usize = 0;
    while j < items.len()
        invariant
            want == items@.map_values(|i: FlexItem| i.metrics),
            j <= items@.len(),
            metrics@ =~= want.take(j as int),
        decreases items@.len() - j,
    {
        metrics.push(items[j].metrics);
        j += 1;
    }
    proof {
        assert(metrics@ =~= want);
    }
    metrics
}

} // verus!
