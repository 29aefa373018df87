//! Computed style: what the cascade decided about each node.
//!
//! Lengths, percentages and flex factors are held in thousandths, so that all
//! of layout is whole-number arithmetic.

use vstd::prelude::*;

use crate::dom::NodeId;

verus! {

/// The most cells a single length may ask for. No screen is that large, and
/// the cap is what keeps an absurd declaration from mattering.
pub const MAX_CELLS: i32 = 1_000_000;

/// A CSS length. Numbers are thousandths of the unit.
#[derive(Clone, Copy, PartialEq, Eq, Debug, Structural)]
pub enum Length {
    Auto,
    Px(i64),
    Em(i64),
    Percent(i64),
}

/// `n / d` to the nearest whole number, halves away from zero.
pub open spec fn nearest(n: int, d: int) -> int
    recommends
        d > 0,
{
    if n >= 0 {
        (2 * n + d) / (2 * d)
    } else {
        -((2 * -n + d) / (2 * d))
    }
}

/// A number of cells kept within [`MAX_CELLS`] of zero.
pub open spec fn capped(n: int) -> i32 {
    if n > MAX_CELLS {
        MAX_CELLS
    } else if n < -MAX_CELLS {
        (-MAX_CELLS) as i32
    } else {
        n as i32
    }
}

fn nearest_cells(n: i128, d: i128) -> (r: i32)
    requires
        0 < d <= 0x1_0000_0000,
        -0x1000_0000_0000_0000_0000_0000_0000 <= n <= 0x1000_0000_0000_0000_0000_0000_0000,
    ensures
        r == capped(nearest(n as int, d as int)),
{
    let whole: i128 = if n >= 0 {
        (2 * n + d) / (2 * d)
    } else {
        -((2 * (-n) + d) / (2 * d))
    };
    proof {
        let a = if n >= 0 {
            2 * n + d
        } else {
            2 * -n + d
        };
        assert(0 <= a / (2 * d as int) <= a) by (nonlinear_arith)
            requires
                a >= 0,
                d > 0,
        ;
    }
    if whole > MAX_CELLS as i128 {
        MAX_CELLS
    } else if whole < -(MAX_CELLS as i128) {
        -MAX_CELLS
    } else {
        whole as i32
    }
}

impl Length {
    #[verifier::allow_in_spec]
    pub fn is_auto(self) -> (r: bool)
        returns
            self is Auto,
    {
        matches!(self, Length::Auto)
    }

    #[verifier::allow_in_spec]
    pub fn is_percent(self) -> (r: bool)
        returns
            self is Percent,
    {
        matches!(self, Length::Percent(_))
    }

    /// A horizontal length in cells: 8px or half an em to the cell, a
    /// percentage of `containing`.
    #[verifier::allow_in_spec]
    pub fn to_cells_h(self, containing: i32) -> (r: i32)
        returns
            (match self {
                Length::Auto => 0,
                Length::Px(n) => capped(nearest(n as int, 8000)),
                Length::Em(n) => capped(nearest(n as int, 500)),
                Length::Percent(n) => capped(nearest(n * containing, 100_000)),
            }),
    {
        match self {
            Length::Auto => 0,
            Length::Px(n) => nearest_cells(n as i128, 8000),
            Length::Em(n) => nearest_cells(n as i128, 500),
            Length::Percent(n) => percent_cells(n, containing),
        }
    }

    /// A vertical edge in lines: 16px or one em to the line. A percentage is
    /// one of the containing block's *width* on either axis.
    #[verifier::allow_in_spec]
    pub fn to_cells_v(self, containing: i32) -> (r: i32)
        returns
            (match self {
                Length::Auto => 0,
                Length::Px(n) => capped(nearest(n as int, 16_000)),
                Length::Em(n) => capped(nearest(n as int, 1000)),
                Length::Percent(n) => capped(nearest(n * containing, 100_000)),
            }),
    {
        match self {
            Length::Auto => 0,
            Length::Px(n) => nearest_cells(n as i128, 16_000),
            Length::Em(n) => nearest_cells(n as i128, 1000),
            Length::Percent(n) => percent_cells(n, containing),
        }
    }

    /// A height in lines: as [`to_cells_v`](Self::to_cells_v), with a
    /// percentage of the containing block's *height*.
    #[verifier::allow_in_spec]
    pub fn to_lines(self, height: i32) -> (r: i32)
        returns
            self.to_cells_v(height),
    {
        self.to_cells_v(height)
    }
}

fn percent_cells(n: i64, containing: i32) -> (r: i32)
    ensures
        r == capped(nearest(n * containing, 100_000)),
{
    assert(-0x8000_0000_0000_0000 * 0x8000_0000 <= n * containing <= 0x8000_0000_0000_0000
        * 0x8000_0000) by (nonlinear_arith)
        requires
            -0x8000_0000_0000_0000 <= n <= 0x7fff_ffff_ffff_ffff,
            -0x8000_0000 <= containing <= 0x7fff_ffff,
    ;
    nearest_cells(n as i128 * containing as i128, 100_000)
}

#[derive(Clone, Copy, PartialEq, Eq, Debug, Structural)]
pub enum Display {
    Block,
    Inline,
    InlineBlock,
    Flex,
    InlineFlex,
    Grid,
    InlineGrid,
    /// `none`: the node generates no box.
    NoBox,
}

#[derive(Clone, Copy, PartialEq, Eq, Debug, Structural)]
pub enum Position {
    Static,
    Relative,
    Absolute,
    Fixed,
    Sticky,
}

#[derive(Clone, Copy, PartialEq, Eq, Debug, Structural)]
pub enum BoxSizing {
    ContentBox,
    BorderBox,
}

#[derive(Clone, Copy, PartialEq, Eq, Debug, Structural)]
pub enum Overflow {
    Visible,
    Hidden,
    Clip,
    Scroll,
    Auto,
}

impl Overflow {
    /// Anything but `visible` confines the content to the padding box.
    #[verifier::allow_in_spec]
    pub fn clips(self) -> (r: bool)
        returns
            !(self is Visible),
    {
        !matches!(self, Overflow::Visible)
    }
}

#[derive(Clone, Copy, PartialEq, Eq, Debug, Structural)]
pub enum TextAlign {
    Left,
    Center,
    Right,
}

#[derive(Clone, Copy, PartialEq, Eq, Debug, Structural)]
pub enum FontWeight {
    Normal,
    Bold,
}

#[derive(Clone, Copy, PartialEq, Eq, Debug, Structural)]
pub enum FontStyle {
    Normal,
    Italic,
}

#[derive(Clone, Copy, PartialEq, Eq, Debug, Structural)]
pub enum ColorValue {
    Default,
    Rgb(u8, u8, u8),
}

#[derive(Clone, Copy, PartialEq, Eq, Debug, Structural)]
pub enum FlexDirection {
    Row,
    RowReverse,
    Column,
    ColumnReverse,
}

#[derive(Clone, Copy, PartialEq, Eq, Debug, Structural)]
pub enum FlexWrap {
    NoWrap,
    Wrap,
    WrapReverse,
}

#[derive(Clone, Copy, PartialEq, Eq, Debug, Structural)]
pub enum FlexBasis {
    Auto,
    Content,
    Size(Length),
}

/// The three flex properties. Factors are thousandths.
#[derive(Clone, Copy, PartialEq, Eq, Debug, Structural)]
pub struct Flex {
    pub grow: u32,
    pub shrink: u32,
    pub basis: FlexBasis,
}

#[derive(Clone, Copy, PartialEq, Eq, Debug, Structural)]
pub enum JustifyContent {
    FlexStart,
    FlexEnd,
    Center,
    SpaceBetween,
    SpaceAround,
    SpaceEvenly,
}

#[derive(Clone, Copy, PartialEq, Eq, Debug, Structural)]
pub enum AlignContent {
    Stretch,
    Pack(JustifyContent),
}

#[derive(Clone, Copy, PartialEq, Eq, Debug, Structural)]
pub enum AlignItems {
    Stretch,
    FlexStart,
    FlexEnd,
    Center,
    Baseline,
}

#[derive(Clone, Copy, PartialEq, Eq, Debug, Structural)]
pub enum AlignSelf {
    Auto,
    Is(AlignItems),
}

impl AlignSelf {
    /// `auto` defers to the container.
    #[verifier::allow_in_spec]
    pub fn resolve(self, container: AlignItems) -> (r: AlignItems)
        returns
            (match self {
                AlignSelf::Auto => container,
                AlignSelf::Is(own) => own,
            }),
    {
        match self {
            AlignSelf::Auto => container,
            AlignSelf::Is(own) => own,
        }
    }
}

/// `row-gap` and `column-gap`.
#[derive(Clone, Copy, PartialEq, Eq, Debug, Structural)]
pub struct Gaps {
    pub row: Length,
    pub column: Length,
}

/// The lower bound of a `minmax()` track.
#[derive(Clone, Copy, PartialEq, Eq, Debug, Structural)]
pub enum GridMin {
    Auto,
    Fixed(Length),
}

/// The upper bound of a `minmax()` track. Fractions are thousandths.
#[derive(Clone, Copy, PartialEq, Eq, Debug, Structural)]
pub enum GridMax {
    Auto,
    Fixed(Length),
    Fr(u32),
}

/// One track of a grid template. Fractions are thousandths.
#[derive(Clone, Copy, PartialEq, Eq, Debug, Structural)]
pub enum GridTrack {
    Auto,
    Fixed(Length),
    Fr(u32),
    MinMax(GridMin, GridMax),
}

/// Where a grid item asks to start or end on one axis. Lines count from one.
#[derive(Clone, Copy, PartialEq, Eq, Debug, Structural)]
pub enum GridPlacement {
    Auto,
    Line(usize),
    Span(usize),
}

/// A template is a slice of [`Styles::tracks`], so that a style stays small
/// enough to copy around.
#[derive(Clone, Copy, PartialEq, Eq, Debug, Structural)]
pub struct GridTemplate {
    pub start: usize,
    pub len: usize,
}

/// Four lengths, one per side.
#[derive(Clone, Copy, PartialEq, Eq, Debug, Structural)]
pub struct Edges {
    pub top: Length,
    pub right: Length,
    pub bottom: Length,
    pub left: Length,
}

impl Edges {
    /// The same length on every side.
    #[verifier::allow_in_spec]
    pub fn all(len: Length) -> (r: Edges)
        returns
            (Edges { top: len, right: len, bottom: len, left: len }),
    {
        Edges { top: len, right: len, bottom: len, left: len }
    }
}

/// Everything layout reads about one node.
#[derive(Clone, Copy, PartialEq, Eq, Debug)]
pub struct ComputedStyle {
    pub display: Display,
    /// The user-agent sheet hid this node, which nothing overrides.
    pub hidden_by_ua: bool,
    pub position: Position,
    pub top: Length,
    pub right: Length,
    pub bottom: Length,
    pub left: Length,
    pub width: Length,
    pub height: Length,
    pub min_width: Length,
    pub min_height: Length,
    pub max_width: Length,
    pub max_height: Length,
    pub margin: Edges,
    pub padding: Edges,
    pub border: Edges,
    pub box_sizing: BoxSizing,
    pub overflow_x: Overflow,
    pub overflow_y: Overflow,
    pub text_align: TextAlign,
    pub font_weight: FontWeight,
    pub font_style: FontStyle,
    pub underline: bool,
    pub color: ColorValue,
    pub flex: Flex,
    pub flex_direction: FlexDirection,
    pub flex_wrap: FlexWrap,
    pub justify_content: JustifyContent,
    pub align_items: AlignItems,
    pub align_self: AlignSelf,
    pub align_content: AlignContent,
    pub gap: Gaps,
    pub order: i32,
    pub grid_template_columns: GridTemplate,
    pub grid_template_rows: GridTemplate,
    pub grid_column: (GridPlacement, GridPlacement),
    pub grid_row: (GridPlacement, GridPlacement),
}

impl ComputedStyle {
    /// Every property at its initial value.
    #[verifier::allow_in_spec]
    pub fn initial() -> (r: ComputedStyle)
        returns
            (ComputedStyle {
                display: Display::Inline,
                hidden_by_ua: false,
                position: Position::Static,
                top: Length::Auto,
                right: Length::Auto,
                bottom: Length::Auto,
                left: Length::Auto,
                width: Length::Auto,
                height: Length::Auto,
                min_width: Length::Auto,
                min_height: Length::Auto,
                max_width: Length::Auto,
                max_height: Length::Auto,
                margin: Edges::all(Length::Px(0)),
                padding: Edges::all(Length::Px(0)),
                border: Edges::all(Length::Px(0)),
                box_sizing: BoxSizing::ContentBox,
                overflow_x: Overflow::Visible,
                overflow_y: Overflow::Visible,
                text_align: TextAlign::Left,
                font_weight: FontWeight::Normal,
                font_style: FontStyle::Normal,
                underline: false,
                color: ColorValue::Default,
                flex: Flex { grow: 0, shrink: 1000, basis: FlexBasis::Auto },
                flex_direction: FlexDirection::Row,
                flex_wrap: FlexWrap::NoWrap,
                justify_content: JustifyContent::FlexStart,
                align_items: AlignItems::Stretch,
                align_self: AlignSelf::Auto,
                align_content: AlignContent::Stretch,
                gap: Gaps { row: Length::Px(0), column: Length::Px(0) },
                order: 0,
                grid_template_columns: GridTemplate { start: 0, len: 0 },
                grid_template_rows: GridTemplate { start: 0, len: 0 },
                grid_column: (GridPlacement::Auto, GridPlacement::Auto),
                grid_row: (GridPlacement::Auto, GridPlacement::Auto),
            }),
    {
        ComputedStyle {
            display: Display::Inline,
            hidden_by_ua: false,
            position: Position::Static,
            top: Length::Auto,
            right: Length::Auto,
            bottom: Length::Auto,
            left: Length::Auto,
            width: Length::Auto,
            height: Length::Auto,
            min_width: Length::Auto,
            min_height: Length::Auto,
            max_width: Length::Auto,
            max_height: Length::Auto,
            margin: Edges::all(Length::Px(0)),
            padding: Edges::all(Length::Px(0)),
            border: Edges::all(Length::Px(0)),
            box_sizing: BoxSizing::ContentBox,
            overflow_x: Overflow::Visible,
            overflow_y: Overflow::Visible,
            text_align: TextAlign::Left,
            font_weight: FontWeight::Normal,
            font_style: FontStyle::Normal,
            underline: false,
            color: ColorValue::Default,
            flex: Flex { grow: 0, shrink: 1000, basis: FlexBasis::Auto },
            flex_direction: FlexDirection::Row,
            flex_wrap: FlexWrap::NoWrap,
            justify_content: JustifyContent::FlexStart,
            align_items: AlignItems::Stretch,
            align_self: AlignSelf::Auto,
            align_content: AlignContent::Stretch,
            gap: Gaps { row: Length::Px(0), column: Length::Px(0) },
            order: 0,
            grid_template_columns: GridTemplate { start: 0, len: 0 },
            grid_template_rows: GridTemplate { start: 0, len: 0 },
            grid_column: (GridPlacement::Auto, GridPlacement::Auto),
            grid_row: (GridPlacement::Auto, GridPlacement::Auto),
        }
    }
}

impl Default for ComputedStyle {
    fn default() -> (r: ComputedStyle)
        ensures
            r == ComputedStyle::initial(),
    {
        ComputedStyle::initial()
    }
}

/// One style per node, indexed like the document's own arena, and the grid
/// tracks that those styles' templates point into.
pub struct Styles {
    pub by_node: Vec<ComputedStyle>,
    pub tracks: Vec<GridTrack>,
}

impl Styles {
    /// What the cascade decided about `id`; the initial values where it was
    /// never asked.
    pub open spec fn of(&self, id: NodeId) -> ComputedStyle {
        if id.0 < self.by_node@.len() {
            self.by_node@[id.0 as int]
        } else {
            ComputedStyle::initial()
        }
    }

    /// See [`of`](Self::of).
    pub fn get(&self, id: NodeId) -> (r: ComputedStyle)
        ensures
            r == self.of(id),
    {
        if (id.0 as usize) < self.by_node.len() {
            self.by_node[id.0 as usize]
        } else {
            ComputedStyle::initial()
        }
    }

    /// The tracks of a template; those that point past the table are dropped.
    pub open spec fn template(&self, t: GridTemplate) -> Seq<GridTrack> {
        if t.start + t.len <= self.tracks@.len() {
            self.tracks@.subrange(t.start as int, t.start + t.len)
        } else {
            Seq::empty()
        }
    }

    /// See [`template`](Self::template).
    pub fn tracks_of(&self, t: GridTemplate) -> (r: Vec<GridTrack>)
        ensures
            r@ == self.template(t),
    {
        let mut out: Vec<GridTrack> = Vec::new();
        if t.start <= self.tracks.len() && t.len <= self.tracks.len() - t.start {
            let mut i: usize = 0;
            while i < t.len
                invariant
                    i <= t.len,
                    t.start + t.len <= self.tracks.len(),
                    out@ == self.tracks@.subrange(t.start as int, t.start + i),
                decreases t.len - i,
            {
                proof {
                    assert(self.tracks@.subrange(t.start as int, t.start + i + 1)
                        =~= self.tracks@.subrange(t.start as int, t.start + i).push(
                        self.tracks@[t.start + i],
                    ));
                }
                out.push(self.tracks[t.start + i]);
                i += 1;
            }
        } else {
            assert(out@ =~= self.template(t));
        }
        out
    }
}

/// A length never asks for more than the cap, on either axis.
pub proof fn lengths_are_capped(len: Length, containing: i32)
    ensures
        -MAX_CELLS <= len.to_cells_h(containing) <= MAX_CELLS,
        -MAX_CELLS <= len.to_cells_v(containing) <= MAX_CELLS,
        -MAX_CELLS <= len.to_lines(containing) <= MAX_CELLS,
{
}

} // verus!
