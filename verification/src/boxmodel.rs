//! The box model: lengths to cells, the clamp order, and which formatting
//! context a `display` asks for.

use vstd::prelude::*;

use crate::cells::{half, larger, minus, negated, plus, smaller};
use crate::dimensions::{Dimensions, EdgeSizes, Rect};
use crate::style::{
    AlignItems, BoxSizing, ColorValue, ComputedStyle, Display, FlexDirection, FontStyle,
    FontWeight, Length, Position,
};
use crate::term::{Attrs, Color, Style};

verus! {

/// Whether `display: none` is honoured on this pass.
#[derive(Clone, Copy, PartialEq, Eq, Debug, Structural)]
pub enum Hidden {
    Respect,
    Reveal,
}

/// Does this box leave the normal flow?
#[verifier::allow_in_spec]
pub fn is_out_of_flow(position: Position) -> (r: bool)
    returns
        position is Absolute || position is Fixed,
{
    matches!(position, Position::Absolute | Position::Fixed)
}

/// Does this box move from its place in the flow?
#[verifier::allow_in_spec]
pub fn is_shifted(position: Position) -> (r: bool)
    returns
        position is Relative || position is Sticky,
{
    matches!(position, Position::Relative | Position::Sticky)
}

/// Does this `display` generate a block-level box, one that stacks rather than
/// joining the line beside it?
#[verifier::allow_in_spec]
pub fn is_block_level(display: Display) -> (r: bool)
    returns
        display is Block || display is Flex || display is Grid,
{
    matches!(display, Display::Block | Display::Flex | Display::Grid)
}

/// Does this `display` generate an atomic inline, a box that joins the line
/// beside it as one unbreakable piece?
#[verifier::allow_in_spec]
pub fn is_atomic_inline(display: Display) -> (r: bool)
    returns
        display is InlineBlock || display is InlineFlex || display is InlineGrid,
{
    matches!(display, Display::InlineBlock | Display::InlineFlex | Display::InlineGrid)
}

/// Are this box's children flex items?
#[verifier::allow_in_spec]
pub fn lays_out_as_flex(computed: &ComputedStyle) -> (r: bool)
    returns
        computed.display is Flex || computed.display is InlineFlex,
{
    matches!(computed.display, Display::Flex | Display::InlineFlex)
}

/// Are this box's children grid items?
#[verifier::allow_in_spec]
pub fn lays_out_as_grid(computed: &ComputedStyle) -> (r: bool)
    returns
        computed.display is Grid || computed.display is InlineGrid,
{
    matches!(computed.display, Display::Grid | Display::InlineGrid)
}

/// Does this flex container's main axis run down the page?
#[verifier::allow_in_spec]
pub fn is_column(computed: &ComputedStyle) -> (r: bool)
    returns
        computed.flex_direction is Column || computed.flex_direction is ColumnReverse,
{
    matches!(computed.flex_direction, FlexDirection::Column | FlexDirection::ColumnReverse)
}

/// A horizontal edge in cells; `auto` is zero.
#[verifier::allow_in_spec]
pub fn edge_h(len: Length, containing_width: i32) -> (r: i32)
    returns
        len.to_cells_h(containing_width),
{
    len.to_cells_h(containing_width)
}

/// A vertical edge in lines; `auto` is zero, and a percentage is one of the
/// containing block's width.
#[verifier::allow_in_spec]
pub fn edge_v(len: Length, containing_width: i32) -> (r: i32)
    returns
        len.to_cells_v(containing_width),
{
    len.to_cells_v(containing_width)
}

/// A horizontal size or inset; `auto` remains absent.
#[verifier::allow_in_spec]
pub fn inset_h(len: Length, containing_width: i32) -> (r: Option<i32>)
    returns
        (if len.is_auto() {
            None
        } else {
            Some(len.to_cells_h(containing_width))
        }),
{
    if len.is_auto() {
        None
    } else {
        Some(len.to_cells_h(containing_width))
    }
}

/// A vertical inset. A percentage needs a definite containing height.
#[verifier::allow_in_spec]
pub fn inset_v(len: Length, containing_width: i32, containing_height: Option<i32>) -> (r: Option<
    i32,
>)
    returns
        (match len {
            Length::Auto => None,
            Length::Percent(_) => match containing_height {
                Some(h) => Some(len.to_lines(h)),
                None => None,
            },
            _ => Some(len.to_cells_v(containing_width)),
        }),
{
    match len {
        Length::Auto => None,
        Length::Percent(_) => match containing_height {
            Some(h) => Some(len.to_lines(h)),
            None => None,
        },
        _ => Some(len.to_cells_v(containing_width)),
    }
}

/// A vertical size property, or `None` where it behaves as `auto`. A
/// percentage needs a containing block whose height is definite.
#[verifier::allow_in_spec]
pub fn definite_v(len: Length, containing_height: Option<i32>) -> (r: Option<i32>)
    returns
        (match len {
            Length::Auto => None,
            Length::Percent(_) => match containing_height {
                Some(h) => Some(len.to_lines(h)),
                None => None,
            },
            _ => Some(len.to_lines(0)),
        }),
{
    match len {
        Length::Auto => None,
        Length::Percent(_) => match containing_height {
            Some(h) => Some(len.to_lines(h)),
            None => None,
        },
        _ => Some(len.to_lines(0)),
    }
}

/// The near inset, or else the far one counted back.
#[verifier::allow_in_spec]
pub fn near_or_far(near: Option<i32>, far: Option<i32>) -> (r: i32)
    returns
        (match near {
            Some(n) => n,
            None => match far {
                Some(n) => negated(n),
                None => 0,
            },
        }),
{
    match near {
        Some(n) => n,
        None => match far {
            Some(n) => negated(n),
            None => 0,
        },
    }
}

/// How far a relatively positioned box moves.
#[verifier::allow_in_spec]
pub fn relative_delta(style: ComputedStyle, width: i32, height: Option<i32>) -> (r: (i32, i32))
    returns
        (
            near_or_far(inset_h(style.left, width), inset_h(style.right, width)),
            near_or_far(
                inset_v(style.top, width, height),
                inset_v(style.bottom, width, height),
            ),
        ),
{
    (
        near_or_far(inset_h(style.left, width), inset_h(style.right, width)),
        near_or_far(inset_v(style.top, width, height), inset_v(style.bottom, width, height)),
    )
}

/// How far a box moves from its place in the flow. The `top` of a sticky box
/// is what it sticks at, not a shift.
#[verifier::allow_in_spec]
pub fn flow_delta(style: ComputedStyle, width: i32, height: Option<i32>) -> (r: (i32, i32))
    returns
        (if style.position is Sticky {
            (
                near_or_far(inset_h(style.left, width), inset_h(style.right, width)),
                near_or_far(None, inset_v(style.bottom, width, height)),
            )
        } else {
            relative_delta(style, width, height)
        }),
{
    if matches!(style.position, Position::Sticky) {
        (
            near_or_far(inset_h(style.left, width), inset_h(style.right, width)),
            near_or_far(None, inset_v(style.bottom, width, height)),
        )
    } else {
        relative_delta(style, width, height)
    }
}

/// `min(max(min-content, available), max-content)`.
#[verifier::allow_in_spec]
pub fn shrink_to_fit(min_content: i32, max_content: i32, available: i32) -> (r: i32)
    returns
        larger(smaller(larger(min_content, available), larger(max_content, min_content)), 0),
{
    larger(smaller(larger(min_content, available), larger(max_content, min_content)), 0)
}

/// The physical near edge of something placed `offset` cells from a reversed
/// axis's start edge. It counts back from the container's far edge while the
/// content fits, and from the content's own when it does not.
#[verifier::allow_in_spec]
pub fn from_far_edge(near: i32, available: i32, occupied: i32, offset: i32, size: i32) -> (r: i32)
    returns
        minus(minus(plus(near, larger(available, occupied)), offset), size),
{
    minus(minus(plus(near, larger(available, occupied)), offset), size)
}

/// One axis of box sizing. Width and height share it, so the clamp order and
/// the `box-sizing` arithmetic cannot drift apart.
#[derive(Clone, Copy, PartialEq, Eq, Debug, Structural)]
pub struct Axis {
    /// Padding and border on this axis.
    pub edges: i32,
    pub box_sizing: BoxSizing,
}

impl Axis {
    /// A specified value as a content-box size, never negative.
    #[verifier::allow_in_spec]
    pub fn content_from(self, specified: i32) -> (r: i32)
        returns
            (match self.box_sizing {
                BoxSizing::ContentBox => larger(specified, 0),
                BoxSizing::BorderBox => larger(minus(specified, self.edges), 0),
            }),
    {
        match self.box_sizing {
            BoxSizing::ContentBox => larger(specified, 0),
            BoxSizing::BorderBox => larger(minus(specified, self.edges), 0),
        }
    }

    /// Clamp by `max`, then by `min`, so that `min` wins a conflict.
    #[verifier::allow_in_spec]
    pub fn clamp(self, size: i32, min: Option<i32>, max: Option<i32>) -> (r: i32)
        returns
            ({
                let size = match max {
                    Some(max) => smaller(size, self.content_from(max)),
                    None => size,
                };
                let size = match min {
                    Some(min) => larger(size, self.content_from(min)),
                    None => size,
                };
                larger(size, 0)
            }),
    {
        let size: i32 = match max {
            Some(max) => smaller(size, self.content_from(max)),
            None => size,
        };
        let size: i32 = match min {
            Some(min) => larger(size, self.content_from(min)),
            None => size,
        };
        larger(size, 0)
    }
}

/// The padding of a style, resolved.
#[verifier::allow_in_spec]
pub fn padding_of(computed: &ComputedStyle, containing_width: i32) -> (r: EdgeSizes)
    returns
        (EdgeSizes {
            top: computed.padding.top.to_cells_v(containing_width),
            right: computed.padding.right.to_cells_h(containing_width),
            bottom: computed.padding.bottom.to_cells_v(containing_width),
            left: computed.padding.left.to_cells_h(containing_width),
        }),
{
    EdgeSizes {
        top: computed.padding.top.to_cells_v(containing_width),
        right: computed.padding.right.to_cells_h(containing_width),
        bottom: computed.padding.bottom.to_cells_v(containing_width),
        left: computed.padding.left.to_cells_h(containing_width),
    }
}

/// The border of a style, resolved.
#[verifier::allow_in_spec]
pub fn border_of(computed: &ComputedStyle, containing_width: i32) -> (r: EdgeSizes)
    returns
        (EdgeSizes {
            top: computed.border.top.to_cells_v(containing_width),
            right: computed.border.right.to_cells_h(containing_width),
            bottom: computed.border.bottom.to_cells_v(containing_width),
            left: computed.border.left.to_cells_h(containing_width),
        }),
{
    EdgeSizes {
        top: computed.border.top.to_cells_v(containing_width),
        right: computed.border.right.to_cells_h(containing_width),
        bottom: computed.border.bottom.to_cells_v(containing_width),
        left: computed.border.left.to_cells_h(containing_width),
    }
}

/// The margin of a style, resolved, with `auto` as zero.
#[verifier::allow_in_spec]
pub fn margin_of(computed: &ComputedStyle, containing_width: i32) -> (r: EdgeSizes)
    returns
        (EdgeSizes {
            top: edge_v(computed.margin.top, containing_width),
            right: edge_h(computed.margin.right, containing_width),
            bottom: edge_v(computed.margin.bottom, containing_width),
            left: edge_h(computed.margin.left, containing_width),
        }),
{
    EdgeSizes {
        top: edge_v(computed.margin.top, containing_width),
        right: edge_h(computed.margin.right, containing_width),
        bottom: edge_v(computed.margin.bottom, containing_width),
        left: edge_h(computed.margin.left, containing_width),
    }
}

/// The horizontal room that `margin`, `border` and `pad` leave of `width`.
#[verifier::allow_in_spec]
pub fn room_inside(width: i32, margin: EdgeSizes, border: EdgeSizes, pad: EdgeSizes) -> (r: i32)
    returns
        larger(
            minus(
                minus(
                    minus(
                        minus(minus(minus(width, margin.left), margin.right), border.left),
                        border.right,
                    ),
                    pad.left,
                ),
                pad.right,
            ),
            0,
        ),
{
    let w: i32 = minus(minus(width, margin.left), margin.right);
    let w: i32 = minus(minus(w, border.left), border.right);
    larger(minus(minus(w, pad.left), pad.right), 0)
}

/// Auto margins share what a box leaves free of its containing block.
#[verifier::allow_in_spec]
pub fn auto_margins(computed: &ComputedStyle, margin: EdgeSizes, free: i32) -> (r: EdgeSizes)
    returns
        (match (computed.margin.left.is_auto(), computed.margin.right.is_auto()) {
            (true, true) => EdgeSizes {
                left: half(free),
                right: minus(free, half(free)),
                ..margin
            },
            (true, false) => EdgeSizes { left: free, ..margin },
            (false, true) => EdgeSizes { right: free, ..margin },
            (false, false) => margin,
        }),
{
    let mut out: EdgeSizes = margin;
    let left: bool = computed.margin.left.is_auto();
    let right: bool = computed.margin.right.is_auto();
    if left && right {
        out.left = half(free);
        out.right = minus(free, half(free));
    } else if left {
        out.left = free;
    } else if right {
        out.right = free;
    }
    out
}

/// The edges and used content width of a block-level box.
///
/// `intrinsic` is how wide the box is when its `width` is `auto` and it is a
/// replaced one; otherwise such a box fills what its containing block leaves.
#[verifier::allow_in_spec]
pub fn resolve_block_dims(
    computed: &ComputedStyle,
    containing_width: i32,
    intrinsic: Option<i32>,
) -> (r: Dimensions)
    returns
        ({
            let pad = padding_of(computed, containing_width);
            let border = border_of(computed, containing_width);
            let margin = margin_of(computed, containing_width);
            let zero = Dimensions {
                content: Rect { x: 0, y: 0, width: 0, height: 0 },
                padding: pad,
                border,
                margin,
            };
            let axis = Axis { edges: zero.inner_edges_h(), box_sizing: computed.box_sizing };
            let tentative = if computed.width.is_auto() {
                match intrinsic {
                    Some(cells) => larger(cells, 0),
                    None => room_inside(containing_width, margin, border, pad),
                }
            } else {
                axis.content_from(computed.width.to_cells_h(containing_width))
            };
            let width = axis.clamp(
                tentative,
                inset_h(computed.min_width, containing_width),
                inset_h(computed.max_width, containing_width),
            );
            let dims = zero.with_content(Rect { x: 0, y: 0, width, height: 0 });
            let used = dims.margin_box_width();
            if used < containing_width {
                dims.with_margin(
                    auto_margins(computed, margin, minus(containing_width, used)),
                )
            } else {
                dims
            }
        }),
{
    let pad: EdgeSizes = padding_of(computed, containing_width);
    let border: EdgeSizes = border_of(computed, containing_width);
    let margin: EdgeSizes = margin_of(computed, containing_width);
    let zero: Dimensions = Dimensions {
        content: Rect { x: 0, y: 0, width: 0, height: 0 },
        padding: pad,
        border,
        margin,
    };
    let axis: Axis = Axis { edges: zero.inner_edges_h(), box_sizing: computed.box_sizing };
    let tentative: i32 = if computed.width.is_auto() {
        match intrinsic {
            Some(cells) => larger(cells, 0),
            None => room_inside(containing_width, margin, border, pad),
        }
    } else {
        axis.content_from(computed.width.to_cells_h(containing_width))
    };
    let width: i32 = axis.clamp(
        tentative,
        inset_h(computed.min_width, containing_width),
        inset_h(computed.max_width, containing_width),
    );
    let dims: Dimensions = zero.with_content(Rect { x: 0, y: 0, width, height: 0 });
    let used: i32 = dims.margin_box_width();
    if used < containing_width {
        dims.with_margin(auto_margins(computed, margin, minus(containing_width, used)))
    } else {
        dims
    }
}

/// `align-items` as a column's cross axis can honour it: a baseline is a row,
/// and there is no shared row across a column.
#[verifier::allow_in_spec]
pub fn column_cross_align(align: AlignItems) -> (r: AlignItems)
    returns
        (match align {
            AlignItems::Baseline => AlignItems::FlexStart,
            other => other,
        }),
{
    match align {
        AlignItems::Baseline => AlignItems::FlexStart,
        other => other,
    }
}

/// Ten-thousandths of the luma of a colour, out of `255 * 10000`.
#[verifier::allow_in_spec]
pub fn luma(r: u8, g: u8, b: u8) -> (l: u32)
    returns
        (2126 * r + 7152 * g + 722 * b) as u32,
{
    2126 * (r as u32) + 7152 * (g as u32) + 722 * (b as u32)
}

/// A text colour the terminal should use: a page's own, unless it is so dark
/// or so light that it may vanish into the terminal's background.
#[verifier::allow_in_spec]
pub fn term_color(color: ColorValue) -> (r: Color)
    returns
        (match color {
            ColorValue::Default => Color::Default,
            ColorValue::Rgb(r, g, b) => if luma(r, g, b) < 510_000 || luma(r, g, b) > 2_167_500 {
                Color::Default
            } else {
                Color::Rgb(r, g, b)
            },
        }),
{
    match color {
        ColorValue::Default => Color::Default,
        ColorValue::Rgb(r, g, b) => {
            let l: u32 = luma(r, g, b);
            if l < 510_000 || l > 2_167_500 {
                Color::Default
            } else {
                Color::Rgb(r, g, b)
            }
        },
    }
}

/// The terminal style of text under this computed style.
#[verifier::allow_in_spec]
pub fn term_style(computed: &ComputedStyle) -> (r: Style)
    returns
        (Style {
            fg: term_color(computed.color),
            bg: Color::Default,
            attrs: Attrs {
                bold: computed.font_weight is Bold,
                italic: computed.font_style is Italic,
                underline: computed.underline,
            },
        }),
{
    Style {
        fg: term_color(computed.color),
        bg: Color::Default,
        attrs: Attrs {
            bold: matches!(computed.font_weight, FontWeight::Bold),
            italic: matches!(computed.font_style, FontStyle::Italic),
            underline: computed.underline,
        },
    }
}

/// A clamped size is never negative, and lies between its bounds; a minimum wins
/// over a smaller maximum. Clamping again changes nothing.
pub proof fn the_minimum_wins(axis: Axis, size: i32, min: Option<i32>, max: Option<i32>)
    ensures
        axis.clamp(size, min, max) >= 0,
        min matches Some(m) ==> axis.clamp(size, min, max) >= axis.content_from(m),
        max matches Some(m) ==> (min matches Some(n) ==> axis.content_from(n) <= axis.content_from(
            m,
        )) ==> axis.clamp(size, min, max) <= axis.content_from(m),
        axis.clamp(axis.clamp(size, min, max), min, max) == axis.clamp(size, min, max),
{
}

/// Shrink-to-fit lies between the two content widths.
pub proof fn shrink_to_fit_is_between_the_content_widths(min: i32, max: i32, available: i32)
    requires
        0 <= min <= max,
    ensures
        min <= shrink_to_fit(min, max, available) <= max,
        min <= available <= max ==> shrink_to_fit(min, max, available) == available,
{
}

/// A reversed axis never puts a box before its container's near edge: whatever
/// is placed inside the room the content really takes stays at or past `near`.
pub proof fn nothing_lands_before_the_near_edge(
    near: i32,
    available: i32,
    occupied: i32,
    offset: i32,
    size: i32,
)
    requires
        0 <= offset,
        0 <= size,
        offset + size <= occupied,
        near + larger(available, occupied) <= i32::MAX,
    ensures
        from_far_edge(near, available, occupied, offset, size) >= near,
{
}

/// A block box without a width of its own fills its containing block exactly,
/// edges included, whenever its edges leave it room.
pub proof fn an_auto_block_fills_its_container(computed: ComputedStyle, width: i32)
    requires
        computed.width.is_auto(),
        computed.min_width.is_auto(),
        computed.max_width.is_auto(),
        0 <= width,
        ({
            let d = resolve_block_dims(&computed, width, None);
            &&& d.padding.left >= 0
            &&& d.padding.right >= 0
            &&& d.border.left >= 0
            &&& d.border.right >= 0
            &&& margin_of(&computed, width).left >= 0
            &&& margin_of(&computed, width).right >= 0
            &&& d.padding.left + d.padding.right + d.border.left + d.border.right + margin_of(
                &computed,
                width,
            ).left + margin_of(&computed, width).right <= width
        }),
    ensures
        resolve_block_dims(&computed, width, None).margin_box_width() == width,
{
}

} // verus!
