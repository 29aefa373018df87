//! Geometry for the layout tree: everything is in terminal cells.
//!
//! Content, padding, border and margin follow the CSS box model. Coordinates
//! are absolute within the page column.

use vstd::prelude::*;

use crate::cells::{minus, plus};

verus! {

/// A rectangle in cell coordinates.
#[derive(Clone, Copy, PartialEq, Eq, Debug, Structural)]
pub struct Rect {
    pub x: i32,
    pub y: i32,
    pub width: i32,
    pub height: i32,
}

impl Rect {
    /// The column just past the rectangle.
    #[verifier::allow_in_spec]
    pub fn right(self) -> (r: i32)
        returns
            plus(self.x, self.width),
    {
        plus(self.x, self.width)
    }

    /// The row just past the rectangle.
    #[verifier::allow_in_spec]
    pub fn bottom(self) -> (r: i32)
        returns
            plus(self.y, self.height),
    {
        plus(self.y, self.height)
    }

    /// The rectangle grown outwards by `edge` on each side.
    #[verifier::allow_in_spec]
    pub fn expanded_by(self, edge: EdgeSizes) -> (r: Rect)
        returns
            (Rect {
                x: minus(self.x, edge.left),
                y: minus(self.y, edge.top),
                width: plus(plus(self.width, edge.left), edge.right),
                height: plus(plus(self.height, edge.top), edge.bottom),
            }),
    {
        Rect {
            x: minus(self.x, edge.left),
            y: minus(self.y, edge.top),
            width: plus(plus(self.width, edge.left), edge.right),
            height: plus(plus(self.height, edge.top), edge.bottom),
        }
    }
}

/// Four sides, already resolved to cells.
#[derive(Clone, Copy, PartialEq, Eq, Debug, Structural)]
pub struct EdgeSizes {
    pub top: i32,
    pub right: i32,
    pub bottom: i32,
    pub left: i32,
}

impl EdgeSizes {
    /// No edge on any side.
    #[verifier::allow_in_spec]
    pub fn zero() -> (r: EdgeSizes)
        returns
            (EdgeSizes { top: 0, right: 0, bottom: 0, left: 0 }),
    {
        EdgeSizes { top: 0, right: 0, bottom: 0, left: 0 }
    }

    /// The two horizontal sides together.
    #[verifier::allow_in_spec]
    pub fn across(self) -> (r: i32)
        returns
            plus(self.left, self.right),
    {
        plus(self.left, self.right)
    }
}

/// The CSS box model for one layout box, in cells.
#[derive(Clone, Copy, PartialEq, Eq, Debug, Structural)]
pub struct Dimensions {
    pub content: Rect,
    pub padding: EdgeSizes,
    pub border: EdgeSizes,
    pub margin: EdgeSizes,
}

impl Dimensions {
    /// A box with this content rectangle and no edges.
    #[verifier::allow_in_spec]
    pub fn bare(content: Rect) -> (r: Dimensions)
        returns
            (Dimensions {
                content,
                padding: EdgeSizes::zero(),
                border: EdgeSizes::zero(),
                margin: EdgeSizes::zero(),
            }),
    {
        Dimensions {
            content,
            padding: EdgeSizes::zero(),
            border: EdgeSizes::zero(),
            margin: EdgeSizes::zero(),
        }
    }

    #[verifier::allow_in_spec]
    pub fn padding_box(self) -> (r: Rect)
        returns
            self.content.expanded_by(self.padding),
    {
        self.content.expanded_by(self.padding)
    }

    #[verifier::allow_in_spec]
    pub fn border_box(self) -> (r: Rect)
        returns
            self.padding_box().expanded_by(self.border),
    {
        self.padding_box().expanded_by(self.border)
    }

    #[verifier::allow_in_spec]
    pub fn margin_box(self) -> (r: Rect)
        returns
            self.border_box().expanded_by(self.margin),
    {
        self.border_box().expanded_by(self.margin)
    }

    /// Width of the margin box.
    #[verifier::allow_in_spec]
    pub fn margin_box_width(self) -> (r: i32)
        returns
            plus(
                plus(
                    plus(
                        plus(
                            plus(plus(self.content.width, self.padding.left), self.padding.right),
                            self.border.left,
                        ),
                        self.border.right,
                    ),
                    self.margin.left,
                ),
                self.margin.right,
            ),
    {
        let w: i32 = plus(plus(self.content.width, self.padding.left), self.padding.right);
        let w: i32 = plus(plus(w, self.border.left), self.border.right);
        plus(plus(w, self.margin.left), self.margin.right)
    }

    /// Padding and border on the horizontal axis.
    #[verifier::allow_in_spec]
    pub fn inner_edges_h(self) -> (r: i32)
        returns
            plus(
                plus(plus(self.padding.left, self.padding.right), self.border.left),
                self.border.right,
            ),
    {
        plus(
            plus(plus(self.padding.left, self.padding.right), self.border.left),
            self.border.right,
        )
    }

    /// Padding and border on the vertical axis.
    #[verifier::allow_in_spec]
    pub fn inner_edges_v(self) -> (r: i32)
        returns
            plus(
                plus(plus(self.padding.top, self.padding.bottom), self.border.top),
                self.border.bottom,
            ),
    {
        plus(
            plus(plus(self.padding.top, self.padding.bottom), self.border.top),
            self.border.bottom,
        )
    }

    /// The same box with another content rectangle.
    #[verifier::allow_in_spec]
    pub fn with_content(self, content: Rect) -> (r: Dimensions)
        returns
            (Dimensions { content, ..self }),
    {
        Dimensions {
            content,
            padding: self.padding,
            border: self.border,
            margin: self.margin,
        }
    }

    /// The same box with another margin.
    #[verifier::allow_in_spec]
    pub fn with_margin(self, margin: EdgeSizes) -> (r: Dimensions)
        returns
            (Dimensions { margin, ..self }),
    {
        Dimensions {
            content: self.content,
            padding: self.padding,
            border: self.border,
            margin,
        }
    }
}

/// The margin box is as wide as [`Dimensions::margin_box_width`] says, for
/// every box: the two ways of asking cannot disagree.
pub proof fn margin_box_width_is_the_width_of_the_margin_box(d: Dimensions)
    ensures
        d.margin_box_width() == d.margin_box().width,
{
}

/// The box-model rectangles nest: growing a box outwards by edges that are not
/// negative never loses a cell it already had, as long as no side leaves the
/// range of `i32`.
pub proof fn the_boxes_nest(r: Rect, edge: EdgeSizes)
    requires
        edge.top >= 0,
        edge.right >= 0,
        edge.bottom >= 0,
        edge.left >= 0,
        i32::MIN <= r.x - edge.left,
        i32::MIN <= r.y - edge.top,
        r.width >= 0,
        r.height >= 0,
        r.width + edge.left + edge.right <= i32::MAX,
        r.height + edge.top + edge.bottom <= i32::MAX,
        r.x + r.width + edge.right <= i32::MAX,
        r.y + r.height + edge.bottom <= i32::MAX,
    ensures
        ({
            let grown = r.expanded_by(edge);
            &&& grown.x <= r.x
            &&& grown.y <= r.y
            &&& grown.right() == r.right() + edge.right
            &&& grown.bottom() == r.bottom() + edge.bottom
        }),
{
}

} // verus!
