//! What one terminal cell can look like.

use vstd::prelude::*;

verus! {

/// A colour a terminal can be asked for.
#[derive(Clone, Copy, PartialEq, Eq, Debug, Structural)]
pub enum Color {
    /// Whatever the terminal uses.
    Default,
    /// One of the numbered palette colours.
    Ansi(u8),
    Rgb(u8, u8, u8),
}

/// Text attributes.
#[derive(Clone, Copy, PartialEq, Eq, Debug, Structural)]
pub struct Attrs {
    pub bold: bool,
    pub italic: bool,
    pub underline: bool,
}

impl Attrs {
    /// No attribute.
    #[verifier::allow_in_spec]
    pub fn none() -> (r: Attrs)
        returns
            (Attrs { bold: false, italic: false, underline: false }),
    {
        Attrs { bold: false, italic: false, underline: false }
    }

    /// Every attribute of either.
    #[verifier::allow_in_spec]
    pub fn union(self, other: Attrs) -> (r: Attrs)
        returns
            (Attrs {
                bold: self.bold || other.bold,
                italic: self.italic || other.italic,
                underline: self.underline || other.underline,
            }),
    {
        Attrs {
            bold: self.bold || other.bold,
            italic: self.italic || other.italic,
            underline: self.underline || other.underline,
        }
    }

    /// Does this hold every attribute of `other`?
    #[verifier::allow_in_spec]
    pub fn contains(self, other: Attrs) -> (r: bool)
        returns
            ((other.bold ==> self.bold) && (other.italic ==> self.italic) && (other.underline
                ==> self.underline)),
    {
        (!other.bold || self.bold) && (!other.italic || self.italic) && (!other.underline
            || self.underline)
    }
}

/// Colours and attributes of a run of cells.
#[derive(Clone, Copy, PartialEq, Eq, Debug, Structural)]
pub struct Style {
    pub fg: Color,
    pub bg: Color,
    pub attrs: Attrs,
}

impl Style {
    /// The terminal's own colours and no attribute.
    #[verifier::allow_in_spec]
    pub fn plain() -> (r: Style)
        returns
            (Style { fg: Color::Default, bg: Color::Default, attrs: Attrs::none() }),
    {
        Style { fg: Color::Default, bg: Color::Default, attrs: Attrs::none() }
    }
}

impl Default for Style {
    fn default() -> (r: Style)
        ensures
            r == Style::plain(),
    {
        Style::plain()
    }
}

} // verus!
