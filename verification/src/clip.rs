//! Clip regions: which document cells a box's content is allowed to reach.
//!
//! Paint, hit-testing and search all read the same rule from here: content the
//! reader cannot see must not be clickable or findable either.
//!
//! When only one axis is clipped, the other one stays genuinely unbounded.

use vstd::prelude::*;

use crate::boxes::{BoxView, LayoutBox};
use crate::cells::{larger, minus, plus, smaller};
use crate::dimensions::Rect;
use crate::text::{char_cells, char_cells_of, chars_of};

verus! {

/// A clip region in document cells: a half-open `[start, end)` range per axis,
/// `None` meaning unbounded.
#[derive(Clone, Copy, PartialEq, Eq, Debug)]
pub struct Clip {
    pub x: Option<(i32, i32)>,
    pub y: Option<(i32, i32)>,
}

/// Intersect a range with `add`, keeping `start <= end` so that an
/// already-empty clip cannot invert into a negative one.
#[verifier::allow_in_spec]
pub fn tighten(current: Option<(i32, i32)>, add: (i32, i32)) -> (r: Option<(i32, i32)>)
    returns
        (match current {
            None => Some((add.0, larger(add.1, add.0))),
            Some(now) => {
                let start = larger(now.0, add.0);
                Some((start, larger(smaller(now.1, add.1), start)))
            },
        }),
{
    match current {
        None => Some((add.0, larger(add.1, add.0))),
        Some(now) => {
            let start: i32 = larger(now.0, add.0);
            Some((start, larger(smaller(now.1, add.1), start)))
        },
    }
}

/// One axis of [`Clip::apply`]: `(origin, length)` trimmed to the range.
#[verifier::allow_in_spec]
pub fn trim_range(range: Option<(i32, i32)>, origin: i32, length: i32) -> (r: (i32, i32))
    returns
        (match range {
            None => (origin, length),
            Some(bounds) => {
                let low = larger(origin, bounds.0);
                let high = smaller(plus(origin, length), bounds.1);
                (low, larger(minus(high, low), 0))
            },
        }),
{
    match range {
        None => (origin, length),
        Some(bounds) => {
            let low: i32 = larger(origin, bounds.0);
            let high: i32 = smaller(plus(origin, length), bounds.1);
            (low, larger(minus(high, low), 0))
        },
    }
}

/// Is `v` in the range?
#[verifier::allow_in_spec]
pub fn range_holds(range: Option<(i32, i32)>, v: i32) -> (r: bool)
    returns
        (match range {
            None => true,
            Some(bounds) => v >= bounds.0 && v < bounds.1,
        }),
{
    match range {
        None => true,
        Some(bounds) => v >= bounds.0 && v < bounds.1,
    }
}

/// Has the range no cell in it?
#[verifier::allow_in_spec]
pub fn range_is_empty(range: Option<(i32, i32)>) -> (r: bool)
    returns
        (match range {
            None => false,
            Some(bounds) => bounds.1 <= bounds.0,
        }),
{
    match range {
        None => false,
        Some(bounds) => bounds.1 <= bounds.0,
    }
}

/// What [`Clip::trim_text`] keeps of `s[i..]`: `kept` has been kept so far,
/// starting at column `at`, and the next character starts at column `col`.
/// `rides` says that the last character of any width was kept, and so are the
/// marks on it.
pub open spec fn kept_text(
    s: Seq<char>,
    left: i32,
    right: i32,
    i: int,
    col: i32,
    at: i32,
    kept: Seq<char>,
    rides: bool,
) -> Option<(i32, Seq<char>)>
    decreases s.len() - i,
{
    let done = if kept.len() > 0 {
        Some((at, kept))
    } else {
        None
    };
    if i >= s.len() {
        done
    } else {
        let w = char_cells_of(s[i]);
        if w == 0 {
            let kept2 = if rides {
                kept.push(s[i])
            } else {
                kept
            };
            kept_text(s, left, right, i + 1, col, at, kept2, rides)
        } else if col >= right {
            done
        } else if col >= left && plus(col, w) <= right {
            let at2 = if kept.len() > 0 {
                at
            } else {
                col
            };
            kept_text(s, left, right, i + 1, plus(col, w), at2, kept.push(s[i]), true)
        } else {
            kept_text(s, left, right, i + 1, plus(col, w), at, kept, false)
        }
    }
}

impl Clip {
    /// The whole page: what the root paints into.
    #[verifier::allow_in_spec]
    pub fn none() -> (r: Clip)
        returns
            (Clip { x: None, y: None }),
    {
        Clip { x: None, y: None }
    }

    /// A clip with explicit ranges.
    #[verifier::allow_in_spec]
    pub fn ranges(x: Option<(i32, i32)>, y: Option<(i32, i32)>) -> (r: Clip)
        returns
            (Clip { x, y }),
    {
        Clip { x, y }
    }

    /// The clip that applies to `b`'s content and descendants: this clip,
    /// narrowed to `b`'s **padding box** on each axis whose `overflow` is not
    /// `visible`. A box's own background and border are not narrowed by it.
    pub open spec fn inside_of(self, b: BoxView) -> Clip {
        let pad = b.dimensions.padding_box();
        Clip {
            x: if b.computed.overflow_x.clips() {
                tighten(self.x, (pad.x, pad.right()))
            } else {
                self.x
            },
            y: if b.computed.overflow_y.clips() {
                tighten(self.y, (pad.y, pad.bottom()))
            } else {
                self.y
            },
        }
    }

    /// See [`inside_of`](Self::inside_of).
    pub fn inside(self, b: &LayoutBox) -> (r: Clip)
        ensures
            r == self.inside_of(b@),
    {
        let clip_x: bool = b.computed.overflow_x.clips();
        let clip_y: bool = b.computed.overflow_y.clips();
        if !clip_x && !clip_y {
            return self;
        }
        let pad: Rect = b.dimensions.padding_box();
        Clip {
            x: if clip_x {
                tighten(self.x, (pad.x, pad.right()))
            } else {
                self.x
            },
            y: if clip_y {
                tighten(self.y, (pad.y, pad.bottom()))
            } else {
                self.y
            },
        }
    }

    /// Nothing can survive this clip: the region has no area on some axis.
    #[verifier::allow_in_spec]
    pub fn is_empty(self) -> (r: bool)
        returns
            range_is_empty(self.x) || range_is_empty(self.y),
    {
        range_is_empty(self.x) || range_is_empty(self.y)
    }

    /// `rect` trimmed to the visible region. A rectangle clipped away entirely
    /// comes back with zero width or height, never with negative sides.
    #[verifier::allow_in_spec]
    pub fn apply(self, rect: Rect) -> (r: Rect)
        returns
            (Rect {
                x: trim_range(self.x, rect.x, rect.width).0,
                y: trim_range(self.y, rect.y, rect.height).0,
                width: trim_range(self.x, rect.x, rect.width).1,
                height: trim_range(self.y, rect.y, rect.height).1,
            }),
    {
        let across: (i32, i32) = trim_range(self.x, rect.x, rect.width);
        let down: (i32, i32) = trim_range(self.y, rect.y, rect.height);
        Rect { x: across.0, y: down.0, width: across.1, height: down.1 }
    }

    /// Is this single cell visible?
    #[verifier::allow_in_spec]
    pub fn contains(self, x: i32, y: i32) -> (r: bool)
        returns
            range_holds(self.x, x) && range_holds(self.y, y),
    {
        range_holds(self.x, x) && range_holds(self.y, y)
    }

    /// Is any of document row `y` visible?
    #[verifier::allow_in_spec]
    pub fn shows_row(self, y: i32) -> (r: bool)
        returns
            range_holds(self.y, y),
    {
        range_holds(self.y, y)
    }

    /// What is left of a one-row text run that starts at (`x`, `y`).
    pub open spec fn trimmed_text(self, x: i32, y: i32, text: Seq<char>) -> Option<(i32, Seq<char>)> {
        if !self.shows_row(y) {
            None
        } else {
            match self.x {
                None => Some((x, text)),
                Some(bounds) => kept_text(
                    text,
                    bounds.0,
                    bounds.1,
                    0,
                    x,
                    x,
                    Seq::empty(),
                    false,
                ),
            }
        }
    }

    /// Trim a one-row text run starting at (`x`, `y`) to the cells this clip
    /// leaves visible, returning its new origin and text, `None` when nothing
    /// survives.
    ///
    /// Truncation is by cells, from either end. A wide glyph straddling an
    /// edge is dropped rather than half-drawn, and combining marks go with the
    /// character they modify.
    pub fn trim_text(self, x: i32, y: i32, text: &str) -> (r: Option<(i32, String)>)
        ensures
            (match r {
                Some(kept) => self.trimmed_text(x, y, text@) == Some((kept.0, kept.1@)),
                None => self.trimmed_text(x, y, text@) == None::<(i32, Seq<char>)>,
            }),
    {
        if !self.shows_row(y) {
            return None;
        }
        let (left, right): (i32, i32) = match self.x {
            None => {
                return Some((x, text.to_owned()));
            },
            Some(bounds) => bounds,
        };
        let chars: Vec<char> = chars_of(text);
        let mut out: String = String::new();
        let mut any: bool = false;
        let mut at: i32 = x;
        let mut col: i32 = x;
        let mut rides: bool = false;
        let ghost goal = kept_text(text@, left, right, 0, x, x, Seq::empty(), false);
        let mut i: usize = 0;
        while i < chars.len()
            invariant_except_break
                goal == kept_text(text@, left, right, i as int, col, at, out@, rides),
            invariant
                i <= chars@.len(),
                chars@ == text@,
                any == (out@.len() > 0),
            ensures
                goal == (if out@.len() > 0 {
                    Some((at, out@))
                } else {
                    None
                }),
            decreases chars@.len() - i,
        {
            let c: char = chars[i];
            let w: i32 = char_cells(c);
            if w == 0 {
                if rides {
                    out.push(c);
                    any = true;
                }
            } else if col >= right {
                break ;
            } else {
                rides = col >= left && plus(col, w) <= right;
                if rides {
                    if !any {
                        at = col;
                    }
                    out.push(c);
                    any = true;
                }
                col = plus(col, w);
            }
            i += 1;
        }
        if any {
            Some((at, out))
        } else {
            None
        }
    }

    /// Does a box put anything on screen under this clip? A box without area
    /// is judged by its origin.
    pub open spec fn reveals(self, b: BoxView) -> bool {
        let rect = b.dimensions.border_box();
        if rect.width <= 0 || rect.height <= 0 {
            self.contains(rect.x, rect.y)
        } else {
            self.apply(rect).width > 0 && self.apply(rect).height > 0
        }
    }

    /// See [`reveals`](Self::reveals).
    pub fn shows(self, b: &LayoutBox) -> (r: bool)
        ensures
            r == self.reveals(b@),
    {
        let rect: Rect = b.dimensions.border_box();
        if rect.width <= 0 || rect.height <= 0 {
            return self.contains(rect.x, rect.y);
        }
        let visible: Rect = self.apply(rect);
        visible.width > 0 && visible.height > 0
    }
}

/// A clip only ever narrows: a cell that is visible inside a box was visible
/// outside it.
pub proof fn clips_only_narrow(clip: Clip, b: BoxView, x: i32, y: i32)
    ensures
        clip.inside_of(b).contains(x, y) ==> clip.contains(x, y),
        clip.is_empty() ==> clip.inside_of(b).is_empty(),
{
}

/// A clip is empty exactly when it shows no cell.
pub proof fn an_empty_clip_shows_nothing(clip: Clip)
    ensures
        clip.is_empty() <==> forall|x: i32, y: i32| !#[trigger] clip.contains(x, y),
{
    if !clip.is_empty() {
        let x = match clip.x {
            Some(bounds) => bounds.0,
            None => 0,
        };
        let y = match clip.y {
            Some(bounds) => bounds.0,
            None => 0,
        };
        assert(clip.contains(x, y));
    }
}

/// Trimming is never negative, never grows a rectangle that has an area, and
/// keeps it inside the clip.
pub proof fn trimming_only_removes(clip: Clip, rect: Rect)
    requires
        rect.width >= 0,
        rect.height >= 0,
        rect.x + rect.width <= i32::MAX,
        rect.y + rect.height <= i32::MAX,
    ensures
        0 <= clip.apply(rect).width <= rect.width,
        0 <= clip.apply(rect).height <= rect.height,
        clip.apply(rect).width > 0 ==> rect.x <= clip.apply(rect).x && clip.apply(rect).right()
            <= rect.right() && range_holds(clip.x, clip.apply(rect).x),
        clip.apply(rect).height > 0 ==> rect.y <= clip.apply(rect).y && clip.apply(rect).bottom()
            <= rect.bottom() && range_holds(clip.y, clip.apply(rect).y),
        clip.apply(clip.apply(rect)) == clip.apply(rect),
{
}

/// The unbounded clip changes nothing.
pub proof fn the_whole_page_is_no_clip(rect: Rect, x: i32, y: i32, text: Seq<char>)
    ensures
        Clip::none().apply(rect) == rect,
        Clip::none().contains(x, y),
        !Clip::none().is_empty(),
        Clip::none().trimmed_text(x, y, text) == Some((x, text)),
{
}

/// Marks at the end of a text all stay, or all go.
proof fn marks_at_the_end(
    s: Seq<char>,
    left: i32,
    right: i32,
    i: int,
    col: i32,
    at: i32,
    kept: Seq<char>,
    rides: bool,
)
    requires
        0 <= i <= s.len(),
        forall|j: int| i <= j < s.len() ==> char_cells_of(#[trigger] s[j]) == 0,
        rides ==> kept.len() > 0,
    ensures
        kept_text(s, left, right, i, col, at, kept, rides) == (if kept.len() > 0 {
            Some(
                (
                    at,
                    if rides {
                        kept + s.skip(i)
                    } else {
                        kept
                    },
                ),
            )
        } else {
            None
        }),
    decreases s.len() - i,
{
    if i < s.len() {
        let next = if rides {
            kept.push(s[i])
        } else {
            kept
        };
        marks_at_the_end(s, left, right, i + 1, col, at, next, rides);
        assert(kept.push(s[i]) + s.skip(i + 1) =~= kept + s.skip(i));
    } else {
        assert(kept + s.skip(i) =~= kept);
    }
}

/// Combining marks ride along with the character they modify, and are dropped
/// with it.
pub proof fn marks_go_with_their_character(clip: Clip, x: i32, y: i32, c: char, marks: Seq<char>)
    requires
        char_cells_of(c) > 0,
        forall|j: int| 0 <= j < marks.len() ==> char_cells_of(#[trigger] marks[j]) == 0,
    ensures
        clip.trimmed_text(x, y, seq![c] + marks) == (match clip.trimmed_text(x, y, seq![c]) {
            Some(kept) => Some((kept.0, seq![c] + marks)),
            None => None,
        }),
{
    if clip.shows_row(y) && clip.x is Some {
        let (left, right) = clip.x->0;
        let s = seq![c] + marks;
        let none = Seq::<char>::empty();
        let w = char_cells_of(c);
        let fits = x < right && x >= left && plus(x, w) <= right;
        assert(s.skip(1) =~= marks);
        assert(none.push(c) =~= seq![c]);
        if x < right {
            let kept = if fits {
                seq![c]
            } else {
                none
            };
            assert forall|j: int| 1 <= j < s.len() implies char_cells_of(#[trigger] s[j]) == 0 by {
                assert(s[j] == marks[j - 1]);
            }
            marks_at_the_end(s, left, right, 1, plus(x, w), x, kept, fits);
            marks_at_the_end(seq![c], left, right, 1, plus(x, w), x, kept, fits);
            assert(seq![c].skip(1) =~= none);
            assert(kept + none =~= kept);
        }
    }
}

} // verus!
