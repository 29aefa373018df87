//! Grid containers: row-major placement in a bounded grid, and tracks in whole
//! cells.

use vstd::prelude::*;

use crate::blocks::{in_source_order, BlockHeight, BoxArgs, Recipe};
use crate::boxes::{in_range, BoxId, GridLayout, GridView};
use crate::boxmodel::{flow_delta, is_atomic_inline, is_out_of_flow, is_shifted, resolve_block_dims};
use crate::cells::{count, fit, larger, minus, plus, smaller, times, total, total_of};
use crate::context::Ctx;
use crate::dimensions::{Dimensions, Rect};
use crate::dom::{NodeData, NodeId};
use crate::engine::{Canvas, Engine};
use crate::style::{
    nearest, ComputedStyle, GridMax, GridMin, GridPlacement, GridTrack, Length,
};
use crate::text::{blank, is_blank, same};

verus! {

/// The most tracks a grid has on either axis.
pub const MAX_TRACKS: usize = 256;

/// `a - b`, or zero.
#[verifier::allow_in_spec]
pub fn less(a: usize, b: usize) -> (r: usize)
    returns
        (if a > b {
            (a - b) as usize
        } else {
            0
        }),
{
    if a > b {
        a - b
    } else {
        0
    }
}

#[verifier::allow_in_spec]
pub fn least(a: usize, b: usize) -> (r: usize)
    returns
        (if a <= b {
            a
        } else {
            b
        }),
{
    if a <= b {
        a
    } else {
        b
    }
}

#[verifier::allow_in_spec]
pub fn most(a: usize, b: usize) -> (r: usize)
    returns
        (if a >= b {
            a
        } else {
            b
        }),
{
    if a >= b {
        a
    } else {
        b
    }
}

/// One more, or one less, of something being counted.
#[verifier::allow_in_spec]
pub fn one_more(n: usize) -> (r: usize)
    returns
        (if n == usize::MAX {
            n
        } else {
            (n + 1) as usize
        }),
{
    if n == usize::MAX {
        n
    } else {
        n + 1
    }
}

/// A start line and a span as a track and a count, before they are bounded.
#[verifier::allow_in_spec]
pub fn asked_place(start: GridPlacement, end: GridPlacement) -> (r: (Option<usize>, usize))
    returns
        (match (start, end) {
            (GridPlacement::Line(a), GridPlacement::Line(b)) => if b > a {
                (Some(less(a, 1)), less(b, a))
            } else {
                (Some(less(a, 1)), 1)
            },
            (GridPlacement::Line(a), GridPlacement::Span(n)) => (Some(less(a, 1)), n),
            (GridPlacement::Line(a), GridPlacement::Auto) => (Some(less(a, 1)), 1),
            (GridPlacement::Span(n), GridPlacement::Line(b)) => (Some(less(less(b, 1), n)), n),
            (GridPlacement::Auto, GridPlacement::Line(b)) => (Some(less(b, 2)), 1),
            (GridPlacement::Span(n), _) => (None, n),
            (GridPlacement::Auto, GridPlacement::Span(n)) => (None, n),
            (GridPlacement::Auto, GridPlacement::Auto) => (None, 1),
        }),
{
    match (start, end) {
        (GridPlacement::Line(a), GridPlacement::Line(b)) => if b > a {
            (Some(less(a, 1)), less(b, a))
        } else {
            (Some(less(a, 1)), 1)
        },
        (GridPlacement::Line(a), GridPlacement::Span(n)) => (Some(less(a, 1)), n),
        (GridPlacement::Line(a), GridPlacement::Auto) => (Some(less(a, 1)), 1),
        (GridPlacement::Span(n), GridPlacement::Line(b)) => (Some(less(less(b, 1), n)), n),
        (GridPlacement::Auto, GridPlacement::Line(b)) => (Some(less(b, 2)), 1),
        (GridPlacement::Span(n), _) => (None, n),
        (GridPlacement::Auto, GridPlacement::Span(n)) => (None, n),
        (GridPlacement::Auto, GridPlacement::Auto) => (None, 1),
    }
}

/// Where an item asks to be on one axis of `limit` tracks: a track to start at,
/// if it names one, and how many it covers. A named start bounds the span to
/// what is left.
#[verifier::allow_in_spec]
pub fn grid_axis(pair: (GridPlacement, GridPlacement), limit: usize) -> (r: (Option<usize>, usize))
    returns
        ({
            let asked = asked_place(pair.0, pair.1);
            let span = least(asked.1, most(limit, 1));
            match asked.0 {
                Some(n) => {
                    let at = least(n, less(limit, 1));
                    (Some(at), most(least(span, less(limit, at)), 1))
                },
                None => (None, span),
            }
        }),
{
    let asked: (Option<usize>, usize) = asked_place(pair.0, pair.1);
    let span: usize = least(asked.1, most(limit, 1));
    match asked.0 {
        Some(n) => {
            let at: usize = least(n, less(limit, 1));
            (Some(at), most(least(span, less(limit, at)), 1))
        },
        None => (None, span),
    }
}

/// One grid item and the rectangle of tracks it covers.
#[derive(Clone, Copy, PartialEq, Eq, Debug, Structural)]
pub struct GridItem {
    pub child: NodeId,
    pub row: usize,
    pub col: usize,
    pub rspan: usize,
    pub cspan: usize,
}

/// Does an item cover this cell of the grid?
pub open spec fn covers(p: GridItem, r: int, c: int) -> bool {
    p.row <= r < p.row + p.rspan && r < MAX_TRACKS && p.col <= c < p.col + p.cspan
}

/// Is this cell of the grid taken?
pub open spec fn taken(placed: Seq<GridItem>, r: int, c: int) -> bool {
    exists|k: int| 0 <= k < placed.len() && covers(#[trigger] placed[k], r, c)
}

/// Is a whole rectangle of the grid free?
pub open spec fn grid_free(placed: Seq<GridItem>, row: int, col: int, rs: int, cs: int) -> bool {
    forall|r: int, c: int|
        row <= r < row + rs && r < MAX_TRACKS && col <= c < col + cs ==> !#[trigger] taken(
            placed,
            r,
            c,
        )
}

/// The first free place in row `r` from column `c` on.
pub open spec fn find_in_row(
    placed: Seq<GridItem>,
    row: Option<usize>,
    col: Option<usize>,
    rs: usize,
    cs: usize,
    columns: usize,
    r: usize,
    c: int,
) -> Option<(usize, usize)>
    decreases columns - c,
{
    if c >= columns {
        None
    } else {
        let rr = match row {
            Some(n) => n,
            None => r,
        };
        let cc = match col {
            Some(n) => n,
            None => c as usize,
        };
        if cc + cs <= columns && grid_free(placed, rr as int, cc as int, rs as int, cs as int) {
            Some((rr, cc))
        } else {
            find_in_row(placed, row, col, rs, cs, columns, r, c + 1)
        }
    }
}

/// The first free place from row `r` on, row by row.
pub open spec fn find_from(
    placed: Seq<GridItem>,
    row: Option<usize>,
    col: Option<usize>,
    rs: usize,
    cs: usize,
    columns: usize,
    r: int,
) -> Option<(usize, usize)>
    decreases MAX_TRACKS - r,
{
    if r >= MAX_TRACKS {
        None
    } else {
        match find_in_row(placed, row, col, rs, cs, columns, r as usize, 0) {
            Some(at) => Some(at),
            None => find_from(placed, row, col, rs, cs, columns, r + 1),
        }
    }
}

/// Where the next item goes.
pub open spec fn placed_next(
    placed: Seq<GridItem>,
    child: NodeId,
    style: ComputedStyle,
    columns: usize,
) -> GridItem {
    let (col, cspan) = grid_axis(style.grid_column, columns);
    let (row, rspan) = grid_axis(style.grid_row, MAX_TRACKS);
    match (row, col) {
        (Some(r), Some(c)) => GridItem { child, row: r, col: c, rspan, cspan },
        _ => {
            let (r, c) = match find_from(placed, row, col, rspan, cspan, columns, 0) {
                Some(at) => at,
                None => (255usize, 0usize),
            };
            GridItem {
                child,
                row: match row {
                    Some(n) => n,
                    None => r,
                },
                col: match col {
                    Some(n) => n,
                    None => c,
                },
                rspan,
                cspan,
            }
        },
    }
}

/// One axis of tracks and what its lengths resolve against.
#[derive(Clone, Copy, PartialEq, Eq, Debug)]
pub enum GridTrackAxis {
    Columns { width: i32 },
    Rows { width: i32, height: Option<i32> },
}

impl GridTrackAxis {
    #[verifier::allow_in_spec]
    pub fn available(self) -> (r: i32)
        returns
            (match self {
                GridTrackAxis::Columns { width } => width,
                GridTrackAxis::Rows { height, .. } => match height {
                    Some(h) => h,
                    None => 0,
                },
            }),
    {
        match self {
            GridTrackAxis::Columns { width } => width,
            GridTrackAxis::Rows { height, .. } => match height {
                Some(h) => h,
                None => 0,
            },
        }
    }

    #[verifier::allow_in_spec]
    pub fn length(self, value: Length) -> (r: i32)
        returns
            (match self {
                GridTrackAxis::Columns { width } => value.to_cells_h(width),
                GridTrackAxis::Rows { width, height } => if value.is_percent() {
                    match height {
                        Some(h) => value.to_lines(h),
                        None => 0,
                    }
                } else {
                    value.to_cells_v(width)
                },
            }),
    {
        match self {
            GridTrackAxis::Columns { width } => value.to_cells_h(width),
            GridTrackAxis::Rows { width, height } => if value.is_percent() {
                match height {
                    Some(h) => value.to_lines(h),
                    None => 0,
                }
            } else {
                value.to_cells_v(width)
            },
        }
    }
}

/// Does a row of this track grow with what is in it?
#[verifier::allow_in_spec]
pub fn grid_row_accepts_content(track: GridTrack, definite_height: bool) -> (r: bool)
    returns
        (match track {
            GridTrack::Auto => true,
            GridTrack::MinMax(GridMin::Auto, _) => true,
            GridTrack::MinMax(_, GridMax::Fr(_)) => !definite_height,
            GridTrack::MinMax(_, _) => false,
            GridTrack::Fr(_) => !definite_height,
            GridTrack::Fixed(len) => !definite_height && len.is_percent(),
        }),
{
    match track {
        GridTrack::Auto => true,
        GridTrack::MinMax(GridMin::Auto, _) => true,
        GridTrack::MinMax(_, GridMax::Fr(_)) => !definite_height,
        GridTrack::MinMax(_, _) => false,
        GridTrack::Fr(_) => !definite_height,
        GridTrack::Fixed(len) => !definite_height && len.is_percent(),
    }
}

/// Does a column of this track grow with what is in it?
#[verifier::allow_in_spec]
pub fn grid_column_accepts_content(track: GridTrack) -> (r: bool)
    returns
        (match track {
            GridTrack::Auto => true,
            GridTrack::MinMax(GridMin::Auto, _) => true,
            _ => false,
        }),
{
    match track {
        GridTrack::Auto => true,
        GridTrack::MinMax(GridMin::Auto, _) => true,
        _ => false,
    }
}

/// What a track starts from.
#[verifier::allow_in_spec]
pub fn track_base(track: GridTrack, axis: GridTrackAxis) -> (r: i32)
    returns
        (match track {
            GridTrack::Fixed(len) => larger(axis.length(len), 0),
            GridTrack::MinMax(GridMin::Fixed(len), _) => larger(axis.length(len), 0),
            _ => 0,
        }),
{
    match track {
        GridTrack::Fixed(len) => larger(axis.length(len), 0),
        GridTrack::MinMax(GridMin::Fixed(len), _) => larger(axis.length(len), 0),
        _ => 0,
    }
}

/// What `n` tracks leave of an axis for themselves, gaps taken out.
pub open spec fn room_for_tracks(axis: GridTrackAxis, gap: i32, n: int) -> i32 {
    larger(minus(axis.available(), times(gap, fit(if n > 0 {
        n - 1
    } else {
        0
    }))), 0)
}

fn track_room(axis: GridTrackAxis, gap: i32, n: usize) -> (r: i32)
    ensures
        r == room_for_tracks(axis, gap, n as int),
{
    larger(minus(axis.available(), times(gap, count(less(n, 1)))), 0)
}

/// The tracks before anything is put in them.
pub open spec fn tracks_resolved(tracks: Seq<GridTrack>, axis: GridTrackAxis, gap: i32) -> Seq<i32> {
    tracks.map_values(
        |t: GridTrack|
            if axis.available() > 0 {
                smaller(
                    track_base(t, axis),
                    room_for_tracks(axis, gap, tracks.len() as int),
                )
            } else {
                track_base(t, axis)
            },
    )
}

/// See [`tracks_resolved`].
pub fn resolve_grid_tracks(tracks: &Vec<GridTrack>, axis: GridTrackAxis, gap: i32) -> (r: Vec<i32>)
    ensures
        r@ == tracks_resolved(tracks@, axis, gap),
        r@.len() == tracks@.len(),
{
    let free: i32 = track_room(axis, gap, tracks.len());
    let mut out: Vec<i32> = Vec::new();
    let mut i: usize = 0;
    while i < tracks.len()
        invariant
            free == room_for_tracks(axis, gap, tracks@.len() as int),
            i <= tracks@.len(),
            out@ =~= tracks_resolved(tracks@, axis, gap).take(i as int),
        decreases tracks@.len() - i,
    {
        let base: i32 = track_base(tracks[i], axis);
        out.push(
            if axis.available() > 0 {
                smaller(base, free)
            } else {
                base
            },
        );
        i += 1;
    }
    proof {
        assert(out@ =~= tracks_resolved(tracks@, axis, gap));
    }
    out
}

/// A track's fraction of the free space, in thousandths.
#[verifier::allow_in_spec]
pub fn fraction(track: GridTrack) -> (r: u32)
    returns
        (match track {
            GridTrack::Fr(n) => n,
            GridTrack::MinMax(_, GridMax::Fr(n)) => n,
            _ => 0,
        }),
{
    match track {
        GridTrack::Fr(n) => n,
        GridTrack::MinMax(_, GridMax::Fr(n)) => n,
        _ => 0,
    }
}

/// The fractions of the first `n` tracks together.
pub open spec fn fractions(tracks: Seq<GridTrack>, n: int) -> int
    decreases n,
{
    if n <= 0 {
        0
    } else {
        fractions(tracks, n - 1) + fraction(tracks[n - 1])
    }
}

/// The free space handed to the tracks from the `i`th on, each its share to
/// the nearest cell and never more than is left.
pub open spec fn shared_out(
    tracks: Seq<GridTrack>,
    used: Seq<i32>,
    free: i32,
    all: int,
    i: int,
    left: i32,
) -> Seq<i32>
    decreases tracks.len() - i,
{
    if i >= tracks.len() {
        used
    } else {
        let f = fraction(tracks[i]);
        let add = if f == 0 {
            0
        } else {
            smaller(fit(nearest(free * f, all)), left)
        };
        shared_out(
            tracks,
            used.update(i, plus(used[i], add)),
            free,
            all,
            i + 1,
            minus(left, add),
        )
    }
}

/// A track kept within its `minmax()`.
#[verifier::allow_in_spec]
pub fn track_bounded(track: GridTrack, axis: GridTrackAxis, used: i32) -> (r: i32)
    returns
        (match track {
            GridTrack::MinMax(min, GridMax::Fixed(max)) => {
                let floor = match min {
                    GridMin::Fixed(value) => larger(axis.length(value), 0),
                    GridMin::Auto => 0,
                };
                larger(smaller(used, larger(axis.length(max), floor)), floor)
            },
            _ => larger(used, 0),
        }),
{
    match track {
        GridTrack::MinMax(min, GridMax::Fixed(max)) => {
            let floor: i32 = match min {
                GridMin::Fixed(value) => larger(axis.length(value), 0),
                GridMin::Auto => 0,
            };
            larger(smaller(used, larger(axis.length(max), floor)), floor)
        },
        _ => larger(used, 0),
    }
}

/// The final tracks: the free space handed out by fraction, and every track
/// kept within its bounds.
pub open spec fn tracks_fitted(
    tracks: Seq<GridTrack>,
    used: Seq<i32>,
    axis: GridTrackAxis,
    gap: i32,
) -> Seq<i32> {
    let free = larger(
        minus(room_for_tracks(axis, gap, used.len() as int), total(used)),
        0,
    );
    let all = fractions(tracks, tracks.len() as int);
    let grown = if all > 0 {
        shared_out(tracks, used, free, all, 0, free)
    } else {
        used
    };
    Seq::new(tracks.len(), |i: int| track_bounded(tracks[i], axis, grown[i]))
}

fn share_cells(free: i32, f: u32, all: u64) -> (r: i32)
    requires
        free >= 0,
        all > 0,
    ensures
        r == fit(nearest(free * f, all as int)),
{
    proof {
        assert(0 <= free * f <= 0x7fff_ffff * 0xffff_ffff) by (nonlinear_arith)
            requires
                0 <= free <= 0x7fff_ffff,
                0 <= f <= 0xffff_ffff,
        ;
    }
    let n: i128 = free as i128 * f as i128;
    let d: i128 = all as i128;
    let q: i128 = (2 * n + d) / (2 * d);
    crate::cells::fit_wide(q)
}

/// See [`tracks_fitted`].
pub fn fit_grid_tracks(
    tracks: &Vec<GridTrack>,
    used: Vec<i32>,
    axis: GridTrackAxis,
    gap: i32,
) -> (r: Vec<i32>)
    requires
        tracks@.len() == used@.len(),
        tracks@.len() <= MAX_TRACKS,
    ensures
        r@ == tracks_fitted(tracks@, used@, axis, gap),
        r@.len() == tracks@.len(),
{
    let ghost start = used@;
    proof {
        assert(used@.subrange(0, used@.len() as int) =~= used@);
    }
    let free: i32 = larger(
        minus(track_room(axis, gap, used.len()), total_of(&used, 0, used.len())),
        0,
    );
    let mut all: u64 = 0;
    let mut i: usize = 0;
    while i < tracks.len()
        invariant
            tracks@.len() <= MAX_TRACKS,
            i <= tracks@.len(),
            all == fractions(tracks@, i as int),
            all <= i * 0xffff_ffff,
        decreases tracks@.len() - i,
    {
        all = all + fraction(tracks[i]) as u64;
        i += 1;
    }
    let mut grown: Vec<i32> = used;
    if all > 0 {
        let ghost goal = shared_out(tracks@, start, free, all as int, 0, free);
        let mut left: i32 = free;
        let mut i: usize = 0;
        while i < tracks.len()
            invariant
                free >= 0,
                all > 0,
                tracks@.len() == grown@.len(),
                i <= tracks@.len(),
                goal == shared_out(tracks@, grown@, free, all as int, i as int, left),
            decreases tracks@.len() - i,
        {
            let f: u32 = fraction(tracks[i]);
            let add: i32 = if f == 0 {
                0
            } else {
                smaller(share_cells(free, f, all), left)
            };
            let now: i32 = plus(grown[i], add);
            grown.set(i, now);
            left = minus(left, add);
            i += 1;
        }
    }
    let ghost want = tracks_fitted(tracks@, start, axis, gap);
    let mut out: Vec<i32> = Vec::new();
    let mut i: usize = 0;
    while i < tracks.len()
        invariant
            tracks@.len() == grown@.len(),
            i <= tracks@.len(),
            want.len() == tracks@.len(),
            forall|j: int|
                0 <= j < tracks@.len() ==> #[trigger] want[j] == track_bounded(
                    tracks@[j],
                    axis,
                    grown@[j],
                ),
            out@ =~= want.take(i as int),
        decreases tracks@.len() - i,
    {
        out.push(track_bounded(tracks[i], axis, grown[i]));
        i += 1;
    }
    proof {
        assert(out@ =~= want);
    }
    out
}

/// Where track `at` starts: the tracks before it and a gap after each, from
/// the `i`th on.
pub open spec fn offset_from(tracks: Seq<i32>, at: int, gap: i32, i: int, acc: i32) -> i32
    decreases at - i,
{
    if i >= at || i >= tracks.len() {
        acc
    } else {
        offset_from(tracks, at, gap, i + 1, plus(plus(acc, tracks[i]), gap))
    }
}

/// See [`offset_from`].
pub fn grid_offset(tracks: &Vec<i32>, at: usize, gap: i32) -> (r: i32)
    ensures
        r == offset_from(tracks@, at as int, gap, 0, 0),
{
    let mut acc: i32 = 0;
    let mut i: usize = 0;
    while i < at && i < tracks.len()
        invariant
            i <= tracks@.len(),
            offset_from(tracks@, at as int, gap, 0, 0) == offset_from(
                tracks@,
                at as int,
                gap,
                i as int,
                acc,
            ),
        decreases tracks@.len() - i,
    {
        acc = plus(plus(acc, tracks[i]), gap);
        i += 1;
    }
    acc
}

/// The part of `n` tracks that `span` of them from `at` on are.
pub open spec fn span_range(n: int, at: int, span: int) -> (int, int) {
    let from = if at <= n {
        at
    } else {
        n
    };
    (
        from,
        if from + span <= n {
            from + span
        } else {
            n
        },
    )
}

/// How long `span` tracks from `at` on are, with the gaps between them.
pub open spec fn span_of(tracks: Seq<i32>, at: int, span: int, gap: i32) -> i32 {
    let (from, to) = span_range(tracks.len() as int, at, span);
    plus(
        total(tracks.subrange(from, to)),
        times(gap, fit(if span > 0 {
            span - 1
        } else {
            0
        })),
    )
}

/// See [`span_of`].
pub fn grid_span(tracks: &Vec<i32>, at: usize, span: usize, gap: i32) -> (r: i32)
    ensures
        r == span_of(tracks@, at as int, span as int, gap),
{
    let n: usize = tracks.len();
    let from: usize = least(at, n);
    let to: usize = if span <= n - from {
        from + span
    } else {
        n
    };
    plus(total_of(tracks, from, to), times(gap, count(less(span, 1))))
}

/// Which cells of the grid are taken, as far as rows were needed.
pub open spec fn marked_at(rows: Seq<Vec<bool>>, r: int, c: int) -> bool {
    0 <= r < rows.len() && 0 <= c < rows[r]@.len() && rows[r]@[c]
}

/// The marks agree with what was placed.
pub open spec fn marks_agree(rows: Seq<Vec<bool>>, placed: Seq<GridItem>, columns: int) -> bool {
    &&& rows.len() <= MAX_TRACKS
    &&& forall|r: int| 0 <= r < rows.len() ==> (#[trigger] rows[r])@.len() == columns
    &&& forall|r: int, c: int|
        0 <= r < MAX_TRACKS && 0 <= c < columns ==> marked_at(rows, r, c) == #[trigger] taken(
            placed,
            r,
            c,
        )
}

/// A placed item stays inside the grid.
pub open spec fn item_fits(p: GridItem, columns: int) -> bool {
    p.row < MAX_TRACKS && p.col + p.cspan <= columns && p.rspan <= MAX_TRACKS
}

pub open spec fn all_fit(placed: Seq<GridItem>, columns: int) -> bool {
    forall|k: int| 0 <= k < placed.len() ==> item_fits(#[trigger] placed[k], columns)
}

proof fn taken_after(placed: Seq<GridItem>, p: GridItem, r: int, c: int)
    ensures
        taken(placed.push(p), r, c) == (taken(placed, r, c) || covers(p, r, c)),
{
    let next = placed.push(p);
    if taken(placed, r, c) {
        let k = choose|k: int| 0 <= k < placed.len() && covers(#[trigger] placed[k], r, c);
        assert(covers(next[k], r, c));
    }
    if covers(p, r, c) {
        assert(covers(next[placed.len() as int], r, c));
    }
    if taken(next, r, c) {
        let k = choose|k: int| 0 <= k < next.len() && covers(#[trigger] next[k], r, c);
        if k < placed.len() {
            assert(covers(placed[k], r, c));
        }
    }
}

fn is_free(
    rows: &Vec<Vec<bool>>,
    row: usize,
    col: usize,
    rs: usize,
    cs: usize,
    columns: usize,
    Ghost(placed): Ghost<Seq<GridItem>>,
) -> (r: bool)
    requires
        marks_agree(rows@, placed, columns as int),
        col + cs <= columns,
        row < MAX_TRACKS,
        rs <= MAX_TRACKS,
    ensures
        r == grid_free(placed, row as int, col as int, rs as int, cs as int),
{
    let last: usize = least(row + rs, MAX_TRACKS);
    let mut r: usize = row;
    while r < last
        invariant
            marks_agree(rows@, placed, columns as int),
            col + cs <= columns,
            row <= r,
            last <= MAX_TRACKS,
            last <= row + rs,
            forall|r2: int, c2: int|
                row <= r2 < r && col <= c2 < col + cs ==> !#[trigger] taken(placed, r2, c2),
        decreases last - r,
    {
        let mut c: usize = col;
        while c < col + cs
            invariant
                marks_agree(rows@, placed, columns as int),
                col + cs <= columns,
                col <= c <= col + cs,
                row <= r < last <= MAX_TRACKS,
                last <= row + rs,
                forall|r2: int, c2: int|
                    row <= r2 < r && col <= c2 < col + cs ==> !#[trigger] taken(placed, r2, c2),
                forall|c2: int| col <= c2 < c ==> !#[trigger] taken(placed, r as int, c2),
            decreases col + cs - c,
        {
            proof {
                assert(marked_at(rows@, r as int, c as int) == taken(placed, r as int, c as int));
            }
            if r < rows.len() {
                if rows[r][c] {
                    return false;
                }
            }
            c += 1;
        }
        r += 1;
    }
    true
}

fn mark(
    rows: &mut Vec<Vec<bool>>,
    p: GridItem,
    columns: usize,
    Ghost(placed): Ghost<Seq<GridItem>>,
)
    requires
        marks_agree(old(rows)@, placed, columns as int),
        item_fits(p, columns as int),
    ensures
        marks_agree(final(rows)@, placed.push(p), columns as int),
{
    let last: usize = least(p.row + p.rspan, MAX_TRACKS);
    while rows.len() < last
        invariant
            last <= MAX_TRACKS,
            marks_agree(rows@, placed, columns as int),
        decreases last - rows@.len(),
    {
        let mut blank_row: Vec<bool> = Vec::new();
        while blank_row.len() < columns
            invariant
                blank_row@.len() <= columns,
                forall|c: int| 0 <= c < blank_row@.len() ==> !#[trigger] blank_row@[c],
            decreases columns - blank_row@.len(),
        {
            blank_row.push(false);
        }
        let ghost before = rows@;
        rows.push(blank_row);
        proof {
            assert forall|r: int, c: int| 0 <= r < MAX_TRACKS && 0 <= c < columns implies marked_at(
                rows@,
                r,
                c,
            ) == #[trigger] taken(placed, r, c) by {
                assert(marked_at(before, r, c) == taken(placed, r, c));
            }
        }
    }
    let ghost start = rows@;
    let mut r: usize = p.row;
    while r < last
        invariant
            item_fits(p, columns as int),
            last <= MAX_TRACKS,
            last <= rows@.len() <= MAX_TRACKS,
            last <= p.row + p.rspan,
            p.row <= r,
            p.row < last ==> r <= last,
            p.row >= last ==> r == p.row,
            start.len() == rows@.len(),
            forall|i: int| 0 <= i < rows@.len() ==> (#[trigger] rows@[i])@.len() == columns,
            forall|i: int| 0 <= i < start.len() ==> (#[trigger] start[i])@.len() == columns,
            forall|r2: int, c2: int|
                0 <= r2 < rows@.len() && 0 <= c2 < columns ==> (#[trigger] rows@[r2]@[c2])
                    == (start[r2]@[c2] || (p.row <= r2 < r && p.col <= c2 < p.col + p.cspan)),
        decreases last - r,
    {
        let mut c: usize = p.col;
        while c < p.col + p.cspan
            invariant
                item_fits(p, columns as int),
                p.row <= r < last <= rows@.len() <= MAX_TRACKS,
                p.col <= c <= p.col + p.cspan,
                start.len() == rows@.len(),
                forall|i: int| 0 <= i < rows@.len() ==> (#[trigger] rows@[i])@.len() == columns,
                forall|i: int| 0 <= i < start.len() ==> (#[trigger] start[i])@.len() == columns,
                forall|r2: int, c2: int|
                    0 <= r2 < rows@.len() && 0 <= c2 < columns ==> (#[trigger] rows@[r2]@[c2])
                        == (start[r2]@[c2] || (p.row <= r2 < r && p.col <= c2 < p.col + p.cspan)
                        || (r2 == r && p.col <= c2 < c)),
            decreases p.col + p.cspan - c,
        {
            let ghost before = rows@;
            rows[r].set(c, true);
            proof {
                assert forall|r2: int, c2: int| 0 <= r2 < rows@.len() && 0 <= c2 < columns implies (
                #[trigger] rows@[r2]@[c2]) == (start[r2]@[c2] || (p.row <= r2 < r && p.col <= c2
                    < p.col + p.cspan) || (r2 == r && p.col <= c2 < c + 1)) by {
                    let was = before[r2]@[c2];
                }
            }
            c += 1;
        }
        r += 1;
    }
    proof {
        let next = placed.push(p);
        assert forall|r2: int, c2: int| 0 <= r2 < MAX_TRACKS && 0 <= c2 < columns implies marked_at(
            rows@,
            r2,
            c2,
        ) == #[trigger] taken(next, r2, c2) by {
            taken_after(placed, p, r2, c2);
            assert(marked_at(start, r2, c2) == taken(placed, r2, c2));
            assert(covers(p, r2, c2) == (p.row <= r2 < last && p.col <= c2 < p.col + p.cspan));
            if r2 < rows@.len() {
                assert(rows@[r2]@.len() == columns);
                assert(start[r2]@.len() == columns);
                assert(rows@[r2]@[c2] == (start[r2]@[c2] || (p.row <= r2 < r && p.col <= c2 < p.col
                    + p.cspan)));
            }
        }
    }
}

fn find_place(
    rows: &Vec<Vec<bool>>,
    row: Option<usize>,
    col: Option<usize>,
    rs: usize,
    cs: usize,
    columns: usize,
    Ghost(placed): Ghost<Seq<GridItem>>,
) -> (r: Option<(usize, usize)>)
    requires
        marks_agree(rows@, placed, columns as int),
        row matches Some(n) ==> n < MAX_TRACKS,
        rs <= MAX_TRACKS,
        cs <= columns,
        col matches Some(n) ==> n < columns,
    ensures
        r == find_from(placed, row, col, rs, cs, columns, 0),
        r matches Some(at) ==> at.0 < MAX_TRACKS && at.1 + cs <= columns,
{
    let mut r: usize = 0;
    while r < MAX_TRACKS
        invariant
            marks_agree(rows@, placed, columns as int),
            row matches Some(n) ==> n < MAX_TRACKS,
            rs <= MAX_TRACKS,
            cs <= columns,
            col matches Some(n) ==> n < columns,
            r <= MAX_TRACKS,
            find_from(placed, row, col, rs, cs, columns, 0) == find_from(
                placed,
                row,
                col,
                rs,
                cs,
                columns,
                r as int,
            ),
        decreases MAX_TRACKS - r,
    {
        let mut c: usize = 0;
        while c < columns
            invariant
                marks_agree(rows@, placed, columns as int),
                row matches Some(n) ==> n < MAX_TRACKS,
                rs <= MAX_TRACKS,
                cs <= columns,
                col matches Some(n) ==> n < columns,
                r < MAX_TRACKS,
                c <= columns,
                find_from(placed, row, col, rs, cs, columns, 0) == find_from(
                    placed,
                    row,
                    col,
                    rs,
                    cs,
                    columns,
                    r as int,
                ),
                find_in_row(placed, row, col, rs, cs, columns, r, 0) == find_in_row(
                    placed,
                    row,
                    col,
                    rs,
                    cs,
                    columns,
                    r,
                    c as int,
                ),
            decreases columns - c,
        {
            let rr: usize = match row {
                Some(n) => n,
                None => r,
            };
            let cc: usize = match col {
                Some(n) => n,
                None => c,
            };
            if cs <= columns - cc && is_free(rows, rr, cc, rs, cs, columns, Ghost(placed)) {
                return Some((rr, cc));
            }
            c += 1;
        }
        r += 1;
    }
    None
}

fn place_item(
    rows: &Vec<Vec<bool>>,
    child: NodeId,
    style: ComputedStyle,
    columns: usize,
    Ghost(placed): Ghost<Seq<GridItem>>,
) -> (r: GridItem)
    requires
        marks_agree(rows@, placed, columns as int),
        0 < columns,
    ensures
        r == placed_next(placed, child, style, columns),
        item_fits(r, columns as int),
{
    let (col, cspan): (Option<usize>, usize) = grid_axis(style.grid_column, columns);
    let (row, rspan): (Option<usize>, usize) = grid_axis(style.grid_row, MAX_TRACKS);
    match (row, col) {
        (Some(r), Some(c)) => GridItem { child, row: r, col: c, rspan, cspan },
        _ => {
            let (r, c): (usize, usize) = match find_place(
                rows,
                row,
                col,
                rspan,
                cspan,
                columns,
                Ghost(placed),
            ) {
                Some(at) => at,
                None => (255, 0),
            };
            GridItem {
                child,
                row: match row {
                    Some(n) => n,
                    None => r,
                },
                col: match col {
                    Some(n) => n,
                    None => c,
                },
                rspan,
                cspan,
            }
        },
    }
}

/// The tracks after the first `n` placed items are measured: a column that
/// grows with its content is at least as wide as the narrowest its one-track
/// items can be.
pub open spec fn columns_measured(
    ctx: Ctx<'_>,
    columns: Seq<GridTrack>,
    widths: Seq<i32>,
    placed: Seq<GridItem>,
    k: int,
) -> Seq<i32>
    decreases placed.len() - k,
{
    if k >= placed.len() {
        widths
    } else {
        let p = placed[k];
        let next = if p.cspan == 1 && p.col < columns.len() && grid_column_accepts_content(
            columns[p.col as int],
        ) {
            widths.update(p.col as int, larger(widths[p.col as int], ctx.sizes(p.child).min))
        } else {
            widths
        };
        columns_measured(ctx, columns, next, placed, k + 1)
    }
}

/// The lowest row any of the items from the `k`th on reaches.
pub open spec fn rows_reached(placed: Seq<GridItem>, k: int, so_far: usize) -> usize
    decreases placed.len() - k,
{
    if k >= placed.len() {
        so_far
    } else {
        rows_reached(
            placed,
            k + 1,
            most(so_far, (placed[k].row + placed[k].rspan) as usize),
        )
    }
}

/// Tracks cut or extended with `auto` to exactly `n`.
pub open spec fn resized(tracks: Seq<GridTrack>, n: int) -> Seq<GridTrack> {
    Seq::new(
        n as nat,
        |i: int|
            if i < tracks.len() {
                tracks[i]
            } else {
                GridTrack::Auto
            },
    )
}

/// What the items of a grid are laid out against.
pub struct GridPlan {
    pub content: Rect,
    pub columns: Seq<GridTrack>,
    pub widths: Seq<i32>,
    pub rows: Seq<GridTrack>,
    pub col_gap: i32,
    pub row_gap: i32,
    pub definite: bool,
    pub pre: bool,
}

/// A laid-out item and the cell it belongs to.
#[derive(Clone, Copy, PartialEq, Eq, Debug)]
pub struct GridChild {
    pub id: BoxId,
    pub row: usize,
    pub col: usize,
}

impl<'a> Ctx<'a> {
    /// Does this child become a grid item?
    pub open spec fn is_grid_item(&self, c: NodeId) -> bool {
        (self.dom.is_element(c) || (self.dom.is_text(c) && !blank(self.dom.text_of(c))))
            && !is_out_of_flow(self.style(c).position)
    }

    /// The items that the children from the `k`th on become.
    pub open spec fn placed_from(
        &self,
        kids: Seq<NodeId>,
        k: int,
        columns: usize,
        placed: Seq<GridItem>,
    ) -> Seq<GridItem>
        decreases kids.len() - k,
    {
        if k >= kids.len() {
            placed
        } else if self.is_grid_item(kids[k]) {
            self.placed_from(
                kids,
                k + 1,
                columns,
                placed.push(placed_next(placed, kids[k], self.style(kids[k]), columns)),
            )
        } else {
            self.placed_from(kids, k + 1, columns, placed)
        }
    }

    /// A grid item that is an atomic inline outside the grid: here it owns a
    /// cell, and builds its own root.
    #[verifier::opaque]
    pub open spec fn grid_root(
        &self,
        rec: Recipe,
        cv: Canvas,
        id: NodeId,
        x: i32,
        width: i32,
        pre: bool,
    ) -> (Canvas, Option<BoxId>) {
        if !self.dom.is_element(id) || self.hides(id) {
            (cv, None)
        } else {
            let c = self.style(id);
            let d = resolve_block_dims(&c, width, None);
            let at = crate::blocks::content_at(d, x, 0, 0);
            let built = (rec.build)(
                BoxArgs {
                    cv,
                    id,
                    computed: c,
                    dims: at,
                    ch: None,
                    pre: pre || self.dom.tag_of(id) == "pre"@,
                },
            );
            if is_shifted(c.position) {
                let (dx, dy) = flow_delta(c, width, None);
                (built.cv.moved(built.id, dx, dy), Some(built.id))
            } else {
                (built.cv, Some(built.id))
            }
        }
    }

    /// One grid item laid out at its column span.
    #[verifier::opaque]
    pub open spec fn grid_item_laid(
        &self,
        rec: Recipe,
        cv: Canvas,
        p: GridItem,
        plan: GridPlan,
    ) -> (Canvas, Option<BoxId>) {
        let x = plus(
            plan.content.x,
            offset_from(plan.widths, p.col as int, plan.col_gap, 0, 0),
        );
        let w = larger(
            span_of(plan.widths, p.col as int, p.cspan as int, plan.col_gap),
            1,
        );
        let table = self.dom.is_element(p.child) && self.dom.tag_of(p.child) == "table"@;
        let start = if table {
            Canvas { grid_items: one_more(cv.grid_items), ..cv }
        } else {
            cv
        };
        let (end, id) = if is_atomic_inline(self.style(p.child).display) {
            self.grid_root(rec, start, p.child, x, w, plan.pre)
        } else {
            let laid = self.lay_node(rec, start, p.child, x, w, None, 0, 0, plan.pre);
            (laid.cv, laid.id)
        };
        (
            if table {
                Canvas { grid_items: less(end.grid_items, 1), ..end }
            } else {
                end
            },
            id,
        )
    }

    /// The items from the `k`th on, and the rows as they grow.
    pub open spec fn grid_items_laid(
        &self,
        rec: Recipe,
        cv: Canvas,
        placed: Seq<GridItem>,
        k: int,
        plan: GridPlan,
        heights: Seq<i32>,
        children: Seq<GridChild>,
    ) -> (Canvas, Seq<i32>, Seq<GridChild>)
        decreases placed.len() - k,
    {
        if k >= placed.len() {
            (cv, heights, children)
        } else {
            let p = placed[k];
            let (cv2, laid) = self.grid_item_laid(rec, cv, p, plan);
            match laid {
                None => self.grid_items_laid(rec, cv2, placed, k + 1, plan, heights, children),
                Some(id) => {
                    let h = larger(cv2.dims(id).margin_box().height, 0);
                    let grown = if p.rspan == 1 && p.row < plan.rows.len()
                        && grid_row_accepts_content(plan.rows[p.row as int], plan.definite) {
                        heights.update(p.row as int, larger(heights[p.row as int], h))
                    } else {
                        heights
                    };
                    self.grid_items_laid(
                        rec,
                        cv2,
                        placed,
                        k + 1,
                        plan,
                        grown,
                        children.push(GridChild { id, row: p.row, col: p.col }),
                    )
                },
            }
        }
    }
}

/// The laid-out items from the `k`th on moved to their cells.
pub open spec fn grid_moved(
    cv: Canvas,
    children: Seq<GridChild>,
    k: int,
    plan: GridPlan,
    heights: Seq<i32>,
) -> Canvas
    decreases children.len() - k,
{
    if k >= children.len() {
        cv
    } else {
        let c = children[k];
        let x = plus(
            plan.content.x,
            offset_from(plan.widths, c.col as int, plan.col_gap, 0, 0),
        );
        let y = plus(plan.content.y, offset_from(heights, c.row as int, plan.row_gap, 0, 0));
        let now = cv.dims(c.id).margin_box();
        grid_moved(
            cv.moved(c.id, minus(x, now.x), minus(y, now.y)),
            children,
            k + 1,
            plan,
            heights,
        )
    }
}

impl<'a> Ctx<'a> {
    /// The columns of a grid container.
    pub open spec fn grid_columns(&self, computed: ComputedStyle) -> Seq<GridTrack> {
        let given = self.styles.template(computed.grid_template_columns);
        if given.len() == 0 {
            seq![GridTrack::Auto]
        } else if given.len() > MAX_TRACKS {
            given.take(MAX_TRACKS as int)
        } else {
            given
        }
    }

    /// Everything about a grid that is settled before its items are laid out.
    #[verifier::opaque]
    pub open spec fn grid_plan(
        &self,
        content: Rect,
        computed: ComputedStyle,
        placed: Seq<GridItem>,
        height: Option<i32>,
        pre: bool,
    ) -> GridPlan {
        let columns = self.grid_columns(computed);
        let col_gap = larger(computed.gap.column.to_cells_h(content.width), 0);
        let row_gap = larger(computed.gap.row.to_cells_v(content.width), 0);
        let axis = GridTrackAxis::Columns { width: content.width };
        let given = self.styles.template(computed.grid_template_rows);
        let reached = most(rows_reached(placed, 0, 0), fit_usize(given.len()));
        let rows = most(least(reached, MAX_TRACKS), 1);
        GridPlan {
            content,
            columns,
            widths: tracks_fitted(
                columns,
                columns_measured(
                    *self,
                    columns,
                    tracks_resolved(columns, axis, col_gap),
                    placed,
                    0,
                ),
                axis,
                col_gap,
            ),
            rows: resized(given, rows as int),
            col_gap,
            row_gap,
            definite: height is Some,
            pre,
        }
    }

    /// A grid container's contents, and its used content height.
    #[verifier::opaque]
    pub open spec fn grid_contents(
        &self,
        rec: Recipe,
        cv: Canvas,
        id: NodeId,
        computed: ComputedStyle,
        bid: BoxId,
        heights: BlockHeight,
        pre: bool,
    ) -> (Canvas, i32) {
        let content = cv.dims(bid).content;
        let placed = self.placed_from(
            self.dom.kids(id),
            0,
            self.grid_columns(computed).len() as usize,
            Seq::empty(),
        );
        let plan = self.grid_plan(content, computed, placed, heights.specified, pre);
        let axis = GridTrackAxis::Rows { width: content.width, height: heights.specified };
        let (cv1, grown, children) = self.grid_items_laid(
            rec,
            cv,
            placed,
            0,
            plan,
            tracks_resolved(plan.rows, axis, plan.row_gap),
            Seq::empty(),
        );
        let tall = tracks_fitted(plan.rows, grown, axis, plan.row_gap);
        let cv2 = grid_moved(cv1, children, 0, plan, tall);
        let (cv3, ids) = self.absolutes_laid(
            rec,
            cv2,
            self.out_of_flow_kids(self.dom.kids(id), 0),
            0,
            bid,
            pre,
            children.map_values(|c: GridChild| c.id),
        );
        (
            cv3.with_children(bid, in_source_order(self.dom, cv3.boxes, id, ids)).with_grid(
                bid,
                GridView { columns: plan.widths, rows: tall },
            ),
            plus(total(tall), times(plan.row_gap, fit(tall.len() - 1))),
        )
    }
}

/// A length as a machine count.
pub open spec fn fit_usize(n: nat) -> usize {
    if n <= usize::MAX {
        n as usize
    } else {
        usize::MAX
    }
}

impl<'a> Engine<'a> {
    fn place_grid(&self, id: NodeId, columns: usize) -> (r: Vec<GridItem>)
        requires
            self.ok(),
            self.ctx.dom.has(id),
            0 < columns,
        ensures
            r@ == self.ctx.placed_from(self.ctx.dom.kids(id), 0, columns, Seq::empty()),
            all_fit(r@, columns as int),
            forall|k: int| 0 <= k < r@.len() ==> self.ctx.dom.has((#[trigger] r@[k]).child),
    {
        let ctx: Ctx<'a> = self.ctx;
        let kids: &Vec<NodeId> = ctx.dom.children(id);
        let mut rows: Vec<Vec<bool>> = Vec::new();
        let mut placed: Vec<GridItem> = Vec::new();
        let ghost goal = ctx.placed_from(kids@, 0, columns, Seq::empty());
        let mut k: usize = 0;
        while k < kids.len()
            invariant
                ctx.wf(),
                ctx.dom.has(id),
                0 < columns,
                kids@ == ctx.dom.kids(id),
                k <= kids@.len(),
                marks_agree(rows@, placed@, columns as int),
                all_fit(placed@, columns as int),
                forall|j: int| 0 <= j < placed@.len() ==> ctx.dom.has((#[trigger] placed@[j]).child),
                goal == ctx.placed_from(kids@, k as int, columns, placed@),
            decreases kids@.len() - k,
        {
            let c: NodeId = kids[k];
            proof {
                assert(ctx.dom.nodes@[id.0 as int].children@[k as int] == c);
            }
            let shown: bool = match &ctx.dom.node(c).data {
                NodeData::Element { .. } => true,
                NodeData::Text(text) => !is_blank(text.as_str()),
                _ => false,
            };
            let style: ComputedStyle = ctx.styles.get(c);
            if shown && !is_out_of_flow(style.position) {
                let p: GridItem = place_item(&rows, c, style, columns, Ghost(placed@));
                mark(&mut rows, p, columns, Ghost(placed@));
                placed.push(p);
            }
            k += 1;
        }
        placed
    }

    fn measure_columns(&mut self, columns: &Vec<GridTrack>, widths: Vec<i32>, placed: &Vec<GridItem>) -> (r:
        Vec<i32>)
        requires
            old(self).ok(),
            columns@.len() == widths@.len(),
            forall|k: int|
                0 <= k < placed@.len() ==> old(self).ctx.dom.has((#[trigger] placed@[k]).child),
        ensures
            r@ == columns_measured(old(self).ctx, columns@, widths@, placed@, 0),
            r@.len() == columns@.len(),
            final(self).follows(*old(self)),
            final(self).boxes == old(self).boxes,
            final(self).canvas() == old(self).canvas(),
    {
        let ghost ctx = self.ctx;
        let ghost goal = columns_measured(ctx, columns@, widths@, placed@, 0);
        let mut out: Vec<i32> = widths;
        let mut k: usize = 0;
        while k < placed.len()
            invariant
                self.follows(*old(self)),
                self.boxes == old(self).boxes,
                self.canvas() == old(self).canvas(),
                ctx == self.ctx,
                columns@.len() == out@.len(),
                k <= placed@.len(),
                forall|j: int| 0 <= j < placed@.len() ==> ctx.dom.has((#[trigger] placed@[j]).child),
                goal == columns_measured(ctx, columns@, out@, placed@, k as int),
            decreases placed@.len() - k,
        {
            let p: GridItem = placed[k];
            if p.cspan == 1 && p.col < columns.len() && grid_column_accepts_content(
                columns[p.col],
            ) {
                let min: i32 = self.sizer.min_content_width(p.child);
                let now: i32 = larger(out[p.col], min);
                out.set(p.col, now);
            }
            k += 1;
        }
        out
    }
}

/// A [`GridPlan`], computed.
struct GridPlanned {
    content: Rect,
    columns: Vec<GridTrack>,
    widths: Vec<i32>,
    rows: Vec<GridTrack>,
    col_gap: i32,
    row_gap: i32,
    definite: bool,
    pre: bool,
}

impl GridPlanned {
    spec fn plan(&self) -> GridPlan {
        GridPlan {
            content: self.content,
            columns: self.columns@,
            widths: self.widths@,
            rows: self.rows@,
            col_gap: self.col_gap,
            row_gap: self.row_gap,
            definite: self.definite,
            pre: self.pre,
        }
    }
}

fn resize_tracks(tracks: &Vec<GridTrack>, n: usize) -> (r: Vec<GridTrack>)
    ensures
        r@ == resized(tracks@, n as int),
        r@.len() == n,
{
    let mut out: Vec<GridTrack> = Vec::new();
    let mut i: usize = 0;
    while i < n
        invariant
            i <= n,
            out@ =~= resized(tracks@, n as int).take(i as int),
        decreases n - i,
    {
        out.push(
            if i < tracks.len() {
                tracks[i]
            } else {
                GridTrack::Auto
            },
        );
        i += 1;
    }
    proof {
        assert(out@ =~= resized(tracks@, n as int));
    }
    out
}

fn lowest_row(placed: &Vec<GridItem>, columns: usize) -> (r: usize)
    requires
        all_fit(placed@, columns as int),
    ensures
        r == rows_reached(placed@, 0, 0),
{
    let mut lowest: usize = 0;
    let mut k: usize = 0;
    while k < placed.len()
        invariant
            all_fit(placed@, columns as int),
            k <= placed@.len(),
            rows_reached(placed@, 0, 0) == rows_reached(placed@, k as int, lowest),
        decreases placed@.len() - k,
    {
        proof {
            assert(item_fits(placed@[k as int], columns as int));
        }
        lowest = most(lowest, placed[k].row + placed[k].rspan);
        k += 1;
    }
    lowest
}

impl<'a> Engine<'a> {
    fn column_tracks(&self, computed: ComputedStyle) -> (r: Vec<GridTrack>)
        ensures
            r@ == self.ctx.grid_columns(computed),
            0 < r@.len() <= MAX_TRACKS,
    {
        let mut columns: Vec<GridTrack> = self.ctx.styles.tracks_of(
            computed.grid_template_columns,
        );
        if columns.len() == 0 {
            columns.push(GridTrack::Auto);
            proof {
                assert(columns@ =~= seq![GridTrack::Auto]);
            }
        } else if columns.len() > MAX_TRACKS {
            let ghost all = columns@;
            columns.truncate(MAX_TRACKS);
            proof {
                assert(columns@ =~= all.take(MAX_TRACKS as int));
            }
        }
        columns
    }

    fn plan_grid(
        &mut self,
        content: Rect,
        computed: ComputedStyle,
        placed: &Vec<GridItem>,
        height: Option<i32>,
        pre: bool,
    ) -> (r: GridPlanned)
        requires
            old(self).ok(),
            all_fit(placed@, old(self).ctx.grid_columns(computed).len() as int),
            forall|k: int|
                0 <= k < placed@.len() ==> old(self).ctx.dom.has((#[trigger] placed@[k]).child),
        ensures
            r.plan() == old(self).ctx.grid_plan(content, computed, placed@, height, pre),
            0 < r.rows@.len() <= MAX_TRACKS,
            final(self).follows(*old(self)),
            final(self).boxes == old(self).boxes,
            final(self).canvas() == old(self).canvas(),
    {
        proof {
            reveal(Ctx::grid_plan);
        }
        let columns: Vec<GridTrack> = self.column_tracks(computed);
        let col_gap: i32 = larger(computed.gap.column.to_cells_h(content.width), 0);
        let row_gap: i32 = larger(computed.gap.row.to_cells_v(content.width), 0);
        let axis: GridTrackAxis = GridTrackAxis::Columns { width: content.width };
        let start: Vec<i32> = resolve_grid_tracks(&columns, axis, col_gap);
        let grown: Vec<i32> = self.measure_columns(&columns, start, placed);
        let widths: Vec<i32> = fit_grid_tracks(&columns, grown, axis, col_gap);
        let given: Vec<GridTrack> = self.ctx.styles.tracks_of(computed.grid_template_rows);
        let reached: usize = most(lowest_row(placed, columns.len()), given.len());
        let n: usize = most(least(reached, MAX_TRACKS), 1);
        let rows: Vec<GridTrack> = resize_tracks(&given, n);
        GridPlanned {
            content,
            columns,
            widths,
            rows,
            col_gap,
            row_gap,
            definite: height.is_some(),
            pre,
        }
    }

    fn layout_grid_item_root(&mut self, fuel: usize, id: NodeId, x: i32, width: i32, pre: bool) -> (r:
        Option<BoxId>)
        requires
            old(self).ok(),
            old(self).ctx.dom.has(id),
        ensures
            final(self).follows(*old(self)),
            r matches Some(bid) ==> final(self).has_box(bid),
            (final(self).canvas(), r) == old(self).ctx.grid_root(
                old(self).ctx.builder(old(self).viewport, fuel as nat),
                old(self).canvas(),
                id,
                x,
                width,
                pre,
            ),
        decreases fuel, 8nat,
    {
        proof {
            reveal(Ctx::grid_root);
        }
        let ctx: Ctx<'a> = self.ctx;
        if !matches!(ctx.dom.node(id).data, NodeData::Element { .. }) || ctx.is_hidden(id) {
            return None;
        }
        let c: ComputedStyle = ctx.styles.get(id);
        let d: Dimensions = resolve_block_dims(&c, width, None);
        let at: Dimensions = crate::blocks::content_at(d, x, 0, 0);
        let (bid, _): (BoxId, i32) = self.layout_box_at(
            fuel,
            id,
            c,
            at,
            None,
            pre || same(ctx.dom.tag(id), "pre"),
        );
        if is_shifted(c.position) {
            let (dx, dy): (i32, i32) = flow_delta(c, width, None);
            self.shift_subtree(bid, dx, dy);
        }
        Some(bid)
    }

    fn lay_grid_item(&mut self, fuel: usize, p: GridItem, plan: &GridPlanned) -> (r: Option<BoxId>)
        requires
            old(self).ok(),
            old(self).ctx.dom.has(p.child),
        ensures
            final(self).follows(*old(self)),
            r matches Some(bid) ==> final(self).has_box(bid),
            (final(self).canvas(), r) == old(self).ctx.grid_item_laid(
                old(self).ctx.builder(old(self).viewport, fuel as nat),
                old(self).canvas(),
                p,
                plan.plan(),
            ),
        decreases fuel, 9nat,
    {
        proof {
            reveal(Ctx::grid_item_laid);
        }
        let ctx: Ctx<'a> = self.ctx;
        let x: i32 = plus(plan.content.x, grid_offset(&plan.widths, p.col, plan.col_gap));
        let w: i32 = larger(grid_span(&plan.widths, p.col, p.cspan, plan.col_gap), 1);
        let table: bool = ctx.dom.is_tag(p.child, "table");
        if table {
            self.grid_item_depth = one_more(self.grid_item_depth);
        }
        let laid: Option<BoxId> = if is_atomic_inline(ctx.styles.get(p.child).display) {
            self.layout_grid_item_root(fuel, p.child, x, w, plan.pre)
        } else {
            self.layout_node(fuel, p.child, x, w, None, 0, 0, plan.pre).0
        };
        if table {
            self.grid_item_depth = less(self.grid_item_depth, 1);
        }
        laid
    }

    fn lay_grid_items(
        &mut self,
        fuel: usize,
        placed: &Vec<GridItem>,
        plan: &GridPlanned,
        heights: &mut Vec<i32>,
    ) -> (r: Vec<GridChild>)
        requires
            old(self).ok(),
            old(heights)@.len() == plan.rows@.len(),
            forall|k: int|
                0 <= k < placed@.len() ==> old(self).ctx.dom.has((#[trigger] placed@[k]).child),
        ensures
            final(self).follows(*old(self)),
            final(heights)@.len() == plan.rows@.len(),
            forall|k: int|
                0 <= k < r@.len() ==> (#[trigger] r@[k]).id.0 < final(self).boxes@.len(),
            (final(self).canvas(), final(heights)@, r@) == old(self).ctx.grid_items_laid(
                old(self).ctx.builder(old(self).viewport, fuel as nat),
                old(self).canvas(),
                placed@,
                0,
                plan.plan(),
                old(heights)@,
                Seq::empty(),
            ),
        decreases fuel, 10nat,
    {
        let ghost ctx = self.ctx;
        let ghost rec = ctx.builder(self.viewport, fuel as nat);
        let ghost gp = plan.plan();
        let mut children: Vec<GridChild> = Vec::new();
        let ghost goal = ctx.grid_items_laid(
            rec,
            self.canvas(),
            placed@,
            0,
            gp,
            heights@,
            Seq::empty(),
        );
        let mut k: usize = 0;
        while k < placed.len()
            invariant
                self.follows(*old(self)),
                ctx == self.ctx,
                rec == ctx.builder(self.viewport, fuel as nat),
                gp == plan.plan(),
                heights@.len() == plan.rows@.len(),
                forall|j: int| 0 <= j < placed@.len() ==> ctx.dom.has((#[trigger] placed@[j]).child),
                forall|j: int|
                    0 <= j < children@.len() ==> (#[trigger] children@[j]).id.0
                        < self.boxes@.len(),
                k <= placed@.len(),
                goal == ctx.grid_items_laid(
                    rec,
                    self.canvas(),
                    placed@,
                    k as int,
                    gp,
                    heights@,
                    children@,
                ),
            decreases placed@.len() - k,
        {
            let p: GridItem = placed[k];
            match self.lay_grid_item(fuel, p, plan) {
                None => {},
                Some(id) => {
                    let h: i32 = larger(self.dims(id).margin_box().height, 0);
                    if p.rspan == 1 && p.row < plan.rows.len() && grid_row_accepts_content(
                        plan.rows[p.row],
                        plan.definite,
                    ) {
                        let now: i32 = larger(heights[p.row], h);
                        heights.set(p.row, now);
                    }
                    children.push(GridChild { id, row: p.row, col: p.col });
                },
            }
            k += 1;
        }
        children
    }

    fn move_grid_items(&mut self, children: &Vec<GridChild>, plan: &GridPlanned, heights: &Vec<i32>)
        requires
            old(self).ok(),
            forall|k: int|
                0 <= k < children@.len() ==> (#[trigger] children@[k]).id.0
                    < old(self).boxes@.len(),
        ensures
            final(self).follows(*old(self)),
            final(self).boxes@.len() == old(self).boxes@.len(),
            final(self).canvas() == grid_moved(
                old(self).canvas(),
                children@,
                0,
                plan.plan(),
                heights@,
            ),
    {
        let ghost gp = plan.plan();
        let ghost goal = grid_moved(self.canvas(), children@, 0, gp, heights@);
        let mut k: usize = 0;
        while k < children.len()
            invariant
                self.follows(*old(self)),
                self.boxes@.len() == old(self).boxes@.len(),
                gp == plan.plan(),
                forall|j: int|
                    0 <= j < children@.len() ==> (#[trigger] children@[j]).id.0
                        < self.boxes@.len(),
                k <= children@.len(),
                goal == grid_moved(self.canvas(), children@, k as int, gp, heights@),
            decreases children@.len() - k,
        {
            let c: GridChild = children[k];
            let x: i32 = plus(plan.content.x, grid_offset(&plan.widths, c.col, plan.col_gap));
            let y: i32 = plus(plan.content.y, grid_offset(heights, c.row, plan.row_gap));
            let now: Rect = self.dims(c.id).margin_box();
            self.shift_subtree(c.id, minus(x, now.x), minus(y, now.y));
            k += 1;
        }
    }

    /// A grid container's contents. See [`Ctx::grid_contents`].
    pub fn layout_grid_contents(
        &mut self,
        fuel: usize,
        id: NodeId,
        computed: ComputedStyle,
        bid: BoxId,
        heights: BlockHeight,
        pre: bool,
    ) -> (r: i32)
        requires
            old(self).ok(),
            old(self).ctx.dom.has(id),
            old(self).has_box(bid),
            old(self).canvas().dims(bid).content.width >= 0,
        ensures
            final(self).follows(*old(self)),
            (final(self).canvas(), r) == old(self).ctx.grid_contents(
                old(self).ctx.builder(old(self).viewport, fuel as nat),
                old(self).canvas(),
                id,
                computed,
                bid,
                heights,
                pre,
            ),
        decreases fuel, 14nat,
    {
        proof {
            reveal(Ctx::grid_contents);
        }
        let content: Rect = self.dims(bid).content;
        let n: usize = self.column_tracks(computed).len();
        let placed: Vec<GridItem> = self.place_grid(id, n);
        let plan: GridPlanned = self.plan_grid(content, computed, &placed, heights.specified, pre);
        let axis: GridTrackAxis = GridTrackAxis::Rows {
            width: content.width,
            height: heights.specified,
        };
        let mut grown: Vec<i32> = resolve_grid_tracks(&plan.rows, axis, plan.row_gap);
        let children: Vec<GridChild> = self.lay_grid_items(fuel, &placed, &plan, &mut grown);
        let tall: Vec<i32> = fit_grid_tracks(&plan.rows, grown, axis, plan.row_gap);
        self.move_grid_items(&children, &plan, &tall);
        let mut ids: Vec<BoxId> = ids_of(&children, Ghost(self.boxes@.len()));
        let absolutes: Vec<NodeId> = self.collect_out_of_flow(id);
        self.lay_absolutes(fuel, &absolutes, bid, pre, &mut ids);
        let ordered: Vec<BoxId> = self.order_children_by_dom(id, &ids);
        self.set_children(bid, ordered);
        let rows: usize = tall.len();
        proof {
            assert(tall@.subrange(0, tall@.len() as int) =~= tall@);
        }
        let sum: i32 = plus(
            total_of(&tall, 0, rows),
            times(plan.row_gap, count(rows - 1)),
        );
        self.set_grid(bid, GridLayout { columns: plan.widths, rows: tall });
        sum
    }
}

fn ids_of(children: &Vec<GridChild>, Ghost(n): Ghost<nat>) -> (r: Vec<BoxId>)
    requires
        forall|k: int| 0 <= k < children@.len() ==> (#[trigger] children@[k]).id.0 < n,
    ensures
        r@ == children@.map_values(|c: GridChild| c.id),
        in_range(r@, n),
{
    let ghost want = children@.map_values(|c: GridChild| c.id);
    let mut out: Vec<BoxId> = Vec::new();
    let mut k: usize = 0;
    while k < children.len()
        invariant
            forall|j: int| 0 <= j < children@.len() ==> (#[trigger] children@[j]).id.0 < n,
            want == children@.map_values(|c: GridChild| c.id),
            k <= children@.len(),
            in_range(out@, n),
            out@ =~= want.take(k as int),
        decreases children@.len() - k,
    {
        out.push(children[k].id);
        k += 1;
    }
    proof {
        assert(out@ =~= want);
    }
    out
}

/// Items that look for a place never share a cell with what was placed before
/// them, as long as there is room: a place that is found is free.
pub proof fn a_found_place_is_free(
    placed: Seq<GridItem>,
    row: Option<usize>,
    col: Option<usize>,
    rs: usize,
    cs: usize,
    columns: usize,
    r: int,
)
    requires
        0 <= r,
    ensures
        find_from(placed, row, col, rs, cs, columns, r) matches Some(at) ==> grid_free(
            placed,
            at.0 as int,
            at.1 as int,
            rs as int,
            cs as int,
        ) && at.1 + cs <= columns,
    decreases MAX_TRACKS - r,
{
    if r < MAX_TRACKS {
        a_found_place_in_a_row_is_free(placed, row, col, rs, cs, columns, r as usize, 0);
        a_found_place_is_free(placed, row, col, rs, cs, columns, r + 1);
    }
}

proof fn a_found_place_in_a_row_is_free(
    placed: Seq<GridItem>,
    row: Option<usize>,
    col: Option<usize>,
    rs: usize,
    cs: usize,
    columns: usize,
    r: usize,
    c: int,
)
    requires
        0 <= c,
    ensures
        find_in_row(placed, row, col, rs, cs, columns, r, c) matches Some(at) ==> grid_free(
            placed,
            at.0 as int,
            at.1 as int,
            rs as int,
            cs as int,
        ) && at.1 + cs <= columns,
    decreases columns - c,
{
    if c < columns {
        a_found_place_in_a_row_is_free(placed, row, col, rs, cs, columns, r, c + 1);
    }
}

} // verus!
