//! Tracks share what is left of their grid by fraction, and lie one after
//! another.

use vstd::prelude::*;

use crate::blocks::{content_at, BoxArgs, Recipe};
use crate::boxes::BoxId;
use crate::boxmodel::{is_block_level, resolve_block_dims};
use crate::cells::{fit, larger, minus, plus, smaller, total};
use crate::context::Ctx;
use crate::dimensions::EdgeSizes;
use crate::engine::Canvas;
use crate::field::kind_of;
use crate::flexbox::own_path;
use crate::frame_laws::placed_as;
use crate::grid::{
    columns_measured, find_from, find_in_row, fraction, fractions, grid_axis,
    grid_column_accepts_content, grid_free, grid_moved, grid_row_accepts_content, offset_from,
    room_for_tracks, shared_out, span_of, track_bounded, tracks_fitted, tracks_resolved, GridChild,
    GridItem, GridPlan, GridTrackAxis, MAX_TRACKS,
};
use crate::plot_laws::{a_plot_is_placed, is_edge, is_tame, plots};
use crate::style::{nearest, GridMax, GridMin, GridPlacement, GridTrack, Length};
use crate::sums::{one_of_the_sum, sum, sum_is_not_negative, sum_step};

verus! {

/// Cells as whole numbers.
pub open spec fn ints(cells: Seq<i32>) -> Seq<int> {
    cells.map_values(|c: i32| c as int)
}

pub open spec fn none_negative(cells: Seq<i32>) -> bool {
    forall|k: int| 0 <= k < cells.len() ==> 0 <= #[trigger] cells[k]
}

/// Adding cells up saturates nowhere if the sum is a number of cells.
pub proof fn a_total_is_a_sum(cells: Seq<i32>)
    requires
        none_negative(cells),
        sum(ints(cells)) <= i32::MAX,
    ensures
        total(cells) == sum(ints(cells)),
        0 <= sum(ints(cells)),
    decreases cells.len(),
{
    let all = ints(cells);
    assert forall|j: int| 0 <= j < all.len() implies 0 <= #[trigger] all[j] by {
        assert(0 <= cells[j]);
    }
    sum_is_not_negative(all);
    if cells.len() > 0 {
        let rest = cells.drop_last();
        assert(ints(rest) =~= all.drop_last());
        assert forall|k: int| 0 <= k < rest.len() implies 0 <= #[trigger] rest[k] by {
            assert(0 <= cells[k]);
        }
        assert(0 <= cells[cells.len() - 1]);
        assert(all.last() == cells.last());
        a_total_is_a_sum(rest);
    }
}

/// The `fr` of a track, in thousandths.
pub open spec fn share_of(track: GridTrack) -> int {
    match track {
        GridTrack::Fr(n) => n as int,
        GridTrack::MinMax(_, GridMax::Fr(n)) => n as int,
        _ => 0,
    }
}

/// No number of cells is the most a track can be.
pub open spec fn is_unbounded(track: GridTrack) -> bool {
    match track {
        GridTrack::MinMax(_, GridMax::Fixed(_)) => false,
        _ => true,
    }
}

/// The `fr` of the first `n` tracks together.
pub open spec fn shares(tracks: Seq<GridTrack>, n: int) -> int {
    sum(Seq::new(n as nat, |i: int| share_of(tracks[i])))
}

/// How many of the first `n` tracks have a share.
pub open spec fn sharers(tracks: Seq<GridTrack>, n: int) -> int {
    sum(
        Seq::new(
            n as nat,
            |i: int|
                if share_of(tracks[i]) > 0 {
                    1int
                } else {
                    0
                },
        ),
    )
}

/// What the first `n` tracks grew by.
pub open spec fn growth(before: Seq<i32>, after: Seq<i32>, n: int) -> int {
    sum(Seq::new(n as nat, |i: int| after[i] - before[i]))
}

/// What tracks as long as `used`, and the gaps between them, leave of an axis.
pub open spec fn left_over(axis: GridTrackAxis, gap: i32, used: Seq<i32>) -> int {
    axis.available() - gap * (used.len() - 1) - sum(ints(used))
}

proof fn one_share_more(tracks: Seq<GridTrack>, n: int)
    requires
        0 < n <= tracks.len(),
    ensures
        shares(tracks, n) == shares(tracks, n - 1) + share_of(tracks[n - 1]),
        sharers(tracks, n) == sharers(tracks, n - 1) + (if share_of(tracks[n - 1]) > 0 {
            1int
        } else {
            0
        }),
{
    let a = Seq::new(n as nat, |i: int| share_of(tracks[i]));
    assert(a.drop_last() =~= Seq::new((n - 1) as nat, |i: int| share_of(tracks[i])));
    let one = |i: int|
        if share_of(tracks[i]) > 0 {
            1int
        } else {
            0
        };
    let b = Seq::new(n as nat, one);
    assert(b.drop_last() =~= Seq::new((n - 1) as nat, one));
}

proof fn shares_grow(tracks: Seq<GridTrack>, m: int, n: int)
    requires
        0 <= m <= n <= tracks.len(),
    ensures
        0 <= shares(tracks, m) <= shares(tracks, n),
        0 <= sharers(tracks, m),
    decreases n,
{
    if m < n {
        one_share_more(tracks, n);
        shares_grow(tracks, m, n - 1);
    } else if m > 0 {
        one_share_more(tracks, m);
        shares_grow(tracks, m - 1, m - 1);
    }
}

proof fn fractions_are_shares(tracks: Seq<GridTrack>, n: int)
    requires
        0 <= n <= tracks.len(),
    ensures
        fractions(tracks, n) == shares(tracks, n),
    decreases n,
{
    if n > 0 {
        fractions_are_shares(tracks, n - 1);
        one_share_more(tracks, n);
    }
}

/// What the first `n` tracks are handed.
spec fn handed(tracks: Seq<GridTrack>, free: int, all: int, n: int) -> int
    decreases n,
{
    if n <= 0 {
        0
    } else {
        let had = handed(tracks, free, all, n - 1);
        let f = share_of(tracks[n - 1]);
        let q = nearest(free * f, all);
        had + if f == 0 {
            0
        } else if q <= free - had {
            q
        } else {
            free - had
        }
    }
}

pub(crate) proof fn nearest_is_near(n: int, d: int)
    requires
        0 <= n,
        0 < d,
    ensures
        0 <= nearest(n, d),
        2 * (nearest(n, d) * d - n) <= d,
        2 * (n - nearest(n, d) * d) < d,
{
    let a = 2 * n + d;
    let b = 2 * d;
    let q = a / b;
    vstd::arithmetic::div_mod::lemma_fundamental_div_mod(a, b);
    vstd::arithmetic::div_mod::lemma_mod_bound(a, b);
    let r = a % b;
    assert(b * q == 2 * (q * d)) by (nonlinear_arith)
        requires
            b == 2 * d,
    ;
    assert(0 <= q) by (nonlinear_arith)
        requires
            a == b * q + r,
            r < b,
            0 <= a,
            0 < b,
    ;
}

proof fn nearest_to_a_whole_number(n: int, d: int, s: int)
    requires
        0 <= n,
        0 < d,
        n == d * s,
    ensures
        nearest(n, d) == s,
{
    nearest_is_near(n, d);
    let q = nearest(n, d);
    assert(q == s) by (nonlinear_arith)
        requires
            n == d * s,
            2 * (q * d - n) <= d,
            2 * (n - q * d) < d,
            0 < d,
    ;
}

/// What is handed out is within half a cell a track of what is owed.
proof fn handing_out(tracks: Seq<GridTrack>, free: int, all: int, n: int)
    requires
        0 <= n <= tracks.len(),
        0 <= free,
        0 < all,
        all == shares(tracks, tracks.len() as int),
    ensures
        ({
            let h = handed(tracks, free, all, n);
            let s = shares(tracks, n);
            let c = sharers(tracks, n);
            &&& 0 <= h <= free
            &&& 2 * (h * all - free * s) <= c * all
            &&& 2 * (free * s - h * all) <= c * all
        }),
    decreases n,
{
    if n > 0 {
        handing_out(tracks, free, all, n - 1);
        one_share_more(tracks, n);
        shares_grow(tracks, n, tracks.len() as int);
        shares_grow(tracks, n - 1, tracks.len() as int);
        let had = handed(tracks, free, all, n - 1);
        let h = handed(tracks, free, all, n);
        let f = share_of(tracks[n - 1]);
        let (s0, s) = (shares(tracks, n - 1), shares(tracks, n));
        let (c0, c) = (sharers(tracks, n - 1), sharers(tracks, n));
        if f > 0 {
            assert(0 <= free * f) by (nonlinear_arith)
                requires
                    0 <= free,
                    0 < f,
            ;
            nearest_is_near(free * f, all);
            let q = nearest(free * f, all);
            assert(free * s == free * s0 + free * f) by (nonlinear_arith)
                requires
                    s == s0 + f,
            ;
            assert(c * all == c0 * all + all) by (nonlinear_arith)
                requires
                    c == c0 + 1,
            ;
            assert((had + q) * all == had * all + q * all) by (nonlinear_arith);
            if q <= free - had {
                assert(h == had + q);
            } else {
                assert(h == free);
                assert(h * all <= (had + q) * all) by (nonlinear_arith)
                    requires
                        h <= had + q,
                        0 < all,
                ;
                assert(free * s <= h * all) by (nonlinear_arith)
                    requires
                        h == free,
                        0 <= free,
                        s <= all,
                ;
                assert(0 <= c * all) by (nonlinear_arith)
                    requires
                        0 <= c,
                        0 < all,
                ;
            }
        }
    } else {
        assert(free * 0 == 0 && 0 * all == 0);
    }
}

/// The tracks end up with what they are handed.
proof fn sharing_hands_out(
    tracks: Seq<GridTrack>,
    used: Seq<i32>,
    free: i32,
    all: int,
    i: int,
    left: i32,
)
    requires
        0 <= i <= tracks.len() == used.len(),
        0 <= free,
        0 < all == shares(tracks, tracks.len() as int),
        left == free - handed(tracks, free as int, all, i),
        forall|j: int| i <= j < used.len() ==> 0 <= #[trigger] used[j] && used[j] + free <= i32::MAX,
    ensures
        ({
            let r = shared_out(tracks, used, free, all, i, left);
            &&& r.len() == used.len()
            &&& forall|j: int| 0 <= j < i ==> #[trigger] r[j] == used[j]
            &&& forall|j: int|
                i <= j < r.len() ==> #[trigger] r[j] == used[j] + handed(
                    tracks,
                    free as int,
                    all,
                    j + 1,
                ) - handed(tracks, free as int, all, j)
        }),
    decreases tracks.len() - i,
{
    if i < tracks.len() {
        let f = fraction(tracks[i]);
        handing_out(tracks, free as int, all, i);
        handing_out(tracks, free as int, all, i + 1);
        assert(0 <= free * f) by (nonlinear_arith)
            requires
                0 <= free,
                0 <= f,
        ;
        nearest_is_near(free * f, all);
        let add = if f == 0 {
            0
        } else {
            smaller(fit(nearest(free * f, all)), left)
        };
        let h = handed(tracks, free as int, all, i);
        assert(handed(tracks, free as int, all, i + 1) == h + add);
        assert(0 <= used[i]);
        let next = used.update(i, plus(used[i], add));
        sharing_hands_out(tracks, next, free, all, i + 1, minus(left, add));
        let r = shared_out(tracks, used, free, all, i, left);
        assert(r[i] == next[i]);
        assert forall|j: int| 0 <= j < i implies #[trigger] r[j] == used[j] by {
            assert(r[j] == next[j]);
        }
    }
}

/// What sharing gives each track, where nothing caps it.
proof fn fitting_hands_out(tracks: Seq<GridTrack>, used: Seq<i32>, axis: GridTrackAxis, gap: i32)
    requires
        0 < tracks.len() == used.len() <= i32::MAX,
        0 <= gap,
        none_negative(used),
        0 <= left_over(axis, gap, used),
        0 < shares(tracks, tracks.len() as int),
    ensures
        ({
            let r = tracks_fitted(tracks, used, axis, gap);
            let free = left_over(axis, gap, used);
            let all = shares(tracks, tracks.len() as int);
            &&& r.len() == used.len()
            &&& forall|j: int|
                0 <= j < r.len() && is_unbounded(tracks[j]) ==> #[trigger] r[j] == used[j] + handed(
                    tracks,
                    free,
                    all,
                    j + 1,
                ) - handed(tracks, free, all, j)
            &&& free <= i32::MAX
        }),
{
    let n = tracks.len() as int;
    let all = shares(tracks, n);
    fractions_are_shares(tracks, n);
    assert(0 <= gap * (n - 1)) by (nonlinear_arith)
        requires
            0 <= gap,
            1 <= n,
    ;
    let s = ints(used);
    assert forall|j: int| 0 <= j < s.len() implies 0 <= #[trigger] s[j] by {
        assert(0 <= used[j]);
    }
    sum_is_not_negative(s);
    a_total_is_a_sum(used);
    let free = left_over(axis, gap, used);
    assert(free as i32 == larger(minus(room_for_tracks(axis, gap, n), total(used)), 0));
    assert forall|j: int| 0 <= j < used.len() implies 0 <= #[trigger] used[j] && used[j] + free
        <= i32::MAX by {
        one_of_the_sum(s, j);
        assert(s[j] == used[j]);
    }
    sharing_hands_out(tracks, used, free as i32, all, 0, free as i32);
    let r = tracks_fitted(tracks, used, axis, gap);
    let grown = shared_out(tracks, used, free as i32, all, 0, free as i32);
    assert forall|j: int| 0 <= j < r.len() && is_unbounded(tracks[j]) implies #[trigger] r[j]
        == used[j] + handed(tracks, free, all, j + 1) - handed(tracks, free, all, j) by {
        handing_out(tracks, free, all, j);
        handing_out_grows(tracks, free, all, j);
        assert(0 <= used[j]);
        assert(r[j] == track_bounded(tracks[j], axis, grown[j]));
    }
}

proof fn handing_out_grows(tracks: Seq<GridTrack>, free: int, all: int, j: int)
    requires
        0 <= j < tracks.len(),
        0 <= free,
        0 < all == shares(tracks, tracks.len() as int),
    ensures
        0 <= handed(tracks, free, all, j) <= handed(tracks, free, all, j + 1) <= free,
{
    handing_out(tracks, free, all, j);
    handing_out(tracks, free, all, j + 1);
    let f = share_of(tracks[j]);
    assert(0 <= free * f) by (nonlinear_arith)
        requires
            0 <= free,
            0 <= f,
    ;
    nearest_is_near(free * f, all);
}

proof fn growth_is_what_was_handed(
    tracks: Seq<GridTrack>,
    used: Seq<i32>,
    r: Seq<i32>,
    free: int,
    all: int,
    n: int,
)
    requires
        0 <= n <= r.len() == used.len() == tracks.len(),
        forall|j: int|
            0 <= j < r.len() ==> #[trigger] r[j] == used[j] + handed(tracks, free, all, j + 1)
                - handed(tracks, free, all, j),
    ensures
        growth(used, r, n) == handed(tracks, free, all, n),
    decreases n,
{
    if n > 0 {
        growth_is_what_was_handed(tracks, used, r, free, all, n - 1);
        let a = Seq::new(n as nat, |i: int| r[i] - used[i]);
        assert(a.drop_last() =~= Seq::new((n - 1) as nat, |i: int| r[i] - used[i]));
        assert(r[n - 1] == used[n - 1] + handed(tracks, free, all, n) - handed(
            tracks,
            free,
            all,
            n - 1,
        ));
    }
}

/// The space a grid has left is shared out by fraction: no track grows by more
/// than its part of the whole, to the nearest cell, nor by less while there is
/// some left; the tracks up to any one of them grow together by their parts, to
/// half a cell each; a track without a fraction keeps its length; and what is
/// shared is never more than there was.
pub proof fn free_space_is_shared_by_fraction(
    tracks: Seq<GridTrack>,
    used: Seq<i32>,
    axis: GridTrackAxis,
    gap: i32,
    k: int,
)
    requires
        0 <= k < tracks.len() == used.len() <= i32::MAX,
        0 <= gap,
        none_negative(used),
        0 <= left_over(axis, gap, used),
        0 < shares(tracks, tracks.len() as int),
        forall|j: int| 0 <= j < tracks.len() ==> #[trigger] is_unbounded(tracks[j]),
    ensures
        ({
            let n = tracks.len() as int;
            let r = tracks_fitted(tracks, used, axis, gap);
            let free = left_over(axis, gap, used);
            let all = shares(tracks, n);
            let grew = r[k] - used[k];
            let upto = growth(used, r, k + 1);
            &&& r.len() == n
            &&& 0 <= grew
            &&& share_of(tracks[k]) == 0 ==> grew == 0
            &&& 2 * (grew * all - free * share_of(tracks[k])) <= all
            &&& upto < free ==> 2 * (free * share_of(tracks[k]) - grew * all) <= all
            &&& upto <= free
            &&& 2 * (upto * all - free * shares(tracks, k + 1)) <= sharers(tracks, k + 1) * all
            &&& 2 * (free * shares(tracks, k + 1) - upto * all) <= sharers(tracks, k + 1) * all
        }),
{
    let n = tracks.len() as int;
    let r = tracks_fitted(tracks, used, axis, gap);
    let free = left_over(axis, gap, used);
    let all = shares(tracks, n);
    fitting_hands_out(tracks, used, axis, gap);
    assert forall|j: int| 0 <= j < r.len() implies #[trigger] r[j] == used[j] + handed(
        tracks,
        free,
        all,
        j + 1,
    ) - handed(tracks, free, all, j) by {
        assert(is_unbounded(tracks[j]));
    }
    growth_is_what_was_handed(tracks, used, r, free, all, k + 1);
    handing_out(tracks, free, all, k + 1);
    handing_out_grows(tracks, free, all, k);
    let f = share_of(tracks[k]);
    let grew = r[k] - used[k];
    assert(is_unbounded(tracks[k]));
    assert(0 <= free * f) by (nonlinear_arith)
        requires
            0 <= free,
            0 <= f,
    ;
    nearest_is_near(free * f, all);
    let q = nearest(free * f, all);
    assert(f > 0 ==> grew <= q);
    assert(f > 0 ==> grew * all <= q * all) by (nonlinear_arith)
        requires
            f > 0 ==> grew <= q,
            0 < all,
    ;
    if f == 0 {
        assert(grew * all == 0 && free * f == 0) by (nonlinear_arith)
            requires
                grew == 0,
                f == 0,
        ;
    }
}

/// Where every track's part comes out in whole cells, every track grows by
/// exactly its part.
pub proof fn even_shares_are_exact(
    tracks: Seq<GridTrack>,
    used: Seq<i32>,
    axis: GridTrackAxis,
    gap: i32,
    parts: Seq<int>,
    k: int,
)
    requires
        0 <= k < tracks.len() == used.len() <= i32::MAX,
        0 <= gap,
        none_negative(used),
        0 <= left_over(axis, gap, used),
        0 < shares(tracks, tracks.len() as int),
        forall|j: int| 0 <= j < tracks.len() ==> #[trigger] is_unbounded(tracks[j]),
        parts.len() == tracks.len(),
        forall|j: int|
            0 <= j < tracks.len() ==> left_over(axis, gap, used) * share_of(#[trigger] tracks[j])
                == shares(tracks, tracks.len() as int) * parts[j],
    ensures
        tracks_fitted(tracks, used, axis, gap)[k] == used[k] + parts[k],
{
    let n = tracks.len() as int;
    let free = left_over(axis, gap, used);
    let all = shares(tracks, n);
    fitting_hands_out(tracks, used, axis, gap);
    even_shares_so_far(tracks, free, all, parts, k);
    even_shares_so_far(tracks, free, all, parts, k + 1);
    assert(is_unbounded(tracks[k]));
    let h = handed(tracks, free, all, k);
    assert(free * shares(tracks, k + 1) == free * shares(tracks, k) + free * share_of(tracks[k]))
        by (nonlinear_arith)
        requires
            shares(tracks, k + 1) == shares(tracks, k) + share_of(tracks[k]),
    ;
    let g = handed(tracks, free, all, k + 1) - h;
    assert(all * (h + g) == all * h + all * g) by (nonlinear_arith);
    assert(g == parts[k]) by (nonlinear_arith)
        requires
            all * g == all * parts[k],
            0 < all,
    ;
}

proof fn even_shares_so_far(tracks: Seq<GridTrack>, free: int, all: int, parts: Seq<int>, n: int)
    requires
        0 <= n <= tracks.len() == parts.len(),
        0 <= free,
        0 < all == shares(tracks, tracks.len() as int),
        forall|j: int|
            0 <= j < tracks.len() ==> free * share_of(#[trigger] tracks[j]) == all * parts[j],
    ensures
        all * handed(tracks, free, all, n) == free * shares(tracks, n),
        n < tracks.len() ==> shares(tracks, n + 1) == shares(tracks, n) + share_of(tracks[n]),
    decreases n,
{
    if n < tracks.len() {
        one_share_more(tracks, n + 1);
    }
    if n > 0 {
        even_shares_so_far(tracks, free, all, parts, n - 1);
        shares_grow(tracks, n, tracks.len() as int);
        let f = share_of(tracks[n - 1]);
        let p = parts[n - 1];
        let h = handed(tracks, free, all, n - 1);
        let (s0, s) = (shares(tracks, n - 1), shares(tracks, n));
        assert(0 <= free * f) by (nonlinear_arith)
            requires
                0 <= free,
                0 <= f,
        ;
        nearest_to_a_whole_number(free * f, all, p);
        assert(free * s == free * s0 + free * f) by (nonlinear_arith)
            requires
                s == s0 + f,
        ;
        assert(all * (h + p) == all * h + all * p) by (nonlinear_arith);
        assert(h + p <= free) by (nonlinear_arith)
            requires
                all * (h + p) == free * s,
                s <= all,
                0 < all,
                0 <= free,
        ;
        if f == 0 {
            assert(p == 0) by (nonlinear_arith)
                requires
                    free * f == all * p,
                    f == 0,
                    0 < all,
            ;
        }
    } else {
        assert(all * 0 == 0 && free * 0 == 0);
    }
}

/// Tracks of equal fractions grow alike: while there is space left, they differ
/// by a cell at most, and one of `m` times the fraction grows `m` times as much,
/// to the rounding of both.
pub proof fn equal_fractions_grow_alike(
    tracks: Seq<GridTrack>,
    used: Seq<i32>,
    axis: GridTrackAxis,
    gap: i32,
    j: int,
    k: int,
    m: int,
)
    requires
        0 <= j < tracks.len(),
        0 <= k < tracks.len() == used.len() <= i32::MAX,
        0 <= gap,
        none_negative(used),
        0 <= left_over(axis, gap, used),
        0 < shares(tracks, tracks.len() as int),
        forall|i: int| 0 <= i < tracks.len() ==> #[trigger] is_unbounded(tracks[i]),
        0 < m,
        share_of(tracks[j]) == m * share_of(tracks[k]),
        ({
            let r = tracks_fitted(tracks, used, axis, gap);
            let free = left_over(axis, gap, used);
            growth(used, r, j + 1) < free && growth(used, r, k + 1) < free
        }),
    ensures
        ({
            let r = tracks_fitted(tracks, used, axis, gap);
            let (a, b) = (r[j] - used[j], r[k] - used[k]);
            &&& 2 * (a - m * b) <= m + 1
            &&& 2 * (m * b - a) <= m + 1
        }),
{
    free_space_is_shared_by_fraction(tracks, used, axis, gap, j);
    free_space_is_shared_by_fraction(tracks, used, axis, gap, k);
    let r = tracks_fitted(tracks, used, axis, gap);
    let free = left_over(axis, gap, used);
    let all = shares(tracks, tracks.len() as int);
    let (a, b) = (r[j] - used[j], r[k] - used[k]);
    let f = share_of(tracks[k]);
    let owed = free * f;
    assert(free * (m * f) == m * owed) by (nonlinear_arith)
        requires
            owed == free * f,
    ;
    assert(2 * (a - m * b) <= m + 1 && 2 * (m * b - a) <= m + 1) by (nonlinear_arith)
        requires
            2 * (a * all - m * owed) <= all,
            2 * (m * owed - a * all) <= all,
            2 * (b * all - owed) <= all,
            2 * (owed - b * all) <= all,
            0 < all,
            0 < m,
    ;
}

/// A grid none of whose tracks is a fraction leaves them as they are, but for
/// the bounds of their own.
pub proof fn without_fractions_nothing_grows(
    tracks: Seq<GridTrack>,
    used: Seq<i32>,
    axis: GridTrackAxis,
    gap: i32,
    k: int,
)
    requires
        0 <= k < tracks.len() == used.len(),
        none_negative(used),
        forall|j: int| 0 <= j < tracks.len() ==> share_of(#[trigger] tracks[j]) == 0,
    ensures
        tracks_fitted(tracks, used, axis, gap).len() == tracks.len(),
        is_unbounded(tracks[k]) ==> tracks_fitted(tracks, used, axis, gap)[k] == used[k],
{
    fractions_are_shares(tracks, tracks.len() as int);
    no_shares(tracks, tracks.len() as int);
    assert(0 <= used[k]);
}

proof fn no_shares(tracks: Seq<GridTrack>, n: int)
    requires
        0 <= n <= tracks.len(),
        forall|j: int| 0 <= j < tracks.len() ==> share_of(#[trigger] tracks[j]) == 0,
    ensures
        shares(tracks, n) == 0,
    decreases n,
{
    if n > 0 {
        no_shares(tracks, n - 1);
        one_share_more(tracks, n);
        assert(share_of(tracks[n - 1]) == 0);
    }
}

/// A `minmax()` track with a maximum in cells ends up between its bounds, the
/// minimum winning over a smaller maximum, and as long as it had grown where
/// that is between them.
pub proof fn a_bounded_track_keeps_its_bounds(
    tracks: Seq<GridTrack>,
    used: Seq<i32>,
    axis: GridTrackAxis,
    gap: i32,
    k: int,
    min: Length,
    max: Length,
)
    requires
        0 <= k < tracks.len() == used.len(),
        tracks[k] == GridTrack::MinMax(GridMin::Fixed(min), GridMax::Fixed(max)),
    ensures
        ({
            let size = tracks_fitted(tracks, used, axis, gap)[k];
            &&& 0 <= size
            &&& axis.length(min) <= size
            &&& size <= axis.length(max) || size == axis.length(min) || size == 0
        }),
{
}

/// Before anything is put in it, a track in cells is as long as it asks to be,
/// if the grid is, and any other starts from nothing.
pub proof fn a_fixed_track_is_as_long_as_it_asks(
    tracks: Seq<GridTrack>,
    axis: GridTrackAxis,
    gap: i32,
    k: int,
)
    requires
        0 <= k < tracks.len() <= i32::MAX,
        0 <= gap,
        0 < axis.available(),
    ensures
        ({
            let r = tracks_resolved(tracks, axis, gap);
            let room = axis.available() - gap * (tracks.len() - 1);
            &&& r.len() == tracks.len()
            &&& 0 <= r[k]
            &&& match tracks[k] {
                GridTrack::Fixed(len) => {
                    &&& 0 <= axis.length(len) <= room ==> r[k] == axis.length(len)
                    &&& 0 <= room < axis.length(len) ==> r[k] == room
                },
                GridTrack::MinMax(GridMin::Fixed(len), _) => {
                    &&& 0 <= axis.length(len) <= room ==> r[k] == axis.length(len)
                    &&& 0 <= room < axis.length(len) ==> r[k] == room
                },
                _ => r[k] == 0,
            }
        }),
{
    let n = tracks.len() as int;
    assert(0 <= gap * (n - 1)) by (nonlinear_arith)
        requires
            0 <= gap,
            1 <= n,
    ;
}

// ---- tracks one after another ----------------------------------------------

proof fn offsets_are_exact(tracks: Seq<i32>, at: int, gap: i32, i: int, acc: i32)
    requires
        0 <= i <= at <= tracks.len(),
        0 <= gap,
        0 <= acc,
        none_negative(tracks),
        acc + sum(ints(tracks).subrange(i, at)) + gap * (at - i) <= i32::MAX,
    ensures
        offset_from(tracks, at, gap, i, acc) == acc + sum(ints(tracks).subrange(i, at)) + gap * (at
            - i),
    decreases at - i,
{
    let all = ints(tracks);
    if i < at {
        let one = all.subrange(i, at);
        let rest = all.subrange(i + 1, at);
        first_of_a_sum(one);
        assert(one.skip(1) =~= rest);
        assert(gap * (at - i) == gap * (at - i - 1) + gap) by (nonlinear_arith);
        assert(gap * (at - i - 1) >= 0) by (nonlinear_arith)
            requires
                0 <= gap,
                at - i - 1 >= 0,
        ;
        assert forall|j: int| 0 <= j < rest.len() implies 0 <= #[trigger] rest[j] by {
            assert(0 <= tracks[i + 1 + j]);
        }
        sum_is_not_negative(rest);
        assert(0 <= tracks[i]);
        assert(one[0] == tracks[i]);
        offsets_are_exact(tracks, at, gap, i + 1, plus(plus(acc, tracks[i]), gap));
    } else {
        assert(all.subrange(i, at) =~= Seq::<int>::empty());
        assert(gap * 0 == 0);
    }
}

proof fn first_of_a_sum(s: Seq<int>)
    requires
        0 < s.len(),
    ensures
        sum(s) == s[0] + sum(s.skip(1)),
    decreases s.len(),
{
    if s.len() > 1 {
        first_of_a_sum(s.drop_last());
        assert(s.drop_last().skip(1) =~= s.skip(1).drop_last());
    } else {
        assert(s.skip(1) =~= Seq::<int>::empty());
        assert(s.drop_last() =~= Seq::<int>::empty());
    }
}

pub(crate) proof fn parts_of_a_sum(s: Seq<int>, m: int)
    requires
        0 <= m <= s.len(),
    ensures
        sum(s) == sum(s.take(m)) + sum(s.skip(m)),
    decreases s.len() - m,
{
    if m < s.len() {
        parts_of_a_sum(s, m + 1);
        sum_step(s, m);
        first_of_a_sum(s.skip(m));
        assert(s.skip(m).skip(1) =~= s.skip(m + 1));
    } else {
        assert(s.take(m) =~= s);
        assert(s.skip(m) =~= Seq::<int>::empty());
    }
}

/// Tracks lie one after another, a gap between each two: the first starts at
/// the near edge, and what starts behind some tracks starts a gap past where
/// they end. So no two items of different tracks overlap.
pub proof fn tracks_follow_one_another(tracks: Seq<i32>, gap: i32, at: int, span: int)
    requires
        0 <= at,
        0 < span,
        at + span <= tracks.len() <= i32::MAX,
        0 <= gap,
        none_negative(tracks),
        sum(ints(tracks)) + gap * tracks.len() <= i32::MAX,
    ensures
        offset_from(tracks, 0, gap, 0, 0) == 0,
        offset_from(tracks, at + span, gap, 0, 0) == offset_from(tracks, at, gap, 0, 0) + span_of(
            tracks,
            at,
            span,
            gap,
        ) + gap,
        span_of(tracks, at, 1, gap) == tracks[at],
        offset_from(tracks, at, gap, 0, 0) == sum(ints(tracks).take(at)) + gap * at,
{
    let all = ints(tracks);
    let n = tracks.len() as int;
    let end = at + span;
    assert forall|j: int| 0 <= j < all.len() implies 0 <= #[trigger] all[j] by {
        assert(0 <= tracks[j]);
    }
    parts_of_a_sum(all, at);
    parts_of_a_sum(all, end);
    parts_of_a_sum(all.take(end), at);
    assert(all.take(end).take(at) =~= all.take(at));
    assert(all.take(end).skip(at) =~= all.subrange(at, end));
    sum_is_not_negative(all.skip(at));
    sum_is_not_negative(all.skip(end));
    sum_is_not_negative(all.take(at));
    assert(all.subrange(0, at) =~= all.take(at));
    assert(all.subrange(0, end) =~= all.take(end));
    assert(gap * at <= gap * n && gap * end <= gap * n && 0 <= gap * (span - 1) <= gap * n && gap
        * end == gap * at + gap * (span - 1) + gap && 0 <= gap * at) by (nonlinear_arith)
        requires
            0 <= gap,
            0 <= at,
            0 < span,
            end == at + span,
            end <= n,
    ;
    offsets_are_exact(tracks, at, gap, 0, 0);
    offsets_are_exact(tracks, end, gap, 0, 0);
    let some = tracks.subrange(at, end);
    assert(ints(some) =~= all.subrange(at, end));
    assert forall|j: int| 0 <= j < some.len() implies 0 <= #[trigger] some[j] by {
        assert(0 <= tracks[at + j]);
    }
    a_total_is_a_sum(some);
    let one = tracks.subrange(at, at + 1);
    assert(one =~= seq![tracks[at]]);
    assert(one.drop_last() =~= Seq::<i32>::empty());
    assert(total(one.drop_last()) == 0);
    assert(0 <= tracks[at]);
    assert(gap * 0 == 0);
}

// ---- where items go --------------------------------------------------------

/// A place that an item could have: where it asks to be, if it does, on the
/// grid, and free.
pub open spec fn could_be(
    placed: Seq<GridItem>,
    row: Option<usize>,
    col: Option<usize>,
    rs: usize,
    cs: usize,
    columns: usize,
    r: int,
    c: int,
) -> bool {
    &&& row matches Some(n) ==> r == n
    &&& col matches Some(n) ==> c == n
    &&& 0 <= c && c + cs <= columns
    &&& 0 <= r < MAX_TRACKS
    &&& grid_free(placed, r, c, rs as int, cs as int)
}

proof fn the_first_place_in_a_row(
    placed: Seq<GridItem>,
    row: Option<usize>,
    col: Option<usize>,
    rs: usize,
    cs: usize,
    columns: usize,
    r: usize,
    c: int,
    x: int,
)
    requires
        0 <= c <= x < columns,
        row is None,
        could_be(placed, row, col, rs, cs, columns, r as int, x),
    ensures
        find_in_row(placed, row, col, rs, cs, columns, r, c) matches Some(at) && at.0 == r && at.1
            <= x,
    decreases x - c,
{
    let cc = match col {
        Some(n) => n,
        None => c as usize,
    };
    if !(cc + cs <= columns && grid_free(placed, r as int, cc as int, rs as int, cs as int)) {
        the_first_place_in_a_row(placed, row, col, rs, cs, columns, r, c + 1, x);
    }
}

/// An item that names no row goes to the first place there is for it, row by
/// row and from the left: if it could be at row `r`, column `c`, it is there or
/// before.
pub proof fn an_item_goes_to_the_first_free_place(
    placed: Seq<GridItem>,
    col: Option<usize>,
    rs: usize,
    cs: usize,
    columns: usize,
    from: int,
    r: int,
    c: int,
)
    requires
        0 <= from <= r,
        0 < cs,
        could_be(placed, None, col, rs, cs, columns, r, c),
    ensures
        find_from(placed, None, col, rs, cs, columns, from) matches Some(at) && (at.0 < r || (at.0
            == r && at.1 <= c)),
    decreases r - from,
{
    match find_in_row(placed, None, col, rs, cs, columns, from as usize, 0) {
        Some(at) => {
            found_in_its_row(placed, col, rs, cs, columns, from as usize, 0);
            if from == r {
                the_first_place_in_a_row(placed, None, col, rs, cs, columns, r as usize, 0, c);
            }
        },
        None => {
            if from == r {
                the_first_place_in_a_row(placed, None, col, rs, cs, columns, r as usize, 0, c);
            } else {
                an_item_goes_to_the_first_free_place(
                    placed,
                    col,
                    rs,
                    cs,
                    columns,
                    from + 1,
                    r,
                    c,
                );
            }
        },
    }
}

proof fn found_in_its_row(
    placed: Seq<GridItem>,
    col: Option<usize>,
    rs: usize,
    cs: usize,
    columns: usize,
    r: usize,
    c: int,
)
    requires
        0 <= c,
    ensures
        find_in_row(placed, None, col, rs, cs, columns, r, c) matches Some(at) ==> at.0 == r,
    decreases columns - c,
{
    if c < columns {
        found_in_its_row(placed, col, rs, cs, columns, r, c + 1);
    }
}

/// An item that names a line starts at the track behind it, lines being counted
/// from one, and one that names two covers the tracks between them; a span is a
/// number of tracks. One that names a line the grid has not is put on its last
/// track, and none reaches past the end.
pub proof fn an_item_covers_the_tracks_it_names(a: usize, b: usize, n: usize, limit: usize)
    requires
        1 <= a <= limit,
        a < b <= limit + 1,
        1 <= n,
        a - 1 + n <= limit,
    ensures
        grid_axis((GridPlacement::Line(a), GridPlacement::Line(b)), limit) == (
            Some((a - 1) as usize),
            (b - a) as usize,
        ),
        grid_axis((GridPlacement::Line(a), GridPlacement::Auto), limit) == (
            Some((a - 1) as usize),
            1usize,
        ),
        grid_axis((GridPlacement::Line(a), GridPlacement::Span(n)), limit) == (
            Some((a - 1) as usize),
            n,
        ),
        grid_axis((GridPlacement::Span(n), GridPlacement::Auto), limit) == (None::<usize>, n),
        grid_axis((GridPlacement::Auto, GridPlacement::Span(n)), limit) == (None::<usize>, n),
        grid_axis((GridPlacement::Auto, GridPlacement::Auto), limit) == (None::<usize>, 1usize),
        n < b ==> grid_axis((GridPlacement::Span(n), GridPlacement::Line(b)), limit) == (
            Some((b - 1 - n) as usize),
            n,
        ),
        2 <= b ==> grid_axis((GridPlacement::Auto, GridPlacement::Line(b)), limit) == (
            Some((b - 2) as usize),
            1usize,
        ),
{
}

/// No item is placed off the grid it asks for: it starts on a track there is and
/// covers at least one.
pub proof fn no_item_reaches_past_its_grid(
    pair: (GridPlacement, GridPlacement),
    limit: usize,
)
    requires
        1 <= limit,
    ensures
        ({
            let (at, span) = grid_axis(pair, limit);
            &&& span <= limit
            &&& at matches Some(n) ==> n < limit && n + span <= limit && 1 <= span
        }),
{
}

proof fn columns_only_grow(
    ctx: Ctx<'_>,
    columns: Seq<GridTrack>,
    widths: Seq<i32>,
    placed: Seq<GridItem>,
    k: int,
)
    requires
        0 <= k <= placed.len(),
        columns.len() == widths.len(),
    ensures
        ({
            let r = columns_measured(ctx, columns, widths, placed, k);
            &&& r.len() == widths.len()
            &&& forall|c: int| 0 <= c < r.len() ==> widths[c] <= #[trigger] r[c]
            &&& forall|j: int|
                k <= j < placed.len() && (#[trigger] placed[j]).cspan == 1 && placed[j].col
                    < columns.len() && grows_with_content(columns[placed[j].col as int])
                    ==> ctx.sizes(placed[j].child).min <= r[placed[j].col as int]
            &&& forall|c: int|
                0 <= c < r.len() ==> #[trigger] r[c] == widths[c] || (grows_with_content(columns[c])
                    && exists|j: int|
                    k <= j < placed.len() && (#[trigger] placed[j]).col == c && placed[j].cspan == 1
                        && ctx.sizes(placed[j].child).min == r[c])
        }),
    decreases placed.len() - k,
{
    if k < placed.len() {
        let p = placed[k];
        let next = if p.cspan == 1 && p.col < columns.len() && grid_column_accepts_content(
            columns[p.col as int],
        ) {
            widths.update(p.col as int, larger(widths[p.col as int], ctx.sizes(p.child).min))
        } else {
            widths
        };
        columns_only_grow(ctx, columns, next, placed, k + 1);
        let r = columns_measured(ctx, columns, widths, placed, k);
        assert forall|c: int| 0 <= c < r.len() implies widths[c] <= #[trigger] r[c] by {
            assert(next[c] <= r[c]);
        }
        assert forall|j: int|
            k <= j < placed.len() && (#[trigger] placed[j]).cspan == 1 && placed[j].col
                < columns.len() && grows_with_content(
                columns[placed[j].col as int],
            ) implies ctx.sizes(placed[j].child).min <= r[placed[j].col as int] by {
            if j == k {
                assert(next[p.col as int] <= r[p.col as int]);
            }
        }
        assert forall|c: int| 0 <= c < r.len() implies #[trigger] r[c] == widths[c] || (
        grows_with_content(columns[c]) && exists|j: int|
            k <= j < placed.len() && (#[trigger] placed[j]).col == c && placed[j].cspan == 1
                && ctx.sizes(placed[j].child).min == r[c]) by {
            if r[c] == next[c] {
                if next[c] != widths[c] {
                    assert(placed[k].col == c && placed[k].cspan == 1);
                }
            } else {
                let j = choose|j: int|
                    k + 1 <= j < placed.len() && (#[trigger] placed[j]).col == c
                        && placed[j].cspan == 1 && ctx.sizes(placed[j].child).min == r[c];
                assert(placed[j].col == c);
            }
        }
    }
}

/// A track that is as wide as what is in it.
pub open spec fn grows_with_content(track: GridTrack) -> bool {
    match track {
        GridTrack::Auto => true,
        GridTrack::MinMax(GridMin::Auto, _) => true,
        _ => false,
    }
}

/// A column that is as wide as what is in it is no narrower than any item of
/// that one column can be, and no wider than it was or one of them needs.
pub proof fn a_column_holds_its_items(
    ctx: Ctx<'_>,
    columns: Seq<GridTrack>,
    widths: Seq<i32>,
    placed: Seq<GridItem>,
    j: int,
    c: int,
)
    requires
        0 <= j < placed.len(),
        0 <= c < columns.len() == widths.len(),
        placed[j].cspan == 1,
        placed[j].col < columns.len(),
    ensures
        ({
            let r = columns_measured(ctx, columns, widths, placed, 0);
            &&& r.len() == widths.len()
            &&& grows_with_content(columns[placed[j].col as int]) ==> ctx.sizes(placed[j].child).min
                <= r[placed[j].col as int]
            &&& !grows_with_content(columns[c]) ==> r[c] == widths[c]
            &&& r[c] == widths[c] || exists|i: int|
                0 <= i < placed.len() && (#[trigger] placed[i]).col == c && ctx.sizes(
                    placed[i].child,
                ).min == r[c]
        }),
{
    columns_only_grow(ctx, columns, widths, placed, 0);
    let r = columns_measured(ctx, columns, widths, placed, 0);
    if r[c] != widths[c] {
        let i = choose|i: int|
            0 <= i < placed.len() && (#[trigger] placed[i]).col == c && placed[i].cspan == 1
                && ctx.sizes(placed[i].child).min == r[c];
        assert(placed[i].col == c);
    }
}

/// The boxes of laid-out items.
pub open spec fn child_ids(children: Seq<GridChild>) -> Seq<BoxId> {
    children.map_values(|c: GridChild| c.id)
}

/// Every item of a grid ends up in the corner of its cell: its margin box starts
/// where its column and its row do, and it is as big as it was.
pub proof fn every_item_stands_in_its_cell(
    cv: Canvas,
    children: Seq<GridChild>,
    k: int,
    plan: GridPlan,
    heights: Seq<i32>,
    ends: Seq<nat>,
)
    requires
        0 <= k <= children.len(),
        plots(cv.boxes, child_ids(children), ends),
        forall|j: int| 0 <= j < children.len() ==> is_tame(cv.dims((#[trigger] children[j]).id)),
        is_edge(plan.content.x) && is_edge(plan.content.y),
        forall|j: int|
            0 <= j < children.len() ==> 0 <= offset_from(
                plan.widths,
                (#[trigger] children[j]).col as int,
                plan.col_gap,
                0,
                0,
            ) <= 0x0800_0000 && 0 <= offset_from(
                heights,
                children[j].row as int,
                plan.row_gap,
                0,
                0,
            ) <= 0x0800_0000,
    ensures
        ({
            let r = grid_moved(cv, children, k, plan, heights);
            &&& plots(r.boxes, child_ids(children), ends)
            &&& r.boxes.len() == cv.boxes.len()
            &&& forall|j: int|
                k <= j < children.len() ==> {
                    let c = #[trigger] children[j];
                    let (was, now) = (cv.dims(c.id), r.dims(c.id));
                    &&& now.margin_box().x == plan.content.x + offset_from(
                        plan.widths,
                        c.col as int,
                        plan.col_gap,
                        0,
                        0,
                    )
                    &&& now.margin_box().y == plan.content.y + offset_from(
                        heights,
                        c.row as int,
                        plan.row_gap,
                        0,
                        0,
                    )
                    &&& now.content.width == was.content.width
                    &&& now.content.height == was.content.height
                }
            &&& forall|j: int|
                0 <= j < k ==> r.dims((#[trigger] children[j]).id) == cv.dims(children[j].id)
        }),
    decreases children.len() - k,
{
    if k < children.len() {
        let ids = child_ids(children);
        let c = children[k];
        assert(ids[k] == c.id);
        let x = plus(plan.content.x, offset_from(plan.widths, c.col as int, plan.col_gap, 0, 0));
        let y = plus(plan.content.y, offset_from(heights, c.row as int, plan.row_gap, 0, 0));
        let d = cv.dims(c.id);
        assert(is_tame(cv.dims(children[k].id)));
        let (dx, dy) = (minus(x, d.margin_box().x), minus(y, d.margin_box().y));
        let next = cv.moved(c.id, dx, dy);
        a_plot_is_placed(cv, ids, ends, k, dx, dy, next.dims(c.id));
        let e = next.dims(c.id);
        assert(e.margin_box().x == x && e.margin_box().y == y);
        assert(next.boxes =~= next.with_dims(c.id, e).boxes);
        assert forall|j: int| 0 <= j < children.len() && j != k implies next.dims(
            (#[trigger] children[j]).id,
        ) == cv.dims(children[j].id) by {
            assert(ids[j] == children[j].id);
            assert(next.boxes[ids[j].0 as int] == cv.boxes[ids[j].0 as int]);
        }
        assert forall|j: int| 0 <= j < children.len() implies is_tame(
            next.dims((#[trigger] children[j]).id),
        ) by {
            if j != k {
                assert(next.dims(children[j].id) == cv.dims(children[j].id));
            }
        }
        every_item_stands_in_its_cell(next, children, k + 1, plan, heights, ends);
    }
}

// ---- what items do to rows -------------------------------------------------

impl<'a> Ctx<'a> {
    proof fn rows_only_grow_with_items(
        &self,
        rec: Recipe,
        cv: Canvas,
        placed: Seq<GridItem>,
        k: int,
        plan: GridPlan,
        heights: Seq<i32>,
        children: Seq<GridChild>,
    )
        requires
            0 <= k,
            heights.len() == plan.rows.len(),
        ensures
            ({
                let r = self.grid_items_laid(rec, cv, placed, k, plan, heights, children).1;
                &&& r.len() == heights.len()
                &&& forall|i: int| 0 <= i < r.len() ==> heights[i] <= #[trigger] r[i]
                &&& forall|i: int|
                    0 <= i < r.len() && !grid_row_accepts_content(plan.rows[i], plan.definite)
                        ==> #[trigger] r[i] == heights[i]
            }),
        decreases placed.len() - k,
    {
        if k < placed.len() {
            let p = placed[k];
            let (cv2, laid) = self.grid_item_laid(rec, cv, p, plan);
            match laid {
                None => {
                    self.rows_only_grow_with_items(
                        rec,
                        cv2,
                        placed,
                        k + 1,
                        plan,
                        heights,
                        children,
                    );
                },
                Some(id) => {
                    let h = larger(cv2.dims(id).margin_box().height, 0);
                    let grown = if p.rspan == 1 && p.row < plan.rows.len()
                        && grid_row_accepts_content(plan.rows[p.row as int], plan.definite) {
                        heights.update(p.row as int, larger(heights[p.row as int], h))
                    } else {
                        heights
                    };
                    self.rows_only_grow_with_items(
                        rec,
                        cv2,
                        placed,
                        k + 1,
                        plan,
                        grown,
                        children.push(GridChild { id, row: p.row, col: p.col }),
                    );
                    let r = self.grid_items_laid(rec, cv, placed, k, plan, heights, children).1;
                    assert forall|i: int| 0 <= i < r.len() implies heights[i]
                        <= #[trigger] r[i] by {
                        assert(grown[i] <= r[i]);
                    }
                    assert forall|i: int|
                        0 <= i < r.len() && !grid_row_accepts_content(
                            plan.rows[i],
                            plan.definite,
                        ) implies #[trigger] r[i] == heights[i] by {
                        assert(r[i] == grown[i]);
                    }
                },
            }
        }
    }

    /// A row that grows with what is in it is at least as tall as the margin box of
    /// each item that is in that row alone; a row that does not stays as it is.
    pub proof fn a_row_holds_its_items(
        &self,
        rec: Recipe,
        cv: Canvas,
        placed: Seq<GridItem>,
        k: int,
        plan: GridPlan,
        heights: Seq<i32>,
        children: Seq<GridChild>,
        i: int,
    )
        requires
            0 <= k < placed.len(),
            heights.len() == plan.rows.len(),
            placed[k].rspan == 1,
            placed[k].row < plan.rows.len(),
            0 <= i < plan.rows.len(),
        ensures
            ({
                let r = self.grid_items_laid(rec, cv, placed, k, plan, heights, children).1;
                let (cv2, laid) = self.grid_item_laid(rec, cv, placed[k], plan);
                let row = placed[k].row as int;
                &&& plan.rows[row] is Auto && laid is Some ==> cv2.dims(
                    laid->0,
                ).margin_box().height <= r[row]
                &&& heights[row] <= r[row]
                &&& plan.rows[i] is Fixed && plan.definite ==> r[i] == heights[i]
            }),
    {
        self.rows_only_grow_with_items(rec, cv, placed, k, plan, heights, children);
        let p = placed[k];
        let (cv2, laid) = self.grid_item_laid(rec, cv, p, plan);
        if let Some(id) = laid {
            let h = larger(cv2.dims(id).margin_box().height, 0);
            let grown = if p.rspan == 1 && p.row < plan.rows.len() && grid_row_accepts_content(
                plan.rows[p.row as int],
                plan.definite,
            ) {
                heights.update(p.row as int, larger(heights[p.row as int], h))
            } else {
                heights
            };
            self.rows_only_grow_with_items(
                rec,
                cv2,
                placed,
                k + 1,
                plan,
                grown,
                children.push(GridChild { id, row: p.row, col: p.col }),
            );
            let r = self.grid_items_laid(rec, cv, placed, k, plan, heights, children).1;
            assert(grown[p.row as int] <= r[p.row as int]);
        }
    }

    /// A block in a grid is laid out in its columns: as wide as its style makes it
    /// in a container as wide as they are, gaps between them and all.
    pub proof fn an_item_is_laid_out_in_its_columns(
        &self,
        rec: Recipe,
        cv: Canvas,
        p: GridItem,
        plan: GridPlan,
    )
        requires
            self.dom.is_element(p.child),
            !self.hides(p.child),
            kind_of(self.dom, p.child, self.dom.tag_of(p.child)) is None,
            is_block_level(self.style(p.child).display),
            self.style(p.child).position is Static,
            self.dom.tag_of(p.child) != "table"@,
            !own_path(self.dom.tag_of(p.child)),
            p.col + p.cspan <= plan.widths.len() <= i32::MAX,
            0 < p.cspan,
            0 <= plan.col_gap,
            none_negative(plan.widths),
            0 < sum(ints(plan.widths.subrange(p.col as int, p.col + p.cspan))),
            sum(ints(plan.widths)) + plan.col_gap * plan.widths.len() <= i32::MAX,
            forall|a: BoxArgs|
                a.cv == cv && a.id == p.child ==> ({
                    let b = #[trigger] (rec.build)(a);
                    placed_as(b.cv.dims(b.id), a.dims)
                }),
        ensures
            ({
                let (end, id) = self.grid_item_laid(rec, cv, p, plan);
                let span = sum(ints(plan.widths.subrange(p.col as int, p.col + p.cspan)))
                    + plan.col_gap * (p.cspan - 1);
                let c = self.style(p.child);
                &&& id is Some
                &&& end.dims(id->0).content.width == resolve_block_dims(
                    &c,
                    span as i32,
                    None,
                ).content.width
            }),
    {
        reveal(Ctx::grid_item_laid);
        reveal(Ctx::lay_node);
        reveal(Ctx::element_laid);
        reveal(Ctx::block_laid);
        let at = p.col as int;
        let span = p.cspan as int;
        let gap = plan.col_gap;
        let n = plan.widths.len() as int;
        tracks_follow_one_another(plan.widths, gap, at, span);
        let some = plan.widths.subrange(at, at + span);
        let all = ints(plan.widths);
        assert forall|j: int| 0 <= j < some.len() implies 0 <= #[trigger] some[j] by {
            assert(0 <= plan.widths[at + j]);
        }
        assert forall|j: int| 0 <= j < all.len() implies 0 <= #[trigger] all[j] by {
            assert(0 <= plan.widths[j]);
        }
        parts_of_a_sum(all, at + span);
        parts_of_a_sum(all.take(at + span), at);
        assert(all.take(at + span).skip(at) =~= ints(some));
        assert(all.take(at + span).take(at) =~= all.take(at));
        sum_is_not_negative(all.take(at));
        sum_is_not_negative(all.skip(at + span));
        assert(0 <= gap * (span - 1) <= gap * n) by (nonlinear_arith)
            requires
                0 <= gap,
                1 <= span <= n,
        ;
        a_total_is_a_sum(some);
        let w = larger(span_of(plan.widths, at, span, gap), 1);
        assert(w == sum(ints(some)) + gap * (span - 1));
        let x = plus(plan.content.x, offset_from(plan.widths, at, gap, 0, 0));
        let laid = self.lay_node(rec, cv, p.child, x, w, None, 0, 0, plan.pre);
        let c = self.style(p.child);
        let d = resolve_block_dims(&c, w, None);
        let placed = content_at(
            d.with_margin(EdgeSizes { top: 0, ..d.margin }),
            x,
            0,
            0,
        );
        let a = BoxArgs {
            cv,
            id: p.child,
            computed: c,
            dims: placed,
            ch: None,
            pre: plan.pre || self.dom.tag_of(p.child) == "pre"@,
        };
        let b = (rec.build)(a);
        assert(placed_as(b.cv.dims(b.id), a.dims));
        assert(laid.cv == b.cv && laid.id == Some(b.id));
    }
}

} // verus!
