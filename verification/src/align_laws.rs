//! Where the items of a flex line go: what `justify-content`, the alignment
//! across a line and wrapping each promise.

use vstd::prelude::*;

use crate::cells::{larger, minus, plus};
use crate::flex::{
    across_line, autos, gaps, line_end, line_ends, line_used, lines_used, places, places_from,
    room_before, share, stacked, stacked_from, CrossItem, Item, Placed, PlacedLine, Slot,
};
use crate::flex_laws::{
    line_fits_a_number, line_needs, line_use_is_exact, outers, outers_are_the_sum, outers_grow,
    places_are_exact, rooms, rooms_add_up, shares, shares_add_up, slot_end,
};
use crate::grid_laws::{a_total_is_a_sum, ints, none_negative};
use crate::style::{AlignContent, AlignItems, JustifyContent};
use crate::sums::{sum, sum_step};

verus! {

/// No item of a line has an `auto` margin along it.
pub open spec fn no_auto_margins(slots: Seq<Slot>) -> bool {
    forall|k: int|
        0 <= k < slots.len() ==> !(#[trigger] slots[k]).auto_start && !slots[k].auto_end
}

/// What is between item `i` of a line and the next, besides the gap.
pub open spec fn room_after(slots: Seq<Slot>, p: Seq<Placed>, gap: i32, i: int) -> int {
    p[i + 1].main_start - slot_end(slots, p, i) - gap
}

/// Two numbers that differ by no more than `d`.
pub open spec fn within(a: int, b: int, d: int) -> bool {
    -d <= a - b <= d
}

proof fn no_autos(slots: Seq<Slot>, n: int)
    requires
        0 <= n <= slots.len(),
        no_auto_margins(slots),
    ensures
        autos(slots, n) == 0,
    decreases n,
{
    if n > 0 {
        no_autos(slots, n - 1);
        assert(!slots[n - 1].auto_start && !slots[n - 1].auto_end);
    }
}

proof fn shares_are_alike(free: i32, slots: int, i: int, j: int)
    requires
        0 < slots,
        0 <= free,
        0 <= i <= j,
    ensures
        0 <= share(free, slots, j) <= share(free, slots, i) <= share(free, slots, j) + 1,
{
    if free > 0 {
        let (q, m) = (free as int / slots, free as int % slots);
        vstd::arithmetic::div_mod::lemma_fundamental_div_mod(free as int, slots);
        vstd::arithmetic::div_mod::lemma_mod_bound(free as int, slots);
        assert(0 <= q <= free && (0 < m ==> q + 1 <= free)) by (nonlinear_arith)
            requires
                free == slots * q + m,
                0 <= m < slots,
                0 < slots,
                0 < free,
        ;
    }
}

/// All the shares are all there is.
proof fn all_shares(free: i32, slots: int)
    requires
        0 < slots,
        0 <= free,
    ensures
        shares(free, slots, slots) == free,
{
    shares_add_up(free, slots, slots);
    vstd::arithmetic::div_mod::lemma_fundamental_div_mod(free as int, slots);
    vstd::arithmetic::div_mod::lemma_mod_bound(free as int, slots);
}

/// What is before, between and after the items of a line that has room left.
proof fn room_is_what_justify_says(
    slots: Seq<Slot>,
    gap: i32,
    inner: i32,
    justify: JustifyContent,
    i: int,
)
    requires
        line_fits_a_number(slots, gap, inner),
        no_auto_margins(slots),
        line_needs(slots, gap) <= inner,
        0 <= i < slots.len(),
    ensures
        ({
            let p = places(slots, gap, inner, justify);
            let n = slots.len() as int;
            let free = (inner - line_needs(slots, gap)) as i32;
            &&& p.len() == n
            &&& 0 <= inner - line_needs(slots, gap) <= i32::MAX
            &&& p[0].main_start == room_before(justify, n, free, 0)
            &&& i + 1 < n ==> room_after(slots, p, gap, i) == room_before(justify, n, free, i + 1)
            &&& inner - slot_end(slots, p, n - 1) == free - rooms(justify, n, free, n)
            &&& slot_end(slots, p, i) == p[i].main_start + slots[i].outer
        }),
{
    let n = slots.len() as int;
    no_autos(slots, n);
    assert(gap * (n - 1) >= 0) by (nonlinear_arith)
        requires
            gap >= 0,
            n >= 1,
    ;
    outers_are_the_sum(slots, n);
    assert(slots.map_values(|s: Slot| s.outer as int).take(n) =~= slots.map_values(
        |s: Slot| s.outer as int,
    ));
    outers_grow(slots, 0, n);
    line_use_is_exact(slots, gap, inner, gaps(gap, n), 0);
    let free = larger(minus(inner, line_used(slots, gap)), 0);
    assert(gap * 0 == 0);
    places_are_exact(slots, gap, inner, free, justify, 0, 0, 0);
    places_are_exact(slots, gap, inner, free, justify, 0, 0, i);
    places_are_exact(slots, gap, inner, free, justify, 0, 0, n - 1);
    assert(rooms(justify, n, free, 0) == 0);
    assert(rooms(justify, n, free, 1) == rooms(justify, n, free, 0) + room_before(
        justify,
        n,
        free,
        0,
    ));
    assert(outers(slots, 0) == 0);
    if i + 1 < n {
        places_are_exact(slots, gap, inner, free, justify, 0, 0, i + 1);
        assert(gap * (i + 1) == gap * i + gap) by (nonlinear_arith);
        assert(outers(slots, i + 1) == outers(slots, i) + slots[i].outer);
        assert(rooms(justify, n, free, i + 2) == rooms(justify, n, free, i + 1) + room_before(
            justify,
            n,
            free,
            i + 1,
        ));
    }
    assert(outers(slots, n) == outers(slots, n - 1) + slots[n - 1].outer);
}

/// On a line with room to spare and no `auto` margins, the room goes where
/// `justify-content` says. At the end, before the first item, or half of it on
/// either side, the items otherwise a gap apart; or between them alone, around
/// each of them, or before, between and after them all, in equal parts to the
/// rounding of a cell.
pub proof fn room_goes_where_justify_content_says(
    slots: Seq<Slot>,
    gap: i32,
    inner: i32,
    justify: JustifyContent,
    i: int,
    j: int,
)
    requires
        line_fits_a_number(slots, gap, inner),
        no_auto_margins(slots),
        line_needs(slots, gap) <= inner,
        0 <= i <= j,
        j + 1 < slots.len(),
    ensures
        ({
            let p = places(slots, gap, inner, justify);
            let n = slots.len() as int;
            let free = inner - line_needs(slots, gap);
            let lead = p[0].main_start as int;
            let tail = inner - slot_end(slots, p, n - 1);
            let (a, b) = (room_after(slots, p, gap, i), room_after(slots, p, gap, j));
            match justify {
                JustifyContent::FlexStart => lead == 0 && a == 0 && tail == free,
                JustifyContent::FlexEnd => lead == free && a == 0 && tail == 0,
                JustifyContent::Center => 0 <= lead - tail <= 1 && a == 0 && lead + tail == free,
                JustifyContent::SpaceBetween => lead == 0 && tail == 0 && b <= a <= b + 1,
                JustifyContent::SpaceAround => 0 <= lead - tail <= 1 && within(a, 2 * lead, 2)
                    && within(b, 2 * tail, 2) && b <= a <= b + 2,
                JustifyContent::SpaceEvenly => b <= a <= b + 1 && a <= lead <= a + 1 && tail <= b
                    <= tail + 1,
            }
        }),
{
    let n = slots.len() as int;
    let free = (inner - line_needs(slots, gap)) as i32;
    room_is_what_justify_says(slots, gap, inner, justify, i);
    room_is_what_justify_says(slots, gap, inner, justify, j);
    rooms_add_up(justify, n, free, n);
    shares_add_up(free, 2, 1);
    all_shares(free, 2);
    assert(shares(free, 2, 2) == shares(free, 2, 1) + share(free, 2, 1));
    assert(shares(free, 2, 1) == shares(free, 2, 0) + share(free, 2, 0));
    shares_are_alike(free, 2, 0, 1);
    match justify {
        JustifyContent::SpaceBetween => {
            all_shares(free, n - 1);
            shares_are_alike(free, n - 1, i, j);
        },
        JustifyContent::SpaceAround => {
            let m = 2 * n;
            all_shares(free, m);
            shares_add_up(free, m, m - 1);
            assert(shares(free, m, m) == shares(free, m, m - 1) + share(free, m, m - 1));
            shares_are_alike(free, m, 0, m - 1);
            shares_are_alike(free, m, 0, 2 * i + 1);
            shares_are_alike(free, m, 0, 2 * i + 2);
            shares_are_alike(free, m, 2 * i + 1, 2 * j + 1);
            shares_are_alike(free, m, 2 * i + 2, 2 * j + 2);
            shares_are_alike(free, m, 2 * j + 1, m - 1);
            shares_are_alike(free, m, 2 * j + 2, m - 1);
            shares_add_up(free, m, 2 * i + 1);
            shares_add_up(free, m, 2 * i + 3);
            shares_add_up(free, m, 2 * j + 1);
            shares_add_up(free, m, 2 * j + 3);
            assert(shares(free, m, 2 * i + 3) == shares(free, m, 2 * i + 2) + share(
                free,
                m,
                2 * i + 2,
            ));
            assert(shares(free, m, 2 * i + 2) == shares(free, m, 2 * i + 1) + share(
                free,
                m,
                2 * i + 1,
            ));
            assert(shares(free, m, 2 * j + 3) == shares(free, m, 2 * j + 2) + share(
                free,
                m,
                2 * j + 2,
            ));
            assert(shares(free, m, 2 * j + 2) == shares(free, m, 2 * j + 1) + share(
                free,
                m,
                2 * j + 1,
            ));
        },
        JustifyContent::SpaceEvenly => {
            all_shares(free, n + 1);
            assert(shares(free, n + 1, n + 1) == shares(free, n + 1, n) + share(free, n + 1, n));
            shares_are_alike(free, n + 1, 0, i + 1);
            shares_are_alike(free, n + 1, i + 1, j + 1);
            shares_are_alike(free, n + 1, j + 1, n);
        },
        _ => {},
    }
}

/// A lone item stands where `justify-content` says: at the start, at the end or
/// in the middle.
pub proof fn a_lone_item_stands_where_justify_content_says(
    slots: Seq<Slot>,
    gap: i32,
    inner: i32,
    justify: JustifyContent,
)
    requires
        slots.len() == 1,
        line_fits_a_number(slots, gap, inner),
        no_auto_margins(slots),
        line_needs(slots, gap) <= inner,
    ensures
        ({
            let p = places(slots, gap, inner, justify);
            let lead = p[0].main_start as int;
            let tail = inner - slot_end(slots, p, 0);
            match justify {
                JustifyContent::FlexStart => lead == 0,
                JustifyContent::SpaceBetween => lead == 0,
                JustifyContent::FlexEnd => tail == 0,
                _ => 0 <= lead - tail <= 1,
            }
        }),
{
    let free = (inner - line_needs(slots, gap)) as i32;
    room_is_what_justify_says(slots, gap, inner, justify, 0);
    rooms_add_up(justify, 1, free, 1);
    shares_add_up(free, 2, 1);
    all_shares(free, 2);
    assert(shares(free, 2, 2) == shares(free, 2, 1) + share(free, 2, 1));
    assert(shares(free, 2, 1) == shares(free, 2, 0) + share(free, 2, 0));
    shares_are_alike(free, 2, 0, 1);
}

/// A line with `auto` margins along it hands them all of its room, in equal
/// parts to the rounding of a cell, whatever `justify-content` says: the first
/// item starts at the start and the last ends at the end.
pub proof fn auto_margins_take_the_room(
    slots: Seq<Slot>,
    gap: i32,
    inner: i32,
    justify: JustifyContent,
    i: int,
)
    requires
        line_fits_a_number(slots, gap, inner),
        0 < autos(slots, slots.len() as int),
        line_needs(slots, gap) <= inner,
        0 <= i < slots.len(),
    ensures
        ({
            let p = places(slots, gap, inner, justify);
            let n = slots.len() as int;
            &&& p[0].main_start == 0
            &&& slot_end(slots, p, n - 1) == inner
            &&& i + 1 < n ==> room_after(slots, p, gap, i) == 0
        }),
{
    let n = slots.len() as int;
    assert(gap * (n - 1) >= 0) by (nonlinear_arith)
        requires
            gap >= 0,
            n >= 1,
    ;
    outers_are_the_sum(slots, n);
    assert(slots.map_values(|s: Slot| s.outer as int).take(n) =~= slots.map_values(
        |s: Slot| s.outer as int,
    ));
    outers_grow(slots, 0, n);
    line_use_is_exact(slots, gap, inner, gaps(gap, n), 0);
    let free = larger(minus(inner, line_used(slots, gap)), 0);
    let all = autos(slots, n);
    assert(gap * 0 == 0);
    places_are_exact(slots, gap, inner, free, justify, 0, 0, 0);
    places_are_exact(slots, gap, inner, free, justify, 0, 0, i);
    places_are_exact(slots, gap, inner, free, justify, 0, 0, n - 1);
    all_shares(free, all);
    assert(autos(slots, 0) == 0);
    assert(shares(free, all, 0) == 0);
    assert(outers(slots, 0) == 0);
    assert(outers(slots, n) == outers(slots, n - 1) + slots[n - 1].outer);
    if i + 1 < n {
        places_are_exact(slots, gap, inner, free, justify, 0, 0, i + 1);
        assert(gap * (i + 1) == gap * i + gap) by (nonlinear_arith);
        assert(outers(slots, i + 1) == outers(slots, i) + slots[i].outer);
    }
}

/// An item that fits across its line is aligned as it asks. At the start, at
/// the end, in the middle, or with its baseline on the one the line shares; an
/// `auto` margin on one side takes all the room, and two share it.
pub proof fn an_item_is_aligned_as_it_asks(item: CrossItem, line: i32, deepest: i32)
    requires
        0 <= item.outer <= line,
        item.align is Baseline ==> i32::MIN <= deepest - item.baseline <= i32::MAX,
    ensures
        ({
            let p = across_line(item, line, deepest);
            let free = line - item.outer;
            let after = free - p.cross_start;
            if item.auto_start || item.auto_end {
                &&& p.cross_start == 0
                &&& p.auto_start + p.auto_end == free
                &&& !item.auto_start ==> p.auto_start == 0
                &&& !item.auto_end ==> p.auto_end == 0
                &&& item.auto_start && item.auto_end ==> 0 <= p.auto_start - p.auto_end <= 1
            } else {
                &&& p.auto_start == 0 && p.auto_end == 0
                &&& match item.align {
                    AlignItems::Stretch => p.cross_start == 0,
                    AlignItems::FlexStart => p.cross_start == 0,
                    AlignItems::FlexEnd => after == 0,
                    AlignItems::Center => 0 <= p.cross_start - after <= 1,
                    AlignItems::Baseline => p.cross_start + item.baseline == deepest,
                }
            }
        }),
{
    let free = (line - item.outer) as i32;
    all_shares(free, 2);
    shares_add_up(free, 2, 1);
    assert(shares(free, 2, 2) == shares(free, 2, 1) + share(free, 2, 1));
    assert(shares(free, 2, 1) == shares(free, 2, 0) + share(free, 2, 0));
    shares_are_alike(free, 2, 0, 1);
    all_shares(free, 1);
    assert(shares(free, 1, 1) == shares(free, 1, 0) + share(free, 1, 0));
}

// ---- wrapping --------------------------------------------------------------

/// What items `i..e` take on one line: themselves and the gaps between them.
pub open spec fn run_needs(items: Seq<Item>, gap: i32, i: int, e: int) -> int {
    sum(Seq::new((e - i) as nat, |j: int| items[i + j].hypothetical + items[i + j].outer_edges))
        + gap * (e - i - 1)
}

proof fn one_item_more(items: Seq<Item>, gap: i32, i: int, e: int)
    requires
        0 <= i < e < items.len(),
    ensures
        run_needs(items, gap, i, e + 1) == run_needs(items, gap, i, e) + gap + items[e].hypothetical
            + items[e].outer_edges,
{
    let more = Seq::new(
        (e + 1 - i) as nat,
        |j: int| items[i + j].hypothetical + items[i + j].outer_edges,
    );
    assert(more.drop_last() =~= Seq::new(
        (e - i) as nat,
        |j: int| items[i + j].hypothetical + items[i + j].outer_edges,
    ));
    assert(gap * (e - i) == gap * (e - i - 1) + gap) by (nonlinear_arith);
}

proof fn a_line_is_filled_from(
    items: Seq<Item>,
    inner: i32,
    gap: i32,
    wraps: bool,
    i: int,
    m: int,
    used: i32,
)
    requires
        0 <= i < m <= items.len(),
        used == run_needs(items, gap, i, m),
        0 <= gap,
        0 <= used,
        forall|k: int|
            0 <= k < items.len() ==> 0 <= (#[trigger] items[k]).hypothetical + items[k].outer_edges,
        forall|k: int|
            i < k <= items.len() ==> #[trigger] run_needs(items, gap, i, k) <= i32::MAX,
        m > i + 1 && wraps ==> run_needs(items, gap, i, m) <= inner,
    ensures
        ({
            let e = line_ends(items, inner, gap, wraps, m, used);
            &&& m <= e <= items.len()
            &&& !wraps ==> e == items.len()
            &&& wraps && e > i + 1 ==> run_needs(items, gap, i, e) <= inner
            &&& wraps && e < items.len() ==> run_needs(items, gap, i, e + 1) > inner
        }),
    decreases items.len() - m,
{
    if m < items.len() {
        one_item_more(items, gap, i, m);
        let outer = plus(items[m].hypothetical, items[m].outer_edges);
        assert(run_needs(items, gap, i, m + 1) <= i32::MAX);
        assert(0 <= items[m].hypothetical + items[m].outer_edges);
        if !(wraps && plus(plus(used, gap), outer) > inner) {
            a_line_is_filled_from(
                items,
                inner,
                gap,
                wraps,
                i,
                m + 1,
                plus(plus(used, gap), outer),
            );
        }
    }
}

/// A line of a wrapping container takes as many items as fit: those on it fit
/// its length, unless there is but one, and the next would not have. A container
/// that does not wrap has them all on one line.
pub proof fn a_line_takes_as_many_items_as_fit(
    items: Seq<Item>,
    inner: i32,
    gap: i32,
    wraps: bool,
    i: int,
)
    requires
        0 <= i < items.len(),
        0 <= gap,
        forall|k: int|
            0 <= k < items.len() ==> 0 <= (#[trigger] items[k]).hypothetical + items[k].outer_edges,
        forall|k: int|
            i < k <= items.len() ==> #[trigger] run_needs(items, gap, i, k) <= i32::MAX,
    ensures
        ({
            let e = line_end(items, inner, gap, wraps, i);
            &&& i < e <= items.len()
            &&& !wraps ==> e == items.len()
            &&& wraps && e > i + 1 ==> run_needs(items, gap, i, e) <= inner
            &&& wraps && e < items.len() ==> run_needs(items, gap, i, e + 1) > inner
        }),
{
    let one = Seq::new(
        1nat,
        |j: int| items[i + j].hypothetical + items[i + j].outer_edges,
    );
    assert(one.drop_last() =~= Seq::<int>::empty());
    assert(Seq::new((i + 1 - i) as nat, |j: int| items[i + j].hypothetical + items[i + j].outer_edges)
        =~= one);
    assert(gap * 0 == 0);
    assert(sum(one.drop_last()) == 0);
    assert(one.last() == items[i].hypothetical + items[i].outer_edges);
    assert(sum(one) == one.last());
    assert(run_needs(items, gap, i, i + 1) == items[i].hypothetical + items[i].outer_edges);
    assert(run_needs(items, gap, i, i + 1) <= i32::MAX);
    assert(0 <= items[i].hypothetical + items[i].outer_edges);
    a_line_is_filled_from(
        items,
        inner,
        gap,
        wraps,
        i,
        i + 1,
        plus(items[i].hypothetical, items[i].outer_edges),
    );
}

// ---- lines across their container ------------------------------------------

/// Lines as slots.
spec fn line_slots_of(lines: Seq<i32>) -> Seq<Slot> {
    lines.map_values(|c: i32| Slot { outer: c, auto_start: false, auto_end: false })
}

proof fn packed_lines_are_placed(
    lines: Seq<i32>,
    gap: i32,
    free: i32,
    justify: JustifyContent,
    i: int,
    cursor: i32,
)
    requires
        0 <= i <= lines.len(),
        forall|k: int| 0 <= k < lines.len() ==> 0 <= #[trigger] lines[k],
    ensures
        ({
            let s = stacked_from(lines, gap, free, AlignContent::Pack(justify), i, cursor);
            let p = places_from(line_slots_of(lines), gap, free, justify, i, cursor);
            &&& s.len() == p.len() == lines.len() - i
            &&& forall|k: int|
                0 <= k < s.len() ==> (#[trigger] s[k]).cross_start == p[k].main_start && s[k].cross
                    == lines[i + k]
        }),
    decreases lines.len() - i,
{
    let slots = line_slots_of(lines);
    if i < lines.len() {
        no_autos(slots, slots.len() as int);
        assert(0 <= lines[i]);
        let at = plus(cursor, room_before(justify, lines.len() as int, free, i));
        let next = plus(plus(at, lines[i]), gap);
        packed_lines_are_placed(lines, gap, free, justify, i + 1, next);
        let s = stacked_from(lines, gap, free, AlignContent::Pack(justify), i, cursor);
        let more = stacked_from(lines, gap, free, AlignContent::Pack(justify), i + 1, next);
        let p = places_from(slots, gap, free, justify, i, cursor);
        let rest = places_from(slots, gap, free, justify, i + 1, next);
        assert(s =~= seq![PlacedLine { cross_start: at, cross: lines[i] }] + more);
        assert(p =~= seq![Placed { main_start: at, auto_start: 0, auto_end: 0 }] + rest);
        assert forall|k: int| 0 <= k < s.len() implies (#[trigger] s[k]).cross_start
            == p[k].main_start && s[k].cross == lines[i + k] by {
            if k > 0 {
                assert(s[k] == more[k - 1]);
                assert(p[k] == rest[k - 1]);
            }
        }
    }
}

proof fn slots_need_what_lines_do(lines: Seq<i32>, gap: i32, inner: i32)
    requires
        0 < lines.len() <= i32::MAX,
        0 <= gap,
        none_negative(lines),
        sum(ints(lines)) + gap * (lines.len() - 1) <= inner,
    ensures
        line_fits_a_number(line_slots_of(lines), gap, inner),
        no_auto_margins(line_slots_of(lines)),
        line_needs(line_slots_of(lines), gap) == sum(ints(lines)) + gap * (lines.len() - 1),
        lines_used(lines, gap) == sum(ints(lines)) + gap * (lines.len() - 1),
        line_used(line_slots_of(lines), gap) == lines_used(lines, gap),
        0 <= lines_used(lines, gap),
{
    let slots = line_slots_of(lines);
    let n = lines.len() as int;
    assert(gap * (n - 1) >= 0) by (nonlinear_arith)
        requires
            gap >= 0,
            n >= 1,
    ;
    assert(slots.map_values(|s: Slot| s.outer as int) =~= ints(lines));
    a_total_is_a_sum(lines);
    assert forall|k: int| 0 <= k < slots.len() implies (#[trigger] slots[k]).outer >= 0 by {
        assert(0 <= lines[k]);
    }
    outers_are_the_sum(slots, n);
    assert(slots.map_values(|s: Slot| s.outer as int).take(n) =~= ints(lines));
    outers_grow(slots, 0, n);
    assert(outers(slots, 0) == 0);
    line_use_is_exact(slots, gap, inner, gaps(gap, n), 0);
}

/// What is between line `i` and the next, besides the gap.
pub open spec fn room_below(p: Seq<PlacedLine>, gap: i32, i: int) -> int {
    p[i + 1].cross_start - p[i].cross_start - p[i].cross - gap
}

/// Lines that leave room across their container are packed as `align-content`
/// says, each as big as it was.
pub proof fn lines_are_packed_as_align_content_says(
    lines: Seq<i32>,
    gap: i32,
    inner: i32,
    justify: JustifyContent,
    i: int,
    j: int,
)
    requires
        0 <= i <= j,
        j + 1 < lines.len() <= i32::MAX,
        0 <= gap,
        none_negative(lines),
        sum(ints(lines)) + gap * (lines.len() - 1) <= inner,
    ensures
        ({
            let p = stacked(lines, gap, inner, AlignContent::Pack(justify));
            let n = lines.len() as int;
            let free = inner - sum(ints(lines)) - gap * (n - 1);
            let lead = p[0].cross_start as int;
            let tail = inner - p[n - 1].cross_start - p[n - 1].cross;
            let (a, b) = (room_below(p, gap, i), room_below(p, gap, j));
            &&& p.len() == n
            &&& p[i].cross == lines[i]
            &&& match justify {
                JustifyContent::FlexStart => lead == 0 && a == 0 && tail == free,
                JustifyContent::FlexEnd => lead == free && a == 0 && tail == 0,
                JustifyContent::Center => 0 <= lead - tail <= 1 && a == 0 && lead + tail == free,
                JustifyContent::SpaceBetween => lead == 0 && tail == 0 && b <= a <= b + 1,
                JustifyContent::SpaceAround => 0 <= lead - tail <= 1 && within(a, 2 * lead, 2)
                    && within(b, 2 * tail, 2) && b <= a <= b + 2,
                JustifyContent::SpaceEvenly => b <= a <= b + 1 && a <= lead <= a + 1 && tail <= b
                    <= tail + 1,
            }
        }),
{
    let slots = line_slots_of(lines);
    let n = lines.len() as int;
    slots_need_what_lines_do(lines, gap, inner);
    let free = larger(minus(inner, lines_used(lines, gap)), 0);
    packed_lines_are_placed(lines, gap, free, justify, 0, 0);
    room_goes_where_justify_content_says(slots, gap, inner, justify, i, j);
    room_is_what_justify_says(slots, gap, inner, justify, i);
    room_is_what_justify_says(slots, gap, inner, justify, j);
    room_is_what_justify_says(slots, gap, inner, justify, n - 1);
    let p = stacked(lines, gap, inner, AlignContent::Pack(justify));
    let q = places(slots, gap, inner, justify);
    assert(p[0].cross_start == q[0].main_start);
    assert(p[i].cross_start == q[i].main_start && p[i].cross == lines[i]);
    assert(p[j].cross_start == q[j].main_start && p[j].cross == lines[j]);
    assert(p[i + 1].cross_start == q[i + 1].main_start);
    assert(p[j + 1].cross_start == q[j + 1].main_start);
    assert(p[n - 1].cross_start == q[n - 1].main_start && p[n - 1].cross == lines[n - 1]);
}

proof fn stretched_lines_follow(lines: Seq<i32>, gap: i32, free: i32, inner: i32, i: int, cursor: i32)
    requires
        0 <= i <= lines.len() <= i32::MAX,
        0 < lines.len(),
        0 <= gap,
        0 <= free,
        none_negative(lines),
        free + sum(ints(lines)) + gap * (lines.len() - 1) == inner,
        cursor == (if i < lines.len() {
            sum(ints(lines).take(i)) + gap * i + shares(free, lines.len() as int, i)
        } else {
            cursor as int
        }),
    ensures
        ({
            let n = lines.len() as int;
            let s = stacked_from(lines, gap, free, AlignContent::Stretch, i, cursor);
            &&& s.len() == n - i
            &&& forall|m: int|
                0 <= m < s.len() ==> (#[trigger] s[m]).cross_start == sum(ints(lines).take(i + m))
                    + gap * (i + m) + shares(free, n, i + m) && s[m].cross == lines[i + m] + share(
                    free,
                    n,
                    i + m,
                )
        }),
    decreases lines.len() - i,
{
    let n = lines.len() as int;
    if i < n {
        let all = ints(lines);
        sum_step(all, i);
        crate::table_laws::sums_only_grow(all, i);
        crate::table_laws::sums_only_grow(all, i + 1);
        assert(0 <= lines[i]);
        shares_add_up(free, n, i);
        shares_add_up(free, n, i + 1);
        assert(shares(free, n, i + 1) == shares(free, n, i) + share(free, n, i));
        assert(gap * i <= gap * (n - 1) && 0 <= gap * i && gap * (i + 1) == gap * i + gap)
            by (nonlinear_arith)
            requires
                gap >= 0,
                0 <= i <= n - 1,
        ;
        if i + 1 < n {
            assert(gap * (i + 1) <= gap * (n - 1)) by (nonlinear_arith)
                requires
                    gap >= 0,
                    i + 1 <= n - 1,
            ;
        }
        let cross = plus(lines[i], share(free, n, i));
        let next = plus(plus(cursor, cross), gap);
        stretched_lines_follow(lines, gap, free, inner, i + 1, next);
        let s = stacked_from(lines, gap, free, AlignContent::Stretch, i, cursor);
        let more = stacked_from(lines, gap, free, AlignContent::Stretch, i + 1, next);
        assert(s =~= seq![PlacedLine { cross_start: cursor, cross }] + more);
        assert forall|m: int| 0 <= m < s.len() implies (#[trigger] s[m]).cross_start == sum(
            all.take(i + m),
        ) + gap * (i + m) + shares(free, n, i + m) && s[m].cross == lines[i + m] + share(
            free,
            n,
            i + m,
        ) by {
            if m > 0 {
                assert(s[m] == more[m - 1]);
            }
        }
    }
}

/// Lines that leave room across their container and are stretched fill it: the
/// first starts where it does, each a gap past the one before, the last ends
/// where it does, and they grow alike, to a cell.
pub proof fn stretched_lines_fill_their_container(
    lines: Seq<i32>,
    gap: i32,
    inner: i32,
    i: int,
    j: int,
)
    requires
        0 <= i <= j < lines.len() <= i32::MAX,
        0 <= gap,
        none_negative(lines),
        sum(ints(lines)) + gap * (lines.len() - 1) <= inner,
    ensures
        ({
            let p = stacked(lines, gap, inner, AlignContent::Stretch);
            let n = lines.len() as int;
            &&& p.len() == n
            &&& p[0].cross_start == 0
            &&& p[n - 1].cross_start + p[n - 1].cross == inner
            &&& i + 1 < n ==> room_below(p, gap, i) == 0
            &&& 0 <= p[j].cross - lines[j] <= p[i].cross - lines[i] <= p[j].cross - lines[j] + 1
        }),
{
    let n = lines.len() as int;
    let all = ints(lines);
    slots_need_what_lines_do(lines, gap, inner);
    let free = larger(minus(inner, lines_used(lines, gap)), 0);
    assert(all.take(0) =~= Seq::<int>::empty());
    assert(gap * 0 == 0);
    assert(shares(free, n, 0) == 0);
    stretched_lines_follow(lines, gap, free, inner, 0, 0);
    let p = stacked(lines, gap, inner, AlignContent::Stretch);
    all_shares(free, n);
    shares_are_alike(free, n, i, j);
    shares_add_up(free, n, i);
    assert(shares(free, n, n) == shares(free, n, n - 1) + share(free, n, n - 1));
    sum_step(all, n - 1);
    assert(all.take(n) =~= all);
    assert(p[0].cross_start == sum(all.take(0)) + gap * 0 + shares(free, n, 0));
    assert(p[n - 1].cross_start == sum(all.take(n - 1)) + gap * (n - 1) + shares(
        free,
        n,
        n - 1,
    ));
    assert(p[i].cross == lines[i] + share(free, n, i));
    assert(p[j].cross == lines[j] + share(free, n, j));
    if i + 1 < n {
        sum_step(all, i);
        assert(p[i + 1].cross_start == sum(all.take(i + 1)) + gap * (i + 1) + shares(
            free,
            n,
            i + 1,
        ));
        assert(shares(free, n, i + 1) == shares(free, n, i) + share(free, n, i));
        assert(gap * (i + 1) == gap * i + gap) by (nonlinear_arith);
    }
}

} // verus!
