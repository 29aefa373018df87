//! What holds of every divided flex line.

use vstd::prelude::*;

use crate::cells::{larger, minus, plus};
use crate::flex::{
    all_frozen, auto_share, autos, beginning, bounded, edges_total, floors, free_space, gaps,
    hand_back, held, line_used, line_used_from, loose_factors, loose_weights, one_if, outer_total,
    passes, places, places_from, resolved, room_before, settle, share, spread, taken, to_hand_out,
    violations, weight, Flexing, Item, Placed, Slot,
};
use crate::style::JustifyContent;
use crate::sums::{
    a_positive_member_of_a_sum, one_more_in_a_sum, one_of_the_sum, sum, sums_add, sums_keep_order,
    sums_scale,
};

verus! {

/// A size between an item's bounds, the minimum winning.
pub open spec fn in_bounds(item: Item, whole: int, part: int) -> bool {
    &&& larger(item.min, 0) <= whole
    &&& item.max matches Some(max) ==> whole < max || (whole == max && part == 0) || (whole
        == larger(item.min, 0) && part == 0)
}

/// An item whose hypothetical size is its base size between its own bounds.
pub open spec fn consistent(item: Item) -> bool {
    item.hypothetical == bounded(item, item.base as int, 0).0
}

spec fn settled_in_bounds(items: Seq<Item>, st: Flexing, all: bool) -> bool {
    &&& st.frozen.len() == items.len()
    &&& st.whole.len() == items.len()
    &&& st.part.len() == items.len()
    &&& forall|k: int| 0 <= k < items.len() ==> 0 <= #[trigger] st.part[k]
    &&& forall|k: int|
        0 <= k < items.len() && (all || st.frozen[k]) ==> in_bounds(
            items[k],
            #[trigger] st.whole[k],
            st.part[k],
        )
}

proof fn passes_keep_bounds(
    items: Seq<Item>,
    st: Flexing,
    growing: bool,
    space: int,
    initial: int,
    left: nat,
)
    requires
        settled_in_bounds(items, st, left == 0),
    ensures
        settled_in_bounds(items, passes(items, st, growing, space, initial, left), true),
    decreases left,
{
    if left == 0 {
    } else if all_frozen(st) {
        assert forall|k: int| 0 <= k < items.len() implies in_bounds(
            items[k],
            #[trigger] st.whole[k],
            st.part[k],
        ) by {
            assert(st.frozen[k]);
        }
    } else {
        let free = to_hand_out(
            free_space(items, st, space),
            initial,
            sum(loose_factors(items, st, growing)),
        );
        let handed = spread(items, st, growing, free);
        let next = settle(items, handed);
        let weights = sum(loose_weights(items, st, growing));
        assert forall|k: int| 0 <= k < items.len() implies 0 <= #[trigger] handed.part[k] by {
            assert(0 <= st.part[k]);
            if weights > 0 {
                assert(free.1 * weights > 0) by (nonlinear_arith)
                    requires
                        free.1 == 1 || free.1 == 1000,
                        weights > 0,
                ;
                let amount = if growing {
                    free.0
                } else {
                    -crate::flex::magnitude(free.0)
                };
                vstd::arithmetic::div_mod::lemma_mod_bound(
                    amount * weight(items[k], growing),
                    free.1 * weights,
                );
            }
        }
        assert forall|k: int| 0 <= k < items.len() implies 0 <= #[trigger] next.part[k] by {
            assert(0 <= handed.part[k]);
        }
        assert forall|k: int| 0 <= k < items.len() implies in_bounds(
            items[k],
            #[trigger] next.whole[k],
            next.part[k],
        ) by {
            assert(0 <= handed.part[k]);
            if st.frozen[k] {
                assert(in_bounds(items[k], st.whole[k], st.part[k]));
                assert(handed.frozen[k]);
                assert(handed.whole[k] == st.whole[k]);
            }
        }
        if sum(violations(items, handed)) != 0 {
            passes_keep_bounds(items, next, growing, space, initial, (left - 1) as nat);
        }
    }
}

spec fn sizes_in_bounds(items: Seq<Item>, sizes: Seq<i32>) -> bool {
    &&& sizes.len() == items.len()
    &&& forall|k: int|
        0 <= k < items.len() ==> {
            &&& larger(items[k].min, 0) <= #[trigger] sizes[k]
            &&& items[k].max matches Some(max) ==> sizes[k] <= larger(
                max,
                larger(items[k].min, 0),
            )
        }
}

proof fn handing_back_keeps_bounds(
    items: Seq<Item>,
    part: Seq<int>,
    sizes: Seq<i32>,
    leftover: int,
    k: int,
)
    requires
        0 <= k,
        sizes_in_bounds(items, sizes),
    ensures
        sizes_in_bounds(items, hand_back(items, part, sizes, leftover, k)),
    decreases items.len() - k,
{
    if k < items.len() && leftover > 0 {
        if part[k] > 0 && (match items[k].max {
            Some(max) => sizes[k] < max,
            None => true,
        }) && sizes[k] < i32::MAX {
            let next = sizes.update(k, (sizes[k] + 1) as i32);
            assert forall|j: int| 0 <= j < items.len() implies {
                &&& larger(items[j].min, 0) <= #[trigger] next[j]
                &&& items[j].max matches Some(max) ==> next[j] <= larger(
                    max,
                    larger(items[j].min, 0),
                )
            } by {
                assert(larger(items[j].min, 0) <= sizes[j]);
            }
            handing_back_keeps_bounds(items, part, next, leftover - 1, k + 1);
        } else {
            handing_back_keeps_bounds(items, part, sizes, leftover, k + 1);
        }
    }
}

/// No item of a line is narrower than its minimum or wider than its maximum,
/// the minimum winning where they disagree, however much room there is.
pub proof fn every_item_keeps_its_bounds(items: Seq<Item>, inner_main: i32, total_gap: i32, k: int)
    requires
        0 <= k < items.len(),
        forall|j: int| 0 <= j < items.len() ==> consistent(#[trigger] items[j]),
    ensures
        larger(items[k].min, 0) <= resolved(items, inner_main, total_gap)[k],
        items[k].max matches Some(max) ==> resolved(items, inner_main, total_gap)[k] <= larger(
            max,
            larger(items[k].min, 0),
        ),
{
    let space = larger(minus(inner_main, total_gap), 0);
    let growing = outer_total(items) < space;
    let st = beginning(items, growing);
    let initial = free_space(items, st, space as int);
    assert forall|j: int| 0 <= j < items.len() && st.frozen[j] implies in_bounds(
        items[j],
        #[trigger] st.whole[j],
        st.part[j],
    ) by {
        assert(consistent(items[j]));
    }
    passes_keep_bounds(items, st, growing, space as int, initial, items.len() + 1);
    let end = passes(items, st, growing, space as int, initial, items.len() + 1);
    let sizes = floors(end.whole);
    assert forall|j: int| 0 <= j < items.len() implies {
        &&& larger(items[j].min, 0) <= #[trigger] sizes[j]
        &&& items[j].max matches Some(max) ==> sizes[j] <= larger(max, larger(items[j].min, 0))
    } by {
        assert(in_bounds(items[j], end.whole[j], end.part[j]));
    }
    let leftover = space - sum(taken(items, sizes));
    handing_back_keeps_bounds(items, end.part, sizes, leftover, 0);
    let out = hand_back(items, end.part, sizes, leftover, 0);
    assert(larger(items[k].min, 0) <= out[k]);
}

/// An item that can only be held back by its own minimum, and whose factor is
/// whole or none.
pub open spec fn free_to_grow(item: Item) -> bool {
    &&& item.max is None
    &&& item.base >= 0
    &&& item.outer_edges >= 0
    &&& consistent(item)
    &&& item.grow == 0 || item.grow >= 1000
}

/// Where the division of a growing line stands: settled items are at their
/// hypothetical sizes, and some item is loose.
spec fn growing_well(items: Seq<Item>, st: Flexing) -> bool {
    &&& st.frozen.len() == items.len()
    &&& st.whole.len() == items.len()
    &&& st.part.len() == items.len()
    &&& !all_frozen(st)
    &&& forall|k: int|
        0 <= k < items.len() ==> {
            &&& #[trigger] st.frozen[k] ==> st.whole[k] == items[k].hypothetical && st.part[k] == 0
            &&& !st.frozen[k] ==> items[k].grow >= 1000
        }
}

spec fn loose_count(frozen: Seq<bool>) -> nat
    decreases frozen.len(),
{
    if frozen.len() == 0 {
        0
    } else {
        loose_count(frozen.drop_last()) + (if frozen.last() {
            0nat
        } else {
            1
        })
    }
}

proof fn loose_counts_shrink(a: Seq<bool>, b: Seq<bool>)
    requires
        a.len() == b.len(),
        forall|k: int| 0 <= k < a.len() && #[trigger] a[k] ==> b[k],
    ensures
        loose_count(b) <= loose_count(a) <= a.len(),
        (exists|k: int| 0 <= k < a.len() && !a[k] && #[trigger] b[k]) ==> loose_count(b)
            < loose_count(a),
    decreases a.len(),
{
    if a.len() > 0 {
        let n = a.len() - 1;
        assert forall|k: int| 0 <= k < n && #[trigger] a.drop_last()[k] implies b.drop_last()[k] by {
            assert(a[k]);
        }
        loose_counts_shrink(a.drop_last(), b.drop_last());
        assert(a[n] ==> b[n]);
        if exists|k: int| 0 <= k < a.len() && !a[k] && #[trigger] b[k] {
            let k = choose|k: int| 0 <= k < a.len() && !a[k] && #[trigger] b[k];
            if k < n {
                assert(!a.drop_last()[k] && b.drop_last()[k]);
            }
        }
    }
}

/// The exact sizes of a division, in parts of its denominator.
spec fn exact(st: Flexing) -> Seq<int> {
    Seq::new(st.whole.len(), |k: int| st.whole[k] * st.den + st.part[k])
}

/// A division that fills the line, and can be rounded without loss.
spec fn fills(items: Seq<Item>, st: Flexing, space: int) -> bool {
    &&& st.whole.len() == items.len()
    &&& st.part.len() == items.len()
    &&& st.den > 0
    &&& sum(exact(st)) == st.den * (space - edges_total(items))
    &&& forall|k: int|
        0 <= k < items.len() ==> 0 <= #[trigger] st.whole[k] && 0 <= st.part[k] < st.den
}

proof fn growth_goes_on(items: Seq<Item>, st: Flexing, space: int)
    requires
        growing_well(items, st),
        outer_total(items) < space,
        forall|k: int| 0 <= k < items.len() ==> free_to_grow(#[trigger] items[k]),
    ensures
        free_space(items, st, space) > 0,
        sum(loose_factors(items, st, true)) >= 1000,
        sum(loose_weights(items, st, true)) == sum(loose_factors(items, st, true)),
{
    let hyp = items.map_values(|i: Item| i.hypothetical as int);
    let edges = items.map_values(|i: Item| i.outer_edges as int);
    let outer = items.map_values(|i: Item| i.hypothetical + i.outer_edges);
    let h = held(items, st);
    assert forall|k: int| 0 <= k < items.len() implies #[trigger] h[k] <= hyp[k] by {
        assert(free_to_grow(items[k]));
        assert(st.frozen[k] ==> st.whole[k] == items[k].hypothetical);
    }
    sums_keep_order(h, hyp);
    assert forall|k: int| 0 <= k < items.len() implies #[trigger] outer[k] == hyp[k] + edges[k] by {}
    sums_add(hyp, edges, outer);
    let f = loose_factors(items, st, true);
    assert(f =~= loose_weights(items, st, true));
    let k = choose|k: int| 0 <= k < st.frozen.len() && !#[trigger] st.frozen[k];
    assert(items[k].grow >= 1000);
    assert forall|j: int| 0 <= j < f.len() implies 0 <= #[trigger] f[j] by {}
    one_of_the_sum(f, k);
    assert(f[k] >= 1000);
}

/// What one pass of a growing line leaves: it is filled exactly.
proof fn a_pass_fills(items: Seq<Item>, st: Flexing, space: int) -> (handed: Flexing)
    requires
        growing_well(items, st),
        outer_total(items) < space,
        forall|k: int| 0 <= k < items.len() ==> free_to_grow(#[trigger] items[k]),
    ensures
        handed == spread(items, st, true, (free_space(items, st, space), 1)),
        handed.frozen == st.frozen,
        handed.whole.len() == items.len(),
        handed.part.len() == items.len(),
        handed.den > 0,
        sum(exact(handed)) == handed.den * (space - edges_total(items)),
        forall|k: int|
            0 <= k < items.len() ==> {
                &&& 0 <= #[trigger] handed.part[k] < handed.den
                &&& st.frozen[k] ==> handed.whole[k] == items[k].hypothetical && handed.part[k] == 0
                &&& !st.frozen[k] ==> items[k].base <= handed.whole[k]
            },
{
    growth_goes_on(items, st, space);
    let free = free_space(items, st, space);
    let handed = spread(items, st, true, (free, 1));
    let h = held(items, st);
    let w = loose_weights(items, st, true);
    let den = sum(w);
    let e = exact(handed);
    let hd = Seq::new(items.len(), |k: int| den * h[k]);
    let fw = Seq::new(items.len(), |k: int| free * w[k]);
    assert(handed.den == den);
    assert forall|k: int| 0 <= k < items.len() implies {
        &&& 0 <= #[trigger] handed.part[k] < den
        &&& st.frozen[k] ==> handed.whole[k] == items[k].hypothetical && handed.part[k] == 0
        &&& !st.frozen[k] ==> items[k].base <= handed.whole[k]
        &&& e[k] == hd[k] + fw[k]
    } by {
        assert(st.frozen[k] ==> st.whole[k] == items[k].hypothetical && st.part[k] == 0);
        if st.frozen[k] {
            assert(handed.whole[k] * den + 0 == den * h[k] + free * 0) by (nonlinear_arith)
                requires
                    handed.whole[k] == h[k],
            ;
        } else {
            let n = free * weight(items[k], true);
            assert(n >= 0) by (nonlinear_arith)
                requires
                    n == free * weight(items[k], true),
                    free > 0,
                    weight(items[k], true) >= 0,
            ;
            vstd::arithmetic::div_mod::lemma_fundamental_div_mod(n, den);
            vstd::arithmetic::div_mod::lemma_mod_bound(n, den);
            vstd::arithmetic::div_mod::lemma_div_pos_is_pos(n, den);
            let base = items[k].base as int;
            assert((base + n / den) * den + n % den == den * base + n) by (nonlinear_arith)
                requires
                    n == den * (n / den) + n % den,
            ;
        }
    }
    assert forall|k: int| 0 <= k < items.len() implies #[trigger] e[k] == hd[k] + fw[k] by {
        assert(0 <= handed.part[k]);
    }
    sums_add(hd, fw, e);
    sums_scale(h, hd, den);
    sums_scale(w, fw, free);
    assert(den * sum(h) + free * den == den * (space - edges_total(items))) by (nonlinear_arith)
        requires
            free == space - edges_total(items) - sum(h),
    ;
    handed
}

proof fn growing_fills(items: Seq<Item>, st: Flexing, space: int, initial: int, left: nat)
    requires
        growing_well(items, st),
        outer_total(items) < space,
        forall|k: int| 0 <= k < items.len() ==> free_to_grow(#[trigger] items[k]),
        loose_count(st.frozen) < left,
    ensures
        fills(items, passes(items, st, true, space, initial, left), space),
    decreases left,
{
    growth_goes_on(items, st, space);
    let handed = a_pass_fills(items, st, space);
    let free = to_hand_out(
        free_space(items, st, space),
        initial,
        sum(loose_factors(items, st, true)),
    );
    assert(free == (free_space(items, st, space), 1int));
    let next = settle(items, handed);
    let v = violations(items, handed);
    let den = handed.den;
    assert forall|k: int| 0 <= k < items.len() implies {
        &&& 0 <= #[trigger] v[k]
        &&& !st.frozen[k] && v[k] == 0 ==> handed.whole[k] >= 0 && next.whole[k]
            == handed.whole[k] && next.part[k] == handed.part[k]
        &&& v[k] > 0 ==> !st.frozen[k] && next.whole[k] == items[k].hypothetical && next.part[k]
            == 0 && handed.whole[k] < items[k].hypothetical
    } by {
        assert(0 <= handed.part[k] < den);
        assert(free_to_grow(items[k]));
        if !st.frozen[k] {
            let floor = larger(items[k].min, 0) as int;
            if handed.whole[k] < floor {
                assert((floor - handed.whole[k]) * den + (0 - handed.part[k]) > 0)
                    by (nonlinear_arith)
                    requires
                        floor - handed.whole[k] >= 1,
                        den > 0,
                        handed.part[k] < den,
                ;
            } else {
                assert((handed.whole[k] - handed.whole[k]) * den + (handed.part[k]
                    - handed.part[k]) == 0) by (nonlinear_arith);
            }
        }
    }
    if sum(v) == 0 {
        assert forall|k: int| 0 <= k < items.len() implies v[k] == 0 by {
            one_of_the_sum(v, k);
        }
        assert forall|k: int| 0 <= k < items.len() implies #[trigger] next.whole[k]
            == handed.whole[k] && next.part[k] == handed.part[k] && 0 <= next.whole[k] && 0
            <= next.part[k] < next.den by {
            assert(v[k] == 0);
            assert(0 <= handed.part[k] < den);
            assert(free_to_grow(items[k]));
        }
        assert(exact(next) =~= exact(handed));
    } else {
        if items.len() > 0 {
            one_of_the_sum(v, 0);
        }
        let k0 = a_positive_member_of_a_sum(v);
        assert(next.frozen[k0] && !st.frozen[k0]);
        assert forall|k: int| 0 <= k < items.len() implies {
            &&& #[trigger] next.frozen[k] ==> next.whole[k] == items[k].hypothetical && next.part[k]
                == 0
            &&& !next.frozen[k] ==> items[k].grow >= 1000
        } by {
            assert(0 <= v[k]);
            assert(0 <= handed.part[k] < den);
            assert(st.frozen[k] ==> st.whole[k] == items[k].hypothetical);
            assert(!st.frozen[k] ==> items[k].grow >= 1000);
        }
        if all_frozen(next) {
            // Everything would be at its hypothetical size, and those do not
            // fill the line.
            let e = exact(handed);
            let hyp = items.map_values(|i: Item| i.hypothetical as int);
            let scaled = Seq::new(items.len(), |k: int| den * hyp[k]);
            assert forall|k: int| 0 <= k < items.len() implies #[trigger] e[k] <= scaled[k] by {
                assert(next.frozen[k]);
                assert(0 <= v[k]);
                assert(0 <= handed.part[k] < den);
                assert(free_to_grow(items[k]));
                if st.frozen[k] {
                    assert(handed.whole[k] * den + 0 == den * hyp[k]) by (nonlinear_arith)
                        requires
                            handed.whole[k] == hyp[k],
                    ;
                } else {
                    assert(handed.whole[k] < hyp[k]);
                    assert(handed.whole[k] * den + handed.part[k] <= den * hyp[k])
                        by (nonlinear_arith)
                        requires
                            handed.whole[k] + 1 <= hyp[k],
                            0 <= handed.part[k] < den,
                    ;
                }
            }
            sums_keep_order(e, scaled);
            sums_scale(hyp, scaled, den);
            let edges = items.map_values(|i: Item| i.outer_edges as int);
            let outer = items.map_values(|i: Item| i.hypothetical + i.outer_edges);
            assert forall|k: int| 0 <= k < items.len() implies #[trigger] outer[k] == hyp[k]
                + edges[k] by {}
            sums_add(hyp, edges, outer);
            assert(space - edges_total(items) <= sum(hyp)) by (nonlinear_arith)
                requires
                    den * (space - edges_total(items)) <= den * sum(hyp),
                    den > 0,
            ;
            assert(false);
        }
        assert(growing_well(items, next));
        assert forall|k: int| 0 <= k < st.frozen.len() && #[trigger] st.frozen[k] implies next.frozen[k] by {}
        assert(!st.frozen[k0] && next.frozen[k0]);
        loose_counts_shrink(st.frozen, next.frozen);
        growing_fills(items, next, space, initial, (left - 1) as nat);
    }
}

/// How many of the items from the `k`th on lost a part.
spec fn parts_from(part: Seq<int>, k: int) -> int
    decreases part.len() - k,
{
    if k >= part.len() {
        0
    } else {
        parts_from(part, k + 1) + (if part[k] > 0 {
            1int
        } else {
            0
        })
    }
}

proof fn parts_cover_the_rest(part: Seq<int>, n: int, den: int)
    requires
        0 <= n <= part.len(),
        den > 0,
        forall|k: int| 0 <= k < part.len() ==> 0 <= #[trigger] part[k] < den,
    ensures
        sum(part.take(n)) <= den * (parts_from(part, 0) - parts_from(part, n)),
        sum(part.take(n)) == den * (parts_from(part, 0) - parts_from(part, n)) ==> parts_from(
            part,
            0,
        ) == parts_from(part, n),
    decreases n,
{
    if n > 0 {
        parts_cover_the_rest(part, n - 1, den);
        assert(part.take(n).drop_last() =~= part.take(n - 1));
        assert(part.take(n).last() == part[n - 1]);
        let before = parts_from(part, 0) - parts_from(part, n - 1);
        let step = if part[n - 1] > 0 {
            1int
        } else {
            0
        };
        assert(parts_from(part, n - 1) == parts_from(part, n) + step);
        assert(den * (before + step) == den * before + den * step) by (nonlinear_arith);
        if step == 1 {
            assert(den * 1 == den);
        } else {
            assert(den * 0 == 0);
        }
    } else {
        assert(part.take(0) =~= Seq::<int>::empty());
        assert(den * 0 == 0);
    }
}

spec fn wide(sizes: Seq<i32>) -> Seq<int> {
    sizes.map_values(|s: i32| s as int)
}

proof fn handing_back_hands_all(
    items: Seq<Item>,
    part: Seq<int>,
    sizes: Seq<i32>,
    leftover: int,
    k: int,
)
    requires
        0 <= k <= items.len(),
        sizes.len() == items.len(),
        part.len() == items.len(),
        0 <= leftover <= parts_from(part, k),
        forall|j: int|
            k <= j < items.len() ==> {
                &&& (#[trigger] items[j]).max is None
                &&& part[j] > 0 ==> sizes[j] < i32::MAX
            },
    ensures
        hand_back(items, part, sizes, leftover, k).len() == items.len(),
        sum(wide(hand_back(items, part, sizes, leftover, k))) == sum(wide(sizes)) + leftover,
    decreases items.len() - k,
{
    if k < items.len() && leftover > 0 {
        assert(items[k].max is None);
        if part[k] > 0 {
            let next = sizes.update(k, (sizes[k] + 1) as i32);
            assert(wide(next) =~= wide(sizes).update(k, wide(sizes)[k] + 1));
            one_more_in_a_sum(wide(sizes), k);
            handing_back_hands_all(items, part, next, leftover - 1, k + 1);
        } else {
            handing_back_hands_all(items, part, sizes, leftover, k + 1);
        }
    }
}

/// A line whose items can grow leaves no hole: where there is room to spare,
/// some item takes a share of it, and nothing but their own minimum holds the
/// items back, their outer sizes add up to exactly the room there is.
pub proof fn a_growing_line_is_filled_exactly(items: Seq<Item>, inner_main: i32, total_gap: i32)
    requires
        outer_total(items) < larger(minus(inner_main, total_gap), 0),
        forall|k: int| 0 <= k < items.len() ==> free_to_grow(#[trigger] items[k]),
        exists|k: int| 0 <= k < items.len() && (#[trigger] items[k]).grow > 0,
    ensures
        sum(taken(items, resolved(items, inner_main, total_gap))) == larger(
            minus(inner_main, total_gap),
            0,
        ),
{
    let space = larger(minus(inner_main, total_gap), 0);
    let st = beginning(items, true);
    let initial = free_space(items, st, space as int);
    assert forall|k: int| 0 <= k < items.len() implies {
        &&& #[trigger] st.frozen[k] ==> st.whole[k] == items[k].hypothetical && st.part[k] == 0
        &&& !st.frozen[k] ==> items[k].grow >= 1000
    } by {
        assert(free_to_grow(items[k]));
    }
    let k0 = choose|k: int| 0 <= k < items.len() && (#[trigger] items[k]).grow > 0;
    assert(free_to_grow(items[k0]));
    assert(!st.frozen[k0]);
    loose_counts_shrink(st.frozen, st.frozen);
    growing_fills(items, st, space as int, initial, items.len() + 1);
    let end = passes(items, st, true, space as int, initial, items.len() + 1);
    let den = end.den;
    let e = exact(end);
    let edges = items.map_values(|i: Item| i.outer_edges as int);
    assert forall|j: int| 0 <= j < items.len() implies 0 <= #[trigger] edges[j] by {
        assert(free_to_grow(items[j]));
    }
    assert(0 <= sum(edges)) by {
        if items.len() > 0 {
            one_of_the_sum(edges, 0);
        }
    }
    assert forall|j: int| 0 <= j < items.len() implies 0 <= #[trigger] e[j] by {
        assert(0 <= end.whole[j]);
        assert(end.whole[j] * den + end.part[j] >= 0) by (nonlinear_arith)
            requires
                end.whole[j] >= 0,
                den > 0,
                end.part[j] >= 0,
        ;
    }
    // Every size fits a machine integer, so that flooring loses parts only.
    assert forall|j: int| 0 <= j < items.len() implies #[trigger] end.whole[j] <= space && (
    end.part[j] > 0 ==> end.whole[j] < space) by {
        one_of_the_sum(e, j);
        assert(end.whole[j] * den + end.part[j] <= den * space) by (nonlinear_arith)
            requires
                end.whole[j] * den + end.part[j] <= den * (space - sum(edges)),
                den > 0,
                sum(edges) >= 0,
        ;
        assert(end.whole[j] <= space && (end.part[j] > 0 ==> end.whole[j] < space))
            by (nonlinear_arith)
            requires
                end.whole[j] * den + end.part[j] <= den * space,
                den > 0,
                end.part[j] >= 0,
        ;
    }
    let sizes = floors(end.whole);
    assert forall|j: int| 0 <= j < items.len() implies #[trigger] sizes[j] == end.whole[j] by {
        assert(end.whole[j] <= space);
        assert(0 <= end.whole[j]);
    }
    let w = wide(sizes);
    assert(w =~= end.whole);
    // The parts that were dropped add up to a whole number of cells.
    let scaled = Seq::new(items.len(), |j: int| den * end.whole[j]);
    assert forall|j: int| 0 <= j < items.len() implies #[trigger] e[j] == scaled[j]
        + end.part[j] by {
        assert(end.whole[j] * den == den * end.whole[j]) by (nonlinear_arith);
    }
    sums_add(scaled, end.part, e);
    sums_scale(end.whole, scaled, den);
    let leftover = space - sum(edges) - sum(w);
    assert(sum(end.part) == den * leftover) by (nonlinear_arith)
        requires
            den * sum(w) + sum(end.part) == den * (space - sum(edges)),
            leftover == space - sum(edges) - sum(w),
    ;
    assert forall|j: int| 0 <= j < end.part.len() implies 0 <= #[trigger] end.part[j] < den by {
        assert(0 <= end.whole[j]);
    }
    parts_cover_the_rest(end.part, items.len() as int, den);
    assert(end.part.take(items.len() as int) =~= end.part);
    assert(0 <= sum(end.part)) by {
        if items.len() > 0 {
            one_of_the_sum(end.part, 0);
        }
    }
    assert(0 <= leftover <= parts_from(end.part, 0)) by (nonlinear_arith)
        requires
            sum(end.part) == den * leftover,
            0 <= sum(end.part) <= den * parts_from(end.part, 0),
            den > 0,
    ;
    let t = taken(items, sizes);
    assert forall|j: int| 0 <= j < items.len() implies #[trigger] t[j] == w[j] + edges[j] by {}
    sums_add(w, edges, t);
    assert forall|j: int| 0 <= j < items.len() implies {
        &&& (#[trigger] items[j]).max is None
        &&& end.part[j] > 0 ==> sizes[j] < i32::MAX
    } by {
        assert(free_to_grow(items[j]));
        assert(end.whole[j] <= space);
        assert(sizes[j] == end.whole[j]);
    }
    handing_back_hands_all(items, end.part, sizes, leftover, 0);
    let out = hand_back(items, end.part, sizes, leftover, 0);
    let last = taken(items, out);
    assert forall|j: int| 0 <= j < items.len() implies #[trigger] last[j] == wide(out)[j]
        + edges[j] by {}
    sums_add(wide(out), edges, last);
}

/// What the first `m` of `slots` equal shares add up to.
pub(crate) open spec fn shares(free: i32, slots: int, m: int) -> int
    decreases m,
{
    if m <= 0 {
        0
    } else {
        shares(free, slots, m - 1) + share(free, slots, m - 1)
    }
}

pub(crate) proof fn shares_add_up(free: i32, slots: int, m: int)
    requires
        0 <= m <= slots,
        0 < slots,
        0 <= free,
    ensures
        0 <= shares(free, slots, m) <= free,
        shares(free, slots, m) == m * (free as int / slots) + (if m < free as int % slots {
            m
        } else {
            free as int % slots
        }),
        forall|i: int| 0 <= i < slots ==> 0 <= #[trigger] share(free, slots, i) <= free,
    decreases m,
{
    let q = free as int / slots;
    let r = free as int % slots;
    vstd::arithmetic::div_mod::lemma_fundamental_div_mod(free as int, slots);
    vstd::arithmetic::div_mod::lemma_mod_bound(free as int, slots);
    vstd::arithmetic::div_mod::lemma_div_pos_is_pos(free as int, slots);
    assert(q * slots == slots * q) by (nonlinear_arith);
    assert forall|i: int| 0 <= i < slots implies 0 <= #[trigger] share(free, slots, i) <= free by {
        assert(q + (if i < r {
            1int
        } else {
            0
        }) <= free) by (nonlinear_arith)
            requires
                free == slots * q + r,
                0 <= i < slots,
                0 <= q,
                0 <= r,
        ;
    }
    if m > 0 {
        shares_add_up(free, slots, m - 1);
        assert(0 <= share(free, slots, m - 1) <= free);
        assert(m * q == (m - 1) * q + q) by (nonlinear_arith);
        if free > 0 {
            assert(q + 1 <= free || r == 0) by (nonlinear_arith)
                requires
                    free == slots * q + r,
                    0 < slots,
                    0 <= q,
                    0 <= r,
            ;
        }
    } else {
        assert(0 * q == 0);
    }
    assert(m * q + (if m < r {
        m
    } else {
        r
    }) <= free) by (nonlinear_arith)
        requires
            free == slots * q + r,
            0 <= m <= slots,
            0 <= q,
            0 <= r,
    ;
    assert(0 <= m * q) by (nonlinear_arith)
        requires
            0 <= m,
            0 <= q,
    ;
}

/// The room that `justify-content` puts before the first `m` items.
pub(crate) open spec fn rooms(justify: JustifyContent, n: int, free: i32, m: int) -> int
    decreases m,
{
    if m <= 0 {
        0
    } else {
        rooms(justify, n, free, m - 1) + room_before(justify, n, free, m - 1)
    }
}

pub(crate) proof fn rooms_add_up(justify: JustifyContent, n: int, free: i32, m: int)
    requires
        0 <= m <= n,
        0 < n,
        0 <= free,
    ensures
        0 <= rooms(justify, n, free, m) <= free,
        m < n ==> 0 <= room_before(justify, n, free, m),
        justify is SpaceBetween && m >= 1 && n > 1 ==> rooms(justify, n, free, m) == shares(
            free,
            n - 1,
            m - 1,
        ),
        justify is SpaceAround && m >= 1 ==> rooms(justify, n, free, m) == shares(
            free,
            2 * n,
            2 * m - 1,
        ),
        justify is SpaceEvenly ==> rooms(justify, n, free, m) == shares(free, n + 1, m),
        (justify is FlexEnd || justify is Center) && m >= 1 ==> rooms(justify, n, free, m)
            == room_before(justify, n, free, 0),
        justify is FlexStart ==> rooms(justify, n, free, m) == 0,
    decreases m,
{
    shares_add_up(free, 2, 1);
    if n > 1 {
        shares_add_up(
            free,
            n - 1,
            if m >= 1 {
                m - 1
            } else {
                0
            },
        );
    }
    shares_add_up(
        free,
        2 * n,
        if m >= 1 {
            2 * m - 1
        } else {
            0
        },
    );
    shares_add_up(free, n + 1, m);
    assert(0 <= share(free, 2, 0) <= free);
    if m < n {
        if justify is SpaceAround {
            shares_add_up(free, 2 * n, 2 * m + 1);
            if m >= 1 {
                assert(0 <= share(free, 2 * n, 2 * m - 1) <= free);
                assert(0 <= share(free, 2 * n, 2 * m) <= free);
            } else {
                assert(0 <= share(free, 2 * n, 0) <= free);
            }
        }
        if justify is SpaceBetween && m >= 1 {
            assert(0 <= share(free, n - 1, m - 1) <= free);
        }
        if justify is SpaceEvenly {
            assert(0 <= share(free, n + 1, m) <= free);
        }
    }
    if m > 0 {
        rooms_add_up(justify, n, free, m - 1);
        let i = m - 1;
        if justify is SpaceAround && i >= 1 {
            let a = share(free, 2 * n, 2 * i - 1);
            let b = share(free, 2 * n, 2 * i);
            assert(0 <= a <= free && 0 <= b <= free);
            shares_add_up(free, 2 * n, 2 * i);
            assert(shares(free, 2 * n, 2 * i) == shares(free, 2 * n, 2 * i - 1) + a);
            assert(shares(free, 2 * n, 2 * i + 1) == shares(free, 2 * n, 2 * i) + b);
            shares_add_up(free, 2 * n, 2 * i - 1);
        } else if justify is SpaceAround {
            assert(shares(free, 2 * n, 1) == shares(free, 2 * n, 0) + share(free, 2 * n, 0));
        }
        if justify is SpaceBetween && i >= 1 {
            assert(shares(free, n - 1, m - 1) == shares(free, n - 1, m - 2) + share(
                free,
                n - 1,
                m - 2,
            ));
        }
    }
}

/// What the first `n` slots take.
pub(crate) open spec fn outers(slots: Seq<Slot>, n: int) -> int
    decreases n,
{
    if n <= 0 {
        0
    } else {
        outers(slots, n - 1) + slots[n - 1].outer
    }
}

pub(crate) proof fn outers_grow(slots: Seq<Slot>, m: int, n: int)
    requires
        0 <= m <= n <= slots.len(),
        forall|k: int| 0 <= k < slots.len() ==> (#[trigger] slots[k]).outer >= 0,
    ensures
        0 <= outers(slots, m) <= outers(slots, n),
    decreases n,
{
    if n > m {
        outers_grow(slots, m, n - 1);
    } else if n > 0 {
        outers_grow(slots, n - 1, n - 1);
    }
}

proof fn autos_grow(slots: Seq<Slot>, m: int, n: int)
    requires
        0 <= m <= n <= slots.len(),
    ensures
        0 <= autos(slots, m) <= autos(slots, n),
    decreases n,
{
    if n > m {
        autos_grow(slots, m, n - 1);
    } else if n > 0 {
        autos_grow(slots, n - 1, n - 1);
    }
}

/// What goes before slot `j` besides the slots and gaps themselves.
pub(crate) open spec fn slack(slots: Seq<Slot>, free: i32, justify: JustifyContent, j: int) -> int {
    let all = autos(slots, slots.len() as int);
    if all > 0 {
        shares(free, all, autos(slots, j))
    } else {
        rooms(justify, slots.len() as int, free, j)
    }
}

/// A line whose cells all fit a machine integer.
pub open spec fn line_fits_a_number(slots: Seq<Slot>, gap: i32, inner_main: i32) -> bool {
    &&& 0 < slots.len() <= i32::MAX
    &&& gap >= 0
    &&& forall|k: int| 0 <= k < slots.len() ==> (#[trigger] slots[k]).outer >= 0
    &&& line_needs(slots, gap) <= i32::MAX
}

/// What a line takes: its slots and the gaps between them.
pub open spec fn line_needs(slots: Seq<Slot>, gap: i32) -> int {
    sum(slots.map_values(|s: Slot| s.outer as int)) + gap * (slots.len() - 1)
}

pub(crate) proof fn outers_are_the_sum(slots: Seq<Slot>, n: int)
    requires
        0 <= n <= slots.len(),
    ensures
        outers(slots, n) == sum(slots.map_values(|s: Slot| s.outer as int).take(n)),
    decreases n,
{
    let s = slots.map_values(|s: Slot| s.outer as int);
    if n > 0 {
        outers_are_the_sum(slots, n - 1);
        assert(s.take(n).drop_last() =~= s.take(n - 1));
    } else {
        assert(s.take(0) =~= Seq::<int>::empty());
    }
}

pub(crate) proof fn line_use_is_exact(slots: Seq<Slot>, gap: i32, inner_main: i32, acc: i32, i: int)
    requires
        line_fits_a_number(slots, gap, inner_main),
        0 <= i <= slots.len(),
        acc == gap * (slots.len() - 1) + outers(slots, i),
    ensures
        line_used_from(slots, acc, i) == gap * (slots.len() - 1) + outers(
            slots,
            slots.len() as int,
        ),
    decreases slots.len() - i,
{
    let n = slots.len() as int;
    outers_are_the_sum(slots, n);
    assert(slots.map_values(|s: Slot| s.outer as int).take(n) =~= slots.map_values(
        |s: Slot| s.outer as int,
    ));
    if i < n {
        outers_grow(slots, i + 1, n);
        outers_grow(slots, i, i);
        assert(gap * (n - 1) >= 0) by (nonlinear_arith)
            requires
                gap >= 0,
                n >= 1,
        ;
        line_use_is_exact(slots, gap, inner_main, plus(acc, slots[i].outer), i + 1);
    }
}

pub(crate) proof fn places_are_exact(
    slots: Seq<Slot>,
    gap: i32,
    inner_main: i32,
    free: i32,
    justify: JustifyContent,
    i: int,
    cursor: i32,
    j: int,
)
    requires
        line_fits_a_number(slots, gap, inner_main),
        0 <= free,
        free + line_needs(slots, gap) <= i32::MAX,
        0 <= i <= j < slots.len(),
        cursor == outers(slots, i) + gap * i + slack(slots, free, justify, i),
    ensures
        ({
            let p = places_from(slots, gap, free, justify, i, cursor);
            let all = autos(slots, slots.len() as int);
            &&& p.len() == slots.len() - i
            &&& p[j - i].main_start == outers(slots, j) + gap * j + slack(
                slots,
                free,
                justify,
                if all > 0 {
                    j
                } else {
                    j + 1
                },
            )
            &&& 0 <= p[j - i].auto_start
            &&& 0 <= p[j - i].auto_end
            &&& p[j - i].auto_start + p[j - i].auto_end == (if all > 0 {
                slack(slots, free, justify, j + 1) - slack(slots, free, justify, j)
            } else {
                0
            })
        }),
    decreases slots.len() - i,
{
    let n = slots.len() as int;
    let all = autos(slots, n);
    let slot = slots[i];
    outers_are_the_sum(slots, n);
    assert(slots.map_values(|s: Slot| s.outer as int).take(n) =~= slots.map_values(
        |s: Slot| s.outer as int,
    ));
    outers_grow(slots, i, n);
    outers_grow(slots, i + 1, n);
    autos_grow(slots, i, n);
    autos_grow(slots, i + 1, n);
    let seen = autos(slots, i);
    let lead = auto_share(slot.auto_start, free, all, seen);
    let trail = auto_share(slot.auto_end, free, all, seen + one_if(slot.auto_start));
    assert(gap * i <= gap * (n - 1) && gap * i >= 0) by (nonlinear_arith)
        requires
            gap >= 0,
            0 <= i <= n - 1,
    ;
    if all > 0 {
        shares_add_up(free, all, seen);
        shares_add_up(free, all, autos(slots, i + 1));
        if slot.auto_start {
            assert(0 <= share(free, all, seen) <= free);
            assert(shares(free, all, seen + 1) == shares(free, all, seen) + share(free, all, seen));
            shares_add_up(free, all, seen + 1);
        }
        if slot.auto_end {
            let at = seen + one_if(slot.auto_start);
            assert(0 <= share(free, all, at) <= free);
            assert(shares(free, all, at + 1) == shares(free, all, at) + share(free, all, at));
        }
        assert(lead + trail == slack(slots, free, justify, i + 1) - slack(
            slots,
            free,
            justify,
            i,
        ));
    } else {
        assert(!slot.auto_start && !slot.auto_end);
        rooms_add_up(justify, n, free, i);
        rooms_add_up(justify, n, free, i + 1);
    }
    let at = if all > 0 {
        cursor
    } else {
        plus(cursor, room_before(justify, n, free, i))
    };
    let next = plus(plus(at, plus(plus(slot.outer, lead), trail)), gap);
    let p = places_from(slots, gap, free, justify, i, cursor);
    let rest = places_from(slots, gap, free, justify, i + 1, next);
    assert(p[0] == (Placed { main_start: at, auto_start: lead, auto_end: trail }));
    places_len(slots, gap, free, justify, i, cursor);
    if i < j {
        assert(gap * (i + 1) == gap * i + gap) by (nonlinear_arith);
        assert(gap * (i + 1) <= gap * (n - 1)) by (nonlinear_arith)
            requires
                gap >= 0,
                i + 1 <= n - 1,
        ;
        places_are_exact(slots, gap, inner_main, free, justify, i + 1, next, j);
        assert(p[j - i] == rest[j - i - 1]);
    }
}

proof fn places_len(
    slots: Seq<Slot>,
    gap: i32,
    free: i32,
    justify: JustifyContent,
    i: int,
    cursor: i32,
)
    requires
        0 <= i <= slots.len(),
    ensures
        places_from(slots, gap, free, justify, i, cursor).len() == slots.len() - i,
    decreases slots.len() - i,
{
    if i < slots.len() {
        let all = autos(slots, slots.len() as int);
        let seen = autos(slots, i);
        let slot = slots[i];
        let lead = auto_share(slot.auto_start, free, all, seen);
        let trail = auto_share(slot.auto_end, free, all, seen + one_if(slot.auto_start));
        let at = if all > 0 {
            cursor
        } else {
            plus(cursor, room_before(justify, slots.len() as int, free, i))
        };
        let next = plus(plus(at, plus(plus(slot.outer, lead), trail)), gap);
        places_len(slots, gap, free, justify, i + 1, next);
    }
}

/// Where an item's outer box ends, its `auto` margins included.
pub open spec fn slot_end(slots: Seq<Slot>, p: Seq<Placed>, i: int) -> int {
    p[i].main_start + p[i].auto_start + slots[i].outer + p[i].auto_end
}

/// On an aligned line no item starts before the line does, each starts at least
/// a gap past the end of the one before it, and if they fit the line at all,
/// the last ends on it; if they do not, it ends where they all do.
pub proof fn an_aligned_line_neither_overlaps_nor_overflows(
    slots: Seq<Slot>,
    gap: i32,
    inner_main: i32,
    justify: JustifyContent,
    i: int,
)
    requires
        line_fits_a_number(slots, gap, inner_main),
        0 <= i < slots.len(),
    ensures
        ({
            let p = places(slots, gap, inner_main, justify);
            &&& p.len() == slots.len()
            &&& 0 <= p[i].main_start
            &&& 0 <= p[i].auto_start && 0 <= p[i].auto_end
            &&& i + 1 < slots.len() ==> slot_end(slots, p, i) + gap <= p[i + 1].main_start
            &&& line_needs(slots, gap) <= inner_main ==> slot_end(slots, p, i) <= inner_main
            &&& line_needs(slots, gap) > inner_main ==> slot_end(slots, p, i) <= line_needs(slots, gap)
            &&& line_used(slots, gap) == line_needs(slots, gap)
        }),
{
    let n = slots.len() as int;
    let used = line_used(slots, gap);
    assert(gap * (n - 1) >= 0) by (nonlinear_arith)
        requires
            gap >= 0,
            n >= 1,
    ;
    outers_are_the_sum(slots, n);
    assert(slots.map_values(|s: Slot| s.outer as int).take(n) =~= slots.map_values(
        |s: Slot| s.outer as int,
    ));
    outers_grow(slots, 0, n);
    line_use_is_exact(slots, gap, inner_main, gaps(gap, n), 0);
    let free = larger(minus(inner_main, used), 0);
    let all = autos(slots, n);
    assert(gap * 0 == 0);
    places_are_exact(slots, gap, inner_main, free, justify, 0, 0, i);
    outers_grow(slots, i, n);
    outers_grow(slots, i + 1, n);
    autos_grow(slots, i, n);
    autos_grow(slots, i + 1, n);
    assert(gap * i <= gap * (n - 1) && gap * i >= 0) by (nonlinear_arith)
        requires
            gap >= 0,
            0 <= i <= n - 1,
    ;
    if all > 0 {
        shares_add_up(free, all, autos(slots, i));
        shares_add_up(free, all, autos(slots, i + 1));
    } else {
        rooms_add_up(justify, n, free, i);
        rooms_add_up(justify, n, free, i + 1);
    }
    if i + 1 < n {
        places_are_exact(slots, gap, inner_main, free, justify, 0, 0, i + 1);
        assert(gap * (i + 1) == gap * i + gap) by (nonlinear_arith);
        if all == 0 {
            rooms_add_up(justify, n, free, i + 2);
        }
    }
}

} // verus!
