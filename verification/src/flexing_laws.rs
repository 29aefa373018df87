//! Flex items share what is left of their line, or what it lacks, in proportion.

use vstd::prelude::*;

use crate::cells::larger;
use crate::flex::{
    all_frozen, beginning, factor, floors, free_space, hand_back, held, loose_factors,
    loose_weights, outer_total, passes, resolved, settle, spread, taken, to_hand_out, violations,
    weight, Item,
};
use crate::sums::{a_positive_member_of_a_sum, one_of_the_sum, sum, sum_is_not_negative, sums_add};

verus! {

/// An item that nothing but its minimum holds back: as big as it asks to be to
/// begin with.
pub open spec fn is_free(item: Item) -> bool {
    &&& item.max is None
    &&& 0 <= item.min <= item.base
    &&& item.hypothetical == item.base
    &&& 0 <= item.outer_edges
}

pub open spec fn all_free(items: Seq<Item>) -> bool {
    forall|k: int| 0 <= k < items.len() ==> is_free(#[trigger] items[k])
}

/// What the items take before any of them flexes.
pub open spec fn unflexed(items: Seq<Item>) -> int {
    sum(items.map_values(|i: Item| i.base + i.outer_edges))
}

/// The growth factors of the items, in thousandths.
pub open spec fn growths(items: Seq<Item>) -> Seq<int> {
    items.map_values(|i: Item| i.grow as int)
}

pub open spec fn shrinks(items: Seq<Item>) -> Seq<int> {
    items.map_values(|i: Item| i.shrink as int)
}

/// How much the items give up against one another: a wide one more.
pub open spec fn yields(items: Seq<Item>) -> Seq<int> {
    items.map_values(|i: Item| i.shrink * i.base)
}

proof fn handing_back_adds_at_most_one(
    items: Seq<Item>,
    part: Seq<int>,
    sizes: Seq<i32>,
    leftover: int,
    k: int,
    j: int,
)
    requires
        0 <= k,
        0 <= j < items.len() == sizes.len() == part.len(),
    ensures
        ({
            let r = hand_back(items, part, sizes, leftover, k);
            &&& r.len() == sizes.len()
            &&& r[j] == sizes[j] || (r[j] == sizes[j] + 1 && part[j] > 0 && k <= j)
        }),
    decreases items.len() - k,
{
    if k < items.len() && leftover > 0 {
        if part[k] > 0 && (match items[k].max {
            Some(max) => sizes[k] < max,
            None => true,
        }) && sizes[k] < i32::MAX {
            let next = sizes.update(k, (sizes[k] + 1) as i32);
            handing_back_adds_at_most_one(items, part, next, leftover - 1, k + 1, j);
        } else {
            handing_back_adds_at_most_one(items, part, sizes, leftover, k + 1, j);
        }
    }
}

proof fn no_sum(s: Seq<int>)
    requires
        forall|k: int| 0 <= k < s.len() ==> #[trigger] s[k] == 0,
    ensures
        sum(s) == 0,
    decreases s.len(),
{
    if s.len() > 0 {
        assert(s.last() == s[s.len() - 1]);
        no_sum(s.drop_last());
    }
}

/// Where an item stands after one pass: its base and its share.
spec fn one_share(item: Item, growing: bool, amount: int, all: int) -> (int, int) {
    let w = weight(item, growing);
    if factor(item, growing) == 0 || amount == 0 {
        (item.base as int, 0int)
    } else {
        (item.base + (amount * w) / all, (amount * w) % all)
    }
}

/// One pass is enough where no bound is in the way.
#[verifier::rlimit(60)]
proof fn one_pass_is_enough(items: Seq<Item>, growing: bool, space: int, all: int, amount: int)
    requires
        all_free(items),
        0 < items.len(),
        ({
            let free = space - unflexed(items);
            &&& growing ==> 0 < free && amount == free && all == sum(growths(items)) && 1000 <= all
            &&& !growing ==> free <= 0 && amount == free && all == sum(yields(items)) && 0 < all
                && 1000 <= sum(shrinks(items))
        }),
        forall|k: int|
            0 <= k < items.len() && factor(#[trigger] items[k], growing) > 0 ==> items[k].min
                <= one_share(items[k], growing, amount, all).0,
    ensures
        ({
            let st = beginning(items, growing);
            let initial = free_space(items, st, space);
            let end = passes(items, st, growing, space, initial, items.len() + 1);
            &&& end.whole.len() == items.len() == end.part.len()
            &&& forall|k: int|
                0 <= k < items.len() ==> #[trigger] end.whole[k] == one_share(
                    items[k],
                    growing,
                    amount,
                    all,
                ).0 && end.part[k] == one_share(items[k], growing, amount, all).1
        }),
{
    let st = beginning(items, growing);
    let n = items.len() as int;
    assert forall|k: int| 0 <= k < n implies #[trigger] st.frozen[k] == (factor(items[k], growing)
        == 0) && st.whole[k] == items[k].base && st.part[k] == 0 by {
        assert(is_free(items[k]));
    }
    let bases = items.map_values(|i: Item| i.base as int);
    let edges = items.map_values(|i: Item| i.outer_edges as int);
    let both = items.map_values(|i: Item| i.base + i.outer_edges);
    assert forall|k: int| 0 <= k < n implies #[trigger] both[k] == bases[k] + edges[k] by {}
    sums_add(bases, edges, both);
    assert(held(items, st) =~= bases) by {
        assert forall|k: int| 0 <= k < n implies held(items, st)[k] == bases[k] by {
            assert(st.frozen[k] == (factor(items[k], growing) == 0));
        }
    }
    let free = space - unflexed(items);
    assert(free_space(items, st, space) == free);
    let factors = items.map_values(|i: Item| factor(i, growing));
    assert(loose_factors(items, st, growing) =~= factors) by {
        assert forall|k: int| 0 <= k < n implies loose_factors(items, st, growing)[k]
            == factors[k] by {
            assert(st.frozen[k] == (factor(items[k], growing) == 0));
        }
    }
    let weights = items.map_values(|i: Item| weight(i, growing));
    assert(loose_weights(items, st, growing) =~= weights) by {
        assert forall|k: int| 0 <= k < n implies loose_weights(items, st, growing)[k]
            == weights[k] by {
            assert(st.frozen[k] == (factor(items[k], growing) == 0));
            if factor(items[k], growing) == 0 {
                assert(factor(items[k], growing) * larger(items[k].base, 0) == 0)
                    by (nonlinear_arith)
                    requires
                        factor(items[k], growing) == 0,
                ;
            }
        }
    }
    if growing {
        assert(factors =~= growths(items));
        assert(weights =~= growths(items));
    } else {
        assert(factors =~= shrinks(items));
        assert(weights =~= yields(items)) by {
            assert forall|k: int| 0 <= k < n implies weights[k] == yields(items)[k] by {
                assert(is_free(items[k]));
            }
        }
    }
    let some = a_positive_member_of_a_sum(factors);
    assert(st.frozen[some] == (factor(items[some], growing) == 0));
    assert(!all_frozen(st));
    let out = to_hand_out(free, free, sum(factors));
    assert(out == (free, 1int));
    let handed = spread(items, st, growing, out);
    assert(1 * all == all);
    assert forall|k: int| 0 <= k < n implies #[trigger] handed.whole[k] == one_share(
        items[k],
        growing,
        amount,
        all,
    ).0 && handed.part[k] == one_share(items[k], growing, amount, all).1 && handed.frozen[k]
        == st.frozen[k] by {
        assert(st.frozen[k] == (factor(items[k], growing) == 0));
    }
    let v = violations(items, handed);
    assert forall|k: int| 0 <= k < n implies #[trigger] v[k] == 0 by {
        assert(is_free(items[k]));
        assert(handed.frozen[k] == st.frozen[k]);
        assert(handed.whole[k] == one_share(items[k], growing, amount, all).0);
        if !handed.frozen[k] {
            assert(factor(items[k], growing) > 0);
            assert((0int) * handed.den == 0);
        }
    }
    no_sum(v);
    let next = settle(items, handed);
    assert forall|k: int| 0 <= k < n implies #[trigger] next.whole[k] == one_share(
        items[k],
        growing,
        amount,
        all,
    ).0 && next.part[k] == one_share(items[k], growing, amount, all).1 by {
        assert(is_free(items[k]));
        assert(handed.frozen[k] == st.frozen[k]);
        assert(handed.whole[k] == one_share(items[k], growing, amount, all).0);
    }
}

/// A line with room to spare that all its items may take: each grows by its part
/// of the room, by growth factor, to less than a cell; one that does not grow
/// stays as it is.
pub proof fn items_grow_in_proportion(items: Seq<Item>, inner_main: i32, total_gap: i32, k: int)
    requires
        0 <= k < items.len(),
        all_free(items),
        0 <= total_gap <= inner_main,
        unflexed(items) < inner_main - total_gap,
        1000 <= sum(growths(items)),
    ensures
        ({
            let r = resolved(items, inner_main, total_gap);
            let free = inner_main - total_gap - unflexed(items);
            let all = sum(growths(items));
            let grew = r[k] - items[k].base;
            &&& r.len() == items.len()
            &&& 0 <= grew
            &&& items[k].grow == 0 ==> grew == 0
            &&& -all < grew * all - free * items[k].grow < all
        }),
{
    let space = inner_main - total_gap;
    let free = space - unflexed(items);
    let all = sum(growths(items));
    let n = items.len() as int;
    whole_lines_fit(items);
    assert(outer_total(items) == unflexed(items)) by {
        let a = items.map_values(|i: Item| i.hypothetical + i.outer_edges);
        let b = items.map_values(|i: Item| i.base + i.outer_edges);
        assert(a =~= b) by {
            assert forall|j: int| 0 <= j < n implies a[j] == b[j] by {
                assert(is_free(items[j]));
            }
        }
    }
    assert forall|j: int| 0 <= j < n && factor(#[trigger] items[j], true) > 0 implies items[j].min
        <= one_share(items[j], true, free, all).0 by {
        assert(is_free(items[j]));
        parts_are_near(free, items[j].grow as int, all);
    }
    one_pass_is_enough(items, true, space, all, free);
    let st = beginning(items, true);
    let initial = free_space(items, st, space);
    let end = passes(items, st, true, space, initial, items.len() + 1);
    let sizes = floors(end.whole);
    let leftover = space - sum(taken(items, sizes));
    handing_back_adds_at_most_one(items, end.part, sizes, leftover, 0, k);
    assert(is_free(items[k]));
    let g = growths(items);
    assert forall|j: int| 0 <= j < g.len() implies 0 <= #[trigger] g[j] by {}
    one_of_the_sum(g, k);
    assert(g[k] == items[k].grow);
    parts_are_near(free, items[k].grow as int, all);
    let b = items.map_values(|i: Item| i.base + i.outer_edges);
    assert forall|j: int| 0 <= j < b.len() implies 0 <= #[trigger] b[j] by {
        assert(is_free(items[j]));
    }
    one_of_the_sum(b, k);
    assert(end.whole[k] == one_share(items[k], true, free, all).0);
    assert(sizes[k] == end.whole[k]);
    let r = resolved(items, inner_main, total_gap);
    let grew = r[k] - items[k].base;
    let (q, m) = ((free * items[k].grow) / all, (free * items[k].grow) % all);
    if items[k].grow > 0 {
        assert(grew * all == q * all + (grew - q) * all) by (nonlinear_arith);
        assert((grew - q) * all == if grew == q {
            0
        } else {
            all
        }) by (nonlinear_arith)
            requires
                grew == q || grew == q + 1,
        ;
    } else {
        assert(grew * all == 0 && free * items[k].grow == 0) by (nonlinear_arith)
            requires
                grew == 0,
                items[k].grow == 0,
        ;
    }
}

/// A line that its items overflow and that they can all give up enough for: each
/// shrinks by its part of what is lacking, by shrink factor and width together,
/// to less than a cell; one that does not shrink stays as it is.
pub proof fn items_shrink_in_proportion(items: Seq<Item>, inner_main: i32, total_gap: i32, k: int)
    requires
        0 <= k < items.len(),
        all_free(items),
        0 <= total_gap <= inner_main,
        inner_main - total_gap <= unflexed(items),
        1000 <= sum(shrinks(items)),
        0 < sum(yields(items)),
        forall|j: int|
            0 <= j < items.len() ==> (unflexed(items) - inner_main + total_gap) * (items[j].shrink
                * items[j].base) <= ((#[trigger] items[j]).base - items[j].min) * sum(yields(items)),
    ensures
        ({
            let r = resolved(items, inner_main, total_gap);
            let lack = unflexed(items) - inner_main + total_gap;
            let all = sum(yields(items));
            let lost = items[k].base - r[k];
            &&& r.len() == items.len()
            &&& 0 <= lost
            &&& items[k].shrink == 0 ==> lost == 0
            &&& -all < lost * all - lack * (items[k].shrink * items[k].base) < all
        }),
{
    let space = inner_main - total_gap;
    let free = space - unflexed(items);
    let all = sum(yields(items));
    let n = items.len() as int;
    assert(outer_total(items) == unflexed(items)) by {
        let a = items.map_values(|i: Item| i.hypothetical + i.outer_edges);
        let b = items.map_values(|i: Item| i.base + i.outer_edges);
        assert(a =~= b) by {
            assert forall|j: int| 0 <= j < n implies a[j] == b[j] by {
                assert(is_free(items[j]));
            }
        }
    }
    assert forall|j: int| 0 <= j < n && factor(#[trigger] items[j], false) > 0 implies items[j].min
        <= one_share(items[j], false, free, all).0 by {
        assert(is_free(items[j]));
        let w = items[j].shrink * items[j].base;
        assert(weight(items[j], false) == w);
        parts_are_near(free, w, all);
        let (q, b) = ((free * w) / all, items[j].base - items[j].min);
        assert(free * w == -((-free) * w)) by (nonlinear_arith);
        assert((-free) * w <= b * all);
        assert(-b <= q) by (nonlinear_arith)
            requires
                -(b * all) <= free * w,
                free * w < q * all + all,
                0 < all,
        ;
    }
    one_pass_is_enough(items, false, space, all, free);
    let st = beginning(items, false);
    let initial = free_space(items, st, space);
    let end = passes(items, st, false, space, initial, items.len() + 1);
    let sizes = floors(end.whole);
    let leftover = space - sum(taken(items, sizes));
    handing_back_adds_at_most_one(items, end.part, sizes, leftover, 0, k);
    assert(is_free(items[k]));
    let w = items[k].shrink * items[k].base;
    assert(0 <= w) by (nonlinear_arith)
        requires
            w == items[k].shrink * items[k].base,
            0 <= items[k].base,
            0 <= items[k].shrink,
    ;
    assert(weight(items[k], false) == w);
    parts_are_near(free, w, all);
    assert(end.whole[k] == one_share(items[k], false, free, all).0);
    let (q, m) = ((free * w) / all, (free * w) % all);
    assert(free * w <= 0) by (nonlinear_arith)
        requires
            free <= 0,
            0 <= w,
    ;
    assert(q <= 0 && (0 < m ==> q < 0)) by (nonlinear_arith)
        requires
            free * w <= 0,
            free * w == q * all + m,
            0 <= m < all,
    ;
    assert(0 <= end.whole[k] <= items[k].base) by {
        if items[k].shrink > 0 {
            assert(factor(items[k], false) > 0);
            assert(items[k].min <= one_share(items[k], false, free, all).0);
        }
    }
    assert(sizes[k] == end.whole[k]);
    let r = resolved(items, inner_main, total_gap);
    let lost = items[k].base - r[k];
    let lack = -free;
    assert(lack * w == -(free * w)) by (nonlinear_arith)
        requires
            lack == -free,
    ;
    if items[k].shrink > 0 && free != 0 {
        assert(lost == -q || (lost == -q - 1 && m > 0));
        assert(lost * all == -(q * all) + (lost + q) * all) by (nonlinear_arith);
        assert((lost + q) * all == if lost == -q {
            0
        } else {
            -all
        }) by (nonlinear_arith)
            requires
                lost == -q || lost == -q - 1,
        ;
    } else {
        assert(lost * all == 0 && lack * w == 0) by (nonlinear_arith)
            requires
                lost == 0,
                lack == 0 || w == 0,
        ;
    }
}

/// The floor of a part and what it leaves.
proof fn parts_are_near(free: int, w: int, all: int)
    requires
        0 < all,
    ensures
        free * w == ((free * w) / all) * all + (free * w) % all,
        0 <= (free * w) % all < all,
        0 <= free && 0 <= w ==> 0 <= (free * w) / all,
        0 <= free && 0 <= w <= all ==> (free * w) / all <= free && (0 < (free * w) % all ==> (free
            * w) / all < free),
{
    let a = free * w;
    let (q, m) = (a / all, a % all);
    vstd::arithmetic::div_mod::lemma_fundamental_div_mod(a, all);
    vstd::arithmetic::div_mod::lemma_mod_bound(a, all);
    assert(all * q == q * all) by (nonlinear_arith);
    if 0 <= free && 0 <= w {
        assert(0 <= a) by (nonlinear_arith)
            requires
                a == free * w,
                0 <= free,
                0 <= w,
        ;
        assert(0 <= q) by (nonlinear_arith)
            requires
                a == q * all + m,
                0 <= a,
                m < all,
                0 < all,
        ;
        if w <= all {
            assert(q <= free && (0 < m ==> q < free)) by (nonlinear_arith)
                requires
                    a == free * w,
                    a == q * all + m,
                    0 <= m < all,
                    0 <= free,
                    0 <= w <= all,
            ;
        }
    }
}

proof fn whole_lines_fit(items: Seq<Item>)
    requires
        all_free(items),
    ensures
        0 <= unflexed(items),
{
    let b = items.map_values(|i: Item| i.base + i.outer_edges);
    assert forall|j: int| 0 <= j < b.len() implies 0 <= #[trigger] b[j] by {
        assert(is_free(items[j]));
    }
    sum_is_not_negative(b);
}

} // verus!
