//! Flexbox's arithmetic in whole terminal cells: which items share a line, how
//! each line's space is divided, and where the items go.
//!
//! Nothing here knows about documents, styles or boxes.
//!
//! **Whole cells.** Fractions are carried exactly through the division of a
//! line and only rounded at its end, where the rule is: floor every size, then
//! hand the leftover cells to the earliest items. Items that grow to fill a
//! line therefore leave no hole at its end.

use vstd::prelude::*;

use crate::cells::{count, fit, fit_wide, larger, minus, plus, times};
use crate::sums::{one_of_the_sum, sum, sum_step};
use crate::style::{AlignContent, AlignItems, JustifyContent};

verus! {

/// The most items a container can hand over: document nodes have 32-bit ids.
pub const MAX_ITEMS: usize = 0xffff_ffff;

/// One flex item's inputs, all in cells and all on the main axis.
#[derive(Clone, Copy, PartialEq, Eq, Debug)]
pub struct Item {
    /// The size the item starts from, content-box.
    pub base: i32,
    /// The base size clamped by this item's own bounds.
    pub hypothetical: i32,
    /// Used minimum main size, content-box.
    pub min: i32,
    pub max: Option<i32>,
    /// Flex factors, in thousandths.
    pub grow: u32,
    pub shrink: u32,
    /// Margin, border and padding on the main axis.
    pub outer_edges: i32,
}

/// An item's flex factor, in thousandths.
pub open spec fn factor(item: Item, growing: bool) -> int {
    if growing {
        item.grow as int
    } else {
        item.shrink as int
    }
}

/// What an item's share of the free space is in proportion to. Shrinking is
/// weighted by the base size, so that a wide item gives up more.
pub open spec fn weight(item: Item, growing: bool) -> int {
    if growing {
        factor(item, growing)
    } else {
        factor(item, growing) * larger(item.base, 0)
    }
}

/// Where the division of a line stands: which items are settled, and every
/// item's size as a whole number of cells and a part of `den`.
pub struct Flexing {
    pub frozen: Seq<bool>,
    pub whole: Seq<int>,
    pub part: Seq<int>,
    pub den: int,
}

pub open spec fn outer_total(items: Seq<Item>) -> int {
    sum(items.map_values(|i: Item| i.hypothetical + i.outer_edges))
}

pub open spec fn edges_total(items: Seq<Item>) -> int {
    sum(items.map_values(|i: Item| i.outer_edges as int))
}

/// An item that flexing must not move: its factor is zero, or flexing would
/// move it away from the size its own bounds already forced it to.
pub open spec fn inflexible(item: Item, growing: bool) -> bool {
    ||| factor(item, growing) == 0
    ||| growing && item.base > item.hypothetical
    ||| !growing && item.base < item.hypothetical
}

pub open spec fn beginning(items: Seq<Item>, growing: bool) -> Flexing {
    Flexing {
        frozen: items.map_values(|i: Item| inflexible(i, growing)),
        whole: items.map_values(
            |i: Item|
                if inflexible(i, growing) {
                    i.hypothetical as int
                } else {
                    i.base as int
                },
        ),
        part: items.map_values(|i: Item| 0int),
        den: 1,
    }
}

/// What each item holds on to: a settled one its size, any other its base.
pub open spec fn held(items: Seq<Item>, st: Flexing) -> Seq<int> {
    Seq::new(
        items.len(),
        |k: int|
            if st.frozen[k] {
                st.whole[k]
            } else {
                items[k].base as int
            },
    )
}

/// Space left over once every item's edges and what it holds are accounted for.
pub open spec fn free_space(items: Seq<Item>, st: Flexing, space: int) -> int {
    space - edges_total(items) - sum(held(items, st))
}

pub open spec fn loose_factors(items: Seq<Item>, st: Flexing, growing: bool) -> Seq<int> {
    Seq::new(
        items.len(),
        |k: int|
            if st.frozen[k] {
                0
            } else {
                factor(items[k], growing)
            },
    )
}

pub open spec fn loose_weights(items: Seq<Item>, st: Flexing, growing: bool) -> Seq<int> {
    Seq::new(
        items.len(),
        |k: int|
            if st.frozen[k] {
                0
            } else {
                weight(items[k], growing)
            },
    )
}

pub open spec fn magnitude(n: int) -> int {
    if n >= 0 {
        n
    } else {
        -n
    }
}

/// The free space to hand out, as a fraction. Factors that add up to less than
/// one take only that share of what was free to begin with.
pub open spec fn to_hand_out(free: int, initial: int, factors: int) -> (int, int) {
    if factors < 1000 && magnitude(initial * factors) < magnitude(free) * 1000 {
        (initial * factors, 1000)
    } else {
        (free, 1)
    }
}

/// Every loose item at its base plus its share.
pub open spec fn spread(items: Seq<Item>, st: Flexing, growing: bool, free: (int, int)) -> Flexing {
    let weights = sum(loose_weights(items, st, growing));
    let den = free.1 * weights;
    let amount = if growing {
        free.0
    } else {
        -magnitude(free.0)
    };
    if free.0 != 0 && sum(loose_factors(items, st, growing)) > 0 && weights > 0 {
        Flexing {
            frozen: st.frozen,
            whole: Seq::new(
                items.len(),
                |k: int|
                    if st.frozen[k] {
                        st.whole[k]
                    } else {
                        items[k].base + (amount * weight(items[k], growing)) / den
                    },
            ),
            part: Seq::new(
                items.len(),
                |k: int|
                    if st.frozen[k] {
                        0
                    } else {
                        (amount * weight(items[k], growing)) % den
                    },
            ),
            den,
        }
    } else {
        st
    }
}

/// A size put between an item's own bounds, the minimum winning.
pub open spec fn bounded(item: Item, whole: int, part: int) -> (int, int) {
    let capped = match item.max {
        Some(max) => if whole > max || (whole == max && part > 0) {
            (max as int, 0int)
        } else {
            (whole, part)
        },
        None => (whole, part),
    };
    let floor = larger(item.min, 0);
    if capped.0 < floor {
        (floor as int, 0int)
    } else {
        capped
    }
}

/// How far the bounds move an item, in parts of `den`.
pub open spec fn violation(item: Item, whole: int, part: int, den: int) -> int {
    let b = bounded(item, whole, part);
    (b.0 - whole) * den + (b.1 - part)
}

pub open spec fn violations(items: Seq<Item>, st: Flexing) -> Seq<int> {
    Seq::new(
        items.len(),
        |k: int|
            if st.frozen[k] {
                0
            } else {
                violation(items[k], st.whole[k], st.part[k], st.den)
            },
    )
}

/// Every loose item put between its bounds; those that were moved the way the
/// whole line was moved are settled there.
pub open spec fn settle(items: Seq<Item>, st: Flexing) -> Flexing {
    let total = sum(violations(items, st));
    Flexing {
        frozen: Seq::new(
            items.len(),
            |k: int|
                st.frozen[k] || (total > 0 && violations(items, st)[k] > 0) || (total < 0
                    && violations(items, st)[k] < 0),
        ),
        whole: Seq::new(
            items.len(),
            |k: int|
                if st.frozen[k] {
                    st.whole[k]
                } else {
                    bounded(items[k], st.whole[k], st.part[k]).0
                },
        ),
        part: Seq::new(
            items.len(),
            |k: int|
                if st.frozen[k] {
                    st.part[k]
                } else {
                    bounded(items[k], st.whole[k], st.part[k]).1
                },
        ),
        den: st.den,
    }
}

pub open spec fn all_frozen(st: Flexing) -> bool {
    forall|k: int| 0 <= k < st.frozen.len() ==> #[trigger] st.frozen[k]
}

/// The passes: each hands out the free space, puts every item between its
/// bounds, and settles those that were moved, until none is.
pub open spec fn passes(
    items: Seq<Item>,
    st: Flexing,
    growing: bool,
    space: int,
    initial: int,
    left: nat,
) -> Flexing
    decreases left,
{
    if left == 0 || all_frozen(st) {
        st
    } else {
        let free = to_hand_out(
            free_space(items, st, space),
            initial,
            sum(loose_factors(items, st, growing)),
        );
        let handed = spread(items, st, growing, free);
        let next = settle(items, handed);
        if sum(violations(items, handed)) == 0 {
            next
        } else {
            passes(items, next, growing, space, initial, (left - 1) as nat)
        }
    }
}

/// Every size floored, and never negative.
pub open spec fn floors(whole: Seq<int>) -> Seq<i32> {
    whole.map_values(
        |w: int|
            fit(
                if w > 0 {
                    w
                } else {
                    0
                },
            ),
    )
}

/// The cells that rounding dropped, handed to the earliest items that lost a
/// fraction of one and have room for it.
pub open spec fn hand_back(
    items: Seq<Item>,
    part: Seq<int>,
    sizes: Seq<i32>,
    leftover: int,
    k: int,
) -> Seq<i32>
    decreases items.len() - k,
{
    if k >= items.len() || leftover <= 0 {
        sizes
    } else if part[k] > 0 && (match items[k].max {
        Some(max) => sizes[k] < max,
        None => true,
    }) && sizes[k] < i32::MAX {
        hand_back(items, part, sizes.update(k, (sizes[k] + 1) as i32), leftover - 1, k + 1)
    } else {
        hand_back(items, part, sizes, leftover, k + 1)
    }
}

/// What a line's items take together, edges included.
pub open spec fn taken(items: Seq<Item>, sizes: Seq<i32>) -> Seq<int> {
    Seq::new(items.len(), |k: int| sizes[k] + items[k].outer_edges)
}

/// Every item's used main size.
pub open spec fn resolved(items: Seq<Item>, inner_main: i32, total_gap: i32) -> Seq<i32> {
    let space = larger(minus(inner_main, total_gap), 0);
    let growing = outer_total(items) < space;
    let st = beginning(items, growing);
    let initial = free_space(items, st, space as int);
    let end = passes(items, st, growing, space as int, initial, items.len() + 1);
    let sizes = floors(end.whole);
    hand_back(items, end.part, sizes, space - sum(taken(items, sizes)), 0)
}

/// `m / d`, or `-m / d`, rounded down, and what that leaves.
fn floor_div(negative: bool, m: u128, d: i128) -> (r: (i128, i128))
    requires
        0 < d < 0x1_0000_0000_0000_0000_0000_0000_0000,
        m <= 0x1_4000_0000_0000_0000 * d,
    ensures
        r.0 == (if negative {
            -(m as int)
        } else {
            m as int
        }) / d as int,
        r.1 == (if negative {
            -(m as int)
        } else {
            m as int
        }) % d as int,
        0 <= r.1 < d,
{
    proof {
        vstd::arithmetic::div_mod::lemma_fundamental_div_mod(m as int, d as int);
        vstd::arithmetic::div_mod::lemma_mod_bound(m as int, d as int);
        let q = m as int / d as int;
        assert(0 <= q <= 0x1_4000_0000_0000_0000) by (nonlinear_arith)
            requires
                q == m as int / d as int,
                0 <= m <= 0x1_4000_0000_0000_0000 * d,
                0 < d,
        ;
    }
    let q: i128 = (m / d as u128) as i128;
    let rem: i128 = (m % d as u128) as i128;
    if !negative {
        (q, rem)
    } else if rem == 0 {
        proof {
            assert(-(m as int) == (-q) * d + 0) by (nonlinear_arith)
                requires
                    m == d * q,
            ;
            vstd::arithmetic::div_mod::lemma_fundamental_div_mod_converse(
                -(m as int),
                d as int,
                -q as int,
                0,
            );
        }
        (-q, 0)
    } else {
        proof {
            assert(-(m as int) == (-q - 1) * d + (d - rem)) by (nonlinear_arith)
                requires
                    m == d * q + rem,
            ;
            vstd::arithmetic::div_mod::lemma_fundamental_div_mod_converse(
                -(m as int),
                d as int,
                -q - 1 as int,
                d - rem as int,
            );
        }
        (-q - 1, d - rem)
    }
}

fn factor_of(item: &Item, growing: bool) -> (r: i128)
    ensures
        r == factor(*item, growing),
        0 <= r <= 0xffff_ffff,
{
    if growing {
        item.grow as i128
    } else {
        item.shrink as i128
    }
}

fn weight_of(item: &Item, growing: bool) -> (r: i128)
    ensures
        r == weight(*item, growing),
        0 <= r < 0x8000_0000_0000_0000,
{
    let f: i128 = factor_of(item, growing);
    if growing {
        f
    } else {
        let base: i128 = larger(item.base, 0) as i128;
        assert(0 <= f * base < 0x8000_0000_0000_0000) by (nonlinear_arith)
            requires
                0 <= f <= 0xffff_ffff,
                0 <= base <= 0x7fff_ffff,
        ;
        f * base
    }
}

fn bounded_size(item: &Item, whole: i128, part: i128) -> (r: (i128, i128))
    ensures
        (r.0 as int, r.1 as int) == bounded(*item, whole as int, part as int),
{
    let mut w: i128 = whole;
    let mut p: i128 = part;
    match item.max {
        Some(max) => {
            if whole > max as i128 || (whole == max as i128 && part > 0) {
                w = max as i128;
                p = 0;
            }
        },
        None => {},
    }
    let floor: i128 = larger(item.min, 0) as i128;
    if w < floor {
        (floor, 0)
    } else {
        (w, p)
    }
}

/// The state of a line's division while it is computed.
struct Division {
    frozen: Vec<bool>,
    whole: Vec<i128>,
    part: Vec<i128>,
    den: i128,
}

impl Division {
    spec fn view(&self) -> Flexing {
        Flexing {
            frozen: self.frozen@,
            whole: Seq::new(self.whole@.len(), |k: int| self.whole@[k] as int),
            part: Seq::new(self.part@.len(), |k: int| self.part@[k] as int),
            den: self.den as int,
        }
    }

    spec fn ok(&self, items: Seq<Item>) -> bool {
        &&& items.len() <= MAX_ITEMS
        &&& self.frozen@.len() == items.len()
        &&& self.whole@.len() == items.len()
        &&& self.part@.len() == items.len()
        &&& 0 < self.den < 0x1_0000_0000_0000_0000_0000_0000_0000
        &&& forall|k: int|
            0 <= k < items.len() ==> -0x10_0000_0000_0000_0000 < #[trigger] self.whole@[k]
                < 0x10_0000_0000_0000_0000
        &&& forall|k: int| 0 <= k < items.len() ==> 0 <= #[trigger] self.part@[k] < self.den
        &&& forall|k: int|
            0 <= k < items.len() && #[trigger] self.frozen@[k] ==> -0x8000_0000 <= self.whole@[k]
                <= 0x7fff_ffff
    }
}

fn begin(items: &Vec<Item>, growing: bool) -> (r: Division)
    requires
        items@.len() <= MAX_ITEMS,
    ensures
        r.ok(items@),
        r.view() == beginning(items@, growing),
{
    let mut frozen: Vec<bool> = Vec::new();
    let mut whole: Vec<i128> = Vec::new();
    let mut part: Vec<i128> = Vec::new();
    let mut k: usize = 0;
    while k < items.len()
        invariant
            k <= items@.len(),
            frozen@.len() == k,
            whole@.len() == k,
            part@.len() == k,
            forall|j: int|
                0 <= j < k ==> {
                    &&& #[trigger] frozen@[j] == inflexible(items@[j], growing)
                    &&& whole@[j] == (if inflexible(items@[j], growing) {
                        items@[j].hypothetical as int
                    } else {
                        items@[j].base as int
                    })
                    &&& part@[j] == 0
                },
        decreases items@.len() - k,
    {
        let item: &Item = &items[k];
        let stuck: bool = factor_of(item, growing) == 0 || (growing && item.base
            > item.hypothetical) || (!growing && item.base < item.hypothetical);
        assert(stuck == inflexible(items@[k as int], growing));
        frozen.push(stuck);
        whole.push(
            if stuck {
                item.hypothetical as i128
            } else {
                item.base as i128
            },
        );
        part.push(0);
        k += 1;
    }
    let r: Division = Division { frozen, whole, part, den: 1 };
    proof {
        let b = beginning(items@, growing);
        assert(r.frozen@ =~= b.frozen);
        assert(r.view().whole =~= b.whole) by {
            assert forall|j: int| 0 <= j < items@.len() implies r.view().whole[j] == b.whole[j] by {
                assert(r.frozen@[j] == inflexible(items@[j], growing));
            }
        }
        assert(r.view().part =~= b.part) by {
            assert forall|j: int| 0 <= j < items@.len() implies r.view().part[j] == b.part[j] by {
                assert(r.frozen@[j] == inflexible(items@[j], growing));
            }
        }
        assert forall|j: int| 0 <= j < items@.len() implies -0x10_0000_0000_0000_0000
            < #[trigger] r.whole@[j] < 0x10_0000_0000_0000_0000 by {
            assert(r.frozen@[j] == inflexible(items@[j], growing));
        }
        assert forall|j: int| 0 <= j < items@.len() implies 0 <= #[trigger] r.part@[j] < r.den by {
            assert(r.frozen@[j] == inflexible(items@[j], growing));
        }
    }
    r
}

/// The edges and the hypothetical outer sizes of a line, added up.
fn line_totals(items: &Vec<Item>) -> (r: (i128, i128))
    requires
        items@.len() <= MAX_ITEMS,
    ensures
        r.0 == edges_total(items@),
        r.1 == outer_total(items@),
        -0x8000_0000_0000_0000 <= r.0 <= 0x8000_0000_0000_0000,
{
    let ghost edges = items@.map_values(|i: Item| i.outer_edges as int);
    let ghost outers = items@.map_values(|i: Item| i.hypothetical + i.outer_edges);
    let mut e: i128 = 0;
    let mut o: i128 = 0;
    let mut k: usize = 0;
    while k < items.len()
        invariant
            k <= items@.len() <= MAX_ITEMS,
            edges == items@.map_values(|i: Item| i.outer_edges as int),
            outers == items@.map_values(|i: Item| i.hypothetical + i.outer_edges),
            e == sum(edges.take(k as int)),
            o == sum(outers.take(k as int)),
            -0x8000_0000 * k <= e <= 0x8000_0000 * k,
            -0x1_0000_0000 * k <= o <= 0x1_0000_0000 * k,
        decreases items@.len() - k,
    {
        proof {
            sum_step(edges, k as int);
            sum_step(outers, k as int);
        }
        e = e + items[k].outer_edges as i128;
        o = o + items[k].hypothetical as i128 + items[k].outer_edges as i128;
        k += 1;
    }
    proof {
        assert(edges.take(k as int) =~= edges);
        assert(outers.take(k as int) =~= outers);
    }
    (e, o)
}

/// What the items hold on to, and the loose factors and weights, added up.
fn loose_totals(items: &Vec<Item>, st: &Division, growing: bool) -> (r: (i128, i128, i128))
    requires
        st.ok(items@),
    ensures
        r.0 == sum(held(items@, st.view())),
        r.1 == sum(loose_factors(items@, st.view(), growing)),
        r.2 == sum(loose_weights(items@, st.view(), growing)),
        -0x8000_0000_0000_0000 <= r.0 <= 0x8000_0000_0000_0000,
        0 <= r.1 < 0x1_0000_0000_0000_0000,
        0 <= r.2 < 0x8000_0000_0000_0000_0000_0000,
{
    let ghost h = held(items@, st.view());
    let ghost f = loose_factors(items@, st.view(), growing);
    let ghost w = loose_weights(items@, st.view(), growing);
    let mut hs: i128 = 0;
    let mut fs: i128 = 0;
    let mut ws: i128 = 0;
    let mut k: usize = 0;
    while k < items.len()
        invariant
            k <= items@.len() <= MAX_ITEMS,
            st.ok(items@),
            h == held(items@, st.view()),
            f == loose_factors(items@, st.view(), growing),
            w == loose_weights(items@, st.view(), growing),
            hs == sum(h.take(k as int)),
            fs == sum(f.take(k as int)),
            ws == sum(w.take(k as int)),
            -0x8000_0000 * k <= hs <= 0x8000_0000 * k,
            0 <= fs <= 0xffff_ffff * k,
            0 <= ws <= 0x8000_0000_0000_0000 * k,
        decreases items@.len() - k,
    {
        proof {
            sum_step(h, k as int);
            sum_step(f, k as int);
            sum_step(w, k as int);
        }
        if st.frozen[k] {
            hs = hs + st.whole[k];
        } else {
            hs = hs + items[k].base as i128;
            fs = fs + factor_of(&items[k], growing);
            ws = ws + weight_of(&items[k], growing);
        }
        k += 1;
    }
    proof {
        assert(h.take(k as int) =~= h);
        assert(f.take(k as int) =~= f);
        assert(w.take(k as int) =~= w);
    }
    (hs, fs, ws)
}

/// The bounds that keep a share of the free space inside machine integers.
proof fn share_bounds(amount: int, w: int, den: int, one: int, weights: int, fsum: int, base: int)
    requires
        one == 1 || one == 1000,
        den == one * weights,
        0 <= w <= weights,
        0 < weights < 0x8000_0000_0000_0000_0000_0000,
        w < 0x8000_0000_0000_0000,
        one == 1 ==> -0x1_4000_0000_0000_0000 <= amount <= 0x1_4000_0000_0000_0000,
        one == 1000 ==> fsum < 1000 && w <= fsum * 0x8000_0000 && -0x1_4000_0000_0000_0000 * 1000
            <= amount <= 0x1_4000_0000_0000_0000 * 1000,
        0 <= fsum,
        -0x8000_0000 <= base <= 0x7fff_ffff,
    ensures
        0 < den < 0x1_0000_0000_0000_0000_0000_0000_0000,
        magnitude(amount) * w <= u128::MAX,
        0 <= magnitude(amount) * w <= 0x1_4000_0000_0000_0000 * den,
        amount >= 0 ==> amount * w == magnitude(amount) * w,
        amount < 0 ==> amount * w == -(magnitude(amount) * w),
        -0x4_0000_0000_0000_0000 <= (amount * w) / den <= 0x4_0000_0000_0000_0000,
{
    let top = 0x1_4000_0000_0000_0000int;
    assert(0 < den <= 1000 * weights) by (nonlinear_arith)
        requires
            one == 1 || one == 1000,
            den == one * weights,
            0 < weights,
    ;
    let m = magnitude(amount);
    assert(m <= top * one);
    if one == 1 {
        assert(m * w <= top * 0x8000_0000_0000_0000) by (nonlinear_arith)
            requires
                0 <= m <= top,
                0 <= w < 0x8000_0000_0000_0000,
        ;
    } else {
        assert(fsum * 0x8000_0000 <= 1000 * 0x8000_0000);
        assert(m * w <= top * 1000 * (1000 * 0x8000_0000)) by (nonlinear_arith)
            requires
                0 <= m <= top * 1000,
                0 <= w <= 1000 * 0x8000_0000,
                top == 0x1_4000_0000_0000_0000int,
        ;
    }
    if amount < 0 {
        assert(amount * w == -(m * w)) by (nonlinear_arith)
            requires
                m == -amount,
        ;
    }
    assert(0 <= m * w) by (nonlinear_arith)
        requires
            0 <= m,
            0 <= w,
    ;
    assert(m * w <= top * den) by (nonlinear_arith)
        requires
            0 <= m <= top * one,
            0 <= w <= weights,
            den == one * weights,
            one > 0,
    ;
    let q = (amount * w) / den;
    assert(-top - 1 <= q <= top) by (nonlinear_arith)
        requires
            q == (amount * w) / den,
            -(top * den) <= amount * w <= top * den,
            den > 0,
    ;
}

/// Hand the free space out. See [`spread`].
fn spread_out(
    items: &Vec<Item>,
    st: &mut Division,
    growing: bool,
    free: (i128, i128),
    factors: i128,
    weights: i128,
)
    requires
        old(st).ok(items@),
        factors == sum(loose_factors(items@, old(st).view(), growing)),
        weights == sum(loose_weights(items@, old(st).view(), growing)),
        0 <= weights < 0x8000_0000_0000_0000_0000_0000,
        0 <= factors,
        free.1 == 1 || free.1 == 1000,
        free.1 == 1 ==> -0x1_4000_0000_0000_0000 <= free.0 <= 0x1_4000_0000_0000_0000,
        free.1 == 1000 ==> factors < 1000 && -0x1_4000_0000_0000_0000 * 1000 <= free.0
            <= 0x1_4000_0000_0000_0000 * 1000,
    ensures
        final(st).ok(items@),
        final(st).view() == spread(
            items@,
            old(st).view(),
            growing,
            (free.0 as int, free.1 as int),
        ),
{
    if !(free.0 != 0 && factors > 0 && weights > 0) {
        return;
    }
    let ghost start = st.view();
    let ghost f = loose_factors(items@, start, growing);
    let ghost w = loose_weights(items@, start, growing);
    proof {
        assert(free.1 * weights < 0x1_0000_0000_0000_0000_0000_0000_0000) by (nonlinear_arith)
            requires
                free.1 == 1 || free.1 == 1000,
                0 < weights < 0x8000_0000_0000_0000_0000_0000,
        ;
        assert(0 < free.1 * weights) by (nonlinear_arith)
            requires
                free.1 == 1 || free.1 == 1000,
                0 < weights,
        ;
    }
    let den: i128 = free.1 * weights;
    let amount: i128 = if growing || free.0 < 0 {
        free.0
    } else {
        -free.0
    };
    let ghost goal = spread(items@, start, growing, (free.0 as int, free.1 as int));
    st.den = den;
    let mut k: usize = 0;
    while k < items.len()
        invariant
            k <= items@.len(),
            items@.len() <= MAX_ITEMS,
            st.frozen@ == start.frozen,
            st.frozen@.len() == items@.len(),
            st.whole@.len() == items@.len(),
            st.part@.len() == items@.len(),
            st.den == den,
            0 < den < 0x1_0000_0000_0000_0000_0000_0000_0000,
            den == free.1 * weights,
            0 < weights < 0x8000_0000_0000_0000_0000_0000,
            free.0 != 0,
            factors > 0,
            f == loose_factors(items@, start, growing),
            w == loose_weights(items@, start, growing),
            factors == sum(f),
            weights == sum(w),
            free.1 == 1 || free.1 == 1000,
            free.1 == 1 ==> -0x1_4000_0000_0000_0000 <= free.0 <= 0x1_4000_0000_0000_0000,
            free.1 == 1000 ==> factors < 1000 && -0x1_4000_0000_0000_0000 * 1000 <= free.0
                <= 0x1_4000_0000_0000_0000 * 1000,
            amount == (if growing || free.0 < 0 {
                free.0 as int
            } else {
                -free.0
            }),
            goal == spread(items@, start, growing, (free.0 as int, free.1 as int)),
            start.frozen.len() == items@.len(),
            start.whole.len() == items@.len(),
            forall|j: int|
                0 <= j < items@.len() && #[trigger] start.frozen[j] ==> -0x8000_0000
                    <= st.whole@[j] <= 0x7fff_ffff && st.whole@[j] == start.whole[j],
            forall|j: int|
                0 <= j < k ==> {
                    &&& #[trigger] st.whole@[j] == goal.whole[j]
                    &&& -0x10_0000_0000_0000_0000 < st.whole@[j] < 0x10_0000_0000_0000_0000
                },
            forall|j: int|
                0 <= j < k ==> {
                    &&& #[trigger] st.part@[j] == goal.part[j]
                    &&& 0 <= st.part@[j] < den
                },
        decreases items@.len() - k,
    {
        if st.frozen[k] {
            proof {
                assert(start.frozen[k as int]);
            }
            st.part.set(k, 0);
        } else {
            let share: i128 = weight_of(&items[k], growing);
            proof {
                assert(w[k as int] == share);
                assert forall|j: int| 0 <= j < w.len() implies 0 <= #[trigger] w[j] by {
                    weight_is_not_negative(items@[j], growing);
                }
                one_of_the_sum(w, k as int);
                if free.1 == 1000 {
                    assert forall|j: int| 0 <= j < f.len() implies 0 <= #[trigger] f[j] by {
                    }
                    one_of_the_sum(f, k as int);
                    assert(f[k as int] == factor(items@[k as int], growing));
                    weight_within_factor(items@[k as int], growing, factors as int);
                }
                share_bounds(
                    amount as int,
                    share as int,
                    den as int,
                    free.1 as int,
                    weights as int,
                    factors as int,
                    items@[k as int].base as int,
                );
            }
            let size: u128 = if amount >= 0 {
                amount as u128
            } else {
                (-amount) as u128
            };
            let (q, r): (i128, i128) = floor_div(amount < 0, size * (share as u128), den);
            st.whole.set(k, items[k].base as i128 + q);
            st.part.set(k, r);
        }
        k += 1;
    }
    proof {
        assert(st.view().whole =~= goal.whole);
        assert(st.view().part =~= goal.part);
    }
}

proof fn weight_is_not_negative(item: Item, growing: bool)
    ensures
        0 <= weight(item, growing),
{
    let f = factor(item, growing);
    let b = larger(item.base, 0) as int;
    assert(0 <= f * b) by (nonlinear_arith)
        requires
            0 <= f,
            0 <= b,
    ;
}

proof fn weight_within_factor(item: Item, growing: bool, factors: int)
    requires
        factor(item, growing) <= factors,
    ensures
        weight(item, growing) <= factors * 0x8000_0000,
{
    let f = factor(item, growing);
    let b = larger(item.base, 0) as int;
    assert(f * b <= factors * 0x8000_0000 && f <= factors * 0x8000_0000) by (nonlinear_arith)
        requires
            0 <= f <= factors,
            0 <= b <= 0x8000_0000,
    ;
}

/// Put every loose item between its bounds. The result is the sign of the
/// total violation. See [`settle`].
fn settle_down(items: &Vec<Item>, st: &mut Division) -> (r: i8)
    requires
        old(st).ok(items@),
    ensures
        final(st).ok(items@),
        final(st).view() == settle(items@, old(st).view()),
        (r > 0) == (sum(violations(items@, old(st).view())) > 0),
        (r < 0) == (sum(violations(items@, old(st).view())) < 0),
{
    let ghost start = st.view();
    let ghost v = violations(items@, start);
    let den: i128 = st.den;
    let mut ups: Vec<i8> = Vec::new();
    let mut whole_sum: i128 = 0;
    let mut part_sum: i128 = 0;
    let mut k: usize = 0;
    let ghost goal = settle(items@, start);
    proof {
        assert(0int * den as int + 0 == 0);
    }
    while k < items.len()
        invariant
            k <= items@.len(),
            items@.len() <= MAX_ITEMS,
            st.frozen@ == start.frozen,
            st.frozen@.len() == items@.len(),
            st.whole@.len() == items@.len(),
            st.part@.len() == items@.len(),
            st.den == den,
            den == start.den,
            0 < den < 0x1_0000_0000_0000_0000_0000_0000_0000,
            v == violations(items@, start),
            goal == settle(items@, start),
            start.frozen.len() == items@.len(),
            start.whole.len() == items@.len(),
            start.part.len() == items@.len(),
            ups@.len() == k,
            0 <= part_sum < den,
            -0x20_0000_0000_0000_0000 * k <= whole_sum <= 0x20_0000_0000_0000_0000 * k,
            whole_sum * den + part_sum == sum(v.take(k as int)),
            forall|j: int|
                0 <= j < k ==> (#[trigger] ups@[j] > 0) == (v[j] > 0) && (ups@[j] < 0) == (v[j]
                    < 0),
            forall|j: int|
                0 <= j < k && #[trigger] ups@[j] != 0 ==> -0x8000_0000 <= st.whole@[j]
                    <= 0x7fff_ffff,
            forall|j: int|
                0 <= j < items@.len() && #[trigger] start.frozen[j] ==> -0x8000_0000
                    <= st.whole@[j] <= 0x7fff_ffff,
            forall|j: int|
                0 <= j < items@.len() ==> -0x10_0000_0000_0000_0000 < #[trigger] st.whole@[j]
                    < 0x10_0000_0000_0000_0000,
            forall|j: int| 0 <= j < items@.len() ==> 0 <= #[trigger] st.part@[j] < den,
            forall|j: int| k <= j < items@.len() ==> #[trigger] st.whole@[j] == start.whole[j],
            forall|j: int| k <= j < items@.len() ==> #[trigger] st.part@[j] == start.part[j],
            forall|j: int| 0 <= j < k ==> #[trigger] st.whole@[j] == goal.whole[j],
            forall|j: int| 0 <= j < k ==> #[trigger] st.part@[j] == goal.part[j],
        decreases items@.len() - k,
    {
        proof {
            sum_step(v, k as int);
        }
        let w: i128 = st.whole[k];
        let p: i128 = st.part[k];
        if st.frozen[k] {
            ups.push(0);
        } else {
            let b: (i128, i128) = bounded_size(&items[k], w, p);
            let up: i8 = if b.0 > w || (b.0 == w && b.1 > p) {
                1
            } else if b.0 < w || (b.0 == w && b.1 < p) {
                -1
            } else {
                0
            };
            ups.push(up);
            proof {
                lexicographic(b.0 - w, b.1 - p, den as int);
            }
            let ghost before = whole_sum * den + part_sum;
            let ghost (w0, p0) = (whole_sum as int, part_sum as int);
            whole_sum = whole_sum + (b.0 - w);
            part_sum = part_sum + (b.1 - p);
            if part_sum < 0 {
                part_sum = part_sum + den;
                whole_sum = whole_sum - 1;
            } else if part_sum >= den {
                part_sum = part_sum - den;
                whole_sum = whole_sum + 1;
            }
            proof {
                let dw = b.0 - w;
                let dp = b.1 - p;
                carried(w0, p0, dw, dp, den as int);
            }
            st.whole.set(k, b.0);
            st.part.set(k, b.1);
        }
        k += 1;
    }
    proof {
        assert(v.take(k as int) =~= v);
        lexicographic(whole_sum as int, part_sum as int, den as int);
    }
    let sign: i8 = if whole_sum > 0 || (whole_sum == 0 && part_sum > 0) {
        1
    } else if whole_sum < 0 {
        -1
    } else {
        0
    };
    proof {
        if whole_sum < 0 {
            assert(whole_sum * den + part_sum < 0) by (nonlinear_arith)
                requires
                    whole_sum <= -1,
                    0 <= part_sum < den,
            ;
        }
    }
    let mut k: usize = 0;
    while k < items.len()
        invariant
            k <= items@.len(),
            ups@.len() == items@.len(),
            st.frozen@.len() == items@.len(),
            st.whole@.len() == items@.len(),
            st.part@.len() == items@.len(),
            st.den == den,
            v == violations(items@, start),
            start.frozen.len() == items@.len(),
            goal == settle(items@, start),
            (sign > 0) == (sum(v) > 0),
            (sign < 0) == (sum(v) < 0),
            forall|j: int|
                0 <= j < items@.len() ==> (#[trigger] ups@[j] > 0) == (v[j] > 0) && (ups@[j] < 0)
                    == (v[j] < 0),
            forall|j: int|
                0 <= j < items@.len() && #[trigger] ups@[j] != 0 ==> -0x8000_0000 <= st.whole@[j]
                    <= 0x7fff_ffff,
            forall|j: int|
                0 <= j < items@.len() && #[trigger] start.frozen[j] ==> -0x8000_0000
                    <= st.whole@[j] <= 0x7fff_ffff,
            forall|j: int|
                0 <= j < items@.len() ==> -0x10_0000_0000_0000_0000 < #[trigger] st.whole@[j]
                    < 0x10_0000_0000_0000_0000,
            forall|j: int| 0 <= j < items@.len() ==> 0 <= #[trigger] st.part@[j] < den,
            forall|j: int| 0 <= j < items@.len() ==> #[trigger] st.whole@[j] == goal.whole[j],
            forall|j: int| 0 <= j < items@.len() ==> #[trigger] st.part@[j] == goal.part[j],
            forall|j: int| k <= j < items@.len() ==> #[trigger] st.frozen@[j] == start.frozen[j],
            forall|j: int|
                0 <= j < k ==> #[trigger] st.frozen@[j] == (start.frozen[j] || (sign > 0 && v[j]
                    > 0) || (sign < 0 && v[j] < 0)),
        decreases items@.len() - k,
    {
        let u: i8 = ups[k];
        if (sign > 0 && u > 0) || (sign < 0 && u < 0) {
            st.frozen.set(k, true);
        }
        k += 1;
    }
    proof {
        assert(st.view().whole =~= goal.whole);
        assert(st.view().part =~= goal.part);
        assert(st.view().frozen =~= goal.frozen);
        assert forall|j: int| 0 <= j < items@.len() && #[trigger] st.frozen@[j] implies -0x8000_0000
            <= st.whole@[j] <= 0x7fff_ffff by {
            if !start.frozen[j] {
                assert(ups@[j] != 0);
            }
        }
    }
    sign
}

/// Whole cells decide the sign of a difference, and parts of one only where
/// the whole cells agree.
proof fn lexicographic(w: int, p: int, den: int)
    requires
        0 < den,
        -den < p < den,
    ensures
        w > 0 ==> w * den + p > 0,
        w < 0 ==> w * den + p < 0,
        w == 0 ==> w * den + p == p,
{
    assert(w > 0 ==> w * den >= den) by (nonlinear_arith)
        requires
            0 < den,
    ;
    assert(w < 0 ==> w * den <= -den) by (nonlinear_arith)
        requires
            0 < den,
    ;
}

/// Moving `den` parts into a whole cell, or back, changes nothing.
proof fn carried(w: int, p: int, dw: int, dp: int, den: int)
    ensures
        (w + dw) * den + (p + dp) == (w * den + p) + (dw * den + dp),
        (w + dw + 1) * den + (p + dp - den) == (w * den + p) + (dw * den + dp),
        (w + dw - 1) * den + (p + dp + den) == (w * den + p) + (dw * den + dp),
{
    assert((w + dw) * den == w * den + dw * den) by (nonlinear_arith);
    assert((w + dw + 1) * den == w * den + dw * den + den) by (nonlinear_arith);
    assert((w + dw - 1) * den == w * den + dw * den - den) by (nonlinear_arith);
}

/// Resolve every item's used main size, in the order given.
///
/// `inner_main` is the container's inner main size and `total_gap` the space
/// the gaps between the items take out of it.
pub fn resolve(items: &Vec<Item>, inner_main: i32, total_gap: i32) -> (r: Vec<i32>)
    requires
        items@.len() <= MAX_ITEMS,
    ensures
        r@ == resolved(items@, inner_main, total_gap),
        r@.len() == items@.len(),
        forall|k: int| 0 <= k < r@.len() ==> #[trigger] r@[k] >= 0,
{
    let space: i32 = larger(minus(inner_main, total_gap), 0);
    let (edges, outer): (i128, i128) = line_totals(items);
    let growing: bool = outer < space as i128;
    let mut st: Division = begin(items, growing);
    let (h0, f0, w0): (i128, i128, i128) = loose_totals(items, &st, growing);
    let initial: i128 = space as i128 - edges - h0;
    let ghost first = st.view();
    let ghost goal = passes(
        items@,
        first,
        growing,
        space as int,
        initial as int,
        items@.len() + 1,
    );
    let mut left: usize = items.len();
    let mut done: bool = false;
    // One pass per item at most, and the last of them finds nothing to do.
    let mut last: bool = false;
    while !done
        invariant
            items@.len() <= MAX_ITEMS,
            st.ok(items@),
            edges == edges_total(items@),
            -0x8000_0000_0000_0000 <= edges <= 0x8000_0000_0000_0000,
            space >= 0,
            -0x1_4000_0000_0000_0000 <= initial <= 0x1_4000_0000_0000_0000,
            last ==> left == 0,
            !done ==> goal == passes(
                items@,
                st.view(),
                growing,
                space as int,
                initial as int,
                if last {
                    0nat
                } else {
                    (left + 1) as nat
                },
            ),
            done ==> goal == st.view(),
        decreases
                left + (if last {
                    0int
                } else {
                    1int
                }) + (if done {
                    0int
                } else {
                    1int
                }),
    {
        let mut loose: bool = false;
        let mut k: usize = 0;
        while k < items.len() && !loose
            invariant
                k <= items@.len(),
                st.frozen@.len() == items@.len(),
                loose ==> exists|j: int| 0 <= j < items@.len() && !#[trigger] st.frozen@[j],
                !loose ==> forall|j: int| 0 <= j < k ==> #[trigger] st.frozen@[j],
            decreases
                    items@.len() - k + (if loose {
                        0int
                    } else {
                        1int
                    }),
        {
            if !st.frozen[k] {
                loose = true;
            } else {
                k += 1;
            }
        }
        if last || !loose {
            done = true;
        } else {
            let (hs, fs, ws): (i128, i128, i128) = loose_totals(items, &st, growing);
            let free: i128 = space as i128 - edges - hs;
            let scaled: i128 = if fs < 1000 {
                assert(-0x1_4000_0000_0000_0000 * 1000 <= initial * fs <= 0x1_4000_0000_0000_0000
                    * 1000) by (nonlinear_arith)
                    requires
                        -0x1_4000_0000_0000_0000 <= initial <= 0x1_4000_0000_0000_0000,
                        0 <= fs < 1000,
                ;
                initial * fs
            } else {
                0
            };
            let a: i128 = if scaled >= 0 {
                scaled
            } else {
                -scaled
            };
            let b: i128 = if free >= 0 {
                free
            } else {
                -free
            };
            let hand: (i128, i128) = if fs < 1000 && a < b * 1000 {
                (scaled, 1000)
            } else {
                (free, 1)
            };
            spread_out(items, &mut st, growing, hand, fs, ws);
            let sign: i8 = settle_down(items, &mut st);
            if sign == 0 {
                done = true;
            } else if left == 0 {
                last = true;
            } else {
                left -= 1;
            }
        }
    }
    quantize(items, &st, space)
}

/// Floor every size and hand the leftover cells to the earliest items.
fn quantize(items: &Vec<Item>, st: &Division, space: i32) -> (r: Vec<i32>)
    requires
        st.ok(items@),
        space >= 0,
    ensures
        r@.len() == items@.len(),
        forall|k: int| 0 <= k < r@.len() ==> #[trigger] r@[k] >= 0,
        r@ == ({
            let sizes = floors(st.view().whole);
            hand_back(items@, st.view().part, sizes, space - sum(taken(items@, sizes)), 0)
        }),
{
    let ghost sizes0 = floors(st.view().whole);
    let ghost part = st.view().part;
    let ghost took = taken(items@, sizes0);
    let mut sizes: Vec<i32> = Vec::new();
    let mut used: i128 = 0;
    let mut k: usize = 0;
    while k < items.len()
        invariant
            k <= items@.len() <= MAX_ITEMS,
            st.ok(items@),
            sizes0 == floors(st.view().whole),
            took == taken(items@, sizes0),
            sizes@ =~= sizes0.take(k as int),
            forall|j: int| 0 <= j < k ==> #[trigger] sizes@[j] >= 0,
            used == sum(took.take(k as int)),
            -0x8000_0000 * k <= used <= 0x1_0000_0000 * k,
        decreases items@.len() - k,
    {
        proof {
            sum_step(took, k as int);
        }
        let w: i128 = st.whole[k];
        let size: i32 = fit_wide(
            if w > 0 {
                w
            } else {
                0
            },
        );
        assert(size == sizes0[k as int]);
        sizes.push(size);
        used = used + size as i128 + items[k].outer_edges as i128;
        k += 1;
    }
    proof {
        assert(took.take(k as int) =~= took);
        assert(sizes@ =~= sizes0);
    }
    let mut leftover: i128 = space as i128 - used;
    let ghost goal = hand_back(items@, part, sizes0, leftover as int, 0);
    let mut k: usize = 0;
    while k < items.len() && leftover > 0
        invariant
            k <= items@.len() <= MAX_ITEMS,
            st.ok(items@),
            part == st.view().part,
            sizes@.len() == items@.len(),
            forall|j: int| 0 <= j < items@.len() ==> #[trigger] sizes@[j] >= 0,
            goal == hand_back(items@, part, sizes@, leftover as int, k as int),
        decreases items@.len() - k,
    {
        let room: bool = match items[k].max {
            Some(max) => sizes[k] < max,
            None => true,
        };
        if st.part[k] > 0 && room && sizes[k] < i32::MAX {
            let grown: i32 = sizes[k] + 1;
            sizes.set(k, grown);
            leftover -= 1;
        }
        k += 1;
    }
    sizes
}

/// Which items share a line. A container that does not wrap has one line; a
/// wrapping one is cut at the last item that fits, and an item too long for any
/// line still starts one.
pub open spec fn line_ends(
    items: Seq<Item>,
    inner_main: i32,
    gap: i32,
    wraps: bool,
    i: int,
    used: i32,
) -> int
    decreases items.len() - i,
{
    if i >= items.len() {
        i
    } else {
        let outer = plus(items[i].hypothetical, items[i].outer_edges);
        if wraps && plus(plus(used, gap), outer) > inner_main {
            i
        } else {
            line_ends(items, inner_main, gap, wraps, i + 1, plus(plus(used, gap), outer))
        }
    }
}

/// Where the line that starts at item `i` ends.
pub open spec fn line_end(items: Seq<Item>, inner_main: i32, gap: i32, wraps: bool, i: int) -> int {
    line_ends(
        items,
        inner_main,
        gap,
        wraps,
        i + 1,
        plus(items[i].hypothetical, items[i].outer_edges),
    )
}

pub proof fn a_line_ends_past_its_start(
    items: Seq<Item>,
    inner_main: i32,
    gap: i32,
    wraps: bool,
    i: int,
    used: i32,
)
    requires
        0 <= i <= items.len(),
    ensures
        i <= line_ends(items, inner_main, gap, wraps, i, used) <= items.len(),
    decreases items.len() - i,
{
    if i < items.len() {
        let outer = plus(items[i].hypothetical, items[i].outer_edges);
        if !(wraps && plus(plus(used, gap), outer) > inner_main) {
            a_line_ends_past_its_start(
                items,
                inner_main,
                gap,
                wraps,
                i + 1,
                plus(plus(used, gap), outer),
            );
        }
    }
}

/// The lines from item `i` on, as half-open ranges.
pub open spec fn lines_from(
    items: Seq<Item>,
    inner_main: i32,
    gap: i32,
    wraps: bool,
    i: int,
) -> Seq<(usize, usize)>
    decreases items.len() - i,
    when 0 <= i
    via lines_move_on
{
    if i >= items.len() {
        Seq::empty()
    } else {
        let end = line_end(items, inner_main, gap, wraps, i);
        seq![(i as usize, end as usize)] + lines_from(items, inner_main, gap, wraps, end)
    }
}

#[via_fn]
proof fn lines_move_on(items: Seq<Item>, inner_main: i32, gap: i32, wraps: bool, i: int) {
    if 0 <= i < items.len() {
        a_line_ends_past_its_start(
            items,
            inner_main,
            gap,
            wraps,
            i + 1,
            plus(items[i].hypothetical, items[i].outer_edges),
        );
    }
}

/// Every line is a range of items with something in it.
pub open spec fn lines_ok(lines: Seq<(usize, usize)>, n: int) -> bool {
    forall|k: int|
        0 <= k < lines.len() ==> (#[trigger] lines[k]).0 < lines[k].1 && lines[k].1 <= n
}

/// The lines follow one another without a hole, up to item `n`.
pub open spec fn lines_reach(lines: Seq<(usize, usize)>, n: int) -> bool {
    &&& forall|k: int|
        0 <= k < lines.len() ==> (#[trigger] lines[k]).0 == reach_before(lines, k)
    &&& reach_before(lines, lines.len() as int) == n
}

/// How far the lines before the `k`th reach.
pub open spec fn reach_before(lines: Seq<(usize, usize)>, k: int) -> int {
    if k <= 0 {
        0
    } else {
        lines[k - 1].1 as int
    }
}

/// See [`lines_from`].
pub fn collect_lines(items: &Vec<Item>, inner_main: i32, gap: i32, wraps: bool) -> (r: Vec<
    (usize, usize),
>)
    ensures
        r@ == lines_from(items@, inner_main, gap, wraps, 0),
        lines_ok(r@, items@.len() as int),
        lines_reach(r@, items@.len() as int),
        items@.len() > 0 ==> r@.len() > 0,
{
    let mut out: Vec<(usize, usize)> = Vec::new();
    let mut start: usize = 0;
    proof {
        let all = lines_from(items@, inner_main, gap, wraps, 0);
        assert(out@ + all =~= all);
    }
    while start < items.len()
        invariant
            start <= items@.len(),
            lines_ok(out@, items@.len() as int),
            lines_reach(out@, start as int),
            start > 0 ==> out@.len() > 0,
            out@ + lines_from(items@, inner_main, gap, wraps, start as int) == lines_from(
                items@,
                inner_main,
                gap,
                wraps,
                0,
            ),
        decreases items@.len() - start,
    {
        let mut used: i32 = plus(items[start].hypothetical, items[start].outer_edges);
        let mut end: usize = start + 1;
        let mut fits: bool = true;
        let ghost goal = line_end(items@, inner_main, gap, wraps, start as int);
        while end < items.len() && fits
            invariant
                start < end <= items@.len(),
                fits ==> goal == line_ends(items@, inner_main, gap, wraps, end as int, used),
                !fits ==> goal == end,
            decreases
                    items@.len() - end + (if fits {
                        1int
                    } else {
                        0int
                    }),
        {
            let outer: i32 = plus(items[end].hypothetical, items[end].outer_edges);
            let next: i32 = plus(plus(used, gap), outer);
            if wraps && next > inner_main {
                fits = false;
            } else {
                used = next;
                end += 1;
            }
        }
        proof {
            let rest = lines_from(items@, inner_main, gap, wraps, end as int);
            assert(out@.push((start, end)) + rest =~= out@ + (seq![(start, end)] + rest));
        }
        out.push((start, end));
        start = end;
    }
    proof {
        assert(out@ + Seq::<(usize, usize)>::empty() =~= out@);
    }
    out
}

/// Slot `i` of `slots` that share `free` cells: equal shares, the odd cells
/// going to the earliest.
pub open spec fn share(free: i32, slots: int, i: int) -> i32 {
    if slots <= 0 || free <= 0 {
        0
    } else {
        (free as int / slots + (if i < free as int % slots {
            1int
        } else {
            0int
        })) as i32
    }
}

fn share_of(free: i32, slots: u128, i: u128) -> (r: i32)
    ensures
        r == share(free, slots as int, i as int),
{
    if slots == 0 || free <= 0 {
        return 0;
    }
    let f: u128 = free as u128;
    let each: u128 = f / slots;
    let odd: u128 = f % slots;
    proof {
        vstd::arithmetic::div_mod::lemma_div_is_ordered_by_denominator(
            f as int,
            1,
            slots as int,
        );
        vstd::arithmetic::div_mod::lemma_fundamental_div_mod(f as int, slots as int);
        if each == f {
            assert(slots == 1 || f == 0) by (nonlinear_arith)
                requires
                    f == slots * each + odd,
                    each == f,
                    slots >= 1,
                    odd >= 0,
            ;
        }
    }
    if i < odd {
        (each + 1) as i32
    } else {
        each as i32
    }
}

/// The extra room before item `i` of `n`, of `free` cells placed by `justify`.
pub open spec fn room_before(justify: JustifyContent, n: int, free: i32, i: int) -> i32 {
    match justify {
        JustifyContent::FlexStart => 0,
        JustifyContent::FlexEnd => if i == 0 {
            larger(free, 0)
        } else {
            0
        },
        JustifyContent::Center => if i == 0 {
            share(free, 2, 0)
        } else {
            0
        },
        JustifyContent::SpaceBetween => if i == 0 {
            0
        } else {
            share(free, n - 1, i - 1)
        },
        JustifyContent::SpaceAround => if i == 0 {
            share(free, 2 * n, 0)
        } else {
            plus(share(free, 2 * n, 2 * i - 1), share(free, 2 * n, 2 * i))
        },
        JustifyContent::SpaceEvenly => share(free, n + 1, i),
    }
}

fn room_before_item(justify: JustifyContent, n: usize, free: i32, i: usize) -> (r: i32)
    requires
        i < n,
    ensures
        r == room_before(justify, n as int, free, i as int),
{
    let n: u128 = n as u128;
    let i: u128 = i as u128;
    match justify {
        JustifyContent::FlexStart => 0,
        JustifyContent::FlexEnd => if i == 0 {
            larger(free, 0)
        } else {
            0
        },
        JustifyContent::Center => if i == 0 {
            share_of(free, 2, 0)
        } else {
            0
        },
        JustifyContent::SpaceBetween => if i == 0 {
            0
        } else {
            share_of(free, n - 1, i - 1)
        },
        JustifyContent::SpaceAround => if i == 0 {
            share_of(free, 2 * n, 0)
        } else {
            plus(share_of(free, 2 * n, 2 * i - 1), share_of(free, 2 * n, 2 * i))
        },
        JustifyContent::SpaceEvenly => share_of(free, n + 1, i),
    }
}

/// One item on a line: its outer main size, and which of its main-axis margins
/// are `auto`.
#[derive(Clone, Copy, PartialEq, Eq, Debug, Structural)]
pub struct Slot {
    pub outer: i32,
    pub auto_start: bool,
    pub auto_end: bool,
}

/// Where an item goes on its line, and what its `auto` margins took.
#[derive(Clone, Copy, PartialEq, Eq, Debug, Structural)]
pub struct Placed {
    pub main_start: i32,
    pub auto_start: i32,
    pub auto_end: i32,
}

/// What the slots from `i` on and the gaps between all of them take.
pub open spec fn line_used_from(slots: Seq<Slot>, acc: i32, i: int) -> i32
    decreases slots.len() - i,
{
    if i >= slots.len() {
        acc
    } else {
        line_used_from(slots, plus(acc, slots[i].outer), i + 1)
    }
}

/// The gaps between `n` things.
pub open spec fn gaps(gap: i32, n: int) -> i32 {
    times(gap, minus(fit(n), 1))
}

/// What a line really takes: its items and the gaps between them.
pub open spec fn line_used(slots: Seq<Slot>, gap: i32) -> i32 {
    line_used_from(slots, gaps(gap, slots.len() as int), 0)
}

/// See [`line_used`].
pub fn used_by_line(slots: &Vec<Slot>, gap: i32) -> (r: i32)
    ensures
        r == line_used(slots@, gap),
{
    let mut acc: i32 = times(gap, minus(count(slots.len()), 1));
    let mut i: usize = 0;
    while i < slots.len()
        invariant
            i <= slots@.len(),
            line_used(slots@, gap) == line_used_from(slots@, acc, i as int),
        decreases slots@.len() - i,
    {
        acc = plus(acc, slots[i].outer);
        i += 1;
    }
    acc
}

pub open spec fn one_if(b: bool) -> int {
    if b {
        1
    } else {
        0
    }
}

/// How many `auto` margins the first `n` slots have.
pub open spec fn autos(slots: Seq<Slot>, n: int) -> int
    decreases n,
{
    if n <= 0 {
        0
    } else {
        autos(slots, n - 1) + one_if(slots[n - 1].auto_start) + one_if(slots[n - 1].auto_end)
    }
}

/// The `k`th `auto` margin's share of the free space.
pub open spec fn auto_share(is_auto: bool, free: i32, all: int, k: int) -> i32 {
    if is_auto {
        share(free, all, k)
    } else {
        0
    }
}

/// The places of the slots from `i` on, the next of them starting at `cursor`
/// at the earliest.
pub open spec fn places_from(
    slots: Seq<Slot>,
    gap: i32,
    free: i32,
    justify: JustifyContent,
    i: int,
    cursor: i32,
) -> Seq<Placed>
    decreases slots.len() - i,
{
    if i >= slots.len() {
        Seq::empty()
    } else {
        let all = autos(slots, slots.len() as int);
        let seen = autos(slots, i);
        let slot = slots[i];
        let lead = auto_share(slot.auto_start, free, all, seen);
        let trail = auto_share(slot.auto_end, free, all, seen + one_if(slot.auto_start));
        let at = if all > 0 {
            cursor
        } else {
            plus(cursor, room_before(justify, slots.len() as int, free, i))
        };
        let next = plus(plus(at, plus(plus(slot.outer, lead), trail)), gap);
        seq![Placed { main_start: at, auto_start: lead, auto_end: trail }] + places_from(
            slots,
            gap,
            free,
            justify,
            i + 1,
            next,
        )
    }
}

/// Where the items of a line go: `auto` margins take the free space first, and
/// what they leave is `justify-content`'s. A line that overflows has none and
/// starts at the start edge.
pub open spec fn places(slots: Seq<Slot>, gap: i32, inner_main: i32, justify: JustifyContent) -> Seq<
    Placed,
> {
    places_from(
        slots,
        gap,
        larger(minus(inner_main, line_used(slots, gap)), 0),
        justify,
        0,
        0,
    )
}

fn count_autos(slots: &Vec<Slot>) -> (r: u128)
    ensures
        r == autos(slots@, slots@.len() as int),
{
    let mut n: u128 = 0;
    let mut i: usize = 0;
    while i < slots.len()
        invariant
            i <= slots.len(),
            n == autos(slots@, i as int),
            n <= 2 * i,
        decreases slots@.len() - i,
    {
        if slots[i].auto_start {
            n += 1;
        }
        if slots[i].auto_end {
            n += 1;
        }
        i += 1;
    }
    n
}

/// See [`places`].
pub fn place(slots: &Vec<Slot>, gap: i32, inner_main: i32, justify: JustifyContent) -> (r: Vec<
    Placed,
>)
    ensures
        r@ == places(slots@, gap, inner_main, justify),
        r@.len() == slots@.len(),
{
    let free: i32 = larger(minus(inner_main, used_by_line(slots, gap)), 0);
    let all: u128 = count_autos(slots);
    let mut out: Vec<Placed> = Vec::new();
    let mut seen: u128 = 0;
    let mut cursor: i32 = 0;
    let mut i: usize = 0;
    proof {
        let goal = places(slots@, gap, inner_main, justify);
        assert(out@ + goal =~= goal);
    }
    while i < slots.len()
        invariant
            i <= slots.len(),
            out@.len() == i,
            all == autos(slots@, slots@.len() as int),
            seen == autos(slots@, i as int),
            seen <= 2 * i,
            out@ + places_from(slots@, gap, free, justify, i as int, cursor) == places(
                slots@,
                gap,
                inner_main,
                justify,
            ),
        decreases slots@.len() - i,
    {
        let slot: Slot = slots[i];
        let mut lead: i32 = 0;
        let mut trail: i32 = 0;
        if slot.auto_start {
            lead = share_of(free, all, seen);
            seen += 1;
        }
        if slot.auto_end {
            trail = share_of(free, all, seen);
            seen += 1;
        }
        let at: i32 = if all > 0 {
            cursor
        } else {
            plus(cursor, room_before_item(justify, slots.len(), free, i))
        };
        let placed: Placed = Placed { main_start: at, auto_start: lead, auto_end: trail };
        let ghost before = out@;
        out.push(placed);
        cursor = plus(plus(at, plus(plus(slot.outer, lead), trail)), gap);
        proof {
            let rest = places_from(slots@, gap, free, justify, i + 1, cursor);
            assert(before.push(placed) + rest =~= before + (seq![placed] + rest));
        }
        i += 1;
    }
    proof {
        assert(out@ + Seq::<Placed>::empty() =~= out@);
    }
    out
}

/// One item seen across its line.
#[derive(Clone, Copy, PartialEq, Eq, Debug, Structural)]
pub struct CrossItem {
    /// Outer cross size.
    pub outer: i32,
    /// Its baseline's distance from its cross-start edge.
    pub baseline: i32,
    pub align: AlignItems,
    pub auto_start: bool,
    pub auto_end: bool,
}

/// Where an item goes across its line, and what its `auto` margins took.
#[derive(Clone, Copy, PartialEq, Eq, Debug, Structural)]
pub struct CrossPlaced {
    pub cross_start: i32,
    pub auto_start: i32,
    pub auto_end: i32,
}

/// Where a line goes across its container, and how big it is.
#[derive(Clone, Copy, PartialEq, Eq, Debug, Structural)]
pub struct PlacedLine {
    pub cross_start: i32,
    pub cross: i32,
}

/// Is this item aligned by its baseline?
#[verifier::allow_in_spec]
pub fn by_baseline(item: CrossItem) -> (r: bool)
    returns
        item.align is Baseline && !item.auto_start && !item.auto_end,
{
    matches!(item.align, AlignItems::Baseline) && !item.auto_start && !item.auto_end
}

/// The deepest baseline of the first `n` items that are aligned by theirs.
pub open spec fn deepest_baseline(items: Seq<CrossItem>, n: int) -> i32
    decreases n,
{
    if n <= 0 {
        0
    } else if by_baseline(items[n - 1]) {
        larger(deepest_baseline(items, n - 1), items[n - 1].baseline)
    } else {
        deepest_baseline(items, n - 1)
    }
}

/// How far the first `n` items reach past the shared baseline at `deepest`, or
/// across the line where they are not aligned by one.
pub open spec fn reach_across(items: Seq<CrossItem>, deepest: i32, n: int) -> i32
    decreases n,
{
    if n <= 0 {
        0
    } else {
        let item = items[n - 1];
        larger(
            reach_across(items, deepest, n - 1),
            if by_baseline(item) {
                plus(deepest, minus(item.outer, item.baseline))
            } else {
                item.outer
            },
        )
    }
}

/// How big a line is: as big as the items on it, those aligned by their
/// baselines being measured around the shared one.
pub open spec fn line_cross_size(items: Seq<CrossItem>) -> i32 {
    let n = items.len() as int;
    reach_across(items, deepest_baseline(items, n), n)
}

fn deepest(items: &Vec<CrossItem>, from: usize, to: usize) -> (r: i32)
    requires
        from <= to <= items@.len(),
    ensures
        r == deepest_baseline(items@.subrange(from as int, to as int), to - from),
{
    let ghost line = items@.subrange(from as int, to as int);
    let mut d: i32 = 0;
    let mut i: usize = from;
    while i < to
        invariant
            from <= i <= to <= items@.len(),
            line == items@.subrange(from as int, to as int),
            d == deepest_baseline(line, i - from),
        decreases to - i,
    {
        assert(line[i - from] == items@[i as int]);
        if by_baseline(items[i]) {
            d = larger(d, items[i].baseline);
        }
        i += 1;
    }
    d
}

/// [`line_cross_size`] of the items `from..to`.
pub fn cross_size(items: &Vec<CrossItem>, from: usize, to: usize) -> (r: i32)
    requires
        from <= to <= items@.len(),
    ensures
        r == line_cross_size(items@.subrange(from as int, to as int)),
        r >= 0,
{
    let ghost line = items@.subrange(from as int, to as int);
    let d: i32 = deepest(items, from, to);
    let mut reach: i32 = 0;
    let mut i: usize = from;
    while i < to
        invariant
            from <= i <= to <= items@.len(),
            line == items@.subrange(from as int, to as int),
            d == deepest_baseline(line, to - from),
            reach == reach_across(line, d, i - from),
            reach >= 0,
        decreases to - i,
    {
        assert(line[i - from] == items@[i as int]);
        let item: CrossItem = items[i];
        reach = larger(
            reach,
            if by_baseline(item) {
                plus(d, minus(item.outer, item.baseline))
            } else {
                item.outer
            },
        );
        i += 1;
    }
    reach
}

/// What lines and the gaps between them take.
pub open spec fn lines_used(lines: Seq<i32>, gap: i32) -> i32 {
    plus(crate::cells::total(lines), gaps(gap, lines.len() as int))
}

/// See [`lines_used`].
pub fn used_cross(lines: &Vec<i32>, gap: i32) -> (r: i32)
    ensures
        r == lines_used(lines@, gap),
{
    proof {
        assert(lines@.subrange(0, lines@.len() as int) =~= lines@);
    }
    plus(
        crate::cells::total_of(lines, 0, lines.len()),
        times(gap, minus(count(lines.len()), 1)),
    )
}

/// The places of the lines from `i` on.
pub open spec fn stacked_from(
    lines: Seq<i32>,
    gap: i32,
    free: i32,
    align: AlignContent,
    i: int,
    cursor: i32,
) -> Seq<PlacedLine>
    decreases lines.len() - i,
{
    if i >= lines.len() {
        Seq::empty()
    } else {
        let n = lines.len() as int;
        let (at, cross): (i32, i32) = match align {
            AlignContent::Stretch => (cursor, plus(lines[i], share(free, n, i))),
            AlignContent::Pack(justify) => (
                plus(cursor, room_before(justify, n, free, i)),
                lines[i],
            ),
        };
        seq![PlacedLine { cross_start: at, cross }] + stacked_from(
            lines,
            gap,
            free,
            align,
            i + 1,
            plus(plus(at, cross), gap),
        )
    }
}

/// Where the lines go across their container: stretched into the free space,
/// or packed in it. Lines that overflow start at the start edge.
pub open spec fn stacked(lines: Seq<i32>, gap: i32, inner_cross: i32, align: AlignContent) -> Seq<
    PlacedLine,
> {
    stacked_from(
        lines,
        gap,
        larger(minus(inner_cross, lines_used(lines, gap)), 0),
        align,
        0,
        0,
    )
}

/// See [`stacked`].
pub fn align_lines(lines: &Vec<i32>, gap: i32, inner_cross: i32, align: AlignContent) -> (r: Vec<
    PlacedLine,
>)
    ensures
        r@ == stacked(lines@, gap, inner_cross, align),
        r@.len() == lines@.len(),
{
    let free: i32 = larger(minus(inner_cross, used_cross(lines, gap)), 0);
    let mut out: Vec<PlacedLine> = Vec::new();
    let mut cursor: i32 = 0;
    let mut i: usize = 0;
    proof {
        let goal = stacked(lines@, gap, inner_cross, align);
        assert(out@ + goal =~= goal);
    }
    while i < lines.len()
        invariant
            i <= lines.len(),
            out@.len() == i,
            out@ + stacked_from(lines@, gap, free, align, i as int, cursor) == stacked(
                lines@,
                gap,
                inner_cross,
                align,
            ),
        decreases lines@.len() - i,
    {
        let mut at: i32 = cursor;
        let mut cross: i32 = lines[i];
        match align {
            AlignContent::Stretch => {
                cross = plus(cross, share_of(free, lines.len() as u128, i as u128));
            },
            AlignContent::Pack(justify) => {
                at = plus(cursor, room_before_item(justify, lines.len(), free, i));
            },
        }
        let placed: PlacedLine = PlacedLine { cross_start: at, cross };
        let ghost before = out@;
        out.push(placed);
        cursor = plus(plus(at, cross), gap);
        proof {
            let rest = stacked_from(lines@, gap, free, align, i + 1, cursor);
            assert(before.push(placed) + rest =~= before + (seq![placed] + rest));
        }
        i += 1;
    }
    proof {
        assert(out@ + Seq::<PlacedLine>::empty() =~= out@);
    }
    out
}

/// Where one item goes across a line `line_cross` big: `auto` margins take the
/// free space first, and what they leave is alignment's. An item that overflows
/// its line starts at the start edge.
pub open spec fn across_line(item: CrossItem, line_cross: i32, deepest: i32) -> CrossPlaced {
    let free = larger(minus(line_cross, item.outer), 0);
    let sides = one_if(item.auto_start) + one_if(item.auto_end);
    if sides > 0 {
        CrossPlaced {
            cross_start: 0,
            auto_start: auto_share(item.auto_start, free, sides, 0),
            auto_end: auto_share(item.auto_end, free, sides, one_if(item.auto_start)),
        }
    } else {
        CrossPlaced {
            cross_start: match item.align {
                AlignItems::Stretch | AlignItems::FlexStart => 0,
                AlignItems::FlexEnd => free,
                AlignItems::Center => share(free, 2, 0),
                AlignItems::Baseline => minus(deepest, item.baseline),
            },
            auto_start: 0,
            auto_end: 0,
        }
    }
}

/// The places across one line of its items.
pub open spec fn cross_places(items: Seq<CrossItem>, line_cross: i32) -> Seq<CrossPlaced> {
    items.map_values(
        |item: CrossItem|
            across_line(item, line_cross, deepest_baseline(items, items.len() as int)),
    )
}

/// [`cross_places`] of the items `from..to`.
pub fn cross_place(items: &Vec<CrossItem>, from: usize, to: usize, line_cross: i32) -> (r: Vec<
    CrossPlaced,
>)
    requires
        from <= to <= items@.len(),
    ensures
        r@ == cross_places(items@.subrange(from as int, to as int), line_cross),
        r@.len() == to - from,
{
    let ghost line = items@.subrange(from as int, to as int);
    let d: i32 = deepest(items, from, to);
    let mut out: Vec<CrossPlaced> = Vec::new();
    let mut i: usize = from;
    while i < to
        invariant
            from <= i <= to <= items@.len(),
            line == items@.subrange(from as int, to as int),
            d == deepest_baseline(line, to - from),
            out@ =~= cross_places(line, line_cross).take(i - from),
        decreases to - i,
    {
        assert(line[i - from] == items@[i as int]);
        let item: CrossItem = items[i];
        let free: i32 = larger(minus(line_cross, item.outer), 0);
        let placed: CrossPlaced = if item.auto_start && item.auto_end {
            CrossPlaced {
                cross_start: 0,
                auto_start: share_of(free, 2, 0),
                auto_end: share_of(free, 2, 1),
            }
        } else if item.auto_start {
            CrossPlaced { cross_start: 0, auto_start: share_of(free, 1, 0), auto_end: 0 }
        } else if item.auto_end {
            CrossPlaced { cross_start: 0, auto_start: 0, auto_end: share_of(free, 1, 0) }
        } else {
            let at: i32 = match item.align {
                AlignItems::Stretch => 0,
                AlignItems::FlexStart => 0,
                AlignItems::FlexEnd => free,
                AlignItems::Center => share_of(free, 2, 0),
                AlignItems::Baseline => minus(d, item.baseline),
            };
            CrossPlaced { cross_start: at, auto_start: 0, auto_end: 0 }
        };
        assert(placed == cross_places(line, line_cross)[i - from]);
        out.push(placed);
        i += 1;
    }
    proof {
        assert(cross_places(line, line_cross).take(to - from) =~= cross_places(line, line_cross));
    }
    out
}

} // verus!
