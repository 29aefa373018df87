//! Stable sorting by key.

use vstd::prelude::*;

verus! {

/// Where index `k` goes in a sorted list: after the last of the first `n`
/// entries whose key is not larger.
pub open spec fn slot_for(keys: Seq<i128>, order: Seq<usize>, k: int, n: int) -> int
    decreases n,
{
    if n <= 0 {
        0
    } else if keys[order[n - 1] as int] <= keys[k] {
        n
    } else {
        slot_for(keys, order, k, n - 1)
    }
}

/// The first `n` indices, in the order of their keys; equal keys keep the
/// order they came in.
pub open spec fn sorted_indices(keys: Seq<i128>, n: int) -> Seq<usize>
    decreases n,
{
    if n <= 0 {
        Seq::empty()
    } else {
        let before = sorted_indices(keys, n - 1);
        before.insert(slot_for(keys, before, n - 1, before.len() as int), (n - 1) as usize)
    }
}

/// Every entry is an index below `n`.
pub open spec fn indices_below(order: Seq<usize>, n: int) -> bool {
    forall|i: int| 0 <= i < order.len() ==> (#[trigger] order[i]) < n
}

/// The order in which keys come, smaller first and equal ones as they stood.
pub fn stable_order(keys: &Vec<i128>) -> (r: Vec<usize>)
    ensures
        r@ == sorted_indices(keys@, keys@.len() as int),
        r@.len() == keys@.len(),
        indices_below(r@, keys@.len() as int),
{
    let mut order: Vec<usize> = Vec::new();
    let mut k: usize = 0;
    while k < keys.len()
        invariant
            k <= keys@.len(),
            order@ == sorted_indices(keys@, k as int),
            order@.len() == k,
            indices_below(order@, k as int),
        decreases keys@.len() - k,
    {
        let mut n: usize = order.len();
        while n > 0 && keys[order[n - 1]] > keys[k]
            invariant
                k < keys@.len(),
                n <= order@.len(),
                indices_below(order@, k as int),
                slot_for(keys@, order@, k as int, order@.len() as int) == slot_for(
                    keys@,
                    order@,
                    k as int,
                    n as int,
                ),
            decreases n,
        {
            n -= 1;
        }
        order.insert(n, k);
        k += 1;
    }
    order
}

/// Whether the keys of a list of indices never decrease.
pub open spec fn keys_ascend(keys: Seq<i128>, order: Seq<usize>) -> bool {
    forall|i: int, j: int|
        0 <= i < j < order.len() ==> {
            &&& keys[#[trigger] order[i] as int] <= keys[#[trigger] order[j] as int]
            &&& keys[order[i] as int] == keys[order[j] as int] ==> order[i] < order[j]
        }
}

pub proof fn slot_splits(keys: Seq<i128>, order: Seq<usize>, k: int, n: int)
    requires
        0 <= n <= order.len(),
        keys_ascend(keys, order),
    ensures
        0 <= slot_for(keys, order, k, n) <= n,
        forall|i: int|
            0 <= i < slot_for(keys, order, k, n) ==> keys[#[trigger] order[i] as int] <= keys[k],
        forall|i: int|
            slot_for(keys, order, k, n) <= i < n ==> keys[#[trigger] order[i] as int] > keys[k],
    decreases n,
{
    if n > 0 {
        if keys[order[n - 1] as int] <= keys[k] {
            assert forall|i: int| 0 <= i < n implies keys[#[trigger] order[i] as int] <= keys[k] by {
                if i < n - 1 {
                    assert(keys[order[i] as int] <= keys[order[n - 1] as int]);
                }
            }
        } else {
            slot_splits(keys, order, k, n - 1);
        }
    }
}

/// The sort is one: keys never decrease, and equal keys keep their order.
pub proof fn sorting_sorts(keys: Seq<i128>, n: int)
    requires
        0 <= n <= keys.len(),
        n <= usize::MAX,
    ensures
        sorted_indices(keys, n).len() == n,
        indices_below(sorted_indices(keys, n), n),
        keys_ascend(keys, sorted_indices(keys, n)),
    decreases n,
{
    if n > 0 {
        sorting_sorts(keys, n - 1);
        let before = sorted_indices(keys, n - 1);
        let at = slot_for(keys, before, n - 1, before.len() as int);
        slot_splits(keys, before, n - 1, before.len() as int);
        let after = before.insert(at, (n - 1) as usize);
        assert forall|i: int| 0 <= i < after.len() implies (#[trigger] after[i]) < n by {
            if i < at {
                assert(after[i] == before[i]);
            } else if i > at {
                assert(after[i] == before[i - 1]);
            }
        }
        assert forall|i: int, j: int| 0 <= i < j < after.len() implies {
            &&& keys[#[trigger] after[i] as int] <= keys[#[trigger] after[j] as int]
            &&& keys[after[i] as int] == keys[after[j] as int] ==> after[i] < after[j]
        } by {
            let a = if i < at {
                i
            } else {
                i - 1
            };
            let b = if j < at {
                j
            } else {
                j - 1
            };
            if i != at {
                assert(after[i] == before[a]);
            }
            if j != at {
                assert(after[j] == before[b]);
            }
            if i != at && j != at {
                assert(a < b);
            }
        }
    }
}

} // verus!
