//! Sums of whole numbers.

use vstd::prelude::*;

verus! {

/// Numbers added up.
pub open spec fn sum(s: Seq<int>) -> int
    decreases s.len(),
{
    if s.len() == 0 {
        0
    } else {
        sum(s.drop_last()) + s.last()
    }
}

/// A sum of one more.
pub proof fn sum_step(s: Seq<int>, i: int)
    requires
        0 <= i < s.len(),
    ensures
        sum(s.take(i + 1)) == sum(s.take(i)) + s[i],
{
    assert(s.take(i + 1).drop_last() =~= s.take(i));
}

/// No member of a list without negative numbers exceeds its sum.
pub proof fn one_of_the_sum(s: Seq<int>, k: int)
    requires
        0 <= k < s.len(),
        forall|j: int| 0 <= j < s.len() ==> 0 <= #[trigger] s[j],
    ensures
        s[k] <= sum(s),
    decreases s.len(),
{
    sum_is_not_negative(s.drop_last());
    if k < s.len() - 1 {
        one_of_the_sum(s.drop_last(), k);
    }
}

/// A sum without negative members is not negative.
pub proof fn sum_is_not_negative(s: Seq<int>)
    requires
        forall|j: int| 0 <= j < s.len() ==> 0 <= #[trigger] s[j],
    ensures
        0 <= sum(s),
    decreases s.len(),
{
    if s.len() > 0 {
        sum_is_not_negative(s.drop_last());
    }
}

/// Sums add up member by member.
pub proof fn sums_add(a: Seq<int>, b: Seq<int>, c: Seq<int>)
    requires
        a.len() == b.len() == c.len(),
        forall|k: int| 0 <= k < a.len() ==> #[trigger] c[k] == a[k] + b[k],
    ensures
        sum(c) == sum(a) + sum(b),
    decreases a.len(),
{
    if a.len() > 0 {
        let n = a.len() - 1;
        assert(c[n] == a[n] + b[n]);
        assert forall|k: int| 0 <= k < n implies #[trigger] c.drop_last()[k] == a.drop_last()[k]
            + b.drop_last()[k] by {
            assert(c[k] == a[k] + b[k]);
        }
        sums_add(a.drop_last(), b.drop_last(), c.drop_last());
    }
}

/// A common factor comes out of a sum.
pub proof fn sums_scale(a: Seq<int>, b: Seq<int>, f: int)
    requires
        a.len() == b.len(),
        forall|k: int| 0 <= k < a.len() ==> #[trigger] b[k] == f * a[k],
    ensures
        sum(b) == f * sum(a),
    decreases a.len(),
{
    if a.len() > 0 {
        let n = a.len() - 1;
        assert(b[n] == f * a[n]);
        assert forall|k: int| 0 <= k < n implies #[trigger] b.drop_last()[k] == f
            * a.drop_last()[k] by {
            assert(b[k] == f * a[k]);
        }
        sums_scale(a.drop_last(), b.drop_last(), f);
        let rest = sum(a.drop_last());
        assert(f * (rest + a[n]) == f * rest + f * a[n]) by (nonlinear_arith);
    } else {
        assert(f * 0 == 0);
    }
}

/// Members that are no larger make a sum that is no larger.
pub proof fn sums_keep_order(a: Seq<int>, b: Seq<int>)
    requires
        a.len() == b.len(),
        forall|k: int| 0 <= k < a.len() ==> #[trigger] a[k] <= b[k],
    ensures
        sum(a) <= sum(b),
    decreases a.len(),
{
    if a.len() > 0 {
        let n = a.len() - 1;
        assert(a[n] <= b[n]);
        assert forall|k: int| 0 <= k < n implies #[trigger] a.drop_last()[k] <= b.drop_last()[k] by {
            assert(a[k] <= b[k]);
        }
        sums_keep_order(a.drop_last(), b.drop_last());
    }
}

/// A positive sum has a positive member.
pub proof fn a_positive_member_of_a_sum(s: Seq<int>) -> (k: int)
    requires
        sum(s) > 0,
    ensures
        0 <= k < s.len(),
        s[k] > 0,
    decreases s.len(),
{
    if s.last() > 0 {
        s.len() - 1
    } else {
        a_positive_member_of_a_sum(s.drop_last())
    }
}

/// One more in one member is one more in the sum.
pub proof fn one_more_in_a_sum(s: Seq<int>, k: int)
    requires
        0 <= k < s.len(),
    ensures
        sum(s.update(k, s[k] + 1)) == sum(s) + 1,
    decreases s.len(),
{
    let t = s.update(k, s[k] + 1);
    if k == s.len() - 1 {
        assert(t.drop_last() =~= s.drop_last());
    } else {
        assert(t.drop_last() =~= s.drop_last().update(k, s[k] + 1));
        one_more_in_a_sum(s.drop_last(), k);
    }
}

} // verus!
