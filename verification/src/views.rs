//! The mathematical value of a list whose items have one themselves.

use vstd::prelude::*;

verus! {

/// The items' own views, in order.
pub open spec fn views<T: View>(s: Seq<T>) -> Seq<T::V> {
    s.map_values(|t: T| t.view())
}

pub broadcast proof fn views_len<T: View>(s: Seq<T>)
    ensures
        #[trigger] views(s).len() == s.len(),
{
}

pub broadcast proof fn views_index<T: View>(s: Seq<T>, i: int)
    requires
        0 <= i < s.len(),
    ensures
        #[trigger] views(s)[i] == s[i].view(),
{
}

pub broadcast proof fn views_push<T: View>(s: Seq<T>, t: T)
    ensures
        #[trigger] views(s.push(t)) == views(s).push(t.view()),
{
    assert(views(s.push(t)) =~= views(s).push(t.view()));
}

pub broadcast proof fn views_update<T: View>(s: Seq<T>, i: int, t: T)
    requires
        0 <= i < s.len(),
    ensures
        #[trigger] views(s.update(i, t)) == views(s).update(i, t.view()),
{
    assert(views(s.update(i, t)) =~= views(s).update(i, t.view()));
}

pub broadcast proof fn views_empty<T: View>()
    ensures
        #[trigger] views(Seq::<T>::empty()) == Seq::<T::V>::empty(),
{
    assert(views(Seq::<T>::empty()) =~= Seq::<T::V>::empty());
}

pub broadcast group group_views {
    views_len,
    views_index,
    views_push,
    views_update,
    views_empty,
}

/// The view of an optional value.
pub open spec fn view_opt<T: View>(o: Option<T>) -> Option<T::V> {
    match o {
        Some(t) => Some(t.view()),
        None => None,
    }
}

} // verus!
