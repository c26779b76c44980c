//! # Lists
//!
//! What a vector holds, read through the views of its elements.

use vstd::prelude::*;

verus! {

/// Appends an element.
pub fn push_to<T: DeepView>(list: &mut Vec<T>, item: T)
    ensures
        final(list)@ == old(list)@.push(item),
        final(list).deep_view() == old(list).deep_view().push(item.deep_view()),
{
    let ghost before = *list;
    list.push(item);
    assert(list.deep_view() =~= before.deep_view().push(item.deep_view()));
}

/// Appends every element of another list.
pub fn extend_with<T: DeepView>(list: &mut Vec<T>, more: Vec<T>)
    ensures
        final(list).deep_view() == old(list).deep_view() + more.deep_view(),
{
    let ghost before = *list;
    let mut rest = more;
    list.append(&mut rest);
    assert(list.deep_view() =~= before.deep_view() + more.deep_view());
}

/// A list that holds nothing.
pub proof fn lemma_empty<T: DeepView>(list: Vec<T>)
    requires
        list@.len() == 0,
    ensures
        list.deep_view() == Seq::<T::V>::empty(),
{
    assert(list.deep_view() =~= Seq::<T::V>::empty());
}

/// Copies a list whose elements copy faithfully.
pub fn copy_list<T: DeepView + Clone>(list: &Vec<T>) -> (copy: Vec<T>)
    requires
        forall|a: T, b: T| #[trigger] cloned(a, b) ==> a.deep_view() == b.deep_view(),
    ensures
        copy.deep_view() == list.deep_view(),
{
    let copy = list.clone();
    assert forall|i: int| 0 <= i < list@.len() implies list@[i].deep_view() == copy@[i].deep_view() by {
        assert(cloned(list@[i], copy@[i]));
    }
    assert(copy.deep_view() =~= list.deep_view());
    copy
}

} // verus!
