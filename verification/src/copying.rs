//! Copies of lists.

use vstd::prelude::*;

verus! {

/// A copy of a list of plain values.
pub fn copy_all<T: Copy>(items: &Vec<T>) -> (r: Vec<T>)
    ensures
        r@ == items@,
{
    let mut r: Vec<T> = Vec::new();
    let mut i: usize = 0;
    while i < items.len()
        invariant
            i <= items@.len(),
            r@ =~= items@.take(i as int),
        decreases items@.len() - i,
    {
        r.push(items[i]);
        i += 1;
    }
    r
}

/// A copy of a list of values whose copies hold the same.
pub fn clone_all<T: Clone + View>(items: &Vec<T>) -> (r: Vec<T>)
    requires
        forall|item: &T, copy: T| #[trigger] call_ensures(T::clone, (item,), copy) ==> copy@
            == item@,
    ensures
        r@.len() == items@.len(),
        forall|i: int| 0 <= i < items@.len() ==> (#[trigger] r@[i])@ == items@[i]@,
{
    let mut r: Vec<T> = Vec::new();
    let mut i: usize = 0;
    while i < items.len()
        invariant
            forall|item: &T, copy: T| #[trigger] call_ensures(T::clone, (item,), copy) ==> copy@
                == item@,
            i <= items@.len(),
            r@.len() == i,
            forall|j: int| 0 <= j < i ==> (#[trigger] r@[j])@ == items@[j]@,
        decreases items@.len() - i,
    {
        let copy = items[i].clone();
        r.push(copy);
        i += 1;
    }
    r
}

} // verus!
