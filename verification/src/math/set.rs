use vstd::prelude::*;

use crate::collections::key::HashKey;

verus! {

/// Whether a collection is contained in another.
pub trait Subset {
    /// Returns true if `self` is an improper subset of `other`: every value
    /// of `self` occurs in `other`.
    fn is_subset(&self, other: &Self) -> bool;
}

/// Whether a collection contains another.
pub trait Superset {
    /// Returns true if `self` is an improper superset of `other`: every
    /// value of `other` occurs in `self`.
    fn is_superset(&self, other: &Self) -> bool;
}

/// Whether a collection holds a value more than once.
pub trait IsMultiset {
    /// Returns true if `self` is a multiset (i.e. it contains duplicate
    /// values).
    fn is_multiset(&self) -> bool;
}

/// Returns `true` if `values` holds `x`.
fn holds<T: HashKey>(values: &[T], x: &T) -> (r: bool)
    ensures
        r == values@.contains(*x),
{
    let n = values.len();
    for i in 0..n
        invariant
            n == values@.len(),
            forall|j: int| 0 <= j < i ==> values@[j] != *x,
    {
        if values[i].key() == x.key() {
            proof {
                T::lemma_key_injective(values@[i as int], *x);
            }
            return true;
        }
    }
    false
}

/// Returns `true` if every value of `a` occurs in `b`.
fn all_held<T: HashKey>(a: &[T], b: &[T]) -> (r: bool)
    ensures
        r == forall|i: int| 0 <= i < a@.len() ==> b@.contains(#[trigger] a@[i]),
{
    let n = a.len();
    for i in 0..n
        invariant
            n == a@.len(),
            forall|j: int| 0 <= j < i ==> b@.contains(#[trigger] a@[j]),
    {
        if !holds(b, &a[i]) {
            return false;
        }
    }
    true
}

impl<T: HashKey> Subset for [T] {
    fn is_subset(&self, other: &Self) -> (r: bool)
        ensures
            r == forall|i: int| 0 <= i < self@.len() ==> other@.contains(#[trigger] self@[i]),
    {
        all_held(self, other)
    }
}

impl<T: HashKey> Superset for [T] {
    fn is_superset(&self, other: &Self) -> (r: bool)
        ensures
            r == forall|i: int| 0 <= i < other@.len() ==> self@.contains(#[trigger] other@[i]),
    {
        all_held(other, self)
    }
}

impl<T: HashKey> IsMultiset for [T] {
    fn is_multiset(&self) -> (r: bool)
        ensures
            r == !self@.no_duplicates(),
    {
        let n = self.len();
        for i in 0..n
            invariant
                n == self@.len(),
                forall|a: int, b: int| 0 <= a < i && a < b < n ==> self@[a] != self@[b],
        {
            for j in i + 1..n
                invariant
                    n == self@.len(),
                    i < n,
                    forall|a: int, b: int| 0 <= a < i && a < b < n ==> self@[a] != self@[b],
                    forall|b: int| i < b < j ==> self@[i as int] != self@[b],
            {
                if self[i].key() == self[j].key() {
                    proof {
                        T::lemma_key_injective(self@[i as int], self@[j as int]);
                    }
                    return true;
                }
            }
        }
        false
    }
}

} // verus!
