use vstd::prelude::*;

verus! {

/// The value of an optional reference.
pub open spec fn deref_opt<T>(o: Option<&T>) -> Option<T> {
    match o {
        Some(r) => Some(*r),
        None => None,
    }
}

/// A statistics policy: the aggregate of a subtree is computed from the
/// entry at its root and the aggregates of its two children.
pub trait MapStats<K, V>: Sized {
    /// What `compute` returns.
    spec fn spec_compute(key: K, value: V, left: Option<Self>, right: Option<Self>) -> Self;

    fn compute(key: &K, value: &V, left: Option<&Self>, right: Option<&Self>) -> (r: Self)
        ensures
            r == Self::spec_compute(*key, *value, deref_opt(left), deref_opt(right)),
    ;

    /// A copy of this aggregate.
    fn duplicate(&self) -> (r: Self)
        ensures
            r == *self,
    ;
}

/// The policy that keeps no statistics.
#[derive(Debug, Clone, Copy, PartialEq, Eq)]
pub struct EmptyStats;

impl<K, V> MapStats<K, V> for EmptyStats {
    open spec fn spec_compute(key: K, value: V, left: Option<Self>, right: Option<Self>) -> Self {
        EmptyStats
    }

    fn compute(key: &K, value: &V, left: Option<&Self>, right: Option<&Self>) -> (r: Self) {
        EmptyStats
    }

    fn duplicate(&self) -> (r: Self) {
        EmptyStats
    }
}

} // verus!
