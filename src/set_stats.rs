use vstd::prelude::*;
use crate::map_stats::{EmptyStats, MapStats, deref_opt};

verus! {

/// A statistics policy for sets: the aggregate of a subtree is computed from
/// the element at its root and the aggregates of its two children.
pub trait SetStats<T>: Sized {
    /// What `compute` returns.
    spec fn spec_compute(value: T, left: Option<Self>, right: Option<Self>) -> Self;

    fn compute(value: &T, left: Option<&Self>, right: Option<&Self>) -> (r: Self)
        ensures
            r == Self::spec_compute(*value, deref_opt(left), deref_opt(right)),
    ;

    /// A copy of this aggregate.
    fn duplicate(&self) -> (r: Self)
        ensures
            r == *self,
    ;
}

/// A set policy seen as a map policy over entries that carry no value.
#[derive(Debug, Clone)]
pub struct SetStatsToMapStats<SS> {
    pub set_stats: SS,
}

/// The set aggregate inside an optional map aggregate.
pub open spec fn inner_stats<SS>(o: Option<SetStatsToMapStats<SS>>) -> Option<SS> {
    match o {
        Some(m) => Some(m.set_stats),
        None => None,
    }
}

impl<T, SS: SetStats<T>> MapStats<T, ()> for SetStatsToMapStats<SS> {
    open spec fn spec_compute(key: T, value: (), left: Option<Self>, right: Option<Self>) -> Self {
        SetStatsToMapStats { set_stats: SS::spec_compute(key, inner_stats(left), inner_stats(right)) }
    }

    fn compute(key: &T, value: &(), left: Option<&Self>, right: Option<&Self>) -> (r: Self) {
        let l = match left {
            Some(m) => Some(&m.set_stats),
            None => None,
        };
        let r = match right {
            Some(m) => Some(&m.set_stats),
            None => None,
        };
        SetStatsToMapStats { set_stats: SS::compute(key, l, r) }
    }

    fn duplicate(&self) -> (r: Self) {
        SetStatsToMapStats { set_stats: self.set_stats.duplicate() }
    }
}

impl<T> SetStats<T> for EmptyStats {
    open spec fn spec_compute(value: T, left: Option<Self>, right: Option<Self>) -> Self {
        EmptyStats
    }

    fn compute(value: &T, left: Option<&Self>, right: Option<&Self>) -> (r: Self) {
        EmptyStats
    }

    fn duplicate(&self) -> (r: Self) {
        EmptyStats
    }
}

} // verus!
