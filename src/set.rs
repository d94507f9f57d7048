use vstd::prelude::*;
use crate::key::TreapKey;
use crate::map::TreapMap;
use crate::map_stats::EmptyStats;
use crate::node::{aggregate_of, part_between};
use crate::set_stats::{SetStats, SetStatsToMapStats};

verus! {

/// An ordered set kept as a treap, with an aggregate of type `S` cached at
/// every node.
#[derive(Debug)]
pub struct TreapSet<T: TreapKey, S: SetStats<T> = EmptyStats> {
    map: TreapMap<T, (), SetStatsToMapStats<S>>,
}

/// The elements of `s` whose ranks lie from `a` up to, but not including, `b`.
pub open spec fn elements_between<T: TreapKey>(s: Set<T>, a: int, b: int) -> Set<T> {
    s.filter(|x: T| a <= x.rank() && x.rank() < b)
}

/// The entries of a valueless map that hold the elements of `s`.
pub open spec fn unit_map<T>(s: Set<T>) -> Map<T, ()> {
    Map::new(|x: T| s.contains(x), |x: T| ())
}

/// `a` is the aggregate at the root of some well-formed tree that holds
/// exactly the elements of `s`.
pub open spec fn set_aggregate_of<T: TreapKey, S: SetStats<T>>(s: Set<T>, a: S) -> bool {
    aggregate_of(unit_map(s), SetStatsToMapStats { set_stats: a })
}

impl<T: TreapKey, S: SetStats<T>> View for TreapSet<T, S> {
    type V = Set<T>;

    closed spec fn view(&self) -> Set<T> {
        self.map@.dom()
    }
}

impl<T: TreapKey, S: SetStats<T>> TreapSet<T, S> {
    /// The underlying map is well formed.
    pub closed spec fn well_formed(&self) -> bool {
        self.map.well_formed()
    }

    /// An empty set.
    pub fn new() -> (r: Self)
        ensures
            r.well_formed(),
            r@ == Set::<T>::empty(),
    {
        let map = TreapMap::new();
        proof {
            assert(map@.dom() =~= Set::<T>::empty());
        }
        TreapSet { map }
    }

    /// The number of elements.
    pub fn len(&self) -> (r: usize)
        requires
            self.well_formed(),
        ensures
            r == self@.len(),
    {
        self.map.len()
    }

    /// Whether the set holds no element.
    pub fn is_empty(&self) -> (r: bool)
        requires
            self.well_formed(),
        ensures
            r == (self@.len() == 0),
            r == (self@ == Set::<T>::empty()),
    {
        let r = self.map.is_empty();
        proof {
            if r {
                assert(self.map@.dom() =~= Set::<T>::empty());
            } else if self@ == Set::<T>::empty() {
                assert(self.map@ =~= Map::<T, ()>::empty());
            }
        }
        r
    }

    /// Drops every element.
    pub fn clear(&mut self)
        requires
            old(self).well_formed(),
        ensures
            final(self).well_formed(),
            final(self)@ == Set::<T>::empty(),
    {
        self.map.clear();
        proof {
            assert(self.map@.dom() =~= Set::<T>::empty());
        }
    }

    /// Adds `value`; returns whether it was absent before.
    pub fn insert(&mut self, value: T) -> (r: bool)
        requires
            old(self).well_formed(),
            old(self)@.len() < usize::MAX,
        ensures
            final(self).well_formed(),
            final(self)@ == old(self)@.insert(value),
            r == !old(self)@.contains(value),
            final(self)@.len() == old(self)@.len() + if r { 1int } else { 0int },
    {
        let ghost v = value;
        let r = self.map.insert(value, ());
        proof {
            assert(self.map@.dom() =~= old(self).map@.dom().insert(v));
        }
        r.is_none()
    }

    /// Takes `value` out; returns whether it was present.
    pub fn remove(&mut self, value: &T) -> (r: bool)
        requires
            old(self).well_formed(),
        ensures
            final(self).well_formed(),
            final(self)@ == old(self)@.remove(*value),
            r == old(self)@.contains(*value),
            final(self)@.len() + if r { 1int } else { 0int } == old(self)@.len(),
    {
        let r = self.map.remove(value);
        proof {
            assert(self.map@.dom() =~= old(self).map@.dom().remove(*value));
        }
        r.is_some()
    }

    /// Whether `value` is in the set.
    pub fn contains(&self, value: &T) -> (r: bool)
        requires
            self.well_formed(),
        ensures
            r == self@.contains(*value),
    {
        self.map.get(value).is_some()
    }

    /// The aggregate over the elements that lie in `range`, or `None` when
    /// there are none. The tree is rebuilt around the range; the elements stay
    /// the same.
    pub fn stats(&mut self, range: core::ops::Range<&T>) -> (r: Option<S>)
        requires
            old(self).well_formed(),
        ensures
            final(self).well_formed(),
            final(self)@ == old(self)@,
            r is None <==> elements_between(old(self)@, range.start.rank(), range.end.rank())
                == Set::<T>::empty(),
            r is Some ==> set_aggregate_of(
                elements_between(old(self)@, range.start.rank(), range.end.rank()),
                r.unwrap(),
            ),
    {
        let ghost a = range.start.rank();
        let ghost b = range.end.rank();
        let ghost m0 = self.map@;
        let r = self.map.stats(range);
        proof {
            let part = part_between(m0, a, b);
            let els = elements_between(m0.dom(), a, b);
            assert(part.dom() =~= els);
            assert(unit_map(els) =~= part);
            if els == Set::<T>::empty() {
                assert(part =~= Map::<T, ()>::empty());
            }
            if part == Map::<T, ()>::empty() {
                assert(els =~= Set::<T>::empty());
            }
        }
        match r {
            Some(m) => Some(m.set_stats),
            None => None,
        }
    }

    /// The aggregate over all elements, or `None` when the set is empty.
    pub fn stats_full(&self) -> (r: Option<S>)
        requires
            self.well_formed(),
        ensures
            r is None <==> self@ == Set::<T>::empty(),
            r is Some ==> set_aggregate_of(self@, r.unwrap()),
    {
        let r = self.map.stats_full();
        proof {
            assert(unit_map(self.map@.dom()) =~= self.map@);
            if self@ == Set::<T>::empty() {
                assert(self.map@ =~= Map::<T, ()>::empty());
            }
        }
        match r {
            Some(m) => Some(m.set_stats),
            None => None,
        }
    }
}

impl<T: TreapKey, S: SetStats<T>> Default for TreapSet<T, S> {
    fn default() -> (r: Self)
        ensures
            r.well_formed(),
            r@ == Set::<T>::empty(),
    {
        TreapSet::new()
    }
}

} // verus!
