use vstd::prelude::*;
use crate::key::TreapKey;
use crate::map_stats::{EmptyStats, MapStats};
use crate::node::{Node, aggregate_of, lemma_size_is_len, link_map, link_size, link_stats, link_wf, part_between};
use crate::priority::{fresh_rng, next_priority};

verus! {

/// An ordered map kept as a treap, with an aggregate of type `S` cached at
/// every node.
#[derive(Debug)]
pub struct TreapMap<K: TreapKey, V, S: MapStats<K, V> = EmptyStats> {
    root: Option<Box<Node<K, V, S>>>,
    len: usize,
    rng: rand::XorShiftRng,
}

impl<K: TreapKey, V, S: MapStats<K, V>> View for TreapMap<K, V, S> {
    type V = Map<K, V>;

    closed spec fn view(&self) -> Map<K, V> {
        link_map(self.root)
    }
}

impl<K: TreapKey, V, S: MapStats<K, V>> TreapMap<K, V, S> {
    /// The tree that holds the entries.
    pub closed spec fn tree(&self) -> Option<Box<Node<K, V, S>>> {
        self.root
    }

    /// The entry counter.
    pub closed spec fn counter(&self) -> nat {
        self.len as nat
    }

    /// The tree is well formed (search order on keys, heap order on
    /// priorities, every cached aggregate up to date) and the counter is its
    /// number of nodes.
    pub open spec fn well_formed(&self) -> bool {
        &&& link_wf(self.tree())
        &&& self.counter() == link_size(self.tree())
    }

    /// Remove law: after `remove(key)` the map holds no entry for `key`, so
    /// `get(key)` finds nothing, and every other entry is as it was.
    pub proof fn lemma_removed_key_is_gone(before: Map<K, V>, after: Map<K, V>, key: K)
        requires
            after == before.remove(key),
        ensures
            !after.contains_key(key),
            forall|k: K| k != key ==> (#[trigger] after.contains_key(k)) == before.contains_key(k),
            forall|k: K| k != key && #[trigger] after.contains_key(k) ==> after[k] == before[k],
    {
    }

    /// An empty map.
    pub fn new() -> (r: Self)
        ensures
            r.well_formed(),
            r@ == Map::<K, V>::empty(),
    {
        TreapMap { root: None, len: 0, rng: fresh_rng() }
    }

    /// The number of entries.
    pub fn len(&self) -> (r: usize)
        requires
            self.well_formed(),
        ensures
            r == self@.len(),
            r == self.counter(),
            r == link_size(self.tree()),
            self@.dom().finite(),
    {
        proof {
            lemma_size_is_len(self.root);
        }
        self.len
    }

    /// Whether the map holds no entry.
    pub fn is_empty(&self) -> (r: bool)
        requires
            self.well_formed(),
        ensures
            r == (self@.len() == 0),
            r == (self@ == Map::<K, V>::empty()),
    {
        proof {
            lemma_size_is_len(self.root);
            if self@.len() == 0 {
                assert(self@.dom() =~= Set::<K>::empty());
                assert(self@ =~= Map::<K, V>::empty());
            }
        }
        self.len == 0
    }

    /// Drops every entry.
    pub fn clear(&mut self)
        requires
            old(self).well_formed(),
        ensures
            final(self).well_formed(),
            final(self)@ == Map::<K, V>::empty(),
    {
        self.root = None;
        self.len = 0;
    }

    /// Stores `value` under `key` in a node of the given priority. Returns the
    /// value that `key` held before, if any.
    pub fn insert_with_priority(&mut self, key: K, value: V, priority: u64) -> (r: Option<V>)
        requires
            old(self).well_formed(),
            old(self)@.len() < usize::MAX,
        ensures
            final(self).well_formed(),
            final(self)@ == old(self)@.insert(key, value),
            match r {
                Some(v) => {
                    &&& old(self)@.contains_key(key)
                    &&& v == old(self)@[key]
                    &&& final(self)@.len() == old(self)@.len()
                },
                None => {
                    &&& !old(self)@.contains_key(key)
                    &&& final(self)@.len() == old(self)@.len() + 1
                },
            },
    {
        proof {
            lemma_size_is_len(self.root);
        }
        let new_node = Node::new(key, value, priority);
        let mut root = self.root.take();
        let old = Node::insert_or_replace(&mut root, new_node);
        self.root = root;
        proof {
            lemma_size_is_len(self.root);
        }
        match old {
            Some(old_node) => {
                let n = *old_node;
                Some(n.value)
            },
            None => {
                self.len = self.len + 1;
                None
            },
        }
    }

    /// Stores `value` under `key`. Returns the value that `key` held before,
    /// if any.
    pub fn insert(&mut self, key: K, value: V) -> (r: Option<V>)
        requires
            old(self).well_formed(),
            old(self)@.len() < usize::MAX,
        ensures
            final(self).well_formed(),
            final(self)@ == old(self)@.insert(key, value),
            match r {
                Some(v) => {
                    &&& old(self)@.contains_key(key)
                    &&& v == old(self)@[key]
                    &&& final(self)@.len() == old(self)@.len()
                },
                None => {
                    &&& !old(self)@.contains_key(key)
                    &&& final(self)@.len() == old(self)@.len() + 1
                },
            },
    {
        let priority = next_priority(&mut self.rng);
        self.insert_with_priority(key, value, priority)
    }

    /// Takes the entry of `key` out of the map and returns its value, if any.
    pub fn remove(&mut self, key: &K) -> (r: Option<V>)
        requires
            old(self).well_formed(),
        ensures
            final(self).well_formed(),
            final(self)@ == old(self)@.remove(*key),
            match r {
                Some(v) => {
                    &&& old(self)@.contains_key(*key)
                    &&& v == old(self)@[*key]
                    &&& final(self)@.len() + 1 == old(self)@.len()
                },
                None => {
                    &&& !old(self)@.contains_key(*key)
                    &&& final(self)@.len() == old(self)@.len()
                },
            },
    {
        let mut root = self.root.take();
        let removed = Node::remove(&mut root, key);
        self.root = root;
        proof {
            lemma_size_is_len(self.root);
            lemma_size_is_len(old(self).tree());
        }
        match removed {
            Some(node) => {
                self.len = self.len - 1;
                let n = *node;
                Some(n.value)
            },
            None => None,
        }
    }

    /// The value stored under `key`, if any.
    pub fn get(&self, key: &K) -> (r: Option<&V>)
        requires
            self.well_formed(),
        ensures
            match r {
                Some(v) => self@.contains_key(*key) && *v == self@[*key],
                None => !self@.contains_key(*key),
            },
    {
        match Node::get(&self.root, key) {
            Some(node) => Some(&node.value),
            None => None,
        }
    }

    /// The aggregate over the entries whose keys lie in `key_range`, or `None`
    /// when there are none. The tree is rebuilt around the range for this, so
    /// the call needs exclusive access; the entries stay the same.
    pub fn stats(&mut self, key_range: core::ops::Range<&K>) -> (r: Option<S>)
        requires
            old(self).well_formed(),
        ensures
            final(self).well_formed(),
            final(self)@ == old(self)@,
            r is None <==> part_between(
                old(self)@,
                key_range.start.rank(),
                key_range.end.rank(),
            ) == Map::<K, V>::empty(),
            r is Some ==> aggregate_of(
                part_between(old(self)@, key_range.start.rank(), key_range.end.rank()),
                r.unwrap(),
            ),
    {
        let ghost part = part_between(self@, key_range.start.rank(), key_range.end.rank());
        let dup = (|node: &Node<K, V, S>| -> (s: S)
            ensures
                s == node.stats,
            { node.stats.duplicate() });
        let mut root = self.root.take();
        let r = Node::with_range(&mut root, key_range, dup);
        self.root = root;
        proof {
            if r is Some {
                let m = choose|m: Node<K, V, S>|
                    {
                        &&& link_wf(Some(Box::new(m)))
                        &&& link_map(Some(Box::new(m))) == part
                        &&& #[trigger] call_ensures(dup, (&m,), r.unwrap())
                    };
                assert(link_wf(Some(Box::new(m))));
                assert(part.contains_key(m.key));
            }
        }
        r
    }

    /// The aggregate over all entries, or `None` when the map is empty.
    pub fn stats_full(&self) -> (r: Option<S>)
        requires
            self.well_formed(),
        ensures
            r == link_stats(self.tree()),
            r is None <==> self@ == Map::<K, V>::empty(),
            r is Some ==> aggregate_of(self@, r.unwrap()),
    {
        proof {
            if self@ == Map::<K, V>::empty() {
                assert(self@.contains_key(self.root.unwrap().key) || self.root is None);
            }
            if self.root is Some {
                assert(link_stats(self.root) == Some(self.root.unwrap().stats));
            }
        }
        match &self.root {
            Some(node) => Some(node.stats.duplicate()),
            None => None,
        }
    }
}

impl<K: TreapKey, V, S: MapStats<K, V>> Default for TreapMap<K, V, S> {
    fn default() -> (r: Self)
        ensures
            r.well_formed(),
            r@ == Map::<K, V>::empty(),
    {
        TreapMap::new()
    }
}

} // verus!
