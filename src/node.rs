use vstd::prelude::*;
use crate::key::TreapKey;
use crate::map_stats::{MapStats, deref_opt};

pub use crate::map_stats::EmptyStats;
pub use crate::map_stats::MapStats as NodeStats;

verus! {

/// One stored entry together with the subtree below it.
#[derive(Debug)]
pub struct Node<K, V, S> {
    pub key: K,
    pub value: V,
    pub stats: S,
    pub priority: u64,
    pub left: Option<Box<Node<K, V, S>>>,
    pub right: Option<Box<Node<K, V, S>>>,
}

/// The entries stored in a tree.
pub open spec fn link_map<K, V, S>(t: Option<Box<Node<K, V, S>>>) -> Map<K, V>
    decreases t,
{
    match t {
        None => Map::empty(),
        Some(n) => link_map(n.left).union_prefer_right(link_map(n.right)).insert(n.key, n.value),
    }
}

/// The priority of each key's node in a tree.
pub open spec fn link_prio<K, V, S>(t: Option<Box<Node<K, V, S>>>) -> Map<K, u64>
    decreases t,
{
    match t {
        None => Map::empty(),
        Some(n) => link_prio(n.left).union_prefer_right(link_prio(n.right)).insert(n.key, n.priority),
    }
}

/// The number of nodes on the longest path from the root down.
pub open spec fn link_height<K, V, S>(t: Option<Box<Node<K, V, S>>>) -> nat
    decreases t,
{
    match t {
        None => 0,
        Some(n) => {
            let l = link_height(n.left);
            let r = link_height(n.right);
            1 + if l < r { r } else { l }
        },
    }
}

/// A tree has a priority for exactly the keys it holds.
pub proof fn lemma_prio_dom<K, V, S>(t: Option<Box<Node<K, V, S>>>)
    ensures
        link_prio(t).dom() == link_map(t).dom(),
    decreases t,
{
    if let Some(n) = t {
        lemma_prio_dom(n.left);
        lemma_prio_dom(n.right);
        assert(link_prio(t).dom() =~= link_map(t).dom());
    } else {
        assert(link_prio(t).dom() =~= link_map(t).dom());
    }
}

/// The number of nodes of a tree.
pub open spec fn link_size<K, V, S>(t: Option<Box<Node<K, V, S>>>) -> nat
    decreases t,
{
    match t {
        None => 0,
        Some(n) => link_size(n.left) + link_size(n.right) + 1,
    }
}

/// The cached aggregate at the root of a tree.
pub open spec fn link_stats<K, V, S>(t: Option<Box<Node<K, V, S>>>) -> Option<S> {
    match t {
        None => None,
        Some(n) => Some(n.stats),
    }
}

/// The root of the tree, if any, has a priority of at least `p`.
pub open spec fn prio_ge<K, V, S>(t: Option<Box<Node<K, V, S>>>, p: u64) -> bool {
    match t {
        None => true,
        Some(n) => p <= n.priority,
    }
}

/// Every key of `m` has a rank below `r`.
pub open spec fn all_below<K: TreapKey, V>(m: Map<K, V>, r: int) -> bool {
    forall|k: K| #[trigger] m.contains_key(k) ==> k.rank() < r
}

/// Every key of `m` has a rank above `r`.
pub open spec fn all_above<K: TreapKey, V>(m: Map<K, V>, r: int) -> bool {
    forall|k: K| #[trigger] m.contains_key(k) ==> r < k.rank()
}

/// Every key of `a` comes before every key of `b`.
pub open spec fn keys_before<K: TreapKey, V>(a: Map<K, V>, b: Map<K, V>) -> bool {
    forall|x: K, y: K| #[trigger] a.contains_key(x) && #[trigger] b.contains_key(y) ==> x.rank() < y.rank()
}

/// The entries of `m` whose keys rank below `r`.
pub open spec fn part_below<K: TreapKey, V>(m: Map<K, V>, r: int) -> Map<K, V> {
    m.restrict(Set::new(|k: K| k.rank() < r))
}

/// The entries of `m` whose keys rank at or above `r`.
pub open spec fn part_from<K: TreapKey, V>(m: Map<K, V>, r: int) -> Map<K, V> {
    m.restrict(Set::new(|k: K| r <= k.rank()))
}

/// The entries of `m` whose keys rank above `r`.
pub open spec fn part_above<K: TreapKey, V>(m: Map<K, V>, r: int) -> Map<K, V> {
    m.restrict(Set::new(|k: K| r < k.rank()))
}

/// The entries of `m` whose keys rank from `a` up to, but not including, `b`.
pub open spec fn part_between<K: TreapKey, V>(m: Map<K, V>, a: int, b: int) -> Map<K, V> {
    m.restrict(Set::new(|k: K| a <= k.rank() && k.rank() < b))
}

/// A well-formed tree: search order on keys, heap order on priorities, and
/// every cached aggregate equal to the policy applied at its node.
pub open spec fn link_wf<K: TreapKey, V, S: MapStats<K, V>>(t: Option<Box<Node<K, V, S>>>) -> bool
    decreases t,
{
    match t {
        None => true,
        Some(n) => {
            &&& link_wf(n.left)
            &&& link_wf(n.right)
            &&& all_below(link_map(n.left), n.key.rank())
            &&& all_above(link_map(n.right), n.key.rank())
            &&& prio_ge(n.left, n.priority)
            &&& prio_ge(n.right, n.priority)
            &&& n.stats == S::spec_compute(n.key, n.value, link_stats(n.left), link_stats(n.right))
        },
    }
}

/// `s` is the aggregate at the root of some well-formed tree that holds exactly
/// the entries of `m`.
pub open spec fn aggregate_of<K: TreapKey, V, S: MapStats<K, V>>(m: Map<K, V>, s: S) -> bool {
    exists|t: Option<Box<Node<K, V, S>>>| #[trigger] link_wf(t) && link_map(t) == m && link_stats(t) == Some(s)
}

/// In a well-formed tree the number of nodes is the number of entries.
pub proof fn lemma_size_is_len<K: TreapKey, V, S: MapStats<K, V>>(t: Option<Box<Node<K, V, S>>>)
    requires
        link_wf(t),
    ensures
        link_map(t).dom().finite(),
        link_map(t).dom().len() == link_size(t),
    decreases t,
{
    match t {
        None => {
            assert(link_map(t).dom() =~= Set::<K>::empty());
        },
        Some(n) => {
            lemma_size_is_len(n.left);
            lemma_size_is_len(n.right);
            let l = link_map(n.left).dom();
            let r = link_map(n.right).dom();
            assert(l.disjoint(r)) by {
                assert forall|k: K| l.contains(k) implies !r.contains(k) by {
                }
            }
            vstd::set_lib::lemma_set_disjoint_lens(l, r);
            assert(link_map(n.left).union_prefer_right(link_map(n.right)).dom() =~= l + r);
            assert(!(l + r).contains(n.key));
            assert(link_map(t).dom() =~= (l + r).insert(n.key));
        },
    }
}

/// The tree that `Node::merge2` builds from `left` and `right`: the root of
/// smaller priority stays on top (ties favour `left`) and the other tree is
/// merged into its inner child.
pub open spec fn merged<K, V, S: MapStats<K, V>>(
    left: Option<Box<Node<K, V, S>>>,
    right: Option<Box<Node<K, V, S>>>,
) -> Option<Box<Node<K, V, S>>>
    decreases link_size(left) + link_size(right),
{
    match (left, right) {
        (_, None) => left,
        (None, _) => right,
        (Some(a), Some(b)) => if a.priority <= b.priority {
            let c = merged(a.right, right);
            Some(
                Box::new(
                    Node {
                        key: a.key,
                        value: a.value,
                        stats: S::spec_compute(a.key, a.value, link_stats(a.left), link_stats(c)),
                        priority: a.priority,
                        left: a.left,
                        right: c,
                    },
                ),
            )
        } else {
            let c = merged(left, b.left);
            Some(
                Box::new(
                    Node {
                        key: b.key,
                        value: b.value,
                        stats: S::spec_compute(b.key, b.value, link_stats(c), link_stats(b.right)),
                        priority: b.priority,
                        left: c,
                        right: b.right,
                    },
                ),
            )
        },
    }
}

/// The aggregate at a node agrees with its children.
pub open spec fn node_stats_ok<K, V, S: MapStats<K, V>>(n: Node<K, V, S>) -> bool {
    n.stats == S::spec_compute(n.key, n.value, link_stats(n.left), link_stats(n.right))
}

impl<K: TreapKey, V, S: MapStats<K, V>> Node<K, V, S> {
    /// A leaf holding one entry.
    pub fn new(key: K, value: V, priority: u64) -> (r: Node<K, V, S>)
        ensures
            r.key == key,
            r.value == value,
            r.priority == priority,
            r.left is None,
            r.right is None,
            node_stats_ok(r),
    {
        let stats = S::compute(&key, &value, None, None);
        Node { key, value, stats, priority, left: None, right: None }
    }

    /// Recomputes the cached aggregate from the node and its children.
    pub fn update_stats(&mut self)
        ensures
            final(self).key == old(self).key,
            final(self).value == old(self).value,
            final(self).priority == old(self).priority,
            final(self).left == old(self).left,
            final(self).right == old(self).right,
            node_stats_ok(*final(self)),
    {
        let l = match &self.left {
            Some(n) => Some(&n.stats),
            None => None,
        };
        let r = match &self.right {
            Some(n) => Some(&n.stats),
            None => None,
        };
        let s = S::compute(&self.key, &self.value, l, r);
        self.stats = s;
    }

    /// Splits a tree into the entries whose keys come before `key`, the node
    /// holding `key` itself (as a leaf), and the entries whose keys come after.
    pub fn split3(
        node: Option<Box<Node<K, V, S>>>,
        key: &K,
    ) -> (r: (Option<Box<Node<K, V, S>>>, Option<Box<Node<K, V, S>>>, Option<Box<Node<K, V, S>>>))
        requires
            link_wf(node),
        ensures
            link_wf(r.0),
            link_wf(r.1),
            link_wf(r.2),
            link_map(r.0) == part_below(link_map(node), key.rank()),
            link_map(r.2) == part_above(link_map(node), key.rank()),
            link_prio(r.0) == part_below(link_prio(node), key.rank()),
            link_prio(r.2) == part_above(link_prio(node), key.rank()),
            link_height(r.0) <= link_height(node),
            link_height(r.2) <= link_height(node),
            match r.1 {
                Some(m) => {
                    &&& m.left is None
                    &&& m.right is None
                    &&& m.key == *key
                    &&& link_map(node).contains_key(*key)
                    &&& m.value == link_map(node)[*key]
                    &&& m.priority == link_prio(node)[*key]
                },
                None => !link_map(node).contains_key(*key),
            },
            link_size(r.0) + link_size(r.2) + (if r.1 is Some { 1int } else { 0int }) == link_size(node),
            forall|p: u64| #[trigger] prio_ge(node, p) ==> prio_ge(r.0, p) && prio_ge(r.1, p) && prio_ge(r.2, p),
        decreases node,
    {
        match node {
            None => {
                proof {
                    assert(part_below(link_map(node), key.rank()) =~= Map::empty());
                    assert(part_above(link_map(node), key.rank()) =~= Map::empty());
                    assert(part_below(link_prio(node), key.rank()) =~= Map::empty());
                    assert(part_above(link_prio(node), key.rank()) =~= Map::empty());
                }
                (None, None, None)
            },
            Some(mut n) => {
                let ghost m0 = link_map(node);
                let ghost lm = link_map(n.left);
                let ghost rm = link_map(n.right);
                let ghost p0 = link_prio(node);
                let ghost lp = link_prio(n.left);
                let ghost rp = link_prio(n.right);
                proof {
                    lemma_prio_dom(n.left);
                    lemma_prio_dom(n.right);
                }
                if n.key.key_eq(key) {
                    proof {
                        TreapKey::rank_injective(&n.key, key);
                        assert(part_below(m0, key.rank()) =~= lm);
                        assert(part_above(m0, key.rank()) =~= rm);
                        assert(part_below(p0, key.rank()) =~= lp);
                        assert(part_above(p0, key.rank()) =~= rp);
                    }
                    let left = n.left.take();
                    let right = n.right.take();
                    n.update_stats();
                    proof {
                        assert(link_map::<K, V, S>(None) == Map::<K, V>::empty());
                        assert(link_wf::<K, V, S>(None));
                        assert(link_map(Some(n)) =~= Map::empty().insert(n.key, n.value));
                        assert(link_prio::<K, V, S>(None) == Map::<K, u64>::empty());
                        assert(link_height::<K, V, S>(None) == 0);
                    }
                    (left, Some(n), right)
                } else if n.key.key_lt(key) {
                    let ghost old_right = n.right;
                    let (node_right, middle, right) = Node::split3(n.right.take(), key);
                    n.right = node_right;
                    n.update_stats();
                    proof {
                        assert(prio_ge(old_right, n.priority));
                        assert(part_above(m0, key.rank()) =~= part_above(rm, key.rank()));
                        assert(link_map(Some(n)) =~= part_below(m0, key.rank()));
                        assert(part_above(p0, key.rank()) =~= part_above(rp, key.rank()));
                        assert(link_prio(Some(n)) =~= part_below(p0, key.rank()));
                        if !rm.contains_key(*key) {
                            assert(!m0.contains_key(*key)) by {
                                if m0.contains_key(*key) {
                                    if lm.contains_key(*key) {
                                    } else {
                                        assert(*key == n.key);
                                    }
                                }
                            }
                        }
                    }
                    (Some(n), middle, right)
                } else {
                    let ghost old_left = n.left;
                    let (left, middle, node_left) = Node::split3(n.left.take(), key);
                    n.left = node_left;
                    n.update_stats();
                    proof {
                        assert(prio_ge(old_left, n.priority));
                        assert(part_below(m0, key.rank()) =~= part_below(lm, key.rank()));
                        assert(link_map(Some(n)) =~= part_above(m0, key.rank()));
                        assert(part_below(p0, key.rank()) =~= part_below(lp, key.rank()));
                        assert(link_prio(Some(n)) =~= part_above(p0, key.rank()));
                        if !lm.contains_key(*key) {
                            assert(!m0.contains_key(*key)) by {
                                if m0.contains_key(*key) {
                                    if rm.contains_key(*key) {
                                    } else {
                                        assert(*key == n.key);
                                    }
                                }
                            }
                        }
                    }
                    (left, middle, Some(n))
                }
            },
        }
    }

    /// Splits a tree into the entries whose keys come before `key` and the rest.
    pub fn split2(
        node: Option<Box<Node<K, V, S>>>,
        key: &K,
    ) -> (r: (Option<Box<Node<K, V, S>>>, Option<Box<Node<K, V, S>>>))
        requires
            link_wf(node),
        ensures
            link_wf(r.0),
            link_wf(r.1),
            link_map(r.0) == part_below(link_map(node), key.rank()),
            link_map(r.1) == part_from(link_map(node), key.rank()),
            link_prio(r.0) == part_below(link_prio(node), key.rank()),
            link_prio(r.1) == part_from(link_prio(node), key.rank()),
            link_size(r.0) + link_size(r.1) == link_size(node),
            forall|p: u64| #[trigger] prio_ge(node, p) ==> prio_ge(r.0, p) && prio_ge(r.1, p),
        decreases node,
    {
        match node {
            None => {
                proof {
                    assert(part_below(link_map(node), key.rank()) =~= Map::empty());
                    assert(part_from(link_map(node), key.rank()) =~= Map::empty());
                    assert(part_below(link_prio(node), key.rank()) =~= Map::empty());
                    assert(part_from(link_prio(node), key.rank()) =~= Map::empty());
                }
                (None, None)
            },
            Some(mut n) => {
                let ghost m0 = link_map(node);
                let ghost lm = link_map(n.left);
                let ghost rm = link_map(n.right);
                let ghost p0 = link_prio(node);
                let ghost lp = link_prio(n.left);
                let ghost rp = link_prio(n.right);
                proof {
                    lemma_prio_dom(n.left);
                    lemma_prio_dom(n.right);
                }
                if n.key.key_lt(key) {
                    let ghost old_right = n.right;
                    let (node_right, right) = Node::split2(n.right.take(), key);
                    n.right = node_right;
                    n.update_stats();
                    proof {
                        assert(prio_ge(old_right, n.priority));
                        assert(part_from(m0, key.rank()) =~= part_from(rm, key.rank()));
                        assert(link_map(Some(n)) =~= part_below(m0, key.rank()));
                        assert(part_from(p0, key.rank()) =~= part_from(rp, key.rank()));
                        assert(link_prio(Some(n)) =~= part_below(p0, key.rank()));
                    }
                    (Some(n), right)
                } else {
                    let ghost old_left = n.left;
                    let (left, node_left) = Node::split2(n.left.take(), key);
                    n.left = node_left;
                    n.update_stats();
                    proof {
                        assert(prio_ge(old_left, n.priority));
                        assert(part_below(m0, key.rank()) =~= part_below(lm, key.rank()));
                        assert(link_map(Some(n)) =~= part_from(m0, key.rank()));
                        assert(part_below(p0, key.rank()) =~= part_below(lp, key.rank()));
                        assert(link_prio(Some(n)) =~= part_from(p0, key.rank()));
                    }
                    (left, Some(n))
                }
            },
        }
    }

    /// Joins two trees, every key of `left` coming before every key of `right`.
    /// The root of smaller priority stays on top; ties favour `left`.
    pub fn merge2(
        left: Option<Box<Node<K, V, S>>>,
        right: Option<Box<Node<K, V, S>>>,
    ) -> (r: Option<Box<Node<K, V, S>>>)
        requires
            link_wf(left),
            link_wf(right),
            keys_before(link_map(left), link_map(right)),
        ensures
            link_wf(r),
            link_map(r) == link_map(left).union_prefer_right(link_map(right)),
            link_prio(r) == link_prio(left).union_prefer_right(link_prio(right)),
            link_size(r) == link_size(left) + link_size(right),
            r == merged(left, right),
            right is None ==> r == left,
            left is None ==> r == right,
            forall|p: u64| prio_ge(left, p) && prio_ge(right, p) ==> #[trigger] prio_ge(r, p),
            left is Some && right is Some ==> r.unwrap().key == if left.unwrap().priority
                <= right.unwrap().priority {
                left.unwrap().key
            } else {
                right.unwrap().key
            },
            left is Some && right is Some ==> r.unwrap().priority == if left.unwrap().priority
                <= right.unwrap().priority {
                left.unwrap().priority
            } else {
                right.unwrap().priority
            },
        decreases link_size(left) + link_size(right),
    {
        if right.is_none() {
            proof {
                assert(link_map(left).union_prefer_right(link_map(right)) =~= link_map(left));
                assert(link_prio(left).union_prefer_right(link_prio(right)) =~= link_prio(left));
            }
            return left;
        }
        if left.is_none() {
            proof {
                assert(link_map(left).union_prefer_right(link_map(right)) =~= link_map(right));
                assert(link_prio(left).union_prefer_right(link_prio(right)) =~= link_prio(right));
            }
            return right;
        }
        let mut a = left.unwrap();
        let mut b = right.unwrap();
        let ghost am = link_map(left);
        let ghost bm = link_map(right);
        let ghost ar = link_map(a.right);
        let ghost bl = link_map(b.left);
        let ghost ap = link_prio(left);
        let ghost bp = link_prio(right);
        let ghost arp = link_prio(a.right);
        let ghost blp = link_prio(b.left);
        proof {
            lemma_prio_dom(left);
            lemma_prio_dom(right);
            lemma_prio_dom(a.left);
            lemma_prio_dom(a.right);
            lemma_prio_dom(b.left);
            lemma_prio_dom(b.right);
        }
        if a.priority <= b.priority {
            let ghost old_right = a.right;
            proof {
                assert(am.contains_key(a.key));
                assert forall|x: K, y: K| ar.contains_key(x) && bm.contains_key(y) implies x.rank() < y.rank() by {
                    assert(am.contains_key(x));
                }
                assert(keys_before(ar, bm));
            }
            let merged = Node::merge2(a.right.take(), Some(b));
            a.right = merged;
            a.update_stats();
            proof {
                assert(prio_ge(old_right, a.priority));
                assert(link_map(merged) =~= ar.union_prefer_right(bm));
                assert forall|k: K| link_map(merged).contains_key(k) implies a.key.rank() < k.rank() by {
                    if bm.contains_key(k) {
                        assert(am.contains_key(a.key));
                    }
                }
                assert(link_map(Some(a)) =~= am.union_prefer_right(bm));
                assert(link_prio(Some(a)) =~= ap.union_prefer_right(bp));
            }
            Some(a)
        } else {
            let ghost old_left = b.left;
            proof {
                assert(bm.contains_key(b.key));
                assert forall|x: K, y: K| am.contains_key(x) && bl.contains_key(y) implies x.rank() < y.rank() by {
                    assert(bm.contains_key(y));
                }
                assert(keys_before(am, bl));
            }
            let merged = Node::merge2(Some(a), b.left.take());
            b.left = merged;
            b.update_stats();
            proof {
                assert(prio_ge(old_left, b.priority));
                assert(link_map(merged) =~= am.union_prefer_right(bl));
                assert forall|k: K| link_map(merged).contains_key(k) implies k.rank() < b.key.rank() by {
                    if am.contains_key(k) {
                        assert(bm.contains_key(b.key));
                    }
                }
                assert(link_map(Some(b)) =~= am.union_prefer_right(bm));
                assert(link_prio(Some(b)) =~= ap.union_prefer_right(bp));
            }
            Some(b)
        }
    }

    /// Joins three trees whose keys come in order.
    pub fn merge3(
        left: Option<Box<Node<K, V, S>>>,
        middle: Option<Box<Node<K, V, S>>>,
        right: Option<Box<Node<K, V, S>>>,
    ) -> (r: Option<Box<Node<K, V, S>>>)
        requires
            link_wf(left),
            link_wf(middle),
            link_wf(right),
            keys_before(link_map(left), link_map(middle)),
            keys_before(link_map(left), link_map(right)),
            keys_before(link_map(middle), link_map(right)),
        ensures
            link_wf(r),
            link_map(r) == link_map(left).union_prefer_right(link_map(middle)).union_prefer_right(
                link_map(right),
            ),
            link_prio(r) == link_prio(left).union_prefer_right(link_prio(middle)).union_prefer_right(
                link_prio(right),
            ),
            link_size(r) == link_size(left) + link_size(middle) + link_size(right),
            r == merged(merged(left, middle), right),
    {
        let ghost lm = link_map(left);
        let ghost mm = link_map(middle);
        let ghost rm = link_map(right);
        let lmid = Node::merge2(left, middle);
        proof {
            assert forall|x: K, y: K| #[trigger] link_map(lmid).contains_key(x) && #[trigger] rm.contains_key(y) implies x.rank() < y.rank() by {
                if mm.contains_key(x) {
                } else {
                    assert(lm.contains_key(x));
                }
            }
        }
        Node::merge2(lmid, right)
    }

    /// Stores the leaf `new` in the tree, in place of the node with the same
    /// key if there is one; that node is returned.
    pub fn insert_or_replace(
        root: &mut Option<Box<Node<K, V, S>>>,
        new: Node<K, V, S>,
    ) -> (r: Option<Box<Node<K, V, S>>>)
        requires
            link_wf(*old(root)),
            new.left is None,
            new.right is None,
            node_stats_ok(new),
        ensures
            link_wf(*final(root)),
            link_map(*final(root)) == link_map(*old(root)).insert(new.key, new.value),
            link_prio(*final(root)) == link_prio(*old(root)).insert(new.key, new.priority),
            match r {
                Some(n) => {
                    &&& n.key == new.key
                    &&& n.left is None
                    &&& n.right is None
                    &&& link_map(*old(root)).contains_key(new.key)
                    &&& n.value == link_map(*old(root))[new.key]
                    &&& n.priority == link_prio(*old(root))[new.key]
                    &&& link_size(*final(root)) == link_size(*old(root))
                },
                None => {
                    &&& !link_map(*old(root)).contains_key(new.key)
                    &&& link_size(*final(root)) == link_size(*old(root)) + 1
                },
            },
    {
        let ghost m0 = link_map(*root);
        let ghost p0 = link_prio(*root);
        proof {
            lemma_prio_dom(*root);
        }
        let (left, old, right) = Node::split3(root.take(), &new.key);
        let ghost nk = new.key;
        let ghost nv = new.value;
        let ghost np = new.priority;
        let single = Some(Box::new(new));
        proof {
            assert(link_map::<K, V, S>(None) == Map::<K, V>::empty());
            assert(link_size::<K, V, S>(None) == 0);
            assert(link_size(single) == 1);
            assert(link_map(single) =~= Map::empty().insert(nk, nv));
            assert(link_prio::<K, V, S>(None) == Map::<K, u64>::empty());
            assert(link_prio(single) =~= Map::empty().insert(nk, np));
        }
        *root = Node::merge3(left, single, right);
        proof {
            assert forall|k: K| #[trigger] m0.contains_key(k) && k.rank() == nk.rank() implies k == nk by {
                TreapKey::rank_injective(&k, &nk);
            }
            assert(link_map(*root) =~= m0.insert(nk, nv));
            assert forall|k: K| #[trigger] p0.contains_key(k) && k.rank() == nk.rank() implies k == nk by {
                TreapKey::rank_injective(&k, &nk);
            }
            assert(link_prio(*root) =~= p0.insert(nk, np));
        }
        old
    }

    /// Takes the node holding `key` out of the tree, if there is one.
    pub fn remove(root: &mut Option<Box<Node<K, V, S>>>, key: &K) -> (r: Option<Box<Node<K, V, S>>>)
        requires
            link_wf(*old(root)),
        ensures
            link_wf(*final(root)),
            link_map(*final(root)) == link_map(*old(root)).remove(*key),
            link_prio(*final(root)) == link_prio(*old(root)).remove(*key),
            match r {
                Some(n) => {
                    &&& n.key == *key
                    &&& n.left is None
                    &&& n.right is None
                    &&& link_map(*old(root)).contains_key(*key)
                    &&& n.value == link_map(*old(root))[*key]
                    &&& n.priority == link_prio(*old(root))[*key]
                    &&& link_size(*final(root)) + 1 == link_size(*old(root))
                },
                None => {
                    &&& !link_map(*old(root)).contains_key(*key)
                    &&& link_size(*final(root)) == link_size(*old(root))
                },
            },
    {
        let ghost m0 = link_map(*root);
        let ghost p0 = link_prio(*root);
        proof {
            lemma_prio_dom(*root);
        }
        let (left, node, right) = Node::split3(root.take(), key);
        *root = Node::merge2(left, right);
        proof {
            assert forall|k: K| #[trigger] m0.contains_key(k) && k.rank() == key.rank() implies k == *key by {
                TreapKey::rank_injective(&k, key);
            }
            assert(link_map(*root) =~= m0.remove(*key));
            assert(link_prio(*root) =~= p0.remove(*key));
        }
        node
    }

    /// The node holding `key`, if there is one.
    pub fn get<'a>(root: &'a Option<Box<Node<K, V, S>>>, key: &K) -> (r: Option<&'a Node<K, V, S>>)
        requires
            link_wf(*root),
        ensures
            match r {
                Some(n) => {
                    &&& n.key == *key
                    &&& link_map(*root).contains_key(*key)
                    &&& n.value == link_map(*root)[*key]
                },
                None => !link_map(*root).contains_key(*key),
            },
    {
        let mut next_node = root;
        while next_node.is_some()
            invariant
                link_wf(*next_node),
                link_map(*root).contains_key(*key) == link_map(*next_node).contains_key(*key),
                link_map(*next_node).contains_key(*key) ==> link_map(*next_node)[*key] == link_map(*root)[*key],
            decreases link_size(*next_node),
        {
            let node = next_node.as_ref().unwrap();
            if node.key.key_eq(key) {
                proof {
                    TreapKey::rank_injective(&node.key, key);
                }
                return Some(node);
            } else if node.key.key_lt(key) {
                proof {
                    if link_map(node.left).contains_key(*key) {
                    }
                }
                next_node = &node.right;
            } else {
                next_node = &node.left;
            }
        }
        None
    }

    /// Calls `f` on the root of a tree that holds exactly the entries whose keys
    /// lie in `key_range`, unless there are none. The tree is taken apart for
    /// this and put back together: its shape may change, its entries do not.
    pub fn with_range<F, R>(
        root: &mut Option<Box<Node<K, V, S>>>,
        key_range: core::ops::Range<&K>,
        f: F,
    ) -> (r: Option<R>) where F: FnOnce(&Node<K, V, S>) -> R
        requires
            link_wf(*old(root)),
            forall|n: &Node<K, V, S>| #[trigger] call_requires(f, (n,)),
        ensures
            link_wf(*final(root)),
            link_map(*final(root)) == link_map(*old(root)),
            link_prio(*final(root)) == link_prio(*old(root)),
            link_size(*final(root)) == link_size(*old(root)),
            r is None ==> part_between(
                link_map(*old(root)),
                key_range.start.rank(),
                key_range.end.rank(),
            ) == Map::<K, V>::empty(),
            r is Some ==> exists|m: Node<K, V, S>|
                {
                    &&& link_wf(Some(Box::new(m)))
                    &&& link_map(Some(Box::new(m))) == part_between(
                        link_map(*old(root)),
                        key_range.start.rank(),
                        key_range.end.rank(),
                    )
                    &&& #[trigger] call_ensures(f, (&m,), r.unwrap())
                },
    {
        let ghost m0 = link_map(*root);
        let ghost p0 = link_prio(*root);
        let ghost a = key_range.start.rank();
        let ghost b = key_range.end.rank();
        let (left, right) = Node::split2(root.take(), key_range.end);
        let (left, middle) = Node::split2(left, key_range.start);
        proof {
            assert(link_map(middle) =~= part_between(m0, a, b));
        }
        let ghost mut wit: Option<Node<K, V, S>> = None;
        let result = match &middle {
            Some(node_box) => {
                let v = f(&**node_box);
                proof {
                    wit = Some(**node_box);
                    assert(Some(Box::new(**node_box)) == middle);
                }
                Some(v)
            },
            None => {
                proof {
                    assert(link_map::<K, V, S>(None) == Map::<K, V>::empty());
                    assert(part_between(m0, a, b) =~= Map::<K, V>::empty());
                }
                None
            },
        };
        proof {
            if result is Some {
                let m = wit.unwrap();
                assert(call_ensures(f, (&m,), result.unwrap()));
                assert(link_map(Some(Box::new(m))) == part_between(m0, a, b));
            }
        }
        *root = Node::merge3(left, middle, right);
        proof {
            assert(link_map(*root) =~= m0);
            assert(link_prio(*root) =~= p0);
        }
        result
    }
}

} // verus!
