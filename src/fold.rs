use vstd::prelude::*;
use crate::key::TreapKey;
use crate::map_stats::MapStats;
use crate::node::{Node, aggregate_of, link_map, link_stats, link_wf, part_between};

verus! {

/// A policy whose aggregate is the fold of the entries of a subtree, in key
/// order, under an associative operation.
pub trait FoldStats<K, V>: MapStats<K, V> {
    /// The aggregate of one entry.
    spec fn lift(key: K, value: V) -> Self;

    /// Combines the aggregates of two runs of entries, the first run before
    /// the second.
    spec fn op(a: Self, b: Self) -> Self;

    proof fn lemma_op_assoc(a: Self, b: Self, c: Self)
        ensures
            Self::op(Self::op(a, b), c) == Self::op(a, Self::op(b, c)),
    ;

    proof fn lemma_compute_is_fold(key: K, value: V, left: Option<Self>, right: Option<Self>)
        ensures
            Self::spec_compute(key, value, left, right) == match (left, right) {
                (None, None) => Self::lift(key, value),
                (Some(l), None) => Self::op(l, Self::lift(key, value)),
                (None, Some(r)) => Self::op(Self::lift(key, value), r),
                (Some(l), Some(r)) => Self::op(Self::op(l, Self::lift(key, value)), r),
            },
    ;
}

/// Combines two optional aggregates; an absent one counts for nothing.
pub open spec fn join<K, V, S: FoldStats<K, V>>(a: Option<S>, b: Option<S>) -> Option<S> {
    match (a, b) {
        (None, _) => b,
        (_, None) => a,
        (Some(x), Some(y)) => Some(S::op(x, y)),
    }
}

/// The fold of a sequence of entries, first to last; `None` when it is empty.
pub open spec fn fold_entries<K, V, S: FoldStats<K, V>>(s: Seq<(K, V)>) -> Option<S>
    decreases s.len(),
{
    if s.len() == 0 {
        None
    } else {
        join(fold_entries(s.drop_last()), Some(S::lift(s.last().0, s.last().1)))
    }
}

/// The entries of a tree in the order of an in-order walk.
pub open spec fn link_entries<K, V, S>(t: Option<Box<Node<K, V, S>>>) -> Seq<(K, V)>
    decreases t,
{
    match t {
        None => Seq::empty(),
        Some(n) => link_entries(n.left) + seq![(n.key, n.value)] + link_entries(n.right),
    }
}

/// `s` lists the entries of `m`, each once, in increasing key order.
pub open spec fn lists_in_order<K: TreapKey, V>(s: Seq<(K, V)>, m: Map<K, V>) -> bool {
    &&& forall|i: int, j: int| 0 <= i < j < s.len() ==> (#[trigger] s[i]).0.rank() < (#[trigger] s[j]).0.rank()
    &&& forall|i: int| 0 <= i < s.len() ==> m.contains_key((#[trigger] s[i]).0) && m[s[i].0] == s[i].1
    &&& forall|k: K| #[trigger] m.contains_key(k) ==> exists|i: int| 0 <= i < s.len() && (#[trigger] s[i]).0 == k
}

proof fn lemma_join_assoc<K, V, S: FoldStats<K, V>>(a: Option<S>, b: Option<S>, c: Option<S>)
    ensures
        join(join(a, b), c) == join(a, join(b, c)),
{
    if a is Some && b is Some && c is Some {
        S::lemma_op_assoc(a.unwrap(), b.unwrap(), c.unwrap());
    }
}

proof fn lemma_fold_concat<K, V, S: FoldStats<K, V>>(a: Seq<(K, V)>, b: Seq<(K, V)>)
    ensures
        fold_entries::<K, V, S>(a + b) == join(fold_entries::<K, V, S>(a), fold_entries::<K, V, S>(b)),
    decreases b.len(),
{
    if b.len() == 0 {
        assert(a + b =~= a);
    } else {
        lemma_fold_concat::<K, V, S>(a, b.drop_last());
        assert((a + b).drop_last() =~= a + b.drop_last());
        assert((a + b).last() == b.last());
        lemma_join_assoc::<K, V, S>(
            fold_entries::<K, V, S>(a),
            fold_entries::<K, V, S>(b.drop_last()),
            Some(S::lift(b.last().0, b.last().1)),
        );
    }
}

/// The cached aggregate of a well-formed tree is the fold of its entries in
/// in-order.
proof fn lemma_stats_is_fold<K: TreapKey, V, S: FoldStats<K, V>>(t: Option<Box<Node<K, V, S>>>)
    requires
        link_wf(t),
    ensures
        link_stats(t) == fold_entries::<K, V, S>(link_entries(t)),
    decreases t,
{
    if let Some(n) = t {
        lemma_stats_is_fold(n.left);
        lemma_stats_is_fold(n.right);
        let el = link_entries(n.left);
        let er = link_entries(n.right);
        let mid = seq![(n.key, n.value)];
        lemma_fold_concat::<K, V, S>(el + mid, er);
        lemma_fold_concat::<K, V, S>(el, mid);
        assert(mid.drop_last() =~= Seq::<(K, V)>::empty());
        assert(fold_entries::<K, V, S>(Seq::<(K, V)>::empty()) == None::<S>);
        assert(mid.last() == (n.key, n.value));
        assert(fold_entries::<K, V, S>(mid) == Some(S::lift(n.key, n.value)));
        S::lemma_compute_is_fold(n.key, n.value, link_stats(n.left), link_stats(n.right));
    }
}

/// The in-order walk of a well-formed tree lists its entries in key order.
proof fn lemma_entries_in_order<K: TreapKey, V, S: MapStats<K, V>>(t: Option<Box<Node<K, V, S>>>)
    requires
        link_wf(t),
    ensures
        lists_in_order(link_entries(t), link_map(t)),
    decreases t,
{
    if let Some(n) = t {
        lemma_entries_in_order(n.left);
        lemma_entries_in_order(n.right);
        let el = link_entries(n.left);
        let er = link_entries(n.right);
        let lm = link_map(n.left);
        let rm = link_map(n.right);
        let s = link_entries(t);
        let m = link_map(t);
        assert(s == el + seq![(n.key, n.value)] + er);
        assert forall|i: int| 0 <= i < s.len() implies m.contains_key((#[trigger] s[i]).0) && m[s[i].0] == s[i].1 by {
            if i < el.len() {
                assert(s[i] == el[i]);
                assert(lm.contains_key(el[i].0));
            } else if i > el.len() {
                assert(s[i] == er[i - el.len() - 1]);
                assert(rm.contains_key(er[i - el.len() - 1].0));
            }
        }
        assert forall|i: int, j: int| 0 <= i < j < s.len() implies (#[trigger] s[i]).0.rank() < (#[trigger] s[j]).0.rank() by {
            if j < el.len() {
                assert(s[i] == el[i] && s[j] == el[j]);
            } else if i > el.len() {
                assert(s[i] == er[i - el.len() - 1] && s[j] == er[j - el.len() - 1]);
            } else {
                if i < el.len() {
                    assert(s[i] == el[i]);
                    assert(lm.contains_key(el[i].0));
                }
                if j > el.len() {
                    assert(s[j] == er[j - el.len() - 1]);
                    assert(rm.contains_key(er[j - el.len() - 1].0));
                }
            }
        }
        assert forall|k: K| #[trigger] m.contains_key(k) implies exists|i: int| 0 <= i < s.len() && (#[trigger] s[i]).0 == k by {
            if k == n.key {
                assert(s[el.len() as int].0 == k);
            } else if rm.contains_key(k) {
                let i = choose|i: int| 0 <= i < er.len() && (#[trigger] er[i]).0 == k;
                assert(s[el.len() + 1 + i] == er[i]);
            } else {
                let i = choose|i: int| 0 <= i < el.len() && (#[trigger] el[i]).0 == k;
                assert(s[i] == el[i]);
            }
        }
    } else {
        assert forall|k: K| #[trigger] link_map(t).contains_key(k) implies false by {
        }
    }
}

/// At most one sequence lists the entries of a map in key order.
proof fn lemma_in_order_unique<K: TreapKey, V>(s1: Seq<(K, V)>, s2: Seq<(K, V)>, m: Map<K, V>)
    requires
        lists_in_order(s1, m),
        lists_in_order(s2, m),
    ensures
        s1 == s2,
    decreases s1.len(),
{
    if s1.len() == 0 {
        if s2.len() > 0 {
            assert(m.contains_key(s2[0].0));
        }
        assert(s1 =~= s2);
    } else {
        assert(m.contains_key(s1[0].0));
        assert(s2.len() > 0);
        let k1 = s1[0].0;
        let k2 = s2[0].0;
        assert(m.contains_key(k2));
        let i1 = choose|i: int| 0 <= i < s1.len() && (#[trigger] s1[i]).0 == k2;
        let i2 = choose|i: int| 0 <= i < s2.len() && (#[trigger] s2[i]).0 == k1;
        if i1 > 0 {
            assert(s1[0].0.rank() < s1[i1].0.rank());
        }
        if i2 > 0 {
            assert(s2[0].0.rank() < s2[i2].0.rank());
        }
        TreapKey::rank_injective(&k1, &k2);
        assert(k1 == k2);
        assert(s1[0] == s2[0]);
        let t1 = s1.drop_first();
        let t2 = s2.drop_first();
        let mr = m.remove(k1);
        assert forall|k: K| #[trigger] mr.contains_key(k) implies exists|i: int| 0 <= i < t1.len() && (#[trigger] t1[i]).0 == k by {
            let i = choose|i: int| 0 <= i < s1.len() && (#[trigger] s1[i]).0 == k;
            assert(i != 0);
            assert(t1[i - 1] == s1[i]);
        }
        assert forall|k: K| #[trigger] mr.contains_key(k) implies exists|i: int| 0 <= i < t2.len() && (#[trigger] t2[i]).0 == k by {
            let i = choose|i: int| 0 <= i < s2.len() && (#[trigger] s2[i]).0 == k;
            assert(i != 0);
            assert(t2[i - 1] == s2[i]);
        }
        assert forall|i: int| 0 <= i < t1.len() implies mr.contains_key((#[trigger] t1[i]).0) && mr[t1[i].0] == t1[i].1 by {
            assert(t1[i] == s1[i + 1]);
            assert(s1[0].0.rank() < s1[i + 1].0.rank());
        }
        assert forall|i: int| 0 <= i < t2.len() implies mr.contains_key((#[trigger] t2[i]).0) && mr[t2[i].0] == t2[i].1 by {
            assert(t2[i] == s2[i + 1]);
            assert(s2[0].0.rank() < s2[i + 1].0.rank());
        }
        assert forall|i: int, j: int| 0 <= i < j < t1.len() implies (#[trigger] t1[i]).0.rank() < (#[trigger] t1[j]).0.rank() by {
            assert(t1[i] == s1[i + 1] && t1[j] == s1[j + 1]);
        }
        assert forall|i: int, j: int| 0 <= i < j < t2.len() implies (#[trigger] t2[i]).0.rank() < (#[trigger] t2[j]).0.rank() by {
            assert(t2[i] == s2[i + 1] && t2[j] == s2[j + 1]);
        }
        lemma_in_order_unique(t1, t2, mr);
        assert(s1 =~= seq![s1[0]] + t1);
        assert(s2 =~= seq![s2[0]] + t2);
    }
}

/// For a policy that folds entries in key order, an aggregate of the entries
/// of `m` (the one at the root of any well-formed tree holding them) is the
/// fold of those entries taken in key order, whatever the tree's shape.
pub proof fn lemma_aggregate_is_fold<K: TreapKey, V, S: FoldStats<K, V>>(
    m: Map<K, V>,
    s: S,
    scan: Seq<(K, V)>,
)
    requires
        aggregate_of(m, s),
        lists_in_order(scan, m),
    ensures
        fold_entries::<K, V, S>(scan) == Some(s),
{
    let t = choose|t: Option<Box<Node<K, V, S>>>| #[trigger] link_wf(t) && link_map(t) == m && link_stats(t) == Some(s);
    lemma_stats_is_fold(t);
    lemma_entries_in_order(t);
    lemma_in_order_unique(link_entries(t), scan, m);
}

/// Range law: for a policy that folds entries in key order, what
/// `TreapMap::stats` returns for the range from `a` up to `b` (ranks of the
/// bounds) is the fold, in key order, of the stored entries whose keys lie in
/// the range; `None` exactly when there are none.
pub proof fn lemma_range_law<K: TreapKey, V, S: FoldStats<K, V>>(
    entries: Map<K, V>,
    a: int,
    b: int,
    r: Option<S>,
    scan: Seq<(K, V)>,
)
    requires
        r is None <==> part_between(entries, a, b) == Map::<K, V>::empty(),
        r is Some ==> aggregate_of(part_between(entries, a, b), r.unwrap()),
        lists_in_order(scan, part_between(entries, a, b)),
    ensures
        r == fold_entries::<K, V, S>(scan),
{
    let part = part_between(entries, a, b);
    if r is Some {
        lemma_aggregate_is_fold(part, r.unwrap(), scan);
    } else {
        if scan.len() > 0 {
            assert(part.contains_key(scan[0].0));
        }
        assert(fold_entries::<K, V, S>(scan) == None::<S>);
    }
}

} // verus!
