use vstd::prelude::*;
use crate::fold::FoldStats;
use crate::map_stats::{MapStats, deref_opt};
use crate::set_stats::SetStats;

verus! {

/// Sums of the keys and of the values of a subtree, wrapping on overflow.
#[derive(Debug, Clone, Copy, PartialEq, Eq)]
pub struct KeyValueSum {
    pub key_sum: isize,
    pub value_sum: isize,
}

/// The key sum of an optional aggregate; zero when absent.
pub open spec fn key_sum_of(o: Option<KeyValueSum>) -> isize {
    match o {
        Some(s) => s.key_sum,
        None => 0,
    }
}

/// The value sum of an optional aggregate; zero when absent.
pub open spec fn value_sum_of(o: Option<KeyValueSum>) -> isize {
    match o {
        Some(s) => s.value_sum,
        None => 0,
    }
}

impl MapStats<isize, isize> for KeyValueSum {
    open spec fn spec_compute(
        key: isize,
        value: isize,
        left: Option<Self>,
        right: Option<Self>,
    ) -> Self {
        KeyValueSum {
            key_sum: key.wrapping_add(key_sum_of(left)).wrapping_add(key_sum_of(right)),
            value_sum: value.wrapping_add(value_sum_of(left)).wrapping_add(value_sum_of(right)),
        }
    }

    fn compute(key: &isize, value: &isize, left: Option<&Self>, right: Option<&Self>) -> (r: Self) {
        let (lk, lv) = match left {
            Some(l) => (l.key_sum, l.value_sum),
            None => (0, 0),
        };
        let (rk, rv) = match right {
            Some(r) => (r.key_sum, r.value_sum),
            None => (0, 0),
        };
        let key_sum = key.wrapping_add(lk).wrapping_add(rk);
        let value_sum = value.wrapping_add(lv).wrapping_add(rv);
        KeyValueSum { key_sum, value_sum }
    }

    fn duplicate(&self) -> (r: Self) {
        *self
    }
}

proof fn lemma_wrapping_add_comm(x: isize, y: isize)
    ensures
        x.wrapping_add(y) == y.wrapping_add(x),
{
}

proof fn lemma_wrapping_add_assoc(x: isize, y: isize, z: isize)
    ensures
        x.wrapping_add(y).wrapping_add(z) == x.wrapping_add(y.wrapping_add(z)),
{
}

proof fn lemma_wrapping_add_zero(x: isize)
    ensures
        x.wrapping_add(0) == x,
{
}

impl FoldStats<isize, isize> for KeyValueSum {
    open spec fn lift(key: isize, value: isize) -> Self {
        KeyValueSum { key_sum: key, value_sum: value }
    }

    open spec fn op(a: Self, b: Self) -> Self {
        KeyValueSum {
            key_sum: a.key_sum.wrapping_add(b.key_sum),
            value_sum: a.value_sum.wrapping_add(b.value_sum),
        }
    }

    proof fn lemma_op_assoc(a: Self, b: Self, c: Self) {
        lemma_wrapping_add_assoc(a.key_sum, b.key_sum, c.key_sum);
        lemma_wrapping_add_assoc(a.value_sum, b.value_sum, c.value_sum);
    }

    proof fn lemma_compute_is_fold(key: isize, value: isize, left: Option<Self>, right: Option<Self>) {
        lemma_wrapping_add_zero(key);
        lemma_wrapping_add_zero(value);
        lemma_wrapping_add_zero(key.wrapping_add(key_sum_of(left)));
        lemma_wrapping_add_zero(value.wrapping_add(value_sum_of(left)));
        lemma_wrapping_add_comm(key, key_sum_of(left));
        lemma_wrapping_add_comm(value, value_sum_of(left));
    }
}

/// The sum of the elements of a subtree, wrapping on overflow.
#[derive(Debug, Clone, Copy, PartialEq, Eq)]
pub struct ElementSum {
    pub sum: isize,
}

/// The sum of an optional aggregate; zero when absent.
pub open spec fn sum_of(o: Option<ElementSum>) -> isize {
    match o {
        Some(s) => s.sum,
        None => 0,
    }
}

impl SetStats<isize> for ElementSum {
    open spec fn spec_compute(value: isize, left: Option<Self>, right: Option<Self>) -> Self {
        ElementSum { sum: value.wrapping_add(sum_of(left)).wrapping_add(sum_of(right)) }
    }

    fn compute(value: &isize, left: Option<&Self>, right: Option<&Self>) -> (r: Self) {
        let l = match left {
            Some(l) => l.sum,
            None => 0,
        };
        let r = match right {
            Some(r) => r.sum,
            None => 0,
        };
        ElementSum { sum: value.wrapping_add(l).wrapping_add(r) }
    }

    fn duplicate(&self) -> (r: Self) {
        *self
    }
}

} // verus!
