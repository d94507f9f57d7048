use vstd::prelude::*;

verus! {

/// A key with a strict total order, given by an order-preserving and
/// injective map into the integers.
pub trait TreapKey: Sized {
    /// The position of this key in the key order.
    spec fn rank(&self) -> int;

    /// Distinct keys have distinct ranks.
    proof fn rank_injective(a: &Self, b: &Self)
        ensures
            a.rank() == b.rank() ==> *a == *b,
    ;

    /// `true` exactly when `self` comes before `other`.
    fn key_lt(&self, other: &Self) -> (r: bool)
        ensures
            r == (self.rank() < other.rank()),
    ;

    /// `true` exactly when `self` and `other` are the same key.
    fn key_eq(&self, other: &Self) -> (r: bool)
        ensures
            r == (self.rank() == other.rank()),
    ;
}

impl TreapKey for u64 {
    open spec fn rank(&self) -> int {
        *self as int
    }

    proof fn rank_injective(a: &Self, b: &Self) {
    }

    fn key_lt(&self, other: &Self) -> (r: bool) {
        *self < *other
    }

    fn key_eq(&self, other: &Self) -> (r: bool) {
        *self == *other
    }
}

impl TreapKey for u8 {
    open spec fn rank(&self) -> int {
        *self as int
    }

    proof fn rank_injective(a: &Self, b: &Self) {
    }

    fn key_lt(&self, other: &Self) -> (r: bool) {
        *self < *other
    }

    fn key_eq(&self, other: &Self) -> (r: bool) {
        *self == *other
    }
}

impl TreapKey for u16 {
    open spec fn rank(&self) -> int {
        *self as int
    }

    proof fn rank_injective(a: &Self, b: &Self) {
    }

    fn key_lt(&self, other: &Self) -> (r: bool) {
        *self < *other
    }

    fn key_eq(&self, other: &Self) -> (r: bool) {
        *self == *other
    }
}

impl TreapKey for u32 {
    open spec fn rank(&self) -> int {
        *self as int
    }

    proof fn rank_injective(a: &Self, b: &Self) {
    }

    fn key_lt(&self, other: &Self) -> (r: bool) {
        *self < *other
    }

    fn key_eq(&self, other: &Self) -> (r: bool) {
        *self == *other
    }
}

impl TreapKey for usize {
    open spec fn rank(&self) -> int {
        *self as int
    }

    proof fn rank_injective(a: &Self, b: &Self) {
    }

    fn key_lt(&self, other: &Self) -> (r: bool) {
        *self < *other
    }

    fn key_eq(&self, other: &Self) -> (r: bool) {
        *self == *other
    }
}

impl TreapKey for i8 {
    open spec fn rank(&self) -> int {
        *self as int
    }

    proof fn rank_injective(a: &Self, b: &Self) {
    }

    fn key_lt(&self, other: &Self) -> (r: bool) {
        *self < *other
    }

    fn key_eq(&self, other: &Self) -> (r: bool) {
        *self == *other
    }
}

impl TreapKey for i16 {
    open spec fn rank(&self) -> int {
        *self as int
    }

    proof fn rank_injective(a: &Self, b: &Self) {
    }

    fn key_lt(&self, other: &Self) -> (r: bool) {
        *self < *other
    }

    fn key_eq(&self, other: &Self) -> (r: bool) {
        *self == *other
    }
}

impl TreapKey for i32 {
    open spec fn rank(&self) -> int {
        *self as int
    }

    proof fn rank_injective(a: &Self, b: &Self) {
    }

    fn key_lt(&self, other: &Self) -> (r: bool) {
        *self < *other
    }

    fn key_eq(&self, other: &Self) -> (r: bool) {
        *self == *other
    }
}

impl TreapKey for i64 {
    open spec fn rank(&self) -> int {
        *self as int
    }

    proof fn rank_injective(a: &Self, b: &Self) {
    }

    fn key_lt(&self, other: &Self) -> (r: bool) {
        *self < *other
    }

    fn key_eq(&self, other: &Self) -> (r: bool) {
        *self == *other
    }
}

impl TreapKey for isize {
    open spec fn rank(&self) -> int {
        *self as int
    }

    proof fn rank_injective(a: &Self, b: &Self) {
    }

    fn key_lt(&self, other: &Self) -> (r: bool) {
        *self < *other
    }

    fn key_eq(&self, other: &Self) -> (r: bool) {
        *self == *other
    }
}

} // verus!
