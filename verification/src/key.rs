//! Keys that the trees order.
use vstd::prelude::*;

verus! {

/// Result of comparing two keys.
#[derive(Clone, Copy, Debug, PartialEq, Eq)]
pub enum KeyOrder {
    Less,
    Equal,
    Greater,
}

/// A key type with a total order, given by an injective rank into the integers.
pub trait TreeKey: Sized {
    /// The position of the key in the order.
    spec fn rank(&self) -> int;

    /// Three-way comparison that agrees with `rank`.
    fn compare(&self, other: &Self) -> (r: KeyOrder)
        ensures
            (r == KeyOrder::Less) <==> self.rank() < other.rank(),
            (r == KeyOrder::Greater) <==> self.rank() > other.rank(),
            (r == KeyOrder::Equal) <==> *self == *other,
    ;

    /// Keys of equal rank are equal.
    proof fn lemma_rank_injective(a: Self, b: Self)
        requires
            a.rank() == b.rank(),
        ensures
            a == b,
    ;
}

impl TreeKey for i32 {
    open spec fn rank(&self) -> int {
        *self as int
    }

    proof fn lemma_rank_injective(a: Self, b: Self) {
    }

    fn compare(&self, other: &Self) -> (r: KeyOrder) {
        if *self < *other {
            KeyOrder::Less
        } else if *self > *other {
            KeyOrder::Greater
        } else {
            KeyOrder::Equal
        }
    }
}

impl TreeKey for i64 {
    open spec fn rank(&self) -> int {
        *self as int
    }

    proof fn lemma_rank_injective(a: Self, b: Self) {
    }

    fn compare(&self, other: &Self) -> (r: KeyOrder) {
        if *self < *other {
            KeyOrder::Less
        } else if *self > *other {
            KeyOrder::Greater
        } else {
            KeyOrder::Equal
        }
    }
}

} // verus!
