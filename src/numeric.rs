use vstd::prelude::*;

verus! {

/// A small, cheaply copied value with a total order.
///
/// The order is given by an integer `rank`: one value is greater than another
/// exactly when its rank is. Distinct values have distinct ranks, so the order
/// has no ties between different values.
pub trait Numeric: Copy + Sized {
    /// The position of this value in the order.
    spec fn rank(self) -> int;

    /// Two values of the same rank are the same value.
    proof fn lemma_rank_injective(a: Self, b: Self)
        requires
            a.rank() == b.rank(),
        ensures
            a == b,
    ;

    /// Whether `self` comes strictly after `other`.
    fn greater(&self, other: &Self) -> (r: bool)
        ensures
            r == (self.rank() > other.rank()),
    ;
}

impl Numeric for i8 {
    open spec fn rank(self) -> int {
        self as int
    }

    proof fn lemma_rank_injective(a: Self, b: Self) {
    }

    fn greater(&self, other: &Self) -> (r: bool) {
        *self > *other
    }
}

impl Numeric for i16 {
    open spec fn rank(self) -> int {
        self as int
    }

    proof fn lemma_rank_injective(a: Self, b: Self) {
    }

    fn greater(&self, other: &Self) -> (r: bool) {
        *self > *other
    }
}

impl Numeric for i32 {
    open spec fn rank(self) -> int {
        self as int
    }

    proof fn lemma_rank_injective(a: Self, b: Self) {
    }

    fn greater(&self, other: &Self) -> (r: bool) {
        *self > *other
    }
}

impl Numeric for i64 {
    open spec fn rank(self) -> int {
        self as int
    }

    proof fn lemma_rank_injective(a: Self, b: Self) {
    }

    fn greater(&self, other: &Self) -> (r: bool) {
        *self > *other
    }
}

impl Numeric for isize {
    open spec fn rank(self) -> int {
        self as int
    }

    proof fn lemma_rank_injective(a: Self, b: Self) {
    }

    fn greater(&self, other: &Self) -> (r: bool) {
        *self > *other
    }
}

impl Numeric for u8 {
    open spec fn rank(self) -> int {
        self as int
    }

    proof fn lemma_rank_injective(a: Self, b: Self) {
    }

    fn greater(&self, other: &Self) -> (r: bool) {
        *self > *other
    }
}

impl Numeric for u16 {
    open spec fn rank(self) -> int {
        self as int
    }

    proof fn lemma_rank_injective(a: Self, b: Self) {
    }

    fn greater(&self, other: &Self) -> (r: bool) {
        *self > *other
    }
}

impl Numeric for u32 {
    open spec fn rank(self) -> int {
        self as int
    }

    proof fn lemma_rank_injective(a: Self, b: Self) {
    }

    fn greater(&self, other: &Self) -> (r: bool) {
        *self > *other
    }
}

impl Numeric for u64 {
    open spec fn rank(self) -> int {
        self as int
    }

    proof fn lemma_rank_injective(a: Self, b: Self) {
    }

    fn greater(&self, other: &Self) -> (r: bool) {
        *self > *other
    }
}

impl Numeric for usize {
    open spec fn rank(self) -> int {
        self as int
    }

    proof fn lemma_rank_injective(a: Self, b: Self) {
    }

    fn greater(&self, other: &Self) -> (r: bool) {
        *self > *other
    }
}

} // verus!
