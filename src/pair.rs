use vstd::multiset::Multiset;
use vstd::prelude::*;

use crate::laws::lemma_merged_pairs;
use crate::numeric::Numeric;

verus! {

/// The two largest values of a collection, highest first.
#[derive(Debug, PartialEq, Copy, Clone)]
pub struct Pair<T: Numeric>(pub T, pub T);

impl<T: Numeric> Pair<T> {
    /// The high slot does not rank below the low slot.
    pub open spec fn wf(self) -> bool {
        self.0.rank() >= self.1.rank()
    }
}

/// The running state of a top-two scan: nothing seen yet, exactly one value
/// seen, or the best two of two or more values seen.
#[derive(Debug, Copy, Clone)]
pub enum PairOption<T: Numeric> {
    Empty,
    One(T),
    Pair(Pair<T>),
}

impl<T: Numeric> PairOption<T> {
    /// A full state keeps its pair ordered highest first.
    pub open spec fn wf(self) -> bool {
        match self {
            PairOption::Pair(p) => p.wf(),
            _ => true,
        }
    }
}

/// Why a collection has no top two.
#[derive(Debug, PartialEq, Eq, Copy, Clone)]
pub enum Max2Error {
    /// The collection held no value.
    EmptyInput,
    /// The collection held exactly one value.
    InsufficientInput,
}

/// `x` occurs in `m` and nothing in `m` ranks above it.
pub open spec fn is_greatest<T: Numeric>(m: Multiset<T>, x: T) -> bool {
    &&& m.contains(x)
    &&& forall|y: T| #[trigger] m.contains(y) ==> y.rank() <= x.rank()
}

/// `p` is the top two of `m`: its greatest value, then the greatest of what is
/// left once one occurrence of that value is taken out.
pub open spec fn is_top2<T: Numeric>(m: Multiset<T>, p: Pair<T>) -> bool {
    &&& is_greatest(m, p.0)
    &&& is_greatest(m.remove(p.0), p.1)
}

/// The state that stands for the values of `m`, whatever order they came in.
pub open spec fn summary<T: Numeric>(m: Multiset<T>) -> PairOption<T> {
    if m.len() == 0 {
        PairOption::Empty
    } else if m.len() == 1 {
        PairOption::One(m.choose())
    } else {
        PairOption::Pair(choose|p: Pair<T>| is_top2(m, p))
    }
}

/// The pair after a new value `v` has been offered to the full pair `p`.
pub open spec fn inserted<T: Numeric>(p: Pair<T>, v: T) -> Pair<T> {
    if v.rank() > p.0.rank() {
        Pair(v, p.0)
    } else if v.rank() > p.1.rank() {
        Pair(p.0, v)
    } else {
        p
    }
}

/// The transition of a state on one new value.
pub open spec fn combined<T: Numeric>(s: PairOption<T>, v: T) -> PairOption<T> {
    match s {
        PairOption::Empty => PairOption::One(v),
        PairOption::One(x) => if v.rank() > x.rank() {
            PairOption::Pair(Pair(v, x))
        } else {
            PairOption::Pair(Pair(x, v))
        },
        PairOption::Pair(p) => PairOption::Pair(inserted(p, v)),
    }
}

/// The four values held by two pairs.
pub open spec fn candidates<T: Numeric>(p: Pair<T>, q: Pair<T>) -> Multiset<T> {
    Multiset::empty().insert(p.0).insert(p.1).insert(q.0).insert(q.1)
}

/// The join of two states built from separate parts of a collection.
pub open spec fn merged<T: Numeric>(a: PairOption<T>, b: PairOption<T>) -> PairOption<T> {
    match (a, b) {
        (PairOption::Empty, _) => b,
        (_, PairOption::Empty) => a,
        (PairOption::One(_), PairOption::One(y)) => combined(a, y),
        (PairOption::One(x), PairOption::Pair(_)) => combined(b, x),
        (PairOption::Pair(_), PairOption::One(y)) => combined(a, y),
        (PairOption::Pair(p), PairOption::Pair(q)) => summary(candidates(p, q)),
    }
}

/// What a top-two strategy owes on the values `s`: the top two when there are
/// at least two values, else the error that names how many there were.
pub open spec fn max2_result<T: Numeric>(s: Seq<T>, r: Result<Pair<T>, Max2Error>) -> bool {
    match r {
        Ok(p) => s.len() >= 2 && is_top2(s.to_multiset(), p),
        Err(Max2Error::EmptyInput) => s.len() == 0,
        Err(Max2Error::InsufficientInput) => s.len() == 1,
    }
}

/// Folds one value into a state.
pub fn compare<T: Numeric>(current: PairOption<T>, next: T) -> (r: PairOption<T>)
    ensures
        r == combined(current, next),
        current.wf() ==> r.wf(),
{
    match current {
        PairOption::Empty => PairOption::One(next),
        PairOption::One(x) => {
            if next.greater(&x) {
                PairOption::Pair(Pair(next, x))
            } else {
                PairOption::Pair(Pair(x, next))
            }
        },
        PairOption::Pair(pair) => {
            if next.greater(&pair.0) {
                PairOption::Pair(Pair(next, pair.0))
            } else if next.greater(&pair.1) {
                PairOption::Pair(Pair(pair.0, next))
            } else {
                current
            }
        },
    }
}

/// Joins two states that were built from separate parts of a collection.
pub fn compare_pair<T: Numeric>(current: PairOption<T>, next: PairOption<T>) -> (r: PairOption<T>)
    requires
        current.wf(),
        next.wf(),
    ensures
        r == merged(current, next),
        r.wf(),
{
    match (current, next) {
        (PairOption::Empty, _) => next,
        (_, PairOption::Empty) => current,
        (PairOption::One(_), PairOption::One(y)) => compare(current, y),
        (PairOption::One(x), PairOption::Pair(_)) => compare(next, x),
        (PairOption::Pair(_), PairOption::One(y)) => compare(current, y),
        (PairOption::Pair(lhs), PairOption::Pair(rhs)) => {
            proof {
                lemma_merged_pairs(lhs, rhs);
            }
            if rhs.0.greater(&lhs.0) {
                let low = if lhs.0.greater(&rhs.1) {
                    lhs.0
                } else {
                    rhs.1
                };
                PairOption::Pair(Pair(rhs.0, low))
            } else {
                let low = if rhs.0.greater(&lhs.1) {
                    rhs.0
                } else {
                    lhs.1
                };
                PairOption::Pair(Pair(lhs.0, low))
            }
        },
    }
}

} // verus!
