use vstd::multiset::Multiset;
use vstd::prelude::*;

use crate::laws::{lemma_combined_summary, lemma_inserted_top2, lemma_summary_seq, lemma_two_top2};
use crate::numeric::Numeric;
use crate::pair::{compare, is_greatest, is_top2, max2_result, summary, Max2Error, Pair, PairOption};

verus! {

broadcast use {vstd::multiset::group_multiset_axioms, vstd::seq_lib::group_to_multiset_ensures};

/// The values of `s` never step down in rank.
pub open spec fn sorted_by_rank<T: Numeric>(s: Seq<T>) -> bool {
    forall|i: int, j: int| 0 <= i < j < s.len() ==> #[trigger] s[i].rank() <= #[trigger] s[j].rank()
}

/// The last value of a sequence sorted by rank is its greatest.
proof fn lemma_last_greatest<T: Numeric>(s: Seq<T>)
    requires
        sorted_by_rank(s),
        s.len() >= 1,
    ensures
        is_greatest(s.to_multiset(), s.last()),
        s.to_multiset().remove(s.last()) == s.drop_last().to_multiset(),
{
    let w = s.drop_last();
    assert(w.push(s.last()) =~= s);
    let m = s.to_multiset();
    assert forall|y: T| #[trigger] m.contains(y) implies y.rank() <= s.last().rank() by {
        assert(s.contains(y));
        let k = choose|k: int| 0 <= k < s.len() && s[k] == y;
        if k < s.len() - 1 {
            assert(s[k].rank() <= s[s.len() - 1].rank());
        }
    }
    assert(m.remove(s.last()) =~= w.to_multiset());
}

/// The last two values of a sequence sorted by rank are its top two.
proof fn lemma_sorted_top2<T: Numeric>(s: Seq<T>)
    requires
        sorted_by_rank(s),
        s.len() >= 2,
    ensures
        is_top2(s.to_multiset(), Pair(s[s.len() - 1], s[s.len() - 2])),
{
    lemma_last_greatest(s);
    let w = s.drop_last();
    assert(sorted_by_rank(w));
    lemma_last_greatest(w);
}

/// How two values compare by rank.
fn rank_order<T: Numeric>(a: &T, b: &T) -> (r: std::cmp::Ordering)
    ensures
        r == std::cmp::Ordering::Less <==> a.rank() < b.rank(),
        r == std::cmp::Ordering::Greater <==> a.rank() > b.rank(),
{
    if b.greater(a) {
        std::cmp::Ordering::Less
    } else if a.greater(b) {
        std::cmp::Ordering::Greater
    } else {
        std::cmp::Ordering::Equal
    }
}

/// Relies on `slice::sort_by`: it reorders the values of `v` so that they are
/// in non-decreasing order under the comparator, here the total order of
/// `rank_order`.
#[verifier::external_body]
fn sort_by_rank<T: Numeric>(v: &mut Vec<T>)
    ensures
        final(v)@.to_multiset() == old(v)@.to_multiset(),
        sorted_by_rank(final(v)@),
{
    v.sort_by(|a, b| rank_order(a, b));
}

/// Top two by copying the values into a vector, sorting it and reading its
/// last two slots.
pub fn sort_max2<T: Numeric>(input: &[T]) -> (r: Result<Pair<T>, Max2Error>)
    ensures
        max2_result(input@, r),
{
    let mut sorted = vstd::slice::slice_to_vec(input);
    let n = sorted.len();
    if n == 0 {
        return Err(Max2Error::EmptyInput);
    }
    if n == 1 {
        return Err(Max2Error::InsufficientInput);
    }
    let ghost before = sorted@;
    sort_by_rank(&mut sorted);
    proof {
        assert(before.len() == before.to_multiset().len());
        assert(sorted@.len() == sorted@.to_multiset().len());
        lemma_sorted_top2(sorted@);
    }
    Ok(Pair(sorted[n - 1], sorted[n - 2]))
}

/// The result that a final state gives.
pub(crate) fn finish<T: Numeric>(
    state: PairOption<T>,
    s: Ghost<Seq<T>>,
) -> (r: Result<Pair<T>, Max2Error>)
    requires
        state == summary(s@.to_multiset()),
    ensures
        max2_result(s@, r),
{
    proof {
        lemma_summary_seq(s@);
    }
    match state {
        PairOption::Empty => Err(Max2Error::EmptyInput),
        PairOption::One(_) => Err(Max2Error::InsufficientInput),
        PairOption::Pair(pair) => Ok(pair),
    }
}

/// Folds every value of `input`, in order, into an empty state.
pub fn fold_slice<T: Numeric>(input: &[T]) -> (r: PairOption<T>)
    ensures
        r == summary(input@.to_multiset()),
        r.wf(),
{
    let mut current = PairOption::Empty;
    let mut i: usize = 0;
    proof {
        assert(input@.subrange(0, 0).to_multiset() =~= Multiset::empty());
    }
    while i < input.len()
        invariant
            i <= input@.len(),
            current == summary(input@.subrange(0, i as int).to_multiset()),
        decreases input@.len() - i,
    {
        proof {
            assert(input@.subrange(0, i + 1) =~= input@.subrange(0, i as int).push(input@[i as int]));
            lemma_combined_summary(input@.subrange(0, i as int), input@[i as int]);
        }
        current = compare(current, input[i]);
        i = i + 1;
    }
    proof {
        assert(input@.subrange(0, i as int) =~= input@);
        lemma_summary_seq(input@);
    }
    current
}

/// Top two by one fold from the empty state, through `compare` alone.
pub fn transform_max2<T: Numeric>(input: &[T]) -> (r: Result<Pair<T>, Max2Error>)
    ensures
        max2_result(input@, r),
{
    let state = fold_slice(input);
    finish(state, Ghost(input@))
}

/// Top two by a loop that walks the values and updates the state in place.
pub fn loop_max2<T: Numeric>(input: &[T]) -> (r: Result<Pair<T>, Max2Error>)
    ensures
        max2_result(input@, r),
{
    let mut current = PairOption::Empty;
    let mut i: usize = 0;
    proof {
        assert(input@.subrange(0, 0).to_multiset() =~= Multiset::empty());
    }
    while i < input.len()
        invariant
            i <= input@.len(),
            current == summary(input@.subrange(0, i as int).to_multiset()),
        decreases input@.len() - i,
    {
        proof {
            assert(input@.subrange(0, i + 1) =~= input@.subrange(0, i as int).push(input@[i as int]));
            lemma_combined_summary(input@.subrange(0, i as int), input@[i as int]);
        }
        let next = input[i];
        match current {
            PairOption::Empty => {
                current = PairOption::One(next);
            },
            PairOption::One(x) => {
                if next.greater(&x) {
                    current = PairOption::Pair(Pair(next, x));
                } else {
                    current = PairOption::Pair(Pair(x, next));
                }
            },
            PairOption::Pair(pair) => {
                if next.greater(&pair.0) {
                    current = PairOption::Pair(Pair(next, pair.0));
                } else if next.greater(&pair.1) {
                    current = PairOption::Pair(Pair(pair.0, next));
                }
            },
        }
        i = i + 1;
    }
    proof {
        assert(input@.subrange(0, i as int) =~= input@);
    }
    finish(current, Ghost(input@))
}

/// Top two by a fold whose state is a pair seeded with the first two values,
/// ordered; fails when there are fewer than two values.
pub fn fold_max2<T: Numeric>(input: &[T]) -> (r: Result<Pair<T>, Max2Error>)
    ensures
        max2_result(input@, r),
{
    let n = input.len();
    if n == 0 {
        return Err(Max2Error::EmptyInput);
    }
    if n == 1 {
        return Err(Max2Error::InsufficientInput);
    }
    let x = input[0];
    let y = input[1];
    let mut current = if y.greater(&x) {
        Pair(y, x)
    } else {
        Pair(x, y)
    };
    proof {
        assert(Seq::<T>::empty().push(x).push(y) =~= input@.subrange(0, 2));
        assert(Seq::<T>::empty().to_multiset() =~= Multiset::empty());
        lemma_two_top2(x, y);
    }
    let mut i: usize = 2;
    while i < n
        invariant
            n == input@.len(),
            2 <= i <= n,
            is_top2(input@.subrange(0, i as int).to_multiset(), current),
        decreases n - i,
    {
        let next = input[i];
        proof {
            assert(input@.subrange(0, i + 1) =~= input@.subrange(0, i as int).push(next));
            lemma_inserted_top2(input@.subrange(0, i as int).to_multiset(), current, next);
        }
        if next.greater(&current.0) {
            current = Pair(next, current.0);
        } else if next.greater(&current.1) {
            current = Pair(current.0, next);
        }
        i = i + 1;
    }
    proof {
        assert(input@.subrange(0, i as int) =~= input@);
    }
    Ok(current)
}

} // verus!
