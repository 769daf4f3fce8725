use vstd::multiset::Multiset;
use vstd::prelude::*;

use crate::numeric::Numeric;
use crate::pair::{
    candidates, combined, inserted, is_greatest, is_top2, max2_result, merged, summary, Max2Error, Pair,
    PairOption,
};

verus! {

broadcast use vstd::multiset::group_multiset_axioms;

/// A multiset has at most one top two.
pub proof fn lemma_top2_unique<T: Numeric>(m: Multiset<T>, p: Pair<T>, q: Pair<T>)
    requires
        is_top2(m, p),
        is_top2(m, q),
    ensures
        p == q,
{
    assert(m.contains(p.0) && m.contains(q.0));
    T::lemma_rank_injective(p.0, q.0);
    let rest = m.remove(p.0);
    assert(rest.contains(p.1) && rest.contains(q.1));
    T::lemma_rank_injective(p.1, q.1);
}

/// The top two of a multiset is an ordered pair.
pub proof fn lemma_top2_wf<T: Numeric>(m: Multiset<T>, p: Pair<T>)
    requires
        is_top2(m, p),
    ensures
        p.wf(),
{
    assert(m.remove(p.0).contains(p.1));
    assert(m.contains(p.1));
}

/// Offering one more value to the top two of `m` gives the top two of `m`
/// with that value added.
pub proof fn lemma_inserted_top2<T: Numeric>(m: Multiset<T>, p: Pair<T>, v: T)
    requires
        is_top2(m, p),
    ensures
        is_top2(m.insert(v), inserted(p, v)),
{
    lemma_top2_wf(m, p);
    let m2 = m.insert(v);
    let r = inserted(p, v);
    if v.rank() > p.0.rank() {
        assert(m2.remove(v) =~= m);
        assert forall|y: T| #[trigger] m2.contains(y) implies y.rank() <= v.rank() by {
            if y != v {
                assert(m.contains(y));
            }
        }
    } else {
        let rest = m.remove(p.0);
        assert(m2.remove(p.0) =~= rest.insert(v));
        assert forall|y: T| #[trigger] m2.contains(y) implies y.rank() <= p.0.rank() by {
            if y != v {
                assert(m.contains(y));
            }
        }
        assert forall|y: T| #[trigger] rest.insert(v).contains(y) implies y.rank() <= r.1.rank() by {
            if y != v {
                assert(rest.contains(y));
            }
        }
    }
}

/// The ordered pair of two values is the top two of those two values.
pub proof fn lemma_two_top2<T: Numeric>(x: T, v: T)
    ensures
        combined(PairOption::One(x), v) matches PairOption::Pair(p) && is_top2(
            Multiset::empty().insert(x).insert(v),
            p,
        ),
{
    let m = Multiset::empty().insert(x).insert(v);
    if v.rank() > x.rank() {
        assert(m.remove(v) =~= Multiset::empty().insert(x));
    } else {
        assert(m.remove(x) =~= Multiset::empty().insert(v));
    }
}

/// The state that stands for a sequence of values: empty for no value, the
/// value itself for one, and the top two for more.
pub proof fn lemma_summary_seq<T: Numeric>(s: Seq<T>)
    ensures
        summary(s.to_multiset()).wf(),
        s.len() == 0 ==> summary(s.to_multiset()) == PairOption::<T>::Empty,
        s.len() == 1 ==> summary(s.to_multiset()) == PairOption::One(s[0]),
        s.len() >= 2 ==> (summary(s.to_multiset()) matches PairOption::Pair(p) && is_top2(
            s.to_multiset(),
            p,
        )),
    decreases s.len(),
{
    broadcast use vstd::seq_lib::group_to_multiset_ensures;

    if s.len() > 0 {
        let w = s.drop_last();
        let v = s.last();
        assert(w.push(v) =~= s);
        lemma_summary_seq(w);
        let m = s.to_multiset();
        if s.len() == 1 {
            assert(w.to_multiset() =~= Multiset::empty());
            assert(m.contains(m.choose()));
        } else if s.len() == 2 {
            let x = w[0];
            assert(Seq::<T>::empty().push(x) =~= w);
            assert(Seq::<T>::empty().to_multiset() =~= Multiset::empty());
            lemma_two_top2(x, v);
            let q = choose|q: Pair<T>| is_top2(m, q);
            lemma_top2_wf(m, q);
        } else {
            let pw = choose|q: Pair<T>| is_top2(w.to_multiset(), q);
            lemma_inserted_top2(w.to_multiset(), pw, v);
            let q = choose|q: Pair<T>| is_top2(m, q);
            lemma_top2_wf(m, q);
        }
    }
}

/// Folding one more value into the state of a sequence gives the state of the
/// longer sequence.
pub proof fn lemma_combined_summary<T: Numeric>(s: Seq<T>, v: T)
    ensures
        combined(summary(s.to_multiset()), v) == summary(s.push(v).to_multiset()),
{
    broadcast use vstd::seq_lib::group_to_multiset_ensures;

    let t = s.push(v);
    lemma_summary_seq(s);
    lemma_summary_seq(t);
    if s.len() == 1 {
        let x = s[0];
        assert(Seq::<T>::empty().push(x) =~= s);
        assert(Seq::<T>::empty().to_multiset() =~= Multiset::empty());
        lemma_two_top2(x, v);
        if let PairOption::Pair(q) = combined(summary(s.to_multiset()), v) {
            if let PairOption::Pair(r) = summary(t.to_multiset()) {
                lemma_top2_unique(t.to_multiset(), q, r);
            }
        }
    } else if s.len() >= 2 {
        if let PairOption::Pair(p) = summary(s.to_multiset()) {
            lemma_inserted_top2(s.to_multiset(), p, v);
            if let PairOption::Pair(r) = summary(t.to_multiset()) {
                lemma_top2_unique(t.to_multiset(), inserted(p, v), r);
            }
        }
    }
}

/// The top two of two multisets together, from the top two of each.
pub open spec fn joined<T: Numeric>(p: Pair<T>, q: Pair<T>) -> Pair<T> {
    if q.0.rank() > p.0.rank() {
        Pair(q.0, if p.0.rank() > q.1.rank() { p.0 } else { q.1 })
    } else {
        Pair(p.0, if q.0.rank() > p.1.rank() { q.0 } else { p.1 })
    }
}

proof fn lemma_joined_top2<T: Numeric>(m1: Multiset<T>, m2: Multiset<T>, p: Pair<T>, q: Pair<T>)
    requires
        is_top2(m1, p),
        is_top2(m2, q),
    ensures
        is_top2(m1.add(m2), joined(p, q)),
{
    lemma_top2_wf(m1, p);
    lemma_top2_wf(m2, q);
    let m = m1.add(m2);
    let r = joined(p, q);
    assert forall|y: T| #[trigger] m.contains(y) implies y.rank() <= r.0.rank() by {
        if m1.contains(y) {
        } else {
            assert(m2.contains(y));
        }
    }
    if q.0.rank() > p.0.rank() {
        let rest = m2.remove(q.0);
        assert(m.remove(q.0) =~= m1.add(rest));
        assert forall|y: T| #[trigger] m1.add(rest).contains(y) implies y.rank() <= r.1.rank() by {
            if m1.contains(y) {
            } else {
                assert(rest.contains(y));
            }
        }
    } else {
        let rest = m1.remove(p.0);
        assert(m.remove(p.0) =~= rest.add(m2));
        assert forall|y: T| #[trigger] rest.add(m2).contains(y) implies y.rank() <= r.1.rank() by {
            if rest.contains(y) {
            } else {
                assert(m2.contains(y));
            }
        }
    }
}

/// An ordered pair is the top two of its own two values.
proof fn lemma_pair_top2<T: Numeric>(p: Pair<T>)
    requires
        p.wf(),
    ensures
        is_top2(Multiset::empty().insert(p.0).insert(p.1), p),
{
    let m = Multiset::empty().insert(p.0).insert(p.1);
    assert(m.remove(p.0) =~= Multiset::empty().insert(p.1));
}

/// Joining two full states keeps the top two of their four values.
pub proof fn lemma_merged_pairs<T: Numeric>(p: Pair<T>, q: Pair<T>)
    requires
        p.wf(),
        q.wf(),
    ensures
        merged(PairOption::Pair(p), PairOption::Pair(q)) == PairOption::Pair(joined(p, q)),
        joined(p, q).wf(),
{
    let m1 = Multiset::empty().insert(p.0).insert(p.1);
    let m2 = Multiset::empty().insert(q.0).insert(q.1);
    lemma_pair_top2(p);
    lemma_pair_top2(q);
    lemma_joined_top2(m1, m2, p, q);
    let m = candidates(p, q);
    assert(m =~= m1.add(m2));
    assert(m.len() == 4);
    let r = choose|r: Pair<T>| is_top2(m, r);
    lemma_top2_unique(m, r, joined(p, q));
    lemma_top2_wf(m, r);
}

/// Merging the states of two parts of a collection gives the state of the
/// whole collection, wherever the boundary between the parts lies.
///
/// Any tree of merges over the states of consecutive parts therefore ends in
/// the state of the whole collection, whatever its shape.
pub proof fn lemma_merged_summary<T: Numeric>(a: Seq<T>, b: Seq<T>)
    ensures
        merged(summary(a.to_multiset()), summary(b.to_multiset())) == summary(
            (a + b).to_multiset(),
        ),
{
    broadcast use vstd::seq_lib::group_to_multiset_ensures;

    vstd::seq_lib::lemma_multiset_commutative(a, b);
    lemma_summary_seq(a);
    lemma_summary_seq(b);
    let ab = a + b;
    lemma_summary_seq(ab);
    if a.len() == 0 {
        assert(ab =~= b);
    } else if b.len() == 0 {
        assert(ab =~= a);
    } else if b.len() == 1 {
        assert(a.push(b[0]) =~= ab);
        lemma_combined_summary(a, b[0]);
    } else if a.len() == 1 {
        assert(Seq::<T>::empty().push(a[0]) =~= a);
        assert(Seq::<T>::empty().to_multiset() =~= Multiset::empty());
        assert(b.push(a[0]).to_multiset() =~= ab.to_multiset());
        lemma_combined_summary(b, a[0]);
    } else {
        if let PairOption::Pair(p) = summary(a.to_multiset()) {
            if let PairOption::Pair(q) = summary(b.to_multiset()) {
                lemma_top2_wf(a.to_multiset(), p);
                lemma_top2_wf(b.to_multiset(), q);
                lemma_merged_pairs(p, q);
                lemma_joined_top2(a.to_multiset(), b.to_multiset(), p, q);
                if let PairOption::Pair(r) = summary(ab.to_multiset()) {
                    lemma_top2_unique(ab.to_multiset(), r, joined(p, q));
                }
            }
        }
    }
}

/// Merging the states of two parts gives the same state in either order.
pub proof fn lemma_merge_commutes<T: Numeric>(a: Seq<T>, b: Seq<T>)
    ensures
        merged(summary(a.to_multiset()), summary(b.to_multiset())) == merged(
            summary(b.to_multiset()),
            summary(a.to_multiset()),
        ),
{
    lemma_merged_summary(a, b);
    lemma_merged_summary(b, a);
    vstd::seq_lib::lemma_multiset_commutative(a, b);
    vstd::seq_lib::lemma_multiset_commutative(b, a);
    assert((a + b).to_multiset() =~= (b + a).to_multiset());
}

/// Merging the states of three consecutive parts gives the same state
/// whichever two are merged first.
pub proof fn lemma_merge_associates<T: Numeric>(a: Seq<T>, b: Seq<T>, c: Seq<T>)
    ensures
        merged(
            merged(summary(a.to_multiset()), summary(b.to_multiset())),
            summary(c.to_multiset()),
        ) == merged(
            summary(a.to_multiset()),
            merged(summary(b.to_multiset()), summary(c.to_multiset())),
        ),
{
    lemma_merged_summary(a, b);
    lemma_merged_summary(a + b, c);
    lemma_merged_summary(b, c);
    lemma_merged_summary(a, b + c);
    assert(a + b + c =~= a + (b + c));
}

/// A collection has exactly one outcome: strategies that each meet
/// `max2_result` on the same values return the same pair or the same error.
pub proof fn lemma_max2_agree<T: Numeric>(
    s: Seq<T>,
    r1: Result<Pair<T>, Max2Error>,
    r2: Result<Pair<T>, Max2Error>,
)
    requires
        max2_result(s, r1),
        max2_result(s, r2),
    ensures
        r1 == r2,
{
    if let Ok(p) = r1 {
        if let Ok(q) = r2 {
            lemma_top2_unique(s.to_multiset(), p, q);
        }
    }
}

/// The outcome depends on which values occur and how often, not on their
/// order: two orderings of the same values give the same outcome.
pub proof fn lemma_max2_permutation<T: Numeric>(
    s1: Seq<T>,
    s2: Seq<T>,
    r1: Result<Pair<T>, Max2Error>,
    r2: Result<Pair<T>, Max2Error>,
)
    requires
        s1.to_multiset() == s2.to_multiset(),
        max2_result(s1, r1),
        max2_result(s2, r2),
    ensures
        r1 == r2,
{
    broadcast use vstd::seq_lib::group_to_multiset_ensures;

    assert(s1.len() == s1.to_multiset().len());
    assert(s2.len() == s2.to_multiset().len());
    if let Ok(p) = r1 {
        if let Ok(q) = r2 {
            lemma_top2_unique(s1.to_multiset(), p, q);
        }
    }
}

/// No value gives `EmptyInput`, one value gives `InsufficientInput`, and two or
/// more give a pair.
pub proof fn lemma_max2_by_length<T: Numeric>(s: Seq<T>, r: Result<Pair<T>, Max2Error>)
    requires
        max2_result(s, r),
    ensures
        s.len() == 0 <==> r == Err::<Pair<T>, Max2Error>(Max2Error::EmptyInput),
        s.len() == 1 <==> r == Err::<Pair<T>, Max2Error>(Max2Error::InsufficientInput),
        s.len() >= 2 <==> r is Ok,
{
}

/// When the greatest value occurs at least twice, it fills both slots.
pub proof fn lemma_max2_repeated_max<T: Numeric>(
    s: Seq<T>,
    x: T,
    r: Result<Pair<T>, Max2Error>,
)
    requires
        is_greatest(s.to_multiset(), x),
        s.to_multiset().count(x) >= 2,
        max2_result(s, r),
    ensures
        r == Ok::<Pair<T>, Max2Error>(Pair(x, x)),
{
    broadcast use vstd::seq_lib::group_to_multiset_ensures;

    let m = s.to_multiset();
    assert(m.len() >= m.count(x));
    let rest = m.remove(x);
    assert(rest.count(x) >= 1);
    assert forall|y: T| #[trigger] rest.contains(y) implies y.rank() <= x.rank() by {
        assert(m.contains(y));
    }
    assert(is_top2(m, Pair(x, x)));
    if let Ok(p) = r {
        lemma_top2_unique(m, p, Pair(x, x));
    }
}

} // verus!
