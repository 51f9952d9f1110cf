//! Sums of an integer-valued measure over a sequence, with the lemmas the
//! allocation proofs need: how a sum changes under push, update and remove,
//! that it is invariant under reordering (equal multisets), and how pointwise
//! bounds on the measure bound the sum.

use vstd::prelude::*;

verus! {

broadcast use vstd::seq_lib::group_seq_properties;

/// The sum of `f` over all elements of `s`.
pub open spec fn sum_by<A>(s: Seq<A>, f: spec_fn(A) -> int) -> int
    decreases s.len(),
{
    if s.len() == 0 {
        0
    } else {
        sum_by(s.drop_last(), f) + f(s.last())
    }
}

pub proof fn lemma_sum_by_push<A>(s: Seq<A>, f: spec_fn(A) -> int, x: A)
    ensures
        sum_by(s.push(x), f) == sum_by(s, f) + f(x),
{
    assert(s.push(x).drop_last() =~= s);
}

pub proof fn lemma_sum_by_update<A>(s: Seq<A>, f: spec_fn(A) -> int, i: int, x: A)
    requires
        0 <= i < s.len(),
    ensures
        sum_by(s.update(i, x), f) == sum_by(s, f) - f(s[i]) + f(x),
    decreases s.len(),
{
    if i == s.len() - 1 {
        assert(s.update(i, x).drop_last() =~= s.drop_last());
        assert(s.update(i, x).last() == x);
    } else {
        assert(s.update(i, x).drop_last() =~= s.drop_last().update(i, x));
        assert(s.update(i, x).last() == s.last());
        lemma_sum_by_update(s.drop_last(), f, i, x);
    }
}

pub proof fn lemma_sum_by_remove<A>(s: Seq<A>, f: spec_fn(A) -> int, i: int)
    requires
        0 <= i < s.len(),
    ensures
        sum_by(s.remove(i), f) == sum_by(s, f) - f(s[i]),
    decreases s.len(),
{
    if i == s.len() - 1 {
        assert(s.remove(i) =~= s.drop_last());
    } else {
        assert(s.remove(i).drop_last() =~= s.drop_last().remove(i));
        assert(s.remove(i).last() == s.last());
        lemma_sum_by_remove(s.drop_last(), f, i);
    }
}

pub proof fn lemma_sum_by_insert<A>(s: Seq<A>, f: spec_fn(A) -> int, i: int, x: A)
    requires
        0 <= i <= s.len(),
    ensures
        sum_by(s.insert(i, x), f) == sum_by(s, f) + f(x),
{
    assert(s.insert(i, x).remove(i) =~= s);
    assert(s.insert(i, x)[i] == x);
    lemma_sum_by_remove(s.insert(i, x), f, i);
}

/// Reordering a sequence does not change the sum of a measure over it.
pub proof fn lemma_sum_by_multiset_eq<A>(s: Seq<A>, t: Seq<A>, f: spec_fn(A) -> int)
    requires
        s.to_multiset() == t.to_multiset(),
    ensures
        sum_by(s, f) == sum_by(t, f),
    decreases s.len(),
{
    broadcast use vstd::seq_lib::group_to_multiset_ensures;

    if s.len() == 0 {
        assert(t.to_multiset().len() == 0);
    } else {
        let x = s.last();
        assert(s.contains(x));
        assert(s.to_multiset().count(x) > 0);
        assert(t.to_multiset().count(x) > 0);
        assert(t.contains(x));
        let j = choose|j: int| 0 <= j < t.len() && t[j] == x;
        assert(s.drop_last() =~= s.remove(s.len() - 1));
        assert(s.remove(s.len() - 1).to_multiset() == s.to_multiset().remove(x));
        assert(t.remove(j).to_multiset() == t.to_multiset().remove(x));
        lemma_sum_by_multiset_eq(s.drop_last(), t.remove(j), f);
        lemma_sum_by_remove(t, f, j);
    }
}

pub proof fn lemma_sum_by_lower_bound<A>(s: Seq<A>, f: spec_fn(A) -> int, lo: int)
    requires
        forall|i: int| 0 <= i < s.len() ==> lo <= #[trigger] f(s[i]),
    ensures
        sum_by(s, f) >= lo * s.len(),
    decreases s.len(),
{
    if s.len() == 0 {
    } else {
        lemma_sum_by_lower_bound(s.drop_last(), f, lo);
        assert(f(s.last()) >= lo);
        assert(lo * s.len() == lo * (s.len() - 1) + lo) by (nonlinear_arith);
    }
}

pub proof fn lemma_sum_by_upper_bound<A>(s: Seq<A>, f: spec_fn(A) -> int, hi: int)
    requires
        forall|i: int| 0 <= i < s.len() ==> #[trigger] f(s[i]) <= hi,
    ensures
        sum_by(s, f) <= hi * s.len(),
    decreases s.len(),
{
    if s.len() == 0 {
    } else {
        lemma_sum_by_upper_bound(s.drop_last(), f, hi);
        assert(hi * s.len() == hi * (s.len() - 1) + hi) by (nonlinear_arith);
    }
}

/// If every element measures at least `v` and the sum is exactly `v` per
/// element, then every element measures exactly `v`.
pub proof fn lemma_sum_by_all_at_floor<A>(s: Seq<A>, f: spec_fn(A) -> int, v: int)
    requires
        forall|i: int| 0 <= i < s.len() ==> v <= #[trigger] f(s[i]),
        sum_by(s, f) == v * s.len(),
    ensures
        forall|i: int| 0 <= i < s.len() ==> #[trigger] f(s[i]) == v,
{
    assert forall|i: int| 0 <= i < s.len() implies #[trigger] f(s[i]) == v by {
        if f(s[i]) > v {
            lemma_sum_by_remove(s, f, i);
            lemma_sum_by_lower_bound(s.remove(i), f, v);
            assert(sum_by(s.remove(i), f) >= v * (s.len() - 1));
            assert(v * s.len() == v * (s.len() - 1) + v) by (nonlinear_arith);
        }
    }
}

/// A sum splits at any index into the sum over the prefix and the sum over
/// the rest.
pub proof fn lemma_sum_by_split<A>(s: Seq<A>, f: spec_fn(A) -> int, i: int)
    requires
        0 <= i <= s.len(),
    ensures
        sum_by(s, f) == sum_by(s.take(i), f) + sum_by(s.skip(i), f),
    decreases s.len() - i,
{
    if i == s.len() {
        assert(s.take(i) =~= s);
        assert(s.skip(i) =~= Seq::<A>::empty());
    } else {
        lemma_sum_by_split(s, f, i + 1);
        assert(s.take(i + 1) =~= s.take(i).push(s[i]));
        lemma_sum_by_push(s.take(i), f, s[i]);
        assert(s.skip(i) =~= s.skip(i + 1).insert(0, s[i]));
        lemma_sum_by_insert(s.skip(i + 1), f, 0, s[i]);
    }
}

/// When the measure is nonnegative everywhere, each single element is
/// bounded by the whole sum.
pub proof fn lemma_sum_by_element_le<A>(s: Seq<A>, f: spec_fn(A) -> int, i: int)
    requires
        0 <= i < s.len(),
        forall|j: int| 0 <= j < s.len() ==> 0 <= #[trigger] f(s[j]),
    ensures
        f(s[i]) <= sum_by(s, f),
        sum_by(s, f) >= 0,
{
    lemma_sum_by_remove(s, f, i);
    lemma_sum_by_lower_bound(s.remove(i), f, 0);
}

/// Sums agree across two sequences whose measures agree position by
/// position.
pub proof fn lemma_sum_by_transfer<A, B>(
    s: Seq<A>,
    t: Seq<B>,
    f: spec_fn(A) -> int,
    g: spec_fn(B) -> int,
)
    requires
        s.len() == t.len(),
        forall|i: int| 0 <= i < s.len() ==> #[trigger] f(s[i]) == g(t[i]),
    ensures
        sum_by(s, f) == sum_by(t, g),
    decreases s.len(),
{
    if s.len() > 0 {
        lemma_sum_by_transfer(s.drop_last(), t.drop_last(), f, g);
    }
}

} // verus!
