//! Sums of a per-element contribution over a sequence, and how such sums
//! behave under concatenation, removal, reordering and bounding.
//!
//! The consolidation contracts are stated with two instances: the summed
//! weight of one key, and the summed absolute weight (which bounds every
//! accumulator the scan can build).

use vstd::prelude::*;

verus! {

/// The sum of `f` over all elements of `s`.
pub open spec fn rec_sum<A>(s: Seq<A>, f: spec_fn(A) -> int) -> int
    decreases s.len(),
{
    if s.len() == 0 {
        0
    } else {
        f(s[0]) + rec_sum(s.drop_first(), f)
    }
}

/// The sum over a concatenation is the sum of the two parts' sums.
pub proof fn lemma_rec_sum_concat<A>(a: Seq<A>, b: Seq<A>, f: spec_fn(A) -> int)
    ensures
        rec_sum(a + b, f) == rec_sum(a, f) + rec_sum(b, f),
    decreases a.len(),
{
    if a.len() == 0 {
        assert(a + b =~= b);
    } else {
        assert((a + b).drop_first() =~= a.drop_first() + b);
        assert((a + b)[0] == a[0]);
        lemma_rec_sum_concat(a.drop_first(), b, f);
    }
}

/// The sum over a one-element sequence is that element's contribution.
pub proof fn lemma_rec_sum_singleton<A>(x: A, f: spec_fn(A) -> int)
    ensures
        rec_sum(seq![x], f) == f(x),
{
    assert(seq![x].len() == 1);
    assert(seq![x][0] == x);
    assert(seq![x].drop_first() =~= Seq::<A>::empty());
    assert(rec_sum(Seq::<A>::empty(), f) == 0);
}

/// Splitting out one element splits the sum.
pub proof fn lemma_rec_sum_remove<A>(s: Seq<A>, i: int, f: spec_fn(A) -> int)
    requires
        0 <= i < s.len(),
    ensures
        rec_sum(s, f) == f(s[i]) + rec_sum(s.remove(i), f),
{
    let pre = s.subrange(0, i);
    let post = s.subrange(i + 1, s.len() as int);
    assert(s =~= pre + seq![s[i]] + post);
    assert(s.remove(i) =~= pre + post);
    lemma_rec_sum_concat(pre + seq![s[i]], post, f);
    lemma_rec_sum_concat(pre, seq![s[i]], f);
    lemma_rec_sum_concat(pre, post, f);
    lemma_rec_sum_singleton(s[i], f);
}

/// The sum only depends on the multiset of elements: any reordering keeps it.
pub proof fn lemma_rec_sum_multiset<A>(s1: Seq<A>, s2: Seq<A>, f: spec_fn(A) -> int)
    requires
        s1.to_multiset() == s2.to_multiset(),
    ensures
        rec_sum(s1, f) == rec_sum(s2, f),
    decreases s1.len(),
{
    broadcast use vstd::seq_lib::group_to_multiset_ensures;

    assert(s1.to_multiset().len() == s1.len());
    assert(s2.to_multiset().len() == s2.len());
    if s1.len() == 0 {
        assert(s2.len() == 0);
    } else {
        let x = s1[0];
        assert(s1.contains(x));
        assert(s1.to_multiset().count(x) > 0);
        assert(s2.to_multiset().count(x) > 0);
        assert(s2.contains(x));
        let j = choose|j: int| 0 <= j < s2.len() && s2[j] == x;
        assert(s1.remove(0).to_multiset() == s1.to_multiset().remove(x));
        assert(s2.remove(j).to_multiset() == s2.to_multiset().remove(x));
        lemma_rec_sum_multiset(s1.remove(0), s2.remove(j), f);
        lemma_rec_sum_remove(s1, 0, f);
        lemma_rec_sum_remove(s2, j, f);
    }
}

/// A pointwise bound on contributions bounds the sum, and the bounding sum is
/// nonnegative.
pub proof fn lemma_rec_sum_bounds<A>(s: Seq<A>, f: spec_fn(A) -> int, g: spec_fn(A) -> int)
    requires
        forall|a: A| -#[trigger] g(a) <= #[trigger] f(a) <= g(a),
    ensures
        0 <= rec_sum(s, g),
        -rec_sum(s, g) <= rec_sum(s, f) <= rec_sum(s, g),
    decreases s.len(),
{
    if s.len() > 0 {
        lemma_rec_sum_bounds(s.drop_first(), f, g);
        assert(rec_sum(s, g) == g(s[0]) + rec_sum(s.drop_first(), g));
        assert(rec_sum(s, f) == f(s[0]) + rec_sum(s.drop_first(), f));
        assert(-g(s[0]) <= f(s[0]) <= g(s[0]));
    }
}

/// If no element contributes, the sum is zero.
pub proof fn lemma_rec_sum_zero<A>(s: Seq<A>, f: spec_fn(A) -> int)
    requires
        forall|i: int| 0 <= i < s.len() ==> f(#[trigger] s[i]) == 0,
    ensures
        rec_sum(s, f) == 0,
    decreases s.len(),
{
    if s.len() > 0 {
        assert(forall|i: int|
            0 <= i < s.drop_first().len() ==> #[trigger] s.drop_first()[i] == s[i + 1]);
        lemma_rec_sum_zero(s.drop_first(), f);
    }
}

/// Mapping a function over two reorderings of the same elements again yields
/// reorderings of the same elements.
pub proof fn lemma_map_values_multiset<A, B>(s1: Seq<A>, s2: Seq<A>, f: spec_fn(A) -> B)
    requires
        s1.to_multiset() == s2.to_multiset(),
    ensures
        s1.map_values(f).to_multiset() == s2.map_values(f).to_multiset(),
    decreases s1.len(),
{
    broadcast use vstd::seq_lib::group_to_multiset_ensures;

    assert(s1.to_multiset().len() == s1.len());
    assert(s2.to_multiset().len() == s2.len());
    if s1.len() == 0 {
        assert(s2.len() == 0);
        assert(s1.map_values(f) =~= s2.map_values(f));
    } else {
        let x = s1[0];
        assert(s1.contains(x));
        assert(s1.to_multiset().count(x) > 0);
        assert(s2.to_multiset().count(x) > 0);
        assert(s2.contains(x));
        let j = choose|j: int| 0 <= j < s2.len() && s2[j] == x;
        assert(s1.remove(0).to_multiset() == s1.to_multiset().remove(x));
        assert(s2.remove(j).to_multiset() == s2.to_multiset().remove(x));
        lemma_map_values_multiset(s1.remove(0), s2.remove(j), f);
        let m1 = s1.map_values(f);
        let m2 = s2.map_values(f);
        assert(s1.remove(0).map_values(f) =~= m1.remove(0));
        assert(s2.remove(j).map_values(f) =~= m2.remove(j));
        assert(m1.remove(0).to_multiset() == m1.to_multiset().remove(m1[0]));
        assert(m2.remove(j).to_multiset() == m2.to_multiset().remove(m2[j]));
        assert(m1[0] == f(x));
        assert(m2[j] == f(x));
        assert(m1.contains(m1[0]));
        assert(m2.contains(m2[j]));
        assert(m1.to_multiset().count(f(x)) > 0);
        assert(m2.to_multiset().count(f(x)) > 0);
        assert forall|z: B| m1.to_multiset().count(z) == m2.to_multiset().count(z) by {
            assert(m1.to_multiset().remove(f(x)).count(z) == m2.to_multiset().remove(f(x)).count(
                z,
            ));
        }
        assert(m1.to_multiset() =~= m2.to_multiset());
    }
}

} // verus!
