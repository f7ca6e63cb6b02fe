//! Two-array sort kernel: sorts a key array in place and applies the identical
//! permutation to any bundle of payload columns.
//!
//! Recursive partitioning with a median-of-three pivot, falling back to an
//! insertion sort on small subranges. The kernel gives no stability guarantee:
//! the contract only states that the keys end up ordered and that the multiset
//! of (key, payload row) pairs is preserved.

use vstd::prelude::*;
use vstd::seq_lib::lemma_multiset_commutative;
use crate::order::TotalPreorder;
use crate::payload::{Payload, vec_swap};

verus! {

/// Subranges this long or shorter are sorted by insertion instead of by
/// partitioning.
pub const SMALL_SORT: usize = 16;

/// The keys of `s` are in order (ties allowed) on the index range `[lo, hi)`.
pub open spec fn sorted_between<K: TotalPreorder>(s: Seq<K>, lo: int, hi: int) -> bool {
    forall|i: int, j: int| lo <= i < j < hi ==> #[trigger] s[i].le_spec(s[j])
}

/// The (key, payload row) pairs of a key array and a payload bundle.
pub open spec fn zip_rows<K, P: Payload>(ks: Seq<K>, p: P) -> Seq<(K, P::Row)> {
    Seq::new(ks.len(), |i: int| (ks[i], p.row(i)))
}

/// The (element, element) pairs of two equal-length sequences.
pub open spec fn zip_seqs<A, B>(a: Seq<A>, b: Seq<B>) -> Seq<(A, B)> {
    Seq::new(a.len(), |i: int| (a[i], b[i]))
}

/// Swapping two positions inside `[lo, hi)` leaves the multiset of that range
/// unchanged.
pub proof fn lemma_swap_subrange_multiset<A>(
    s1: Seq<A>,
    s2: Seq<A>,
    lo: int,
    a: int,
    b: int,
    hi: int,
)
    requires
        0 <= lo <= a <= b < hi <= s1.len(),
        s2 == s1.update(a, s1[b]).update(b, s1[a]),
    ensures
        s2.subrange(lo, hi).to_multiset() == s1.subrange(lo, hi).to_multiset(),
{
    if a == b {
        assert(s2 =~= s1);
    } else {
        let x = s1[a];
        let y = s1[b];
        let pre = s1.subrange(lo, a);
        let mid = s1.subrange(a + 1, b);
        let post = s1.subrange(b + 1, hi);
        assert(s1.subrange(lo, hi) =~= pre + seq![x] + mid + seq![y] + post);
        assert(s2.subrange(lo, hi) =~= pre + seq![y] + mid + seq![x] + post);
        lemma_multiset_commutative(pre + seq![x] + mid + seq![y], post);
        lemma_multiset_commutative(pre + seq![x] + mid, seq![y]);
        lemma_multiset_commutative(pre + seq![x], mid);
        lemma_multiset_commutative(pre, seq![x]);
        lemma_multiset_commutative(pre + seq![y] + mid + seq![x], post);
        lemma_multiset_commutative(pre + seq![y] + mid, seq![x]);
        lemma_multiset_commutative(pre + seq![y], mid);
        lemma_multiset_commutative(pre, seq![y]);
        assert(s2.subrange(lo, hi).to_multiset() =~= s1.subrange(lo, hi).to_multiset());
    }
}

/// A property of every element survives any reordering: equal multisets carry
/// `forall` facts across.
pub proof fn lemma_multiset_all<A>(s1: Seq<A>, s2: Seq<A>, p: spec_fn(A) -> bool)
    requires
        s1.to_multiset() == s2.to_multiset(),
        forall|i: int| 0 <= i < s1.len() ==> p(#[trigger] s1[i]),
    ensures
        forall|i: int| 0 <= i < s2.len() ==> p(#[trigger] s2[i]),
{
    broadcast use vstd::seq_lib::group_to_multiset_ensures;

    assert forall|i: int| 0 <= i < s2.len() implies p(s2[i]) by {
        assert(s2.contains(s2[i]));
        assert(s2.to_multiset().count(s2[i]) > 0);
        assert(s1.to_multiset().count(s2[i]) > 0);
        assert(s1.contains(s2[i]));
        let j = choose|j: int| 0 <= j < s1.len() && s1[j] == s2[i];
        assert(p(s1[j]));
    }
}

/// Two sequences that agree on `[m, hi)` and whose `[lo, m)` ranges are
/// permutations of each other have permuted `[lo, hi)` ranges, and symmetrically.
pub proof fn lemma_multiset_concat_parts<A>(s1: Seq<A>, s2: Seq<A>, lo: int, m: int, hi: int)
    requires
        0 <= lo <= m <= hi <= s1.len(),
        s1.len() == s2.len(),
        s1.subrange(lo, m).to_multiset() == s2.subrange(lo, m).to_multiset(),
        s1.subrange(m, hi).to_multiset() == s2.subrange(m, hi).to_multiset(),
    ensures
        s1.subrange(lo, hi).to_multiset() == s2.subrange(lo, hi).to_multiset(),
{
    assert(s1.subrange(lo, hi) =~= s1.subrange(lo, m) + s1.subrange(m, hi));
    assert(s2.subrange(lo, hi) =~= s2.subrange(lo, m) + s2.subrange(m, hi));
    lemma_multiset_commutative(s1.subrange(lo, m), s1.subrange(m, hi));
    lemma_multiset_commutative(s2.subrange(lo, m), s2.subrange(m, hi));
    assert(s1.subrange(lo, hi).to_multiset() =~= s2.subrange(lo, hi).to_multiset());
}

/// Compares the keys at two indices.
fn key_le_at<K: TotalPreorder>(keys: &Vec<K>, i: usize, j: usize) -> (r: bool)
    requires
        i < keys@.len(),
        j < keys@.len(),
    ensures
        r == keys@[i as int].le_spec(keys@[j as int]),
{
    let a = &keys[i];
    let b = &keys[j];
    a.le(b)
}

/// Swaps position `a` and `b` of the key array and of every payload column.
fn swap_entry<K, P: Payload>(keys: &mut Vec<K>, p: &mut P, a: usize, b: usize)
    requires
        a < old(keys)@.len(),
        b < old(keys)@.len(),
        old(p).wf(old(keys)@.len() as nat),
    ensures
        final(keys)@.len() == old(keys)@.len(),
        final(p).wf(old(keys)@.len() as nat),
        final(keys)@ == old(keys)@.update(a as int, old(keys)@[b as int]).update(
            b as int,
            old(keys)@[a as int],
        ),
        zip_rows(final(keys)@, *final(p)) == zip_rows(old(keys)@, *old(p)).update(
            a as int,
            zip_rows(old(keys)@, *old(p))[b as int],
        ).update(b as int, zip_rows(old(keys)@, *old(p))[a as int]),
        final(p).row(a as int) == old(p).row(b as int),
        final(p).row(b as int) == old(p).row(a as int),
        forall|t: int|
            0 <= t < old(keys)@.len() && t != a && t != b ==> final(p).row(t) == old(p).row(t),
{
    let ghost n = old(keys)@.len() as nat;
    vec_swap(keys, a, b);
    proof {
        assert(old(p).wf(n) && a < n && b < n);
    }
    p.swap_rows(a, b);
    proof {
        let z1 = zip_rows(old(keys)@, *old(p));
        let z2 = zip_rows(keys@, *p);
        assert(z2 =~= z1.update(a as int, z1[b as int]).update(b as int, z1[a as int]));
    }
}

/// Sorts `[lo, hi)` by insertion, moving payload rows along with their keys.
fn insertion_sort_range<K: TotalPreorder, P: Payload>(
    keys: &mut Vec<K>,
    p: &mut P,
    lo: usize,
    hi: usize,
)
    requires
        lo <= hi <= old(keys)@.len(),
        old(p).wf(old(keys)@.len() as nat),
    ensures
        final(keys)@.len() == old(keys)@.len(),
        final(p).wf(old(keys)@.len() as nat),
        forall|t: int|
            (0 <= t < lo || hi <= t < old(keys)@.len()) ==> final(keys)@[t] == old(keys)@[t],
        forall|t: int|
            (0 <= t < lo || hi <= t < old(keys)@.len()) ==> final(p).row(t) == old(p).row(t),
        zip_rows(final(keys)@, *final(p)).subrange(lo as int, hi as int).to_multiset()
            == zip_rows(old(keys)@, *old(p)).subrange(lo as int, hi as int).to_multiset(),
        sorted_between(final(keys)@, lo as int, hi as int),
{
    let ghost len = old(keys)@.len();
    let ghost z0 = zip_rows(old(keys)@, *old(p));
    if hi - lo < 2 {
        return ;
    }
    let mut i = lo + 1;
    while i < hi
        invariant
            lo < i <= hi <= len,
            keys@.len() == len,
            p.wf(len as nat),
            forall|t: int| (0 <= t < lo || hi <= t < len) ==> keys@[t] == old(keys)@[t],
            forall|t: int| (0 <= t < lo || hi <= t < len) ==> p.row(t) == old(p).row(t),
            zip_rows(keys@, *p).subrange(lo as int, hi as int).to_multiset() == z0.subrange(
                lo as int,
                hi as int,
            ).to_multiset(),
            sorted_between(keys@, lo as int, i as int),
        decreases hi - i,
    {
        let mut j = i;
        while j > lo && !key_le_at(keys, j - 1, j)
            invariant
                lo <= j <= i < hi <= len,
                keys@.len() == len,
                p.wf(len as nat),
                forall|t: int| (0 <= t < lo || hi <= t < len) ==> keys@[t] == old(keys)@[t],
                forall|t: int| (0 <= t < lo || hi <= t < len) ==> p.row(t) == old(p).row(t),
                zip_rows(keys@, *p).subrange(lo as int, hi as int).to_multiset() == z0.subrange(
                    lo as int,
                    hi as int,
                ).to_multiset(),
                sorted_between(keys@, lo as int, j as int),
                sorted_between(keys@, j as int, i as int + 1),
                forall|u: int, v: int|
                    lo <= u < j && j < v <= i ==> #[trigger] keys@[u].le_spec(
                        #[trigger] keys@[v],
                    ),
            decreases j,
        {
            let ghost ks_pre = keys@;
            let ghost z_pre = zip_rows(keys@, *p);
            proof {
                K::lemma_connected(keys@[j - 1], keys@[j as int]);
            }
            swap_entry(keys, p, j - 1, j);
            proof {
                lemma_swap_subrange_multiset(
                    z_pre,
                    zip_rows(keys@, *p),
                    lo as int,
                    j - 1,
                    j as int,
                    hi as int,
                );
            }
            j = j - 1;
        }
        proof {
            if j > lo {
                assert forall|u: int, v: int| lo <= u < v < i + 1 implies #[trigger] keys@[
                    u
                ].le_spec(#[trigger] keys@[v]) by {
                    if u < j && v >= j {
                        if v == j {
                            if u < j - 1 {
                                K::lemma_transitive(keys@[u], keys@[j - 1], keys@[j as int]);
                            }
                        } else {
                        }
                    }
                }
            }
            assert(sorted_between(keys@, lo as int, i as int + 1));
        }
        i = i + 1;
    }
}

/// Partitions `[lo, hi)` around a median-of-three pivot; returns the pivot's
/// final position. Everything left of it compares `le` to the pivot key,
/// everything right of it does not.
fn partition<K: TotalPreorder, P: Payload>(
    keys: &mut Vec<K>,
    p: &mut P,
    lo: usize,
    hi: usize,
) -> (pi: usize)
    requires
        lo + 2 <= hi <= old(keys)@.len(),
        old(p).wf(old(keys)@.len() as nat),
    ensures
        lo <= pi < hi,
        final(keys)@.len() == old(keys)@.len(),
        final(p).wf(old(keys)@.len() as nat),
        forall|t: int|
            (0 <= t < lo || hi <= t < old(keys)@.len()) ==> final(keys)@[t] == old(keys)@[t],
        forall|t: int|
            (0 <= t < lo || hi <= t < old(keys)@.len()) ==> final(p).row(t) == old(p).row(t),
        zip_rows(final(keys)@, *final(p)).subrange(lo as int, hi as int).to_multiset()
            == zip_rows(old(keys)@, *old(p)).subrange(lo as int, hi as int).to_multiset(),
        forall|t: int|
            lo <= t < pi ==> #[trigger] final(keys)@[t].le_spec(final(keys)@[pi as int]),
        forall|t: int|
            pi < t < hi ==> !(#[trigger] final(keys)@[t].le_spec(final(keys)@[pi as int])),
{
    let ghost len = old(keys)@.len();
    let ghost z0 = zip_rows(old(keys)@, *old(p));
    // Median-of-three pivot selection: a safeguard against degenerate inputs
    // (sorted, reversed, many duplicates); any choice is correct.
    let mid = lo + (hi - lo) / 2;
    let le_lm = key_le_at(keys, lo, mid);
    let le_mh = key_le_at(keys, mid, hi - 1);
    let le_lh = key_le_at(keys, lo, hi - 1);
    let m = if le_lm {
        if le_mh {
            mid
        } else if le_lh {
            hi - 1
        } else {
            lo
        }
    } else {
        if le_lh {
            lo
        } else if le_mh {
            hi - 1
        } else {
            mid
        }
    };
    let ghost z_pre = zip_rows(keys@, *p);
    swap_entry(keys, p, m, hi - 1);
    proof {
        lemma_swap_subrange_multiset(
            z_pre,
            zip_rows(keys@, *p),
            lo as int,
            m as int,
            hi - 1,
            hi as int,
        );
    }
    let mut i = lo;
    let mut j = lo;
    while j < hi - 1
        invariant
            lo <= i <= j <= hi - 1,
            lo + 2 <= hi <= len,
            keys@.len() == len,
            p.wf(len as nat),
            forall|t: int| (0 <= t < lo || hi <= t < len) ==> keys@[t] == old(keys)@[t],
            forall|t: int| (0 <= t < lo || hi <= t < len) ==> p.row(t) == old(p).row(t),
            zip_rows(keys@, *p).subrange(lo as int, hi as int).to_multiset() == z0.subrange(
                lo as int,
                hi as int,
            ).to_multiset(),
            forall|t: int| lo <= t < i ==> #[trigger] keys@[t].le_spec(keys@[hi - 1]),
            forall|t: int| i <= t < j ==> !(#[trigger] keys@[t].le_spec(keys@[hi - 1])),
        decreases hi - 1 - j,
    {
        let c = key_le_at(keys, j, hi - 1);
        if c {
            let ghost z_pre2 = zip_rows(keys@, *p);
            swap_entry(keys, p, i, j);
            proof {
                lemma_swap_subrange_multiset(
                    z_pre2,
                    zip_rows(keys@, *p),
                    lo as int,
                    i as int,
                    j as int,
                    hi as int,
                );
            }
            i = i + 1;
        }
        j = j + 1;
    }
    let ghost z_pre3 = zip_rows(keys@, *p);
    swap_entry(keys, p, i, hi - 1);
    proof {
        lemma_swap_subrange_multiset(
            z_pre3,
            zip_rows(keys@, *p),
            lo as int,
            i as int,
            hi - 1,
            hi as int,
        );
    }
    i
}

/// Sorts `[lo, hi)` of the key array in place, permuting the payload columns
/// identically: partition recursion for large ranges, insertion sort below
/// `SMALL_SORT`.
pub fn quicksort_range<K: TotalPreorder, P: Payload>(
    keys: &mut Vec<K>,
    p: &mut P,
    lo: usize,
    hi: usize,
)
    requires
        lo <= hi <= old(keys)@.len(),
        old(p).wf(old(keys)@.len() as nat),
    ensures
        final(keys)@.len() == old(keys)@.len(),
        final(p).wf(old(keys)@.len() as nat),
        forall|t: int|
            (0 <= t < lo || hi <= t < old(keys)@.len()) ==> final(keys)@[t] == old(keys)@[t],
        forall|t: int|
            (0 <= t < lo || hi <= t < old(keys)@.len()) ==> final(p).row(t) == old(p).row(t),
        zip_rows(final(keys)@, *final(p)).subrange(lo as int, hi as int).to_multiset()
            == zip_rows(old(keys)@, *old(p)).subrange(lo as int, hi as int).to_multiset(),
        sorted_between(final(keys)@, lo as int, hi as int),
    decreases hi - lo,
{
    let ghost len = old(keys)@.len();
    let ghost z0 = zip_rows(old(keys)@, *old(p));
    if hi - lo <= SMALL_SORT {
        insertion_sort_range(keys, p, lo, hi);
        return ;
    }
    let pi = partition(keys, p, lo, hi);
    let ghost ks1 = keys@;
    let ghost p1 = *p;
    let ghost z1 = zip_rows(ks1, p1);
    let ghost pivk = ks1[pi as int];
    quicksort_range(keys, p, lo, pi);
    let ghost ks2 = keys@;
    let ghost p2 = *p;
    let ghost z2 = zip_rows(ks2, p2);
    proof {
        assert(z2.subrange(pi as int, hi as int) =~= z1.subrange(pi as int, hi as int));
        lemma_multiset_concat_parts(z2, z1, lo as int, pi as int, hi as int);
        lemma_multiset_all(
            z1.subrange(lo as int, pi as int),
            z2.subrange(lo as int, pi as int),
            |e: (K, P::Row)| e.0.le_spec(pivk),
        );
    }
    quicksort_range(keys, p, pi + 1, hi);
    let ghost ks3 = keys@;
    let ghost p3 = *p;
    let ghost z3 = zip_rows(ks3, p3);
    proof {
        assert(z3.subrange(lo as int, pi + 1) =~= z2.subrange(lo as int, pi + 1));
        lemma_multiset_concat_parts(z3, z2, lo as int, pi + 1, hi as int);
        lemma_multiset_all(
            z2.subrange(pi + 1, hi as int),
            z3.subrange(pi + 1, hi as int),
            |e: (K, P::Row)| !e.0.le_spec(pivk),
        );
        assert(ks3[pi as int] == pivk);
        assert forall|u: int| lo <= u < pi implies #[trigger] ks3[u].le_spec(pivk) by {
            assert(z3.subrange(lo as int, pi as int)[u - lo].0 == ks3[u]);
        }
        assert forall|v: int| pi < v < hi implies !(#[trigger] ks3[v].le_spec(pivk)) by {
            assert(z3.subrange(pi + 1, hi as int)[v - (pi + 1)].0 == ks3[v]);
        }
        assert forall|u: int, v: int| lo <= u < v < hi implies #[trigger] ks3[u].le_spec(
            #[trigger] ks3[v],
        ) by {
            if u < pi && v == pi {
            } else if u == pi && v > pi {
                K::lemma_connected(ks3[v], pivk);
            } else if u < pi && v > pi {
                K::lemma_connected(ks3[v], pivk);
                K::lemma_transitive(ks3[u], pivk, ks3[v]);
            }
        }
        // permutation of the whole range, chained across the three phases
        assert(z3.subrange(lo as int, hi as int).to_multiset() == z0.subrange(
            lo as int,
            hi as int,
        ).to_multiset());
    }
}

/// Sorts `keys` ascending in place and applies the identical index permutation
/// to `values`, so each value stays paired with its original key. Equal keys
/// land in an unspecified relative order.
pub fn quicksort<K: TotalPreorder, V>(keys: &mut Vec<K>, values: &mut Vec<V>)
    requires
        old(keys)@.len() == old(values)@.len(),
    ensures
        final(keys)@.len() == old(keys)@.len(),
        final(values)@.len() == old(values)@.len(),
        sorted_between(final(keys)@, 0, final(keys)@.len() as int),
        zip_seqs(final(keys)@, final(values)@).to_multiset() == zip_seqs(
            old(keys)@,
            old(values)@,
        ).to_multiset(),
{
    let n = keys.len();
    quicksort_range(keys, values, 0, n);
    proof {
        assert(zip_rows(keys@, *values).subrange(0, n as int) =~= zip_seqs(keys@, values@));
        assert(zip_rows(old(keys)@, *old(values)).subrange(0, n as int) =~= zip_seqs(
            old(keys)@,
            old(values)@,
        ));
    }
}

} // verus!
