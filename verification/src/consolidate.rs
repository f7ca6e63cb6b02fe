//! Diff consolidation over the combined layout: one array of (key, weight)
//! records, mutated in place.
//!
//! Consolidation collapses a batch of change records to canonical form: one
//! record per distinct key, its weight the sum of every contribution for that
//! key, and keys whose sum is zero dropped. The contracts state exactly that:
//! the output region is canonical and, for every key, holds the same summed
//! weight as the whole input.

use vstd::prelude::*;
use vstd::math::abs;
use crate::order::{TotalPreorder, TotalOrder, lt_spec, lemma_le_refl, lemma_lt_le_lt};
use crate::payload::vec_swap;
use crate::quicksort::{sorted_between, quicksort_range, zip_rows, lemma_multiset_all};
use crate::sums::{
    rec_sum,
    lemma_rec_sum_concat,
    lemma_rec_sum_singleton,
    lemma_rec_sum_multiset,
    lemma_rec_sum_bounds,
    lemma_rec_sum_zero,
    lemma_map_values_multiset,
};

verus! {

/// Records order by key alone; the weight rides along. This is a preorder,
/// not an order: records with equal keys and different weights are tied.
impl<K: TotalPreorder> TotalPreorder for (K, i64) {
    open spec fn le_spec(self, other: Self) -> bool {
        self.0.le_spec(other.0)
    }

    proof fn lemma_connected(a: Self, b: Self) {
        K::lemma_connected(a.0, b.0);
    }

    proof fn lemma_transitive(a: Self, b: Self, c: Self) {
        K::lemma_transitive(a.0, b.0, c.0);
    }

    fn le(&self, other: &Self) -> (r: bool) {
        self.0.le(&other.0)
    }
}

/// What one record contributes to the summed weight of key `k`.
pub open spec fn key_contrib<K>(k: K) -> spec_fn((K, i64)) -> int {
    |e: (K, i64)| if e.0 == k { e.1 as int } else { 0 }
}

/// A record's absolute weight.
pub open spec fn abs_contrib<K>() -> spec_fn((K, i64)) -> int {
    |e: (K, i64)| abs(e.1 as int) as int
}

/// The summed weight of key `k` over a batch.
pub open spec fn key_sum<K>(s: Seq<(K, i64)>, k: K) -> int {
    rec_sum(s, key_contrib(k))
}

/// The summed absolute weight of a batch; it bounds every partial sum the
/// consolidation scan can form.
pub open spec fn abs_sum<K>(s: Seq<(K, i64)>) -> int {
    rec_sum(s, abs_contrib::<K>())
}

/// Canonical form: keys strictly ascending, no weight zero.
pub open spec fn canonical<K: TotalPreorder>(s: Seq<(K, i64)>) -> bool {
    &&& forall|i: int, j: int|
        #![trigger s[i], s[j]]
        0 <= i < j < s.len() ==> lt_spec(s[i].0, s[j].0)
    &&& forall|i: int| 0 <= i < s.len() ==> (#[trigger] s[i]).1 != 0
}

/// Key contributions are bounded by absolute weights, pointwise.
proof fn lemma_contrib_bounded<K>(k: K)
    ensures
        forall|e: (K, i64)|
            -#[trigger] abs_contrib::<K>()(e) <= #[trigger] key_contrib(k)(e) <= abs_contrib::<
                K,
            >()(e),
{
}

/// The summed weight of any key over a batch is bounded by the batch's summed
/// absolute weight.
pub proof fn lemma_key_sum_bounded<K>(s: Seq<(K, i64)>, k: K)
    ensures
        0 <= abs_sum(s),
        -abs_sum(s) <= key_sum(s, k) <= abs_sum(s),
{
    lemma_contrib_bounded(k);
    lemma_rec_sum_bounds(s, key_contrib(k), abs_contrib::<K>());
}

/// Splitting a batch splits both sums.
pub proof fn lemma_sums_concat<K>(a: Seq<(K, i64)>, b: Seq<(K, i64)>)
    ensures
        forall|k: K| #[trigger] key_sum(a + b, k) == key_sum(a, k) + key_sum(b, k),
        abs_sum(a + b) == abs_sum(a) + abs_sum(b),
{
    assert forall|k: K| #[trigger] key_sum(a + b, k) == key_sum(a, k) + key_sum(b, k) by {
        lemma_rec_sum_concat(a, b, key_contrib(k));
    }
    lemma_rec_sum_concat(a, b, abs_contrib::<K>());
}

/// Reordering a batch keeps both sums.
pub proof fn lemma_sums_multiset<K>(a: Seq<(K, i64)>, b: Seq<(K, i64)>)
    requires
        a.to_multiset() == b.to_multiset(),
    ensures
        forall|k: K| #[trigger] key_sum(a, k) == key_sum(b, k),
        abs_sum(a) == abs_sum(b),
{
    assert forall|k: K| #[trigger] key_sum(a, k) == key_sum(b, k) by {
        lemma_rec_sum_multiset(a, b, key_contrib(k));
    }
    lemma_rec_sum_multiset(a, b, abs_contrib::<K>());
}

/// A key that no record of the batch carries sums to zero.
pub proof fn lemma_key_sum_absent<K>(s: Seq<(K, i64)>, k: K)
    requires
        forall|i: int| 0 <= i < s.len() ==> (#[trigger] s[i]).0 != k,
    ensures
        key_sum(s, k) == 0,
{
    lemma_rec_sum_zero(s, key_contrib(k));
}

/// Compares the keys of the records at `i` and `j`.
fn rec_key_le<K: TotalPreorder>(v: &Vec<(K, i64)>, i: usize, j: usize) -> (r: bool)
    requires
        i < v@.len(),
        j < v@.len(),
    ensures
        r == v@[i as int].0.le_spec(v@[j as int].0),
{
    let a = &v[i];
    let b = &v[j];
    a.0.le(&b.0)
}

/// Whether the records at `i` and `j` are tied: keys ordered both ways.
fn rec_keys_tied<K: TotalPreorder>(v: &Vec<(K, i64)>, i: usize, j: usize) -> (r: bool)
    requires
        i < v@.len(),
        j < v@.len(),
    ensures
        r == (v@[i as int].0.le_spec(v@[j as int].0) && v@[j as int].0.le_spec(v@[i as int].0)),
{
    rec_key_le(v, i, j) && rec_key_le(v, j, i)
}

/// Reads the weight of the record at `i`.
fn rec_weight<K>(v: &Vec<(K, i64)>, i: usize) -> (w: i64)
    requires
        i < v@.len(),
    ensures
        w == v@[i as int].1,
{
    v[i].1
}

/// Overwrites the weight of the record at `i`, keeping its key.
fn set_rec_weight<K>(v: &mut Vec<(K, i64)>, i: usize, w: i64)
    requires
        i < old(v)@.len(),
    ensures
        final(v)@ == old(v)@.update(i as int, (old(v)@[i as int].0, w)),
{
    let el = &mut v[i];
    el.1 = w;
    proof {
        assert(final(v)@ =~= old(v)@.update(i as int, (old(v)@[i as int].0, w)));
    }
}

/// Whether the keys of `[lo, hi)` are already in order.
fn sorted_region_check<K: TotalPreorder>(v: &Vec<(K, i64)>, lo: usize, hi: usize) -> (r: bool)
    requires
        lo <= hi <= v@.len(),
    ensures
        r == sorted_between(v@, lo as int, hi as int),
{
    if hi - lo < 2 {
        return true;
    }
    let mut i = lo + 1;
    while i < hi
        invariant
            lo < i <= hi <= v@.len(),
            sorted_between(v@, lo as int, i as int),
        decreases hi - i,
    {
        if !rec_key_le(v, i - 1, i) {
            proof {
                if sorted_between(v@, lo as int, hi as int) {
                    assert(v@[i - 1].le_spec(v@[i as int]));
                }
            }
            return false;
        }
        proof {
            assert forall|t: int, u: int| lo <= t < u < i + 1 implies #[trigger] v@[t].le_spec(
                #[trigger] v@[u],
            ) by {
                if u == i && t < i - 1 {
                    <(K, i64) as TotalPreorder>::lemma_transitive(v@[t], v@[i - 1], v@[i as int]);
                }
            }
        }
        i = i + 1;
    }
    true
}

/// The consolidation scan: folds each run of tied keys in the sorted region
/// `[start, len)` into one record, drops zero sums, and compacts the results
/// to `[start, w)`. Entries at `w` and beyond are stale.
fn consolidate_sorted_region<K: TotalOrder>(v: &mut Vec<(K, i64)>, start: usize) -> (w: usize)
    requires
        start <= old(v)@.len(),
        sorted_between(old(v)@, start as int, old(v)@.len() as int),
        abs_sum(old(v)@.subrange(start as int, old(v)@.len() as int)) <= i64::MAX,
    ensures
        start <= w <= old(v)@.len(),
        final(v)@.len() == old(v)@.len(),
        forall|t: int| 0 <= t < start ==> final(v)@[t] == old(v)@[t],
        canonical(final(v)@.subrange(start as int, w as int)),
        forall|k: K|
            #[trigger] key_sum(final(v)@.subrange(start as int, w as int), k) == key_sum(
                old(v)@.subrange(start as int, old(v)@.len() as int),
                k,
            ),
        forall|t: int|
            start <= t < w ==> old(v)@[start as int].0.le_spec(#[trigger] final(v)@[t].0),
{
    let n = v.len();
    let ghost v0 = old(v)@;
    let mut w = start;
    let mut r = start;
    while r < n
        invariant
            start <= w <= r <= n,
            n == v@.len(),
            v0.len() == n,
            sorted_between(v0, start as int, n as int),
            abs_sum(v0.subrange(start as int, n as int)) <= i64::MAX,
            forall|t: int| 0 <= t < start ==> v@[t] == v0[t],
            forall|t: int| r <= t < n ==> v@[t] == v0[t],
            canonical(v@.subrange(start as int, w as int)),
            forall|k: K|
                #[trigger] key_sum(v@.subrange(start as int, w as int), k) == key_sum(
                    v0.subrange(start as int, r as int),
                    k,
                ),
            forall|t: int, u: int|
                start <= t < w && r <= u < n ==> lt_spec(#[trigger] v@[t].0, #[trigger] v0[u].0),
            forall|t: int| start <= t < w ==> v0[start as int].0.le_spec(#[trigger] v@[t].0),
        decreases n - r,
    {
        let ghost vpre = v@;
        let ghost r0 = r as int;
        let ghost k0 = v0[r0].0;
        let mut acc: i64 = rec_weight(v, r);
        let mut r2 = r + 1;
        proof {
            assert(v0.subrange(r0, r0 + 1) =~= seq![v0[r0]]);
            lemma_rec_sum_singleton(v0[r0], key_contrib(k0));
            assert(key_sum(v0.subrange(r0, r0 + 1), k0) == acc as int);
        }
        while r2 < n && rec_keys_tied(v, r2, r)
            invariant
                start <= r < r2 <= n,
                n == v@.len(),
                v0.len() == n,
                v@ == vpre,
                r0 == r as int,
                k0 == v0[r0].0,
                sorted_between(v0, start as int, n as int),
                abs_sum(v0.subrange(start as int, n as int)) <= i64::MAX,
                forall|t: int| r <= t < n ==> v@[t] == v0[t],
                forall|t: int| r0 <= t < r2 ==> (#[trigger] v0[t]).0 == k0,
                acc as int == key_sum(v0.subrange(r0, r2 as int), k0),
            decreases n - r2,
        {
            proof {
                K::lemma_antisymmetric(v0[r2 as int].0, k0);
                assert(v0[r2 as int].0 == k0);
                assert(v0.subrange(r0, r2 + 1) =~= v0.subrange(r0, r2 as int) + seq![
                    v0[r2 as int]
                ]);
                lemma_sums_concat(v0.subrange(r0, r2 as int), seq![v0[r2 as int]]);
                lemma_rec_sum_singleton(v0[r2 as int], key_contrib(k0));
                assert(key_sum(v0.subrange(r0, r2 + 1), k0) == acc as int + v0[r2 as int].1);
                // the new partial sum stays within the region's absolute sum
                lemma_key_sum_bounded(v0.subrange(r0, r2 + 1), k0);
                assert(v0.subrange(start as int, n as int) =~= v0.subrange(start as int, r0)
                    + v0.subrange(r0, r2 + 1) + v0.subrange(r2 + 1, n as int));
                lemma_sums_concat(
                    v0.subrange(start as int, r0) + v0.subrange(r0, r2 + 1),
                    v0.subrange(r2 + 1, n as int),
                );
                lemma_sums_concat(v0.subrange(start as int, r0), v0.subrange(r0, r2 + 1));
                lemma_key_sum_bounded(v0.subrange(start as int, r0), k0);
                lemma_key_sum_bounded(v0.subrange(r2 + 1, n as int), k0);
            }
            let wt = rec_weight(v, r2);
            acc = acc + wt;
            r2 = r2 + 1;
        }
        proof {
            // the run `[r0, r2)` carries exactly the key `k0`; whatever follows
            // is strictly larger
            if r2 < n {
                assert(v0[r0].le_spec(v0[r2 as int]));
                if v0[r2 as int].0.le_spec(k0) {
                    K::lemma_antisymmetric(v0[r2 as int].0, k0);
                }
                assert(lt_spec(k0, v0[r2 as int].0));
            }
        }
        if acc != 0 {
            let ghost emitted = v@.subrange(start as int, w as int);
            set_rec_weight(v, r, acc);
            vec_swap(v, w, r);
            proof {
                assert(v@[w as int] == (k0, acc));
                assert(v@.subrange(start as int, w as int) =~= emitted);
                assert(v@.subrange(start as int, w as int + 1) =~= emitted + seq![(k0, acc)]);
                lemma_sums_concat(emitted, seq![(k0, acc)]);
                assert forall|k: K|
                    #[trigger] key_sum(v@.subrange(start as int, w as int + 1), k) == key_sum(
                        v0.subrange(start as int, r2 as int),
                        k,
                    ) by {
                    lemma_rec_sum_singleton((k0, acc), key_contrib(k));
                    assert(v0.subrange(start as int, r2 as int) =~= v0.subrange(start as int, r0)
                        + v0.subrange(r0, r2 as int));
                    lemma_sums_concat(v0.subrange(start as int, r0), v0.subrange(r0, r2 as int));
                    if k != k0 {
                        lemma_key_sum_absent(v0.subrange(r0, r2 as int), k);
                    }
                }
                // the new entry is above everything already emitted and below
                // everything not yet scanned
                assert forall|t: int, u: int|
                    start <= t < w + 1 && r2 <= u < n implies lt_spec(
                    #[trigger] v@[t].0,
                    #[trigger] v0[u].0,
                ) by {
                    assert(lt_spec(k0, v0[r2 as int].0));
                    if u > r2 {
                        assert(v0[r2 as int].le_spec(v0[u]));
                    } else {
                        lemma_le_refl(v0[r2 as int].0);
                    }
                    lemma_lt_le_lt(k0, v0[r2 as int].0, v0[u].0);
                    if t < w {
                        assert(lt_spec(v@[t].0, v0[r0].0));
                        assert(v0[r0].le_spec(v0[u]));
                        lemma_lt_le_lt(v@[t].0, v0[r0].0, v0[u].0);
                    }
                }
                assert(canonical(v@.subrange(start as int, w as int + 1))) by {
                    assert forall|i: int, j: int|
                        #![trigger v@.subrange(start as int, w as int + 1)[i], v@.subrange(start as int, w as int + 1)[j]]
                        0 <= i < j < w + 1 - start implies lt_spec(
                        v@.subrange(start as int, w as int + 1)[i].0,
                        v@.subrange(start as int, w as int + 1)[j].0,
                    ) by {
                        if j < w - start {
                            assert(lt_spec(emitted[i].0, emitted[j].0));
                        } else {
                            assert(lt_spec(vpre[start + i].0, v0[r0].0));
                        }
                    }
                }
                if start < w + 1 {
                    assert(v0[start as int].0.le_spec(k0)) by {
                        if start < r0 {
                            assert(v0[start as int].le_spec(v0[r0]));
                        } else {
                            lemma_le_refl(k0);
                        }
                    }
                }
            }
            w = w + 1;
        } else {
            proof {
                assert forall|k: K|
                    #[trigger] key_sum(v@.subrange(start as int, w as int), k) == key_sum(
                        v0.subrange(start as int, r2 as int),
                        k,
                    ) by {
                    assert(v0.subrange(start as int, r2 as int) =~= v0.subrange(start as int, r0)
                        + v0.subrange(r0, r2 as int));
                    lemma_sums_concat(v0.subrange(start as int, r0), v0.subrange(r0, r2 as int));
                    if k != k0 {
                        lemma_key_sum_absent(v0.subrange(r0, r2 as int), k);
                    }
                }
            }
        }
        r = r2;
    }
    proof {
        assert(v0.subrange(start as int, r as int) =~= v0.subrange(start as int, n as int));
    }
    w
}

/// Consolidates the whole array in place and reports the canonical length:
/// sorts if needed, folds tied keys, drops zero sums. The caller truncates to
/// the returned length; entries beyond it are stale.
pub fn consolidate_slice<K: TotalOrder>(v: &mut Vec<(K, i64)>) -> (new_len: usize)
    requires
        abs_sum(old(v)@) <= i64::MAX,
    ensures
        new_len <= old(v)@.len(),
        final(v)@.len() == old(v)@.len(),
        canonical(final(v)@.subrange(0, new_len as int)),
        forall|k: K|
            #[trigger] key_sum(final(v)@.subrange(0, new_len as int), k) == key_sum(old(v)@, k),
{
    let n = v.len();
    if !sorted_region_check(v, 0, n) {
        let mut extra: () = ();
        let ghost z0 = zip_rows(old(v)@, ());
        quicksort_range(v, &mut extra, 0, n);
        proof {
            let z1 = zip_rows(v@, ());
            let strip = |e: ((K, i64), ())| e.0;
            lemma_map_values_multiset(
                z1.subrange(0, n as int),
                z0.subrange(0, n as int),
                strip,
            );
            assert(z1.subrange(0, n as int).map_values(strip) =~= v@);
            assert(z0.subrange(0, n as int).map_values(strip) =~= old(v)@);
            lemma_sums_multiset(v@, old(v)@);
        }
    }
    proof {
        assert(v@.subrange(0, n as int) =~= v@);
        assert(old(v)@.subrange(0, old(v)@.len() as int) =~= old(v)@);
    }
    let w = consolidate_sorted_region(v, 0);
    proof {
        assert(v@.subrange(0, n as int) =~= v@);
    }
    w
}

/// Consolidates the whole vector in place: sorts if needed, folds tied keys,
/// drops zero sums, truncates to the canonical records.
pub fn consolidate<K: TotalOrder>(v: &mut Vec<(K, i64)>)
    requires
        abs_sum(old(v)@) <= i64::MAX,
    ensures
        final(v)@.len() <= old(v)@.len(),
        canonical(final(v)@),
        forall|k: K| #[trigger] key_sum(final(v)@, k) == key_sum(old(v)@, k),
{
    let w = consolidate_slice(v);
    v.truncate(w);
}

/// Consolidates `vec[offset..]` in place, where `[0, offset)` is asserted to
/// be already canonical and no later key orders below the last prefix key. A
/// suffix run tied with the last prefix entry is folded into it — and that
/// entry is dropped like any other if its folded weight reaches zero.
#[verifier::rlimit(80)]
pub fn consolidate_from<K: TotalOrder>(v: &mut Vec<(K, i64)>, offset: usize)
    requires
        offset <= old(v)@.len(),
        abs_sum(old(v)@) <= i64::MAX,
        canonical(old(v)@.subrange(0, offset as int)),
        forall|u: int|
            offset <= u < old(v)@.len() && offset > 0 ==> old(v)@[offset - 1].0.le_spec(
                (#[trigger] old(v)@[u]).0,
            ),
    ensures
        final(v)@.len() <= old(v)@.len(),
        canonical(final(v)@),
        forall|k: K| #[trigger] key_sum(final(v)@, k) == key_sum(old(v)@, k),
{
    let n = v.len();
    if !sorted_region_check(v, offset, n) {
        let mut extra: () = ();
        let ghost z0 = zip_rows(old(v)@, ());
        quicksort_range(v, &mut extra, offset, n);
        proof {
            let z1 = zip_rows(v@, ());
            let strip = |e: ((K, i64), ())| e.0;
            lemma_map_values_multiset(
                z1.subrange(offset as int, n as int),
                z0.subrange(offset as int, n as int),
                strip,
            );
            assert(z1.subrange(offset as int, n as int).map_values(strip) =~= v@.subrange(
                offset as int,
                n as int,
            ));
            assert(z0.subrange(offset as int, n as int).map_values(strip) =~= old(v)@.subrange(
                offset as int,
                n as int,
            ));
            assert(v@.subrange(0, offset as int) =~= old(v)@.subrange(0, offset as int));
        }
    }
    proof {
        // the suffix is now sorted and remains a permutation of the old
        // suffix, so sums and bounds carry over
        lemma_sums_multiset(
            v@.subrange(offset as int, n as int),
            old(v)@.subrange(offset as int, n as int),
        );
        assert(v@ =~= v@.subrange(0, offset as int) + v@.subrange(offset as int, n as int));
        assert(old(v)@ =~= old(v)@.subrange(0, offset as int) + old(v)@.subrange(
            offset as int,
            n as int,
        ));
        lemma_sums_concat(v@.subrange(0, offset as int), v@.subrange(offset as int, n as int));
        lemma_sums_concat(
            old(v)@.subrange(0, offset as int),
            old(v)@.subrange(offset as int, n as int),
        );
        if offset > 0 {
            lemma_multiset_all(
                old(v)@.subrange(offset as int, n as int),
                v@.subrange(offset as int, n as int),
                |e: (K, i64)| old(v)@[offset - 1].0.le_spec(e.0),
            );
        }
    }
    let start = if offset == 0 {
        0
    } else {
        offset - 1
    };
    proof {
        assert(sorted_between(v@, start as int, n as int)) by {
            assert forall|i: int, j: int| start <= i < j < n implies #[trigger] v@[i].le_spec(
                #[trigger] v@[j],
            ) by {
                if i == offset - 1 {
                    assert(v@.subrange(offset as int, n as int)[j - offset] == v@[j]);
                }
            }
        }
        assert(v@.subrange(start as int, n as int) =~= v@.subrange(start as int, offset as int)
            + v@.subrange(offset as int, n as int));
        lemma_sums_concat(
            v@.subrange(start as int, offset as int),
            v@.subrange(offset as int, n as int),
        );
        lemma_key_sum_bounded(v@.subrange(start as int, offset as int), v@[0].0);
        lemma_key_sum_bounded(v@.subrange(offset as int, n as int), v@[0].0);
        assert(v@.subrange(0, offset as int) =~= v@.subrange(0, start as int) + v@.subrange(
            start as int,
            offset as int,
        ));
        lemma_sums_concat(
            v@.subrange(0, start as int),
            v@.subrange(start as int, offset as int),
        );
        lemma_key_sum_bounded(v@.subrange(0, start as int), v@[0].0);
        assert(abs_sum(v@.subrange(start as int, n as int)) <= abs_sum(v@));
        assert(abs_sum(v@) == abs_sum(old(v)@));
    }
    let ghost mid = v@;
    let w = consolidate_sorted_region(v, start);
    proof {
        // prefix `[0, start)` is canonical on its own and strictly below the
        // emitted region, so the whole `[0, w)` is canonical
        assert forall|i: int, j: int|
            #![trigger v@.subrange(0, w as int)[i], v@.subrange(0, w as int)[j]]
            0 <= i < j < w implies lt_spec(v@[i].0, v@[j].0) by {
            if j < start {
                assert(lt_spec(
                    old(v)@.subrange(0, offset as int)[i].0,
                    old(v)@.subrange(0, offset as int)[j].0,
                ));
            } else if i < start {
                assert(lt_spec(
                    old(v)@.subrange(0, offset as int)[i].0,
                    old(v)@.subrange(0, offset as int)[start as int].0,
                ));
                assert(mid[start as int].0.le_spec(v@[j].0));
                assert(mid[start as int] == old(v)@[start as int]);
                lemma_lt_le_lt(v@[i].0, mid[start as int].0, v@[j].0);
            } else {
                assert(lt_spec(
                    v@.subrange(start as int, w as int)[i - start].0,
                    v@.subrange(start as int, w as int)[j - start].0,
                ));
            }
        }
        assert forall|i: int| 0 <= i < w implies (#[trigger] v@.subrange(0, w as int)[i]).1
            != 0 by {
            if i < start {
                assert((old(v)@.subrange(0, offset as int)[i]).1 != 0);
            } else {
                assert((v@.subrange(start as int, w as int)[i - start]).1 != 0);
            }
        }
        assert forall|k: K| #[trigger] key_sum(v@.subrange(0, w as int), k) == key_sum(
            old(v)@,
            k,
        ) by {
            assert(v@.subrange(0, w as int) =~= v@.subrange(0, start as int) + v@.subrange(
                start as int,
                w as int,
            ));
            lemma_sums_concat(v@.subrange(0, start as int), v@.subrange(start as int, w as int));
            assert(v@.subrange(0, start as int) =~= mid.subrange(0, start as int));
            assert(mid.subrange(0, start as int) =~= old(v)@.subrange(0, start as int));
            assert(old(v)@ =~= old(v)@.subrange(0, start as int) + old(v)@.subrange(
                start as int,
                n as int,
            ));
            lemma_sums_concat(
                old(v)@.subrange(0, start as int),
                old(v)@.subrange(start as int, n as int),
            );
            assert(key_sum(mid.subrange(start as int, n as int), k) == key_sum(
                old(v)@.subrange(start as int, n as int),
                k,
            )) by {
                assert(mid.subrange(start as int, n as int) =~= mid.subrange(
                    start as int,
                    offset as int,
                ) + mid.subrange(offset as int, n as int));
                assert(old(v)@.subrange(start as int, n as int) =~= old(v)@.subrange(
                    start as int,
                    offset as int,
                ) + old(v)@.subrange(offset as int, n as int));
                assert(mid.subrange(start as int, offset as int) =~= old(v)@.subrange(
                    start as int,
                    offset as int,
                ));
                lemma_sums_concat(
                    mid.subrange(start as int, offset as int),
                    mid.subrange(offset as int, n as int),
                );
                lemma_sums_concat(
                    old(v)@.subrange(start as int, offset as int),
                    old(v)@.subrange(offset as int, n as int),
                );
            }
        }
    }
    v.truncate(w);
}

} // verus!
