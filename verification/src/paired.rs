//! Diff consolidation over the parallel-slice layout: one key array and one
//! weight array of equal length, kept index-aligned through every move.
//!
//! The contracts are stated over the zipped (key, weight) sequence, so the
//! combined layout and this one promise literally the same canonical outcome
//! for the same logical input.

use vstd::prelude::*;
use vstd::pervasive::VecAdditionalExecFns;
use crate::order::{TotalPreorder, TotalOrder, lt_spec, lemma_le_refl, lemma_lt_le_lt};
use crate::payload::{Payload, vec_swap};
use crate::quicksort::{sorted_between, quicksort_range, zip_rows, zip_seqs, lemma_multiset_all};
use crate::sums::lemma_rec_sum_singleton;
use crate::consolidate::{
    key_sum,
    abs_sum,
    key_contrib,
    canonical,
    lemma_key_sum_bounded,
    lemma_sums_concat,
    lemma_sums_multiset,
    lemma_key_sum_absent,
};

verus! {

/// Compares the keys at `i` and `j`.
fn key_le_idx<K: TotalPreorder>(keys: &Vec<K>, i: usize, j: usize) -> (r: bool)
    requires
        i < keys@.len(),
        j < keys@.len(),
    ensures
        r == keys@[i as int].le_spec(keys@[j as int]),
{
    let a = &keys[i];
    let b = &keys[j];
    a.le(b)
}

/// Whether the keys at `i` and `j` are tied: ordered both ways.
fn keys_tied_idx<K: TotalPreorder>(keys: &Vec<K>, i: usize, j: usize) -> (r: bool)
    requires
        i < keys@.len(),
        j < keys@.len(),
    ensures
        r == (keys@[i as int].le_spec(keys@[j as int]) && keys@[j as int].le_spec(
            keys@[i as int],
        )),
{
    key_le_idx(keys, i, j) && key_le_idx(keys, j, i)
}

/// Whether the keys of `[lo, hi)` are already in order.
fn sorted_keys_check<K: TotalPreorder>(keys: &Vec<K>, lo: usize, hi: usize) -> (r: bool)
    requires
        lo <= hi <= keys@.len(),
    ensures
        r == sorted_between(keys@, lo as int, hi as int),
{
    if hi - lo < 2 {
        return true;
    }
    let mut i = lo + 1;
    while i < hi
        invariant
            lo < i <= hi <= keys@.len(),
            sorted_between(keys@, lo as int, i as int),
        decreases hi - i,
    {
        if !key_le_idx(keys, i - 1, i) {
            proof {
                if sorted_between(keys@, lo as int, hi as int) {
                    assert(keys@[i - 1].le_spec(keys@[i as int]));
                }
            }
            return false;
        }
        proof {
            assert forall|t: int, u: int| lo <= t < u < i + 1 implies #[trigger] keys@[t].le_spec(
                keys@[u],
            ) by {
                if u == i && t < i - 1 {
                    K::lemma_transitive(keys@[t], keys@[i - 1], keys@[i as int]);
                }
            }
        }
        i = i + 1;
    }
    true
}

/// The consolidation scan over parallel slices: folds each run of tied keys
/// in the key-sorted region `[start, len)` into one entry, dropping zero sums
/// and compacting both arrays with the same moves. Entries at the returned
/// length and beyond are stale.
fn paired_sorted_region<K: TotalOrder>(keys: &mut Vec<K>, ws: &mut Vec<i64>, start: usize) -> (w:
    usize)
    requires
        old(keys)@.len() == old(ws)@.len(),
        start <= old(keys)@.len(),
        sorted_between(old(keys)@, start as int, old(keys)@.len() as int),
        abs_sum(
            zip_seqs(old(keys)@, old(ws)@).subrange(start as int, old(keys)@.len() as int),
        ) <= i64::MAX,
    ensures
        start <= w <= old(keys)@.len(),
        final(keys)@.len() == old(keys)@.len(),
        final(ws)@.len() == old(ws)@.len(),
        forall|t: int| 0 <= t < start ==> final(keys)@[t] == old(keys)@[t],
        forall|t: int| 0 <= t < start ==> final(ws)@[t] == old(ws)@[t],
        canonical(zip_seqs(final(keys)@, final(ws)@).subrange(start as int, w as int)),
        forall|k: K|
            #[trigger] key_sum(zip_seqs(final(keys)@, final(ws)@).subrange(start as int, w as int), k)
                == key_sum(
                zip_seqs(old(keys)@, old(ws)@).subrange(start as int, old(keys)@.len() as int),
                k,
            ),
        forall|t: int|
            start <= t < w ==> old(keys)@[start as int].le_spec(#[trigger] final(keys)@[t]),
{
    let n = keys.len();
    let ghost ks0 = old(keys)@;
    let ghost z0 = zip_seqs(old(keys)@, old(ws)@);
    let mut w = start;
    let mut r = start;
    while r < n
        invariant
            start <= w <= r <= n,
            n == keys@.len(),
            keys@.len() == ws@.len(),
            ks0.len() == n,
            z0.len() == n,
            z0 == zip_seqs(ks0, old(ws)@),
            ks0 == old(keys)@,
            sorted_between(ks0, start as int, n as int),
            abs_sum(z0.subrange(start as int, n as int)) <= i64::MAX,
            forall|t: int| 0 <= t < start ==> keys@[t] == ks0[t],
            forall|t: int| 0 <= t < start ==> ws@[t] == old(ws)@[t],
            forall|t: int| r <= t < n ==> keys@[t] == ks0[t],
            forall|t: int| r <= t < n ==> zip_seqs(keys@, ws@)[t] == z0[t],
            canonical(zip_seqs(keys@, ws@).subrange(start as int, w as int)),
            forall|k: K|
                #[trigger] key_sum(zip_seqs(keys@, ws@).subrange(start as int, w as int), k)
                    == key_sum(z0.subrange(start as int, r as int), k),
            forall|t: int, u: int|
                start <= t < w && r <= u < n ==> lt_spec(#[trigger] keys@[t], #[trigger] ks0[u]),
            forall|t: int| start <= t < w ==> ks0[start as int].le_spec(#[trigger] keys@[t]),
        decreases n - r,
    {
        let ghost kpre = keys@;
        let ghost wpre = ws@;
        let ghost zpre = zip_seqs(keys@, ws@);
        let ghost r0 = r as int;
        let ghost k0 = ks0[r0];
        let mut acc: i64 = *(&ws[r]);
        let mut r2 = r + 1;
        proof {
            assert(zpre[r0] == z0[r0]);
            assert(z0[r0] == (k0, acc));
            assert(z0.subrange(r0, r0 + 1) =~= seq![z0[r0]]);
            lemma_rec_sum_singleton(z0[r0], key_contrib(k0));
            assert(key_sum(z0.subrange(r0, r0 + 1), k0) == acc as int);
        }
        while r2 < n && keys_tied_idx(keys, r2, r)
            invariant
                start <= r < r2 <= n,
                n == keys@.len(),
                keys@.len() == ws@.len(),
                ks0.len() == n,
                z0.len() == n,
                keys@ == kpre,
                ws@ == wpre,
                r0 == r as int,
                k0 == ks0[r0],
                sorted_between(ks0, start as int, n as int),
                abs_sum(z0.subrange(start as int, n as int)) <= i64::MAX,
                forall|t: int| r <= t < n ==> keys@[t] == ks0[t],
                forall|t: int| r <= t < n ==> zip_seqs(keys@, ws@)[t] == z0[t],
                forall|t: int| r0 <= t < r2 ==> (#[trigger] z0[t]).0 == k0,
                acc as int == key_sum(z0.subrange(r0, r2 as int), k0),
            decreases n - r2,
        {
            proof {
                K::lemma_antisymmetric(keys@[r2 as int], keys@[r0]);
                assert(z0[r2 as int].0 == k0);
                assert(z0.subrange(r0, r2 + 1) =~= z0.subrange(r0, r2 as int) + seq![
                    z0[r2 as int]
                ]);
                lemma_sums_concat(z0.subrange(r0, r2 as int), seq![z0[r2 as int]]);
                lemma_rec_sum_singleton(z0[r2 as int], key_contrib(k0));
                assert(z0[r2 as int].1 == ws@[r2 as int]);
                assert(key_sum(z0.subrange(r0, r2 + 1), k0) == acc as int + ws@[r2 as int]);
                lemma_key_sum_bounded(z0.subrange(r0, r2 + 1), k0);
                assert(z0.subrange(start as int, n as int) =~= z0.subrange(start as int, r0)
                    + z0.subrange(r0, r2 + 1) + z0.subrange(r2 + 1, n as int));
                lemma_sums_concat(
                    z0.subrange(start as int, r0) + z0.subrange(r0, r2 + 1),
                    z0.subrange(r2 + 1, n as int),
                );
                lemma_sums_concat(z0.subrange(start as int, r0), z0.subrange(r0, r2 + 1));
                lemma_key_sum_bounded(z0.subrange(start as int, r0), k0);
                lemma_key_sum_bounded(z0.subrange(r2 + 1, n as int), k0);
            }
            let wt = *(&ws[r2]);
            acc = acc + wt;
            r2 = r2 + 1;
        }
        proof {
            if r2 < n {
                assert(ks0[r0].le_spec(ks0[r2 as int]));
                if ks0[r2 as int].le_spec(k0) {
                    K::lemma_antisymmetric(ks0[r2 as int], k0);
                }
                assert(lt_spec(k0, ks0[r2 as int]));
            }
        }
        if acc != 0 {
            let ghost emitted = zip_seqs(keys@, ws@).subrange(start as int, w as int);
            ws.set(r, acc);
            vec_swap(keys, w, r);
            vec_swap(ws, w, r);
            proof {
                let z = zip_seqs(keys@, ws@);
                assert(z[w as int] == (k0, acc));
                assert(z.subrange(start as int, w as int) =~= emitted);
                assert(z.subrange(start as int, w as int + 1) =~= emitted + seq![(k0, acc)]);
                lemma_sums_concat(emitted, seq![(k0, acc)]);
                assert forall|k: K|
                    #[trigger] key_sum(z.subrange(start as int, w as int + 1), k) == key_sum(
                        z0.subrange(start as int, r2 as int),
                        k,
                    ) by {
                    lemma_rec_sum_singleton((k0, acc), key_contrib(k));
                    assert(z0.subrange(start as int, r2 as int) =~= z0.subrange(start as int, r0)
                        + z0.subrange(r0, r2 as int));
                    lemma_sums_concat(z0.subrange(start as int, r0), z0.subrange(r0, r2 as int));
                    if k != k0 {
                        lemma_key_sum_absent(z0.subrange(r0, r2 as int), k);
                    }
                }
                assert forall|t: int, u: int|
                    start <= t < w + 1 && r2 <= u < n implies lt_spec(
                    #[trigger] keys@[t],
                    #[trigger] ks0[u],
                ) by {
                    assert(lt_spec(k0, ks0[r2 as int]));
                    if u > r2 {
                        assert(ks0[r2 as int].le_spec(ks0[u]));
                    } else {
                        lemma_le_refl(ks0[r2 as int]);
                    }
                    lemma_lt_le_lt(k0, ks0[r2 as int], ks0[u]);
                    if t < w {
                        assert(lt_spec(kpre[t], ks0[r0]));
                        assert(ks0[r0].le_spec(ks0[u]));
                        lemma_lt_le_lt(kpre[t], ks0[r0], ks0[u]);
                    }
                }
                assert(canonical(z.subrange(start as int, w as int + 1))) by {
                    assert forall|i: int, j: int|
                        #![trigger z.subrange(start as int, w as int + 1)[i], z.subrange(start as int, w as int + 1)[j]]
                        0 <= i < j < w + 1 - start implies lt_spec(
                        z.subrange(start as int, w as int + 1)[i].0,
                        z.subrange(start as int, w as int + 1)[j].0,
                    ) by {
                        if j < w - start {
                            assert(lt_spec(emitted[i].0, emitted[j].0));
                        } else {
                            assert(lt_spec(kpre[start + i], ks0[r0]));
                        }
                    }
                }
                if start < w + 1 {
                    assert(ks0[start as int].le_spec(k0)) by {
                        if start < r0 {
                        } else {
                            lemma_le_refl(k0);
                        }
                    }
                }
            }
            w = w + 1;
        } else {
            proof {
                assert forall|k: K|
                    #[trigger] key_sum(
                        zip_seqs(keys@, ws@).subrange(start as int, w as int),
                        k,
                    ) == key_sum(z0.subrange(start as int, r2 as int), k) by {
                    assert(z0.subrange(start as int, r2 as int) =~= z0.subrange(start as int, r0)
                        + z0.subrange(r0, r2 as int));
                    lemma_sums_concat(z0.subrange(start as int, r0), z0.subrange(r0, r2 as int));
                    if k != k0 {
                        lemma_key_sum_absent(z0.subrange(r0, r2 as int), k);
                    }
                }
            }
        }
        r = r2;
    }
    proof {
        assert(z0.subrange(start as int, r as int) =~= z0.subrange(start as int, n as int));
    }
    w
}

/// Consolidates parallel key and weight slices in place and returns the
/// canonical length: sorts both by key if needed, folds tied keys, drops zero
/// sums. The caller must truncate both arrays to the returned length
/// together; entries beyond it are stale.
pub fn consolidate_paired_slices<K: TotalOrder>(keys: &mut Vec<K>, diffs: &mut Vec<i64>) -> (new_len:
    usize)
    requires
        old(keys)@.len() == old(diffs)@.len(),
        abs_sum(zip_seqs(old(keys)@, old(diffs)@)) <= i64::MAX,
    ensures
        new_len <= old(keys)@.len(),
        final(keys)@.len() == old(keys)@.len(),
        final(diffs)@.len() == old(diffs)@.len(),
        canonical(zip_seqs(final(keys)@, final(diffs)@).subrange(0, new_len as int)),
        forall|k: K|
            #[trigger] key_sum(
                zip_seqs(final(keys)@, final(diffs)@).subrange(0, new_len as int),
                k,
            ) == key_sum(zip_seqs(old(keys)@, old(diffs)@), k),
{
    let n = keys.len();
    if !sorted_keys_check(keys, 0, n) {
        let ghost z0 = zip_rows(old(keys)@, *old(diffs));
        quicksort_range(keys, diffs, 0, n);
        proof {
            let z1 = zip_rows(keys@, *diffs);
            assert(z1.subrange(0, n as int) =~= zip_seqs(keys@, diffs@));
            assert(z0.subrange(0, n as int) =~= zip_seqs(old(keys)@, old(diffs)@));
            lemma_sums_multiset(zip_seqs(keys@, diffs@), zip_seqs(old(keys)@, old(diffs)@));
        }
    }
    proof {
        assert(zip_seqs(keys@, diffs@).subrange(0, n as int) =~= zip_seqs(keys@, diffs@));
        assert(zip_seqs(old(keys)@, old(diffs)@).subrange(0, old(keys)@.len() as int) =~= zip_seqs(
            old(keys)@,
            old(diffs)@,
        ));
    }
    let w = paired_sorted_region(keys, diffs, 0);
    w
}

/// Consolidates `keys[offset..]` and `diffs[offset..]` in place and truncates
/// both arrays to the canonical length, where `[0, offset)` is asserted
/// canonical and no later key orders below the last prefix key. A suffix run
/// tied with the last prefix entry is folded into that entry.
#[verifier::rlimit(80)]
pub fn consolidate_payload_from<K: TotalOrder>(keys: &mut Vec<K>, diffs: &mut Vec<i64>, offset: usize)
    requires
        old(keys)@.len() == old(diffs)@.len(),
        offset <= old(keys)@.len(),
        abs_sum(zip_seqs(old(keys)@, old(diffs)@)) <= i64::MAX,
        canonical(zip_seqs(old(keys)@, old(diffs)@).subrange(0, offset as int)),
        forall|u: int|
            offset <= u < old(keys)@.len() && offset > 0 ==> old(keys)@[offset - 1].le_spec(
                #[trigger] old(keys)@[u],
            ),
    ensures
        final(keys)@.len() == final(diffs)@.len(),
        final(keys)@.len() <= old(keys)@.len(),
        canonical(zip_seqs(final(keys)@, final(diffs)@)),
        forall|k: K|
            #[trigger] key_sum(zip_seqs(final(keys)@, final(diffs)@), k) == key_sum(
                zip_seqs(old(keys)@, old(diffs)@),
                k,
            ),
{
    let n = keys.len();
    let ghost zin = zip_seqs(old(keys)@, old(diffs)@);
    if !sorted_keys_check(keys, offset, n) {
        let ghost z0 = zip_rows(old(keys)@, *old(diffs));
        quicksort_range(keys, diffs, offset, n);
        proof {
            let z1 = zip_rows(keys@, *diffs);
            assert(z1.subrange(offset as int, n as int) =~= zip_seqs(keys@, diffs@).subrange(
                offset as int,
                n as int,
            ));
            assert(z0.subrange(offset as int, n as int) =~= zin.subrange(offset as int, n as int));
            assert forall|t: int| 0 <= t < offset implies zip_seqs(keys@, diffs@)[t] == zin[t] by {
                assert((*diffs).row(t) == (*old(diffs)).row(t));
            }
            assert(zip_seqs(keys@, diffs@).subrange(0, offset as int) =~= zin.subrange(
                0,
                offset as int,
            ));
        }
    }
    let ghost zmid = zip_seqs(keys@, diffs@);
    proof {
        lemma_sums_multiset(
            zmid.subrange(offset as int, n as int),
            zin.subrange(offset as int, n as int),
        );
        assert(zmid =~= zmid.subrange(0, offset as int) + zmid.subrange(offset as int, n as int));
        assert(zin =~= zin.subrange(0, offset as int) + zin.subrange(offset as int, n as int));
        lemma_sums_concat(zmid.subrange(0, offset as int), zmid.subrange(offset as int, n as int));
        lemma_sums_concat(zin.subrange(0, offset as int), zin.subrange(offset as int, n as int));
        if offset > 0 {
            lemma_multiset_all(
                zin.subrange(offset as int, n as int),
                zmid.subrange(offset as int, n as int),
                |e: (K, i64)| old(keys)@[offset - 1].le_spec(e.0),
            );
        }
    }
    let start = if offset == 0 {
        0
    } else {
        offset - 1
    };
    proof {
        assert(sorted_between(keys@, start as int, n as int)) by {
            assert forall|i: int, j: int| start <= i < j < n implies #[trigger] keys@[i].le_spec(
                keys@[j],
            ) by {
                if i == offset - 1 {
                    assert(zmid.subrange(offset as int, n as int)[j - offset] == zmid[j]);
                    assert(zmid[j].0 == keys@[j]);
                }
            }
        }
        assert(zmid.subrange(start as int, n as int) =~= zmid.subrange(start as int, offset as int)
            + zmid.subrange(offset as int, n as int));
        lemma_sums_concat(
            zmid.subrange(start as int, offset as int),
            zmid.subrange(offset as int, n as int),
        );
        lemma_key_sum_bounded(zmid.subrange(start as int, offset as int), zmid[0].0);
        lemma_key_sum_bounded(zmid.subrange(offset as int, n as int), zmid[0].0);
        assert(zmid.subrange(0, offset as int) =~= zmid.subrange(0, start as int) + zmid.subrange(
            start as int,
            offset as int,
        ));
        lemma_sums_concat(
            zmid.subrange(0, start as int),
            zmid.subrange(start as int, offset as int),
        );
        lemma_key_sum_bounded(zmid.subrange(0, start as int), zmid[0].0);
        assert(abs_sum(zmid.subrange(start as int, n as int)) <= abs_sum(zmid));
        assert(abs_sum(zmid) == abs_sum(zin));
    }
    let w = paired_sorted_region(keys, diffs, start);
    proof {
        let z = zip_seqs(keys@, diffs@);
        assert forall|i: int, j: int|
            #![trigger z.subrange(0, w as int)[i], z.subrange(0, w as int)[j]]
            0 <= i < j < w implies lt_spec(z[i].0, z[j].0) by {
            if j < start {
                assert(lt_spec(
                    zin.subrange(0, offset as int)[i].0,
                    zin.subrange(0, offset as int)[j].0,
                ));
            } else if i < start {
                assert(lt_spec(
                    zin.subrange(0, offset as int)[i].0,
                    zin.subrange(0, offset as int)[start as int].0,
                ));
                assert(zmid[start as int].0.le_spec(keys@[j]));
                assert(zmid[start as int] == zin[start as int]);
                lemma_lt_le_lt(z[i].0, zmid[start as int].0, z[j].0);
            } else {
                assert(lt_spec(
                    z.subrange(start as int, w as int)[i - start].0,
                    z.subrange(start as int, w as int)[j - start].0,
                ));
            }
        }
        assert forall|i: int| 0 <= i < w implies (#[trigger] z.subrange(0, w as int)[i]).1
            != 0 by {
            if i < start {
                assert((zin.subrange(0, offset as int)[i]).1 != 0);
            } else {
                assert((z.subrange(start as int, w as int)[i - start]).1 != 0);
            }
        }
        assert forall|k: K| #[trigger] key_sum(z.subrange(0, w as int), k) == key_sum(zin, k) by {
            assert(z.subrange(0, w as int) =~= z.subrange(0, start as int) + z.subrange(
                start as int,
                w as int,
            ));
            lemma_sums_concat(z.subrange(0, start as int), z.subrange(start as int, w as int));
            assert(z.subrange(0, start as int) =~= zmid.subrange(0, start as int));
            assert(zmid.subrange(0, start as int) =~= zin.subrange(0, start as int));
            assert(zin =~= zin.subrange(0, start as int) + zin.subrange(start as int, n as int));
            lemma_sums_concat(zin.subrange(0, start as int), zin.subrange(start as int, n as int));
            assert(key_sum(zmid.subrange(start as int, n as int), k) == key_sum(
                zin.subrange(start as int, n as int),
                k,
            )) by {
                assert(zin.subrange(start as int, n as int) =~= zin.subrange(
                    start as int,
                    offset as int,
                ) + zin.subrange(offset as int, n as int));
                assert(zmid.subrange(start as int, offset as int) =~= zin.subrange(
                    start as int,
                    offset as int,
                ));
                lemma_sums_concat(
                    zin.subrange(start as int, offset as int),
                    zin.subrange(offset as int, n as int),
                );
            }
        }
    }
    let ghost zfull = zip_seqs(keys@, diffs@);
    keys.truncate(w);
    diffs.truncate(w);
    proof {
        assert(zip_seqs(keys@, diffs@) =~= zfull.subrange(0, w as int));
    }
}

} // verus!
