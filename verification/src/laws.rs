//! Laws of the consolidation engine, stated over the spec model and proved
//! once for every input: canonical form is unique, so consolidation is
//! idempotent and every layout produces the same records.

use vstd::prelude::*;
use crate::order::{TotalPreorder, TotalOrder, lt_spec, lemma_le_refl, lemma_lt_le_lt};
use crate::consolidate::{key_sum, key_contrib, canonical, lemma_key_sum_absent, lemma_sums_concat};
use crate::sums::{lemma_rec_sum_remove, lemma_rec_sum_singleton};

verus! {

/// Strictly ordered values are distinct.
pub proof fn lemma_lt_neq<K: TotalPreorder>(a: K, b: K)
    requires
        lt_spec(a, b),
    ensures
        a != b,
{
    lemma_le_refl(a);
}

/// Sum preservation, read off a canonical batch: every record's weight is the
/// whole batch's summed weight of its key (and a key carried by no record sums
/// to zero). So in a consolidated output, a present key carries exactly the
/// input's sum, and an absent key's sum is zero.
pub proof fn lemma_canonical_key_weight<K: TotalOrder>(s: Seq<(K, i64)>, i: int)
    requires
        canonical(s),
        0 <= i < s.len(),
    ensures
        key_sum(s, s[i].0) == s[i].1 as int,
{
    let k = s[i].0;
    lemma_rec_sum_remove(s, i, key_contrib(k));
    assert forall|j: int| 0 <= j < s.remove(i).len() implies (#[trigger] s.remove(i)[j]).0
        != k by {
        if j < i {
            assert(lt_spec(s[j].0, s[i].0));
            lemma_lt_neq(s[j].0, k);
        } else {
            assert(s.remove(i)[j] == s[j + 1]);
            assert(lt_spec(s[i].0, s[j + 1].0));
            lemma_lt_neq(k, s[j + 1].0);
        }
    }
    lemma_key_sum_absent(s.remove(i), k);
}

/// The whole summed weight of a nonempty canonical batch's first key is the
/// first record's weight.
proof fn lemma_canonical_head_sum<K: TotalOrder>(s: Seq<(K, i64)>)
    requires
        canonical(s),
        s.len() > 0,
    ensures
        key_sum(s, s[0].0) == s[0].1 as int,
{
    lemma_canonical_key_weight(s, 0);
}

/// Canonical form is unique: two canonical batches that agree on the summed
/// weight of every key are the same sequence. This is what makes the
/// consolidation contract (canonical output, sums preserved) pin the output
/// down completely.
pub proof fn lemma_canonical_unique<K: TotalOrder>(a: Seq<(K, i64)>, b: Seq<(K, i64)>)
    requires
        canonical(a),
        canonical(b),
        forall|k: K| #[trigger] key_sum(a, k) == key_sum(b, k),
    ensures
        a == b,
    decreases a.len() + b.len(),
{
    if a.len() == 0 {
        if b.len() > 0 {
            lemma_canonical_head_sum(b);
            assert(key_sum(a, b[0].0) == 0);
            assert(false);
        }
        assert(a =~= b);
    } else if b.len() == 0 {
        lemma_canonical_head_sum(a);
        assert(key_sum(b, a[0].0) == 0);
        assert(false);
    } else {
        let ka = a[0].0;
        let kb = b[0].0;
        K::lemma_connected(ka, kb);
        if lt_spec(ka, kb) {
            lemma_canonical_head_sum(a);
            assert forall|j: int| 0 <= j < b.len() implies (#[trigger] b[j]).0 != ka by {
                if j == 0 {
                    lemma_lt_neq(ka, kb);
                } else {
                    assert(lt_spec(b[0].0, b[j].0));
                    lemma_lt_le_lt(ka, kb, b[j].0);
                    lemma_lt_neq(ka, b[j].0);
                }
            }
            lemma_key_sum_absent(b, ka);
            assert(false);
        } else if lt_spec(kb, ka) {
            lemma_canonical_head_sum(b);
            assert forall|j: int| 0 <= j < a.len() implies (#[trigger] a[j]).0 != kb by {
                if j == 0 {
                    lemma_lt_neq(kb, ka);
                } else {
                    assert(lt_spec(a[0].0, a[j].0));
                    lemma_lt_le_lt(kb, ka, a[j].0);
                    lemma_lt_neq(kb, a[j].0);
                }
            }
            lemma_key_sum_absent(a, kb);
            assert(false);
        } else {
            K::lemma_antisymmetric(ka, kb);
            assert(ka == kb);
            lemma_canonical_head_sum(a);
            lemma_canonical_head_sum(b);
            assert(a[0].1 == b[0].1);
            assert(a[0] =~= b[0]);
            let at = a.subrange(1, a.len() as int);
            let bt = b.subrange(1, b.len() as int);
            assert(canonical(at)) by {
                assert forall|i: int, j: int|
                    #![trigger at[i], at[j]]
                    0 <= i < j < at.len() implies lt_spec(at[i].0, at[j].0) by {
                    assert(lt_spec(a[i + 1].0, a[j + 1].0));
                }
                assert forall|i: int| 0 <= i < at.len() implies (#[trigger] at[i]).1 != 0 by {
                    assert(a[i + 1].1 != 0);
                }
            }
            assert(canonical(bt)) by {
                assert forall|i: int, j: int|
                    #![trigger bt[i], bt[j]]
                    0 <= i < j < bt.len() implies lt_spec(bt[i].0, bt[j].0) by {
                    assert(lt_spec(b[i + 1].0, b[j + 1].0));
                }
                assert forall|i: int| 0 <= i < bt.len() implies (#[trigger] bt[i]).1 != 0 by {
                    assert(b[i + 1].1 != 0);
                }
            }
            assert forall|k: K| #[trigger] key_sum(at, k) == key_sum(bt, k) by {
                assert(key_sum(a, k) == key_sum(b, k));
                assert(a =~= seq![a[0]] + at);
                assert(b =~= seq![b[0]] + bt);
                lemma_sums_concat(seq![a[0]], at);
                lemma_sums_concat(seq![b[0]], bt);
                assert(key_sum(seq![a[0]] + at, k) == key_sum(seq![a[0]], k) + key_sum(at, k));
                assert(key_sum(seq![b[0]] + bt, k) == key_sum(seq![b[0]], k) + key_sum(bt, k));
                lemma_rec_sum_singleton(a[0], key_contrib(k));
                lemma_rec_sum_singleton(b[0], key_contrib(k));
            }
            lemma_canonical_unique(at, bt);
            assert(a[0] == b[0]);
            assert forall|i: int| 0 <= i < a.len() implies a[i] == b[i] by {
                if i > 0 {
                    assert(at[i - 1] == bt[i - 1]);
                }
            }
            assert(a =~= b);
        }
    }
}

/// Idempotence: consolidating an already canonical batch gives back the very
/// same records and length. `out` stands for any result that meets the
/// consolidation contract on input `s`.
pub proof fn lemma_consolidate_idempotent<K: TotalOrder>(s: Seq<(K, i64)>, out: Seq<(K, i64)>)
    requires
        canonical(s),
        canonical(out),
        forall|k: K| #[trigger] key_sum(out, k) == key_sum(s, k),
    ensures
        out == s,
{
    lemma_canonical_unique(out, s);
}

/// Layout equivalence: two results that both meet the consolidation contract
/// for key-sum-equal inputs — whether produced from the combined array, the
/// parallel slices, or an offset variant — are the same (key, weight)
/// sequence.
pub proof fn lemma_layout_equivalence<K: TotalOrder>(
    ins1: Seq<(K, i64)>,
    out1: Seq<(K, i64)>,
    ins2: Seq<(K, i64)>,
    out2: Seq<(K, i64)>,
)
    requires
        canonical(out1),
        canonical(out2),
        forall|k: K| #[trigger] key_sum(out1, k) == key_sum(ins1, k),
        forall|k: K| #[trigger] key_sum(out2, k) == key_sum(ins2, k),
        forall|k: K| #[trigger] key_sum(ins1, k) == key_sum(ins2, k),
    ensures
        out1 == out2,
{
    lemma_canonical_unique(out1, out2);
}

/// Sort correctness for duplicate-free inputs: a key-sorted rearrangement of
/// pairs with pairwise distinct keys is unique, so zipping the sorted keys
/// with their companions equals the input pairs sorted by key.
pub proof fn lemma_sorted_distinct_pairs_unique<K: TotalOrder, V>(a: Seq<(K, V)>, b: Seq<(K, V)>)
    requires
        a.to_multiset() == b.to_multiset(),
        forall|i: int, j: int|
            #![trigger a[i], a[j]]
            0 <= i < j < a.len() ==> a[i].0.le_spec(a[j].0),
        forall|i: int, j: int|
            #![trigger b[i], b[j]]
            0 <= i < j < b.len() ==> b[i].0.le_spec(b[j].0),
        forall|i: int, j: int|
            #![trigger a[i], a[j]]
            0 <= i < j < a.len() ==> a[i].0 != a[j].0,
    ensures
        a == b,
    decreases a.len(),
{
    broadcast use vstd::seq_lib::group_to_multiset_ensures;

    assert(a.to_multiset().len() == a.len());
    assert(b.to_multiset().len() == b.len());
    if a.len() == 0 {
        assert(a =~= b);
    } else {
        assert(a.contains(a[0]));
        assert(a.to_multiset().count(a[0]) > 0);
        assert(b.to_multiset().count(a[0]) > 0);
        assert(b.contains(a[0]));
        let ib = choose|ib: int| 0 <= ib < b.len() && b[ib] == a[0];
        assert(b.contains(b[0]));
        assert(b.to_multiset().count(b[0]) > 0);
        assert(a.to_multiset().count(b[0]) > 0);
        assert(a.contains(b[0]));
        let ja = choose|ja: int| 0 <= ja < a.len() && a[ja] == b[0];
        if ib > 0 {
            assert(b[0].0.le_spec(b[ib].0));
        } else {
            lemma_le_refl(b[0].0);
        }
        if ja > 0 {
            assert(a[0].0.le_spec(a[ja].0));
        } else {
            lemma_le_refl(a[0].0);
        }
        K::lemma_antisymmetric(a[0].0, b[0].0);
        assert(a[0].0 == b[0].0);
        assert(ja == 0) by {
            if ja > 0 {
                assert(a[0].0 != a[ja].0);
            }
        }
        assert(a[0] == b[0]);
        let at = a.remove(0);
        let bt = b.remove(0);
        assert(at.to_multiset() == a.to_multiset().remove(a[0]));
        assert(bt.to_multiset() == b.to_multiset().remove(b[0]));
        assert forall|i: int, j: int|
            #![trigger at[i], at[j]]
            0 <= i < j < at.len() implies at[i].0.le_spec(at[j].0) && at[i].0 != at[j].0 by {
            assert(a[i + 1].0.le_spec(a[j + 1].0));
            assert(a[i + 1].0 != a[j + 1].0);
        }
        assert forall|i: int, j: int|
            #![trigger bt[i], bt[j]]
            0 <= i < j < bt.len() implies bt[i].0.le_spec(bt[j].0) by {
            assert(b[i + 1].0.le_spec(b[j + 1].0));
        }
        lemma_sorted_distinct_pairs_unique(at, bt);
        assert forall|i: int| 0 <= i < a.len() implies a[i] == b[i] by {
            if i > 0 {
                assert(at[i - 1] == bt[i - 1]);
                assert(a[i] == at[i - 1]);
                assert(b[i] == bt[i - 1]);
            }
        }
        assert(a =~= b);
    }
}

/// Retain correctness at offset zero: keeping an untouched empty prefix and
/// filtering the whole rest is exactly the standard stable filter.
pub proof fn lemma_retain_zero_is_filter<T>(s: Seq<T>, p: spec_fn(T) -> bool)
    ensures
        s.take(0) + s.skip(0).filter(p) == s.filter(p),
{
    assert(s.skip(0) =~= s);
    assert(s.take(0) + s.filter(p) =~= s.filter(p));
}

} // verus!
