//! Reusable in-place primitives over parallel sorted columns: the offset
//! filter and the multi-column dedup.

use vstd::prelude::*;
use crate::order::KeyPair;
use crate::payload::{Payload, vec_swap};

verus! {

/// A test on elements, with its executable form tied to a spec relation.
pub trait Predicate<T>: Sized {
    /// What the test decides, as a specification.
    spec fn holds(self, t: T) -> bool;

    /// Executable form, faithful to the spec.
    fn eval(&self, t: &T) -> (r: bool)
        ensures
            r == self.holds(*t),
    ;
}

/// An equality test between keys, used by the dedup primitive to recognize a
/// run. Only faithfulness of the executable form is required of it.
pub trait SameKey: Sized {
    /// What counts as the same key, as a specification.
    spec fn same_spec(self, other: Self) -> bool;

    /// Executable form, faithful to the spec.
    fn same(&self, other: &Self) -> (r: bool)
        ensures
            r == self.same_spec(*other),
    ;
}

impl SameKey for u64 {
    open spec fn same_spec(self, other: Self) -> bool {
        self == other
    }

    fn same(&self, other: &Self) -> (r: bool) {
        *self == *other
    }
}

impl SameKey for KeyPair {
    open spec fn same_spec(self, other: Self) -> bool {
        self == other
    }

    fn same(&self, other: &Self) -> (r: bool) {
        self.major == other.major && self.minor == other.minor
    }
}

/// The test the consolidator's zero-drop pass uses: a weight, or a record's
/// weight, is not zero.
pub struct NonZeroWeight;

impl Predicate<i64> for NonZeroWeight {
    open spec fn holds(self, t: i64) -> bool {
        t != 0
    }

    fn eval(&self, t: &i64) -> (r: bool) {
        *t != 0
    }
}

impl<K> Predicate<(K, i64)> for NonZeroWeight {
    open spec fn holds(self, t: (K, i64)) -> bool {
        t.1 != 0
    }

    fn eval(&self, t: &(K, i64)) -> (r: bool) {
        t.1 != 0
    }
}

/// Removes every element at index `starting_point` or beyond that fails the
/// predicate, compacting survivors leftward in order; indices below
/// `starting_point` are untouched. With `starting_point == 0` this is exactly
/// the standard stable filter.
pub fn retain_starting_at<T, F: Predicate<T>>(vec: &mut Vec<T>, starting_point: usize, predicate: F)
    requires
        starting_point <= old(vec)@.len(),
    ensures
        final(vec)@ == old(vec)@.take(starting_point as int) + old(vec)@.skip(
            starting_point as int,
        ).filter(|t: T| predicate.holds(t)),
{
    let ghost v0 = old(vec)@;
    let ghost pred = |t: T| predicate.holds(t);
    let n = vec.len();
    let mut w = starting_point;
    let mut r = starting_point;
    while r < n
        invariant
            starting_point <= w <= r <= n,
            n == vec@.len(),
            v0.len() == n,
            v0 == old(vec)@,
            pred == (|t: T| predicate.holds(t)),
            forall|t: int| 0 <= t < starting_point ==> vec@[t] == v0[t],
            forall|t: int| r <= t < n ==> vec@[t] == v0[t],
            vec@.subrange(starting_point as int, w as int) == v0.subrange(
                starting_point as int,
                r as int,
            ).filter(pred),
        decreases n - r,
    {
        let keep = predicate.eval(&vec[r]);
        proof {
            assert(v0.subrange(starting_point as int, r + 1) =~= v0.subrange(
                starting_point as int,
                r as int,
            ).push(v0[r as int]));
            v0.subrange(starting_point as int, r as int).lemma_filter_push(v0[r as int], pred);
        }
        if keep {
            let ghost kept = vec@.subrange(starting_point as int, w as int);
            vec_swap(vec, w, r);
            proof {
                assert(vec@.subrange(starting_point as int, w as int + 1) =~= kept.push(
                    v0[r as int],
                ));
            }
            w = w + 1;
        } else {
            proof {
                assert(!pred(v0[r as int]));
                assert(v0.subrange(starting_point as int, r + 1).filter(pred) == v0.subrange(
                    starting_point as int,
                    r as int,
                ).filter(pred));
            }
        }
        r = r + 1;
    }
    vec.truncate(w);
    proof {
        assert(v0.subrange(starting_point as int, n as int) == v0.skip(starting_point as int));
        assert(final(vec)@ =~= v0.take(starting_point as int) + v0.skip(
            starting_point as int,
        ).filter(pred));
    }
}

/// The indices that a dedup scan keeps, walking `s` from `i` with `last` the
/// index of the most recently kept element (negative when there is none): an
/// element is dropped when it tests the same as the last kept one, else kept
/// and made the new comparison point.
pub open spec fn kept_after<K: SameKey>(s: Seq<K>, i: int, last: int) -> Seq<int>
    decreases s.len() - i,
{
    if i < 0 || i >= s.len() {
        Seq::empty()
    } else if last >= 0 && s[i].same_spec(s[last]) {
        kept_after(s, i + 1, last)
    } else {
        seq![i] + kept_after(s, i + 1, i)
    }
}

/// The shared retained-index set of a dedup from `off`: the whole prefix, then
/// the survivors of the scan, seeded against the last prefix element.
pub open spec fn dedup_kept<K: SameKey>(s: Seq<K>, off: int) -> Seq<int> {
    Seq::new(off as nat, |i: int| i) + kept_after(s, off, off - 1)
}

/// Collapses every run of same-testing keys at index `starting_point` or
/// beyond to its first element, compacting in place, and reshapes every
/// payload column with the exact same retained-index set; indices below
/// `starting_point` are untouched, though a first suffix element that tests
/// the same as the last prefix element is folded away. Duplicate keys must be
/// adjacent (as after a sort) to form runs.
pub fn dedup_payload_starting_at<K: SameKey, P: Payload>(
    keys: &mut Vec<K>,
    payload: &mut P,
    starting_point: usize,
)
    requires
        starting_point <= old(keys)@.len(),
        old(payload).wf(old(keys)@.len() as nat),
    ensures
        final(keys)@.len() == dedup_kept(old(keys)@, starting_point as int).len(),
        final(payload).wf(final(keys)@.len() as nat),
        forall|j: int|
            0 <= j < final(keys)@.len() ==> final(keys)@[j] == old(keys)@[dedup_kept(
                old(keys)@,
                starting_point as int,
            )[j]],
        forall|j: int|
            0 <= j < final(keys)@.len() ==> final(payload).row(j) == old(payload).row(
                dedup_kept(old(keys)@, starting_point as int)[j],
            ),
{
    let ghost ks0 = old(keys)@;
    let ghost sp = starting_point as int;
    let n = keys.len();
    let mut w = starting_point;
    let mut r = starting_point;
    let ghost mut gdone: Seq<int> = Seq::empty();
    let ghost mut glast: int = sp - 1;
    proof {
        assert(gdone + kept_after(ks0, sp, sp - 1) =~= kept_after(ks0, sp, sp - 1));
    }
    while r < n
        invariant
            starting_point <= w <= r <= n,
            n == keys@.len(),
            ks0.len() == n,
            sp == starting_point as int,
            payload.wf(n as nat),
            forall|t: int| 0 <= t < sp ==> keys@[t] == ks0[t],
            forall|t: int| 0 <= t < sp ==> payload.row(t) == old(payload).row(t),
            forall|t: int| r <= t < n ==> keys@[t] == ks0[t],
            forall|t: int| r <= t < n ==> payload.row(t) == old(payload).row(t),
            gdone.len() == w - sp,
            -1 <= glast < r,
            w == starting_point ==> glast == sp - 1,
            w > 0 ==> glast >= 0 && keys@[w - 1] == ks0[glast],
            kept_after(ks0, sp, sp - 1) == gdone + kept_after(ks0, r as int, glast),
            forall|j: int| 0 <= j < gdone.len() ==> keys@[sp + j] == ks0[#[trigger] gdone[j]],
            forall|j: int|
                0 <= j < gdone.len() ==> payload.row(sp + j) == old(payload).row(
                    #[trigger] gdone[j],
                ),
            forall|j: int| 0 <= j < gdone.len() ==> 0 <= #[trigger] gdone[j] < n,
        decreases n - r,
    {
        let ghost gl0 = glast;
        let mut dup = false;
        if w > 0 {
            let a = &keys[r];
            let b = &keys[w - 1];
            dup = a.same(b);
        }
        if !dup {
            proof {
                if w > 0 {
                    assert(keys@[r as int] == ks0[r as int]);
                    assert(!ks0[r as int].same_spec(ks0[gl0]));
                } else {
                    assert(gl0 == -1);
                }
                assert(kept_after(ks0, r as int, gl0) == seq![r as int] + kept_after(
                    ks0,
                    r + 1,
                    r as int,
                ));
            }
            vec_swap(keys, w, r);
            payload.swap_rows(w, r);
            proof {
                assert(kept_after(ks0, r as int, gl0) == seq![r as int] + kept_after(
                    ks0,
                    r + 1,
                    r as int,
                ));
                gdone = gdone.push(r as int);
                glast = r as int;
                assert((gdone.drop_last() + (seq![r as int] + kept_after(ks0, r + 1, r as int)))
                    =~= gdone + kept_after(ks0, r + 1, r as int));
                assert(keys@[w as int] == ks0[r as int]);
            }
            w = w + 1;
        } else {
            proof {
                assert(ks0[r as int].same_spec(ks0[gl0]));
                assert(kept_after(ks0, r as int, gl0) == kept_after(ks0, r + 1, gl0));
            }
        }
        r = r + 1;
    }
    proof {
        assert(kept_after(ks0, n as int, glast) =~= Seq::empty());
        assert(gdone + Seq::<int>::empty() =~= gdone);
        assert(kept_after(ks0, sp, sp - 1) == gdone);
    }
    let ghost pre_trunc = keys@;
    keys.truncate(w);
    payload.truncate_rows(w);
    proof {
        let kept = dedup_kept(ks0, sp);
        assert(kept.len() == sp + gdone.len());
        assert(final(keys)@ =~= pre_trunc.subrange(0, w as int));
        assert forall|j: int| 0 <= j < w implies final(keys)@[j] == ks0[kept[j]] by {
            if j < sp {
                assert(kept[j] == j);
            } else {
                assert(kept[j] == gdone[j - sp]);
            }
        }
        assert forall|j: int| 0 <= j < w implies final(payload).row(j) == old(payload).row(
            kept[j],
        ) by {
            if j < sp {
                assert(kept[j] == j);
            } else {
                assert(kept[j] == gdone[j - sp]);
            }
        }
    }
}

} // verus!
