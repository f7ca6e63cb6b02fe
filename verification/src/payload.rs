//! Parallel payload columns: zero, one, or many arrays sharing one index space.
//!
//! The dedup and sort primitives reshape a key array together with any number
//! of payload columns, using the same index decisions for every column. The
//! columns are abstracted as a capability with `swap_rows` and `truncate_rows`:
//! the base case is no column at all (`()`), a single column is a `Vec`, and a
//! pair composes two payloads, so nested pairs give any number of columns.

use vstd::prelude::*;

verus! {

/// Relies on `<[T]>::swap`: the elements at the two indices trade places and
/// the rest of the slice is untouched; out-of-range indices panic, so they are
/// excluded here.
#[verifier::external_body]
fn slice_swap<T>(s: &mut [T], a: usize, b: usize)
    requires
        a < old(s)@.len(),
        b < old(s)@.len(),
    ensures
        final(s)@ == old(s)@.update(a as int, old(s)@[b as int]).update(
            b as int,
            old(s)@[a as int],
        ),
{
    s.swap(a, b)
}

/// Swaps two elements of a vector in place.
pub fn vec_swap<T>(v: &mut Vec<T>, a: usize, b: usize)
    requires
        a < old(v)@.len(),
        b < old(v)@.len(),
    ensures
        final(v)@ == old(v)@.update(a as int, old(v)@[b as int]).update(
            b as int,
            old(v)@[a as int],
        ),
{
    let s = v.as_mut_slice();
    slice_swap(s, a, b);
}

/// A bundle of zero or more equal-length columns, all positionally aligned
/// with one key array. `wf(n)` says every column has length `n`; `row(i)`
/// gathers the values of all columns at index `i`.
pub trait Payload: Sized {
    /// The values that all columns hold at one shared index.
    type Row;

    /// Every column of the bundle has length `n`.
    spec fn wf(&self, n: nat) -> bool;

    /// The values at index `i`, across all columns.
    spec fn row(&self, i: int) -> Self::Row;

    /// Swaps the rows at `a` and `b` in every column.
    fn swap_rows(&mut self, a: usize, b: usize)
        requires
            exists|n: nat| old(self).wf(n) && a < n && b < n,
        ensures
            forall|n: nat| old(self).wf(n) ==> final(self).wf(n),
            final(self).row(a as int) == old(self).row(b as int),
            final(self).row(b as int) == old(self).row(a as int),
            forall|n: nat, i: int|
                old(self).wf(n) && 0 <= i < n && i != a && i != b ==> final(self).row(i) == old(
                    self,
                ).row(i),
    ;

    /// Truncates every column to length `n`, keeping the first `n` rows.
    fn truncate_rows(&mut self, n: usize)
        requires
            exists|m: nat| old(self).wf(m) && n <= m,
        ensures
            final(self).wf(n as nat),
            forall|i: int| 0 <= i < n ==> final(self).row(i) == old(self).row(i),
    ;
}

impl Payload for () {
    type Row = ();

    open spec fn wf(&self, n: nat) -> bool {
        true
    }

    open spec fn row(&self, i: int) -> () {
        ()
    }

    fn swap_rows(&mut self, a: usize, b: usize) {
    }

    fn truncate_rows(&mut self, n: usize) {
    }
}

impl<T> Payload for Vec<T> {
    type Row = T;

    open spec fn wf(&self, n: nat) -> bool {
        self@.len() == n
    }

    open spec fn row(&self, i: int) -> T {
        self@[i]
    }

    fn swap_rows(&mut self, a: usize, b: usize) {
        vec_swap(self, a, b);
    }

    fn truncate_rows(&mut self, n: usize) {
        self.truncate(n);
    }
}

impl<A: Payload, B: Payload> Payload for (A, B) {
    type Row = (A::Row, B::Row);

    open spec fn wf(&self, n: nat) -> bool {
        self.0.wf(n) && self.1.wf(n)
    }

    open spec fn row(&self, i: int) -> (A::Row, B::Row) {
        (self.0.row(i), self.1.row(i))
    }

    fn swap_rows(&mut self, a: usize, b: usize) {
        self.0.swap_rows(a, b);
        self.1.swap_rows(a, b);
    }

    fn truncate_rows(&mut self, n: usize) {
        self.0.truncate_rows(n);
        self.1.truncate_rows(n);
    }
}

} // verus!
