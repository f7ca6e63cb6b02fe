//! Orderings over keys, stated as spec relations with proved laws.
//!
//! The sort kernel only needs a total preorder (ties allowed), so that whole
//! records can be ordered by their key alone. Consolidation additionally needs
//! antisymmetry, so that two keys that compare equal in both directions are the
//! same value.

use vstd::prelude::*;

verus! {

/// A total preorder on `Self`: reflexive-by-totality, transitive, and any two
/// values are comparable. Ties between distinct values are allowed, which lets
/// a record be ordered by its key while carrying a weight.
pub trait TotalPreorder: Sized {
    /// The ordering relation, as a specification.
    spec fn le_spec(self, other: Self) -> bool;

    /// Any two values are comparable.
    proof fn lemma_connected(a: Self, b: Self)
        ensures
            a.le_spec(b) || b.le_spec(a),
    ;

    /// The relation is transitive.
    proof fn lemma_transitive(a: Self, b: Self, c: Self)
        ensures
            a.le_spec(b) && b.le_spec(c) ==> a.le_spec(c),
    ;

    /// Executable comparison, faithful to the spec relation.
    fn le(&self, other: &Self) -> (r: bool)
        ensures
            r == self.le_spec(*other),
    ;
}

/// A total order: a total preorder where values that compare equal in both
/// directions are equal.
pub trait TotalOrder: TotalPreorder {
    /// The relation is antisymmetric.
    proof fn lemma_antisymmetric(a: Self, b: Self)
        ensures
            a.le_spec(b) && b.le_spec(a) ==> a == b,
    ;
}

/// Strict part of the relation: `a` is before `b` and not tied with it.
pub open spec fn lt_spec<K: TotalPreorder>(a: K, b: K) -> bool {
    a.le_spec(b) && !b.le_spec(a)
}

/// The relation is reflexive (a consequence of connectedness).
pub proof fn lemma_le_refl<K: TotalPreorder>(a: K)
    ensures
        a.le_spec(a),
{
    K::lemma_connected(a, a);
}

/// A strict step followed by a lax one stays strict.
pub proof fn lemma_lt_le_lt<K: TotalPreorder>(a: K, b: K, c: K)
    requires
        lt_spec(a, b),
        b.le_spec(c),
    ensures
        lt_spec(a, c),
{
    K::lemma_transitive(a, b, c);
    if c.le_spec(a) {
        K::lemma_transitive(b, c, a);
    }
}

impl TotalPreorder for u64 {
    open spec fn le_spec(self, other: Self) -> bool {
        self <= other
    }

    proof fn lemma_connected(a: Self, b: Self) {
    }

    proof fn lemma_transitive(a: Self, b: Self, c: Self) {
    }

    fn le(&self, other: &Self) -> (r: bool) {
        *self <= *other
    }
}

impl TotalOrder for u64 {
    proof fn lemma_antisymmetric(a: Self, b: Self) {
    }
}

/// A composite key of two machine words, ordered lexicographically.
#[derive(Clone, Copy, Debug, PartialEq, Eq, Structural)]
pub struct KeyPair {
    pub major: u64,
    pub minor: u64,
}

impl TotalPreorder for KeyPair {
    open spec fn le_spec(self, other: Self) -> bool {
        self.major < other.major || (self.major == other.major && self.minor <= other.minor)
    }

    proof fn lemma_connected(a: Self, b: Self) {
    }

    proof fn lemma_transitive(a: Self, b: Self, c: Self) {
    }

    fn le(&self, other: &Self) -> (r: bool) {
        self.major < other.major || (self.major == other.major && self.minor <= other.minor)
    }
}

impl TotalOrder for KeyPair {
    proof fn lemma_antisymmetric(a: Self, b: Self) {
    }
}

} // verus!
