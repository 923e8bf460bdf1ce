//! The order of byte strings by which the entries of a map are kept: byte by
//! byte, and a string in front of every string that it begins.

use vstd::prelude::*;

verus! {

/// `a` comes before `b`, given that they agree in front of index `i`.
pub open spec fn less_from(a: Seq<u8>, b: Seq<u8>, i: int) -> bool
    decreases a.len() - i,
{
    if i < 0 || i >= b.len() {
        false
    } else if i >= a.len() {
        true
    } else if a[i] != b[i] {
        a[i] < b[i]
    } else {
        less_from(a, b, i + 1)
    }
}

/// `a` comes before `b`: at the first index where they differ `a` holds the
/// smaller byte, or `a` ends there and `b` goes on.
pub open spec fn less(a: Seq<u8>, b: Seq<u8>) -> bool {
    less_from(a, b, 0)
}

/// Nothing comes before itself.
pub proof fn lemma_less_irreflexive(a: Seq<u8>, i: int)
    ensures
        !less_from(a, a, i),
    decreases a.len() - i,
{
    if 0 <= i < a.len() {
        lemma_less_irreflexive(a, i + 1);
    }
}

/// What comes before something that comes before a third comes before the
/// third.
pub proof fn lemma_less_transitive(a: Seq<u8>, b: Seq<u8>, c: Seq<u8>, i: int)
    requires
        less_from(a, b, i),
        less_from(b, c, i),
    ensures
        less_from(a, c, i),
    decreases a.len() - i,
{
    if 0 <= i < a.len() && i < b.len() && i < c.len() && a[i] == b[i] && b[i] == c[i] {
        lemma_less_transitive(a, b, c, i + 1);
    }
}

/// Of two byte strings that differ, one comes before the other.
pub proof fn lemma_less_total(a: Seq<u8>, b: Seq<u8>, i: int)
    requires
        0 <= i <= a.len(),
        i <= b.len(),
        forall|j: int| 0 <= j < i ==> a[j] == b[j],
    ensures
        less_from(a, b, i) || less_from(b, a, i) || a == b,
    decreases a.len() - i,
{
    if i == a.len() && i == b.len() {
        assert(a =~= b);
    } else if i < a.len() && i < b.len() && a[i] == b[i] {
        lemma_less_total(a, b, i + 1);
    }
}

/// The order is strict and total: never both ways, never against equality, and
/// one way for any two that differ.
pub proof fn lemma_less_order(a: Seq<u8>, b: Seq<u8>)
    ensures
        !(less(a, b) && less(b, a)),
        a == b ==> !less(a, b),
        a != b ==> less(a, b) || less(b, a),
{
    lemma_less_irreflexive(a, 0);
    lemma_less_total(a, b, 0);
    if less(a, b) && less(b, a) {
        lemma_less_transitive(a, b, a, 0);
    }
}

/// Tells whether `a` comes before `b`.
pub fn bytes_less(a: &[u8], b: &[u8]) -> (r: bool)
    ensures
        r == less(a@, b@),
{
    let n = a.len();
    let m = b.len();
    let mut i: usize = 0;
    while i < n && i < m
        invariant
            i <= n,
            i <= m,
            n == a@.len(),
            m == b@.len(),
            less(a@, b@) == less_from(a@, b@, i as int),
        decreases n - i,
    {
        if a[i] != b[i] {
            return a[i] < b[i];
        }
        i = i + 1;
    }
    i < m
}

} // verus!
