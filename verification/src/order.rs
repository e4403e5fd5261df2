//! Lexicographic order and prefixes on byte strings.
//!
//! Strings are stored as bytes, so comparing two codes, or testing whether
//! one begins with the other, comes down to walking two byte strings. This
//! module defines the two relations on byte strings and computes them.

use vstd::prelude::*;

verus! {

/// `a` and `b` agree on their first `k` bytes, and at offset `k` either `a`
/// has ended while `b` goes on, or `a` holds the smaller byte.
pub open spec fn precedes_at(a: Seq<u8>, b: Seq<u8>, k: int) -> bool {
    &&& 0 <= k <= a.len()
    &&& k < b.len()
    &&& forall|j: int| 0 <= j < k ==> a[j] == b[j]
    &&& k < a.len() ==> a[k] < b[k]
}

/// `a` comes strictly before `b` in lexicographic byte order.
pub open spec fn lex_lt(a: Seq<u8>, b: Seq<u8>) -> bool {
    exists|k: int| precedes_at(a, b, k)
}

/// `s` begins with the bytes of `prefix`.
pub open spec fn begins_with(s: Seq<u8>, prefix: Seq<u8>) -> bool {
    &&& prefix.len() <= s.len()
    &&& forall|j: int| 0 <= j < prefix.len() ==> s[j] == prefix[j]
}

/// Where the left operand of a comparison stands relative to the right one.
#[derive(Debug, Clone, Copy, PartialEq, Eq)]
pub enum Side {
    /// The left operand comes first.
    Before,
    /// Both operands are the same byte string.
    Same,
    /// The left operand comes last.
    After,
}

/// No byte string comes before itself.
pub proof fn lemma_lex_lt_irreflexive(a: Seq<u8>)
    ensures
        !lex_lt(a, a),
{
}

/// Two byte strings never precede each other both ways.
pub proof fn lemma_lex_lt_asymmetric(a: Seq<u8>, b: Seq<u8>)
    ensures
        !(lex_lt(a, b) && lex_lt(b, a)),
{
}

/// Three-way comparison of two byte strings in lexicographic order.
pub fn compare(a: &[u8], b: &[u8]) -> (side: Side)
    ensures
        side is Before <==> lex_lt(a@, b@),
        side is Same <==> a@ == b@,
        side is After <==> lex_lt(b@, a@),
{
    proof {
        lemma_lex_lt_asymmetric(a@, b@);
        lemma_lex_lt_irreflexive(a@);
    }
    let shorter: usize = if a.len() < b.len() { a.len() } else { b.len() };
    let mut i: usize = 0;
    while i < shorter
        invariant
            i <= shorter,
            shorter <= a@.len(),
            shorter <= b@.len(),
            forall|j: int| 0 <= j < i ==> a@[j] == b@[j],
        decreases shorter - i,
    {
        if a[i] < b[i] {
            assert(precedes_at(a@, b@, i as int));
            return Side::Before;
        }
        if a[i] > b[i] {
            assert(precedes_at(b@, a@, i as int));
            return Side::After;
        }
        i += 1;
    }
    if a.len() < b.len() {
        assert(precedes_at(a@, b@, a@.len() as int));
        Side::Before
    } else if a.len() > b.len() {
        assert(precedes_at(b@, a@, b@.len() as int));
        Side::After
    } else {
        assert(a@ =~= b@);
        Side::Same
    }
}

/// Whether `s` begins with the bytes of `prefix`.
pub fn has_prefix(s: &[u8], prefix: &[u8]) -> (yes: bool)
    ensures
        yes == begins_with(s@, prefix@),
{
    if prefix.len() > s.len() {
        return false;
    }
    let mut i: usize = 0;
    while i < prefix.len()
        invariant
            i <= prefix@.len() <= s@.len(),
            forall|j: int| 0 <= j < i ==> s@[j] == prefix@[j],
        decreases prefix@.len() - i,
    {
        if s[i] != prefix[i] {
            return false;
        }
        i += 1;
    }
    true
}

} // verus!
