//! Codes and names as text.
//!
//! A code or a name is a string; its model is the sequence of its characters.
//! Codes are ordered character by character, each character by its scalar
//! value, and a code lies under a country where it begins with the country's
//! code. This module defines the two relations and proves the facts about
//! them that the searches rely on.

use vstd::prelude::*;

verus! {

/// `a` and `b` agree on their first `k` characters, and at offset `k` either
/// `a` has ended while `b` goes on, or `a` holds the character of smaller
/// scalar value.
pub open spec fn code_precedes_at(a: Seq<char>, b: Seq<char>, k: int) -> bool {
    &&& 0 <= k <= a.len()
    &&& k < b.len()
    &&& forall|j: int| 0 <= j < k ==> a[j] == b[j]
    &&& k < a.len() ==> (a[k] as u32) < (b[k] as u32)
}

/// Code `a` sorts strictly before code `b`, in lexicographic order of
/// characters.
pub open spec fn code_lt(a: Seq<char>, b: Seq<char>) -> bool {
    exists|k: int| code_precedes_at(a, b, k)
}

/// `code` lies under `country`: it begins with the country's code. A
/// country's own code lies under it.
pub open spec fn code_under(code: Seq<char>, country: Seq<char>) -> bool {
    country.is_prefix_of(code)
}

/// No code sorts before itself, and no two codes sort before each other.
pub proof fn lemma_code_lt_strict(a: Seq<char>, b: Seq<char>)
    ensures
        !code_lt(a, a),
        !(code_lt(a, b) && code_lt(b, a)),
{
}

/// The order of codes is transitive.
pub proof fn lemma_code_lt_transitive(a: Seq<char>, b: Seq<char>, c: Seq<char>)
    requires
        code_lt(a, b),
        code_lt(b, c),
    ensures
        code_lt(a, c),
{
    let k1 = choose|k: int| code_precedes_at(a, b, k);
    let k2 = choose|k: int| code_precedes_at(b, c, k);
    let k = if k1 <= k2 { k1 } else { k2 };
    assert(code_precedes_at(a, c, k));
}

/// Of two different codes one sorts before the other.
pub proof fn lemma_code_lt_total(a: Seq<char>, b: Seq<char>)
    ensures
        a == b || code_lt(a, b) || code_lt(b, a),
{
    lemma_first_difference(a, b, 0);
}

/// Two codes that agree on their first `k` characters are equal or differ
/// somewhere from offset `k` on, and where they first differ decides their
/// order.
proof fn lemma_first_difference(a: Seq<char>, b: Seq<char>, k: int)
    requires
        0 <= k <= a.len(),
        k <= b.len(),
        forall|j: int| 0 <= j < k ==> a[j] == b[j],
    ensures
        a == b || code_lt(a, b) || code_lt(b, a),
    decreases a.len() - k,
{
    if k == a.len() && k == b.len() {
        assert(a =~= b);
    } else if k == a.len() {
        assert(code_precedes_at(a, b, k));
    } else if k == b.len() {
        assert(code_precedes_at(b, a, k));
    } else if a[k] == b[k] {
        lemma_first_difference(a, b, k + 1);
    } else if (a[k] as u32) < (b[k] as u32) {
        assert(code_precedes_at(a, b, k));
    } else {
        vstd::utf8::char_u32_cast(a[k], a[k] as u32);
        vstd::utf8::char_u32_cast(b[k], b[k] as u32);
        assert(code_precedes_at(b, a, k));
    }
}

/// A code that lies under a country does not sort before the country's own
/// code.
pub proof fn lemma_under_not_before(code: Seq<char>, country: Seq<char>)
    requires
        code_under(code, country),
    ensures
        !code_lt(code, country),
{
}

/// Codes under one country stand together in the order: once a code after the
/// country's own lies outside the country, so does every later code.
pub proof fn lemma_past_country(country: Seq<char>, code: Seq<char>, later: Seq<char>)
    requires
        code_lt(country, code),
        !code_under(code, country),
        code_lt(code, later),
    ensures
        !code_under(later, country),
{
}

} // verus!
