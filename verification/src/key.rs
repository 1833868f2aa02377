//! Byte keys compare lexicographically. This module defines the order at the
//! specification level and an executable three-way comparison proved against it.
use vstd::prelude::*;

verus! {

/// Strict lexicographic order on byte sequences, examined from index `i` on:
/// the first differing byte decides; a proper prefix sorts first.
pub open spec fn lex_lt_from(a: Seq<u8>, b: Seq<u8>, i: int) -> bool
    decreases b.len() - i,
{
    if i >= b.len() {
        false
    } else if i >= a.len() {
        true
    } else if a[i] < b[i] {
        true
    } else if a[i] > b[i] {
        false
    } else {
        lex_lt_from(a, b, i + 1)
    }
}

/// Strict lexicographic order on byte sequences.
pub open spec fn lex_lt(a: Seq<u8>, b: Seq<u8>) -> bool {
    lex_lt_from(a, b, 0)
}

/// Lexicographic order, equality allowed.
pub open spec fn lex_le(a: Seq<u8>, b: Seq<u8>) -> bool {
    lex_lt(a, b) || a == b
}

proof fn lemma_lex_from_irreflexive(a: Seq<u8>, i: int)
    ensures
        !lex_lt_from(a, a, i),
    decreases a.len() - i,
{
    if i < a.len() {
        lemma_lex_from_irreflexive(a, i + 1);
    }
}

proof fn lemma_lex_from_asymmetric(a: Seq<u8>, b: Seq<u8>, i: int)
    ensures
        !(lex_lt_from(a, b, i) && lex_lt_from(b, a, i)),
    decreases b.len() - i,
{
    if i < a.len() && i < b.len() && a[i] == b[i] {
        lemma_lex_from_asymmetric(a, b, i + 1);
    }
}

proof fn lemma_lex_from_trichotomy(a: Seq<u8>, b: Seq<u8>, i: int)
    requires
        0 <= i <= a.len(),
        i <= b.len(),
    ensures
        lex_lt_from(a, b, i) || lex_lt_from(b, a, i) || (a.len() == b.len()
            && forall|j: int| i <= j < a.len() ==> a[j] == b[j]),
    decreases b.len() - i,
{
    if i < a.len() && i < b.len() && a[i] == b[i] {
        lemma_lex_from_trichotomy(a, b, i + 1);
    }
}

proof fn lemma_lex_from_transitive(a: Seq<u8>, b: Seq<u8>, c: Seq<u8>, i: int)
    ensures
        lex_lt_from(a, b, i) && lex_lt_from(b, c, i) ==> lex_lt_from(a, c, i),
    decreases b.len() - i,
{
    if i < a.len() && i < b.len() && i < c.len() && a[i] == b[i] && b[i] == c[i] {
        lemma_lex_from_transitive(a, b, c, i + 1);
    }
}

/// The strict order is irreflexive and asymmetric.
pub proof fn lemma_lex_asymmetric(a: Seq<u8>, b: Seq<u8>)
    ensures
        !(lex_lt(a, b) && lex_lt(b, a)),
        !lex_lt(a, a),
{
    lemma_lex_from_asymmetric(a, b, 0);
    lemma_lex_from_irreflexive(a, 0);
}

/// Any two byte sequences are ordered or equal.
pub proof fn lemma_lex_trichotomy(a: Seq<u8>, b: Seq<u8>)
    ensures
        lex_lt(a, b) || lex_lt(b, a) || a == b,
{
    lemma_lex_from_trichotomy(a, b, 0);
    if !lex_lt(a, b) && !lex_lt(b, a) {
        assert(a =~= b);
    }
}

/// The strict order is transitive.
pub proof fn lemma_lex_transitive(a: Seq<u8>, b: Seq<u8>, c: Seq<u8>)
    ensures
        lex_lt(a, b) && lex_lt(b, c) ==> lex_lt(a, c),
{
    lemma_lex_from_transitive(a, b, c, 0);
}

/// Result of a three-way byte-key comparison.
#[derive(Clone, Copy, Debug, PartialEq, Eq, Structural)]
pub enum KeyOrdering {
    Less,
    Equal,
    Greater,
}

/// Three-way lexicographic comparison of two byte keys.
pub fn key_compare(a: &[u8], b: &[u8]) -> (r: KeyOrdering)
    ensures
        (r == KeyOrdering::Less) == lex_lt(a@, b@),
        (r == KeyOrdering::Equal) == (a@ == b@),
        (r == KeyOrdering::Greater) == lex_lt(b@, a@),
{
    proof {
        lemma_lex_asymmetric(a@, b@);
        lemma_lex_asymmetric(b@, a@);
        lemma_lex_trichotomy(a@, b@);
    }
    let mut i: usize = 0;
    let n: usize = if a.len() <= b.len() {
        a.len()
    } else {
        b.len()
    };
    while i < n
        invariant
            0 <= i <= n,
            n <= a@.len(),
            n <= b@.len(),
            n == if a@.len() <= b@.len() { a@.len() } else { b@.len() },
            forall|j: int| 0 <= j < i ==> a@[j] == b@[j],
            lex_lt(a@, b@) == lex_lt_from(a@, b@, i as int),
            lex_lt(b@, a@) == lex_lt_from(b@, a@, i as int),
        decreases n - i,
    {
        let x = a[i];
        let y = b[i];
        if x < y {
            assert(lex_lt_from(a@, b@, i as int));
            return KeyOrdering::Less;
        }
        if x > y {
            assert(lex_lt_from(b@, a@, i as int));
            return KeyOrdering::Greater;
        }
        i = i + 1;
    }
    if a.len() == b.len() {
        assert(a@ =~= b@);
        KeyOrdering::Equal
    } else if a.len() < b.len() {
        assert(lex_lt_from(a@, b@, i as int));
        KeyOrdering::Less
    } else {
        assert(lex_lt_from(b@, a@, i as int));
        KeyOrdering::Greater
    }
}

} // verus!
