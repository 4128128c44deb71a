//! Lexicographic order on character sequences, and ASCII lowercasing.
//!
//! The dictionary is sorted by this order, and decode's binary search and the
//! validity check of [`crate::Dictionary::new`] are proved against it.

use vstd::prelude::*;

verus! {

/// The ASCII lowercase image of one character: `'A'..='Z'` map to
/// `'a'..='z'`, every other character is unchanged.
pub open spec fn lower_char(c: char) -> char {
    if 'A' <= c && c <= 'Z' {
        ((c as u8) + 32) as char
    } else {
        c
    }
}

/// The ASCII lowercase image of a whole character sequence.
pub open spec fn lower_word(w: Seq<char>) -> Seq<char> {
    w.map_values(|c: char| lower_char(c))
}

/// Strict lexicographic order by code point: a proper prefix comes first,
/// otherwise the first differing character decides.
pub open spec fn lex_lt(a: Seq<char>, b: Seq<char>) -> bool
    decreases a.len(),
{
    if b.len() == 0 {
        false
    } else if a.len() == 0 {
        true
    } else if a[0] != b[0] {
        a[0] < b[0]
    } else {
        lex_lt(a.drop_first(), b.drop_first())
    }
}

/// No sequence comes strictly before itself.
pub proof fn lemma_lex_lt_irreflexive(a: Seq<char>)
    ensures
        !lex_lt(a, a),
    decreases a.len(),
{
    if a.len() > 0 {
        lemma_lex_lt_irreflexive(a.drop_first());
    }
}

/// Sequences in strict order are distinct.
pub proof fn lemma_lex_lt_ne(a: Seq<char>, b: Seq<char>)
    requires
        lex_lt(a, b),
    ensures
        a != b,
{
    if a == b {
        lemma_lex_lt_irreflexive(a);
    }
}

/// The order is transitive.
pub proof fn lemma_lex_lt_transitive(a: Seq<char>, b: Seq<char>, c: Seq<char>)
    requires
        lex_lt(a, b),
        lex_lt(b, c),
    ensures
        lex_lt(a, c),
    decreases a.len(),
{
    if a.len() > 0 && a[0] == b[0] && b[0] == c[0] {
        lemma_lex_lt_transitive(a.drop_first(), b.drop_first(), c.drop_first());
    }
}

/// If two sequences agree before position `j` and differ there, the one with
/// the smaller character at `j` comes first.
pub proof fn lemma_lex_lt_from_diff(a: Seq<char>, b: Seq<char>, j: int)
    requires
        0 <= j < a.len(),
        j < b.len(),
        forall|m: int| 0 <= m < j ==> a[m] == b[m],
        a[j] < b[j],
    ensures
        lex_lt(a, b),
    decreases j,
{
    if j > 0 {
        lemma_lex_lt_from_diff(a.drop_first(), b.drop_first(), j - 1);
    }
}

/// A proper prefix comes strictly before the longer sequence.
pub proof fn lemma_lex_lt_from_prefix(a: Seq<char>, b: Seq<char>)
    requires
        a.len() < b.len(),
        forall|m: int| 0 <= m < a.len() ==> a[m] == b[m],
    ensures
        lex_lt(a, b),
    decreases a.len(),
{
    if a.len() > 0 {
        lemma_lex_lt_from_prefix(a.drop_first(), b.drop_first());
    }
}

} // verus!
