//! The dictionary: exactly [`crate::DICT_WORDS`] ASCII lowercase words in
//! strictly ascending lexicographic order.
//!
//! The word list is data supplied by the caller; [`Dictionary::new`] checks
//! the invariants once and every later operation relies on them through the
//! type invariant.

use vstd::prelude::*;

use crate::order::lemma_lex_lt_from_diff;
use crate::order::lemma_lex_lt_from_prefix;
use crate::order::lemma_lex_lt_irreflexive;
use crate::order::lemma_lex_lt_ne;
use crate::order::lemma_lex_lt_transitive;
use crate::order::lex_lt;
use crate::DICT_WORDS;
use crate::MAX_WORD_LEN;

verus! {

/// A character as dictionary words hold them: ASCII and not an uppercase
/// letter, so that lowercasing leaves the word unchanged.
pub open spec fn lower_ascii_char(c: char) -> bool {
    c <= '\u{7f}' && !('A' <= c && c <= 'Z')
}

/// A well-formed dictionary word: between 1 and [`crate::MAX_WORD_LEN`]
/// characters, all ASCII and none uppercase.
pub open spec fn wf_word(w: Seq<char>) -> bool {
    &&& 1 <= w.len() <= MAX_WORD_LEN
    &&& forall|j: int| 0 <= j < w.len() ==> lower_ascii_char(#[trigger] w[j])
}

/// A well-formed dictionary: exactly [`crate::DICT_WORDS`] well-formed words,
/// each strictly before the next in lexicographic order.
pub open spec fn wf_dict(d: Seq<Seq<char>>) -> bool {
    &&& d.len() == DICT_WORDS
    &&& forall|i: int| 0 <= i < d.len() ==> wf_word(#[trigger] d[i])
    &&& forall|i: int, j: int|
        #![trigger d[i], d[j]]
        0 <= i && j == i + 1 && j < d.len() ==> lex_lt(d[i], d[j])
}

/// In a well-formed dictionary, entries at increasing indices are in strict
/// lexicographic order, not only adjacent ones.
pub proof fn lemma_wf_dict_sorted(d: Seq<Seq<char>>, i: int, j: int)
    requires
        wf_dict(d),
        0 <= i < j < d.len(),
    ensures
        lex_lt(d[i], d[j]),
    decreases j - i,
{
    if i + 1 == j {
        assert(lex_lt(d[i], d[j]));
    } else {
        lemma_wf_dict_sorted(d, i, j - 1);
        assert(lex_lt(d[j - 1], d[j]));
        lemma_lex_lt_transitive(d[i], d[j - 1], d[j]);
    }
}

/// In a well-formed dictionary, equal entries stand at equal indices: every
/// word appears at most once.
pub proof fn lemma_wf_dict_distinct(d: Seq<Seq<char>>, i: int, j: int)
    requires
        wf_dict(d),
        0 <= i < d.len(),
        0 <= j < d.len(),
        d[i] == d[j],
    ensures
        i == j,
{
    if i < j {
        lemma_wf_dict_sorted(d, i, j);
        lemma_lex_lt_ne(d[i], d[j]);
    } else if j < i {
        lemma_wf_dict_sorted(d, j, i);
        lemma_lex_lt_ne(d[j], d[i]);
    }
}

/// The fixed word table. Its invariants are checked once by [`Dictionary::new`]
/// and hold for the life of the value.
pub struct Dictionary {
    words: Vec<String>,
}

impl View for Dictionary {
    type V = Seq<Seq<char>>;

    closed spec fn view(&self) -> Seq<Seq<char>> {
        self.words.deep_view()
    }
}

impl Dictionary {
    /// Every `Dictionary` value is well formed; `use_type_invariant` recovers
    /// this fact wherever a value of the type is at hand.
    #[verifier::type_invariant]
    pub open spec fn well_formed(self) -> bool {
        wf_dict(self@)
    }

    /// Checks the dictionary invariants and builds the table: `Some` exactly
    /// when the supplied words form a well-formed dictionary, holding those
    /// words unchanged.
    pub fn new(words: Vec<String>) -> (r: Option<Dictionary>)
        ensures
            r is Some <==> wf_dict(words.deep_view()),
            r matches Some(d) ==> d@ == words.deep_view(),
    {
        let ghost dv = words.deep_view();
        if words.len() != DICT_WORDS {
            return None;
        }
        let mut prev: Vec<char> = Vec::new();
        let mut i: usize = 0;
        while i < DICT_WORDS
            invariant
                words.deep_view() == dv,
                words@.len() == DICT_WORDS,
                dv.len() == DICT_WORDS,
                0 <= i <= DICT_WORDS,
                forall|m: int| 0 <= m < i ==> wf_word(#[trigger] dv[m]),
                forall|m: int, k: int|
                    #![trigger dv[m], dv[k]]
                    0 <= m && k == m + 1 && k < i ==> lex_lt(dv[m], dv[k]),
                i > 0 ==> prev@ == dv[i - 1],
            decreases DICT_WORDS - i,
        {
            proof {
                assert(dv[i as int] == words@[i as int]@);
            }
            let w = &words[i];
            if !wf_word_check(w.as_str()) {
                proof {
                    assert(!wf_word(dv[i as int]));
                }
                return None;
            }
            let cur = str_to_chars(w.as_str());
            if i > 0 && lex_cmp_chars(&prev, &cur) >= 0 {
                proof {
                    assert(!lex_lt(dv[i - 1], dv[i as int]));
                }
                return None;
            }
            prev = cur;
            i = i + 1;
        }
        Some(Dictionary { words })
    }

    /// The word at a given index, as its own `String`.
    pub fn word_at(&self, i: usize) -> (w: String)
        requires
            i < DICT_WORDS,
        ensures
            w@ == self@[i as int],
    {
        proof {
            use_type_invariant(self);
        }
        self.words[i].clone()
    }

    /// Binary search for a word: the index holding exactly `target`, or
    /// `None` when no entry holds it.
    pub fn find_word_index(&self, target: &Vec<char>) -> (r: Option<u16>)
        ensures
            match r {
                Some(i) => (i as int) < self@.len() && self@[i as int] == target@,
                None => forall|i: int| 0 <= i < self@.len() ==> self@[i] != target@,
            },
    {
        proof {
            use_type_invariant(self);
        }
        let mut lo: usize = 0;
        let mut hi: usize = self.words.len();
        while lo < hi
            invariant
                wf_dict(self@),
                self@ == self.words.deep_view(),
                self@.len() == self.words@.len(),
                lo <= hi <= self@.len(),
                forall|i: int| 0 <= i < lo ==> lex_lt(#[trigger] self@[i], target@),
                forall|i: int| hi <= i < self@.len() ==> lex_lt(target@, #[trigger] self@[i]),
            decreases hi - lo,
        {
            let mid = lo + (hi - lo) / 2;
            let wchars = str_to_chars(self.words[mid].as_str());
            let c = lex_cmp_chars(&wchars, target);
            if c < 0 {
                proof {
                    assert forall|i: int| 0 <= i < mid + 1 implies lex_lt(
                        #[trigger] self@[i],
                        target@,
                    ) by {
                        if i < mid {
                            lemma_wf_dict_sorted(self@, i, mid as int);
                            lemma_lex_lt_transitive(self@[i], self@[mid as int], target@);
                        }
                    }
                }
                lo = mid + 1;
            } else if c > 0 {
                proof {
                    assert forall|i: int| mid <= i < self@.len() implies lex_lt(
                        target@,
                        #[trigger] self@[i],
                    ) by {
                        if i > mid {
                            lemma_wf_dict_sorted(self@, mid as int, i);
                            lemma_lex_lt_transitive(target@, self@[mid as int], self@[i]);
                        }
                    }
                }
                hi = mid;
            } else {
                return Some(mid as u16);
            }
        }
        proof {
            assert forall|i: int| 0 <= i < self@.len() implies self@[i] != target@ by {
                if i < lo {
                    lemma_lex_lt_ne(self@[i], target@);
                } else {
                    lemma_lex_lt_ne(target@, self@[i]);
                }
            }
        }
        None
    }
}

/// The characters of a string slice, collected one by one.
pub(crate) fn str_to_chars(s: &str) -> (r: Vec<char>)
    ensures
        r@ == s@,
{
    let n = s.unicode_len();
    let mut r: Vec<char> = Vec::new();
    let mut i: usize = 0;
    while i < n
        invariant
            n == s@.len(),
            0 <= i <= n,
            r@ == s@.take(i as int),
        decreases n - i,
    {
        let c = s.get_char(i);
        r.push(c);
        i = i + 1;
        proof {
            assert(r@ =~= s@.take(i as int));
        }
    }
    proof {
        assert(s@.take(n as int) =~= s@);
    }
    r
}

/// Whether a string is a well-formed dictionary word.
pub(crate) fn wf_word_check(s: &str) -> (r: bool)
    ensures
        r == wf_word(s@),
{
    let n = s.unicode_len();
    if n < 1 || n > MAX_WORD_LEN {
        return false;
    }
    let mut j: usize = 0;
    while j < n
        invariant
            n == s@.len(),
            1 <= n <= MAX_WORD_LEN,
            0 <= j <= n,
            forall|m: int| 0 <= m < j ==> lower_ascii_char(#[trigger] s@[m]),
        decreases n - j,
    {
        let c = s.get_char(j);
        let x = c as u32;
        if x > 127 {
            return false;
        }
        if 65 <= x && x <= 90 {
            return false;
        }
        j = j + 1;
    }
    true
}

/// Three-way lexicographic comparison of two character sequences: negative,
/// zero or positive as `a` comes before, equals or comes after `b`.
pub(crate) fn lex_cmp_chars(a: &Vec<char>, b: &Vec<char>) -> (r: i8)
    ensures
        (r == 0) <==> (a@ == b@),
        (r < 0) <==> lex_lt(a@, b@),
        (r > 0) <==> lex_lt(b@, a@),
{
    let na = a.len();
    let nb = b.len();
    let n = if na < nb {
        na
    } else {
        nb
    };
    let mut j: usize = 0;
    while j < n
        invariant
            na == a@.len(),
            nb == b@.len(),
            n == if na < nb {
                na
            } else {
                nb
            },
            0 <= j <= n,
            forall|m: int| 0 <= m < j ==> a@[m] == b@[m],
        decreases n - j,
    {
        let ca = a[j];
        let cb = b[j];
        if ca < cb {
            proof {
                lemma_lex_lt_from_diff(a@, b@, j as int);
                lemma_lex_lt_ne(a@, b@);
                lemma_lex_lt_exclusive(a@, b@);
            }
            return -1;
        }
        if ca > cb {
            proof {
                lemma_lex_lt_from_diff(b@, a@, j as int);
                lemma_lex_lt_ne(b@, a@);
                lemma_lex_lt_exclusive(b@, a@);
            }
            return 1;
        }
        j = j + 1;
    }
    if na < nb {
        proof {
            lemma_lex_lt_from_prefix(a@, b@);
            lemma_lex_lt_ne(a@, b@);
            lemma_lex_lt_exclusive(a@, b@);
        }
        return -1;
    }
    if nb < na {
        proof {
            lemma_lex_lt_from_prefix(b@, a@);
            lemma_lex_lt_ne(b@, a@);
            lemma_lex_lt_exclusive(b@, a@);
        }
        return 1;
    }
    proof {
        assert(a@ =~= b@);
        lemma_lex_lt_irreflexive(a@);
    }
    0
}

/// Strict order in one direction rules it out in the other.
proof fn lemma_lex_lt_exclusive(a: Seq<char>, b: Seq<char>)
    requires
        lex_lt(a, b),
    ensures
        !lex_lt(b, a),
{
    if lex_lt(b, a) {
        lemma_lex_lt_transitive(a, b, a);
        lemma_lex_lt_irreflexive(a);
    }
}

} // verus!
