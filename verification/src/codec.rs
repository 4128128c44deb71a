//! The codec: byte buffers to passphrases and back.
//!
//! Each consecutive big-endian byte pair of the input names one dictionary
//! index, and the passphrase holds the word at that index; decoding resolves
//! each token case-insensitively and emits its index as two bytes. The two
//! directions are mutual inverses, proved by [`lemma_decode_encode`] and
//! [`lemma_encode_decode`].

use vstd::arithmetic::div_mod::lemma_fundamental_div_mod;
use vstd::arithmetic::div_mod::lemma_fundamental_div_mod_converse;
use vstd::prelude::*;

use crate::dict::lemma_wf_dict_distinct;
use crate::dict::wf_dict;
use crate::dict::wf_word;
use crate::dict::Dictionary;
use crate::error::Error;
use crate::order::lower_char;
use crate::order::lower_word;
use crate::MAX_WORD_LEN;

verus! {

/// The dictionary index named by one big-endian byte pair.
pub open spec fn pair_to_index(b0: u8, b1: u8) -> int {
    b0 * 256 + b1
}

/// The passphrase that a byte buffer encodes to: one word per byte pair, in
/// input order. Meaningful when the buffer's length is even.
pub open spec fn spec_encode(d: Seq<Seq<char>>, bytes: Seq<u8>) -> Seq<Seq<char>> {
    Seq::new(bytes.len() / 2, |k: int| d[pair_to_index(bytes[2 * k], bytes[2 * k + 1])])
}

/// Whether a token resolves in the dictionary: some entry holds its ASCII
/// lowercase image.
pub open spec fn token_known(d: Seq<Seq<char>>, w: Seq<char>) -> bool {
    exists|i: int| 0 <= i < d.len() && d[i] == lower_word(w)
}

/// The dictionary index a token resolves to; meaningful when the token is
/// known, and then unique in a well-formed dictionary.
pub open spec fn token_index(d: Seq<Seq<char>>, w: Seq<char>) -> int {
    choose|i: int| 0 <= i < d.len() && d[i] == lower_word(w)
}

/// Whether every token of a passphrase resolves in the dictionary.
pub open spec fn all_tokens_known(d: Seq<Seq<char>>, ws: Seq<Seq<char>>) -> bool {
    forall|k: int| 0 <= k < ws.len() ==> token_known(d, #[trigger] ws[k])
}

/// The byte buffer that a passphrase decodes to: each token's index as a
/// big-endian byte pair, in input order. Meaningful when every token is known.
pub open spec fn spec_decode(d: Seq<Seq<char>>, ws: Seq<Seq<char>>) -> Seq<u8> {
    Seq::new(
        2 * ws.len(),
        |j: int|
            if j % 2 == 0 {
                (token_index(d, ws[j / 2]) / 256) as u8
            } else {
                (token_index(d, ws[j / 2]) % 256) as u8
            },
    )
}

/// The word standing for one big-endian byte pair.
pub fn byte_pair_to_word(dict: &Dictionary, pair: [u8; 2]) -> (w: String)
    ensures
        w@ == dict@[pair_to_index(pair@[0], pair@[1])],
{
    let idx: usize = (pair[0] as usize) * 256 + (pair[1] as usize);
    dict.word_at(idx)
}

/// Encodes a byte buffer as a passphrase, one word per big-endian byte pair,
/// in input order; an odd-length buffer is rejected with its length.
pub fn bytes_to_pass_phrase(dict: &Dictionary, bytes: &[u8]) -> (r: Result<Vec<String>, Error>)
    ensures
        match r {
            Ok(words) => bytes@.len() % 2 == 0 && words.deep_view() == spec_encode(dict@, bytes@),
            Err(e) => bytes@.len() % 2 != 0 && e == (Error::InvalidSize { size: bytes@.len() as usize }),
        },
{
    let n = bytes.len();
    if n % 2 != 0 {
        return Err(Error::InvalidSize { size: n });
    }
    let half = n / 2;
    let mut words: Vec<String> = Vec::new();
    let mut k: usize = 0;
    while k < half
        invariant
            n == bytes@.len(),
            n % 2 == 0,
            half == n / 2,
            0 <= k <= half,
            words@.len() == k,
            forall|m: int| 0 <= m < k ==> words@[m]@ == spec_encode(dict@, bytes@)[m],
        decreases half - k,
    {
        let w = byte_pair_to_word(dict, [bytes[2 * k], bytes[2 * k + 1]]);
        words.push(w);
        k = k + 1;
    }
    proof {
        assert(words.deep_view() =~= spec_encode(dict@, bytes@));
    }
    Ok(words)
}

/// Decodes a passphrase back to bytes: each token is matched
/// case-insensitively against the dictionary and its index emitted as a
/// big-endian byte pair. The first token that matches nothing aborts the call
/// with that token, as given.
pub fn passphrase_to_bytes(dict: &Dictionary, words: &[&str]) -> (r: Result<Vec<u8>, Error>)
    ensures
        match r {
            Ok(bytes) => {
                &&& all_tokens_known(dict@, words.deep_view())
                &&& bytes@ == spec_decode(dict@, words.deep_view())
            },
            Err(e) => exists|k: int|
                {
                    &&& 0 <= k < words.deep_view().len()
                    &&& !token_known(dict@, #[trigger] words.deep_view()[k])
                    &&& forall|m: int| 0 <= m < k ==> token_known(dict@, #[trigger] words.deep_view()[m])
                    &&& (e matches Error::UnknownWord { word } && word@ == words.deep_view()[k])
                },
        },
{
    let ghost ws = words.deep_view();
    let n = words.len();
    let mut bytes: Vec<u8> = Vec::new();
    let mut k: usize = 0;
    while k < n
        invariant
            ws == words.deep_view(),
            n == words@.len(),
            ws.len() == n,
            0 <= k <= n,
            forall|m: int| 0 <= m < k ==> token_known(dict@, #[trigger] ws[m]),
            bytes@.len() == 2 * k,
            forall|j: int| 0 <= j < 2 * k ==> bytes@[j] == spec_decode(dict@, ws)[j],
        decreases n - k,
    {
        proof {
            assert(ws[k as int] == words@[k as int]@);
        }
        let token: &str = words[k];
        if token.unicode_len() > MAX_WORD_LEN {
            proof {
                use_type_invariant(dict);
                assert forall|i: int| 0 <= i < dict@.len() implies dict@[i] != lower_word(
                    ws[k as int],
                ) by {
                    assert(wf_word(dict@[i]));
                    assert(lower_word(ws[k as int]).len() == ws[k as int].len());
                }
            }
            return Err(Error::UnknownWord { word: token.to_owned() });
        }
        let target = lower_token(token);
        match dict.find_word_index(&target) {
            Some(i) => {
                proof {
                    use_type_invariant(dict);
                    assert(dict@[i as int] == lower_word(ws[k as int]));
                    let ti = token_index(dict@, ws[k as int]);
                    assert(0 <= ti < dict@.len() && dict@[ti] == lower_word(ws[k as int]));
                    lemma_wf_dict_distinct(dict@, ti, i as int);
                }
                let hi = (i / 256) as u8;
                let lo = (i % 256) as u8;
                bytes.push(hi);
                bytes.push(lo);
                proof {
                    let ti = token_index(dict@, ws[k as int]);
                    assert(2 * (k as int) % 2 == 0);
                    assert((2 * (k as int) + 1) % 2 == 1);
                    assert((2 * (k as int)) / 2 == k as int);
                    assert((2 * (k as int) + 1) / 2 == k as int);
                    assert(bytes@[2 * (k as int)] == spec_decode(dict@, ws)[2 * (k as int)]);
                    assert(bytes@[2 * (k as int) + 1] == spec_decode(dict@, ws)[2 * (k as int)
                        + 1]);
                }
            },
            None => {
                return Err(Error::UnknownWord { word: token.to_owned() });
            },
        }
        k = k + 1;
    }
    proof {
        assert(bytes@ =~= spec_decode(dict@, ws));
    }
    Ok(bytes)
}

/// The ASCII lowercase image of a token, as a character vector.
fn lower_token(s: &str) -> (r: Vec<char>)
    ensures
        r@ == lower_word(s@),
{
    let n = s.unicode_len();
    let mut r: Vec<char> = Vec::new();
    let mut i: usize = 0;
    while i < n
        invariant
            n == s@.len(),
            0 <= i <= n,
            r@.len() == i,
            forall|m: int| 0 <= m < i ==> r@[m] == lower_char(#[trigger] s@[m]),
        decreases n - i,
    {
        let c = s.get_char(i);
        let lc = if 'A' <= c && c <= 'Z' {
            (((c as u8) + 32) as char)
        } else {
            c
        };
        r.push(lc);
        i = i + 1;
    }
    proof {
        assert(r@ =~= lower_word(s@));
    }
    r
}

/// Round trip, bytes first: decoding the passphrase that an even-length byte
/// buffer encodes to gives back exactly that buffer, and every word of the
/// passphrase is a known token.
pub proof fn lemma_decode_encode(d: Seq<Seq<char>>, bytes: Seq<u8>)
    requires
        wf_dict(d),
        bytes.len() % 2 == 0,
    ensures
        all_tokens_known(d, spec_encode(d, bytes)),
        spec_decode(d, spec_encode(d, bytes)) == bytes,
{
    let ws = spec_encode(d, bytes);
    assert forall|k: int| 0 <= k < ws.len() implies token_known(d, #[trigger] ws[k]) by {
        let idx = pair_to_index(bytes[2 * k], bytes[2 * k + 1]);
        lemma_lower_word_fixed(d[idx]);
        assert(0 <= idx < d.len() && d[idx] == lower_word(ws[k]));
    }
    assert forall|j: int| 0 <= j < bytes.len() implies spec_decode(d, ws)[j] == bytes[j] by {
        let k = j / 2;
        let b0 = bytes[2 * k];
        let b1 = bytes[2 * k + 1];
        let idx = pair_to_index(b0, b1);
        lemma_lower_word_fixed(d[idx]);
        assert(0 <= idx < d.len() && d[idx] == lower_word(ws[k]));
        let ti = token_index(d, ws[k]);
        assert(0 <= ti < d.len() && d[ti] == lower_word(ws[k]));
        lemma_wf_dict_distinct(d, ti, idx);
        lemma_fundamental_div_mod_converse(idx, 256, b0 as int, b1 as int);
        assert(j == 2 * k || j == 2 * k + 1);
    }
    assert(spec_decode(d, ws) =~= bytes);
}

/// Round trip, words first: encoding the bytes that a passphrase of known
/// tokens decodes to gives back the passphrase with every token lowercased.
pub proof fn lemma_encode_decode(d: Seq<Seq<char>>, ws: Seq<Seq<char>>)
    requires
        wf_dict(d),
        all_tokens_known(d, ws),
    ensures
        spec_decode(d, ws).len() == 2 * ws.len(),
        spec_encode(d, spec_decode(d, ws)) == ws.map_values(|w: Seq<char>| lower_word(w)),
{
    let bytes = spec_decode(d, ws);
    assert forall|k: int| 0 <= k < ws.len() implies spec_encode(d, bytes)[k] == lower_word(
        ws[k],
    ) by {
        let ti = token_index(d, ws[k]);
        assert(token_known(d, ws[k]));
        assert(0 <= ti < d.len() && d[ti] == lower_word(ws[k]));
        lemma_fundamental_div_mod(ti, 256);
        assert((2 * k) % 2 == 0);
        assert((2 * k + 1) % 2 == 1);
        assert((2 * k) / 2 == k);
        assert((2 * k + 1) / 2 == k);
        assert(bytes[2 * k] == (ti / 256) as u8);
        assert(bytes[2 * k + 1] == (ti % 256) as u8);
        assert(pair_to_index(bytes[2 * k], bytes[2 * k + 1]) == ti);
    }
    assert(spec_encode(d, bytes) =~= ws.map_values(|w: Seq<char>| lower_word(w)));
}

/// Lowercasing leaves a well-formed dictionary word unchanged.
proof fn lemma_lower_word_fixed(w: Seq<char>)
    requires
        wf_word(w),
    ensures
        lower_word(w) == w,
{
    assert(lower_word(w) =~= w);
}

} // verus!
