//! A lazy variant of encoding: the byte pairs are kept and turned into words
//! one at a time, with joining and size-hint conveniences over whatever is
//! still to come.

use vstd::prelude::*;

use crate::codec::byte_pair_to_word;
use crate::codec::pair_to_index;
use crate::codec::spec_encode;
use crate::dict::Dictionary;
use crate::error::Error;

verus! {

/// Addition that stops at `usize::MAX` instead of overflowing.
pub open spec fn sat_add(a: int, b: int) -> int {
    if a + b > usize::MAX as int {
        usize::MAX as int
    } else {
        a + b
    }
}

/// The rendered size of a word sequence joined by a separator of the given
/// length, each addition saturating at `usize::MAX`.
pub open spec fn spec_bytes_hint(ws: Seq<Seq<char>>, sep_len: int) -> int
    decreases ws.len(),
{
    if ws.len() == 0 {
        0
    } else if ws.len() == 1 {
        ws[0].len() as int
    } else {
        sat_add(sat_add(spec_bytes_hint(ws.drop_last(), sep_len), ws.last().len() as int), sep_len)
    }
}

/// The words of a sequence joined by a separator: nothing for no words, and
/// the separator between each adjacent pair otherwise.
pub open spec fn spec_join(ws: Seq<Seq<char>>, sep: Seq<char>) -> Seq<char>
    decreases ws.len(),
{
    if ws.len() == 0 {
        Seq::empty()
    } else if ws.len() == 1 {
        ws[0]
    } else {
        spec_join(ws.drop_last(), sep) + sep + ws.last()
    }
}

/// The bytes of a pair sequence, flattened in order.
pub open spec fn pairs_flat(ps: Seq<[u8; 2]>) -> Seq<u8> {
    Seq::new(2 * ps.len(), |j: int| ps[j / 2]@[j % 2])
}

/// A passphrase in the making: holds an even number of bytes and hands out
/// the word of one byte pair at a time.
#[derive(Debug)]
pub struct BytesToPassphraseIter {
    bytes: Vec<u8>,
    pos: usize,
}

impl BytesToPassphraseIter {
    #[verifier::type_invariant]
    spec fn inv(self) -> bool {
        &&& self.pos <= self.bytes@.len()
        &&& self.pos % 2 == 0
        &&& self.bytes@.len() % 2 == 0
    }

    /// The bytes not yet turned into words; always of even length.
    pub closed spec fn remaining(self) -> Seq<u8> {
        self.bytes@.skip(self.pos as int)
    }

    /// The word of the next byte pair, consuming it; or nothing once every
    /// pair is spent.
    pub fn next(&mut self, dict: &Dictionary) -> (r: Option<String>)
        ensures
            match r {
                Some(w) => {
                    &&& old(self).remaining().len() >= 2
                    &&& w@ == dict@[pair_to_index(
                        old(self).remaining()[0],
                        old(self).remaining()[1],
                    )]
                    &&& final(self).remaining() == old(self).remaining().skip(2)
                },
                None => {
                    &&& old(self).remaining().len() == 0
                    &&& final(self).remaining() == old(self).remaining()
                },
            },
    {
        proof {
            use_type_invariant(&*self);
        }
        if self.pos < self.bytes.len() {
            let b0 = self.bytes[self.pos];
            let b1 = self.bytes[self.pos + 1];
            let w = byte_pair_to_word(dict, [b0, b1]);
            self.pos = self.pos + 2;
            proof {
                assert(self.remaining() =~= old(self).remaining().skip(2));
            }
            Some(w)
        } else {
            proof {
                assert(self.remaining() =~= old(self).remaining());
            }
            None
        }
    }

    /// How many words are still to come: exactly half the remaining bytes.
    pub fn size_hint(&self) -> (n: usize)
        ensures
            n == self.remaining().len() / 2,
    {
        proof {
            use_type_invariant(&*self);
        }
        (self.bytes.len() - self.pos) / 2
    }

    /// The number of bytes that the remaining words occupy when rendered with
    /// a separator of the given length between adjacent words, additions
    /// saturating at `usize::MAX`.
    pub fn bytes_hint(&self, dict: &Dictionary, separator_len: usize) -> (n: usize)
        ensures
            n == spec_bytes_hint(spec_encode(dict@, self.remaining()), separator_len as int),
    {
        proof {
            use_type_invariant(&*self);
        }
        let ghost ws = spec_encode(dict@, self.remaining());
        let end = self.bytes.len();
        let mut k = self.pos;
        if k >= end {
            return 0;
        }
        let w = byte_pair_to_word(dict, [self.bytes[k], self.bytes[k + 1]]);
        let mut size = w.as_str().unicode_len();
        proof {
            assert(self.remaining()[0] == self.bytes@[self.pos as int]);
            assert(self.remaining()[1] == self.bytes@[self.pos as int + 1]);
            assert(ws.take(1) =~= seq![ws[0]]);
        }
        k = k + 2;
        while k < end
            invariant
                end == self.bytes@.len(),
                self.pos <= k <= end,
                k % 2 == 0,
                self.pos % 2 == 0,
                end % 2 == 0,
                k > self.pos,
                ws == spec_encode(dict@, self.remaining()),
                ws.len() == (end - self.pos) / 2,
                size == spec_bytes_hint(ws.take((k - self.pos) / 2), separator_len as int),
            decreases end - k,
        {
            let ghost m = (k - self.pos) / 2;
            proof {
                assert(self.remaining()[2 * m] == self.bytes@[k as int]);
                assert(self.remaining()[2 * m + 1] == self.bytes@[k as int + 1]);
            }
            let w = byte_pair_to_word(dict, [self.bytes[k], self.bytes[k + 1]]);
            let wl = w.as_str().unicode_len();
            size = size.saturating_add(wl).saturating_add(separator_len);
            k = k + 2;
            proof {
                assert(ws.take(m + 1).drop_last() =~= ws.take(m));
                assert(ws.take(m + 1).last() == ws[m]);
            }
        }
        proof {
            assert(ws.take((end - self.pos) / 2) =~= ws);
        }
        size
    }

    /// The remaining words joined into one string, the separator between each
    /// adjacent pair.
    pub fn join(&self, dict: &Dictionary, separator: &str) -> (s: String)
        ensures
            s@ == spec_join(spec_encode(dict@, self.remaining()), separator@),
    {
        proof {
            use_type_invariant(&*self);
        }
        let ghost ws = spec_encode(dict@, self.remaining());
        let end = self.bytes.len();
        let mut k = self.pos;
        let mut s = String::new();
        if k >= end {
            return s;
        }
        let w = byte_pair_to_word(dict, [self.bytes[k], self.bytes[k + 1]]);
        s.append(w.as_str());
        proof {
            assert(self.remaining()[0] == self.bytes@[self.pos as int]);
            assert(self.remaining()[1] == self.bytes@[self.pos as int + 1]);
            assert(s@ =~= ws[0]);
            assert(ws.take(1) =~= seq![ws[0]]);
        }
        k = k + 2;
        while k < end
            invariant
                end == self.bytes@.len(),
                self.pos <= k <= end,
                k % 2 == 0,
                self.pos % 2 == 0,
                end % 2 == 0,
                k > self.pos,
                ws == spec_encode(dict@, self.remaining()),
                ws.len() == (end - self.pos) / 2,
                s@ == spec_join(ws.take((k - self.pos) / 2), separator@),
            decreases end - k,
        {
            let ghost m = (k - self.pos) / 2;
            proof {
                assert(self.remaining()[2 * m] == self.bytes@[k as int]);
                assert(self.remaining()[2 * m + 1] == self.bytes@[k as int + 1]);
            }
            let w = byte_pair_to_word(dict, [self.bytes[k], self.bytes[k + 1]]);
            s.append(separator);
            s.append(w.as_str());
            k = k + 2;
            proof {
                assert(ws.take(m + 1).drop_last() =~= ws.take(m));
                assert(ws.take(m + 1).last() == ws[m]);
            }
        }
        proof {
            assert(ws.take((end - self.pos) / 2) =~= ws);
        }
        s
    }
}

/// Starts a lazy encoding from a sequence of byte pairs.
pub fn bytes_to_pass_phrase_iter(pairs: Vec<[u8; 2]>) -> (it: BytesToPassphraseIter)
    ensures
        it.remaining() == pairs_flat(pairs@),
{
    let n = pairs.len();
    let mut bytes: Vec<u8> = Vec::new();
    let mut i: usize = 0;
    while i < n
        invariant
            n == pairs@.len(),
            0 <= i <= n,
            bytes@.len() == 2 * i,
            forall|j: int| 0 <= j < 2 * i ==> bytes@[j] == pairs_flat(pairs@)[j],
        decreases n - i,
    {
        let p = pairs[i];
        bytes.push(p[0]);
        bytes.push(p[1]);
        i = i + 1;
        proof {
            assert((2 * (i - 1)) % 2 == 0);
            assert((2 * (i - 1) + 1) % 2 == 1);
            assert((2 * (i - 1)) / 2 == i - 1);
            assert((2 * (i - 1) + 1) / 2 == i - 1);
        }
    }
    let it = BytesToPassphraseIter { bytes, pos: 0 };
    proof {
        assert(it.remaining() =~= pairs_flat(pairs@));
    }
    it
}

/// Starts a lazy encoding from a byte slice; an odd-length slice is rejected
/// with its length.
pub fn bytes_to_pass_phrase_iter_from_slice(bytes: &[u8]) -> (r: Result<
    BytesToPassphraseIter,
    Error,
>)
    ensures
        match r {
            Ok(it) => bytes@.len() % 2 == 0 && it.remaining() == bytes@,
            Err(e) => bytes@.len() % 2 != 0 && e == (Error::InvalidSize { size: bytes@.len() as usize }),
        },
{
    let n = bytes.len();
    if n % 2 != 0 {
        return Err(Error::InvalidSize { size: n });
    }
    let v = vstd::slice::slice_to_vec(bytes);
    let it = BytesToPassphraseIter { bytes: v, pos: 0 };
    proof {
        assert(it.remaining() =~= bytes@);
    }
    Ok(it)
}

} // verus!
