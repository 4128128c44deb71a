//! The passphrase generator: secure random bytes, encoded as words.

use vstd::prelude::*;

use crate::codec::bytes_to_pass_phrase;
use crate::codec::pair_to_index;
use crate::codec::spec_encode;
use crate::dict::Dictionary;
use crate::error::Error;
use crate::MAX_PASSPHRASE_WORDS;

verus! {

/// Relies on `rand::thread_rng` and `rand::Rng::try_fill` on a byte slice:
/// the call fills the whole buffer from the thread-local CSPRNG or reports
/// the generator's failure. Nothing is assumed of the bytes drawn; the buffer
/// keeps its length either way, and a failure is handed on as its message.
#[verifier::external_body]
fn fill_random(buf: &mut Vec<u8>) -> (r: Result<(), String>)
    ensures
        final(buf)@.len() == old(buf)@.len(),
{
    match rand::Rng::try_fill(&mut rand::thread_rng(), buf.as_mut_slice()) {
        Ok(()) => Ok(()),
        Err(e) => Err(format!("{}", e)),
    }
}

/// Generates a passphrase of the requested number of words from secure random
/// bytes: on success exactly `num_words` words, the encoding of some buffer of
/// twice as many bytes. A request above [`crate::MAX_PASSPHRASE_WORDS`] is
/// refused with both counts; only a failure of the random source is reported
/// as [`Error::RNGError`].
pub fn generate_passphrase(dict: &Dictionary, num_words: u16) -> (r: Result<Vec<String>, Error>)
    ensures
        match r {
            Ok(words) => {
                &&& num_words <= MAX_PASSPHRASE_WORDS
                &&& words@.len() == num_words as int
                &&& forall|k: int| 0 <= k < words@.len() ==> dict@.contains(#[trigger] words@[k]@)
                &&& exists|bytes: Seq<u8>|
                    #![auto]
                    bytes.len() == 2 * (num_words as int) && words.deep_view() == spec_encode(
                        dict@,
                        bytes,
                    )
            },
            Err(e) => {
                ||| (num_words > MAX_PASSPHRASE_WORDS && e == (Error::TooManyWords {
                    num_words: num_words as usize,
                    max_words: MAX_PASSPHRASE_WORDS as usize,
                }))
                ||| (num_words <= MAX_PASSPHRASE_WORDS && e matches Error::RNGError { .. })
            },
        },
{
    if num_words > MAX_PASSPHRASE_WORDS {
        return Err(
            Error::TooManyWords {
                num_words: num_words as usize,
                max_words: MAX_PASSPHRASE_WORDS as usize,
            },
        );
    }
    let total: usize = (num_words as usize) * 2;
    let mut bytes: Vec<u8> = Vec::new();
    let mut i: usize = 0;
    while i < total
        invariant
            0 <= i <= total,
            bytes@.len() == i,
        decreases total - i,
    {
        bytes.push(0);
        i = i + 1;
    }
    match fill_random(&mut bytes) {
        Ok(()) => {},
        Err(inner) => {
            return Err(Error::RNGError { inner });
        },
    }
    match bytes_to_pass_phrase(dict, bytes.as_slice()) {
        Ok(words) => {
            proof {
                use_type_invariant(dict);
                assert(bytes@.len() == 2 * (num_words as int) && words.deep_view() == spec_encode(
                    dict@,
                    bytes@,
                ));
                assert(words@.len() == words.deep_view().len());
                assert(words.deep_view().len() == bytes@.len() / 2);
                assert forall|k: int| 0 <= k < words@.len() implies dict@.contains(
                    #[trigger] words@[k]@,
                ) by {
                    assert(words.deep_view().len() == bytes@.len() / 2);
                    let b0 = bytes@[2 * k];
                    let b1 = bytes@[2 * k + 1];
                    assert(words@[k]@ == words.deep_view()[k]);
                    assert(words.deep_view()[k] == spec_encode(dict@, bytes@)[k]);
                    assert(spec_encode(dict@, bytes@)[k] == dict@[pair_to_index(b0, b1)]);
                    assert(0 <= pair_to_index(b0, b1) < dict@.len());
                }
            }
            Ok(words)
        },
        Err(e) => {
            proof {
                assert(false);
            }
            Err(e)
        },
    }
}

} // verus!
