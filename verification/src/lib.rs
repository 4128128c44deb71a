//! Reversible conversion between even-length byte buffers and passphrases of
//! dictionary words.
//!
//! Every word of the dictionary stands for exactly 16 bits: the word at
//! index `i` encodes the big-endian byte pair `(i / 256, i % 256)`. Encoding
//! maps each consecutive byte pair of the input to the word at the pair's
//! index; decoding resolves each token case-insensitively by binary search
//! over the sorted dictionary and emits the index back as two bytes. A
//! convenience generator draws random bytes and encodes them.
//!
//! The dictionary itself is data supplied by the caller; [`Dictionary::new`]
//! checks its invariants once (exactly 65,536 entries, strictly ascending,
//! ASCII lowercase, bounded length), and every other operation relies on
//! them.

use vstd::prelude::*;

mod codec;
mod dict;
mod error;
mod gen;
mod iter;
mod order;

pub use codec::bytes_to_pass_phrase;
pub use codec::byte_pair_to_word;
pub use codec::passphrase_to_bytes;
pub use codec::spec_encode;
pub use codec::spec_decode;
pub use codec::token_known;
pub use codec::token_index;
pub use codec::all_tokens_known;
pub use codec::pair_to_index;
pub use codec::lemma_decode_encode;
pub use codec::lemma_encode_decode;
pub use dict::Dictionary;
pub use dict::wf_dict;
pub use dict::wf_word;
pub use error::Error;
pub use error::spec_message;
pub use error::spec_decimal;
pub use error::decimal_string;
pub use gen::generate_passphrase;
pub use iter::BytesToPassphraseIter;
pub use iter::bytes_to_pass_phrase_iter;
pub use iter::bytes_to_pass_phrase_iter_from_slice;
pub use iter::spec_join;
pub use iter::spec_bytes_hint;
pub use iter::pairs_flat;
pub use iter::sat_add;
pub use order::lex_lt;
pub use order::lower_char;
pub use order::lower_word;

verus! {

/// Number of dictionary entries: one word for every 16-bit value.
pub const DICT_WORDS: usize = 65536;

/// Length of the longest dictionary word, in characters.
pub const MAX_WORD_LEN: usize = 28;

/// Largest word count that the passphrase generator accepts.
pub const MAX_PASSPHRASE_WORDS: u16 = 512;

} // verus!
