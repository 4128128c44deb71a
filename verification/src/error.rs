//! The failures of this library, with payloads that name the offending input,
//! and a plain-text rendering of each.

use vstd::prelude::*;

verus! {

/// Everything that can go wrong in this library.
#[derive(Debug)]
pub enum Error {
    /// An odd number of bytes was offered for encoding.
    InvalidSize { size: usize },
    /// A decode token matches no dictionary entry; carries the token as
    /// given, before lowercasing.
    UnknownWord { word: String },
    /// More words were requested than the generator allows.
    TooManyWords { num_words: usize, max_words: usize },
    /// The random source could not produce the requested bytes; carries the
    /// source's description of the failure.
    RNGError { inner: String },
}

/// The decimal digit character for one value below ten.
pub open spec fn dec_digit(n: int) -> char {
    (48 + n) as char
}

/// The decimal rendering of a number, most significant digit first, with no
/// leading zeros except for the number zero itself.
pub open spec fn spec_decimal(n: nat) -> Seq<char>
    decreases n,
{
    if n < 10 {
        seq![dec_digit(n as int)]
    } else {
        spec_decimal(n / 10) + seq![dec_digit((n % 10) as int)]
    }
}

/// The message text of each error.
pub open spec fn spec_message(e: Error) -> Seq<char> {
    match e {
        Error::InvalidSize { size } => "odd size not supported: "@ + spec_decimal(size as nat),
        Error::UnknownWord { word } => "unknown word: "@ + word@,
        Error::TooManyWords { num_words, max_words } => "number of words "@ + spec_decimal(
            num_words as nat,
        ) + " cannot be greater than "@ + spec_decimal(max_words as nat),
        Error::RNGError { inner } => "failed to generate entropy for passphrase: "@ + inner@,
    }
}

fn digit_str(d: usize) -> (s: &'static str)
    requires
        d < 10,
    ensures
        s@ == seq![dec_digit(d as int)],
{
    let s = if d == 0 {
        "0"
    } else if d == 1 {
        "1"
    } else if d == 2 {
        "2"
    } else if d == 3 {
        "3"
    } else if d == 4 {
        "4"
    } else if d == 5 {
        "5"
    } else if d == 6 {
        "6"
    } else if d == 7 {
        "7"
    } else if d == 8 {
        "8"
    } else {
        "9"
    };
    proof {
        reveal_strlit("0");
        reveal_strlit("1");
        reveal_strlit("2");
        reveal_strlit("3");
        reveal_strlit("4");
        reveal_strlit("5");
        reveal_strlit("6");
        reveal_strlit("7");
        reveal_strlit("8");
        reveal_strlit("9");
        assert(s@ =~= seq![dec_digit(d as int)]);
    }
    s
}

/// The decimal rendering of a number as a `String`.
pub fn decimal_string(n: usize) -> (s: String)
    ensures
        s@ == spec_decimal(n as nat),
    decreases n,
{
    if n < 10 {
        let mut s = String::new();
        s.append(digit_str(n));
        proof {
            assert(s@ =~= spec_decimal(n as nat));
        }
        s
    } else {
        let mut s = decimal_string(n / 10);
        s.append(digit_str(n % 10));
        proof {
            assert(s@ =~= spec_decimal(n as nat));
        }
        s
    }
}

impl Error {
    /// The message text of this error: what the offending input was, and the
    /// bound it broke where one applies.
    pub fn message(&self) -> (s: String)
        ensures
            s@ == spec_message(*self),
    {
        match self {
            Error::InvalidSize { size } => {
                let mut s = String::new();
                s.append("odd size not supported: ");
                let num = decimal_string(*size);
                s.append(num.as_str());
                proof {
                    assert(s@ =~= spec_message(*self));
                }
                s
            },
            Error::UnknownWord { word } => {
                let mut s = String::new();
                s.append("unknown word: ");
                s.append(word.as_str());
                proof {
                    assert(s@ =~= spec_message(*self));
                }
                s
            },
            Error::TooManyWords { num_words, max_words } => {
                let mut s = String::new();
                s.append("number of words ");
                let num = decimal_string(*num_words);
                s.append(num.as_str());
                s.append(" cannot be greater than ");
                let max = decimal_string(*max_words);
                s.append(max.as_str());
                proof {
                    assert(s@ =~= spec_message(*self));
                }
                s
            },
            Error::RNGError { inner } => {
                let mut s = String::new();
                s.append("failed to generate entropy for passphrase: ");
                s.append(inner.as_str());
                proof {
                    assert(s@ =~= spec_message(*self));
                }
                s
            },
        }
    }
}

} // verus!
