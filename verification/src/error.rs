//! The failure taxonomy of the decoder.

use vstd::prelude::*;
use vstd::string::StringExecFns;
use crate::numeral::{append_dec_u64, dec_digits};

verus! {

/// The mathematical shape of a decode failure.
pub enum DecodeErr {
    Io,
    Decoding(Seq<char>, int),
}

/// A failure while decoding a document: a stream-level failure (the
/// data ran out, or a text field held malformed UTF-8), which carries
/// no structural context, or a structural failure with a message and
/// the count of bytes consumed when it was raised.
#[derive(Debug, PartialEq)]
pub enum NBTError {
    Io,
    Decoding(String, usize),
}

impl View for NBTError {
    type V = DecodeErr;

    open spec fn view(&self) -> DecodeErr {
        match self {
            NBTError::Io => DecodeErr::Io,
            NBTError::Decoding(msg, pos) => DecodeErr::Decoding(msg@, *pos as int),
        }
    }
}

/// The text that `describe` renders for a failure.
pub open spec fn error_text(e: DecodeErr) -> Seq<char> {
    match e {
        DecodeErr::Io => "Input/Output error"@,
        DecodeErr::Decoding(msg, pos) => "Decoding failed (just before byte "@ + dec_digits(
            pos as nat,
        ) + "): "@ + msg,
    }
}

impl NBTError {
    /// One line describing the failure.
    pub fn describe(&self) -> (r: String)
        ensures
            r@ == error_text(self@),
    {
        match self {
            NBTError::Io => String::from_str("Input/Output error"),
            NBTError::Decoding(msg, pos) => {
                let mut s = String::from_str("Decoding failed (just before byte ");
                append_dec_u64(&mut s, *pos as u64);
                s.append("): ");
                s.append(msg.as_str());
                proof {
                    assert(s@ =~= error_text(self@));
                }
                s
            },
        }
    }
}

} // verus!
