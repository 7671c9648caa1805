//! The errors a container can be rejected with.

use vstd::prelude::*;
use vstd::string::StringExecFns;

verus! {

/// Why a container, or a request on it, was rejected.
#[derive(Debug, Clone, Copy, PartialEq, Eq)]
pub enum Error {
    /// The bytes are not a well-formed container: wrong signature, unknown
    /// byte order mark, a chain or a count that contradicts the header, a
    /// directory record of unknown kind or colour.
    InvalidFormat,
    /// The container is of a form this reader does not handle (big-endian).
    Unsupported,
    /// A declared size or count that the buffer cannot satisfy. The text
    /// names what was wrong.
    BadSizeValue(&'static str),
    /// A stream was requested of an entry that holds no bytes.
    EmptyEntry,
}

impl Error {
    /// The error in words.
    pub open spec fn message_text(self) -> Seq<char> {
        match self {
            Error::InvalidFormat => "Invalid OLE File"@,
            Error::Unsupported => "Method not implemented yet"@,
            Error::BadSizeValue(what) => "Bad size Value "@ + what@,
            Error::EmptyEntry => "Empty entry"@,
        }
    }

    /// Returns the error in words.
    pub fn message(&self) -> (text: String)
        ensures
            text@ == self.message_text(),
    {
        match *self {
            Error::InvalidFormat => String::from_str("Invalid OLE File"),
            Error::Unsupported => String::from_str("Method not implemented yet"),
            Error::BadSizeValue(what) => String::from_str("Bad size Value ").concat(what),
            Error::EmptyEntry => String::from_str("Empty entry"),
        }
    }
}

} // verus!
