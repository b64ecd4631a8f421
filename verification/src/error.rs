//! The library's error type.
use vstd::prelude::*;

use crate::codec::io_error_text;
use crate::text::{concat, decimal, decimal_string};

verus! {

/// `std::io::Error`, carried through from the compression library.
#[verifier::external_type_specification]
#[verifier::external_body]
pub struct ExIoError(std::io::Error);

#[derive(Debug)]
pub enum Error {
    Io(std::io::Error),
    InvalidFormat(String),
    UnsupportedVersion(u16),
    NotFound(String),
    NotAFile(String),
    InvalidPath(String),
    CorruptChunk { path: String, chunk: usize, reason: String },
}

impl Error {
    /// The error's text, as it is shown to a user.
    pub fn message(&self) -> (r: String)
        ensures
            match self {
                Error::Io(_) => r@.subrange(0, "I/O error: "@.len() as int) == "I/O error: "@,
                Error::InvalidFormat(m) => r@ == "invalid archive: "@ + m@,
                Error::UnsupportedVersion(v) => r@ == "unsupported archive version "@ + decimal(*v as nat),
                Error::NotFound(p) => r@ == "archive path not found: "@ + p@,
                Error::NotAFile(p) => r@ == "archive entry is not a regular file: "@ + p@,
                Error::InvalidPath(p) => r@ == "unsafe or unsupported path: "@ + p@,
                Error::CorruptChunk { path, chunk, reason } => r@ == "corrupt chunk "@ + decimal(*chunk as nat) + " in "@
                    + path@ + ": "@ + reason@,
            },
    {
        match self {
            Error::Io(e) => {
                let r = concat("I/O error: ", io_error_text(e).as_str());
                assert(r@.subrange(0, "I/O error: "@.len() as int) =~= "I/O error: "@);
                r
            },
            Error::InvalidFormat(m) => concat("invalid archive: ", m.as_str()),
            Error::UnsupportedVersion(v) => concat("unsupported archive version ", decimal_string(*v as u64).as_str()),
            Error::NotFound(p) => concat("archive path not found: ", p.as_str()),
            Error::NotAFile(p) => concat("archive entry is not a regular file: ", p.as_str()),
            Error::InvalidPath(p) => concat("unsafe or unsupported path: ", p.as_str()),
            Error::CorruptChunk { path, chunk, reason } => {
                let mut r = concat("corrupt chunk ", decimal_string(*chunk as u64).as_str());
                r.append(" in ");
                r.append(path.as_str());
                r.append(": ");
                r.append(reason.as_str());
                r
            },
        }
    }
}

/// Results of this library.
pub type Result<T> = std::result::Result<T, Error>;

} // verus!
