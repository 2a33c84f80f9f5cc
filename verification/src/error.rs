//! The library's error type.
use vstd::prelude::*;

verus! {

/// Why an operation failed; each variant carries a message.
#[derive(Debug)]
pub enum GudfError {
    UnsupportedFormat(String),
    ParseError(String),
    PatchError(String),
    Io(String),
}

} // verus!
