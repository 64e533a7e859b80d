//! Decoding errors.

use vstd::prelude::*;

verus! {

/// Errors that can occur while decoding a datagram.
#[derive(Debug, Clone, Copy, PartialEq, Eq)]
pub enum DecodeError {
    /// The buffer ended before all expected bytes were read.
    UnexpectedEof,
    /// The first byte does not correspond to any known packet kind.
    UnknownKind(u8),
    /// A field value was out of range or otherwise invalid; names the field.
    InvalidField(&'static str),
}

} // verus!
