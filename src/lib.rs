//! Unaligned packed encoding rules (X.691 UPER) over a bit-addressable buffer.
//!
//! `bits` holds the mathematical model of bit sequences and their numeric
//! meaning, `state` the abstract state of a buffer, `encoding` what each
//! primitive puts on the wire and how it is decoded, `buffer` the bit buffer
//! and the UPER primitives with their contracts, `laws` the round-trip
//! properties, and `octetstring` the thin octet-string adapter.
use vstd::prelude::*;

pub mod bits;
pub mod buffer;
pub mod encoding;
pub mod laws;
pub mod octetstring;
pub mod state;

verus! {

/// Failures of the codec. None is recovered from internally.
#[derive(Debug, Clone, PartialEq, Eq)]
pub enum Error {
    /// A read went past the committed bits.
    EndOfStream,
    /// A destination slice cannot hold the requested bit range.
    InsufficientSpaceInDestinationBuffer,
    /// A source slice cannot supply the requested bit range.
    InsufficientDataInSourceBuffer,
    /// `(value, lower, upper)`: the value lies outside the inclusive range.
    ValueNotInRange(i64, i64, i64),
    /// A normally-small integer exceeds the largest representable value.
    ValueExceedsMaxInt,
    /// Decoded bytes are not valid UTF-8.
    InvalidUtf8String,
    /// An encoding shape that this codec deliberately does not implement.
    UnsupportedOperation(String),
}

} // verus!
