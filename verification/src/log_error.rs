//! The error taxonomy of the log store: I/O failures, failures of the
//! binary encoding and decoding, policy rejections, and oversized entries.

use vstd::prelude::*;

verus! {

/// `std::io::Error`, declared so that it can be carried in [`Error`].
#[verifier::external_type_specification]
#[verifier::external_body]
pub struct ExIoError(std::io::Error);

/// A value could not be written in the binary format.
#[derive(Debug, Clone, Copy, PartialEq, Eq, Structural)]
pub enum EncodeError {
    /// A string, sequence or mapping is longer than the format's
    /// 32-bit length fields can describe.
    TooLong,
}

/// Bytes could not be read back as the binary format.
#[derive(Debug, Clone, Copy, PartialEq, Eq, Structural)]
pub enum DecodeError {
    /// The bytes do not follow the expected schema.
    Malformed,
    /// The header's version field is not one this implementation supports.
    VersionMismatch,
}

/// Every failure a store operation can surface.
#[derive(Debug)]
pub enum Error {
    /// A filesystem or mapping failure.
    IOErr(std::io::Error),
    /// A value could not be serialized into the binary schema.
    MsgPackEncode(EncodeError),
    /// Bytes did not parse as the expected binary schema.
    MsgPackDecode(DecodeError),
    /// The entry was excluded by the store's audit-only or level-mask
    /// configuration; a normal filtering outcome, not a fault.
    PolicyRejected,
    /// A single entry cannot fit in the entry region even after wraparound.
    EntryTooLarge,
}

} // verus!
