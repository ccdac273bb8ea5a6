//! Error types shared by the decoding stages.

use vstd::prelude::*;

verus! {

/// Failure of a byte cursor.
#[derive(Debug, Clone, Copy, PartialEq, Eq)]
pub enum ReaderErr {
    /// The cursor ran out of bytes.
    NotEnoughData,
    /// A variable-length integer does not fit in 64 bits.
    VarintOverflow,
}

/// Failure of the shared entropy-coding framing.
#[derive(Debug, Clone, Copy, PartialEq, Eq)]
pub enum EntropyErr {
    /// The symbol-coding method byte names no known method.
    InvalidSymbolMethod(u8),
    /// The frequency table does not sum to the declared precision.
    InvalidFrequencyTable,
    /// The rANS precision lies outside `1..=20`.
    InvalidPrecision,
}

/// Errors produced while decoding a draco stream.
#[derive(Debug, Clone, Copy, PartialEq, Eq)]
pub enum DecodeError {
    /// The stream declares more data than could be allocated.
    AllocationTooLarge(&'static str),
    /// A shared entropy-coding error (frequency table, symbol method, etc.).
    Entropy(EntropyErr),
    /// A symbol bit-length byte outside the valid range.
    InvalidBitLength(u8),
    /// The stream header is malformed (bad magic or field).
    InvalidHeader(&'static str),
    /// The attribute section is inconsistent (bad descriptor or payload).
    MalformedAttribute(&'static str),
    /// The connectivity stream is inconsistent (bad symbol/split data).
    MalformedConnectivity(&'static str),
    /// The metadata section is inconsistent.
    MalformedMetadata(&'static str),
    /// A byte reader ran out of data or otherwise failed.
    Reader(ReaderErr),
    /// The requested decode path is not implemented.
    Unimplemented,
    /// A point-cloud stream reached a mesh entry point.
    UnsupportedPointCloud,
    /// The bitstream version is not supported.
    UnsupportedVersion(u8, u8),
}

impl From<ReaderErr> for DecodeError {
    fn from(e: ReaderErr) -> (r: Self) {
        DecodeError::Reader(e)
    }
}

impl vstd::std_specs::convert::FromSpecImpl<ReaderErr> for DecodeError {
    open spec fn obeys_from_spec() -> bool {
        true
    }

    open spec fn from_spec(e: ReaderErr) -> Self {
        DecodeError::Reader(e)
    }
}

} // verus!
