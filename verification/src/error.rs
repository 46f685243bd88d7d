//! Error taxonomy of the container reader.

use vstd::prelude::*;

verus! {

/// A structural fault of the container format itself.
#[derive(Clone, Copy, PartialEq, Eq, Structural, Debug)]
pub enum FormatError {
    /// The leading metadata record is inconsistent (bad length prefix,
    /// undecodable text, or a failed integrity value).
    HeaderCorrupt,
    /// The header declares a version, compression kind, encryption kind or
    /// text encoding outside the supported closed set.
    UnsupportedVersion,
    /// An index section is so badly ordered that it cannot be used at all.
    IndexUnsorted,
    /// A block's stored checksum does not match its payload.
    ChecksumMismatch,
    /// A block declares a compression kind the reader cannot reverse.
    UnsupportedCompression,
    /// The header declares an encryption kind the reader cannot reverse.
    UnsupportedEncryption,
    /// A length prefix or a block payload runs past the available bytes,
    /// or decompression does not yield the declared number of bytes.
    TruncatedBlock,
}

/// Any failure a query or an open can report.
#[derive(Clone, Copy, PartialEq, Eq, Structural, Debug)]
pub enum MdxError {
    /// The byte source failed to produce the requested range.
    Io,
    /// The container bytes are structurally invalid.
    Format(FormatError),
    /// Content bytes are not valid under the declared text encoding.
    Encoding,
    /// No entry matches the requested keyword.
    NotFound,
    /// Link resolution exceeded the fixed hop bound.
    LinkCycle,
}

} // verus!
