//! Decompression and validation of one compressed block.
//!
//! A stored block is a 4-byte big-endian Adler-32 checksum followed by the
//! compressed payload.  The checksum is verified before the payload is
//! trusted; only then is the payload reversed under the declared compression
//! kind, and the result must have exactly the declared decompressed length.

use vstd::prelude::*;

use crate::checksum::adler32;
use crate::checksum::adler32_of;
use crate::error::FormatError;

verus! {

/// The closed set of compression kinds a container may declare.
#[derive(Clone, Copy, PartialEq, Eq, Structural, Debug)]
pub enum CompressionKind {
    /// Payload bytes are the block bytes themselves.
    Store,
    /// A legacy LZ variant this reader recognizes but cannot reverse.
    LegacyLz,
    /// Raw DEFLATE.
    Deflate,
}

/// The closed set of encryption kinds a container may declare.
#[derive(Clone, Copy, PartialEq, Eq, Structural, Debug)]
pub enum EncryptionKind {
    Plain,
    /// The key-index header is obfuscated; not reversed by this reader.
    HeaderObfuscated,
    /// Key-block bodies are obfuscated as well; not reversed by this reader.
    BlockObfuscated,
}

/// What raw DEFLATE decompression yields on a byte sequence: `Some` of the
/// decompressed bytes when the sequence is a well-formed stream, `None`
/// otherwise.  The result depends on the input bytes alone.
pub uninterp spec fn inflate_of(comp: Seq<u8>) -> Option<Seq<u8>>;

/// Relies on miniz_oxide::inflate::decompress_to_vec_with_limit: it inflates
/// a raw DEFLATE stream and returns the bytes exactly when the stream is
/// well formed and its output does not exceed `limit`.
#[verifier::external_body]
fn inflate_with_limit(comp: &[u8], limit: usize) -> (r: Option<Vec<u8>>)
    ensures
        r matches Some(v) ==> inflate_of(comp@) == Some(v@) && v@.len() <= limit,
        r is None ==> (inflate_of(comp@) matches Some(v) ==> v.len() > limit),
{
    match miniz_oxide::inflate::decompress_to_vec_with_limit(comp, limit) {
        Ok(v) => Some(v),
        Err(_) => None,
    }
}

/// The canonical outcome of decoding one block: the payload's checksum must
/// match, and the payload must reverse under `kind` to exactly `dlen` bytes.
pub open spec fn spec_decode(
    kind: CompressionKind,
    comp: Seq<u8>,
    checksum: nat,
    dlen: nat,
) -> Result<Seq<u8>, FormatError> {
    if adler32_of(comp) != checksum {
        Err(FormatError::ChecksumMismatch)
    } else {
        match kind {
            CompressionKind::Store => {
                if comp.len() == dlen {
                    Ok(comp)
                } else {
                    Err(FormatError::TruncatedBlock)
                }
            },
            CompressionKind::LegacyLz => Err(FormatError::UnsupportedCompression),
            CompressionKind::Deflate => {
                match inflate_of(comp) {
                    Some(v) => {
                        if v.len() == dlen {
                            Ok(v)
                        } else {
                            Err(FormatError::TruncatedBlock)
                        }
                    },
                    None => Err(FormatError::TruncatedBlock),
                }
            },
        }
    }
}

/// Checks and decodes one block payload.  The block is never trusted
/// partially: a checksum mismatch fails before any decompression.
pub fn decode_block(kind: CompressionKind, comp: &[u8], checksum: u32, dlen: usize) -> (r: Result<
    Vec<u8>,
    FormatError,
>)
    ensures
        match r {
            Ok(v) => spec_decode(kind, comp@, checksum as nat, dlen as nat) == Ok::<
                Seq<u8>,
                FormatError,
            >(v@),
            Err(e) => spec_decode(kind, comp@, checksum as nat, dlen as nat) == Err::<
                Seq<u8>,
                FormatError,
            >(e),
        },
{
    let actual = adler32(comp);
    if actual != checksum {
        return Err(FormatError::ChecksumMismatch);
    }
    match kind {
        CompressionKind::Store => {
            if comp.len() == dlen {
                Ok(vstd::slice::slice_to_vec(comp))
            } else {
                Err(FormatError::TruncatedBlock)
            }
        },
        CompressionKind::LegacyLz => Err(FormatError::UnsupportedCompression),
        CompressionKind::Deflate => {
            match inflate_with_limit(comp, dlen) {
                Some(v) => {
                    if v.len() == dlen {
                        Ok(v)
                    } else {
                        Err(FormatError::TruncatedBlock)
                    }
                },
                None => Err(FormatError::TruncatedBlock),
            }
        },
    }
}

/// Flipping a single payload byte while keeping the stored checksum makes
/// decoding fail with `ChecksumMismatch`: corrupted bytes are never
/// silently decoded, whatever the compression kind.
pub proof fn lemma_flipped_block_fails(
    kind: CompressionKind,
    comp: Seq<u8>,
    i: int,
    v: u8,
    checksum: nat,
    dlen: nat,
)
    requires
        0 <= i < comp.len(),
        v != comp[i],
        adler32_of(comp) == checksum,
    ensures
        spec_decode(kind, comp.update(i, v), checksum, dlen) == Err::<Seq<u8>, FormatError>(
            FormatError::ChecksumMismatch,
        ),
{
    crate::checksum::lemma_adler32_detects_single_flip(comp, i, v);
}

} // verus!
