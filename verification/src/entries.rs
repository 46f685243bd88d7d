//! Entries of a decoded key block.
//!
//! A decoded key block payload is a run of entries, each a fixed-width
//! big-endian record offset, the key text, and a zero terminator.  Entries
//! keep their stored order; offsets may repeat (alias entries).

use vstd::prelude::*;

use crate::bytes::be32;
use crate::bytes::be64;
use crate::bytes::find_byte;
use crate::bytes::find_byte_from;
use crate::bytes::read_u32;
use crate::bytes::read_u64;
use crate::error::FormatError;

verus! {

/// A decoded key block entry: key text and record offset.
pub struct KeyEntry {
    pub key: Vec<u8>,
    pub record_offset: u64,
}

/// Entry lists as mathematical values: (key, record offset) pairs.
pub open spec fn evs_view(s: Seq<KeyEntry>) -> Seq<(Seq<u8>, u64)> {
    s.map_values(|e: KeyEntry| (e.key@, e.record_offset))
}

/// The canonical parse of a key block payload into exactly `n` entries
/// consuming all of `b`, offsets `width` (4 or 8) bytes wide.
pub open spec fn parse_entries(b: Seq<u8>, n: nat, width: int) -> Option<Seq<(Seq<u8>, u64)>>
    decreases n,
{
    if n == 0 {
        if b.len() == 0 {
            Some(Seq::empty())
        } else {
            None
        }
    } else if b.len() < width {
        None
    } else {
        let off = if width == 4 {
            be32(b.subrange(0, 4))
        } else {
            be64(b.subrange(0, 8))
        };
        let t = find_byte(b.skip(width), 0);
        if t < 0 {
            None
        } else {
            let key = b.subrange(width, width + t);
            match parse_entries(b.skip(width + t + 1), (n - 1) as nat, width) {
                None => None,
                Some(rest) => Some(seq![(key, off as u64)] + rest),
            }
        }
    }
}

/// Parses a decoded key block payload.
pub fn parse_entries_exec(b: &[u8], n: u32, width: u8) -> (r: Result<Vec<KeyEntry>, FormatError>)
    requires
        width == 4 || width == 8,
    ensures
        match r {
            Ok(v) => parse_entries(b@, n as nat, width as int) == Some(evs_view(v@)),
            Err(e) => parse_entries(b@, n as nat, width as int) is None && e
                == FormatError::TruncatedBlock,
        },
    decreases n,
{
    if n == 0 {
        if b.len() == 0 {
            let v: Vec<KeyEntry> = Vec::new();
            proof {
                assert(evs_view(v@) =~= Seq::<(Seq<u8>, u64)>::empty());
            }
            Ok(v)
        } else {
            Err(FormatError::TruncatedBlock)
        }
    } else {
        let w = width as usize;
        if b.len() < w {
            return Err(FormatError::TruncatedBlock);
        }
        let off: u64 = if width == 4 {
            read_u32(b, 0) as u64
        } else {
            read_u64(b, 0)
        };
        match find_byte_from(b, w, 0) {
            None => Err(FormatError::TruncatedBlock),
            Some(t_abs) => {
                let key = vstd::slice::slice_to_vec(vstd::slice::slice_subrange(b, w, t_abs));
                proof {
                    assert(key@ =~= b@.subrange(
                        w as int,
                        w + find_byte(b@.skip(w as int), 0),
                    ));
                }
                let rest = vstd::slice::slice_subrange(b, t_abs + 1, b.len());
                proof {
                    assert(rest@ =~= b@.skip(w + find_byte(b@.skip(w as int), 0) + 1));
                }
                match parse_entries_exec(rest, n - 1, width) {
                    Err(e) => Err(e),
                    Ok(mut v) => {
                        let ghost tail_view = evs_view(v@);
                        let e = KeyEntry { key, record_offset: off };
                        let ghost ev = (e.key@, e.record_offset);
                        v.insert(0, e);
                        proof {
                            assert(evs_view(v@) =~~= seq![ev] + tail_view);
                        }
                        Ok(v)
                    },
                }
            },
        }
    }
}

} // verus!
