//! The two block catalogs.
//!
//! The key block index lists, per compressed key block, its entry count,
//! compressed and decompressed lengths, and its first and last key.  The
//! record block index lists, per record block, its compressed and
//! decompressed lengths; the decompressed-offset ranges follow by summing.
//! Block data regions sit one after the other, each prefixed by its 4-byte
//! checksum.

use vstd::prelude::*;

use crate::bytes::be16;
use crate::bytes::be32;
use crate::bytes::read_u16;
use crate::bytes::read_u32;
use crate::error::FormatError;

verus! {

/// One key block's catalog entry.
pub struct KeyDesc {
    pub n_entries: u32,
    pub comp_len: u32,
    pub decomp_len: u32,
    pub first_key: Vec<u8>,
    pub last_key: Vec<u8>,
}

/// A key block catalog entry as a mathematical value.
#[verifier::ext_equal]
pub struct KeyDescSpec {
    pub n_entries: u32,
    pub comp_len: u32,
    pub decomp_len: u32,
    pub first_key: Seq<u8>,
    pub last_key: Seq<u8>,
}

pub open spec fn kd_view(d: KeyDesc) -> KeyDescSpec {
    KeyDescSpec {
        n_entries: d.n_entries,
        comp_len: d.comp_len,
        decomp_len: d.decomp_len,
        first_key: d.first_key@,
        last_key: d.last_key@,
    }
}

pub open spec fn kds_view(s: Seq<KeyDesc>) -> Seq<KeyDescSpec> {
    s.map_values(|d: KeyDesc| kd_view(d))
}

/// One record block's catalog entry.
#[derive(Clone, Copy, PartialEq, Eq, Structural, Debug)]
pub struct RecDesc {
    pub comp_len: u32,
    pub decomp_len: u32,
}

/// The key block catalog: per block 4-byte entry count, compressed length
/// and decompressed length, then the two length-prefixed bounding keys.
pub open spec fn parse_key_descs(s: Seq<u8>, b: nat) -> Option<Seq<KeyDescSpec>>
    decreases b,
{
    if b == 0 {
        if s.len() == 0 {
            Some(Seq::empty())
        } else {
            None
        }
    } else if s.len() < 14 {
        None
    } else {
        let fl = be16(s.subrange(12, 14)) as int;
        if s.len() - 14 < fl {
            None
        } else if s.len() - 14 - fl < 2 {
            None
        } else {
            let ll = be16(s.subrange(14 + fl, 16 + fl)) as int;
            if s.len() - 16 - fl < ll {
                None
            } else {
                let d = KeyDescSpec {
                    n_entries: be32(s.subrange(0, 4)) as u32,
                    comp_len: be32(s.subrange(4, 8)) as u32,
                    decomp_len: be32(s.subrange(8, 12)) as u32,
                    first_key: s.subrange(14, 14 + fl),
                    last_key: s.subrange(16 + fl, 16 + fl + ll),
                };
                match parse_key_descs(s.skip(16 + fl + ll), (b - 1) as nat) {
                    None => None,
                    Some(rest) => Some(seq![d] + rest),
                }
            }
        }
    }
}

/// The record block catalog: per block 4-byte compressed and decompressed
/// lengths.
pub open spec fn parse_rec_descs(s: Seq<u8>, b: nat) -> Option<Seq<RecDesc>>
    decreases b,
{
    if b == 0 {
        if s.len() == 0 {
            Some(Seq::empty())
        } else {
            None
        }
    } else if s.len() < 8 {
        None
    } else {
        let d = RecDesc {
            comp_len: be32(s.subrange(0, 4)) as u32,
            decomp_len: be32(s.subrange(4, 8)) as u32,
        };
        match parse_rec_descs(s.skip(8), (b - 1) as nat) {
            None => None,
            Some(rest) => Some(seq![d] + rest),
        }
    }
}

/// Parses the key block catalog.
pub fn parse_key_descs_exec(s: &[u8], b: u32) -> (r: Result<Vec<KeyDesc>, FormatError>)
    ensures
        match r {
            Ok(v) => parse_key_descs(s@, b as nat) == Some(kds_view(v@)),
            Err(e) => parse_key_descs(s@, b as nat) is None && e == FormatError::TruncatedBlock,
        },
    decreases b,
{
    if b == 0 {
        if s.len() == 0 {
            let v: Vec<KeyDesc> = Vec::new();
            proof {
                assert(kds_view(v@) =~= Seq::<KeyDescSpec>::empty());
            }
            Ok(v)
        } else {
            Err(FormatError::TruncatedBlock)
        }
    } else {
        let n: usize = s.len();
        if n < 14 {
            return Err(FormatError::TruncatedBlock);
        }
        let ne = read_u32(s, 0);
        let cl = read_u32(s, 4);
        let dl = read_u32(s, 8);
        let fl = read_u16(s, 12) as usize;
        if n - 14 < fl {
            return Err(FormatError::TruncatedBlock);
        }
        let first = vstd::slice::slice_to_vec(vstd::slice::slice_subrange(s, 14, 14 + fl));
        if n - 14 - fl < 2 {
            return Err(FormatError::TruncatedBlock);
        }
        let ll = read_u16(s, 14 + fl) as usize;
        if n - 16 - fl < ll {
            return Err(FormatError::TruncatedBlock);
        }
        let last = vstd::slice::slice_to_vec(
            vstd::slice::slice_subrange(s, 16 + fl, 16 + fl + ll),
        );
        let rest = vstd::slice::slice_subrange(s, 16 + fl + ll, n);
        match parse_key_descs_exec(rest, b - 1) {
            Err(e) => Err(e),
            Ok(mut v) => {
                let d = KeyDesc {
                    n_entries: ne,
                    comp_len: cl,
                    decomp_len: dl,
                    first_key: first,
                    last_key: last,
                };
                let ghost tail_view = kds_view(v@);
                v.insert(0, d);
                proof {
                    let full = parse_key_descs(s@, b as nat);
                    assert(kds_view(v@) =~~= seq![kd_view(d)] + tail_view);
                }
                Ok(v)
            },
        }
    }
}

/// Parses the record block catalog.
pub fn parse_rec_descs_exec(s: &[u8], b: u32) -> (r: Result<Vec<RecDesc>, FormatError>)
    ensures
        match r {
            Ok(v) => parse_rec_descs(s@, b as nat) == Some(v@),
            Err(e) => parse_rec_descs(s@, b as nat) is None && e == FormatError::TruncatedBlock,
        },
    decreases b,
{
    if b == 0 {
        if s.len() == 0 {
            let v: Vec<RecDesc> = Vec::new();
            proof {
                assert(v@ =~= Seq::<RecDesc>::empty());
            }
            Ok(v)
        } else {
            Err(FormatError::TruncatedBlock)
        }
    } else {
        let n: usize = s.len();
        if n < 8 {
            return Err(FormatError::TruncatedBlock);
        }
        let cl = read_u32(s, 0);
        let dl = read_u32(s, 4);
        let rest = vstd::slice::slice_subrange(s, 8, n);
        match parse_rec_descs_exec(rest, b - 1) {
            Err(e) => Err(e),
            Ok(mut v) => {
                let d = RecDesc { comp_len: cl, decomp_len: dl };
                let ghost tail_view = v@;
                v.insert(0, d);
                proof {
                    assert(v@ =~= seq![d] + tail_view);
                }
                Ok(v)
            },
        }
    }
}

/// Total bytes the key block regions occupy: each block is its 4-byte
/// checksum plus its compressed payload.
pub open spec fn total_comp_key(descs: Seq<KeyDescSpec>) -> int
    decreases descs.len(),
{
    if descs.len() == 0 {
        0
    } else {
        total_comp_key(descs.drop_last()) + 4 + descs.last().comp_len
    }
}

/// Offset of key block `i`'s region within the key data section.
pub open spec fn key_comp_off(descs: Seq<KeyDescSpec>, i: int) -> int {
    total_comp_key(descs.take(i))
}

/// Total bytes the record block regions occupy.
pub open spec fn total_comp_rec(descs: Seq<RecDesc>) -> int
    decreases descs.len(),
{
    if descs.len() == 0 {
        0
    } else {
        total_comp_rec(descs.drop_last()) + 4 + descs.last().comp_len
    }
}

/// Offset of record block `i`'s region within the record data section.
pub open spec fn rec_comp_off(descs: Seq<RecDesc>, i: int) -> int {
    total_comp_rec(descs.take(i))
}

/// Total decompressed length of the record stream.
pub open spec fn total_dlen(descs: Seq<RecDesc>) -> int
    decreases descs.len(),
{
    if descs.len() == 0 {
        0
    } else {
        total_dlen(descs.drop_last()) + descs.last().decomp_len
    }
}

/// Start of record block `i`'s decompressed-offset range: the ranges are
/// contiguous by construction.
pub open spec fn rec_start(descs: Seq<RecDesc>, i: int) -> int {
    total_dlen(descs.take(i))
}

pub proof fn lemma_total_comp_key_take_succ(descs: Seq<KeyDescSpec>, i: int)
    requires
        0 <= i < descs.len(),
    ensures
        total_comp_key(descs.take(i + 1)) == total_comp_key(descs.take(i)) + 4
            + descs[i].comp_len,
{
    assert(descs.take(i + 1).drop_last() =~= descs.take(i));
    assert(descs.take(i + 1).last() == descs[i]);
}

pub proof fn lemma_total_comp_key_nonneg(descs: Seq<KeyDescSpec>)
    ensures
        total_comp_key(descs) >= 0,
    decreases descs.len(),
{
    if descs.len() > 0 {
        lemma_total_comp_key_nonneg(descs.drop_last());
    }
}

pub proof fn lemma_total_comp_key_mono(descs: Seq<KeyDescSpec>, i: int)
    requires
        0 <= i <= descs.len(),
    ensures
        total_comp_key(descs.take(i)) <= total_comp_key(descs),
        total_comp_key(descs.take(i)) >= 0,
    decreases descs.len() - i,
{
    lemma_total_comp_key_nonneg(descs.take(i));
    if i == descs.len() {
        assert(descs.take(i) =~= descs);
    } else {
        lemma_total_comp_key_take_succ(descs, i);
        lemma_total_comp_key_mono(descs, i + 1);
    }
}

pub proof fn lemma_rec_take_succ(descs: Seq<RecDesc>, i: int)
    requires
        0 <= i < descs.len(),
    ensures
        total_comp_rec(descs.take(i + 1)) == total_comp_rec(descs.take(i)) + 4
            + descs[i].comp_len,
        total_dlen(descs.take(i + 1)) == total_dlen(descs.take(i)) + descs[i].decomp_len,
{
    assert(descs.take(i + 1).drop_last() =~= descs.take(i));
    assert(descs.take(i + 1).last() == descs[i]);
}

pub proof fn lemma_rec_nonneg(descs: Seq<RecDesc>)
    ensures
        total_comp_rec(descs) >= 0,
        total_dlen(descs) >= 0,
    decreases descs.len(),
{
    if descs.len() > 0 {
        lemma_rec_nonneg(descs.drop_last());
    }
}

pub proof fn lemma_rec_mono(descs: Seq<RecDesc>, i: int)
    requires
        0 <= i <= descs.len(),
    ensures
        total_comp_rec(descs.take(i)) <= total_comp_rec(descs),
        total_comp_rec(descs.take(i)) >= 0,
        total_dlen(descs.take(i)) <= total_dlen(descs),
        total_dlen(descs.take(i)) >= 0,
    decreases descs.len() - i,
{
    lemma_rec_nonneg(descs.take(i));
    if i == descs.len() {
        assert(descs.take(i) =~= descs);
    } else {
        lemma_rec_take_succ(descs, i);
        lemma_rec_mono(descs, i + 1);
    }
}

/// Lays out the key block regions: offset of each block within the key data
/// section, after checking that all regions fit in `avail` bytes.
pub fn key_offsets(descs: &Vec<KeyDesc>, avail: usize) -> (r: Result<Vec<usize>, FormatError>)
    ensures
        match r {
            Ok(offs) => {
                &&& offs@.len() == descs@.len()
                &&& forall|i: int|
                    0 <= i < descs@.len() ==> offs@[i] == key_comp_off(kds_view(descs@), i)
                &&& total_comp_key(kds_view(descs@)) <= avail
            },
            Err(e) => total_comp_key(kds_view(descs@)) > avail && e
                == FormatError::TruncatedBlock,
        },
{
    let ghost ds = kds_view(descs@);
    let mut offs: Vec<usize> = Vec::new();
    let mut acc: usize = 0;
    let mut i: usize = 0;
    let n: usize = descs.len();
    proof {
        assert(ds.take(0) =~= Seq::<KeyDescSpec>::empty());
    }
    while i < n
        invariant
            n == descs@.len(),
            ds == kds_view(descs@),
            0 <= i <= n,
            offs@.len() == i,
            forall|j: int| 0 <= j < i ==> offs@[j] == key_comp_off(ds, j),
            acc == total_comp_key(ds.take(i as int)),
            acc <= avail,
        decreases n - i,
    {
        proof {
            lemma_total_comp_key_take_succ(ds, i as int);
            assert(ds[i as int] == kd_view(descs@[i as int]));
        }
        let cl = descs[i].comp_len as usize;
        if avail - acc < 4 || avail - acc - 4 < cl {
            proof {
                lemma_total_comp_key_mono(ds, i as int + 1);
            }
            return Err(FormatError::TruncatedBlock);
        }
        offs.push(acc);
        acc = acc + 4 + cl;
        i = i + 1;
    }
    proof {
        assert(ds.take(n as int) =~= ds);
    }
    Ok(offs)
}

/// Lays out the record block regions: per block its offset within the record
/// data section and the start of its decompressed-offset range.
pub fn rec_offsets(descs: &Vec<RecDesc>, avail: usize) -> (r: Result<
    (Vec<usize>, Vec<u64>),
    FormatError,
>)
    ensures
        match r {
            Ok(p) => {
                &&& p.0@.len() == descs@.len()
                &&& p.1@.len() == descs@.len()
                &&& forall|i: int| 0 <= i < descs@.len() ==> p.0@[i] == rec_comp_off(descs@, i)
                &&& forall|i: int| 0 <= i < descs@.len() ==> p.1@[i] == rec_start(descs@, i)
                &&& total_comp_rec(descs@) <= avail
                &&& total_dlen(descs@) <= 0xffffffffffffffff
            },
            Err(e) => (total_comp_rec(descs@) > avail || total_dlen(descs@)
                > 0xffffffffffffffff) && e == FormatError::TruncatedBlock,
        },
{
    let mut offs: Vec<usize> = Vec::new();
    let mut starts: Vec<u64> = Vec::new();
    let mut acc: usize = 0;
    let mut st: u64 = 0;
    let mut i: usize = 0;
    let n: usize = descs.len();
    proof {
        assert(descs@.take(0) =~= Seq::<RecDesc>::empty());
    }
    while i < n
        invariant
            n == descs@.len(),
            0 <= i <= n,
            offs@.len() == i,
            starts@.len() == i,
            forall|j: int| 0 <= j < i ==> offs@[j] == rec_comp_off(descs@, j),
            forall|j: int| 0 <= j < i ==> starts@[j] == rec_start(descs@, j),
            acc == total_comp_rec(descs@.take(i as int)),
            acc <= avail,
            st == total_dlen(descs@.take(i as int)),
        decreases n - i,
    {
        proof {
            lemma_rec_take_succ(descs@, i as int);
        }
        let cl = descs[i].comp_len as usize;
        let dl = descs[i].decomp_len as u64;
        if avail - acc < 4 || avail - acc - 4 < cl {
            proof {
                lemma_rec_mono(descs@, i as int + 1);
            }
            return Err(FormatError::TruncatedBlock);
        }
        if 0xffffffffffffffffu64 - st < dl {
            proof {
                lemma_rec_mono(descs@, i as int + 1);
            }
            return Err(FormatError::TruncatedBlock);
        }
        offs.push(acc);
        starts.push(st);
        acc = acc + 4 + cl;
        st = st + dl;
        i = i + 1;
    }
    proof {
        assert(descs@.take(n as int) =~= descs@);
    }
    Ok((offs, starts))
}

} // verus!
