//! The dictionary handle: open, lookup, has_key, metadata.
//!
//! Layout of a container:
//! `[header][key index section][key data][record index section][record data]`.
//! An index section is one byte marking it plain (0) or compressed under the
//! declared kind (1), two 4-byte lengths (stored, decompressed), a 4-byte
//! checksum, and the payload.  Its decoded bytes hold a 4-byte block count
//! and the block catalog.  Each data region is a 4-byte checksum followed by
//! the compressed block.

use vstd::prelude::*;

use crate::block::spec_decode;
use crate::block::CompressionKind;
use crate::block::EncryptionKind;
use crate::bytes::be32;
use crate::bytes::read_u32;
use crate::error::FormatError;
use crate::error::MdxError;
use crate::header::hview;
use crate::header::parse_header;
use crate::header::spec_parse_header;
use crate::header::DictionaryMeta;
use crate::header::FormatFlags;
use crate::header::HeaderSpec;
use crate::index::kds_view;
use crate::index::key_comp_off;
use crate::index::parse_key_descs;
use crate::index::parse_rec_descs;
use crate::index::rec_comp_off;
use crate::index::rec_start;
use crate::index::total_comp_key;
use crate::index::total_comp_rec;
use crate::index::total_dlen;
use crate::index::KeyDesc;
use crate::index::KeyDescSpec;
use crate::index::RecDesc;
use crate::entries::evs_view;
use crate::entries::parse_entries;
use crate::entries::parse_entries_exec;
use crate::entries::KeyEntry;
use crate::collate::compare;
use crate::collate::key_cmp;
use crate::collate::CollateMode;

verus! {

/// The immutable core of an opened dictionary, as a mathematical value:
/// everything queries are answered from.  Decode caches are not part of it.
#[verifier::ext_equal]
pub struct CoreSpec {
    pub data: Seq<u8>,
    pub kds: Seq<KeyDescSpec>,
    pub rds: Seq<RecDesc>,
    pub key_data_off: int,
    pub rec_data_off: int,
    pub width: int,
    pub comp: CompressionKind,
    pub encoding: Seq<u8>,
}

/// Parses one index section envelope at offset `p` and yields its decoded
/// index bytes and the offset just past the envelope.
pub open spec fn parse_section(data: Seq<u8>, p: int, kind: CompressionKind) -> Result<
    (Seq<u8>, int),
    FormatError,
> {
    if data.len() - p < 13 {
        Err(FormatError::TruncatedBlock)
    } else {
        let flag = data[p];
        let plen = be32(data.subrange(p + 1, p + 5)) as int;
        let dlen = be32(data.subrange(p + 5, p + 9)) as int;
        let ck = be32(data.subrange(p + 9, p + 13));
        if flag > 1 {
            Err(FormatError::TruncatedBlock)
        } else if data.len() - p - 13 < plen {
            Err(FormatError::TruncatedBlock)
        } else {
            let payload = data.subrange(p + 13, p + 13 + plen);
            let k = if flag == 0 {
                CompressionKind::Store
            } else {
                kind
            };
            match spec_decode(k, payload, ck, dlen as nat) {
                Err(e) => Err(e),
                Ok(bytes) => Ok((bytes, p + 13 + plen)),
            }
        }
    }
}

/// The complete open-time chain: header, key catalog, record catalog,
/// layout checks.  `open` returns a handle exactly when this yields a core.
pub open spec fn spec_open(data: Seq<u8>) -> Result<CoreSpec, MdxError> {
    match spec_parse_header(data) {
        Err(e) => Err(e),
        Ok((h, hend)) => match parse_section(data, hend, h.compression) {
            Err(e) => Err(MdxError::Format(e)),
            Ok((kb, kdat)) => {
                if kb.len() < 4 {
                    Err(MdxError::Format(FormatError::TruncatedBlock))
                } else {
                    match parse_key_descs(kb.skip(4), be32(kb.subrange(0, 4))) {
                        None => Err(MdxError::Format(FormatError::TruncatedBlock)),
                        Some(kds) => {
                            if data.len() - kdat < total_comp_key(kds) {
                                Err(MdxError::Format(FormatError::TruncatedBlock))
                            } else {
                                let rsec = kdat + total_comp_key(kds);
                                match parse_section(data, rsec, h.compression) {
                                    Err(e) => Err(MdxError::Format(e)),
                                    Ok((rb, rdat)) => {
                                        if rb.len() < 4 {
                                            Err(MdxError::Format(FormatError::TruncatedBlock))
                                        } else {
                                            match parse_rec_descs(
                                                rb.skip(4),
                                                be32(rb.subrange(0, 4)),
                                            ) {
                                                None => Err(
                                                    MdxError::Format(FormatError::TruncatedBlock),
                                                ),
                                                Some(rds) => {
                                                    if total_dlen(rds) > 0xffffffffffffffff {
                                                        Err(
                                                            MdxError::Format(
                                                                FormatError::TruncatedBlock,
                                                            ),
                                                        )
                                                    } else if data.len() - rdat < total_comp_rec(
                                                        rds,
                                                    ) {
                                                        Err(
                                                            MdxError::Format(
                                                                FormatError::TruncatedBlock,
                                                            ),
                                                        )
                                                    } else {
                                                        Ok(
                                                            CoreSpec {
                                                                data: data,
                                                                kds: kds,
                                                                rds: rds,
                                                                key_data_off: kdat,
                                                                rec_data_off: rdat,
                                                                width: if h.version == 1 {
                                                                    4
                                                                } else {
                                                                    8
                                                                },
                                                                comp: h.compression,
                                                                encoding: h.encoding,
                                                            },
                                                        )
                                                    }
                                                },
                                            }
                                        }
                                    },
                                }
                            }
                        },
                    }
                }
            },
        },
    }
}

/// The dictionary handle: the byte source's contents, the parsed header,
/// both catalogs with their layout, and the decode caches.
pub struct MdxHandle {
    pub data: Vec<u8>,
    pub meta: DictionaryMeta,
    pub flags: FormatFlags,
    pub key_descs: Vec<KeyDesc>,
    pub key_offs: Vec<usize>,
    pub rec_descs: Vec<RecDesc>,
    pub rec_offs: Vec<usize>,
    pub rec_starts: Vec<u64>,
    pub key_data_off: usize,
    pub rec_data_off: usize,
    pub key_cache: Vec<(usize, Vec<KeyEntry>)>,
    pub rec_cache: Vec<(usize, Vec<u8>)>,
    /// How many blocks have been decoded over the handle's lifetime.
    pub decode_count: u64,
}

impl MdxHandle {
    /// The immutable core the handle answers queries from.
    pub open spec fn model(self) -> CoreSpec {
        CoreSpec {
            data: self.data@,
            kds: kds_view(self.key_descs@),
            rds: self.rec_descs@,
            key_data_off: self.key_data_off as int,
            rec_data_off: self.rec_data_off as int,
            width: self.flags.offset_width as int,
            comp: self.flags.compression,
            encoding: self.meta.encoding@,
        }
    }

    /// Structural well-formedness: the layout fields agree with the
    /// catalogs, everything fits in the data, and cached blocks hold
    /// exactly their canonical decoded form.
    pub open spec fn wf(self) -> bool {
        &&& self.key_offs@.len() == self.key_descs@.len()
        &&& forall|i: int|
            0 <= i < self.key_descs@.len() ==> self.key_offs@[i] == key_comp_off(
                kds_view(self.key_descs@),
                i,
            )
        &&& self.rec_offs@.len() == self.rec_descs@.len()
        &&& self.rec_starts@.len() == self.rec_descs@.len()
        &&& forall|i: int|
            0 <= i < self.rec_descs@.len() ==> self.rec_offs@[i] == rec_comp_off(
                self.rec_descs@,
                i,
            )
        &&& forall|i: int|
            0 <= i < self.rec_descs@.len() ==> self.rec_starts@[i] == rec_start(
                self.rec_descs@,
                i,
            )
        &&& self.key_data_off + total_comp_key(kds_view(self.key_descs@)) <= self.data@.len()
        &&& self.rec_data_off + total_comp_rec(self.rec_descs@) <= self.data@.len()
        &&& self.key_data_off <= self.rec_data_off
        &&& total_dlen(self.rec_descs@) <= 0xffffffffffffffff
        &&& self.flags.offset_width == 4 || self.flags.offset_width == 8
        &&& forall|j: int|
            0 <= j < self.key_cache@.len() ==> {
                let c = #[trigger] self.key_cache@[j];
                &&& 0 <= c.0 < self.key_descs@.len()
                &&& key_block_result(self.model(), c.0 as int) == Ok::<
                    Seq<(Seq<u8>, u64)>,
                    FormatError,
                >(evs_view(c.1@))
            }
        &&& forall|j: int|
            0 <= j < self.rec_cache@.len() ==> {
                let c = #[trigger] self.rec_cache@[j];
                &&& 0 <= c.0 < self.rec_descs@.len()
                &&& rec_block_result(self.model(), c.0 as int) == Ok::<Seq<u8>, FormatError>(c.1@)
            }
    }
}

/// Where key block `i`'s region starts in the data.
pub open spec fn key_block_pos(c: CoreSpec, i: int) -> int {
    c.key_data_off + key_comp_off(c.kds, i)
}

/// The canonical decoded payload of key block `i`.
pub open spec fn key_block_decoded(c: CoreSpec, i: int) -> Result<Seq<u8>, FormatError> {
    let p = key_block_pos(c, i);
    spec_decode(
        c.comp,
        c.data.subrange(p + 4, p + 4 + c.kds[i].comp_len),
        be32(c.data.subrange(p, p + 4)),
        c.kds[i].decomp_len as nat,
    )
}

/// The canonical entry list of key block `i`: decode, then parse.
pub open spec fn key_block_result(c: CoreSpec, i: int) -> Result<Seq<(Seq<u8>, u64)>, FormatError> {
    match key_block_decoded(c, i) {
        Err(e) => Err(e),
        Ok(p) => match parse_entries(p, c.kds[i].n_entries as nat, c.width) {
            None => Err(FormatError::TruncatedBlock),
            Some(es) => Ok(es),
        },
    }
}

/// Where record block `i`'s region starts in the data.
pub open spec fn rec_block_pos(c: CoreSpec, i: int) -> int {
    c.rec_data_off + rec_comp_off(c.rds, i)
}

/// The canonical decoded payload of record block `i`.
pub open spec fn rec_block_result(c: CoreSpec, i: int) -> Result<Seq<u8>, FormatError> {
    let p = rec_block_pos(c, i);
    spec_decode(
        c.comp,
        c.data.subrange(p + 4, p + 4 + c.rds[i].comp_len),
        be32(c.data.subrange(p, p + 4)),
        c.rds[i].decomp_len as nat,
    )
}

/// Parses one index section envelope.
fn parse_section_exec(data: &[u8], p: usize, kind: CompressionKind) -> (r: Result<
    (Vec<u8>, usize),
    FormatError,
>)
    requires
        p <= data@.len(),
    ensures
        match r {
            Ok(v) => parse_section(data@, p as int, kind) == Ok::<(Seq<u8>, int), FormatError>(
                (v.0@, v.1 as int),
            ) && p < v.1 <= data@.len(),
            Err(e) => parse_section(data@, p as int, kind) == Err::<(Seq<u8>, int), FormatError>(
                e,
            ),
        },
{
    let n: usize = data.len();
    if n - p < 13 {
        return Err(FormatError::TruncatedBlock);
    }
    let flag = data[p];
    let plen = read_u32(data, p + 1) as usize;
    let dlen = read_u32(data, p + 5) as usize;
    let ck = read_u32(data, p + 9);
    if flag > 1 {
        return Err(FormatError::TruncatedBlock);
    }
    if n - p - 13 < plen {
        return Err(FormatError::TruncatedBlock);
    }
    let payload = vstd::slice::slice_subrange(data, p + 13, p + 13 + plen);
    let k = if flag == 0 {
        CompressionKind::Store
    } else {
        kind
    };
    match crate::block::decode_block(k, payload, ck, dlen) {
        Err(e) => Err(e),
        Ok(bytes) => Ok((bytes, p + 13 + plen)),
    }
}

/// Opens a container: parses the header, eagerly builds both catalogs and
/// their layout, and returns a well-formed handle with empty caches.  Fails
/// with the first structural error; a truncated or corrupted container is
/// rejected here and never yields a handle.
pub fn open(data: Vec<u8>) -> (r: Result<MdxHandle, MdxError>)
    ensures
        match r {
            Ok(h) => {
                &&& spec_open(data@) matches Ok(c) && h.model() == c
                &&& h.wf()
                &&& spec_parse_header(data@) matches Ok(p) && hview(h.flags, &h.meta) == p.0
                &&& h.data@ == data@
                &&& h.decode_count == 0
            },
            Err(e) => spec_open(data@) == Err::<CoreSpec, MdxError>(e),
        },
{
    let (meta, flags, hend) = match parse_header(data.as_slice()) {
        Err(e) => {
            return Err(e);
        },
        Ok(p) => p,
    };
    let (kb, kdat) = match parse_section_exec(data.as_slice(), hend, flags.compression) {
        Err(e) => {
            return Err(MdxError::Format(e));
        },
        Ok(p) => p,
    };
    if kb.len() < 4 {
        return Err(MdxError::Format(FormatError::TruncatedBlock));
    }
    let bcnt = read_u32(kb.as_slice(), 0);
    let kb_rest = vstd::slice::slice_subrange(kb.as_slice(), 4, kb.len());
    proof {
        assert(kb@.subrange(0, 4) =~= kb@.take(4));
        assert(kb_rest@ =~= kb@.skip(4));
    }
    let key_descs = match crate::index::parse_key_descs_exec(kb_rest, bcnt) {
        Err(e) => {
            return Err(MdxError::Format(e));
        },
        Ok(v) => v,
    };
    let key_offs = match crate::index::key_offsets(&key_descs, data.len() - kdat) {
        Err(e) => {
            return Err(MdxError::Format(e));
        },
        Ok(v) => v,
    };
    proof {
        crate::index::lemma_total_comp_key_mono(kds_view(key_descs@), key_descs@.len() as int);
        assert(kds_view(key_descs@).take(key_descs@.len() as int) =~= kds_view(key_descs@));
    }
    let key_total = {
        // total size of the key data region, recomputed from the layout
        let nk = key_descs.len();
        if nk == 0 {
            0
        } else {
            let last_off = key_offs[nk - 1];
            let last_cl = key_descs[nk - 1].comp_len as usize;
            proof {
                crate::index::lemma_total_comp_key_take_succ(
                    kds_view(key_descs@),
                    nk as int - 1,
                );
                assert(kds_view(key_descs@).take(nk as int) =~= kds_view(key_descs@));
            }
            last_off + 4 + last_cl
        }
    };
    proof {
        if key_descs@.len() == 0 {
            assert(kds_view(key_descs@).take(0) =~= kds_view(key_descs@));
        }
        assert(key_total == total_comp_key(kds_view(key_descs@)));
    }
    let rsec = kdat + key_total;
    let (rb, rdat) = match parse_section_exec(data.as_slice(), rsec, flags.compression) {
        Err(e) => {
            return Err(MdxError::Format(e));
        },
        Ok(p) => p,
    };
    if rb.len() < 4 {
        return Err(MdxError::Format(FormatError::TruncatedBlock));
    }
    let rcnt = read_u32(rb.as_slice(), 0);
    let rb_rest = vstd::slice::slice_subrange(rb.as_slice(), 4, rb.len());
    proof {
        assert(rb@.subrange(0, 4) =~= rb@.take(4));
        assert(rb_rest@ =~= rb@.skip(4));
    }
    let rec_descs = match crate::index::parse_rec_descs_exec(rb_rest, rcnt) {
        Err(e) => {
            return Err(MdxError::Format(e));
        },
        Ok(v) => v,
    };
    let (rec_offs, rec_starts) = match crate::index::rec_offsets(&rec_descs, data.len() - rdat) {
        Err(e) => {
            return Err(MdxError::Format(e));
        },
        Ok(v) => v,
    };
    let h = MdxHandle {
        data,
        meta,
        flags,
        key_descs,
        key_offs,
        rec_descs,
        rec_offs,
        rec_starts,
        key_data_off: kdat,
        rec_data_off: rdat,
        key_cache: Vec::new(),
        rec_cache: Vec::new(),
        decode_count: 0,
    };
    proof {
        assert(spec_open(h.data@) matches Ok(c) && h.model() =~= c);
    }
    Ok(h)
}

/// How many alias (link) hops a lookup follows before failing.
pub const LINK_HOP_LIMIT: u64 = 8;

/// How many decoded blocks each cache holds at most.
pub const CACHE_CAP: usize = 16;

#[verifier::external_type_specification]
#[verifier::external_body]
pub struct ExUtf8Error(core::str::Utf8Error);

/// Relies on str::from_utf8: it succeeds exactly on valid UTF-8 input.
pub assume_specification[ str::from_utf8 ](v: &[u8]) -> (r: Result<&str, core::str::Utf8Error>)
    ensures
        r is Ok <==> vstd::utf8::valid_utf8(v@),
;

/// Least-index binary search over the key block catalog: narrows to the
/// block whose stored last key first compares at or above the keyword.
pub open spec fn bsearch_spec(c: CoreSpec, key: Seq<u8>, m: CollateMode, lo: int, hi: int) -> int
    decreases hi - lo,
{
    if lo >= hi {
        lo
    } else {
        let mid = lo + (hi - lo) / 2;
        if key_cmp(key, c.kds[mid].last_key, m) <= 0 {
            bsearch_spec(c, key, m, lo, mid)
        } else {
            bsearch_spec(c, key, m, mid + 1, hi)
        }
    }
}

/// First entry at or after `j` comparing equal to the keyword, or -1.
pub open spec fn find_in_entries(
    es: Seq<(Seq<u8>, u64)>,
    key: Seq<u8>,
    m: CollateMode,
    j: int,
) -> int
    decreases es.len() - j, when j >= 0
{
    if j >= es.len() {
        -1
    } else if key_cmp(key, es[j].0, m) == 0 {
        j
    } else {
        find_in_entries(es, key, m, j + 1)
    }
}

/// Scans candidate blocks `lo..=hi` in order; the first equal entry wins.
/// A block that fails to decode fails the whole scan with its error.
pub open spec fn scan_blocks(c: CoreSpec, key: Seq<u8>, m: CollateMode, lo: int, hi: int) -> Result<
    Option<(int, int)>,
    FormatError,
>
    decreases hi + 1 - lo, when lo <= hi + 1
{
    if lo > hi {
        Ok(None)
    } else {
        match key_block_result(c, lo) {
            Err(e) => Err(e),
            Ok(es) => {
                let j = find_in_entries(es, key, m, 0);
                if j >= 0 {
                    Ok(Some((lo, j)))
                } else {
                    scan_blocks(c, key, m, lo + 1, hi)
                }
            },
        }
    }
}

/// The candidate range around the binary-search result: the block itself
/// and both neighbors (tolerance for mildly out-of-order catalogs).
pub open spec fn cand_lo(b: int) -> int {
    if b > 0 {
        b - 1
    } else {
        0
    }
}

pub open spec fn cand_hi(c: CoreSpec, b: int) -> int {
    if b + 1 < c.kds.len() {
        b + 1
    } else {
        c.kds.len() - 1
    }
}

/// Where the keyword is found: candidate narrowing, then an in-order scan.
pub open spec fn spec_find(c: CoreSpec, key: Seq<u8>, m: CollateMode) -> Result<
    Option<(int, int)>,
    FormatError,
> {
    if c.kds.len() == 0 {
        Ok(None)
    } else {
        let b = bsearch_spec(c, key, m, 0, c.kds.len() as int);
        scan_blocks(c, key, m, cand_lo(b), cand_hi(c, b))
    }
}

/// First record block whose decompressed-offset range reaches past `off`,
/// scanning from `r`.
pub open spec fn rec_find(c: CoreSpec, off: int, r: int) -> int
    decreases c.rds.len() - r, when r >= 0
{
    if r >= c.rds.len() {
        -1
    } else if off < rec_start(c.rds, r) + c.rds[r].decomp_len {
        r
    } else {
        rec_find(c, off, r + 1)
    }
}

/// Content of the entry at record offset `off`: the slice of the owning
/// record block from `off` to the next entry's offset if that offset also
/// falls inside the block, else to the block's end.  "Next entry" means the
/// matched entry's successor within its own key block (see `next_off`): a
/// key block's last entry is sliced to its record block's end, so producers
/// must end a record block where a key block's run of contents ends.
pub open spec fn content_result(c: CoreSpec, off: u64, nxt: Option<u64>) -> Result<
    Seq<u8>,
    MdxError,
> {
    let r = rec_find(c, off as int, 0);
    if r < 0 {
        Err(MdxError::Format(FormatError::TruncatedBlock))
    } else {
        match rec_block_result(c, r) {
            Err(e) => Err(MdxError::Format(e)),
            Ok(p) => {
                let start = rec_start(c.rds, r);
                let bend = start + c.rds[r].decomp_len;
                let end = match nxt {
                    Some(no) => if off <= no && no <= bend {
                        no as int
                    } else {
                        bend
                    },
                    None => bend,
                };
                Ok(p.subrange(off - start, end - start))
            },
        }
    }
}

/// The next entry's record offset, if the match has a successor inside the
/// same key block.  A successor in a later key block is not consulted, so
/// its content must start a new record block.
pub open spec fn next_off(es: Seq<(Seq<u8>, u64)>, ei: int) -> Option<u64> {
    if ei + 1 < es.len() {
        Some(es[ei + 1].1)
    } else {
        None
    }
}

/// The marker an alias entry's content starts with: `@@@LINK=`.
pub open spec fn link_marker() -> Seq<u8> {
    seq![64u8, 64u8, 64u8, 76u8, 73u8, 78u8, 75u8, 61u8]
}

/// Trailing terminator and line-break bytes after a link target.
pub open spec fn trim_trail(s: Seq<u8>) -> Seq<u8>
    decreases s.len(),
{
    if s.len() > 0 && (s.last() == 0 || s.last() == 13 || s.last() == 10) {
        trim_trail(s.drop_last())
    } else {
        s
    }
}

/// Content that is solely an alias naming another key.
pub open spec fn is_link(content: Seq<u8>) -> bool {
    content.len() > 8 && content.take(8) == link_marker() && trim_trail(content.skip(8)).len() > 0
}

pub open spec fn link_target(content: Seq<u8>) -> Seq<u8> {
    trim_trail(content.skip(8))
}


/// The text encodings content can be decoded under: UTF-8, declared by name
/// or by leaving the encoding attribute out.  Content of a dictionary
/// declaring any other encoding fails to decode with `Encoding`, as does
/// content whose bytes are not valid under UTF-8.
pub open spec fn text_encoding_supported(enc: Seq<u8>) -> bool {
    enc.len() == 0 || enc == crate::header::utf8_name()
}

/// The complete lookup, `fuel` link hops left: find the entry, slice its
/// record, follow an alias or decode the text.
pub open spec fn spec_lookup_at(c: CoreSpec, key: Seq<u8>, m: CollateMode, fuel: nat) -> Result<
    Seq<u8>,
    MdxError,
>
    decreases fuel,
{
    match spec_find(c, key, m) {
        Err(e) => Err(MdxError::Format(e)),
        Ok(None) => Err(MdxError::NotFound),
        Ok(Some((kb, ei))) => {
            match key_block_result(c, kb) {
                Err(e) => Err(MdxError::Format(e)),
                Ok(es) => {
                    match content_result(c, es[ei].1, next_off(es, ei)) {
                        Err(e) => Err(e),
                        Ok(content) => {
                            if is_link(content) {
                                if fuel == 0 {
                                    Err(MdxError::LinkCycle)
                                } else {
                                    spec_lookup_at(c, link_target(content), m, (fuel - 1) as nat)
                                }
                            } else if text_encoding_supported(c.encoding)
                                && vstd::utf8::valid_utf8(content) {
                                Ok(content)
                            } else {
                                Err(MdxError::Encoding)
                            }
                        },
                    }
                },
            }
        },
    }
}

/// What `lookup` returns: the full resolution with the fixed hop budget.
pub open spec fn spec_lookup(c: CoreSpec, key: Seq<u8>, m: CollateMode) -> Result<Seq<u8>, MdxError> {
    spec_lookup_at(c, key, m, LINK_HOP_LIMIT as nat)
}

/// What `has_key` returns: the lookup truncated after the entry scan.
pub open spec fn spec_has_key(c: CoreSpec, key: Seq<u8>, m: CollateMode) -> Result<
    bool,
    FormatError,
> {
    match spec_find(c, key, m) {
        Err(e) => Err(e),
        Ok(o) => Ok(o is Some),
    }
}

/// Every key block region of a well-formed handle lies inside the data.
proof fn lemma_key_block_in_bounds(h: MdxHandle, i: int)
    requires
        h.wf(),
        0 <= i < h.key_descs@.len(),
    ensures
        0 <= key_comp_off(kds_view(h.key_descs@), i),
        h.key_data_off + key_comp_off(kds_view(h.key_descs@), i) + 4 + kds_view(h.key_descs@)[i].comp_len
            <= h.data@.len(),
    decreases 0int,
{
    let ds = kds_view(h.key_descs@);
    crate::index::lemma_total_comp_key_mono(ds, i + 1);
    crate::index::lemma_total_comp_key_mono(ds, i);
    crate::index::lemma_total_comp_key_take_succ(ds, i);
}

/// Every record block region of a well-formed handle lies inside the data.
proof fn lemma_rec_block_in_bounds(h: MdxHandle, i: int)
    requires
        h.wf(),
        0 <= i < h.rec_descs@.len(),
    ensures
        0 <= rec_comp_off(h.rec_descs@, i),
        h.rec_data_off + rec_comp_off(h.rec_descs@, i) + 4 + h.rec_descs@[i].comp_len
            <= h.data@.len(),
        0 <= rec_start(h.rec_descs@, i),
        rec_start(h.rec_descs@, i) + h.rec_descs@[i].decomp_len <= total_dlen(h.rec_descs@),
    decreases 0int,
{
    crate::index::lemma_rec_mono(h.rec_descs@, i + 1);
    crate::index::lemma_rec_mono(h.rec_descs@, i);
    crate::index::lemma_rec_take_succ(h.rec_descs@, i);
}

/// `rec_find` lands on the block whose range holds `off`, and fails only
/// past the end of the record stream.
proof fn lemma_rec_find(c: CoreSpec, off: int, r0: int)
    requires
        0 <= r0 <= c.rds.len(),
        off >= rec_start(c.rds, r0),
    ensures
        rec_find(c, off, r0) >= 0 ==> {
            let r = rec_find(c, off, r0);
            &&& r0 <= r < c.rds.len()
            &&& rec_start(c.rds, r) <= off < rec_start(c.rds, r) + c.rds[r].decomp_len
        },
        rec_find(c, off, r0) < 0 ==> off >= total_dlen(c.rds),
    decreases c.rds.len() - r0,
{
    if r0 >= c.rds.len() {
        assert(c.rds.take(r0 as int) =~= c.rds);
    } else if off < rec_start(c.rds, r0) + c.rds[r0].decomp_len {
    } else {
        crate::index::lemma_rec_take_succ(c.rds, r0);
        lemma_rec_find(c, off, r0 + 1);
    }
}


impl MdxHandle {
    /// Decoded entries of key block `i`, through the cache: after a hit the
    /// block moves to the back of the cache and nothing is decoded; after a
    /// miss the block is decoded once and cached, evicting the least
    /// recently used block if the cache is full.  Either way the decoded
    /// block ends up last in the cache.
    #[verifier::loop_isolation(false)]
    #[verifier::rlimit(60)]
    fn get_key_block(&mut self, i: usize) -> (r: Result<(), FormatError>)
        requires
            old(self).wf(),
            i < old(self).key_descs@.len(),
        ensures
            final(self).wf(),
            final(self).model() == old(self).model(),
            final(self).meta == old(self).meta,
            final(self).flags == old(self).flags,
            final(self).rec_cache == old(self).rec_cache,
            old(self).decode_count <= final(self).decode_count <= old(self).decode_count + 1,
            (exists|k: int|
                0 <= k < old(self).key_cache@.len() && old(self).key_cache@[k].0 == i) ==> final(self).decode_count == old(self).decode_count,
            match r {
                Ok(()) => final(self).key_cache@.len() > 0 && final(self).key_cache@.last().0 == i
                    && key_block_result(old(self).model(), i as int) == Ok::<
                    Seq<(Seq<u8>, u64)>,
                    FormatError,
                >(evs_view(final(self).key_cache@.last().1@)),
                Err(e) => key_block_result(old(self).model(), i as int) == Err::<
                    Seq<(Seq<u8>, u64)>,
                    FormatError,
                >(e),
            },
    {
        let ghost c = self.model();
        let n = self.key_cache.len();
        let mut j: usize = 0;
        while j < n
            invariant
                n == self.key_cache@.len(),
                0 <= j <= n,
                forall|k: int| 0 <= k < j ==> self.key_cache@[k].0 != i,
                *self == *old(self),
            decreases n - j,
        {
            if self.key_cache[j].0 == i {
                let ghost before = self.key_cache@;
                let e = self.key_cache.remove(j);
                self.key_cache.push(e);
                proof {
                    assert(before.remove(j as int) =~= before.subrange(0, j as int)
                        + before.subrange(j as int + 1, n as int));
                    assert(self.key_cache@ =~= before.subrange(0, j as int) + before.subrange(
                        j as int + 1,
                        n as int,
                    ) + seq![before[j as int]]);
                    assert(self.model() =~~= c);
                    assert forall|k: int|
                        0 <= k < self.key_cache@.len() implies {
                        let ce = #[trigger] self.key_cache@[k];
                        &&& 0 <= ce.0 < self.key_descs@.len()
                        &&& key_block_result(self.model(), ce.0 as int) == Ok::<
                            Seq<(Seq<u8>, u64)>,
                            FormatError,
                        >(evs_view(ce.1@))
                    } by {
                        if k < j {
                            assert(self.key_cache@[k] == before[k]);
                        } else if k < n - 1 {
                            assert(self.key_cache@[k] == before[k + 1]);
                        } else {
                            assert(self.key_cache@[k] == before[j as int]);
                        }
                    }
                }
                return Ok(());
            }
            j = j + 1;
        }
        // miss: decode the block once
        proof {
            lemma_key_block_in_bounds(*self, i as int);
            assert(self.key_offs@[i as int] == key_comp_off(kds_view(self.key_descs@), i as int));
        }
        if self.decode_count < 0xffffffffffffffffu64 {
            self.decode_count = self.decode_count + 1;
        }
        let _ = self.data.len();
        let pos = self.key_data_off + self.key_offs[i];
        let cl = self.key_descs[i].comp_len as usize;
        let dl = self.key_descs[i].decomp_len as usize;
        let ck = read_u32(self.data.as_slice(), pos);
        let comp = vstd::slice::slice_subrange(self.data.as_slice(), pos + 4, pos + 4 + cl);
        proof {
            assert(self.model() =~~= c);
            assert(comp@ =~= c.data.subrange(
                key_block_pos(c, i as int) + 4,
                key_block_pos(c, i as int) + 4 + c.kds[i as int].comp_len,
            ));
            assert(c.data.subrange(pos as int, pos as int + 4) =~= c.data.subrange(
                key_block_pos(c, i as int),
                key_block_pos(c, i as int) + 4,
            ));
        }
        let decoded = match crate::block::decode_block(self.flags.compression, comp, ck, dl) {
            Err(e) => {
                return Err(e);
            },
            Ok(p) => p,
        };
        let es = match parse_entries_exec(
            decoded.as_slice(),
            self.key_descs[i].n_entries,
            self.flags.offset_width,
        ) {
            Err(e) => {
                return Err(e);
            },
            Ok(v) => v,
        };
        if self.key_cache.len() >= CACHE_CAP {
            let ghost before = self.key_cache@;
            let _evicted = self.key_cache.remove(0);
            proof {
                assert(before.remove(0) =~= before.subrange(1, before.len() as int));
            }
        }
        let ghost before_push = self.key_cache@;
        self.key_cache.push((i, es));
        proof {
            assert(self.model() =~~= c);
            assert forall|k: int|
                0 <= k < self.key_cache@.len() implies {
                let ce = #[trigger] self.key_cache@[k];
                &&& 0 <= ce.0 < self.key_descs@.len()
                &&& key_block_result(self.model(), ce.0 as int) == Ok::<
                    Seq<(Seq<u8>, u64)>,
                    FormatError,
                >(evs_view(ce.1@))
            } by {
                if k < before_push.len() {
                    assert(self.key_cache@[k] == before_push[k]);
                }
            }
        }
        Ok(())
    }

    /// Decoded payload of record block `i`, through the cache, with the
    /// same build-once discipline as the key block cache.
    #[verifier::loop_isolation(false)]
    #[verifier::rlimit(60)]
    fn get_rec_block(&mut self, i: usize) -> (r: Result<(), FormatError>)
        requires
            old(self).wf(),
            i < old(self).rec_descs@.len(),
        ensures
            final(self).wf(),
            final(self).model() == old(self).model(),
            final(self).meta == old(self).meta,
            final(self).flags == old(self).flags,
            final(self).key_cache == old(self).key_cache,
            old(self).decode_count <= final(self).decode_count <= old(self).decode_count + 1,
            (exists|k: int|
                0 <= k < old(self).rec_cache@.len() && old(self).rec_cache@[k].0 == i) ==> final(self).decode_count == old(self).decode_count,
            match r {
                Ok(()) => final(self).rec_cache@.len() > 0 && final(self).rec_cache@.last().0 == i
                    && rec_block_result(old(self).model(), i as int) == Ok::<Seq<u8>, FormatError>(
                    final(self).rec_cache@.last().1@,
                ),
                Err(e) => rec_block_result(old(self).model(), i as int) == Err::<
                    Seq<u8>,
                    FormatError,
                >(e),
            },
    {
        let ghost c = self.model();
        let n = self.rec_cache.len();
        let mut j: usize = 0;
        while j < n
            invariant
                n == self.rec_cache@.len(),
                0 <= j <= n,
                forall|k: int| 0 <= k < j ==> self.rec_cache@[k].0 != i,
                *self == *old(self),
            decreases n - j,
        {
            if self.rec_cache[j].0 == i {
                let ghost before = self.rec_cache@;
                let e = self.rec_cache.remove(j);
                self.rec_cache.push(e);
                proof {
                    assert(before.remove(j as int) =~= before.subrange(0, j as int)
                        + before.subrange(j as int + 1, n as int));
                    assert(self.rec_cache@ =~= before.subrange(0, j as int) + before.subrange(
                        j as int + 1,
                        n as int,
                    ) + seq![before[j as int]]);
                    assert(self.model() =~~= c);
                    assert forall|k: int|
                        0 <= k < self.rec_cache@.len() implies {
                        let ce = #[trigger] self.rec_cache@[k];
                        &&& 0 <= ce.0 < self.rec_descs@.len()
                        &&& rec_block_result(self.model(), ce.0 as int) == Ok::<
                            Seq<u8>,
                            FormatError,
                        >(ce.1@)
                    } by {
                        if k < j {
                            assert(self.rec_cache@[k] == before[k]);
                        } else if k < n - 1 {
                            assert(self.rec_cache@[k] == before[k + 1]);
                        } else {
                            assert(self.rec_cache@[k] == before[j as int]);
                        }
                    }
                }
                return Ok(());
            }
            j = j + 1;
        }
        proof {
            lemma_rec_block_in_bounds(*self, i as int);
            assert(self.rec_offs@[i as int] == rec_comp_off(self.rec_descs@, i as int));
        }
        if self.decode_count < 0xffffffffffffffffu64 {
            self.decode_count = self.decode_count + 1;
        }
        let _ = self.data.len();
        let pos = self.rec_data_off + self.rec_offs[i];
        let cl = self.rec_descs[i].comp_len as usize;
        let dl = self.rec_descs[i].decomp_len as usize;
        let ck = read_u32(self.data.as_slice(), pos);
        let comp = vstd::slice::slice_subrange(self.data.as_slice(), pos + 4, pos + 4 + cl);
        proof {
            assert(self.model() =~~= c);
            assert(comp@ =~= c.data.subrange(
                rec_block_pos(c, i as int) + 4,
                rec_block_pos(c, i as int) + 4 + c.rds[i as int].comp_len,
            ));
            assert(c.data.subrange(pos as int, pos as int + 4) =~= c.data.subrange(
                rec_block_pos(c, i as int),
                rec_block_pos(c, i as int) + 4,
            ));
        }
        let decoded = match crate::block::decode_block(self.flags.compression, comp, ck, dl) {
            Err(e) => {
                return Err(e);
            },
            Ok(p) => p,
        };
        if self.rec_cache.len() >= CACHE_CAP {
            let ghost before = self.rec_cache@;
            let _evicted = self.rec_cache.remove(0);
            proof {
                assert(before.remove(0) =~= before.subrange(1, before.len() as int));
            }
        }
        let ghost before_push = self.rec_cache@;
        self.rec_cache.push((i, decoded));
        proof {
            assert(self.model() =~~= c);
            assert forall|k: int|
                0 <= k < self.rec_cache@.len() implies {
                let ce = #[trigger] self.rec_cache@[k];
                &&& 0 <= ce.0 < self.rec_descs@.len()
                &&& rec_block_result(self.model(), ce.0 as int) == Ok::<Seq<u8>, FormatError>(
                    ce.1@,
                )
            } by {
                if k < before_push.len() {
                    assert(self.rec_cache@[k] == before_push[k]);
                }
            }
        }
        Ok(())
    }

    /// Binary search over the key block catalog.
    fn bsearch_exec(&self, key: &[u8], m: CollateMode, lo: usize, hi: usize) -> (r: usize)
        requires
            self.wf(),
            lo <= hi <= self.key_descs@.len(),
        ensures
            lo <= r <= hi,
            r == bsearch_spec(self.model(), key@, m, lo as int, hi as int),
        decreases hi - lo,
    {
        if lo >= hi {
            lo
        } else {
            let mid = lo + (hi - lo) / 2;
            let cm = compare(key, self.key_descs[mid].last_key.as_slice(), m);
            proof {
                assert(kds_view(self.key_descs@)[mid as int] == crate::index::kd_view(
                    self.key_descs@[mid as int],
                ));
            }
            if cm <= 0 {
                self.bsearch_exec(key, m, lo, mid)
            } else {
                self.bsearch_exec(key, m, mid + 1, hi)
            }
        }
    }

    /// First record block whose decompressed range holds `off`.
    fn rec_find_exec(&self, off: u64) -> (r: Option<usize>)
        requires
            self.wf(),
        ensures
            match r {
                Some(ri) => ri < self.rec_descs@.len() && rec_find(self.model(), off as int, 0)
                    == ri,
                None => rec_find(self.model(), off as int, 0) < 0,
            },
    {
        let ghost c = self.model();
        let n = self.rec_descs.len();
        let mut ri: usize = 0;
        while ri < n
            invariant
                self.wf(),
                c == self.model(),
                n == self.rec_descs@.len(),
                0 <= ri <= n,
                rec_find(c, off as int, 0) == rec_find(c, off as int, ri as int),
            decreases n - ri,
        {
            proof {
                lemma_rec_block_in_bounds(*self, ri as int);
            }
            let bend = self.rec_starts[ri] + self.rec_descs[ri].decomp_len as u64;
            if off < bend {
                return Some(ri);
            }
            ri = ri + 1;
        }
        None
    }

    /// Slices the matched entry's content out of its record block.
    fn get_content(&mut self, off: u64, nxt: Option<u64>) -> (r: Result<Vec<u8>, MdxError>)
        requires
            old(self).wf(),
        ensures
            final(self).wf(),
            final(self).model() == old(self).model(),
            final(self).meta == old(self).meta,
            final(self).flags == old(self).flags,
            final(self).key_cache == old(self).key_cache,
            old(self).decode_count <= final(self).decode_count <= old(self).decode_count + 1,
            match r {
                Ok(v) => content_result(old(self).model(), off, nxt) == Ok::<Seq<u8>, MdxError>(
                    v@,
                ),
                Err(e) => content_result(old(self).model(), off, nxt) == Err::<Seq<u8>, MdxError>(
                    e,
                ),
            },
    {
        let ghost c = self.model();
        proof {
            assert(c.rds.take(0) =~= Seq::<RecDesc>::empty());
            lemma_rec_find(c, off as int, 0);
        }
        let ri = match self.rec_find_exec(off) {
            None => {
                return Err(MdxError::Format(FormatError::TruncatedBlock));
            },
            Some(ri) => ri,
        };
        match self.get_rec_block(ri) {
            Err(e) => {
                return Err(MdxError::Format(e));
            },
            Ok(()) => {},
        }
        proof {
            lemma_rec_block_in_bounds(*self, ri as int);
            assert(self.model() == c);
        }
        let pos = self.rec_cache.len() - 1;
        let start = self.rec_starts[ri];
        let dl64 = self.rec_descs[ri].decomp_len as u64;
        let bend = start + dl64;
        let end64: u64 = match nxt {
            Some(no) => if off <= no && no <= bend {
                no
            } else {
                bend
            },
            None => bend,
        };
        let payload = &self.rec_cache[pos].1;
        proof {
            assert(payload@ == rec_block_result(c, ri as int)->Ok_0);
            assert(payload@.len() == c.rds[ri as int].decomp_len);
        }
        let local_start = (off - start) as usize;
        let local_end = (end64 - start) as usize;
        let content = vstd::slice::slice_to_vec(
            vstd::slice::slice_subrange(payload.as_slice(), local_start, local_end),
        );
        Ok(content)
    }
}

/// First entry of a decoded block comparing equal to the keyword.
fn find_entry(es: &Vec<KeyEntry>, key: &[u8], m: CollateMode) -> (r: Option<usize>)
    ensures
        match r {
            Some(j) => j < es@.len() && find_in_entries(evs_view(es@), key@, m, 0) == j,
            None => find_in_entries(evs_view(es@), key@, m, 0) == -1,
        },
{
    let ghost ev = evs_view(es@);
    let n = es.len();
    let mut j: usize = 0;
    while j < n
        invariant
            n == es@.len(),
            ev == evs_view(es@),
            0 <= j <= n,
            find_in_entries(ev, key@, m, 0) == find_in_entries(ev, key@, m, j as int),
        decreases n - j,
    {
        proof {
            assert(ev[j as int] == (es@[j as int].key@, es@[j as int].record_offset));
        }
        let cm = compare(key, es[j].key.as_slice(), m);
        if cm == 0 {
            return Some(j);
        }
        j = j + 1;
    }
    None
}



/// A non-negative `find_in_entries` result is a valid index at or after `j`.
proof fn lemma_find_in_entries_range(es: Seq<(Seq<u8>, u64)>, key: Seq<u8>, m: CollateMode, j: int)
    requires
        0 <= j,
    ensures
        find_in_entries(es, key, m, j) >= 0 ==> j <= find_in_entries(es, key, m, j) < es.len(),
    decreases es.len() - j,
{
    if j < es.len() && key_cmp(key, es[j].0, m) != 0 {
        lemma_find_in_entries_range(es, key, m, j + 1);
    }
}

/// A successful scan landed on a block that decodes, at its first equal entry.
proof fn lemma_scan_blocks_ok(c: CoreSpec, key: Seq<u8>, m: CollateMode, lo: int, hi: int)
    requires
        0 <= lo <= hi + 1,
        scan_blocks(c, key, m, lo, hi) matches Ok(Some(q)),
    ensures
        scan_blocks(c, key, m, lo, hi) matches Ok(Some(q)) ==> {
            &&& lo <= q.0 <= hi
            &&& key_block_result(c, q.0) matches Ok(es) && q.1 == find_in_entries(es, key, m, 0)
                && 0 <= q.1 < es.len()
        },
    decreases hi + 1 - lo,
{
    if lo <= hi {
        match key_block_result(c, lo) {
            Err(_) => {},
            Ok(es) => {
                let j = find_in_entries(es, key, m, 0);
                lemma_find_in_entries_range(es, key, m, 0);
                if j >= 0 {
                } else {
                    lemma_scan_blocks_ok(c, key, m, lo + 1, hi);
                }
            },
        }
    }
}

/// The decoded entries of key block `kb`, where it decodes at all.
pub open spec fn entries_of(c: CoreSpec, kb: int) -> Seq<(Seq<u8>, u64)> {
    match key_block_result(c, kb) {
        Ok(es) => es,
        Err(_) => Seq::empty(),
    }
}

impl MdxHandle {
    /// Scans candidate key blocks `lo..=hi` in order for the keyword.
    #[verifier::loop_isolation(false)]
    fn scan_candidates(&mut self, key: &[u8], m: CollateMode, lo: usize, hi: usize) -> (r: Result<
        Option<(u64, Option<u64>)>,
        FormatError,
    >)
        requires
            old(self).wf(),
            lo <= hi < old(self).key_descs@.len(),
        ensures
            final(self).wf(),
            final(self).model() == old(self).model(),
            final(self).meta == old(self).meta,
            final(self).flags == old(self).flags,
            final(self).rec_cache == old(self).rec_cache,
            old(self).decode_count <= final(self).decode_count <= old(self).decode_count + (hi - lo
                + 1),
            match r {
                Err(e) => scan_blocks(old(self).model(), key@, m, lo as int, hi as int) == Err::<
                    Option<(int, int)>,
                    FormatError,
                >(e),
                Ok(None) => scan_blocks(old(self).model(), key@, m, lo as int, hi as int) == Ok::<
                    Option<(int, int)>,
                    FormatError,
                >(None),
                Ok(Some(p)) => scan_blocks(old(self).model(), key@, m, lo as int, hi as int)
                    matches Ok(Some(q)) && p.0 == entries_of(old(self).model(), q.0)[q.1].1 && p.1
                    == next_off(entries_of(old(self).model(), q.0), q.1),
            },
    {
        let ghost c = self.model();
        let _ = self.key_descs.len();
        let mut cidx = lo;
        while cidx <= hi
            invariant
                self.wf(),
                c == self.model(),
                self.meta == old(self).meta,
                self.flags == old(self).flags,
                self.rec_cache == old(self).rec_cache,
                lo <= cidx <= hi + 1,
                hi < self.key_descs@.len(),
                scan_blocks(c, key@, m, lo as int, hi as int) == scan_blocks(
                    c,
                    key@,
                    m,
                    cidx as int,
                    hi as int,
                ),
                old(self).decode_count <= self.decode_count <= old(self).decode_count + (cidx
                    - lo),
            decreases hi + 1 - cidx,
        {
            match self.get_key_block(cidx) {
                Err(e) => {
                    return Err(e);
                },
                Ok(()) => {},
            }
            let pos = self.key_cache.len() - 1;
            let ghost es = evs_view(self.key_cache@.last().1@);
            proof {
                assert(key_block_result(c, cidx as int) == Ok::<Seq<(Seq<u8>, u64)>, FormatError>(
                    es,
                ));
                assert(entries_of(c, cidx as int) == es);
            }
            match find_entry(&self.key_cache[pos].1, key, m) {
                Some(j) => {
                    let blk = &self.key_cache[pos].1;
                    let off = blk[j].record_offset;
                    let bl = blk.len();
                    let nxt: Option<u64> = if j < bl - 1 {
                        Some(blk[j + 1].record_offset)
                    } else {
                        None
                    };
                    proof {
                        assert(self.key_cache@[pos as int] == self.key_cache@.last());
                        assert(es[j as int] == (blk@[j as int].key@, blk@[j as int].record_offset));
                        if j + 1 < blk@.len() {
                            assert(es[j as int + 1] == (
                                blk@[j as int + 1].key@,
                                blk@[j as int + 1].record_offset,
                            ));
                        }
                    }
                    return Ok(Some((off, nxt)));
                },
                None => {},
            }
            cidx = cidx + 1;
        }
        Ok(None)
    }

    /// Resolves a keyword to its stored content under collation mode `m`.
    ///
    /// The result is exactly `spec_lookup` of the handle's core: candidate
    /// blocks are narrowed by binary search and scanned in order, the first
    /// equal entry's record slice is decoded, aliases are followed up to the
    /// hop bound, and every structural fault surfaces as the corresponding
    /// error.  At most four blocks are decoded per hop, however many blocks
    /// the container has.
    #[verifier::loop_isolation(false)]
    #[verifier::rlimit(80)]
    pub fn lookup(&mut self, key: &[u8], m: CollateMode) -> (r: Result<Vec<u8>, MdxError>)
        requires
            old(self).wf(),
        ensures
            final(self).wf(),
            final(self).model() == old(self).model(),
            final(self).meta == old(self).meta,
            final(self).flags == old(self).flags,
            old(self).decode_count <= final(self).decode_count <= old(self).decode_count + 4 * (
            LINK_HOP_LIMIT + 1),
            match r {
                Ok(v) => spec_lookup(old(self).model(), key@, m) == Ok::<Seq<u8>, MdxError>(v@),
                Err(e) => spec_lookup(old(self).model(), key@, m) == Err::<Seq<u8>, MdxError>(e),
            },
    {
        let ghost c = self.model();
        let enc_ok = encoding_supported_exec(&self.meta.encoding);
        let mut cur: Vec<u8> = vstd::slice::slice_to_vec(key);
        let mut fuel: u64 = LINK_HOP_LIMIT;
        loop
            invariant
                self.wf(),
                c == self.model(),
                self.meta == old(self).meta,
                self.flags == old(self).flags,
                0 <= fuel <= LINK_HOP_LIMIT,
                spec_lookup_at(c, key@, m, LINK_HOP_LIMIT as nat) == spec_lookup_at(
                    c,
                    cur@,
                    m,
                    fuel as nat,
                ),
                old(self).decode_count <= self.decode_count <= old(self).decode_count + 4 * (
                LINK_HOP_LIMIT - fuel),
            decreases fuel,
        {
            let nk = self.key_descs.len();
            if nk == 0 {
                return Err(MdxError::NotFound);
            }
            let b = self.bsearch_exec(cur.as_slice(), m, 0, nk);
            let lo = if b > 0 {
                b - 1
            } else {
                0
            };
            let hi = if b < nk - 1 {
                b + 1
            } else {
                nk - 1
            };
            let found = match self.scan_candidates(cur.as_slice(), m, lo, hi) {
                Err(e) => {
                    return Err(MdxError::Format(e));
                },
                Ok(None) => {
                    return Err(MdxError::NotFound);
                },
                Ok(Some(p)) => p,
            };
            proof {
                lemma_scan_blocks_ok(c, cur@, m, lo as int, hi as int);
            }
            let content = match self.get_content(found.0, found.1) {
                Err(e) => {
                    return Err(e);
                },
                Ok(v) => v,
            };
            match link_target_exec(&content) {
                Some(target) => {
                    if fuel == 0 {
                        return Err(MdxError::LinkCycle);
                    }
                    fuel = fuel - 1;
                    cur = target;
                },
                None => {
                    if !enc_ok {
                        return Err(MdxError::Encoding);
                    }
                    match str::from_utf8(content.as_slice()) {
                        Ok(_) => {
                            return Ok(content);
                        },
                        Err(_) => {
                            return Err(MdxError::Encoding);
                        },
                    }
                },
            }
        }
    }

    /// Whether a keyword has an entry under collation mode `m`: the lookup
    /// truncated after the entry scan.  No record block is touched: the
    /// record decode cache is left exactly as it was.
    #[verifier::loop_isolation(false)]
    pub fn has_key(&mut self, key: &[u8], m: CollateMode) -> (r: Result<bool, MdxError>)
        requires
            old(self).wf(),
        ensures
            final(self).wf(),
            final(self).model() == old(self).model(),
            final(self).meta == old(self).meta,
            final(self).flags == old(self).flags,
            final(self).rec_cache == old(self).rec_cache,
            old(self).decode_count <= final(self).decode_count <= old(self).decode_count + 3,
            match r {
                Ok(b) => spec_has_key(old(self).model(), key@, m) == Ok::<bool, FormatError>(b),
                Err(e) => e matches MdxError::Format(f) && spec_has_key(old(self).model(), key@, m)
                    == Err::<bool, FormatError>(f),
            },
    {
        let nk = self.key_descs.len();
        if nk == 0 {
            return Ok(false);
        }
        let b = self.bsearch_exec(key, m, 0, nk);
        let lo = if b > 0 {
            b - 1
        } else {
            0
        };
        let hi = if b < nk - 1 {
            b + 1
        } else {
            nk - 1
        };
        match self.scan_candidates(key, m, lo, hi) {
            Err(e) => Err(MdxError::Format(e)),
            Ok(None) => Ok(false),
            Ok(Some(_)) => Ok(true),
        }
    }

    /// The dictionary title declared in the header.
    pub fn title(&self) -> (r: &Vec<u8>)
        ensures
            r@ == self.meta.title@,
    {
        &self.meta.title
    }

    /// The dictionary description declared in the header.
    pub fn description(&self) -> (r: &Vec<u8>)
        ensures
            r@ == self.meta.description@,
    {
        &self.meta.description
    }
}


/// Whether the declared text encoding is one the reader can decode.
fn encoding_supported_exec(enc: &Vec<u8>) -> (r: bool)
    ensures
        r == text_encoding_supported(enc@),
{
    if enc.len() == 0 {
        return true;
    }
    let is_utf8 = enc.len() == 5 && enc[0] == 117 && enc[1] == 116 && enc[2] == 102 && enc[3] == 45
        && enc[4] == 56;
    proof {
        if is_utf8 {
            assert(enc@ =~= crate::header::utf8_name());
        }
        if enc@ == crate::header::utf8_name() {
            assert(enc@.len() == 5);
            assert(enc@[0] == 117 && enc@[1] == 116 && enc@[2] == 102 && enc@[3] == 45 && enc@[4]
                == 56);
        }
    }
    is_utf8
}

/// If the content is solely an alias naming another key, that key.
fn link_target_exec(content: &Vec<u8>) -> (r: Option<Vec<u8>>)
    ensures
        match r {
            Some(t) => is_link(content@) && t@ == link_target(content@),
            None => !is_link(content@),
        },
{
    let n = content.len();
    if n <= 8 {
        return None;
    }
    if !(content[0] == 64 && content[1] == 64 && content[2] == 64 && content[3] == 76 && content[4]
        == 73 && content[5] == 78 && content[6] == 75 && content[7] == 61) {
        proof {
            if content@.take(8) == link_marker() {
                assert(content@.take(8)[0] == 64 && content@.take(8)[1] == 64 && content@.take(8)[2]
                    == 64 && content@.take(8)[3] == 76 && content@.take(8)[4] == 73
                    && content@.take(8)[5] == 78 && content@.take(8)[6] == 75 && content@.take(8)[7]
                    == 61);
            }
        }
        return None;
    }
    proof {
        assert(content@.take(8) =~= link_marker());
    }
    let mut end = n;
    proof {
        assert(content@.subrange(8, n as int) =~= content@.skip(8));
    }
    while end > 8 && (content[end - 1] == 0 || content[end - 1] == 13 || content[end - 1] == 10)
        invariant
            8 <= end <= n,
            n == content@.len(),
            trim_trail(content@.skip(8)) == trim_trail(content@.subrange(8, end as int)),
        decreases end,
    {
        proof {
            assert(content@.subrange(8, end as int).drop_last() =~= content@.subrange(
                8,
                end as int - 1,
            ));
            assert(content@.subrange(8, end as int).last() == content@[end as int - 1]);
        }
        end = end - 1;
    }
    proof {
        let s = content@.subrange(8, end as int);
        if s.len() > 0 {
            assert(s.last() == content@[end as int - 1]);
        }
        assert(trim_trail(s) == s);
    }
    if end == 8 {
        None
    } else {
        Some(vstd::slice::slice_to_vec(vstd::slice::slice_subrange(content.as_slice(), 8, end)))
    }
}

/// Every failure of `spec_open` is a structural format error: a truncated
/// or corrupted container is rejected as such, never as a lookup failure.
pub proof fn lemma_open_errors_are_format(data: Seq<u8>)
    ensures
        spec_open(data) matches Err(e) ==> e matches MdxError::Format(_),
{
}

/// `has_key` is `lookup` truncated after the entry scan: both consult the
/// same `spec_find`.  Where the scan fails, both report the same format
/// error, and where no entry matches the keyword, `lookup` reports
/// `NotFound`.  (A matched alias whose target is itself absent still makes
/// `lookup` report `NotFound` while `has_key` holds, so only these two
/// directions are laws.)
pub proof fn lemma_has_key_vs_lookup(c: CoreSpec, key: Seq<u8>, m: CollateMode)
    ensures
        spec_has_key(c, key, m) matches Err(e) ==> spec_lookup(c, key, m) == Err::<
            Seq<u8>,
            MdxError,
        >(MdxError::Format(e)),
        spec_has_key(c, key, m) == Ok::<bool, FormatError>(false) ==> spec_lookup(c, key, m)
            == Err::<Seq<u8>, MdxError>(MdxError::NotFound),
{
}

/// Link resolution is a bounded loop, not recursion into the data: with
/// fuel left, a link resolves exactly as a fresh lookup of its target with
/// one hop less; with no fuel left it fails with `LinkCycle`.
pub proof fn lemma_link_hop(c: CoreSpec, key: Seq<u8>, m: CollateMode, fuel: nat)
    requires
        spec_find(c, key, m) matches Ok(Some(q)) && key_block_result(c, q.0) matches Ok(es)
            && content_result(c, es[q.1].1, next_off(es, q.1)) matches Ok(content) && is_link(
            content,
        ),
    ensures
        spec_find(c, key, m) matches Ok(Some(q)) ==> (key_block_result(c, q.0) matches Ok(es)
            && content_result(c, es[q.1].1, next_off(es, q.1)) matches Ok(content) && {
            &&& fuel == 0 ==> spec_lookup_at(c, key, m, fuel) == Err::<Seq<u8>, MdxError>(
                MdxError::LinkCycle,
            )
            &&& fuel > 0 ==> spec_lookup_at(c, key, m, fuel) == spec_lookup_at(
                c,
                link_target(content),
                m,
                (fuel - 1) as nat,
            )
        }),
{
}

/// The key block catalog is sorted under mode `m`: the stored last keys
/// are non-decreasing.
pub open spec fn sorted_under(c: CoreSpec, m: CollateMode) -> bool {
    forall|i: int, j: int|
        0 <= i <= j < c.kds.len() ==> key_cmp(c.kds[i].last_key, c.kds[j].last_key, m) <= 0
}

/// Block `i` conforms to its catalog entry under mode `m`: it decodes, is
/// non-empty, its entries lie within the stored bounds, its last entry
/// attains the stored last key, and it starts at or above the previous
/// block's last key.
pub open spec fn conformant_block(c: CoreSpec, m: CollateMode, i: int) -> bool {
    &&& key_block_result(c, i) is Ok
    &&& entries_of(c, i).len() > 0
    &&& forall|j: int|
        0 <= j < entries_of(c, i).len() ==> key_cmp(c.kds[i].first_key, entries_of(c, i)[j].0, m)
            <= 0 && key_cmp(entries_of(c, i)[j].0, c.kds[i].last_key, m) <= 0
    &&& key_cmp(entries_of(c, i).last().0, c.kds[i].last_key, m) == 0
    &&& (0 < i ==> key_cmp(c.kds[i - 1].last_key, c.kds[i].first_key, m) <= 0)
}

/// Every block conforms to the catalog under mode `m`.
pub open spec fn conformant_under(c: CoreSpec, m: CollateMode) -> bool {
    forall|i: int| 0 <= i < c.kds.len() ==> conformant_block(c, m, i)
}

/// Some entry of block `i` compares equal to the keyword.
pub open spec fn has_match_in(c: CoreSpec, m: CollateMode, key: Seq<u8>, i: int) -> bool {
    find_in_entries(entries_of(c, i), key, m, 0) >= 0
}

/// Some block holds an entry equal to the keyword.
pub open spec fn has_match(c: CoreSpec, key: Seq<u8>, m: CollateMode) -> bool {
    exists|i: int| 0 <= i < c.kds.len() && has_match_in(c, m, key, i)
}

proof fn lemma_find_in_entries_props(es: Seq<(Seq<u8>, u64)>, key: Seq<u8>, m: CollateMode, j: int)
    requires
        0 <= j,
    ensures
        find_in_entries(es, key, m, j) >= 0 ==> {
            let f = find_in_entries(es, key, m, j);
            &&& j <= f < es.len()
            &&& key_cmp(key, es[f].0, m) == 0
            &&& forall|k: int| j <= k < f ==> key_cmp(key, es[k].0, m) != 0
        },
        find_in_entries(es, key, m, j) < 0 ==> forall|k: int|
            j <= k < es.len() ==> key_cmp(key, es[k].0, m) != 0,
    decreases es.len() - j,
{
    if j < es.len() && key_cmp(key, es[j].0, m) != 0 {
        lemma_find_in_entries_props(es, key, m, j + 1);
    }
}

proof fn lemma_bsearch_sorted(c: CoreSpec, key: Seq<u8>, m: CollateMode, lo: int, hi: int)
    requires
        sorted_under(c, m),
        0 <= lo <= hi <= c.kds.len(),
    ensures
        ({
            let r = bsearch_spec(c, key, m, lo, hi);
            &&& lo <= r <= hi
            &&& forall|i: int| lo <= i < r ==> key_cmp(key, c.kds[i].last_key, m) > 0
            &&& (r < hi ==> key_cmp(key, c.kds[r].last_key, m) <= 0)
        }),
    decreases hi - lo,
{
    if lo < hi {
        let mid = lo + (hi - lo) / 2;
        if key_cmp(key, c.kds[mid].last_key, m) <= 0 {
            lemma_bsearch_sorted(c, key, m, lo, mid);
        } else {
            lemma_bsearch_sorted(c, key, m, mid + 1, hi);
            let r = bsearch_spec(c, key, m, mid + 1, hi);
            assert forall|i: int| lo <= i < r implies key_cmp(key, c.kds[i].last_key, m) > 0 by {
                if i <= mid {
                    assert(key_cmp(c.kds[i].last_key, c.kds[mid].last_key, m) <= 0);
                    crate::collate::lemma_key_cmp_total_order(key, c.kds[mid].last_key, key, m);
                    crate::collate::lemma_key_cmp_total_order(
                        c.kds[i].last_key,
                        c.kds[mid].last_key,
                        key,
                        m,
                    );
                    crate::collate::lemma_key_cmp_total_order(key, c.kds[i].last_key, key, m);
                }
            }
        }
    }
}

proof fn lemma_no_match_past(c: CoreSpec, key: Seq<u8>, m: CollateMode, i: int)
    requires
        0 <= i < c.kds.len(),
        conformant_block(c, m, i),
        key_cmp(key, c.kds[i].last_key, m) > 0,
    ensures
        !has_match_in(c, m, key, i),
{
    let es = entries_of(c, i);
    lemma_find_in_entries_props(es, key, m, 0);
    if find_in_entries(es, key, m, 0) >= 0 {
        let f = find_in_entries(es, key, m, 0);
        // the matched entry sits at or below the stored last key, so the
        // keyword does too: contradiction
        crate::collate::lemma_key_cmp_total_order(key, es[f].0, c.kds[i].last_key, m);
        assert(crate::collate::norm(key, m) == crate::collate::norm(es[f].0, m));
        assert(key_cmp(key, c.kds[i].last_key, m) == key_cmp(es[f].0, c.kds[i].last_key, m));
    }
}

proof fn lemma_first_le_last(c: CoreSpec, m: CollateMode, i: int)
    requires
        0 <= i < c.kds.len(),
        conformant_block(c, m, i),
    ensures
        key_cmp(c.kds[i].first_key, c.kds[i].last_key, m) <= 0,
{
    let es = entries_of(c, i);
    assert(key_cmp(c.kds[i].first_key, es[0].0, m) <= 0);
    assert(key_cmp(es[0].0, c.kds[i].last_key, m) <= 0);
    crate::collate::lemma_key_cmp_total_order(c.kds[i].first_key, es[0].0, c.kds[i].last_key, m);
}

proof fn lemma_chain(c: CoreSpec, m: CollateMode, a: int, b: int)
    requires
        sorted_under(c, m),
        conformant_under(c, m),
        0 <= a < b < c.kds.len(),
    ensures
        key_cmp(c.kds[a].last_key, c.kds[b].first_key, m) <= 0,
    decreases b - a,
{
    if a == b - 1 {
        assert(conformant_block(c, m, b));
    } else {
        lemma_chain(c, m, a, b - 1);
        lemma_first_le_last(c, m, b - 1);
        assert(conformant_block(c, m, b));
        crate::collate::lemma_key_cmp_total_order(
            c.kds[a].last_key,
            c.kds[b - 1].first_key,
            c.kds[b - 1].last_key,
            m,
        );
        crate::collate::lemma_key_cmp_total_order(
            c.kds[a].last_key,
            c.kds[b - 1].last_key,
            c.kds[b].first_key,
            m,
        );
    }
}

proof fn lemma_scan_none(c: CoreSpec, key: Seq<u8>, m: CollateMode, lo: int, hi: int)
    requires
        0 <= lo <= hi + 1,
        hi < c.kds.len(),
        forall|i: int| lo <= i <= hi ==> (#[trigger] key_block_result(c, i)) is Ok,
        forall|i: int| lo <= i <= hi ==> !(#[trigger] has_match_in(c, m, key, i)),
    ensures
        scan_blocks(c, key, m, lo, hi) == Ok::<Option<(int, int)>, FormatError>(None),
    decreases hi + 1 - lo,
{
    if lo <= hi {
        assert(!has_match_in(c, m, key, lo));
        assert(key_block_result(c, lo) is Ok);
        assert(entries_of(c, lo) == key_block_result(c, lo)->Ok_0);
        lemma_scan_none(c, key, m, lo + 1, hi);
    }
}


proof fn lemma_match_moves_left(c: CoreSpec, key: Seq<u8>, m: CollateMode, b: int, j: int)
    requires
        sorted_under(c, m),
        conformant_under(c, m),
        0 <= b < j < c.kds.len(),
        key_cmp(key, c.kds[b].last_key, m) <= 0,
        has_match_in(c, m, key, j),
    ensures
        has_match_in(c, m, key, b),
{
    let esj = entries_of(c, j);
    let f = find_in_entries(esj, key, m, 0);
    lemma_find_in_entries_props(esj, key, m, 0);
    assert(conformant_block(c, m, j));
    assert(key_cmp(c.kds[j].first_key, esj[f].0, m) <= 0);
    crate::collate::lemma_key_cmp_total_order(key, esj[f].0, c.kds[j].first_key, m);
    assert(crate::collate::norm(key, m) == crate::collate::norm(esj[f].0, m));
    assert(key_cmp(c.kds[j].first_key, key, m) == key_cmp(c.kds[j].first_key, esj[f].0, m));
    lemma_chain(c, m, b, j);
    // last[b] <= first[j] <= key <= last[b]: all equal under m
    crate::collate::lemma_key_cmp_total_order(c.kds[b].last_key, c.kds[j].first_key, key, m);
    crate::collate::lemma_key_cmp_total_order(key, c.kds[b].last_key, key, m);
    assert(key_cmp(key, c.kds[b].last_key, m) == 0);
    assert(crate::collate::norm(key, m) == crate::collate::norm(c.kds[b].last_key, m));
    // block b's last entry attains last[b], so it matches
    assert(conformant_block(c, m, b));
    let esb = entries_of(c, b);
    crate::collate::lemma_key_cmp_total_order(esb.last().0, c.kds[b].last_key, key, m);
    assert(crate::collate::norm(esb.last().0, m) == crate::collate::norm(c.kds[b].last_key, m));
    assert(key_cmp(key, esb[esb.len() - 1].0, m) == 0);
    lemma_find_in_entries_props(esb, key, m, 0);
}

/// Completeness of the block narrowing.  Where the catalog is sorted under
/// the lookup's mode and every block's entries respect its stored bounds,
/// `spec_find` succeeds, finds an entry exactly when some block holds an
/// equal one, and the entry found is the globally first equal entry: no
/// present key is missed, and homographs resolve to the earliest stored
/// entry.
#[verifier::rlimit(100)]
#[verifier::spinoff_prover]
pub proof fn lemma_find_complete(c: CoreSpec, key: Seq<u8>, m: CollateMode)
    requires
        sorted_under(c, m),
        conformant_under(c, m),
    ensures
        spec_find(c, key, m) is Ok,
        (spec_find(c, key, m) matches Ok(Some(q))) <==> has_match(c, key, m),
        spec_find(c, key, m) matches Ok(Some(q)) ==> {
            &&& 0 <= q.0 < c.kds.len()
            &&& 0 <= q.1 < entries_of(c, q.0).len()
            &&& key_cmp(key, entries_of(c, q.0)[q.1].0, m) == 0
            &&& forall|i: int| 0 <= i < q.0 ==> !has_match_in(c, m, key, i)
            &&& forall|j: int| 0 <= j < q.1 ==> key_cmp(key, entries_of(c, q.0)[j].0, m) != 0
        },
{
    let n = c.kds.len() as int;
    if n == 0 {
        assert(!has_match(c, key, m));
    } else {
        lemma_bsearch_sorted(c, key, m, 0, n);
        let b = bsearch_spec(c, key, m, 0, n);
        let cl = cand_lo(b);
        let ch = cand_hi(c, b);
        assert forall|i: int| 0 <= i < b implies !has_match_in(c, m, key, i) by {
            assert(conformant_block(c, m, i));
            lemma_no_match_past(c, key, m, i);
        }
        if b == n {
            assert forall|i: int| cl <= i <= ch implies (#[trigger] key_block_result(c, i))
                is Ok by {
                assert(conformant_block(c, m, i));
            }
            lemma_scan_none(c, key, m, cl, ch);
            assert(!has_match(c, key, m));
        } else {
            // b < n, and the keyword compares at or below last[b]
            if has_match(c, key, m) {
                let j = choose|i: int| 0 <= i < n && has_match_in(c, m, key, i);
                assert(j >= b);
                if j > b {
                    lemma_match_moves_left(c, key, m, b, j);
                }
                // the scan skips the left neighbor and stops in block b
                assert(conformant_block(c, m, b));
                let esb = entries_of(c, b);
                let fb = find_in_entries(esb, key, m, 0);
                lemma_find_in_entries_props(esb, key, m, 0);
                if cl < b {
                    assert(conformant_block(c, m, cl));
                    assert(!has_match_in(c, m, key, cl));
                    assert(entries_of(c, cl) == key_block_result(c, cl)->Ok_0);
                    assert(find_in_entries(entries_of(c, cl), key, m, 0) < 0);
                    assert(scan_blocks(c, key, m, cl, ch) == scan_blocks(c, key, m, cl + 1, ch));
                }
                assert(esb == key_block_result(c, b)->Ok_0);
                assert(scan_blocks(c, key, m, b, ch) == Ok::<Option<(int, int)>, FormatError>(
                    Some((b, fb)),
                ));
            } else {
                assert forall|i: int| cl <= i <= ch implies (#[trigger] key_block_result(c, i))
                    is Ok by {
                    assert(conformant_block(c, m, i));
                }
                assert forall|i: int| cl <= i <= ch implies !(#[trigger] has_match_in(
                    c,
                    m,
                    key,
                    i,
                )) by {
                    if has_match_in(c, m, key, i) {
                        assert(has_match(c, key, m));
                    }
                }
                lemma_scan_none(c, key, m, cl, ch);
            }
        }
    }
}

/// The same core over different container bytes.
pub open spec fn with_data(c: CoreSpec, d: Seq<u8>) -> CoreSpec {
    CoreSpec { data: d, ..c }
}

/// Flipping one byte anywhere in a key block's stored region — its checksum
/// prefix or its compressed payload — makes that block's decode fail with
/// `ChecksumMismatch`.  With `lemma_scan_reaches_corrupt_block` below, every
/// lookup whose candidate scan reaches the block fails the same way:
/// substituted bytes are never decoded.
pub proof fn lemma_flipped_key_block(c: CoreSpec, i: int, p: int, v: u8)
    requires
        0 <= i < c.kds.len(),
        0 <= key_block_pos(c, i),
        key_block_pos(c, i) + 4 + c.kds[i].comp_len <= c.data.len(),
        key_block_pos(c, i) <= p < key_block_pos(c, i) + 4 + c.kds[i].comp_len,
        v != c.data[p],
        key_block_result(c, i) is Ok,
    ensures
        key_block_result(with_data(c, c.data.update(p, v)), i) == Err::<
            Seq<(Seq<u8>, u64)>,
            FormatError,
        >(FormatError::ChecksumMismatch),
{
    let pos = key_block_pos(c, i);
    let cl = c.kds[i].comp_len as int;
    let c2 = with_data(c, c.data.update(p, v));
    let payload = c.data.subrange(pos + 4, pos + 4 + cl);
    let ck = be32(c.data.subrange(pos, pos + 4));
    if p < pos + 4 {
        // the stored checksum changed while the payload did not
        assert(c2.data.subrange(pos + 4, pos + 4 + cl) =~= payload);
        let ck2 = be32(c2.data.subrange(pos, pos + 4));
        assert(ck2 != ck) by {
            let s1 = c.data.subrange(pos, pos + 4);
            let s2 = c2.data.subrange(pos, pos + 4);
            assert(s2 =~= s1.update(p - pos, v));
            assert(s2[p - pos] == v && s1[p - pos] == c.data[p]);
        }
    } else {
        // the payload changed while the stored checksum did not
        assert(c2.data.subrange(pos, pos + 4) =~= c.data.subrange(pos, pos + 4));
        assert(c2.data.subrange(pos + 4, pos + 4 + cl) =~= payload.update(p - (pos + 4), v));
        crate::block::lemma_flipped_block_fails(
            c.comp,
            payload,
            p - (pos + 4),
            v,
            ck,
            c.kds[i].decomp_len as nat,
        );
    }
}

/// A candidate scan that reaches a block which fails to decode fails with
/// that block's error: earlier candidates decode and hold no match, so the
/// corrupt block's fault is the lookup's result.
pub proof fn lemma_scan_reaches_corrupt_block(
    c: CoreSpec,
    key: Seq<u8>,
    m: CollateMode,
    lo: int,
    hi: int,
    i: int,
)
    requires
        0 <= lo <= i <= hi,
        hi < c.kds.len(),
        forall|j: int| lo <= j < i ==> (#[trigger] key_block_result(c, j)) is Ok,
        forall|j: int| lo <= j < i ==> !(#[trigger] has_match_in(c, m, key, j)),
        key_block_result(c, i) is Err,
    ensures
        key_block_result(c, i) matches Err(e) ==> scan_blocks(c, key, m, lo, hi) == Err::<
            Option<(int, int)>,
            FormatError,
        >(e),
    decreases i - lo,
{
    if lo < i {
        assert(!has_match_in(c, m, key, lo));
        assert(key_block_result(c, lo) is Ok);
        assert(entries_of(c, lo) == key_block_result(c, lo)->Ok_0);
        lemma_scan_reaches_corrupt_block(c, key, m, lo + 1, hi, i);
    }
}

proof fn lemma_find_in_entries_congr(
    es: Seq<(Seq<u8>, u64)>,
    a: Seq<u8>,
    b: Seq<u8>,
    m: CollateMode,
    j: int,
)
    requires
        crate::collate::norm(a, m) == crate::collate::norm(b, m),
        0 <= j,
    ensures
        find_in_entries(es, a, m, j) == find_in_entries(es, b, m, j),
    decreases es.len() - j,
{
    if j < es.len() && key_cmp(a, es[j].0, m) != 0 {
        lemma_find_in_entries_congr(es, a, b, m, j + 1);
    }
}

proof fn lemma_bsearch_congr(c: CoreSpec, a: Seq<u8>, b: Seq<u8>, m: CollateMode, lo: int, hi: int)
    requires
        crate::collate::norm(a, m) == crate::collate::norm(b, m),
    ensures
        bsearch_spec(c, a, m, lo, hi) == bsearch_spec(c, b, m, lo, hi),
    decreases hi - lo,
{
    if lo < hi {
        let mid = lo + (hi - lo) / 2;
        if key_cmp(a, c.kds[mid].last_key, m) <= 0 {
            lemma_bsearch_congr(c, a, b, m, lo, mid);
        } else {
            lemma_bsearch_congr(c, a, b, m, mid + 1, hi);
        }
    }
}


proof fn lemma_bsearch_range(c: CoreSpec, key: Seq<u8>, m: CollateMode, lo: int, hi: int)
    requires
        lo <= hi,
    ensures
        lo <= bsearch_spec(c, key, m, lo, hi) <= hi,
    decreases hi - lo,
{
    if lo < hi {
        let mid = lo + (hi - lo) / 2;
        if key_cmp(key, c.kds[mid].last_key, m) <= 0 {
            lemma_bsearch_range(c, key, m, lo, mid);
        } else {
            lemma_bsearch_range(c, key, m, mid + 1, hi);
        }
    }
}

proof fn lemma_scan_congr(c: CoreSpec, a: Seq<u8>, b: Seq<u8>, m: CollateMode, lo: int, hi: int)
    requires
        crate::collate::norm(a, m) == crate::collate::norm(b, m),
        lo <= hi + 1,
    ensures
        scan_blocks(c, a, m, lo, hi) == scan_blocks(c, b, m, lo, hi),
    decreases hi + 1 - lo,
{
    if lo <= hi {
        match key_block_result(c, lo) {
            Err(_) => {},
            Ok(es) => {
                lemma_find_in_entries_congr(es, a, b, m, 0);
                if find_in_entries(es, a, m, 0) < 0 {
                    lemma_scan_congr(c, a, b, m, lo + 1, hi);
                }
            },
        }
    }
}

/// Keys that normalize alike under the mode are indistinguishable to the
/// engine: narrowing, scan, `has_key` and the full lookup agree on them.
pub proof fn lemma_norm_equal_keys_agree(c: CoreSpec, a: Seq<u8>, b: Seq<u8>, m: CollateMode)
    requires
        crate::collate::norm(a, m) == crate::collate::norm(b, m),
    ensures
        spec_find(c, a, m) == spec_find(c, b, m),
        spec_has_key(c, a, m) == spec_has_key(c, b, m),
        spec_lookup(c, a, m) == spec_lookup(c, b, m),
{
    if c.kds.len() > 0 {
        let n = c.kds.len() as int;
        lemma_bsearch_congr(c, a, b, m, 0, n);
        lemma_bsearch_range(c, a, m, 0, n);
        let bs = bsearch_spec(c, a, m, 0, n);
        lemma_scan_congr(c, a, b, m, cand_lo(bs), cand_hi(c, bs));
    }
    assert(spec_find(c, a, m) == spec_find(c, b, m));
    // one unfolding of the lookup: an equal find gives equal content, and a
    // link recursion continues on the same target either way
    assert(spec_lookup_at(c, a, m, LINK_HOP_LIMIT as nat) == spec_lookup_at(
        c,
        b,
        m,
        LINK_HOP_LIMIT as nat,
    ));
}

/// Under a case-insensitive mode, two spellings that fold to the same key
/// resolve to the same entry and the same content; under the case-sensitive
/// modes they are compared verbatim.
pub proof fn lemma_case_insensitive_same_entry(c: CoreSpec, a: Seq<u8>, b: Seq<u8>, p: bool)
    requires
        crate::collate::fold_of(a) == crate::collate::fold_of(b),
    ensures
        ({
            let m = CollateMode { fold_case: true, ignore_punct: p };
            &&& spec_has_key(c, a, m) == spec_has_key(c, b, m)
            &&& spec_lookup(c, a, m) == spec_lookup(c, b, m)
        }),
{
    let m = CollateMode { fold_case: true, ignore_punct: p };
    crate::collate::lemma_insensitive_is_folded_sensitive(a, b, p);
    crate::collate::lemma_key_cmp_total_order(
        crate::collate::fold_of(a),
        crate::collate::fold_of(b),
        a,
        CollateMode { fold_case: false, ignore_punct: p },
    );
    crate::collate::lemma_key_cmp_total_order(a, b, a, m);
    assert(key_cmp(a, b, m) == 0);
    lemma_norm_equal_keys_agree(c, a, b, m);
}

} // verus!
