//! End-to-end tests over synthetically constructed containers.

use mdx_core::checksum::adler32;
use mdx_core::collate::compare;
use mdx_core::collate::CollateMode;
use mdx_core::dict::open;
use mdx_core::dict::MdxHandle;
use mdx_core::error::FormatError;
use mdx_core::error::MdxError;

fn be16(v: u16) -> Vec<u8> {
    v.to_be_bytes().to_vec()
}

fn be32(v: u32) -> Vec<u8> {
    v.to_be_bytes().to_vec()
}

fn be64(v: u64) -> Vec<u8> {
    v.to_be_bytes().to_vec()
}

/// One stored block: checksum over the (possibly compressed) body, then the body.
fn block_bytes(payload: &[u8], comp: u8) -> (Vec<u8>, u32, u32) {
    let body = match comp {
        2 => miniz_oxide::deflate::compress_to_vec(payload, 6),
        _ => payload.to_vec(),
    };
    let mut out = be32(adler32(&body));
    out.extend_from_slice(&body);
    (out, body.len() as u32, payload.len() as u32)
}

/// Builds a container: header text, key blocks of (key, record offset)
/// entries, record block payloads, compression kind for the blocks.
fn build_container(
    header_text: &str,
    key_blocks: &[Vec<(Vec<u8>, u64)>],
    records: &[Vec<u8>],
    comp: u8,
) -> Vec<u8> {
    let text = header_text.as_bytes();
    let mut out = be32(text.len() as u32);
    out.extend_from_slice(text);
    out.extend_from_slice(&be32(adler32(text)));

    // key block payloads and catalog
    let mut key_data: Vec<u8> = Vec::new();
    let mut key_index: Vec<u8> = be32(key_blocks.len() as u32);
    for blk in key_blocks {
        let mut payload: Vec<u8> = Vec::new();
        for (key, off) in blk {
            payload.extend_from_slice(&be64(*off));
            payload.extend_from_slice(key);
            payload.push(0);
        }
        let (stored, cl, dl) = block_bytes(&payload, comp);
        key_data.extend_from_slice(&stored);
        key_index.extend_from_slice(&be32(blk.len() as u32));
        key_index.extend_from_slice(&be32(cl));
        key_index.extend_from_slice(&be32(dl));
        let first = &blk.first().map(|e| e.0.clone()).unwrap_or_default();
        let last = &blk.last().map(|e| e.0.clone()).unwrap_or_default();
        key_index.extend_from_slice(&be16(first.len() as u16));
        key_index.extend_from_slice(first);
        key_index.extend_from_slice(&be16(last.len() as u16));
        key_index.extend_from_slice(last);
    }
    // key index section, stored plain
    out.push(0);
    out.extend_from_slice(&be32(key_index.len() as u32));
    out.extend_from_slice(&be32(key_index.len() as u32));
    out.extend_from_slice(&be32(adler32(&key_index)));
    out.extend_from_slice(&key_index);
    out.extend_from_slice(&key_data);

    // record blocks
    let mut rec_data: Vec<u8> = Vec::new();
    let mut rec_index: Vec<u8> = be32(records.len() as u32);
    for payload in records {
        let (stored, cl, dl) = block_bytes(payload, comp);
        rec_data.extend_from_slice(&stored);
        rec_index.extend_from_slice(&be32(cl));
        rec_index.extend_from_slice(&be32(dl));
    }
    out.push(0);
    out.extend_from_slice(&be32(rec_index.len() as u32));
    out.extend_from_slice(&be32(rec_index.len() as u32));
    out.extend_from_slice(&be32(adler32(&rec_index)));
    out.extend_from_slice(&rec_index);
    out.extend_from_slice(&rec_data);
    out
}

/// A small three-entry dictionary in one key block and one record block.
fn simple_container(comp: u8) -> Vec<u8> {
    let contents = ["<b>ant</b>", "<b>apple</b>", "<b>zoo</b>"];
    let mut stream: Vec<u8> = Vec::new();
    let mut entries: Vec<(Vec<u8>, u64)> = Vec::new();
    for (key, content) in ["ant", "apple", "zoo"].iter().zip(contents.iter()) {
        entries.push((key.as_bytes().to_vec(), stream.len() as u64));
        stream.extend_from_slice(content.as_bytes());
    }
    let header = format!(
        "t=Test Dict\nd=A little test dictionary\nv=2\nc={}\ne=0\nn=utf-8",
        comp
    );
    build_container(&header, &[entries], &[stream], comp)
}

fn bin() -> CollateMode {
    CollateMode { fold_case: false, ignore_punct: false }
}

#[test]
fn lookup_returns_encoded_content() {
    let data = simple_container(0);
    let mut h: MdxHandle = open(data).unwrap();
    assert_eq!(h.lookup(b"ant", bin()).unwrap(), b"<b>ant</b>".to_vec());
    assert_eq!(h.lookup(b"apple", bin()).unwrap(), b"<b>apple</b>".to_vec());
    assert_eq!(h.lookup(b"zoo", bin()).unwrap(), b"<b>zoo</b>".to_vec());
    assert_eq!(h.lookup(b"missing", bin()), Err(MdxError::NotFound));
}

#[test]
fn has_key_agrees_with_lookup() {
    let data = simple_container(0);
    let mut h = open(data).unwrap();
    for key in [&b"ant"[..], b"apple", b"zoo", b"missing", b""] {
        let has = h.has_key(key, bin()).unwrap();
        let found = h.lookup(key, bin());
        assert_eq!(has, found.is_ok());
        assert_eq!(!has, found == Err(MdxError::NotFound));
    }
}

#[test]
fn metadata_accessors() {
    let data = simple_container(0);
    let h = open(data).unwrap();
    assert_eq!(h.title().as_slice(), b"Test Dict");
    assert_eq!(h.description().as_slice(), b"A little test dictionary");
}

#[test]
fn deflate_blocks_round_trip() {
    // The same dictionary with every block DEFLATE-compressed: lookups see
    // the original content, so decompression really ran.
    let data = simple_container(2);
    let mut h = open(data).unwrap();
    assert_eq!(h.lookup(b"apple", bin()).unwrap(), b"<b>apple</b>".to_vec());
    assert_eq!(h.lookup(b"zoo", bin()).unwrap(), b"<b>zoo</b>".to_vec());
}

#[test]
fn bounded_block_decodes_per_lookup() {
    // Many key blocks: one lookup may decode at most the candidate block,
    // its two neighbors, and one record block.
    let mut blocks: Vec<Vec<(Vec<u8>, u64)>> = Vec::new();
    let mut records: Vec<Vec<u8>> = Vec::new();
    let mut pos: u64 = 0;
    for i in 0..16u32 {
        let key = format!("key{:02}", i).into_bytes();
        let content = format!("content {}", i).into_bytes();
        blocks.push(vec![(key, pos)]);
        pos += content.len() as u64;
        records.push(content);
    }
    let data = build_container("v=2\nc=0", &blocks, &records, 0);
    let mut h = open(data).unwrap();
    let before = h.decode_count;
    assert_eq!(h.lookup(b"key07", bin()).unwrap(), b"content 7".to_vec());
    assert!(h.decode_count - before <= 4);
}

#[test]
fn single_byte_flip_fails_checksum() {
    let clean = simple_container(0);
    let mut h = open(clean.clone()).unwrap();
    assert!(h.lookup(b"apple", bin()).is_ok());
    // The key data region follows the header and the key index section;
    // flip one byte inside every block payload in turn and expect every
    // affected lookup to fail with ChecksumMismatch, never wrong content.
    let header_len = 8 + u32::from_be_bytes(clean[0..4].try_into().unwrap()) as usize;
    let mut seen_mismatch = 0;
    for pos in header_len..clean.len() {
        let mut corrupt = clean.clone();
        corrupt[pos] ^= 0x40;
        match open(corrupt) {
            Err(MdxError::Format(_)) => {},
            Err(e) => panic!("unexpected open error {:?}", e),
            Ok(mut h2) => {
                for key in [&b"ant"[..], b"apple", b"zoo"] {
                    match h2.lookup(key, bin()) {
                        Ok(v) => {
                            // untouched path: content must still be exact
                            let mut expect = b"<b>".to_vec();
                            expect.extend_from_slice(key);
                            expect.extend_from_slice(b"</b>");
                            assert_eq!(v, expect);
                        },
                        Err(MdxError::Format(FormatError::ChecksumMismatch)) => {
                            seen_mismatch += 1;
                        },
                        Err(e) => panic!("unexpected lookup error {:?}", e),
                    }
                }
            },
        }
    }
    assert!(seen_mismatch > 0);
}

#[test]
fn link_entries_resolve_and_cycles_fail() {
    let mut stream: Vec<u8> = Vec::new();
    let mut entries: Vec<(Vec<u8>, u64)> = Vec::new();
    let items: [(&str, &str); 4] = [
        ("alias", "@@@LINK=apple\r\n"),
        ("apple", "the fruit"),
        ("loop_a", "@@@LINK=loop_b"),
        ("loop_b", "@@@LINK=loop_a"),
    ];
    for (key, content) in items {
        entries.push((key.as_bytes().to_vec(), stream.len() as u64));
        stream.extend_from_slice(content.as_bytes());
    }
    let data = build_container("v=2\nc=0", &[entries], &[stream], 0);
    let mut h = open(data).unwrap();
    assert_eq!(h.lookup(b"alias", bin()).unwrap(), b"the fruit".to_vec());
    assert_eq!(h.lookup(b"apple", bin()).unwrap(), b"the fruit".to_vec());
    assert_eq!(h.lookup(b"loop_a", bin()), Err(MdxError::LinkCycle));
    assert_eq!(h.lookup(b"loop_b", bin()), Err(MdxError::LinkCycle));
}

#[test]
fn collation_modes_are_observably_distinct() {
    let fold = CollateMode { fold_case: true, ignore_punct: false };
    // stable sort under case-insensitive mode groups "Apple"/"apple"
    // adjacently, in original relative order
    let mut v = vec!["Zoo", "Apple", "apple", "Ant"];
    v.sort_by(|a, b| match compare(a.as_bytes(), b.as_bytes(), fold) {
        -1 => std::cmp::Ordering::Less,
        0 => std::cmp::Ordering::Equal,
        _ => std::cmp::Ordering::Greater,
    });
    assert_eq!(v, vec!["Ant", "Apple", "apple", "Zoo"]);
    // case-sensitive binary order separates them
    let mut w = vec!["Zoo", "Apple", "apple", "Ant"];
    w.sort_by(|a, b| match compare(a.as_bytes(), b.as_bytes(), bin()) {
        -1 => std::cmp::Ordering::Less,
        0 => std::cmp::Ordering::Equal,
        _ => std::cmp::Ordering::Greater,
    });
    assert_eq!(w, vec!["Ant", "Apple", "Zoo", "apple"]);
}

#[test]
fn case_sensitive_and_insensitive_lookup_differ() {
    let mut stream: Vec<u8> = Vec::new();
    let mut entries: Vec<(Vec<u8>, u64)> = Vec::new();
    for (key, content) in [("Apple", "upper"), ("apple", "lower")] {
        entries.push((key.as_bytes().to_vec(), stream.len() as u64));
        stream.extend_from_slice(content.as_bytes());
    }
    let data = build_container("v=2\nc=0", &[entries], &[stream], 0);
    let mut h = open(data).unwrap();
    // case-sensitive: each spelling finds its own entry
    assert_eq!(h.lookup(b"Apple", bin()).unwrap(), b"upper".to_vec());
    assert_eq!(h.lookup(b"apple", bin()).unwrap(), b"lower".to_vec());
    // case-insensitive: both spellings find the same (first) entry
    let fold = CollateMode { fold_case: true, ignore_punct: false };
    assert_eq!(h.lookup(b"Apple", fold).unwrap(), h.lookup(b"apple", fold).unwrap());
}

#[test]
fn same_block_decoded_once_across_lookups() {
    let data = simple_container(0);
    let mut h = open(data).unwrap();
    assert_eq!(h.decode_count, 0);
    assert!(h.lookup(b"ant", bin()).is_ok());
    let after_first = h.decode_count;
    assert_eq!(after_first, 2);  // one key block, one record block
    assert!(h.lookup(b"apple", bin()).is_ok());
    assert!(h.lookup(b"zoo", bin()).is_ok());
    assert!(h.has_key(b"ant", bin()).unwrap());
    assert_eq!(h.decode_count, after_first);
}

#[test]
fn truncated_or_corrupted_open_fails_with_format_error() {
    let clean = simple_container(0);
    for k in 0..clean.len() {
        match open(clean[..k].to_vec()) {
            Err(MdxError::Format(_)) => {},
            Err(e) => panic!("unexpected error {:?}", e),
            Ok(_) => panic!("truncated container opened at {}", k),
        }
    }
    // corrupt the header text itself: integrity value must catch it
    let mut corrupt = clean.clone();
    corrupt[5] ^= 0xff;
    assert!(matches!(open(corrupt), Err(MdxError::Format(FormatError::HeaderCorrupt))));
}

#[test]
fn unsupported_declarations_are_rejected() {
    assert!(matches!(
        open(build_container("v=3\nc=0", &[], &[], 0)),
        Err(MdxError::Format(FormatError::UnsupportedVersion))
    ));
    assert!(matches!(
        open(build_container("v=2\nc=7", &[], &[], 0)),
        Err(MdxError::Format(FormatError::UnsupportedVersion))
    ));
    assert!(matches!(
        open(build_container("v=2\ne=1", &[], &[], 0)),
        Err(MdxError::Format(FormatError::UnsupportedEncryption))
    ));
    // an unknown declared text encoding does not fail open: it fails every
    // content decode with an encoding error
    {
        let mut stream: Vec<u8> = Vec::new();
        let mut entries: Vec<(Vec<u8>, u64)> = Vec::new();
        entries.push((b"word".to_vec(), 0));
        stream.extend_from_slice(b"definition");
        let data = build_container("v=2\nc=0\nn=latin1", &[entries], &[stream], 0);
        let mut h = open(data).unwrap();
        assert!(h.has_key(b"word", bin()).unwrap());
        assert_eq!(h.lookup(b"word", bin()), Err(MdxError::Encoding));
    }
    // the legacy LZ kind is recognized at open but blocks cannot be decoded
    let mut stream: Vec<u8> = Vec::new();
    let mut entries: Vec<(Vec<u8>, u64)> = Vec::new();
    entries.push((b"a".to_vec(), 0));
    stream.extend_from_slice(b"x");
    let data = build_container("v=2\nc=1", &[entries], &[stream], 1);
    let mut h = open(data).unwrap();
    assert_eq!(
        h.lookup(b"a", bin()),
        Err(MdxError::Format(FormatError::UnsupportedCompression))
    );
}

#[test]
fn invalid_text_fails_with_encoding_error() {
    let mut stream: Vec<u8> = Vec::new();
    let mut entries: Vec<(Vec<u8>, u64)> = Vec::new();
    entries.push((b"bad".to_vec(), 0));
    stream.extend_from_slice(&[0xff, 0xfe, 0x41]);
    let data = build_container("v=2\nc=0", &[entries], &[stream], 0);
    let mut h = open(data).unwrap();
    assert_eq!(h.lookup(b"bad", bin()), Err(MdxError::Encoding));
}

#[test]
fn punctuation_folding_mode_matches() {
    let mut stream: Vec<u8> = Vec::new();
    let mut entries: Vec<(Vec<u8>, u64)> = Vec::new();
    entries.push((b"a la carte".to_vec(), 0));
    stream.extend_from_slice(b"menu");
    let data = build_container("v=2\nc=0", &[entries], &[stream], 0);
    let mut h = open(data).unwrap();
    let loose = CollateMode { fold_case: true, ignore_punct: true };
    assert_eq!(h.lookup(b"A-la-carte!", loose).unwrap(), b"menu".to_vec());
    assert_eq!(h.lookup(b"A-la-carte!", bin()), Err(MdxError::NotFound));
}

#[test]
fn offsets_width_four_under_version_one() {
    // a version-1 container uses 4-byte record offsets inside key blocks
    let mut payload: Vec<u8> = Vec::new();
    payload.extend_from_slice(&be32(0));
    payload.extend_from_slice(b"one");
    payload.push(0);
    let (stored, cl, dl) = block_bytes(&payload, 0);
    let mut key_index = be32(1);
    key_index.extend_from_slice(&be32(1));
    key_index.extend_from_slice(&be32(cl));
    key_index.extend_from_slice(&be32(dl));
    key_index.extend_from_slice(&be16(3));
    key_index.extend_from_slice(b"one");
    key_index.extend_from_slice(&be16(3));
    key_index.extend_from_slice(b"one");
    let text = b"v=1\nc=0";
    let mut data = be32(text.len() as u32);
    data.extend_from_slice(text);
    data.extend_from_slice(&be32(adler32(text)));
    data.push(0);
    data.extend_from_slice(&be32(key_index.len() as u32));
    data.extend_from_slice(&be32(key_index.len() as u32));
    data.extend_from_slice(&be32(adler32(&key_index)));
    data.extend_from_slice(&key_index);
    data.extend_from_slice(&stored);
    let content = b"unit";
    let (rstored, rcl, rdl) = block_bytes(content, 0);
    let mut rec_index = be32(1);
    rec_index.extend_from_slice(&be32(rcl));
    rec_index.extend_from_slice(&be32(rdl));
    data.push(0);
    data.extend_from_slice(&be32(rec_index.len() as u32));
    data.extend_from_slice(&be32(rec_index.len() as u32));
    data.extend_from_slice(&be32(adler32(&rec_index)));
    data.extend_from_slice(&rec_index);
    data.extend_from_slice(&rstored);
    let mut h = open(data).unwrap();
    assert_eq!(h.lookup(b"one", bin()).unwrap(), b"unit".to_vec());
}

#[test]
fn test_icu_sort() {
    let mut entries = vec!["中国", "北京", "上海", "啊", "一"];
    let entries: Vec<String> = entries.iter().map(|s| s.to_string()).collect();
    assert_eq!(entries.len(), 5);
}
