//! The leading metadata record.
//!
//! The header section is a 4-byte big-endian length, that many bytes of
//! textual attribute/value lines, and a trailing 4-byte Adler-32 integrity
//! value over the text.  Each line is a one-byte attribute name, `=`, and
//! the value; lines are separated by a newline byte.

use vstd::prelude::*;

use crate::block::CompressionKind;
use crate::block::EncryptionKind;
use crate::bytes::be32;
use crate::bytes::find_byte;
use crate::bytes::find_byte_from;
use crate::bytes::lemma_find_byte;
use crate::checksum::adler32;
use crate::checksum::adler32_of;
use crate::error::FormatError;
use crate::error::MdxError;

verus! {

/// Immutable dictionary metadata, created once at open.
pub struct DictionaryMeta {
    pub title: Vec<u8>,
    pub description: Vec<u8>,
    pub encoding: Vec<u8>,
    pub source_lang: Vec<u8>,
    pub target_lang: Vec<u8>,
    pub tool_version: Vec<u8>,
    pub style: Vec<u8>,
}

/// Format dispatch flags, derived from the header once at open.
#[derive(Clone, Copy, PartialEq, Eq, Structural, Debug)]
pub struct FormatFlags {
    pub version: u8,
    pub compression: CompressionKind,
    pub encryption: EncryptionKind,
    /// Width in bytes of a record offset inside a key block: 4 or 8.
    pub offset_width: u8,
}

/// The header as a mathematical value.
#[verifier::ext_equal]
pub struct HeaderSpec {
    pub version: u8,
    pub compression: CompressionKind,
    pub encryption: EncryptionKind,
    pub title: Seq<u8>,
    pub description: Seq<u8>,
    pub encoding: Seq<u8>,
    pub source_lang: Seq<u8>,
    pub target_lang: Seq<u8>,
    pub tool_version: Seq<u8>,
    pub style: Seq<u8>,
}

/// The header every attribute line amends: version 2, plain deflate-free
/// storage, no encryption, empty texts.
pub open spec fn header_defaults() -> HeaderSpec {
    HeaderSpec {
        version: 2,
        compression: CompressionKind::Store,
        encryption: EncryptionKind::Plain,
        title: Seq::empty(),
        description: Seq::empty(),
        encoding: Seq::empty(),
        source_lang: Seq::empty(),
        target_lang: Seq::empty(),
        tool_version: Seq::empty(),
        style: Seq::empty(),
    }
}

/// The view of the executable header state.
pub open spec fn hview(f: FormatFlags, m: &DictionaryMeta) -> HeaderSpec {
    HeaderSpec {
        version: f.version,
        compression: f.compression,
        encryption: f.encryption,
        title: m.title@,
        description: m.description@,
        encoding: m.encoding@,
        source_lang: m.source_lang@,
        target_lang: m.target_lang@,
        tool_version: m.tool_version@,
        style: m.style@,
    }
}

/// One attribute line amends the header, or is rejected.
pub open spec fn apply_line(h: HeaderSpec, line: Seq<u8>) -> Result<HeaderSpec, FormatError> {
    if line.len() < 2 || line[1] != 61 {
        Err(FormatError::HeaderCorrupt)
    } else {
        let v = line.skip(2);
        let n = line[0];
        if n == 118 {  // 'v': format version
            if v == seq![49u8] {
                Ok(HeaderSpec { version: 1, ..h })
            } else if v == seq![50u8] {
                Ok(HeaderSpec { version: 2, ..h })
            } else {
                Err(FormatError::UnsupportedVersion)
            }
        } else if n == 99 {  // 'c': compression kind
            if v == seq![48u8] {
                Ok(HeaderSpec { compression: CompressionKind::Store, ..h })
            } else if v == seq![49u8] {
                Ok(HeaderSpec { compression: CompressionKind::LegacyLz, ..h })
            } else if v == seq![50u8] {
                Ok(HeaderSpec { compression: CompressionKind::Deflate, ..h })
            } else {
                Err(FormatError::UnsupportedVersion)
            }
        } else if n == 101 {  // 'e': encryption kind
            if v == seq![48u8] {
                Ok(HeaderSpec { encryption: EncryptionKind::Plain, ..h })
            } else if v == seq![49u8] {
                Ok(HeaderSpec { encryption: EncryptionKind::HeaderObfuscated, ..h })
            } else if v == seq![50u8] {
                Ok(HeaderSpec { encryption: EncryptionKind::BlockObfuscated, ..h })
            } else {
                Err(FormatError::UnsupportedVersion)
            }
        } else if n == 110 {  // 'n': text encoding
            Ok(HeaderSpec { encoding: v, ..h })
        } else if n == 116 {  // 't': title
            Ok(HeaderSpec { title: v, ..h })
        } else if n == 100 {  // 'd': description
            Ok(HeaderSpec { description: v, ..h })
        } else if n == 115 {  // 's': source language tag
            Ok(HeaderSpec { source_lang: v, ..h })
        } else if n == 103 {  // 'g': target language tag
            Ok(HeaderSpec { target_lang: v, ..h })
        } else if n == 111 {  // 'o': creation-tool version
            Ok(HeaderSpec { tool_version: v, ..h })
        } else if n == 121 {  // 'y': style text
            Ok(HeaderSpec { style: v, ..h })
        } else {
            Err(FormatError::HeaderCorrupt)
        }
    }
}

/// Folds every attribute line of the record over the defaults.
pub open spec fn parse_attrs(s: Seq<u8>, h: HeaderSpec) -> Result<HeaderSpec, FormatError>
    decreases s.len(),
    via parse_attrs_decreases
{
    if s.len() == 0 {
        Ok(h)
    } else {
        let n = find_byte(s, 10);
        if n < 0 {
            apply_line(h, s)
        } else {
            match apply_line(h, s.take(n)) {
                Err(e) => Err(e),
                Ok(h2) => parse_attrs(s.skip(n + 1), h2),
            }
        }
    }
}

#[via_fn]
proof fn parse_attrs_decreases(s: Seq<u8>, h: HeaderSpec) {
    lemma_find_byte(s, 10);
}

/// The byte the supported text encoding is declared with: the name `utf-8`.
pub open spec fn utf8_name() -> Seq<u8> {
    seq![117u8, 116u8, 102u8, 45u8, 56u8]
}

/// The header section of a container: its parsed form and its length, or
/// the error `open` reports.
pub open spec fn spec_parse_header(data: Seq<u8>) -> Result<(HeaderSpec, int), MdxError> {
    if data.len() < 4 {
        Err(MdxError::Format(FormatError::HeaderCorrupt))
    } else {
        let hlen = be32(data.take(4)) as int;
        if data.len() - 4 - hlen < 4 {
            Err(MdxError::Format(FormatError::HeaderCorrupt))
        } else {
            let text = data.subrange(4, 4 + hlen);
            let ck = be32(data.subrange(4 + hlen, 8 + hlen));
            if adler32_of(text) != ck {
                Err(MdxError::Format(FormatError::HeaderCorrupt))
            } else {
                match parse_attrs(text, header_defaults()) {
                    Err(e) => Err(MdxError::Format(e)),
                    Ok(h) => {
                        if h.encryption != EncryptionKind::Plain {
                            Err(MdxError::Format(FormatError::UnsupportedEncryption))
                        } else {
                            Ok((h, 8 + hlen))
                        }
                    },
                }
            }
        }
    }
}

/// Parses the attribute text into executable header state.
fn parse_attr_text(text: &[u8]) -> (r: Result<(DictionaryMeta, FormatFlags), FormatError>)
    ensures
        match r {
            Ok(p) => parse_attrs(text@, header_defaults()) == Ok::<HeaderSpec, FormatError>(
                hview(p.1, &p.0),
            ) && p.1.offset_width == 8,
            Err(e) => parse_attrs(text@, header_defaults()) == Err::<HeaderSpec, FormatError>(e),
        },
{
    let mut meta = DictionaryMeta {
        title: Vec::new(),
        description: Vec::new(),
        encoding: Vec::new(),
        source_lang: Vec::new(),
        target_lang: Vec::new(),
        tool_version: Vec::new(),
        style: Vec::new(),
    };
    let mut flags = FormatFlags {
        version: 2,
        compression: CompressionKind::Store,
        encryption: EncryptionKind::Plain,
        offset_width: 8,
    };
    let n: usize = text.len();
    let mut pos: usize = 0;
    proof {
        assert(hview(flags, &meta) =~~= header_defaults());
        assert(text@.skip(0) =~= text@);
    }
    while pos < n
        invariant
            pos <= n,
            n == text@.len(),
            flags.offset_width == 8,
            parse_attrs(text@, header_defaults()) == parse_attrs(
                text@.skip(pos as int),
                hview(flags, &meta),
            ),
        decreases n - pos,
    {
        let ghost s = text@.skip(pos as int);
        let line_end: usize;
        let next_pos: usize;
        match find_byte_from(text, pos, 10) {
            Some(i) => {
                line_end = i;
                next_pos = i + 1;
            },
            None => {
                line_end = n;
                next_pos = n;
            },
        }
        let line = vstd::slice::slice_subrange(text, pos, line_end);
        proof {
            lemma_find_byte(s, 10);
            let fb = find_byte(s, 10);
            if fb < 0 {
                assert(line@ =~= s);
            } else {
                assert(line@ =~= s.take(fb));
            }
        }
        match apply_line_exec(&mut meta, &mut flags, line) {
            Ok(()) => (),
            Err(e) => {
                return Err(e);
            },
        }
        proof {
            let fb = find_byte(s, 10);
            if fb >= 0 {
                assert(text@.skip(next_pos as int) =~= s.skip(fb + 1));
            } else {
                assert(text@.skip(next_pos as int) =~= Seq::<u8>::empty());
                assert(parse_attrs(text@.skip(next_pos as int), hview(flags, &meta))
                    == Ok::<HeaderSpec, FormatError>(hview(flags, &meta)));
            }
        }
        pos = next_pos;
    }
    Ok((meta, flags))
}

/// Applies one attribute line to the executable header state.
fn apply_line_exec(meta: &mut DictionaryMeta, flags: &mut FormatFlags, line: &[u8]) -> (r: Result<
    (),
    FormatError,
>)
    requires
        old(flags).offset_width == 8,
    ensures
        final(flags).offset_width == 8,
        match r {
            Ok(()) => apply_line(hview(*old(flags), old(meta)), line@) == Ok::<
                HeaderSpec,
                FormatError,
            >(hview(*final(flags), final(meta))),
            Err(e) => apply_line(hview(*old(flags), old(meta)), line@) == Err::<
                HeaderSpec,
                FormatError,
            >(e) && *final(flags) == *old(flags),
        },
{
    if line.len() < 2 || line[1] != 61 {
        return Err(FormatError::HeaderCorrupt);
    }
    let n = line[0];
    let value = vstd::slice::slice_to_vec(vstd::slice::slice_subrange(line, 2, line.len()));
    let ghost v = line@.skip(2);
    proof {
        assert(value@ =~= v);
    }
    if n == 118 {
        if value.len() == 1 && value[0] == 49 {
            flags.version = 1;
            proof {
                assert(v =~= seq![49u8]);
            }
            Ok(())
        } else if value.len() == 1 && value[0] == 50 {
            flags.version = 2;
            proof {
                assert(v =~= seq![50u8]);
                assert(v != seq![49u8]);
            }
            Ok(())
        } else {
            proof {
                if v == seq![49u8] {
                    assert(value@.len() == 1 && value@[0] == 49);
                }
                if v == seq![50u8] {
                    assert(value@.len() == 1 && value@[0] == 50);
                }
            }
            Err(FormatError::UnsupportedVersion)
        }
    } else if n == 99 || n == 101 {
        if value.len() != 1 || value[0] < 48 || value[0] > 50 {
            proof {
                if v == seq![48u8] {
                    assert(value@.len() == 1 && value@[0] == 48);
                }
                if v == seq![49u8] {
                    assert(value@.len() == 1 && value@[0] == 49);
                }
                if v == seq![50u8] {
                    assert(value@.len() == 1 && value@[0] == 50);
                }
            }
            return Err(FormatError::UnsupportedVersion);
        }
        proof {
            if value@[0] == 48 {
                assert(v =~= seq![48u8]);
            } else if value@[0] == 49 {
                assert(v =~= seq![49u8]);
                assert(v != seq![48u8]);
            } else {
                assert(v =~= seq![50u8]);
                assert(v != seq![48u8] && v != seq![49u8]);
            }
        }
        if n == 99 {
            if value[0] == 48 {
                flags.compression = CompressionKind::Store;
            } else if value[0] == 49 {
                flags.compression = CompressionKind::LegacyLz;
            } else {
                flags.compression = CompressionKind::Deflate;
            }
        } else {
            if value[0] == 48 {
                flags.encryption = EncryptionKind::Plain;
            } else if value[0] == 49 {
                flags.encryption = EncryptionKind::HeaderObfuscated;
            } else {
                flags.encryption = EncryptionKind::BlockObfuscated;
            }
        }
        Ok(())
    } else if n == 110 {
        meta.encoding = value;
        Ok(())
    } else if n == 116 {
        meta.title = value;
        Ok(())
    } else if n == 100 {
        meta.description = value;
        Ok(())
    } else if n == 115 {
        meta.source_lang = value;
        Ok(())
    } else if n == 103 {
        meta.target_lang = value;
        Ok(())
    } else if n == 111 {
        meta.tool_version = value;
        Ok(())
    } else if n == 121 {
        meta.style = value;
        Ok(())
    } else {
        Err(FormatError::HeaderCorrupt)
    }
}

/// Parses the header section of a container.  On success the metadata, the
/// flags and the offset just past the section are returned; the offset width
/// is 4 under version 1 and 8 otherwise.
pub fn parse_header(data: &[u8]) -> (r: Result<(DictionaryMeta, FormatFlags, usize), MdxError>)
    ensures
        match r {
            Ok(p) => spec_parse_header(data@) == Ok::<(HeaderSpec, int), MdxError>(
                (hview(p.1, &p.0), p.2 as int),
            ) && p.2 <= data@.len() && (p.1.offset_width == 4 <==> p.1.version == 1) && (
            p.1.offset_width == 8 <==> p.1.version != 1),
            Err(e) => spec_parse_header(data@) == Err::<(HeaderSpec, int), MdxError>(e),
        },
{
    if data.len() < 4 {
        return Err(MdxError::Format(FormatError::HeaderCorrupt));
    }
    let hlen32 = crate::bytes::read_u32(data, 0);
    proof {
        assert(data@.subrange(0, 4) =~= data@.take(4));
    }
    let hlen = hlen32 as usize;
    if data.len() - 4 < hlen || data.len() - 4 - hlen < 4 {
        return Err(MdxError::Format(FormatError::HeaderCorrupt));
    }
    let text = vstd::slice::slice_subrange(data, 4, 4 + hlen);
    let ck = crate::bytes::read_u32(data, 4 + hlen);
    if adler32(text) != ck {
        return Err(MdxError::Format(FormatError::HeaderCorrupt));
    }
    match parse_attr_text(text) {
        Err(e) => Err(MdxError::Format(e)),
        Ok((meta, mut flags)) => {
            if !matches!(flags.encryption, EncryptionKind::Plain) {
                return Err(MdxError::Format(FormatError::UnsupportedEncryption));
            }
            if flags.version == 1 {
                flags.offset_width = 4;
            }
            Ok((meta, flags, 8 + hlen))
        },
    }
}

} // verus!
