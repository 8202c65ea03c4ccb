//! The binary layout of real MDict files (`.mdx` / `.mdd`): header, key
//! block index, key blocks, record block index and record blocks.
use vstd::prelude::*;
use crate::binary::{
    be_value, decode_utf16le, le_units, read_be, read_meta_uint, read_slice, spec_header_attr,
    spec_read_meta_uint, utf16_decode,
};
use crate::dictionary::{
    all_digits, attr_or_empty, decimal_value, metadata_matches_header, opt_text, Dictionary,
    DictionaryBuilder, DictionaryView, MDictKeywordEntry, MDictType, Metadata,
};
use crate::asset::{mdd_key, normalize_mdd_key};
use crate::range_tree::{block_lt, no_overlap, RecordRangeTree};
use crate::sorting::stable_sort;
use crate::version::{spec_version_at_least_2, version_at_least_2};
use crate::error::{format_error, ErrorView, MdxError, Result};
use crate::range_tree::RecordBlockInfo;
use crate::text::{
    chars_eq, chars_of, eq_ignore_ascii_case, find_char_from, lemma_find_char_from, replace_all,
    replace_chars, string_of, decimal_string,
};

verus! {

/// The header text of an MDict file: a 4-byte big-endian length, then that
/// many bytes of little-endian UTF-16, with `Library_Data` read as `Dictionary`.
pub open spec fn spec_header_text(data: Seq<u8>) -> Option<Seq<char>> {
    if data.len() < 4 {
        None
    } else {
        let hl = be_value(data.subrange(0, 4));
        if 4 + hl > data.len() {
            None
        } else {
            let raw = data.subrange(4, 4 + hl as int);
            if raw.len() % 2 != 0 {
                None
            } else {
                match utf16_decode(le_units(raw)) {
                    None => None,
                    Some(t) => Some(replace_all(t, "Library_Data"@, "Dictionary"@)),
                }
            }
        }
    }
}

/// Reads the header text of an MDict file.
pub(crate) fn header_text(data: &[u8]) -> (r: Result<String>)
    ensures
        r is Ok <==> spec_header_text(data@) is Some,
        r matches Ok(t) ==> spec_header_text(data@) == Some(t@),
        r matches Err(e) ==> e@ is InvalidFormat,
{
    if data.len() < 4 {
        return Err(format_error("MDict header is missing 4-byte header length"));
    }
    let header_len = read_be(data, 0, 4);
    if header_len > (data.len() - 4) as u64 {
        return Err(format_error("MDict header bytes are truncated"));
    }
    let raw = read_slice(data, 4, header_len as usize)?;
    let decoded = decode_utf16le(raw)?;
    let v = chars_of(decoded.as_str());
    let from = chars_of("Library_Data");
    let to = chars_of("Dictionary");
    proof {
        reveal_strlit("Library_Data");
    }
    let replaced = replace_chars(v.as_slice(), from.as_slice(), to.as_slice());
    Ok(string_of(replaced.as_slice()))
}

/// The metadata described by the header of an MDict file.
pub fn metadata_from_mdict_header_bytes(data: &[u8]) -> (r: Result<Metadata>)
    ensures
        r is Ok <==> spec_header_text(data@) is Some,
        r matches Ok(m) ==> metadata_matches_header(m, spec_header_text(data@)->0),
        r matches Err(e) ==> e@ is InvalidFormat,
{
    let text = header_text(data)?;
    Ok(Metadata::from_header(text.as_str()))
}

} // verus!

verus! {

/// How the numbers and key texts of a file are laid out: 8-byte numbers and
/// terminated key texts from engine version 2 on; 2-byte characters for
/// UTF-16 dictionaries and for resource archives.
#[derive(Clone, Copy)]
pub struct Layout {
    pub v2: bool,
    pub utf16: bool,
    pub mdd: bool,
}

/// Bytes per number.
pub open spec fn num_width(l: Layout) -> int {
    if l.v2 {
        8
    } else {
        4
    }
}

/// Bytes per key character.
pub open spec fn char_width(l: Layout) -> int {
    if l.utf16 || l.mdd {
        2
    } else {
        1
    }
}

fn nw(l: &Layout) -> (r: usize)
    ensures
        r == num_width(*l),
{
    if l.v2 {
        8
    } else {
        4
    }
}

fn cw(l: &Layout) -> (r: usize)
    ensures
        r == char_width(*l),
{
    if l.utf16 || l.mdd {
        2
    } else {
        1
    }
}

/// Why a file could not be read.
pub enum ParseFailure {
    /// The bytes do not follow the format.
    Format,
    /// The records are encrypted.
    Encrypted,
}

/// The text encoding named by a header (UTF-8 when none is named).
pub open spec fn header_encoding(text: Seq<char>) -> Seq<char> {
    match spec_header_attr(text, "Encoding"@) {
        Some(e) => e,
        None => "UTF-8"@,
    }
}

/// The header text, the layout and where the key block index starts.
pub open spec fn spec_context(data: Seq<u8>, mdd: bool) -> core::result::Result<
    (Seq<char>, Layout, int),
    ParseFailure,
> {
    match spec_header_text(data) {
        None => Err(ParseFailure::Format),
        Some(text) => {
            let cursor: int = 4 + be_value(data.subrange(0, 4)) as int + 4;
            if cursor > data.len() {
                Err(ParseFailure::Format)
            } else {
                match spec_version_at_least_2(
                    attr_or_empty(spec_header_attr(text, "GeneratedByEngineVersion"@)),
                ) {
                    None => Err(ParseFailure::Format),
                    Some(v2) => if crate::dictionary::spec_encrypted(
                        spec_header_attr(text, "Encrypted"@),
                    ) != 0 {
                        Err(ParseFailure::Encrypted)
                    } else {
                        Ok(
                            (
                                text,
                                Layout {
                                    v2,
                                    utf16: eq_ignore_ascii_case(header_encoding(text), "UTF-16"@)
                                        || eq_ignore_ascii_case(
                                        header_encoding(text),
                                        "UTF-16LE"@,
                                    ),
                                    mdd,
                                },
                                cursor,
                            ),
                        )
                    },
                }
            }
        },
    }
}

/// Whether an error is the one that a parse failure calls for.
pub open spec fn failure_matches(e: MdxError, f: ParseFailure) -> bool {
    match f {
        ParseFailure::Format => e@ is InvalidFormat,
        ParseFailure::Encrypted => e@ == ErrorView::Unsupported(
            "encrypted MDict files are not supported by this Rust parser yet"@,
        ),
    }
}

fn parse_real_context(data: &[u8], mdd: bool) -> (r: Result<(Metadata, Layout, usize)>)
    ensures
        match spec_context(data@, mdd) {
            Ok((text, l, c)) => r matches Ok((m, l2, c2)) && l2 == l && c2 == c
                && metadata_matches_header(m, text),
            Err(f) => r matches Err(e) && failure_matches(e, f),
        },
{
    let text = header_text(data)?;
    let metadata = Metadata::from_header(text.as_str());
    let header_len = read_be(data, 0, 4);
    if header_len > (data.len() - 4) as u64 || data.len() - 4 - (header_len as usize) < 4 {
        return Err(format_error("header exceeds file length"));
    }
    let cursor = 4 + header_len as usize + 4;
    let v2 = match version_at_least_2(metadata.generated_by_engine_version.as_str()) {
        Some(v) => v,
        None => {
            let version = metadata.generated_by_engine_version.as_str();
            let mut msg = String::from_str("invalid GeneratedByEngineVersion '");
            msg.append(version);
            if version.unicode_len() == 0 {
                msg.append("': cannot parse float from empty string");
            } else {
                msg.append("': invalid float literal");
            }
            return Err(MdxError::InvalidFormat(msg));
        },
    };
    let utf16 = crate::text::str_eq_ignore_ascii_case(metadata.encoding.as_str(), "UTF-16")
        || crate::text::str_eq_ignore_ascii_case(metadata.encoding.as_str(), "UTF-16LE");
    if metadata.encrypted != 0 {
        return Err(
            MdxError::Unsupported(
                String::from_str("encrypted MDict files are not supported by this Rust parser yet"),
            ),
        );
    }
    Ok((metadata, Layout { v2, utf16, mdd }, cursor))
}

/// The sizes that the key block index starts with.
#[derive(Clone, Copy)]
pub struct KeyMeta {
    pub key_block_count: u64,
    pub entry_count: u64,
    pub key_info_decompressed_size: u64,
    pub key_info_compressed_size: u64,
    pub key_data_size: u64,
}

/// A `w`-byte big-endian number at `o`.
pub open spec fn num_at(raw: Seq<u8>, o: int, w: int) -> u64 {
    be_value(raw.subrange(o, o + w)) as u64
}

/// The key block sizes at `cursor` and where the key block info starts.
pub open spec fn spec_key_meta(data: Seq<u8>, l: Layout, cursor: int) -> Option<(KeyMeta, int)> {
    let ml: int = if l.v2 {
        40
    } else {
        16
    };
    let w = num_width(l);
    let next = cursor + ml + if l.v2 {
        4int
    } else {
        0int
    };
    if cursor < 0 || next > data.len() {
        None
    } else {
        let raw = data.subrange(cursor, cursor + ml);
        let off = if l.v2 {
            3 * w
        } else {
            2 * w
        };
        Some(
            (
                KeyMeta {
                    key_block_count: num_at(raw, 0, w),
                    entry_count: num_at(raw, w, w),
                    key_info_decompressed_size: if l.v2 {
                        num_at(raw, 2 * w, w)
                    } else {
                        0
                    },
                    key_info_compressed_size: num_at(raw, off, w),
                    key_data_size: num_at(raw, off + w, w),
                },
                next,
            ),
        )
    }
}

fn read_num(raw: &[u8], o: usize, w: usize) -> (r: u64)
    requires
        w == 4 || w == 8,
        o + w <= raw@.len(),
    ensures
        r == num_at(raw@, o as int, w as int),
{
    proof {
        crate::binary::lemma_be_value_bound(raw@.subrange(o as int, o + w));
        lemma_pow256_le_8(w as nat);
    }
    read_be(raw, o, w)
}

proof fn lemma_pow256_le_8(n: nat)
    requires
        n <= 8,
    ensures
        crate::binary::pow256(n) <= 0x1_0000_0000_0000_0000,
{
    reveal_with_fuel(crate::binary::pow256, 9);
}

fn parse_key_block_meta(data: &[u8], l: &Layout, cursor: usize) -> (r: Result<(KeyMeta, usize)>)
    ensures
        r is Ok <==> spec_key_meta(data@, *l, cursor as int) is Some,
        r matches Ok((m, c)) ==> spec_key_meta(data@, *l, cursor as int) == Some((m, c as int)),
        r matches Err(e) ==> e@ is InvalidFormat,
{
    let ml: usize = if l.v2 {
        40
    } else {
        16
    };
    let extra: usize = if l.v2 {
        4
    } else {
        0
    };
    let w = nw(l);
    if cursor > data.len() || ml > data.len() - cursor {
        return Err(crate::binary::slice_error_of(data.len(), cursor, ml));
    }
    if ml + extra > data.len() - cursor {
        return Err(format_error("key block metadata exceeds file length"));
    }
    let raw = read_slice(data, cursor, ml)?;
    let off = if l.v2 {
        3 * w
    } else {
        2 * w
    };
    let meta = KeyMeta {
        key_block_count: read_num(raw, 0, w),
        entry_count: read_num(raw, w, w),
        key_info_decompressed_size: if l.v2 {
            read_num(raw, 2 * w, w)
        } else {
            0
        },
        key_info_compressed_size: read_num(raw, off, w),
        key_data_size: read_num(raw, off + w, w),
    };
    Ok((meta, cursor + ml + extra))
}

/// The length of a key text at `o`: a 2-byte big-endian number from version 2
/// on, one byte before; with where reading goes on.
pub open spec fn spec_key_len_at(buf: Seq<u8>, l: Layout, o: int) -> Option<(int, int)> {
    if l.v2 {
        if 0 <= o && o + 2 <= buf.len() {
            Some((be_value(buf.subrange(o, o + 2)) as int, o + 2))
        } else {
            None
        }
    } else {
        if 0 <= o && o + 1 <= buf.len() {
            Some((buf[o] as int, o + 1))
        } else {
            None
        }
    }
}

/// Where reading goes on after a key text of `n` characters at `o` (plus a
/// terminator from version 2 on).
pub open spec fn spec_skip_text(buf: Seq<u8>, l: Layout, o: int, n: int) -> Option<int> {
    let bytes = (n + if l.v2 {
        1int
    } else {
        0int
    }) * char_width(l);
    if 0 <= o && o + bytes <= buf.len() {
        Some(o + bytes)
    } else {
        None
    }
}

/// One item of the key block info at `o`: the compressed and decompressed
/// sizes of a key block, and where the next item starts.
pub open spec fn spec_key_info_item(buf: Seq<u8>, l: Layout, o: int) -> Option<(u64, u64, int)> {
    let w = num_width(l);
    if o < 0 || o + w > buf.len() {
        None
    } else {
        match spec_key_len_at(buf, l, o + w) {
            None => None,
            Some((n1, o2)) => match spec_skip_text(buf, l, o2, n1) {
                None => None,
                Some(o3) => match spec_key_len_at(buf, l, o3) {
                    None => None,
                    Some((n2, o4)) => match spec_skip_text(buf, l, o4, n2) {
                        None => None,
                        Some(o5) => if o5 + 2 * w > buf.len() {
                            None
                        } else {
                            Some((num_at(buf, o5, w), num_at(buf, o5 + w, w), o5 + 2 * w))
                        },
                    },
                },
            },
        }
    }
}

/// The items `k..count` of the key block info from `o` on.
pub open spec fn spec_key_info_items(buf: Seq<u8>, l: Layout, count: int, k: int, o: int) -> Option<
    Seq<(u64, u64)>,
>
    decreases count - k,
{
    if k >= count {
        Some(Seq::empty())
    } else {
        match spec_key_info_item(buf, l, o) {
            None => None,
            Some((c, d, next)) => match spec_key_info_items(buf, l, count, k + 1, next) {
                None => None,
                Some(rest) => Some(seq![(c, d)] + rest),
            },
        }
    }
}

fn read_key_len(buf: &[u8], l: &Layout, o: usize) -> (r: Result<(usize, usize)>)
    ensures
        r is Ok <==> spec_key_len_at(buf@, *l, o as int) is Some,
        r matches Ok((n, next)) ==> spec_key_len_at(buf@, *l, o as int) == Some(
            (n as int, next as int),
        ) && n <= 65535,
        r matches Err(e) ==> e@ is InvalidFormat,
{
    if l.v2 {
        if o > buf.len() || buf.len() - o < 2 {
            return Err(crate::binary::slice_error_of(buf.len(), o, 2));
        }
        let n = read_be(buf, o, 2);
        proof {
            crate::binary::lemma_be_value_bound(buf@.subrange(o as int, o + 2));
            reveal_with_fuel(crate::binary::pow256, 3);
        }
        Ok((n as usize, o + 2))
    } else {
        if o >= buf.len() {
            return Err(crate::binary::slice_error_of(buf.len(), o, 1));
        }
        Ok((buf[o] as usize, o + 1))
    }
}

fn skip_key_text(buf: &[u8], l: &Layout, o: usize, n: usize) -> (r: Result<usize>)
    requires
        n <= 65535,
    ensures
        r is Ok <==> spec_skip_text(buf@, *l, o as int, n as int) is Some,
        r matches Ok(next) ==> spec_skip_text(buf@, *l, o as int, n as int) == Some(next as int),
        r matches Err(e) ==> e@ is InvalidFormat,
{
    let term: usize = if l.v2 {
        1
    } else {
        0
    };
    let bytes = (n + term) * cw(l);
    if o > buf.len() || bytes > buf.len() - o {
        return Err(crate::binary::slice_error_of(buf.len(), o, bytes));
    }
    Ok(o + bytes)
}

fn parse_key_info_item(buf: &[u8], l: &Layout, o: usize) -> (r: Result<(u64, u64, usize)>)
    ensures
        r is Ok <==> spec_key_info_item(buf@, *l, o as int) is Some,
        r matches Ok((c, d, next)) ==> spec_key_info_item(buf@, *l, o as int) == Some(
            (c, d, next as int),
        ),
        r matches Err(e) ==> e@ is InvalidFormat,
{
    let w = nw(l);
    if o > buf.len() || w > buf.len() - o {
        return Err(crate::binary::meta_uint_error_of(buf.len(), o, w));
    }
    let (n1, o2) = read_key_len(buf, l, o + w)?;
    let o3 = skip_key_text(buf, l, o2, n1)?;
    let (n2, o4) = read_key_len(buf, l, o3)?;
    let o5 = skip_key_text(buf, l, o4, n2)?;
    if o5 > buf.len() || w > buf.len() - o5 {
        return Err(crate::binary::meta_uint_error_of(buf.len(), o5, w));
    }
    if 2 * w > buf.len() - o5 {
        return Err(crate::binary::meta_uint_error_of(buf.len(), o5 + w, w));
    }
    Ok((read_num(buf, o5, w), read_num(buf, o5 + w, w), o5 + 2 * w))
}

/// The compressed and decompressed sizes of the key blocks.
fn parse_key_block_info(buf: &[u8], l: &Layout, count: u64) -> (r: Result<Vec<(u64, u64)>>)
    ensures
        r is Ok <==> spec_key_info_items(buf@, *l, count as int, 0, 0) is Some,
        r matches Ok(v) ==> spec_key_info_items(buf@, *l, count as int, 0, 0) == Some(v@),
        r matches Err(e) ==> e@ is InvalidFormat,
{
    let mut items: Vec<(u64, u64)> = Vec::new();
    let mut offset: usize = 0;
    let mut k: u64 = 0;
    while k < count
        invariant
            k <= count,
            spec_key_info_items(buf@, *l, count as int, 0, 0) == join_items(
                items@,
                spec_key_info_items(buf@, *l, count as int, k as int, offset as int),
            ),
        decreases count - k,
    {
        let (c, d, next) = parse_key_info_item(buf, l, offset)?;
        proof {
            lemma_join_items_push(items@, (c, d), spec_key_info_items(buf@, *l, count as int, k + 1, next as int));
        }
        items.push((c, d));
        offset = next;
        k = k + 1;
    }
    assert(items@ + Seq::<(u64, u64)>::empty() =~= items@);
    Ok(items)
}

/// A known prefix joined to an optional rest.
pub open spec fn join_items<T>(p: Seq<T>, t: Option<Seq<T>>) -> Option<Seq<T>> {
    match t {
        Some(t) => Some(p + t),
        None => None,
    }
}

proof fn lemma_join_items_push<T>(p: Seq<T>, x: T, t: Option<Seq<T>>)
    ensures
        join_items(
            p,
            match t {
                None => None,
                Some(rest) => Some(seq![x] + rest),
            },
        ) == join_items(p.push(x), t),
{
    match t {
        Some(rest) => {
            assert(p + (seq![x] + rest) =~= p.push(x) + rest);
        },
        None => {},
    }
}

} // verus!

verus! {

/// Where the key text starting at `pos` ends: at the first terminator (one
/// zero byte, or two for 2-byte characters) or past the end of the block.
pub open spec fn spec_key_end(kb: Seq<u8>, width: int, pos: int) -> int
    decreases kb.len() + 2 - pos,
{
    if pos < 0 || pos >= kb.len() || (width != 1 && width != 2) {
        pos
    } else if width == 1 && kb[pos] == 0 {
        pos
    } else if width == 2 && pos + 1 < kb.len() && kb[pos] == 0 && kb[pos + 1] == 0 {
        pos
    } else {
        spec_key_end(kb, width, pos + width)
    }
}

/// The text of a key: UTF-16 for 2-byte characters, UTF-8 otherwise.
pub open spec fn spec_decode_key(bytes: Seq<u8>, width: int) -> Option<Seq<char>> {
    if width == 2 {
        if bytes.len() % 2 == 0 {
            utf16_decode(le_units(bytes))
        } else {
            None
        }
    } else if vstd::utf8::valid_utf8(bytes) {
        Some(vstd::utf8::decode_utf8(bytes))
    } else {
        None
    }
}

/// The `(record start, key text)` pairs of a key block from `pos` on.
pub open spec fn spec_split_keys(kb: Seq<u8>, l: Layout, pos: int) -> Option<Seq<(u64, Seq<char>)>>
    decreases kb.len() + 2 - pos,
{
    let w = num_width(l);
    let width = char_width(l);
    if pos < 0 || pos >= kb.len() {
        Some(Seq::empty())
    } else if pos + w > kb.len() {
        None
    } else {
        let start = num_at(kb, pos, w);
        let ks = pos + w;
        let ke = spec_key_end(kb, width, ks);
        if ke < ks || ke > kb.len() || width < 1 || width > 2 {
            None
        } else {
            match spec_decode_key(kb.subrange(ks, ke), width) {
                None => None,
                Some(key) => match spec_split_keys(kb, l, ke + width) {
                    None => None,
                    Some(rest) => Some(seq![(start, key)] + rest),
                },
            }
        }
    }
}

proof fn lemma_key_end_ge(kb: Seq<u8>, width: int, pos: int)
    ensures
        spec_key_end(kb, width, pos) >= pos,
    decreases kb.len() + 2 - pos,
{
    if !(pos < 0 || pos >= kb.len() || (width != 1 && width != 2)) && !(width == 1 && kb[pos]
        == 0) && !(width == 2 && pos + 1 < kb.len() && kb[pos] == 0 && kb[pos + 1] == 0) {
        lemma_key_end_ge(kb, width, pos + width);
    }
}

/// The keys of a whole key block (whose length leaves room for the scan's
/// positions in a machine word).
pub open spec fn spec_block_split(kb: Seq<u8>, l: Layout) -> Option<Seq<(u64, Seq<char>)>> {
    if kb.len() + 4 > usize::MAX {
        None
    } else {
        spec_split_keys(kb, l, 0)
    }
}

/// The text of a list of key pairs.
pub open spec fn key_pairs_view(v: Seq<(u64, String)>) -> Seq<(u64, Seq<char>)> {
    v.map_values(|p: (u64, String)| (p.0, p.1@))
}

fn key_end(kb: &[u8], width: usize, pos: usize) -> (r: usize)
    requires
        width == 1 || width == 2,
        pos <= kb@.len(),
        kb@.len() + 4 <= usize::MAX,
    ensures
        r == spec_key_end(kb@, width as int, pos as int),
        r <= kb@.len() + 1,
{
    let mut p = pos;
    while p < kb.len()
        invariant
            width == 1 || width == 2,
            kb@.len() + 4 <= usize::MAX,
            p <= kb@.len() + 1,
            spec_key_end(kb@, width as int, p as int) == spec_key_end(kb@, width as int, pos as int),
        decreases kb@.len() + 2 - p,
    {
        if width == 1 && kb[p] == 0 {
            return p;
        }
        if width == 2 && p + 1 < kb.len() && kb[p] == 0 && kb[p + 1] == 0 {
            return p;
        }
        p = p + width;
    }
    p
}

fn decode_key(bytes: &[u8], width: usize) -> (r: Result<String>)
    ensures
        r is Ok <==> spec_decode_key(bytes@, width as int) is Some,
        r matches Ok(s) ==> spec_decode_key(bytes@, width as int) == Some(s@),
        r matches Err(e) ==> e@ is InvalidFormat,
{
    if width == 2 {
        decode_utf16le(bytes)
    } else {
        crate::binary::decode_utf8(bytes)
    }
}

/// Appends the keys of one decompressed key block to `keys`.
fn split_key_block(kb: &[u8], l: &Layout, keys: &mut Vec<(u64, String)>) -> (r: Result<()>)
    ensures
        r is Ok <==> spec_block_split(kb@, *l) is Some,
        r is Ok ==> key_pairs_view(final(keys)@) == key_pairs_view(old(keys)@) + spec_block_split(
            kb@,
            *l,
        )->0,
        r matches Err(e) ==> e@ is InvalidFormat,
{
    let w = nw(l);
    let width = cw(l);
    let ghost start_keys = key_pairs_view(keys@);
    if kb.len() > usize::MAX - 4 {
        return Err(format_error("key block is too large"));
    }
    let mut pos: usize = 0;
    while pos < kb.len()
        invariant
            kb@.len() + 4 <= usize::MAX,
            w == num_width(*l),
            width == char_width(*l),
            pos <= kb@.len() + 2,
            spec_split_keys(kb@, *l, 0) == join_items(
                key_pairs_view(keys@).skip(start_keys.len() as int),
                spec_split_keys(kb@, *l, pos as int),
            ),
            key_pairs_view(keys@).len() >= start_keys.len(),
            key_pairs_view(keys@).take(start_keys.len() as int) == start_keys,
            start_keys == key_pairs_view(old(keys)@),
        decreases kb@.len() + 2 - pos,
    {
        if w > kb.len() - pos {
            return Err(crate::binary::meta_uint_error_of(kb.len(), pos, w));
        }
        let start = read_num(kb, pos, w);
        let ks = pos + w;
        let ke = key_end(kb, width, ks);
        proof {
            lemma_key_end_ge(kb@, width as int, ks as int);
        }
        if ke > kb.len() {
            return Err(crate::binary::slice_error_of(kb.len(), ks, ke - ks));
        }
        let key_bytes = vstd::slice::slice_subrange(kb, ks, ke);
        let key = decode_key(key_bytes, width)?;
        let ghost before = key_pairs_view(keys@);
        let ghost rest = spec_split_keys(kb@, *l, ke + width);
        proof {
            lemma_join_items_push(before.skip(start_keys.len() as int), (start, key@), rest);
        }
        keys.push((start, key));
        assert(key_pairs_view(keys@) =~= before.push((start, key@)));
        assert(key_pairs_view(keys@).skip(start_keys.len() as int) =~= before.skip(
            start_keys.len() as int,
        ).push((start, key@)));
        assert(key_pairs_view(keys@).take(start_keys.len() as int) =~= before.take(
            start_keys.len() as int,
        ));
        pos = ke + width;
    }
    proof {
        assert(spec_split_keys(kb@, *l, pos as int) == Some(Seq::<(u64, Seq<char>)>::empty()));
        let all = key_pairs_view(keys@);
        assert(all =~= start_keys + all.skip(start_keys.len() as int));
        assert(all.skip(start_keys.len() as int) + Seq::<(u64, Seq<char>)>::empty() =~= all.skip(
            start_keys.len() as int,
        ));
    }
    Ok(())
}

/// The keys of the key blocks `b..` stored from `c` on in the key data.
pub open spec fn spec_block_keys(
    raw: Seq<u8>,
    blocks: Seq<(u64, u64)>,
    l: Layout,
    b: int,
    c: int,
) -> Option<Seq<(u64, Seq<char>)>>
    decreases blocks.len() - b,
{
    if b < 0 || b >= blocks.len() {
        Some(Seq::empty())
    } else {
        let comp = blocks[b].0 as int;
        let dec = blocks[b].1 as int;
        if c < 0 || c + comp > raw.len() || dec > usize::MAX {
            None
        } else {
            match crate::codec::spec_decode_block(raw.subrange(c, c + comp), dec as nat) {
                None => None,
                Some(kb) => match spec_block_split(kb, l) {
                    None => None,
                    Some(keys) => match spec_block_keys(raw, blocks, l, b + 1, c + comp) {
                        None => None,
                        Some(rest) => Some(keys + rest),
                    },
                },
            }
        }
    }
}

fn parse_key_entries(raw: &[u8], blocks: &Vec<(u64, u64)>, l: &Layout) -> (r: Result<
    Vec<(u64, String)>,
>)
    ensures
        r is Ok <==> spec_block_keys(raw@, blocks@, *l, 0, 0) is Some,
        r matches Ok(v) ==> spec_block_keys(raw@, blocks@, *l, 0, 0) == Some(key_pairs_view(v@)),
        r matches Err(e) ==> e@ is InvalidFormat,
{
    let mut keys: Vec<(u64, String)> = Vec::new();
    let mut cursor: usize = 0;
    let mut b: usize = 0;
    while b < blocks.len()
        invariant
            b <= blocks@.len(),
            cursor <= raw@.len(),
            spec_block_keys(raw@, blocks@, *l, 0, 0) == join_items(
                key_pairs_view(keys@),
                spec_block_keys(raw@, blocks@, *l, b as int, cursor as int),
            ),
        decreases blocks@.len() - b,
    {
        let (comp, dec) = blocks[b];
        if comp > (raw.len() - cursor) as u64 && comp <= usize::MAX as u64 {
            return Err(crate::binary::slice_error_of(raw.len(), cursor, comp as usize));
        }
        if comp > (raw.len() - cursor) as u64 || dec > usize::MAX as u64 {
            return Err(format_error("key block exceeds key data"));
        }
        let block_raw = vstd::slice::slice_subrange(raw, cursor, cursor + comp as usize);
        let kb = crate::codec::decode_compressed_block(block_raw, dec as usize, "key block")?;
        let ghost before = key_pairs_view(keys@);
        split_key_block(kb.as_slice(), l, &mut keys)?;
        proof {
            let keys_b = spec_block_split(kb@, *l)->0;
            let rest = spec_block_keys(raw@, blocks@, *l, b + 1, cursor + comp);
            match rest {
                Some(t) => {
                    assert(before + (keys_b + t) =~= (before + keys_b) + t);
                },
                None => {},
            }
        }
        cursor = cursor + comp as usize;
        b = b + 1;
    }
    assert(key_pairs_view(keys@) + Seq::<(u64, Seq<char>)>::empty() =~= key_pairs_view(keys@));
    Ok(keys)
}

} // verus!

verus! {

/// The record block infos `k..count` from offset `o` on, with the running
/// compressed and decompressed offsets, and where reading ends; `None` on a
/// short buffer or an offset beyond 64 bits.
pub open spec fn spec_record_infos(
    buf: Seq<u8>,
    w: int,
    count: int,
    k: int,
    o: int,
    ca: int,
    da: int,
) -> Option<(Seq<RecordBlockInfo>, int)>
    decreases count - k,
{
    if k >= count {
        Some((Seq::empty(), o))
    } else if o < 0 || o + 2 * w > buf.len() {
        None
    } else {
        let c = num_at(buf, o, w);
        let d = num_at(buf, o + w, w);
        if ca + c > u64::MAX || da + d > u64::MAX || ca < 0 || da < 0 {
            None
        } else {
            let info = RecordBlockInfo {
                compressed_size: c,
                decompressed_size: d,
                compressed_accumulator_offset: ca as u64,
                decompressed_accumulator_offset: da as u64,
            };
            match spec_record_infos(buf, w, count, k + 1, o + 2 * w, ca + c, da + d) {
                None => None,
                Some((rest, end)) => Some((seq![info] + rest, end)),
            }
        }
    }
}

/// The record block index: all of `buf` read as `count` infos.
pub open spec fn spec_record_index(buf: Seq<u8>, w: int, count: int) -> Option<Seq<RecordBlockInfo>> {
    match spec_record_infos(buf, w, count, 0, 0, 0, 0) {
        Some((infos, end)) => if end == buf.len() {
            Some(infos)
        } else {
            None
        },
        None => None,
    }
}

fn parse_record_block_info(buf: &[u8], l: &Layout, count: u64) -> (r: Result<Vec<RecordBlockInfo>>)
    ensures
        r is Ok <==> spec_record_index(buf@, num_width(*l), count as int) is Some,
        r matches Ok(v) ==> spec_record_index(buf@, num_width(*l), count as int) == Some(v@),
        r matches Err(e) ==> e@ is InvalidFormat,
{
    let w = nw(l);
    let mut offset: usize = 0;
    let mut comp_acc: u64 = 0;
    let mut decomp_acc: u64 = 0;
    let mut infos: Vec<RecordBlockInfo> = Vec::new();
    let mut k: u64 = 0;
    let ghost whole = spec_record_infos(buf@, w as int, count as int, 0, 0, 0, 0);
    while k < count
        invariant
            w == num_width(*l),
            k <= count,
            whole == spec_record_infos(buf@, w as int, count as int, 0, 0, 0, 0),
            whole == match spec_record_infos(
                buf@,
                w as int,
                count as int,
                k as int,
                offset as int,
                comp_acc as int,
                decomp_acc as int,
            ) {
                None => None,
                Some((rest, end)) => Some((infos@ + rest, end)),
            },
        decreases count - k,
    {
        if offset > buf.len() || w > buf.len() - offset {
            return Err(crate::binary::meta_uint_error_of(buf.len(), offset, w));
        }
        if 2 * w > buf.len() - offset {
            return Err(crate::binary::meta_uint_error_of(buf.len(), offset + w, w));
        }
        let c = read_num(buf, offset, w);
        let d = read_num(buf, offset + w, w);
        if c > u64::MAX - comp_acc || d > u64::MAX - decomp_acc {
            return Err(format_error("record block offsets overflow"));
        }
        let info = RecordBlockInfo {
            compressed_size: c,
            decompressed_size: d,
            compressed_accumulator_offset: comp_acc,
            decompressed_accumulator_offset: decomp_acc,
        };
        let ghost before = infos@;
        proof {
            let rest = spec_record_infos(
                buf@,
                w as int,
                count as int,
                k + 1,
                offset + 2 * w,
                comp_acc + c,
                decomp_acc + d,
            );
            match rest {
                Some((t, e)) => {
                    assert(before + (seq![info] + t) =~= before.push(info) + t);
                },
                None => {},
            }
        }
        infos.push(info);
        offset = offset + 2 * w;
        comp_acc = comp_acc + c;
        decomp_acc = decomp_acc + d;
        k = k + 1;
    }
    assert(infos@ + Seq::<RecordBlockInfo>::empty() =~= infos@);
    if offset != buf.len() {
        let mut m = String::from_str("record block info consumed ");
        m.append(decimal_string(offset as u64).as_str());
        m.append(" bytes but buffer has ");
        m.append(decimal_string(buf.len() as u64).as_str());
        return Err(MdxError::InvalidFormat(m));
    }
    Ok(infos)
}

/// The decompressed records of the blocks `k..` stored from `c` on.
pub open spec fn spec_records(raw: Seq<u8>, infos: Seq<RecordBlockInfo>, k: int, c: int) -> Option<
    Seq<u8>,
>
    decreases infos.len() - k,
{
    if k < 0 || k >= infos.len() {
        Some(Seq::empty())
    } else {
        let comp = infos[k].compressed_size as int;
        let dec = infos[k].decompressed_size as int;
        if c < 0 || c + comp > raw.len() || dec > usize::MAX {
            None
        } else {
            match crate::codec::spec_decode_block(raw.subrange(c, c + comp), dec as nat) {
                None => None,
                Some(block) => match spec_records(raw, infos, k + 1, c + comp) {
                    None => None,
                    Some(rest) => Some(block + rest),
                },
            }
        }
    }
}

fn decode_record_blocks(raw: &[u8], infos: &Vec<RecordBlockInfo>) -> (r: Result<Vec<u8>>)
    ensures
        r is Ok <==> spec_records(raw@, infos@, 0, 0) is Some,
        r matches Ok(v) ==> spec_records(raw@, infos@, 0, 0) == Some(v@),
        r matches Err(e) ==> e@ is InvalidFormat,
{
    let mut records: Vec<u8> = Vec::new();
    let mut cursor: usize = 0;
    let mut k: usize = 0;
    while k < infos.len()
        invariant
            k <= infos@.len(),
            cursor <= raw@.len(),
            spec_records(raw@, infos@, 0, 0) == join_items(
                records@,
                spec_records(raw@, infos@, k as int, cursor as int),
            ),
        decreases infos@.len() - k,
    {
        let comp = infos[k].compressed_size;
        let dec = infos[k].decompressed_size;
        if comp > (raw.len() - cursor) as u64 && comp <= usize::MAX as u64 {
            return Err(crate::binary::slice_error_of(raw.len(), cursor, comp as usize));
        }
        if comp > (raw.len() - cursor) as u64 || dec > usize::MAX as u64 {
            return Err(format_error("record block exceeds record data"));
        }
        let block_raw = vstd::slice::slice_subrange(raw, cursor, cursor + comp as usize);
        let mut block = crate::codec::decode_compressed_block(
            block_raw,
            dec as usize,
            "record block",
        )?;
        let ghost before = records@;
        proof {
            let rest = spec_records(raw@, infos@, k + 1, cursor + comp);
            match rest {
                Some(t) => {
                    assert(before + (block@ + t) =~= (before + block@) + t);
                },
                None => {},
            }
        }
        records.append(&mut block);
        cursor = cursor + comp as usize;
        k = k + 1;
    }
    assert(records@ + Seq::<u8>::empty() =~= records@);
    Ok(records)
}

} // verus!

verus! {

/// What a real MDict file holds: its header text, its `(record start, key)`
/// pairs, its decompressed records and its record block index.
pub struct RealParse {
    pub header: Seq<char>,
    pub keys: Seq<(u64, Seq<char>)>,
    pub records: Seq<u8>,
    pub blocks: Seq<RecordBlockInfo>,
}

/// The record end of key `i`: the start of the next key, or 0 (the end of the
/// records) for the last one.
pub open spec fn key_record_end(keys: Seq<(u64, Seq<char>)>, i: int) -> u64 {
    if i + 1 < keys.len() {
        keys[i + 1].0
    } else {
        0
    }
}

/// Every key's record range lies within `n` bytes of records.
pub open spec fn keys_in_range(keys: Seq<(u64, Seq<char>)>, n: int) -> bool {
    forall|i: int|
        0 <= i < keys.len() ==> {
            let e = if key_record_end(keys, i) == 0 {
                n
            } else {
                key_record_end(keys, i) as int
            };
            e >= (#[trigger] keys[i]).0 && e <= n
        }
}

/// Reading a real MDict file, stage by stage.
pub open spec fn spec_parse_real(data: Seq<u8>, mdd: bool) -> core::result::Result<
    RealParse,
    ParseFailure,
> {
    match spec_context(data, mdd) {
        Err(f) => Err(f),
        Ok((text, l, c0)) => match spec_key_meta(data, l, c0) {
            None => Err(ParseFailure::Format),
            Some((m, c1)) => {
                let ic = m.key_info_compressed_size as int;
                let c2 = c1 + ic;
                let kd = m.key_data_size as int;
                let c3 = c2 + kd;
                let w = num_width(l);
                let c4 = c3 + 4 * w;
                if c2 > data.len() || m.key_info_decompressed_size > usize::MAX {
                    Err(ParseFailure::Format)
                } else {
                    match crate::codec::spec_decode_block(
                        data.subrange(c1, c2),
                        m.key_info_decompressed_size as nat,
                    ) {
                        None => Err(ParseFailure::Format),
                        Some(info) => match spec_key_info_items(
                            info,
                            l,
                            m.key_block_count as int,
                            0,
                            0,
                        ) {
                            None => Err(ParseFailure::Format),
                            Some(blocks) => if c3 > data.len() {
                                Err(ParseFailure::Format)
                            } else {
                                match spec_block_keys(data.subrange(c2, c3), blocks, l, 0, 0) {
                                    None => Err(ParseFailure::Format),
                                    Some(keys) => if keys.len() != m.entry_count || c4 > data.len()
                                        || num_at(data, c3 + w, w) != m.entry_count {
                                        Err(ParseFailure::Format)
                                    } else {
                                        let ri = num_at(data, c3 + 2 * w, w) as int;
                                        let rd = num_at(data, c3 + 3 * w, w) as int;
                                        let c5 = c4 + ri;
                                        let c6 = c5 + rd;
                                        if c5 > data.len() {
                                            Err(ParseFailure::Format)
                                        } else {
                                            match spec_record_index(
                                                data.subrange(c4, c5),
                                                w,
                                                num_at(data, c3, w) as int,
                                            ) {
                                                None => Err(ParseFailure::Format),
                                                Some(infos) => if c6 > data.len() {
                                                    Err(ParseFailure::Format)
                                                } else {
                                                    match spec_records(
                                                        data.subrange(c5, c6),
                                                        infos,
                                                        0,
                                                        0,
                                                    ) {
                                                        None => Err(ParseFailure::Format),
                                                        Some(records) => if !no_overlap(
                                                            stable_sort(infos, block_lt()),
                                                        ) || !keys_in_range(
                                                            keys,
                                                            records.len() as int,
                                                        ) {
                                                            Err(ParseFailure::Format)
                                                        } else {
                                                            Ok(
                                                                RealParse {
                                                                    header: text,
                                                                    keys,
                                                                    records,
                                                                    blocks: infos,
                                                                },
                                                            )
                                                        },
                                                    }
                                                },
                                            }
                                        }
                                    },
                                }
                            },
                        },
                    }
                }
            },
        },
    }
}

/// The entries built from key pairs: consecutive record ranges, resources
/// keyed by their MDD key.
pub open spec fn entries_match_keys(
    es: Seq<MDictKeywordEntry>,
    keys: Seq<(u64, Seq<char>)>,
    mdd: bool,
) -> bool {
    &&& es.len() == keys.len()
    &&& forall|i: int|
        0 <= i < keys.len() ==> {
            let e = #[trigger] es[i];
            &&& e.record_start_offset == keys[i].0
            &&& e.record_end_offset == key_record_end(keys, i)
            &&& e.keyword@ == keys[i].1
            &&& e.key_block_index == 0
            &&& e.is_resource == mdd
            &&& opt_text(e.normalized_keyword) == if mdd {
                Some(mdd_key(keys[i].1))
            } else {
                None
            }
        }
}

/// The dictionary that a parsed real file gives.
pub open spec fn real_dictionary(
    d: DictionaryView,
    p: RealParse,
    name: Seq<char>,
    path: Option<Seq<char>>,
    mdd: bool,
) -> bool {
    &&& d.name == name
    &&& d.path == path
    &&& d.dict_type == if mdd {
        MDictType::Mdd
    } else {
        MDictType::Mdx
    }
    &&& metadata_matches_header(d.metadata, p.header)
    &&& entries_match_keys(d.entries, p.keys, mdd)
    &&& d.records == p.records
    &&& d.range_tree == Some(stable_sort(p.blocks, block_lt()))
    &&& d.raw_record_bytes
    &&& d.asset_resolver is None
}

fn entries_from_keys(keys: Vec<(u64, String)>, mdd: bool) -> (r: Vec<MDictKeywordEntry>)
    ensures
        entries_match_keys(r@, key_pairs_view(keys@), mdd),
{
    let ghost kv = key_pairs_view(keys@);
    let n = keys.len();
    let mut entries: Vec<MDictKeywordEntry> = Vec::new();
    let mut i: usize = 0;
    while i < n
        invariant
            n == keys@.len(),
            kv == key_pairs_view(keys@),
            i <= n,
            entries@.len() == i,
            forall|j: int|
                0 <= j < i ==> {
                    let e = #[trigger] entries@[j];
                    &&& e.record_start_offset == kv[j].0
                    &&& e.record_end_offset == key_record_end(kv, j)
                    &&& e.keyword@ == kv[j].1
                    &&& e.key_block_index == 0
                    &&& e.is_resource == mdd
                    &&& opt_text(e.normalized_keyword) == if mdd {
                        Some(mdd_key(kv[j].1))
                    } else {
                        None
                    }
                },
        decreases n - i,
    {
        let start = keys[i].0;
        let end = if i + 1 < n {
            keys[i + 1].0
        } else {
            0
        };
        let keyword = keys[i].1.clone();
        let normalized = if mdd {
            Some(normalize_mdd_key(keyword.as_str()))
        } else {
            None
        };
        entries.push(
            MDictKeywordEntry {
                record_start_offset: start,
                record_end_offset: end,
                keyword,
                key_block_index: 0,
                is_resource: mdd,
                normalized_keyword: normalized,
            },
        );
        i = i + 1;
    }
    entries
}

fn check_entry_ranges(keys: &Vec<(u64, String)>, n: usize) -> (r: Result<()>)
    ensures
        r is Ok <==> keys_in_range(key_pairs_view(keys@), n as int),
        r matches Err(e) ==> e@ is InvalidFormat,
{
    let ghost kv = key_pairs_view(keys@);
    let mut i: usize = 0;
    while i < keys.len()
        invariant
            kv == key_pairs_view(keys@),
            i <= keys@.len(),
            forall|j: int|
                0 <= j < i ==> {
                    let e = if key_record_end(kv, j) == 0 {
                        n as int
                    } else {
                        key_record_end(kv, j) as int
                    };
                    e >= (#[trigger] kv[j]).0 && e <= n
                },
        decreases keys@.len() - i,
    {
        let end_raw = if i + 1 < keys.len() {
            keys[i + 1].0
        } else {
            0
        };
        let end: u64 = if end_raw == 0 {
            n as u64
        } else {
            end_raw
        };
        if end < keys[i].0 || end > n as u64 {
            assert(kv[i as int].0 == keys@[i as int].0);
            let mut msg = String::from_str("entry '");
            msg.append(keys[i].1.as_str());
            msg.append("' has invalid record range ");
            msg.append(decimal_string(keys[i].0).as_str());
            msg.append("..");
            msg.append(decimal_string(end).as_str());
            msg.append(" for ");
            msg.append(decimal_string(n as u64).as_str());
            msg.append(" bytes");
            return Err(MdxError::InvalidFormat(msg));
        }
        i = i + 1;
    }
    Ok(())
}

fn read_count(data: &[u8], c: usize, w: usize) -> (r: Result<u64>)
    requires
        w == 4 || w == 8,
    ensures
        r is Ok <==> c + w <= data@.len(),
        r matches Ok(v) ==> v == num_at(data@, c as int, w as int),
        r matches Err(e) ==> e@ is InvalidFormat,
{
    if c > data.len() || w > data.len() - c {
        return Err(crate::binary::meta_uint_error_of(data.len(), c, w));
    }
    Ok(read_num(data, c, w))
}

fn slice_at(data: &[u8], c: usize, size: u64) -> (r: Result<&[u8]>)
    ensures
        r is Ok <==> c + size <= data@.len(),
        r matches Ok(s) ==> s@ == data@.subrange(c as int, c + size),
        r matches Err(e) ==> e@ is InvalidFormat,
{
    if c > data.len() || size > (data.len() - c) as u64 {
        if size <= usize::MAX as u64 {
            return Err(crate::binary::slice_error_of(data.len(), c, size as usize));
        }
        return Err(format_error("section exceeds file length"));
    }
    Ok(vstd::slice::slice_subrange(data, c, c + size as usize))
}

/// Reads a real MDict file.
fn parse_real_dictionary(name: &str, path: Option<String>, data: &[u8], mdd: bool) -> (r: Result<
    Dictionary,
>)
    ensures
        match spec_parse_real(data@, mdd) {
            Ok(p) => r matches Ok(d) && real_dictionary(d@, p, name@, opt_text(path), mdd),
            Err(f) => r matches Err(e) && failure_matches(e, f),
        },
{
    let dlen = data.len();
    let (metadata, l, c0) = parse_real_context(data, mdd)?;
    let (m, c1) = parse_key_block_meta(data, &l, c0)?;
    if m.key_info_decompressed_size > usize::MAX as u64 {
        return Err(format_error("key block info is too large"));
    }
    let key_info_raw = slice_at(data, c1, m.key_info_compressed_size)?;
    let c2 = c1 + m.key_info_compressed_size as usize;
    let key_info = crate::codec::decode_compressed_block(
        key_info_raw,
        m.key_info_decompressed_size as usize,
        "key block info",
    )?;
    let blocks = parse_key_block_info(key_info.as_slice(), &l, m.key_block_count)?;
    let key_data = slice_at(data, c2, m.key_data_size)?;
    let c3 = c2 + m.key_data_size as usize;
    let keys = parse_key_entries(key_data, &blocks, &l)?;
    if keys.len() as u64 != m.entry_count {
        let mut msg = String::from_str("decoded ");
        msg.append(decimal_string(keys.len() as u64).as_str());
        msg.append(" key entries but metadata declares ");
        msg.append(decimal_string(m.entry_count).as_str());
        return Err(MdxError::InvalidFormat(msg));
    }
    let w = nw(&l);
    let record_block_count = read_count(data, c3, w)?;
    let record_entry_count = read_count(data, c3 + w, w)?;
    if record_entry_count != m.entry_count {
        let mut msg = String::from_str("record entry count ");
        msg.append(decimal_string(record_entry_count).as_str());
        msg.append(" does not match key entry count ");
        msg.append(decimal_string(m.entry_count).as_str());
        return Err(MdxError::InvalidFormat(msg));
    }
    let record_info_size = read_count(data, c3 + 2 * w, w)?;
    let record_data_size = read_count(data, c3 + 3 * w, w)?;
    let c4 = c3 + 4 * w;
    let info_raw = slice_at(data, c4, record_info_size)?;
    let c5 = c4 + record_info_size as usize;
    let infos = parse_record_block_info(info_raw, &l, record_block_count)?;
    let record_raw = slice_at(data, c5, record_data_size)?;
    let records = decode_record_blocks(record_raw, &infos)?;
    let tree = RecordRangeTree::new(infos)?;
    check_entry_ranges(&keys, records.len())?;
    let ghost kv = key_pairs_view(keys@);
    let entries = entries_from_keys(keys, mdd);
    let dict_type = if mdd {
        MDictType::Mdd
    } else {
        MDictType::Mdx
    };
    let builder = DictionaryBuilder::new(name).path_opt(path).dict_type(dict_type).metadata(
        metadata,
    ).entries(entries).records(records).range_tree(tree).raw_record_bytes(true);
    Ok(builder.build())
}

} // verus!

verus! {

/// The magic bytes of the compact test format: `MDXRS` and a zero byte.
pub open spec fn synthetic_magic() -> Seq<u8> {
    seq![0x4Du8, 0x44u8, 0x58u8, 0x52u8, 0x53u8, 0x00u8]
}

/// The `(key, value)` items `k..count` of the compact format from `c` on: a
/// key length byte, the UTF-8 key, a 4-byte big-endian value length, the value.
pub open spec fn spec_synthetic_items(data: Seq<u8>, count: int, k: int, c: int) -> Option<
    Seq<(Seq<char>, Seq<u8>)>,
>
    decreases count - k,
{
    if k >= count {
        Some(Seq::empty())
    } else if c < 0 || c + 1 > data.len() {
        None
    } else {
        let kl = data[c] as int;
        let ks = c + 1;
        if ks + kl > data.len() || !vstd::utf8::valid_utf8(data.subrange(ks, ks + kl)) {
            None
        } else {
            let vs = ks + kl;
            if vs + 4 > data.len() {
                None
            } else {
                let vl = be_value(data.subrange(vs, vs + 4)) as int;
                let v0 = vs + 4;
                if v0 + vl > data.len() {
                    None
                } else {
                    match spec_synthetic_items(data, count, k + 1, v0 + vl) {
                        None => None,
                        Some(rest) => Some(
                            seq![
                                (
                                    vstd::utf8::decode_utf8(data.subrange(ks, ks + kl)),
                                    data.subrange(v0, v0 + vl),
                                ),
                            ] + rest,
                        ),
                    }
                }
            }
        }
    }
}

/// The items of a compact-format file.
pub open spec fn spec_synthetic(data: Seq<u8>) -> Option<Seq<(Seq<char>, Seq<u8>)>> {
    if data.len() < 10 {
        None
    } else {
        spec_synthetic_items(data, be_value(data.subrange(6, 10)) as int, 0, 10)
    }
}

/// The values of the items, one after another.
pub open spec fn concat_values(items: Seq<(Seq<char>, Seq<u8>)>) -> Seq<u8>
    decreases items.len(),
{
    if items.len() == 0 {
        Seq::empty()
    } else {
        concat_values(items.drop_last()) + items.last().1
    }
}

/// The dictionary that a compact-format file gives: one entry per item, whose
/// record is the item's value within the values laid end to end.
pub open spec fn synthetic_dictionary(
    d: DictionaryView,
    items: Seq<(Seq<char>, Seq<u8>)>,
    name: Seq<char>,
    path: Option<Seq<char>>,
) -> bool {
    &&& d.name == name
    &&& d.path == path
    &&& d.dict_type == MDictType::Mdx
    &&& crate::dictionary::is_default_metadata(d.metadata)
    &&& d.records == concat_values(items)
    &&& d.range_tree is None
    &&& !d.raw_record_bytes
    &&& d.asset_resolver is None
    &&& d.entries.len() == items.len()
    &&& forall|i: int|
        0 <= i < items.len() ==> {
            let e = #[trigger] d.entries[i];
            &&& e.keyword@ == items[i].0
            &&& e.record_start_offset == concat_values(items.take(i)).len()
            &&& e.record_end_offset == concat_values(items.take(i + 1)).len()
            &&& e.key_block_index == 0
            &&& !e.is_resource
            &&& e.normalized_keyword is None
        }
}

fn parse_synthetic(name: &str, path: Option<String>, data: &[u8]) -> (r: Result<Dictionary>)
    ensures
        match spec_synthetic(data@) {
            Some(items) => r matches Ok(d) && synthetic_dictionary(d@, items, name@, opt_text(path)),
            None => r matches Err(e) && e@ is InvalidFormat,
        },
{
    let dlen = data.len();
    if data.len() < 10 {
        return Err(format_error("synthetic dictionary missing entry count"));
    }
    let count = read_be(data, 6, 4);
    let mut cursor: usize = 10;
    let mut builder = DictionaryBuilder::new(name).path_opt(path);
    let ghost b0 = builder@;
    let mut record_data: Vec<u8> = Vec::new();
    let ghost whole = spec_synthetic(data@);
    let ghost mut done: Seq<(Seq<char>, Seq<u8>)> = Seq::empty();
    let mut k: u64 = 0;
    while k < count
        invariant
            dlen == data@.len(),
            data@.len() >= 10,
            count == be_value(data@.subrange(6, 10)),
            k <= count,
            cursor <= data@.len(),
            whole == spec_synthetic(data@),
            whole == join_items(done, spec_synthetic_items(data@, count as int, k as int, cursor as int)),
            done.len() == k,
            record_data@ == concat_values(done),
            builder@.name == b0.name,
            builder@.path == b0.path,
            builder@.dict_type == b0.dict_type,
            builder@.metadata == b0.metadata,
            builder@.range_tree == b0.range_tree,
            builder@.raw_record_bytes == b0.raw_record_bytes,
            builder@.asset_resolver == b0.asset_resolver,
            builder@.records == b0.records,
            builder@.entries.len() == k,
            forall|i: int|
                0 <= i < k ==> {
                    let e = #[trigger] builder@.entries[i];
                    &&& e.keyword@ == done[i].0
                    &&& e.record_start_offset == concat_values(done.take(i)).len()
                    &&& e.record_end_offset == concat_values(done.take(i + 1)).len()
                    &&& e.key_block_index == 0
                    &&& !e.is_resource
                    &&& e.normalized_keyword is None
                },
        decreases count - k,
    {
        if cursor >= data.len() {
            return Err(format_error("synthetic dictionary missing key length"));
        }
        let key_len = data[cursor] as usize;
        let ks = cursor + 1;
        if key_len > data.len() - ks {
            return Err(format_error("synthetic dictionary truncated key"));
        }
        let key_raw = vstd::slice::slice_subrange(data, ks, ks + key_len);
        let key = match crate::binary::str_from_utf8(key_raw) {
            Ok(k) => k,
            Err(cause) => {
                let mut m = String::from_str("synthetic dictionary key is not UTF-8: ");
                m.append(cause.as_str());
                return Err(MdxError::InvalidFormat(m));
            },
        };
        let vs = ks + key_len;
        if 4 > data.len() - vs {
            return Err(format_error("synthetic dictionary missing value length"));
        }
        let value_len = read_be(data, vs, 4);
        let v0 = vs + 4;
        if value_len > (data.len() - v0) as u64 {
            return Err(format_error("synthetic dictionary truncated value"));
        }
        let value = vstd::slice::slice_subrange(data, v0, v0 + value_len as usize);
        let start = record_data.len() as u64;
        let ghost item = (key@, value@);
        let ghost before = done;
        proof {
            let rest = spec_synthetic_items(data@, count as int, k + 1, v0 + value_len);
            lemma_join_items_push(before, item, rest);
            assert(before.push(item).drop_last() =~= before);
        }
        let mut chunk = vstd::slice::slice_to_vec(value);
        record_data.append(&mut chunk);
        let end = record_data.len() as u64;
        let entry = MDictKeywordEntry::new(key, start, end)?;
        builder = builder.entry(entry);
        proof {
            done = before.push(item);
            assert(done.take(k as int) =~= before);
            assert(done.take(k + 1) =~= done);
            assert forall|i: int| 0 <= i <= k implies #[trigger] done.take(i) == before.take(i) by {
                assert(done.take(i) =~= before.take(i));
            }
        }
        cursor = v0 + value_len as usize;
        k = k + 1;
    }
    assert(done + Seq::<(Seq<char>, Seq<u8>)>::empty() =~= done);
    let builder = builder.records(record_data);
    Ok(builder.build())
}

/// The extension of the file that a (Unix-style) path names: the text after
/// the last `.` of the last component, unless that `.` starts the name.
pub open spec fn path_extension(p: Seq<char>) -> Option<Seq<char>> {
    let t = p.take(crate::text::trailing_start(p, '/', p.len() as int));
    let name_start = match crate::text::rfind_char(t, '/', t.len() as int) {
        Some(k) => k + 1,
        None => 0,
    };
    let name = t.skip(name_start);
    if name.len() == 0 || name == ".."@ {
        None
    } else {
        match crate::text::rfind_char(name, '.', name.len() as int) {
            Some(k) => if k == 0 {
                None
            } else {
                Some(name.skip(k + 1))
            },
            None => None,
        }
    }
}

/// Whether a path names a resource archive (extension `mdd`, any case).
pub open spec fn path_is_mdd(path: Option<Seq<char>>) -> bool {
    match path {
        Some(p) => match path_extension(p) {
            Some(e) => eq_ignore_ascii_case(e, "mdd"@),
            None => false,
        },
        None => false,
    }
}

} // verus!

verus! {

fn path_names_mdd(path: &Option<String>) -> (r: bool)
    ensures
        r == path_is_mdd(opt_text(*path)),
{
    let p = match path {
        Some(p) => p,
        None => return false,
    };
    let v = chars_of(p.as_str());
    let n = v.len();
    let end = crate::text::trailing_start_exec(v.as_slice(), '/', n);
    let ghost t = v@.take(end as int);
    assert(v@.subrange(0, end as int) =~= t);
    let name_start = match crate::text::rfind_char_exec(v.as_slice(), '/', 0, end) {
        Some(k) => k + 1,
        None => 0,
    };
    let ghost name = t.skip(name_start as int);
    assert(name =~= v@.subrange(name_start as int, end as int));
    let dots = chars_of("..");
    let name_chars = crate::text::sub_chars(v.as_slice(), name_start, end);
    if end == name_start || chars_eq(name_chars.as_slice(), dots.as_slice()) {
        return false;
    }
    match crate::text::rfind_char_exec(v.as_slice(), '.', name_start, end) {
        Some(k) => {
            if k == name_start {
                false
            } else {
                let mdd = chars_of("mdd");
                assert(name.skip(k - name_start + 1) =~= v@.subrange(k + 1, end as int));
                crate::text::range_eq_ignore_ascii_case(v.as_slice(), k + 1, end, mdd.as_slice())
            }
        },
        None => false,
    }
}

impl Dictionary {
    /// Reads a dictionary from the bytes of a file. Bytes that start with the
    /// magic `MDXRS\0` are read in the compact format; others as a real MDict
    /// file, a resource archive when `path` has the extension `mdd`.
    pub fn from_bytes(name: &str, path: Option<String>, data: &[u8]) -> (r: Result<Dictionary>)
        ensures
            data@.len() >= 6 && data@.subrange(0, 6) == synthetic_magic() ==> match spec_synthetic(
                data@,
            ) {
                Some(items) => r matches Ok(d) && synthetic_dictionary(
                    d@,
                    items,
                    name@,
                    opt_text(path),
                ),
                None => r matches Err(e) && e@ is InvalidFormat,
            },
            !(data@.len() >= 6 && data@.subrange(0, 6) == synthetic_magic()) ==> match spec_parse_real(
                data@,
                path_is_mdd(opt_text(path)),
            ) {
                Ok(p) => r matches Ok(d) && real_dictionary(
                    d@,
                    p,
                    name@,
                    opt_text(path),
                    path_is_mdd(opt_text(path)),
                ),
                Err(f) => r matches Err(e) && failure_matches(e, f),
            },
    {
        let magic: [u8; 6] = [0x4D, 0x44, 0x58, 0x52, 0x53, 0x00];
        let is_synthetic = data.len() >= 6 && data[0] == magic[0] && data[1] == magic[1] && data[2]
            == magic[2] && data[3] == magic[3] && data[4] == magic[4] && data[5] == magic[5];
        proof {
            if data@.len() >= 6 {
                if is_synthetic {
                    assert(data@.subrange(0, 6) =~= synthetic_magic());
                } else {
                    assert(data@.subrange(0, 6) != synthetic_magic()) by {
                        if data@.subrange(0, 6) == synthetic_magic() {
                            assert(data@.subrange(0, 6)[0] == data@[0]);
                            assert(data@.subrange(0, 6)[1] == data@[1]);
                            assert(data@.subrange(0, 6)[2] == data@[2]);
                            assert(data@.subrange(0, 6)[3] == data@[3]);
                            assert(data@.subrange(0, 6)[4] == data@[4]);
                            assert(data@.subrange(0, 6)[5] == data@[5]);
                        }
                    }
                }
            }
        }
        if is_synthetic {
            return parse_synthetic(name, path, data);
        }
        let mdd = path_names_mdd(&path);
        parse_real_dictionary(name, path, data, mdd)
    }
}

} // verus!

verus! {

/// The decompressed sizes of the first `k` blocks, added up.
pub open spec fn decompressed_before(s: Seq<RecordBlockInfo>, k: int) -> int
    decreases k,
{
    if k <= 0 {
        0
    } else {
        decompressed_before(s, k - 1) + s[k - 1].decompressed_size
    }
}

/// The compressed sizes of the first `k` blocks, added up.
pub open spec fn compressed_before(s: Seq<RecordBlockInfo>, k: int) -> int
    decreases k,
{
    if k <= 0 {
        0
    } else {
        compressed_before(s, k - 1) + s[k - 1].compressed_size
    }
}

proof fn lemma_before_cons(x: RecordBlockInfo, r: Seq<RecordBlockInfo>, j: int)
    requires
        1 <= j <= r.len() + 1,
    ensures
        decompressed_before(seq![x] + r, j) == x.decompressed_size + decompressed_before(r, j - 1),
        compressed_before(seq![x] + r, j) == x.compressed_size + compressed_before(r, j - 1),
    decreases j,
{
    let s = seq![x] + r;
    if j > 1 {
        lemma_before_cons(x, r, j - 1);
        assert(s[j - 1] == r[j - 2]);
        assert(decompressed_before(s, j) == decompressed_before(s, j - 1) + s[j - 1].decompressed_size);
        assert(decompressed_before(r, j - 1) == decompressed_before(r, j - 2) + r[j - 2].decompressed_size);
        assert(compressed_before(s, j) == compressed_before(s, j - 1) + s[j - 1].compressed_size);
        assert(compressed_before(r, j - 1) == compressed_before(r, j - 2) + r[j - 2].compressed_size);
    } else {
        assert(s[0] == x);
        assert(decompressed_before(s, 0) == 0);
        assert(decompressed_before(r, 0) == 0);
        assert(compressed_before(s, 0) == 0);
        assert(compressed_before(r, 0) == 0);
        assert(decompressed_before(s, 1) == decompressed_before(s, 0) + s[0].decompressed_size);
        assert(compressed_before(s, 1) == compressed_before(s, 0) + s[0].compressed_size);
    }
}

proof fn lemma_record_infos_offsets(
    buf: Seq<u8>,
    w: int,
    count: int,
    k: int,
    o: int,
    ca: int,
    da: int,
)
    requires
        k <= count,
        spec_record_infos(buf, w, count, k, o, ca, da) is Some,
    ensures
        ({
            let infos = spec_record_infos(buf, w, count, k, o, ca, da)->Some_0.0;
            &&& infos.len() == count - k
            &&& forall|j: int|
                0 <= j < infos.len() ==> (#[trigger] infos[j]).decompressed_accumulator_offset
                    == da + decompressed_before(infos, j) && infos[j].compressed_accumulator_offset
                    == ca + compressed_before(infos, j)
            &&& forall|j: int|
                0 <= j < infos.len() ==> (#[trigger] infos[j]).compressed_size == num_at(
                    buf,
                    o + 2 * w * j,
                    w,
                ) && infos[j].decompressed_size == num_at(buf, o + 2 * w * j + w, w)
        }),
    decreases count - k,
{
    let infos = spec_record_infos(buf, w, count, k, o, ca, da)->Some_0.0;
    if k < count {
        let c = num_at(buf, o, w);
        let d = num_at(buf, o + w, w);
        lemma_record_infos_offsets(buf, w, count, k + 1, o + 2 * w, ca + c, da + d);
        let rest = spec_record_infos(buf, w, count, k + 1, o + 2 * w, ca + c, da + d)->Some_0.0;
        let info = infos[0];
        assert(infos == seq![info] + rest);
        assert forall|j: int| 0 <= j < infos.len() implies (#[trigger] infos[j]).decompressed_accumulator_offset
            == da + decompressed_before(infos, j) && infos[j].compressed_accumulator_offset
            == ca + compressed_before(infos, j) by {
            if j > 0 {
                lemma_before_cons(info, rest, j);
                assert(infos[j] == rest[j - 1]);
            }
        }
        assert forall|j: int| 0 <= j < infos.len() implies (#[trigger] infos[j]).compressed_size
            == num_at(buf, o + 2 * w * j, w) && infos[j].decompressed_size == num_at(
            buf,
            o + 2 * w * j + w,
            w,
        ) by {
            if j > 0 {
                assert(infos[j] == rest[j - 1]);
                assert((o + 2 * w) + 2 * w * (j - 1) == o + 2 * w * j) by (nonlinear_arith);
            }
        }
    }
}

/// The record block index places each block right after the ones before it:
/// block `k` starts, in the compressed and in the decompressed data, where
/// the sizes of blocks `0..k` add up to. One block is read per declared
/// block, block `k` from the `2 * w` bytes at `2 * w * k`: its compressed
/// size, then its decompressed size.
pub proof fn lemma_record_index_offsets(buf: Seq<u8>, w: int, count: int)
    requires
        0 <= count,
        spec_record_index(buf, w, count) is Some,
    ensures
        ({
            let infos = spec_record_index(buf, w, count)->Some_0;
            &&& infos.len() == count
            &&& forall|k: int|
                0 <= k < infos.len() ==> (#[trigger] infos[k]).decompressed_accumulator_offset
                    == decompressed_before(infos, k) && infos[k].compressed_accumulator_offset
                    == compressed_before(infos, k)
            &&& forall|k: int|
                0 <= k < infos.len() ==> (#[trigger] infos[k]).compressed_size == num_at(
                    buf,
                    2 * w * k,
                    w,
                ) && infos[k].decompressed_size == num_at(buf, 2 * w * k + w, w)
        }),
{
    lemma_record_infos_offsets(buf, w, count, 0, 0, 0, 0);
}

} // verus!

verus! {

proof fn lemma_records_length_from(raw: Seq<u8>, infos: Seq<RecordBlockInfo>, k: int, c: int)
    requires
        0 <= k <= infos.len(),
        spec_records(raw, infos, k, c) is Some,
        forall|j: int| 0 <= j < infos.len() ==> (#[trigger] infos[j]).decompressed_size > 0,
    ensures
        spec_records(raw, infos, k, c)->Some_0.len() == decompressed_before(infos, infos.len() as int)
            - decompressed_before(infos, k),
    decreases infos.len() - k,
{
    if k < infos.len() {
        let comp = infos[k].compressed_size as int;
        lemma_records_length_from(raw, infos, k + 1, c + comp);
        assert(decompressed_before(infos, k + 1) == decompressed_before(infos, k)
            + infos[k].decompressed_size);
    }
}

/// Decoded record data is exactly as long as the blocks' declared
/// decompressed sizes add up to (when every block declares its size), so the
/// blocks' decompressed ranges, which start at the running sums of those
/// sizes, tile it.
pub proof fn lemma_records_tile(raw: Seq<u8>, infos: Seq<RecordBlockInfo>)
    requires
        spec_records(raw, infos, 0, 0) is Some,
        forall|j: int| 0 <= j < infos.len() ==> (#[trigger] infos[j]).decompressed_size > 0,
    ensures
        spec_records(raw, infos, 0, 0)->Some_0.len() == decompressed_before(
            infos,
            infos.len() as int,
        ),
{
    lemma_records_length_from(raw, infos, 0, 0);
}

} // verus!
