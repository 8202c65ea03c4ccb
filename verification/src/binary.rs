//! Big-endian integers, text decoding and the attribute syntax of MDict headers.
use vstd::prelude::*;
use crate::error::{format_error, ErrorView, MdxError, Result};
use crate::text::{
    char_from_u32, chars_of, eq_ignore_ascii_case, find_char_from, find_char_in, is_whitespace,
    lemma_find_char_from, skip_ws, spec_is_whitespace, str_eq_ignore_ascii_case, string_of,
    string_of_range, trim, trim_bounds, ws_end, decimal_string, decimal_text,
};

verus! {

/// 256 to the power `n`.
pub open spec fn pow256(n: nat) -> nat
    decreases n,
{
    if n == 0 {
        1
    } else {
        256 * pow256((n - 1) as nat)
    }
}

/// The unsigned integer that the bytes encode, most significant byte first.
pub open spec fn be_value(s: Seq<u8>) -> nat
    decreases s.len(),
{
    if s.len() == 0 {
        0
    } else {
        be_value(s.drop_last()) * 256 + s.last() as nat
    }
}

proof fn lemma_pow256_8()
    ensures
        pow256(8) == 0x1_0000_0000_0000_0000,
        pow256(7) == 0x100_0000_0000_0000,
        pow256(4) == 0x1_0000_0000,
        pow256(2) == 0x1_0000,
        pow256(1) == 0x100,
{
    reveal_with_fuel(pow256, 9);
}

proof fn lemma_pow256_mono(a: nat, b: nat)
    requires
        a <= b,
    ensures
        pow256(a) <= pow256(b),
    decreases b,
{
    if a < b {
        lemma_pow256_mono(a, (b - 1) as nat);
    }
}

/// The value of `n` big-endian bytes is below `256^n`.
pub proof fn lemma_be_value_bound(s: Seq<u8>)
    ensures
        be_value(s) < pow256(s.len()),
    decreases s.len(),
{
    if s.len() > 0 {
        lemma_be_value_bound(s.drop_last());
    }
}

/// Reads `n <= 8` bytes at `lo` as a big-endian integer.
pub(crate) fn read_be(bytes: &[u8], lo: usize, n: usize) -> (r: u64)
    requires
        n <= 8,
        lo + n <= bytes@.len(),
    ensures
        r == be_value(bytes@.subrange(lo as int, lo + n)),
{
    let mut acc: u64 = 0;
    let mut i: usize = 0;
    let blen = bytes.len();
    while i < n
        invariant
            blen == bytes@.len(),
            n <= 8,
            lo + n <= bytes@.len(),
            i <= n,
            acc == be_value(bytes@.subrange(lo as int, lo + i)),
        decreases n - i,
    {
        proof {
            lemma_be_value_bound(bytes@.subrange(lo as int, lo + i));
            lemma_pow256_mono(i as nat, 7);
            lemma_pow256_8();
            assert(bytes@.subrange(lo as int, lo + i + 1).drop_last() =~= bytes@.subrange(
                lo as int,
                lo + i,
            ));
        }
        acc = acc * 256 + bytes[lo + i] as u64;
        i = i + 1;
    }
    acc
}

/// The first byte.
pub fn be_u8(bytes: &[u8]) -> (r: Result<u8>)
    ensures
        r is Ok <==> bytes@.len() >= 1,
        r matches Ok(v) ==> v == bytes@[0],
        r matches Err(e) ==> e@ == ErrorView::InvalidFormat("expected 1 byte"@),
{
    if bytes.len() < 1 {
        return Err(format_error("expected 1 byte"));
    }
    Ok(bytes[0])
}

/// The first two bytes as a big-endian integer.
pub fn be_u16(bytes: &[u8]) -> (r: Result<u16>)
    ensures
        r is Ok <==> bytes@.len() >= 2,
        r matches Ok(v) ==> v == be_value(bytes@.subrange(0, 2)),
        r matches Err(e) ==> e@ == ErrorView::InvalidFormat("expected 2 bytes"@),
{
    if bytes.len() < 2 {
        return Err(format_error("expected 2 bytes"));
    }
    let v = read_be(bytes, 0, 2);
    proof {
        lemma_be_value_bound(bytes@.subrange(0, 2));
        lemma_pow256_8();
    }
    Ok(v as u16)
}

/// The first four bytes as a big-endian integer.
pub fn be_u32(bytes: &[u8]) -> (r: Result<u32>)
    ensures
        r is Ok <==> bytes@.len() >= 4,
        r matches Ok(v) ==> v == be_value(bytes@.subrange(0, 4)),
        r matches Err(e) ==> e@ == ErrorView::InvalidFormat("expected 4 bytes"@),
{
    if bytes.len() < 4 {
        return Err(format_error("expected 4 bytes"));
    }
    let v = read_be(bytes, 0, 4);
    proof {
        lemma_be_value_bound(bytes@.subrange(0, 4));
        lemma_pow256_8();
    }
    Ok(v as u32)
}

/// The first eight bytes as a big-endian integer.
pub fn be_u64(bytes: &[u8]) -> (r: Result<u64>)
    ensures
        r is Ok <==> bytes@.len() >= 8,
        r matches Ok(v) ==> v == be_value(bytes@.subrange(0, 8)),
        r matches Err(e) ==> e@ == ErrorView::InvalidFormat("expected 8 bytes"@),
{
    if bytes.len() < 8 {
        return Err(format_error("expected 8 bytes"));
    }
    Ok(read_be(bytes, 0, 8))
}

/// The outcome of reading a `width`-byte big-endian integer at `offset`.
pub open spec fn spec_read_meta_uint(buf: Seq<u8>, offset: int, width: int) -> Option<u64> {
    if offset + width <= buf.len() && (width == 4 || width == 8) {
        Some(be_value(buf.subrange(offset, offset + width)) as u64)
    } else {
        None
    }
}

/// Why a metadata integer of `width` bytes at `offset` cannot be read from
/// `len` bytes.
pub open spec fn meta_uint_error(len: int, offset: int, width: int) -> ErrorView {
    if offset + width > usize::MAX {
        ErrorView::InvalidFormat("metadata integer offset overflow"@)
    } else if offset + width > len {
        ErrorView::InvalidFormat(
            "metadata integer at offset "@ + decimal_text(offset as nat) + " with width "@
                + decimal_text(width as nat) + " exceeds buffer length "@ + decimal_text(
                len as nat,
            ),
        )
    } else {
        ErrorView::InvalidFormat(
            "unsupported metadata integer width "@ + decimal_text(width as nat),
        )
    }
}

/// A metadata integer of 4 or 8 bytes, big-endian, at `offset`.
pub fn read_meta_uint(buf: &[u8], offset: usize, number_width: usize) -> (r: Result<u64>)
    ensures
        r is Ok <==> spec_read_meta_uint(buf@, offset as int, number_width as int) is Some,
        r matches Ok(v) ==> spec_read_meta_uint(buf@, offset as int, number_width as int) == Some(
            v,
        ),
        r matches Ok(v) ==> v == be_value(
            buf@.subrange(offset as int, offset + number_width),
        ),
        r matches Err(e) ==> e@ == meta_uint_error(
            buf@.len() as int,
            offset as int,
            number_width as int,
        ),
{
    let blen = buf.len();
    if number_width > usize::MAX - offset {
        return Err(format_error("metadata integer offset overflow"));
    }
    let end = offset + number_width;
    if end > buf.len() {
        let mut m = String::from_str("metadata integer at offset ");
        m.append(decimal_string(offset as u64).as_str());
        m.append(" with width ");
        m.append(decimal_string(number_width as u64).as_str());
        m.append(" exceeds buffer length ");
        m.append(decimal_string(blen as u64).as_str());
        return Err(MdxError::InvalidFormat(m));
    }
    if number_width == 4 || number_width == 8 {
        let v = read_be(buf, offset, number_width);
        proof {
            lemma_be_value_bound(buf@.subrange(offset as int, offset + number_width));
            lemma_pow256_8();
        }
        Ok(v)
    } else {
        let mut m = String::from_str("unsupported metadata integer width ");
        m.append(decimal_string(number_width as u64).as_str());
        Err(MdxError::InvalidFormat(m))
    }
}

/// The 16-bit code units of little-endian bytes (pairs; a last odd byte is left out).
pub open spec fn le_units(raw: Seq<u8>) -> Seq<u16> {
    Seq::new((raw.len() / 2) as nat, |i: int| (raw[2 * i] + raw[2 * i + 1] * 256) as u16)
}

/// Whether a code unit is a high (leading) surrogate.
pub open spec fn is_high_surrogate(w: u16) -> bool {
    0xD800 <= w <= 0xDBFF
}

/// Whether a code unit is a low (trailing) surrogate.
pub open spec fn is_low_surrogate(w: u16) -> bool {
    0xDC00 <= w <= 0xDFFF
}

/// The scalar value of a surrogate pair.
pub open spec fn surrogate_pair_value(hi: u16, lo: u16) -> u32 {
    (0x10000 + (hi - 0xD800) * 0x400 + (lo - 0xDC00)) as u32
}

/// Prepends a character to an optional text.
pub open spec fn prepend_char(c: char, t: Option<Seq<char>>) -> Option<Seq<char>> {
    match t {
        Some(t) => Some(seq![c] + t),
        None => None,
    }
}

/// Appends an optional text to a known text.
pub open spec fn join_text(p: Seq<char>, t: Option<Seq<char>>) -> Option<Seq<char>> {
    match t {
        Some(t) => Some(p + t),
        None => None,
    }
}

/// UTF-16 decoding of the code units from position `i` on; `None` on an unpaired surrogate.
pub open spec fn utf16_decode_from(u: Seq<u16>, i: int) -> Option<Seq<char>>
    decreases u.len() - i,
{
    if i < 0 || i >= u.len() {
        Some(Seq::empty())
    } else if !is_high_surrogate(u[i]) && !is_low_surrogate(u[i]) {
        prepend_char((u[i] as u32) as char, utf16_decode_from(u, i + 1))
    } else if is_high_surrogate(u[i]) && i + 1 < u.len() && is_low_surrogate(u[i + 1]) {
        prepend_char(
            surrogate_pair_value(u[i], u[i + 1]) as char,
            utf16_decode_from(u, i + 2),
        )
    } else {
        None
    }
}

/// UTF-16 decoding: the text the code units encode, or `None` if they are not valid UTF-16.
pub open spec fn utf16_decode(u: Seq<u16>) -> Option<Seq<char>> {
    utf16_decode_from(u, 0)
}

proof fn lemma_join_prepend(p: Seq<char>, c: char, t: Option<Seq<char>>)
    ensures
        join_text(p, prepend_char(c, t)) == join_text(p.push(c), t),
{
    match t {
        Some(t) => {
            assert(p + (seq![c] + t) =~= p.push(c) + t);
        },
        None => {},
    }
}

/// Decodes the little-endian UTF-16 code units in `raw[lo..hi]` up to (not
/// including) the first zero unit when `stop_at_nul` holds.
pub(crate) fn utf16_units_value(raw: &[u8], i: usize) -> (r: u16)
    requires
        2 * i + 1 < raw@.len(),
    ensures
        r == le_units(raw@)[i as int],
{
    let rlen = raw.len();
    let lo = raw[2 * i] as u16;
    let hi = raw[2 * i + 1] as u16;
    assert(hi * 256 <= 65280);
    lo + hi * 256
}

/// Decodes the code units `units[..n]` of `raw` as UTF-16.
pub(crate) fn decode_utf16_units(raw: &[u8], n: usize) -> (r: Option<Vec<char>>)
    requires
        2 * n <= raw@.len(),
    ensures
        r matches Some(v) ==> utf16_decode(le_units(raw@).take(n as int)) == Some(v@),
        r is None ==> utf16_decode(le_units(raw@).take(n as int)) is None,
{
    let ghost u = le_units(raw@).take(n as int);
    let mut out: Vec<char> = Vec::new();
    let mut i: usize = 0;
    while i < n
        invariant
            2 * n <= raw@.len(),
            u == le_units(raw@).take(n as int),
            i <= n,
            utf16_decode(u) == join_text(out@, utf16_decode_from(u, i as int)),
        decreases n - i,
    {
        let w = utf16_units_value(raw, i);
        assert(u[i as int] == w);
        if w < 0xD800 || w > 0xDFFF {
            let c = char_from_u32(w as u32);
            match c {
                Some(c) => {
                    proof {
                        vstd::utf8::char_u32_cast(c, w as u32);
                        lemma_join_prepend(out@, c, utf16_decode_from(u, i + 1));
                    }
                    out.push(c);
                    i = i + 1;
                },
                None => {
                    return None;
                },
            }
        } else if w <= 0xDBFF && i + 1 < n {
            let w2 = utf16_units_value(raw, i + 1);
            assert(u[i + 1] == w2);
            if 0xDC00 <= w2 && w2 <= 0xDFFF {
                let v: u32 = 0x10000 + ((w - 0xD800) as u32) * 0x400 + ((w2 - 0xDC00) as u32);
                let c = char_from_u32(v);
                match c {
                    Some(c) => {
                        proof {
                            vstd::utf8::char_u32_cast(c, v);
                            lemma_join_prepend(out@, c, utf16_decode_from(u, i + 2));
                        }
                        out.push(c);
                        i = i + 2;
                    },
                    None => {
                        return None;
                    },
                }
            } else {
                return None;
            }
        } else {
            return None;
        }
    }
    assert(out@ + Seq::<char>::empty() =~= out@);
    Some(out)
}

/// Text stored as little-endian UTF-16.
pub fn decode_utf16le(raw: &[u8]) -> (r: Result<String>)
    ensures
        r is Ok <==> raw@.len() % 2 == 0 && utf16_decode(le_units(raw@)) is Some,
        r matches Ok(s) ==> Some(s@) == utf16_decode(le_units(raw@)),
        r matches Err(e) ==> e@ == if raw@.len() % 2 != 0 {
            ErrorView::InvalidFormat("UTF-16LE data must contain an even number of bytes"@)
        } else {
            ErrorView::InvalidFormat("invalid UTF-16LE: invalid utf-16: lone surrogate found"@)
        },
{
    if raw.len() % 2 != 0 {
        return Err(format_error("UTF-16LE data must contain an even number of bytes"));
    }
    let n = raw.len() / 2;
    assert(le_units(raw@).take(n as int) =~= le_units(raw@));
    match decode_utf16_units(raw, n) {
        Some(v) => Ok(string_of(v.as_slice())),
        None => Err(format_error("invalid UTF-16LE: invalid utf-16: lone surrogate found")),
    }
}

/// `std::str::from_utf8`: the text that the bytes encode, if they are valid
/// UTF-8, or else the `Display` text of its `Utf8Error`. The contract is the
/// standard library's documented one, stated over vstd's definitions of
/// UTF-8; nothing is claimed of the error's text.
#[verifier::external_body]
pub(crate) fn str_from_utf8(raw: &[u8]) -> (r: core::result::Result<&str, String>)
    ensures
        r is Ok <==> vstd::utf8::valid_utf8(raw@),
        r matches Ok(s) ==> s@ == vstd::utf8::decode_utf8(raw@),
{
    match std::str::from_utf8(raw) {
        Ok(s) => Ok(s),
        Err(e) => Err(format!("{e}")),
    }
}

/// Text stored as UTF-8.
pub fn decode_utf8(raw: &[u8]) -> (r: Result<String>)
    ensures
        r is Ok <==> vstd::utf8::valid_utf8(raw@),
        r matches Ok(s) ==> s@ == vstd::utf8::decode_utf8(raw@),
        r matches Err(e) ==> e@ matches ErrorView::InvalidFormat(m) && "invalid UTF-8: "@.is_prefix_of(
            m,
        ),
{
    match str_from_utf8(raw) {
        Ok(s) => Ok(s.to_owned()),
        Err(cause) => {
            let mut m = String::from_str("invalid UTF-8: ");
            let ghost p = m@;
            m.append(cause.as_str());
            assert(p =~= m@.subrange(0, p.len() as int));
            Err(MdxError::InvalidFormat(m))
        },
    }
}

/// Why the `len` bytes at `start` cannot be taken from `blen` bytes.
pub open spec fn slice_error(blen: int, start: int, len: int) -> ErrorView {
    if start + len > usize::MAX {
        ErrorView::InvalidFormat("slice offset overflow"@)
    } else {
        ErrorView::InvalidFormat(
            "slice "@ + decimal_text(start as nat) + ".."@ + decimal_text((start + len) as nat)
                + " exceeds buffer length "@ + decimal_text(blen as nat),
        )
    }
}

/// The error of taking `len` bytes at `start` from `blen` bytes.
pub(crate) fn slice_error_of(blen: usize, start: usize, len: usize) -> (e: MdxError)
    ensures
        e@ == slice_error(blen as int, start as int, len as int),
{
    if len > usize::MAX - start {
        return format_error("slice offset overflow");
    }
    let mut m = String::from_str("slice ");
    m.append(decimal_string(start as u64).as_str());
    m.append("..");
    m.append(decimal_string((start + len) as u64).as_str());
    m.append(" exceeds buffer length ");
    m.append(decimal_string(blen as u64).as_str());
    MdxError::InvalidFormat(m)
}

/// The error of reading a `width`-byte integer at `offset` from `blen` bytes
/// that do not hold it.
pub(crate) fn meta_uint_error_of(blen: usize, offset: usize, width: usize) -> (e: MdxError)
    requires
        offset + width > blen,
    ensures
        e@ == meta_uint_error(blen as int, offset as int, width as int),
{
    if width > usize::MAX - offset {
        return format_error("metadata integer offset overflow");
    }
    let mut m = String::from_str("metadata integer at offset ");
    m.append(decimal_string(offset as u64).as_str());
    m.append(" with width ");
    m.append(decimal_string(width as u64).as_str());
    m.append(" exceeds buffer length ");
    m.append(decimal_string(blen as u64).as_str());
    MdxError::InvalidFormat(m)
}

/// The `len` bytes at `start`.
pub fn read_slice(buf: &[u8], start: usize, len: usize) -> (r: Result<&[u8]>)
    ensures
        r is Ok <==> start + len <= buf@.len(),
        r matches Ok(s) ==> s@ == buf@.subrange(start as int, start + len),
        r matches Err(e) ==> e@ == slice_error(buf@.len() as int, start as int, len as int),
{
    let blen = buf.len();
    if len > usize::MAX - start {
        return Err(format_error("slice offset overflow"));
    }
    let end = start + len;
    if end > buf.len() {
        let mut m = String::from_str("slice ");
        m.append(decimal_string(start as u64).as_str());
        m.append("..");
        m.append(decimal_string(end as u64).as_str());
        m.append(" exceeds buffer length ");
        m.append(decimal_string(blen as u64).as_str());
        return Err(MdxError::InvalidFormat(m));
    }
    Ok(vstd::slice::slice_subrange(buf, start, end))
}

} // verus!

verus! {

/// Characters that end the text before an attribute's name.
pub open spec fn is_key_delim(c: char) -> bool {
    spec_is_whitespace(c) || c == '<'
}

/// Position of the last key delimiter in `s[lo..j]`.
pub open spec fn rfind_key_delim(s: Seq<char>, lo: int, j: int) -> Option<int>
    decreases j - lo,
{
    if j <= lo {
        None
    } else if is_key_delim(s[j - 1]) {
        Some(j - 1)
    } else {
        rfind_key_delim(s, lo, j - 1)
    }
}

proof fn lemma_rfind_key_delim(s: Seq<char>, lo: int, j: int)
    requires
        lo <= j,
    ensures
        rfind_key_delim(s, lo, j) matches Some(k) ==> lo <= k < j,
    decreases j - lo,
{
    if j > lo && !is_key_delim(s[j - 1]) {
        lemma_rfind_key_delim(s, lo, j - 1);
    }
}

/// One attribute `name="value"` (or with single quotes) read from `s[p..]`: its
/// name (trimmed, possibly empty), its value and where reading goes on; `None`
/// where no further attribute can be read.
pub open spec fn header_attr_step(s: Seq<char>, p: int) -> Option<(Seq<char>, Seq<char>, int)> {
    match find_char_from(s, '=', p) {
        None => None,
        Some(eq) => {
            let key_start = match rfind_key_delim(s, p, eq) {
                Some(k) => k + 1,
                None => p,
            };
            let key = trim(s.subrange(key_start, eq));
            let a = ws_end(s, eq + 1, s.len() as int);
            if a >= s.len() || (s[a] != '"' && s[a] != '\'') {
                None
            } else {
                match find_char_from(s, s[a], a + 1) {
                    None => None,
                    Some(vend) => Some((key, s.subrange(a + 1, vend), vend + 1)),
                }
            }
        },
    }
}

/// The attributes with a non-empty name read from `s[p..]`, in order.
pub open spec fn header_attrs_from(s: Seq<char>, p: int) -> Seq<(Seq<char>, Seq<char>)>
    decreases s.len() - p,
{
    if p < 0 || p > s.len() {
        Seq::empty()
    } else {
        match header_attr_step(s, p) {
            None => Seq::empty(),
            Some((k, v, n)) => if n <= p || n > s.len() {
                Seq::empty()
            } else {
                (if k.len() > 0 {
                    seq![(k, v)]
                } else {
                    Seq::empty()
                }) + header_attrs_from(s, n)
            },
        }
    }
}

/// The attributes of an MDict header, in order.
pub open spec fn header_attributes(s: Seq<char>) -> Seq<(Seq<char>, Seq<char>)> {
    header_attrs_from(s, 0)
}

/// The text of a list of attribute pairs.
pub open spec fn attr_pairs_view(v: Seq<(String, String)>) -> Seq<(Seq<char>, Seq<char>)> {
    v.map_values(|p: (String, String)| (p.0@, p.1@))
}

/// The value of the first attribute whose name equals `name` ignoring ASCII case.
pub open spec fn first_attr_named(attrs: Seq<(Seq<char>, Seq<char>)>, name: Seq<char>, i: int) -> Option<
    Seq<char>,
>
    decreases attrs.len() - i,
{
    if i < 0 || i >= attrs.len() {
        None
    } else if eq_ignore_ascii_case(attrs[i].0, name) {
        Some(attrs[i].1)
    } else {
        first_attr_named(attrs, name, i + 1)
    }
}

/// The value of the attribute `name` (ignoring ASCII case) in a header.
pub open spec fn spec_header_attr(header: Seq<char>, name: Seq<char>) -> Option<Seq<char>> {
    first_attr_named(header_attributes(header), name, 0)
}

fn rfind_key_delim_exec(v: &[char], lo: usize, j: usize) -> (r: Option<usize>)
    requires
        lo <= j <= v@.len(),
    ensures
        r matches Some(k) ==> rfind_key_delim(v@, lo as int, j as int) == Some(k as int),
        r is None ==> rfind_key_delim(v@, lo as int, j as int) is None,
{
    let mut k = j;
    while k > lo
        invariant
            lo <= k <= j <= v@.len(),
            rfind_key_delim(v@, lo as int, k as int) == rfind_key_delim(v@, lo as int, j as int),
        decreases k - lo,
    {
        let c = v[k - 1];
        if is_whitespace(c) || c == '<' {
            return Some(k - 1);
        }
        k = k - 1;
    }
    None
}

/// The `name="value"` attributes of an MDict header, in order; attributes with
/// an empty name are skipped and reading stops at the first malformed one.
#[verifier::spinoff_prover]
pub fn parse_header_attributes(header: &str) -> (r: Vec<(String, String)>)
    ensures
        attr_pairs_view(r@) == header_attributes(header@),
{
    let v = chars_of(header);
    let n = v.len();
    let ghost s = v@;
    assert(s.subrange(0, n as int) =~= s);
    let mut attrs: Vec<(String, String)> = Vec::new();
    let mut p: usize = 0;
    while p <= n
        invariant
            s == v@,
            s == header@,
            n == s.len(),
            s.subrange(0, n as int) == s,
            attr_pairs_view(attrs@) + header_attrs_from(s, p as int) == header_attributes(s),
        ensures
            header_attrs_from(s, p as int) == Seq::<(Seq<char>, Seq<char>)>::empty(),
            attr_pairs_view(attrs@) + header_attrs_from(s, p as int) == header_attributes(s),
        decreases n + 1 - p,
    {
        let ghost before = attrs@;
        let eq = match find_char_in(v.as_slice(), '=', p, n) {
            Some(eq) => eq,
            None => {
                assert(header_attrs_from(s, p as int) =~= Seq::empty());
                break;
            },
        };
        proof {
            lemma_find_char_from(s, '=', p as int);
        }
        proof {
            lemma_rfind_key_delim(s, p as int, eq as int);
        }
        let key_start = match rfind_key_delim_exec(v.as_slice(), p, eq) {
            Some(k) => k + 1,
            None => p,
        };
        let (ka, kb) = trim_bounds(v.as_slice(), key_start, eq);
        let a = skip_ws(v.as_slice(), eq + 1, n);
        if a >= n || (v[a] != '"' && v[a] != '\'') {
            assert(header_attrs_from(s, p as int) =~= Seq::empty());
            break;
        }
        let q = v[a];
        let vend = match find_char_in(v.as_slice(), q, a + 1, n) {
            Some(e) => e,
            None => {
                assert(header_attrs_from(s, p as int) =~= Seq::empty());
                break;
            },
        };
        proof {
            lemma_find_char_from(s, q, a + 1);
        }
        let ghost step = header_attr_step(s, p as int);
        assert(step == Some((s.subrange(ka as int, kb as int), s.subrange(a + 1, vend as int), vend + 1)));
        if kb > ka {
            let key = string_of_range(v.as_slice(), ka, kb);
            let value = string_of_range(v.as_slice(), a + 1, vend);
            attrs.push((key, value));
            proof {
                assert(attr_pairs_view(attrs@) =~= attr_pairs_view(before) + seq![
                    (s.subrange(ka as int, kb as int), s.subrange(a + 1, vend as int)),
                ]);
            }
        }
        assert(attr_pairs_view(attrs@) + header_attrs_from(s, vend + 1) =~= attr_pairs_view(before)
            + header_attrs_from(s, p as int));
        p = vend + 1;
    }
    assert(attr_pairs_view(attrs@) =~= header_attributes(s));
    attrs
}

/// The value of the first header attribute named `name`, ignoring ASCII case.
pub fn header_attr(header: &str, name: &str) -> (r: Option<String>)
    ensures
        r matches Some(v) ==> spec_header_attr(header@, name@) == Some(v@),
        r is None ==> spec_header_attr(header@, name@) is None,
{
    let attrs = parse_header_attributes(header);
    let ghost av = attr_pairs_view(attrs@);
    let mut i: usize = 0;
    while i < attrs.len()
        invariant
            av == attr_pairs_view(attrs@),
            av == header_attributes(header@),
            i <= attrs@.len(),
            first_attr_named(av, name@, i as int) == first_attr_named(av, name@, 0),
        decreases attrs@.len() - i,
    {
        assert(av[i as int] == (attrs@[i as int].0@, attrs@[i as int].1@));
        if str_eq_ignore_ascii_case(attrs[i].0.as_str(), name) {
            return Some(attrs[i].1.clone());
        }
        i = i + 1;
    }
    None
}

} // verus!
