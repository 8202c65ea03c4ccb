//! Dictionaries: metadata, keyword entries, lookups and record resolution.
use vstd::prelude::*;
use std::sync::Arc;
use crate::asset::AssetResolver;
pub use crate::mdict::metadata_from_mdict_header_bytes;
use crate::binary::{
    be_value, decode_utf16le, le_units, spec_header_attr, header_attr, utf16_decode,
};
use crate::error::{format_error, ErrorView, MdxError, Result};
use crate::index::{comparable_chars, comparable_key};
use crate::range_tree::{block_contains, spec_query, RecordBlockInfo, RecordRangeTree};
use crate::text::{
    chars_eq, chars_of, eq_ignore_ascii_case, spec_str_lowercase, str_eq_ignore_ascii_case,
    decimal_string, decimal_text, string_of, trim, trimmed_chars,
};

verus! {

/// The two kinds of MDict file: keyword dictionaries and resource archives.
#[derive(Debug, Clone, Copy, PartialEq, Eq, Structural)]
pub enum MDictType {
    Mdd,
    Mdx,
}

/// The header metadata of a dictionary.
#[derive(Debug, Clone, PartialEq, Eq)]
pub struct Metadata {
    pub title: String,
    pub description: String,
    pub creation_date: String,
    pub generated_by_engine_version: String,
    pub version: String,
    pub encoding: String,
    pub encrypted: u8,
    pub register_by: String,
}

/// The value of an optional header attribute, or the empty text.
pub open spec fn attr_or_empty(v: Option<Seq<char>>) -> Seq<char> {
    match v {
        Some(s) => s,
        None => Seq::empty(),
    }
}

/// The decimal value of a sequence of ASCII digits.
pub open spec fn decimal_value(s: Seq<char>) -> nat
    decreases s.len(),
{
    if s.len() == 0 {
        0
    } else {
        decimal_value(s.drop_last()) * 10 + ((s.last() as u32) - ('0' as u32)) as nat
    }
}

/// Whether every character is an ASCII digit.
pub open spec fn all_digits(s: Seq<char>) -> bool {
    forall|i: int| 0 <= i < s.len() ==> '0' <= #[trigger] s[i] <= '9'
}

/// `u8::from_str`: an optional `+` and at least one digit, of value at most 255.
pub open spec fn spec_parse_u8(s: Seq<char>) -> Option<u8> {
    let d = if s.len() > 0 && s[0] == '+' {
        s.skip(1)
    } else {
        s
    };
    if d.len() > 0 && all_digits(d) && decimal_value(d) <= 255 {
        Some(decimal_value(d) as u8)
    } else {
        None
    }
}

/// The encryption flag of the `Encrypted` header attribute.
pub open spec fn spec_encrypted(v: Option<Seq<char>>) -> u8 {
    match v {
        None => 0,
        Some(s) => {
            let t = trim(s);
            if t.len() == 0 || t == "No"@ {
                0
            } else if t == "Yes"@ {
                1
            } else if t[0] == '2' {
                2
            } else if t[0] == '1' {
                1
            } else {
                match spec_parse_u8(t) {
                    Some(n) => n,
                    None => 0,
                }
            }
        },
    }
}

/// The metadata that a header's attributes describe.
pub open spec fn metadata_matches_header(m: Metadata, header: Seq<char>) -> bool {
    &&& m.title@ == attr_or_empty(spec_header_attr(header, "Title"@))
    &&& m.description@ == attr_or_empty(spec_header_attr(header, "Description"@))
    &&& m.creation_date@ == attr_or_empty(spec_header_attr(header, "CreationDate"@))
    &&& m.generated_by_engine_version@ == attr_or_empty(
        spec_header_attr(header, "GeneratedByEngineVersion"@),
    )
    &&& m.version@ == attr_or_empty(spec_header_attr(header, "GeneratedByEngineVersion"@))
    &&& m.encoding@ == match spec_header_attr(header, "Encoding"@) {
        Some(e) => e,
        None => "UTF-8"@,
    }
    &&& m.encrypted == spec_encrypted(spec_header_attr(header, "Encrypted"@))
    &&& m.register_by@ == attr_or_empty(spec_header_attr(header, "RegisterBy"@))
}

proof fn lemma_decimal_value_grows(s: Seq<char>, i: int)
    requires
        0 <= i <= s.len(),
        all_digits(s),
    ensures
        decimal_value(s.take(i)) <= decimal_value(s),
    decreases s.len() - i,
{
    if i < s.len() {
        lemma_decimal_value_grows(s, i + 1);
        assert(s.take(i + 1).drop_last() =~= s.take(i));
    } else {
        assert(s.take(i) =~= s);
    }
}

fn parse_u8_text(s: &[char]) -> (r: Option<u8>)
    ensures
        r == spec_parse_u8(s@),
{
    let start: usize = if s.len() > 0 && s[0] == '+' {
        1
    } else {
        0
    };
    let ghost d = if s@.len() > 0 && s@[0] == '+' {
        s@.skip(1)
    } else {
        s@
    };
    assert(d =~= s@.skip(start as int));
    if start >= s.len() {
        return None;
    }
    let mut acc: u32 = 0;
    let mut i = start;
    while i < s.len()
        invariant
            start <= i <= s@.len(),
            d == s@.skip(start as int),
            d == (if s@.len() > 0 && s@[0] == '+' {
                s@.skip(1)
            } else {
                s@
            }),
            d.len() > 0,
            acc <= 255,
            all_digits(d.take(i - start)),
            acc == decimal_value(d.take(i - start)),
        decreases s@.len() - i,
    {
        let c = s[i];
        assert(d[i - start] == c);
        if c < '0' || c > '9' {
            assert(!all_digits(d));
            return None;
        }
        let digit = (c as u32) - ('0' as u32);
        assert(d.take(i + 1 - start).drop_last() =~= d.take(i - start));
        assert(d.take(i + 1 - start).last() == c);
        assert(decimal_value(d.take(i + 1 - start)) == acc * 10 + digit);
        let next = acc * 10 + digit;
        if next > 255 {
            proof {
                assert forall|k: int| 0 <= k < i + 1 - start implies '0' <= #[trigger] d.take(
                    i + 1 - start,
                )[k] <= '9' by {
                    if k < i - start {
                        assert(d.take(i + 1 - start)[k] == d.take(i - start)[k]);
                    }
                }
                if all_digits(d) {
                    lemma_decimal_value_grows(d, i + 1 - start);
                    assert(decimal_value(d) > 255);
                }
            }
            return None;
        }
        acc = next;
        i = i + 1;
        assert forall|k: int| 0 <= k < i - start implies '0' <= #[trigger] d.take(i - start)[k]
            <= '9' by {
            if k < i - 1 - start {
                assert(d.take(i - start)[k] == d.take(i - 1 - start)[k]);
            }
        }
    }
    assert(d.take(s@.len() - start) =~= d);
    Some(acc as u8)
}

fn parse_encrypted_header(value: Option<&str>) -> (r: u8)
    ensures
        r == spec_encrypted(
            match value {
                Some(v) => Some(v@),
                None => None,
            },
        ),
{
    match value {
        None => 0,
        Some(v) => {
            let t = trimmed_chars(v);
            let no = chars_of("No");
            let yes = chars_of("Yes");
            if t.len() == 0 || chars_eq(t.as_slice(), no.as_slice()) {
                0
            } else if chars_eq(t.as_slice(), yes.as_slice()) {
                1
            } else if t[0] == '2' {
                2
            } else if t[0] == '1' {
                1
            } else {
                match parse_u8_text(t.as_slice()) {
                    Some(n) => n,
                    None => 0,
                }
            }
        },
    }
}

fn attr_or_default(header: &str, name: &str) -> (r: String)
    ensures
        r@ == attr_or_empty(spec_header_attr(header@, name@)),
{
    match header_attr(header, name) {
        Some(v) => v,
        None => String::new(),
    }
}

impl Metadata {
    /// The metadata named by a header's attributes; absent attributes give
    /// empty texts, `UTF-8` for the encoding and `0` for the encryption flag.
    pub fn from_header(header: &str) -> (r: Metadata)
        ensures
            metadata_matches_header(r, header@),
    {
        let encrypted_attr = header_attr(header, "Encrypted");
        let encrypted = match &encrypted_attr {
            Some(v) => parse_encrypted_header(Some(v.as_str())),
            None => parse_encrypted_header(None),
        };
        Metadata {
            title: attr_or_default(header, "Title"),
            description: attr_or_default(header, "Description"),
            creation_date: attr_or_default(header, "CreationDate"),
            generated_by_engine_version: attr_or_default(header, "GeneratedByEngineVersion"),
            version: attr_or_default(header, "GeneratedByEngineVersion"),
            encoding: match header_attr(header, "Encoding") {
                Some(e) => e,
                None => String::from_str("UTF-8"),
            },
            encrypted,
            register_by: attr_or_default(header, "RegisterBy"),
        }
    }
}

impl Default for Metadata {
    /// Empty texts, `UTF-8` encoding, not encrypted.
    fn default() -> (r: Metadata)
        ensures
            is_default_metadata(r),
    {
        Metadata {
            title: String::new(),
            description: String::new(),
            creation_date: String::new(),
            generated_by_engine_version: String::new(),
            version: String::new(),
            encoding: String::from_str("UTF-8"),
            encrypted: 0,
            register_by: String::new(),
        }
    }
}

/// A copy of the metadata.
pub(crate) fn copy_metadata(m: &Metadata) -> (r: Metadata)
    ensures
        r == *m,
{
    Metadata {
        title: m.title.clone(),
        description: m.description.clone(),
        creation_date: m.creation_date.clone(),
        generated_by_engine_version: m.generated_by_engine_version.clone(),
        version: m.version.clone(),
        encoding: m.encoding.clone(),
        encrypted: m.encrypted,
        register_by: m.register_by.clone(),
    }
}

} // verus!

verus! {

/// One keyword of a dictionary and the range of its record.
#[derive(Debug, Clone, PartialEq, Eq)]
pub struct MDictKeywordEntry {
    pub record_start_offset: u64,
    pub record_end_offset: u64,
    pub keyword: String,
    pub key_block_index: u64,
    pub is_resource: bool,
    pub normalized_keyword: Option<String>,
}

/// The key under which an entry is looked up: the normalized keyword of a
/// resource that has one, the keyword otherwise.
pub open spec fn spec_lookup_key(e: MDictKeywordEntry) -> Seq<char> {
    if e.is_resource {
        match e.normalized_keyword {
            Some(n) => n@,
            None => e.keyword@,
        }
    } else {
        e.keyword@
    }
}

impl MDictKeywordEntry {
    /// An entry for `keyword` whose record spans `start..end`.
    pub fn new(keyword: &str, start: u64, end: u64) -> (r: Result<Self>)
        ensures
            r is Ok <==> start <= end,
            r matches Ok(e) ==> {
                &&& e.record_start_offset == start
                &&& e.record_end_offset == end
                &&& e.keyword@ == keyword@
                &&& e.key_block_index == 0
                &&& !e.is_resource
                &&& e.normalized_keyword is None
            },
            r matches Err(e) ==> e@ == ErrorView::InvalidInput(
                "record end offset "@ + decimal_text(end as nat) + " precedes start offset "@
                    + decimal_text(start as nat),
            ),
    {
        if end < start {
            let mut m = String::from_str("record end offset ");
            m.append(decimal_string(end).as_str());
            m.append(" precedes start offset ");
            m.append(decimal_string(start).as_str());
            return Err(MdxError::InvalidInput(m));
        }
        Ok(MDictKeywordEntry {
            record_start_offset: start,
            record_end_offset: end,
            keyword: String::from_str(keyword),
            key_block_index: 0,
            is_resource: false,
            normalized_keyword: None,
        })
    }

    /// The key under which the entry is looked up.
    pub fn lookup_key(&self) -> (r: &str)
        ensures
            r@ == spec_lookup_key(*self),
    {
        if self.is_resource {
            match &self.normalized_keyword {
                Some(n) => n.as_str(),
                None => self.keyword.as_str(),
            }
        } else {
            self.keyword.as_str()
        }
    }
}

/// A copy of an entry.
pub(crate) fn copy_entry(e: &MDictKeywordEntry) -> (r: MDictKeywordEntry)
    ensures
        r == *e,
{
    MDictKeywordEntry {
        record_start_offset: e.record_start_offset,
        record_end_offset: e.record_end_offset,
        keyword: e.keyword.clone(),
        key_block_index: e.key_block_index,
        is_resource: e.is_resource,
        normalized_keyword: match &e.normalized_keyword {
            Some(n) => Some(n.clone()),
            None => None,
        },
    }
}

/// Copies of a list of entries.
pub(crate) fn copy_entries(v: &[MDictKeywordEntry]) -> (r: Vec<MDictKeywordEntry>)
    ensures
        r@ == v@,
{
    let mut out: Vec<MDictKeywordEntry> = Vec::new();
    let mut i: usize = 0;
    while i < v.len()
        invariant
            i <= v@.len(),
            out@ == v@.take(i as int),
        decreases v@.len() - i,
    {
        out.push(copy_entry(&v[i]));
        assert(out@ =~= v@.take(i + 1));
        i = i + 1;
    }
    assert(v@.take(v@.len() as int) =~= v@);
    out
}

/// Where the record of an entry lies within its record block.
#[derive(Debug, Clone, PartialEq, Eq)]
pub struct MDictKeywordIndexRecordBlock {
    pub data_start_offset: u64,
    pub compressed_size: u64,
    pub decompressed_size: u64,
    pub keyword_part_start_offset: u64,
    pub keyword_part_data_end_offset: u64,
}

/// An entry together with the place of its record.
#[derive(Debug, Clone, PartialEq, Eq)]
pub struct MDictKeywordIndex {
    pub keyword_entry: MDictKeywordEntry,
    pub record_block: MDictKeywordIndexRecordBlock,
}

/// A summary of a dictionary.
#[derive(Debug, Clone, PartialEq, Eq)]
pub struct DictionaryInfo {
    pub name: String,
    pub title: String,
    pub entry_count: usize,
    pub path: Option<String>,
    pub dict_type: MDictType,
}

/// A copy of a dictionary summary.
pub(crate) fn copy_info(i: &DictionaryInfo) -> (r: DictionaryInfo)
    ensures
        r == *i,
{
    DictionaryInfo {
        name: i.name.clone(),
        title: i.title.clone(),
        entry_count: i.entry_count,
        path: match &i.path {
            Some(p) => Some(p.clone()),
            None => None,
        },
        dict_type: i.dict_type,
    }
}

/// The text of an optional path.
pub open spec fn opt_text(p: Option<String>) -> Option<Seq<char>> {
    match p {
        Some(p) => Some(p@),
        None => None,
    }
}

/// What a dictionary (or a builder of one) holds.
pub struct DictionaryView {
    pub name: Seq<char>,
    pub path: Option<Seq<char>>,
    pub dict_type: MDictType,
    pub metadata: Metadata,
    pub entries: Seq<MDictKeywordEntry>,
    pub records: Seq<u8>,
    pub range_tree: Option<Seq<RecordBlockInfo>>,
    pub raw_record_bytes: bool,
    /// The resolver that the dictionary's assets are read through, if one is attached.
    pub asset_resolver: Option<AssetResolver>,
}

/// The resolver held by an optional shared handle.
pub open spec fn shared_resolver(a: Option<Arc<AssetResolver>>) -> Option<AssetResolver> {
    match a {
        Some(r) => Some(*r),
        None => None,
    }
}

/// Whether the encoding names UTF-16.
pub open spec fn is_utf16_encoding(m: Metadata) -> bool {
    eq_ignore_ascii_case(m.encoding@, "UTF-16"@) || eq_ignore_ascii_case(m.encoding@, "UTF-16LE"@)
}

/// First entry at or after `i` whose lookup key is `w`.
pub open spec fn first_exact(entries: Seq<MDictKeywordEntry>, w: Seq<char>, i: int) -> Option<int>
    decreases entries.len() - i,
{
    if i < 0 || i >= entries.len() {
        None
    } else if spec_lookup_key(entries[i]) == w {
        Some(i)
    } else {
        first_exact(entries, w, i + 1)
    }
}

/// First entry at or after `i` whose lookup key has the comparable form of `w`.
pub open spec fn first_comparable(entries: Seq<MDictKeywordEntry>, w: Seq<char>, i: int) -> Option<
    int,
>
    decreases entries.len() - i,
{
    if i < 0 || i >= entries.len() {
        None
    } else if comparable_key(spec_lookup_key(entries[i])) == comparable_key(w) {
        Some(i)
    } else {
        first_comparable(entries, w, i + 1)
    }
}

/// The record of an entry: its byte range of the record data (an end of zero
/// meaning the end of the data), decoded from UTF-16 to UTF-8 for raw UTF-16
/// keyword dictionaries; `None` where the range or the text is invalid.
pub open spec fn spec_resolve(d: DictionaryView, e: MDictKeywordEntry) -> Option<Seq<u8>> {
    let start = e.record_start_offset as int;
    let end = if e.record_end_offset == 0 {
        d.records.len() as int
    } else {
        e.record_end_offset as int
    };
    if start > end || end > d.records.len() {
        None
    } else {
        let s = d.records.subrange(start, end);
        if d.raw_record_bytes && d.dict_type == MDictType::Mdx && is_utf16_encoding(d.metadata) {
            if s.len() % 2 == 0 {
                match utf16_decode(le_units(s)) {
                    Some(t) => Some(vstd::utf8::encode_utf8(t)),
                    None => None,
                }
            } else {
                None
            }
        } else {
            Some(s)
        }
    }
}

/// The target of an `@@LINK=` redirect record.
pub open spec fn spec_link_target(content: Seq<u8>) -> Option<Seq<char>> {
    if vstd::utf8::valid_utf8(content) {
        let t = trim(vstd::utf8::decode_utf8(content));
        let p = "@@LINK="@;
        if p.len() <= t.len() && t.subrange(0, p.len() as int) == p {
            let target = trim(t.skip(p.len() as int));
            if target.len() > 0 {
                Some(target)
            } else {
                None
            }
        } else {
            None
        }
    } else {
        None
    }
}

/// The outcome of a lookup.
pub enum LookupOutcome {
    /// The record found.
    Found(Seq<u8>),
    /// No entry for the (trimmed) keyword.
    Miss(Seq<char>),
    /// An entry whose record cannot be read.
    Malformed,
}

/// The entry that a word finds: an exact match first, a comparable one otherwise.
pub open spec fn find_entry(d: DictionaryView, w: Seq<char>) -> Option<int> {
    match first_exact(d.entries, w, 0) {
        Some(i) => Some(i),
        None => first_comparable(d.entries, w, 0),
    }
}

/// A lookup that follows `@@LINK=` redirects, at most eight deep, and stops at
/// a target (compared lowercased) it has already followed.
pub open spec fn spec_lookup_from(
    d: DictionaryView,
    word: Seq<char>,
    depth: int,
    seen: Seq<Seq<char>>,
) -> LookupOutcome
    decreases 9 - depth,
{
    let w = trim(word);
    if w.len() == 0 || depth > 8 || depth < 0 {
        LookupOutcome::Miss(w)
    } else {
        match find_entry(d, w) {
            None => LookupOutcome::Miss(w),
            Some(i) => match spec_resolve(d, d.entries[i]) {
                None => LookupOutcome::Malformed,
                Some(content) => match spec_link_target(content) {
                    None => LookupOutcome::Found(content),
                    Some(t) => {
                        let n = spec_str_lowercase(t);
                        if seen.contains(n) {
                            LookupOutcome::Found(content)
                        } else {
                            spec_lookup_from(d, t, depth + 1, seen.push(n))
                        }
                    },
                },
            },
        }
    }
}

/// Whether a lookup's result is the outcome that the specification gives.
pub open spec fn lookup_agrees(r: Result<Vec<u8>>, name: Seq<char>, o: LookupOutcome) -> bool {
    match o {
        LookupOutcome::Found(v) => r matches Ok(b) && b@ == v,
        LookupOutcome::Miss(k) => r matches Err(e) && e@ == (ErrorView::IndexMiss {
            dictionary: name,
            keyword: k,
        }),
        LookupOutcome::Malformed => r matches Err(e) && e@ is InvalidFormat,
    }
}

/// A word answers the record of the first entry whose lookup key is the
/// trimmed word, when that record is no `@@LINK=` redirect; duplicates after
/// it are never reached.
pub proof fn lemma_lookup_answers_first_exact(
    d: DictionaryView,
    word: Seq<char>,
    i: int,
    content: Seq<u8>,
)
    requires
        trim(word).len() > 0,
        first_exact(d.entries, trim(word), 0) == Some(i),
        spec_resolve(d, d.entries[i]) == Some(content),
        spec_link_target(content) is None,
    ensures
        spec_lookup_from(d, word, 0, Seq::empty()) == LookupOutcome::Found(content),
{
}

/// The texts of a list of strings.
pub open spec fn texts(v: Seq<String>) -> Seq<Seq<char>> {
    v.map_values(|s: String| s@)
}

/// The target of an `@@LINK=` redirect: a UTF-8 record that, trimmed, starts
/// with `@@LINK=`, followed by a non-empty (trimmed) target.
pub fn parse_link_target(content: &[u8]) -> (r: Option<String>)
    ensures
        r matches Some(t) ==> spec_link_target(content@) == Some(t@),
        r is None ==> spec_link_target(content@) is None,
{
    let s = match crate::binary::str_from_utf8(content) {
        Ok(s) => s,
        Err(_) => return None,
    };
    let v = chars_of(s);
    let (a, b) = crate::text::trim_bounds(v.as_slice(), 0, v.len());
    assert(v@.subrange(0, v@.len() as int) =~= v@);
    let ghost t = v@.subrange(a as int, b as int);
    let p = chars_of("@@LINK=");
    if p.len() > b - a || !crate::text::occurs_at_exec(v.as_slice(), p.as_slice(), a) {
        proof {
            if p@.len() <= t.len() {
                assert(t.subrange(0, p@.len() as int) =~= v@.subrange(a as int, a + p@.len()));
            }
        }
        return None;
    }
    assert(t.subrange(0, p@.len() as int) =~= v@.subrange(a as int, a + p@.len()));
    let (c, e) = crate::text::trim_bounds(v.as_slice(), a + p.len(), b);
    assert(t.skip(p@.len() as int) =~= v@.subrange(a + p@.len(), b as int));
    if e > c {
        Some(crate::text::string_of_range(v.as_slice(), c, e))
    } else {
        None
    }
}

} // verus!

verus! {

/// A dictionary: its entries, its record data and what is known about it.
pub struct Dictionary {
    path: Option<String>,
    name: String,
    dict_type: MDictType,
    metadata: Metadata,
    entries: Vec<MDictKeywordEntry>,
    records: Vec<u8>,
    comparable: Vec<Vec<char>>,
    range_tree: Option<RecordRangeTree>,
    raw_record_bytes: bool,
    asset_resolver: Option<Arc<AssetResolver>>,
}

/// The comparable keys of some entries, in order.
pub open spec fn comparable_keys_of(entries: Seq<MDictKeywordEntry>, keys: Seq<Vec<char>>) -> bool {
    &&& keys.len() == entries.len()
    &&& forall|i: int|
        0 <= i < entries.len() ==> (#[trigger] keys[i])@ == comparable_key(
            spec_lookup_key(entries[i]),
        )
}

/// The blocks of an optional range tree.
pub open spec fn tree_view(t: Option<RecordRangeTree>) -> Option<Seq<RecordBlockInfo>> {
    match t {
        Some(t) => Some(t@),
        None => None,
    }
}

impl View for Dictionary {
    type V = DictionaryView;

    closed spec fn view(&self) -> DictionaryView {
        DictionaryView {
            name: self.name@,
            path: opt_text(self.path),
            dict_type: self.dict_type,
            metadata: self.metadata,
            entries: self.entries@,
            records: self.records@,
            range_tree: tree_view(self.range_tree),
            raw_record_bytes: self.raw_record_bytes,
            asset_resolver: shared_resolver(self.asset_resolver),
        }
    }
}

/// The entries that are not resources.
pub open spec fn keyword_entries(s: Seq<MDictKeywordEntry>) -> Seq<MDictKeywordEntry> {
    s.filter(|e: MDictKeywordEntry| !e.is_resource)
}

/// The entries that are resources.
pub open spec fn resource_entries(s: Seq<MDictKeywordEntry>) -> Seq<MDictKeywordEntry> {
    s.filter(|e: MDictKeywordEntry| e.is_resource)
}

/// The block assumed for an entry when no range tree answers: all of the records.
pub open spec fn whole_records_block(d: DictionaryView) -> RecordBlockInfo {
    RecordBlockInfo {
        compressed_size: d.records.len() as u64,
        decompressed_size: d.records.len() as u64,
        compressed_accumulator_offset: 0,
        decompressed_accumulator_offset: 0,
    }
}

/// The record block of an entry that starts at `start`.
pub open spec fn block_for(d: DictionaryView, start: u64) -> RecordBlockInfo {
    match d.range_tree {
        Some(t) => match spec_query(t, start) {
            Some(b) => b,
            None => whole_records_block(d),
        },
        None => whole_records_block(d),
    }
}

/// `a - b`, or 0 where `b > a`.
pub open spec fn sat_sub(a: u64, b: u64) -> u64 {
    if a >= b {
        (a - b) as u64
    } else {
        0
    }
}

/// The place of an entry's record within its block.
pub open spec fn spec_entry_index(d: DictionaryView, e: MDictKeywordEntry) -> MDictKeywordIndexRecordBlock {
    let b = block_for(d, e.record_start_offset);
    MDictKeywordIndexRecordBlock {
        data_start_offset: b.compressed_accumulator_offset,
        compressed_size: b.compressed_size,
        decompressed_size: b.decompressed_size,
        keyword_part_start_offset: sat_sub(e.record_start_offset, b.decompressed_accumulator_offset),
        keyword_part_data_end_offset: if e.record_end_offset == 0 {
            b.decompressed_size
        } else {
            sat_sub(e.record_end_offset, b.decompressed_accumulator_offset)
        },
    }
}

impl Dictionary {
    #[verifier::type_invariant]
    spec fn comparable_keys_match(&self) -> bool {
        comparable_keys_of(self.entries@, self.comparable@)
    }

    /// A builder for a dictionary called `name`.
    pub fn builder(name: &str) -> (r: DictionaryBuilder)
        ensures
            is_new_builder(r@, name@),
    {
        DictionaryBuilder::new(name)
    }

    /// Rebuilds the lookup tables; it cannot fail.
    pub fn build_index(&mut self) -> (r: Result<()>)
        ensures
            r is Ok,
            final(self)@ == old(self)@,
    {
        Ok(())
    }

    /// The name of the dictionary.
    pub fn name(&self) -> (r: &str)
        ensures
            r@ == self@.name,
    {
        self.name.as_str()
    }

    /// The title from the header.
    pub fn title(&self) -> (r: &str)
        ensures
            r@ == self@.metadata.title@,
    {
        self.metadata.title.as_str()
    }

    /// The description from the header.
    pub fn description(&self) -> (r: &str)
        ensures
            r@ == self@.metadata.description@,
    {
        self.metadata.description.as_str()
    }

    /// The engine version that produced the file.
    pub fn generated_by_engine_version(&self) -> (r: &str)
        ensures
            r@ == self@.metadata.generated_by_engine_version@,
    {
        self.metadata.generated_by_engine_version.as_str()
    }

    /// The creation date from the header.
    pub fn creation_date(&self) -> (r: &str)
        ensures
            r@ == self@.metadata.creation_date@,
    {
        self.metadata.creation_date.as_str()
    }

    /// The version from the header.
    pub fn version(&self) -> (r: &str)
        ensures
            r@ == self@.metadata.version@,
    {
        self.metadata.version.as_str()
    }

    /// Whether this is a resource archive.
    pub fn is_mdd(&self) -> (r: bool)
        ensures
            r == (self@.dict_type == MDictType::Mdd),
    {
        self.dict_type == MDictType::Mdd
    }

    /// Whether the records are encrypted (flag 1).
    pub fn is_record_encrypted(&self) -> (r: bool)
        ensures
            r == (self@.metadata.encrypted == 1),
    {
        self.metadata.encrypted == 1
    }

    /// Whether the text is UTF-16.
    pub fn is_utf16(&self) -> (r: bool)
        ensures
            r == is_utf16_encoding(self@.metadata),
    {
        str_eq_ignore_ascii_case(self.metadata.encoding.as_str(), "UTF-16")
            || str_eq_ignore_ascii_case(self.metadata.encoding.as_str(), "UTF-16LE")
    }

    /// The header metadata.
    pub fn metadata(&self) -> (r: &Metadata)
        ensures
            *r == self@.metadata,
    {
        &self.metadata
    }

    /// A summary: name, title, number of entries, path and kind.
    pub fn dictionary_info(&self) -> (r: DictionaryInfo)
        ensures
            r.name@ == self@.name,
            r.title@ == self@.metadata.title@,
            r.entry_count == self@.entries.len(),
            opt_text(r.path) == self@.path,
            r.dict_type == self@.dict_type,
    {
        DictionaryInfo {
            name: self.name.clone(),
            title: self.metadata.title.clone(),
            entry_count: self.entries.len(),
            path: match &self.path {
                Some(p) => Some(p.clone()),
                None => None,
            },
            dict_type: self.dict_type,
        }
    }

    fn exact_index(&self, w: &[char]) -> (r: Option<usize>)
        ensures
            r matches Some(i) ==> first_exact(self@.entries, w@, 0) == Some(i as int) && i
                < self@.entries.len(),
            r is None ==> first_exact(self@.entries, w@, 0) is None,
    {
        let mut i: usize = 0;
        while i < self.entries.len()
            invariant
                i <= self.entries@.len(),
                first_exact(self.entries@, w@, i as int) == first_exact(self.entries@, w@, 0),
            decreases self.entries@.len() - i,
        {
            let k = chars_of(self.entries[i].lookup_key());
            if chars_eq(k.as_slice(), w) {
                return Some(i);
            }
            i = i + 1;
        }
        None
    }

    fn comparable_index(&self, w: &[char]) -> (r: Option<usize>)
        ensures
            r matches Some(i) ==> first_comparable(self@.entries, w@, 0) == Some(i as int) && i
                < self@.entries.len(),
            r is None ==> first_comparable(self@.entries, w@, 0) is None,
    {
        proof {
            use_type_invariant(self);
        }
        let key = comparable_chars(w);
        let mut i: usize = 0;
        while i < self.entries.len()
            invariant
                i <= self.entries@.len(),
                comparable_keys_of(self.entries@, self.comparable@),
                key@ == comparable_key(w@),
                first_comparable(self.entries@, w@, i as int) == first_comparable(
                    self.entries@,
                    w@,
                    0,
                ),
            decreases self.entries@.len() - i,
        {
            assert(self.comparable@[i as int]@ == comparable_key(spec_lookup_key(self.entries@[i as int])));
            if chars_eq(self.comparable[i].as_slice(), key.as_slice()) {
                return Some(i);
            }
            i = i + 1;
        }
        None
    }

    /// The first entry whose lookup key is exactly `word`.
    pub fn find_exact_entry(&self, word: &str) -> (r: Option<&MDictKeywordEntry>)
        ensures
            r is Some <==> first_exact(self@.entries, word@, 0) is Some,
            r matches Some(e) ==> *e == self@.entries[first_exact(self@.entries, word@, 0)->0],
    {
        let w = chars_of(word);
        match self.exact_index(w.as_slice()) {
            Some(i) => Some(&self.entries[i]),
            None => None,
        }
    }

    /// The first entry whose lookup key has the comparable form of `word`.
    pub fn find_comparable_entry(&self, word: &str) -> (r: Option<&MDictKeywordEntry>)
        ensures
            r is Some <==> first_comparable(self@.entries, word@, 0) is Some,
            r matches Some(e) ==> *e == self@.entries[first_comparable(
                self@.entries,
                word@,
                0,
            )->0],
    {
        let w = chars_of(word);
        match self.comparable_index(w.as_slice()) {
            Some(i) => Some(&self.entries[i]),
            None => None,
        }
    }

    /// The record of an entry.
    pub fn resolve(&self, entry: &MDictKeywordEntry) -> (r: Result<Vec<u8>>)
        ensures
            r is Ok <==> spec_resolve(self@, *entry) is Some,
            r matches Ok(v) ==> spec_resolve(self@, *entry) == Some(v@),
            r matches Err(e) ==> e@ is InvalidFormat,
    {
        let len = self.records.len();
        let start = entry.record_start_offset;
        let end: u64 = if entry.record_end_offset == 0 {
            len as u64
        } else {
            entry.record_end_offset
        };
        if start > end || end > len as u64 {
            let mut m = String::from_str("record range ");
            m.append(decimal_string(start).as_str());
            m.append("..");
            m.append(decimal_string(end).as_str());
            m.append(" exceeds record data length ");
            m.append(decimal_string(len as u64).as_str());
            return Err(MdxError::InvalidFormat(m));
        }
        let slice = vstd::slice::slice_subrange(self.records.as_slice(), start as usize, end as usize);
        if self.raw_record_bytes && self.dict_type == MDictType::Mdx && self.is_utf16() {
            let text = decode_utf16le(slice)?;
            let bytes = text.as_str().as_bytes();
            Ok(vstd::slice::slice_to_vec(bytes))
        } else {
            Ok(vstd::slice::slice_to_vec(slice))
        }
    }

    fn find_index(&self, w: &[char]) -> (r: Option<usize>)
        ensures
            r matches Some(i) ==> find_entry(self@, w@) == Some(i as int) && i < self@.entries.len(),
            r is None ==> find_entry(self@, w@) is None,
    {
        match self.exact_index(w) {
            Some(i) => {
                proof {
                    lemma_first_exact_bound(self@.entries, w@, 0);
                }
                Some(i)
            },
            None => {
                proof {
                    lemma_first_comparable_bound(self@.entries, w@, 0);
                }
                self.comparable_index(w)
            },
        }
    }

    fn lookup_with_redirects(&self, word: &str, depth: u8, seen: &mut Vec<String>) -> (r: Result<
        Vec<u8>,
    >)
        requires
            depth <= 9,
        ensures
            lookup_agrees(
                r,
                self@.name,
                spec_lookup_from(self@, word@, depth as int, texts(old(seen)@)),
            ),
        decreases 9 - depth,
    {
        let w = trimmed_chars(word);
        if w.len() == 0 || depth > 8 {
            return Err(
                MdxError::IndexMiss { dictionary: self.name.clone(), keyword: string_of(w.as_slice()) },
            );
        }
        let idx = match self.find_index(w.as_slice()) {
            Some(i) => i,
            None => {
                return Err(
                    MdxError::IndexMiss {
                        dictionary: self.name.clone(),
                        keyword: string_of(w.as_slice()),
                    },
                );
            },
        };
        let content = self.resolve(&self.entries[idx])?;
        let target = match parse_link_target(content.as_slice()) {
            Some(t) => t,
            None => return Ok(content),
        };
        let normalized = crate::text::str_lowercase(target.as_str());
        if contains_text(seen, &normalized) {
            return Ok(content);
        }
        let ghost before = texts(seen@);
        seen.push(normalized);
        assert(texts(seen@) =~= before.push(spec_str_lowercase(target@)));
        self.lookup_with_redirects(target.as_str(), depth + 1, seen)
    }

    /// The record of `word`, following `@@LINK=` redirects.
    pub fn lookup(&self, word: &str) -> (r: Result<Vec<u8>>)
        ensures
            lookup_agrees(r, self@.name, spec_lookup_from(self@, word@, 0, Seq::empty())),
    {
        let mut seen: Vec<String> = Vec::new();
        assert(texts(seen@) =~= Seq::<Seq<char>>::empty());
        self.lookup_with_redirects(word, 0, &mut seen)
    }

    /// An entry with the place of its record: the block that the range tree
    /// gives for its start, or the whole record data as one block.
    pub fn keyword_entry_to_index(&self, entry: &MDictKeywordEntry) -> (r: Result<MDictKeywordIndex>)
        ensures
            r matches Ok(i) && i.keyword_entry == *entry && i.record_block == spec_entry_index(
                self@,
                *entry,
            ),
    {
        let whole = RecordBlockInfo {
            compressed_size: self.records.len() as u64,
            decompressed_size: self.records.len() as u64,
            compressed_accumulator_offset: 0,
            decompressed_accumulator_offset: 0,
        };
        let block = match &self.range_tree {
            Some(tree) => match tree.query(entry.record_start_offset) {
                Some(b) => *b,
                None => whole,
            },
            None => whole,
        };
        let start = if entry.record_start_offset >= block.decompressed_accumulator_offset {
            entry.record_start_offset - block.decompressed_accumulator_offset
        } else {
            0
        };
        let end = if entry.record_end_offset == 0 {
            block.decompressed_size
        } else if entry.record_end_offset >= block.decompressed_accumulator_offset {
            entry.record_end_offset - block.decompressed_accumulator_offset
        } else {
            0
        };
        Ok(MDictKeywordIndex {
            keyword_entry: copy_entry(entry),
            record_block: MDictKeywordIndexRecordBlock {
                data_start_offset: block.compressed_accumulator_offset,
                compressed_size: block.compressed_size,
                decompressed_size: block.decompressed_size,
                keyword_part_start_offset: start,
                keyword_part_data_end_offset: end,
            },
        })
    }

    /// The entries, in order.
    pub fn get_keyword_entries(&self) -> (r: &[MDictKeywordEntry])
        ensures
            r@ == self@.entries,
    {
        self.entries.as_slice()
    }

    /// A copy of all entries, in order.
    pub fn export_index(&self) -> (r: Vec<MDictKeywordEntry>)
        ensures
            r@ == self@.entries,
    {
        copy_entries(self.entries.as_slice())
    }

    fn export_filtered(&self, resources: bool) -> (r: Vec<MDictKeywordEntry>)
        ensures
            r@ == self@.entries.filter(|e: MDictKeywordEntry| e.is_resource == resources),
    {
        let ghost f = |e: MDictKeywordEntry| e.is_resource == resources;
        let mut out: Vec<MDictKeywordEntry> = Vec::new();
        let mut i: usize = 0;
        while i < self.entries.len()
            invariant
                i <= self.entries@.len(),
                out@ == self.entries@.take(i as int).filter(f),
                f == (|e: MDictKeywordEntry| e.is_resource == resources),
            decreases self.entries@.len() - i,
        {
            let ghost x = self.entries@[i as int];
            proof {
                reveal(Seq::filter);
                assert(self.entries@.take(i + 1).drop_last() =~= self.entries@.take(i as int));
                assert(self.entries@.take(i + 1).last() == x);
                assert(self.entries@.take(i + 1).filter(f) == (if f(x) {
                    self.entries@.take(i as int).filter(f).push(x)
                } else {
                    self.entries@.take(i as int).filter(f)
                }));
            }
            let ghost prev = out@;
            if self.entries[i].is_resource == resources {
                out.push(copy_entry(&self.entries[i]));
                assert(f(x));
                assert(out@ == prev.push(x));
            } else {
                assert(!f(x));
            }
            i = i + 1;
        }
        assert(self.entries@.take(self.entries@.len() as int) =~= self.entries@);
        out
    }

    /// Copies of the entries that are not resources, in order.
    pub fn export_entries(&self) -> (r: Vec<MDictKeywordEntry>)
        ensures
            r@ == keyword_entries(self@.entries),
    {
        let r = self.export_filtered(false);
        assert(r@ =~= keyword_entries(self@.entries)) by {
            let f1 = |e: MDictKeywordEntry| e.is_resource == false;
            let f2 = |e: MDictKeywordEntry| !e.is_resource;
            assert(f1 =~= f2);
        }
        r
    }

    /// Copies of the resource entries, in order.
    pub fn export_resources(&self) -> (r: Vec<MDictKeywordEntry>)
        ensures
            r@ == resource_entries(self@.entries),
    {
        let r = self.export_filtered(true);
        assert(r@ =~= resource_entries(self@.entries)) by {
            let f1 = |e: MDictKeywordEntry| e.is_resource == true;
            let f2 = |e: MDictKeywordEntry| e.is_resource;
            assert(f1 =~= f2);
        }
        r
    }
}

fn contains_text(seen: &Vec<String>, x: &String) -> (r: bool)
    ensures
        r == texts(seen@).contains(x@),
{
    let mut k: usize = 0;
    while k < seen.len()
        invariant
            k <= seen@.len(),
            forall|j: int| 0 <= j < k ==> seen@[j]@ != x@,
        decreases seen@.len() - k,
    {
        if seen[k] == *x {
            assert(texts(seen@)[k as int] == x@);
            return true;
        }
        k = k + 1;
    }
    assert(!texts(seen@).contains(x@)) by {
        if texts(seen@).contains(x@) {
            let j = choose|j: int| 0 <= j < texts(seen@).len() && texts(seen@)[j] == x@;
            assert(seen@[j]@ == x@);
        }
    }
    false
}

proof fn lemma_first_exact_bound(entries: Seq<MDictKeywordEntry>, w: Seq<char>, i: int)
    requires
        0 <= i,
    ensures
        first_exact(entries, w, i) matches Some(k) ==> i <= k < entries.len(),
    decreases entries.len() - i,
{
    if i < entries.len() && spec_lookup_key(entries[i]) != w {
        lemma_first_exact_bound(entries, w, i + 1);
    }
}

proof fn lemma_first_comparable_bound(entries: Seq<MDictKeywordEntry>, w: Seq<char>, i: int)
    requires
        0 <= i,
    ensures
        first_comparable(entries, w, i) matches Some(k) ==> i <= k < entries.len(),
    decreases entries.len() - i,
{
    if i < entries.len() && comparable_key(spec_lookup_key(entries[i])) != comparable_key(w) {
        lemma_first_comparable_bound(entries, w, i + 1);
    }
}

/// The metadata of a dictionary without a header.
pub open spec fn is_default_metadata(m: Metadata) -> bool {
    &&& m.title@ == Seq::<char>::empty()
    &&& m.description@ == Seq::<char>::empty()
    &&& m.creation_date@ == Seq::<char>::empty()
    &&& m.generated_by_engine_version@ == Seq::<char>::empty()
    &&& m.version@ == Seq::<char>::empty()
    &&& m.encoding@ == "UTF-8"@
    &&& m.encrypted == 0
    &&& m.register_by@ == Seq::<char>::empty()
}

/// The contents of a new builder: the name, default metadata, and nothing else.
pub open spec fn is_new_builder(v: DictionaryView, name: Seq<char>) -> bool {
    &&& v.name == name
    &&& v.path is None
    &&& v.dict_type == MDictType::Mdx
    &&& is_default_metadata(v.metadata)
    &&& v.entries == Seq::<MDictKeywordEntry>::empty()
    &&& v.records == Seq::<u8>::empty()
    &&& v.range_tree is None
    &&& !v.raw_record_bytes
    &&& v.asset_resolver is None
}

/// Collects what a dictionary will hold.
pub struct DictionaryBuilder {
    name: String,
    path: Option<String>,
    dict_type: MDictType,
    metadata: Metadata,
    entries: Vec<MDictKeywordEntry>,
    records: Vec<u8>,
    range_tree: Option<RecordRangeTree>,
    raw_record_bytes: bool,
}

} // verus!

verus! {

impl View for DictionaryBuilder {
    type V = DictionaryView;

    closed spec fn view(&self) -> DictionaryView {
        DictionaryView {
            name: self.name@,
            path: opt_text(self.path),
            dict_type: self.dict_type,
            metadata: self.metadata,
            entries: self.entries@,
            records: self.records@,
            range_tree: tree_view(self.range_tree),
            raw_record_bytes: self.raw_record_bytes,
            asset_resolver: None,
        }
    }
}

fn comparable_keys(entries: &Vec<MDictKeywordEntry>) -> (r: Vec<Vec<char>>)
    ensures
        comparable_keys_of(entries@, r@),
{
    let mut keys: Vec<Vec<char>> = Vec::new();
    let mut i: usize = 0;
    while i < entries.len()
        invariant
            i <= entries@.len(),
            keys@.len() == i,
            forall|k: int|
                0 <= k < i ==> (#[trigger] keys@[k])@ == comparable_key(
                    spec_lookup_key(entries@[k]),
                ),
        decreases entries@.len() - i,
    {
        let k = chars_of(entries[i].lookup_key());
        keys.push(comparable_chars(k.as_slice()));
        i = i + 1;
    }
    keys
}

impl DictionaryBuilder {
    /// A builder for a dictionary called `name`, with default metadata.
    pub fn new(name: &str) -> (r: Self)
        ensures
            is_new_builder(r@, name@),
    {
        DictionaryBuilder {
            name: String::from_str(name),
            path: None,
            dict_type: MDictType::Mdx,
            metadata: Metadata::default(),
            entries: Vec::new(),
            records: Vec::new(),
            range_tree: None,
            raw_record_bytes: false,
        }
    }

    /// Sets the path.
    pub fn path(self, path: &str) -> (r: Self)
        ensures
            r@ == (DictionaryView { path: Some(path@), ..self@ }),
    {
        DictionaryBuilder { path: Some(String::from_str(path)), ..self }
    }

    /// Sets or clears the path.
    pub fn path_opt(self, path: Option<String>) -> (r: Self)
        ensures
            r@ == (DictionaryView { path: opt_text(path), ..self@ }),
    {
        DictionaryBuilder { path, ..self }
    }

    /// Sets the kind of file.
    pub fn dict_type(self, dict_type: MDictType) -> (r: Self)
        ensures
            r@ == (DictionaryView { dict_type, ..self@ }),
    {
        DictionaryBuilder { dict_type, ..self }
    }

    /// Sets the metadata.
    pub fn metadata(self, metadata: Metadata) -> (r: Self)
        ensures
            r@ == (DictionaryView { metadata, ..self@ }),
    {
        DictionaryBuilder { metadata, ..self }
    }

    /// Adds one entry at the end.
    pub fn entry(self, entry: MDictKeywordEntry) -> (r: Self)
        ensures
            r@ == (DictionaryView { entries: self@.entries.push(entry), ..self@ }),
    {
        let mut b = self;
        b.entries.push(entry);
        b
    }

    /// Replaces the entries.
    pub fn entries(self, entries: Vec<MDictKeywordEntry>) -> (r: Self)
        ensures
            r@ == (DictionaryView { entries: entries@, ..self@ }),
    {
        DictionaryBuilder { entries, ..self }
    }

    /// Replaces the record data.
    pub fn records(self, records: Vec<u8>) -> (r: Self)
        ensures
            r@ == (DictionaryView { records: records@, ..self@ }),
    {
        DictionaryBuilder { records, ..self }
    }

    /// Sets the range tree of the record blocks.
    pub fn range_tree(self, range_tree: RecordRangeTree) -> (r: Self)
        ensures
            r@ == (DictionaryView { range_tree: Some(range_tree@), ..self@ }),
    {
        DictionaryBuilder { range_tree: Some(range_tree), ..self }
    }

    /// Sets whether records are stored as raw (possibly UTF-16) bytes.
    pub fn raw_record_bytes(self, raw_record_bytes: bool) -> (r: Self)
        ensures
            r@ == (DictionaryView { raw_record_bytes, ..self@ }),
    {
        DictionaryBuilder { raw_record_bytes, ..self }
    }

    /// The dictionary, with its lookup tables built.
    pub fn build(self) -> (d: Dictionary)
        ensures
            d@ == self@,
            d@.asset_resolver is None,
    {
        let comparable = comparable_keys(&self.entries);
        Dictionary {
            path: self.path,
            name: self.name,
            dict_type: self.dict_type,
            metadata: self.metadata,
            entries: self.entries,
            records: self.records,
            comparable,
            range_tree: self.range_tree,
            raw_record_bytes: self.raw_record_bytes,
            asset_resolver: None,
        }
    }
}

/// `Arc::clone`: another handle to the same shared value.
#[verifier::external_body]
pub(crate) fn share<T>(a: &Arc<T>) -> (r: Arc<T>)
    ensures
        r == *a,
{
    Arc::clone(a)
}

fn copy_char_lists(v: &Vec<Vec<char>>) -> (r: Vec<Vec<char>>)
    ensures
        r@.len() == v@.len(),
        forall|i: int| 0 <= i < v@.len() ==> (#[trigger] r@[i])@ == v@[i]@,
{
    let mut out: Vec<Vec<char>> = Vec::new();
    let mut i: usize = 0;
    while i < v.len()
        invariant
            i <= v@.len(),
            out@.len() == i,
            forall|j: int| 0 <= j < i ==> (#[trigger] out@[j])@ == v@[j]@,
        decreases v@.len() - i,
    {
        let c = crate::text::sub_chars(v[i].as_slice(), 0, v[i].len());
        assert(v@[i as int]@.subrange(0, v@[i as int]@.len() as int) =~= v@[i as int]@);
        out.push(c);
        i = i + 1;
    }
    out
}

impl Dictionary {
    /// Attaches the resolver that the dictionary's resources are read through.
    pub fn set_asset_resolver(&mut self, resolver: AssetResolver)
        ensures
            final(self)@ == (DictionaryView { asset_resolver: Some(resolver), ..old(self)@ }),
    {
        proof {
            use_type_invariant(&*self);
        }
        self.asset_resolver = Some(Arc::new(resolver));
    }

    /// The attached asset resolver, shared.
    pub fn asset_resolver(&self) -> (r: Option<Arc<AssetResolver>>)
        ensures
            shared_resolver(r) == self@.asset_resolver,
    {
        match &self.asset_resolver {
            Some(a) => Some(share(a)),
            None => None,
        }
    }
}

impl Clone for Dictionary {
    /// A copy of the dictionary, sharing its asset resolver.
    fn clone(&self) -> (r: Self)
        ensures
            r@ == self@,
    {
        proof {
            use_type_invariant(self);
        }
        let records = crate::asset::copy_bytes(&self.records);
        Dictionary {
            path: match &self.path {
                Some(p) => Some(p.clone()),
                None => None,
            },
            name: self.name.clone(),
            dict_type: self.dict_type,
            metadata: copy_metadata(&self.metadata),
            entries: copy_entries(self.entries.as_slice()),
            records,
            comparable: copy_char_lists(&self.comparable),
            range_tree: match &self.range_tree {
                Some(t) => Some(t.clone()),
                None => None,
            },
            raw_record_bytes: self.raw_record_bytes,
            asset_resolver: match &self.asset_resolver {
                Some(a) => Some(share(a)),
                None => None,
            },
        }
    }
}

} // verus!

verus! {

/// The texts already followed after `i` steps of a chain of redirects: the
/// lowercased targets `ws[1..=i]`.
pub open spec fn followed_targets(ws: Seq<Seq<char>>, i: int) -> Seq<Seq<char>> {
    Seq::new(i as nat, |j: int| spec_str_lowercase(ws[j + 1]))
}

/// Whether `ws` is a chain of `@@LINK=` redirects in `d` whose records are
/// `contents`: each word finds an entry whose record is `contents[i]`, each
/// record but the last redirects to the next word, the last does not
/// redirect, and no target repeats (compared lowercased).
pub open spec fn redirect_chain(d: DictionaryView, ws: Seq<Seq<char>>, contents: Seq<Seq<u8>>) -> bool {
    &&& redirect_steps(d, ws, contents)
    &&& spec_link_target(contents.last()) is None
}

/// Like [`redirect_chain`], up to the last record, which may redirect.
pub open spec fn redirect_steps(d: DictionaryView, ws: Seq<Seq<char>>, contents: Seq<Seq<u8>>) -> bool {
    &&& ws.len() >= 1
    &&& contents.len() == ws.len()
    &&& forall|i: int|
        0 <= i < ws.len() ==> trim(#[trigger] ws[i]).len() > 0 && find_entry(d, trim(ws[i])) is Some
            && spec_resolve(d, d.entries[find_entry(d, trim(ws[i]))->Some_0]) == Some(contents[i])
    &&& forall|i: int|
        0 <= i < ws.len() - 1 ==> spec_link_target(#[trigger] contents[i]) == Some(ws[i + 1])
    &&& forall|i: int, j: int|
        1 <= i < j < ws.len() ==> spec_str_lowercase(#[trigger] ws[i]) != spec_str_lowercase(
            #[trigger] ws[j],
        )
}

proof fn lemma_redirect_chain_from(d: DictionaryView, ws: Seq<Seq<char>>, contents: Seq<Seq<u8>>, i: int)
    requires
        redirect_steps(d, ws, contents),
        spec_link_target(contents.last()) is None || (spec_link_target(contents.last()) matches Some(
            t,
        ) && exists|j: int|
            1 <= j < ws.len() && #[trigger] spec_str_lowercase(ws[j]) == spec_str_lowercase(t)),
        ws.len() <= 9,
        0 <= i < ws.len(),
    ensures
        spec_lookup_from(d, ws[i], i, followed_targets(ws, i)) == LookupOutcome::Found(
            contents.last(),
        ),
    decreases ws.len() - i,
{
    let w = trim(ws[i]);
    assert(trim(ws[i]).len() > 0);
    if i + 1 < ws.len() {
        assert(spec_link_target(contents[i]) == Some(ws[i + 1]));
        let n = spec_str_lowercase(ws[i + 1]);
        let seen = followed_targets(ws, i);
        assert(!seen.contains(n)) by {
            if seen.contains(n) {
                let j = choose|j: int| 0 <= j < seen.len() && seen[j] == n;
                assert(seen[j] == spec_str_lowercase(ws[j + 1]));
                assert(spec_str_lowercase(ws[j + 1]) != spec_str_lowercase(ws[i + 1]));
            }
        }
        assert(seen.push(n) =~= followed_targets(ws, i + 1));
        lemma_redirect_chain_from(d, ws, contents, i + 1);
    } else {
        assert(contents[i] == contents.last());
        if spec_link_target(contents.last()) is Some {
            let t = spec_link_target(contents.last())->Some_0;
            let j = choose|j: int|
                1 <= j < ws.len() && #[trigger] spec_str_lowercase(ws[j]) == spec_str_lowercase(t);
            assert(followed_targets(ws, i)[j - 1] == spec_str_lowercase(ws[j]));
        }
    }
}

/// A lookup follows a chain of `@@LINK=` redirects of up to eight hops whose
/// targets do not repeat, and answers the record at its end.
pub proof fn lemma_lookup_follows_redirect_chain(
    d: DictionaryView,
    ws: Seq<Seq<char>>,
    contents: Seq<Seq<u8>>,
)
    requires
        redirect_chain(d, ws, contents),
        ws.len() <= 9,
    ensures
        spec_lookup_from(d, ws[0], 0, Seq::empty()) == LookupOutcome::Found(contents.last()),
{
    lemma_redirect_chain_from(d, ws, contents, 0);
    assert(followed_targets(ws, 0) =~= Seq::<Seq<char>>::empty());
}

/// A lookup that meets a redirect to a target it has already followed
/// (compared lowercased) stops there and answers that redirect's record.
pub proof fn lemma_lookup_stops_at_repeated_target(
    d: DictionaryView,
    ws: Seq<Seq<char>>,
    contents: Seq<Seq<u8>>,
    t: Seq<char>,
    j: int,
)
    requires
        redirect_steps(d, ws, contents),
        ws.len() <= 9,
        spec_link_target(contents.last()) == Some(t),
        1 <= j < ws.len(),
        spec_str_lowercase(ws[j]) == spec_str_lowercase(t),
    ensures
        spec_lookup_from(d, ws[0], 0, Seq::empty()) == LookupOutcome::Found(contents.last()),
{
    lemma_redirect_chain_from(d, ws, contents, 0);
    assert(followed_targets(ws, 0) =~= Seq::<Seq<char>>::empty());
}

} // verus!
