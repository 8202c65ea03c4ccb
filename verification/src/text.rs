//! Character-level text operations used throughout the library.
//!
//! Text is handled as sequences of `char`; the specifications below say what
//! each operation yields on such sequences.
use vstd::prelude::*;

verus! {

/// Whether `c` has the Unicode `White_Space` property, as `char::is_whitespace`
/// reports: tab to carriage return, space, next line, no-break space, ogham
/// space mark, the spaces from en quad to hair space, line and paragraph
/// separators, narrow no-break space, medium mathematical space and
/// ideographic space.
pub open spec fn spec_is_whitespace(c: char) -> bool {
    ||| '\u{9}' <= c <= '\u{d}'
    ||| c == ' '
    ||| c == '\u{85}'
    ||| c == '\u{a0}'
    ||| c == '\u{1680}'
    ||| '\u{2000}' <= c <= '\u{200a}'
    ||| c == '\u{2028}'
    ||| c == '\u{2029}'
    ||| c == '\u{202f}'
    ||| c == '\u{205f}'
    ||| c == '\u{3000}'
}

/// The characters that `char::to_lowercase` yields for `c`.
pub uninterp spec fn spec_char_lowercase(c: char) -> Seq<char>;

/// The text that `str::to_lowercase` yields for `s`.
pub uninterp spec fn spec_str_lowercase(s: Seq<char>) -> Seq<char>;

/// Whether the character has the Unicode `White_Space` property, as
/// `char::is_whitespace` reports.
pub(crate) fn is_whitespace(c: char) -> (r: bool)
    ensures
        r == spec_is_whitespace(c),
{
    ('\u{9}' <= c && c <= '\u{d}') || c == ' ' || c == '\u{85}' || c == '\u{a0}'
        || c == '\u{1680}' || ('\u{2000}' <= c && c <= '\u{200a}') || c == '\u{2028}'
        || c == '\u{2029}' || c == '\u{202f}' || c == '\u{205f}' || c == '\u{3000}'
}

/// `char::to_lowercase`, collected: the lowercase mapping of one character.
/// The contract names the result as a function of `c`.
#[verifier::external_body]
pub(crate) fn char_lowercase(c: char) -> (r: Vec<char>)
    ensures
        r@ == spec_char_lowercase(c),
{
    c.to_lowercase().collect()
}

/// `str::to_lowercase`: the lowercase mapping of a whole text. The contract
/// names the result as a function of the text.
#[verifier::external_body]
pub(crate) fn str_lowercase(s: &str) -> (r: String)
    ensures
        r@ == spec_str_lowercase(s@),
{
    s.to_lowercase()
}

/// `String::push`: appends one character.
#[verifier::external_body]
pub(crate) fn string_push(s: &mut String, c: char)
    ensures
        final(s)@ == old(s)@.push(c),
{
    s.push(c);
}

/// `char::from_u32`: the character with the given scalar value, if it is one.
#[verifier::external_body]
pub(crate) fn char_from_u32(v: u32) -> (r: Option<char>)
    ensures
        r is Some <==> is_scalar_value(v as int),
        r matches Some(c) ==> c as u32 == v,
{
    char::from_u32(v)
}

/// Unicode scalar values: every code point but the surrogates.
pub open spec fn is_scalar_value(v: int) -> bool {
    (0 <= v < 0xD800) || (0xE000 <= v <= 0x10FFFF)
}

/// The characters of a text.
pub fn chars_of(s: &str) -> (v: Vec<char>)
    ensures
        v@ == s@,
{
    let mut v: Vec<char> = Vec::new();
    for c in it: s.chars()
        invariant
            v@ == it.seq().take(it.index() as int),
            it.seq() == s@,
    {
        v.push(c);
    }
    v
}

/// The text made of the given characters.
pub fn string_of(v: &[char]) -> (s: String)
    ensures
        s@ == v@,
{
    let mut s = String::new();
    let mut i: usize = 0;
    while i < v.len()
        invariant
            i <= v@.len(),
            s@ == v@.take(i as int),
        decreases v@.len() - i,
    {
        string_push(&mut s, v[i]);
        assert(v@.take(i as int).push(v@[i as int]) =~= v@.take(i + 1));
        i = i + 1;
    }
    assert(v@.take(v@.len() as int) =~= v@);
    s
}

/// The characters of `v` in `lo..hi`.
pub fn sub_chars(v: &[char], lo: usize, hi: usize) -> (r: Vec<char>)
    requires
        lo <= hi <= v@.len(),
    ensures
        r@ == v@.subrange(lo as int, hi as int),
{
    let mut r: Vec<char> = Vec::new();
    let mut i = lo;
    while i < hi
        invariant
            lo <= i <= hi <= v@.len(),
            r@ == v@.subrange(lo as int, i as int),
        decreases hi - i,
    {
        r.push(v[i]);
        assert(v@.subrange(lo as int, i as int).push(v@[i as int]) =~= v@.subrange(
            lo as int,
            i + 1,
        ));
        i = i + 1;
    }
    r
}

/// The text made of the characters of `v` in `lo..hi`.
pub fn string_of_range(v: &[char], lo: usize, hi: usize) -> (s: String)
    requires
        lo <= hi <= v@.len(),
    ensures
        s@ == v@.subrange(lo as int, hi as int),
{
    let r = sub_chars(v, lo, hi);
    string_of(r.as_slice())
}

/// Whether two character sequences are equal.
pub fn chars_eq(a: &[char], b: &[char]) -> (r: bool)
    ensures
        r == (a@ == b@),
{
    if a.len() != b.len() {
        return false;
    }
    let mut i: usize = 0;
    while i < a.len()
        invariant
            a@.len() == b@.len(),
            i <= a@.len(),
            forall|j: int| 0 <= j < i ==> a@[j] == b@[j],
        decreases a@.len() - i,
    {
        if a[i] != b[i] {
            return false;
        }
        i = i + 1;
    }
    assert(a@ =~= b@);
    true
}

/// First position at or after `i` that is not white space (or the end `hi`).
pub open spec fn ws_end(s: Seq<char>, i: int, hi: int) -> int
    decreases hi - i,
{
    if i >= hi {
        hi
    } else if spec_is_whitespace(s[i]) {
        ws_end(s, i + 1, hi)
    } else {
        i
    }
}

/// Position after the last character before `j`, down to `lo`, that is not white space.
pub open spec fn ws_start(s: Seq<char>, lo: int, j: int) -> int
    decreases j - lo,
{
    if j <= lo {
        lo
    } else if spec_is_whitespace(s[j - 1]) {
        ws_start(s, lo, j - 1)
    } else {
        j
    }
}

/// `str::trim_start`: the text without its leading white space.
pub open spec fn trim_start(s: Seq<char>) -> Seq<char> {
    s.subrange(ws_end(s, 0, s.len() as int), s.len() as int)
}

/// `str::trim`: the text without leading and trailing white space.
pub open spec fn trim(s: Seq<char>) -> Seq<char> {
    let a = ws_end(s, 0, s.len() as int);
    s.subrange(a, ws_start(s, a, s.len() as int))
}

pub proof fn lemma_ws_end_bounds(s: Seq<char>, i: int, hi: int)
    requires
        i <= hi,
    ensures
        i <= ws_end(s, i, hi) <= hi,
        forall|k: int| i <= k < ws_end(s, i, hi) ==> spec_is_whitespace(#[trigger] s[k]),
        ws_end(s, i, hi) < hi ==> !spec_is_whitespace(s[ws_end(s, i, hi)]),
    decreases hi - i,
{
    if i < hi && spec_is_whitespace(s[i]) {
        lemma_ws_end_bounds(s, i + 1, hi);
    }
}

pub proof fn lemma_ws_start_bounds(s: Seq<char>, lo: int, j: int)
    requires
        lo <= j,
    ensures
        lo <= ws_start(s, lo, j) <= j,
        forall|k: int| ws_start(s, lo, j) <= k < j ==> spec_is_whitespace(#[trigger] s[k]),
        ws_start(s, lo, j) > lo ==> !spec_is_whitespace(s[ws_start(s, lo, j) - 1]),
    decreases j - lo,
{
    if j > lo && spec_is_whitespace(s[j - 1]) {
        lemma_ws_start_bounds(s, lo, j - 1);
    }
}

proof fn lemma_ws_end_shift(s: Seq<char>, lo: int, hi: int, i: int)
    requires
        0 <= lo <= i <= hi <= s.len(),
    ensures
        ws_end(s.subrange(lo, hi), i - lo, hi - lo) + lo == ws_end(s, i, hi),
    decreases hi - i,
{
    if i < hi {
        assert(s.subrange(lo, hi)[i - lo] == s[i]);
        lemma_ws_end_shift(s, lo, hi, i + 1);
    }
}

proof fn lemma_ws_start_shift(s: Seq<char>, lo: int, hi: int, a: int, j: int)
    requires
        0 <= lo <= a <= j <= hi <= s.len(),
    ensures
        ws_start(s.subrange(lo, hi), a - lo, j - lo) + lo == ws_start(s, a, j),
    decreases j - a,
{
    if j > a {
        assert(s.subrange(lo, hi)[j - 1 - lo] == s[j - 1]);
        lemma_ws_start_shift(s, lo, hi, a, j - 1);
    }
}

/// Trimming a part of a text is the same as taking the trimmed bounds in the whole.
pub proof fn lemma_trim_subrange(s: Seq<char>, lo: int, hi: int)
    requires
        0 <= lo <= hi <= s.len(),
    ensures
        ({
            let a = ws_end(s, lo, hi);
            trim(s.subrange(lo, hi)) == s.subrange(a, ws_start(s, a, hi))
        }),
        trim_start(s.subrange(lo, hi)) == s.subrange(ws_end(s, lo, hi), hi),
{
    let t = s.subrange(lo, hi);
    lemma_ws_end_shift(s, lo, hi, lo);
    lemma_ws_end_bounds(s, lo, hi);
    let a = ws_end(s, lo, hi);
    lemma_ws_start_shift(s, lo, hi, a, hi);
    lemma_ws_start_bounds(s, a, hi);
    assert(t.subrange(a - lo, ws_start(s, a, hi) - lo) =~= s.subrange(a, ws_start(s, a, hi)));
    assert(t.subrange(a - lo, hi - lo) =~= s.subrange(a, hi));
}

/// Bounds of the trimmed part of `v[lo..hi]`.
pub fn trim_bounds(v: &[char], lo: usize, hi: usize) -> (r: (usize, usize))
    requires
        lo <= hi <= v@.len(),
    ensures
        r.0 == ws_end(v@, lo as int, hi as int),
        r.1 == ws_start(v@, r.0 as int, hi as int),
        lo <= r.0 <= r.1 <= hi,
        v@.subrange(r.0 as int, r.1 as int) == trim(v@.subrange(lo as int, hi as int)),
        v@.subrange(r.0 as int, hi as int) == trim_start(v@.subrange(lo as int, hi as int)),
{
    let mut a = lo;
    while a < hi && is_whitespace(v[a])
        invariant
            lo <= a <= hi <= v@.len(),
            ws_end(v@, a as int, hi as int) == ws_end(v@, lo as int, hi as int),
        decreases hi - a,
    {
        a = a + 1;
    }
    let mut b = hi;
    while b > a && is_whitespace(v[b - 1])
        invariant
            lo <= a <= b <= hi <= v@.len(),
            a == ws_end(v@, lo as int, hi as int),
            ws_start(v@, a as int, b as int) == ws_start(v@, a as int, hi as int),
        decreases b - a,
    {
        b = b - 1;
    }
    proof {
        lemma_trim_subrange(v@, lo as int, hi as int);
    }
    (a, b)
}

/// First position in `i..hi` that is not white space, or `hi`.
pub fn skip_ws(v: &[char], i: usize, hi: usize) -> (r: usize)
    requires
        i <= hi <= v@.len(),
    ensures
        r == ws_end(v@, i as int, hi as int),
        i <= r <= hi,
{
    let mut a = i;
    while a < hi && is_whitespace(v[a])
        invariant
            i <= a <= hi <= v@.len(),
            ws_end(v@, a as int, hi as int) == ws_end(v@, i as int, hi as int),
        decreases hi - a,
    {
        a = a + 1;
    }
    a
}

/// The trimmed characters of a text.
pub fn trimmed_chars(s: &str) -> (r: Vec<char>)
    ensures
        r@ == trim(s@),
{
    let v = chars_of(s);
    let (a, b) = trim_bounds(v.as_slice(), 0, v.len());
    assert(v@.subrange(0, v@.len() as int) =~= v@);
    sub_chars(v.as_slice(), a, b)
}

/// `str::trim`, as an owned text.
pub fn trim_string(s: &str) -> (r: String)
    ensures
        r@ == trim(s@),
{
    let v = trimmed_chars(s);
    string_of(v.as_slice())
}

/// The ASCII lowercase of a character; other characters are kept.
pub open spec fn ascii_lower(c: char) -> char {
    if 'A' <= c <= 'Z' {
        (((c as u32) + 32) as u32) as char
    } else {
        c
    }
}

/// `str::eq_ignore_ascii_case`.
pub open spec fn eq_ignore_ascii_case(a: Seq<char>, b: Seq<char>) -> bool {
    &&& a.len() == b.len()
    &&& forall|i: int| 0 <= i < a.len() ==> ascii_lower(#[trigger] a[i]) == ascii_lower(b[i])
}

pub fn ascii_lower_char(c: char) -> (r: char)
    ensures
        r == ascii_lower(c),
{
    if 'A' <= c && c <= 'Z' {
        let u = (c as u32) + 32;
        let r = char_from_u32(u);
        match r {
            Some(l) => {
                proof {
                    vstd::utf8::char_u32_cast(l, u);
                }
                l
            },
            None => c,
        }
    } else {
        c
    }
}

/// Whether `a[alo..ahi]` equals `b` ignoring ASCII case.
pub fn range_eq_ignore_ascii_case(a: &[char], alo: usize, ahi: usize, b: &[char]) -> (r: bool)
    requires
        alo <= ahi <= a@.len(),
    ensures
        r == eq_ignore_ascii_case(a@.subrange(alo as int, ahi as int), b@),
{
    if ahi - alo != b.len() {
        return false;
    }
    let mut i: usize = 0;
    while i < b.len()
        invariant
            ahi - alo == b@.len(),
            alo <= ahi <= a@.len(),
            i <= b@.len(),
            forall|j: int|
                0 <= j < i ==> ascii_lower(#[trigger] a@[alo + j]) == ascii_lower(b@[j]),
        decreases b@.len() - i,
    {
        if ascii_lower_char(a[alo + i]) != ascii_lower_char(b[i]) {
            assert(a@.subrange(alo as int, ahi as int)[i as int] == a@[alo + i]);
            return false;
        }
        i = i + 1;
    }
    assert forall|j: int| 0 <= j < b@.len() implies ascii_lower(
        #[trigger] a@.subrange(alo as int, ahi as int)[j],
    ) == ascii_lower(b@[j]) by {
        assert(a@.subrange(alo as int, ahi as int)[j] == a@[alo + j]);
    }
    true
}

/// Whether two texts are equal ignoring ASCII case.
pub fn str_eq_ignore_ascii_case(a: &str, b: &str) -> (r: bool)
    ensures
        r == eq_ignore_ascii_case(a@, b@),
{
    let av = chars_of(a);
    let bv = chars_of(b);
    assert(av@.subrange(0, av@.len() as int) =~= av@);
    range_eq_ignore_ascii_case(av.as_slice(), 0, av.len(), bv.as_slice())
}

/// Whether `p` occurs in `s` at position `i`.
pub open spec fn occurs_at(s: Seq<char>, p: Seq<char>, i: int) -> bool {
    0 <= i && i + p.len() <= s.len() && s.subrange(i, i + p.len()) == p
}

/// `str::starts_with` for a text pattern.
pub open spec fn starts_with(s: Seq<char>, p: Seq<char>) -> bool {
    occurs_at(s, p, 0)
}

/// First position at or after `i` where `p` occurs in `s`.
pub open spec fn find_from(s: Seq<char>, p: Seq<char>, i: int) -> Option<int>
    decreases s.len() + 1 - i,
{
    if i < 0 || i + p.len() > s.len() {
        None
    } else if occurs_at(s, p, i) {
        Some(i)
    } else {
        find_from(s, p, i + 1)
    }
}

pub proof fn lemma_find_from(s: Seq<char>, p: Seq<char>, i: int)
    requires
        0 <= i,
    ensures
        find_from(s, p, i) matches Some(k) ==> i <= k && occurs_at(s, p, k) && forall|j: int|
            i <= j < k ==> !occurs_at(s, p, j),
        find_from(s, p, i) is None ==> forall|j: int| i <= j ==> !occurs_at(s, p, j),
    decreases s.len() + 1 - i,
{
    if i + p.len() <= s.len() && !occurs_at(s, p, i) {
        lemma_find_from(s, p, i + 1);
    }
}

/// Whether `p` occurs in `v` at position `i`.
pub fn occurs_at_exec(v: &[char], p: &[char], i: usize) -> (r: bool)
    ensures
        r == occurs_at(v@, p@, i as int),
{
    if i > v.len() || p.len() > v.len() - i {
        return false;
    }
    let mut k: usize = 0;
    while k < p.len()
        invariant
            i + p@.len() <= v.len(),
            k <= p@.len(),
            forall|j: int| 0 <= j < k ==> v@[i + j] == p@[j],
        decreases p@.len() - k,
    {
        if v[i + k] != p[k] {
            assert(v@.subrange(i as int, i + p@.len())[k as int] == v@[i + k]);
            return false;
        }
        k = k + 1;
    }
    assert(v@.subrange(i as int, i + p@.len()) =~= p@);
    true
}

/// First position at or after `from` where `p` occurs in `v`.
pub fn find_from_exec(v: &[char], p: &[char], from: usize) -> (r: Option<usize>)
    ensures
        r matches Some(k) ==> find_from(v@, p@, from as int) == Some(k as int),
        r is None ==> find_from(v@, p@, from as int) is None,
{
    let mut i = from;
    loop
        invariant
            from <= i,
            find_from(v@, p@, i as int) == find_from(v@, p@, from as int),
        decreases v@.len() + 1 - i,
    {
        if i > v.len() || p.len() > v.len() - i {
            return None;
        }
        if occurs_at_exec(v, p, i) {
            return Some(i);
        }
        if i == usize::MAX {
            assert(find_from(v@, p@, i + 1) is None);
            return None;
        }
        i = i + 1;
    }
}

/// First position at or after `i` holding the character `c`.
pub open spec fn find_char_from(s: Seq<char>, c: char, i: int) -> Option<int>
    decreases s.len() - i,
{
    if i < 0 || i >= s.len() {
        None
    } else if s[i] == c {
        Some(i)
    } else {
        find_char_from(s, c, i + 1)
    }
}

pub proof fn lemma_find_char_from(s: Seq<char>, c: char, i: int)
    requires
        0 <= i,
    ensures
        find_char_from(s, c, i) matches Some(k) ==> i <= k < s.len() && s[k] == c && forall|
            j: int,
        |
            i <= j < k ==> s[j] != c,
        find_char_from(s, c, i) is None ==> forall|j: int| i <= j < s.len() ==> s[j] != c,
    decreases s.len() - i,
{
    if i < s.len() && s[i] != c {
        lemma_find_char_from(s, c, i + 1);
    }
}

/// First position in `lo..hi` holding `c`.
pub fn find_char_in(v: &[char], c: char, lo: usize, hi: usize) -> (r: Option<usize>)
    requires
        lo <= hi <= v@.len(),
    ensures
        r matches Some(k) ==> find_char_from(v@.subrange(0, hi as int), c, lo as int) == Some(
            k as int,
        ),
        r is None ==> find_char_from(v@.subrange(0, hi as int), c, lo as int) is None,
{
    let ghost t = v@.subrange(0, hi as int);
    let mut i = lo;
    while i < hi
        invariant
            lo <= i <= hi <= v@.len(),
            t == v@.subrange(0, hi as int),
            find_char_from(t, c, i as int) == find_char_from(t, c, lo as int),
        decreases hi - i,
    {
        assert(t[i as int] == v@[i as int]);
        if v[i] == c {
            return Some(i);
        }
        i = i + 1;
    }
    None
}

} // verus!

verus! {

/// `s[i..]` with every occurrence of `from` (scanning left to right, not
/// overlapping) replaced by `to`.
pub open spec fn replace_from(s: Seq<char>, from: Seq<char>, to: Seq<char>, i: int) -> Seq<char>
    decreases s.len() + 1 - i,
{
    if from.len() == 0 || i < 0 || i > s.len() {
        Seq::empty()
    } else {
        match find_from(s, from, i) {
            None => s.subrange(i, s.len() as int),
            Some(k) => if k < i || k + from.len() > s.len() {
                Seq::empty()
            } else {
                s.subrange(i, k) + to + replace_from(s, from, to, k + from.len())
            },
        }
    }
}

/// `str::replace` for a non-empty pattern.
pub open spec fn replace_all(s: Seq<char>, from: Seq<char>, to: Seq<char>) -> Seq<char> {
    replace_from(s, from, to, 0)
}

/// Replaces every occurrence of `from` (non-empty) by `to`.
pub fn replace_chars(v: &[char], from: &[char], to: &[char]) -> (r: Vec<char>)
    requires
        from@.len() > 0,
    ensures
        r@ == replace_all(v@, from@, to@),
{
    let mut out: Vec<char> = Vec::new();
    let mut i: usize = 0;
    while i <= v.len()
        invariant
            from@.len() > 0,
            out@ + replace_from(v@, from@, to@, i as int) == replace_all(v@, from@, to@),
        ensures
            out@ == replace_all(v@, from@, to@),
        decreases v@.len() + 1 - i,
    {
        let ghost before = out@;
        match find_from_exec(v, from, i) {
            None => {
                let mut rest = sub_chars(v, i, v.len());
                out.append(&mut rest);
                assert(out@ =~= before + replace_from(v@, from@, to@, i as int));
                return out;
            },
            Some(k) => {
                proof {
                    lemma_find_from(v@, from@, i as int);
                }
                let mut mid = sub_chars(v, i, k);
                out.append(&mut mid);
                let mut i2: usize = 0;
                while i2 < to.len()
                    invariant
                        i2 <= to@.len(),
                        out@ == before + v@.subrange(i as int, k as int) + to@.take(i2 as int),
                    decreases to@.len() - i2,
                {
                    out.push(to[i2]);
                    assert(out@ =~= before + v@.subrange(i as int, k as int) + to@.take(i2 + 1));
                    i2 = i2 + 1;
                }
                assert(to@.take(to@.len() as int) =~= to@);
                assert(out@ + replace_from(v@, from@, to@, k + from@.len()) =~= before
                    + replace_from(v@, from@, to@, i as int));
                i = k + from.len();
            },
        }
    }
    out
}

} // verus!

verus! {

/// Position after the last character before `j` that is not `c` (0 if none).
pub open spec fn trailing_start(s: Seq<char>, c: char, j: int) -> int
    decreases j,
{
    if j <= 0 {
        0
    } else if s[j - 1] == c {
        trailing_start(s, c, j - 1)
    } else {
        j
    }
}

/// Position of the last `c` before `j`.
pub open spec fn rfind_char(s: Seq<char>, c: char, j: int) -> Option<int>
    decreases j,
{
    if j <= 0 {
        None
    } else if s[j - 1] == c {
        Some(j - 1)
    } else {
        rfind_char(s, c, j - 1)
    }
}

pub proof fn lemma_rfind_char(s: Seq<char>, c: char, j: int)
    requires
        j <= s.len(),
    ensures
        rfind_char(s, c, j) matches Some(k) ==> 0 <= k < j && s[k] == c,
    decreases j,
{
    if j > 0 && s[j - 1] != c {
        lemma_rfind_char(s, c, j - 1);
    }
}

pub proof fn lemma_trailing_start(s: Seq<char>, c: char, j: int)
    requires
        j <= s.len(),
    ensures
        0 <= trailing_start(s, c, j) <= if j < 0 { 0 } else { j },
    decreases j,
{
    if j > 0 && s[j - 1] == c {
        lemma_trailing_start(s, c, j - 1);
    }
}

/// Position after the last character before `j` that is not `c`.
pub fn trailing_start_exec(v: &[char], c: char, j: usize) -> (r: usize)
    requires
        j <= v@.len(),
    ensures
        r == trailing_start(v@, c, j as int),
        r <= j,
{
    let mut k = j;
    while k > 0 && v[k - 1] == c
        invariant
            k <= j <= v@.len(),
            trailing_start(v@, c, k as int) == trailing_start(v@, c, j as int),
        decreases k,
    {
        k = k - 1;
    }
    k
}

/// Position of the last `c` in `v[lo..j]`, as an index of `v`.
pub fn rfind_char_exec(v: &[char], c: char, lo: usize, j: usize) -> (r: Option<usize>)
    requires
        lo <= j <= v@.len(),
    ensures
        r matches Some(k) ==> rfind_char(v@.subrange(lo as int, j as int), c, j - lo) == Some(
            k - lo,
        ) && lo <= k < j,
        r is None ==> rfind_char(v@.subrange(lo as int, j as int), c, j - lo) is None,
{
    let ghost s = v@.subrange(lo as int, j as int);
    let mut k = j;
    while k > lo
        invariant
            lo <= k <= j <= v@.len(),
            s == v@.subrange(lo as int, j as int),
            rfind_char(s, c, k - lo) == rfind_char(s, c, j - lo),
        decreases k - lo,
    {
        assert(s[k - lo - 1] == v@[k - 1]);
        if v[k - 1] == c {
            return Some(k - 1);
        }
        k = k - 1;
    }
    None
}

} // verus!

verus! {

/// The character of the decimal digit `d`.
pub open spec fn digit_char(d: int) -> char {
    if d == 0 {
        '0'
    } else if d == 1 {
        '1'
    } else if d == 2 {
        '2'
    } else if d == 3 {
        '3'
    } else if d == 4 {
        '4'
    } else if d == 5 {
        '5'
    } else if d == 6 {
        '6'
    } else if d == 7 {
        '7'
    } else if d == 8 {
        '8'
    } else {
        '9'
    }
}

/// The decimal digits of `n`, as `{}` writes an integer.
pub open spec fn decimal_text(n: nat) -> Seq<char>
    decreases n,
{
    if n < 10 {
        seq![digit_char(n as int)]
    } else {
        decimal_text(n / 10).push(digit_char((n % 10) as int))
    }
}

fn push_decimal(out: &mut Vec<char>, n: u64)
    ensures
        final(out)@ == old(out)@ + decimal_text(n as nat),
    decreases n,
{
    if n >= 10 {
        push_decimal(out, n / 10);
    }
    let d = n % 10;
    let c = if d == 0 {
        '0'
    } else if d == 1 {
        '1'
    } else if d == 2 {
        '2'
    } else if d == 3 {
        '3'
    } else if d == 4 {
        '4'
    } else if d == 5 {
        '5'
    } else if d == 6 {
        '6'
    } else if d == 7 {
        '7'
    } else if d == 8 {
        '8'
    } else {
        '9'
    };
    out.push(c);
    assert(out@ =~= old(out)@ + decimal_text(n as nat));
}

/// The decimal text of `n`.
pub fn decimal_string(n: u64) -> (r: String)
    ensures
        r@ == decimal_text(n as nat),
{
    let mut v: Vec<char> = Vec::new();
    push_decimal(&mut v, n);
    assert(v@ =~= decimal_text(n as nat));
    string_of(v.as_slice())
}

} // verus!
