//! Engine versions of MDict headers, read with the grammar of `f32::from_str`
//! and compared with 2 as a 32-bit float would compare them.
//!
//! A number counts as at least 2 exactly when rounding it to the nearest
//! 32-bit float gives at least 2.0: when its value is at least 2 − 2⁻²⁴ (the
//! midpoint below 2.0 rounds to 2.0), or it is positive infinity. Not a
//! number and negative values are below 2.
use vstd::prelude::*;
use crate::dictionary::{all_digits, decimal_value};
use crate::text::{eq_ignore_ascii_case, find_char_from, lemma_find_char_from};

verus! {

/// `10^n`.
pub open spec fn pow10(n: nat) -> nat
    decreases n,
{
    if n == 0 {
        1
    } else {
        10 * pow10((n - 1) as nat)
    }
}

/// The digits of a finite number (integer part, then fraction) and the power
/// of ten their integer value is scaled by.
pub struct DecimalText {
    pub digits: Seq<char>,
    pub scale: int,
}

/// What the text of a float names, its sign aside.
pub enum FloatText {
    Infinite,
    NotANumber,
    Finite(DecimalText),
}

/// Whether `c` starts an exponent.
pub open spec fn is_exp_mark(c: char) -> bool {
    c == 'e' || c == 'E'
}

/// Position of the first exponent mark at or after `i`, or the end.
pub open spec fn exp_pos(b: Seq<char>, i: int) -> int
    decreases b.len() - i,
{
    if i < 0 || i >= b.len() {
        b.len() as int
    } else if is_exp_mark(b[i]) {
        i
    } else {
        exp_pos(b, i + 1)
    }
}

/// A finite number without sign: digits with an optional `.` (at least one
/// digit in all), then an optional exponent `e`/`E`, an optional sign and at
/// least one digit.
pub open spec fn finite_parts(b: Seq<char>) -> Option<DecimalText> {
    let k = exp_pos(b, 0);
    let mant = b.take(k);
    let ip = match find_char_from(mant, '.', 0) {
        Some(d) => mant.take(d),
        None => mant,
    };
    let fp = match find_char_from(mant, '.', 0) {
        Some(d) => mant.skip(d + 1),
        None => Seq::empty(),
    };
    if !(all_digits(ip) && all_digits(fp) && ip.len() + fp.len() > 0) {
        None
    } else if k >= b.len() {
        Some(DecimalText { digits: ip + fp, scale: -(fp.len() as int) })
    } else {
        let x = b.skip(k + 1);
        let neg = x.len() > 0 && x[0] == '-';
        let ed = if x.len() > 0 && (x[0] == '+' || x[0] == '-') {
            x.skip(1)
        } else {
            x
        };
        if ed.len() > 0 && all_digits(ed) {
            let e: int = if neg {
                -(decimal_value(ed) as int)
            } else {
                decimal_value(ed) as int
            };
            Some(DecimalText { digits: ip + fp, scale: e - fp.len() })
        } else {
            None
        }
    }
}

/// A float without sign: `inf`, `infinity` or `nan` in any ASCII case, or a
/// finite number.
pub open spec fn float_parts(b: Seq<char>) -> Option<FloatText> {
    if eq_ignore_ascii_case(b, "inf"@) || eq_ignore_ascii_case(b, "infinity"@) {
        Some(FloatText::Infinite)
    } else if eq_ignore_ascii_case(b, "nan"@) {
        Some(FloatText::NotANumber)
    } else {
        match finite_parts(b) {
            Some(d) => Some(FloatText::Finite(d)),
            None => None,
        }
    }
}

/// Whether a finite non-negative number is at least 2 − 2⁻²⁴.
pub open spec fn reaches_two(d: DecimalText) -> bool {
    let v = decimal_value(d.digits);
    if d.scale >= 0 {
        v * pow10(d.scale as nat) * 16777216 >= 33554431
    } else {
        v * 16777216 >= 33554431 * pow10((-d.scale) as nat)
    }
}

/// Whether an engine version, read as `f32::from_str` reads it (an optional
/// sign, then `inf`, `infinity`, `nan` or a decimal number with an optional
/// exponent), rounds to a float of at least 2; `None` where the text is no
/// float.
pub open spec fn spec_version_at_least_2(s: Seq<char>) -> Option<bool> {
    let neg = s.len() > 0 && s[0] == '-';
    let body = if s.len() > 0 && (s[0] == '+' || s[0] == '-') {
        s.skip(1)
    } else {
        s
    };
    match float_parts(body) {
        None => None,
        Some(FloatText::NotANumber) => Some(false),
        Some(FloatText::Infinite) => Some(!neg),
        Some(FloatText::Finite(d)) => Some(!neg && reaches_two(d)),
    }
}

/// The integer part of 10²⁴ · (2 − 2⁻²⁴), which is exact:
/// 1.999999940395355224609375 · 10²⁴.
pub open spec fn two_threshold() -> nat {
    1999999940395355224609375
}

proof fn lemma_pow10_pos(n: nat)
    ensures
        pow10(n) >= 1,
    decreases n,
{
    if n > 0 {
        lemma_pow10_pos((n - 1) as nat);
    }
}

proof fn lemma_pow10_add(a: nat, b: nat)
    ensures
        pow10(a + b) == pow10(a) * pow10(b),
    decreases a,
{
    if a > 0 {
        lemma_pow10_add((a - 1) as nat, b);
        let x = pow10((a - 1) as nat);
        let y = pow10(b);
        assert(((a + b) - 1) as nat == ((a - 1) as nat + b) as nat);
        assert(pow10(a + b) == 10 * pow10(((a + b) - 1) as nat));
        assert(pow10(a + b) == 10 * (x * y));
        assert(pow10(a) == 10 * x);
        assert(10 * (x * y) == (10 * x) * y) by (nonlinear_arith);
    } else {
        assert(pow10(0) == 1);
        assert(a + b == b);
        assert(1 * pow10(b) == pow10(b));
    }
}

proof fn lemma_pow10_mono(a: nat, b: nat)
    requires
        a <= b,
    ensures
        pow10(a) <= pow10(b),
{
    lemma_pow10_add(a, (b - a) as nat);
    lemma_pow10_pos((b - a) as nat);
    lemma_pow10_pos(a);
    assert(pow10(a) * pow10((b - a) as nat) >= pow10(a)) by (nonlinear_arith)
        requires
            pow10((b - a) as nat) >= 1,
    ;
}

proof fn lemma_digit_value(c: char)
    requires
        '0' <= c <= '9',
    ensures
        ((c as u32) - ('0' as u32)) as nat <= 9,
{
}

/// The value of digits after others.
proof fn lemma_decimal_concat(a: Seq<char>, b: Seq<char>)
    ensures
        decimal_value(a + b) == decimal_value(a) * pow10(b.len()) + decimal_value(b),
    decreases b.len(),
{
    if b.len() == 0 {
        assert(a + b =~= a);
        assert(pow10(0) == 1);
    } else {
        assert((a + b).drop_last() =~= a + b.drop_last());
        assert((a + b).last() == b.last());
        lemma_decimal_concat(a, b.drop_last());
        let d = ((b.last() as u32) - ('0' as u32)) as nat;
        let x = decimal_value(a);
        let p = pow10((b.len() - 1) as nat);
        let y = decimal_value(b.drop_last());
        assert(decimal_value(a + b) == (x * p + y) * 10 + d);
        assert(decimal_value(b) == y * 10 + d);
        assert(pow10(b.len()) == 10 * p);
        assert((x * p + y) * 10 + d == x * (10 * p) + (y * 10 + d)) by (nonlinear_arith);
    }
}

/// Digits are below the next power of ten.
proof fn lemma_decimal_below(s: Seq<char>)
    requires
        all_digits(s),
    ensures
        decimal_value(s) < pow10(s.len()),
    decreases s.len(),
{
    if s.len() > 0 {
        assert(all_digits(s.drop_last())) by {
            assert forall|i: int| 0 <= i < s.drop_last().len() implies '0' <= #[trigger] s.drop_last()[i]
                <= '9' by {
                assert(s.drop_last()[i] == s[i]);
            }
        }
        lemma_decimal_below(s.drop_last());
        assert('0' <= s[s.len() - 1] <= '9');
        let d = ((s.last() as u32) - ('0' as u32)) as nat;
        assert(d <= 9);
        let p = pow10((s.len() - 1) as nat);
        let v = decimal_value(s.drop_last());
        assert(v * 10 + d < 10 * p) by (nonlinear_arith)
            requires
                v < p,
                d <= 9,
        ;
    }
}

/// Digits led by a non-zero digit reach the power of ten below their length.
proof fn lemma_decimal_above(s: Seq<char>)
    requires
        all_digits(s),
        s.len() > 0,
        s[0] != '0',
    ensures
        decimal_value(s) >= pow10((s.len() - 1) as nat),
{
    let a = s.take(1);
    let b = s.skip(1);
    assert(a + b =~= s);
    lemma_decimal_concat(a, b);
    assert(a.drop_last() =~= Seq::<char>::empty());
    assert(a.last() == s[0]);
    assert(decimal_value(a) >= 1);
    lemma_pow10_pos(b.len());
    assert(decimal_value(a) * pow10(b.len()) >= pow10(b.len())) by (nonlinear_arith)
        requires
            decimal_value(a) >= 1,
    ;
}

/// Zeros have the value 0.
proof fn lemma_decimal_zeros(s: Seq<char>)
    requires
        forall|i: int| 0 <= i < s.len() ==> s[i] == '0',
    ensures
        decimal_value(s) == 0,
    decreases s.len(),
{
    if s.len() > 0 {
        assert(s.last() == s[s.len() - 1]);
        lemma_decimal_zeros(s.drop_last());
    }
}

/// How a non-negative finite number compares with 2 − 2⁻²⁴, read from its
/// significant digits: `sig` has no leading zero, `v` is its value and the
/// number is `v · 10^e`; `p` is the value of the first 25 significant digits
/// padded with zeros to 25.
proof fn lemma_reaches_two_by_digits(sig: Seq<char>, e: int, p: nat)
    requires
        all_digits(sig),
        sig.len() > 0,
        sig[0] != '0',
        sig.len() + e == 1,
        sig.len() <= 25 ==> p == decimal_value(sig) * pow10((25 - sig.len()) as nat),
        sig.len() > 25 ==> p == decimal_value(sig.take(25)),
    ensures
        reaches_two(DecimalText { digits: sig, scale: e }) <==> p >= two_threshold(),
{
    let n = sig.len();
    let v = decimal_value(sig);
    let t = two_threshold();
    let f = pow10(24);
    assert(pow10(24) == 1000000000000000000000000) by {
        reveal_with_fuel(pow10, 25);
    }
    assert(t * 16777216 == 33554431 * f);
    let m = pow10((n - 1) as nat);
    if n == 1 {
        assert(e == 0);
        assert(pow10(0) == 1);
        assert(p == v * f);
        assert((v * 16777216 >= 33554431) <==> (p >= t)) by (nonlinear_arith)
            requires
                p == v * f,
                f == 1000000000000000000000000,
                t == 1999999940395355224609375,
        ;
    } else {
        assert(e < 0);
        assert((-e) as nat == (n - 1) as nat);
        // v · 2²⁴ ≥ (2²⁵ − 1) · 10^(n−1)  ⟺  v · 10²⁴ ≥ t · 10^(n−1)
        assert((v * 16777216 >= 33554431 * m) <==> (v * f >= t * m)) by (nonlinear_arith)
            requires
                t * 16777216 == 33554431 * f,
                f > 0,
        ;
        if n <= 25 {
            let q = pow10((25 - n) as nat);
            lemma_pow10_add((n - 1) as nat, (25 - n) as nat);
            lemma_pow10_pos((n - 1) as nat);
            assert(m * q == f);
            assert((v * f >= t * m) <==> (v * q >= t)) by (nonlinear_arith)
                requires
                    m * q == f,
                    m >= 1,
            ;
            lemma_pow10_pos((n - 1) as nat);
        } else {
            let hi = sig.take(25);
            let lo = sig.skip(25);
            assert(hi + lo =~= sig);
            lemma_decimal_concat(hi, lo);
            let r = decimal_value(lo);
            let q = pow10(lo.len());
            assert(all_digits(lo)) by {
                assert forall|i: int| 0 <= i < lo.len() implies '0' <= #[trigger] lo[i] <= '9' by {
                    assert(lo[i] == sig[i + 25]);
                }
            }
            lemma_decimal_below(lo);
            lemma_pow10_add(24, lo.len());
            assert(lo.len() == n - 25);
            assert(24 + lo.len() == n - 1);
            assert(m == f * q);
            assert(v == p * q + r);
            assert((v * f >= t * m) <==> (p >= t)) by (nonlinear_arith)
                requires
                    m == f * q,
                    v == p * q + r,
                    r < q,
                    f > 0,
                    q > 0,
            ;
            lemma_pow10_pos(lo.len());
        }
    }
}

/// Far from the decimal point, the comparison is settled by where the first
/// significant digit stands.
proof fn lemma_reaches_two_by_position(sig: Seq<char>, e: int)
    requires
        all_digits(sig),
        sig.len() > 0,
        sig[0] != '0',
        sig.len() + e != 1,
    ensures
        reaches_two(DecimalText { digits: sig, scale: e }) <==> sig.len() + e >= 2,
{
    let n = sig.len();
    let v = decimal_value(sig);
    lemma_decimal_above(sig);
    lemma_decimal_below(sig);
    let lo = pow10((n - 1) as nat);
    let hi = pow10(n);
    lemma_pow10_pos((n - 1) as nat);
    if n + e >= 2 {
        if e >= 0 {
            let pe = pow10(e as nat);
            lemma_pow10_add((n - 1) as nat, e as nat);
            lemma_pow10_mono(1, (n - 1 + e) as nat);
            assert(pow10(1) == 10) by {
                reveal_with_fuel(pow10, 2);
            }
            assert(v * pe * 16777216 >= 33554431) by (nonlinear_arith)
                requires
                    v >= lo,
                    lo * pe >= 10,
            ;
        } else {
            let pe = pow10((-e) as nat);
            lemma_pow10_add((n - 1 + e) as nat, (-e) as nat);
            lemma_pow10_mono(1, (n - 1 + e) as nat);
            assert(pow10(1) == 10) by {
                reveal_with_fuel(pow10, 2);
            }
            let k = pow10((n - 1 + e) as nat);
            assert(lo == k * pe);
            assert(v * 16777216 >= 33554431 * pe) by (nonlinear_arith)
                requires
                    v >= lo,
                    lo == k * pe,
                    k >= 10,
            ;
        }
    } else {
        assert(e < 0);
        let pe = pow10((-e) as nat);
        lemma_pow10_mono(n, (-e) as nat);
        assert(v * 16777216 < 33554431 * pe) by (nonlinear_arith)
            requires
                v < hi,
                hi <= pe,
        ;
    }
}

/// Position of the first exponent mark in `v[lo..hi]`, as an index of `v`, or `hi`.
fn exp_pos_exec(v: &[char], lo: usize, hi: usize) -> (r: usize)
    requires
        lo <= hi <= v@.len(),
    ensures
        r as int == exp_pos(v@.subrange(lo as int, hi as int), 0) + lo,
        lo <= r <= hi,
{
    let ghost b = v@.subrange(lo as int, hi as int);
    let mut i = lo;
    while i < hi && !(v[i] == 'e' || v[i] == 'E')
        invariant
            lo <= i <= hi <= v@.len(),
            b == v@.subrange(lo as int, hi as int),
            exp_pos(b, i - lo) == exp_pos(b, 0),
        decreases hi - i,
    {
        assert(b[i - lo] == v@[i as int]);
        i = i + 1;
    }
    proof {
        if i < hi {
            assert(b[i - lo] == v@[i as int]);
        }
    }
    i
}

fn all_digits_in(v: &[char], lo: usize, hi: usize) -> (r: bool)
    requires
        lo <= hi <= v@.len(),
    ensures
        r == all_digits(v@.subrange(lo as int, hi as int)),
{
    let mut i = lo;
    while i < hi
        invariant
            lo <= i <= hi <= v@.len(),
            forall|k: int| lo <= k < i ==> '0' <= #[trigger] v@[k] <= '9',
        decreases hi - i,
    {
        if v[i] < '0' || v[i] > '9' {
            assert(v@.subrange(lo as int, hi as int)[i - lo] == v@[i as int]);
            return false;
        }
        i = i + 1;
    }
    assert forall|k: int| 0 <= k < hi - lo implies '0' <= #[trigger] v@.subrange(
        lo as int,
        hi as int,
    )[k] <= '9' by {
        assert(v@.subrange(lo as int, hi as int)[k] == v@[lo + k]);
    }
    true
}

/// The value of the digits `v[lo..hi]`, or `cap` where it is at least `cap`.
fn digits_value_capped(v: &[char], lo: usize, hi: usize, cap: u128) -> (r: u128)
    requires
        lo <= hi <= v@.len(),
        all_digits(v@.subrange(lo as int, hi as int)),
        cap <= 0x1000_0000_0000_0000_0000_0000_0000,
    ensures
        r == if decimal_value(v@.subrange(lo as int, hi as int)) >= cap {
            cap as int
        } else {
            decimal_value(v@.subrange(lo as int, hi as int)) as int
        },
{
    let ghost s = v@.subrange(lo as int, hi as int);
    let mut acc: u128 = 0;
    let mut i = lo;
    while i < hi
        invariant
            lo <= i <= hi <= v@.len(),
            s == v@.subrange(lo as int, hi as int),
            all_digits(s),
            cap <= 0x1000_0000_0000_0000_0000_0000_0000,
            acc < cap || cap == 0,
            acc <= cap,
            acc == decimal_value(s.take(i - lo)),
        decreases hi - i,
    {
        assert(s[i - lo] == v@[i as int]);
        assert('0' <= s[i - lo] <= '9');
        assert(s.take(i + 1 - lo).drop_last() =~= s.take(i - lo));
        let d = (v[i] as u32) - ('0' as u32);
        let next = acc * 10 + d as u128;
        if next >= cap {
            proof {
                lemma_decimal_grows(s, i + 1 - lo);
            }
            return cap;
        }
        acc = next;
        i = i + 1;
    }
    assert(s.take(hi - lo) =~= s);
    proof {
        if cap == 0 {
            assert(decimal_value(s) >= 0);
        }
    }
    if cap == 0 {
        return 0;
    }
    acc
}

proof fn lemma_decimal_grows(s: Seq<char>, i: int)
    requires
        0 <= i <= s.len(),
        all_digits(s),
    ensures
        decimal_value(s) >= decimal_value(s.take(i)),
    decreases s.len() - i,
{
    if i < s.len() {
        assert(s.take(i + 1).drop_last() =~= s.take(i));
        lemma_decimal_grows(s, i + 1);
    } else {
        assert(s.take(i) =~= s);
    }
}

proof fn lemma_find_first(s: Seq<char>, c: char, k: int)
    requires
        0 <= k < s.len(),
        s[k] == c,
        forall|j: int| 0 <= j < k ==> s[j] != c,
    ensures
        find_char_from(s, c, 0) == Some(k),
{
    lemma_find_char_from(s, c, 0);
}

proof fn lemma_find_none(s: Seq<char>, c: char)
    requires
        forall|j: int| 0 <= j < s.len() ==> s[j] != c,
    ensures
        find_char_from(s, c, 0) is None,
{
    lemma_find_char_from(s, c, 0);
}

/// The parts of a finite number in `v[lo..hi]`: its digits and scale, where
/// the scale is cut to ±2⁷⁰ (which decides nothing here: digit counts stay
/// far below).
fn finite_parts_exec(v: &[char], lo: usize, hi: usize) -> (r: Option<(Vec<char>, i128)>)
    requires
        lo <= hi <= v@.len(),
    ensures
        match finite_parts(v@.subrange(lo as int, hi as int)) {
            None => r is None,
            Some(d) => r matches Some((digits, sc)) && digits@ == d.digits && all_digits(digits@) && (sc == d.scale || (sc
                >= 0x20_0000_0000_0000_0000 && d.scale >= 0x20_0000_0000_0000_0000) || (sc
                <= -0x20_0000_0000_0000_0000 && d.scale <= -0x20_0000_0000_0000_0000)) && -0x80_0000_0000_0000_0000
                <= sc <= 0x80_0000_0000_0000_0000,
        },
{
    let ghost b = v@.subrange(lo as int, hi as int);
    let k = exp_pos_exec(v, lo, hi);
    let ghost kk = k - lo;
    let ghost mant = b.take(kk);
    assert(mant =~= v@.subrange(lo as int, k as int));
    assert(v@.subrange(0, k as int).subrange(0, k as int) =~= v@.subrange(0, k as int));
    let dot = crate::text::find_char_in(v, '.', lo, k);
    proof {
        lemma_find_char_from(v@.subrange(0, k as int), '.', lo as int);
    }
    let (ip_end, fp_start) = match dot {
        Some(d) => {
            proof {
                assert forall|j: int| 0 <= j < d - lo implies mant[j] != '.' by {
                    assert(mant[j] == v@.subrange(0, k as int)[lo + j]);
                }
                assert(mant[d - lo] == v@.subrange(0, k as int)[d as int]);
                lemma_find_first(mant, '.', d - lo);
                assert(mant.take(d - lo) =~= v@.subrange(lo as int, d as int));
                assert(mant.skip(d - lo + 1) =~= v@.subrange(d + 1, k as int));
            }
            (d, d + 1)
        },
        None => {
            proof {
                assert forall|j: int| 0 <= j < mant.len() implies mant[j] != '.' by {
                    assert(mant[j] == v@.subrange(0, k as int)[lo + j]);
                }
                lemma_find_none(mant, '.');
                assert(v@.subrange(k as int, k as int) =~= Seq::<char>::empty());
            }
            (k, k)
        },
    };
    if !all_digits_in(v, lo, ip_end) || !all_digits_in(v, fp_start, k) || (ip_end - lo) + (k
        - fp_start) == 0 {
        return None;
    }
    let mut digits = crate::text::sub_chars(v, lo, ip_end);
    let mut frac = crate::text::sub_chars(v, fp_start, k);
    let fl = frac.len();
    digits.append(&mut frac);
    assert(digits@ =~= v@.subrange(lo as int, ip_end as int) + v@.subrange(
        fp_start as int,
        k as int,
    ));
    assert(all_digits(digits@)) by {
        let ip = v@.subrange(lo as int, ip_end as int);
        let fp = v@.subrange(fp_start as int, k as int);
        assert forall|i: int| 0 <= i < digits@.len() implies '0' <= #[trigger] digits@[i] <= '9' by {
            if i < ip.len() {
                assert(digits@[i] == ip[i]);
            } else {
                assert(digits@[i] == fp[i - ip.len()]);
            }
        }
    }
    if k >= hi {
        return Some((digits, 0 - (fl as i128)));
    }
    let ghost x = b.skip(kk + 1);
    assert(x =~= v@.subrange(k + 1, hi as int));
    let neg = k + 1 < hi && v[k + 1] == '-';
    let signed = k + 1 < hi && (v[k + 1] == '+' || v[k + 1] == '-');
    let es: usize = if signed {
        k + 2
    } else {
        k + 1
    };
    assert((if signed {
        x.skip(1)
    } else {
        x
    }) =~= v@.subrange(es as int, hi as int));
    if es >= hi || !all_digits_in(v, es, hi) {
        return None;
    }
    let cap: u128 = 0x40_0000_0000_0000_0000;
    let ev = digits_value_capped(v, es, hi, cap);
    let e: i128 = if neg {
        0 - (ev as i128)
    } else {
        ev as i128
    };
    Some((digits, e - (fl as i128)))
}

/// Reads an engine version as `f32::from_str` does and says whether the float
/// is at least 2; `None` where the text is no float.
pub fn version_at_least_2(text: &str) -> (r: Option<bool>)
    ensures
        r == spec_version_at_least_2(text@),
{
    let v = chars_of_text(text);
    let n = v.len();
    let neg = n > 0 && v[0] == '-';
    let start: usize = if n > 0 && (v[0] == '+' || v[0] == '-') {
        1
    } else {
        0
    };
    let ghost body = if n > 0 && (v@[0] == '+' || v@[0] == '-') {
        v@.skip(1)
    } else {
        v@
    };
    assert(body =~= v@.subrange(start as int, n as int));
    let inf = crate::text::chars_of("inf");
    let infinity = crate::text::chars_of("infinity");
    let nan = crate::text::chars_of("nan");
    if crate::text::range_eq_ignore_ascii_case(v.as_slice(), start, n, inf.as_slice())
        || crate::text::range_eq_ignore_ascii_case(v.as_slice(), start, n, infinity.as_slice()) {
        return Some(!neg);
    }
    if crate::text::range_eq_ignore_ascii_case(v.as_slice(), start, n, nan.as_slice()) {
        return Some(false);
    }
    let (digits, sc) = match finite_parts_exec(v.as_slice(), start, n) {
        Some(p) => p,
        None => {
            return None;
        },
    };
    if neg {
        return Some(false);
    }
    let ghost d = finite_parts(body)->Some_0;
    Some(decimal_reaches_two(&digits, sc, Ghost(d.scale)))
}

/// Whether the digits, scaled by `10^scale`, reach 2 − 2⁻²⁴; `sc` is the
/// scale, or (far from 0) a number on the same side as far out.
fn decimal_reaches_two(digits: &Vec<char>, sc: i128, Ghost(scale): Ghost<int>) -> (r: bool)
    requires
        all_digits(digits@),
        sc == scale || (sc >= 0x20_0000_0000_0000_0000 && scale >= 0x20_0000_0000_0000_0000) || (sc
            <= -0x20_0000_0000_0000_0000 && scale <= -0x20_0000_0000_0000_0000),
        -0x80_0000_0000_0000_0000 <= sc <= 0x80_0000_0000_0000_0000,
    ensures
        r == reaches_two(DecimalText { digits: digits@, scale }),
{
    let ghost d = DecimalText { digits: digits@, scale };
    let len = digits.len();
    let mut lead: usize = 0;
    while lead < len && digits[lead] == '0'
        invariant
            lead <= len == digits@.len(),
            forall|j: int| 0 <= j < lead ==> digits@[j] == '0',
        decreases len - lead,
    {
        lead = lead + 1;
    }
    assert(digits@.take(lead as int) + digits@.skip(lead as int) =~= digits@);
    proof {
        lemma_decimal_concat(digits@.take(lead as int), digits@.skip(lead as int));
        lemma_decimal_zeros(digits@.take(lead as int));
    }
    if lead == len {
        proof {
            assert(digits@.skip(lead as int) =~= Seq::<char>::empty());
            assert(decimal_value(d.digits) == 0);
            lemma_pow10_pos((-d.scale) as nat);
        }
        return false;
    }
    let ghost sig = digits@.skip(lead as int);
    assert(all_digits(sig)) by {
        assert forall|i: int| 0 <= i < sig.len() implies '0' <= #[trigger] sig[i] <= '9' by {
            assert(sig[i] == digits@[lead + i]);
        }
    }
    proof {
        let z = digits@.take(lead as int);
        assert(decimal_value(z + sig) == decimal_value(digits@));
        assert(decimal_value(z) == 0);
        let pz = pow10(sig.len());
        assert(decimal_value(z) * pz == 0) by (nonlinear_arith)
            requires
                decimal_value(z) == 0,
        ;
    }
    assert(decimal_value(sig) == decimal_value(d.digits));
    let sl = len - lead;
    let k: i128 = (sl as i128) + sc;
    proof {
        assert(reaches_two(d) == reaches_two(DecimalText { digits: sig, scale: d.scale }));
        assert(sl < 0x1_0000_0000_0000_0000);
        assert(k == 1 ==> sl + d.scale == 1);
        assert(k >= 2 <==> sl + d.scale >= 2);
    }
    if k != 1 {
        proof {
            lemma_reaches_two_by_position(sig, d.scale);
        }
        return k >= 2;
    }
    let mut p: u128 = 0;
    let mut j: usize = 0;
    let m: usize = if sl < 25 {
        sl
    } else {
        25
    };
    while j < m
        invariant
            j <= m <= 25,
            m <= sl,
            sl == sig.len(),
            lead + sl == len,
            len == digits@.len(),
            sig == digits@.skip(lead as int),
            all_digits(sig),
            p == decimal_value(sig.take(j as int)),
            p < pow10(j as nat),
        decreases m - j,
    {
        assert(sig[j as int] == digits@[lead + j]);
        assert('0' <= sig[j as int] <= '9');
        assert(sig.take(j + 1).drop_last() =~= sig.take(j as int));
        assert(lead + j < lead + sl);
        let c = digits[lead + j];
        assert(c == sig[j as int]);
        let dg = (c as u32) - ('0' as u32);
        proof {
            lemma_pow10_mono((j + 1) as nat, 25);
            assert(pow10(25) == 10000000000000000000000000) by {
                reveal_with_fuel(pow10, 26);
            }
            assert(p * 10 + dg < pow10((j + 1) as nat)) by (nonlinear_arith)
                requires
                    p < pow10(j as nat),
                    dg <= 9,
                    pow10((j + 1) as nat) == 10 * pow10(j as nat),
            ;
        }
        p = p * 10 + dg as u128;
        j = j + 1;
    }
    assert(pow10(0) == 1);
    assert(decimal_value(sig.take(m as int)) * pow10(0) == decimal_value(sig.take(m as int)))
        by (nonlinear_arith)
        requires
            pow10(0) == 1,
    ;
    let mut q: usize = m;
    while q < 25
        invariant
            m <= q <= 25,
            p == decimal_value(sig.take(m as int)) * pow10((q - m) as nat),
            p < pow10(q as nat),
        decreases 25 - q,
    {
        proof {
            lemma_pow10_mono((q + 1) as nat, 25);
            assert(pow10(25) == 10000000000000000000000000) by {
                reveal_with_fuel(pow10, 26);
            }
            assert(decimal_value(sig.take(m as int)) * pow10((q + 1 - m) as nat) == p * 10)
                by (nonlinear_arith)
                requires
                    p == decimal_value(sig.take(m as int)) * pow10((q - m) as nat),
                    pow10((q + 1 - m) as nat) == 10 * pow10((q - m) as nat),
            ;
        }
        p = p * 10;
        q = q + 1;
    }
    proof {
        assert(sig[0] == digits@[lead as int]);
        if sl <= 25 {
            assert(sig.take(m as int) =~= sig);
        }
        assert(sl + d.scale == 1);
        lemma_reaches_two_by_digits(sig, d.scale, p as nat);
    }
    p >= 1999999940395355224609375
}

fn chars_of_text(text: &str) -> (r: Vec<char>)
    ensures
        r@ == text@,
{
    crate::text::chars_of(text)
}

} // verus!
