//! Metric values are IEEE 754 doubles.  This module carries a double as its
//! raw bit pattern (`Bits`), so that every comparison the validator needs
//! (NaN, infinity, sign, ordering, equality) is ordinary integer logic, and
//! it wraps the one outside routine that turns numeric text into a double.
use vstd::prelude::*;

verus! {

/// The bit pattern of an IEEE 754 double.
pub type Bits = u64;

pub const SIGN_MASK: u64 = 0x8000_0000_0000_0000;

/// The magnitude (sign bit cleared) of positive or negative infinity.
pub const INF_MAG: u64 = 0x7FF0_0000_0000_0000;

/// Positive infinity.
pub const INF_BITS: u64 = 0x7FF0_0000_0000_0000;

/// Negative infinity.
pub const NEG_INF_BITS: u64 = 0xFFF0_0000_0000_0000;

/// The quiet NaN this library produces for a textual `NaN` token.
pub const NAN_BITS: u64 = 0x7FF8_0000_0000_0000;

/// Positive zero.
pub const ZERO_BITS: u64 = 0;

/// The double 1.0.
pub const ONE_BITS: u64 = 0x3FF0_0000_0000_0000;

pub open spec fn f_sign(b: Bits) -> bool {
    b >= SIGN_MASK
}

pub open spec fn f_mag(b: Bits) -> u64 {
    if f_sign(b) {
        (b - SIGN_MASK) as u64
    } else {
        b
    }
}

pub open spec fn f_is_nan(b: Bits) -> bool {
    f_mag(b) > INF_MAG
}

pub open spec fn f_is_inf(b: Bits) -> bool {
    f_mag(b) == INF_MAG
}

pub open spec fn f_is_pos_inf(b: Bits) -> bool {
    b == INF_BITS
}

/// Orders the non-NaN doubles as the reals they denote; both zeroes map
/// to 0, so `+0.0` and `-0.0` compare equal.
pub open spec fn f_key(b: Bits) -> int {
    if f_sign(b) {
        -(f_mag(b) as int)
    } else {
        f_mag(b) as int
    }
}

/// IEEE `<`: false whenever either side is NaN.
pub open spec fn f_lt(a: Bits, b: Bits) -> bool {
    !f_is_nan(a) && !f_is_nan(b) && f_key(a) < f_key(b)
}

/// IEEE `<=`: false whenever either side is NaN.
pub open spec fn f_le(a: Bits, b: Bits) -> bool {
    !f_is_nan(a) && !f_is_nan(b) && f_key(a) <= f_key(b)
}

/// IEEE `==`: false whenever either side is NaN; `+0.0` equals `-0.0`.
pub open spec fn f_eq(a: Bits, b: Bits) -> bool {
    !f_is_nan(a) && !f_is_nan(b) && f_key(a) == f_key(b)
}

/// The value is below zero (`-0.0` is not).
pub open spec fn f_is_neg(b: Bits) -> bool {
    f_lt(b, ZERO_BITS)
}

fn mag_bits(b: Bits) -> (r: u64)
    ensures
        r == f_mag(b),
{
    if b >= SIGN_MASK {
        b - SIGN_MASK
    } else {
        b
    }
}

pub fn is_nan_bits(b: Bits) -> (r: bool)
    ensures
        r == f_is_nan(b),
{
    mag_bits(b) > INF_MAG
}

pub fn is_inf_bits(b: Bits) -> (r: bool)
    ensures
        r == f_is_inf(b),
{
    mag_bits(b) == INF_MAG
}

pub fn lt_bits(a: Bits, b: Bits) -> (r: bool)
    ensures
        r == f_lt(a, b),
{
    if is_nan_bits(a) || is_nan_bits(b) {
        return false;
    }
    let sa = a >= SIGN_MASK;
    let sb = b >= SIGN_MASK;
    let ma = mag_bits(a);
    let mb = mag_bits(b);
    if sa && sb {
        ma > mb
    } else if sa && !sb {
        ma > 0 || mb > 0
    } else if !sa && sb {
        false
    } else {
        ma < mb
    }
}

pub fn le_bits(a: Bits, b: Bits) -> (r: bool)
    ensures
        r == f_le(a, b),
{
    if is_nan_bits(a) || is_nan_bits(b) {
        return false;
    }
    !lt_bits(b, a)
}

pub fn eq_bits(a: Bits, b: Bits) -> (r: bool)
    ensures
        r == f_eq(a, b),
{
    if is_nan_bits(a) || is_nan_bits(b) {
        return false;
    }
    let sa = a >= SIGN_MASK;
    let sb = b >= SIGN_MASK;
    let ma = mag_bits(a);
    let mb = mag_bits(b);
    (ma == 0 && mb == 0) || (sa == sb && ma == mb)
}

pub fn is_neg_bits(b: Bits) -> (r: bool)
    ensures
        r == f_is_neg(b),
{
    lt_bits(b, ZERO_BITS)
}

/// Names the double that `str::parse::<f64>` (and nom's `double`) assigns to
/// a piece of numeric text; the result depends on the text alone.
pub uninterp spec fn f64_bits_of_text(s: Seq<char>) -> Bits;

pub open spec fn is_digit_char(c: char) -> bool {
    '0' <= c && c <= '9'
}

/// The first position at or after `i` that does not hold an ASCII digit.
pub open spec fn digits_end(s: Seq<char>, i: int) -> int
    decreases s.len() - i when 0 <= i <= s.len()
{
    if i < s.len() && is_digit_char(s[i]) {
        digits_end(s, i + 1)
    } else {
        i
    }
}

/// How nom's `recognize_float` leaves an input: a match of `n` characters,
/// no match, or a hard failure (an exponent marker without digits, which
/// nom turns into a failure that aborts the surrounding alternation).
pub ghost enum FloatScan {
    Match(int),
    NoMatch,
    Abort,
}

/// The extent of nom's `recognize_float` grammar at the start of `s`:
/// `[+-]? ( digit+ ( '.' digit* )? | '.' digit+ ) ( [eE] [+-]? digit+ )?`.
pub open spec fn scan_float(s: Seq<char>) -> FloatScan {
    let i: int = if s.len() > 0 && (s[0] == '+' || s[0] == '-') {
        1
    } else {
        0
    };
    let d = digits_end(s, i);
    if d > i {
        let m: int = if d < s.len() && s[d] == '.' {
            digits_end(s, d + 1)
        } else {
            d
        };
        scan_exp(s, m)
    } else if i < s.len() && s[i] == '.' && digits_end(s, i + 1) > i + 1 {
        scan_exp(s, digits_end(s, i + 1))
    } else {
        FloatScan::NoMatch
    }
}

/// The optional exponent part, starting at `m`; an exponent marker not
/// followed by a digit is a hard failure.
pub open spec fn scan_exp(s: Seq<char>, m: int) -> FloatScan {
    if m < s.len() && (s[m] == 'e' || s[m] == 'E') {
        let j: int = if m + 1 < s.len() && (s[m + 1] == '+' || s[m + 1] == '-') {
            m + 2
        } else {
            m + 1
        };
        let k = digits_end(s, j);
        if k > j {
            FloatScan::Match(k)
        } else {
            FloatScan::Abort
        }
    } else {
        FloatScan::Match(m)
    }
}

/// Case-insensitive `nan` at the start of `s`.
pub open spec fn nan_prefix_ci(s: Seq<char>) -> bool {
    s.len() >= 3 && (s[0] == 'n' || s[0] == 'N') && (s[1] == 'a' || s[1] == 'A') && (s[2] == 'n'
        || s[2] == 'N')
}

/// Case-insensitive `inf` at the start of `s`.
pub open spec fn inf_prefix_ci(s: Seq<char>) -> bool {
    s.len() >= 3 && (s[0] == 'i' || s[0] == 'I') && (s[1] == 'n' || s[1] == 'N') && (s[2] == 'f'
        || s[2] == 'F')
}

/// The number of characters nom's `double` consumes from the start of `s`,
/// or `None` where it fails: `recognize_float` first, then the exceptional
/// tokens `nan` and `inf` (case-insensitive; `infinity` is shadowed by its
/// prefix `inf`).  A hard failure of `recognize_float` skips the
/// exceptional tokens.
pub open spec fn spec_double_extent(s: Seq<char>) -> Option<int> {
    match scan_float(s) {
        FloatScan::Match(n) => Some(n),
        FloatScan::Abort => None,
        FloatScan::NoMatch => if nan_prefix_ci(s) {
            Some(3)
        } else if inf_prefix_ci(s) {
            Some(3)
        } else {
            None
        },
    }
}

/// Relies on `nom::number::complete::double`: consumes the longest numeric
/// prefix per `spec_double_extent`, returns the double that `str::parse`
/// assigns to that prefix, and never panics.
#[verifier::external_body]
pub fn nom_double_prefix<'a>(s: &'a str) -> (r: Option<(Bits, &'a str)>)
    ensures
        match spec_double_extent(s@) {
            Some(n) => r matches Some(p) && p.0 == f64_bits_of_text(s@.take(n)) && p.1@ == s@.skip(
                n,
            ),
            None => r is None,
        },
{
    match nom::number::complete::double::<&str, nom::error::Error<&str>>(s) {
        Ok((rest, v)) => Some((v.to_bits(), rest)),
        Err(_) => None,
    }
}

pub open spec fn digit_char_of(d: int) -> char {
    if d == 0 {
        '0'
    } else if d == 1 {
        '1'
    } else if d == 2 {
        '2'
    } else if d == 3 {
        '3'
    } else if d == 4 {
        '4'
    } else if d == 5 {
        '5'
    } else if d == 6 {
        '6'
    } else if d == 7 {
        '7'
    } else if d == 8 {
        '8'
    } else {
        '9'
    }
}

/// The decimal rendering of a non-negative integer.
pub open spec fn spec_udec(n: int) -> Seq<char>
    decreases n when n >= 0
{
    if n < 10 {
        seq![digit_char_of(n)]
    } else {
        spec_udec(n / 10).push(digit_char_of(n % 10))
    }
}

/// The decimal rendering of an integer, with a leading minus sign when
/// negative.
pub open spec fn spec_i64_dec(i: int) -> Seq<char> {
    if i < 0 {
        seq!['-'] + spec_udec(-i)
    } else {
        spec_udec(i)
    }
}

proof fn lemma_udec_digits(n: int)
    requires
        n >= 0,
    ensures
        spec_udec(n).len() >= 1,
        forall|k: int| 0 <= k < spec_udec(n).len() ==> is_digit_char(spec_udec(n)[k]),
    decreases n,
{
    if n >= 10 {
        lemma_udec_digits(n / 10);
    }
}

proof fn lemma_digits_end_all(s: Seq<char>, i: int)
    requires
        0 <= i <= s.len(),
        forall|k: int| i <= k < s.len() ==> is_digit_char(s[k]),
    ensures
        digits_end(s, i) == s.len(),
    decreases s.len() - i,
{
    if i < s.len() {
        lemma_digits_end_all(s, i + 1);
    }
}

/// A decimal rendering is matched whole by the numeric grammar.
proof fn lemma_dec_extent(s: Seq<char>, i: int)
    requires
        s == spec_i64_dec(i),
    ensures
        spec_double_extent(s) == Some(s.len() as int),
{
    if i < 0 {
        lemma_udec_digits(-i);
        assert(s[0] == '-');
        assert(forall|k: int| 1 <= k < s.len() ==> is_digit_char(#[trigger] s[k]));
        lemma_digits_end_all(s, 1);
    } else {
        lemma_udec_digits(i);
        assert(forall|k: int| 0 <= k < s.len() ==> is_digit_char(#[trigger] s[k]));
        assert(!(s[0] == '+' || s[0] == '-'));
        lemma_digits_end_all(s, 0);
    }
}

fn digit_char_exec(d: u64) -> (r: char)
    requires
        d < 10,
    ensures
        r == digit_char_of(d as int),
{
    if d == 0 {
        '0'
    } else if d == 1 {
        '1'
    } else if d == 2 {
        '2'
    } else if d == 3 {
        '3'
    } else if d == 4 {
        '4'
    } else if d == 5 {
        '5'
    } else if d == 6 {
        '6'
    } else if d == 7 {
        '7'
    } else if d == 8 {
        '8'
    } else {
        '9'
    }
}

fn u64_dec_chars(n: u64) -> (v: Vec<char>)
    ensures
        v@ == spec_udec(n as int),
    decreases n,
{
    if n < 10 {
        let mut v: Vec<char> = Vec::new();
        v.push(digit_char_exec(n));
        proof {
            assert(v@ =~= spec_udec(n as int));
        }
        v
    } else {
        let mut v = u64_dec_chars(n / 10);
        v.push(digit_char_exec(n % 10));
        v
    }
}

/// The double nearest to `i`: the decimal rendering of `i`, read back by
/// the numeric parser.
pub fn i64_to_f64_bits(i: i64) -> (r: Bits)
    ensures
        r == f64_bits_of_text(spec_i64_dec(i as int)),
{
    let mut v: Vec<char> = Vec::new();
    if i < 0 {
        v.push('-');
    }
    let mag: u64 = if i >= 0 {
        i as u64
    } else if i == i64::MIN {
        9223372036854775808u64
    } else {
        (-i) as u64
    };
    let mut d = u64_dec_chars(mag);
    v.append(&mut d);
    proof {
        if i < 0 {
            assert(v@ =~= spec_i64_dec(i as int));
        } else {
            assert(v@ =~= spec_i64_dec(i as int));
        }
    }
    let s = crate::strutil::string_from_chars(v.as_slice());
    proof {
        lemma_dec_extent(s@, i as int);
        assert(s@.take(s@.len() as int) =~= s@);
    }
    match nom_double_prefix(s.as_str()) {
        Some(p) => p.0,
        None => {
            proof {
                assert(false);
            }
            0
        },
    }
}

} // verus!
