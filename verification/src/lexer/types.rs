//! Character-level recognizers for the exposition grammar: normal
//! characters, metric and label names, escaped strings, and the numeric
//! tokens (`floatlike` for values, `realnumber` for timestamps).
//!
//! Each recognizer has a spec twin that states exactly which prefix of the
//! line it accepts and what it yields.
use vstd::prelude::*;

use crate::num::{
    f64_bits_of_text, inf_prefix_ci, nan_prefix_ci, spec_double_extent, digits_end, scan_float,
    scan_exp, nom_double_prefix, Bits, FloatScan, INF_BITS, NAN_BITS, NEG_INF_BITS,
};
use crate::strutil::{char_alphabetic, char_alphanumeric, has_lit_at, lit_at, string_from_chars};

verus! {

/// Any Unicode scalar except line feed, double quote and backslash (the
/// surrogate range is excluded by construction of `char`).
pub open spec fn spec_is_normal_char(c: char) -> bool {
    !(c as u32 == 0x0A || c as u32 == 0x22 || c as u32 == 0x5C || (c as u32 > 0xD7FF && (
    c as u32) < 0xE000))
}

pub fn is_normal_char(c: char) -> (r: bool)
    ensures
        r == spec_is_normal_char(c),
{
    let u = c as u32;
    !(u == 0x0A || u == 0x22 || u == 0x5C || (u > 0xD7FF && u < 0xE000))
}

pub open spec fn is_metric_name_initial(c: char) -> bool {
    char_alphabetic(c) || c == '_' || c == ':'
}

pub open spec fn is_metric_name_char(c: char) -> bool {
    char_alphanumeric(c) || c == '_' || c == ':'
}

pub open spec fn is_label_name_initial(c: char) -> bool {
    char_alphabetic(c) || c == '_'
}

pub open spec fn is_label_name_char(c: char) -> bool {
    char_alphanumeric(c) || c == '_'
}

pub open spec fn is_ascii_alnum(c: char) -> bool {
    ('a' <= c && c <= 'z') || ('A' <= c && c <= 'Z') || ('0' <= c && c <= '9')
}

/// The first position at or after `i` that does not hold a metric-name
/// character.
pub open spec fn metric_name_end(s: Seq<char>, i: int) -> int
    decreases s.len() - i when 0 <= i <= s.len()
{
    if i < s.len() && is_metric_name_char(s[i]) {
        metric_name_end(s, i + 1)
    } else {
        i
    }
}

/// The metric-name token at `i`: a peeked initial character, then the run
/// of name characters.  Yields the position after the name.
pub open spec fn spec_metric_name_at(s: Seq<char>, i: int) -> Option<int> {
    if 0 <= i < s.len() && is_metric_name_initial(s[i]) {
        Some(metric_name_end(s, i))
    } else {
        None
    }
}

/// The first position at or after `i` that does not hold a label-name
/// character.
pub open spec fn label_name_end(s: Seq<char>, i: int) -> int
    decreases s.len() - i when 0 <= i <= s.len()
{
    if i < s.len() && is_label_name_char(s[i]) {
        label_name_end(s, i + 1)
    } else {
        i
    }
}

pub open spec fn spec_label_name_at(s: Seq<char>, i: int) -> Option<int> {
    if 0 <= i < s.len() && is_label_name_initial(s[i]) {
        Some(label_name_end(s, i))
    } else {
        None
    }
}

/// The first position at or after `i` that does not hold an ASCII
/// alphanumeric character.
pub open spec fn ascii_alnum_end(s: Seq<char>, i: int) -> int
    decreases s.len() - i when 0 <= i <= s.len()
{
    if i < s.len() && is_ascii_alnum(s[i]) {
        ascii_alnum_end(s, i + 1)
    } else {
        i
    }
}

/// A character that may follow a backslash: anything but a line feed.
pub open spec fn is_escapable_char(c: char) -> bool {
    c == '"' || c == '\\' || spec_is_normal_char(c)
}

/// Walks the escaped-string body from `i`: normal characters advance by
/// one, a backslash and its escaped character by two.  Stops before the
/// first other character (in a line, a double quote); `None` is the hard
/// error of a trailing lone backslash or an unescapable character.
pub open spec fn esc_end(s: Seq<char>, i: int) -> Option<int>
    decreases s.len() - i when 0 <= i <= s.len()
{
    if i >= s.len() {
        Some(i)
    } else if spec_is_normal_char(s[i]) {
        esc_end(s, i + 1)
    } else if s[i] == '\\' {
        if i + 1 < s.len() && is_escapable_char(s[i + 1]) {
            esc_end(s, i + 2)
        } else {
            None
        }
    } else {
        Some(i)
    }
}

/// The escaped-string token at `i`.  An empty match is accepted only at
/// the end of the line; earlier, an empty match is a failure, and the
/// caller decides what that means for the surrounding token.
pub open spec fn spec_escaped_string_at(s: Seq<char>, i: int) -> Option<int> {
    match esc_end(s, i) {
        Some(e) => if e == i && i < s.len() {
            None
        } else {
            Some(e)
        },
        None => None,
    }
}

/// `nan`, case-insensitively, or an optional sign followed by `inf`,
/// case-insensitively: the prefixes a timestamp must not start with.
pub open spec fn ts_guard_hit(u: Seq<char>) -> bool {
    nan_prefix_ci(u) || inf_prefix_ci(u) || (u.len() > 0 && (u[0] == '+' || u[0] == '-')
        && inf_prefix_ci(u.skip(1)))
}

/// The value token: `NaN` (case-insensitive), the case-sensitive
/// `Inf`/`Infinity` forms with optional sign, then the numeric grammar.
/// Yields the bits and the number of characters consumed.
pub open spec fn spec_floatlike(u: Seq<char>) -> Option<(Bits, int)> {
    if nan_prefix_ci(u) {
        Some((NAN_BITS, 3))
    } else if has_lit_at(u, 0, "-Infinity"@) {
        Some((NEG_INF_BITS, 9))
    } else if has_lit_at(u, 0, "-Inf"@) {
        Some((NEG_INF_BITS, 4))
    } else if has_lit_at(u, 0, "+Infinity"@) {
        Some((INF_BITS, 9))
    } else if has_lit_at(u, 0, "+Inf"@) {
        Some((INF_BITS, 4))
    } else if has_lit_at(u, 0, "Infinity"@) {
        Some((INF_BITS, 8))
    } else if has_lit_at(u, 0, "Inf"@) {
        Some((INF_BITS, 3))
    } else {
        match spec_double_extent(u) {
            Some(n) => Some((f64_bits_of_text(u.take(n)), n)),
            None => None,
        }
    }
}

/// The timestamp token: the numeric grammar, guarded against the textual
/// NaN and infinity forms.
pub open spec fn spec_realnumber(u: Seq<char>) -> Option<(Bits, int)> {
    if ts_guard_hit(u) {
        None
    } else {
        match spec_double_extent(u) {
            Some(n) => Some((f64_bits_of_text(u.take(n)), n)),
            None => None,
        }
    }
}

pub proof fn lemma_digits_end_bounds(s: Seq<char>, i: int)
    requires
        0 <= i <= s.len(),
    ensures
        i <= digits_end(s, i) <= s.len(),
    decreases s.len() - i,
{
    if i < s.len() && crate::num::is_digit_char(s[i]) {
        lemma_digits_end_bounds(s, i + 1);
    }
}

/// A successful numeric scan consumes at least one and at most all of the
/// remaining characters.
pub proof fn lemma_double_extent_bounds(u: Seq<char>)
    ensures
        spec_double_extent(u) matches Some(n) ==> 1 <= n <= u.len(),
{
    let i: int = if u.len() > 0 && (u[0] == '+' || u[0] == '-') {
        1
    } else {
        0
    };
    if u.len() >= i {
        lemma_digits_end_bounds(u, i);
        let d = digits_end(u, i);
        if d > i {
            if d < u.len() && u[d] == '.' {
                lemma_digits_end_bounds(u, d + 1);
                lemma_scan_exp_bounds(u, digits_end(u, d + 1));
            } else {
                lemma_scan_exp_bounds(u, d);
            }
        } else if i < u.len() && u[i] == '.' {
            lemma_digits_end_bounds(u, i + 1);
            if digits_end(u, i + 1) > i + 1 {
                lemma_scan_exp_bounds(u, digits_end(u, i + 1));
            }
        }
    }
}

proof fn lemma_scan_exp_bounds(u: Seq<char>, m: int)
    requires
        0 < m <= u.len(),
    ensures
        scan_exp(u, m) matches FloatScan::Match(n) ==> m <= n <= u.len(),
{
    if m < u.len() && (u[m] == 'e' || u[m] == 'E') {
        let j: int = if m + 1 < u.len() && (u[m + 1] == '+' || u[m + 1] == '-') {
            m + 2
        } else {
            m + 1
        };
        if j <= u.len() {
            lemma_digits_end_bounds(u, j);
        }
    }
}

fn metric_name_end_exec(line: &Vec<char>, i: usize) -> (j: usize)
    requires
        i <= line.len(),
    ensures
        j as int == metric_name_end(line@, i as int),
        i <= j <= line.len(),
{
    let mut j: usize = i;
    loop
        invariant
            i <= j <= line@.len(),
            metric_name_end(line@, i as int) == metric_name_end(line@, j as int),
        ensures
            i <= j <= line@.len(),
            j as int == metric_name_end(line@, i as int),
        decreases line@.len() - j,
    {
        if j >= line.len() {
            break ;
        }
        let c = line[j];
        if c.is_alphanumeric() || c == '_' || c == ':' {
            j = j + 1;
        } else {
            break ;
        }
    }
    j
}

fn label_name_end_exec(line: &Vec<char>, i: usize) -> (j: usize)
    requires
        i <= line.len(),
    ensures
        j as int == label_name_end(line@, i as int),
        i <= j <= line.len(),
{
    let mut j: usize = i;
    loop
        invariant
            i <= j <= line@.len(),
            label_name_end(line@, i as int) == label_name_end(line@, j as int),
        ensures
            i <= j <= line@.len(),
            j as int == label_name_end(line@, i as int),
        decreases line@.len() - j,
    {
        if j >= line.len() {
            break ;
        }
        let c = line[j];
        if c.is_alphanumeric() || c == '_' {
            j = j + 1;
        } else {
            break ;
        }
    }
    j
}

pub fn metric_name_at(line: &Vec<char>, i: usize) -> (r: Option<usize>)
    requires
        i <= line.len(),
    ensures
        match spec_metric_name_at(line@, i as int) {
            Some(e) => r matches Some(j) && j as int == e && i <= j <= line.len(),
            None => r is None,
        },
{
    if i < line.len() && {
        let c = line[i];
        c.is_alphabetic() || c == '_' || c == ':'
    } {
        Some(metric_name_end_exec(line, i))
    } else {
        None
    }
}

pub fn label_name_at(line: &Vec<char>, i: usize) -> (r: Option<usize>)
    requires
        i <= line.len(),
    ensures
        match spec_label_name_at(line@, i as int) {
            Some(e) => r matches Some(j) && j as int == e && i <= j <= line.len(),
            None => r is None,
        },
{
    if i < line.len() && {
        let c = line[i];
        c.is_alphabetic() || c == '_'
    } {
        Some(label_name_end_exec(line, i))
    } else {
        None
    }
}

pub fn ascii_alnum_end_exec(line: &Vec<char>, i: usize) -> (j: usize)
    requires
        i <= line.len(),
    ensures
        j as int == ascii_alnum_end(line@, i as int),
        i <= j <= line.len(),
{
    let mut j: usize = i;
    loop
        invariant
            i <= j <= line@.len(),
            ascii_alnum_end(line@, i as int) == ascii_alnum_end(line@, j as int),
        ensures
            i <= j <= line@.len(),
            j as int == ascii_alnum_end(line@, i as int),
        decreases line@.len() - j,
    {
        if j >= line.len() {
            break ;
        }
        let c = line[j];
        if ('a' <= c && c <= 'z') || ('A' <= c && c <= 'Z') || ('0' <= c && c <= '9') {
            j = j + 1;
        } else {
            break ;
        }
    }
    j
}

pub fn escaped_string_at(line: &Vec<char>, i: usize) -> (r: Option<usize>)
    requires
        i <= line.len(),
    ensures
        match spec_escaped_string_at(line@, i as int) {
            Some(e) => r matches Some(j) && j as int == e && i <= j <= line.len(),
            None => r is None,
        },
{
    let mut j: usize = i;
    loop
        invariant
            i <= j <= line@.len(),
            esc_end(line@, i as int) == esc_end(line@, j as int),
        ensures
            i <= j <= line@.len(),
            esc_end(line@, i as int) == Some(j as int),
        decreases line@.len() - j,
    {
        if j >= line.len() {
            break ;
        }
        let c = line[j];
        if is_normal_char(c) {
            j = j + 1;
        } else if c == '\\' {
            if j + 1 < line.len() && {
                let d = line[j + 1];
                d == '"' || d == '\\' || is_normal_char(d)
            } {
                j = j + 2;
            } else {
                return None;
            }
        } else {
            break ;
        }
    }
    if j == i && i < line.len() {
        None
    } else {
        Some(j)
    }
}

/// Whether `nan` opens the rest of the line at `i`, case-insensitively.
fn nan_ci_at(line: &Vec<char>, i: usize) -> (r: bool)
    requires
        i <= line.len(),
    ensures
        r == nan_prefix_ci(line@.skip(i as int)),
        line@.len() <= usize::MAX,
{
    if line.len() - i >= 3 {
        let c0 = line[i];
        let c1 = line[i + 1];
        let c2 = line[i + 2];
        (c0 == 'n' || c0 == 'N') && (c1 == 'a' || c1 == 'A') && (c2 == 'n' || c2 == 'N')
    } else {
        false
    }
}

/// Whether `inf` opens the rest of the line at `i`, case-insensitively.
fn inf_ci_at(line: &Vec<char>, i: usize) -> (r: bool)
    requires
        i <= line.len(),
    ensures
        r == inf_prefix_ci(line@.skip(i as int)),
        line@.len() <= usize::MAX,
{
    if line.len() - i >= 3 {
        let c0 = line[i];
        let c1 = line[i + 1];
        let c2 = line[i + 2];
        (c0 == 'i' || c0 == 'I') && (c1 == 'n' || c1 == 'N') && (c2 == 'f' || c2 == 'F')
    } else {
        false
    }
}

/// Runs the numeric grammar on the rest of the line; yields the bits and
/// the position after the token.
fn double_at(line: &Vec<char>, i: usize) -> (r: Option<(Bits, usize)>)
    requires
        i <= line.len(),
    ensures
        match spec_double_extent(line@.skip(i as int)) {
            Some(n) => r matches Some(p) && p.0 == f64_bits_of_text(
                line@.skip(i as int).take(n),
            ) && p.1 as int == i + n && p.1 <= line.len(),
            None => r is None,
        },
{
    let ghost u = line@.skip(i as int);
    proof {
        lemma_double_extent_bounds(u);
    }
    let sub = string_from_chars(vstd::slice::slice_subrange(line.as_slice(), i, line.len()));
    proof {
        assert(sub@ =~= u);
    }
    match nom_double_prefix(sub.as_str()) {
        Some(p) => {
            let rest_len = p.1.unicode_len();
            let consumed = (line.len() - i) - rest_len;
            proof {
                let n = spec_double_extent(u).unwrap();
                assert(p.1@.len() == u.len() - n);
            }
            Some((p.0, i + consumed))
        },
        None => None,
    }
}

pub fn floatlike_at(line: &Vec<char>, i: usize) -> (r: Option<(Bits, usize)>)
    requires
        i <= line.len(),
    ensures
        match spec_floatlike(line@.skip(i as int)) {
            Some(p) => r matches Some(q) && q.0 == p.0 && q.1 as int == i + p.1 && q.1
                <= line.len(),
            None => r is None,
        },
{
    proof {
        reveal_strlit("-Infinity");
        reveal_strlit("-Inf");
        reveal_strlit("+Infinity");
        reveal_strlit("+Inf");
        reveal_strlit("Infinity");
        reveal_strlit("Inf");
    }
    if nan_ci_at(line, i) {
        Some((NAN_BITS, i + 3))
    } else if lit_suffix(line, i, "-Infinity") {
        Some((NEG_INF_BITS, i + 9))
    } else if lit_suffix(line, i, "-Inf") {
        Some((NEG_INF_BITS, i + 4))
    } else if lit_suffix(line, i, "+Infinity") {
        Some((INF_BITS, i + 9))
    } else if lit_suffix(line, i, "+Inf") {
        Some((INF_BITS, i + 4))
    } else if lit_suffix(line, i, "Infinity") {
        Some((INF_BITS, i + 8))
    } else if lit_suffix(line, i, "Inf") {
        Some((INF_BITS, i + 3))
    } else {
        double_at(line, i)
    }
}

/// Whether `lit` occurs at `i`; phrased over the remaining suffix of the
/// line, which is how the token specs are stated.
fn lit_suffix(line: &Vec<char>, i: usize, lit: &str) -> (r: bool)
    requires
        i <= line.len(),
    ensures
        r == has_lit_at(line@.skip(i as int), 0, lit@),
{
    let r = lit_at(line, i, lit);
    proof {
        let u = line@.skip(i as int);
        if 0 <= i as int && i + lit@.len() <= line@.len() {
            assert(u.subrange(0, lit@.len() as int) =~= line@.subrange(
                i as int,
                i + lit@.len(),
            ));
        }
    }
    r
}

pub fn realnumber_at(line: &Vec<char>, i: usize) -> (r: Option<(Bits, usize)>)
    requires
        i <= line.len(),
    ensures
        match spec_realnumber(line@.skip(i as int)) {
            Some(p) => r matches Some(q) && q.0 == p.0 && q.1 as int == i + p.1 && q.1
                <= line.len(),
            None => r is None,
        },
{
    let ghost u = line@.skip(i as int);
    let signed_inf: bool = if i < line.len() && {
        let c = line[i];
        c == '+' || c == '-'
    } {
        proof {
            assert(u.skip(1) =~= line@.skip(i + 1));
        }
        inf_ci_at(line, i + 1)
    } else {
        false
    };
    if nan_ci_at(line, i) || inf_ci_at(line, i) || signed_inf {
        None
    } else {
        double_at(line, i)
    }
}

} // verus!
