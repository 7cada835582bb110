//! Small string utilities: character classification, equality and suffix
//! tests over `&str`, and conversion between `Vec<char>` and `String`.
use vstd::prelude::*;

verus! {

/// Names the Unicode `Alphabetic` property of a character; the result
/// depends on the character alone.
pub uninterp spec fn char_alphabetic(c: char) -> bool;

/// Names the Unicode alphanumeric property of a character; the result
/// depends on the character alone.
pub uninterp spec fn char_alphanumeric(c: char) -> bool;

/// Relies on `char::is_alphabetic`: tests the Unicode `Alphabetic` property.
pub assume_specification[ char::is_alphabetic ](c: char) -> (r: bool)
    ensures
        r == char_alphabetic(c),
;

/// Relies on `char::is_alphanumeric`: tests the Unicode alphanumeric property.
pub assume_specification[ char::is_alphanumeric ](c: char) -> (r: bool)
    ensures
        r == char_alphanumeric(c),
;

/// Relies on `String`'s `FromIterator<char>` impl: collects the characters
/// of the slice, in order, into an owned string.
#[verifier::external_body]
pub fn string_from_chars(v: &[char]) -> (r: String)
    ensures
        r@ == v@,
{
    v.iter().copied().collect()
}

/// The characters of `s`, as a vector.
pub fn chars_of(s: &str) -> (r: Vec<char>)
    ensures
        r@ == s@,
{
    let n = s.unicode_len();
    let mut r: Vec<char> = Vec::new();
    let mut i: usize = 0;
    while i < n
        invariant
            n == s@.len(),
            i <= n,
            r@ == s@.subrange(0, i as int),
        decreases n - i,
    {
        r.push(s.get_char(i));
        i = i + 1;
    }
    proof {
        assert(r@ =~= s@);
    }
    r
}

/// Character-for-character equality of two string slices.
pub fn str_eq(a: &str, b: &str) -> (r: bool)
    ensures
        r == (a@ == b@),
{
    let na = a.unicode_len();
    let nb = b.unicode_len();
    if na != nb {
        proof {
            assert(a@ != b@);
        }
        return false;
    }
    let mut i: usize = 0;
    while i < na
        invariant
            na == a@.len(),
            na == b@.len(),
            i <= na,
            forall|k: int| 0 <= k < i ==> a@[k] == b@[k],
        decreases na - i,
    {
        if a.get_char(i) != b.get_char(i) {
            return false;
        }
        i = i + 1;
    }
    proof {
        assert(a@ =~= b@);
    }
    true
}

/// `suffix` closes `s`.
pub open spec fn spec_ends_with(s: Seq<char>, suffix: Seq<char>) -> bool {
    s.len() >= suffix.len() && s.subrange(s.len() - suffix.len(), s.len() as int) == suffix
}

pub fn str_ends_with(s: &str, suffix: &str) -> (r: bool)
    ensures
        r == spec_ends_with(s@, suffix@),
{
    let n = s.unicode_len();
    let m = suffix.unicode_len();
    if n < m {
        return false;
    }
    let off = n - m;
    let mut i: usize = 0;
    while i < m
        invariant
            n == s@.len(),
            m == suffix@.len(),
            off == n - m,
            i <= m,
            forall|k: int| 0 <= k < i ==> s@[off + k] == suffix@[k],
        decreases m - i,
    {
        if s.get_char(off + i) != suffix.get_char(i) {
            proof {
                assert(s@.subrange(n - m, n as int)[i as int] != suffix@[i as int]);
            }
            return false;
        }
        i = i + 1;
    }
    proof {
        assert(s@.subrange(n - m, n as int) =~= suffix@);
    }
    true
}

/// The text `t` occurs in `s` at position `i`.
pub open spec fn has_lit_at(s: Seq<char>, i: int, t: Seq<char>) -> bool {
    0 <= i && i + t.len() <= s.len() && s.subrange(i, i + t.len()) == t
}

/// Whether the characters of `lit` occur in `line` at position `i`.
pub fn lit_at(line: &Vec<char>, i: usize, lit: &str) -> (r: bool)
    ensures
        r == has_lit_at(line@, i as int, lit@),
{
    let m = lit.unicode_len();
    let n = line.len();
    if i > n || m > n - i {
        return false;
    }
    let mut k: usize = 0;
    while k < m
        invariant
            m == lit@.len(),
            n == line@.len(),
            i + m <= n,
            k <= m,
            forall|x: int| 0 <= x < k ==> line@[i + x] == lit@[x],
        decreases m - k,
    {
        if line[i + k] != lit.get_char(k) {
            proof {
                assert(line@.subrange(i as int, i + m)[k as int] != lit@[k as int]);
            }
            return false;
        }
        k = k + 1;
    }
    proof {
        assert(line@.subrange(i as int, i + m) =~= lit@);
    }
    true
}

/// The number of bytes of the UTF-8 encoding of `c`.
pub open spec fn spec_utf8_len(c: char) -> int {
    if (c as u32) < 0x80 {
        1
    } else if (c as u32) < 0x800 {
        2
    } else if (c as u32) < 0x10000 {
        3
    } else {
        4
    }
}

pub fn utf8_len(c: char) -> (r: usize)
    ensures
        r as int == spec_utf8_len(c),
{
    let u = c as u32;
    if u < 0x80 {
        1
    } else if u < 0x800 {
        2
    } else if u < 0x10000 {
        3
    } else {
        4
    }
}

/// The number of bytes of the UTF-8 encoding of `s`.
pub open spec fn spec_utf8_len_seq(s: Seq<char>) -> int
    decreases s.len(),
{
    if s.len() == 0 {
        0
    } else {
        spec_utf8_len(s[0]) + spec_utf8_len_seq(s.skip(1))
    }
}

proof fn lemma_utf8_len_seq_push(s: Seq<char>, c: char)
    ensures
        spec_utf8_len_seq(s.push(c)) == spec_utf8_len_seq(s) + spec_utf8_len(c),
    decreases s.len(),
{
    if s.len() == 0 {
        assert(s.push(c).skip(1) =~= Seq::<char>::empty());
        assert(s =~= Seq::<char>::empty());
    } else {
        assert(s.push(c).skip(1) =~= s.skip(1).push(c));
        lemma_utf8_len_seq_push(s.skip(1), c);
    }
}

pub proof fn lemma_utf8_len_seq_bounds(s: Seq<char>)
    ensures
        s.len() <= spec_utf8_len_seq(s) <= 4 * s.len(),
    decreases s.len(),
{
    if s.len() > 0 {
        lemma_utf8_len_seq_bounds(s.skip(1));
    }
}

/// The UTF-8 byte length of `s`, saturated at `usize::MAX`.
pub fn utf8_len_str(s: &str) -> (r: usize)
    ensures
        r as int == spec_utf8_len_seq(s@) || (r == usize::MAX && spec_utf8_len_seq(s@)
            > usize::MAX),
{
    let n = s.unicode_len();
    let mut total: usize = 0;
    let mut i: usize = 0;
    let mut saturated: bool = false;
    while i < n
        invariant
            n == s@.len(),
            i <= n,
            !saturated ==> total as int == spec_utf8_len_seq(s@.subrange(0, i as int)),
            saturated ==> total == usize::MAX && spec_utf8_len_seq(s@.subrange(0, i as int))
                > usize::MAX,
        decreases n - i,
    {
        let c = s.get_char(i);
        let l = utf8_len(c);
        proof {
            assert(s@.subrange(0, i + 1) =~= s@.subrange(0, i as int).push(s@[i as int]));
            lemma_utf8_len_seq_push(s@.subrange(0, i as int), s@[i as int]);
            lemma_utf8_len_prefix(s@, i + 1);
        }
        if saturated || total > usize::MAX - l {
            saturated = true;
            total = usize::MAX;
        } else {
            total = total + l;
        }
        i = i + 1;
    }
    proof {
        assert(s@.subrange(0, n as int) =~= s@);
    }
    total
}

proof fn lemma_utf8_len_prefix(s: Seq<char>, i: int)
    requires
        0 <= i <= s.len(),
    ensures
        spec_utf8_len_seq(s.subrange(0, i)) <= spec_utf8_len_seq(s),
{
    lemma_utf8_len_seq_split(s, i);
    lemma_utf8_len_seq_bounds(s.skip(i));
    assert(s.subrange(0, i) =~= s.take(i));
}

proof fn lemma_utf8_len_seq_split(s: Seq<char>, i: int)
    requires
        0 <= i <= s.len(),
    ensures
        spec_utf8_len_seq(s) == spec_utf8_len_seq(s.take(i)) + spec_utf8_len_seq(s.skip(i)),
    decreases i,
{
    if i == 0 {
        assert(s.take(0) =~= Seq::<char>::empty());
        assert(s.skip(0) =~= s);
    } else {
        lemma_utf8_len_seq_split(s, i - 1);
        assert(s.take(i) =~= s.take(i - 1).push(s[i - 1]));
        lemma_utf8_len_seq_push(s.take(i - 1), s[i - 1]);
        assert(s.skip(i - 1) =~= seq![s[i - 1]] + s.skip(i));
        assert(s.skip(i - 1)[0] == s[i - 1]);
        assert(s.skip(i - 1).skip(1) =~= s.skip(i));
    }
}

} // verus!
