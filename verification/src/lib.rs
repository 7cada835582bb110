//! An OpenMetrics text exposition parser: a lexer for the line-oriented
//! grammar and a validating builder that assembles samples into metric
//! families.
//!
//! `parse` ties the two together; its contract pins the outcome to
//! `spec_parse`, a single spec function of the input text, so equal inputs
//! always give equal outcomes.
use vstd::prelude::*;

pub mod lexer;
pub mod num;
pub mod parser;
pub mod strutil;

verus! {

/// An error from processing an exposition document.
#[derive(Debug)]
pub enum OmError {
    /// The validator rejected the token stream.
    Parse(parser::ParseError),
    /// The line lexer rejected the document.
    LexError(String),
    /// Reserved for errors of neither kind.
    Unknown,
}

/// The outcome an exposition document denotes.
pub ghost enum ParseOutcome {
    /// The document is valid and denotes this family mapping.
    Families(Map<Seq<char>, parser::FamilyV>),
    /// The lexer accepted the lines but the validator rejected them.
    Rejected(parser::ParseError),
    /// Some line fails the grammar.
    LexFailed,
}

/// The whole parser as one function of the input text and the options.
pub open spec fn spec_parse_with(s: Seq<char>, opts: parser::ParseOptions) -> ParseOutcome {
    match lexer::spec_lex(s) {
        None => ParseOutcome::LexFailed,
        Some(ts) => match parser::spec_parse_tokens(ts, opts) {
            Ok(m) => ParseOutcome::Families(m),
            Err(e) => ParseOutcome::Rejected(e),
        },
    }
}

/// The whole parser under the default options.
pub open spec fn spec_parse(s: Seq<char>) -> ParseOutcome {
    spec_parse_with(s, parser::spec_default_options())
}

/// Parses an exposition document into a mapping with an entry per metric
/// family, under the given stricter-check options.
pub fn parse_with_options(data: &str, opts: parser::ParseOptions) -> (r: Result<
    parser::MetricFamilies,
    OmError,
>)
    ensures
        match spec_parse_with(data@, opts) {
            ParseOutcome::Families(m) => r matches Ok(f) && f@ == m && f.wf(),
            ParseOutcome::Rejected(e) => r matches Err(OmError::Parse(e2)) && e2 == e,
            ParseOutcome::LexFailed => r matches Err(OmError::LexError(_)),
        },
{
    match lexer::exposition(data) {
        None => Err(OmError::LexError("lexer failed".to_owned())),
        Some(tokens) => match parser::parse_with_options(tokens, opts) {
            Ok(f) => Ok(f),
            Err(e) => Err(OmError::Parse(e)),
        },
    }
}

/// Parses an exposition document into a mapping with an entry per metric
/// family.
pub fn parse(data: &str) -> (r: Result<parser::MetricFamilies, OmError>)
    ensures
        match spec_parse(data@) {
            ParseOutcome::Families(m) => r matches Ok(f) && f@ == m && f.wf(),
            ParseOutcome::Rejected(e) => r matches Err(OmError::Parse(e2)) && e2 == e,
            ParseOutcome::LexFailed => r matches Err(OmError::LexError(_)),
        },
{
    parse_with_options(data, parser::ParseOptions::default())
}

/// In every histogram family that `parse` accepts, bucket samples exist,
/// their thresholds rise strictly pair by pair (only a repeated final
/// `+Inf` bucket escapes the comparison), the final threshold is positive
/// infinity, and the bucket values never decrease.
pub proof fn lemma_parse_histogram_bucket_shape(
    s: Seq<char>,
    opts: parser::ParseOptions,
    m: Map<Seq<char>, parser::FamilyV>,
    name: Seq<char>,
)
    requires
        spec_parse_with(s, opts) == ParseOutcome::Families(m),
        m.contains_key(name),
        m[name].metric_type == parser::MetricType::Histogram,
    ensures
        parser::spec_buckets(m[name].samples).len() >= 1,
        num::f_is_pos_inf(parser::spec_buckets(m[name].samples).last().0),
        forall|i: int|
            1 <= i < parser::spec_buckets(m[name].samples).len() ==> num::f_lt(
                (#[trigger] parser::spec_buckets(m[name].samples)[i - 1]).0,
                parser::spec_buckets(m[name].samples)[i].0,
            ) || parser::spec_buckets(m[name].samples)[i - 1].0 == num::INF_BITS,
        parser::spec_bucket_values_ok(parser::spec_buckets(m[name].samples)),
{
    let ts = lexer::spec_lex(s).unwrap();
    parser::lemma_histogram_bucket_shape(ts, opts, m, name);
}

/// Every nonempty counter family that `parse` accepts has a sample of
/// kind `Total`.
pub proof fn lemma_parse_counter_has_total(
    s: Seq<char>,
    opts: parser::ParseOptions,
    m: Map<Seq<char>, parser::FamilyV>,
    name: Seq<char>,
)
    requires
        spec_parse_with(s, opts) == ParseOutcome::Families(m),
        m.contains_key(name),
        m[name].metric_type == parser::MetricType::Counter,
        m[name].samples.len() > 0,
    ensures
        exists|i: int|
            0 <= i < m[name].samples.len() && (#[trigger] m[name].samples[i]).kind
                == parser::SampleKind::Total,
{
    let ts = lexer::spec_lex(s).unwrap();
    parser::lemma_counter_has_total(ts, opts, m, name);
}

/// Every label of every sample and exemplar that `parse` accepts obeys
/// the length cap of the options in force.
pub proof fn lemma_parse_label_caps(
    s: Seq<char>,
    opts: parser::ParseOptions,
    m: Map<Seq<char>, parser::FamilyV>,
    name: Seq<char>,
)
    requires
        spec_parse_with(s, opts) == ParseOutcome::Families(m),
        m.contains_key(name),
    ensures
        forall|i: int|
            0 <= i < m[name].samples.len() ==> parser::spec_label_cap_ok(
                (#[trigger] m[name].samples[i]).labels,
                opts.naive_wide_char_support,
            ) && (m[name].samples[i].exemplar matches Some(e) ==> parser::spec_label_cap_ok(
                e.labels,
                opts.naive_wide_char_support,
            )),
{
    let ts = lexer::spec_lex(s).unwrap();
    parser::lemma_label_caps(ts, opts, m, name);
}

/// Parsing is deterministic: the outcome is a function of the input text
/// alone, so any two outcomes that `parse`'s contract assigns to equal
/// inputs coincide.
pub proof fn lemma_parse_deterministic(
    s1: Seq<char>,
    s2: Seq<char>,
    o1: ParseOutcome,
    o2: ParseOutcome,
)
    requires
        s1 == s2,
        o1 == spec_parse(s1),
        o2 == spec_parse(s2),
    ensures
        o1 == o2,
{
}

} // verus!
