//! Tokenizes an exposition document.  The input is split on line feeds;
//! every line but the last must be a metric descriptor, a sample, or the
//! EOF sentinel `# EOF`, and the last line must be the sentinel or empty.
//!
//! Each lexing function has a spec twin stating exactly which lines it
//! accepts and which token it yields; `spec_lex` is the whole lexer as one
//! function of the input.
use vstd::prelude::*;

pub mod types;

use crate::num::{Bits, f64_bits_of_text, spec_double_extent, NAN_BITS, INF_BITS, NEG_INF_BITS};
use crate::strutil::{has_lit_at, lit_at, string_from_chars};
use types::{
    spec_metric_name_at, spec_label_name_at, spec_escaped_string_at, spec_floatlike,
    spec_realnumber, ascii_alnum_end, metric_name_at, label_name_at, escaped_string_at,
    floatlike_at, realnumber_at, ascii_alnum_end_exec,
};

verus! {

/// An exemplar token: labels, a value, and an optional timestamp.
#[derive(Clone, Debug)]
pub struct Exemplar {
    pub labels: Vec<Label>,
    pub number: Bits,
    pub timestamp: Option<Bits>,
}

/// A lexed label.  A missing value (as opposed to an empty one) arises
/// only from malformed input and is dropped downstream.
#[derive(Clone, Debug)]
pub struct Label {
    pub name: String,
    pub value: Option<String>,
}

/// A lexed sample line.
#[derive(Clone, Debug)]
pub struct Sample {
    pub name: String,
    pub labels: Option<Vec<Label>>,
    pub number: MetricNumber,
    pub timestamp: Option<Bits>,
    pub exemplar: Option<Exemplar>,
}

/// A metric descriptor line: `# TYPE`, `# HELP` or `# UNIT`.
#[derive(Clone, Debug)]
pub enum MetricDescriptor {
    Type { metric_name: String, metric_type: MetricType },
    Help { metric_name: String, help_text: Option<String> },
    Unit { metric_name: String, unit: Option<String> },
}

/// A metric value.  The lexer always yields `Float`: the numeric grammar
/// subsumes every integer form, so nothing is left for an integer
/// alternative to match; the variant remains for tokens built directly by
/// a caller, and the builder folds it to the nearest double.
#[derive(Clone, Copy, Debug, PartialEq, Eq, Structural)]
pub enum MetricNumber {
    Float(Bits),
    Integer(i64),
}

/// One lexed logical line.
#[derive(Clone, Debug)]
pub enum MetricToken {
    Descriptor(MetricDescriptor),
    Metric(Sample),
    Eof,
    Empty,
}

/// The declared type of a metric family.
#[derive(Clone, Copy, Debug, PartialEq, Eq, Structural)]
pub enum MetricType {
    Counter,
    Gauge,
    Histogram,
    GaugeHistogram,
    StateSet,
    Info,
    Summary,
    Unknown,
}

/// Spec view of a lexed label.
pub ghost struct LabelV {
    pub name: Seq<char>,
    pub value: Option<Seq<char>>,
}

/// Spec view of an exemplar token.
pub ghost struct ExemplarV {
    pub labels: Seq<LabelV>,
    pub number: Bits,
    pub timestamp: Option<Bits>,
}

/// Spec view of a sample token.
pub ghost struct SampleV {
    pub name: Seq<char>,
    pub labels: Option<Seq<LabelV>>,
    pub number: MetricNumber,
    pub timestamp: Option<Bits>,
    pub exemplar: Option<ExemplarV>,
}

/// Spec view of a descriptor token.
pub ghost enum DescriptorV {
    Type { name: Seq<char>, metric_type: MetricType },
    Help { name: Seq<char>, text: Option<Seq<char>> },
    Unit { name: Seq<char>, unit: Option<Seq<char>> },
}

/// Spec view of a lexed line.
pub ghost enum TokenV {
    Descriptor(DescriptorV),
    Metric(SampleV),
    Eof,
    Empty,
}

impl View for Label {
    type V = LabelV;

    open spec fn view(&self) -> LabelV {
        LabelV {
            name: self.name@,
            value: match self.value {
                Some(v) => Some(v@),
                None => None,
            },
        }
    }
}

pub open spec fn labels_view(l: Seq<Label>) -> Seq<LabelV> {
    l.map_values(|x: Label| x@)
}

impl View for Exemplar {
    type V = ExemplarV;

    open spec fn view(&self) -> ExemplarV {
        ExemplarV {
            labels: labels_view(self.labels@),
            number: self.number,
            timestamp: self.timestamp,
        }
    }
}

impl View for Sample {
    type V = SampleV;

    open spec fn view(&self) -> SampleV {
        SampleV {
            name: self.name@,
            labels: match self.labels {
                Some(v) => Some(labels_view(v@)),
                None => None,
            },
            number: self.number,
            timestamp: self.timestamp,
            exemplar: match self.exemplar {
                Some(e) => Some(e@),
                None => None,
            },
        }
    }
}

impl View for MetricDescriptor {
    type V = DescriptorV;

    open spec fn view(&self) -> DescriptorV {
        match self {
            MetricDescriptor::Type { metric_name, metric_type } => DescriptorV::Type {
                name: metric_name@,
                metric_type: *metric_type,
            },
            MetricDescriptor::Help { metric_name, help_text } => DescriptorV::Help {
                name: metric_name@,
                text: match help_text {
                    Some(t) => Some(t@),
                    None => None,
                },
            },
            MetricDescriptor::Unit { metric_name, unit } => DescriptorV::Unit {
                name: metric_name@,
                unit: match unit {
                    Some(u) => Some(u@),
                    None => None,
                },
            },
        }
    }
}

impl View for MetricToken {
    type V = TokenV;

    open spec fn view(&self) -> TokenV {
        match self {
            MetricToken::Descriptor(d) => TokenV::Descriptor(d@),
            MetricToken::Metric(s) => TokenV::Metric(s@),
            MetricToken::Eof => TokenV::Eof,
            MetricToken::Empty => TokenV::Empty,
        }
    }
}

pub open spec fn tokens_view(ts: Seq<MetricToken>) -> Seq<TokenV> {
    ts.map_values(|t: MetricToken| t@)
}

/// The label token at `i`: a label name, `=`, and a quoted value; a value
/// whose body fails to parse right at the opening quote is recorded as
/// absent.
pub open spec fn spec_label_at(s: Seq<char>, i: int) -> Option<(LabelV, int)> {
    match spec_label_name_at(s, i) {
        None => None,
        Some(ne) => if ne + 1 < s.len() && s[ne] == '=' && s[ne + 1] == '"' {
            let v0 = ne + 2;
            match spec_escaped_string_at(s, v0) {
                Some(e) => if e < s.len() && s[e] == '"' {
                    Some(
                        (
                            LabelV { name: s.subrange(i, ne), value: Some(s.subrange(v0, e)) },
                            e + 1,
                        ),
                    )
                } else {
                    None
                },
                None => if v0 < s.len() && s[v0] == '"' {
                    Some((LabelV { name: s.subrange(i, ne), value: None }, v0 + 1))
                } else {
                    None
                },
            }
        } else {
            None
        },
    }
}

/// The comma-separated labels after the first one; `acc` carries what is
/// already parsed.  The guard on the parsed extent only serves
/// termination: a label token always consumes past the comma.
pub open spec fn spec_labels_more(s: Seq<char>, j: int, acc: Seq<LabelV>) -> (Seq<LabelV>, int)
    decreases s.len() - j when 0 <= j <= s.len()
{
    if j < s.len() && s[j] == ',' {
        match spec_label_at(s, j + 1) {
            Some((l, k)) => if j + 1 < k <= s.len() {
                spec_labels_more(s, k, acc.push(l))
            } else {
                (acc, j)
            },
            None => (acc, j),
        }
    } else {
        (acc, j)
    }
}

/// A possibly empty comma-separated label list at `i`, as the list
/// combinator parses it: it never fails, it stops before the first
/// separator not followed by a label.
pub open spec fn spec_labels_at(s: Seq<char>, i: int) -> (Seq<LabelV>, int) {
    match spec_label_at(s, i) {
        None => (Seq::empty(), i),
        Some((l, j)) => spec_labels_more(s, j, seq![l]),
    }
}

/// A brace-enclosed label set at `i`, if a brace opens there; an empty
/// list is canonicalized to no labels at all.
pub open spec fn spec_sample_labels_at(s: Seq<char>, i: int) -> Option<
    (Option<Seq<LabelV>>, int),
> {
    if i < s.len() && s[i] == '{' {
        let r = spec_labels_at(s, i + 1);
        if r.1 < s.len() && s[r.1] == '}' {
            Some(
                (
                    if r.0.len() > 0 {
                        Some(r.0)
                    } else {
                        None
                    },
                    r.1 + 1,
                ),
            )
        } else {
            None
        }
    } else {
        Some((None, i))
    }
}

/// The exemplar token at `i`: ` # `, a brace-enclosed label list, a value,
/// and an optional timestamp.
pub open spec fn spec_exemplar_at(s: Seq<char>, i: int) -> Option<(ExemplarV, int)> {
    if has_lit_at(s, i, " # "@) && i + 3 < s.len() && s[i + 3] == '{' {
        let r = spec_labels_at(s, i + 4);
        if r.1 + 1 < s.len() && s[r.1] == '}' && s[r.1 + 1] == ' ' {
            match spec_floatlike(s.skip(r.1 + 2)) {
                Some((b, n)) => {
                    let ne = r.1 + 2 + n;
                    if ne < s.len() && s[ne] == ' ' {
                        match spec_realnumber(s.skip(ne + 1)) {
                            Some((tb, tn)) => Some(
                                (
                                    ExemplarV { labels: r.0, number: b, timestamp: Some(tb) },
                                    ne + 1 + tn,
                                ),
                            ),
                            None => Some(
                                (ExemplarV { labels: r.0, number: b, timestamp: None }, ne),
                            ),
                        }
                    } else {
                        Some((ExemplarV { labels: r.0, number: b, timestamp: None }, ne))
                    }
                },
                None => None,
            }
        } else {
            None
        }
    } else {
        None
    }
}

/// A whole sample line: name, optional labels, value, optional timestamp,
/// optional exemplar, end of line.
pub open spec fn spec_sample_line(s: Seq<char>) -> Option<SampleV> {
    match spec_metric_name_at(s, 0) {
        None => None,
        Some(ne) => match spec_sample_labels_at(s, ne) {
            None => None,
            Some((labels, p)) => if p < s.len() && s[p] == ' ' {
                match spec_floatlike(s.skip(p + 1)) {
                    None => None,
                    Some((b, n)) => {
                        let ve = p + 1 + n;
                        let ts: (Option<Bits>, int) = if ve < s.len() && s[ve] == ' ' {
                            match spec_realnumber(s.skip(ve + 1)) {
                                Some((tb, tn)) => (Some(tb), ve + 1 + tn),
                                None => (None, ve),
                            }
                        } else {
                            (None, ve)
                        };
                        if ts.1 == s.len() {
                            Some(
                                SampleV {
                                    name: s.subrange(0, ne),
                                    labels,
                                    number: MetricNumber::Float(b),
                                    timestamp: ts.0,
                                    exemplar: None,
                                },
                            )
                        } else {
                            match spec_exemplar_at(s, ts.1) {
                                Some((ex, e)) => if e == s.len() {
                                    Some(
                                        SampleV {
                                            name: s.subrange(0, ne),
                                            labels,
                                            number: MetricNumber::Float(b),
                                            timestamp: ts.0,
                                            exemplar: Some(ex),
                                        },
                                    )
                                } else {
                                    None
                                },
                                None => None,
                            }
                        }
                    },
                }
            } else {
                None
            },
        },
    }
}

/// The metric-type keyword at `i`; `gaugehistogram` is tried before its
/// prefix `gauge`.
pub open spec fn spec_metric_type_at(s: Seq<char>, i: int) -> Option<(MetricType, int)> {
    if has_lit_at(s, i, "counter"@) {
        Some((MetricType::Counter, i + 7))
    } else if has_lit_at(s, i, "gaugehistogram"@) {
        Some((MetricType::GaugeHistogram, i + 14))
    } else if has_lit_at(s, i, "gauge"@) {
        Some((MetricType::Gauge, i + 5))
    } else if has_lit_at(s, i, "histogram"@) {
        Some((MetricType::Histogram, i + 9))
    } else if has_lit_at(s, i, "stateset"@) {
        Some((MetricType::StateSet, i + 8))
    } else if has_lit_at(s, i, "info"@) {
        Some((MetricType::Info, i + 4))
    } else if has_lit_at(s, i, "summary"@) {
        Some((MetricType::Summary, i + 7))
    } else if has_lit_at(s, i, "unknown"@) {
        Some((MetricType::Unknown, i + 7))
    } else {
        None
    }
}

/// The rest of a `# TYPE` line after the keyword and its space: a metric
/// name, a space, a type keyword, end of line.
pub open spec fn spec_type_rest(s: Seq<char>, p: int) -> Option<DescriptorV> {
    match spec_metric_name_at(s, p) {
        None => None,
        Some(ne) => if ne < s.len() && s[ne] == ' ' {
            match spec_metric_type_at(s, ne + 1) {
                Some((t, q)) => if q == s.len() {
                    Some(DescriptorV::Type { name: s.subrange(p, ne), metric_type: t })
                } else {
                    None
                },
                None => None,
            }
        } else {
            None
        },
    }
}

/// The rest of a `# HELP` line: a metric name, a space, an escaped string
/// reaching the end of the line; empty help collapses to absent.
pub open spec fn spec_help_rest(s: Seq<char>, p: int) -> Option<DescriptorV> {
    match spec_metric_name_at(s, p) {
        None => None,
        Some(ne) => if ne < s.len() && s[ne] == ' ' {
            match spec_escaped_string_at(s, ne + 1) {
                Some(e) => if e == s.len() {
                    Some(
                        DescriptorV::Help {
                            name: s.subrange(p, ne),
                            text: if e > ne + 1 {
                                Some(s.subrange(ne + 1, e))
                            } else {
                                None
                            },
                        },
                    )
                } else {
                    None
                },
                None => None,
            }
        } else {
            None
        },
    }
}

/// The rest of a `# UNIT` line: a metric name alone, or a metric name, a
/// space and a nonempty ASCII alphanumeric unit reaching the end of the
/// line.
pub open spec fn spec_unit_rest(s: Seq<char>, p: int) -> Option<DescriptorV> {
    match spec_metric_name_at(s, p) {
        None => None,
        Some(ne) => if ne == s.len() {
            Some(DescriptorV::Unit { name: s.subrange(p, ne), unit: None })
        } else if s[ne] == ' ' {
            let ue = ascii_alnum_end(s, ne + 1);
            if ue > ne + 1 && ue == s.len() {
                Some(DescriptorV::Unit { name: s.subrange(p, ne), unit: Some(s.subrange(ne + 1, ue)) })
            } else {
                None
            }
        } else {
            None
        },
    }
}

/// A whole descriptor line.
pub open spec fn spec_descriptor_line(s: Seq<char>) -> Option<DescriptorV> {
    if has_lit_at(s, 0, "# "@) {
        if has_lit_at(s, 2, "TYPE "@) {
            spec_type_rest(s, 7)
        } else if has_lit_at(s, 2, "HELP "@) {
            spec_help_rest(s, 7)
        } else if has_lit_at(s, 2, "UNIT "@) {
            spec_unit_rest(s, 7)
        } else {
            None
        }
    } else {
        None
    }
}

/// A line before the last: a descriptor, a sample, or the EOF sentinel.
pub open spec fn spec_mid_line(s: Seq<char>) -> Option<TokenV> {
    if spec_descriptor_line(s) is Some {
        Some(TokenV::Descriptor(spec_descriptor_line(s).unwrap()))
    } else if spec_sample_line(s) is Some {
        Some(TokenV::Metric(spec_sample_line(s).unwrap()))
    } else if s == "# EOF"@ {
        Some(TokenV::Eof)
    } else {
        None
    }
}

/// The last line: the EOF sentinel or nothing at all.
pub open spec fn spec_last_line(s: Seq<char>) -> Option<TokenV> {
    if s == "# EOF"@ {
        Some(TokenV::Eof)
    } else if s.len() == 0 {
        Some(TokenV::Empty)
    } else {
        None
    }
}

/// The first position at or after `i` that holds a line feed.
pub open spec fn line_feed_at(s: Seq<char>, i: int) -> int
    decreases s.len() - i when 0 <= i <= s.len()
{
    if i < s.len() && s[i] != '\n' {
        line_feed_at(s, i + 1)
    } else {
        i
    }
}

/// The lines of `s`, split on line feeds; always at least one.
pub open spec fn spec_split_lines(s: Seq<char>) -> Seq<Seq<char>>
    decreases s.len(),
{
    let j = line_feed_at(s, 0);
    if 0 <= j < s.len() {
        seq![s.take(j)] + spec_split_lines(s.skip(j + 1))
    } else {
        seq![s]
    }
}

/// Lexes a list of lines, the last with the last-line grammar.
pub open spec fn spec_lex_lines(lines: Seq<Seq<char>>) -> Option<Seq<TokenV>>
    decreases lines.len(),
{
    if lines.len() == 0 {
        Some(Seq::empty())
    } else if lines.len() == 1 {
        match spec_last_line(lines[0]) {
            Some(t) => Some(seq![t]),
            None => None,
        }
    } else {
        match spec_mid_line(lines[0]) {
            Some(t) => match spec_lex_lines(lines.skip(1)) {
                Some(r) => Some(seq![t] + r),
                None => None,
            },
            None => None,
        }
    }
}

/// The whole lexer: the token of every line of the input, or nothing where
/// some line fails.
pub open spec fn spec_lex(s: Seq<char>) -> Option<Seq<TokenV>> {
    spec_lex_lines(spec_split_lines(s))
}

/// An owned copy of `line[i..j]`.
fn slice_string(line: &Vec<char>, i: usize, j: usize) -> (r: String)
    requires
        i <= j <= line.len(),
    ensures
        r@ == line@.subrange(i as int, j as int),
{
    string_from_chars(vstd::slice::slice_subrange(line.as_slice(), i, j))
}

/// Whether the line is exactly `lit`.
fn line_is(line: &Vec<char>, lit: &str) -> (r: bool)
    ensures
        r == (line@ == lit@),
{
    let m = lit.unicode_len();
    if line.len() != m {
        proof {
            assert(line@ != lit@);
        }
        return false;
    }
    let r = lit_at(line, 0, lit);
    proof {
        if r {
            assert(line@ =~= lit@);
        } else {
            assert(!has_lit_at(line@, 0, lit@));
            if line@ == lit@ {
                assert(line@.subrange(0, m as int) =~= lit@);
            }
        }
    }
    r
}

pub fn label_at_exec(line: &Vec<char>, i: usize) -> (r: Option<(Label, usize)>)
    requires
        i <= line.len(),
    ensures
        match spec_label_at(line@, i as int) {
            Some(p) => r matches Some(q) && q.0@ == p.0 && q.1 as int == p.1 && i + 1 < q.1
                <= line.len(),
            None => r is None,
        },
{
    let n = line.len();
    match label_name_at(line, i) {
        None => None,
        Some(ne) => {
            if n - ne > 1 && line[ne] == '=' && line[ne + 1] == '"' {
                let v0 = ne + 2;
                match escaped_string_at(line, v0) {
                    Some(e) => {
                        if e < n && line[e] == '"' {
                            let name = slice_string(line, i, ne);
                            let value = slice_string(line, v0, e);
                            Some((Label { name, value: Some(value) }, e + 1))
                        } else {
                            None
                        }
                    },
                    None => {
                        if v0 < n && line[v0] == '"' {
                            let name = slice_string(line, i, ne);
                            Some((Label { name, value: None }, v0 + 1))
                        } else {
                            None
                        }
                    },
                }
            } else {
                None
            }
        },
    }
}

pub fn labels_at_exec(line: &Vec<char>, i: usize) -> (r: (Vec<Label>, usize))
    requires
        i <= line.len(),
    ensures
        labels_view(r.0@) == spec_labels_at(line@, i as int).0,
        r.1 as int == spec_labels_at(line@, i as int).1,
        i <= r.1 <= line.len(),
{
    let n = line.len();
    match label_at_exec(line, i) {
        None => {
            proof {
                assert(labels_view(Seq::<Label>::empty()) =~= Seq::<LabelV>::empty());
            }
            (Vec::new(), i)
        },
        Some((l, j)) => {
            let mut acc: Vec<Label> = Vec::new();
            let ghost lv = l@;
            acc.push(l);
            proof {
                assert(labels_view(acc@) =~= seq![lv]);
            }
            let mut cur: usize = j;
            loop
                invariant
                    i <= cur <= n,
                    n == line@.len(),
                    spec_labels_more(line@, cur as int, labels_view(acc@)) == spec_labels_at(
                        line@,
                        i as int,
                    ),
                ensures
                    i <= cur <= n,
                    spec_labels_at(line@, i as int) == (labels_view(acc@), cur as int),
                decreases n - cur,
            {
                if cur < n && line[cur] == ',' {
                    match label_at_exec(line, cur + 1) {
                        Some((l2, k)) => {
                            let ghost pre = labels_view(acc@);
                            let ghost l2v = l2@;
                            acc.push(l2);
                            proof {
                                assert(labels_view(acc@) =~= pre.push(l2v));
                            }
                            cur = k;
                        },
                        None => {
                            break ;
                        },
                    }
                } else {
                    break ;
                }
            }
            (acc, cur)
        },
    }
}

pub fn sample_labels_at_exec(line: &Vec<char>, i: usize) -> (r: Option<
    (Option<Vec<Label>>, usize),
>)
    requires
        i <= line.len(),
    ensures
        match spec_sample_labels_at(line@, i as int) {
            Some(p) => r matches Some(q) && q.1 as int == p.1 && i <= q.1 <= line.len() && (match (
                q.0,
                p.0,
            ) {
                (Some(v), Some(s)) => labels_view(v@) == s,
                (None, None) => true,
                _ => false,
            }),
            None => r is None,
        },
{
    let n = line.len();
    if i < n && line[i] == '{' {
        let (ls, q) = labels_at_exec(line, i + 1);
        if q < n && line[q] == '}' {
            if ls.len() > 0 {
                Some((Some(ls), q + 1))
            } else {
                proof {
                    assert(labels_view(ls@).len() == 0);
                }
                Some((None, q + 1))
            }
        } else {
            None
        }
    } else {
        Some((None, i))
    }
}

pub fn exemplar_at_exec(line: &Vec<char>, i: usize) -> (r: Option<(Exemplar, usize)>)
    requires
        i <= line.len(),
    ensures
        match spec_exemplar_at(line@, i as int) {
            Some(p) => r matches Some(q) && q.0@ == p.0 && q.1 as int == p.1 && q.1 <= line.len(),
            None => r is None,
        },
{
    proof {
        reveal_strlit(" # ");
    }
    let n = line.len();
    if lit_at(line, i, " # ") && n - i > 3 && line[i + 3] == '{' {
        let (ls, q) = labels_at_exec(line, i + 4);
        if n - q > 1 && line[q] == '}' && line[q + 1] == ' ' {
            match floatlike_at(line, q + 2) {
                Some((b, ve)) => {
                    if ve < n && line[ve] == ' ' {
                        match realnumber_at(line, ve + 1) {
                            Some((tb, te)) => Some(
                                (Exemplar { labels: ls, number: b, timestamp: Some(tb) }, te),
                            ),
                            None => Some(
                                (Exemplar { labels: ls, number: b, timestamp: None }, ve),
                            ),
                        }
                    } else {
                        Some((Exemplar { labels: ls, number: b, timestamp: None }, ve))
                    }
                },
                None => None,
            }
        } else {
            None
        }
    } else {
        None
    }
}

pub fn sample_line_exec(line: &Vec<char>) -> (r: Option<Sample>)
    ensures
        match spec_sample_line(line@) {
            Some(v) => r matches Some(x) && x@ == v,
            None => r is None,
        },
{
    let n = line.len();
    match metric_name_at(line, 0) {
        None => None,
        Some(ne) => match sample_labels_at_exec(line, ne) {
            None => None,
            Some((labels, p)) => {
                if p < n && line[p] == ' ' {
                    match floatlike_at(line, p + 1) {
                        None => None,
                        Some((b, ve)) => {
                            let (ts, t_end): (Option<Bits>, usize) = if ve < n && line[ve]
                                == ' ' {
                                match realnumber_at(line, ve + 1) {
                                    Some((tb, te)) => (Some(tb), te),
                                    None => (None, ve),
                                }
                            } else {
                                (None, ve)
                            };
                            if t_end == n {
                                Some(
                                    Sample {
                                        name: slice_string(line, 0, ne),
                                        labels,
                                        number: MetricNumber::Float(b),
                                        timestamp: ts,
                                        exemplar: None,
                                    },
                                )
                            } else {
                                match exemplar_at_exec(line, t_end) {
                                    Some((ex, e)) => {
                                        if e == n {
                                            Some(
                                                Sample {
                                                    name: slice_string(line, 0, ne),
                                                    labels,
                                                    number: MetricNumber::Float(b),
                                                    timestamp: ts,
                                                    exemplar: Some(ex),
                                                },
                                            )
                                        } else {
                                            None
                                        }
                                    },
                                    None => None,
                                }
                            }
                        },
                    }
                } else {
                    None
                }
            },
        },
    }
}

pub fn metric_type_at_exec(line: &Vec<char>, i: usize) -> (r: Option<(MetricType, usize)>)
    requires
        i <= line.len(),
    ensures
        match spec_metric_type_at(line@, i as int) {
            Some(p) => r matches Some(q) && q.0 == p.0 && q.1 as int == p.1 && q.1 <= line.len(),
            None => r is None,
        },
{
    proof {
        reveal_strlit("counter");
        reveal_strlit("gaugehistogram");
        reveal_strlit("gauge");
        reveal_strlit("histogram");
        reveal_strlit("stateset");
        reveal_strlit("info");
        reveal_strlit("summary");
        reveal_strlit("unknown");
    }
    if lit_at(line, i, "counter") {
        Some((MetricType::Counter, i + 7))
    } else if lit_at(line, i, "gaugehistogram") {
        Some((MetricType::GaugeHistogram, i + 14))
    } else if lit_at(line, i, "gauge") {
        Some((MetricType::Gauge, i + 5))
    } else if lit_at(line, i, "histogram") {
        Some((MetricType::Histogram, i + 9))
    } else if lit_at(line, i, "stateset") {
        Some((MetricType::StateSet, i + 8))
    } else if lit_at(line, i, "info") {
        Some((MetricType::Info, i + 4))
    } else if lit_at(line, i, "summary") {
        Some((MetricType::Summary, i + 7))
    } else if lit_at(line, i, "unknown") {
        Some((MetricType::Unknown, i + 7))
    } else {
        None
    }
}

fn type_rest_exec(line: &Vec<char>, p: usize) -> (r: Option<MetricDescriptor>)
    requires
        p <= line.len(),
    ensures
        match spec_type_rest(line@, p as int) {
            Some(v) => r matches Some(x) && x@ == v,
            None => r is None,
        },
{
    let n = line.len();
    match metric_name_at(line, p) {
        None => None,
        Some(ne) => {
            if ne < n && line[ne] == ' ' {
                match metric_type_at_exec(line, ne + 1) {
                    Some((t, q)) => {
                        if q == n {
                            Some(
                                MetricDescriptor::Type {
                                    metric_name: slice_string(line, p, ne),
                                    metric_type: t,
                                },
                            )
                        } else {
                            None
                        }
                    },
                    None => None,
                }
            } else {
                None
            }
        },
    }
}

fn help_rest_exec(line: &Vec<char>, p: usize) -> (r: Option<MetricDescriptor>)
    requires
        p <= line.len(),
    ensures
        match spec_help_rest(line@, p as int) {
            Some(v) => r matches Some(x) && x@ == v,
            None => r is None,
        },
{
    let n = line.len();
    match metric_name_at(line, p) {
        None => None,
        Some(ne) => {
            if ne < n && line[ne] == ' ' {
                match escaped_string_at(line, ne + 1) {
                    Some(e) => {
                        if e == n {
                            let text = if e > ne + 1 {
                                Some(slice_string(line, ne + 1, e))
                            } else {
                                None
                            };
                            Some(
                                MetricDescriptor::Help {
                                    metric_name: slice_string(line, p, ne),
                                    help_text: text,
                                },
                            )
                        } else {
                            None
                        }
                    },
                    None => None,
                }
            } else {
                None
            }
        },
    }
}

fn unit_rest_exec(line: &Vec<char>, p: usize) -> (r: Option<MetricDescriptor>)
    requires
        p <= line.len(),
    ensures
        match spec_unit_rest(line@, p as int) {
            Some(v) => r matches Some(x) && x@ == v,
            None => r is None,
        },
{
    let n = line.len();
    match metric_name_at(line, p) {
        None => None,
        Some(ne) => {
            if ne == n {
                Some(
                    MetricDescriptor::Unit { metric_name: slice_string(line, p, ne), unit: None },
                )
            } else if line[ne] == ' ' {
                let ue = ascii_alnum_end_exec(line, ne + 1);
                if ue > ne + 1 && ue == n {
                    Some(
                        MetricDescriptor::Unit {
                            metric_name: slice_string(line, p, ne),
                            unit: Some(slice_string(line, ne + 1, ue)),
                        },
                    )
                } else {
                    None
                }
            } else {
                None
            }
        },
    }
}

pub fn descriptor_line_exec(line: &Vec<char>) -> (r: Option<MetricDescriptor>)
    ensures
        match spec_descriptor_line(line@) {
            Some(v) => r matches Some(x) && x@ == v,
            None => r is None,
        },
{
    proof {
        reveal_strlit("# ");
        reveal_strlit("TYPE ");
        reveal_strlit("HELP ");
        reveal_strlit("UNIT ");
    }
    if !lit_at(line, 0, "# ") {
        return None;
    }
    if lit_at(line, 2, "TYPE ") {
        type_rest_exec(line, 7)
    } else if lit_at(line, 2, "HELP ") {
        help_rest_exec(line, 7)
    } else if lit_at(line, 2, "UNIT ") {
        unit_rest_exec(line, 7)
    } else {
        None
    }
}

pub fn lex_mid_line(line: &Vec<char>) -> (r: Option<MetricToken>)
    ensures
        match spec_mid_line(line@) {
            Some(t) => r matches Some(x) && x@ == t,
            None => r is None,
        },
{
    match descriptor_line_exec(line) {
        Some(d) => Some(MetricToken::Descriptor(d)),
        None => match sample_line_exec(line) {
            Some(s) => Some(MetricToken::Metric(s)),
            None => {
                if line_is(line, "# EOF") {
                    Some(MetricToken::Eof)
                } else {
                    None
                }
            },
        },
    }
}

pub fn lex_last_line(line: &Vec<char>) -> (r: Option<MetricToken>)
    ensures
        match spec_last_line(line@) {
            Some(t) => r matches Some(x) && x@ == t,
            None => r is None,
        },
{
    if line_is(line, "# EOF") {
        Some(MetricToken::Eof)
    } else if line.len() == 0 {
        Some(MetricToken::Empty)
    } else {
        None
    }
}

fn line_feed_exec(cs: &Vec<char>, i: usize) -> (j: usize)
    requires
        i <= cs.len(),
    ensures
        j as int == line_feed_at(cs@, i as int),
        i <= j <= cs.len(),
{
    let mut j: usize = i;
    loop
        invariant
            i <= j <= cs@.len(),
            line_feed_at(cs@, i as int) == line_feed_at(cs@, j as int),
        ensures
            i <= j <= cs@.len(),
            j as int == line_feed_at(cs@, i as int),
        decreases cs@.len() - j,
    {
        if j >= cs.len() {
            break ;
        }
        if cs[j] != '\n' {
            j = j + 1;
        } else {
            break ;
        }
    }
    j
}

proof fn lemma_line_feed_shift(s: Seq<char>, cur: int, i: int)
    requires
        0 <= cur,
        0 <= i,
        cur + i <= s.len(),
    ensures
        line_feed_at(s.skip(cur), i) == line_feed_at(s, cur + i) - cur,
    decreases s.len() - cur - i,
{
    let u = s.skip(cur);
    if cur + i < s.len() && s[cur + i] != '\n' {
        lemma_line_feed_shift(s, cur, i + 1);
    }
}

/// Lexes a whole exposition document into its tokens; `None` where some
/// line fails the grammar.
pub fn exposition(input: &str) -> (r: Option<Vec<MetricToken>>)
    ensures
        match spec_lex(input@) {
            Some(ts) => r matches Some(v) && tokens_view(v@) == ts,
            None => r is None,
        },
{
    let cs = crate::strutil::chars_of(input);
    let n = cs.len();
    let mut tokens: Vec<MetricToken> = Vec::new();
    let mut cur: usize = 0;
    proof {
        assert(input@.skip(0) =~= input@);
        assert(tokens_view(tokens@) =~= Seq::<TokenV>::empty());
    }
    loop
        invariant
            cur <= n,
            n == cs@.len(),
            cs@ == input@,
            match spec_lex_lines(spec_split_lines(input@.skip(cur as int))) {
                Some(rest) => spec_lex(input@) matches Some(all) && all == tokens_view(tokens@)
                    + rest,
                None => spec_lex(input@) is None,
            },
        decreases n - cur,
    {
        let j = line_feed_exec(&cs, cur);
        let line: Vec<char> = vstd::slice::slice_to_vec(
            vstd::slice::slice_subrange(cs.as_slice(), cur, j),
        );
        let ghost u = input@.skip(cur as int);
        let ghost j0 = j - cur;
        let ghost lines = spec_split_lines(u);
        proof {
            lemma_line_feed_shift(input@, cur as int, 0);
            assert(line_feed_at(u, 0) == j0);
            assert(line@ =~= u.take(j0));
        }
        if j < n {
            let ghost rest_lines = spec_split_lines(u.skip(j0 + 1));
            proof {
                assert(input@.skip(j + 1) =~= u.skip(j0 + 1));
                assert(0 <= j0 < u.len());
                assert(lines == seq![u.take(j0)] + rest_lines);
                lemma_split_nonempty(u.skip(j0 + 1));
                assert(lines.len() >= 2);
                assert(lines[0] == u.take(j0));
                assert(lines[0] == line@);
                assert(lines.skip(1) =~= rest_lines);
            }
            match lex_mid_line(&line) {
                Some(t) => {
                    let ghost pre = tokens_view(tokens@);
                    let ghost tv = t@;
                    tokens.push(t);
                    proof {
                        assert(tokens_view(tokens@) =~= pre.push(tv));
                        if let Some(rest) = spec_lex_lines(rest_lines) {
                            assert(spec_lex_lines(lines) == Some(seq![tv] + rest));
                            assert(pre + (seq![tv] + rest) =~= pre.push(tv) + rest);
                        } else {
                            assert(spec_lex_lines(lines) is None);
                        }
                    }
                    cur = j + 1;
                },
                None => {
                    proof {
                        assert(spec_lex_lines(lines) is None);
                    }
                    return None;
                },
            }
        } else {
            proof {
                assert(j0 == u.len());
                assert(!(0 <= j0 < u.len()));
                assert(lines == seq![u]);
                assert(lines.len() == 1);
                assert(lines[0] == u);
                assert(line@ =~= u);
            }
            match lex_last_line(&line) {
                Some(t) => {
                    let ghost pre = tokens_view(tokens@);
                    let ghost tv = t@;
                    tokens.push(t);
                    proof {
                        assert(tokens_view(tokens@) =~= pre.push(tv));
                        assert(spec_lex_lines(lines) == Some(seq![tv]));
                        assert(pre + seq![tv] =~= pre.push(tv));
                    }
                    return Some(tokens);
                },
                None => {
                    proof {
                        assert(spec_lex_lines(lines) is None);
                    }
                    return None;
                },
            }
        }
    }
}

proof fn lemma_split_nonempty(s: Seq<char>)
    ensures
        spec_split_lines(s).len() >= 1,
{
    let j = line_feed_at(s, 0);
    if 0 <= j < s.len() {
        assert(spec_split_lines(s) == seq![s.take(j)] + spec_split_lines(s.skip(j + 1)));
    } else {
        assert(spec_split_lines(s) == seq![s]);
    }
}

} // verus!
