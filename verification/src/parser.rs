//! Parses the token stream into metric families and performs the
//! cross-sample validation the OpenMetrics format asks for.
//!
//! The builder is a fold over the tokens; every exec step has a spec twin,
//! and `spec_parse_tokens` is the whole validator as one function of the
//! token sequence.
use vstd::prelude::*;

use crate::lexer;
use crate::num::{
    f64_bits_of_text, f_eq, f_is_inf, f_is_nan, f_is_neg, f_is_pos_inf, f_key, f_le, f_lt, f_mag,
    eq_bits, is_inf_bits, is_nan_bits, is_neg_bits, le_bits, lt_bits,
    i64_to_f64_bits, spec_i64_dec, spec_double_extent, nom_double_prefix, Bits, INF_BITS, INF_MAG,
    ONE_BITS, ZERO_BITS,
};
use crate::strutil::{
    spec_utf8_len,
    spec_ends_with, spec_utf8_len_seq, str_ends_with, str_eq, string_from_chars, utf8_len_str,
    chars_of,
};

verus! {

/// The declared type of a metric family; the default is `Unknown`.
#[derive(Clone, Copy, Debug, PartialEq, Eq, Structural)]
pub enum MetricType {
    /// Counters measure discrete events.
    Counter,
    /// Gauges are current measurements.
    Gauge,
    /// GaugeHistograms measure current distributions.
    GaugeHistogram,
    /// Histograms measure distributions of discrete events.
    Histogram,
    /// Info metrics expose textual information that should not change.
    Info,
    /// StateSets represent a series of related boolean values.
    StateSet,
    /// Summaries measure distributions via precomputed quantiles.
    Summary,
    /// Unknown is for metrics whose type cannot be determined.
    Unknown,
}

impl MetricType {
    /// The lexer's type keyword, carried over.
    pub fn of_lexer(l: lexer::MetricType) -> (r: MetricType)
        ensures
            r == spec_type_of_lexer(l),
    {
        match l {
            lexer::MetricType::Counter => MetricType::Counter,
            lexer::MetricType::Gauge => MetricType::Gauge,
            lexer::MetricType::Histogram => MetricType::Histogram,
            lexer::MetricType::GaugeHistogram => MetricType::GaugeHistogram,
            lexer::MetricType::StateSet => MetricType::StateSet,
            lexer::MetricType::Info => MetricType::Info,
            lexer::MetricType::Summary => MetricType::Summary,
            lexer::MetricType::Unknown => MetricType::Unknown,
        }
    }
}

pub open spec fn spec_type_of_lexer(l: lexer::MetricType) -> MetricType {
    match l {
        lexer::MetricType::Counter => MetricType::Counter,
        lexer::MetricType::Gauge => MetricType::Gauge,
        lexer::MetricType::Histogram => MetricType::Histogram,
        lexer::MetricType::GaugeHistogram => MetricType::GaugeHistogram,
        lexer::MetricType::StateSet => MetricType::StateSet,
        lexer::MetricType::Info => MetricType::Info,
        lexer::MetricType::Summary => MetricType::Summary,
        lexer::MetricType::Unknown => MetricType::Unknown,
    }
}

/// One distinct condition under which an exposition is rejected.
#[derive(Clone, Copy, Debug, PartialEq, Eq, Structural)]
pub enum ParseError {
    /// A `_bucket` sample lacks `le`, or its `le` value is unusable.
    BadBucket,
    /// Bucket thresholds out of order, or the final threshold is finite.
    BadBucketOrder,
    /// A counter-like value is NaN or negative where that is forbidden.
    BadCounter,
    /// A histogram family-level invariant is violated.
    BadHistogram,
    /// An info sample breaks the Info rules.
    BadInfo,
    /// A label's combined name and value length is over the cap.
    BadLabelTooLong,
    /// A quantile is NaN or outside `[0, 1]`.
    BadQuantile,
    /// A stateset sample breaks the StateSet rules.
    BadStateSet,
    /// A summary sample carries none of the allowed suffixes.
    BadSummary,
    /// An exemplar is attached to a sample that may not carry one.
    BadSuffix,
    /// Timestamps within one series are not monotonic (optional check).
    BadTimestampOutOfOrder,
    /// Repeated TYPE/HELP/UNIT, or metadata after samples.
    DuplicateMeta,
    /// The lexer produced a label with no value position.
    EmptyLabel,
    /// Content after `# EOF`, or the stream ended without it.
    Eof,
    /// A labelset's run of samples is not contiguous (optional check).
    Interleave,
    /// Reserved: a family declared without samples.
    MissingSample,
    /// A family name collides with another via a reserved suffix.
    NameConflict,
}

impl ParseError {
    /// A short description of the error.
    pub fn message(&self) -> &'static str {
        match self {
            ParseError::BadBucket => "bad bucket",
            ParseError::BadBucketOrder => "buckets must be sorted in increasing order of le",
            ParseError::BadCounter => "malformed counter metric family",
            ParseError::BadHistogram => "malformed histogram metric family",
            ParseError::BadInfo => "malformed info metric family",
            ParseError::BadLabelTooLong => "label too long",
            ParseError::BadQuantile => "malformed quantile sample",
            ParseError::BadStateSet => "malformed stateset metric family",
            ParseError::BadSummary => "malformed summary metric family",
            ParseError::BadSuffix => "invalid sample suffix",
            ParseError::BadTimestampOutOfOrder => "timestamps must increase monotonically",
            ParseError::DuplicateMeta => "duplicate metadata name/type/unit/help",
            ParseError::EmptyLabel => "empty label",
            ParseError::Eof => "noise after eof",
            ParseError::Interleave => "interleaved data",
            ParseError::MissingSample => "missing samples",
            ParseError::NameConflict => "metric family name conflict",
        }
    }
}

/// The optional stricter checks, all off by default.
#[derive(Clone, Copy, Debug, PartialEq, Eq, Structural)]
pub struct ParseOptions {
    /// Samples of one labelset must form a contiguous run.
    pub no_interleave_metric: bool,
    /// Timestamps within one series must exist and be non-decreasing.
    pub enforce_timestamp_monotonic: bool,
    /// A histogram's `_count` must equal its `+Inf` bucket value.
    pub validate_histogram_count: bool,
    /// Relax the label cap from 128 code points to 256 bytes.
    pub naive_wide_char_support: bool,
}

impl Default for ParseOptions {
    /// Every stricter check switched off.
    fn default() -> (r: ParseOptions)
        ensures
            r == spec_default_options(),
    {
        ParseOptions {
            no_interleave_metric: false,
            enforce_timestamp_monotonic: false,
            validate_histogram_count: false,
            naive_wide_char_support: false,
        }
    }
}

pub open spec fn spec_default_options() -> ParseOptions {
    ParseOptions {
        no_interleave_metric: false,
        enforce_timestamp_monotonic: false,
        validate_histogram_count: false,
        naive_wide_char_support: false,
    }
}

/// A validated label: name and unescaped value.
#[derive(Clone, Debug)]
pub struct Label {
    pub name: String,
    pub value: String,
}

/// A label set: insertion-ordered entries with pairwise distinct names,
/// viewed as a map from name to value.
#[derive(Clone, Debug)]
pub struct LabelMap {
    pub entries: Vec<Label>,
}

/// The map that an entry list denotes; a later entry wins over an earlier
/// one of the same name.
pub open spec fn lmap_of(es: Seq<Label>) -> Map<Seq<char>, Seq<char>>
    decreases es.len(),
{
    if es.len() == 0 {
        Map::empty()
    } else {
        lmap_of(es.drop_last()).insert(es.last().name@, es.last().value@)
    }
}

/// The entry names are pairwise distinct.
pub open spec fn lmap_wf(es: Seq<Label>) -> bool {
    forall|i: int, j: int| 0 <= i < j < es.len() ==> es[i].name@ != es[j].name@
}

impl View for LabelMap {
    type V = Map<Seq<char>, Seq<char>>;

    open spec fn view(&self) -> Map<Seq<char>, Seq<char>> {
        lmap_of(self.entries@)
    }
}

impl LabelMap {
    pub open spec fn wf(&self) -> bool {
        lmap_wf(self.entries@)
    }

    pub fn new() -> (r: LabelMap)
        ensures
            r@ == Map::<Seq<char>, Seq<char>>::empty(),
            r.wf(),
            r.entries@.len() == 0,
    {
        LabelMap { entries: Vec::new() }
    }

    /// The value bound to `name`, if any.
    pub fn get(&self, name: &str) -> (r: Option<String>)
        ensures
            match r {
                Some(v) => self@.contains_key(name@) && v@ == self@[name@],
                None => !self@.contains_key(name@),
            },
    {
        let n = self.entries.len();
        let mut k: usize = n;
        proof {
            assert(self.entries@.take(n as int) =~= self.entries@);
        }
        loop
            invariant
                k <= n,
                n == self.entries@.len(),
                lmap_of(self.entries@).contains_key(name@) == lmap_of(
                    self.entries@.take(k as int),
                ).contains_key(name@),
                lmap_of(self.entries@).contains_key(name@) ==> lmap_of(self.entries@)[name@]
                    == lmap_of(self.entries@.take(k as int))[name@],
            ensures
                k <= n,
                !lmap_of(self.entries@).contains_key(name@),
            decreases k,
        {
            if k == 0 {
                proof {
                    assert(self.entries@.take(0) =~= Seq::<Label>::empty());
                }
                break ;
            }
            k = k - 1;
            let e = &self.entries[k];
            proof {
                assert(self.entries@.take(k + 1).drop_last() =~= self.entries@.take(k as int));
                assert(self.entries@.take(k + 1).last() == self.entries@[k as int]);
            }
            if str_eq(e.name.as_str(), name) {
                return Some(e.value.clone());
            }
        }
        None
    }

    pub fn contains_key(&self, name: &str) -> (r: bool)
        ensures
            r == self@.contains_key(name@),
    {
        match self.get(name) {
            Some(_) => true,
            None => false,
        }
    }

    /// The number of entries; with distinct names, the size of the map.
    pub fn len(&self) -> (r: usize)
        ensures
            r == self.entries@.len(),
    {
        self.entries.len()
    }
}

/// How the escape pairs `\n`, `\"` and `\\` expand.
pub open spec fn unescaped_char(c: char) -> char {
    if c == 'n' {
        '\n'
    } else {
        c
    }
}

/// Expands the escape pairs `\n`, `\"` and `\\`, left to right; any other
/// character, a backslash included, stands for itself.
pub open spec fn spec_unescape(s: Seq<char>) -> Seq<char>
    decreases s.len(),
{
    if s.len() >= 2 && s[0] == '\\' && (s[1] == 'n' || s[1] == '"' || s[1] == '\\') {
        seq![unescaped_char(s[1])] + spec_unescape(s.skip(2))
    } else if s.len() >= 1 {
        seq![s[0]] + spec_unescape(s.skip(1))
    } else {
        Seq::empty()
    }
}

/// Expands the escape pairs `\n`, `\"` and `\\` in `input`.
pub fn unescape_string(input: &str) -> (r: String)
    ensures
        r@ == spec_unescape(input@),
{
    let cs = chars_of(input);
    let n = cs.len();
    let mut out: Vec<char> = Vec::new();
    let mut i: usize = 0;
    proof {
        assert(input@.skip(0) =~= input@);
    }
    loop
        invariant
            i <= n,
            n == cs@.len(),
            cs@ == input@,
            spec_unescape(input@) == out@ + spec_unescape(input@.skip(i as int)),
        ensures
            i == n,
            spec_unescape(input@) == out@ + spec_unescape(input@.skip(i as int)),
        decreases n - i,
    {
        if i >= n {
            break ;
        }
        let ghost u = input@.skip(i as int);
        if cs[i] == '\\' && i + 1 < n && (cs[i + 1] == 'n' || cs[i + 1] == '"' || cs[i + 1]
            == '\\') {
            let c = cs[i + 1];
            out.push(if c == 'n' {
                '\n'
            } else {
                c
            });
            proof {
                assert(u.skip(2) =~= input@.skip(i + 2));
                assert(out@ + spec_unescape(input@.skip(i + 2)) =~= out@.drop_last() + (seq![
                    unescaped_char(u[1])] + spec_unescape(u.skip(2))));
            }
            i = i + 2;
        } else {
            out.push(cs[i]);
            proof {
                assert(u.skip(1) =~= input@.skip(i + 1));
                assert(out@ + spec_unescape(input@.skip(i + 1)) =~= out@.drop_last() + (seq![
                    u[0]] + spec_unescape(u.skip(1))));
            }
            i = i + 1;
        }
    }
    proof {
        assert(input@.skip(n as int) =~= Seq::<char>::empty());
        assert(out@ + Seq::<char>::empty() =~= out@);
    }
    string_from_chars(out.as_slice())
}

/// The length check and unescaping that turns a lexed label into a
/// validated one: a missing value is the `EmptyLabel` error (dropped by the
/// caller); the cap is 128 code points of value plus bytes of name, or 256
/// bytes of both under the wide-char option.
pub open spec fn spec_label_try_from(l: lexer::LabelV, wide: bool) -> Result<
    (Seq<char>, Seq<char>),
    ParseError,
> {
    match l.value {
        None => Err(ParseError::EmptyLabel),
        Some(v) => if wide {
            if spec_utf8_len_seq(l.name) + spec_utf8_len_seq(v) > 256 {
                Err(ParseError::BadLabelTooLong)
            } else {
                Ok((l.name, spec_unescape(v)))
            }
        } else {
            if spec_utf8_len_seq(l.name) + v.len() > 128 {
                Err(ParseError::BadLabelTooLong)
            } else {
                Ok((l.name, spec_unescape(v)))
            }
        },
    }
}

impl Label {
    /// Validates and unescapes one lexed label.
    pub fn try_from_lexer(l: &lexer::Label, wide: bool) -> (r: Result<Label, ParseError>)
        ensures
            match spec_label_try_from(l@, wide) {
                Ok(p) => r matches Ok(x) && x.name@ == p.0 && x.value@ == p.1,
                Err(e) => r matches Err(e2) && e2 == e,
            },
    {
        match &l.value {
            None => Err(ParseError::EmptyLabel),
            Some(v) => {
                let name_bytes = utf8_len_str(l.name.as_str());
                if wide {
                    let value_bytes = utf8_len_str(v.as_str());
                    proof {
                        crate::strutil::lemma_utf8_len_seq_bounds(l.name@);
                        crate::strutil::lemma_utf8_len_seq_bounds(v@);
                    }
                    if name_bytes > 256 || value_bytes > 256 - name_bytes {
                        Err(ParseError::BadLabelTooLong)
                    } else {
                        let value = unescape_string(v.as_str());
                        Ok(Label { name: l.name.clone(), value })
                    }
                } else {
                    let value_chars = v.as_str().unicode_len();
                    proof {
                        crate::strutil::lemma_utf8_len_seq_bounds(l.name@);
                    }
                    if name_bytes > 128 || value_chars > 128 - name_bytes {
                        Err(ParseError::BadLabelTooLong)
                    } else {
                        let value = unescape_string(v.as_str());
                        Ok(Label { name: l.name.clone(), value })
                    }
                }
            },
        }
    }

    /// Folds lexed labels into a label set: labels with a missing value
    /// are dropped, a repeated name is an error, any other label error
    /// surfaces in order.
    pub fn from_lexer_labels(l: Vec<lexer::Label>, wide: bool) -> (r: Result<
        LabelMap,
        ParseError,
    >)
        ensures
            match spec_from_lexer_labels(lexer::labels_view(l@), wide) {
                Ok(m) => r matches Ok(lm) && lm@ == m && lm.wf(),
                Err(e) => r matches Err(e2) && e2 == e,
            },
    {
        let ghost lsv = lexer::labels_view(l@);
        let mut acc = LabelMap::new();
        let n = l.len();
        let mut i: usize = 0;
        loop
            invariant
                i <= n,
                n == l@.len(),
                lexer::labels_view(l@) == lsv,
                acc.wf(),
                spec_labels_fold(lsv, i as int, acc@, wide) == spec_from_lexer_labels(lsv, wide),
            ensures
                i == n,
                spec_labels_fold(lsv, i as int, acc@, wide) == spec_from_lexer_labels(lsv, wide),
            decreases n - i,
        {
            if i >= n {
                break ;
            }
            proof {
                assert(lsv[i as int] == l@[i as int]@);
            }
            match Label::try_from_lexer(&l[i], wide) {
                Err(ParseError::EmptyLabel) => {
                    i = i + 1;
                },
                Err(e) => {
                    return Err(e);
                },
                Ok(converted) => {
                    if acc.contains_key(converted.name.as_str()) {
                        return Err(ParseError::DuplicateMeta);
                    }
                    let ghost pre = acc.entries@;
                    acc.entries.push(converted);
                    proof {
                        assert(acc.entries@.drop_last() =~= pre);
                        lemma_lmap_not_contains(pre, acc.entries@.last().name@);
                        assert(acc.wf());
                    }
                    i = i + 1;
                },
            }
        }
        Ok(acc)
    }
}

/// A missing key has no matching entry.
proof fn lemma_lmap_not_contains(es: Seq<Label>, n: Seq<char>)
    requires
        !lmap_of(es).contains_key(n),
    ensures
        forall|i: int| 0 <= i < es.len() ==> es[i].name@ != n,
    decreases es.len(),
{
    if es.len() > 0 {
        lemma_lmap_not_contains(es.drop_last(), n);
        assert forall|i: int| 0 <= i < es.len() implies es[i].name@ != n by {
            if i < es.len() - 1 {
                assert(es.drop_last()[i] == es[i]);
            }
        }
    }
}

/// The label fold, from position `i` with `acc` already gathered.
pub open spec fn spec_labels_fold(
    ls: Seq<lexer::LabelV>,
    i: int,
    acc: Map<Seq<char>, Seq<char>>,
    wide: bool,
) -> Result<Map<Seq<char>, Seq<char>>, ParseError>
    decreases ls.len() - i when 0 <= i <= ls.len()
{
    if i >= ls.len() {
        Ok(acc)
    } else {
        match spec_label_try_from(ls[i], wide) {
            Err(ParseError::EmptyLabel) => spec_labels_fold(ls, i + 1, acc, wide),
            Err(e) => Err(e),
            Ok(p) => if acc.contains_key(p.0) {
                Err(ParseError::DuplicateMeta)
            } else {
                spec_labels_fold(ls, i + 1, acc.insert(p.0, p.1), wide)
            },
        }
    }
}

/// The label set a lexed label list denotes, or its first error.
pub open spec fn spec_from_lexer_labels(ls: Seq<lexer::LabelV>, wide: bool) -> Result<
    Map<Seq<char>, Seq<char>>,
    ParseError,
> {
    spec_labels_fold(ls, 0, Map::empty(), wide)
}

/// How a sample's name suffix (and, for quantiles, its labels) classifies
/// it; thresholds and quantiles carry the double from the matching label.
#[derive(Clone, Copy, Debug, PartialEq, Eq, Structural)]
pub enum SampleKind {
    Other,
    Count,
    Total,
    Sum,
    GCount,
    GSum,
    HistogramBucket(Bits),
    Quantile(Bits),
}

/// A validated exemplar.
#[derive(Clone, Debug)]
pub struct Exemplar {
    pub labels: LabelMap,
    pub number: Bits,
    pub timestamp: Option<Bits>,
}

/// Spec view of a validated exemplar.
pub ghost struct ExemplarV {
    pub labels: Map<Seq<char>, Seq<char>>,
    pub number: Bits,
    pub timestamp: Option<Bits>,
}

impl View for Exemplar {
    type V = ExemplarV;

    open spec fn view(&self) -> ExemplarV {
        ExemplarV { labels: self.labels@, number: self.number, timestamp: self.timestamp }
    }
}

/// A validated sample.
#[derive(Clone, Debug)]
pub struct Sample {
    pub name: String,
    pub labels: LabelMap,
    pub number: Bits,
    pub timestamp: Option<Bits>,
    pub exemplar: Option<Exemplar>,
    pub kind: SampleKind,
}

/// Spec view of a validated sample.
pub ghost struct SampleV {
    pub name: Seq<char>,
    pub labels: Map<Seq<char>, Seq<char>>,
    pub number: Bits,
    pub timestamp: Option<Bits>,
    pub exemplar: Option<ExemplarV>,
    pub kind: SampleKind,
}

impl View for Sample {
    type V = SampleV;

    open spec fn view(&self) -> SampleV {
        SampleV {
            name: self.name@,
            labels: self.labels@,
            number: self.number,
            timestamp: self.timestamp,
            exemplar: match self.exemplar {
                Some(e) => Some(e@),
                None => None,
            },
            kind: self.kind,
        }
    }
}

pub open spec fn samples_view(ss: Seq<Sample>) -> Seq<SampleV> {
    ss.map_values(|s: Sample| s@)
}

/// A metric family: its declared type, metadata, and validated samples.
#[derive(Debug)]
pub struct MetricFamily {
    pub metric_type: MetricType,
    pub help: Option<String>,
    pub unit: Option<String>,
    pub samples: Vec<Sample>,
}

/// Spec view of a family.
pub ghost struct FamilyV {
    pub metric_type: MetricType,
    pub help: Option<Seq<char>>,
    pub unit: Option<Seq<char>>,
    pub samples: Seq<SampleV>,
}

impl View for MetricFamily {
    type V = FamilyV;

    open spec fn view(&self) -> FamilyV {
        FamilyV {
            metric_type: self.metric_type,
            help: match self.help {
                Some(h) => Some(h@),
                None => None,
            },
            unit: match self.unit {
                Some(u) => Some(u@),
                None => None,
            },
            samples: samples_view(self.samples@),
        }
    }
}

/// One entry of the family mapping.
#[derive(Debug)]
pub struct FamilyEntry {
    pub name: String,
    pub family: MetricFamily,
}

/// The output mapping from family name to family: insertion-ordered
/// entries with pairwise distinct names, viewed as a map.
#[derive(Debug)]
pub struct MetricFamilies {
    pub entries: Vec<FamilyEntry>,
}

/// The map that the entry list denotes; a later entry wins.
pub open spec fn fmap_of(es: Seq<FamilyEntry>) -> Map<Seq<char>, FamilyV>
    decreases es.len(),
{
    if es.len() == 0 {
        Map::empty()
    } else {
        fmap_of(es.drop_last()).insert(es.last().name@, es.last().family@)
    }
}

pub open spec fn fmap_wf(es: Seq<FamilyEntry>) -> bool {
    forall|i: int, j: int| 0 <= i < j < es.len() ==> es[i].name@ != es[j].name@
}

impl View for MetricFamilies {
    type V = Map<Seq<char>, FamilyV>;

    open spec fn view(&self) -> Map<Seq<char>, FamilyV> {
        fmap_of(self.entries@)
    }
}

/// A key is bound exactly when some entry carries it.
proof fn lemma_fmap_keys(es: Seq<FamilyEntry>, n: Seq<char>)
    ensures
        fmap_of(es).contains_key(n) <==> exists|i: int| 0 <= i < es.len() && es[i].name@ == n,
    decreases es.len(),
{
    if es.len() > 0 {
        lemma_fmap_keys(es.drop_last(), n);
        if es.last().name@ == n {
            assert(es[es.len() - 1].name@ == n);
        } else if fmap_of(es).contains_key(n) {
            let i = choose|i: int| 0 <= i < es.len() - 1 && es.drop_last()[i].name@ == n;
            assert(es[i].name@ == n);
        } else {
            assert forall|i: int| 0 <= i < es.len() implies es[i].name@ != n by {
                if i < es.len() - 1 {
                    assert(es.drop_last()[i] == es[i]);
                }
            }
        }
    }
}

/// With distinct names, removing the entry of `n` removes its binding and
/// nothing else.
proof fn lemma_fmap_remove(es: Seq<FamilyEntry>, i: int)
    requires
        fmap_wf(es),
        0 <= i < es.len(),
    ensures
        fmap_of(es.remove(i)) =~= fmap_of(es).remove(es[i].name@),
    decreases es.len(),
{
    let n = es[i].name@;
    if i == es.len() - 1 {
        assert(es.remove(i) =~= es.drop_last());
        lemma_fmap_keys(es.drop_last(), n);
        assert forall|j: int| 0 <= j < es.len() - 1 implies es.drop_last()[j].name@ != n by {
            assert(es.drop_last()[j] == es[j]);
        }
        assert(!fmap_of(es.drop_last()).contains_key(n));
        assert(fmap_of(es.drop_last()) =~= fmap_of(es).remove(n));
    } else {
        assert(es.remove(i).drop_last() =~= es.drop_last().remove(i));
        assert(es.remove(i).last() == es.last());
        assert(fmap_wf(es.drop_last())) by {
            assert forall|a: int, b: int|
                0 <= a < b < es.len() - 1 implies es.drop_last()[a].name@
                != es.drop_last()[b].name@ by {
                assert(es.drop_last()[a] == es[a]);
                assert(es.drop_last()[b] == es[b]);
            }
        }
        lemma_fmap_remove(es.drop_last(), i);
        assert(es.drop_last()[i] == es[i]);
        assert(es.last().name@ != n);
        assert(fmap_of(es.remove(i)) =~= fmap_of(es.drop_last().remove(i)).insert(
            es.last().name@,
            es.last().family@,
        ));
        assert(fmap_of(es.drop_last()).remove(n).insert(es.last().name@, es.last().family@)
            =~= fmap_of(es).remove(n));
    }
}

impl MetricFamilies {
    pub open spec fn wf(&self) -> bool {
        fmap_wf(self.entries@)
    }

    pub fn new() -> (r: MetricFamilies)
        ensures
            r@ == Map::<Seq<char>, FamilyV>::empty(),
            r.wf(),
            r.entries@.len() == 0,
    {
        MetricFamilies { entries: Vec::new() }
    }

    /// The position of the entry named `name`, if any.
    fn position_of(&self, name: &str) -> (r: Option<usize>)
        ensures
            match r {
                Some(i) => i < self.entries@.len() && self.entries@[i as int].name@ == name@,
                None => forall|i: int|
                    0 <= i < self.entries@.len() ==> self.entries@[i as int].name@ != name@,
            },
    {
        let n = self.entries.len();
        let mut k: usize = 0;
        loop
            invariant
                k <= n,
                n == self.entries@.len(),
                forall|i: int| 0 <= i < k ==> self.entries@[i].name@ != name@,
            ensures
                k == n,
                forall|i: int| 0 <= i < n ==> self.entries@[i].name@ != name@,
            decreases n - k,
        {
            if k >= n {
                break ;
            }
            if str_eq(self.entries[k].name.as_str(), name) {
                return Some(k);
            }
            k = k + 1;
        }
        None
    }

    pub fn contains_key(&self, name: &str) -> (r: bool)
        ensures
            r == self@.contains_key(name@),
    {
        let r = self.position_of(name);
        proof {
            lemma_fmap_keys(self.entries@, name@);
        }
        match r {
            Some(_) => true,
            None => false,
        }
    }

    /// The family named `name`, if any.
    pub fn get(&self, name: &str) -> (r: Option<&MetricFamily>)
        requires
            self.wf(),
        ensures
            match r {
                Some(f) => self@.contains_key(name@) && f@ == self@[name@],
                None => !self@.contains_key(name@),
            },
    {
        let r = self.position_of(name);
        proof {
            lemma_fmap_keys(self.entries@, name@);
        }
        match r {
            Some(i) => {
                proof {
                    lemma_fmap_at(self.entries@, i as int);
                }
                Some(&self.entries[i].family)
            },
            None => None,
        }
    }

    /// The number of families.
    pub fn len(&self) -> (r: usize)
        ensures
            r == self.entries@.len(),
    {
        self.entries.len()
    }

    /// Binds `name` to `family`, replacing an earlier binding.
    pub fn insert(&mut self, name: String, family: MetricFamily)
        requires
            old(self).wf(),
        ensures
            final(self)@ =~= old(self)@.insert(name@, family@),
            final(self).wf(),
    {
        let ghost fv = family@;
        let ghost nv = name@;
        match self.position_of(name.as_str()) {
            Some(i) => {
                let ghost pre = self.entries@;
                proof {
                    lemma_fmap_remove(pre, i as int);
                }
                self.entries.remove(i);
                let ghost mid = self.entries@;
                self.entries.push(FamilyEntry { name, family });
                proof {
                    assert(self.entries@.drop_last() =~= mid);
                    assert(fmap_of(self.entries@) =~= fmap_of(pre).remove(nv).insert(nv, fv));
                    assert(fmap_of(pre).remove(nv).insert(nv, fv) =~= fmap_of(pre).insert(
                        nv,
                        fv,
                    ));
                    assert forall|a: int, b: int|
                        0 <= a < b < self.entries@.len() implies self.entries@[a].name@
                        != self.entries@[b].name@ by {
                        lemma_remove_distinct(pre, i as int, a, b, self.entries@);
                    }
                }
            },
            None => {
                let ghost pre = self.entries@;
                self.entries.push(FamilyEntry { name, family });
                proof {
                    assert(self.entries@.drop_last() =~= pre);
                    assert forall|a: int, b: int|
                        0 <= a < b < self.entries@.len() implies self.entries@[a].name@
                        != self.entries@[b].name@ by {
                        if b < self.entries@.len() - 1 {
                            assert(self.entries@[a] == pre[a]);
                            assert(self.entries@[b] == pre[b]);
                        } else {
                            assert(self.entries@[a] == pre[a]);
                        }
                    }
                }
            },
        }
    }
}

/// With distinct names, the entry at `i` gives the binding of its name.
proof fn lemma_fmap_at(es: Seq<FamilyEntry>, i: int)
    requires
        fmap_wf(es),
        0 <= i < es.len(),
    ensures
        fmap_of(es).contains_key(es[i].name@),
        fmap_of(es)[es[i].name@] == es[i].family@,
    decreases es.len(),
{
    if i == es.len() - 1 {
    } else {
        assert(fmap_wf(es.drop_last())) by {
            assert forall|a: int, b: int|
                0 <= a < b < es.len() - 1 implies es.drop_last()[a].name@
                != es.drop_last()[b].name@ by {
                assert(es.drop_last()[a] == es[a]);
                assert(es.drop_last()[b] == es[b]);
            }
        }
        lemma_fmap_at(es.drop_last(), i);
        assert(es.drop_last()[i] == es[i]);
        assert(es.last().name@ != es[i].name@);
    }
}

/// The double a metric number collapses to: the bits of a float token, or
/// the nearest double to an integer token.
pub open spec fn spec_number_collapse(n: lexer::MetricNumber) -> Bits {
    match n {
        lexer::MetricNumber::Float(b) => b,
        lexer::MetricNumber::Integer(i) => f64_bits_of_text(spec_i64_dec(i as int)),
    }
}

/// The double a whole piece of text denotes, or nothing where the numeric
/// grammar does not match it entire.
pub open spec fn spec_parse_full(s: Seq<char>) -> Option<Bits> {
    match spec_double_extent(s) {
        Some(n) => if n == s.len() {
            Some(f64_bits_of_text(s))
        } else {
            None
        },
        None => None,
    }
}

/// Reads a whole piece of text as a double.
pub fn parse_full(s: &str) -> (r: Option<Bits>)
    ensures
        r == spec_parse_full(s@),
{
    proof {
        crate::lexer::types::lemma_double_extent_bounds(s@);
        assert(s@.skip(0) =~= s@);
    }
    match nom_double_prefix(s) {
        Some(p) => {
            if p.1.is_empty() {
                proof {
                    assert(s@.take(spec_double_extent(s@).unwrap()) =~= s@);
                }
                Some(p.0)
            } else {
                None
            }
        },
        None => None,
    }
}

/// The checks on a `_bucket` sample once its threshold is resolved.
pub open spec fn spec_bucket_kind(th: Bits, number: Bits) -> Result<SampleKind, ParseError> {
    if f_is_neg(number) {
        Err(ParseError::BadHistogram)
    } else if f_is_inf(number) || f_is_nan(number) {
        Err(ParseError::BadHistogram)
    } else if f_is_nan(th) {
        Err(ParseError::BadBucket)
    } else {
        Ok(SampleKind::HistogramBucket(th))
    }
}

/// Classifies a sample by its name suffix and labels, with the per-kind
/// value checks.
pub open spec fn spec_kind_of(
    name: Seq<char>,
    labels: Map<Seq<char>, Seq<char>>,
    number: Bits,
) -> Result<SampleKind, ParseError> {
    if spec_ends_with(name, "_bucket"@) {
        if !labels.contains_key("le"@) {
            Err(ParseError::BadBucket)
        } else {
            let lv = labels["le"@];
            if lv == "+Inf"@ {
                spec_bucket_kind(INF_BITS, number)
            } else {
                match spec_parse_full(lv) {
                    None => Err(ParseError::BadBucket),
                    Some(th) => if f_is_inf(th) {
                        Err(ParseError::BadBucket)
                    } else {
                        spec_bucket_kind(th, number)
                    },
                }
            }
        }
    } else if spec_ends_with(name, "_count"@) {
        if f_is_neg(number) || f_is_nan(number) {
            Err(ParseError::BadHistogram)
        } else {
            Ok(SampleKind::Count)
        }
    } else if spec_ends_with(name, "_total"@) {
        if f_is_nan(number) || f_is_neg(number) {
            Err(ParseError::BadCounter)
        } else {
            Ok(SampleKind::Total)
        }
    } else if spec_ends_with(name, "_sum"@) {
        if f_is_nan(number) {
            Err(ParseError::BadCounter)
        } else {
            Ok(SampleKind::Sum)
        }
    } else if spec_ends_with(name, "_gcount"@) {
        Ok(SampleKind::GCount)
    } else if spec_ends_with(name, "_gsum"@) {
        if f_is_nan(number) {
            Err(ParseError::BadCounter)
        } else {
            Ok(SampleKind::GSum)
        }
    } else if labels.contains_key("quantile"@) {
        match spec_parse_full(labels["quantile"@]) {
            None => Err(ParseError::BadQuantile),
            Some(q) => if f_is_nan(q) {
                Err(ParseError::BadQuantile)
            } else if f_lt(q, ZERO_BITS) || f_lt(ONE_BITS, q) {
                Err(ParseError::BadQuantile)
            } else {
                Ok(SampleKind::Quantile(q))
            },
        }
    } else {
        Ok(SampleKind::Other)
    }
}

/// A lexed exemplar validated: its labels folded into a set.
pub open spec fn spec_exemplar_try_from(e: lexer::ExemplarV, wide: bool) -> Result<
    ExemplarV,
    ParseError,
> {
    match spec_from_lexer_labels(e.labels, wide) {
        Ok(m) => Ok(ExemplarV { labels: m, number: e.number, timestamp: e.timestamp }),
        Err(err) => Err(err),
    }
}

/// A lexed sample validated: value collapsed, labels folded, exemplar
/// validated, kind classified, in that order.
pub open spec fn spec_sample_try_from(l: lexer::SampleV, wide: bool) -> Result<
    SampleV,
    ParseError,
> {
    let number = spec_number_collapse(l.number);
    match spec_from_lexer_labels(
        match l.labels {
            Some(ls) => ls,
            None => Seq::empty(),
        },
        wide,
    ) {
        Err(e) => Err(e),
        Ok(labels) => {
            let ex: Result<Option<ExemplarV>, ParseError> = match l.exemplar {
                Some(e) => match spec_exemplar_try_from(e, wide) {
                    Ok(v) => Ok(Some(v)),
                    Err(err) => Err(err),
                },
                None => Ok(None),
            };
            match ex {
                Err(e) => Err(e),
                Ok(exemplar) => match spec_kind_of(l.name, labels, number) {
                    Err(e) => Err(e),
                    Ok(kind) => Ok(
                        SampleV {
                            name: l.name,
                            labels,
                            number,
                            timestamp: l.timestamp,
                            exemplar,
                            kind,
                        },
                    ),
                },
            }
        },
    }
}

impl Exemplar {
    /// Validates one lexed exemplar.
    pub fn try_from_lexer(e: lexer::Exemplar, wide: bool) -> (r: Result<Exemplar, ParseError>)
        ensures
            match spec_exemplar_try_from(e@, wide) {
                Ok(v) => r matches Ok(x) && x@ == v && x.labels.wf(),
                Err(err) => r matches Err(e2) && e2 == err,
            },
    {
        let lexer::Exemplar { labels, number, timestamp } = e;
        match Label::from_lexer_labels(labels, wide) {
            Ok(m) => Ok(Exemplar { labels: m, number, timestamp }),
            Err(err) => Err(err),
        }
    }
}

impl Sample {
    /// Validates one lexed sample.
    pub fn try_from_lexer(l: lexer::Sample, wide: bool) -> (r: Result<Sample, ParseError>)
        ensures
            match spec_sample_try_from(l@, wide) {
                Ok(v) => r matches Ok(x) && x@ == v && x.labels.wf(),
                Err(err) => r matches Err(e2) && e2 == err,
            },
    {
        let ghost lv = l@;
        let lexer::Sample { name, labels, number, timestamp, exemplar } = l;
        let number: Bits = match number {
            lexer::MetricNumber::Float(b) => b,
            lexer::MetricNumber::Integer(i) => i64_to_f64_bits(i),
        };
        let lab_vec: Vec<lexer::Label> = match labels {
            Some(v) => v,
            None => Vec::new(),
        };
        proof {
            if lv.labels is None {
                assert(lexer::labels_view(Seq::<lexer::Label>::empty())
                    =~= Seq::<lexer::LabelV>::empty());
            }
        }
        match Label::from_lexer_labels(lab_vec, wide) {
            Err(e) => Err(e),
            Ok(labels) => {
                let exemplar: Option<Exemplar> = match exemplar {
                    Some(e) => match Exemplar::try_from_lexer(e, wide) {
                        Ok(v) => Some(v),
                        Err(err) => {
                            return Err(err);
                        },
                    },
                    None => None,
                };
                match Self::kind_of(name.as_str(), &labels, number) {
                    Err(e) => Err(e),
                    Ok(kind) => Ok(Sample { name, labels, number, timestamp, exemplar, kind }),
                }
            },
        }
    }

    /// Classifies a sample by suffix and labels.
    fn kind_of(name: &str, labels: &LabelMap, number: Bits) -> (r: Result<SampleKind, ParseError>)
        ensures
            r == spec_kind_of(name@, labels@, number),
    {
        if str_ends_with(name, "_bucket") {
            match labels.get("le") {
                None => Err(ParseError::BadBucket),
                Some(lv) => {
                    if str_eq(lv.as_str(), "+Inf") {
                        Self::bucket_kind(INF_BITS, number)
                    } else {
                        match parse_full(lv.as_str()) {
                            None => Err(ParseError::BadBucket),
                            Some(th) => {
                                if is_inf_bits(th) {
                                    Err(ParseError::BadBucket)
                                } else {
                                    Self::bucket_kind(th, number)
                                }
                            },
                        }
                    }
                },
            }
        } else if str_ends_with(name, "_count") {
            if is_neg_bits(number) || is_nan_bits(number) {
                Err(ParseError::BadHistogram)
            } else {
                Ok(SampleKind::Count)
            }
        } else if str_ends_with(name, "_total") {
            if is_nan_bits(number) || is_neg_bits(number) {
                Err(ParseError::BadCounter)
            } else {
                Ok(SampleKind::Total)
            }
        } else if str_ends_with(name, "_sum") {
            if is_nan_bits(number) {
                Err(ParseError::BadCounter)
            } else {
                Ok(SampleKind::Sum)
            }
        } else if str_ends_with(name, "_gcount") {
            Ok(SampleKind::GCount)
        } else if str_ends_with(name, "_gsum") {
            if is_nan_bits(number) {
                Err(ParseError::BadCounter)
            } else {
                Ok(SampleKind::GSum)
            }
        } else {
            match labels.get("quantile") {
                None => Ok(SampleKind::Other),
                Some(qv) => {
                    match parse_full(qv.as_str()) {
                        None => Err(ParseError::BadQuantile),
                        Some(q) => {
                            if is_nan_bits(q) {
                                Err(ParseError::BadQuantile)
                            } else if lt_bits(q, ZERO_BITS) || lt_bits(ONE_BITS, q) {
                                Err(ParseError::BadQuantile)
                            } else {
                                Ok(SampleKind::Quantile(q))
                            }
                        },
                    }
                },
            }
        }
    }

    /// The checks on a `_bucket` sample once its threshold is resolved.
    fn bucket_kind(th: Bits, number: Bits) -> (r: Result<SampleKind, ParseError>)
        ensures
            r == spec_bucket_kind(th, number),
    {
        if is_neg_bits(number) {
            Err(ParseError::BadHistogram)
        } else if is_inf_bits(number) || is_nan_bits(number) {
            Err(ParseError::BadHistogram)
        } else if is_nan_bits(th) {
            Err(ParseError::BadBucket)
        } else {
            Ok(SampleKind::HistogramBucket(th))
        }
    }
}

/// The per-family flag bag the builder carries.
#[derive(Clone, Copy, Debug, PartialEq, Eq, Structural)]
pub struct BuilderFlags {
    pub has_inf_bucket: bool,
    pub has_total_bucket: bool,
    pub has_neg_bucket: bool,
    pub has_bucket: bool,
    pub has_count: bool,
    pub has_gcount: bool,
    pub has_gsum: bool,
    pub has_sum: bool,
    pub has_eof: bool,
}

pub open spec fn spec_default_flags() -> BuilderFlags {
    BuilderFlags {
        has_inf_bucket: false,
        has_total_bucket: false,
        has_neg_bucket: false,
        has_bucket: false,
        has_count: false,
        has_gcount: false,
        has_gsum: false,
        has_sum: false,
        has_eof: false,
    }
}

impl Default for BuilderFlags {
    /// Every flag cleared.
    fn default() -> (r: BuilderFlags)
        ensures
            r == spec_default_flags(),
    {
        BuilderFlags {
            has_inf_bucket: false,
            has_total_bucket: false,
            has_neg_bucket: false,
            has_bucket: false,
            has_count: false,
            has_gcount: false,
            has_gsum: false,
            has_sum: false,
            has_eof: false,
        }
    }
}

/// The builder: the fold state that assembles tokens into families.
pub struct Builder {
    pub name: Option<String>,
    pub help: Option<String>,
    pub unit: Option<String>,
    pub metric_type: Option<MetricType>,
    pub samples: Vec<Sample>,
    pub families: MetricFamilies,
    pub flags: BuilderFlags,
    pub opts: ParseOptions,
}

/// Spec view of the builder state.
pub ghost struct BuilderV {
    pub name: Option<Seq<char>>,
    pub help: Option<Seq<char>>,
    pub unit: Option<Seq<char>>,
    pub metric_type: Option<MetricType>,
    pub samples: Seq<SampleV>,
    pub families: Map<Seq<char>, FamilyV>,
    pub flags: BuilderFlags,
    pub opts: ParseOptions,
}

impl View for Builder {
    type V = BuilderV;

    open spec fn view(&self) -> BuilderV {
        BuilderV {
            name: match self.name {
                Some(n) => Some(n@),
                None => None,
            },
            help: match self.help {
                Some(h) => Some(h@),
                None => None,
            },
            unit: match self.unit {
                Some(u) => Some(u@),
                None => None,
            },
            metric_type: self.metric_type,
            samples: samples_view(self.samples@),
            families: self.families@,
            flags: self.flags,
            opts: self.opts,
        }
    }
}

pub open spec fn spec_initial_builder(opts: ParseOptions) -> BuilderV {
    BuilderV {
        name: None,
        help: None,
        unit: None,
        metric_type: None,
        samples: Seq::empty(),
        families: Map::empty(),
        flags: spec_default_flags(),
        opts,
    }
}

/// Samples of one labelset form a contiguous run: a sample whose labelset
/// differs from its predecessor's never resumes an earlier labelset.
pub open spec fn spec_interleave_ok(ss: Seq<SampleV>) -> bool {
    forall|i: int, j: int|
        0 <= j < i < ss.len() && (#[trigger] ss[i]).labels != ss[i - 1].labels ==> (
        #[trigger] ss[j]).labels != ss[i].labels
}

/// Within a run of one series, timestamps exist and never decrease.
pub open spec fn spec_ts_ok(ss: Seq<SampleV>) -> bool {
    forall|i: int|
        1 <= i < ss.len() && (#[trigger] ss[i]).name == ss[i - 1].name && ss[i].labels == ss[i
            - 1].labels ==> ss[i - 1].timestamp is Some && ss[i].timestamp is Some && !f_lt(
            ss[i].timestamp.unwrap(),
            ss[i - 1].timestamp.unwrap(),
        )
}

/// The `(threshold, value)` pairs of the bucket samples, in order.
pub open spec fn spec_buckets(ss: Seq<SampleV>) -> Seq<(Bits, Bits)>
    decreases ss.len(),
{
    if ss.len() == 0 {
        Seq::empty()
    } else {
        spec_buckets(ss.drop_last()) + (match ss.last().kind {
            SampleKind::HistogramBucket(th) => seq![(th, ss.last().number)],
            _ => Seq::empty(),
        })
    }
}

/// Bucket values never decrease in insertion order (the first never below
/// zero).
pub open spec fn spec_bucket_values_ok(bs: Seq<(Bits, Bits)>) -> bool {
    forall|i: int|
        0 <= i < bs.len() ==> !f_lt(
            (#[trigger] bs[i]).1,
            if i == 0 {
                ZERO_BITS
            } else {
                bs[i - 1].1
            },
        )
}

/// Thresholds rise strictly at every interior position and the final
/// threshold is infinite.
pub open spec fn spec_bucket_order_ok(bs: Seq<(Bits, Bits)>) -> bool {
    (bs.len() >= 1 ==> f_is_inf(bs.last().0)) && (forall|i: int|
        1 <= i < bs.len() - 1 ==> !f_le((#[trigger] bs[i]).0, bs[i - 1].0))
}

/// The values of the `+Inf` bucket and the `_count` sample, in order.
pub open spec fn spec_counts(ss: Seq<SampleV>) -> Seq<Bits>
    decreases ss.len(),
{
    if ss.len() == 0 {
        Seq::empty()
    } else {
        spec_counts(ss.drop_last()) + (
        if ss.last().kind == SampleKind::HistogramBucket(INF_BITS) || ss.last().kind
            == SampleKind::Count {
            seq![ss.last().number]
        } else {
            Seq::empty()
        })
    }
}

pub open spec fn spec_counts_ok(cs: Seq<Bits>) -> bool {
    cs.len() == 2 && f_eq(cs[0], cs[1])
}

/// The family name collides with an already finalized family through one
/// of the reserved suffixes.
pub open spec fn spec_name_conflict(fams: Map<Seq<char>, FamilyV>, fam: Seq<char>) -> bool {
    fams.contains_key(fam + "_bucket"@) || fams.contains_key(fam + "_count"@)
        || fams.contains_key(fam + "_created"@) || fams.contains_key(fam + "_gcount"@)
        || fams.contains_key(fam + "_gsum"@) || fams.contains_key(fam + "_info"@)
        || fams.contains_key(fam + "_sum"@) || fams.contains_key(fam + "_total"@)
}

/// The family-level checks on the pending family's flags and samples.
pub open spec fn spec_family_check(b: BuilderV) -> Option<ParseError> {
    match b.metric_type {
        Some(MetricType::Histogram) => {
            if !b.flags.has_bucket {
                Some(ParseError::BadHistogram)
            } else if !b.flags.has_inf_bucket {
                Some(ParseError::BadHistogram)
            } else if b.flags.has_neg_bucket && b.flags.has_sum {
                Some(ParseError::BadHistogram)
            } else if b.flags.has_sum != b.flags.has_count {
                Some(ParseError::BadHistogram)
            } else if b.flags.has_count && b.opts.validate_histogram_count && !spec_counts_ok(
                spec_counts(b.samples),
            ) {
                Some(ParseError::BadHistogram)
            } else if !spec_bucket_values_ok(spec_buckets(b.samples)) {
                Some(ParseError::BadCounter)
            } else if !spec_bucket_order_ok(spec_buckets(b.samples)) {
                Some(ParseError::BadBucketOrder)
            } else {
                None
            }
        },
        Some(MetricType::GaugeHistogram) => {
            if !b.flags.has_bucket {
                Some(ParseError::BadHistogram)
            } else if !b.flags.has_inf_bucket {
                Some(ParseError::BadHistogram)
            } else if b.flags.has_gcount != b.flags.has_gsum {
                Some(ParseError::BadHistogram)
            } else {
                None
            }
        },
        Some(MetricType::Counter) => {
            if b.samples.len() > 0 && !b.flags.has_total_bucket {
                Some(ParseError::BadCounter)
            } else {
                None
            }
        },
        _ => None,
    }
}

/// The family the pending state denotes.
pub open spec fn spec_pending_family(b: BuilderV) -> FamilyV {
    FamilyV {
        metric_type: match b.metric_type {
            Some(t) => t,
            None => MetricType::Unknown,
        },
        help: match b.help {
            Some(h) => Some(spec_unescape(h)),
            None => None,
        },
        unit: b.unit,
        samples: b.samples,
    }
}

/// Finalizes the pending family: runs the optional and family-level
/// checks, stores the family under its name, and resets the pending state
/// with `newname` seeded.
pub open spec fn spec_finalize_family(b: BuilderV, newname: Option<Seq<char>>) -> Result<
    BuilderV,
    ParseError,
> {
    if b.opts.no_interleave_metric && !spec_interleave_ok(b.samples) {
        Err(ParseError::Interleave)
    } else if b.opts.enforce_timestamp_monotonic && !spec_ts_ok(b.samples) {
        Err(ParseError::BadTimestampOutOfOrder)
    } else if b.name matches Some(fam) && spec_name_conflict(b.families, fam) {
        Err(ParseError::NameConflict)
    } else {
        match spec_family_check(b) {
            Some(e) => Err(e),
            None => Ok(
                BuilderV {
                    name: newname,
                    help: None,
                    unit: None,
                    metric_type: None,
                    samples: Seq::empty(),
                    families: match b.name {
                        Some(n) => b.families.insert(n, spec_pending_family(b)),
                        None => b.families,
                    },
                    flags: spec_default_flags(),
                    opts: b.opts,
                },
            ),
        }
    }
}

/// Seeds or switches the family name: a differing name finalizes the
/// pending family first.
pub open spec fn spec_builder_name(b: BuilderV, n: Seq<char>) -> Result<BuilderV, ParseError> {
    if b.flags.has_eof {
        Err(ParseError::Eof)
    } else {
        match b.name {
            None => Ok(BuilderV { name: Some(n), ..b }),
            Some(cur) => if cur != n {
                spec_finalize_family(b, Some(n))
            } else {
                Ok(b)
            },
        }
    }
}

/// Metadata is allowed only before the family's first sample.
pub open spec fn spec_is_meta_allowable(b: BuilderV) -> Result<BuilderV, ParseError> {
    if b.flags.has_eof {
        Err(ParseError::Eof)
    } else if b.samples.len() > 0 {
        Err(ParseError::DuplicateMeta)
    } else {
        Ok(b)
    }
}

/// Applies one descriptor token.
pub open spec fn spec_builder_meta(b: BuilderV, d: lexer::DescriptorV) -> Result<
    BuilderV,
    ParseError,
> {
    if b.flags.has_eof {
        Err(ParseError::Eof)
    } else {
        match d {
            lexer::DescriptorV::Type { name, metric_type } => match spec_builder_name(b, name) {
                Err(e) => Err(e),
                Ok(b1) => match spec_is_meta_allowable(b1) {
                    Err(e) => Err(e),
                    Ok(b2) => if b2.metric_type is Some {
                        Err(ParseError::DuplicateMeta)
                    } else {
                        Ok(
                            BuilderV {
                                metric_type: Some(spec_type_of_lexer(metric_type)),
                                ..b2
                            },
                        )
                    },
                },
            },
            lexer::DescriptorV::Help { name, text } => match spec_builder_name(b, name) {
                Err(e) => Err(e),
                Ok(b1) => match spec_is_meta_allowable(b1) {
                    Err(e) => Err(e),
                    Ok(b2) => if b2.help is Some {
                        Err(ParseError::DuplicateMeta)
                    } else {
                        Ok(
                            BuilderV {
                                help: Some(
                                    match text {
                                        Some(t) => t,
                                        None => Seq::empty(),
                                    },
                                ),
                                ..b2
                            },
                        )
                    },
                },
            },
            lexer::DescriptorV::Unit { name, unit } => match spec_builder_name(b, name) {
                Err(e) => Err(e),
                Ok(b1) => match spec_is_meta_allowable(b1) {
                    Err(e) => Err(e),
                    Ok(b2) => if b2.unit is Some {
                        Err(ParseError::DuplicateMeta)
                    } else {
                        Ok(
                            BuilderV {
                                unit: Some(
                                    match unit {
                                        Some(u) => u,
                                        None => Seq::empty(),
                                    },
                                ),
                                ..b2
                            },
                        )
                    },
                },
            },
        }
    }
}

/// The per-sample checks that depend on the family's declared type.
pub open spec fn spec_sample_type_check(
    fam: Seq<char>,
    t: Option<MetricType>,
    sv: SampleV,
) -> Option<ParseError> {
    match t {
        Some(MetricType::Info) => {
            if sv.name != fam + "_info"@ {
                Some(ParseError::BadInfo)
            } else if !sv.labels.contains_key(fam) {
                Some(ParseError::BadInfo)
            } else if !f_eq(sv.number, ONE_BITS) {
                Some(ParseError::BadInfo)
            } else {
                None
            }
        },
        Some(MetricType::StateSet) => {
            if sv.name != fam || !sv.labels.contains_key(fam) {
                Some(ParseError::BadStateSet)
            } else if !f_eq(sv.number, ONE_BITS) && !f_eq(sv.number, ZERO_BITS) {
                Some(ParseError::BadStateSet)
            } else {
                None
            }
        },
        Some(MetricType::Summary) => {
            if !spec_ends_with(sv.name, "_count"@) && !spec_ends_with(sv.name, "_sum"@)
                && !spec_ends_with(sv.name, "_created"@) && !(sv.name == fam
                && sv.labels.contains_key("quantile"@)) {
                Some(ParseError::BadSummary)
            } else {
                None
            }
        },
        _ => None,
    }
}

/// The flag updates and value checks keyed on the sample's kind.
pub open spec fn spec_sample_kind_step(
    t: Option<MetricType>,
    flags: BuilderFlags,
    sv: SampleV,
) -> Result<BuilderFlags, ParseError> {
    match sv.kind {
        SampleKind::HistogramBucket(th) => {
            let f1 = BuilderFlags { has_bucket: true, ..flags };
            if f_is_inf(th) {
                Ok(BuilderFlags { has_inf_bucket: true, ..f1 })
            } else if f_is_neg(th) {
                Ok(BuilderFlags { has_neg_bucket: true, ..f1 })
            } else {
                Ok(f1)
            }
        },
        SampleKind::Count => Ok(BuilderFlags { has_count: true, ..flags }),
        SampleKind::Total => Ok(BuilderFlags { has_total_bucket: true, ..flags }),
        SampleKind::GCount => Ok(BuilderFlags { has_gcount: true, ..flags }),
        SampleKind::Sum => {
            if t == Some(MetricType::Summary) && f_is_neg(sv.number) {
                Err(ParseError::BadCounter)
            } else if flags.has_neg_bucket {
                Err(ParseError::BadHistogram)
            } else {
                Ok(BuilderFlags { has_sum: true, ..flags })
            }
        },
        SampleKind::GSum => {
            if f_is_neg(sv.number) && !flags.has_neg_bucket {
                Err(ParseError::BadCounter)
            } else {
                Ok(BuilderFlags { has_gsum: true, ..flags })
            }
        },
        _ => {
            if sv.labels.contains_key("quantile"@) && f_is_neg(sv.number) {
                Err(ParseError::BadCounter)
            } else {
                Ok(flags)
            }
        },
    }
}

/// Whether the sample may carry an exemplar: buckets of (gauge) histograms
/// and totals of counters.
pub open spec fn spec_exemplar_allowed(name: Seq<char>, t: Option<MetricType>) -> bool {
    (spec_ends_with(name, "_bucket"@) && (t == Some(MetricType::Histogram) || t == Some(
        MetricType::GaugeHistogram,
    ))) || (spec_ends_with(name, "_total"@) && t == Some(MetricType::Counter))
}

/// Applies one sample token.
pub open spec fn spec_builder_sample(b: BuilderV, s: lexer::SampleV) -> Result<
    BuilderV,
    ParseError,
> {
    if b.flags.has_eof {
        Err(ParseError::Eof)
    } else {
        let b1 = if b.name is None {
            BuilderV { name: Some(s.name), ..b }
        } else {
            b
        };
        match spec_sample_try_from(s, b1.opts.naive_wide_char_support) {
            Err(e) => Err(e),
            Ok(sv) => if sv.exemplar is Some && !spec_exemplar_allowed(sv.name, b1.metric_type) {
                Err(ParseError::BadSuffix)
            } else {
                match b1.name {
                    None => Ok(BuilderV { samples: b1.samples.push(sv), ..b1 }),
                    Some(fam) => match spec_sample_type_check(fam, b1.metric_type, sv) {
                        Some(e) => Err(e),
                        None => match spec_sample_kind_step(b1.metric_type, b1.flags, sv) {
                            Err(e) => Err(e),
                            Ok(flags) => Ok(
                                BuilderV { samples: b1.samples.push(sv), flags, ..b1 },
                            ),
                        },
                    },
                }
            },
        }
    }
}

/// Applies the EOF token: further tokens are refused.
pub open spec fn spec_builder_eof(b: BuilderV) -> Result<BuilderV, ParseError> {
    Ok(BuilderV { flags: BuilderFlags { has_eof: true, ..b.flags }, ..b })
}

/// Applies one token.
pub open spec fn spec_builder_step(b: BuilderV, t: lexer::TokenV) -> Result<BuilderV, ParseError> {
    match t {
        lexer::TokenV::Descriptor(d) => spec_builder_meta(b, d),
        lexer::TokenV::Metric(s) => spec_builder_sample(b, s),
        lexer::TokenV::Eof => spec_builder_eof(b),
        lexer::TokenV::Empty => Ok(b),
    }
}

/// Folds the tokens from position `i` onward over the builder.
pub open spec fn spec_run(ts: Seq<lexer::TokenV>, i: int, b: BuilderV) -> Result<
    BuilderV,
    ParseError,
>
    decreases ts.len() - i when 0 <= i <= ts.len()
{
    if i >= ts.len() {
        Ok(b)
    } else {
        match spec_builder_step(b, ts[i]) {
            Ok(b2) => spec_run(ts, i + 1, b2),
            Err(e) => Err(e),
        }
    }
}

/// Ends the stream: `# EOF` must have been seen, and the last family is
/// flushed.
pub open spec fn spec_builder_finalize(b: BuilderV) -> Result<Map<Seq<char>, FamilyV>, ParseError> {
    if !b.flags.has_eof {
        Err(ParseError::Eof)
    } else {
        match spec_finalize_family(b, None) {
            Ok(b2) => Ok(b2.families),
            Err(e) => Err(e),
        }
    }
}

/// The whole validator: the family mapping a token stream denotes under
/// the given options, or its first error.
pub open spec fn spec_parse_tokens(ts: Seq<lexer::TokenV>, opts: ParseOptions) -> Result<
    Map<Seq<char>, FamilyV>,
    ParseError,
> {
    match spec_run(ts, 0, spec_initial_builder(opts)) {
        Ok(b) => spec_builder_finalize(b),
        Err(e) => Err(e),
    }
}

/// A key is bound in a label set exactly when some entry carries it.
proof fn lemma_lmap_keys(es: Seq<Label>, n: Seq<char>)
    ensures
        lmap_of(es).contains_key(n) <==> exists|i: int| 0 <= i < es.len() && es[i].name@ == n,
    decreases es.len(),
{
    if es.len() > 0 {
        lemma_lmap_keys(es.drop_last(), n);
        if es.last().name@ == n {
            assert(es[es.len() - 1].name@ == n);
        } else if lmap_of(es).contains_key(n) {
            let i = choose|i: int| 0 <= i < es.len() - 1 && es.drop_last()[i].name@ == n;
            assert(es[i].name@ == n);
        } else {
            assert forall|i: int| 0 <= i < es.len() implies es[i].name@ != n by {
                if i < es.len() - 1 {
                    assert(es.drop_last()[i] == es[i]);
                }
            }
        }
    }
}

/// Whether two label sets denote the same map.
#[verifier::rlimit(50)]
pub fn lm_eq(a: &LabelMap, b: &LabelMap) -> (r: bool)
    ensures
        r == (a@ == b@),
{
    let na = a.entries.len();
    let mut i: usize = 0;
    loop
        invariant
            i <= na,
            na == a.entries@.len(),
            forall|k: int|
                0 <= k < i ==> b@.contains_key((#[trigger] a.entries@[k]).name@) && a@[
                    a.entries@[k].name@] == b@[a.entries@[k].name@],
        ensures
            i == na,
            forall|k: int|
                0 <= k < na ==> b@.contains_key((#[trigger] a.entries@[k]).name@) && a@[
                    a.entries@[k].name@] == b@[a.entries@[k].name@],
        decreases na - i,
    {
        if i >= na {
            break ;
        }
        proof {
            lemma_lmap_keys(a.entries@, a.entries@[i as int].name@);
        }
        let va = a.get(self_name(a, i).as_str());
        let vb = b.get(self_name(a, i).as_str());
        match (va, vb) {
            (Some(x), Some(y)) => {
                if !str_eq(x.as_str(), y.as_str()) {
                    proof {
                        assert(a@[a.entries@[i as int].name@] != b@[a.entries@[i as int].name@]);
                    }
                    return false;
                }
            },
            (Some(_), None) => {
                return false;
            },
            (None, _) => {
                proof {
                    assert(false);
                }
                return false;
            },
        }
        i = i + 1;
    }
    let nb = b.entries.len();
    let mut j: usize = 0;
    loop
        invariant
            j <= nb,
            nb == b.entries@.len(),
            forall|k: int|
                0 <= k < na ==> b@.contains_key((#[trigger] a.entries@[k]).name@) && a@[
                    a.entries@[k].name@] == b@[a.entries@[k].name@],
            forall|k: int| 0 <= k < j ==> a@.contains_key((#[trigger] b.entries@[k]).name@),
        ensures
            forall|k: int|
                0 <= k < na ==> b@.contains_key((#[trigger] a.entries@[k]).name@) && a@[
                    a.entries@[k].name@] == b@[a.entries@[k].name@],
            forall|k: int| 0 <= k < nb ==> a@.contains_key((#[trigger] b.entries@[k]).name@),
        decreases nb - j,
    {
        if j >= nb {
            break ;
        }
        proof {
            lemma_lmap_keys(b.entries@, b.entries@[j as int].name@);
        }
        if !a.contains_key(self_name(b, j).as_str()) {
            return false;
        }
        j = j + 1;
    }
    proof {
        assert forall|k: Seq<char>| #[trigger] b@.contains_key(k) implies a@.contains_key(k) by {
            lemma_lmap_keys(b.entries@, k);
            let w = choose|w: int| 0 <= w < b.entries@.len() && b.entries@[w].name@ == k;
            assert(a@.contains_key(b.entries@[w].name@));
        }
        assert forall|k: Seq<char>| #[trigger] a@.contains_key(k) implies b@.contains_key(k) && a@[
            k] == b@[k] by {
            lemma_lmap_keys(a.entries@, k);
            let w = choose|w: int| 0 <= w < a.entries@.len() && a.entries@[w].name@ == k;
            assert(b@.contains_key(a.entries@[w].name@));
            assert(a@[a.entries@[w].name@] == b@[a.entries@[w].name@]);
        }
        assert(a@ =~= b@);
    }
    true
}

/// The name of the `i`-th entry of `m`.
fn self_name(m: &LabelMap, i: usize) -> (r: &String)
    requires
        i < m.entries@.len(),
    ensures
        r@ == m.entries@[i as int].name@,
{
    &m.entries[i].name
}

/// Whether the samples' labelsets form contiguous runs.
#[verifier::rlimit(100)]
fn interleave_check(samples: &Vec<Sample>) -> (r: bool)
    ensures
        r == spec_interleave_ok(samples_view(samples@)),
{
    let ghost ssv = samples_view(samples@);
    let n = samples.len();
    if n == 0 {
        return true;
    }
    let mut i: usize = 1;
    loop
        invariant
            1 <= i <= n,
            n == samples@.len(),
            ssv == samples_view(samples@),
            spec_interleave_ok(ssv.take(i as int)),
        ensures
            spec_interleave_ok(ssv.take(i as int)),
            i == n,
        decreases n - i,
    {
        if i >= n {
            break ;
        }
        if !lm_eq(&samples[i - 1].labels, &samples[i].labels) {
            let mut j: usize = 0;
            loop
                invariant
                    j <= i,
                    i < n,
                    n == samples@.len(),
                    ssv == samples_view(samples@),
                    ssv[i as int].labels != ssv[i - 1].labels,
                    forall|k: int| 0 <= k < j ==> (#[trigger] ssv[k]).labels != ssv[i as int].labels,
                ensures
                    j == i,
                    forall|k: int| 0 <= k < i ==> (#[trigger] ssv[k]).labels != ssv[i as int].labels,
                decreases i - j,
            {
                if j >= i {
                    break ;
                }
                if lm_eq(&samples[j].labels, &samples[i].labels) {
                    proof {
                        assert(!spec_interleave_ok(ssv)) by {
                            assert((ssv[i as int]).labels != ssv[i as int - 1].labels);
                            assert((ssv[j as int]).labels == ssv[i as int].labels);
                        }
                    }
                    return false;
                }
                j = j + 1;
            }
        }
        proof {
            let t = ssv.take(i + 1);
            assert forall|a: int, c: int|
                0 <= c < a < t.len() && (#[trigger] t[a]).labels != t[a - 1].labels implies (
            #[trigger] t[c]).labels != t[a].labels by {
                assert(t[a] == ssv[a]);
                assert(t[c] == ssv[c]);
                assert(t[a - 1] == ssv[a - 1]);
                if a < i {
                    assert(spec_interleave_ok(ssv.take(i as int)));
                    assert(ssv.take(i as int)[a] == ssv[a]);
                    assert(ssv.take(i as int)[c] == ssv[c]);
                    assert(ssv.take(i as int)[a - 1] == ssv[a - 1]);
                }
            }
        }
        i = i + 1;
    }
    proof {
        assert(ssv.take(n as int) =~= ssv);
    }
    true
}

/// Whether each run of one series carries existing, non-decreasing
/// timestamps.
#[verifier::rlimit(50)]
fn ts_check(samples: &Vec<Sample>) -> (r: bool)
    ensures
        r == spec_ts_ok(samples_view(samples@)),
{
    let ghost ssv = samples_view(samples@);
    let n = samples.len();
    if n == 0 {
        return true;
    }
    let mut i: usize = 1;
    loop
        invariant
            1 <= i <= n,
            n == samples@.len(),
            ssv == samples_view(samples@),
            forall|k: int|
                1 <= k < i && (#[trigger] ssv[k]).name == ssv[k - 1].name && ssv[k].labels == ssv[k
                    - 1].labels ==> ssv[k - 1].timestamp is Some && ssv[k].timestamp is Some
                    && !f_lt(ssv[k].timestamp.unwrap(), ssv[k - 1].timestamp.unwrap()),
        ensures
            i == n,
            forall|k: int|
                1 <= k < n && (#[trigger] ssv[k]).name == ssv[k - 1].name && ssv[k].labels == ssv[k
                    - 1].labels ==> ssv[k - 1].timestamp is Some && ssv[k].timestamp is Some
                    && !f_lt(ssv[k].timestamp.unwrap(), ssv[k - 1].timestamp.unwrap()),
        decreases n - i,
    {
        if i >= n {
            break ;
        }
        if str_eq(samples[i].name.as_str(), samples[i - 1].name.as_str()) && lm_eq(
            &samples[i].labels,
            &samples[i - 1].labels,
        ) {
            let ok = match (&samples[i - 1].timestamp, &samples[i].timestamp) {
                (Some(c), Some(t)) => !lt_bits(*t, *c),
                _ => false,
            };
            if !ok {
                proof {
                    assert(!spec_ts_ok(ssv)) by {
                        assert((ssv[i as int]).name == ssv[i as int - 1].name);
                        assert(ssv[i as int].labels == ssv[i as int - 1].labels);
                    }
                }
                return false;
            }
        }
        i = i + 1;
    }
    true
}

/// The `(threshold, value)` pairs of the bucket samples, in order.
fn collect_buckets(samples: &Vec<Sample>) -> (r: Vec<(Bits, Bits)>)
    ensures
        r@ == spec_buckets(samples_view(samples@)),
{
    let ghost ssv = samples_view(samples@);
    let n = samples.len();
    let mut r: Vec<(Bits, Bits)> = Vec::new();
    let mut i: usize = 0;
    proof {
        assert(ssv.take(0) =~= Seq::<SampleV>::empty());
    }
    loop
        invariant
            i <= n,
            n == samples@.len(),
            ssv == samples_view(samples@),
            r@ == spec_buckets(ssv.take(i as int)),
        ensures
            i == n,
            r@ == spec_buckets(ssv.take(i as int)),
        decreases n - i,
    {
        if i >= n {
            break ;
        }
        proof {
            assert(ssv.take(i + 1).drop_last() =~= ssv.take(i as int));
            assert(ssv.take(i + 1).last() == ssv[i as int]);
        }
        match samples[i].kind {
            SampleKind::HistogramBucket(th) => {
                let ghost pre = r@;
                r.push((th, samples[i].number));
                proof {
                    assert(r@ =~= pre + seq![(th, ssv[i as int].number)]);
                }
            },
            _ => {
                proof {
                    assert(r@ =~= r@ + Seq::<(Bits, Bits)>::empty());
                }
            },
        }
        i = i + 1;
    }
    proof {
        assert(ssv.take(n as int) =~= ssv);
    }
    r
}

/// The values of the `+Inf` bucket and `_count` samples, in order.
fn collect_counts(samples: &Vec<Sample>) -> (r: Vec<Bits>)
    ensures
        r@ == spec_counts(samples_view(samples@)),
{
    let ghost ssv = samples_view(samples@);
    let n = samples.len();
    let mut r: Vec<Bits> = Vec::new();
    let mut i: usize = 0;
    proof {
        assert(ssv.take(0) =~= Seq::<SampleV>::empty());
    }
    loop
        invariant
            i <= n,
            n == samples@.len(),
            ssv == samples_view(samples@),
            r@ == spec_counts(ssv.take(i as int)),
        ensures
            i == n,
            r@ == spec_counts(ssv.take(i as int)),
        decreases n - i,
    {
        if i >= n {
            break ;
        }
        proof {
            assert(ssv.take(i + 1).drop_last() =~= ssv.take(i as int));
            assert(ssv.take(i + 1).last() == ssv[i as int]);
        }
        let hit = match samples[i].kind {
            SampleKind::HistogramBucket(th) => th == INF_BITS,
            SampleKind::Count => true,
            _ => false,
        };
        if hit {
            let ghost pre = r@;
            r.push(samples[i].number);
            proof {
                assert(r@ =~= pre + seq![ssv[i as int].number]);
            }
        } else {
            proof {
                assert(r@ =~= r@ + Seq::<Bits>::empty());
            }
        }
        i = i + 1;
    }
    proof {
        assert(ssv.take(n as int) =~= ssv);
    }
    r
}

/// Whether bucket values never decrease.
#[verifier::rlimit(50)]
fn bucket_values_check(bs: &Vec<(Bits, Bits)>) -> (r: bool)
    ensures
        r == spec_bucket_values_ok(bs@),
{
    let n = bs.len();
    let mut i: usize = 0;
    loop
        invariant
            i <= n,
            n == bs@.len(),
            forall|k: int|
                0 <= k < i ==> !f_lt(
                    (#[trigger] bs@[k]).1,
                    if k == 0 {
                        ZERO_BITS
                    } else {
                        bs@[k - 1].1
                    },
                ),
        ensures
            i == n,
            forall|k: int|
                0 <= k < n ==> !f_lt(
                    (#[trigger] bs@[k]).1,
                    if k == 0 {
                        ZERO_BITS
                    } else {
                        bs@[k - 1].1
                    },
                ),
        decreases n - i,
    {
        if i >= n {
            break ;
        }
        let acc = if i == 0 {
            ZERO_BITS
        } else {
            bs[i - 1].1
        };
        if lt_bits(bs[i].1, acc) {
            return false;
        }
        i = i + 1;
    }
    true
}

/// Whether thresholds rise strictly at interior positions and end
/// infinite.
#[verifier::rlimit(50)]
fn bucket_order_check(bs: &Vec<(Bits, Bits)>) -> (r: bool)
    ensures
        r == spec_bucket_order_ok(bs@),
{
    let n = bs.len();
    if n >= 1 && !is_inf_bits(bs[n - 1].0) {
        return false;
    }
    if n < 2 {
        return true;
    }
    let mut i: usize = 1;
    loop
        invariant
            1 <= i <= n - 1,
            n == bs@.len(),
            n >= 2,
            forall|k: int| 1 <= k < i ==> !f_le((#[trigger] bs@[k]).0, bs@[k - 1].0),
        ensures
            forall|k: int| 1 <= k < n - 1 ==> !f_le((#[trigger] bs@[k]).0, bs@[k - 1].0),
        decreases n - i,
    {
        if i >= n - 1 {
            break ;
        }
        if le_bits(bs[i].0, bs[i - 1].0) {
            return false;
        }
        i = i + 1;
    }
    true
}

/// Whether the family name clashes with a finalized family through a
/// reserved suffix.
fn name_conflict(families: &MetricFamilies, fam: &str) -> (r: bool)
    ensures
        r == spec_name_conflict(families@, fam@),
{
    families.contains_key(fam.to_owned().concat("_bucket").as_str())
        || families.contains_key(fam.to_owned().concat("_count").as_str())
        || families.contains_key(fam.to_owned().concat("_created").as_str())
        || families.contains_key(fam.to_owned().concat("_gcount").as_str())
        || families.contains_key(fam.to_owned().concat("_gsum").as_str())
        || families.contains_key(fam.to_owned().concat("_info").as_str())
        || families.contains_key(fam.to_owned().concat("_sum").as_str())
        || families.contains_key(fam.to_owned().concat("_total").as_str())
}

/// The exec result `r` realizes the spec step `s`.
pub open spec fn res_ok(r: Result<Builder, ParseError>, s: Result<BuilderV, ParseError>) -> bool {
    match s {
        Ok(bv) => r matches Ok(b) && b@ == bv && b.wf(),
        Err(e) => r matches Err(e2) && e2 == e,
    }
}

pub open spec fn opt_str_view(o: Option<String>) -> Option<Seq<char>> {
    match o {
        Some(s) => Some(s@),
        None => None,
    }
}

/// The per-sample checks that depend on the family's declared type.
fn sample_type_check_exec(fam: &str, t: Option<MetricType>, s: &Sample) -> (r: Option<ParseError>)
    ensures
        r == spec_sample_type_check(fam@, t, s@),
{
    match t {
        Some(MetricType::Info) => {
            let key = fam.to_owned().concat("_info");
            if !str_eq(s.name.as_str(), key.as_str()) {
                Some(ParseError::BadInfo)
            } else if !s.labels.contains_key(fam) {
                Some(ParseError::BadInfo)
            } else if !eq_bits(s.number, ONE_BITS) {
                Some(ParseError::BadInfo)
            } else {
                None
            }
        },
        Some(MetricType::StateSet) => {
            if !str_eq(s.name.as_str(), fam) || !s.labels.contains_key(fam) {
                Some(ParseError::BadStateSet)
            } else if !eq_bits(s.number, ONE_BITS) && !eq_bits(s.number, ZERO_BITS) {
                Some(ParseError::BadStateSet)
            } else {
                None
            }
        },
        Some(MetricType::Summary) => {
            if !str_ends_with(s.name.as_str(), "_count") && !str_ends_with(s.name.as_str(), "_sum")
                && !str_ends_with(s.name.as_str(), "_created") && !(str_eq(s.name.as_str(), fam)
                && s.labels.contains_key("quantile")) {
                Some(ParseError::BadSummary)
            } else {
                None
            }
        },
        _ => None,
    }
}

/// The flag updates and value checks keyed on the sample's kind.
fn sample_kind_step_exec(t: Option<MetricType>, flags: BuilderFlags, s: &Sample) -> (r: Result<
    BuilderFlags,
    ParseError,
>)
    ensures
        r == spec_sample_kind_step(t, flags, s@),
{
    match s.kind {
        SampleKind::HistogramBucket(th) => {
            let mut f1 = flags;
            f1.has_bucket = true;
            if is_inf_bits(th) {
                f1.has_inf_bucket = true;
                Ok(f1)
            } else if is_neg_bits(th) {
                f1.has_neg_bucket = true;
                Ok(f1)
            } else {
                Ok(f1)
            }
        },
        SampleKind::Count => {
            let mut f1 = flags;
            f1.has_count = true;
            Ok(f1)
        },
        SampleKind::Total => {
            let mut f1 = flags;
            f1.has_total_bucket = true;
            Ok(f1)
        },
        SampleKind::GCount => {
            let mut f1 = flags;
            f1.has_gcount = true;
            Ok(f1)
        },
        SampleKind::Sum => {
            let summary = match t {
                Some(MetricType::Summary) => true,
                _ => false,
            };
            if summary && is_neg_bits(s.number) {
                Err(ParseError::BadCounter)
            } else if flags.has_neg_bucket {
                Err(ParseError::BadHistogram)
            } else {
                let mut f1 = flags;
                f1.has_sum = true;
                Ok(f1)
            }
        },
        SampleKind::GSum => {
            if is_neg_bits(s.number) && !flags.has_neg_bucket {
                Err(ParseError::BadCounter)
            } else {
                let mut f1 = flags;
                f1.has_gsum = true;
                Ok(f1)
            }
        },
        _ => {
            if s.labels.contains_key("quantile") && is_neg_bits(s.number) {
                Err(ParseError::BadCounter)
            } else {
                Ok(flags)
            }
        },
    }
}

/// Whether the sample may carry an exemplar.
fn exemplar_allowed_exec(name: &str, t: Option<MetricType>) -> (r: bool)
    ensures
        r == spec_exemplar_allowed(name@, t),
{
    let hist = match t {
        Some(MetricType::Histogram) => true,
        Some(MetricType::GaugeHistogram) => true,
        _ => false,
    };
    let counter = match t {
        Some(MetricType::Counter) => true,
        _ => false,
    };
    (str_ends_with(name, "_bucket") && hist) || (str_ends_with(name, "_total") && counter)
}

impl Builder {
    /// The family mapping carried so far is well formed.
    pub open spec fn wf(&self) -> bool {
        self.families.wf()
    }

    /// A fresh builder with the given options.
    pub fn new(opts: ParseOptions) -> (r: Builder)
        ensures
            r@ == spec_initial_builder(opts),
            r.wf(),
    {
        let r = Builder {
            name: None,
            help: None,
            unit: None,
            metric_type: None,
            samples: Vec::new(),
            families: MetricFamilies::new(),
            flags: BuilderFlags::default(),
            opts,
        };
        proof {
            assert(samples_view(Seq::<Sample>::empty()) =~= Seq::<SampleV>::empty());
        }
        r
    }

    /// Seeds or switches the family name.
    fn name(self, metric_name: String) -> (r: Result<Builder, ParseError>)
        requires
            self.wf(),
        ensures
            res_ok(r, spec_builder_name(self@, metric_name@)),
    {
        if self.flags.has_eof {
            return Err(ParseError::Eof);
        }
        if self.name.is_none() {
            let mut b = self;
            b.name = Some(metric_name);
            Ok(b)
        } else {
            let same = str_eq(self.name.as_ref().unwrap().as_str(), metric_name.as_str());
            if same {
                Ok(self)
            } else {
                self.finalize_family(Some(metric_name))
            }
        }
    }

    /// Finalizes the pending family and seeds `newname`.
    fn finalize_family(self, newname: Option<String>) -> (r: Result<Builder, ParseError>)
        requires
            self.wf(),
        ensures
            res_ok(r, spec_finalize_family(self@, opt_str_view(newname))),
    {
        if self.opts.no_interleave_metric && !interleave_check(&self.samples) {
            return Err(ParseError::Interleave);
        }
        if self.opts.enforce_timestamp_monotonic && !ts_check(&self.samples) {
            return Err(ParseError::BadTimestampOutOfOrder);
        }
        if self.name.is_some() && name_conflict(&self.families, self.name.as_ref().unwrap().as_str()) {
            return Err(ParseError::NameConflict);
        }
        match self.family_check() {
            Some(e) => Err(e),
            None => {
                let Builder { name, help, unit, metric_type, samples, families, flags: _, opts } =
                    self;
                let mut families = families;
                let family = MetricFamily {
                    metric_type: match metric_type {
                        Some(t) => t,
                        None => MetricType::Unknown,
                    },
                    help: match help {
                        Some(h) => Some(unescape_string(h.as_str())),
                        None => None,
                    },
                    unit,
                    samples,
                };
                match name {
                    Some(n) => {
                        families.insert(n, family);
                    },
                    None => {},
                }
                let r = Builder {
                    name: newname,
                    help: None,
                    unit: None,
                    metric_type: None,
                    samples: Vec::new(),
                    families,
                    flags: BuilderFlags::default(),
                    opts,
                };
                proof {
                    assert(samples_view(Seq::<Sample>::empty()) =~= Seq::<SampleV>::empty());
                }
                Ok(r)
            },
        }
    }

    /// The family-level checks on the pending state.
    fn family_check(&self) -> (r: Option<ParseError>)
        ensures
            r == spec_family_check(self@),
    {
        match self.metric_type {
            Some(MetricType::Histogram) => {
                if !self.flags.has_bucket {
                    Some(ParseError::BadHistogram)
                } else if !self.flags.has_inf_bucket {
                    Some(ParseError::BadHistogram)
                } else if self.flags.has_neg_bucket && self.flags.has_sum {
                    Some(ParseError::BadHistogram)
                } else if self.flags.has_sum != self.flags.has_count {
                    Some(ParseError::BadHistogram)
                } else {
                    if self.flags.has_count && self.opts.validate_histogram_count {
                        let cs = collect_counts(&self.samples);
                        let counts_ok = cs.len() == 2 && eq_bits(cs[0], cs[1]);
                        if !counts_ok {
                            return Some(ParseError::BadHistogram);
                        }
                    }
                    let bs = collect_buckets(&self.samples);
                    if !bucket_values_check(&bs) {
                        Some(ParseError::BadCounter)
                    } else if !bucket_order_check(&bs) {
                        Some(ParseError::BadBucketOrder)
                    } else {
                        None
                    }
                }
            },
            Some(MetricType::GaugeHistogram) => {
                if !self.flags.has_bucket {
                    Some(ParseError::BadHistogram)
                } else if !self.flags.has_inf_bucket {
                    Some(ParseError::BadHistogram)
                } else if self.flags.has_gcount != self.flags.has_gsum {
                    Some(ParseError::BadHistogram)
                } else {
                    None
                }
            },
            Some(MetricType::Counter) => {
                if self.samples.len() > 0 && !self.flags.has_total_bucket {
                    Some(ParseError::BadCounter)
                } else {
                    None
                }
            },
            _ => None,
        }
    }

    /// Applies one descriptor token.
    pub fn meta(self, meta: lexer::MetricDescriptor) -> (r: Result<Builder, ParseError>)
        requires
            self.wf(),
        ensures
            res_ok(r, spec_builder_meta(self@, meta@)),
    {
        if self.flags.has_eof {
            return Err(ParseError::Eof);
        }
        match meta {
            lexer::MetricDescriptor::Type { metric_name, metric_type } => {
                match self.name(metric_name) {
                    Err(e) => Err(e),
                    Ok(b1) => {
                        if b1.flags.has_eof {
                            Err(ParseError::Eof)
                        } else if b1.samples.len() > 0 {
                            Err(ParseError::DuplicateMeta)
                        } else if b1.metric_type.is_some() {
                            Err(ParseError::DuplicateMeta)
                        } else {
                            let mut b = b1;
                            b.metric_type = Some(MetricType::of_lexer(metric_type));
                            Ok(b)
                        }
                    },
                }
            },
            lexer::MetricDescriptor::Help { metric_name, help_text } => {
                match self.name(metric_name) {
                    Err(e) => Err(e),
                    Ok(b1) => {
                        if b1.flags.has_eof {
                            Err(ParseError::Eof)
                        } else if b1.samples.len() > 0 {
                            Err(ParseError::DuplicateMeta)
                        } else if b1.help.is_some() {
                            Err(ParseError::DuplicateMeta)
                        } else {
                            let mut b = b1;
                            b.help = Some(
                                match help_text {
                                    Some(t) => t,
                                    None => String::new(),
                                },
                            );
                            Ok(b)
                        }
                    },
                }
            },
            lexer::MetricDescriptor::Unit { metric_name, unit } => {
                match self.name(metric_name) {
                    Err(e) => Err(e),
                    Ok(b1) => {
                        if b1.flags.has_eof {
                            Err(ParseError::Eof)
                        } else if b1.samples.len() > 0 {
                            Err(ParseError::DuplicateMeta)
                        } else if b1.unit.is_some() {
                            Err(ParseError::DuplicateMeta)
                        } else {
                            let mut b = b1;
                            b.unit = Some(
                                match unit {
                                    Some(u) => u,
                                    None => String::new(),
                                },
                            );
                            Ok(b)
                        }
                    },
                }
            },
        }
    }

    /// Applies one sample token.
    pub fn sample(self, sample: lexer::Sample) -> (r: Result<Builder, ParseError>)
        requires
            self.wf(),
        ensures
            res_ok(r, spec_builder_sample(self@, sample@)),
    {
        if self.flags.has_eof {
            return Err(ParseError::Eof);
        }
        let mut b1 = self;
        if b1.name.is_none() {
            b1.name = Some(sample.name.clone());
        }
        let wide = b1.opts.naive_wide_char_support;
        match Sample::try_from_lexer(sample, wide) {
            Err(e) => Err(e),
            Ok(sv) => {
                if sv.exemplar.is_some() && !exemplar_allowed_exec(
                    sv.name.as_str(),
                    b1.metric_type,
                ) {
                    return Err(ParseError::BadSuffix);
                }
                if b1.name.is_none() {
                    let ghost pre = samples_view(b1.samples@);
                    let ghost svv = sv@;
                    b1.samples.push(sv);
                    proof {
                        assert(samples_view(b1.samples@) =~= pre.push(svv));
                    }
                    return Ok(b1);
                }
                let type_err = sample_type_check_exec(
                    b1.name.as_ref().unwrap().as_str(),
                    b1.metric_type,
                    &sv,
                );
                match type_err {
                    Some(e) => Err(e),
                    None => {
                        match sample_kind_step_exec(b1.metric_type, b1.flags, &sv) {
                            Err(e) => Err(e),
                            Ok(flags) => {
                                b1.flags = flags;
                                let ghost pre = samples_view(b1.samples@);
                                let ghost svv = sv@;
                                b1.samples.push(sv);
                                proof {
                                    assert(samples_view(b1.samples@) =~= pre.push(svv));
                                }
                                Ok(b1)
                            },
                        }
                    },
                }
            },
        }
    }

    /// Applies the EOF token.
    pub fn eof(self) -> (r: Result<Builder, ParseError>)
        requires
            self.wf(),
        ensures
            res_ok(r, spec_builder_eof(self@)),
    {
        let mut b = self;
        b.flags.has_eof = true;
        Ok(b)
    }

    /// Ends the stream: `# EOF` must have been seen; the last family is
    /// flushed.
    pub fn finalize(self) -> (r: Result<MetricFamilies, ParseError>)
        requires
            self.wf(),
        ensures
            match spec_builder_finalize(self@) {
                Ok(m) => r matches Ok(f) && f@ == m && f.wf(),
                Err(e) => r matches Err(e2) && e2 == e,
            },
    {
        if !self.flags.has_eof {
            return Err(ParseError::Eof);
        }
        match self.finalize_family(None) {
            Ok(b) => Ok(b.families),
            Err(e) => Err(e),
        }
    }
}

/// Folds a token stream into its family mapping under the given options.
#[verifier::loop_isolation(false)]
pub fn parse_with_options(tokens: Vec<lexer::MetricToken>, opts: ParseOptions) -> (r: Result<
    MetricFamilies,
    ParseError,
>)
    ensures
        match spec_parse_tokens(lexer::tokens_view(tokens@), opts) {
            Ok(m) => r matches Ok(f) && f@ == m && f.wf(),
            Err(e) => r matches Err(e2) && e2 == e,
        },
{
    let ghost tv = lexer::tokens_view(tokens@);
    let mut rest = tokens;
    let mut b = Builder::new(opts);
    while rest.len() > 0
        invariant
            b.wf(),
            lexer::tokens_view(rest@) =~= tv.skip(tv.len() - rest@.len()),
            rest@.len() <= tv.len(),
            spec_run(tv, 0, spec_initial_builder(opts)) == spec_run(
                tv,
                tv.len() - rest@.len(),
                b@,
            ),
        decreases rest@.len(),
    {
        let ghost i = tv.len() - rest@.len();
        let ghost pre_rest = rest@;
        let t = rest.remove(0);
        proof {
            assert(lexer::tokens_view(pre_rest)[0] == t@);
            assert(tv[i] == t@);
            assert(lexer::tokens_view(rest@) =~= lexer::tokens_view(pre_rest).skip(1));
            assert(lexer::tokens_view(pre_rest).skip(1) =~= tv.skip(i + 1));
        }
        let ghost bv = b@;
        let step = match t {
            lexer::MetricToken::Descriptor(d) => b.meta(d),
            lexer::MetricToken::Metric(s) => b.sample(s),
            lexer::MetricToken::Eof => b.eof(),
            lexer::MetricToken::Empty => Ok(b),
        };
        proof {
            assert(res_ok(step, spec_builder_step(bv, tv[i])));
        }
        match step {
            Ok(b2) => {
                b = b2;
            },
            Err(e) => {
                proof {
                    assert(0 <= i < tv.len());
                    assert(spec_builder_step(bv, tv[i]) == Err::<BuilderV, ParseError>(e));
                    assert(spec_run(tv, i, bv) == Err::<BuilderV, ParseError>(e));
                    assert(spec_run(tv, 0, spec_initial_builder(opts)) == Err::<
                        BuilderV,
                        ParseError,
                    >(e));
                    assert(spec_parse_tokens(tv, opts) == Err::<
                        Map<Seq<char>, FamilyV>,
                        ParseError,
                    >(e));
                }
                return Err(e);
            },
        }
    }
    proof {
        assert(spec_run(tv, tv.len() - rest@.len(), b@) == Ok::<BuilderV, ParseError>(b@));
    }
    b.finalize()
}

/// Folds a token stream into its family mapping with the default options.
pub fn parse(tokens: Vec<lexer::MetricToken>) -> (r: Result<MetricFamilies, ParseError>)
    ensures
        match spec_parse_tokens(lexer::tokens_view(tokens@), spec_default_options()) {
            Ok(m) => r matches Ok(f) && f@ == m && f.wf(),
            Err(e) => r matches Err(e2) && e2 == e,
        },
{
    parse_with_options(tokens, ParseOptions::default())
}

/// Distinctness of names survives removing an entry and appending a fresh
/// one whose name matched the removed entry.
proof fn lemma_remove_distinct(
    pre: Seq<FamilyEntry>,
    i: int,
    a: int,
    b: int,
    post: Seq<FamilyEntry>,
)
    requires
        fmap_wf(pre),
        0 <= i < pre.len(),
        post.len() == pre.len(),
        post.drop_last() =~= pre.remove(i),
        post.last().name@ == pre[i].name@,
        0 <= a < b < post.len(),
    ensures
        post[a].name@ != post[b].name@,
{
    if b < post.len() - 1 {
        assert(post[a] == pre.remove(i)[a]);
        assert(post[b] == pre.remove(i)[b]);
        if a < i {
            assert(pre.remove(i)[a] == pre[a]);
        } else {
            assert(pre.remove(i)[a] == pre[a + 1]);
        }
        if b < i {
            assert(pre.remove(i)[b] == pre[b]);
        } else {
            assert(pre.remove(i)[b] == pre[b + 1]);
        }
    } else {
        assert(post[a] == pre.remove(i)[a]);
        if a < i {
            assert(pre.remove(i)[a] == pre[a]);
            assert(pre[a].name@ != pre[i].name@);
        } else {
            assert(pre.remove(i)[a] == pre[a + 1]);
            assert(pre[a + 1].name@ != pre[i].name@);
        }
    }
}

/// Every label of the set obeys the length cap: name bytes plus value
/// code points within 128, or name and value bytes within 256 under the
/// wide-char option.
pub open spec fn spec_label_cap_ok(m: Map<Seq<char>, Seq<char>>, wide: bool) -> bool {
    forall|k: Seq<char>| #[trigger]
        m.contains_key(k) ==> (if wide {
            spec_utf8_len_seq(k) + spec_utf8_len_seq(m[k]) <= 256
        } else {
            spec_utf8_len_seq(k) + m[k].len() <= 128
        })
}

/// A bucket threshold is never NaN, and infinite only as positive
/// infinity.
pub open spec fn spec_kind_wf(k: SampleKind) -> bool {
    match k {
        SampleKind::HistogramBucket(th) => !f_is_nan(th) && (f_is_inf(th) ==> th == INF_BITS),
        _ => true,
    }
}

/// What validation guarantees of every stored sample.
pub open spec fn spec_sample_ok(s: SampleV, wide: bool) -> bool {
    spec_label_cap_ok(s.labels, wide) && (s.exemplar matches Some(e) ==> spec_label_cap_ok(
        e.labels,
        wide,
    )) && spec_kind_wf(s.kind)
}

/// What finalization guarantees of every stored family.
pub open spec fn spec_family_ok(f: FamilyV, wide: bool) -> bool {
    (forall|i: int| 0 <= i < f.samples.len() ==> spec_sample_ok(#[trigger] f.samples[i], wide)) && (
    f.metric_type == MetricType::Histogram ==> spec_buckets(f.samples).len() >= 1
        && spec_bucket_values_ok(spec_buckets(f.samples)) && spec_bucket_order_ok(
        spec_buckets(f.samples),
    )) && (f.metric_type == MetricType::Counter && f.samples.len() > 0 ==> exists|i: int|
        0 <= i < f.samples.len() && (#[trigger] f.samples[i]).kind == SampleKind::Total)
}

spec fn spec_flags_ok(b: BuilderV) -> bool {
    (b.flags.has_total_bucket ==> exists|i: int|
        0 <= i < b.samples.len() && (#[trigger] b.samples[i]).kind == SampleKind::Total) && (
    b.flags.has_bucket ==> exists|i: int|
        0 <= i < b.samples.len() && (#[trigger] b.samples[i]).kind is HistogramBucket)
}

/// The invariant the fold maintains: every finalized family and every
/// pending sample passed its checks, and the flags stand for samples that
/// are really there.
spec fn spec_builder_ok(b: BuilderV) -> bool {
    (forall|k: Seq<char>| #[trigger]
        b.families.contains_key(k) ==> spec_family_ok(
            b.families[k],
            b.opts.naive_wide_char_support,
        )) && (forall|i: int|
        0 <= i < b.samples.len() ==> spec_sample_ok(
            #[trigger] b.samples[i],
            b.opts.naive_wide_char_support,
        )) && spec_flags_ok(b)
}

/// Unescaping never lengthens a string, in code points or in bytes.
proof fn lemma_unescape_shrinks(s: Seq<char>)
    ensures
        spec_unescape(s).len() <= s.len(),
        spec_utf8_len_seq(spec_unescape(s)) <= spec_utf8_len_seq(s),
    decreases s.len(),
{
    if s.len() >= 2 && s[0] == '\\' && (s[1] == 'n' || s[1] == '"' || s[1] == '\\') {
        lemma_unescape_shrinks(s.skip(2));
        let rest = spec_unescape(s.skip(2));
        let u = seq![unescaped_char(s[1])] + rest;
        assert(u[0] == unescaped_char(s[1]));
        assert(u.skip(1) =~= rest);
        assert(s.skip(1)[0] == s[1]);
        assert(s.skip(1).skip(1) =~= s.skip(2));
        assert(spec_utf8_len(unescaped_char(s[1])) == 1);
        assert(spec_utf8_len(s[0]) == 1);
        assert(spec_utf8_len(s[1]) == 1);
        if u.len() > 0 {
            assert(spec_utf8_len_seq(u) == spec_utf8_len(u[0]) + spec_utf8_len_seq(u.skip(1)));
        }
        assert(spec_utf8_len_seq(s) == spec_utf8_len(s[0]) + spec_utf8_len_seq(s.skip(1)));
        assert(spec_utf8_len_seq(s.skip(1)) == spec_utf8_len(s[1]) + spec_utf8_len_seq(
            s.skip(1).skip(1),
        ));
    } else if s.len() >= 1 {
        lemma_unescape_shrinks(s.skip(1));
        let rest = spec_unescape(s.skip(1));
        let u = seq![s[0]] + rest;
        assert(u[0] == s[0]);
        assert(u.skip(1) =~= rest);
        assert(spec_utf8_len_seq(u) == spec_utf8_len(u[0]) + spec_utf8_len_seq(u.skip(1)));
        assert(spec_utf8_len_seq(s) == spec_utf8_len(s[0]) + spec_utf8_len_seq(s.skip(1)));
    }
}

/// The label fold only stores labels under the cap.
proof fn lemma_label_fold_cap(
    ls: Seq<lexer::LabelV>,
    i: int,
    acc: Map<Seq<char>, Seq<char>>,
    wide: bool,
)
    requires
        0 <= i <= ls.len(),
        spec_label_cap_ok(acc, wide),
    ensures
        spec_labels_fold(ls, i, acc, wide) matches Ok(m) ==> spec_label_cap_ok(m, wide),
    decreases ls.len() - i,
{
    if i < ls.len() {
        match spec_label_try_from(ls[i], wide) {
            Err(ParseError::EmptyLabel) => {
                lemma_label_fold_cap(ls, i + 1, acc, wide);
            },
            Err(_) => {},
            Ok(p) => {
                if !acc.contains_key(p.0) {
                    let v = ls[i].value.unwrap();
                    lemma_unescape_shrinks(v);
                    assert(spec_label_cap_ok(acc.insert(p.0, p.1), wide)) by {
                        assert forall|k: Seq<char>| #[trigger]
                            acc.insert(p.0, p.1).contains_key(k) implies (if wide {
                            spec_utf8_len_seq(k) + spec_utf8_len_seq(acc.insert(p.0, p.1)[k])
                                <= 256
                        } else {
                            spec_utf8_len_seq(k) + acc.insert(p.0, p.1)[k].len() <= 128
                        }) by {
                            if k != p.0 {
                                assert(acc.contains_key(k));
                            }
                        }
                    }
                    lemma_label_fold_cap(ls, i + 1, acc.insert(p.0, p.1), wide);
                }
            },
        }
    }
}

/// Validation yields only samples that satisfy `spec_sample_ok`.
proof fn lemma_sample_try_ok(l: lexer::SampleV, wide: bool)
    ensures
        spec_sample_try_from(l, wide) matches Ok(sv) ==> spec_sample_ok(sv, wide),
{
    let ls = match l.labels {
        Some(x) => x,
        None => Seq::empty(),
    };
    assert(spec_label_cap_ok(Map::empty(), wide));
    lemma_label_fold_cap(ls, 0, Map::empty(), wide);
    match l.exemplar {
        Some(e) => {
            lemma_label_fold_cap(e.labels, 0, Map::empty(), wide);
        },
        None => {},
    }
}

/// A sample with a bucket kind puts at least one pair in the projection.
proof fn lemma_buckets_nonempty(ss: Seq<SampleV>, i: int)
    requires
        0 <= i < ss.len(),
        ss[i].kind is HistogramBucket,
    ensures
        spec_buckets(ss).len() >= 1,
    decreases ss.len(),
{
    if i < ss.len() - 1 {
        assert(ss.drop_last()[i] == ss[i]);
        lemma_buckets_nonempty(ss.drop_last(), i);
    }
}

/// Every pair of the bucket projection comes from some sample's kind.
proof fn lemma_buckets_from_samples(ss: Seq<SampleV>, j: int)
    requires
        0 <= j < spec_buckets(ss).len(),
    ensures
        exists|i: int|
            0 <= i < ss.len() && (#[trigger] ss[i]).kind == SampleKind::HistogramBucket(
                spec_buckets(ss)[j].0,
            ),
    decreases ss.len(),
{
    if ss.len() > 0 {
        let pre = spec_buckets(ss.drop_last());
        if j < pre.len() {
            lemma_buckets_from_samples(ss.drop_last(), j);
            let i = choose|i: int|
                0 <= i < ss.drop_last().len() && (#[trigger] ss.drop_last()[i]).kind
                    == SampleKind::HistogramBucket(pre[j].0);
            assert(ss[i] == ss.drop_last()[i]);
            assert(spec_buckets(ss)[j] == pre[j]);
        } else {
            assert(ss[ss.len() - 1].kind is HistogramBucket);
            assert(spec_buckets(ss)[j].0 == (match ss.last().kind {
                SampleKind::HistogramBucket(th) => th,
                _ => arbitrary(),
            }));
        }
    }
}

/// One fold step preserves the invariant.
proof fn lemma_step_ok(b: BuilderV, t: lexer::TokenV)
    requires
        spec_builder_ok(b),
    ensures
        spec_builder_step(b, t) matches Ok(b2) ==> spec_builder_ok(b2) && b2.opts == b.opts,
{
    match t {
        lexer::TokenV::Descriptor(d) => {
            lemma_meta_ok(b, d);
        },
        lexer::TokenV::Metric(s) => {
            lemma_sample_step_ok(b, s);
        },
        lexer::TokenV::Eof => {},
        lexer::TokenV::Empty => {},
    }
}

proof fn lemma_name_ok(b: BuilderV, n: Seq<char>)
    requires
        spec_builder_ok(b),
    ensures
        spec_builder_name(b, n) matches Ok(b2) ==> spec_builder_ok(b2) && b2.opts == b.opts,
{
    if !b.flags.has_eof {
        match b.name {
            None => {},
            Some(cur) => {
                if cur != n {
                    lemma_finalize_ok(b, Some(n));
                }
            },
        }
    }
}

proof fn lemma_meta_ok(b: BuilderV, d: lexer::DescriptorV)
    requires
        spec_builder_ok(b),
    ensures
        spec_builder_meta(b, d) matches Ok(b2) ==> spec_builder_ok(b2) && b2.opts == b.opts,
{
    match d {
        lexer::DescriptorV::Type { name, metric_type } => {
            lemma_name_ok(b, name);
        },
        lexer::DescriptorV::Help { name, text } => {
            lemma_name_ok(b, name);
        },
        lexer::DescriptorV::Unit { name, unit } => {
            lemma_name_ok(b, name);
        },
    }
}

proof fn lemma_sample_step_ok(b: BuilderV, s: lexer::SampleV)
    requires
        spec_builder_ok(b),
    ensures
        spec_builder_sample(b, s) matches Ok(b2) ==> spec_builder_ok(b2) && b2.opts == b.opts,
{
    if !b.flags.has_eof {
        let b1 = if b.name is None {
            BuilderV { name: Some(s.name), ..b }
        } else {
            b
        };
        assert(spec_builder_ok(b1));
        lemma_sample_try_ok(s, b1.opts.naive_wide_char_support);
        match spec_sample_try_from(s, b1.opts.naive_wide_char_support) {
            Err(_) => {},
            Ok(sv) => {
                match b1.name {
                    None => {
                        let b2 = BuilderV { samples: b1.samples.push(sv), ..b1 };
                        assert(spec_builder_ok(b2)) by {
                            lemma_push_sample_ok(b1, sv, b1.flags);
                        }
                    },
                    Some(fam) => {
                        match spec_sample_kind_step(b1.metric_type, b1.flags, sv) {
                            Err(_) => {},
                            Ok(flags) => {
                                lemma_push_sample_ok(b1, sv, flags);
                            },
                        }
                    },
                }
            },
        }
    }
}

/// Pushing a validated sample, with flags grown by its kind step,
/// preserves the invariant.
proof fn lemma_push_sample_ok(b1: BuilderV, sv: SampleV, flags: BuilderFlags)
    requires
        spec_builder_ok(b1),
        spec_sample_ok(sv, b1.opts.naive_wide_char_support),
        spec_sample_kind_step(b1.metric_type, b1.flags, sv) == Ok::<BuilderFlags, ParseError>(
            flags,
        ) || flags == b1.flags,
    ensures
        spec_builder_ok(BuilderV { samples: b1.samples.push(sv), flags, ..b1 }),
{
    let b2 = BuilderV { samples: b1.samples.push(sv), flags, ..b1 };
    let n = b1.samples.len() as int;
    assert forall|i: int| 0 <= i < b2.samples.len() implies spec_sample_ok(
        #[trigger] b2.samples[i],
        b2.opts.naive_wide_char_support,
    ) by {
        if i < n {
            assert(b2.samples[i] == b1.samples[i]);
        } else {
            assert(b2.samples[i] == sv);
        }
    }
    assert(spec_flags_ok(b2)) by {
        if b2.flags.has_total_bucket {
            if b1.flags.has_total_bucket {
                let w = choose|i: int|
                    0 <= i < b1.samples.len() && (#[trigger] b1.samples[i]).kind
                        == SampleKind::Total;
                assert(b2.samples[w].kind == SampleKind::Total);
            } else {
                assert(sv.kind == SampleKind::Total);
                assert(b2.samples[n].kind == SampleKind::Total);
            }
        }
        if b2.flags.has_bucket {
            if b1.flags.has_bucket {
                let w = choose|i: int|
                    0 <= i < b1.samples.len() && (#[trigger] b1.samples[i]).kind
                        is HistogramBucket;
                assert(b2.samples[w].kind is HistogramBucket);
            } else {
                assert(sv.kind is HistogramBucket);
                assert(b2.samples[n].kind is HistogramBucket);
            }
        }
    }
}

/// Finalization preserves the invariant: the stored family inherits what
/// its checks established.
proof fn lemma_finalize_ok(b: BuilderV, newname: Option<Seq<char>>)
    requires
        spec_builder_ok(b),
    ensures
        spec_finalize_family(b, newname) matches Ok(b2) ==> spec_builder_ok(b2) && b2.opts
            == b.opts,
{
    let wide = b.opts.naive_wide_char_support;
    if spec_finalize_family(b, newname) is Ok {
        let fam = spec_pending_family(b);
        assert(spec_family_check(b) is None);
        assert(spec_family_ok(fam, wide)) by {
            assert(fam.samples == b.samples);
            if fam.metric_type == MetricType::Histogram {
                assert(b.metric_type == Some(MetricType::Histogram));
                assert(b.flags.has_bucket);
                let w = choose|i: int|
                    0 <= i < b.samples.len() && (#[trigger] b.samples[i]).kind is HistogramBucket;
                lemma_buckets_nonempty(b.samples, w);
            }
            if fam.metric_type == MetricType::Counter && fam.samples.len() > 0 {
                assert(b.metric_type == Some(MetricType::Counter));
                assert(b.flags.has_total_bucket);
            }
        }
        let b2 = spec_finalize_family(b, newname).unwrap();
        assert forall|k: Seq<char>| #[trigger] b2.families.contains_key(k) implies spec_family_ok(
            b2.families[k],
            wide,
        ) by {
            match b.name {
                Some(nm) => {
                    if k != nm {
                        assert(b.families.contains_key(k));
                    }
                },
                None => {
                    assert(b.families.contains_key(k));
                },
            }
        }
    }
}

/// The whole fold preserves the invariant.
proof fn lemma_run_ok(ts: Seq<lexer::TokenV>, i: int, b: BuilderV)
    requires
        0 <= i <= ts.len(),
        spec_builder_ok(b),
    ensures
        spec_run(ts, i, b) matches Ok(b2) ==> spec_builder_ok(b2) && b2.opts == b.opts,
    decreases ts.len() - i,
{
    if i < ts.len() {
        lemma_step_ok(b, ts[i]);
        match spec_builder_step(b, ts[i]) {
            Ok(b2) => {
                lemma_run_ok(ts, i + 1, b2);
            },
            Err(_) => {},
        }
    }
}

/// Every family of a successful parse satisfies `spec_family_ok`.
pub proof fn lemma_parse_tokens_ok(
    ts: Seq<lexer::TokenV>,
    opts: ParseOptions,
    m: Map<Seq<char>, FamilyV>,
)
    requires
        spec_parse_tokens(ts, opts) == Ok::<Map<Seq<char>, FamilyV>, ParseError>(m),
    ensures
        forall|k: Seq<char>| #[trigger]
            m.contains_key(k) ==> spec_family_ok(m[k], opts.naive_wide_char_support),
{
    assert(spec_builder_ok(spec_initial_builder(opts)));
    lemma_run_ok(ts, 0, spec_initial_builder(opts));
    let b = spec_run(ts, 0, spec_initial_builder(opts)).unwrap();
    assert(b.flags.has_eof);
    lemma_finalize_ok(b, None);
    let b2 = spec_finalize_family(b, None).unwrap();
    assert(m == b2.families);
    assert forall|k: Seq<char>| #[trigger] m.contains_key(k) implies spec_family_ok(
        m[k],
        opts.naive_wide_char_support,
    ) by {
        assert(b2.families.contains_key(k));
        assert(spec_builder_ok(b2));
        assert(b2.opts == opts);
    }
}

/// In every histogram family of a successful parse, the bucket samples
/// exist, their thresholds rise strictly pair by pair (only a repeated
/// final `+Inf` bucket escapes the comparison), the final threshold is
/// positive infinity, and the bucket values never decrease.
#[verifier::rlimit(100)]
pub proof fn lemma_histogram_bucket_shape(
    ts: Seq<lexer::TokenV>,
    opts: ParseOptions,
    m: Map<Seq<char>, FamilyV>,
    name: Seq<char>,
)
    requires
        spec_parse_tokens(ts, opts) == Ok::<Map<Seq<char>, FamilyV>, ParseError>(m),
        m.contains_key(name),
        m[name].metric_type == MetricType::Histogram,
    ensures
        spec_buckets(m[name].samples).len() >= 1,
        f_is_pos_inf(spec_buckets(m[name].samples).last().0),
        forall|i: int|
            1 <= i < spec_buckets(m[name].samples).len() ==> f_lt(
                (#[trigger] spec_buckets(m[name].samples)[i - 1]).0,
                spec_buckets(m[name].samples)[i].0,
            ) || spec_buckets(m[name].samples)[i - 1].0 == INF_BITS,
        spec_bucket_values_ok(spec_buckets(m[name].samples)),
{
    lemma_parse_tokens_ok(ts, opts, m);
    let f = m[name];
    let bs = spec_buckets(f.samples);
    assert(spec_family_ok(f, opts.naive_wide_char_support));
    assert forall|j: int| 0 <= j < bs.len() implies !f_is_nan((#[trigger] bs[j]).0) && (f_is_inf(
        bs[j].0,
    ) ==> bs[j].0 == INF_BITS) by {
        lemma_buckets_from_samples(f.samples, j);
        let w = choose|i: int|
            0 <= i < f.samples.len() && (#[trigger] f.samples[i]).kind
                == SampleKind::HistogramBucket(bs[j].0);
        assert(spec_sample_ok(f.samples[w], opts.naive_wide_char_support));
    }
    assert(f_is_inf(bs.last().0));
    assert(bs.last() == bs[bs.len() - 1]);
    assert forall|i: int|
        1 <= i < bs.len() implies f_lt((#[trigger] bs[i - 1]).0, bs[i].0) || bs[i - 1].0
        == INF_BITS by {
        if i < bs.len() - 1 {
            assert(!f_le(bs[i].0, bs[i - 1].0));
        } else {
            if bs[i - 1].0 != INF_BITS {
                assert(!f_is_inf(bs[i - 1].0));
                assert(f_mag(bs[i - 1].0) < INF_MAG);
                assert(bs[i].0 == INF_BITS);
                assert(f_key(INF_BITS) == INF_MAG);
                assert(f_lt(bs[i - 1].0, bs[i].0));
            }
        }
    }
}

/// Every nonempty counter family of a successful parse has a sample of
/// kind `Total`.
pub proof fn lemma_counter_has_total(
    ts: Seq<lexer::TokenV>,
    opts: ParseOptions,
    m: Map<Seq<char>, FamilyV>,
    name: Seq<char>,
)
    requires
        spec_parse_tokens(ts, opts) == Ok::<Map<Seq<char>, FamilyV>, ParseError>(m),
        m.contains_key(name),
        m[name].metric_type == MetricType::Counter,
        m[name].samples.len() > 0,
    ensures
        exists|i: int|
            0 <= i < m[name].samples.len() && (#[trigger] m[name].samples[i]).kind
                == SampleKind::Total,
{
    lemma_parse_tokens_ok(ts, opts, m);
    assert(spec_family_ok(m[name], opts.naive_wide_char_support));
}

/// Every label of every sample (and exemplar) of a successful parse obeys
/// the length cap of the options in force.
pub proof fn lemma_label_caps(
    ts: Seq<lexer::TokenV>,
    opts: ParseOptions,
    m: Map<Seq<char>, FamilyV>,
    name: Seq<char>,
)
    requires
        spec_parse_tokens(ts, opts) == Ok::<Map<Seq<char>, FamilyV>, ParseError>(m),
        m.contains_key(name),
    ensures
        forall|i: int|
            0 <= i < m[name].samples.len() ==> spec_label_cap_ok(
                (#[trigger] m[name].samples[i]).labels,
                opts.naive_wide_char_support,
            ) && (m[name].samples[i].exemplar matches Some(e) ==> spec_label_cap_ok(
                e.labels,
                opts.naive_wide_char_support,
            )),
{
    lemma_parse_tokens_ok(ts, opts, m);
    assert(spec_family_ok(m[name], opts.naive_wide_char_support));
}

} // verus!
