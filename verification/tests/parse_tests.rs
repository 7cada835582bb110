use om_nomnomnom::parse;
use om_nomnomnom::parser::{MetricType, ParseError, SampleKind};
use om_nomnomnom::OmError;

fn value_of(bits: u64) -> f64 {
    f64::from_bits(bits)
}

#[test]
fn simple_counter() {
    let fams = parse("# TYPE a counter\na_total 1\n# EOF\n").unwrap();
    assert_eq!(fams.len(), 1);
    let f = fams.get("a").unwrap();
    assert_eq!(f.metric_type, MetricType::Counter);
    assert_eq!(f.samples.len(), 1);
    let s = &f.samples[0];
    assert_eq!(s.name, "a_total");
    assert_eq!(value_of(s.number), 1.0);
    assert_eq!(s.kind, SampleKind::Total);
}

#[test]
fn simple_gauge() {
    let fams = parse("# TYPE a gauge\na 12.5\n# EOF\n").unwrap();
    let f = fams.get("a").unwrap();
    assert_eq!(f.metric_type, MetricType::Gauge);
    assert_eq!(value_of(f.samples[0].number), 12.5);
}

#[test]
fn no_newline_after_eof() {
    let fams = parse("# TYPE a gauge\na 1\n# EOF").unwrap();
    assert_eq!(fams.len(), 1);
}

#[test]
fn empty_exposition() {
    let fams = parse("# EOF\n").unwrap();
    assert_eq!(fams.len(), 0);
}

#[test]
fn untyped_family_defaults_to_unknown() {
    let fams = parse("a 1\n# EOF\n").unwrap();
    let f = fams.get("a").unwrap();
    assert_eq!(f.metric_type, MetricType::Unknown);
    assert_eq!(f.samples[0].kind, SampleKind::Other);
}

#[test]
fn escaping() {
    let input = "# HELP a quote \\\" newline \\n backslash \\\\ end\na{b=\"va\\nl\\\"ue\"} 1\n# EOF\n";
    let fams = parse(input).unwrap();
    let f = fams.get("a").unwrap();
    assert_eq!(f.help.as_deref(), Some("quote \" newline \n backslash \\ end"));
    assert_eq!(f.samples[0].labels.get("b").unwrap(), "va\nl\"ue");
}

#[test]
fn unknown_escape_kept_literally() {
    let fams = parse("a{b=\"x\\qy\"} 1\n# EOF\n").unwrap();
    let f = fams.get("a").unwrap();
    assert_eq!(f.samples[0].labels.get("b").unwrap(), "x\\qy");
}

#[test]
fn empty_help() {
    let fams = parse("# HELP a \na 1\n# EOF\n").unwrap();
    let f = fams.get("a").unwrap();
    assert_eq!(f.help.as_deref(), Some(""));
}

#[test]
fn counter_unit() {
    let fams = parse("# TYPE a counter\n# UNIT a seconds\na_total 1\n# EOF\n").unwrap();
    let f = fams.get("a").unwrap();
    assert_eq!(f.unit.as_deref(), Some("seconds"));
}

#[test]
fn unit_without_text() {
    let fams = parse("# UNIT a\na 1\n# EOF\n").unwrap();
    let f = fams.get("a").unwrap();
    assert_eq!(f.unit.as_deref(), Some(""));
}

#[test]
fn bad_no_eof() {
    let e = parse("# TYPE a counter\na_total 1\n").unwrap_err();
    assert!(matches!(e, OmError::Parse(ParseError::Eof)));
}

#[test]
fn bad_text_after_eof() {
    let e = parse("# TYPE a counter\na_total 1\n# EOF\na_total 2\n# EOF\n").unwrap_err();
    assert!(matches!(e, OmError::Parse(ParseError::Eof)));
}

#[test]
fn bad_blank_line_is_a_lex_error() {
    let e = parse("# TYPE a counter\n\na_total 1\n# EOF\n").unwrap_err();
    assert!(matches!(e, OmError::LexError(_)));
}

#[test]
fn bad_clashing_names() {
    let input = "# TYPE foo_total gauge\nfoo_total 1\n# TYPE foo counter\nfoo_total 1\n# EOF\n";
    let e = parse(input).unwrap_err();
    assert!(matches!(e, OmError::Parse(ParseError::NameConflict)));
}

#[test]
fn simple_histogram() {
    let input = "# TYPE h histogram\nh_bucket{le=\"0.5\"} 5\nh_bucket{le=\"1.0\"} 7\nh_bucket{le=\"+Inf\"} 15\nh_count 15\nh_sum 2\n# EOF\n";
    let fams = parse(input).unwrap();
    let f = fams.get("h").unwrap();
    assert_eq!(f.metric_type, MetricType::Histogram);
    assert_eq!(f.samples.len(), 5);
    match f.samples[0].kind {
        SampleKind::HistogramBucket(th) => assert_eq!(value_of(th), 0.5),
        _ => panic!("expected a bucket"),
    }
    match f.samples[1].kind {
        SampleKind::HistogramBucket(th) => assert_eq!(value_of(th), 1.0),
        _ => panic!("expected a bucket"),
    }
    match f.samples[2].kind {
        SampleKind::HistogramBucket(th) => assert!(value_of(th).is_infinite()),
        _ => panic!("expected a bucket"),
    }
    assert_eq!(f.samples[3].kind, SampleKind::Count);
    assert_eq!(f.samples[4].kind, SampleKind::Sum);
}

#[test]
fn bad_histogram_bucket_order() {
    let input = "# TYPE h histogram\nh_bucket{le=\"1\"} 5\nh_bucket{le=\"0.5\"} 7\nh_bucket{le=\"+Inf\"} 15\nh_count 15\nh_sum 2\n# EOF\n";
    let e = parse(input).unwrap_err();
    assert!(matches!(e, OmError::Parse(ParseError::BadBucketOrder)));
}

#[test]
fn bad_histogram_without_inf_bucket() {
    let input = "# TYPE h histogram\nh_bucket{le=\"1\"} 5\n# EOF\n";
    let e = parse(input).unwrap_err();
    assert!(matches!(e, OmError::Parse(ParseError::BadHistogram)));
}

#[test]
fn bad_histogram_sum_without_count() {
    let input = "# TYPE h histogram\nh_bucket{le=\"+Inf\"} 5\nh_sum 2\n# EOF\n";
    let e = parse(input).unwrap_err();
    assert!(matches!(e, OmError::Parse(ParseError::BadHistogram)));
}

#[test]
fn bad_histogram_bucket_values_decreasing() {
    let input = "# TYPE h histogram\nh_bucket{le=\"1\"} 5\nh_bucket{le=\"+Inf\"} 3\n# EOF\n";
    let e = parse(input).unwrap_err();
    assert!(matches!(e, OmError::Parse(ParseError::BadCounter)));
}

#[test]
fn bad_bucket_without_le() {
    let input = "# TYPE h histogram\nh_bucket 5\n# EOF\n";
    let e = parse(input).unwrap_err();
    assert!(matches!(e, OmError::Parse(ParseError::BadBucket)));
}

#[test]
fn bad_bucket_le_unparseable() {
    let input = "# TYPE h histogram\nh_bucket{le=\"wide\"} 5\n# EOF\n";
    let e = parse(input).unwrap_err();
    assert!(matches!(e, OmError::Parse(ParseError::BadBucket)));
}

#[test]
fn bad_bucket_le_nan() {
    let input = "# TYPE h histogram\nh_bucket{le=\"NaN\"} 5\n# EOF\n";
    let e = parse(input).unwrap_err();
    assert!(matches!(e, OmError::Parse(ParseError::BadBucket)));
}

#[test]
fn bad_bucket_negative_value() {
    let input = "# TYPE h histogram\nh_bucket{le=\"+Inf\"} -1\n# EOF\n";
    let e = parse(input).unwrap_err();
    assert!(matches!(e, OmError::Parse(ParseError::BadHistogram)));
}

#[test]
fn negative_bucket_histogram() {
    let input = "# TYPE h histogram\nh_bucket{le=\"-1\"} 3\nh_bucket{le=\"+Inf\"} 5\n# EOF\n";
    let fams = parse(input).unwrap();
    assert_eq!(fams.get("h").unwrap().samples.len(), 2);
}

#[test]
fn negative_bucket_forbids_sum() {
    let input =
        "# TYPE h histogram\nh_bucket{le=\"-1\"} 3\nh_bucket{le=\"+Inf\"} 5\nh_sum 2\nh_count 5\n# EOF\n";
    let e = parse(input).unwrap_err();
    assert!(matches!(e, OmError::Parse(ParseError::BadHistogram)));
}

#[test]
fn bad_counter_negative_total() {
    let e = parse("# TYPE a counter\na_total -1\n# EOF\n").unwrap_err();
    assert!(matches!(e, OmError::Parse(ParseError::BadCounter)));
}

#[test]
fn bad_counter_nan_total() {
    let e = parse("# TYPE a counter\na_total NaN\n# EOF\n").unwrap_err();
    assert!(matches!(e, OmError::Parse(ParseError::BadCounter)));
}

#[test]
fn bad_counter_without_total() {
    let e = parse("# TYPE a counter\na_created 1\n# EOF\n").unwrap_err();
    assert!(matches!(e, OmError::Parse(ParseError::BadCounter)));
}

#[test]
fn simple_gaugehistogram() {
    let input = "# TYPE gh gaugehistogram\ngh_bucket{le=\"+Inf\"} 5\ngh_gcount 5\ngh_gsum 2\n# EOF\n";
    let fams = parse(input).unwrap();
    let f = fams.get("gh").unwrap();
    assert_eq!(f.metric_type, MetricType::GaugeHistogram);
    assert_eq!(f.samples[1].kind, SampleKind::GCount);
    assert_eq!(f.samples[2].kind, SampleKind::GSum);
}

#[test]
fn bad_gaugehistogram_gcount_without_gsum() {
    let input = "# TYPE gh gaugehistogram\ngh_bucket{le=\"+Inf\"} 5\ngh_gcount 5\n# EOF\n";
    let e = parse(input).unwrap_err();
    assert!(matches!(e, OmError::Parse(ParseError::BadHistogram)));
}

#[test]
fn simple_stateset() {
    let input = "# TYPE s stateset\ns{s=\"on\"} 1\ns{s=\"off\"} 0\n# EOF\n";
    let fams = parse(input).unwrap();
    assert_eq!(fams.get("s").unwrap().samples.len(), 2);
}

#[test]
fn bad_stateset_value() {
    let e = parse("# TYPE s stateset\ns{s=\"on\"} 2\n# EOF\n").unwrap_err();
    assert!(matches!(e, OmError::Parse(ParseError::BadStateSet)));
}

#[test]
fn bad_stateset_missing_label() {
    let e = parse("# TYPE s stateset\ns{other=\"on\"} 1\n# EOF\n").unwrap_err();
    assert!(matches!(e, OmError::Parse(ParseError::BadStateSet)));
}

#[test]
fn simple_info() {
    let input = "# TYPE i info\ni_info{i=\"1.2.3\"} 1\n# EOF\n";
    let fams = parse(input).unwrap();
    assert_eq!(fams.get("i").unwrap().samples.len(), 1);
}

#[test]
fn bad_info_value() {
    let e = parse("# TYPE i info\ni_info{i=\"1.2.3\"} 2\n# EOF\n").unwrap_err();
    assert!(matches!(e, OmError::Parse(ParseError::BadInfo)));
}

#[test]
fn bad_info_name() {
    let e = parse("# TYPE i info\ni_data{i=\"1.2.3\"} 1\n# EOF\n").unwrap_err();
    assert!(matches!(e, OmError::Parse(ParseError::BadInfo)));
}

#[test]
fn simple_summary() {
    let input = "# TYPE s summary\ns_count 3\ns_sum 6\ns{quantile=\"0.5\"} 2\n# EOF\n";
    let fams = parse(input).unwrap();
    let f = fams.get("s").unwrap();
    assert_eq!(f.metric_type, MetricType::Summary);
    match f.samples[2].kind {
        SampleKind::Quantile(q) => assert_eq!(value_of(q), 0.5),
        _ => panic!("expected a quantile"),
    }
}

#[test]
fn bad_summary_foreign_suffix() {
    let e = parse("# TYPE s summary\ns_other 3\n# EOF\n").unwrap_err();
    assert!(matches!(e, OmError::Parse(ParseError::BadSummary)));
}

#[test]
fn bad_summary_negative_sum() {
    let e = parse("# TYPE s summary\ns_count 3\ns_sum -6\n# EOF\n").unwrap_err();
    assert!(matches!(e, OmError::Parse(ParseError::BadCounter)));
}

#[test]
fn bad_quantile_above_one() {
    let e = parse("# TYPE s summary\ns{quantile=\"1.5\"} 2\n# EOF\n").unwrap_err();
    assert!(matches!(e, OmError::Parse(ParseError::BadQuantile)));
}

#[test]
fn bad_quantile_unparseable() {
    let e = parse("# TYPE s summary\ns{quantile=\"abc\"} 2\n# EOF\n").unwrap_err();
    assert!(matches!(e, OmError::Parse(ParseError::BadQuantile)));
}

#[test]
fn bad_repeated_metadata() {
    let e = parse("# TYPE a counter\n# TYPE a counter\na_total 1\n# EOF\n").unwrap_err();
    assert!(matches!(e, OmError::Parse(ParseError::DuplicateMeta)));
}

#[test]
fn bad_metadata_after_samples() {
    let e = parse("a_total 1\n# HELP a_total text\n# EOF\n").unwrap_err();
    assert!(matches!(e, OmError::Parse(ParseError::DuplicateMeta)));
}

#[test]
fn bad_duplicate_label_names() {
    let e = parse("a{x=\"1\",x=\"2\"} 1\n# EOF\n").unwrap_err();
    assert!(matches!(e, OmError::Parse(ParseError::DuplicateMeta)));
}

#[test]
fn label_with_missing_value_is_dropped() {
    let fams = parse("a{x=\"\",y=\"kept\"} 1\n# EOF\n").unwrap();
    let f = fams.get("a").unwrap();
    assert!(f.samples[0].labels.get("x").is_none());
    assert_eq!(f.samples[0].labels.get("y").unwrap(), "kept");
}

#[test]
fn empty_brackets() {
    let fams = parse("a{} 1\n# EOF\n").unwrap();
    assert_eq!(fams.get("a").unwrap().samples[0].labels.len(), 0);
}

#[test]
fn bad_label_too_long() {
    let long_value: String = "x".repeat(128);
    let input = format!("a{{b=\"{}\"}} 1\n# EOF\n", long_value);
    let e = parse(&input).unwrap_err();
    assert!(matches!(e, OmError::Parse(ParseError::BadLabelTooLong)));
}

#[test]
fn label_length_at_cap_is_accepted() {
    let value: String = "x".repeat(127);
    let input = format!("a{{b=\"{}\"}} 1\n# EOF\n", value);
    assert!(parse(&input).is_ok());
}

#[test]
fn counter_exemplar() {
    let input = "# TYPE a counter\na_total 1 # {trace_id=\"abc\"} 0.5 123\n# EOF\n";
    let fams = parse(input).unwrap();
    let s = &fams.get("a").unwrap().samples[0];
    let ex = s.exemplar.as_ref().unwrap();
    assert_eq!(ex.labels.get("trace_id").unwrap(), "abc");
    assert_eq!(value_of(ex.number), 0.5);
    assert_eq!(value_of(ex.timestamp.unwrap()), 123.0);
}

#[test]
fn counter_exemplar_empty_brackets() {
    let input = "# TYPE a counter\na_total 1 # {} 0.5\n# EOF\n";
    let fams = parse(input).unwrap();
    let s = &fams.get("a").unwrap().samples[0];
    assert_eq!(s.exemplar.as_ref().unwrap().labels.len(), 0);
}

#[test]
fn bad_exemplar_on_gauge() {
    let input = "# TYPE a gauge\na 1 # {trace_id=\"abc\"} 0.5\n# EOF\n";
    let e = parse(input).unwrap_err();
    assert!(matches!(e, OmError::Parse(ParseError::BadSuffix)));
}

#[test]
fn histogram_exemplar() {
    let input = "# TYPE h histogram\nh_bucket{le=\"+Inf\"} 5 # {t=\"x\"} 2\n# EOF\n";
    let fams = parse(input).unwrap();
    assert!(fams.get("h").unwrap().samples[0].exemplar.is_some());
}

#[test]
fn timestamps() {
    let fams = parse("a 1 123.5\n# EOF\n").unwrap();
    let s = &fams.get("a").unwrap().samples[0];
    assert_eq!(value_of(s.timestamp.unwrap()), 123.5);
}

#[test]
fn bad_timestamp_nan() {
    let e = parse("a 1 NaN\n# EOF\n").unwrap_err();
    assert!(matches!(e, OmError::LexError(_)));
}

#[test]
fn bad_timestamp_inf() {
    let e = parse("a 1 +Inf\n# EOF\n").unwrap_err();
    assert!(matches!(e, OmError::LexError(_)));
}

#[test]
fn nan_gauge() {
    let fams = parse("# TYPE a gauge\na NaN\n# EOF\n").unwrap();
    assert!(value_of(fams.get("a").unwrap().samples[0].number).is_nan());
}

#[test]
fn labels_and_infinite() {
    let fams = parse("a{l=\"v\"} -Inf\n# EOF\n").unwrap();
    let v = value_of(fams.get("a").unwrap().samples[0].number);
    assert!(v.is_infinite() && v < 0.0);
}

#[test]
fn lowercase_inf_value() {
    let fams = parse("a inf\n# EOF\n").unwrap();
    let v = value_of(fams.get("a").unwrap().samples[0].number);
    assert!(v.is_infinite() && v > 0.0);
}

#[test]
fn leading_zeros_float_gauge() {
    let fams = parse("a 00.5\n# EOF\n").unwrap();
    assert_eq!(value_of(fams.get("a").unwrap().samples[0].number), 0.5);
}

#[test]
fn exponent_value() {
    let fams = parse("a 1.5e3\n# EOF\n").unwrap();
    assert_eq!(value_of(fams.get("a").unwrap().samples[0].number), 1500.0);
}

#[test]
fn hash_in_label_value() {
    let fams = parse("a{b=\"x#y\"} 1\n# EOF\n").unwrap();
    assert_eq!(fams.get("a").unwrap().samples[0].labels.get("b").unwrap(), "x#y");
}

#[test]
fn null_byte_in_label_value() {
    let fams = parse("a{b=\"x\u{0}y\"} 1\n# EOF\n").unwrap();
    assert_eq!(fams.get("a").unwrap().samples[0].labels.get("b").unwrap(), "x\u{0}y");
}

#[test]
fn bad_metric_name() {
    let e = parse("1abc 1\n# EOF\n").unwrap_err();
    assert!(matches!(e, OmError::LexError(_)));
}

#[test]
fn bad_missing_value() {
    let e = parse("a \n# EOF\n").unwrap_err();
    assert!(matches!(e, OmError::LexError(_)));
}

#[test]
fn bad_trailing_garbage() {
    let e = parse("a 1 2 3\n# EOF\n").unwrap_err();
    assert!(matches!(e, OmError::LexError(_)));
}

#[test]
fn bad_type_keyword() {
    let e = parse("# TYPE a countre\na 1\n# EOF\n").unwrap_err();
    assert!(matches!(e, OmError::LexError(_)));
}

#[test]
fn two_families() {
    let input = "# TYPE a counter\na_total 1\n# TYPE b gauge\nb 2\n# EOF\n";
    let fams = parse(input).unwrap();
    assert_eq!(fams.len(), 2);
    assert_eq!(fams.get("a").unwrap().metric_type, MetricType::Counter);
    assert_eq!(fams.get("b").unwrap().metric_type, MetricType::Gauge);
}

#[test]
fn parse_is_deterministic() {
    let input = "# TYPE h histogram\n# HELP h a histogram\nh_bucket{le=\"1\"} 5\nh_bucket{le=\"+Inf\"} 7\n# EOF\n";
    let one = parse(input).unwrap();
    let two = parse(input).unwrap();
    assert_eq!(format!("{:?}", one), format!("{:?}", two));
}

#[test]
fn round_trip() {
    let input = "# TYPE a counter\na_total{job=\"x\"} 1\n# TYPE b gauge\nb 2.5\n# EOF\n";
    let fams = parse(input).unwrap();
    let mut out = String::new();
    for entry in fams.entries.iter() {
        let t = match entry.family.metric_type {
            MetricType::Counter => "counter",
            MetricType::Gauge => "gauge",
            _ => panic!("unexpected type in this round trip"),
        };
        out.push_str(&format!("# TYPE {} {}\n", entry.name, t));
        for s in entry.family.samples.iter() {
            out.push_str(&s.name);
            if s.labels.len() > 0 {
                out.push('{');
                let mut first = true;
                for l in s.labels.entries.iter() {
                    if !first {
                        out.push(',');
                    }
                    first = false;
                    out.push_str(&format!("{}=\"{}\"", l.name, l.value));
                }
                out.push('}');
            }
            out.push_str(&format!(" {}\n", f64::from_bits(s.number)));
        }
    }
    out.push_str("# EOF\n");
    let reparsed = parse(&out).unwrap();
    assert_eq!(format!("{:?}", fams), format!("{:?}", reparsed));
}
