use om_nomnomnom::lexer::{self, MetricNumber, MetricToken};
use om_nomnomnom::parser::{self, Label, ParseError, ParseOptions, SampleKind};
use om_nomnomnom::{parse, parse_with_options, OmError};

fn strict(
    no_interleave: bool,
    ts_monotonic: bool,
    check_count: bool,
    wide: bool,
) -> ParseOptions {
    ParseOptions {
        no_interleave_metric: no_interleave,
        enforce_timestamp_monotonic: ts_monotonic,
        validate_histogram_count: check_count,
        naive_wide_char_support: wide,
    }
}

#[test]
fn interleave_accepted_by_default() {
    let input = "# TYPE g gauge\ng{a=\"1\"} 1\ng{a=\"2\"} 1\ng{a=\"1\"} 1\n# EOF\n";
    assert!(parse(input).is_ok());
}

#[test]
fn interleave_rejected_under_option() {
    let input = "# TYPE g gauge\ng{a=\"1\"} 1\ng{a=\"2\"} 1\ng{a=\"1\"} 1\n# EOF\n";
    let e = parse_with_options(input, strict(true, false, false, false)).unwrap_err();
    assert!(matches!(e, OmError::Parse(ParseError::Interleave)));
}

#[test]
fn contiguous_runs_pass_the_interleave_option() {
    let input = "# TYPE g gauge\ng{a=\"1\"} 1\ng{a=\"1\"} 2\ng{a=\"2\"} 1\n# EOF\n";
    assert!(parse_with_options(input, strict(true, false, false, false)).is_ok());
}

#[test]
fn decreasing_timestamps_rejected_under_option() {
    let input = "# TYPE g gauge\ng{a=\"1\"} 1 5\ng{a=\"1\"} 2 4\n# EOF\n";
    let e = parse_with_options(input, strict(false, true, false, false)).unwrap_err();
    assert!(matches!(e, OmError::Parse(ParseError::BadTimestampOutOfOrder)));
}

#[test]
fn missing_timestamp_rejected_under_option() {
    let input = "# TYPE g gauge\ng{a=\"1\"} 1\ng{a=\"1\"} 2\n# EOF\n";
    let e = parse_with_options(input, strict(false, true, false, false)).unwrap_err();
    assert!(matches!(e, OmError::Parse(ParseError::BadTimestampOutOfOrder)));
}

#[test]
fn monotonic_timestamps_pass_the_option() {
    let input = "# TYPE g gauge\ng{a=\"1\"} 1 4\ng{a=\"1\"} 2 5\n# EOF\n";
    assert!(parse_with_options(input, strict(false, true, false, false)).is_ok());
}

#[test]
fn histogram_count_mismatch_rejected_under_option() {
    let input =
        "# TYPE h histogram\nh_bucket{le=\"+Inf\"} 5\nh_count 4\nh_sum 2\n# EOF\n";
    assert!(parse(input).is_ok());
    let e = parse_with_options(input, strict(false, false, true, false)).unwrap_err();
    assert!(matches!(e, OmError::Parse(ParseError::BadHistogram)));
}

#[test]
fn histogram_count_match_passes_the_option() {
    let input =
        "# TYPE h histogram\nh_bucket{le=\"+Inf\"} 5\nh_count 5\nh_sum 2\n# EOF\n";
    assert!(parse_with_options(input, strict(false, false, true, false)).is_ok());
}

#[test]
fn wide_char_option_relaxes_the_cap_to_bytes() {
    let value: String = "x".repeat(200);
    let input = format!("a{{b=\"{}\"}} 1\n# EOF\n", value);
    assert!(parse(&input).is_err());
    assert!(parse_with_options(&input, strict(false, false, false, true)).is_ok());
}

#[test]
fn wide_char_option_still_caps_at_256_bytes() {
    let value: String = "x".repeat(300);
    let input = format!("a{{b=\"{}\"}} 1\n# EOF\n", value);
    let e = parse_with_options(&input, strict(false, false, false, true)).unwrap_err();
    assert!(matches!(e, OmError::Parse(ParseError::BadLabelTooLong)));
}

#[test]
fn multibyte_values_count_code_points_by_default() {
    // 120 three-byte characters: 360 bytes, but only 120 code points.
    let value: String = "\u{20AC}".repeat(120);
    let input = format!("a{{b=\"{}\"}} 1\n# EOF\n", value);
    assert!(parse(&input).is_ok());
    let e = parse_with_options(&input, strict(false, false, false, true)).unwrap_err();
    assert!(matches!(e, OmError::Parse(ParseError::BadLabelTooLong)));
}

#[test]
fn exposition_tokens() {
    let tokens = lexer::exposition("# TYPE a counter\na_total 1\n# EOF\n").unwrap();
    assert_eq!(tokens.len(), 4);
    assert!(matches!(tokens[0], MetricToken::Descriptor(_)));
    assert!(matches!(tokens[1], MetricToken::Metric(_)));
    assert!(matches!(tokens[2], MetricToken::Eof));
    assert!(matches!(tokens[3], MetricToken::Empty));
}

#[test]
fn exposition_rejects_garbage() {
    assert!(lexer::exposition("what is this\n# EOF\n").is_none());
}

#[test]
fn parser_collapses_integer_tokens_to_doubles() {
    let tokens = vec![
        MetricToken::Metric(lexer::Sample {
            name: "a".to_string(),
            labels: None,
            number: MetricNumber::Integer(5),
            timestamp: None,
            exemplar: None,
        }),
        MetricToken::Eof,
    ];
    let fams = parser::parse(tokens).unwrap();
    assert_eq!(f64::from_bits(fams.get("a").unwrap().samples[0].number), 5.0);
}

#[test]
fn parser_collapses_extreme_integers_exactly_as_doubles_do() {
    let tokens = vec![
        MetricToken::Metric(lexer::Sample {
            name: "a".to_string(),
            labels: None,
            number: MetricNumber::Integer(i64::MIN),
            timestamp: None,
            exemplar: None,
        }),
        MetricToken::Eof,
    ];
    let fams = parser::parse(tokens).unwrap();
    assert_eq!(f64::from_bits(fams.get("a").unwrap().samples[0].number), i64::MIN as f64);
}

#[test]
fn unescape_string_expands_the_three_pairs() {
    assert_eq!(parser::unescape_string("a\\nb\\\\c\\\"d"), "a\nb\\c\"d");
    assert_eq!(parser::unescape_string("plain"), "plain");
    assert_eq!(parser::unescape_string("\\q"), "\\q");
}

#[test]
fn is_normal_char_excludes_the_specials() {
    assert!(!lexer::types::is_normal_char('\n'));
    assert!(!lexer::types::is_normal_char('"'));
    assert!(!lexer::types::is_normal_char('\\'));
    assert!(lexer::types::is_normal_char('a'));
    assert!(lexer::types::is_normal_char(' '));
    assert!(lexer::types::is_normal_char('\u{20AC}'));
}

#[test]
fn from_lexer_labels_drops_missing_and_rejects_duplicates() {
    let ls = vec![
        lexer::Label { name: "gone".to_string(), value: None },
        lexer::Label { name: "kept".to_string(), value: Some("v".to_string()) },
    ];
    let m = Label::from_lexer_labels(ls, false).unwrap();
    assert!(m.get("gone").is_none());
    assert_eq!(m.get("kept").unwrap(), "v");

    let dup = vec![
        lexer::Label { name: "x".to_string(), value: Some("1".to_string()) },
        lexer::Label { name: "x".to_string(), value: Some("2".to_string()) },
    ];
    assert_eq!(Label::from_lexer_labels(dup, false).unwrap_err(), ParseError::DuplicateMeta);
}

#[test]
fn label_with_missing_value_is_the_empty_label_error() {
    let l = lexer::Label { name: "x".to_string(), value: None };
    assert_eq!(Label::try_from_lexer(&l, false).unwrap_err(), ParseError::EmptyLabel);
}

#[test]
fn parse_full_reads_whole_numbers_only() {
    assert_eq!(f64::from_bits(parser::parse_full("1.5").unwrap()), 1.5);
    assert_eq!(f64::from_bits(parser::parse_full("-2e2").unwrap()), -200.0);
    assert!(parser::parse_full("1.5x").is_none());
    assert!(parser::parse_full("").is_none());
    assert!(f64::from_bits(parser::parse_full("inf").unwrap()).is_infinite());
}

#[test]
fn error_messages_name_the_condition() {
    assert_eq!(ParseError::BadBucket.message(), "bad bucket");
    assert_eq!(ParseError::Eof.message(), "noise after eof");
}

#[test]
fn kind_sample_projection_of_a_summary_created() {
    let fams = parse("# TYPE s summary\ns_count 1\ns_sum 1\ns_created 123\n# EOF\n").unwrap();
    assert_eq!(fams.get("s").unwrap().samples[2].kind, SampleKind::Other);
}

#[test]
fn exact_case_infinity_value() {
    let fams = parse("a Infinity\n# EOF\n").unwrap();
    let v = f64::from_bits(fams.get("a").unwrap().samples[0].number);
    assert!(v.is_infinite() && v > 0.0);
}

#[test]
fn negative_infinity_exact_case_only() {
    assert!(parse("a -Infinity\n# EOF\n").is_ok());
    assert!(parse("a -infinity\n# EOF\n").is_err());
}

#[test]
fn help_line_with_a_quote_is_rejected() {
    let e = parse("# HELP a ab\"cd\na 1\n# EOF\n").unwrap_err();
    assert!(matches!(e, OmError::LexError(_)));
}

#[test]
fn sample_without_space_before_value_is_rejected() {
    let e = parse("a{x=\"1\"}1\n# EOF\n").unwrap_err();
    assert!(matches!(e, OmError::LexError(_)));
}

#[test]
fn exponent_without_digits_is_rejected() {
    let e = parse("a 1e\n# EOF\n").unwrap_err();
    assert!(matches!(e, OmError::LexError(_)));
}

#[test]
fn samples_follow_the_declared_family_regardless_of_name() {
    let fams = parse("# TYPE a gauge\nb 1\n# EOF\n").unwrap();
    assert_eq!(fams.len(), 1);
    let f = fams.get("a").unwrap();
    assert_eq!(f.samples[0].name, "b");
}

#[test]
fn foreign_sample_in_counter_family_lacks_a_total() {
    let e = parse("# TYPE a counter\nb 1\n# EOF\n").unwrap_err();
    assert!(matches!(e, OmError::Parse(ParseError::BadCounter)));
}
