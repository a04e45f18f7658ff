//! The tokenizer and the three query languages.
use telemetryd::error::Error;
use telemetryd::labels::Labels;
use telemetryd::lexer::{tokenize, Token};
use telemetryd::logql;
use telemetryd::matcher::matches_all;
use telemetryd::promql::{
    self, AggregateOp, BinaryOp, Expr, Function, Grouping, Selector, DEFAULT_LOOKBACK,
};
use telemetryd::record::{SpanKind, SpanRecord, SpanStatus};
use telemetryd::traceql::{self, CompareOp, Comparison, Operand, TraceQuery};

const SECOND: u64 = 1_000_000_000;

fn tokens(input: &str) -> Vec<Token> {
    tokenize(input).unwrap().into_iter().map(|s| s.token).collect()
}

fn number(input: &str) -> f64 {
    match &tokens(input)[..] {
        [Token::Number(text)] => text.parse().unwrap(),
        other => panic!("expected a number, got {other:?}"),
    }
}

fn labels(pairs: &[(&str, &str)]) -> Labels {
    let mut labels = Labels::new();
    for (name, value) in pairs {
        labels.insert(name, value);
    }
    labels
}

fn selector_of(expr: &Expr) -> &Selector {
    match expr {
        Expr::Selector(selector) => selector,
        other => panic!("expected a selector, got {other:?}"),
    }
}

fn is_number(expr: &Expr, expected: f64) -> bool {
    match expr {
        Expr::Number(text) => (text.parse::<f64>().unwrap() - expected).abs() < f64::EPSILON,
        _ => false,
    }
}

fn span() -> SpanRecord {
    SpanRecord {
        trace_id: "4bf92f3577b34da6a3ce929d0e0e4736".to_owned(),
        span_id: "00f067aa0ba902b7".to_owned(),
        parent_span_id: None,
        name: "POST /checkout".to_owned(),
        kind: SpanKind::Server,
        start_nanos: 1_750_000_000_000_000_000,
        end_nanos: 1_750_000_000_150_000_000,
        status: SpanStatus::Error,
        status_message: String::new(),
        stream: labels(&[("app", "checkout"), ("service_name", "checkout")]),
        attributes: labels(&[("http.method", "POST"), ("http.status_code", "500")]),
        events: Vec::new(),
        links: Vec::new(),
    }
}

fn operand(operand: &Operand<String>) -> Option<f64> {
    match operand {
        Operand::Nanos(nanos) => Some(*nanos as f64),
        Operand::Text(text) => text.parse().ok(),
    }
}

/// Compares the numbers that a condition leaves to be compared.
fn compare(asked: &Comparison<String>) -> bool {
    let holds = match (operand(&asked.left), operand(&asked.right)) {
        (Some(left), Some(right)) => match asked.op {
            CompareOp::Equal => (left - right).abs() < f64::EPSILON,
            CompareOp::NotEqual => (left - right).abs() >= f64::EPSILON,
            CompareOp::Less => left < right,
            CompareOp::LessEqual => left <= right,
            CompareOp::Greater => left > right,
            CompareOp::GreaterEqual => left >= right,
            CompareOp::Regex => false,
        },
        _ => false,
    };
    holds != asked.negated
}

fn finds(query: &TraceQuery, span: &SpanRecord) -> bool {
    query.matches(span, &compare)
}

// ---------------------------------------------------------------------------
// Tokens
// ---------------------------------------------------------------------------

#[test]
fn tokenizes_a_stream_selector() {
    assert_eq!(
        tokens(r#"{app="checkout", level=~"err.*"}"#),
        vec![
            Token::LeftBrace,
            Token::Ident("app".to_owned()),
            Token::Equal,
            Token::String("checkout".to_owned()),
            Token::Comma,
            Token::Ident("level".to_owned()),
            Token::RegexMatch,
            Token::String("err.*".to_owned()),
            Token::RightBrace,
        ]
    );
}

#[test]
fn two_character_operators_are_never_split() {
    assert_eq!(tokens("!="), vec![Token::NotEqual]);
    assert_eq!(tokens("!~"), vec![Token::RegexNotMatch]);
    assert_eq!(tokens("=~"), vec![Token::RegexMatch]);
    assert_eq!(tokens("|="), vec![Token::LineContains]);
    assert_eq!(tokens("|~"), vec![Token::LineRegex]);
    assert_eq!(tokens(">="), vec![Token::GreaterEqual]);
    assert_eq!(
        tokens("| json"),
        vec![Token::Pipe, Token::Ident("json".to_owned())]
    );
}

#[test]
fn string_escapes_are_processed() {
    assert_eq!(tokens(r#""a\nb""#), vec![Token::String("a\nb".to_owned())]);
    assert_eq!(
        tokens(r#""quote\"inside""#),
        vec![Token::String("quote\"inside".to_owned())]
    );
    assert_eq!(
        tokens(r#""back\\slash""#),
        vec![Token::String("back\\slash".to_owned())]
    );
}

#[test]
fn an_unknown_escape_keeps_the_backslash() {
    assert_eq!(tokens(r#""\d+""#), vec![Token::String(r"\d+".to_owned())]);
}

#[test]
fn raw_strings_do_not_process_escapes() {
    assert_eq!(tokens(r"`a\nb`"), vec![Token::String(r"a\nb".to_owned())]);
}

#[test]
fn unterminated_strings_are_a_clean_error() {
    for input in [r#""unterminated"#, "`unterminated", r#""trailing\"#] {
        let err = tokenize(input).unwrap_err();
        assert!(matches!(err, Error::BadRequest(_)), "{input}");
        assert!(err.message().contains("terminat") || err.message().contains("backslash"));
    }
}

#[test]
fn durations_parse_including_compound_forms() {
    assert_eq!(tokens("5m"), vec![Token::Duration(300_000_000_000)]);
    assert_eq!(tokens("500ms"), vec![Token::Duration(500_000_000)]);
    assert_eq!(tokens("1h30m"), vec![Token::Duration(5_400_000_000_000)]);
    assert_eq!(tokens("1w"), vec![Token::Duration(604_800_000_000_000)]);
}

#[test]
fn numbers_and_durations_are_distinguished() {
    assert_eq!(number("42"), 42.0);
    assert_eq!(number("1.5"), 1.5);
    assert_eq!(number("1e3"), 1000.0);
    assert_eq!(tokens("30s"), vec![Token::Duration(30_000_000_000)]);
}

#[test]
fn an_unknown_duration_unit_names_the_valid_ones() {
    let err = tokenize("5q").unwrap_err().message();
    assert!(err.contains("not a duration unit"), "{err:?}");
    assert!(err.contains("ms"), "{err:?}");
}

#[test]
fn comments_and_whitespace_are_skipped() {
    assert_eq!(
        tokens("  {app=\"x\"}  # trailing comment\n"),
        tokens(r#"{app="x"}"#)
    );
}

#[test]
fn utf8_survives_inside_strings() {
    assert_eq!(tokens(r#""æøå 🎉""#), vec![Token::String("æøå 🎉".to_owned())]);
}

#[test]
fn an_unexpected_character_reports_its_position() {
    let err = tokenize("{app=$}").unwrap_err().message();
    assert!(err.contains("unexpected character"), "{err:?}");
    assert!(err.contains("position"), "{err:?}");
}

#[test]
fn dotted_identifiers_lex_as_one_token() {
    assert_eq!(
        tokens("resource.service.name"),
        vec![Token::Ident("resource.service.name".to_owned())]
    );
    assert_eq!(
        tokens("span.http.status_code"),
        vec![Token::Ident("span.http.status_code".to_owned())]
    );
}

#[test]
fn a_dot_does_not_swallow_numbers_or_trailing_tokens() {
    assert_eq!(number("1.5"), 1.5);
    assert_eq!(tokens("1.5h"), vec![Token::Duration(5_400_000_000_000)]);
    assert!(tokenize("foo.").is_err());
}

#[test]
fn traceql_conjunctions_lex_as_single_tokens() {
    assert_eq!(tokens("&&"), vec![Token::AndAnd]);
    assert_eq!(tokens("||"), vec![Token::OrOr]);
    assert_eq!(tokens("|"), vec![Token::Pipe]);
}

#[test]
fn promql_only_tokens_are_recognised_so_they_can_be_named_later() {
    assert!(tokens("foo @ 1").contains(&Token::At));
    assert!(tokens("foo[5m:1m]").contains(&Token::Colon));
}

// ---------------------------------------------------------------------------
// LogQL
// ---------------------------------------------------------------------------

#[test]
fn parses_a_selector_with_every_matcher_operator() {
    let query =
        logql::parse(r#"{app="checkout", env!="dev", level=~"err.*", pod!~"canary.*"}"#).unwrap();
    assert_eq!(query.matchers.len(), 4);
    assert!(query.stages.is_empty());

    let base = labels(&[("app", "checkout"), ("level", "error")]);
    assert!(matches_all(&query.matchers, &base));
}

#[test]
fn a_trailing_comma_is_accepted() {
    assert_eq!(logql::parse(r#"{app="x",}"#).unwrap().matchers.len(), 1);
}

#[test]
fn an_empty_selector_is_refused_with_a_reason() {
    let err = logql::parse("{}").unwrap_err().message();
    assert!(err.contains("matches every stream"), "{err:?}");
}

#[test]
fn a_selector_that_cannot_prune_is_refused() {
    let err = logql::parse(r#"{app!="x"}"#).unwrap_err().message();
    assert!(
        err.contains("at least one matcher that requires a value"),
        "{err:?}"
    );
}

#[test]
fn a_missing_selector_is_a_clear_error() {
    let err = logql::parse(r#"app="x""#).unwrap_err().message();
    assert!(err.contains("stream selector"), "{err:?}");
}

#[test]
fn line_filters_parse_and_evaluate() {
    let query =
        logql::parse(r#"{app="x"} |= "payment" != "test" |~ "declin(ed|e)" !~ "retry""#).unwrap();
    assert_eq!(query.stages.len(), 4);

    let base = labels(&[("app", "x")]);
    assert!(query.evaluate("payment declined for order 9912", &base));
    assert!(
        !query.evaluate("payment declined test", &base),
        "!= should reject"
    );
    assert!(!query.evaluate("order created", &base), "|= should reject");
    assert!(
        !query.evaluate("payment declined retry", &base),
        "!~ should reject"
    );
}

#[test]
fn line_filter_regexes_are_not_anchored() {
    let query = logql::parse(r#"{app="x"} |~ "err""#).unwrap();
    assert!(query.evaluate("an error occurred", &labels(&[])));
}

#[test]
fn an_invalid_line_filter_regex_is_a_clean_client_error() {
    let err = logql::parse(r#"{app="x"} |~ "[unclosed""#).unwrap_err();
    assert!(matches!(err, Error::BadRequest(_)));
    assert!(err.message().contains("[unclosed"));
}

#[test]
fn json_parser_extracts_and_flattens_fields() {
    let query = logql::parse(r#"{app="x"} | json | user_id="42""#).unwrap();
    let base = labels(&[("app", "x")]);

    assert!(query.evaluate(r#"{"user":{"id":"42"},"msg":"hi"}"#, &base));
    assert!(!query.evaluate(r#"{"user":{"id":"43"}}"#, &base));
}

#[test]
fn json_numbers_and_booleans_become_label_values() {
    let query = logql::parse(r#"{app="x"} | json | status="200""#).unwrap();
    assert!(query.evaluate(r#"{"status":200}"#, &labels(&[])));

    let flag = logql::parse(r#"{app="x"} | json | ok="true""#).unwrap();
    assert!(flag.evaluate(r#"{"ok":true}"#, &labels(&[])));
}

#[test]
fn a_non_json_line_contributes_nothing_rather_than_failing() {
    let query = logql::parse(r#"{app="x"} | json | level="error""#).unwrap();
    assert!(!query.evaluate("this is not json", &labels(&[])));
    assert!(query.evaluate(r#"{"level":"error"}"#, &labels(&[])));
}

#[test]
fn logfmt_parser_handles_quoted_and_bare_values() {
    let query = logql::parse(r#"{app="x"} | logfmt | method="GET""#).unwrap();
    assert!(query.evaluate("method=GET path=/api status=200", &labels(&[])));

    let quoted = logql::parse(r#"{app="x"} | logfmt | msg="hello world""#).unwrap();
    assert!(quoted.evaluate(r#"level=info msg="hello world""#, &labels(&[])));
}

#[test]
fn label_filters_see_record_attributes_without_a_parser_stage() {
    let query = logql::parse(r#"{app="x"} | order_id="9912""#).unwrap();
    let base = labels(&[("app", "x"), ("order_id", "9912")]);
    assert!(query.evaluate("anything", &base));

    let miss = logql::parse(r#"{app="x"} | order_id="1""#).unwrap();
    assert!(!miss.evaluate("anything", &base));
}

#[test]
fn label_filters_accept_regex_operators() {
    let query = logql::parse(r#"{app="x"} | route=~"/api/.*""#).unwrap();
    assert!(query.evaluate("x", &labels(&[("route", "/api/orders")])));
    assert!(!query.evaluate("x", &labels(&[("route", "/health")])));
}

#[test]
fn metric_queries_are_named_not_rejected_as_syntax_errors() {
    for query in [
        r#"rate({app="x"}[5m])"#,
        r#"count_over_time({app="x"}[1h])"#,
        r#"sum by (app) (rate({app="x"}[5m]))"#,
    ] {
        let err = logql::parse(query).unwrap_err();
        assert!(
            matches!(err, Error::Unsupported { .. }),
            "{query} should be Unsupported, got {err:?}"
        );
        assert_eq!(err.code(), "unsupported_feature");
        assert!(
            matches!(err, Error::Unsupported { hint: Some(_), .. }),
            "{query} should suggest an alternative"
        );
    }
}

#[test]
fn unsupported_pipeline_stages_name_themselves() {
    let cases = [
        (r#"{app="x"} | line_format "{{.msg}}""#, "line_format"),
        (r#"{app="x"} | label_format foo="bar""#, "label_format"),
        (r#"{app="x"} | unwrap duration"#, "unwrap"),
        (r#"{app="x"} | pattern "<_> foo""#, "pattern"),
        (r#"{app="x"} | regexp "(?P<a>.*)""#, "regexp"),
        (r#"{app="x"} | drop foo"#, "drop"),
        (r#"{app="x"} | keep foo"#, "keep"),
        (r#"{app="x"} | decolorize"#, "decolorize"),
    ];
    for (query, feature) in cases {
        let err = logql::parse(query).unwrap_err();
        assert!(matches!(err, Error::Unsupported { .. }), "{query}");
        assert!(
            err.message().contains(feature),
            "{query} should name {feature}, said: {err:?}"
        );
    }
}

#[test]
fn numeric_label_filters_are_named() {
    let err = logql::parse(r#"{app="x"} | status > 400"#).unwrap_err();
    assert!(matches!(err, Error::Unsupported { .. }));
    assert!(err.message().contains("numeric label filters"), "{err:?}");
}

#[test]
fn every_unsupported_error_links_the_compatibility_doc() {
    let err = logql::parse(r#"{app="x"} | unwrap duration"#).unwrap_err();
    assert!(err.docs().unwrap().ends_with("COMPATIBILITY.md"), "{err:?}");
}

#[test]
fn an_empty_query_is_refused() {
    assert!(logql::parse("").is_err());
    assert!(logql::parse("   ").is_err());
}

#[test]
fn has_filters_reports_whether_per_line_work_is_needed() {
    assert!(!logql::parse(r#"{app="x"}"#).unwrap().has_filters());
    assert!(!logql::parse(r#"{app="x"} | json"#).unwrap().has_filters());
    assert!(logql::parse(r#"{app="x"} |= "a""#).unwrap().has_filters());
    assert!(logql::parse(r#"{app="x"} | json | a="b""#).unwrap().has_filters());
}

#[test]
fn logfmt_flattening_sanitises_field_names() {
    let query = logql::parse(r#"{app="x"} | logfmt | http_status="200""#).unwrap();
    assert!(query.evaluate("http.status=200", &labels(&[])));
}

#[test]
fn json_flattening_sanitises_and_joins_nested_names() {
    let query = logql::parse(r#"{app="x"} | json | http_status_code="500""#).unwrap();
    assert!(query.evaluate(r#"{"http":{"status.code":500}}"#, &labels(&[])));
}

#[test]
fn the_uis_default_selector_parses() {
    let query = logql::parse(r#"{service_name=~".+"}"#).unwrap();
    assert_eq!(query.matchers.len(), 1);
    assert!(
        query.matchers[0].is_selective(),
        "`.+` requires a value, so it must not be treated as match-everything"
    );
}

#[test]
fn label_filters_combine_with_and() {
    let query = logql::parse(r#"{app="x"} | status="500" and method="GET""#).unwrap();

    assert!(query.evaluate("l", &labels(&[("status", "500"), ("method", "GET")])));
    assert!(!query.evaluate("l", &labels(&[("status", "500"), ("method", "POST")])));
    assert!(!query.evaluate("l", &labels(&[("status", "200"), ("method", "GET")])));
}

#[test]
fn label_filters_combine_with_or() {
    let query = logql::parse(r#"{app="x"} | status="500" or status="503""#).unwrap();

    assert!(query.evaluate("l", &labels(&[("status", "500")])));
    assert!(query.evaluate("l", &labels(&[("status", "503")])));
    assert!(!query.evaluate("l", &labels(&[("status", "200")])));
}

#[test]
fn and_binds_tighter_than_or() {
    let query = logql::parse(r#"{app="x"} | a="1" or b="2" and c="3""#).unwrap();

    assert!(query.evaluate("l", &labels(&[("a", "1")])));
    assert!(query.evaluate("l", &labels(&[("b", "2"), ("c", "3")])));
    assert!(
        !query.evaluate("l", &labels(&[("b", "2")])),
        "b alone must not satisfy `b and c`"
    );
}

#[test]
fn a_long_or_chain_parses() {
    let query = logql::parse(r#"{app="x"} | s="1" or s="2" or s="3" or s="4""#).unwrap();
    for value in ["1", "2", "3", "4"] {
        assert!(query.evaluate("l", &labels(&[("s", value)])), "{value}");
    }
    assert!(!query.evaluate("l", &labels(&[("s", "5")])));
}

#[test]
fn mixed_operators_in_a_filter_chain_work() {
    let query = logql::parse(r#"{app="x"} | route=~"/api/.*" and status!="200""#).unwrap();
    assert!(query.evaluate("l", &labels(&[("route", "/api/orders"), ("status", "500")])));
    assert!(!query.evaluate("l", &labels(&[("route", "/api/orders"), ("status", "200")])));
}

// ---------------------------------------------------------------------------
// PromQL
// ---------------------------------------------------------------------------

#[test]
fn a_bare_metric_name_becomes_a_name_matcher() {
    let expr = promql::parse("http_requests_total").unwrap();
    let selector = selector_of(&expr);
    assert_eq!(selector.matchers.len(), 1);
    assert_eq!(selector.matchers[0].name, "__name__");
    assert_eq!(selector.matchers[0].value(), "http_requests_total");
}

#[test]
fn a_selector_carries_its_matchers() {
    let expr = promql::parse(r#"http_requests_total{app="checkout", status=~"5.."}"#).unwrap();
    let selector = selector_of(&expr);
    assert_eq!(selector.matchers.len(), 3, "including __name__");
    assert!(selector.matchers.iter().any(|m| m.name == "app"));
}

#[test]
fn a_matcher_only_selector_parses() {
    let expr = promql::parse(r#"{__name__="up", app="checkout"}"#).unwrap();
    assert_eq!(selector_of(&expr).matchers.len(), 2);
}

#[test]
fn range_and_offset_attach_to_the_selector() {
    let expr = promql::parse("http_requests_total[5m] offset 1h").unwrap();
    let selector = selector_of(&expr);
    assert_eq!(selector.range, Some(300 * SECOND));
    assert_eq!(selector.offset, Some(3600 * SECOND));
}

#[test]
fn rate_and_increase_parse() {
    for (query, expected) in [
        ("rate(http_requests_total[5m])", Function::Rate),
        ("increase(http_requests_total[1h])", Function::Increase),
    ] {
        match promql::parse(query).unwrap() {
            Expr::Call { function, args } => {
                assert_eq!(function, expected);
                assert_eq!(args.len(), 1);
            }
            other => panic!("{query}: {other:?}"),
        }
    }
}

#[test]
fn aggregations_parse_in_both_spellings() {
    for query in [
        "sum by (app) (rate(http_requests_total[5m]))",
        "sum(rate(http_requests_total[5m])) by (app)",
    ] {
        match promql::parse(query).unwrap() {
            Expr::Aggregation { op, grouping, .. } => {
                assert_eq!(op, AggregateOp::Sum);
                assert!(matches!(grouping, Grouping::By(labels) if labels == ["app"]));
            }
            other => panic!("{query}: {other:?}"),
        }
    }
}

#[test]
fn without_grouping_parses() {
    match promql::parse("sum without (instance) (up)").unwrap() {
        Expr::Aggregation { grouping, .. } => {
            assert!(matches!(grouping, Grouping::Without(labels) if labels == ["instance"]));
        }
        other => panic!("{other:?}"),
    }
}

#[test]
fn every_supported_aggregation_parses() {
    for name in ["sum", "avg", "min", "max", "count"] {
        assert!(promql::parse(&format!("{name}(up)")).is_ok(), "{name}");
    }
}

#[test]
fn the_uis_histogram_quantile_form_parses() {
    let query = "histogram_quantile(0.95, sum by (le, app) (rate(http_duration_bucket[5m])))";
    match promql::parse(query).unwrap() {
        Expr::Call { function, args } => {
            assert_eq!(function, Function::HistogramQuantile);
            assert_eq!(args.len(), 2);
            assert!(is_number(&args[0], 0.95));
        }
        other => panic!("{other:?}"),
    }
}

#[test]
fn the_uis_counter_increase_form_parses() {
    let query = "clamp_min(http_requests_total - (http_requests_total offset 5m or http_requests_total * 0), 0)";
    let expr = promql::parse(query).unwrap();

    assert_eq!(expr.selectors().len(), 3);
    assert!(
        expr.selectors()
            .iter()
            .any(|s| s.offset == Some(300 * SECOND)),
        "the offset must survive parsing"
    );
}

#[test]
fn scalar_arithmetic_parses() {
    match promql::parse("rate(x[5m]) * 60").unwrap() {
        Expr::Binary { op, right, .. } => {
            assert_eq!(op, BinaryOp::Mul);
            assert!(is_number(&right, 60.0));
        }
        other => panic!("{other:?}"),
    }
}

#[test]
fn operator_precedence_follows_promql() {
    match promql::parse("1 + 2 * 3").unwrap() {
        Expr::Binary { op, right, .. } => {
            assert_eq!(op, BinaryOp::Add);
            assert!(matches!(
                *right,
                Expr::Binary {
                    op: BinaryOp::Mul,
                    ..
                }
            ));
        }
        other => panic!("{other:?}"),
    }

    match promql::parse("a * 2 or b").unwrap() {
        Expr::Binary { op, left, .. } => {
            assert_eq!(op, BinaryOp::Or);
            assert!(matches!(
                *left,
                Expr::Binary {
                    op: BinaryOp::Mul,
                    ..
                }
            ));
        }
        other => panic!("{other:?}"),
    }
}

#[test]
fn parentheses_override_precedence() {
    match promql::parse("(1 + 2) * 3").unwrap() {
        Expr::Binary { op, left, .. } => {
            assert_eq!(op, BinaryOp::Mul);
            assert!(matches!(
                *left,
                Expr::Binary {
                    op: BinaryOp::Add,
                    ..
                }
            ));
        }
        other => panic!("{other:?}"),
    }
}

#[test]
fn unary_minus_parses() {
    assert!(matches!(promql::parse("-up").unwrap(), Expr::Negate(_)));
}

#[test]
fn required_lookback_widens_for_range_and_offset() {
    assert_eq!(promql::parse("up").unwrap().required_lookback(), u128::from(DEFAULT_LOOKBACK));
    assert_eq!(
        promql::parse("rate(up[1h])").unwrap().required_lookback(),
        u128::from(3600 * SECOND)
    );
    assert_eq!(
        promql::parse("rate(up[5m] offset 1h)").unwrap().required_lookback(),
        u128::from((300 + 3600) * SECOND)
    );
}

#[test]
fn unsupported_functions_are_named() {
    for (query, needle) in [
        ("predict_linear(up[1h], 3600)", "predict_linear"),
        ("holt_winters(up[1h], 0.5, 0.5)", "holt_winters"),
        ("topk(5, up)", "topk"),
        ("quantile(0.9, up)", "quantile"),
        (
            "label_replace(up, \"a\", \"b\", \"c\", \"d\")",
            "label_replace",
        ),
    ] {
        let err = promql::parse(query).unwrap_err();
        assert!(matches!(err, Error::Unsupported { .. }), "{query}: {err:?}");
        assert!(err.message().contains(needle), "{query}: {err:?}");
    }
}

#[test]
fn subqueries_and_the_at_modifier_are_named() {
    let err = promql::parse("rate(up[5m:1m])").unwrap_err();
    assert!(err.message().contains("subquer"), "{err:?}");

    let err = promql::parse("up @ 1700000000").unwrap_err();
    assert!(err.message().contains('@'), "{err:?}");
}

#[test]
fn and_and_unless_are_named_rather_than_treated_as_junk() {
    for op in ["and", "unless"] {
        let err = promql::parse(&format!("up {op} down")).unwrap_err();
        assert!(matches!(err, Error::Unsupported { .. }), "{op}");
        assert!(err.message().contains(op), "{op}");
    }
}

#[test]
fn wrong_arity_is_reported_with_the_expected_count() {
    let err = promql::parse("rate(up[5m], 2)").unwrap_err().message();
    assert!(err.contains("takes 1 argument"), "{err:?}");

    let err = promql::parse("histogram_quantile(0.9)").unwrap_err().message();
    assert!(err.contains("takes 2 argument"), "{err:?}");
}

#[test]
fn promql_malformed_queries_are_client_errors() {
    for query in [
        "", "   ", "{", "up{", "up{a=", "sum by", "rate(", "1 +", ")(",
    ] {
        let err = promql::parse(query).unwrap_err();
        assert!(
            matches!(err, Error::BadRequest(_) | Error::Unsupported { .. }),
            "{query} produced {err:?}"
        );
    }
}

#[test]
fn trailing_junk_is_refused() {
    assert!(promql::parse("up up").is_err());
    assert!(promql::parse("up)").is_err());
}

// ---------------------------------------------------------------------------
// TraceQL
// ---------------------------------------------------------------------------

#[test]
fn an_empty_spanset_matches_everything() {
    for input in ["{}", "", "  "] {
        let query = traceql::parse(input).unwrap();
        assert!(query.is_empty(), "{input}");
        assert!(finds(&query, &span()), "{input}");
    }
}

#[test]
fn the_uis_compiled_form_parses_and_matches() {
    let query = traceql::parse(
        r#"{ resource.service.name = "checkout" && status = error && duration > 100ms }"#,
    )
    .unwrap();
    assert_eq!(query.conditions.len(), 3);
    assert!(finds(&query, &span()));
}

#[test]
fn resource_and_span_scopes_read_different_places() {
    assert!(
        finds(&traceql::parse(r#"{ resource.service.name = "checkout" }"#)
            .unwrap(), &span())
    );
    assert!(
        !finds(&traceql::parse(r#"{ span.service.name = "checkout" }"#)
            .unwrap(), &span())
    );

    assert!(
        finds(&traceql::parse(r#"{ span.http.method = "POST" }"#)
            .unwrap(), &span())
    );
    assert!(
        !finds(&traceql::parse(r#"{ resource.http.method = "POST" }"#)
            .unwrap(), &span())
    );
}

#[test]
fn unscoped_fields_prefer_span_attributes() {
    assert!(
        finds(&traceql::parse(r#"{ http.method = "POST" }"#)
            .unwrap(), &span())
    );
    assert!(
        finds(&traceql::parse(r#"{ service_name = "checkout" }"#)
            .unwrap(), &span())
    );
}

#[test]
fn the_leading_dot_attribute_form_parses_and_matches() {
    assert!(
        finds(&traceql::parse(r#"{ .http.method = "POST" }"#)
            .unwrap(), &span())
    );
    assert!(
        !finds(&traceql::parse(r#"{ .http.method = "GET" }"#)
            .unwrap(), &span())
    );

    assert!(
        finds(&traceql::parse(r#"{ .service.name = "checkout" }"#)
            .unwrap(), &span())
    );

    assert!(!finds(&traceql::parse(r#"{ .nonexistent = "x" }"#).unwrap(), &span()));
}

#[test]
fn a_leading_dot_means_attribute_not_intrinsic() {
    let mut s = span();
    s.attributes.insert("name", "not-the-span-name");

    assert!(finds(&traceql::parse(r#"{ name = "POST /checkout" }"#).unwrap(), &s));
    assert!(
        !finds(&traceql::parse(r#"{ .name = "POST /checkout" }"#)
            .unwrap(), &s)
    );
    assert!(
        finds(&traceql::parse(r#"{ .name = "not-the-span-name" }"#)
            .unwrap(), &s)
    );
}

#[test]
fn status_is_compared_as_an_enum_not_a_string() {
    assert!(finds(&traceql::parse("{ status = error }").unwrap(), &span()));
    assert!(!finds(&traceql::parse("{ status = ok }").unwrap(), &span()));
    assert!(finds(&traceql::parse("{ status != ok }").unwrap(), &span()));

    let mut unset = span();
    unset.status = SpanStatus::Unset;
    assert!(!finds(&traceql::parse("{ status = error }").unwrap(), &unset));
    assert!(!finds(&traceql::parse("{ status = ok }").unwrap(), &unset));
}

#[test]
fn kind_is_compared_as_an_enum() {
    assert!(finds(&traceql::parse("{ kind = server }").unwrap(), &span()));
    assert!(!finds(&traceql::parse("{ kind = client }").unwrap(), &span()));
}

#[test]
fn durations_compare_in_nanoseconds_whatever_the_literal() {
    assert!(finds(&traceql::parse("{ duration > 100ms }").unwrap(), &span()));
    assert!(finds(&traceql::parse("{ duration >= 150ms }").unwrap(), &span()));
    assert!(!finds(&traceql::parse("{ duration > 200ms }").unwrap(), &span()));
    assert!(finds(&traceql::parse("{ duration < 1s }").unwrap(), &span()));
    assert!(finds(&traceql::parse("{ duration > 100000000 }").unwrap(), &span()));
}

#[test]
fn numeric_comparison_works_against_string_attributes() {
    assert!(
        finds(&traceql::parse("{ span.http.status_code > 499 }")
            .unwrap(), &span())
    );
    assert!(
        !finds(&traceql::parse("{ span.http.status_code > 500 }")
            .unwrap(), &span())
    );
    assert!(
        finds(&traceql::parse("{ span.http.status_code = 500 }")
            .unwrap(), &span())
    );
}

#[test]
fn regex_conditions_work() {
    assert!(finds(&traceql::parse(r#"{ name =~ "POST.*" }"#).unwrap(), &span()));
    assert!(!finds(&traceql::parse(r#"{ name =~ "GET.*" }"#).unwrap(), &span()));
}

#[test]
fn nil_tests_presence() {
    assert!(finds(&traceql::parse("{ span.missing = nil }").unwrap(), &span()));
    assert!(
        !finds(&traceql::parse("{ span.http.method = nil }")
            .unwrap(), &span())
    );
    assert!(
        finds(&traceql::parse("{ span.http.method != nil }")
            .unwrap(), &span())
    );
}

#[test]
fn an_absent_attribute_matches_only_a_negative_comparison() {
    assert!(
        finds(&traceql::parse(r#"{ span.missing != "x" }"#)
            .unwrap(), &span())
    );
    assert!(!finds(&traceql::parse(r#"{ span.missing = "x" }"#).unwrap(), &span()));
}

#[test]
fn select_is_accepted_and_ignored() {
    let query =
        traceql::parse("{ status = error } | select(span.http.method, resource.service.name)").unwrap();
    assert_eq!(query.conditions.len(), 1);
    assert!(finds(&query, &span()));
}

#[test]
fn conditions_are_joined_with_and() {
    let query = traceql::parse(r#"{ status = error && span.http.method = "GET" }"#).unwrap();
    assert!(!finds(&query, &span()), "every condition must hold");
}

#[test]
fn constructs_outside_the_subset_are_named() {
    let cases = [
        (r#"{ status = error } && { name = "x" }"#, "single spanset"),
        ("{ status = error } | count() > 2", "count"),
        (r#"{ name !~ "x" }"#, "!~"),
        ("{ rootServiceName = \"x\" }", "rootServiceName"),
    ];
    for (query, needle) in cases {
        let err = traceql::parse(query).unwrap_err();
        assert!(
            matches!(err, Error::Unsupported { .. }),
            "{query} should be Unsupported, got {err:?}"
        );
        assert!(err.message().contains(needle), "{query}: {err:?}");
    }
}

#[test]
fn traceql_malformed_queries_are_client_errors() {
    for query in ["{", "{ status", "{ status = }", "{ = error }", "}{"] {
        let err = traceql::parse(query).unwrap_err();
        assert!(
            matches!(err, Error::BadRequest(_) | Error::Unsupported { .. }),
            "{query} produced {err:?}"
        );
    }
}

#[test]
fn an_invalid_regex_is_a_clean_client_error() {
    let err = traceql::parse(r#"{ name =~ "[unclosed" }"#).unwrap_err();
    assert!(matches!(err, Error::BadRequest(_)));
}

// ---------------------------------------------------------------------------
// Robustness
// ---------------------------------------------------------------------------

#[test]
fn inputs_that_previously_looked_dangerous_are_handled_cleanly() {
    let inputs = [
        "",
        "{",
        "}",
        "{}",
        "{}{}",
        "{a=",
        r#"{a=""#,
        r#"{a=""}"#,
        r#"{a="b"}|"#,
        r#"{a="b"}|="#,
        r#"{a="b"} | "#,
        r#"{a="b"} || json"#,
        r#"{a="b"} |= `"#,
        "|||||",
        "{{{{{",
        r#"{a="b"} | json | "#,
        "\u{0}",
        "{\u{0}=\"x\"}",
        r#"{a="\"}"#,
        "#comment only",
    ];

    for input in inputs {
        match logql::parse(input) {
            Ok(query) => {
                let _ = query.evaluate("some line", &Labels::new());
            }
            Err(error) => assert!(
                matches!(error, Error::BadRequest(_) | Error::Unsupported { .. }),
                "{input:?} produced {error:?}"
            ),
        }
    }
}

#[test]
fn deeply_nested_input_does_not_blow_the_stack() {
    let deep = format!(
        "{}{}",
        "{\"a\":".repeat(2000),
        "1".to_owned() + &"}".repeat(2000)
    );
    let query = logql::parse(r#"{app="x"} | json | a="1""#).unwrap();
    let _ = query.evaluate(&deep, &Labels::new());
}

#[test]
fn a_pathological_regex_is_rejected_rather_than_run() {
    let huge = "a".repeat(200_000);
    let result = logql::parse(&format!(r#"{{app="x"}} |~ "{huge}""#));
    if let Err(error) = result {
        assert!(matches!(error, Error::BadRequest(_)), "{error:?}");
    }
}
