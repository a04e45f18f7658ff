//! The query APIs and PromQL evaluation.
use telemetryd::civil::days_from_civil;
use telemetryd::error::Error;
use telemetryd::labels::{Labels, METRIC_NAME_LABEL};
use telemetryd::loki::{
    self, resolve_range, Direction, QueryRangeParams, QueryRangeRequest, DEFAULT_LIMIT, MAX_LIMIT,
};
use telemetryd::prometheus::{
    self, build_info, format_value, matchers_of, parse_step, required_query, InstantParams,
    InstantRequest, RangeParams, RangeRequest, VERSION,
};
use telemetryd::promeval::{group_key, group_matches, select_elements, InstantVector, Snapshot};
use telemetryd::promql::{AggregateOp, BinaryOp, Grouping};
use telemetryd::record::{MetricKind, MetricSample, SpanKind, SpanRecord, SpanStatus};
use telemetryd::tempo::{
    self, SearchParams, SearchRequest, DEFAULT_SEARCH_LIMIT, MAX_SEARCH_LIMIT,
};

const NOW: u64 = 1_750_000_000_000_000_000;
const T0: u64 = 1_750_000_000_000_000_000;
const SECOND: u64 = 1_000_000_000;

fn calc(op: BinaryOp, a: u64, b: u64) -> u64 {
    let (a, b) = (f64::from_bits(a), f64::from_bits(b));
    let r = match op {
        BinaryOp::Add => a + b,
        BinaryOp::Sub => a - b,
        BinaryOp::Mul => a * b,
        BinaryOp::Div => a / b,
        BinaryOp::Mod => a % b,
        BinaryOp::Pow => a.powf(b),
        BinaryOp::Or => a,
    };
    r.to_bits()
}

fn number(text: &str) -> u64 {
    text.parse::<f64>().unwrap().to_bits()
}

fn labelled(pairs: &[(&str, &str)]) -> Labels {
    let mut labels = Labels::new();
    for (name, value) in pairs {
        labels.insert(name, value);
    }
    labels
}

fn probe(route: &str, le: &str, value: f64) -> MetricSample {
    MetricSample {
        series: labelled(&[("__name__", "probe"), ("route", route), ("le", le)]),
        timestamp_nanos: 1_000_000_000,
        value: value.to_bits(),
        kind: MetricKind::Gauge,
    }
}

fn vector(rows: &[(&str, f64)]) -> InstantVector {
    InstantVector {
        samples: rows
            .iter()
            .map(|(route, value)| (labelled(&[("route", route)]), value.to_bits()))
            .collect(),
    }
}

fn sample(name: &str, app: &str, ts: u64, value: f64) -> MetricSample {
    MetricSample {
        timestamp_nanos: ts,
        series: labelled(&[(METRIC_NAME_LABEL, name), ("app", app)]),
        value: value.to_bits(),
        kind: MetricKind::Counter,
    }
}

fn eval(snapshot: &Snapshot, query: &str, at: u64) -> InstantVector {
    snapshot
        .eval(&telemetryd::promql::parse(query).unwrap(), at, &calc, &number)
        .unwrap()
        .into_vector()
}

/// The value of a vector's `i`-th sample.
fn value_at(vector: &InstantVector, i: usize) -> f64 {
    f64::from_bits(vector.samples[i].1)
}

fn value_for(vector: &InstantVector, app: &str) -> Option<f64> {
    vector
        .samples
        .iter()
        .find(|(labels, _)| labels.get("app") == Some(app))
        .map(|(_, value)| f64::from_bits(*value))
}

fn plain(bits: u64) -> String {
    format!("{}", f64::from_bits(bits))
}

// ---------------------------------------------------------------------------
// Loki
// ---------------------------------------------------------------------------

#[test]
fn nanosecond_epoch_timestamps_parse() {
    assert_eq!(loki::parse_time("1750000000000000000").unwrap(), NOW);
}

#[test]
fn shorter_units_are_identified_by_magnitude() {
    assert_eq!(loki::parse_time("1750000000").unwrap(), NOW);
    assert_eq!(loki::parse_time("1750000000000").unwrap(), NOW);
    assert_eq!(loki::parse_time("1750000000000000").unwrap(), NOW);
}

#[test]
fn float_seconds_parse() {
    assert_eq!(loki::parse_time("1750000000.5").unwrap(), NOW + 500_000_000);
}

#[test]
fn rfc3339_parses_with_and_without_fractions() {
    assert_eq!(loki::parse_time("2025-06-15T15:06:40Z").unwrap(), NOW);
    assert_eq!(
        loki::parse_time("2025-06-15T15:06:40.5Z").unwrap(),
        NOW + 500_000_000
    );
    assert_eq!(
        loki::parse_time("2025-06-15T15:06:40.123456789Z").unwrap(),
        NOW + 123_456_789
    );
    assert_eq!(loki::parse_time("1750000000000000000").unwrap(), NOW);
}

#[test]
fn a_malformed_timestamp_is_a_clean_client_error() {
    for raw in ["", "not-a-time", "2025-13-45T99:99:99Z"] {
        let err = loki::parse_time(raw).unwrap_err();
        assert!(matches!(err, Error::BadRequest(_)), "{raw}");
    }
}

#[test]
fn the_range_defaults_to_the_last_six_hours() {
    let (start, end) = resolve_range(None, None, None, NOW).unwrap();
    assert_eq!(end, NOW);
    assert_eq!(start, NOW - 6 * 3_600_000_000_000);
}

#[test]
fn since_sets_the_lookback_window() {
    let (start, end) = resolve_range(None, None, Some("30m"), NOW).unwrap();
    assert_eq!(end, NOW);
    assert_eq!(start, NOW - 1_800_000_000_000);
}

#[test]
fn an_inverted_range_is_refused() {
    let err = resolve_range(Some("1750000000"), Some("1740000000"), None, NOW).unwrap_err();
    assert!(err.message().contains("must not be after"), "{err:?}");
}

#[test]
fn loki_query_is_required() {
    let err = QueryRangeRequest::from_params(&QueryRangeParams::default(), NOW).unwrap_err();
    assert!(
        err.message().contains("`query` parameter is required"),
        "{err:?}"
    );
}

#[test]
fn limit_defaults_clamps_and_validates() {
    let base = |limit: Option<&str>| QueryRangeParams {
        query: Some(r#"{app="x"}"#.to_owned()),
        limit: limit.map(str::to_owned),
        ..QueryRangeParams::default()
    };

    assert_eq!(
        QueryRangeRequest::from_params(&base(None), NOW)
            .unwrap()
            .limit,
        DEFAULT_LIMIT
    );
    assert_eq!(
        QueryRangeRequest::from_params(&base(Some("50")), NOW)
            .unwrap()
            .limit,
        50
    );
    assert_eq!(
        QueryRangeRequest::from_params(&base(Some("999999")), NOW)
            .unwrap()
            .limit,
        MAX_LIMIT
    );
    assert!(QueryRangeRequest::from_params(&base(Some("0")), NOW).is_err());
    assert!(QueryRangeRequest::from_params(&base(Some("abc")), NOW).is_err());
}

#[test]
fn direction_defaults_to_backward() {
    let params = QueryRangeParams {
        query: Some(r#"{app="x"}"#.to_owned()),
        ..QueryRangeParams::default()
    };
    let request = QueryRangeRequest::from_params(&params, NOW).unwrap();
    assert_eq!(request.direction, Direction::Backward);
}

#[test]
fn an_unknown_direction_is_refused_by_name() {
    let params = QueryRangeParams {
        query: Some(r#"{app="x"}"#.to_owned()),
        direction: Some("sideways".to_owned()),
        ..QueryRangeParams::default()
    };
    let err = QueryRangeRequest::from_params(&params, NOW).unwrap_err();
    assert!(err.message().contains("sideways"), "{err:?}");
}

#[test]
fn step_and_interval_are_accepted_and_ignored() {
    let params = QueryRangeParams {
        query: Some(r#"{app="x"}"#.to_owned()),
        step: Some("60".to_owned()),
        interval: Some("10".to_owned()),
        ..QueryRangeParams::default()
    };
    assert!(QueryRangeRequest::from_params(&params, NOW).is_ok());
}

#[test]
fn days_from_civil_matches_known_epochs() {
    assert_eq!(days_from_civil(1970, 1, 1), 0);
    assert_eq!(days_from_civil(2000, 3, 1), 11017);
    assert_eq!(days_from_civil(2025, 6, 15), 20254);
}

// ---------------------------------------------------------------------------
// Prometheus
// ---------------------------------------------------------------------------

#[test]
fn prometheus_timestamps_are_seconds() {
    assert_eq!(prometheus::parse_time("1750000000").unwrap(), NOW);
    assert_eq!(prometheus::parse_time("1750000000.5").unwrap(), NOW + 500_000_000);
}

#[test]
fn rfc3339_is_accepted_too() {
    assert_eq!(prometheus::parse_time("2025-06-15T15:06:40Z").unwrap(), NOW);
}

#[test]
fn step_accepts_seconds_and_durations() {
    assert_eq!(parse_step("60").unwrap(), 60 * SECOND);
    assert_eq!(parse_step("1m").unwrap(), 60 * SECOND);
    assert_eq!(parse_step("15s").unwrap(), 15 * SECOND);
    assert_eq!(parse_step("0.5").unwrap(), 500_000_000);
}

#[test]
fn a_non_positive_step_is_refused() {
    for raw in ["0", "-5", "abc", ""] {
        assert!(parse_step(raw).is_err(), "{raw}");
    }
}

#[test]
fn values_render_the_way_prometheus_renders_them() {
    assert_eq!(format_value(1.0_f64.to_bits(), &plain), "1");
    assert_eq!(format_value(1.5_f64.to_bits(), &plain), "1.5");
    assert_eq!(format_value(0.0_f64.to_bits(), &plain), "0");
    assert_eq!(format_value(f64::NAN.to_bits(), &plain), "NaN");
    assert_eq!(format_value(f64::INFINITY.to_bits(), &plain), "+Inf");
    assert_eq!(format_value(f64::NEG_INFINITY.to_bits(), &plain), "-Inf");
}

#[test]
fn prometheus_query_is_required() {
    assert!(required_query(None).is_err());
    assert!(required_query(Some("")).is_err());
    assert!(required_query(Some("   ")).is_err());
}

#[test]
fn build_info_is_honest_about_what_this_is() {
    let response = build_info();
    assert_eq!(response.status, "success");
    assert_eq!(response.data.version, VERSION);
    assert!(response.data.go_version.contains("not Prometheus"), "{response:?}");
}

#[test]
fn match_takes_a_selector_not_an_expression() {
    assert_eq!(matchers_of(r#"up{app="checkout"}"#).unwrap().len(), 2);

    let err = matchers_of("sum(up)").unwrap_err();
    assert!(err.message().contains("series selector"), "{err:?}");
}

#[test]
fn the_instant_response_shape_matches_prometheus() {
    let snapshot = Snapshot::from_samples(&vec![sample("up", "checkout", T0, 42.0)]);
    let params = InstantParams {
        query: Some("up".to_owned()),
        time: Some("1750000000".to_owned()),
        ..InstantParams::default()
    };
    let request = InstantRequest::from_params(&params, NOW).unwrap();
    let response = prometheus::instant(&snapshot, &request, &calc, &number).unwrap();

    assert_eq!(response.status, "success");
    assert_eq!(response.data.result_type, "vector");
    assert_eq!(response.data.result[0].metric.get("app"), Some("checkout"));
    assert_eq!(response.data.result[0].value.0, 1_750_000_000 * SECOND);
    assert_eq!(format_value(response.data.result[0].value.1, &plain), "42");
}

#[test]
fn the_range_response_shape_matches_prometheus() {
    let snapshot = Snapshot::from_samples(&vec![sample("up", "checkout", T0, 1.0)]);
    let params = RangeParams {
        query: Some("up".to_owned()),
        start: Some("1750000000".to_owned()),
        end: Some("1750000000".to_owned()),
        step: Some("1".to_owned()),
        ..RangeParams::default()
    };
    let request = RangeRequest::from_params(&params, NOW).unwrap();
    let response = prometheus::range(&snapshot, &request, &calc, &number).unwrap();

    assert_eq!(response.data.result_type, "matrix");
    assert_eq!(response.data.result[0].values[0].0, 1_750_000_000 * SECOND);
    assert_eq!(format_value(response.data.result[0].values[0].1, &plain), "1");
}

// ---------------------------------------------------------------------------
// Tempo
// ---------------------------------------------------------------------------

#[test]
fn tempo_timestamps_are_seconds() {
    let params = SearchParams {
        start: Some("1750000000".to_owned()),
        end: Some("1750003600".to_owned()),
        ..SearchParams::default()
    };
    let request = SearchRequest::from_params(&params, NOW).unwrap();
    assert_eq!(request.start_nanos, NOW);
    assert_eq!(request.end_nanos, NOW + 3_600_000_000_000);
}

#[test]
fn fractional_seconds_are_accepted() {
    let params = SearchParams {
        start: Some("1750000000.5".to_owned()),
        ..SearchParams::default()
    };
    let request = SearchRequest::from_params(&params, NOW + 3_600_000_000_000).unwrap();
    assert_eq!(request.start_nanos, NOW + 500_000_000);
}

#[test]
fn a_nanosecond_timestamp_is_still_understood() {
    let params = SearchParams {
        start: Some("1750000000000000000".to_owned()),
        ..SearchParams::default()
    };
    let request = SearchRequest::from_params(&params, NOW + 1).unwrap();
    assert_eq!(request.start_nanos, NOW);
}

#[test]
fn the_range_defaults_to_the_last_hour() {
    let request = SearchRequest::from_params(&SearchParams::default(), NOW).unwrap();
    assert_eq!(request.end_nanos, NOW);
    assert_eq!(request.start_nanos, NOW - 3_600_000_000_000);
}

#[test]
fn an_empty_q_means_every_span() {
    for q in [None, Some(String::new()), Some("{}".to_owned())] {
        let params = SearchParams {
            q,
            ..SearchParams::default()
        };
        let request = SearchRequest::from_params(&params, NOW).unwrap();
        assert!(request.query.is_empty());
    }
}

#[test]
fn min_and_max_duration_parse_both_spellings() {
    let params = SearchParams {
        min_duration: Some("100ms".to_owned()),
        max_duration: Some("500".to_owned()),
        ..SearchParams::default()
    };
    let request = SearchRequest::from_params(&params, NOW).unwrap();
    assert_eq!(request.min_duration_nanos, Some(100_000_000));
    assert_eq!(request.max_duration_nanos, Some(500_000_000));
}

#[test]
fn limit_defaults_and_clamps() {
    let base = |limit: Option<&str>| SearchParams {
        limit: limit.map(str::to_owned),
        ..SearchParams::default()
    };
    assert_eq!(
        SearchRequest::from_params(&base(None), NOW).unwrap().limit,
        DEFAULT_SEARCH_LIMIT
    );
    assert_eq!(
        SearchRequest::from_params(&base(Some("999999")), NOW)
            .unwrap()
            .limit,
        MAX_SEARCH_LIMIT
    );
    assert!(SearchRequest::from_params(&base(Some("0")), NOW).is_err());
}

#[test]
fn an_unsupported_traceql_feature_propagates_as_unsupported() {
    let params = SearchParams {
        q: Some("{ a = 1 } || { b = 2 }".to_owned()),
        ..SearchParams::default()
    };
    let err = SearchRequest::from_params(&params, NOW).unwrap_err();
    assert!(matches!(err, Error::Unsupported { .. }), "{err:?}");
}

#[test]
fn the_tag_values_response_uses_the_v2_object_shape() {
    let response = tempo::tag_values(&vec![request_span()], "resource.app");
    assert_eq!(response.tag_values[0].value_type, "string");
    assert_eq!(response.tag_values[0].value, "checkout");
}

#[test]
fn the_search_summary_matches_what_the_ui_reads() {
    let request = SearchRequest::from_params(&SearchParams::default(), NOW).unwrap();
    let spans = vec![request_span()];
    let response = tempo::search(&spans, &spans, &request, 1);

    assert_eq!(response.traces[0].trace_id, "abc");
    assert_eq!(response.traces[0].root_service_name, "checkout");
    assert_eq!(response.traces[0].root_trace_name, "POST /checkout");
    assert_eq!(response.traces[0].duration_nanos, 150_000_000);
    assert_eq!(response.traces[0].start_time_unix_nano, NOW.to_string());
    assert_eq!(response.traces[0].span_sets.len(), 1);
}

fn request_span() -> SpanRecord {
    SpanRecord {
        trace_id: "abc".to_owned(),
        span_id: "01".to_owned(),
        parent_span_id: None,
        name: "POST /checkout".to_owned(),
        kind: SpanKind::Server,
        start_nanos: NOW,
        end_nanos: NOW + 150_000_000,
        status: SpanStatus::Unset,
        status_message: String::new(),
        stream: labelled(&[("app", "checkout")]),
        attributes: Labels::new(),
        events: Vec::new(),
        links: Vec::new(),
    }
}

// ---------------------------------------------------------------------------
// Evaluation
// ---------------------------------------------------------------------------

#[test]
fn samples_the_index_does_not_know_are_still_grouped() {
    let snapshot = Snapshot::from_samples(&vec![probe("/a", "1", 1.0), probe("/b", "1", 2.0)]);

    let mut foreign = Labels::new();
    foreign.insert("route", "/c");
    let vector = InstantVector {
        samples: vec![(foreign, 5.0_f64.to_bits())],
    };
    let out = snapshot.aggregate(
        AggregateOp::Sum,
        &Grouping::By(vec!["route".to_owned()]),
        &vector,
        &calc,
    );
    assert_eq!(out.samples.len(), 1);
    assert!((value_at(&out, 0) - 5.0).abs() < f64::EPSILON);
    assert_eq!(out.samples[0].0.get("route"), Some("/c"));
}

#[test]
fn known_and_unknown_samples_end_up_in_the_same_answer() {
    let snapshot = Snapshot::from_samples(&vec![probe("/a", "1", 1.0)]);
    let mut known = snapshot.stripped(0).clone();
    known.remove("le");
    let mut other = Labels::new();
    other.insert("route", "/z");

    let vector = InstantVector {
        samples: vec![(known, 3.0_f64.to_bits()), (other, 4.0_f64.to_bits())],
    };
    let out = snapshot.aggregate(
        AggregateOp::Sum,
        &Grouping::By(vec!["route".to_owned()]),
        &vector,
        &calc,
    );
    let routes: Vec<&str> = out
        .samples
        .iter()
        .map(|(labels, _)| labels.get("route").unwrap())
        .collect();
    assert_eq!(routes, vec!["/a", "/z"]);
}

#[test]
fn labels_with_one_key_are_one_group() {
    let by = Grouping::By(vec!["route".to_owned(), "le".to_owned()]);
    let a = labelled(&[("route", "/x"), ("le", "5"), ("pod", "one")]);
    let b = labelled(&[("route", "/x"), ("le", "5"), ("pod", "two")]);
    let c = labelled(&[("route", "/y"), ("le", "5"), ("pod", "one")]);

    assert!(group_key(&a, &by) == group_key(&b, &by), "same group");
    assert!(group_matches(&b, &group_key(&a, &by), &by));

    assert!(group_key(&a, &by) != group_key(&c, &by), "different group");
    assert!(!group_matches(&c, &group_key(&a, &by), &by));
}

#[test]
fn the_order_of_by_names_does_not_change_the_group() {
    let one = Grouping::By(vec!["a".to_owned(), "b".to_owned()]);
    let other = Grouping::By(vec!["b".to_owned(), "a".to_owned()]);
    let labels = labelled(&[("a", "1"), ("b", "2")]);
    assert!(group_key(&labels, &one) == group_key(&labels, &other));
}

#[test]
fn without_grouping_distinguishes_an_extra_label() {
    let without = Grouping::Without(vec!["le".to_owned()]);
    let key = group_key(&labelled(&[("route", "/x"), ("le", "5")]), &without);

    assert!(group_matches(
        &labelled(&[("route", "/x"), ("le", "9")]),
        &key,
        &without
    ));
    assert!(
        !group_matches(
            &labelled(&[("route", "/x"), ("pod", "one"), ("le", "5")]),
            &key,
            &without
        ),
        "an extra label outside the exclusion list is a different group"
    );
    assert!(!group_matches(
        &labelled(&[("route", "/y"), ("le", "5")]),
        &key,
        &without
    ));
}

#[test]
fn grouping_over_everything_is_one_group() {
    let all = Grouping::All;
    let key = group_key(&labelled(&[("a", "1")]), &all);
    assert!(key.is_empty());
    assert!(group_matches(&labelled(&[("b", "2")]), &key, &all));
}

#[test]
fn topk_keeps_the_largest_elements_and_their_labels() {
    let picked = select_elements(
        AggregateOp::TopK,
        &Grouping::All,
        &vector(&[("/a", 1.0), ("/b", 9.0), ("/c", 5.0)]),
        2.0_f64.to_bits(),
    );

    let routes: Vec<&str> = picked
        .samples
        .iter()
        .map(|(labels, _)| labels.get("route").unwrap())
        .collect();
    assert_eq!(routes, vec!["/b", "/c"], "largest first, labels intact");
    assert!((value_at(&picked, 0) - 9.0).abs() < f64::EPSILON);
}

#[test]
fn bottomk_takes_the_other_end() {
    let picked = select_elements(
        AggregateOp::BottomK,
        &Grouping::All,
        &vector(&[("/a", 1.0), ("/b", 9.0), ("/c", 5.0)]),
        1.0_f64.to_bits(),
    );
    assert_eq!(picked.samples.len(), 1);
    assert!((value_at(&picked, 0) - 1.0).abs() < f64::EPSILON);
}

#[test]
fn grouping_selects_within_each_group() {
    let samples = vec![
        (labelled(&[("app", "a"), ("route", "/x")]), 1.0_f64.to_bits()),
        (labelled(&[("app", "a"), ("route", "/y")]), 7.0_f64.to_bits()),
        (labelled(&[("app", "b"), ("route", "/z")]), 3.0_f64.to_bits()),
    ];
    let picked = select_elements(
        AggregateOp::TopK,
        &Grouping::By(vec!["app".to_owned()]),
        &InstantVector { samples },
        1.0_f64.to_bits(),
    );
    assert_eq!(picked.samples.len(), 2, "one per app");
    let mut values: Vec<f64> = picked.samples.iter().map(|(_, v)| f64::from_bits(*v)).collect();
    values.sort_by(|a, b| a.partial_cmp(b).unwrap());
    assert!((values[0] - 3.0).abs() < f64::EPSILON);
    assert!((values[1] - 7.0).abs() < f64::EPSILON);
}

#[test]
fn not_a_number_is_dropped_rather_than_ordered() {
    let picked = select_elements(
        AggregateOp::TopK,
        &Grouping::All,
        &vector(&[("/a", f64::NAN), ("/b", 2.0)]),
        5.0_f64.to_bits(),
    );
    assert_eq!(picked.samples.len(), 1);
    assert!((value_at(&picked, 0) - 2.0).abs() < f64::EPSILON);
}

#[test]
fn a_count_below_one_selects_nothing() {
    for k in [0.0, -3.0, f64::NAN] {
        let picked = select_elements(
            AggregateOp::TopK,
            &Grouping::All,
            &vector(&[("/a", 1.0)]),
            f64::to_bits(k),
        );
        assert!(picked.samples.is_empty(), "k = {k}");
    }
}

#[test]
fn an_instant_selector_returns_the_latest_sample_per_series() {
    let snapshot = Snapshot::from_samples(&vec![
        sample("up", "checkout", T0, 1.0),
        sample("up", "checkout", T0 + 30 * SECOND, 2.0),
        sample("up", "cart", T0, 5.0),
    ]);

    let vector = eval(&snapshot, "up", T0 + 60 * SECOND);
    assert_eq!(vector.samples.len(), 2);
    assert_eq!(value_for(&vector, "checkout"), Some(2.0));
    assert_eq!(value_for(&vector, "cart"), Some(5.0));
}

#[test]
fn a_sample_older_than_the_lookback_is_stale() {
    let snapshot = Snapshot::from_samples(&vec![sample("up", "checkout", T0, 1.0)]);
    assert_eq!(eval(&snapshot, "up", T0 + 299 * SECOND).samples.len(), 1);
    assert!(eval(&snapshot, "up", T0 + 400 * SECOND).samples.is_empty());
}

#[test]
fn matchers_select_series() {
    let snapshot = Snapshot::from_samples(&vec![
        sample("up", "checkout", T0, 1.0),
        sample("up", "cart", T0, 2.0),
    ]);
    let vector = eval(&snapshot, r#"up{app="checkout"}"#, T0);
    assert_eq!(vector.samples.len(), 1);
    assert_eq!(value_for(&vector, "checkout"), Some(1.0));
}

#[test]
fn rate_is_computed_over_the_observed_span_not_the_nominal_window() {
    let snapshot = Snapshot::from_samples(&vec![
        sample("requests", "checkout", T0, 0.0),
        sample("requests", "checkout", T0 + 30 * SECOND, 30.0),
        sample("requests", "checkout", T0 + 60 * SECOND, 60.0),
    ]);

    let vector = eval(&snapshot, "rate(requests[60s])", T0 + 60 * SECOND);
    assert!(
        (value_for(&vector, "checkout").unwrap() - 1.0).abs() < 1e-9,
        "got {:?}",
        value_for(&vector, "checkout")
    );
}

#[test]
fn increase_extrapolates_the_rate_across_the_window() {
    let snapshot = Snapshot::from_samples(&vec![
        sample("requests", "checkout", T0, 0.0),
        sample("requests", "checkout", T0 + 30 * SECOND, 30.0),
        sample("requests", "checkout", T0 + 60 * SECOND, 60.0),
    ]);
    let vector = eval(&snapshot, "increase(requests[120s])", T0 + 60 * SECOND);
    assert!(
        (value_for(&vector, "checkout").unwrap() - 120.0).abs() < 1e-6,
        "got {:?}",
        value_for(&vector, "checkout")
    );
}

#[test]
fn samples_sharing_one_timestamp_yield_no_rate() {
    let snapshot = Snapshot::from_samples(&vec![
        sample("requests", "checkout", T0, 1.0),
        sample("requests", "checkout", T0, 2.0),
    ]);
    assert!(
        eval(&snapshot, "rate(requests[60s])", T0)
            .samples
            .is_empty()
    );
}

#[test]
fn a_counter_reset_is_not_a_negative_rate() {
    let snapshot = Snapshot::from_samples(&vec![
        sample("requests", "checkout", T0, 100.0),
        sample("requests", "checkout", T0 + 30 * SECOND, 150.0),
        sample("requests", "checkout", T0 + 40 * SECOND, 10.0),
        sample("requests", "checkout", T0 + 60 * SECOND, 25.0),
    ]);

    let rate = value_for(
        &eval(&snapshot, "rate(requests[70s])", T0 + 60 * SECOND),
        "checkout",
    )
    .unwrap();
    assert!((rate - 75.0 / 60.0).abs() < 1e-9, "got {rate}");
    assert!(rate > 0.0, "a reset must never produce a negative rate");
}

#[test]
fn a_single_sample_yields_no_rate() {
    let snapshot = Snapshot::from_samples(&vec![sample("requests", "checkout", T0, 5.0)]);
    assert!(
        eval(&snapshot, "rate(requests[60s])", T0)
            .samples
            .is_empty()
    );
}

#[test]
fn aggregations_group_correctly() {
    let snapshot = Snapshot::from_samples(&vec![
        sample("up", "checkout", T0, 1.0),
        sample("up", "cart", T0, 2.0),
        sample("up", "billing", T0, 4.0),
    ]);

    assert_eq!(value_at(&eval(&snapshot, "sum(up)", T0), 0), 7.0);
    assert_eq!(value_at(&eval(&snapshot, "count(up)", T0), 0), 3.0);
    assert_eq!(value_at(&eval(&snapshot, "min(up)", T0), 0), 1.0);
    assert_eq!(value_at(&eval(&snapshot, "max(up)", T0), 0), 4.0);
    assert!((value_at(&eval(&snapshot, "avg(up)", T0), 0) - 7.0 / 3.0).abs() < 1e-9);
}

#[test]
fn by_and_without_partition_the_same_way() {
    let snapshot = Snapshot::from_samples(&vec![
        sample("up", "checkout", T0, 1.0),
        sample("up", "checkout", T0 + SECOND, 3.0),
        sample("up", "cart", T0, 2.0),
    ]);

    let by = eval(&snapshot, "sum by (app) (up)", T0 + SECOND);
    assert_eq!(by.samples.len(), 2);
    assert_eq!(value_for(&by, "checkout"), Some(3.0));

    let without = eval(&snapshot, "sum without (nothing) (up)", T0 + SECOND);
    assert_eq!(
        without.samples.len(),
        2,
        "grouping on a label nobody has keeps them apart"
    );
}

#[test]
fn scalar_arithmetic_applies_to_every_series() {
    let snapshot = Snapshot::from_samples(&vec![
        sample("up", "checkout", T0, 2.0),
        sample("up", "cart", T0, 3.0),
    ]);
    let vector = eval(&snapshot, "up * 60", T0);
    assert_eq!(value_for(&vector, "checkout"), Some(120.0));
    assert_eq!(value_for(&vector, "cart"), Some(180.0));
}

#[test]
fn the_uis_counter_increase_form_yields_zero_rather_than_nothing() {
    let snapshot = Snapshot::from_samples(&vec![sample("requests", "checkout", T0, 42.0)]);

    let query = "clamp_min(requests - (requests offset 5m or requests * 0), 0)";
    let vector = eval(&snapshot, query, T0);

    assert_eq!(vector.samples.len(), 1, "the series must be present");
    assert_eq!(value_for(&vector, "checkout"), Some(42.0));
}

#[test]
fn offset_reads_the_earlier_value() {
    let snapshot = Snapshot::from_samples(&vec![
        sample("requests", "checkout", T0, 10.0),
        sample("requests", "checkout", T0 + 300 * SECOND, 50.0),
    ]);

    let now = eval(&snapshot, "requests", T0 + 300 * SECOND);
    assert_eq!(value_for(&now, "checkout"), Some(50.0));

    let earlier = eval(&snapshot, "requests offset 5m", T0 + 300 * SECOND);
    assert_eq!(value_for(&earlier, "checkout"), Some(10.0));

    let delta = eval(
        &snapshot,
        "requests - (requests offset 5m)",
        T0 + 300 * SECOND,
    );
    assert_eq!(value_for(&delta, "checkout"), Some(40.0));
}

#[test]
fn clamp_min_floors_negative_values() {
    let snapshot = Snapshot::from_samples(&vec![sample("gauge", "checkout", T0, -5.0)]);
    let vector = eval(&snapshot, "clamp_min(gauge, 0)", T0);
    assert_eq!(value_for(&vector, "checkout"), Some(0.0));
}

#[test]
fn histogram_quantile_interpolates_between_buckets() {
    let bucket = |le: &str, count: f64| {
        let mut series = Labels::new();
        series.insert(METRIC_NAME_LABEL, "latency_bucket");
        series.insert("app", "checkout");
        series.insert("le", le);
        MetricSample {
            timestamp_nanos: T0,
            series,
            value: count.to_bits(),
            kind: MetricKind::Histogram,
        }
    };

    let snapshot = Snapshot::from_samples(&vec![
        bucket("0.1", 50.0),
        bucket("0.5", 90.0),
        bucket("+Inf", 100.0),
    ]);

    let p50 = eval(&snapshot, "histogram_quantile(0.5, latency_bucket)", T0);
    assert!(
        (value_at(&p50, 0) - 0.1).abs() < 1e-9,
        "got {:?}",
        p50.samples
    );

    let p90 = eval(&snapshot, "histogram_quantile(0.9, latency_bucket)", T0);
    assert!(
        (value_at(&p90, 0) - 0.5).abs() < 1e-9,
        "got {:?}",
        p90.samples
    );

    assert!(p50.samples[0].0.get("le").is_none());
    assert_eq!(p50.samples[0].0.get("app"), Some("checkout"));
}

#[test]
fn the_metric_name_is_dropped_from_results() {
    let snapshot = Snapshot::from_samples(&vec![sample("up", "checkout", T0, 1.0)]);
    let vector = eval(&snapshot, "up", T0);
    assert!(vector.samples[0].0.get("__name__").is_none());
    assert_eq!(vector.samples[0].0.get("app"), Some("checkout"));
}

#[test]
fn an_empty_snapshot_evaluates_to_an_empty_vector() {
    let snapshot = Snapshot::default();
    for query in ["up", "rate(up[5m])", "sum(up)", "clamp_min(up, 0)"] {
        assert!(eval(&snapshot, query, T0).samples.is_empty(), "{query}");
    }
}

#[test]
fn vector_to_vector_arithmetic_matches_on_labels() {
    let snapshot = Snapshot::from_samples(&vec![
        sample("a", "checkout", T0, 10.0),
        sample("b", "checkout", T0, 4.0),
        sample("a", "cart", T0, 7.0),
    ]);

    let vector = eval(&snapshot, "a - b", T0);
    assert_eq!(vector.samples.len(), 1);
    assert_eq!(value_for(&vector, "checkout"), Some(6.0));
}
