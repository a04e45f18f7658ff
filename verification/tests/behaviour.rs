//! Properties of the library on concrete values, its edge cases and its refusals.
use std::mem::size_of;

use telemetryd::civil::days_from_civil;
use telemetryd::compression::{decode as decompress, remote_write_passthrough, Encoding};
use telemetryd::config::{IngestConfig, LimitsConfig};
use telemetryd::decoded::{
    json_objects_within, Decoded, DecodedBytes, RejectReason, Rejection, EVENT_BYTES, LINK_BYTES,
    LOG_BYTES, REJECTION_BYTES, SAMPLE_BYTES, SPAN_BYTES,
};
use telemetryd::double::{
    at_most, double_of, is_infinite, is_nan, larger, less, magnitude, negated, smaller, whole_of,
};
use telemetryd::error::Error;
use telemetryd::grouping::{group_by_labels, group_by_text, order_by_labels, sort_groups};
use telemetryd::labels::{
    is_valid_metric_name, sanitize_label_name, Labels, APP_LABEL, METRIC_NAME_LABEL,
};
use telemetryd::lexer::{tokenize, Token};
use telemetryd::logql;
use telemetryd::logs::{normalize_timestamp, truncate_on_char_boundary, TimeUnit};
use telemetryd::loki::{
    self, scale_to_nanos, Direction, Entry, QueryRangeParams, QueryRangeRequest,
};
use telemetryd::matcher::{matches_all, LabelMatcher, MatchOp};
use telemetryd::meta::{distinct_streams, names_of, values_of};
use telemetryd::otlp::{
    extend_attributes, keep_unpromoted, normalize_id, AnyValue, FlexText, FlexU64, KeyValue,
};
use telemetryd::otlp_encode::{dotted, severity_number};
use telemetryd::otlp_metrics::prometheus_metric_name;
use telemetryd::otlp_protobuf::{base64, hex};
use telemetryd::pb;
use telemetryd::pool::MemoryPool;
use telemetryd::prometheus::{self, meta_range, MetaParams, RangeParams, RangeRequest};
use telemetryd::promeval::{binary, plan, Evaluated, InstantVector, Snapshot};
use telemetryd::promql::{self, AggregateOp, BinaryOp, Expr, Function, Grouping};
use telemetryd::protobuf::Reader;
use telemetryd::record::{
    LogRecord, MetricKind, MetricSample, Severity, SpanEvent, SpanKind, SpanLink, SpanRecord,
    SpanStatus,
};
use telemetryd::remote_write::{looks_like_protobuf, millis_to_nanos};
use telemetryd::seconds;
use telemetryd::tempo::{self, SearchParams, SearchRequest};
use telemetryd::text;
use telemetryd::textset;
use telemetryd::traceql::{self, Comparison};

const NOW: u64 = 1_750_000_000_000_000_000;
const SECOND: u64 = 1_000_000_000;

fn labels(pairs: &[(&str, &str)]) -> Labels {
    let mut labels = Labels::new();
    for (name, value) in pairs {
        labels.insert(name, value);
    }
    labels
}

fn calc(op: BinaryOp, a: u64, b: u64) -> u64 {
    let (a, b) = (f64::from_bits(a), f64::from_bits(b));
    let r = match op {
        BinaryOp::Add => a + b,
        BinaryOp::Sub => a - b,
        BinaryOp::Mul => a * b,
        BinaryOp::Div => a / b,
        BinaryOp::Mod => a % b,
        BinaryOp::Pow => a.powf(b),
        BinaryOp::Or => a,
    };
    r.to_bits()
}

fn number(text: &str) -> u64 {
    text.parse::<f64>().unwrap().to_bits()
}

fn never(_: &Comparison<String>) -> bool {
    false
}

fn span(trace: &str, id: &str, parent: Option<&str>, start: u64, end: u64) -> SpanRecord {
    SpanRecord {
        trace_id: trace.to_owned(),
        span_id: id.to_owned(),
        parent_span_id: parent.map(str::to_owned),
        name: format!("span {id}"),
        kind: SpanKind::Server,
        start_nanos: start,
        end_nanos: end,
        status: SpanStatus::Error,
        status_message: "declined".to_owned(),
        stream: labels(&[("app", "checkout"), ("service_name", "checkout")]),
        attributes: labels(&[("http.method", "POST")]),
        events: Vec::new(),
        links: Vec::new(),
    }
}

fn log(at: u64, app: &str, body: &str) -> LogRecord {
    LogRecord {
        timestamp_nanos: at,
        stream: labels(&[("app", app)]),
        severity: Severity::Info,
        severity_text: "INFO".to_owned(),
        body: body.to_owned(),
        attributes: Labels::new(),
        trace_id: None,
        span_id: None,
    }
}

// ---------------------------------------------------------------------------
// Texts and labels
// ---------------------------------------------------------------------------

#[test]
fn texts_are_trimmed_folded_and_split() {
    assert_eq!(text::trimmed(" \u{a0}a b\u{2003}\n"), "a b");
    assert_eq!(text::lowered("AbC-É"), "abc-É");
    assert_eq!(text::uppered("ok"), "OK");
    assert_eq!(text::split("a,,b", ','), vec!["a", "", "b"]);
    assert_eq!(text::strip_prefix("span.x", "span.").as_deref(), Some("x"));
    assert_eq!(text::strip_prefix("x", "span."), None);
    assert!(text::contains("payment declined", "declin"));
    assert!(!text::contains("payment", "payments"));
    assert!(text::before("a", "ab") && text::before("Z", "a") && !text::before("a", "a"));
}

#[test]
fn numbers_are_written_and_read() {
    assert_eq!(text::decimal_text(0), "0");
    assert_eq!(text::decimal_text(u64::MAX), "18446744073709551615");
    assert_eq!(text::signed_text(i64::MIN), "-9223372036854775808");
    assert_eq!(text::read_unsigned("18446744073709551615", u64::MAX), Some(u64::MAX));
    assert_eq!(text::read_unsigned("18446744073709551616", u64::MAX), None);
    assert_eq!(text::read_unsigned("+7", 10), Some(7));
    assert_eq!(text::read_unsigned("11", 10), None);
    assert_eq!(text::read_unsigned("", 10), None);
    assert_eq!(text::read_signed("-12"), Some(-12));
    assert_eq!(text::read_signed("1.5"), None);
    for n in [0, 9, 10, 4_095, u64::MAX] {
        assert_eq!(text::read_unsigned(&text::decimal_text(n), u64::MAX), Some(n));
    }
}

#[test]
fn a_set_of_texts_is_sorted_and_holds_each_once() {
    let mut list = Vec::new();
    for text in ["b", "a", "b", "ab"] {
        textset::add_text(&mut list, text);
    }
    assert_eq!(list, vec!["a", "ab", "b"]);
    assert_eq!(textset::join(&list, ", "), "a, ab, b");
}

#[test]
fn labels_keep_their_order_and_read_what_was_set() {
    let mut set = labels(&[("b", "2"), ("a", "1"), ("b", "3")]);
    assert_eq!((set.len(), set.name_at(0), set.value_at(1)), (2, "a", "3"));
    assert_eq!(set.get("b"), Some("3"));
    set.remove("b");
    assert_eq!(set.get("b"), None);
    assert_eq!(set.get("a"), Some("1"));

    let mut more = labels(&[("a", "0"), ("c", "1")]);
    more.merge(&labels(&[("a", "9")]));
    assert!(more == labels(&[("a", "9"), ("c", "1")]));
    assert!(more.without(&vec!["a".to_owned()]) == labels(&[("c", "1")]));

    let sets = [labels(&[]), labels(&[("a", "1")]), labels(&[("a", "2")]), labels(&[("b", "0")])];
    for (i, a) in sets.iter().enumerate() {
        for (j, b) in sets.iter().enumerate() {
            assert_eq!(a.comes_before(b), i < j, "{i} {j}");
        }
    }
}

#[test]
fn names_are_sanitised_once_and_for_all() {
    assert_eq!(sanitize_label_name("service.name"), "service_name");
    assert_eq!(sanitize_label_name("1st"), "_1st");
    for name in ["http.status-code", "", "æ", "_ok9"] {
        let once = sanitize_label_name(name);
        assert_eq!(sanitize_label_name(&once), once);
    }
    assert!(is_valid_metric_name("http_requests:rate5m"));
    assert!(!is_valid_metric_name("has.dots") && !is_valid_metric_name(""));
    assert_eq!(labels(&[("http.code", "1")]).get_relaxed("http_code"), Some("1"));
}

#[test]
fn matchers_compare_whole_values() {
    let set = labels(&[("level", "error")]);
    let matcher = |op, value: &str| {
        LabelMatcher::new("level".to_owned(), op, value.to_owned()).unwrap()
    };
    assert!(matcher(MatchOp::Equal, "error").matches(&set));
    assert!(!matcher(MatchOp::NotEqual, "error").matches(&set));
    assert!(matcher(MatchOp::Regex, "err.*").matches(&set));
    assert!(!matcher(MatchOp::Regex, "err").matches(&set), "anchored at both ends");
    assert!(matcher(MatchOp::NotRegex, "warn|info").matches(&set));
    assert!(matcher(MatchOp::Equal, "").matches(&Labels::new()), "absent is the empty text");
    assert!(matcher(MatchOp::Regex, ".+").is_selective());
    assert!(!matcher(MatchOp::Regex, ".*").is_selective());
    assert!(matches_all(&vec![LabelMatcher::equal("level", "error")], &set));

    let error = LabelMatcher::new("a".to_owned(), MatchOp::Regex, "[".to_owned()).unwrap_err();
    assert!(matches!(error, Error::BadRequest(_)));
    assert!(error.message().contains("\"[\""), "{error:?}");
}

// ---------------------------------------------------------------------------
// Doubles, seconds and dates
// ---------------------------------------------------------------------------

#[test]
fn whole_numbers_become_the_nearest_double() {
    for n in [0, 1, 2, 3, 10, (1 << 53) - 1, 1 << 53, (1 << 53) + 1, (1 << 53) + 3, u64::MAX] {
        assert_eq!(double_of(n), (n as f64).to_bits(), "{n}");
    }
}

#[test]
fn doubles_compare_by_their_bits() {
    let values = [
        f64::NEG_INFINITY, -1.5, -f64::MIN_POSITIVE, -0.0, 0.0, 5e-324, 1.0, 2.5, f64::INFINITY,
        f64::NAN,
    ];
    for a in values {
        let x = a.to_bits();
        assert_eq!(is_nan(x), a.is_nan());
        assert_eq!(is_infinite(x), a.is_infinite());
        assert_eq!(magnitude(x), a.abs().to_bits());
        assert_eq!(negated(negated(x)), x);
        for b in values {
            let y = b.to_bits();
            assert_eq!(less(x, y), a < b, "{a} {b}");
            assert_eq!(at_most(x, y), a <= b, "{a} {b}");
            let (high, low) = (f64::from_bits(larger(x, y)), f64::from_bits(smaller(x, y)));
            assert!(high == a.max(b) || (high.is_nan() && a.max(b).is_nan()), "{a} {b}");
            assert!(low == a.min(b) || (low.is_nan() && a.min(b).is_nan()), "{a} {b}");
        }
    }
    for (value, whole) in [(1.0, 1), (1.99, 1), (5.0, 5), (4_294_967_295.5, u32::MAX), (1e18, u32::MAX)] {
        assert_eq!(whole_of(f64::to_bits(value)), whole);
    }
}

fn decimal(text: &str) -> seconds::Decimal {
    match seconds::read(text) {
        Some(seconds::Reading::Number(decimal)) => decimal,
        other => panic!("{text}: {other:?}"),
    }
}

#[test]
fn decimal_seconds_are_read_through_a_double() {
    let nanos = |text: &str| (decimal(text).times(SECOND), decimal(text).rounded(SECOND));
    assert_eq!(nanos("1.5"), (1_500_000_000, 1_500_000_000));
    assert_eq!(nanos("0.0000000019"), (1, 2));
    assert_eq!(nanos("2e-9"), (2, 2));
    assert_eq!(nanos("1e30"), (u64::MAX, u64::MAX));
    assert_eq!(nanos("4.35"), (4_350_000_000, 4_350_000_000));
    assert_eq!(nanos("1.001"), (1_000_999_999, 1_001_000_000));
    assert!(matches!(seconds::read("nan"), Some(seconds::Reading::Special)));
    assert!(seconds::read("1.2.3").is_none());
    assert!(decimal("4102444800.000001").exceeds(4_102_444_800));
    assert!(!decimal("4102444800.0000001").exceeds(4_102_444_800), "nearest to the limit itself");
}

/// Decimals of every size, and those that lie between two doubles.
fn decimals() -> Vec<String> {
    let mut all: Vec<String> = [
        "0", "0.0", "000.1", ".5", "1.", "4.35", "1.001", "0.1", "0.3", "1e22", "1e23", "9e-30", "1e-29",
        "1e-31", "9007199254740991", "9007199254740992", "9007199254740993", "9007199254740995",
        "9007199254740993.0000000000000000000000001", "4503599627370496.5", "4503599627370497.5",
        "18446744073.709551615", "18446744073.709551616", "1750000000.123456789",
        "0.000000000500000000000000000000000000000000001", "123456789012345678901234567890e-20",
        "5e-324", "1.7976931348623157e308", "0.00000000000000000000000000000000000001e38",
    ]
    .iter()
    .map(|text| text.to_string())
    .collect();
    let mut seed: u64 = 0x9e37_79b9_7f4a_7c15;
    for i in 0..4_000 {
        seed = seed.wrapping_mul(6_364_136_223_846_793_005).wrapping_add(1_442_695_040_888_963_407);
        let digits = (seed >> 3).to_string();
        let places = (seed % 19) as usize;
        if i % 3 == 0 {
            all.push(format!("{}e-{}", digits, seed % 60));
        } else {
            let at = places.min(digits.len());
            all.push(format!("{}.{}", &digits[..at], &digits[at..]));
        }
    }
    all
}

#[test]
fn decimals_and_doubles_agree() {
    for text in decimals() {
        let exact: f64 = text.parse().unwrap();
        let read = decimal(&text);
        for by in [1, 1_000, 1_000_000, SECOND, 3_600 * SECOND, 31_536_000 * SECOND] {
            assert_eq!(read.times(by), (exact * by as f64) as u64, "{text} times {by}");
        }
        if exact < 1e10 {
            let nanos = std::time::Duration::from_secs_f64(exact).as_nanos();
            assert_eq!(u128::from(read.rounded(SECOND)), nanos, "{text}");
        }
        for limit in [1, 1_000, 4_102_444_800, 9_007_199_254_740_992, 1 << 63] {
            assert_eq!(read.exceeds(limit), exact > limit as f64, "{text} against {limit}");
        }
    }
}

#[test]
fn durations_are_read_through_a_double() {
    let nanos = |text: &str| tempo::parse_duration(text).unwrap();
    assert_eq!(nanos("4.35s"), 4_350_000_000);
    assert_eq!(nanos("1.001s"), 1_000_999_999);
    assert_eq!(nanos("1.001us"), 1_000);
    assert_eq!(nanos("1.5h"), 5_400 * SECOND);
    assert_eq!(nanos("16383y16383ns"), u64::MAX);
    assert_eq!(nanos("9007199254740993ns"), 9_007_199_254_740_992, "no double is nearer");
    assert_eq!(nanos("1.001"), 1_000_999, "milliseconds");
    assert_eq!(loki::parse_time("1.001").unwrap(), 1_000_999_999);
    assert_eq!(prometheus::parse_time("1.001").unwrap(), 1_000_999_999);
    assert_eq!(prometheus::parse_step("1.001").unwrap(), 1_001_000_000, "rounded to the nearest");
    assert_eq!(tempo::parse_seconds("1.001").unwrap(), 1_000_999_999);
}

#[test]
fn days_count_on_over_months_and_years() {
    assert_eq!(days_from_civil(1969, 12, 31), -1);
    assert_eq!(days_from_civil(2000, 2, 29) + 1, days_from_civil(2000, 3, 1));
    assert_eq!(days_from_civil(1900, 2, 28) + 1, days_from_civil(1900, 3, 1));
    assert_eq!(days_from_civil(2023, 12, 31) + 1, days_from_civil(2024, 1, 1));
    assert_eq!(days_from_civil(0, 3, 1), -719_468);
    assert_eq!(days_from_civil(-400, 3, 1), -719_468 - 146_097);
}

// ---------------------------------------------------------------------------
// Grouping
// ---------------------------------------------------------------------------

#[test]
fn groups_hold_every_item_once() {
    let sets = [labels(&[("a", "2")]), labels(&[("a", "1")]), labels(&[("a", "2")])];
    let refs: Vec<&Labels> = sets.iter().collect();
    assert_eq!(group_by_labels(&refs), vec![vec![0, 2], vec![1]]);
    assert_eq!(sort_groups(&refs), vec![vec![1], vec![0, 2]]);
    assert_eq!(order_by_labels(&refs), vec![1, 0, 2], "equal ones keep their order");
    assert_eq!(group_by_text(&vec!["x", "y", "x"]), vec![vec![0, 2], vec![1]]);
}

#[test]
fn metadata_is_drawn_from_streams() {
    let streams =
        vec![labels(&[("app", "b"), ("env", "p")]), labels(&[("app", "a")]), labels(&[("app", "a")])];
    assert_eq!(names_of(&streams), vec!["app", "env"]);
    assert_eq!(values_of(&streams, "app"), vec!["a", "b"]);
    assert_eq!(values_of(&streams, "env"), vec!["p"]);
    assert_eq!(distinct_streams(&streams).len(), 2);

    let some = loki::series(&streams, &vec![r#"{app="a"}"#.to_owned()]).unwrap();
    assert_eq!((some.status, some.data.len()), ("success", 1));
    assert_eq!(loki::series(&streams, &vec![]).unwrap().data.len(), 2);
    assert!(loki::series(&streams, &vec!["{".to_owned()]).is_err());
    assert_eq!(loki::label_names(&streams).data, vec!["app", "env"]);
    assert_eq!(loki::label_values(&streams, "app").data, vec!["a", "b"]);

    let both = vec![r#"{app="a"}"#.to_owned(), r#"{env="p"}"#.to_owned()];
    assert_eq!(prometheus::series(&streams, &both).unwrap().data.len(), 2);
    assert!(prometheus::series(&streams, &vec!["sum(up)".to_owned()]).is_err());
    assert_eq!(prometheus::label_names(&streams).data, vec!["app", "env"]);
    assert_eq!(prometheus::label_values(&streams, "env").data, vec!["p"]);
}

// ---------------------------------------------------------------------------
// Ingest
// ---------------------------------------------------------------------------

#[test]
fn time_units_do_not_overlap() {
    assert_eq!(normalize_timestamp(1_750_000_000), Some((NOW, TimeUnit::Seconds)));
    assert_eq!(normalize_timestamp(1_750_000_000_000), Some((NOW, TimeUnit::Millis)));
    assert_eq!(normalize_timestamp(1_750_000_000_000_000), Some((NOW, TimeUnit::Micros)));
    assert_eq!(normalize_timestamp(NOW), Some((NOW, TimeUnit::Nanos)));
}

#[test]
fn a_cut_text_fits_and_splits_no_character() {
    for max in 0..8 {
        let mut text = "aæ€b".to_owned();
        truncate_on_char_boundary(&mut text, max);
        assert!(text.len() <= max && "aæ€b".starts_with(&text), "{max}: {text}");
    }
}

#[test]
fn a_budget_that_is_spent_stays_spent() {
    let limits = LimitsConfig { max_decoded_bytes: 600, ..LimitsConfig::default() };
    let mut decoded: Decoded<LogRecord> = Decoded::bounded(&limits);
    decoded.keep(log(NOW, "a", "small"));
    assert_eq!((decoded.accepted(), decoded.over_budget()), (1, false));
    assert_eq!(decoded.decoded_bytes(), log(NOW, "a", "small").decoded_bytes());
    decoded.keep(log(NOW, "a", &"x".repeat(1_000)));
    assert!(decoded.over_budget(), "the record that went past the budget is dropped");
    assert_eq!(decoded.accepted(), 1);
    decoded.keep(log(NOW, "a", ""));
    assert!(decoded.over_budget());
    decoded.refuse(Rejection::new(RejectReason::BodyTooLarge, "x".to_owned()));
    assert_eq!(decoded.rejected(), 0);
}

#[test]
fn series_over_a_limit_are_rejected_by_name() {
    let mut decoded: Decoded<MetricSample> = Decoded::default();
    decoded.note_series_rejections(2, None);
    assert_eq!(decoded.rejected(), 0);
    decoded.note_series_rejections(2, Some("limits.max_series"));
    assert_eq!(decoded.rejected(), 2);
    assert_eq!(decoded.rejections[1].reason, RejectReason::SeriesLimit);
    assert!(decoded.rejections[0].detail.contains("limits.max_series"));
}

#[test]
fn objects_are_counted_outside_strings() {
    assert!(json_objects_within(br#"{"a":"{{{{{{{{{{{{{{{{"}"#).is_ok());
    assert!(json_objects_within(br#"{"a":"\"{{{{{{{{{{{{{{"}"#).is_ok());
    let flood = "{},".repeat(10_001);
    assert!(matches!(json_objects_within(flood.as_bytes()), Err(Error::BadRequest(_))));
}

#[test]
fn ids_are_normalised_once_and_written_back() {
    let id = normalize_id("  00F067AA0BA902B7 ").unwrap();
    assert_eq!(id, "00f067aa0ba902b7");
    assert_eq!(normalize_id(&id).as_deref(), Some(id.as_str()));
    assert_eq!(hex(&pb::hex(&id)), id);
    assert_eq!(pb::hex("+f"), Vec::<u8>::new());
    assert_eq!(pb::hex("abc"), Vec::<u8>::new());
    assert_eq!(pb::hex("FF00"), vec![0xff, 0x00]);
    assert_eq!(base64(&[0, 16, 131]), "ABCD");
}

#[test]
fn own_attributes_beat_inherited_ones() {
    let kv = |key: &str, value: &str| KeyValue {
        key: key.to_owned(),
        value: Some(AnyValue { string_value: Some(value.to_owned()), ..AnyValue::default() }),
    };
    let mut own = Labels::new();
    extend_attributes(&mut own, &vec![kv("region", "record"), kv("order.id", "1")]);
    let inherited = labels(&[("region", "resource"), ("host.name", "box"), ("service.name", "s")]);
    keep_unpromoted(&mut own, &inherited, &labels(&[("service_name", "s")]));
    assert!(own == labels(&[("host.name", "box"), ("order.id", "1"), ("region", "record")]));
    assert_eq!(FlexU64::Text(FlexText::read(" 12 ")).get(), Some(12));
    assert_eq!(FlexU64::Absent.get(), None);
}

#[test]
fn severities_and_numbers_agree() {
    for (severity, number, label) in [
        (Severity::Trace, 1, "trace"),
        (Severity::Debug, 5, "debug"),
        (Severity::Info, 9, "info"),
        (Severity::Warn, 13, "warn"),
        (Severity::Error, 17, "error"),
        (Severity::Fatal, 21, "fatal"),
    ] {
        assert_eq!(severity_number(severity), number);
        assert_eq!(Severity::from_otlp_number(number), severity);
        assert_eq!(Severity::from_otlp_number(number + 3), severity);
        assert_eq!(severity.as_str(), label);
        assert_eq!(Severity::from_text(&label.to_uppercase()), severity);
    }
    for number in 0..6 {
        assert_eq!(SpanKind::from_otlp_number(number).as_otlp_number(), number);
    }
    assert_eq!(SpanStatus::from_otlp_number(1), SpanStatus::Okay);
    assert_eq!(SpanStatus::Okay.as_otlp_number(), 1);
    assert_eq!(SpanKind::from_otlp_name("SPAN_KIND_CLIENT"), Some(SpanKind::Client));
    assert_eq!(SpanStatus::from_otlp_name("nonsense"), None);
}

#[test]
fn dotted_names_are_sanitised_back() {
    for name in ["service_name", "deployment_environment", "order_id"] {
        assert_eq!(sanitize_label_name(dotted(name)), name);
    }
    assert_eq!(dotted("service_name"), "service.name");
    assert_eq!(dotted("order_id"), "order_id");
}

#[test]
fn metric_names_are_always_valid() {
    for (name, unit, counter) in
        [("", "", true), ("http.server", "ms", true), ("9lives", "{cat}", false), ("x", "%", true)]
    {
        let out = prometheus_metric_name(name, unit, counter);
        assert!(is_valid_metric_name(&out), "{out}");
        assert_eq!(out.ends_with("_total"), counter, "{out}");
        assert_eq!(prometheus_metric_name(&out, unit, counter), out, "nothing is added twice");
    }
    assert_eq!(prometheus_metric_name("job.seconds.total", "s", true), "job_seconds_total");
}

#[test]
fn written_fields_are_read_back() {
    for value in [1, 127, 128, 16_383, 16_384, u64::MAX] {
        let mut out = Vec::new();
        pb::uint(&mut out, 6, value);
        let mut reader = Reader::new(&out);
        assert_eq!(reader.next_field().unwrap().unwrap().0, 6);
        assert_eq!(reader.varint().unwrap(), value);
        assert!(reader.is_empty());

        let mut out = Vec::new();
        pb::fixed64(&mut out, 900, value);
        let mut reader = Reader::new(&out);
        assert_eq!(reader.next_field().unwrap().unwrap().0, 900);
        assert_eq!(reader.fixed64().unwrap(), value);
    }
    let mut out = Vec::new();
    pb::uint(&mut out, 1, 0);
    pb::fixed64(&mut out, 1, 0);
    pb::string(&mut out, 1, "");
    assert!(out.is_empty(), "zero and the empty text are left out");
    pb::message(&mut out, 1, &[]);
    assert_eq!(out, vec![0x0a, 0x00], "a message is written though it is empty");
    pb::string(&mut out, 2, "æ");
    let mut reader = Reader::new(&out[2..]);
    reader.next_field().unwrap();
    assert_eq!(reader.string().unwrap(), "æ");
    assert_eq!(reader.position(), 4);
}

#[test]
fn remote_write_times_are_milliseconds() {
    assert_eq!(millis_to_nanos(1_750_000_000_000), Some(NOW));
    assert_eq!(millis_to_nanos(-1), None);
    assert_eq!(millis_to_nanos(i64::MAX), None);
    assert!(looks_like_protobuf(&[0x0a, 0x00]));
    assert!(!looks_like_protobuf(&[0xff, 0xff]));
}

#[test]
fn codings_are_read_back_by_their_tokens() {
    for coding in [Encoding::Identity, Encoding::Gzip, Encoding::Deflate, Encoding::Zstd] {
        assert_eq!(Encoding::parse(coding.as_str(), &[]).unwrap(), coding);
    }
    assert!(remote_write_passthrough().contains(&"snappy"));
    let packed = zstd::bulk::compress(b"payload", 3).unwrap();
    assert_eq!(&*decompress(Encoding::Zstd, &packed, 7).unwrap(), b"payload");
    let error = decompress(Encoding::Zstd, &packed, 6).unwrap_err();
    assert_eq!(error.code(), "limit_exceeded");
    let error = decompress(Encoding::Zstd, b"not zstd", 100).unwrap_err();
    assert!(error.message().contains("zstd"), "{error:?}");
    let error = decompress(Encoding::Deflate, b"\xff\xff\xff", 100).unwrap_err();
    assert!(matches!(error, Error::BadRequest(_)));
}

#[test]
fn a_pool_never_gives_more_than_it_has() {
    let mut pool = MemoryPool::new(10);
    assert_eq!((pool.capacity(), pool.in_use()), (10, 0));
    let a = pool.reserve(4).unwrap();
    let b = pool.reserve(6).unwrap();
    assert!(pool.reserve(1).is_none());
    assert!(!pool.take(1));
    pool.give_back(a);
    assert_eq!(pool.in_use(), 6);
    pool.give_back(b);
    assert_eq!(pool.in_use(), 0);
}

// ---------------------------------------------------------------------------
// Query languages
// ---------------------------------------------------------------------------

#[test]
fn written_durations_are_read_back() {
    for (unit, nanos) in [
        ("ns", 1),
        ("us", 1_000),
        ("ms", 1_000_000),
        ("s", SECOND),
        ("m", 60 * SECOND),
        ("h", 3_600 * SECOND),
        ("d", 86_400 * SECOND),
        ("w", 604_800 * SECOND),
        ("y", 31_536_000 * SECOND),
    ] {
        for value in [1u64, 7, 9_999] {
            let tokens = tokenize(&format!("{value}{unit}")).unwrap();
            assert_eq!(tokens.len(), 1);
            assert_eq!(tokens[0].token, Token::Duration(value.saturating_mul(nanos)));
        }
    }
}

#[test]
fn written_selectors_are_read_back() {
    let query = logql::parse(r#"{app="say \"hi\" \\ there", env="p"} |= "a\"b" != "c""#).unwrap();
    assert_eq!(query.matchers[0].value(), r#"say "hi" \ there"#);
    assert_eq!(query.matchers[1].name, "env");
    assert!(query.evaluate(r#"xa"by"#, &Labels::new()));
    assert!(!query.evaluate(r#"xa"byc"#, &Labels::new()));
    assert!(logql::parse(r#"{app="", env=""}"#).is_err());
}

#[test]
fn line_filters_are_a_conjunction_in_any_order() {
    let forward = logql::parse(r#"{app="x"} |= "a" != "b""#).unwrap();
    let reversed = logql::parse(r#"{app="x"} != "b" |= "a""#).unwrap();
    for line in ["a", "b", "ab", "", "ca"] {
        let wanted = line.contains('a') && !line.contains('b');
        assert_eq!(forward.evaluate(line, &Labels::new()), wanted);
        assert_eq!(reversed.evaluate(line, &Labels::new()), wanted);
    }
    assert_eq!(forward.required_substring(), Some("a"));
    assert_eq!(logql::parse(r#"{app="x"} !~ "a""#).unwrap().required_substring(), None);
}

#[test]
fn parsers_extract_and_never_reject() {
    let json = logql::parse(r#"{app="x"} | json"#).unwrap();
    let logfmt = logql::parse(r#"{app="x"} | logfmt"#).unwrap();
    for line in ["", "not json", r#"{"a":{"b":[1,2]},"c":null}"#, "k=v bare \"q\""] {
        assert!(json.evaluate(line, &Labels::new()) && logfmt.evaluate(line, &Labels::new()));
    }
    assert!(json.has_parser_stage() && !json.has_filters());
    let fields = json.extracted(r#"{"a":{"b":"1"},"n":2,"t":true}"#);
    assert!(fields == labels(&[("a_b", "1"), ("n", "2"), ("t", "true")]));
    let fields = logfmt.extracted(r#"a=1 msg="hi there" x.y=z"#);
    assert!(fields == labels(&[("a", "1"), ("msg", "hi there"), ("x_y", "z")]));
}

#[test]
fn refusals_say_what_and_where() {
    let error = logql::parse("{app=~\"[\"}").unwrap_err();
    assert!(error.message().contains("invalid regular expression"), "{error:?}");
    let error = logql::parse("{app \"x\"}").unwrap_err();
    assert!(error.message().contains("at position 5"), "{error:?}");
    let error = tokenize("a ~").unwrap_err();
    assert!(error.message().contains("'~'") && error.message().contains("position 2"), "{error:?}");
    let error = promql::parse("sum by (x) (up) and down").unwrap_err();
    assert!(matches!(error, Error::Unsupported { hint: Some(_), .. }), "{error:?}");
    assert!(error.docs().is_some());
    assert!(promql::parse("abs()").unwrap_err().message().contains("takes 1 argument"));
}

#[test]
fn names_of_functions_and_operators_are_read_back() {
    for (function, arity) in [
        (Function::Rate, 1),
        (Function::Increase, 1),
        (Function::HistogramQuantile, 2),
        (Function::ClampMin, 2),
        (Function::ClampMax, 2),
        (Function::Abs, 1),
    ] {
        assert_eq!(function.arity(), arity);
        let args = if function.wants_range() {
            "up[5m]".to_owned()
        } else {
            vec!["up"; arity].join(", ")
        };
        match promql::parse(&format!("{}({args})", function.as_str())).unwrap() {
            Expr::Call { function: read, .. } => assert_eq!(read, function),
            other => panic!("{other:?}"),
        }
    }
    let expr = promql::parse("sum by (a) (avg without (b) (up))").unwrap();
    assert_eq!(expr.groupings().len(), 2);
    assert_eq!(BinaryOp::Pow.as_str(), "^");
    assert_eq!(AggregateOp::TopK.as_str(), "topk");
    assert!(AggregateOp::TopK.selects_elements() && !AggregateOp::Sum.selects_elements());
}

#[test]
fn trace_conditions_tell_absence_from_a_name() {
    let span = span("ab", "cd", None, 1, 2);
    let finds = |query: &str| traceql::parse(query).unwrap().matches(&span, &never);
    assert!(finds("{ .missing = nil }") && finds(r#"{ .missing != "x" }"#));
    assert!(!finds("{ .missing != nil }") && !finds(r#"{ .missing = "x" }"#));
    assert!(finds("{ .http.method != nil }"));
    assert!(!finds(r#"{ .name = "span cd" }"#) && finds(r#"{ name = "span cd" }"#));
    assert!(finds("{ status = error }") && !finds("{ status = ok }") && !finds("{ status = unset }"));
    assert!(finds("{ kind = server }") && finds("{ kind != client }"));
    assert!(matches!(traceql::parse("{ status = purple }"), Err(Error::BadRequest(_))));
}

// ---------------------------------------------------------------------------
// Loki
// ---------------------------------------------------------------------------

#[test]
fn times_are_read_in_every_spelling() {
    assert_eq!(scale_to_nanos(5), 5);
    assert_eq!(scale_to_nanos(978_307_200), 978_307_200 * SECOND);
    assert_eq!(scale_to_nanos(978_307_200_000_000_000), 978_307_200_000_000_000);
    for raw in ["2025-06-15T15:06:40+00:00", "2025-06-15T15:06:40-0000", "2025-06-15T15:06:40+00"] {
        assert_eq!(loki::parse_time(raw).unwrap(), NOW, "{raw}");
    }
    assert_eq!(loki::parse_time("2025-06-15T15:06").unwrap(), NOW - 40 * SECOND);
    assert_eq!(loki::parse_time("1970-01-01T00:00:00Z").unwrap(), 0);
    assert_eq!(loki::parse_time(&NOW.to_string()).unwrap(), NOW);
    for (raw, needle) in [
        ("99999999999999999999", "out of range"),
        ("1969-12-31T23:59:59Z", "before the unix epoch"),
        ("2600-01-01T00:00:00Z", "RFC3339"),
        ("2025-06-15", "RFC3339"),
        ("2025-06-15T17:06:40+02:00", "RFC3339"),
        ("2025-06-15T10:06:40-05:00", "RFC3339"),
        ("  ", "empty timestamp"),
    ] {
        let error = loki::parse_time(raw).unwrap_err();
        assert!(error.message().contains(needle), "{raw}: {error:?}");
    }
    let error = loki::resolve_range(None, None, Some("soon"), NOW).unwrap_err();
    assert!(error.message().contains("is not a duration"), "{error:?}");
}

#[test]
fn the_newest_entries_are_returned_and_grouped() {
    let params = QueryRangeParams {
        query: Some(r#"{app=~".+"} |= "x""#.to_owned()),
        limit: Some("3".to_owned()),
        ..QueryRangeParams::default()
    };
    let mut request = QueryRangeRequest::from_params(&params, NOW).unwrap();
    let records: Vec<LogRecord> = vec![
        log(1, "b", "x1"),
        log(9, "a", "x9"),
        log(10, "b", "x10"),
        log(2, "a", "no"),
        log(3, "a", "x3"),
    ]
    .into_iter()
    .filter(|record| request.selects(record))
    .collect();
    assert_eq!(records.len(), 4);

    let answer = loki::query_range(&records, 5, &request);
    assert_eq!(answer.data.stats.summary.total_lines_processed, 5);
    assert_eq!(answer.data.stats.summary.total_entries_returned, 3);
    let apps: Vec<_> = answer.data.result.iter().map(|s| s.stream.get("app").unwrap()).collect();
    assert_eq!(apps, vec!["a", "b"]);
    let times: Vec<&str> = answer.data.result[0].values.iter().map(Entry::timestamp).collect();
    assert_eq!(times, vec!["9", "3"], "by number, newest first");

    request.direction = Direction::Forward;
    request.limit = 2;
    let answer = loki::query_range(&records, 5, &request);
    let times: Vec<&str> = answer
        .data
        .result
        .iter()
        .flat_map(|stream| stream.values.iter().map(Entry::timestamp))
        .collect();
    assert_eq!(times, vec!["3", "1"]);
}

#[test]
fn what_a_parser_stage_takes_out_is_shown() {
    let params = QueryRangeParams {
        query: Some(r#"{app="a"} | json | level="error""#.to_owned()),
        ..QueryRangeParams::default()
    };
    let request = QueryRangeRequest::from_params(&params, NOW).unwrap();
    let mut record = log(NOW, "a", r#"{"level":"error","code":7}"#);
    record.attributes = labels(&[("level", "info"), ("host", "box")]);
    assert!(request.selects(&record));
    let answer = loki::query_range(&vec![record], 1, &request);
    match &answer.data.result[0].values[0] {
        Entry::WithMetadata(_, _, metadata) => {
            let shown = labels(&[("code", "7"), ("host", "box"), ("level", "error")]);
            assert!(*metadata == shown, "{metadata:?}");
        }
        other => panic!("{other:?}"),
    }
}

#[test]
fn metadata_makes_a_third_element() {
    assert!(matches!(Entry::new(5, "l".to_owned(), Labels::new()), Entry::Plain(t, _) if t == "5"));
    let entry = Entry::new(5, "l".to_owned(), labels(&[("a", "1")]));
    assert!(matches!(entry, Entry::WithMetadata(_, _, ref m) if m.get("a") == Some("1")));
}

// ---------------------------------------------------------------------------
// Prometheus
// ---------------------------------------------------------------------------

fn sample(name: &str, app: &str, ts: u64, value: f64) -> MetricSample {
    MetricSample {
        timestamp_nanos: ts,
        series: labels(&[(METRIC_NAME_LABEL, name), (APP_LABEL, app)]),
        value: value.to_bits(),
        kind: MetricKind::Counter,
    }
}

fn eval(snapshot: &Snapshot, query: &str, at: u64) -> Result<InstantVector, Error> {
    let expr = promql::parse(query).unwrap();
    snapshot.eval(&expr, at, &calc, &number).map(|value| value.into_vector())
}

#[test]
fn steps_are_planned_within_the_limit() {
    let params = |start: &str, end: &str, step: &str| RangeParams {
        query: Some("up".to_owned()),
        start: Some(start.to_owned()),
        end: Some(end.to_owned()),
        step: Some(step.to_owned()),
        ..RangeParams::default()
    };
    let request = RangeRequest::from_params(&params("0", "10999", "1"), NOW).unwrap();
    assert_eq!((request.start_nanos, request.end_nanos, request.step_nanos), (0, 10_999 * SECOND, SECOND));
    let error = RangeRequest::from_params(&params("0", "11000", "1"), NOW).unwrap_err();
    assert!(error.message().contains("11001 points"), "{error:?}");
    assert!(RangeRequest::from_params(&params("2", "1", "1"), NOW).is_err());
    let error = RangeRequest::from_params(&params("0", "1", "0s"), NOW).unwrap_err();
    assert!(error.message().contains("positive duration"), "{error:?}");
    let error = RangeRequest::from_params(&params("0", "1", "inf"), NOW).unwrap_err();
    assert!(error.message().contains("positive number"), "{error:?}");
    let request = RangeRequest::from_params(
        &RangeParams { query: Some("up".to_owned()), ..RangeParams::default() },
        NOW,
    )
    .unwrap();
    assert_eq!(request.start_nanos, NOW - 3_600 * SECOND);
    assert_eq!(request.step_nanos, 60 * SECOND);
}

#[test]
fn metadata_ranges_default_to_the_last_hour() {
    let params = MetaParams::default();
    assert_eq!(meta_range(&params, NOW).unwrap(), (NOW - 3_600 * SECOND, NOW));
    let params = MetaParams {
        start: Some("1".to_owned()),
        end: Some("2.5".to_owned()),
        ..MetaParams::default()
    };
    assert_eq!(meta_range(&params, NOW).unwrap(), (SECOND, 2_500_000_000));
    let params = MetaParams { start: Some("x".to_owned()), ..MetaParams::default() };
    assert!(meta_range(&params, NOW).is_err());
}

#[test]
fn numbers_past_what_a_double_holds_are_none() {
    assert_eq!(prometheus::parse_time("1.7976931348623157e308").unwrap(), u64::MAX);
    for raw in ["9e308", "1.7976931348623159e308", "1e400"] {
        assert!(prometheus::parse_time(raw).is_err(), "{raw} is infinite");
    }
    assert_eq!(prometheus::parse_time("-1e-400").unwrap(), 0, "this is zero");
    assert!(prometheus::parse_time("-1e-300").is_err());
    assert!(prometheus::parse_step("5e-324").is_ok());
    for raw in ["1e-400", "2.4e-324", "0.0"] {
        assert!(prometheus::parse_step(raw).is_err(), "{raw} is zero");
    }
}

#[test]
fn a_range_never_has_more_points_than_its_ceiling() {
    let params = RangeParams {
        query: Some("up".to_owned()),
        start: Some("1750000000".to_owned()),
        end: Some("1750010999.5".to_owned()),
        step: Some("1".to_owned()),
        ..RangeParams::default()
    };
    let request = RangeRequest::from_params(&params, NOW).unwrap();
    let samples: Vec<MetricSample> =
        (0..40u64).map(|i| sample("up", "b", NOW + i * 280 * SECOND, 1.0)).collect();
    let snapshot = Snapshot::from_samples(&samples);
    let answer = prometheus::range(&snapshot, &request, &calc, &number).unwrap();
    let values = &answer.data.result[0].values;
    assert_eq!(values.len() as u64, prometheus::MAX_STEPS);
    assert!(values.iter().all(|(at, _)| (at - NOW) % SECOND == 0), "every point is on a step");
    let params = RangeParams { end: Some("1750011000".to_owned()), ..params };
    assert!(RangeRequest::from_params(&params, NOW).is_err());
}

#[test]
fn a_range_is_evaluated_at_every_step_up_to_its_end() {
    let samples: Vec<MetricSample> =
        (0..5u64).map(|i| sample("up", "b", NOW + i * SECOND, i as f64)).collect();
    let snapshot = Snapshot::load(&samples, &promql::parse("up").unwrap(), 5).unwrap();
    let request = RangeRequest {
        expr: promql::parse("up or up offset 1s").unwrap(),
        start_nanos: NOW,
        end_nanos: NOW + 3 * SECOND,
        step_nanos: 2 * SECOND,
    };
    let answer = prometheus::range(&snapshot, &request, &calc, &number).unwrap();
    assert_eq!(answer.data.result.len(), 1);
    let values: Vec<(u64, f64)> = answer.data.result[0]
        .values
        .iter()
        .map(|(at, bits)| ((at - NOW) / SECOND, f64::from_bits(*bits)))
        .collect();
    assert_eq!(values, vec![(0, 0.0), (2, 2.0)], "the third second is no step");

    let scalar = RangeRequest { expr: promql::parse("1 + 2").unwrap(), ..request };
    let answer = prometheus::range(&snapshot, &scalar, &calc, &number).unwrap();
    assert!(answer.data.result.is_empty(), "a scalar has no series");
}

#[test]
fn too_many_samples_are_refused_before_they_are_grouped() {
    let samples: Vec<MetricSample> = (0..3u64).map(|i| sample("up", "a", NOW + i, 1.0)).collect();
    let up = promql::parse("up").unwrap();
    let error = Snapshot::load(&samples, &up, 2).unwrap_err();
    assert!(error.message().contains("more than 2 samples"), "{error:?}");
    assert!(Snapshot::load(&samples, &up, 3).is_ok() && Snapshot::load(&samples, &up, 0).is_ok());
    assert!(Snapshot::load(&vec![], &up, 0).unwrap().is_empty());
}

#[test]
fn a_read_is_planned_for_every_selector() {
    let expr = promql::parse(r#"rate(up{app="a"}[1h] offset 5m) / rate(up{app="a",x="y"}[5m])"#)
        .unwrap();
    let read = plan(&expr, NOW, NOW + SECOND, 10);
    assert_eq!(read.from_nanos, NOW - 3_900 * SECOND);
    assert_eq!((read.end_nanos, read.ceiling), (NOW + SECOND, 11));
    let names: Vec<&str> = read.matchers.iter().map(|m| m.name.as_str()).collect();
    assert_eq!(names, vec!["__name__", "app"], "only what every selector asks for");
    let expr = promql::parse("a - b").unwrap();
    assert!(plan(&expr, 0, 0, 0).matchers.is_empty());
    assert_eq!(plan(&expr, 0, 0, 0).ceiling, 0);
    assert_eq!(plan(&expr, 0, 0, u64::MAX).ceiling, u64::MAX);
}

#[test]
fn what_a_plan_reads_is_all_that_is_looked_at() {
    let mut samples = Vec::new();
    for i in 0..40u64 {
        for app in ["a", "b"] {
            samples.push(sample("up", app, NOW + i * 60 * SECOND, (i * i) as f64));
            samples.push(sample("down", app, NOW + i * 60 * SECOND, 1.0));
        }
    }
    let (start, end) = (NOW + 20 * 60 * SECOND, NOW + 25 * 60 * SECOND);
    for query in [
        r#"sum(rate(up{app="a"}[5m] offset 3m))"#,
        r#"up{app="b"} - up{app="b"} offset 10m"#,
        "increase(up[7m]) or down",
    ] {
        let expr = promql::parse(query).unwrap();
        let read = plan(&expr, start, end, 0);
        let part: Vec<MetricSample> = samples
            .iter()
            .filter(|s| s.timestamp_nanos >= read.from_nanos && s.timestamp_nanos <= read.end_nanos)
            .filter(|s| read.matchers.iter().all(|m| m.matches(&s.series)))
            .map(|s| MetricSample { series: s.series.clone(), ..*s })
            .collect();
        assert!(part.len() < samples.len());
        let whole = Snapshot::from_samples(&samples);
        let loaded = Snapshot::load(&part, &expr, 0).unwrap();
        for at in [start, start + 90 * SECOND, end] {
            let answer = |snapshot: &Snapshot| {
                snapshot.eval(&expr, at, &calc, &number).unwrap().into_vector()
            };
            assert_eq!(format!("{:?}", answer(&loaded)), format!("{:?}", answer(&whole)), "{query}");
            assert!(!answer(&whole).samples.is_empty(), "{query}");
        }
    }
}

#[test]
fn misused_functions_are_refused_when_they_run() {
    let snapshot = Snapshot::from_samples(&vec![sample("up", "a", NOW, 1.0)]);
    for (query, needle) in [
        ("rate(up)", "range selector"),
        ("increase(abs(up))", "range vector"),
        ("histogram_quantile(up, up)", "scalar quantile"),
        ("clamp_max(up, up)", "scalar bound"),
    ] {
        let error = eval(&snapshot, query, NOW).unwrap_err();
        assert!(error.message().contains(needle), "{query}: {error:?}");
    }
    let expr = Expr::Aggregation {
        op: AggregateOp::TopK,
        grouping: Grouping::All,
        param: Some(Box::new(promql::parse("up").unwrap())),
        inner: Box::new(promql::parse("up").unwrap()),
    };
    let error = snapshot.eval(&expr, NOW, &calc, &number).unwrap_err();
    assert!(error.message().contains("`topk(5, …)`"), "{error:?}");
}

#[test]
fn vectors_combine_by_their_labels() {
    let snapshot = Snapshot::from_samples(&vec![
        sample("a", "x", NOW, 6.0),
        sample("b", "x", NOW, 4.0),
        sample("b", "y", NOW, 5.0),
    ]);
    let value = |query: &str| {
        let vector = eval(&snapshot, query, NOW).unwrap();
        vector.samples.iter().map(|(_, bits)| f64::from_bits(*bits)).collect::<Vec<f64>>()
    };
    assert_eq!(value("a or b"), vec![6.0, 5.0], "the left side wins");
    assert_eq!(value("b - a"), vec![-2.0]);
    assert_eq!(value("a % 4"), vec![2.0]);
    assert_eq!(value("2 ^ a"), vec![64.0]);
    assert_eq!(value("-b"), vec![-4.0, -5.0]);
    assert_eq!(value("abs(-b)"), vec![4.0, 5.0]);
    assert_eq!(value("clamp_max(b, 4.5)"), vec![4.0, 4.5]);
    assert_eq!(value("7 / 2"), vec![3.5]);
    match binary(BinaryOp::Or, Evaluated::Scalar(1), Evaluated::Scalar(2), &calc) {
        Evaluated::Vector(vector) => assert_eq!(vector.samples.len(), 1),
        Evaluated::Scalar(_) => panic!("a union is a vector"),
    }
}

#[test]
fn powers_bind_tightest_and_from_the_right() {
    let snapshot = Snapshot::from_samples(&vec![]);
    let value = |query: &str| {
        let vector = eval(&snapshot, query, NOW).unwrap();
        f64::from_bits(vector.samples[0].1)
    };
    assert_eq!(value("2 * 3 ^ 2"), 18.0);
    assert_eq!(value("2 ^ 3 ^ 2"), 512.0);
    assert_eq!(value("-2 ^ 2"), -4.0);
    assert_eq!(value("2 ^ -1"), 0.5);
    assert_eq!(value("2 ^ 2 * 3"), 12.0);
}

#[test]
fn quantiles_outside_the_unit_interval_are_infinite() {
    let bucket = |le: &str, count: f64| MetricSample {
        timestamp_nanos: NOW,
        series: labels(&[(METRIC_NAME_LABEL, "h"), ("le", le)]),
        value: count.to_bits(),
        kind: MetricKind::Histogram,
    };
    let snapshot =
        Snapshot::from_samples(&vec![bucket("1", 2.0), bucket("+Inf", 4.0), bucket("x", 9.0)]);
    let value = |query: &str| {
        let vector = eval(&snapshot, query, NOW).unwrap();
        vector.samples.iter().map(|(_, bits)| f64::from_bits(*bits)).collect::<Vec<f64>>()
    };
    assert_eq!(value("histogram_quantile(0.25, h)"), vec![0.5]);
    assert_eq!(value("histogram_quantile(0.9, h)"), vec![1.0], "the last finite bound");
    assert_eq!(value("histogram_quantile(2, h)"), vec![f64::INFINITY], "one per histogram");
    assert_eq!(value("histogram_quantile(-1, h)"), vec![f64::NEG_INFINITY]);
    let plain = Snapshot::from_samples(&vec![sample("up", "a", NOW, 1.0), sample("up", "b", NOW, 2.0)]);
    let answer = eval(&plain, "histogram_quantile(1.5, up)", NOW).unwrap();
    assert_eq!(answer.samples.len(), 2, "a sample that is no bucket is answered too");
    assert!(answer.samples.iter().all(|(_, bits)| f64::from_bits(*bits) == f64::INFINITY));
    assert!(eval(&plain, "histogram_quantile(0.5, up)", NOW).unwrap().samples.is_empty());
    assert!(value("histogram_quantile(0.5, h * 0)").is_empty(), "an empty histogram has none");
}

// ---------------------------------------------------------------------------
// Tempo
// ---------------------------------------------------------------------------

fn search(limit: &str, min: Option<&str>) -> SearchRequest {
    let params = SearchParams {
        limit: Some(limit.to_owned()),
        min_duration: min.map(str::to_owned),
        ..SearchParams::default()
    };
    SearchRequest::from_params(&params, NOW).unwrap()
}

#[test]
fn a_row_describes_its_whole_trace() {
    let matched = vec![span("t1", "b", Some("a"), 20, 30), span("t2", "c", None, 50, 60)];
    let whole = vec![
        span("t1", "b", Some("a"), 20, 30),
        span("t1", "a", None, 10, 100),
        span("t1", "b", Some("a"), 20, 30),
        span("t2", "c", None, 50, 60),
    ];
    let answer = tempo::search(&matched, &whole, &search("20", None), 7);
    assert_eq!((answer.metrics.inspected_traces, answer.metrics.inspected_spans), (2, 7));
    assert_eq!(answer.traces[0].trace_id, "t2", "newest first");
    let row = &answer.traces[1];
    assert_eq!((row.root_trace_name.as_str(), row.root_service_name.as_str()), ("span a", "checkout"));
    assert_eq!((row.start_time_unix_nano.as_str(), row.duration_nanos), ("10", 90));
    assert_eq!((row.span_sets[0].matched, row.span_sets[0].spans[0].span_id.as_str()), (1, "b"));

    assert_eq!(tempo::search(&matched, &whole, &search("1", None), 0).traces.len(), 1);
    let slow = tempo::search(&matched, &whole, &search("5", Some("50ns")), 0);
    assert_eq!(slow.traces.len(), 1);
    assert_eq!(slow.traces[0].trace_id, "t1");
    let alone = tempo::search(&matched, &vec![], &search("5", None), 0);
    assert_eq!(alone.traces[1].root_trace_name, "span b", "the earliest stands in for the root");
}

#[test]
fn a_search_needs_only_the_traces_that_matched() {
    let matched =
        vec![span("t2", "c", None, 50, 60), span("t1", "b", Some("a"), 20, 30), span("t2", "d", None, 51, 52)];
    let store = || {
        vec![
            span("t3", "z", None, 1, 500),
            span("t1", "a", None, 10, 100),
            span("t1", "b", Some("a"), 20, 30),
            span("t2", "c", None, 50, 60),
            span("t2", "d", None, 51, 52),
        ]
    };
    let ids = tempo::matched_traces(&matched);
    assert_eq!(ids, vec!["t1", "t2"]);
    let whole: Vec<_> = store().into_iter().filter(|span| tempo::is_of_any(span, &ids)).collect();
    assert_eq!(whole.len(), 4);
    let rows = |spans: &Vec<_>| {
        let answer = tempo::search(&matched, spans, &search("9", None), 0);
        answer
            .traces
            .iter()
            .map(|row| (row.trace_id.clone(), row.root_trace_name.clone(), row.duration_nanos))
            .collect::<Vec<_>>()
    };
    assert_eq!(rows(&whole), rows(&store()));
    assert_eq!(rows(&whole)[1], ("t1".to_owned(), "span a".to_owned(), 90));
}

#[test]
fn each_span_of_a_trace_is_written_once() {
    let mut linked = span("0a", "0b", None, 10, 20);
    linked.links.push(SpanLink {
        trace_id: "0c".to_owned(),
        span_id: "0d".to_owned(),
        trace_state: "k=v".to_owned(),
        attributes: Labels::new(),
    });
    let spans = vec![span("0a", "0e", Some("0b"), 12, 13), linked, span("0a", "0e", Some("0b"), 12, 13)];
    let answer = tempo::trace(&spans, " 0A ").unwrap();
    assert_eq!(answer.batches.len(), 1);
    let written = &answer.batches[0].scope_spans[0].spans;
    let ids: Vec<&str> = written.iter().map(|s| s.span_id.as_str()).collect();
    assert_eq!(ids, vec!["0b", "0e"]);
    assert_eq!(written[0].links[0].trace_state, "k=v");
    let keys: Vec<&str> =
        answer.batches[0].resource.attributes.iter().map(|kv| kv.key.as_str()).collect();
    assert_eq!(keys, vec!["app", "service.name"]);
    assert!(tempo::trace(&spans, "  ").unwrap_err().message().contains("empty trace id"));
    assert!(tempo::trace(&spans, "ff").unwrap().batches.is_empty());
}

#[test]
fn a_written_trace_is_read_by_the_otlp_decoder() {
    let render = |bits: u64| telemetryd::otlp::Numeral {
        bits,
        text: String::new(),
        json: serde_json::Value::Null,
    };
    let spans = vec![span("0a0b", "0c", None, NOW, NOW + 5), span("0a0b", "0d", Some("0c"), NOW + 1, NOW + 2)];
    let answer = tempo::trace(&spans, "0a0b").unwrap();
    let bytes = answer.to_protobuf();
    let read = telemetryd::otlp_protobuf::traces(&bytes, &render).unwrap();
    assert_eq!(read.resource_spans.len(), 1);
    assert_eq!(read.resource_spans[0].scope_spans[0].spans[1].parent_span_id, "0c");
    assert!(read.resource_spans[0].scope_spans[0].scope.is_some(), "written though it is empty");

    let limits = LimitsConfig::default();
    let ingest = IngestConfig::default();
    let back = telemetryd::traces::convert_data(
        &read,
        telemetryd::traces::context(&limits, &ingest, NOW),
    );
    assert_eq!(back.records.len(), 2);
    let first = &back.records[0];
    assert_eq!((first.trace_id.as_str(), first.start_nanos, first.end_nanos), ("0a0b", NOW, NOW + 5));
    assert_eq!((first.kind, first.status), (SpanKind::Server, SpanStatus::Error));
    assert_eq!(first.attributes.get("http.method"), Some("POST"));
    assert_eq!(first.status_message, "declined");

    let outer = answer.to_protobuf_v2();
    let mut reader = Reader::new(&outer);
    assert_eq!(reader.next_field().unwrap().unwrap().0, 1);
    assert_eq!(reader.bytes().unwrap(), &bytes[..]);
}

#[test]
fn tags_come_by_scope_and_by_value() {
    let names = vec!["service_name".to_owned(), "app".to_owned()];
    let mut other = span("t", "b", None, 1, 2);
    other.attributes = labels(&[("db.system", "mysql")]);
    let spans = vec![span("t", "a", None, 1, 2), other];
    assert_eq!(
        tempo::tags(&names, &spans).tag_names,
        vec!["app", "db.system", "duration", "http.method", "kind", "name", "service_name", "status"]
    );
    let all = tempo::tags_v2(&names, &spans, Some(" all "));
    assert_eq!(all.scopes.iter().map(|s| s.name).collect::<Vec<_>>(), vec!["resource", "span", "intrinsic"]);
    let one = tempo::tags_v2(&names, &spans, Some("SPAN"));
    assert_eq!(one.scopes.len(), 1);
    assert_eq!(one.scopes[0].tags, vec!["db.system", "http.method"]);
    assert!(tempo::tags_v2(&names, &spans, Some("nothing")).scopes.is_empty());

    let values = |tag: &str| {
        tempo::tag_values(&spans, tag).tag_values.into_iter().map(|v| v.value).collect::<Vec<_>>()
    };
    assert_eq!(values("span.db.system"), vec!["mysql"]);
    assert_eq!(values(" resource.service.name "), vec!["checkout"]);
    assert_eq!(values(".http_method"), vec!["POST"]);
    assert_eq!(values("name"), vec!["span a", "span b"]);
    assert_eq!(values("status"), vec!["error"]);
    assert_eq!(values("kind"), vec!["server"]);
    assert!(values("missing").is_empty());
}

#[test]
fn search_parameters_are_checked_in_turn() {
    let refused = |params: SearchParams| SearchRequest::from_params(&params, NOW).unwrap_err();
    let text = |value: &str| Some(value.to_owned());
    let error = refused(SearchParams { q: text("{"), start: text("x"), ..SearchParams::default() });
    assert!(error.message().contains("the query ended"), "{error:?}");
    let error = refused(SearchParams { start: text("9"), end: text("1"), ..SearchParams::default() });
    assert!(error.message().contains("must not be after"), "{error:?}");
    let error = refused(SearchParams { limit: text("x"), ..SearchParams::default() });
    assert!(error.message().contains("`limit` must be a number, got \"x\""), "{error:?}");
    let error = refused(SearchParams { max_duration: text("x"), ..SearchParams::default() });
    assert!(error.message().contains("is not a duration"), "{error:?}");
    assert_eq!(tempo::parse_duration("1.5").unwrap(), 1_500_000);
    assert_eq!(tempo::parse_seconds("4102444800").unwrap(), 4_102_444_800 * SECOND);
}

#[test]
fn costs_are_those_of_a_machine_of_64_bits() {
    assert_eq!(LOG_BYTES, size_of::<LogRecord>());
    assert_eq!(SPAN_BYTES, size_of::<SpanRecord>());
    assert_eq!(EVENT_BYTES, size_of::<SpanEvent>());
    assert_eq!(LINK_BYTES, size_of::<SpanLink>());
    assert_eq!(SAMPLE_BYTES, size_of::<MetricSample>());
    assert_eq!(REJECTION_BYTES, size_of::<Rejection>());
}
