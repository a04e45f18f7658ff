//! Decoding OTLP/HTTP JSON, and encoding back to it.
use serde_json::Value;
use telemetryd::config::{IngestConfig, LimitsConfig};
use telemetryd::decoded::{
    json_objects_within, Decoded, DecodedBytes, RejectReason, Rejection,
};
use telemetryd::labels::{Labels, METRIC_NAME_LABEL};
use telemetryd::logs::{
    normalize_timestamp, DecodeContext, LogRecordJson, LogsData, ResourceLogs, ScopeLogs, TimeUnit,
    TRUNCATION_MARK,
};
use telemetryd::otlp::{
    extend_labels, normalize_id, AnyValue, ArrayValue, FlexEnum, FlexI64, FlexText, FlexU64,
    InstrumentationScope, KeyValue, KvList, Numeral, Resource, SignedText,
};
use telemetryd::otlp_encode::{encode_logs, encode_metrics, encode_spans, severity_number};
use telemetryd::otlp_metrics::{
    prometheus_metric_name, prometheus_name, HistogramData, HistogramPoint, MetricContext,
    MetricJson, MetricsData, NumberData, NumberPoint, ResourceMetrics, ScopeMetrics, SumData,
};
use telemetryd::record::{
    LogRecord, MetricKind, MetricSample, Severity, SpanEvent, SpanKind, SpanRecord, SpanStatus,
};
use telemetryd::traces::{
    context, ResourceSpans, ScopeSpans, SpanEventJson, SpanJson, StatusJson, TracesData,
};

const NOW: u64 = 1_750_000_000_000_000_000;

// ---------------------------------------------------------------------------
// proto3 JSON to the wire types
// ---------------------------------------------------------------------------

/// A field under its camel-case name or the proto one.
fn field<'a>(json: &'a Value, camel: &str, snake: &str) -> Option<&'a Value> {
    json.get(camel).or_else(|| json.get(snake)).filter(|v| !v.is_null())
}

fn list<T>(json: Option<&Value>, read: fn(&Value) -> T) -> Vec<T> {
    json.and_then(Value::as_array).map(|items| items.iter().map(read).collect()).unwrap_or_default()
}

fn text(json: Option<&Value>) -> String {
    json.and_then(Value::as_str).unwrap_or_default().to_owned()
}

fn flex(json: Option<&Value>) -> FlexU64 {
    match json {
        None => FlexU64::Absent,
        Some(Value::String(raw)) => FlexU64::Text(FlexText::read(raw)),
        Some(other) => FlexU64::Number(other.as_u64().unwrap()),
    }
}

fn flex_signed(json: Option<&Value>) -> FlexI64 {
    match json {
        None => FlexI64::Absent,
        Some(Value::String(raw)) => FlexI64::Text(SignedText::read(raw)),
        Some(other) => FlexI64::Number(other.as_i64().unwrap()),
    }
}

fn flex_enum(json: Option<&Value>) -> FlexEnum {
    match json {
        None => FlexEnum::Absent,
        Some(Value::String(name)) => FlexEnum::Name(name.clone()),
        Some(other) => FlexEnum::Number(i32::try_from(other.as_i64().unwrap()).unwrap()),
    }
}

fn numeral(value: f64) -> Numeral {
    let text = if value.is_finite() && value.fract() == 0.0 && value.abs() < 1e15 {
        format!("{value:.0}")
    } else {
        value.to_string()
    };
    Numeral {
        bits: value.to_bits(),
        text,
        json: serde_json::Number::from_f64(value).map_or(Value::Null, Value::Number),
    }
}

fn bound(value: f64) -> String {
    if value.is_infinite() {
        return if value > 0.0 { "+Inf" } else { "-Inf" }.to_owned();
    }
    format!("{value}")
}

fn any_value(json: &Value) -> AnyValue {
    AnyValue {
        string_value: field(json, "stringValue", "string_value")
            .and_then(Value::as_str)
            .map(str::to_owned),
        bool_value: field(json, "boolValue", "bool_value").and_then(Value::as_bool),
        int_value: flex_signed(field(json, "intValue", "int_value")),
        double_value: field(json, "doubleValue", "double_value")
            .and_then(Value::as_f64)
            .map(numeral),
        array_value: field(json, "arrayValue", "array_value")
            .map(|a| ArrayValue { values: list(a.get("values"), any_value) }),
        kvlist_value: field(json, "kvlistValue", "kvlist_value")
            .map(|a| KvList { values: list(a.get("values"), key_value) }),
        bytes_value: field(json, "bytesValue", "bytes_value")
            .and_then(Value::as_str)
            .map(str::to_owned),
    }
}

fn key_value(json: &Value) -> KeyValue {
    KeyValue { key: text(json.get("key")), value: json.get("value").map(any_value) }
}

fn attributes(json: &Value) -> Vec<KeyValue> {
    list(json.get("attributes"), key_value)
}

fn resource(json: &Value) -> Option<Resource> {
    json.get("resource").map(|r| Resource { attributes: attributes(r) })
}

fn scope(json: &Value) -> Option<InstrumentationScope> {
    json.get("scope").map(|s| InstrumentationScope {
        name: text(s.get("name")),
        version: text(s.get("version")),
        attributes: attributes(s),
    })
}

fn logs_data(json: &Value) -> LogsData {
    LogsData {
        resource_logs: list(field(json, "resourceLogs", "resource_logs"), |group| ResourceLogs {
            resource: resource(group),
            scope_logs: list(field(group, "scopeLogs", "scope_logs"), |logs| ScopeLogs {
                scope: scope(logs),
                log_records: list(field(logs, "logRecords", "log_records"), |r| LogRecordJson {
                    time_unix_nano: flex(field(r, "timeUnixNano", "time_unix_nano")),
                    observed_time_unix_nano: flex(field(
                        r,
                        "observedTimeUnixNano",
                        "observed_time_unix_nano",
                    )),
                    severity_number: flex_enum(field(r, "severityNumber", "severity_number")),
                    severity_text: text(field(r, "severityText", "severity_text")),
                    body: r.get("body").map(any_value),
                    attributes: attributes(r),
                    trace_id: text(field(r, "traceId", "trace_id")),
                    span_id: text(field(r, "spanId", "span_id")),
                }),
            }),
        }),
    }
}

fn traces_data(json: &Value) -> TracesData {
    TracesData {
        resource_spans: list(field(json, "resourceSpans", "resource_spans"), |group| {
            ResourceSpans {
                resource: resource(group),
                scope_spans: list(field(group, "scopeSpans", "scope_spans"), |spans| ScopeSpans {
                    scope: scope(spans),
                    spans: list(spans.get("spans"), span),
                }),
            }
        }),
    }
}

fn span(json: &Value) -> SpanJson {
    SpanJson {
        trace_id: text(field(json, "traceId", "trace_id")),
        span_id: text(field(json, "spanId", "span_id")),
        parent_span_id: text(field(json, "parentSpanId", "parent_span_id")),
        name: text(json.get("name")),
        kind: flex_enum(json.get("kind")),
        start_time_unix_nano: flex(field(json, "startTimeUnixNano", "start_time_unix_nano")),
        end_time_unix_nano: flex(field(json, "endTimeUnixNano", "end_time_unix_nano")),
        attributes: attributes(json),
        events: list(json.get("events"), |event| SpanEventJson {
            time_unix_nano: flex(field(event, "timeUnixNano", "time_unix_nano")),
            name: text(event.get("name")),
            attributes: attributes(event),
        }),
        status: json.get("status").map(|status| StatusJson {
            code: flex_enum(status.get("code")),
            message: text(status.get("message")),
        }),
    }
}

fn number_point(json: &Value) -> NumberPoint {
    NumberPoint {
        time_unix_nano: flex(field(json, "timeUnixNano", "time_unix_nano")),
        attributes: attributes(json),
        as_double: field(json, "asDouble", "as_double").and_then(Value::as_f64).map(f64::to_bits),
        as_int: flex_signed(field(json, "asInt", "as_int")),
    }
}

fn metrics_data(json: &Value) -> MetricsData {
    MetricsData {
        resource_metrics: list(field(json, "resourceMetrics", "resource_metrics"), |group| {
            ResourceMetrics {
                resource: resource(group),
                scope_metrics: list(field(group, "scopeMetrics", "scope_metrics"), |metrics| {
                    ScopeMetrics {
                        scope: scope(metrics),
                        metrics: list(metrics.get("metrics"), metric),
                    }
                }),
            }
        }),
    }
}

fn metric(json: &Value) -> MetricJson {
    MetricJson {
        name: text(json.get("name")),
        unit: text(json.get("unit")),
        gauge: json.get("gauge").map(|g| NumberData {
            data_points: list(field(g, "dataPoints", "data_points"), number_point),
        }),
        sum: json.get("sum").map(|s| SumData {
            data_points: list(field(s, "dataPoints", "data_points"), number_point),
            aggregation_temporality: flex_enum(field(
                s,
                "aggregationTemporality",
                "aggregation_temporality",
            )),
            is_monotonic: field(s, "isMonotonic", "is_monotonic")
                .and_then(Value::as_bool)
                .unwrap_or_default(),
        }),
        histogram: json.get("histogram").map(|h| HistogramData {
            data_points: list(field(h, "dataPoints", "data_points"), |p| HistogramPoint {
                time_unix_nano: flex(field(p, "timeUnixNano", "time_unix_nano")),
                attributes: attributes(p),
                count: flex(p.get("count")),
                sum: p.get("sum").and_then(Value::as_f64).map(f64::to_bits),
                bucket_counts: list(field(p, "bucketCounts", "bucket_counts"), |c| flex(Some(c))),
                explicit_bounds: list(field(p, "explicitBounds", "explicit_bounds"), |b| {
                    bound(b.as_f64().unwrap())
                }),
            }),
            aggregation_temporality: flex_enum(field(
                h,
                "aggregationTemporality",
                "aggregation_temporality",
            )),
        }),
        exponential_histogram: field(json, "exponentialHistogram", "exponential_histogram")
            .is_some(),
        summary: json.get("summary").is_some(),
    }
}

fn decode_logs(body: &[u8], ctx: DecodeContext<'_>) -> Result<Decoded<LogRecord>, String> {
    let json: Value = serde_json::from_slice(body).map_err(|e| e.to_string())?;
    Ok(telemetryd::logs::convert_data(&logs_data(&json), ctx))
}

fn decode_traces(body: &[u8], ctx: DecodeContext<'_>) -> Result<Decoded<SpanRecord>, String> {
    let json: Value = serde_json::from_slice(body).map_err(|e| e.to_string())?;
    Ok(telemetryd::traces::convert_data(&traces_data(&json), ctx))
}

fn ctx<'a>(limits: &'a LimitsConfig, ingest: &'a IngestConfig) -> DecodeContext<'a> {
    DecodeContext { limits, ingest, now_nanos: NOW }
}

fn logs_str(json: &str) -> Decoded<LogRecord> {
    let limits = LimitsConfig::default();
    let ingest = IngestConfig::default();
    decode_logs(json.as_bytes(), ctx(&limits, &ingest)).unwrap()
}

fn traces_str(json: &str) -> Decoded<SpanRecord> {
    let limits = LimitsConfig::default();
    let ingest = IngestConfig::default();
    decode_traces(json.as_bytes(), context(&limits, &ingest, NOW)).unwrap()
}

fn metrics_str(json: &str) -> Decoded<MetricSample> {
    let limits = LimitsConfig::default();
    let ingest = IngestConfig::default();
    let json: Value = serde_json::from_str(json).unwrap();
    telemetryd::otlp_metrics::convert_data(
        &metrics_data(&json),
        MetricContext { limits: &limits, ingest: &ingest, now_nanos: NOW },
    )
}

fn find<'a>(decoded: &'a Decoded<MetricSample>, name: &str) -> Vec<&'a MetricSample> {
    decoded.records.iter().filter(|s| s.name() == name).collect()
}

fn double(sample: &MetricSample) -> f64 {
    f64::from_bits(sample.value)
}

fn parsed(json: &str) -> Value {
    serde_json::from_str(json).unwrap()
}

fn any(json: &str) -> AnyValue {
    any_value(&parsed(json))
}

fn labels(pairs: &[(&str, &str)]) -> Labels {
    let mut labels = Labels::default();
    for (key, value) in pairs {
        labels.insert(key, value);
    }
    labels
}

/// Shaped like something the decoder produced: `level` is in the stream because it is
/// derived from the severity.
fn log(app: &str, body: &str) -> LogRecord {
    LogRecord {
        timestamp_nanos: 1_760_000_000_000_000_000,
        stream: labels(&[("app", app), ("level", "error"), ("service_name", app)]),
        severity: Severity::Error,
        severity_text: "ERROR".into(),
        body: body.into(),
        attributes: labels(&[("order.id", "42")]),
        trace_id: Some("5b8efff798038103d269b633813fc60c".into()),
        span_id: Some("eee19b7ec3c1b174".into()),
    }
}

fn json_double(bits: u64) -> Value {
    serde_json::Number::from_f64(f64::from_bits(bits)).map_or(Value::Null, Value::Number)
}

const LOG_PAYLOAD: &str = r#"{
  "resourceLogs": [{
    "resource": { "attributes": [
      {"key":"service.name","value":{"stringValue":"checkout"}},
      {"key":"deployment.environment","value":{"stringValue":"production"}},
      {"key":"host.id","value":{"stringValue":"i-0abc123"}}
    ]},
    "scopeLogs": [{
      "scope": {"name":"laravel-telemetry","version":"1.2.0"},
      "logRecords": [{
        "timeUnixNano":"1750000000000000000",
        "severityNumber":17,
        "severityText":"ERROR",
        "body":{"stringValue":"Payment declined"},
        "attributes":[{"key":"order.id","value":{"intValue":"9912"}}],
        "traceId":"4bf92f3577b34da6a3ce929d0e0e4736",
        "spanId":"00f067aa0ba902b7"
      }]
    }]
  }]
}"#;

const TRACE_PAYLOAD: &str = r#"{
  "resourceSpans": [{
    "resource": {"attributes": [
      {"key":"service.name","value":{"stringValue":"checkout"}},
      {"key":"deployment.environment","value":{"stringValue":"production"}}
    ]},
    "scopeSpans": [{
      "scope": {"name":"laravel-telemetry"},
      "spans": [{
        "traceId":"4bf92f3577b34da6a3ce929d0e0e4736",
        "spanId":"00f067aa0ba902b7",
        "name":"POST /checkout",
        "kind":2,
        "startTimeUnixNano":"1750000000000000000",
        "endTimeUnixNano":"1750000000150000000",
        "attributes":[
          {"key":"http.method","value":{"stringValue":"POST"}},
          {"key":"http.status_code","value":{"intValue":"500"}}
        ],
        "status":{"code":2,"message":"payment declined"},
        "events":[{
          "timeUnixNano":"1750000000100000000",
          "name":"exception",
          "attributes":[{"key":"exception.type","value":{"stringValue":"PaymentError"}}]
        }]
      },{
        "traceId":"4bf92f3577b34da6a3ce929d0e0e4736",
        "spanId":"aaaaaaaaaaaaaaaa",
        "parentSpanId":"00f067aa0ba902b7",
        "name":"SELECT orders",
        "kind":3,
        "startTimeUnixNano":"1750000000020000000",
        "endTimeUnixNano":"1750000000030000000"
      }]
    }]
  }]
}"#;

// ---------------------------------------------------------------------------
// Outcomes
// ---------------------------------------------------------------------------

#[test]
fn reject_reasons_are_a_closed_label_set() {
    for reason in [
        RejectReason::BodyTooLarge,
        RejectReason::TooManyAttributes,
        RejectReason::TooManyLabels,
        RejectReason::LabelNameTooLong,
        RejectReason::LabelValueTooLong,
        RejectReason::MissingTraceId,
        RejectReason::MissingSpanId,
        RejectReason::MissingMetricName,
        RejectReason::InvalidMetricName,
        RejectReason::InvalidTimestamp,
    ] {
        let label = reason.as_str();
        assert!(!label.is_empty());
        assert!(
            label.bytes().all(|b| b.is_ascii_lowercase() || b == b'_'),
            "{label} is not a usable metric label value"
        );
    }
}

#[test]
fn a_clean_decode_has_no_summary() {
    let decoded: Decoded<()> = Decoded::default();
    assert_eq!(decoded.rejection_summary(), None);
    assert_eq!(decoded.accepted(), 0);
}

#[test]
fn the_summary_names_the_reasons_and_gives_a_concrete_example() {
    let decoded = Decoded::<()> {
        rejections: vec![
            Rejection::new(RejectReason::BodyTooLarge, "log body of 900000 bytes".to_owned()),
            Rejection::new(RejectReason::TooManyLabels, "61 stream labels".to_owned()),
            Rejection::new(RejectReason::BodyTooLarge, "log body of 800000 bytes".to_owned()),
        ],
        ..Decoded::default()
    };

    let summary = decoded.rejection_summary().unwrap();
    assert!(summary.contains("3 record(s) rejected"), "{summary}");
    assert!(summary.contains("body_too_large"), "{summary}");
    assert!(summary.contains("too_many_labels"), "{summary}");
    assert!(summary.contains("900000"), "should include a concrete example: {summary}");
}

#[test]
fn a_json_flood_is_counted_before_it_is_parsed() {
    let flood = format!(r#"{{"resourceLogs":[{}]}}"#, vec!["{}"; 200_000].join(","));
    assert!(json_objects_within(flood.as_bytes()).is_err());

    let record = r#"{"timeUnixNano":"1700000000000000000","body":{"stringValue":"GET /api {id} took 12ms"},"attributes":[{"key":"http.route","value":{"stringValue":"/api/{id}"}}]}"#;
    let real = format!(
        r#"{{"resourceLogs":[{{"scopeLogs":[{{"logRecords":[{}]}}]}}]}}"#,
        vec![record; 20_000].join(",")
    );
    assert!(json_objects_within(real.as_bytes()).is_ok());

    let braces = format!(r#"{{"body":"{}"}}"#, "{".repeat(100_000));
    assert!(
        json_objects_within(braces.as_bytes()).is_ok(),
        "braces in a string are not objects"
    );
}

// ---------------------------------------------------------------------------
// Logs
// ---------------------------------------------------------------------------

#[test]
fn decodes_a_realistic_laravel_telemetry_payload() {
    let decoded = logs_str(LOG_PAYLOAD);
    assert_eq!(decoded.records.len(), 1);
    assert!(decoded.rejections.is_empty());

    let record = &decoded.records[0];
    assert_eq!(record.timestamp_nanos, 1_750_000_000_000_000_000);
    assert_eq!(record.severity, Severity::Error);
    assert_eq!(record.severity_text, "ERROR");
    assert_eq!(record.body, "Payment declined");
    assert_eq!(record.app(), "checkout");
    assert_eq!(
        record.trace_id.as_deref(),
        Some("4bf92f3577b34da6a3ce929d0e0e4736")
    );
    assert_eq!(record.span_id.as_deref(), Some("00f067aa0ba902b7"));

    assert_eq!(record.attributes.get("order.id"), Some("9912"));
    assert_eq!(record.attributes.get_relaxed("order_id"), Some("9912"));
    assert!(!record.stream.contains_key("order.id"));
    assert!(!record.stream.contains_key("order_id"));
}

#[test]
fn only_configured_resource_attributes_become_stream_labels() {
    let record = &logs_str(LOG_PAYLOAD).records[0];

    assert_eq!(record.stream.get("app"), Some("checkout"));
    assert_eq!(record.stream.get("level"), Some("error"));
    assert_eq!(record.stream.get("service_name"), Some("checkout"));
    assert_eq!(
        record.stream.get("deployment_environment"),
        Some("production")
    );

    assert!(!record.stream.contains_key("host_id"));
}

#[test]
fn a_resource_attribute_no_label_claimed_is_kept_rather_than_dropped() {
    let decoded = logs_str(
        r#"{"resourceLogs":[{"resource":{"attributes":[
             {"key":"service.name","value":{"stringValue":"third-party"}},
             {"key":"service.version","value":{"stringValue":"2.1.0"}},
             {"key":"k8s.pod.name","value":{"stringValue":"pod-7f"}},
             {"key":"host.name","value":{"stringValue":"box1"}}]},
           "scopeLogs":[{"logRecords":[
             {"timeUnixNano":"1700000000000000000","severityNumber":9,
              "body":{"stringValue":"hello"},
              "attributes":[{"key":"order.id","value":{"stringValue":"A-99"}}]}]}]}]}"#,
    );
    let record = &decoded.records[0];

    assert_eq!(record.attributes.get("k8s.pod.name"), Some("pod-7f"));
    assert_eq!(record.attributes.get("host.name"), Some("box1"));
    assert_eq!(record.attributes.get("order.id"), Some("A-99"));

    assert!(!record.stream.contains_key("k8s.pod.name"));
    assert!(!record.stream.contains_key("k8s_pod_name"));

    assert_eq!(record.stream.get("service_version"), Some("2.1.0"));
    assert!(record.attributes.get("service.version").is_none());
    assert!(record.attributes.get("service.name").is_none());
}

#[test]
fn a_record_attribute_beats_the_resource_attribute_of_the_same_name() {
    let decoded = logs_str(
        r#"{"resourceLogs":[{"resource":{"attributes":[
             {"key":"service.name","value":{"stringValue":"app"}},
             {"key":"region","value":{"stringValue":"resource-level"}}]},
           "scopeLogs":[{"logRecords":[
             {"timeUnixNano":"1700000000000000000","severityNumber":9,
              "body":{"stringValue":"hello"},
              "attributes":[{"key":"region","value":{"stringValue":"record-level"}}]}]}]}]}"#,
    );
    assert_eq!(
        decoded.records[0].attributes.get("region"),
        Some("record-level")
    );
}

#[test]
fn an_explicit_app_attribute_beats_service_name() {
    let decoded = logs_str(
        r#"{"resourceLogs":[{"resource":{"attributes":[
            {"key":"service.name","value":{"stringValue":"svc"}},
            {"key":"app","value":{"stringValue":"explicit"}}]},
          "scopeLogs":[{"logRecords":[{"timeUnixNano":"1750000000000000000","body":{"stringValue":"x"}}]}]}]}"#,
    );
    assert_eq!(decoded.records[0].app(), "explicit");
}

#[test]
fn a_record_with_no_service_identity_still_gets_an_app() {
    let decoded = logs_str(
        r#"{"resourceLogs":[{"scopeLogs":[{"logRecords":[
            {"timeUnixNano":"1750000000000000000","body":{"stringValue":"orphan"}}]}]}]}"#,
    );
    assert_eq!(decoded.records[0].app(), "unknown");
}

#[test]
fn severity_falls_back_from_number_to_text() {
    let decoded = logs_str(
        r#"{"resourceLogs":[{"scopeLogs":[{"logRecords":[
            {"timeUnixNano":"1750000000000000000","severityText":"warning","body":{"stringValue":"x"}}]}]}]}"#,
    );
    assert_eq!(decoded.records[0].severity, Severity::Warn);
    assert_eq!(decoded.records[0].stream.get("level"), Some("warn"));
}

#[test]
fn severity_accepts_the_proto_enum_name() {
    for (name, expected) in [
        ("SEVERITY_NUMBER_ERROR", Severity::Error),
        ("SEVERITY_NUMBER_INFO", Severity::Info),
        ("SEVERITY_NUMBER_WARN2", Severity::Warn),
        ("SEVERITY_NUMBER_FATAL4", Severity::Fatal),
    ] {
        let decoded = logs_str(&format!(
            r#"{{"resourceLogs":[{{"scopeLogs":[{{"logRecords":[
                {{"timeUnixNano":"1750000000000000000","severityNumber":"{name}","body":{{"stringValue":"x"}}}}]}}]}}]}}"#
        ));
        assert_eq!(decoded.records[0].severity, expected, "{name}");
    }
}

#[test]
fn logs_timestamps_in_the_wrong_unit_are_corrected_and_counted() {
    for raw in ["1750000000", "1750000000000", "1750000000000000"] {
        let decoded = logs_str(&format!(
            r#"{{"resourceLogs":[{{"scopeLogs":[{{"logRecords":[
                {{"timeUnixNano":"{raw}","body":{{"stringValue":"x"}}}}]}}]}}]}}"#
        ));
        assert_eq!(
            decoded.records[0].timestamp_nanos, 1_750_000_000_000_000_000,
            "{raw}"
        );
        assert_eq!(
            decoded.rescaled_timestamps, 1,
            "rescaling must be counted for {raw}"
        );
    }
}

#[test]
fn a_correct_nanosecond_timestamp_is_never_rescaled() {
    let decoded = logs_str(LOG_PAYLOAD);
    assert_eq!(decoded.rescaled_timestamps, 0);
}

#[test]
fn a_missing_timestamp_falls_back_to_observed_then_to_now() {
    let observed = logs_str(
        r#"{"resourceLogs":[{"scopeLogs":[{"logRecords":[
            {"observedTimeUnixNano":"1750000000000000000","body":{"stringValue":"x"}}]}]}]}"#,
    );
    assert_eq!(
        observed.records[0].timestamp_nanos,
        1_750_000_000_000_000_000
    );

    let neither = logs_str(
        r#"{"resourceLogs":[{"scopeLogs":[{"logRecords":[{"body":{"stringValue":"x"}}]}]}]}"#,
    );
    assert_eq!(neither.records[0].timestamp_nanos, NOW);
}

#[test]
fn an_oversized_body_is_truncated_on_a_char_boundary_and_marked() {
    let limits = LimitsConfig {
        max_log_line_bytes: 64,
        ..LimitsConfig::default()
    };
    let ingest = IngestConfig::default();

    let body = "æøå".repeat(100);
    let json = format!(
        r#"{{"resourceLogs":[{{"scopeLogs":[{{"logRecords":[
            {{"timeUnixNano":"1750000000000000000","body":{{"stringValue":"{body}"}}}}]}}]}}]}}"#
    );
    let decoded = decode_logs(json.as_bytes(), ctx(&limits, &ingest)).unwrap();

    assert_eq!(
        decoded.records.len(),
        1,
        "truncating must not lose the record"
    );
    assert_eq!(decoded.truncated_bodies, 1);
    let stored = &decoded.records[0].body;
    assert!(
        stored.ends_with(TRUNCATION_MARK),
        "truncation must be visible"
    );
    assert!(stored.len() <= 64);
    assert!(std::str::from_utf8(stored.as_bytes()).is_ok());
}

#[test]
fn oversized_bodies_are_rejected_when_truncation_is_disabled() {
    let limits = LimitsConfig {
        max_log_line_bytes: 16,
        ..LimitsConfig::default()
    };
    let ingest = IngestConfig {
        truncate_oversized_bodies: false,
        ..IngestConfig::default()
    };

    let json = format!(
        r#"{{"resourceLogs":[{{"scopeLogs":[{{"logRecords":[
            {{"timeUnixNano":"1750000000000000000","body":{{"stringValue":"{}"}}}}]}}]}}]}}"#,
        "x".repeat(100)
    );
    let decoded = decode_logs(json.as_bytes(), ctx(&limits, &ingest)).unwrap();
    assert!(decoded.records.is_empty());
    assert_eq!(decoded.rejections[0].reason, RejectReason::BodyTooLarge);
}

#[test]
fn one_bad_record_does_not_cost_the_batch() {
    let limits = LimitsConfig {
        max_attrs_per_record: 1,
        ..LimitsConfig::default()
    };
    let ingest = IngestConfig::default();

    let json = r#"{"resourceLogs":[{"scopeLogs":[{"logRecords":[
        {"timeUnixNano":"1750000000000000000","body":{"stringValue":"good"}},
        {"timeUnixNano":"1750000000000000000","body":{"stringValue":"bad"},
         "attributes":[{"key":"a","value":{"stringValue":"1"}},{"key":"b","value":{"stringValue":"2"}}]},
        {"timeUnixNano":"1750000000000000000","body":{"stringValue":"also good"}}]}]}]}"#;

    let decoded = decode_logs(json.as_bytes(), ctx(&limits, &ingest)).unwrap();
    assert_eq!(decoded.records.len(), 2);
    assert_eq!(decoded.rejections.len(), 1);
    assert_eq!(
        decoded.rejections[0].reason,
        RejectReason::TooManyAttributes
    );
}

#[test]
fn logs_an_empty_payload_is_valid_and_yields_nothing() {
    for json in [
        "{}",
        r#"{"resourceLogs":[]}"#,
        r#"{"resourceLogs":[{"scopeLogs":[]}]}"#,
    ] {
        let decoded = logs_str(json);
        assert!(decoded.records.is_empty(), "{json}");
        assert!(decoded.rejections.is_empty(), "{json}");
    }
}

#[test]
fn malformed_json_is_a_request_level_error_not_a_rejection() {
    let limits = LimitsConfig::default();
    let ingest = IngestConfig::default();
    assert!(decode_logs(b"{not json", ctx(&limits, &ingest)).is_err());
}

#[test]
fn logs_snake_case_payloads_decode_identically() {
    let decoded = logs_str(
        r#"{"resource_logs":[{"resource":{"attributes":[
            {"key":"service.name","value":{"string_value":"snake"}}]},
          "scope_logs":[{"log_records":[
            {"time_unix_nano":"1750000000000000000","severity_number":17,
             "body":{"string_value":"hi"},"trace_id":"4bf92f3577b34da6a3ce929d0e0e4736"}]}]}]}"#,
    );
    assert_eq!(decoded.records.len(), 1);
    assert_eq!(decoded.records[0].app(), "snake");
    assert_eq!(decoded.records[0].severity, Severity::Error);
    assert!(decoded.records[0].trace_id.is_some());
}

#[test]
fn timestamp_normalisation_rejects_implausible_values() {
    assert_eq!(normalize_timestamp(0), None);
    assert_eq!(normalize_timestamp(12345), None);
    assert_eq!(normalize_timestamp(u64::MAX), None);
    assert_eq!(
        normalize_timestamp(1_750_000_000_000_000_000),
        Some((1_750_000_000_000_000_000, TimeUnit::Nanos))
    );
}

// ---------------------------------------------------------------------------
// Shared wire types
// ---------------------------------------------------------------------------

#[test]
fn int64_arrives_as_a_string_or_a_number() {
    let as_string: FlexU64 = flex(Some(&parsed(r#""1544712660300000000""#)));
    assert_eq!(as_string.get(), Some(1_544_712_660_300_000_000));

    let as_number: FlexU64 = flex(Some(&parsed("1544712660300000000")));
    assert_eq!(as_number.get(), Some(1_544_712_660_300_000_000));

    let junk: FlexU64 = flex(Some(&parsed(r#""not-a-number""#)));
    assert_eq!(junk.get(), None);
}

#[test]
fn enums_arrive_as_numbers_or_proto_names() {
    let lookup = |name: &str| (name == "SEVERITY_NUMBER_ERROR").then_some(17);

    let numeric: FlexEnum = flex_enum(Some(&parsed("17")));
    assert_eq!(numeric.resolve(lookup), Some(17));

    let named: FlexEnum = flex_enum(Some(&parsed(r#""SEVERITY_NUMBER_ERROR""#)));
    assert_eq!(named.resolve(lookup), Some(17));

    let unknown: FlexEnum = flex_enum(Some(&parsed(r#""SEVERITY_NUMBER_MADE_UP""#)));
    assert_eq!(unknown.resolve(lookup), None);
}

#[test]
fn any_value_flattens_every_variant() {
    assert_eq!(any(r#"{"stringValue":"hi"}"#).to_text().unwrap(), "hi");
    assert_eq!(any(r#"{"boolValue":true}"#).to_text().unwrap(), "true");
    assert_eq!(any(r#"{"intValue":"42"}"#).to_text().unwrap(), "42");
    assert_eq!(any(r#"{"doubleValue":1.5}"#).to_text().unwrap(), "1.5");
    assert_eq!(any(r#"{"doubleValue":200.0}"#).to_text().unwrap(), "200");
    assert_eq!(any("{}").to_text(), None);
}

#[test]
fn composite_values_render_as_json_not_debug_output() {
    let array = any(r#"{"arrayValue":{"values":[{"stringValue":"a"},{"intValue":"2"}]}}"#);
    assert_eq!(array.to_text().unwrap(), r#"["a",2]"#);

    let map = any(r#"{"kvlistValue":{"values":[{"key":"k","value":{"stringValue":"v"}}]}}"#);
    assert_eq!(map.to_text().unwrap(), r#"{"k":"v"}"#);

    let nested = any(
        r#"{"kvlistValue":{"values":[{"key":"o","value":{"arrayValue":{"values":[{"intValue":"1"}]}}}]}}"#,
    );
    assert_eq!(nested.to_text().unwrap(), r#"{"o":[1]}"#);
}

#[test]
fn snake_case_field_names_are_accepted_too() {
    let value = any(r#"{"string_value":"snake"}"#);
    assert_eq!(value.to_text().unwrap(), "snake");
}

#[test]
fn attribute_keys_are_sanitised_and_later_scopes_win() {
    let attrs: Vec<KeyValue> = list(Some(&parsed(r#"[{"key":"service.name","value":{"stringValue":"checkout"}},
            {"key":"http.status_code","value":{"intValue":"200"}}]"#)), key_value);

    let mut labels = Labels::new();
    labels.insert("service_name", "placeholder");
    extend_labels(&mut labels, &attrs);

    assert_eq!(labels.get("service_name"), Some("checkout"));
    assert_eq!(labels.get("http_status_code"), Some("200"));
}

#[test]
fn attributes_without_a_value_or_key_are_skipped() {
    let attrs: Vec<KeyValue> = list(Some(&parsed(r#"[{"key":"empty"},{"key":"","value":{"stringValue":"x"}},{"key":"ok","value":{"stringValue":"y"}}]"#)), key_value);
    let mut labels = Labels::new();
    extend_labels(&mut labels, &attrs);

    assert_eq!(labels.len(), 1);
    assert_eq!(labels.get("ok"), Some("y"));
}

#[test]
fn all_zero_ids_mean_absent_not_a_real_trace() {
    assert_eq!(normalize_id("00000000000000000000000000000000"), None);
    assert_eq!(normalize_id(""), None);
    assert_eq!(normalize_id("   "), None);
    assert_eq!(normalize_id("not-hex-at-all"), None);
    assert_eq!(
        normalize_id("4BF92F3577B34DA6A3CE929D0E0E4736").unwrap(),
        "4bf92f3577b34da6a3ce929d0e0e4736"
    );
}

// ---------------------------------------------------------------------------
// Traces
// ---------------------------------------------------------------------------

#[test]
fn decodes_a_realistic_trace() {
    let decoded = traces_str(TRACE_PAYLOAD);
    assert_eq!(decoded.records.len(), 2);
    assert!(decoded.rejections.is_empty());

    let root = &decoded.records[0];
    assert_eq!(root.trace_id, "4bf92f3577b34da6a3ce929d0e0e4736");
    assert_eq!(root.span_id, "00f067aa0ba902b7");
    assert_eq!(root.name, "POST /checkout");
    assert_eq!(root.kind, SpanKind::Server);
    assert_eq!(root.status, SpanStatus::Error);
    assert_eq!(root.status_message, "payment declined");
    assert_eq!(root.duration_nanos(), 150_000_000);
    assert!(root.is_root());
    assert_eq!(root.app(), "checkout");
    assert_eq!(root.attributes.get("http.status_code"), Some("500"));
    assert_eq!(root.attributes.get_relaxed("http_status_code"), Some("500"));

    let child = &decoded.records[1];
    assert_eq!(child.parent_span_id.as_deref(), Some("00f067aa0ba902b7"));
    assert_eq!(child.kind, SpanKind::Client);
    assert!(!child.is_root());
}

#[test]
fn span_events_are_preserved_with_their_attributes() {
    let root = &traces_str(TRACE_PAYLOAD).records[0];
    assert_eq!(root.events.len(), 1);
    assert_eq!(root.events[0].name, "exception");
    assert_eq!(root.events[0].time_nanos, 1_750_000_000_100_000_000);
    assert_eq!(
        root.events[0].attributes.get("exception.type"),
        Some("PaymentError")
    );
}

#[test]
fn spans_get_no_level_label() {
    let root = &traces_str(TRACE_PAYLOAD).records[0];
    assert!(!root.stream.contains_key("level"));
    assert_eq!(
        root.stream.get("deployment_environment"),
        Some("production")
    );
}

#[test]
fn a_span_without_ids_is_rejected_rather_than_orphaned() {
    let decoded = traces_str(
        r#"{"resourceSpans":[{"scopeSpans":[{"spans":[
            {"spanId":"00f067aa0ba902b7","name":"no trace id"},
            {"traceId":"4bf92f3577b34da6a3ce929d0e0e4736","name":"no span id"},
            {"traceId":"4bf92f3577b34da6a3ce929d0e0e4736","spanId":"00f067aa0ba902b7","name":"fine"}
        ]}]}]}"#,
    );
    assert_eq!(decoded.records.len(), 1);
    assert_eq!(decoded.rejections.len(), 2);
    assert_eq!(decoded.rejections[0].reason, RejectReason::MissingTraceId);
    assert_eq!(decoded.rejections[1].reason, RejectReason::MissingSpanId);
}

#[test]
fn an_all_zero_parent_means_root_not_a_real_parent() {
    let decoded = traces_str(
        r#"{"resourceSpans":[{"scopeSpans":[{"spans":[{
            "traceId":"4bf92f3577b34da6a3ce929d0e0e4736",
            "spanId":"00f067aa0ba902b7",
            "parentSpanId":"0000000000000000",
            "name":"root"}]}]}]}"#,
    );
    assert!(decoded.records[0].is_root());
}

#[test]
fn kind_and_status_accept_proto_enum_names() {
    let decoded = traces_str(
        r#"{"resourceSpans":[{"scopeSpans":[{"spans":[{
            "traceId":"4bf92f3577b34da6a3ce929d0e0e4736",
            "spanId":"00f067aa0ba902b7",
            "name":"named enums",
            "kind":"SPAN_KIND_CLIENT",
            "status":{"code":"STATUS_CODE_ERROR"}}]}]}]}"#,
    );
    assert_eq!(decoded.records[0].kind, SpanKind::Client);
    assert_eq!(decoded.records[0].status, SpanStatus::Error);
}

#[test]
fn a_missing_end_time_yields_a_zero_duration_not_a_huge_one() {
    let decoded = traces_str(
        r#"{"resourceSpans":[{"scopeSpans":[{"spans":[{
            "traceId":"4bf92f3577b34da6a3ce929d0e0e4736",
            "spanId":"00f067aa0ba902b7",
            "name":"unfinished",
            "startTimeUnixNano":"1750000000000000000"}]}]}]}"#,
    );
    assert_eq!(decoded.records[0].duration_nanos(), 0);
}

#[test]
fn traces_snake_case_payloads_decode_identically() {
    let decoded = traces_str(
        r#"{"resource_spans":[{"scope_spans":[{"spans":[{
            "trace_id":"4bf92f3577b34da6a3ce929d0e0e4736",
            "span_id":"00f067aa0ba902b7",
            "parent_span_id":"aaaaaaaaaaaaaaaa",
            "name":"snake",
            "start_time_unix_nano":"1750000000000000000",
            "end_time_unix_nano":"1750000000001000000"}]}]}]}"#,
    );
    assert_eq!(decoded.records.len(), 1);
    assert_eq!(decoded.records[0].duration_nanos(), 1_000_000);
    assert!(!decoded.records[0].is_root());
}

#[test]
fn traces_timestamps_in_the_wrong_unit_are_corrected_and_counted() {
    let decoded = traces_str(
        r#"{"resourceSpans":[{"scopeSpans":[{"spans":[{
            "traceId":"4bf92f3577b34da6a3ce929d0e0e4736",
            "spanId":"00f067aa0ba902b7",
            "name":"seconds",
            "startTimeUnixNano":"1750000000",
            "endTimeUnixNano":"1750000001"}]}]}]}"#,
    );
    assert_eq!(decoded.records[0].start_nanos, NOW);
    assert_eq!(decoded.records[0].duration_nanos(), 1_000_000_000);
    assert_eq!(decoded.rescaled_timestamps, 1);
}

#[test]
fn traces_an_empty_payload_is_valid_and_yields_nothing() {
    for json in ["{}", r#"{"resourceSpans":[]}"#] {
        let decoded = traces_str(json);
        assert!(decoded.records.is_empty(), "{json}");
    }
}

// ---------------------------------------------------------------------------
// Metrics
// ---------------------------------------------------------------------------

#[test]
fn otlp_dotted_names_become_valid_prometheus_names() {
    assert_eq!(
        prometheus_name("http.server.duration"),
        "http_server_duration"
    );
    assert_eq!(prometheus_name("queue-depth"), "queue_depth");
    assert_eq!(prometheus_name("1st"), "_st");
    assert_eq!(prometheus_name("already_fine"), "already_fine");
    assert_eq!(prometheus_name(""), "_");
}

#[test]
fn a_gauge_decodes_with_its_attributes_as_labels() {
    let decoded = metrics_str(
        r#"{"resourceMetrics":[{
            "resource":{"attributes":[{"key":"service.name","value":{"stringValue":"checkout"}}]},
            "scopeMetrics":[{"metrics":[{
                "name":"queue.depth",
                "gauge":{"dataPoints":[{
                    "timeUnixNano":"1750000000000000000",
                    "asDouble":12.5,
                    "attributes":[{"key":"queue","value":{"stringValue":"emails"}}]
                }]}
            }]}]
        }]}"#,
    );

    assert_eq!(decoded.records.len(), 1);
    let sample = &decoded.records[0];
    assert_eq!(sample.name(), "queue_depth");
    assert_eq!(sample.app(), "checkout");
    assert_eq!(sample.series.get("queue"), Some("emails"));
    assert_eq!(double(sample), 12.5);
    assert_eq!(sample.kind, MetricKind::Gauge);
}

#[test]
fn monotonicity_decides_counter_versus_gauge() {
    let counter = metrics_str(
        r#"{"resourceMetrics":[{"scopeMetrics":[{"metrics":[{
            "name":"requests","sum":{"isMonotonic":true,"dataPoints":[
                {"timeUnixNano":"1750000000000000000","asInt":"7"}]}}]}]}]}"#,
    );
    assert_eq!(counter.records[0].kind, MetricKind::Counter);
    assert_eq!(double(&counter.records[0]), 7.0);

    let gauge = metrics_str(
        r#"{"resourceMetrics":[{"scopeMetrics":[{"metrics":[{
            "name":"in_flight","sum":{"isMonotonic":false,"dataPoints":[
                {"timeUnixNano":"1750000000000000000","asInt":"3"}]}}]}]}]}"#,
    );
    assert_eq!(gauge.records[0].kind, MetricKind::Gauge);
}

#[test]
fn a_histogram_becomes_cumulative_buckets_plus_sum_and_count() {
    let decoded = metrics_str(
        r#"{"resourceMetrics":[{
            "resource":{"attributes":[{"key":"service.name","value":{"stringValue":"checkout"}}]},
            "scopeMetrics":[{"metrics":[{
                "name":"http.duration",
                "histogram":{"dataPoints":[{
                    "timeUnixNano":"1750000000000000000",
                    "count":"10",
                    "sum":4.5,
                    "bucketCounts":["5","3","2"],
                    "explicitBounds":[0.1,0.5]
                }]}
            }]}]
        }]}"#,
    );

    let buckets = find(&decoded, "http_duration_bucket");
    assert_eq!(buckets.len(), 3, "two bounds plus the +Inf overflow bucket");

    let value_at = |le: &str| {
        buckets
            .iter()
            .find(|s| s.series.get("le") == Some(le))
            .map(|s| double(s))
    };
    assert_eq!(value_at("0.1"), Some(5.0));
    assert_eq!(value_at("0.5"), Some(8.0));
    assert_eq!(value_at("+Inf"), Some(10.0));

    assert_eq!(double(find(&decoded, "http_duration_sum")[0]), 4.5);
    assert_eq!(double(find(&decoded, "http_duration_count")[0]), 10.0);
}

#[test]
fn histogram_buckets_keep_their_data_point_attributes() {
    let decoded = metrics_str(
        r#"{"resourceMetrics":[{"scopeMetrics":[{"metrics":[{
            "name":"latency",
            "histogram":{"dataPoints":[{
                "timeUnixNano":"1750000000000000000",
                "count":"1","bucketCounts":["1"],
                "attributes":[{"key":"route","value":{"stringValue":"/api"}}]
            }]}}]}]}]}"#,
    );
    let bucket = find(&decoded, "latency_bucket")[0];
    assert_eq!(bucket.series.get("route"), Some("/api"));
    assert_eq!(bucket.series.get("le"), Some("+Inf"));
}

#[test]
fn one_metric_can_carry_several_data_points() {
    let decoded = metrics_str(
        r#"{"resourceMetrics":[{"scopeMetrics":[{"metrics":[{
            "name":"up","gauge":{"dataPoints":[
                {"timeUnixNano":"1750000000000000000","asDouble":1,
                 "attributes":[{"key":"instance","value":{"stringValue":"a"}}]},
                {"timeUnixNano":"1750000000000000000","asDouble":0,
                 "attributes":[{"key":"instance","value":{"stringValue":"b"}}]}
            ]}}]}]}]}"#,
    );
    assert_eq!(decoded.records.len(), 2);
    assert!(decoded.records[0].series != decoded.records[1].series);
}

#[test]
fn a_metric_without_a_name_is_rejected() {
    let decoded = metrics_str(
        r#"{"resourceMetrics":[{"scopeMetrics":[{"metrics":[{
            "gauge":{"dataPoints":[{"timeUnixNano":"1750000000000000000","asDouble":1}]}}]}]}]}"#,
    );
    assert!(decoded.records.is_empty());
    assert_eq!(
        decoded.rejections[0].reason,
        RejectReason::MissingMetricName
    );
}

#[test]
fn a_missing_timestamp_falls_back_to_arrival() {
    let decoded = metrics_str(
        r#"{"resourceMetrics":[{"scopeMetrics":[{"metrics":[{
            "name":"up","gauge":{"dataPoints":[{"asDouble":1}]}}]}]}]}"#,
    );
    assert_eq!(decoded.records[0].timestamp_nanos, NOW);
}

#[test]
fn a_metric_name_carries_its_unit_and_a_counter_says_total() {
    assert_eq!(
        prometheus_metric_name("http.server.request.duration", "ms", false),
        "http_server_request_duration_milliseconds"
    );
    assert_eq!(
        prometheus_metric_name("cache.operations", "1", true),
        "cache_operations_total",
        "`1` is dimensionless and adds nothing to the name"
    );
    assert_eq!(
        prometheus_metric_name("worker.memory", "By", false),
        "worker_memory_bytes"
    );

    assert_eq!(
        prometheus_metric_name("job.time", "s", true),
        "job_time_seconds_total"
    );

    assert_eq!(
        prometheus_metric_name("queue_wait_seconds", "s", false),
        "queue_wait_seconds"
    );
    assert_eq!(
        prometheus_metric_name("requests_total", "1", true),
        "requests_total"
    );

    assert_eq!(
        prometheus_metric_name("odd.thing", "furlongs", false),
        "odd_thing"
    );
    assert_eq!(
        prometheus_metric_name("plain.gauge", "", false),
        "plain_gauge"
    );
}

#[test]
fn otlp_metrics_timestamps_in_the_wrong_unit_are_corrected_and_counted() {
    let decoded = metrics_str(
        r#"{"resourceMetrics":[{"scopeMetrics":[{"metrics":[{
            "name":"up","gauge":{"dataPoints":[
                {"timeUnixNano":"1750000000","asDouble":1}]}}]}]}]}"#,
    );
    assert_eq!(decoded.records[0].timestamp_nanos, NOW);
    assert_eq!(decoded.rescaled_timestamps, 1);
}

#[test]
fn otlp_metrics_snake_case_payloads_decode_identically() {
    let decoded = metrics_str(
        r#"{"resource_metrics":[{"scope_metrics":[{"metrics":[{
            "name":"up","sum":{"is_monotonic":true,"data_points":[
                {"time_unix_nano":"1750000000000000000","as_int":"5"}]}}]}]}]}"#,
    );
    assert_eq!(decoded.records.len(), 1);
    assert_eq!(double(&decoded.records[0]), 5.0);
    assert_eq!(decoded.records[0].kind, MetricKind::Counter);
}

#[test]
fn otlp_metrics_an_empty_payload_is_valid_and_yields_nothing() {
    for json in ["{}", r#"{"resourceMetrics":[]}"#] {
        let decoded = metrics_str(json);
        assert!(decoded.records.is_empty(), "{json}");
        assert!(decoded.rejections.is_empty(), "{json}");
    }
}

// ---------------------------------------------------------------------------
// Encoding
// ---------------------------------------------------------------------------

#[test]
fn a_sanitised_resource_name_goes_back_out_dotted() {
    let encoded = encode_logs(&vec![log("checkout", "hello")]);
    let attrs = &encoded["resourceLogs"][0]["resource"]["attributes"];
    let names: Vec<&str> = attrs
        .as_array()
        .unwrap()
        .iter()
        .map(|a| a["key"].as_str().unwrap())
        .collect();
    assert!(names.contains(&"service.name"), "{names:?}");
    assert!(!names.contains(&"service_name"), "{names:?}");
}

#[test]
fn a_producers_own_underscore_is_left_alone() {
    let mut record = log("checkout", "hello");
    record.stream = labels(&[("app", "checkout"), ("order_id", "42")]);
    let encoded = encode_logs(&vec![record]);
    let attrs = encoded["resourceLogs"][0]["resource"]["attributes"].clone();
    let names: Vec<&str> = attrs
        .as_array()
        .unwrap()
        .iter()
        .map(|a| a["key"].as_str().unwrap())
        .collect();
    assert!(names.contains(&"order_id"), "{names:?}");
}

#[test]
fn records_sharing_a_stream_share_one_resource() {
    let encoded = encode_logs(&vec![log("checkout", "a"), log("checkout", "b"), log("api", "c")]);
    let resources = encoded["resourceLogs"].as_array().unwrap();
    assert_eq!(resources.len(), 2, "one resource per distinct stream");
    assert_eq!(
        resources[0]["scopeLogs"][0]["logRecords"]
            .as_array()
            .unwrap()
            .len(),
        2
    );
}

#[test]
fn timestamps_are_strings_because_they_do_not_fit_a_json_number() {
    let encoded = encode_logs(&vec![log("checkout", "hello")]);
    let at = &encoded["resourceLogs"][0]["scopeLogs"][0]["logRecords"][0]["timeUnixNano"];
    assert_eq!(at.as_str(), Some("1760000000000000000"));
}

#[test]
fn a_severity_number_survives_the_round_trip_to_the_same_level() {
    for severity in [
        Severity::Trace,
        Severity::Debug,
        Severity::Info,
        Severity::Warn,
        Severity::Error,
        Severity::Fatal,
    ] {
        assert_eq!(
            Severity::from_otlp_number(severity_number(severity)),
            severity,
            "{severity:?} did not survive"
        );
    }
}

#[test]
fn an_unset_span_status_is_omitted_rather_than_asserted() {
    let span = SpanRecord {
        trace_id: "5b8efff798038103d269b633813fc60c".into(),
        span_id: "eee19b7ec3c1b174".into(),
        parent_span_id: None,
        name: "GET /".into(),
        kind: SpanKind::Server,
        start_nanos: 1,
        end_nanos: 2,
        status: SpanStatus::Unset,
        status_message: String::new(),
        stream: labels(&[("app", "checkout")]),
        attributes: Labels::default(),
        events: Vec::new(),
        links: Vec::new(),
    };
    let encoded = encode_spans(&vec![span]);
    let out = &encoded["resourceSpans"][0]["scopeSpans"][0]["spans"][0];
    assert!(out.get("status").is_none(), "{out}");
    assert!(
        out.get("parentSpanId").is_none(),
        "a root span has no parent"
    );
}

#[test]
fn a_metric_name_is_a_name_and_not_an_attribute() {
    let sample = MetricSample {
        timestamp_nanos: 1_760_000_000_000_000_000,
        series: labels(&[
            (METRIC_NAME_LABEL, "http_requests_total"),
            ("app", "checkout"),
        ]),
        value: 42.0_f64.to_bits(),
        kind: MetricKind::Counter,
    };
    let encoded = encode_metrics(&vec![sample], &json_double);
    let metric = &encoded["resourceMetrics"][0]["scopeMetrics"][0]["metrics"][0];
    assert_eq!(metric["name"].as_str(), Some("http_requests_total"));
    assert!(metric.get("sum").is_some(), "a counter is a sum");

    let attrs = metric["sum"]["dataPoints"][0]["attributes"]
        .as_array()
        .unwrap();
    let names: Vec<&str> = attrs.iter().map(|a| a["key"].as_str().unwrap()).collect();
    assert!(!names.iter().any(|n| n.starts_with("__")), "{names:?}");
}

#[test]
fn nothing_in_produces_an_empty_envelope_rather_than_null() {
    assert_eq!(encode_logs(&vec![]), parsed(r#"{"resourceLogs": []}"#));
    assert_eq!(encode_spans(&vec![]), parsed(r#"{"resourceSpans": []}"#));
    assert_eq!(encode_metrics(&vec![], &json_double), parsed(r#"{"resourceMetrics": []}"#));
}

#[test]
fn a_log_record_survives_being_encoded_and_decoded() {
    let original = log("checkout", "payment declined");
    let body =
        serde_json::to_vec(&encode_logs(&vec![log("checkout", "payment declined")])).unwrap();

    let limits = LimitsConfig::default();
    let ingest = IngestConfig::default();
    let decoded = decode_logs(
        &body,
        DecodeContext {
            limits: &limits,
            ingest: &ingest,
            now_nanos: 0,
        },
    )
    .unwrap();

    assert_eq!(decoded.rejections.len(), 0, "{:?}", decoded.rejections);
    assert_eq!(decoded.records.len(), 1);
    let back = &decoded.records[0];

    assert_eq!(back.timestamp_nanos, original.timestamp_nanos);
    assert_eq!(back.body, original.body);
    assert_eq!(back.severity, original.severity);
    assert_eq!(back.severity_text, original.severity_text);
    assert_eq!(back.trace_id, original.trace_id);
    assert_eq!(back.span_id, original.span_id);
    assert!(back.attributes == original.attributes);
    assert!(back.stream == original.stream);
}

#[test]
fn a_span_survives_being_encoded_and_decoded() {
    let original = vec![SpanRecord {
        trace_id: "5b8efff798038103d269b633813fc60c".into(),
        span_id: "eee19b7ec3c1b174".into(),
        parent_span_id: Some("aaa19b7ec3c1b174".into()),
        name: "POST /charge".into(),
        kind: SpanKind::Server,
        start_nanos: 1_760_000_000_000_000_000,
        end_nanos: 1_760_000_000_100_000_000,
        status: SpanStatus::Error,
        status_message: "card declined".into(),
        stream: labels(&[("app", "checkout"), ("service_name", "checkout")]),
        attributes: labels(&[("http.method", "POST")]),
        events: vec![SpanEvent {
            time_nanos: 1_760_000_000_050_000_000,
            name: "retry".into(),
            attributes: labels(&[("attempt", "2")]),
        }],
        links: Vec::new(),
    }];
    let body = serde_json::to_vec(&encode_spans(&original)).unwrap();

    let limits = LimitsConfig::default();
    let ingest = IngestConfig::default();
    let decoded = decode_traces(
        &body,
        DecodeContext { limits: &limits, ingest: &ingest, now_nanos: 0 },
    )
    .unwrap();

    assert_eq!(decoded.rejections.len(), 0, "{:?}", decoded.rejections);
    assert_eq!(format!("{:?}", decoded.records), format!("{:?}", original));
}

#[test]
fn a_sample_survives_being_encoded_and_decoded() {
    let original = MetricSample {
        timestamp_nanos: NOW,
        series: labels(&[
            (METRIC_NAME_LABEL, "http_requests_total"),
            ("app", "checkout"),
            ("service_name", "checkout"),
            ("status", "500"),
        ]),
        value: 42.5_f64.to_bits(),
        kind: MetricKind::Counter,
    };
    let expected = labels(&[
        (METRIC_NAME_LABEL, "http_requests_total"),
        ("app", "checkout"),
        ("service_name", "checkout"),
        ("status", "500"),
    ]);
    let decoded = metrics_str(&encode_metrics(&vec![original], &json_double).to_string());
    assert!(decoded.rejections.is_empty(), "{:?}", decoded.rejections);
    let back = &decoded.records[0];
    assert!(back.series == expected, "{:?}", back.series);
    assert_eq!((back.timestamp_nanos, double(back)), (NOW, 42.5));
    assert_eq!(back.kind, MetricKind::Gauge, "the encoder claims no more than is known");
}

#[test]
fn doubles_inside_a_list_are_written_as_json() {
    let list = any(
        r#"{"arrayValue":{"values":[{"doubleValue":1.5},{"boolValue":false},{"bytesValue":"eA=="},{}]}}"#,
    );
    assert_eq!(list.to_text().unwrap(), r#"[1.5,false,"eA==",null]"#);
}

#[test]
fn delta_temporality_is_refused_where_the_sender_can_see_it() {
    for temporality in ["1", r#""AGGREGATION_TEMPORALITY_DELTA""#, r#""1""#] {
        let decoded = metrics_str(&format!(
            r#"{{"resourceMetrics":[{{"scopeMetrics":[{{"metrics":[{{"name":"requests",
                "sum":{{"aggregationTemporality":{temporality},"isMonotonic":true,"dataPoints":[
                    {{"timeUnixNano":"1750000000000000000","asInt":"7"}}]}},
                "histogram":{{"aggregation_temporality":{temporality},"dataPoints":[
                    {{"timeUnixNano":"1750000000000000000","count":"7"}}]}}}}]}}]}}]}}"#
        ));
        assert!(decoded.records.is_empty());
        assert_eq!(decoded.rejections.len(), 2, "the sum and the histogram");
        for rejection in &decoded.rejections {
            assert_eq!(rejection.reason, RejectReason::DeltaTemporality);
            assert!(rejection.detail.contains("`requests`"), "{rejection:?}");
        }
    }
    for temporality in ["0", "2", r#""AGGREGATION_TEMPORALITY_CUMULATIVE""#] {
        let decoded = metrics_str(&format!(
            r#"{{"resourceMetrics":[{{"scopeMetrics":[{{"metrics":[{{"name":"requests",
                "sum":{{"aggregationTemporality":{temporality},"dataPoints":[
                    {{"timeUnixNano":"1750000000000000000","asInt":"-7"}}]}}}}]}}]}}]}}"#
        ));
        assert!(decoded.rejections.is_empty());
        assert_eq!(double(&decoded.records[0]), -7.0);
    }
}

#[test]
fn kinds_that_are_not_stored_are_refused_not_dropped() {
    let decoded = metrics_str(
        r#"{"resourceMetrics":[{"scopeMetrics":[{"metrics":[
            {"name":"a","summary":{"dataPoints":[{}]}},
            {"name":"b","exponentialHistogram":{"dataPoints":[{}]}},
            {"name":"c","gauge":{"dataPoints":[{"asDouble":1}]}}]}]}]}"#,
    );
    assert_eq!(decoded.records.len(), 1);
    let details: Vec<&str> = decoded.rejections.iter().map(|r| r.detail.as_str()).collect();
    assert_eq!(
        details,
        vec![
            "metric `a` is a summary, which is not stored",
            "metric `b` is an exponential histogram, which is not stored",
        ]
    );
    assert!(decoded.rejections.iter().all(|r| r.reason == RejectReason::UnsupportedMetricType));
}

#[test]
fn negative_integers_are_kept() {
    let value = any_value(&parsed(r#"{"intValue":"-1"}"#));
    assert_eq!(value.to_text().as_deref(), Some("-1"));
    let value = any_value(&parsed(r#"{"intValue":-9223372036854775808}"#));
    assert_eq!(value.to_text().as_deref(), Some("-9223372036854775808"));
    let value = any_value(&parsed(r#"{"arrayValue":{"values":[{"intValue":"-2"}]}}"#));
    assert_eq!(value.to_text().as_deref(), Some("[-2]"));
    let value = any_value(&parsed(r#"{"intValue":"9223372036854775808"}"#));
    assert_eq!(value.to_text(), None, "past what 64 signed bits hold");
}

#[test]
fn a_request_past_its_budget_holds_no_more_than_it_may() {
    let body = br#"{"resourceLogs":[{"scopeLogs":[{"logRecords":[
        {"body":{"stringValue":"one"}},{"body":{"stringValue":"two"}},
        {"body":{"stringValue":"three"}}]}]}]}"#;
    let ingest = IngestConfig::default();
    let roomy = LimitsConfig::default();
    let all = decode_logs(body, DecodeContext { limits: &roomy, ingest: &ingest, now_nanos: NOW });
    let all = all.unwrap();
    assert!(!all.over_budget());
    assert_eq!(all.accepted(), 3);
    let costs: usize = all.records.iter().map(DecodedBytes::decoded_bytes).sum();
    assert_eq!(all.decoded_bytes(), costs);

    let tight = LimitsConfig { max_decoded_bytes: costs as u64 - 1, ..LimitsConfig::default() };
    let cut = decode_logs(body, DecodeContext { limits: &tight, ingest: &ingest, now_nanos: NOW });
    let cut = cut.unwrap();
    assert!(cut.over_budget());
    assert_eq!(cut.accepted(), 2, "what would go past the budget is not held");
    assert_eq!(cut.decoded_bytes(), costs, "it is charged all the same");
}
