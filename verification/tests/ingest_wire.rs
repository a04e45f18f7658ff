//! The protobuf decoders, remote write, request compression and the memory pool.
use std::borrow::Cow;
use std::io::Write;

use telemetryd::compression::{decode as decompress, remote_write_passthrough, Encoding};
use telemetryd::config::{IngestConfig, LimitsConfig};
use telemetryd::decoded::{Decoded, RejectReason};
use telemetryd::error::Error;
use telemetryd::logs::{
    convert_data, DecodeContext, LogRecordJson, LogsData, ResourceLogs, ScopeLogs,
};
use telemetryd::otlp::{
    AnyValue, FlexEnum, FlexI64, FlexText, FlexU64, KeyValue, Numeral, Resource, SignedText,
};
use telemetryd::otlp_protobuf::{
    any_value, base64, hex, logs, metrics, traces, MAX_REPEATED, MAX_VALUE_DEPTH,
};
use telemetryd::pool::MemoryPool;
use telemetryd::protobuf::{Reader, WireType};
use telemetryd::record::MetricSample;
use telemetryd::remote_write::{decode, WriteContext};

const NOW_MILLIS: i64 = 1_750_000_000_000;
const NOW_NANOS: u64 = 1_750_000_000_000_000_000;
const MAX: usize = 1024 * 1024;

fn render(bits: u64) -> Numeral {
    let value = f64::from_bits(bits);
    Numeral {
        bits,
        text: value.to_string(),
        json: serde_json::Number::from_f64(value)
            .map_or(serde_json::Value::Null, serde_json::Value::Number),
    }
}

fn bound(bits: u64) -> String {
    f64::from_bits(bits).to_string()
}

// ---------------------------------------------------------------------------
// Payloads
// ---------------------------------------------------------------------------

fn encode_varint(mut value: u64) -> Vec<u8> {
    let mut out = Vec::new();
    loop {
        let byte = (value & 0x7f) as u8;
        value >>= 7;
        if value == 0 {
            out.push(byte);
            return out;
        }
        out.push(byte | 0x80);
    }
}

fn key(number: u32, wire: u8) -> Vec<u8> {
    encode_varint(u64::from(number) << 3 | u64::from(wire))
}

/// Length-delimited field: tag, length, payload.
fn delim(number: u32, payload: &[u8]) -> Vec<u8> {
    let mut out = key(number, 2);
    out.extend(encode_varint(payload.len() as u64));
    out.extend_from_slice(payload);
    out
}

fn varint(field: u32, value: u64) -> Vec<u8> {
    let mut out = key(field, 0);
    out.extend(encode_varint(value));
    out
}

fn fixed64(field: u32, value: u64) -> Vec<u8> {
    let mut out = key(field, 1);
    out.extend_from_slice(&value.to_le_bytes());
    out
}

fn double(field: u32, value: f64) -> Vec<u8> {
    fixed64(field, value.to_bits())
}

fn string_attr(key: &str, value: &str) -> Vec<u8> {
    let inner = delim(1, value.as_bytes());
    let mut kv = delim(1, key.as_bytes());
    kv.extend(delim(2, &inner));
    kv
}

fn label(name: &str, value: &str) -> Vec<u8> {
    let mut inner = delim(1, name.as_bytes());
    inner.extend(delim(2, value.as_bytes()));
    inner
}

fn sample(value: f64, timestamp_millis: i64) -> Vec<u8> {
    let mut inner = double(1, value);
    inner.extend(varint(2, timestamp_millis as u64));
    inner
}

/// Labels and `(value, millis)` samples for one series.
type SeriesSpec<'a> = (Vec<(&'a str, &'a str)>, Vec<(f64, i64)>);

fn write_request(series: &[SeriesSpec<'_>]) -> Vec<u8> {
    let mut request = Vec::new();
    for (labels, samples) in series {
        let mut ts = Vec::new();
        for (name, value) in labels {
            ts.extend(delim(1, &label(name, value)));
        }
        for (value, timestamp) in samples {
            ts.extend(delim(2, &sample(*value, *timestamp)));
        }
        request.extend(delim(1, &ts));
    }
    snap::raw::Encoder::new().compress_vec(&request).unwrap()
}

fn decode_default(payload: &[u8]) -> Decoded<MetricSample> {
    let limits = LimitsConfig::default();
    decode(payload, WriteContext { limits: &limits, default_app: "unknown" }).unwrap()
}

fn gzip(bytes: &[u8]) -> Vec<u8> {
    let mut encoder = flate2::write::GzEncoder::new(Vec::new(), flate2::Compression::default());
    encoder.write_all(bytes).unwrap();
    encoder.finish().unwrap()
}

fn zlib(bytes: &[u8]) -> Vec<u8> {
    let mut encoder = flate2::write::ZlibEncoder::new(Vec::new(), flate2::Compression::default());
    encoder.write_all(bytes).unwrap();
    encoder.finish().unwrap()
}

fn raw_deflate(bytes: &[u8]) -> Vec<u8> {
    let mut encoder =
        flate2::write::DeflateEncoder::new(Vec::new(), flate2::Compression::default());
    encoder.write_all(bytes).unwrap();
    encoder.finish().unwrap()
}

fn attribute(key: &str, value: &str) -> KeyValue {
    KeyValue {
        key: key.to_owned(),
        value: Some(AnyValue { string_value: Some(value.to_owned()), ..AnyValue::default() }),
    }
}

// ---------------------------------------------------------------------------
// Compression
// ---------------------------------------------------------------------------

#[test]
fn the_codings_we_speak_are_recognised_however_they_are_spelled() {
    for (value, expected) in [
        ("gzip", Encoding::Gzip),
        ("GZIP", Encoding::Gzip),
        ("  gzip  ", Encoding::Gzip),
        ("x-gzip", Encoding::Gzip),
        ("deflate", Encoding::Deflate),
        ("zstd", Encoding::Zstd),
        ("identity", Encoding::Identity),
        ("", Encoding::Identity),
        ("identity, gzip", Encoding::Gzip),
    ] {
        assert_eq!(
            Encoding::parse(value, &[]).unwrap(),
            expected,
            "Content-Encoding: {value:?}"
        );
    }
}

#[test]
fn an_unsupported_coding_is_named_rather_than_guessed_at() {
    let err = Encoding::parse("br", &[]).unwrap_err();
    assert!(matches!(err, Error::Unsupported { .. }));
    assert!(
        err.message().contains("br"),
        "the message has to name the coding, got {err:?}"
    );
    assert_eq!(err.code(), "unsupported_feature");
}

#[test]
fn stacked_codings_are_refused_by_name() {
    let err = Encoding::parse("gzip, zstd", &[]).unwrap_err();
    assert!(matches!(err, Error::Unsupported { .. }));
    assert!(err.message().contains("gzip, zstd"));
}

#[test]
fn a_coding_the_caller_owns_reads_as_identity() {
    assert_eq!(
        Encoding::parse("snappy", &remote_write_passthrough()).unwrap(),
        Encoding::Identity
    );
    assert!(Encoding::parse("snappy", &[]).is_err());
}

#[test]
fn identity_borrows_the_body_untouched() {
    let body = b"{\"resourceLogs\":[]}";
    let decoded = decompress(Encoding::Identity, body, MAX).unwrap();
    assert!(matches!(decoded, Cow::Borrowed(_)), "identity must not copy");
    assert_eq!(&*decoded, body);
}

#[test]
fn every_coding_round_trips() {
    let payload = br#"{"resourceLogs":[{"scopeLogs":[{"logRecords":[]}]}]}"#;
    for (encoding, bytes) in [
        (Encoding::Gzip, gzip(payload)),
        (Encoding::Deflate, zlib(payload)),
        (Encoding::Zstd, zstd::encode_all(&payload[..], 3).unwrap()),
    ] {
        let decoded = decompress(encoding, &bytes, MAX).unwrap();
        assert_eq!(&*decoded, payload, "coding {}", encoding.as_str());
    }
}

#[test]
fn a_bare_deflate_stream_is_accepted_as_well_as_a_zlib_wrapped_one() {
    let payload = b"the spec says zlib; some clients disagree";
    assert_eq!(
        &*decompress(Encoding::Deflate, &raw_deflate(payload), MAX).unwrap(),
        payload
    );
}

#[test]
fn concatenated_gzip_members_decode_as_one_body() {
    let mut bytes = gzip(b"first ");
    bytes.extend_from_slice(&gzip(b"second"));
    assert_eq!(
        &*decompress(Encoding::Gzip, &bytes, MAX).unwrap(),
        b"first second"
    );
}

#[test]
fn a_body_that_expands_past_the_cap_is_refused_not_buffered() {
    let bomb = gzip(&vec![0u8; 64 * 1024 * 1024]);
    assert!(
        bomb.len() < 128 * 1024,
        "the point of the test is that the compressed form is tiny, got {}",
        bomb.len()
    );

    let err = decompress(Encoding::Gzip, &bomb, MAX).unwrap_err();
    assert!(
        matches!(err, Error::LimitExceeded { ref limit, .. } if limit == "server.max_body_bytes"),
        "expected a limit error naming the setting, got {err:?}"
    );
    assert_eq!(err.code(), "limit_exceeded");
}

#[test]
fn the_cap_is_enforced_for_every_coding() {
    let big = vec![b'x'; 4 * 1024 * 1024];
    for (encoding, bytes) in [
        (Encoding::Gzip, gzip(&big)),
        (Encoding::Deflate, zlib(&big)),
        (Encoding::Zstd, zstd::encode_all(&big[..], 3).unwrap()),
    ] {
        let err = decompress(encoding, &bytes, MAX).unwrap_err();
        assert!(
            matches!(err, Error::LimitExceeded { .. }),
            "coding {} was not capped: {err:?}",
            encoding.as_str()
        );
    }
}

#[test]
fn a_body_exactly_at_the_cap_is_still_accepted() {
    let payload = vec![b'y'; 4096];
    let packed = gzip(&payload);
    let decoded = decompress(Encoding::Gzip, &packed, payload.len()).unwrap();
    assert_eq!(decoded.len(), payload.len());

    let err = decompress(Encoding::Gzip, &gzip(&payload), payload.len() - 1).unwrap_err();
    assert!(matches!(err, Error::LimitExceeded { .. }));
}

#[test]
fn a_zero_cap_admits_nothing_rather_than_panicking() {
    assert!(decompress(Encoding::Gzip, &gzip(b"x"), 0).is_err());
    assert!(decompress(Encoding::Zstd, &zstd::encode_all(&b"x"[..], 3).unwrap(), 0).is_err());
}

#[test]
fn a_body_that_is_not_what_the_header_claims_says_so() {
    let err = decompress(Encoding::Gzip, b"{\"resourceLogs\":[]}", MAX).unwrap_err();
    assert!(matches!(err, Error::BadRequest(_)));
    assert!(
        err.message().contains("gzip"),
        "the message has to point at the coding, got {err:?}"
    );
}

#[test]
fn a_truncated_stream_is_a_bad_request_not_a_panic() {
    let bytes = gzip(b"a payload long enough to survive being cut in half");
    for cut in [1, bytes.len() / 2, bytes.len() - 1] {
        let err = decompress(Encoding::Gzip, &bytes[..cut], MAX).unwrap_err();
        assert!(matches!(err, Error::BadRequest(_)), "cut at {cut}: {err:?}");
    }
}

#[test]
fn an_empty_body_under_a_coding_is_a_bad_request() {
    assert!(matches!(
        decompress(Encoding::Gzip, b"", MAX).unwrap_err(),
        Error::BadRequest(_)
    ));
}

// ---------------------------------------------------------------------------
// Wire format
// ---------------------------------------------------------------------------

#[test]
fn varints_round_trip_including_the_boundaries() {
    for value in [0u64, 1, 127, 128, 300, u64::from(u32::MAX), u64::MAX] {
        let encoded = encode_varint(value);
        assert_eq!(Reader::new(&encoded).varint().unwrap(), value, "{value}");
    }
}

#[test]
fn a_truncated_varint_is_an_error_not_a_hang() {
    assert!(Reader::new(&[0x80]).varint().is_err());
    assert!(Reader::new(&[]).varint().is_err());
}

#[test]
fn an_overlong_varint_is_refused_rather_than_wrapping() {
    let bogus = vec![0xff; 11];
    let err = Reader::new(&bogus).varint().unwrap_err();
    assert!(err.message().contains("overflows"), "{err:?}");
}

#[test]
fn doubles_round_trip_bit_for_bit() {
    for value in [0.0, -1.5, f64::MAX, f64::MIN, 1e-300] {
        let mut payload = Vec::new();
        payload.extend_from_slice(&value.to_bits().to_le_bytes());
        assert_eq!(f64::from_bits(Reader::new(&payload).double().unwrap()), value);
    }

    let mut payload = Vec::new();
    payload.extend_from_slice(&f64::NAN.to_bits().to_le_bytes());
    assert!(f64::from_bits(Reader::new(&payload).double().unwrap()).is_nan());
}

#[test]
fn length_delimited_fields_are_bounds_checked() {
    let mut payload = encode_varint(100);
    payload.extend_from_slice(b"abc");
    assert!(Reader::new(&payload).bytes().is_err());
}

#[test]
fn strings_must_be_valid_utf8() {
    let mut payload = encode_varint(2);
    payload.extend_from_slice(&[0xff, 0xfe]);
    assert!(Reader::new(&payload).string().is_err());
}

#[test]
fn fields_are_read_with_their_number_and_wire_type() {
    let mut payload = key(1, 2);
    payload.extend(encode_varint(5));
    payload.extend_from_slice(b"hello");
    payload.extend(key(2, 0));
    payload.extend(encode_varint(42));

    let mut reader = Reader::new(&payload);
    let (number, wire) = reader.next_field().unwrap().unwrap();
    assert_eq!((number, wire), (1, WireType::LengthDelimited));
    assert_eq!(reader.string().unwrap(), "hello");

    let (number, wire) = reader.next_field().unwrap().unwrap();
    assert_eq!((number, wire), (2, WireType::Varint));
    assert_eq!(reader.varint().unwrap(), 42);

    assert!(reader.next_field().unwrap().is_none());
}

#[test]
fn unknown_fields_are_skipped_not_refused() {
    let mut payload = key(99, 0);
    payload.extend(encode_varint(1234));
    payload.extend(key(98, 2));
    payload.extend(encode_varint(3));
    payload.extend_from_slice(b"xyz");
    payload.extend(key(97, 1));
    payload.extend_from_slice(&[0u8; 8]);
    payload.extend(key(96, 5));
    payload.extend_from_slice(&[0u8; 4]);
    payload.extend(key(1, 0));
    payload.extend(encode_varint(7));

    let mut reader = Reader::new(&payload);
    loop {
        let Some((number, wire)) = reader.next_field().unwrap() else {
            panic!("ran out before reaching field 1");
        };
        if number == 1 {
            assert_eq!(reader.varint().unwrap(), 7);
            break;
        }
        reader.skip(wire).unwrap();
    }
}

#[test]
fn group_encoding_is_refused_by_name() {
    let payload = key(1, 3);
    let err = Reader::new(&payload).next_field().unwrap_err();
    assert!(err.message().contains("group"), "{err:?}");
}

#[test]
fn nested_messages_read_as_their_own_reader() {
    let mut inner = key(1, 0);
    inner.extend(encode_varint(9));

    let mut payload = key(1, 2);
    payload.extend(encode_varint(inner.len() as u64));
    payload.extend_from_slice(&inner);

    let mut reader = Reader::new(&payload);
    reader.next_field().unwrap().unwrap();
    let mut nested = reader.message().unwrap();
    assert_eq!(nested.next_field().unwrap().unwrap(), (1, WireType::Varint));
    assert_eq!(nested.varint().unwrap(), 9);
}

#[test]
fn garbage_input_errors_rather_than_panicking() {
    for payload in [
        vec![0xff],
        vec![0x08],
        vec![0x0a, 0xff, 0xff],
        vec![0xff; 64],
    ] {
        let mut reader = Reader::new(&payload);
        while let Ok(Some((_, wire))) = reader.next_field() {
            if reader.skip(wire).is_err() {
                break;
            }
        }
    }
}

// ---------------------------------------------------------------------------
// OTLP
// ---------------------------------------------------------------------------

#[test]
fn hex_matches_the_json_spelling_of_an_id() {
    assert_eq!(
        hex(&[0x4b, 0xf9, 0x2f, 0x35]),
        "4bf92f35",
        "ids are lowercase hex in OTLP/JSON"
    );
    assert_eq!(hex(&[0x00, 0x0f]), "000f", "a leading zero must be kept");
    assert_eq!(hex(&[]), "");
}

#[test]
fn base64_matches_what_otlp_json_puts_in_bytes_value() {
    assert_eq!(base64(b"f"), "Zg==");
    assert_eq!(base64(b"fo"), "Zm8=");
    assert_eq!(base64(b"foo"), "Zm9v");
    assert_eq!(base64(b"foob"), "Zm9vYg==");
    assert_eq!(base64(&[0xff, 0xef]), "/+8=");
    assert_eq!(base64(b""), "");
}

#[test]
fn a_wide_batch_is_refused_before_it_allocates() {
    let hostile: Vec<u8> = [0x0a, 0x00].repeat(MAX_REPEATED + 1);
    let error = logs(&hostile, &render).unwrap_err();
    assert!(error.message().contains("resource_logs"), "{error:?}");
    assert!(error.message().contains("split the batch"), "{error:?}");

    let fine: Vec<u8> = [0x0a, 0x00].repeat(16);
    assert_eq!(logs(&fine, &render).unwrap().resource_logs.len(), 16);
}

#[test]
fn a_deeply_nested_value_is_refused_rather_than_taking_the_stack_down() {
    let mut body = Vec::new();
    for _ in 0..(MAX_VALUE_DEPTH + 4) {
        let mut wrapped = vec![0x2a, u8::try_from(body.len() + 2).unwrap(), 0x0a];
        wrapped.push(u8::try_from(body.len()).unwrap());
        wrapped.extend_from_slice(&body);
        body = wrapped;
    }
    let error = any_value(&body, 0, &render).unwrap_err();
    assert!(error.message().contains("nested deeper"), "{error:?}");
}

#[test]
fn a_log_batch_decodes_identically_from_both_encodings() {
    let timestamp = 1_700_000_000_000_000_000_u64;

    let mut record = fixed64(1, timestamp);
    record.extend(varint(2, 17)); // severityNumber = ERROR
    record.extend(delim(3, b"ERROR"));
    record.extend(delim(5, &delim(1, b"checkout failed"))); // body.stringValue
    record.extend(delim(6, &string_attr("order.id", "A-99")));
    record.extend(delim(9, &[0x4b, 0xf9, 0x2f, 0x35])); // traceId bytes
    record.extend(delim(10, &[0x00, 0xf0, 0x67, 0xaa]));

    let scope_logs = delim(2, &record);
    let mut resource_body = delim(1, &string_attr("service.name", "checkout"));
    resource_body.extend(delim(1, &string_attr("k8s.pod.name", "pod-7f")));
    let mut resource_logs = delim(1, &resource_body);
    resource_logs.extend(delim(2, &scope_logs));
    let wire = delim(1, &resource_logs);

    let json = LogsData {
        resource_logs: vec![ResourceLogs {
            resource: Some(Resource {
                attributes: vec![
                    attribute("service.name", "checkout"),
                    attribute("k8s.pod.name", "pod-7f"),
                ],
            }),
            scope_logs: vec![ScopeLogs {
                log_records: vec![LogRecordJson {
                    time_unix_nano: FlexU64::Text(FlexText::read(&timestamp.to_string())),
                    severity_number: FlexEnum::Number(17),
                    severity_text: "ERROR".to_owned(),
                    body: Some(AnyValue {
                        string_value: Some("checkout failed".to_owned()),
                        ..AnyValue::default()
                    }),
                    attributes: vec![attribute("order.id", "A-99")],
                    trace_id: "4bf92f35".to_owned(),
                    span_id: "00f067aa".to_owned(),
                    ..LogRecordJson::default()
                }],
                ..ScopeLogs::default()
            }],
        }],
    };

    let (limits, ingest) = (LimitsConfig::default(), IngestConfig::default());
    let ctx = DecodeContext {
        limits: &limits,
        ingest: &ingest,
        now_nanos: timestamp,
    };

    let from_proto = convert_data(&logs(&wire, &render).unwrap(), ctx);
    let from_json = convert_data(&json, ctx);

    assert_eq!(from_proto.records.len(), 1, "{:?}", from_proto.rejections);
    assert_eq!(from_json.records.len(), 1);

    let (p, j) = (&from_proto.records[0], &from_json.records[0]);
    assert_eq!(p.timestamp_nanos, j.timestamp_nanos);
    assert_eq!(p.severity, j.severity);
    assert_eq!(p.severity_text, j.severity_text);
    assert_eq!(p.body, j.body);
    assert_eq!(
        p.trace_id, j.trace_id,
        "ids are bytes on the wire, hex in JSON"
    );
    assert_eq!(p.span_id, j.span_id);
    assert_eq!(format!("{:?}", p.stream), format!("{:?}", j.stream));
    assert_eq!(
        format!("{:?}", p.attributes),
        format!("{:?}", j.attributes),
        "the resource attribute no label claimed must survive both paths alike"
    );
}

#[test]
fn a_histogram_keeps_its_shape_through_the_packed_fields() {
    let timestamp = 1_700_000_000_000_000_000_u64;

    let mut point = fixed64(3, timestamp);
    point.extend(fixed64(4, 7)); // count
    point.extend(double(5, 12.5));
    let counts: Vec<u8> = [1_u64, 2, 4].iter().flat_map(|v| v.to_le_bytes()).collect();
    point.extend(delim(6, &counts));
    let bounds: Vec<u8> = [0.5_f64, 1.5]
        .iter()
        .flat_map(|v| v.to_le_bytes())
        .collect();
    point.extend(delim(7, &bounds));

    let histogram = delim(1, &point);
    let mut metric = delim(1, b"request_duration");
    metric.extend(delim(9, &histogram));
    let scope_metrics = delim(2, &metric);
    let mut resource_metrics = delim(1, &delim(1, &string_attr("service.name", "api")));
    resource_metrics.extend(delim(2, &scope_metrics));
    let wire = delim(1, &resource_metrics);

    let data = metrics(&wire, &render, &bound).unwrap();
    let point = &data.resource_metrics[0].scope_metrics[0].metrics[0]
        .histogram
        .as_ref()
        .unwrap()
        .data_points[0];

    assert_eq!(point.count.get(), Some(7));
    assert_eq!(point.sum.map(f64::from_bits), Some(12.5));
    assert_eq!(
        point
            .bucket_counts
            .iter()
            .map(|v| v.get())
            .collect::<Vec<_>>(),
        vec![Some(1), Some(2), Some(4)],
        "packed bucket counts were flattened"
    );
    assert_eq!(point.explicit_bounds, vec!["0.5", "1.5"]);
}

#[test]
fn a_span_is_read_field_by_field() {
    let mut event = fixed64(1, 150);
    event.extend(delim(2, b"retry"));
    event.extend(delim(3, &string_attr("attempt", "2")));
    let mut status = delim(2, b"timed out");
    status.extend(varint(3, 2));

    let mut span = delim(1, &[0x4b, 0xf9]);
    span.extend(delim(2, &[0x01]));
    span.extend(delim(4, &[0x02]));
    span.extend(delim(5, b"GET /"));
    span.extend(varint(6, 3));
    span.extend(fixed64(7, 100));
    span.extend(fixed64(8, 200));
    span.extend(delim(9, &string_attr("http.method", "GET")));
    span.extend(delim(11, &event));
    span.extend(delim(15, &status));
    let wire = delim(1, &delim(2, &delim(2, &span)));

    let data = traces(&wire, &render).unwrap();
    assert!(data.resource_spans[0].resource.is_none());
    let span = &data.resource_spans[0].scope_spans[0].spans[0];
    assert_eq!(span.trace_id, "4bf9");
    assert_eq!(span.span_id, "01");
    assert_eq!(span.parent_span_id, "02");
    assert_eq!(span.name, "GET /");
    assert!(matches!(span.kind, FlexEnum::Number(3)));
    assert_eq!(span.start_time_unix_nano.get(), Some(100));
    assert_eq!(span.end_time_unix_nano.get(), Some(200));
    assert_eq!(span.attributes.len(), 1);
    assert_eq!(span.attributes[0].key, "http.method");
    assert_eq!(span.events.len(), 1);
    assert_eq!(span.events[0].name, "retry");
    assert_eq!(span.events[0].time_unix_nano.get(), Some(150));
    assert_eq!(span.events[0].attributes[0].key, "attempt");
    let status = span.status.as_ref().unwrap();
    assert_eq!(status.message, "timed out");
    assert!(matches!(status.code, FlexEnum::Number(2)));
}

#[test]
fn integers_are_the_same_in_both_encodings() {
    for n in [0, 1, -1, 42, i64::MAX, i64::MIN] {
        let wire = any_value(&varint(3, n as u64), 0, &render).unwrap();
        let json = AnyValue {
            int_value: FlexI64::Text(SignedText::read(&n.to_string())),
            ..AnyValue::default()
        };
        assert_eq!(wire.to_text(), json.to_text());
        assert_eq!(wire.to_text(), Some(n.to_string()));
    }
}

#[test]
fn temporality_and_unsupported_kinds_are_read() {
    let mut sum = delim(1, &fixed64(6, (-5_i64) as u64));
    sum.extend(varint(2, 1));
    let mut histogram = varint(2, 2);
    histogram.extend(delim(1, &fixed64(4, 3)));
    let mut metric = delim(1, b"m");
    metric.extend(delim(7, &sum));
    metric.extend(delim(9, &histogram));
    metric.extend(delim(10, b"anything"));
    metric.extend(delim(11, b""));
    let wire = delim(1, &delim(2, &delim(2, &metric)));
    let data = metrics(&wire, &render, &bound).unwrap();
    let metric = &data.resource_metrics[0].scope_metrics[0].metrics[0];
    let sum = metric.sum.as_ref().unwrap();
    assert!(matches!(sum.aggregation_temporality, FlexEnum::Number(1)));
    assert_eq!(sum.data_points[0].as_int.get(), Some(-5));
    let histogram = metric.histogram.as_ref().unwrap();
    assert!(matches!(histogram.aggregation_temporality, FlexEnum::Number(2)));
    assert_eq!(histogram.data_points[0].count.get(), Some(3));
    assert!(metric.exponential_histogram && metric.summary);
}

#[test]
fn no_repeated_field_grows_past_its_limit() {
    let refused = |wire: &[u8], field: &str| {
        let error = traces(wire, &render).unwrap_err();
        assert!(error.message().contains(field), "{error:?}");
        assert!(matches!(error, Error::BadRequest(_)));
    };
    let span = |body: &[u8]| delim(1, &delim(2, &delim(2, body)));
    let many = |field: u32, count: usize| delim(field, b"").repeat(count);
    assert!(traces(&span(&many(11, MAX_REPEATED)), &render).is_ok());
    refused(&span(&many(11, MAX_REPEATED + 1)), "events exceeds");
    refused(&span(&many(9, MAX_REPEATED + 1)), "attributes exceeds");
    for field in [5, 6] {
        let error = any_value(&delim(field, &many(1, MAX_REPEATED + 1)), 0, &render).unwrap_err();
        assert!(error.message().contains("values exceeds"), "{error:?}");
    }
    let metric = |field: u32, body: &[u8]| delim(1, &delim(2, &delim(2, &delim(field, body))));
    for field in [5, 7, 9] {
        let wire = metric(field, &many(1, MAX_REPEATED + 1));
        let error = metrics(&wire, &render, &bound).unwrap_err();
        assert!(error.message().contains("data_points exceeds"), "{error:?}");
    }
    for (field, name) in [(6, "bucket_counts exceeds"), (7, "explicit_bounds exceeds")] {
        let full = delim(field, &vec![0; 8 * MAX_REPEATED]);
        assert!(metrics(&metric(9, &delim(1, &full)), &render, &bound).is_ok());
        let mut wide = full.clone();
        wide.extend(delim(field, &[0; 8]));
        let error = metrics(&metric(9, &delim(1, &wide)), &render, &bound).unwrap_err();
        assert!(error.message().contains(name), "{error:?}");
    }
}

#[test]
fn an_unknown_field_is_skipped_rather_than_failing_the_batch() {
    let timestamp = 1_700_000_000_000_000_000_u64;
    let mut record = fixed64(1, timestamp);
    record.extend(delim(5, &delim(1, b"hello")));
    record.extend(varint(999, 42)); // from the future
    record.extend(delim(998, b"also from the future"));

    let scope_logs = delim(2, &record);
    let mut resource_logs = delim(1, &delim(1, &string_attr("service.name", "app")));
    resource_logs.extend(delim(2, &scope_logs));
    let wire = delim(1, &resource_logs);

    let (limits, ingest) = (LimitsConfig::default(), IngestConfig::default());
    let decoded = convert_data(
        &logs(&wire, &render).unwrap(),
        DecodeContext {
            limits: &limits,
            ingest: &ingest,
            now_nanos: timestamp,
        },
    );
    assert_eq!(decoded.records.len(), 1);
    assert_eq!(decoded.records[0].body, "hello");
}

// ---------------------------------------------------------------------------
// Remote write
// ---------------------------------------------------------------------------

#[test]
fn decodes_a_realistic_write_request() {
    let payload = write_request(&[(
        vec![
            ("__name__", "http_requests_total"),
            ("app", "checkout"),
            ("status", "500"),
        ],
        vec![(42.0, NOW_MILLIS), (43.0, NOW_MILLIS + 15_000)],
    )]);

    let decoded = decode_default(&payload);
    assert_eq!(decoded.records.len(), 2);
    assert!(decoded.rejections.is_empty());

    let first = &decoded.records[0];
    assert_eq!(first.name(), "http_requests_total");
    assert_eq!(first.app(), "checkout");
    assert_eq!(first.series.get("status"), Some("500"));
    assert_eq!(f64::from_bits(first.value), 42.0);
    assert_eq!(first.timestamp_nanos, NOW_NANOS);
    assert_eq!(
        decoded.records[1].timestamp_nanos,
        NOW_NANOS + 15_000_000_000
    );
}

#[test]
fn several_series_in_one_request_all_decode() {
    let payload = write_request(&[
        (
            vec![("__name__", "up"), ("app", "checkout")],
            vec![(1.0, NOW_MILLIS)],
        ),
        (
            vec![("__name__", "up"), ("app", "cart")],
            vec![(0.0, NOW_MILLIS)],
        ),
    ]);

    let decoded = decode_default(&payload);
    assert_eq!(decoded.records.len(), 2);
    assert_eq!(decoded.records[0].app(), "checkout");
    assert_eq!(decoded.records[1].app(), "cart");
}

#[test]
fn an_app_label_is_derived_when_absent() {
    let from_job = write_request(&[(
        vec![("__name__", "up"), ("job", "checkout")],
        vec![(1.0, NOW_MILLIS)],
    )]);
    assert_eq!(decode_default(&from_job).records[0].app(), "checkout");

    let from_nothing = write_request(&[(vec![("__name__", "up")], vec![(1.0, NOW_MILLIS)])]);
    assert_eq!(decode_default(&from_nothing).records[0].app(), "unknown");
}

#[test]
fn a_series_without_a_name_is_rejected_with_its_samples() {
    let payload = write_request(&[(
        vec![("app", "checkout")],
        vec![(1.0, NOW_MILLIS), (2.0, NOW_MILLIS)],
    )]);

    let decoded = decode_default(&payload);
    assert!(decoded.records.is_empty());
    assert_eq!(decoded.rejections.len(), 2, "both samples are refused");
    assert_eq!(
        decoded.rejections[0].reason,
        RejectReason::MissingMetricName
    );
}

#[test]
fn an_invalid_metric_name_is_refused_rather_than_rewritten() {
    let payload = write_request(&[(
        vec![("__name__", "has.dots"), ("app", "x")],
        vec![(1.0, NOW_MILLIS)],
    )]);

    let decoded = decode_default(&payload);
    assert!(decoded.records.is_empty());
    assert_eq!(
        decoded.rejections[0].reason,
        RejectReason::InvalidMetricName
    );
}

#[test]
fn an_implausible_timestamp_is_reported_not_guessed_at() {
    let payload = write_request(&[(
        vec![("__name__", "up"), ("app", "x")],
        vec![(1.0, 0), (1.0, NOW_MILLIS)],
    )]);

    let decoded = decode_default(&payload);
    assert_eq!(decoded.records.len(), 1, "the good sample still lands");
    assert_eq!(decoded.rejections[0].reason, RejectReason::InvalidTimestamp);
}

#[test]
fn a_series_over_the_label_cap_is_rejected() {
    let limits = LimitsConfig {
        max_labels_per_series: 3,
        ..LimitsConfig::default()
    };
    let payload = write_request(&[(
        vec![
            ("__name__", "up"),
            ("app", "x"),
            ("a", "1"),
            ("b", "2"),
            ("c", "3"),
        ],
        vec![(1.0, NOW_MILLIS)],
    )]);

    let decoded = decode(
        &payload,
        WriteContext {
            limits: &limits,
            default_app: "unknown",
        },
    )
    .unwrap();
    assert!(decoded.records.is_empty());
    assert_eq!(decoded.rejections[0].reason, RejectReason::TooManyLabels);
}

#[test]
fn uncompressed_protobuf_is_accepted_too() {
    let mut ts = delim(1, &label("__name__", "up"));
    ts.extend(delim(1, &label("app", "checkout")));
    ts.extend(delim(2, &sample(1.0, NOW_MILLIS)));
    let raw = delim(1, &ts);

    let decoded = decode_default(&raw);
    assert_eq!(decoded.records.len(), 1);
    assert_eq!(decoded.records[0].name(), "up");
}

#[test]
fn an_empty_request_is_valid_and_yields_nothing() {
    let payload = snap::raw::Encoder::new().compress_vec(&[]).unwrap();
    let decoded = decode_default(&payload);
    assert!(decoded.records.is_empty());
    assert!(decoded.rejections.is_empty());
}

#[test]
fn a_series_with_no_samples_is_silently_skipped() {
    let payload = write_request(&[(vec![("__name__", "up"), ("app", "x")], vec![])]);
    let decoded = decode_default(&payload);
    assert!(decoded.records.is_empty());
    assert!(
        decoded.rejections.is_empty(),
        "nothing was refused, there was nothing to refuse"
    );
}

#[test]
fn garbage_is_a_client_error_not_a_panic() {
    for payload in [
        vec![0xff, 0xff, 0xff],
        vec![0x00],
        b"definitely not protobuf".to_vec(),
        vec![],
    ] {
        let limits = LimitsConfig::default();
        let result = decode(
            &payload,
            WriteContext {
                limits: &limits,
                default_app: "unknown",
            },
        );
        if let Err(error) = result {
            assert!(matches!(error, Error::BadRequest(_)), "{error:?}");
        }
    }
}

#[test]
fn special_float_values_survive() {
    let payload = write_request(&[(
        vec![("__name__", "up"), ("app", "x")],
        vec![(f64::NAN, NOW_MILLIS), (f64::INFINITY, NOW_MILLIS + 1000)],
    )]);

    let decoded = decode_default(&payload);
    assert!(
        f64::from_bits(decoded.records[0].value).is_nan(),
        "NaN is a real Prometheus signal"
    );
    assert!(f64::from_bits(decoded.records[1].value).is_infinite());
}

// ---------------------------------------------------------------------------
// Memory pool
// ---------------------------------------------------------------------------

#[test]
fn what_is_reserved_comes_back() {
    let mut pool = MemoryPool::new(100);
    let mut first = pool.reserve(60).unwrap();
    assert!(pool.reserve(50).is_none(), "only forty left");
    assert!(!first.grow(&mut pool, 50));
    assert_eq!(first.bytes(), 60, "a failed grow takes nothing");
    assert!(first.grow(&mut pool, 40));
    assert_eq!(pool.in_use(), 100);
    pool.give_back(first);
    assert_eq!(pool.in_use(), 0);
    assert!(pool.reserve(100).is_some());
}
