//! What OTLP JSON holds, read by the names of its members, and that it undoes the encoders.
//!
//! A member is read under its JSON name or else its proto one, a 64-bit number or an enum as
//! a number or as a text, and one that is not there as its default. A value that is not of its
//! member's kind is not OTLP.
use vstd::prelude::*;

use crate::decoded::{allowance, span_cost, Tally};
use crate::grouping::{grouped, lemma_grouped};
use crate::json::{keyed, put, Shape};
use crate::logs::{ContextView, LogRecordView, ResourceLogsView, ScopeLogsView};
use crate::otlp::{parse_i32, AnyView, FlexEnumView, KeyView, NumeralView, ScopeView};
use crate::otlp_encode::{
    attribute_shape, attributes_shape, enum_shape, event_shape, events_member, level_number,
    log_group_shape, log_members, log_shape, log_streams, logs_shape, member_if_some,
    member_unless_empty, nanos_shape, object1, point_shape, resource_shape, sample_group_shape,
    sample_name, sample_shape, sample_streams, samples_shape, span_group_shape, span_members,
    span_shape, span_streams, spans_shape, status_shape, text_value, time_shape, unnamed,
    value_shape, wire_attributes, wire_event, wire_log, wire_log_group, wire_logs, wire_span,
    wire_span_group, wire_spans,
};
use crate::otlp_metrics::{
    HistogramView, HistogramsView, MetricView, PointView, ResourceMetricsView, ScopeMetricsView,
    SumView,
};
use crate::record::{LogView, MetricKind, SampleView, SpanEventView, SpanView};
use crate::roundtrip::{
    clean, in_groups, law_log_records_round_trip, law_spans_round_trip, stored_log, stored_span,
    wire_point, wire_sample,
};
use crate::text::{decimal, parse_digits, parse_signed, parse_unsigned, text_before, trim};
use crate::traces::{EventJsonView, ResourceSpansView, ScopeSpansView, SpanJsonView, StatusView};
use crate::written::{
    law_a_written_integer_is_read_back, law_a_written_number_is_read_back, lemma_untrimmed,
};

verus! {

// ---------------------------------------------------------------------------
// Members
// ---------------------------------------------------------------------------

/// The members of an object.
pub type Members = Seq<(Seq<char>, Shape)>;

/// The value of a member.
pub open spec fn found(entries: Members, key: Seq<char>) -> Option<Shape>
    decreases entries.len(),
{
    if entries.len() == 0 {
        None
    } else if entries[0].0 == key {
        Some(entries[0].1)
    } else {
        found(entries.drop_first(), key)
    }
}

/// The value of an object's member, under either of its names.
pub open spec fn named(shape: Shape, name: Seq<char>, proto: Seq<char>) -> Option<Shape> {
    match shape {
        Shape::Object(entries) => match found(entries, name) {
            Some(value) => Some(value),
            None => found(entries, proto),
        },
        _ => None,
    }
}

/// No members.
spec fn none() -> Members {
    Seq::empty()
}

/// The last of the members with a key.
spec fn last_of(entries: Members, key: Seq<char>) -> Option<Shape>
    decreases entries.len(),
{
    if entries.len() == 0 {
        None
    } else if entries.last().0 == key {
        Some(entries.last().1)
    } else {
        last_of(entries.drop_last(), key)
    }
}

proof fn lemma_put_found(entries: Members, key: Seq<char>, value: Shape, asked: Seq<char>)
    ensures
        found(put(entries, key, value), asked) == (if asked == key {
            Some(value)
        } else {
            found(entries, asked)
        }),
    decreases entries.len(),
{
    let all = put(entries, key, value);
    let one = seq![(key, value)];
    if entries.len() == 0 {
        assert(all.drop_first() =~= Seq::empty());
        assert(found(all.drop_first(), asked) is None);
    } else if entries[0].0 == key {
        assert(all.drop_first() =~= entries.drop_first());
    } else if text_before(key, entries[0].0) {
        assert(all.drop_first() =~= entries);
    } else {
        lemma_put_found(entries.drop_first(), key, value, asked);
        assert(all[0] == entries[0]);
        assert(all.drop_first() =~= put(entries.drop_first(), key, value));
    }
}

broadcast proof fn lemma_keyed_found(entries: Members, asked: Seq<char>)
    ensures
        #[trigger] found(keyed(entries), asked) == last_of(entries, asked),
    decreases entries.len(),
{
    if entries.len() > 0 {
        lemma_keyed_found(entries.drop_last(), asked);
        lemma_put_found(
            keyed(entries.drop_last()),
            entries.last().0,
            entries.last().1,
            asked,
        );
    }
}

broadcast proof fn lemma_last_push(entries: Members, entry: (Seq<char>, Shape), asked: Seq<char>)
    ensures
        #[trigger] last_of(entries.push(entry), asked) == (if entry.0 == asked {
            Some(entry.1)
        } else {
            last_of(entries, asked)
        }),
{
    assert(entries.push(entry).drop_last() =~= entries);
}

broadcast proof fn lemma_last_concat(a: Members, b: Members, asked: Seq<char>)
    ensures
        #[trigger] last_of(a + b, asked) == (match last_of(b, asked) {
            Some(value) => Some(value),
            None => last_of(a, asked),
        }),
    decreases b.len(),
{
    if b.len() == 0 {
        assert(a + b =~= a);
    } else {
        assert((a + b).drop_last() =~= a + b.drop_last());
        lemma_last_concat(a, b.drop_last(), asked);
    }
}

broadcast proof fn lemma_last_unless_empty(key: Seq<char>, text: Seq<char>, asked: Seq<char>)
    ensures
        #[trigger] last_of(member_unless_empty(key, text), asked) == (if text.len() > 0 && key
            == asked {
            Some(Shape::Text(text))
        } else {
            None
        }),
{
    if text.len() > 0 {
        lemma_last_push(Seq::empty(), (key, Shape::Text(text)), asked);
        assert(last_of(Seq::empty(), asked) is None);
    }
}

broadcast proof fn lemma_last_if_some(key: Seq<char>, text: Option<Seq<char>>, asked: Seq<char>)
    ensures
        #[trigger] last_of(member_if_some(key, text), asked) == (if text is Some && key == asked {
            Some(Shape::Text(text->Some_0))
        } else {
            None
        }),
{
    if let Some(text) = text {
        lemma_last_push(Seq::empty(), (key, Shape::Text(text)), asked);
        assert(last_of(Seq::empty(), asked) is None);
    }
}

broadcast proof fn lemma_last_events(events: Seq<EventJsonView>, asked: Seq<char>)
    ensures
        #[trigger] last_of(events_member(events), asked) == (if events.len() > 0 && asked
            == "events"@ {
            Some(Shape::Array(events.map_values(|event: EventJsonView| event_shape(event))))
        } else {
            None
        }),
{
    if events.len() > 0 {
        let list = Shape::Array(events.map_values(|event: EventJsonView| event_shape(event)));
        lemma_last_push(Seq::empty(), ("events"@, list), asked);
        assert(last_of(Seq::empty(), asked) is None);
    }
}

broadcast group group_members {
    lemma_keyed_found,
    lemma_last_push,
    lemma_last_concat,
    lemma_last_unless_empty,
    lemma_last_if_some,
    lemma_last_events,
}

/// What tells the member names apart.
proof fn lemma_names()
    ensures
        "stringValue"@.len() == 11 && "stringValue"@[0] == 's' && "stringValue"@[1] == 't',
        "string_value"@.len() == 12 && "string_value"@[0] == 's' && "string_value"@[1] == 't',
        "boolValue"@.len() == 9 && "boolValue"@[0] == 'b',
        "bool_value"@.len() == 10 && "bool_value"@[0] == 'b' && "bool_value"@[1] == 'o',
        "intValue"@.len() == 8 && "intValue"@[0] == 'i',
        "int_value"@.len() == 9 && "int_value"@[0] == 'i',
        "doubleValue"@.len() == 11 && "doubleValue"@[0] == 'd' && "doubleValue"@[1] == 'o',
        "double_value"@.len() == 12 && "double_value"@[0] == 'd',
        "arrayValue"@.len() == 10 && "arrayValue"@[0] == 'a' && "arrayValue"@[1] == 'r',
        "array_value"@.len() == 11 && "array_value"@[0] == 'a',
        "kvlistValue"@.len() == 11 && "kvlistValue"@[0] == 'k',
        "kvlist_value"@.len() == 12 && "kvlist_value"@[0] == 'k',
        "bytesValue"@.len() == 10 && "bytesValue"@[0] == 'b' && "bytesValue"@[1] == 'y',
        "bytes_value"@.len() == 11 && "bytes_value"@[0] == 'b',
        "values"@.len() == 6 && "values"@[0] == 'v',
        "key"@.len() == 3 && "key"@[0] == 'k',
        "value"@.len() == 5 && "value"@[0] == 'v',
        "attributes"@.len() == 10 && "attributes"@[0] == 'a' && "attributes"@[1] == 't',
        "name"@.len() == 4 && "name"@[0] == 'n',
        "version"@.len() == 7 && "version"@[0] == 'v',
        "resource"@.len() == 8 && "resource"@[0] == 'r',
        "scope"@.len() == 5 && "scope"@[0] == 's' && "scope"@[1] == 'c',
        "resourceLogs"@.len() == 12 && "resourceLogs"@[0] == 'r',
        "resource_logs"@.len() == 13 && "resource_logs"@[0] == 'r' && "resource_logs"@[8] == '_',
        "scopeLogs"@.len() == 9 && "scopeLogs"@[0] == 's',
        "scope_logs"@.len() == 10 && "scope_logs"@[0] == 's' && "scope_logs"@[5] == '_',
        "logRecords"@.len() == 10 && "logRecords"@[0] == 'l',
        "log_records"@.len() == 11 && "log_records"@[0] == 'l',
        "timeUnixNano"@.len() == 12 && "timeUnixNano"@[0] == 't',
        "time_unix_nano"@.len() == 14 && "time_unix_nano"@[0] == 't',
        "observedTimeUnixNano"@.len() == 20 && "observedTimeUnixNano"@[0] == 'o',
        "observed_time_unix_nano"@.len() == 23 && "observed_time_unix_nano"@[0] == 'o',
        "severityNumber"@.len() == 14 && "severityNumber"@[0] == 's',
        "severity_number"@.len() == 15 && "severity_number"@[0] == 's',
        "severityText"@.len() == 12 && "severityText"@[0] == 's' && "severityText"@[1] == 'e',
        "severity_text"@.len() == 13 && "severity_text"@[0] == 's' && "severity_text"@[1] == 'e',
        "body"@.len() == 4 && "body"@[0] == 'b',
        "traceId"@.len() == 7 && "traceId"@[0] == 't',
        "trace_id"@.len() == 8 && "trace_id"@[0] == 't',
        "spanId"@.len() == 6 && "spanId"@[0] == 's' && "spanId"@[1] == 'p',
        "span_id"@.len() == 7 && "span_id"@[0] == 's' && "span_id"@[1] == 'p',
        "resourceSpans"@.len() == 13 && "resourceSpans"@[0] == 'r' && "resourceSpans"@[8] == 'S',
        "resource_spans"@.len() == 14 && "resource_spans"@[0] == 'r',
        "scopeSpans"@.len() == 10 && "scopeSpans"@[0] == 's' && "scopeSpans"@[5] == 'S',
        "scope_spans"@.len() == 11 && "scope_spans"@[0] == 's' && "scope_spans"@[1] == 'c',
        "spans"@.len() == 5 && "spans"@[0] == 's' && "spans"@[1] == 'p',
        "parentSpanId"@.len() == 12 && "parentSpanId"@[0] == 'p',
        "parent_span_id"@.len() == 14 && "parent_span_id"@[0] == 'p',
        "kind"@.len() == 4 && "kind"@[0] == 'k',
        "startTimeUnixNano"@.len() == 17,
        "start_time_unix_nano"@.len() == 20 && "start_time_unix_nano"@[0] == 's',
        "endTimeUnixNano"@.len() == 15 && "endTimeUnixNano"@[0] == 'e' && "endTimeUnixNano"@[1] == 'n',
        "end_time_unix_nano"@.len() == 18,
        "events"@.len() == 6 && "events"@[0] == 'e',
        "status"@.len() == 6 && "status"@[0] == 's' && "status"@[1] == 't',
        "code"@.len() == 4 && "code"@[0] == 'c',
        "message"@.len() == 7 && "message"@[0] == 'm' && "message"@[2] == 's',
        "resourceMetrics"@.len() == 15 && "resourceMetrics"@[0] == 'r',
        "resource_metrics"@.len() == 16,
        "scopeMetrics"@.len() == 12 && "scopeMetrics"@[0] == 's' && "scopeMetrics"@[1] == 'c',
        "scope_metrics"@.len() == 13 && "scope_metrics"@[0] == 's' && "scope_metrics"@[1] == 'c',
        "metrics"@.len() == 7 && "metrics"@[0] == 'm' && "metrics"@[2] == 't',
        "unit"@.len() == 4 && "unit"@[0] == 'u',
        "gauge"@.len() == 5 && "gauge"@[0] == 'g',
        "sum"@.len() == 3 && "sum"@[0] == 's',
        "histogram"@.len() == 9 && "histogram"@[0] == 'h',
        "exponentialHistogram"@.len() == 20 && "exponentialHistogram"@[0] == 'e',
        "exponential_histogram"@.len() == 21,
        "summary"@.len() == 7 && "summary"@[0] == 's' && "summary"@[1] == 'u',
        "dataPoints"@.len() == 10 && "dataPoints"@[0] == 'd',
        "data_points"@.len() == 11 && "data_points"@[0] == 'd' && "data_points"@[1] == 'a',
        "isMonotonic"@.len() == 11 && "isMonotonic"@[0] == 'i',
        "is_monotonic"@.len() == 12 && "is_monotonic"@[0] == 'i',
        "aggregationTemporality"@.len() == 22,
        "aggregation_temporality"@.len() == 23 && "aggregation_temporality"@[0] == 'a',
        "asDouble"@.len() == 8 && "asDouble"@[0] == 'a',
        "as_double"@.len() == 9 && "as_double"@[0] == 'a',
        "asInt"@.len() == 5 && "asInt"@[0] == 'a',
        "as_int"@.len() == 6 && "as_int"@[0] == 'a',
        "count"@.len() == 5 && "count"@[0] == 'c',
        "bucketCounts"@.len() == 12 && "bucketCounts"@[0] == 'b',
        "bucket_counts"@.len() == 13 && "bucket_counts"@[0] == 'b',
        "explicitBounds"@.len() == 14 && "explicitBounds"@[0] == 'e',
        "explicit_bounds"@.len() == 15 && "explicit_bounds"@[0] == 'e' && "explicit_bounds"@[1] == 'x',
{
    reveal_strlit("stringValue");
    reveal_strlit("string_value");
    reveal_strlit("boolValue");
    reveal_strlit("bool_value");
    reveal_strlit("intValue");
    reveal_strlit("int_value");
    reveal_strlit("doubleValue");
    reveal_strlit("double_value");
    reveal_strlit("arrayValue");
    reveal_strlit("array_value");
    reveal_strlit("kvlistValue");
    reveal_strlit("kvlist_value");
    reveal_strlit("bytesValue");
    reveal_strlit("bytes_value");
    reveal_strlit("values");
    reveal_strlit("key");
    reveal_strlit("value");
    reveal_strlit("attributes");
    reveal_strlit("name");
    reveal_strlit("version");
    reveal_strlit("resource");
    reveal_strlit("scope");
    reveal_strlit("resourceLogs");
    reveal_strlit("resource_logs");
    reveal_strlit("scopeLogs");
    reveal_strlit("scope_logs");
    reveal_strlit("logRecords");
    reveal_strlit("log_records");
    reveal_strlit("timeUnixNano");
    reveal_strlit("time_unix_nano");
    reveal_strlit("observedTimeUnixNano");
    reveal_strlit("observed_time_unix_nano");
    reveal_strlit("severityNumber");
    reveal_strlit("severity_number");
    reveal_strlit("severityText");
    reveal_strlit("severity_text");
    reveal_strlit("body");
    reveal_strlit("traceId");
    reveal_strlit("trace_id");
    reveal_strlit("spanId");
    reveal_strlit("span_id");
    reveal_strlit("resourceSpans");
    reveal_strlit("resource_spans");
    reveal_strlit("scopeSpans");
    reveal_strlit("scope_spans");
    reveal_strlit("spans");
    reveal_strlit("parentSpanId");
    reveal_strlit("parent_span_id");
    reveal_strlit("kind");
    reveal_strlit("startTimeUnixNano");
    reveal_strlit("start_time_unix_nano");
    reveal_strlit("endTimeUnixNano");
    reveal_strlit("end_time_unix_nano");
    reveal_strlit("events");
    reveal_strlit("status");
    reveal_strlit("code");
    reveal_strlit("message");
    reveal_strlit("resourceMetrics");
    reveal_strlit("resource_metrics");
    reveal_strlit("scopeMetrics");
    reveal_strlit("scope_metrics");
    reveal_strlit("metrics");
    reveal_strlit("unit");
    reveal_strlit("gauge");
    reveal_strlit("sum");
    reveal_strlit("histogram");
    reveal_strlit("exponentialHistogram");
    reveal_strlit("exponential_histogram");
    reveal_strlit("summary");
    reveal_strlit("dataPoints");
    reveal_strlit("data_points");
    reveal_strlit("isMonotonic");
    reveal_strlit("is_monotonic");
    reveal_strlit("aggregationTemporality");
    reveal_strlit("aggregation_temporality");
    reveal_strlit("asDouble");
    reveal_strlit("as_double");
    reveal_strlit("asInt");
    reveal_strlit("as_int");
    reveal_strlit("count");
    reveal_strlit("bucketCounts");
    reveal_strlit("bucket_counts");
    reveal_strlit("explicitBounds");
    reveal_strlit("explicit_bounds");
}

// ---------------------------------------------------------------------------
// Kinds
// ---------------------------------------------------------------------------

/// A text, empty where it is not there.
pub open spec fn text_in(member: Option<Shape>) -> Option<Seq<char>> {
    match member {
        None => Some(Seq::empty()),
        Some(Shape::Text(text)) => Some(text),
        Some(_) => None,
    }
}

/// A text that may be absent.
pub open spec fn maybe_text_in(member: Option<Shape>) -> Option<Option<Seq<char>>> {
    match member {
        None | Some(Shape::Null) => Some(None),
        Some(Shape::Text(text)) => Some(Some(text)),
        Some(_) => None,
    }
}

pub open spec fn maybe_bool_in(member: Option<Shape>) -> Option<Option<bool>> {
    match member {
        None | Some(Shape::Null) => Some(None),
        Some(Shape::Bool(flag)) => Some(Some(flag)),
        Some(_) => None,
    }
}

/// A flag, not set where it is not there.
pub open spec fn flag_in(member: Option<Shape>) -> Option<bool> {
    match member {
        None => Some(false),
        Some(Shape::Bool(flag)) => Some(flag),
        Some(_) => None,
    }
}

/// A `uint64`. A text that is no number is no value, where a number that is none is wrong.
pub open spec fn unsigned_in(member: Option<Shape>) -> Option<Option<u64>> {
    match member {
        None | Some(Shape::Null) => Some(None),
        Some(Shape::Text(text)) => Some(
            match parse_unsigned(trim(text), u64::MAX as nat) {
                Some(n) => Some(n as u64),
                None => None,
            },
        ),
        Some(Shape::Number(text)) => match parse_digits(text, u64::MAX as nat) {
            Some(n) => Some(Some(n as u64)),
            None => None,
        },
        Some(_) => None,
    }
}

/// An `int64`.
pub open spec fn signed_in(member: Option<Shape>) -> Option<Option<i64>> {
    match member {
        None | Some(Shape::Null) => Some(None),
        Some(Shape::Text(text)) => Some(
            match parse_signed(trim(text)) {
                Some(n) => Some(n as i64),
                None => None,
            },
        ),
        Some(Shape::Number(text)) => match parse_signed(text) {
            Some(n) => Some(Some(n as i64)),
            None => None,
        },
        Some(_) => None,
    }
}

/// An enum, as a number or by its name.
pub open spec fn enum_in(member: Option<Shape>) -> Option<FlexEnumView> {
    match member {
        None | Some(Shape::Null) => Some(FlexEnumView::Absent),
        Some(Shape::Text(name)) => Some(FlexEnumView::Name(name)),
        Some(Shape::Number(text)) => match parse_i32(text) {
            Some(n) => Some(FlexEnumView::Number(n)),
            None => None,
        },
        Some(_) => None,
    }
}

/// A number by the bits of its double.
pub open spec fn double_in(member: Option<Shape>, bits: Doubles) -> Option<Option<u64>> {
    match member {
        None | Some(Shape::Null) => Some(None),
        Some(shape) => match bits(shape) {
            Some(bits) => Some(Some(bits)),
            None => None,
        },
    }
}

/// The bits of the double that a JSON number is nearest to.
pub type Doubles = spec_fn(Shape) -> Option<u64>;

/// What is read of each element, where something is read of every one.
pub open spec fn every<T>(items: Seq<Option<T>>) -> Option<Seq<T>> {
    if forall|i: int| 0 <= i < items.len() ==> (#[trigger] items[i]) is Some {
        Some(items.map_values(|item: Option<T>| item->Some_0))
    } else {
        None
    }
}

/// A list, empty where it is not there.
pub open spec fn list_in<T>(member: Option<Shape>, read: spec_fn(Shape) -> Option<T>) -> Option<
    Seq<T>,
> {
    match member {
        None => Some(Seq::empty()),
        Some(Shape::Array(items)) => every(items.map_values(read)),
        Some(_) => None,
    }
}

/// A message that may be absent.
pub open spec fn maybe_in<T>(member: Option<Shape>, read: spec_fn(Shape) -> Option<T>) -> Option<
    Option<T>,
> {
    match member {
        None | Some(Shape::Null) => Some(None),
        Some(shape) => match read(shape) {
            Some(value) => Some(Some(value)),
            None => None,
        },
    }
}

/// A list that was written element by element is read element by element.
proof fn lemma_list<T, U>(
    items: Seq<T>,
    shape: spec_fn(T) -> Shape,
    read: spec_fn(Shape) -> Option<U>,
    out: Seq<U>,
)
    requires
        items.len() == out.len(),
        forall|i: int| 0 <= i < items.len() ==> read(shape(#[trigger] items[i])) == Some(out[i]),
    ensures
        list_in(Some(Shape::Array(items.map_values(shape))), read) == Some(out),
{
    let all = items.map_values(shape).map_values(read);
    assert forall|i: int| 0 <= i < all.len() implies (#[trigger] all[i]) is Some && all[i]->Some_0
        == out[i] by {
        assert(read(shape(items[i])) == Some(out[i]));
    }
    assert(all.map_values(|item: Option<U>| item->Some_0) =~= out);
}

// ---------------------------------------------------------------------------
// Values and attributes
// ---------------------------------------------------------------------------

/// How a double of a JSON number is rendered.
pub type Rendered = spec_fn(Shape) -> Option<NumeralView>;

/// An `AnyValue` with no more than `depth` levels.
pub open spec fn any_in(shape: Shape, depth: nat, num: Rendered) -> Option<AnyView>
    decreases depth, 1nat,
{
    if depth == 0 || !(shape is Object) {
        None
    } else {
        let values = |list: Shape|
            list_in(
                named(list, "values"@, "values"@),
                |item: Shape| any_in(item, (depth - 1) as nat, num),
            );
        let entries = |list: Shape|
            list_in(
                named(list, "values"@, "values"@),
                |item: Shape| key_in(item, (depth - 1) as nat, num),
            );
        match (
            maybe_text_in(named(shape, "stringValue"@, "string_value"@)),
            maybe_bool_in(named(shape, "boolValue"@, "bool_value"@)),
            signed_in(named(shape, "intValue"@, "int_value"@)),
            maybe_in(named(shape, "doubleValue"@, "double_value"@), num),
            maybe_in(named(shape, "arrayValue"@, "array_value"@), values),
            maybe_in(named(shape, "kvlistValue"@, "kvlist_value"@), entries),
            maybe_text_in(named(shape, "bytesValue"@, "bytes_value"@)),
        ) {
            (
                Some(string_value),
                Some(bool_value),
                Some(int_value),
                Some(double_value),
                Some(array_value),
                Some(kvlist_value),
                Some(bytes_value),
            ) => Some(
                AnyView {
                    string_value,
                    bool_value,
                    int_value,
                    double_value,
                    array_value,
                    kvlist_value,
                    bytes_value,
                },
            ),
            _ => None,
        }
    }
}

/// A `KeyValue` whose value has no more than `depth` levels.
pub open spec fn key_in(shape: Shape, depth: nat, num: Rendered) -> Option<KeyView>
    decreases depth, 2nat,
{
    match (
        text_in(named(shape, "key"@, "key"@)),
        maybe_in(
            named(shape, "value"@, "value"@),
            |value: Shape| any_in(value, depth, num),
        ),
    ) {
        (Some(key), Some(value)) => if shape is Object {
            Some(KeyView { key, value })
        } else {
            None
        },
        _ => None,
    }
}

/// The levels that JSON may nest.
pub open spec fn max_levels() -> nat {
    128
}

/// The attributes of what has some.
pub open spec fn attributes_in(shape: Shape, num: Rendered) -> Option<Seq<KeyView>> {
    list_in(
        named(shape, "attributes"@, "attributes"@),
        |item: Shape| key_in(item, max_levels(), num),
    )
}

pub open spec fn resource_in(shape: Shape, num: Rendered) -> Option<Seq<KeyView>> {
    if shape is Object {
        attributes_in(shape, num)
    } else {
        None
    }
}

pub open spec fn scope_in(shape: Shape, num: Rendered) -> Option<ScopeView> {
    match (
        text_in(named(shape, "name"@, "name"@)),
        text_in(named(shape, "version"@, "version"@)),
        attributes_in(shape, num),
    ) {
        (Some(name), Some(version), Some(attributes)) => if shape is Object {
            Some(ScopeView { name, version, attributes })
        } else {
            None
        },
        _ => None,
    }
}

/// A value that is a text is read back.
proof fn lemma_value(text: Seq<char>, depth: nat, num: Rendered)
    requires
        depth > 0,
    ensures
        any_in(value_shape(text_value(text)), depth, num) == Some(
            text_value(text),
        ),
{
    broadcast use group_members;

    lemma_names();
    let entries = seq![("stringValue"@, Shape::Text(text))];
    let shape = value_shape(text_value(text));
    assert(shape == Shape::Object(keyed(entries)));
    assert(named(shape, "stringValue"@, "string_value"@) == Some(Shape::Text(text)));
    assert(named(shape, "boolValue"@, "bool_value"@) is None);
    assert(named(shape, "intValue"@, "int_value"@) is None);
    assert(named(shape, "doubleValue"@, "double_value"@) is None);
    assert(named(shape, "arrayValue"@, "array_value"@) is None);
    assert(named(shape, "kvlistValue"@, "kvlist_value"@) is None);
    assert(named(shape, "bytesValue"@, "bytes_value"@) is None);
}

proof fn lemma_attribute(key: Seq<char>, text: Seq<char>, num: Rendered)
    ensures
        key_in(
            attribute_shape(KeyView { key, value: Some(text_value(text)) }),
            max_levels(),
            num,
        ) == Some(KeyView { key, value: Some(text_value(text)) }),
{
    broadcast use group_members;

    lemma_names();
    let kv = KeyView { key, value: Some(text_value(text)) };
    let inner = value_shape(text_value(text));
    let shape = attribute_shape(kv);
    let entries = seq![("key"@, Shape::Text(key)), ("value"@, inner)];
    assert(shape == Shape::Object(keyed(entries)));
    assert(entries =~= none().push(("key"@, Shape::Text(key))).push(("value"@, inner)));
    assert(named(shape, "key"@, "key"@) == Some(Shape::Text(key)));
    assert(named(shape, "value"@, "value"@) == Some(inner));
    assert(inner is Object);
    lemma_value(text, max_levels(), num);
}

/// Labels that are written as attributes are read back as what goes out.
proof fn lemma_attributes(labels: Seq<crate::labels::Pair>, map_names: bool, num: Rendered)
    ensures
        list_in(
            Some(attributes_shape(wire_attributes(labels, map_names))),
            |item: Shape| key_in(item, max_levels(), num),
        ) == Some(wire_attributes(labels, map_names)),
{
    let wire = wire_attributes(labels, map_names);
    let read = |item: Shape| key_in(item, max_levels(), num);
    let shape = |kv: KeyView| attribute_shape(kv);
    assert forall|i: int| 0 <= i < wire.len() implies read(shape(#[trigger] wire[i])) == Some(
        wire[i],
    ) by {
        lemma_attribute(wire[i].key, labels[i].1, num);
    }
    lemma_list(wire, shape, read, wire);
}

/// The resource that a stream goes out as is read back.
proof fn lemma_resource(labels: Seq<crate::labels::Pair>, num: Rendered)
    ensures
        ({
            let wire = wire_attributes(labels, true);
            let shape = resource_shape(Some(wire));
            shape is Object && resource_in(shape, num) == Some(wire)
        }),
{
    broadcast use group_members;

    lemma_names();
    let wire = wire_attributes(labels, true);
    let shape = resource_shape(Some(wire));
    assert(shape == Shape::Object(keyed(seq![("attributes"@, attributes_shape(wire))])));
    assert(named(shape, "attributes"@, "attributes"@) == Some(attributes_shape(wire)));
    lemma_attributes(labels, true, num);
}

/// An enum that was written as a number is read back.
proof fn lemma_enum(n: i32)
    requires
        n >= 0,
    ensures
        enum_in(Some(enum_shape(FlexEnumView::Number(n)))) == Some(FlexEnumView::Number(n)),
{
    law_a_written_integer_is_read_back(n as i64);
    lemma_untrimmed(n as nat);
}

/// A time that was written as a text is read back.
proof fn lemma_time(nanos: u64)
    ensures
        unsigned_in(Some(time_shape(Some(nanos)))) == Some(Some(nanos)),
{
    law_a_written_number_is_read_back(nanos as nat, u64::MAX as nat);
    lemma_untrimmed(nanos as nat);
}

// ---------------------------------------------------------------------------
// Logs
// ---------------------------------------------------------------------------

pub open spec fn log_in(shape: Shape, num: Rendered) -> Option<LogRecordView> {
    match (
        unsigned_in(named(shape, "timeUnixNano"@, "time_unix_nano"@)),
        unsigned_in(named(shape, "observedTimeUnixNano"@, "observed_time_unix_nano"@)),
        enum_in(named(shape, "severityNumber"@, "severity_number"@)),
        text_in(named(shape, "severityText"@, "severity_text"@)),
        maybe_in(
            named(shape, "body"@, "body"@),
            |body: Shape| any_in(body, max_levels(), num),
        ),
        attributes_in(shape, num),
        text_in(named(shape, "traceId"@, "trace_id"@)),
        text_in(named(shape, "spanId"@, "span_id"@)),
    ) {
        (
            Some(time_unix_nano),
            Some(observed_time_unix_nano),
            Some(severity_number),
            Some(severity_text),
            Some(body),
            Some(attributes),
            Some(trace_id),
            Some(span_id),
        ) => if shape is Object {
            Some(
                LogRecordView {
                    time_unix_nano,
                    observed_time_unix_nano,
                    severity_number,
                    severity_text,
                    body,
                    attributes,
                    trace_id,
                    span_id,
                },
            )
        } else {
            None
        },
        _ => None,
    }
}

pub open spec fn scope_logs_in(shape: Shape, num: Rendered) -> Option<ScopeLogsView> {
    match (
        maybe_in(named(shape, "scope"@, "scope"@), |scope: Shape| scope_in(scope, num)),
        list_in(
            named(shape, "logRecords"@, "log_records"@),
            |record: Shape| log_in(record, num),
        ),
    ) {
        (Some(scope), Some(log_records)) => if shape is Object {
            Some(ScopeLogsView { scope, log_records })
        } else {
            None
        },
        _ => None,
    }
}

pub open spec fn resource_logs_in(shape: Shape, num: Rendered) -> Option<ResourceLogsView> {
    match (
        maybe_in(
            named(shape, "resource"@, "resource"@),
            |resource: Shape| resource_in(resource, num),
        ),
        list_in(
            named(shape, "scopeLogs"@, "scope_logs"@),
            |scope: Shape| scope_logs_in(scope, num),
        ),
    ) {
        (Some(resource), Some(scope_logs)) => if shape is Object {
            Some(ResourceLogsView { resource, scope_logs })
        } else {
            None
        },
        _ => None,
    }
}

/// What a logs request in JSON holds.
pub open spec fn logs_in(shape: Shape, num: Rendered) -> Option<Seq<ResourceLogsView>> {
    if shape is Object {
        list_in(
            named(shape, "resourceLogs"@, "resource_logs"@),
            |group: Shape| resource_logs_in(group, num),
        )
    } else {
        None
    }
}

proof fn lemma_log(record: LogView, num: Rendered)
    ensures
        log_in(log_shape(record), num) == Some(wire_log(record)),
{
    broadcast use group_members;

    lemma_names();
    let wire = wire_log(record);
    let shape = log_shape(record);
    let e1 = seq![
        ("timeUnixNano"@, time_shape(wire.time_unix_nano)),
        ("observedTimeUnixNano"@, time_shape(wire.observed_time_unix_nano)),
        ("severityNumber"@, enum_shape(wire.severity_number)),
    ];
    let body = value_shape(text_value(record.body));
    let e2 = seq![("body"@, body), ("attributes"@, attributes_shape(wire.attributes))];
    assert(e1 =~= none().push(("timeUnixNano"@, time_shape(wire.time_unix_nano))).push(
        ("observedTimeUnixNano"@, time_shape(wire.observed_time_unix_nano)),
    ).push(("severityNumber"@, enum_shape(wire.severity_number))));
    assert(e2 =~= none().push(("body"@, body)).push(
        ("attributes"@, attributes_shape(wire.attributes)),
    ));
    let entries = log_members(wire, record.trace_id, record.span_id);
    assert(entries == e1 + member_unless_empty("severityText"@, wire.severity_text) + e2
        + member_if_some("traceId"@, record.trace_id) + member_if_some("spanId"@, record.span_id));
    assert(last_of(entries, "timeUnixNano"@) == Some(time_shape(wire.time_unix_nano)));
    assert(last_of(entries, "observedTimeUnixNano"@) == Some(
        time_shape(wire.observed_time_unix_nano),
    ));
    assert(last_of(entries, "severityNumber"@) == Some(enum_shape(wire.severity_number)));
    assert(last_of(entries, "body"@) == Some(body));
    assert(last_of(entries, "attributes"@) == Some(attributes_shape(wire.attributes)));
    assert(last_of(entries, "severity_text"@) is None);
    assert(last_of(entries, "trace_id"@) is None);
    assert(last_of(entries, "span_id"@) is None);
    assert(text_in(named(shape, "severityText"@, "severity_text"@)) == Some(wire.severity_text)) by {
        assert(wire.severity_text.len() == 0 ==> wire.severity_text =~= Seq::<char>::empty());
    }
    assert(text_in(named(shape, "traceId"@, "trace_id"@)) == Some(wire.trace_id));
    assert(text_in(named(shape, "spanId"@, "span_id"@)) == Some(wire.span_id));
    lemma_time(record.timestamp_nanos);
    lemma_enum(level_number(record.severity));
    lemma_value(record.body, max_levels(), num);
    lemma_attributes(record.attributes, false, num);
}

proof fn lemma_log_group(records: Seq<LogView>, group: Seq<int>, num: Rendered)
    ensures
        resource_logs_in(log_group_shape(records, group), num) == Some(
            wire_log_group(records, group),
        ),
{
    broadcast use group_members;

    lemma_names();
    let wire = wire_log_group(records, group);
    let shape = log_group_shape(records, group);
    let written = |i: int| log_shape(records[i]);
    let read = |record: Shape| log_in(record, num);
    let items = Shape::Array(group.map_values(|i: int| log_shape(records[i])));
    assert(items->Array_0 =~= group.map_values(written));
    let scope = object1("logRecords"@, items);
    let scopes = Shape::Array(seq![scope]);
    assert forall|k: int| 0 <= k < group.len() implies read(written(#[trigger] group[k])) == Some(
        wire.scope_logs[0].log_records[k],
    ) by {
        lemma_log(records[group[k]], num);
    }
    lemma_list(group, written, read, wire.scope_logs[0].log_records);
    assert(scope == Shape::Object(keyed(seq![("logRecords"@, items)])));
    assert(named(scope, "logRecords"@, "log_records"@) == Some(items));
    assert(named(scope, "scope"@, "scope"@) is None);
    assert(scope_logs_in(scope, num) == Some(wire.scope_logs[0]));
    let one = |s: Shape| s;
    let read_scope = |s: Shape| scope_logs_in(s, num);
    lemma_list(seq![scope], one, read_scope, wire.scope_logs);
    assert(seq![scope].map_values(one) =~= seq![scope]);
    let resource = resource_shape(wire.resource);
    lemma_resource(records[group[0]].stream, num);
    let entries = seq![("resource"@, resource), ("scopeLogs"@, scopes)];
    assert(entries =~= none().push(("resource"@, resource)).push(("scopeLogs"@, scopes)));
    assert(shape == Shape::Object(keyed(entries)));
    assert(named(shape, "resource"@, "resource"@) == Some(resource));
    assert(named(shape, "scopeLogs"@, "scope_logs"@) == Some(scopes));
}

/// Law: the JSON that log records go out as, read by the names of its members, is what goes
/// out.
pub proof fn law_written_json_logs_are_read(records: Seq<LogView>, num: Rendered)
    ensures
        logs_in(logs_shape(records), num) == Some(wire_logs(records)),
{
    broadcast use group_members;

    lemma_names();
    let groups = grouped(log_streams(records), records.len());
    let written = |group: Seq<int>| log_group_shape(records, group);
    let read = |group: Shape| resource_logs_in(group, num);
    assert forall|i: int| 0 <= i < groups.len() implies read(written(#[trigger] groups[i]))
        == Some(wire_logs(records)[i]) by {
        lemma_log_group(records, groups[i], num);
    }
    lemma_list(groups, written, read, wire_logs(records));
    let list = Shape::Array(groups.map_values(written));
    let shape = logs_shape(records);
    assert(shape == Shape::Object(keyed(seq![("resourceLogs"@, list)])));
    assert(named(shape, "resourceLogs"@, "resource_logs"@) == Some(list));
}

// ---------------------------------------------------------------------------
// Spans
// ---------------------------------------------------------------------------

pub open spec fn event_in(shape: Shape, num: Rendered) -> Option<EventJsonView> {
    match (
        unsigned_in(named(shape, "timeUnixNano"@, "time_unix_nano"@)),
        text_in(named(shape, "name"@, "name"@)),
        attributes_in(shape, num),
    ) {
        (Some(time_unix_nano), Some(name), Some(attributes)) => if shape is Object {
            Some(EventJsonView { time_unix_nano, name, attributes })
        } else {
            None
        },
        _ => None,
    }
}

pub open spec fn status_in(shape: Shape) -> Option<StatusView> {
    match (
        enum_in(named(shape, "code"@, "code"@)),
        text_in(named(shape, "message"@, "message"@)),
    ) {
        (Some(code), Some(message)) => if shape is Object {
            Some(StatusView { code, message })
        } else {
            None
        },
        _ => None,
    }
}

/// The ids and the name of a span.
pub open spec fn span_names_in(shape: Shape) -> Option<
    (Seq<char>, Seq<char>, Seq<char>, Seq<char>),
> {
    match (
        text_in(named(shape, "traceId"@, "trace_id"@)),
        text_in(named(shape, "spanId"@, "span_id"@)),
        text_in(named(shape, "parentSpanId"@, "parent_span_id"@)),
        text_in(named(shape, "name"@, "name"@)),
    ) {
        (Some(trace_id), Some(span_id), Some(parent), Some(name)) => Some(
            (trace_id, span_id, parent, name),
        ),
        _ => None,
    }
}

pub open spec fn span_in(shape: Shape, num: Rendered) -> Option<SpanJsonView> {
    match (
        span_names_in(shape),
        enum_in(named(shape, "kind"@, "kind"@)),
        unsigned_in(named(shape, "startTimeUnixNano"@, "start_time_unix_nano"@)),
        unsigned_in(named(shape, "endTimeUnixNano"@, "end_time_unix_nano"@)),
        attributes_in(shape, num),
        list_in(named(shape, "events"@, "events"@), |event: Shape| event_in(event, num)),
        maybe_in(named(shape, "status"@, "status"@), |status: Shape| status_in(status)),
    ) {
        (
            Some((trace_id, span_id, parent_span_id, name)),
            Some(kind),
            Some(start_time_unix_nano),
            Some(end_time_unix_nano),
            Some(attributes),
            Some(events),
            Some(status),
        ) => if shape is Object {
            Some(
                SpanJsonView {
                    trace_id,
                    span_id,
                    parent_span_id,
                    name,
                    kind,
                    start_time_unix_nano,
                    end_time_unix_nano,
                    attributes,
                    events,
                    status,
                },
            )
        } else {
            None
        },
        _ => None,
    }
}

pub open spec fn scope_spans_in(shape: Shape, num: Rendered) -> Option<ScopeSpansView> {
    match (
        maybe_in(named(shape, "scope"@, "scope"@), |scope: Shape| scope_in(scope, num)),
        list_in(named(shape, "spans"@, "spans"@), |span: Shape| span_in(span, num)),
    ) {
        (Some(scope), Some(spans)) => if shape is Object {
            Some(ScopeSpansView { scope, spans })
        } else {
            None
        },
        _ => None,
    }
}

pub open spec fn resource_spans_in(shape: Shape, num: Rendered) -> Option<ResourceSpansView> {
    match (
        maybe_in(
            named(shape, "resource"@, "resource"@),
            |resource: Shape| resource_in(resource, num),
        ),
        list_in(
            named(shape, "scopeSpans"@, "scope_spans"@),
            |scope: Shape| scope_spans_in(scope, num),
        ),
    ) {
        (Some(resource), Some(scope_spans)) => if shape is Object {
            Some(ResourceSpansView { resource, scope_spans })
        } else {
            None
        },
        _ => None,
    }
}

/// What a traces request in JSON holds.
pub open spec fn spans_in(shape: Shape, num: Rendered) -> Option<Seq<ResourceSpansView>> {
    if shape is Object {
        list_in(
            named(shape, "resourceSpans"@, "resource_spans"@),
            |group: Shape| resource_spans_in(group, num),
        )
    } else {
        None
    }
}

proof fn lemma_event(event: SpanEventView, num: Rendered)
    ensures
        event_in(event_shape(wire_event(event)), num) == Some(wire_event(event)),
{
    broadcast use group_members;

    lemma_names();
    let wire = wire_event(event);
    let shape = event_shape(wire);
    let entries = seq![
        ("timeUnixNano"@, time_shape(wire.time_unix_nano)),
        ("name"@, Shape::Text(wire.name)),
        ("attributes"@, attributes_shape(wire.attributes)),
    ];
    assert(entries =~= none().push(("timeUnixNano"@, time_shape(wire.time_unix_nano))).push(
        ("name"@, Shape::Text(wire.name)),
    ).push(("attributes"@, attributes_shape(wire.attributes))));
    assert(shape == Shape::Object(keyed(entries)));
    assert(last_of(entries, "timeUnixNano"@) == Some(time_shape(wire.time_unix_nano)));
    assert(last_of(entries, "name"@) == Some(Shape::Text(wire.name)));
    assert(last_of(entries, "attributes"@) == Some(attributes_shape(wire.attributes)));
    lemma_time(event.time_nanos);
    lemma_attributes(event.attributes, false, num);
}

proof fn lemma_status(code: i32, message: Seq<char>)
    requires
        code >= 0,
    ensures
        ({
            let status = StatusView { code: FlexEnumView::Number(code), message };
            status_shape(status) is Object && status_in(status_shape(status)) == Some(status)
        }),
{
    broadcast use group_members;

    lemma_names();
    let status = StatusView { code: FlexEnumView::Number(code), message };
    let shape = status_shape(status);
    let entries = seq![("code"@, enum_shape(status.code))] + member_unless_empty(
        "message"@,
        message,
    );
    assert(shape == Shape::Object(keyed(entries)));
    assert(last_of(entries, "code"@) == Some(enum_shape(status.code)));
    assert(message.len() == 0 ==> message =~= Seq::<char>::empty());
    assert(text_in(named(shape, "message"@, "message"@)) == Some(message));
    lemma_enum(code);
}

/// The members of a span, one by one.
proof fn lemma_span_members(span: SpanView)
    ensures
        ({
            let wire = wire_span(span);
            let shape = span_shape(span);
            &&& shape is Object
            &&& span_names_in(shape) == Some(
                (wire.trace_id, wire.span_id, wire.parent_span_id, wire.name),
            )
            &&& named(shape, "kind"@, "kind"@) == Some(enum_shape(wire.kind))
            &&& named(shape, "startTimeUnixNano"@, "start_time_unix_nano"@) == Some(
                time_shape(wire.start_time_unix_nano),
            )
            &&& named(shape, "endTimeUnixNano"@, "end_time_unix_nano"@) == Some(
                time_shape(wire.end_time_unix_nano),
            )
            &&& named(shape, "attributes"@, "attributes"@) == Some(
                attributes_shape(wire.attributes),
            )
            &&& named(shape, "events"@, "events"@) == (if wire.events.len() == 0 {
                None
            } else {
                Some(
                    Shape::Array(
                        wire.events.map_values(|event: EventJsonView| event_shape(event)),
                    ),
                )
            })
            &&& named(shape, "status"@, "status"@) == (match wire.status {
                Some(status) => Some(status_shape(status)),
                None => None,
            })
        }),
{
    broadcast use group_members;

    lemma_names();
    let wire = wire_span(span);
    let shape = span_shape(span);
    let (trace, id) = (Shape::Text(wire.trace_id), Shape::Text(wire.span_id));
    let e1 = seq![("traceId"@, trace), ("spanId"@, id)];
    let (name, kind) = (Shape::Text(wire.name), enum_shape(wire.kind));
    let start = time_shape(wire.start_time_unix_nano);
    let stop = time_shape(wire.end_time_unix_nano);
    let own = attributes_shape(wire.attributes);
    let e2 = seq![
        ("name"@, name),
        ("kind"@, kind),
        ("startTimeUnixNano"@, start),
        ("endTimeUnixNano"@, stop),
        ("attributes"@, own),
    ];
    let e3: Members = match wire.status {
        Some(status) => seq![("status"@, status_shape(status))],
        None => Seq::empty(),
    };
    assert(e1 =~= none().push(("traceId"@, trace)).push(("spanId"@, id)));
    assert(e2 =~= none().push(("name"@, name)).push(("kind"@, kind)).push(
        ("startTimeUnixNano"@, start),
    ).push(("endTimeUnixNano"@, stop)).push(("attributes"@, own)));
    let entries = span_members(wire, span.parent_span_id);
    assert(entries == e1 + member_if_some("parentSpanId"@, span.parent_span_id) + e2 + e3
        + events_member(wire.events));
    assert forall|asked: Seq<char>| asked != "status"@ implies #[trigger] last_of(e3, asked)
        is None by {}
    assert(last_of(e3, "status"@) == (match wire.status {
        Some(status) => Some(status_shape(status)),
        None => None,
    }));
    assert(last_of(entries, "traceId"@) == Some(trace));
    assert(last_of(entries, "spanId"@) == Some(id));
    assert(last_of(entries, "name"@) == Some(name));
    assert(last_of(entries, "parent_span_id"@) is None);
    assert(text_in(named(shape, "parentSpanId"@, "parent_span_id"@)) == Some(
        wire.parent_span_id,
    ));
}

proof fn lemma_span(span: SpanView, num: Rendered)
    ensures
        span_in(span_shape(span), num) == Some(wire_span(span)),
{
    let wire = wire_span(span);
    let shape = span_shape(span);
    lemma_span_members(span);
    lemma_enum(span.kind.number() as i32);
    lemma_time(span.start_nanos);
    lemma_time(span.end_nanos);
    lemma_attributes(span.attributes, false, num);
    let read = |event: Shape| event_in(event, num);
    let written = |event: EventJsonView| event_shape(event);
    assert forall|i: int| 0 <= i < wire.events.len() implies read(
        written(#[trigger] wire.events[i]),
    ) == Some(wire.events[i]) by {
        lemma_event(span.events[i], num);
    }
    lemma_list(wire.events, written, read, wire.events);
    assert(wire.events.len() == 0 ==> wire.events =~= Seq::empty());
    if let Some(status) = wire.status {
        lemma_status(span.status.number() as i32, span.status_message);
    }
}

proof fn lemma_span_group(spans: Seq<SpanView>, group: Seq<int>, num: Rendered)
    ensures
        resource_spans_in(span_group_shape(spans, group), num) == Some(
            wire_span_group(spans, group),
        ),
{
    broadcast use group_members;

    lemma_names();
    let wire = wire_span_group(spans, group);
    let shape = span_group_shape(spans, group);
    let written = |i: int| span_shape(spans[i]);
    let read = |span: Shape| span_in(span, num);
    let items = Shape::Array(group.map_values(|i: int| span_shape(spans[i])));
    assert(items->Array_0 =~= group.map_values(written));
    let scope = object1("spans"@, items);
    let scopes = Shape::Array(seq![scope]);
    assert forall|k: int| 0 <= k < group.len() implies read(written(#[trigger] group[k])) == Some(
        wire.scope_spans[0].spans[k],
    ) by {
        lemma_span(spans[group[k]], num);
    }
    lemma_list(group, written, read, wire.scope_spans[0].spans);
    assert(scope == Shape::Object(keyed(seq![("spans"@, items)])));
    assert(named(scope, "spans"@, "spans"@) == Some(items));
    assert(named(scope, "scope"@, "scope"@) is None);
    assert(scope_spans_in(scope, num) == Some(wire.scope_spans[0]));
    let one = |s: Shape| s;
    let read_scope = |s: Shape| scope_spans_in(s, num);
    lemma_list(seq![scope], one, read_scope, wire.scope_spans);
    assert(seq![scope].map_values(one) =~= seq![scope]);
    let resource = resource_shape(wire.resource);
    lemma_resource(spans[group[0]].stream, num);
    let entries = seq![("resource"@, resource), ("scopeSpans"@, scopes)];
    assert(entries =~= none().push(("resource"@, resource)).push(("scopeSpans"@, scopes)));
    assert(shape == Shape::Object(keyed(entries)));
    assert(named(shape, "resource"@, "resource"@) == Some(resource));
    assert(named(shape, "scopeSpans"@, "scope_spans"@) == Some(scopes));
}

/// Law: the JSON that spans go out as, read by the names of its members, is what goes out.
pub proof fn law_written_json_spans_are_read(spans: Seq<SpanView>, num: Rendered)
    ensures
        spans_in(spans_shape(spans), num) == Some(wire_spans(spans)),
{
    broadcast use group_members;

    lemma_names();
    let groups = grouped(span_streams(spans), spans.len());
    let written = |group: Seq<int>| span_group_shape(spans, group);
    let read = |group: Shape| resource_spans_in(group, num);
    assert forall|i: int| 0 <= i < groups.len() implies read(written(#[trigger] groups[i]))
        == Some(wire_spans(spans)[i]) by {
        lemma_span_group(spans, groups[i], num);
    }
    lemma_list(groups, written, read, wire_spans(spans));
    let list = Shape::Array(groups.map_values(written));
    let shape = spans_shape(spans);
    assert(shape == Shape::Object(keyed(seq![("resourceSpans"@, list)])));
    assert(named(shape, "resourceSpans"@, "resource_spans"@) == Some(list));
}

// ---------------------------------------------------------------------------
// Metrics
// ---------------------------------------------------------------------------

/// How doubles are read of JSON numbers: by their bits, as attribute values and as the bounds
/// of buckets.
pub struct Readings {
    pub bits: Doubles,
    pub num: Rendered,
    pub bound: spec_fn(Shape) -> Option<Seq<char>>,
}

pub open spec fn point_in(shape: Shape, how: Readings) -> Option<PointView> {
    match (
        unsigned_in(named(shape, "timeUnixNano"@, "time_unix_nano"@)),
        attributes_in(shape, how.num),
        double_in(named(shape, "asDouble"@, "as_double"@), how.bits),
        signed_in(named(shape, "asInt"@, "as_int"@)),
    ) {
        (Some(time_unix_nano), Some(attributes), Some(as_double), Some(as_int)) => if shape
            is Object {
            Some(PointView { time_unix_nano, attributes, as_double, as_int })
        } else {
            None
        },
        _ => None,
    }
}

pub open spec fn points_in(shape: Shape, how: Readings) -> Option<Seq<PointView>> {
    if shape is Object {
        list_in(
            named(shape, "dataPoints"@, "data_points"@),
            |point: Shape| point_in(point, how),
        )
    } else {
        None
    }
}

pub open spec fn sum_in(shape: Shape, how: Readings) -> Option<SumView> {
    match (
        points_in(shape, how),
        enum_in(named(shape, "aggregationTemporality"@, "aggregation_temporality"@)),
        flag_in(named(shape, "isMonotonic"@, "is_monotonic"@)),
    ) {
        (Some(data_points), Some(temporality), Some(is_monotonic)) => Some(
            SumView { data_points, temporality, is_monotonic },
        ),
        _ => None,
    }
}

pub open spec fn histogram_point_in(shape: Shape, how: Readings) -> Option<HistogramView> {
    match (
        unsigned_in(named(shape, "timeUnixNano"@, "time_unix_nano"@)),
        attributes_in(shape, how.num),
        unsigned_in(named(shape, "count"@, "count"@)),
        double_in(named(shape, "sum"@, "sum"@), how.bits),
        list_in(
            named(shape, "bucketCounts"@, "bucket_counts"@),
            |count: Shape| unsigned_in(Some(count)),
        ),
        list_in(named(shape, "explicitBounds"@, "explicit_bounds"@), how.bound),
    ) {
        (
            Some(time_unix_nano),
            Some(attributes),
            Some(count),
            Some(sum),
            Some(bucket_counts),
            Some(explicit_bounds),
        ) => if shape is Object {
            Some(
                HistogramView {
                    time_unix_nano,
                    attributes,
                    count,
                    sum,
                    bucket_counts,
                    explicit_bounds,
                },
            )
        } else {
            None
        },
        _ => None,
    }
}

pub open spec fn histogram_in(shape: Shape, how: Readings) -> Option<HistogramsView> {
    match (
        list_in(
            named(shape, "dataPoints"@, "data_points"@),
            |point: Shape| histogram_point_in(point, how),
        ),
        enum_in(named(shape, "aggregationTemporality"@, "aggregation_temporality"@)),
    ) {
        (Some(data_points), Some(temporality)) => if shape is Object {
            Some(HistogramsView { data_points, temporality })
        } else {
            None
        },
        _ => None,
    }
}

/// Whether there is a member, whatever it holds.
pub open spec fn is_there(member: Option<Shape>) -> bool {
    member is Some && !(member->Some_0 is Null)
}

pub open spec fn metric_in(shape: Shape, how: Readings) -> Option<MetricView> {
    match (
        text_in(named(shape, "name"@, "name"@)),
        text_in(named(shape, "unit"@, "unit"@)),
        maybe_in(named(shape, "gauge"@, "gauge"@), |gauge: Shape| points_in(gauge, how)),
        maybe_in(named(shape, "sum"@, "sum"@), |sum: Shape| sum_in(sum, how)),
        maybe_in(
            named(shape, "histogram"@, "histogram"@),
            |histogram: Shape| histogram_in(histogram, how),
        ),
    ) {
        (Some(name), Some(unit), Some(gauge), Some(sum), Some(histogram)) => if shape is Object {
            Some(
                MetricView {
                    name,
                    unit,
                    gauge,
                    sum,
                    histogram,
                    exponential_histogram: is_there(
                        named(shape, "exponentialHistogram"@, "exponential_histogram"@),
                    ),
                    summary: is_there(named(shape, "summary"@, "summary"@)),
                },
            )
        } else {
            None
        },
        _ => None,
    }
}

pub open spec fn scope_metrics_in(shape: Shape, how: Readings) -> Option<ScopeMetricsView> {
    match (
        maybe_in(named(shape, "scope"@, "scope"@), |scope: Shape| scope_in(scope, how.num)),
        list_in(named(shape, "metrics"@, "metrics"@), |metric: Shape| metric_in(metric, how)),
    ) {
        (Some(scope), Some(metrics)) => if shape is Object {
            Some(ScopeMetricsView { scope, metrics })
        } else {
            None
        },
        _ => None,
    }
}

pub open spec fn resource_metrics_in(shape: Shape, how: Readings) -> Option<ResourceMetricsView> {
    match (
        maybe_in(
            named(shape, "resource"@, "resource"@),
            |resource: Shape| resource_in(resource, how.num),
        ),
        list_in(
            named(shape, "scopeMetrics"@, "scope_metrics"@),
            |scope: Shape| scope_metrics_in(scope, how),
        ),
    ) {
        (Some(resource), Some(scope_metrics)) => if shape is Object {
            Some(ResourceMetricsView { resource, scope_metrics })
        } else {
            None
        },
        _ => None,
    }
}

/// What a metrics request in JSON holds.
pub open spec fn metrics_in(shape: Shape, how: Readings) -> Option<Seq<ResourceMetricsView>> {
    if shape is Object {
        list_in(
            named(shape, "resourceMetrics"@, "resource_metrics"@),
            |group: Shape| resource_metrics_in(group, how),
        )
    } else {
        None
    }
}

/// The samples of one group as they go out. A series says all there is, so the resource says
/// nothing.
pub open spec fn wire_sample_group(samples: Seq<SampleView>, group: Seq<int>) -> ResourceMetricsView {
    ResourceMetricsView {
        resource: Some(wire_attributes(Seq::empty(), true)),
        scope_metrics: seq![
            ScopeMetricsView {
                scope: None,
                metrics: group.map_values(|i: int| wire_sample(samples[i])),
            },
        ],
    }
}

/// Samples as they go out, grouped by series.
pub open spec fn wire_samples(samples: Seq<SampleView>) -> Seq<ResourceMetricsView> {
    grouped(sample_streams(samples), samples.len()).map_values(
        |group: Seq<int>| wire_sample_group(samples, group),
    )
}

/// Whether a value is written as a JSON number that is read back as the same double. One that
/// is not finite is not: JSON has no number for it.
pub open spec fn is_written(value: u64, numbers: spec_fn(u64) -> Shape, bits: Doubles) -> bool {
    !(numbers(value) is Null) && bits(numbers(value)) == Some(value)
}

proof fn lemma_point(sample: SampleView, numbers: spec_fn(u64) -> Shape, how: Readings)
    requires
        is_written(sample.value, numbers, how.bits),
    ensures
        point_in(point_shape(sample, numbers), how) == Some(wire_point(sample)),
{
    broadcast use group_members;

    lemma_names();
    let shape = point_shape(sample, numbers);
    let own = attributes_shape(wire_attributes(unnamed(sample.series), true));
    let time = nanos_shape(sample.timestamp_nanos);
    let value = numbers(sample.value);
    let entries = seq![("timeUnixNano"@, time), ("asDouble"@, value), ("attributes"@, own)];
    assert(entries =~= none().push(("timeUnixNano"@, time)).push(("asDouble"@, value)).push(
        ("attributes"@, own),
    ));
    assert(shape == Shape::Object(keyed(entries)));
    assert(last_of(entries, "timeUnixNano"@) == Some(time));
    assert(last_of(entries, "asDouble"@) == Some(value));
    assert(last_of(entries, "attributes"@) == Some(own));
    assert(named(shape, "asInt"@, "as_int"@) is None);
    lemma_time(sample.timestamp_nanos);
    assert(time == time_shape(Some(sample.timestamp_nanos)));
    lemma_attributes(unnamed(sample.series), true, how.num);
}

proof fn lemma_sample(sample: SampleView, numbers: spec_fn(u64) -> Shape, how: Readings)
    requires
        is_written(sample.value, numbers, how.bits),
    ensures
        metric_in(sample_shape(sample, numbers), how) == Some(wire_sample(sample)),
{
    broadcast use group_members;

    lemma_names();
    let shape = sample_shape(sample, numbers);
    let point = point_shape(sample, numbers);
    let points = Shape::Array(seq![point]);
    let name = Shape::Text(sample_name(sample.series));
    lemma_point(sample, numbers, how);
    let one = |s: Shape| s;
    let read = |s: Shape| point_in(s, how);
    lemma_list(seq![point], one, read, seq![wire_point(sample)]);
    assert(seq![point].map_values(one) =~= seq![point]);
    reveal_strlit("");
    if sample.kind == MetricKind::Counter {
        let claim = Shape::Number(decimal(0));
        let inner = seq![
            ("dataPoints"@, points),
            ("isMonotonic"@, Shape::Bool(false)),
            ("aggregationTemporality"@, claim),
        ];
        assert(inner =~= none().push(("dataPoints"@, points)).push(
            ("isMonotonic"@, Shape::Bool(false)),
        ).push(("aggregationTemporality"@, claim)));
        let sum = Shape::Object(keyed(inner));
        let entries = seq![("name"@, name), ("sum"@, sum)];
        assert(entries =~= none().push(("name"@, name)).push(("sum"@, sum)));
        assert(shape == Shape::Object(keyed(entries)));
        assert(last_of(inner, "dataPoints"@) == Some(points));
        assert(last_of(inner, "isMonotonic"@) == Some(Shape::Bool(false)));
        assert(last_of(inner, "aggregationTemporality"@) == Some(claim));
        lemma_enum(0);
        assert(sum_in(sum, how) == wire_sample(sample).sum);
        assert(last_of(entries, "name"@) == Some(name));
        assert(last_of(entries, "sum"@) == Some(sum));
        lemma_absent(entries);
        assert(last_of(entries, "gauge"@) is None);
    } else {
        let gauge = object1("dataPoints"@, points);
        assert(gauge == Shape::Object(keyed(seq![("dataPoints"@, points)])));
        assert(named(gauge, "dataPoints"@, "data_points"@) == Some(points));
        let entries = seq![("name"@, name), ("gauge"@, gauge)];
        assert(entries =~= none().push(("name"@, name)).push(("gauge"@, gauge)));
        assert(shape == Shape::Object(keyed(entries)));
        assert(points_in(gauge, how) == wire_sample(sample).gauge);
        assert(last_of(entries, "name"@) == Some(name));
        assert(last_of(entries, "gauge"@) == Some(gauge));
        lemma_absent(entries);
        assert(last_of(entries, "sum"@) is None);
    }
}

/// What no sample is written with.
proof fn lemma_absent(entries: Members)
    requires
        entries.len() == 2,
        entries[0].0 == "name"@,
        entries[1].0 == "sum"@ || entries[1].0 == "gauge"@,
    ensures
        ({
            let shape = Shape::Object(keyed(entries));
            &&& named(shape, "unit"@, "unit"@) is None
            &&& named(shape, "histogram"@, "histogram"@) is None
            &&& named(shape, "exponentialHistogram"@, "exponential_histogram"@) is None
            &&& named(shape, "summary"@, "summary"@) is None
        }),
{
    broadcast use group_members;

    lemma_names();
    assert(entries =~= none().push(entries[0]).push(entries[1]));
}

proof fn lemma_sample_group(
    samples: Seq<SampleView>,
    group: Seq<int>,
    numbers: spec_fn(u64) -> Shape,
    how: Readings,
)
    requires
        forall|k: int|
            0 <= k < group.len() ==> 0 <= #[trigger] group[k] < samples.len() && is_written(
                samples[group[k]].value,
                numbers,
                how.bits,
            ),
    ensures
        resource_metrics_in(sample_group_shape(samples, group, numbers), how) == Some(
            wire_sample_group(samples, group),
        ),
{
    broadcast use group_members;

    lemma_names();
    let wire = wire_sample_group(samples, group);
    let shape = sample_group_shape(samples, group, numbers);
    let written = |i: int| sample_shape(samples[i], numbers);
    let read = |metric: Shape| metric_in(metric, how);
    let items = Shape::Array(group.map_values(|i: int| sample_shape(samples[i], numbers)));
    assert(items->Array_0 =~= group.map_values(written));
    let scope = object1("metrics"@, items);
    let scopes = Shape::Array(seq![scope]);
    assert forall|k: int| 0 <= k < group.len() implies read(written(#[trigger] group[k])) == Some(
        wire.scope_metrics[0].metrics[k],
    ) by {
        lemma_sample(samples[group[k]], numbers, how);
    }
    lemma_list(group, written, read, wire.scope_metrics[0].metrics);
    assert(scope == Shape::Object(keyed(seq![("metrics"@, items)])));
    assert(named(scope, "metrics"@, "metrics"@) == Some(items));
    assert(named(scope, "scope"@, "scope"@) is None);
    assert(scope_metrics_in(scope, how) == Some(wire.scope_metrics[0]));
    let one = |s: Shape| s;
    let read_scope = |s: Shape| scope_metrics_in(s, how);
    lemma_list(seq![scope], one, read_scope, wire.scope_metrics);
    assert(seq![scope].map_values(one) =~= seq![scope]);
    let resource = resource_shape(wire.resource);
    lemma_resource(Seq::empty(), how.num);
    let entries = seq![("resource"@, resource), ("scopeMetrics"@, scopes)];
    assert(entries =~= none().push(("resource"@, resource)).push(("scopeMetrics"@, scopes)));
    assert(shape == Shape::Object(keyed(entries)));
    assert(named(shape, "resource"@, "resource"@) == Some(resource));
    assert(named(shape, "scopeMetrics"@, "scope_metrics"@) == Some(scopes));
}

/// Law: the JSON that samples go out as, read by the names of its members, is what goes out,
/// where every value is a number that JSON can write.
pub proof fn law_written_json_samples_are_read(
    samples: Seq<SampleView>,
    numbers: spec_fn(u64) -> Shape,
    how: Readings,
)
    requires
        forall|i: int|
            0 <= i < samples.len() ==> is_written(
                (#[trigger] samples[i]).value,
                numbers,
                how.bits,
            ),
    ensures
        metrics_in(samples_shape(samples, numbers), how) == Some(wire_samples(samples)),
{
    broadcast use group_members;

    lemma_names();
    let groups = grouped(sample_streams(samples), samples.len());
    let written = |group: Seq<int>| sample_group_shape(samples, group, numbers);
    let read = |group: Shape| resource_metrics_in(group, how);
    lemma_grouped(sample_streams(samples), samples.len());
    assert forall|i: int| 0 <= i < groups.len() implies read(written(#[trigger] groups[i]))
        == Some(wire_samples(samples)[i]) by {
        assert forall|k: int| 0 <= k < groups[i].len() implies 0 <= #[trigger] groups[i][k]
            < samples.len() && is_written(samples[groups[i][k]].value, numbers, how.bits) by {
            assert(0 <= groups[i][k] < samples.len());
        }
        lemma_sample_group(samples, groups[i], numbers, how);
    }
    lemma_list(groups, written, read, wire_samples(samples));
    let list = Shape::Array(groups.map_values(written));
    let shape = samples_shape(samples, numbers);
    assert(shape == Shape::Object(keyed(seq![("resourceMetrics"@, list)])));
    assert(named(shape, "resourceMetrics"@, "resource_metrics"@) == Some(list));
}

// ---------------------------------------------------------------------------
// There and back
// ---------------------------------------------------------------------------

/// Law: log records survive being written as JSON and read of it. What decoding keeps of the
/// JSON is every record as it was, group by group, with none refused, rescaled or cut.
pub proof fn law_logs_survive_json(records: Seq<LogView>, ctx: ContextView, num: Rendered)
    requires
        forall|i: int| 0 <= i < records.len() ==> stored_log(#[trigger] records[i], ctx),
    ensures
        match logs_in(logs_shape(records), num) {
            Some(data) => {
                let groups = grouped(log_streams(records), records.len());
                let all = in_groups(records, groups, groups.len());
                let after = crate::logs::data_tally(data, data.len(), ctx, allowance(ctx.limits));
                &&& after == clean(all, ctx)
                &&& !after.over() ==> after.records == all && after.rejections.len() == 0
                    && after.rescaled == 0 && after.truncated == 0
            },
            None => false,
        },
{
    law_written_json_logs_are_read(records, num);
    law_log_records_round_trip(records, ctx);
}

/// Law: spans survive being written as JSON and read of it, their stream labels, attributes
/// and events with them.
pub proof fn law_spans_survive_json(spans: Seq<SpanView>, ctx: ContextView, num: Rendered)
    requires
        forall|i: int| 0 <= i < spans.len() ==> stored_span(#[trigger] spans[i], ctx),
    ensures
        match spans_in(spans_shape(spans), num) {
            Some(data) => {
                let groups = grouped(span_streams(spans), spans.len());
                let all = in_groups(spans, groups, groups.len());
                let after = crate::traces::data_tally(
                    data,
                    data.len(),
                    ctx,
                    allowance(ctx.limits),
                );
                &&& after == clean(all, ctx)
                &&& !after.over() ==> after.records == all && after.rejections.len() == 0
                    && after.rescaled == 0 && after.truncated == 0
            },
            None => false,
        },
{
    law_written_json_spans_are_read(spans, num);
    law_spans_round_trip(spans, ctx);
}

/// Law: one span is read of its JSON as it was.
pub proof fn law_a_span_survives_json(span: SpanView, ctx: ContextView, num: Rendered)
    requires
        stored_span(span, ctx),
        span_cost(span) <= allowance(ctx.limits),
    ensures
        match spans_in(spans_shape(seq![span]), num) {
            Some(data) => {
                let after = crate::traces::data_tally(
                    data,
                    data.len(),
                    ctx,
                    allowance(ctx.limits),
                );
                &&& !after.over()
                &&& after.records == seq![span]
                &&& after.rejections.len() == 0
                &&& after.rescaled == 0
            },
            None => false,
        },
{
    let spans = seq![span];
    law_spans_survive_json(spans, ctx, num);
    let keys = span_streams(spans);
    let groups = grouped(keys, 1);
    reveal_with_fuel(grouped, 2);
    assert(grouped(keys, 0) =~= Seq::<Seq<int>>::empty());
    assert(groups =~= seq![seq![0int]]);
    let all = in_groups(spans, groups, groups.len());
    reveal_with_fuel(in_groups, 2);
    assert(all =~= spans);
    assert(spans.drop_last() =~= Seq::<SpanView>::empty());
    let none = Tally::<SpanView>::none(allowance(ctx.limits));
    assert(none.with_records(spans.drop_last()) == none);
    assert(clean(spans, ctx) == none.with(Ok(span)));
}

} // verus!
