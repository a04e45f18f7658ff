//! Records back out as OTLP JSON.
//!
//! The inverse of the decoders: encoding a record and decoding it again gives the record
//! back. Stream labels that decoding made from dotted names are mapped back to them;
//! anything else is written as it is stored, since reversing underscores in general would
//! be a guess.
use vstd::prelude::*;

use crate::grouping::{
    group_by_labels, grouped, label_views, lemma_grouped, numbers, places, sound_groups,
};
use crate::json::{
    json_array, json_bool, json_number, json_object, json_shape, json_string, keyed,
    lemma_members_push, members, shapes, Shape,
};
use crate::labels::{lookup, Labels, Pair, METRIC_NAME_LABEL};
use crate::logs::{LogRecordView, ResourceLogsView, ScopeLogsView};
use crate::otlp::{AnyView, FlexEnumView, KeyView};
use crate::record::{
    LogRecord, LogView, MetricKind, MetricSample, SampleView, Severity, SpanEvent, SpanEventView,
    SpanRecord, SpanStatus, SpanView,
};
use crate::text::{decimal, decimal_text, same, views};
use crate::traces::{EventJsonView, ResourceSpansView, ScopeSpansView, SpanJsonView, StatusView};

verus! {

// ---------------------------------------------------------------------------
// Names and numbers
// ---------------------------------------------------------------------------

/// The dotted name of a stream label that decoding made from one.
pub open spec fn dotted_name(name: Seq<char>) -> Seq<char> {
    if name == "service_name"@ {
        "service.name"@
    } else if name == "service_namespace"@ {
        "service.namespace"@
    } else if name == "service_version"@ {
        "service.version"@
    } else if name == "deployment_environment"@ {
        "deployment.environment"@
    } else if name == "deployment_environment_name"@ {
        "deployment.environment.name"@
    } else {
        name
    }
}

/// The dotted name of a stream label that decoding made from one; another name as it is.
pub fn dotted(name: &str) -> (r: &str)
    ensures
        r@ == dotted_name(name@),
{
    if same(name, "service_name") {
        "service.name"
    } else if same(name, "service_namespace") {
        "service.namespace"
    } else if same(name, "service_version") {
        "service.version"
    } else if same(name, "deployment_environment") {
        "deployment.environment"
    } else if same(name, "deployment_environment_name") {
        "deployment.environment.name"
    } else {
        name
    }
}

/// The number that stands for a level: the lowest of its four.
pub open spec fn level_number(severity: Severity) -> i32 {
    match severity {
        Severity::Trace => 1,
        Severity::Debug => 5,
        Severity::Info => 9,
        Severity::Warn => 13,
        Severity::Error => 17,
        Severity::Fatal => 21,
        Severity::Unknown => 0,
    }
}

/// The number that stands for a level. It is read back as the same level.
pub fn severity_number(severity: Severity) -> (n: i32)
    ensures
        n == level_number(severity),
        Severity::numbered(n as int) == severity,
{
    match severity {
        Severity::Trace => 1,
        Severity::Debug => 5,
        Severity::Info => 9,
        Severity::Warn => 13,
        Severity::Error => 17,
        Severity::Fatal => 21,
        Severity::Unknown => 0,
    }
}

// ---------------------------------------------------------------------------
// Building objects
// ---------------------------------------------------------------------------

/// Adds a member to an object that is being built.
fn put_entry(entries: &mut Vec<(String, serde_json::Value)>, key: &str, value: serde_json::Value)
    ensures
        members(final(entries)@) == members(old(entries)@).push((key@, json_shape(&value))),
{
    let entry: (String, serde_json::Value) = (key.to_owned(), value);
    proof {
        lemma_members_push(entries@, entry);
    }
    entries.push(entry);
}

/// An object with one member.
pub open spec fn object1(key: Seq<char>, value: Shape) -> Shape {
    Shape::Object(keyed(seq![(key, value)]))
}

/// An object with two members.
pub open spec fn object2(key: Seq<char>, value: Shape, key2: Seq<char>, value2: Shape) -> Shape {
    Shape::Object(keyed(seq![(key, value), (key2, value2)]))
}

fn make1(key: &str, value: serde_json::Value) -> (json: serde_json::Value)
    ensures
        json_shape(&json) == object1(key@, json_shape(&value)),
{
    let ghost shape = json_shape(&value);
    let mut entries: Vec<(String, serde_json::Value)> = Vec::new();
    assert(members(entries@) =~= Seq::empty());
    put_entry(&mut entries, key, value);
    assert(members(entries@) =~= seq![(key@, shape)]);
    json_object(entries)
}

fn make2(key: &str, value: serde_json::Value, key2: &str, value2: serde_json::Value) -> (json:
    serde_json::Value)
    ensures
        json_shape(&json) == object2(key@, json_shape(&value), key2@, json_shape(&value2)),
{
    let ghost shape = json_shape(&value);
    let ghost shape2 = json_shape(&value2);
    let mut entries: Vec<(String, serde_json::Value)> = Vec::new();
    assert(members(entries@) =~= Seq::empty());
    put_entry(&mut entries, key, value);
    put_entry(&mut entries, key2, value2);
    assert(members(entries@) =~= seq![(key@, shape), (key2@, shape2)]);
    json_object(entries)
}

fn make_list(value: serde_json::Value) -> (json: serde_json::Value)
    ensures
        json_shape(&json) == Shape::Array(seq![json_shape(&value)]),
{
    let ghost shape = json_shape(&value);
    let mut list: Vec<serde_json::Value> = Vec::new();
    list.push(value);
    assert(shapes(list@) =~= seq![shape]);
    json_array(list)
}

/// A 64-bit number as OTLP JSON writes it: a text, since a JSON number cannot hold a
/// nanosecond timestamp in any reader.
pub open spec fn nanos_shape(value: u64) -> Shape {
    Shape::Text(decimal(value as nat))
}

fn nanos(value: u64) -> (json: serde_json::Value)
    ensures
        json_shape(&json) == nanos_shape(value),
{
    json_string(decimal_text(value))
}

fn text(value: &str) -> (json: serde_json::Value)
    ensures
        json_shape(&json) == Shape::Text(value@),
{
    json_string(value.to_owned())
}

// ---------------------------------------------------------------------------
// Attributes
// ---------------------------------------------------------------------------

/// A text as an OTLP value.
pub open spec fn text_value(value: Seq<char>) -> AnyView {
    AnyView { string_value: Some(value), ..AnyView::none() }
}

/// Labels as OTLP attributes, with dotted names mapped back where `map_names`.
pub open spec fn wire_attributes(labels: Seq<Pair>, map_names: bool) -> Seq<KeyView> {
    labels.map_values(
        |label: Pair|
            KeyView {
                key: if map_names {
                    dotted_name(label.0)
                } else {
                    label.0
                },
                value: Some(text_value(label.1)),
            },
    )
}

/// An OTLP value that is a text, in JSON.
pub open spec fn value_shape(value: AnyView) -> Shape {
    match value.string_value {
        Some(text) => object1("stringValue"@, Shape::Text(text)),
        None => object1("stringValue"@, Shape::Null),
    }
}

/// An attribute in JSON.
pub open spec fn attribute_shape(kv: KeyView) -> Shape {
    object2(
        "key"@,
        Shape::Text(kv.key),
        "value"@,
        match kv.value {
            Some(value) => value_shape(value),
            None => Shape::Null,
        },
    )
}

/// Attributes in JSON.
pub open spec fn attributes_shape(attributes: Seq<KeyView>) -> Shape {
    Shape::Array(attributes.map_values(|kv: KeyView| attribute_shape(kv)))
}

fn attribute(key: &str, value: &str) -> (json: serde_json::Value)
    ensures
        json_shape(&json) == attribute_shape(
            KeyView { key: key@, value: Some(text_value(value@)) },
        ),
{
    make2("key", text(key), "value", make1("stringValue", text(value)))
}

fn attributes(labels: &Labels, map_names: bool) -> (json: serde_json::Value)
    ensures
        json_shape(&json) == attributes_shape(wire_attributes(labels@, map_names)),
{
    let ghost wire = wire_attributes(labels@, map_names);
    let mut list: Vec<serde_json::Value> = Vec::new();
    let mut i: usize = 0;
    while i < labels.len()
        invariant
            i <= labels@.len(),
            wire == wire_attributes(labels@, map_names),
            list@.len() == i,
            forall|j: int| 0 <= j < i ==> json_shape(&#[trigger] list@[j]) == attribute_shape(wire[j]),
        decreases labels@.len() - i,
    {
        let name: &str = labels.name_at(i);
        let key: &str = if map_names {
            dotted(name)
        } else {
            name
        };
        list.push(attribute(key, labels.value_at(i)));
        i += 1;
    }
    assert(shapes(list@) =~= wire.map_values(|kv: KeyView| attribute_shape(kv)));
    json_array(list)
}

// ---------------------------------------------------------------------------
// Logs
// ---------------------------------------------------------------------------

pub open spec fn id_text(id: Option<Seq<char>>) -> Seq<char> {
    match id {
        Some(id) => id,
        None => Seq::empty(),
    }
}

/// A log record as it goes out.
pub open spec fn wire_log(record: LogView) -> LogRecordView {
    LogRecordView {
        time_unix_nano: Some(record.timestamp_nanos),
        observed_time_unix_nano: Some(record.timestamp_nanos),
        severity_number: FlexEnumView::Number(level_number(record.severity)),
        severity_text: record.severity_text,
        body: Some(text_value(record.body)),
        attributes: wire_attributes(record.attributes, false),
        trace_id: id_text(record.trace_id),
        span_id: id_text(record.span_id),
    }
}

/// The log records of one group as they go out: the stream is the resource.
pub open spec fn wire_log_group(records: Seq<LogView>, group: Seq<int>) -> ResourceLogsView {
    ResourceLogsView {
        resource: Some(wire_attributes(records[group[0]].stream, true)),
        scope_logs: seq![
            ScopeLogsView {
                scope: None,
                log_records: group.map_values(|i: int| wire_log(records[i])),
            },
        ],
    }
}

pub open spec fn log_streams(records: Seq<LogView>) -> Seq<Seq<Pair>> {
    records.map_values(|record: LogView| record.stream)
}

/// Log records as they go out, grouped by stream.
pub open spec fn wire_logs(records: Seq<LogView>) -> Seq<ResourceLogsView> {
    grouped(log_streams(records), records.len()).map_values(
        |group: Seq<int>| wire_log_group(records, group),
    )
}

/// A member that is written only where its text is not empty.
pub open spec fn member_unless_empty(key: Seq<char>, value: Seq<char>) -> Seq<(Seq<char>, Shape)> {
    if value.len() == 0 {
        Seq::empty()
    } else {
        seq![(key, Shape::Text(value))]
    }
}

pub open spec fn time_shape(time: Option<u64>) -> Shape {
    match time {
        Some(nanos) => nanos_shape(nanos),
        None => Shape::Null,
    }
}

pub open spec fn enum_shape(number: FlexEnumView) -> Shape {
    match number {
        FlexEnumView::Number(n) => Shape::Number(decimal(n as nat)),
        _ => Shape::Null,
    }
}

/// A member that is written only where there is a text.
pub open spec fn member_if_some(key: Seq<char>, value: Option<Seq<char>>) -> Seq<
    (Seq<char>, Shape),
> {
    match value {
        Some(text) => seq![(key, Shape::Text(text))],
        None => Seq::empty(),
    }
}

/// The members of a log record in JSON, from what goes out and its ids.
pub open spec fn log_members(
    record: LogRecordView,
    trace_id: Option<Seq<char>>,
    span_id: Option<Seq<char>>,
) -> Seq<(Seq<char>, Shape)> {
    seq![
        ("timeUnixNano"@, time_shape(record.time_unix_nano)),
        ("observedTimeUnixNano"@, time_shape(record.observed_time_unix_nano)),
        ("severityNumber"@, enum_shape(record.severity_number)),
    ] + member_unless_empty("severityText"@, record.severity_text) + seq![
        (
            "body"@,
            match record.body {
                Some(body) => value_shape(body),
                None => Shape::Null,
            },
        ),
        ("attributes"@, attributes_shape(record.attributes)),
    ] + member_if_some("traceId"@, trace_id) + member_if_some("spanId"@, span_id)
}

/// A log record in JSON.
pub open spec fn log_shape(record: LogView) -> Shape {
    Shape::Object(keyed(log_members(wire_log(record), record.trace_id, record.span_id)))
}

/// A resource in JSON.
pub open spec fn resource_shape(resource: Option<Seq<KeyView>>) -> Shape {
    match resource {
        Some(attributes) => object1("attributes"@, attributes_shape(attributes)),
        None => Shape::Null,
    }
}

/// The log records of one group in JSON.
pub open spec fn log_group_shape(records: Seq<LogView>, group: Seq<int>) -> Shape {
    object2(
        "resource"@,
        resource_shape(wire_log_group(records, group).resource),
        "scopeLogs"@,
        Shape::Array(
            seq![
                object1(
                    "logRecords"@,
                    Shape::Array(group.map_values(|i: int| log_shape(records[i]))),
                ),
            ],
        ),
    )
}

/// Log records in JSON, one resource per stream.
pub open spec fn logs_shape(records: Seq<LogView>) -> Shape {
    object1(
        "resourceLogs"@,
        Shape::Array(
            grouped(log_streams(records), records.len()).map_values(
                |group: Seq<int>| log_group_shape(records, group),
            ),
        ),
    )
}

fn encode_log(record: &LogRecord) -> (json: serde_json::Value)
    ensures
        json_shape(&json) == log_shape(record@),
{
    let ghost wire = wire_log(record@);
    let mut entries: Vec<(String, serde_json::Value)> = Vec::new();
    assert(members(entries@) =~= Seq::empty());
    put_entry(&mut entries, "timeUnixNano", nanos(record.timestamp_nanos));
    put_entry(&mut entries, "observedTimeUnixNano", nanos(record.timestamp_nanos));
    let level: i32 = severity_number(record.severity);
    put_entry(&mut entries, "severityNumber", json_number(level as i64));
    assert(members(entries@) =~= seq![
        ("timeUnixNano"@, time_shape(wire.time_unix_nano)),
        ("observedTimeUnixNano"@, time_shape(wire.observed_time_unix_nano)),
        ("severityNumber"@, enum_shape(wire.severity_number)),
    ]);
    if !record.severity_text.as_str().is_empty() {
        put_entry(&mut entries, "severityText", text(record.severity_text.as_str()));
    }
    put_entry(&mut entries, "body", make1("stringValue", text(record.body.as_str())));
    put_entry(&mut entries, "attributes", attributes(&record.attributes, false));
    match &record.trace_id {
        Some(id) => put_entry(&mut entries, "traceId", text(id.as_str())),
        None => {},
    }
    match &record.span_id {
        Some(id) => put_entry(&mut entries, "spanId", text(id.as_str())),
        None => {},
    }
    assert(members(entries@) =~= log_members(wire, record@.trace_id, record@.span_id));
    json_object(entries)
}

fn log_stream_list(records: &Vec<LogRecord>) -> (streams: Vec<&Labels>)
    ensures
        label_views(streams@) == log_streams(views(records@)),
        streams@.len() == records@.len(),
{
    let ghost all = views(records@);
    let mut streams: Vec<&Labels> = Vec::new();
    let mut i: usize = 0;
    while i < records.len()
        invariant
            i <= records@.len(),
            all == views(records@),
            streams@.len() == i,
            forall|j: int| 0 <= j < i ==> (#[trigger] streams@[j])@ == all[j].stream,
        decreases records@.len() - i,
    {
        streams.push(&records[i].stream);
        i += 1;
    }
    assert(label_views(streams@) =~= log_streams(all));
    streams
}

/// `{"resourceLogs":[…]}`, one resource per stream.
pub fn encode_logs(records: &Vec<LogRecord>) -> (json: serde_json::Value)
    ensures
        json_shape(&json) == logs_shape(views(records@)),
{
    let ghost all = views(records@);
    let streams: Vec<&Labels> = log_stream_list(records);
    let groups: Vec<Vec<usize>> = group_by_labels(&streams);
    let ghost split = grouped(log_streams(all), all.len());
    proof {
        lemma_grouped(log_streams(all), all.len());
    }
    let mut resources: Vec<serde_json::Value> = Vec::new();
    let mut g: usize = 0;
    while g < groups.len()
        invariant
            g <= groups@.len(),
            all == views(records@),
            split == places(groups@),
            sound_groups(split, log_streams(all), all.len() as int),
            resources@.len() == g,
            forall|j: int|
                0 <= j < g ==> json_shape(&#[trigger] resources@[j]) == log_group_shape(
                    all,
                    split[j],
                ),
        decreases groups@.len() - g,
    {
        assert(split[g as int] == numbers(groups@[g as int]@));
        resources.push(encode_log_group(records, &groups[g]));
        g += 1;
    }
    assert(shapes(resources@) =~= split.map_values(
        |group: Seq<int>| log_group_shape(all, group),
    ));
    make1("resourceLogs", json_array(resources))
}

fn encode_log_group(records: &Vec<LogRecord>, group: &Vec<usize>) -> (json: serde_json::Value)
    requires
        group@.len() > 0,
        forall|k: int|
            0 <= k < group@.len() ==> 0 <= #[trigger] numbers(group@)[k] < records@.len(),
    ensures
        json_shape(&json) == log_group_shape(views(records@), numbers(group@)),
{
    let ghost all = views(records@);
    let ghost at = numbers(group@);
    let mut entries: Vec<serde_json::Value> = Vec::new();
    let mut k: usize = 0;
    while k < group.len()
        invariant
            k <= group@.len(),
            all == views(records@),
            at == numbers(group@),
            forall|k: int| 0 <= k < group@.len() ==> 0 <= #[trigger] at[k] < records@.len(),
            entries@.len() == k,
            forall|j: int|
                0 <= j < k ==> json_shape(&#[trigger] entries@[j]) == log_shape(all[at[j]]),
        decreases group@.len() - k,
    {
        assert(at[k as int] == group@[k as int]);
        assert(all[at[k as int]] == records@[at[k as int]]@);
        entries.push(encode_log(&records[group[k]]));
        k += 1;
    }
    assert(shapes(entries@) =~= at.map_values(|i: int| log_shape(all[i])));
    assert(at[0] == group@[0]);
    assert(all[at[0]] == records@[at[0]]@);
    let first: &LogRecord = &records[group[0]];
    make2(
        "resource",
        make1("attributes", attributes(&first.stream, true)),
        "scopeLogs",
        make_list(make1("logRecords", json_array(entries))),
    )
}

// ---------------------------------------------------------------------------
// Spans
// ---------------------------------------------------------------------------

pub open spec fn wire_event(event: SpanEventView) -> EventJsonView {
    EventJsonView {
        time_unix_nano: Some(event.time_nanos),
        name: event.name,
        attributes: wire_attributes(event.attributes, false),
    }
}

/// Whether a span says how it ended. An unset status is left out, so that a receiver does
/// not record one that nobody gave.
pub open spec fn has_status(span: SpanView) -> bool {
    span.status != SpanStatus::Unset || span.status_message.len() > 0
}

/// A span as it goes out.
pub open spec fn wire_span(span: SpanView) -> SpanJsonView {
    SpanJsonView {
        trace_id: span.trace_id,
        span_id: span.span_id,
        parent_span_id: id_text(span.parent_span_id),
        name: span.name,
        kind: FlexEnumView::Number(span.kind.number() as i32),
        start_time_unix_nano: Some(span.start_nanos),
        end_time_unix_nano: Some(span.end_nanos),
        attributes: wire_attributes(span.attributes, false),
        events: span.events.map_values(|event: SpanEventView| wire_event(event)),
        status: if has_status(span) {
            Some(
                StatusView {
                    code: FlexEnumView::Number(span.status.number() as i32),
                    message: span.status_message,
                },
            )
        } else {
            None
        },
    }
}

/// The spans of one group as they go out.
pub open spec fn wire_span_group(spans: Seq<SpanView>, group: Seq<int>) -> ResourceSpansView {
    ResourceSpansView {
        resource: Some(wire_attributes(spans[group[0]].stream, true)),
        scope_spans: seq![
            ScopeSpansView { scope: None, spans: group.map_values(|i: int| wire_span(spans[i])) },
        ],
    }
}

pub open spec fn span_streams(spans: Seq<SpanView>) -> Seq<Seq<Pair>> {
    spans.map_values(|span: SpanView| span.stream)
}

/// Spans as they go out, grouped by stream.
pub open spec fn wire_spans(spans: Seq<SpanView>) -> Seq<ResourceSpansView> {
    grouped(span_streams(spans), spans.len()).map_values(
        |group: Seq<int>| wire_span_group(spans, group),
    )
}

pub open spec fn event_shape(event: EventJsonView) -> Shape {
    Shape::Object(
        keyed(
            seq![
                ("timeUnixNano"@, time_shape(event.time_unix_nano)),
                ("name"@, Shape::Text(event.name)),
                ("attributes"@, attributes_shape(event.attributes)),
            ],
        ),
    )
}

pub open spec fn status_shape(status: StatusView) -> Shape {
    Shape::Object(
        keyed(
            seq![("code"@, enum_shape(status.code))] + member_unless_empty(
                "message"@,
                status.message,
            ),
        ),
    )
}

pub open spec fn events_member(events: Seq<EventJsonView>) -> Seq<(Seq<char>, Shape)> {
    if events.len() == 0 {
        Seq::empty()
    } else {
        seq![
            (
                "events"@,
                Shape::Array(events.map_values(|event: EventJsonView| event_shape(event))),
            ),
        ]
    }
}

/// The members of a span in JSON, from what goes out and its parent.
pub open spec fn span_members(span: SpanJsonView, parent: Option<Seq<char>>) -> Seq<
    (Seq<char>, Shape),
> {
    seq![("traceId"@, Shape::Text(span.trace_id)), ("spanId"@, Shape::Text(span.span_id))]
        + member_if_some("parentSpanId"@, parent) + seq![
        ("name"@, Shape::Text(span.name)),
        ("kind"@, enum_shape(span.kind)),
        ("startTimeUnixNano"@, time_shape(span.start_time_unix_nano)),
        ("endTimeUnixNano"@, time_shape(span.end_time_unix_nano)),
        ("attributes"@, attributes_shape(span.attributes)),
    ] + (match span.status {
        Some(status) => seq![("status"@, status_shape(status))],
        None => Seq::empty(),
    }) + events_member(span.events)
}

/// A span in JSON.
pub open spec fn span_shape(span: SpanView) -> Shape {
    Shape::Object(keyed(span_members(wire_span(span), span.parent_span_id)))
}

/// The spans of one group in JSON.
pub open spec fn span_group_shape(spans: Seq<SpanView>, group: Seq<int>) -> Shape {
    object2(
        "resource"@,
        resource_shape(wire_span_group(spans, group).resource),
        "scopeSpans"@,
        Shape::Array(
            seq![
                object1(
                    "spans"@,
                    Shape::Array(group.map_values(|i: int| span_shape(spans[i]))),
                ),
            ],
        ),
    )
}

/// Spans in JSON, one resource per stream.
pub open spec fn spans_shape(spans: Seq<SpanView>) -> Shape {
    object1(
        "resourceSpans"@,
        Shape::Array(
            grouped(span_streams(spans), spans.len()).map_values(
                |group: Seq<int>| span_group_shape(spans, group),
            ),
        ),
    )
}

fn encode_events(events: &Vec<SpanEvent>) -> (json: serde_json::Value)
    ensures
        json_shape(&json) == Shape::Array(
            views(events@).map_values(|event: SpanEventView| event_shape(wire_event(event))),
        ),
{
    let ghost all = views(events@);
    let mut list: Vec<serde_json::Value> = Vec::new();
    let mut i: usize = 0;
    while i < events.len()
        invariant
            i <= events@.len(),
            all == views(events@),
            list@.len() == i,
            forall|j: int|
                0 <= j < i ==> json_shape(&#[trigger] list@[j]) == event_shape(wire_event(all[j])),
        decreases events@.len() - i,
    {
        let event: &SpanEvent = &events[i];
        assert(all[i as int] == events@[i as int]@);
        let ghost wire = wire_event(event@);
        let mut entries: Vec<(String, serde_json::Value)> = Vec::new();
        assert(members(entries@) =~= Seq::empty());
        put_entry(&mut entries, "timeUnixNano", nanos(event.time_nanos));
        put_entry(&mut entries, "name", text(event.name.as_str()));
        put_entry(&mut entries, "attributes", attributes(&event.attributes, false));
        assert(members(entries@) =~= seq![
            ("timeUnixNano"@, time_shape(wire.time_unix_nano)),
            ("name"@, Shape::Text(wire.name)),
            ("attributes"@, attributes_shape(wire.attributes)),
        ]);
        list.push(json_object(entries));
        i += 1;
    }
    assert(shapes(list@) =~= all.map_values(
        |event: SpanEventView| event_shape(wire_event(event)),
    ));
    json_array(list)
}

fn encode_status(span: &SpanRecord) -> (json: serde_json::Value)
    ensures
        json_shape(&json) == status_shape(
            StatusView {
                code: FlexEnumView::Number(span@.status.number() as i32),
                message: span@.status_message,
            },
        ),
{
    let mut entries: Vec<(String, serde_json::Value)> = Vec::new();
    assert(members(entries@) =~= Seq::empty());
    let code: i32 = span.status.as_otlp_number();
    put_entry(&mut entries, "code", json_number(code as i64));
    if !span.status_message.as_str().is_empty() {
        put_entry(&mut entries, "message", text(span.status_message.as_str()));
    }
    assert(members(entries@) =~= seq![
        ("code"@, enum_shape(FlexEnumView::Number(span@.status.number() as i32))),
    ] + member_unless_empty("message"@, span@.status_message));
    json_object(entries)
}

fn encode_span(span: &SpanRecord) -> (json: serde_json::Value)
    ensures
        json_shape(&json) == span_shape(span@),
{
    let ghost wire = wire_span(span@);
    let mut entries: Vec<(String, serde_json::Value)> = Vec::new();
    assert(members(entries@) =~= Seq::empty());
    put_entry(&mut entries, "traceId", text(span.trace_id.as_str()));
    put_entry(&mut entries, "spanId", text(span.span_id.as_str()));
    match &span.parent_span_id {
        Some(id) => put_entry(&mut entries, "parentSpanId", text(id.as_str())),
        None => {},
    }
    put_entry(&mut entries, "name", text(span.name.as_str()));
    let kind: i32 = span.kind.as_otlp_number();
    put_entry(&mut entries, "kind", json_number(kind as i64));
    put_entry(&mut entries, "startTimeUnixNano", nanos(span.start_nanos));
    put_entry(&mut entries, "endTimeUnixNano", nanos(span.end_nanos));
    put_entry(&mut entries, "attributes", attributes(&span.attributes, false));
    assert(members(entries@) =~= seq![
        ("traceId"@, Shape::Text(wire.trace_id)),
        ("spanId"@, Shape::Text(wire.span_id)),
    ] + member_if_some("parentSpanId"@, span@.parent_span_id) + seq![
        ("name"@, Shape::Text(wire.name)),
        ("kind"@, enum_shape(wire.kind)),
        ("startTimeUnixNano"@, time_shape(wire.start_time_unix_nano)),
        ("endTimeUnixNano"@, time_shape(wire.end_time_unix_nano)),
        ("attributes"@, attributes_shape(wire.attributes)),
    ]);
    if span.status != SpanStatus::Unset || !span.status_message.as_str().is_empty() {
        put_entry(&mut entries, "status", encode_status(span));
    }
    if span.events.len() > 0 {
        put_entry(&mut entries, "events", encode_events(&span.events));
        assert(views(span.events@).map_values(
            |event: SpanEventView| event_shape(wire_event(event)),
        ) =~= wire.events.map_values(|event: EventJsonView| event_shape(event)));
    }
    assert(members(entries@) =~= span_members(wire, span@.parent_span_id));
    json_object(entries)
}

fn span_stream_list(records: &Vec<SpanRecord>) -> (streams: Vec<&Labels>)
    ensures
        label_views(streams@) == span_streams(views(records@)),
        streams@.len() == records@.len(),
{
    let ghost all = views(records@);
    let mut streams: Vec<&Labels> = Vec::new();
    let mut i: usize = 0;
    while i < records.len()
        invariant
            i <= records@.len(),
            all == views(records@),
            streams@.len() == i,
            forall|j: int| 0 <= j < i ==> (#[trigger] streams@[j])@ == all[j].stream,
        decreases records@.len() - i,
    {
        streams.push(&records[i].stream);
        i += 1;
    }
    assert(label_views(streams@) =~= span_streams(all));
    streams
}

/// `{"resourceSpans":[…]}`, one resource per stream.
pub fn encode_spans(records: &Vec<SpanRecord>) -> (json: serde_json::Value)
    ensures
        json_shape(&json) == spans_shape(views(records@)),
{
    let ghost all = views(records@);
    let streams: Vec<&Labels> = span_stream_list(records);
    let groups: Vec<Vec<usize>> = group_by_labels(&streams);
    let ghost split = grouped(span_streams(all), all.len());
    proof {
        lemma_grouped(span_streams(all), all.len());
    }
    let mut resources: Vec<serde_json::Value> = Vec::new();
    let mut g: usize = 0;
    while g < groups.len()
        invariant
            g <= groups@.len(),
            all == views(records@),
            split == places(groups@),
            sound_groups(split, span_streams(all), all.len() as int),
            resources@.len() == g,
            forall|j: int|
                0 <= j < g ==> json_shape(&#[trigger] resources@[j]) == span_group_shape(
                    all,
                    split[j],
                ),
        decreases groups@.len() - g,
    {
        assert(split[g as int] == numbers(groups@[g as int]@));
        resources.push(encode_span_group(records, &groups[g]));
        g += 1;
    }
    assert(shapes(resources@) =~= split.map_values(
        |group: Seq<int>| span_group_shape(all, group),
    ));
    make1("resourceSpans", json_array(resources))
}

fn encode_span_group(records: &Vec<SpanRecord>, group: &Vec<usize>) -> (json: serde_json::Value)
    requires
        group@.len() > 0,
        forall|k: int|
            0 <= k < group@.len() ==> 0 <= #[trigger] numbers(group@)[k] < records@.len(),
    ensures
        json_shape(&json) == span_group_shape(views(records@), numbers(group@)),
{
    let ghost all = views(records@);
    let ghost at = numbers(group@);
    let mut entries: Vec<serde_json::Value> = Vec::new();
    let mut k: usize = 0;
    while k < group.len()
        invariant
            k <= group@.len(),
            all == views(records@),
            at == numbers(group@),
            forall|k: int| 0 <= k < group@.len() ==> 0 <= #[trigger] at[k] < records@.len(),
            entries@.len() == k,
            forall|j: int|
                0 <= j < k ==> json_shape(&#[trigger] entries@[j]) == span_shape(all[at[j]]),
        decreases group@.len() - k,
    {
        assert(at[k as int] == group@[k as int]);
        assert(all[at[k as int]] == records@[at[k as int]]@);
        entries.push(encode_span(&records[group[k]]));
        k += 1;
    }
    assert(shapes(entries@) =~= at.map_values(|i: int| span_shape(all[i])));
    assert(at[0] == group@[0]);
    assert(all[at[0]] == records@[at[0]]@);
    let first: &SpanRecord = &records[group[0]];
    make2(
        "resource",
        make1("attributes", attributes(&first.stream, true)),
        "scopeSpans",
        make_list(make1("spans", json_array(entries))),
    )
}

// ---------------------------------------------------------------------------
// Metrics
// ---------------------------------------------------------------------------

/// Whether `number` writes every double as JSON, and each in one way.
pub open spec fn writes_numbers<J: Fn(u64) -> serde_json::Value>(number: &J) -> bool {
    &&& forall|bits: u64| number.requires((bits,))
    &&& forall|bits: u64, one: serde_json::Value, other: serde_json::Value|
        number.ensures((bits,), one) && number.ensures((bits,), other) ==> json_shape(&one)
            == json_shape(&other)
}

/// What `number` writes for a double.
pub open spec fn number_shapes<J: Fn(u64) -> serde_json::Value>(number: &J) -> spec_fn(
    u64,
) -> Shape {
    |bits: u64|
        json_shape(&(choose|value: serde_json::Value| number.ensures((bits,), value)))
}

/// The labels of a series without the metric's name, which goes out as the name.
pub open spec fn unnamed(series: Seq<Pair>) -> Seq<Pair>
    decreases series.len(),
{
    if series.len() == 0 {
        series
    } else if series.last().0 == METRIC_NAME_LABEL@ {
        unnamed(series.drop_last())
    } else {
        unnamed(series.drop_last()).push(series.last())
    }
}

pub open spec fn sample_name(series: Seq<Pair>) -> Seq<char> {
    match lookup(series, METRIC_NAME_LABEL@) {
        Some(name) => name,
        None => ""@,
    }
}

/// A sample's data point in JSON.
pub open spec fn point_shape(sample: SampleView, numbers: spec_fn(u64) -> Shape) -> Shape {
    Shape::Object(
        keyed(
            seq![
                ("timeUnixNano"@, nanos_shape(sample.timestamp_nanos)),
                ("asDouble"@, numbers(sample.value)),
                ("attributes"@, attributes_shape(wire_attributes(unnamed(sample.series), true))),
            ],
        ),
    )
}

/// A sample in JSON, as a metric with one data point. A counter goes out as a sum that
/// claims neither to be monotonic nor a temporality: neither fact is stored.
pub open spec fn sample_shape(sample: SampleView, numbers: spec_fn(u64) -> Shape) -> Shape {
    let points = Shape::Array(seq![point_shape(sample, numbers)]);
    let body = if sample.kind == MetricKind::Counter {
        (
            "sum"@,
            Shape::Object(
                keyed(
                    seq![
                        ("dataPoints"@, points),
                        ("isMonotonic"@, Shape::Bool(false)),
                        ("aggregationTemporality"@, Shape::Number(decimal(0))),
                    ],
                ),
            ),
        )
    } else {
        ("gauge"@, object1("dataPoints"@, points))
    };
    Shape::Object(keyed(seq![("name"@, Shape::Text(sample_name(sample.series))), body]))
}

pub open spec fn sample_streams(samples: Seq<SampleView>) -> Seq<Seq<Pair>> {
    samples.map_values(|sample: SampleView| sample.series)
}

/// The samples of one group in JSON.
pub open spec fn sample_group_shape(
    samples: Seq<SampleView>,
    group: Seq<int>,
    numbers: spec_fn(u64) -> Shape,
) -> Shape {
    object2(
        "resource"@,
        object1("attributes"@, attributes_shape(wire_attributes(Seq::empty(), true))),
        "scopeMetrics"@,
        Shape::Array(
            seq![
                object1(
                    "metrics"@,
                    Shape::Array(group.map_values(|i: int| sample_shape(samples[i], numbers))),
                ),
            ],
        ),
    )
}

/// Samples in JSON, one resource per series.
pub open spec fn samples_shape(samples: Seq<SampleView>, numbers: spec_fn(u64) -> Shape) -> Shape {
    object1(
        "resourceMetrics"@,
        Shape::Array(
            grouped(sample_streams(samples), samples.len()).map_values(
                |group: Seq<int>| sample_group_shape(samples, group, numbers),
            ),
        ),
    )
}

fn series_attributes(series: &Labels) -> (json: serde_json::Value)
    ensures
        json_shape(&json) == attributes_shape(wire_attributes(unnamed(series@), true)),
{
    let mut list: Vec<serde_json::Value> = Vec::new();
    let mut i: usize = 0;
    assert(series@.take(0) =~= Seq::empty());
    while i < series.len()
        invariant
            i <= series@.len(),
            list@.len() == unnamed(series@.take(i as int)).len(),
            forall|j: int|
                0 <= j < list@.len() ==> json_shape(&#[trigger] list@[j]) == attribute_shape(
                    wire_attributes(unnamed(series@.take(i as int)), true)[j],
                ),
        decreases series@.len() - i,
    {
        let name: &str = series.name_at(i);
        assert(series@.take(i as int + 1).drop_last() =~= series@.take(i as int));
        if !same(name, METRIC_NAME_LABEL) {
            list.push(attribute(dotted(name), series.value_at(i)));
        }
        i += 1;
    }
    assert(series@.take(i as int) =~= series@);
    assert(shapes(list@) =~= wire_attributes(unnamed(series@), true).map_values(
        |kv: KeyView| attribute_shape(kv),
    ));
    json_array(list)
}

fn encode_sample<J: Fn(u64) -> serde_json::Value>(sample: &MetricSample, number: &J) -> (json:
    serde_json::Value)
    requires
        writes_numbers(number),
    ensures
        json_shape(&json) == sample_shape(sample@, number_shapes(number)),
{
    let ghost numbers = number_shapes(number);
    let value: serde_json::Value = number(sample.value);
    assert(json_shape(&value) == numbers(sample.value));
    let mut entries: Vec<(String, serde_json::Value)> = Vec::new();
    assert(members(entries@) =~= Seq::empty());
    put_entry(&mut entries, "timeUnixNano", nanos(sample.timestamp_nanos));
    put_entry(&mut entries, "asDouble", value);
    put_entry(&mut entries, "attributes", series_attributes(&sample.series));
    assert(members(entries@) =~= seq![
        ("timeUnixNano"@, nanos_shape(sample@.timestamp_nanos)),
        ("asDouble"@, numbers(sample@.value)),
        ("attributes"@, attributes_shape(wire_attributes(unnamed(sample@.series), true))),
    ]);
    let points: serde_json::Value = make_list(json_object(entries));
    let name: serde_json::Value = text(sample.name());
    if sample.kind == MetricKind::Counter {
        let ghost shape = json_shape(&points);
        let mut sum: Vec<(String, serde_json::Value)> = Vec::new();
        assert(members(sum@) =~= Seq::empty());
        put_entry(&mut sum, "dataPoints", points);
        put_entry(&mut sum, "isMonotonic", json_bool(false));
        put_entry(&mut sum, "aggregationTemporality", json_number(0));
        assert(members(sum@) =~= seq![
            ("dataPoints"@, shape),
            ("isMonotonic"@, Shape::Bool(false)),
            ("aggregationTemporality"@, Shape::Number(decimal(0))),
        ]);
        make2("name", name, "sum", json_object(sum))
    } else {
        make2("name", name, "gauge", make1("dataPoints", points))
    }
}

fn sample_stream_list(records: &Vec<MetricSample>) -> (streams: Vec<&Labels>)
    ensures
        label_views(streams@) == sample_streams(views(records@)),
        streams@.len() == records@.len(),
{
    let ghost all = views(records@);
    let mut streams: Vec<&Labels> = Vec::new();
    let mut i: usize = 0;
    while i < records.len()
        invariant
            i <= records@.len(),
            all == views(records@),
            streams@.len() == i,
            forall|j: int| 0 <= j < i ==> (#[trigger] streams@[j])@ == all[j].series,
        decreases records@.len() - i,
    {
        streams.push(&records[i].series);
        i += 1;
    }
    assert(label_views(streams@) =~= sample_streams(all));
    streams
}

/// `{"resourceMetrics":[…]}`, one resource per series, with `number` to write doubles.
/// Every sample is a metric of its own with a single data point.
pub fn encode_metrics<J: Fn(u64) -> serde_json::Value>(records: &Vec<MetricSample>, number: &J) -> (json:
    serde_json::Value)
    requires
        writes_numbers(number),
    ensures
        json_shape(&json) == samples_shape(views(records@), number_shapes(number)),
{
    let ghost all = views(records@);
    let ghost shapes_of = number_shapes(number);
    let streams: Vec<&Labels> = sample_stream_list(records);
    let groups: Vec<Vec<usize>> = group_by_labels(&streams);
    let ghost split = grouped(sample_streams(all), all.len());
    proof {
        lemma_grouped(sample_streams(all), all.len());
    }
    let mut resources: Vec<serde_json::Value> = Vec::new();
    let mut g: usize = 0;
    while g < groups.len()
        invariant
            g <= groups@.len(),
            writes_numbers(number),
            shapes_of == number_shapes(number),
            all == views(records@),
            split == places(groups@),
            sound_groups(split, sample_streams(all), all.len() as int),
            resources@.len() == g,
            forall|j: int|
                0 <= j < g ==> json_shape(&#[trigger] resources@[j]) == sample_group_shape(
                    all,
                    split[j],
                    shapes_of,
                ),
        decreases groups@.len() - g,
    {
        assert(split[g as int] == numbers(groups@[g as int]@));
        resources.push(encode_sample_group(records, &groups[g], number));
        g += 1;
    }
    assert(shapes(resources@) =~= split.map_values(
        |group: Seq<int>| sample_group_shape(all, group, shapes_of),
    ));
    make1("resourceMetrics", json_array(resources))
}

fn encode_sample_group<J: Fn(u64) -> serde_json::Value>(
    records: &Vec<MetricSample>,
    group: &Vec<usize>,
    number: &J,
) -> (json: serde_json::Value)
    requires
        writes_numbers(number),
        group@.len() > 0,
        forall|k: int|
            0 <= k < group@.len() ==> 0 <= #[trigger] numbers(group@)[k] < records@.len(),
    ensures
        json_shape(&json) == sample_group_shape(
            views(records@),
            numbers(group@),
            number_shapes(number),
        ),
{
    let ghost all = views(records@);
    let ghost at = numbers(group@);
    let ghost shapes_of = number_shapes(number);
    let mut entries: Vec<serde_json::Value> = Vec::new();
    let mut k: usize = 0;
    while k < group.len()
        invariant
            k <= group@.len(),
            writes_numbers(number),
            shapes_of == number_shapes(number),
            all == views(records@),
            at == numbers(group@),
            forall|k: int| 0 <= k < group@.len() ==> 0 <= #[trigger] at[k] < records@.len(),
            entries@.len() == k,
            forall|j: int|
                0 <= j < k ==> json_shape(&#[trigger] entries@[j]) == sample_shape(
                    all[at[j]],
                    shapes_of,
                ),
        decreases group@.len() - k,
    {
        assert(at[k as int] == group@[k as int]);
        assert(all[at[k as int]] == records@[at[k as int]]@);
        entries.push(encode_sample(&records[group[k]], number));
        k += 1;
    }
    assert(shapes(entries@) =~= at.map_values(|i: int| sample_shape(all[i], shapes_of)));
    let none: Labels = Labels::new();
    make2(
        "resource",
        make1("attributes", attributes(&none, true)),
        "scopeMetrics",
        make_list(make1("metrics", json_array(entries))),
    )
}

} // verus!
