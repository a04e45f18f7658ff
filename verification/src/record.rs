//! What is stored: log records, spans and metric samples.
use vstd::prelude::*;

use crate::labels::{lookup, Labels, Pair, APP_LABEL, METRIC_NAME_LABEL, UNKNOWN_APP};
use crate::text::{
    lower, lowered, option_view, same, starts_with, strip_prefix, trim, trimmed, views,
};

verus! {

// ---------------------------------------------------------------------------
// Logs
// ---------------------------------------------------------------------------

#[derive(Debug, Clone, Copy, PartialEq, Eq, Structural)]
pub enum Severity {
    Unknown,
    Trace,
    Debug,
    Info,
    Warn,
    Error,
    Fatal,
}

impl Severity {
    pub open spec fn label(self) -> Seq<char> {
        match self {
            Severity::Unknown => "unknown"@,
            Severity::Trace => "trace"@,
            Severity::Debug => "debug"@,
            Severity::Info => "info"@,
            Severity::Warn => "warn"@,
            Severity::Error => "error"@,
            Severity::Fatal => "fatal"@,
        }
    }

    /// The level of an OTLP severity number: four numbers per level, from 1.
    pub open spec fn numbered(number: int) -> Severity {
        if 1 <= number <= 4 {
            Severity::Trace
        } else if 5 <= number <= 8 {
            Severity::Debug
        } else if 9 <= number <= 12 {
            Severity::Info
        } else if 13 <= number <= 16 {
            Severity::Warn
        } else if 17 <= number <= 20 {
            Severity::Error
        } else if 21 <= number <= 24 {
            Severity::Fatal
        } else {
            Severity::Unknown
        }
    }

    pub fn as_str(self) -> (label: &'static str)
        ensures
            label@ == self.label(),
    {
        match self {
            Severity::Unknown => "unknown",
            Severity::Trace => "trace",
            Severity::Debug => "debug",
            Severity::Info => "info",
            Severity::Warn => "warn",
            Severity::Error => "error",
            Severity::Fatal => "fatal",
        }
    }

    pub fn from_otlp_number(number: i32) -> (severity: Severity)
        ensures
            severity == Severity::numbered(number as int),
    {
        if 1 <= number && number <= 4 {
            Severity::Trace
        } else if 5 <= number && number <= 8 {
            Severity::Debug
        } else if 9 <= number && number <= 12 {
            Severity::Info
        } else if 13 <= number && number <= 16 {
            Severity::Warn
        } else if 17 <= number && number <= 20 {
            Severity::Error
        } else if 21 <= number && number <= 24 {
            Severity::Fatal
        } else {
            Severity::Unknown
        }
    }

    /// The level of a severity's text, in any case.
    pub open spec fn worded(text: Seq<char>) -> Severity {
        let word = lower(trim(text));
        if word == "trace"@ {
            Severity::Trace
        } else if word == "debug"@ {
            Severity::Debug
        } else if word == "info"@ || word == "information"@ || word == "notice"@ {
            Severity::Info
        } else if word == "warn"@ || word == "warning"@ {
            Severity::Warn
        } else if word == "error"@ || word == "err"@ {
            Severity::Error
        } else if word == "fatal"@ || word == "critical"@ || word == "alert"@ || word
            == "emergency"@ {
            Severity::Fatal
        } else {
            Severity::Unknown
        }
    }

    pub fn from_text(text: &str) -> (severity: Severity)
        ensures
            severity == Severity::worded(text@),
    {
        let word: String = lowered(trimmed(text).as_str());
        let word: &str = word.as_str();
        if same(word, "trace") {
            Severity::Trace
        } else if same(word, "debug") {
            Severity::Debug
        } else if same(word, "info") || same(word, "information") || same(word, "notice") {
            Severity::Info
        } else if same(word, "warn") || same(word, "warning") {
            Severity::Warn
        } else if same(word, "error") || same(word, "err") {
            Severity::Error
        } else if same(word, "fatal") || same(word, "critical") || same(word, "alert") || same(
            word,
            "emergency",
        ) {
            Severity::Fatal
        } else {
            Severity::Unknown
        }
    }
}

/// One line of a log.
#[derive(Debug)]
pub struct LogRecord {
    pub timestamp_nanos: u64,
    /// The labels of the stream that the record belongs to.
    pub stream: Labels,
    pub severity: Severity,
    pub severity_text: String,
    pub body: String,
    pub attributes: Labels,
    pub trace_id: Option<String>,
    pub span_id: Option<String>,
}

pub struct LogView {
    pub timestamp_nanos: u64,
    pub stream: Seq<Pair>,
    pub severity: Severity,
    pub severity_text: Seq<char>,
    pub body: Seq<char>,
    pub attributes: Seq<Pair>,
    pub trace_id: Option<Seq<char>>,
    pub span_id: Option<Seq<char>>,
}

impl View for LogRecord {
    type V = LogView;

    open spec fn view(&self) -> LogView {
        LogView {
            timestamp_nanos: self.timestamp_nanos,
            stream: self.stream@,
            severity: self.severity,
            severity_text: self.severity_text@,
            body: self.body@,
            attributes: self.attributes@,
            trace_id: option_view(self.trace_id),
            span_id: option_view(self.span_id),
        }
    }
}

/// The application that a stream belongs to.
pub open spec fn app_of(stream: Seq<Pair>) -> Seq<char> {
    match lookup(stream, APP_LABEL@) {
        Some(name) => name,
        None => UNKNOWN_APP@,
    }
}

impl LogRecord {
    /// The application that the record belongs to.
    pub fn app(&self) -> (name: &str)
        ensures
            name@ == app_of(self@.stream),
    {
        match self.stream.get(APP_LABEL) {
            Some(name) => name,
            None => UNKNOWN_APP,
        }
    }
}

// ---------------------------------------------------------------------------
// Spans
// ---------------------------------------------------------------------------

#[derive(Debug, Clone, Copy, PartialEq, Eq, Structural)]
pub enum SpanKind {
    Unspecified,
    Internal,
    Server,
    Client,
    Producer,
    Consumer,
}

impl SpanKind {
    pub open spec fn label(self) -> Seq<char> {
        match self {
            SpanKind::Unspecified => "unspecified"@,
            SpanKind::Internal => "internal"@,
            SpanKind::Server => "server"@,
            SpanKind::Client => "client"@,
            SpanKind::Producer => "producer"@,
            SpanKind::Consumer => "consumer"@,
        }
    }

    pub open spec fn number(self) -> int {
        match self {
            SpanKind::Unspecified => 0,
            SpanKind::Internal => 1,
            SpanKind::Server => 2,
            SpanKind::Client => 3,
            SpanKind::Producer => 4,
            SpanKind::Consumer => 5,
        }
    }

    pub open spec fn numbered(number: int) -> SpanKind {
        if number == 1 {
            SpanKind::Internal
        } else if number == 2 {
            SpanKind::Server
        } else if number == 3 {
            SpanKind::Client
        } else if number == 4 {
            SpanKind::Producer
        } else if number == 5 {
            SpanKind::Consumer
        } else {
            SpanKind::Unspecified
        }
    }

    /// The kind of an OTLP name, with or without the enum's prefix.
    pub open spec fn named(name: Seq<char>) -> Option<SpanKind> {
        let word = if starts_with(name, "SPAN_KIND_"@) {
            name.skip("SPAN_KIND_"@.len() as int)
        } else {
            name
        };
        if word == "UNSPECIFIED"@ {
            Some(SpanKind::Unspecified)
        } else if word == "INTERNAL"@ {
            Some(SpanKind::Internal)
        } else if word == "SERVER"@ {
            Some(SpanKind::Server)
        } else if word == "CLIENT"@ {
            Some(SpanKind::Client)
        } else if word == "PRODUCER"@ {
            Some(SpanKind::Producer)
        } else if word == "CONSUMER"@ {
            Some(SpanKind::Consumer)
        } else {
            None
        }
    }

    pub fn as_str(self) -> (label: &'static str)
        ensures
            label@ == self.label(),
    {
        match self {
            SpanKind::Unspecified => "unspecified",
            SpanKind::Internal => "internal",
            SpanKind::Server => "server",
            SpanKind::Client => "client",
            SpanKind::Producer => "producer",
            SpanKind::Consumer => "consumer",
        }
    }

    pub fn as_otlp_number(self) -> (number: i32)
        ensures
            number == self.number(),
    {
        match self {
            SpanKind::Unspecified => 0,
            SpanKind::Internal => 1,
            SpanKind::Server => 2,
            SpanKind::Client => 3,
            SpanKind::Producer => 4,
            SpanKind::Consumer => 5,
        }
    }

    pub fn from_otlp_number(number: i32) -> (kind: SpanKind)
        ensures
            kind == SpanKind::numbered(number as int),
    {
        match number {
            1 => SpanKind::Internal,
            2 => SpanKind::Server,
            3 => SpanKind::Client,
            4 => SpanKind::Producer,
            5 => SpanKind::Consumer,
            _ => SpanKind::Unspecified,
        }
    }

    pub fn from_otlp_name(name: &str) -> (kind: Option<SpanKind>)
        ensures
            kind == SpanKind::named(name@),
    {
        let stripped: Option<String> = strip_prefix(name, "SPAN_KIND_");
        let word: &str = match &stripped {
            Some(rest) => rest.as_str(),
            None => name,
        };
        if same(word, "UNSPECIFIED") {
            Some(SpanKind::Unspecified)
        } else if same(word, "INTERNAL") {
            Some(SpanKind::Internal)
        } else if same(word, "SERVER") {
            Some(SpanKind::Server)
        } else if same(word, "CLIENT") {
            Some(SpanKind::Client)
        } else if same(word, "PRODUCER") {
            Some(SpanKind::Producer)
        } else if same(word, "CONSUMER") {
            Some(SpanKind::Consumer)
        } else {
            None
        }
    }
}

#[derive(Debug, Clone, Copy, PartialEq, Eq, Structural)]
pub enum SpanStatus {
    Unset,
    Okay,
    Error,
}

impl SpanStatus {
    pub open spec fn label(self) -> Seq<char> {
        match self {
            SpanStatus::Unset => "unset"@,
            SpanStatus::Okay => "ok"@,
            SpanStatus::Error => "error"@,
        }
    }

    pub open spec fn number(self) -> int {
        match self {
            SpanStatus::Unset => 0,
            SpanStatus::Okay => 1,
            SpanStatus::Error => 2,
        }
    }

    pub open spec fn numbered(number: int) -> SpanStatus {
        if number == 1 {
            SpanStatus::Okay
        } else if number == 2 {
            SpanStatus::Error
        } else {
            SpanStatus::Unset
        }
    }

    /// The status of an OTLP name, with or without the enum's prefix.
    pub open spec fn named(name: Seq<char>) -> Option<SpanStatus> {
        let word = if starts_with(name, "STATUS_CODE_"@) {
            name.skip("STATUS_CODE_"@.len() as int)
        } else {
            name
        };
        if word == "UNSET"@ {
            Some(SpanStatus::Unset)
        } else if word == "OK"@ {
            Some(SpanStatus::Okay)
        } else if word == "ERROR"@ {
            Some(SpanStatus::Error)
        } else {
            None
        }
    }

    pub fn as_str(self) -> (label: &'static str)
        ensures
            label@ == self.label(),
    {
        match self {
            SpanStatus::Unset => "unset",
            SpanStatus::Okay => "ok",
            SpanStatus::Error => "error",
        }
    }

    pub fn as_otlp_number(self) -> (number: i32)
        ensures
            number == self.number(),
    {
        match self {
            SpanStatus::Unset => 0,
            SpanStatus::Okay => 1,
            SpanStatus::Error => 2,
        }
    }

    pub fn from_otlp_number(number: i32) -> (status: SpanStatus)
        ensures
            status == SpanStatus::numbered(number as int),
    {
        match number {
            1 => SpanStatus::Okay,
            2 => SpanStatus::Error,
            _ => SpanStatus::Unset,
        }
    }

    pub fn from_otlp_name(name: &str) -> (status: Option<SpanStatus>)
        ensures
            status == SpanStatus::named(name@),
    {
        let stripped: Option<String> = strip_prefix(name, "STATUS_CODE_");
        let word: &str = match &stripped {
            Some(rest) => rest.as_str(),
            None => name,
        };
        if same(word, "UNSET") {
            Some(SpanStatus::Unset)
        } else if same(word, "OK") {
            Some(SpanStatus::Okay)
        } else if same(word, "ERROR") {
            Some(SpanStatus::Error)
        } else {
            None
        }
    }
}

/// Something that happened during a span.
#[derive(Debug)]
pub struct SpanEvent {
    pub time_nanos: u64,
    pub name: String,
    pub attributes: Labels,
}

pub struct SpanEventView {
    pub time_nanos: u64,
    pub name: Seq<char>,
    pub attributes: Seq<Pair>,
}

impl View for SpanEvent {
    type V = SpanEventView;

    open spec fn view(&self) -> SpanEventView {
        SpanEventView {
            time_nanos: self.time_nanos,
            name: self.name@,
            attributes: self.attributes@,
        }
    }
}

/// A pointer from a span to another.
#[derive(Debug)]
pub struct SpanLink {
    pub trace_id: String,
    pub span_id: String,
    pub trace_state: String,
    pub attributes: Labels,
}

pub struct SpanLinkView {
    pub trace_id: Seq<char>,
    pub span_id: Seq<char>,
    pub trace_state: Seq<char>,
    pub attributes: Seq<Pair>,
}

impl View for SpanLink {
    type V = SpanLinkView;

    open spec fn view(&self) -> SpanLinkView {
        SpanLinkView {
            trace_id: self.trace_id@,
            span_id: self.span_id@,
            trace_state: self.trace_state@,
            attributes: self.attributes@,
        }
    }
}

/// One unit of work in a trace.
#[derive(Debug)]
pub struct SpanRecord {
    pub trace_id: String,
    pub span_id: String,
    pub parent_span_id: Option<String>,
    pub name: String,
    pub kind: SpanKind,
    pub start_nanos: u64,
    pub end_nanos: u64,
    pub status: SpanStatus,
    pub status_message: String,
    /// The labels of the stream that the span belongs to: its resource.
    pub stream: Labels,
    pub attributes: Labels,
    pub events: Vec<SpanEvent>,
    pub links: Vec<SpanLink>,
}

pub struct SpanView {
    pub trace_id: Seq<char>,
    pub span_id: Seq<char>,
    pub parent_span_id: Option<Seq<char>>,
    pub name: Seq<char>,
    pub kind: SpanKind,
    pub start_nanos: u64,
    pub end_nanos: u64,
    pub status: SpanStatus,
    pub status_message: Seq<char>,
    pub stream: Seq<Pair>,
    pub attributes: Seq<Pair>,
    pub events: Seq<SpanEventView>,
    pub links: Seq<SpanLinkView>,
}

impl View for SpanRecord {
    type V = SpanView;

    open spec fn view(&self) -> SpanView {
        SpanView {
            trace_id: self.trace_id@,
            span_id: self.span_id@,
            parent_span_id: option_view(self.parent_span_id),
            name: self.name@,
            kind: self.kind,
            start_nanos: self.start_nanos,
            end_nanos: self.end_nanos,
            status: self.status,
            status_message: self.status_message@,
            stream: self.stream@,
            attributes: self.attributes@,
            events: views(self.events@),
            links: views(self.links@),
        }
    }
}

impl SpanView {
    /// The time from start to end; none where the end comes first.
    pub open spec fn duration(self) -> u64 {
        if self.end_nanos >= self.start_nanos {
            (self.end_nanos - self.start_nanos) as u64
        } else {
            0
        }
    }

    /// The service that the span ran in.
    pub open spec fn service(self) -> Seq<char> {
        match lookup(self.stream, "service_name"@) {
            Some(name) => name,
            None => match lookup(self.stream, APP_LABEL@) {
                Some(name) => name,
                None => UNKNOWN_APP@,
            },
        }
    }
}

impl SpanRecord {
    /// The time from start to end; none where the end comes first.
    pub fn duration_nanos(&self) -> (nanos: u64)
        ensures
            nanos == self@.duration(),
    {
        if self.end_nanos >= self.start_nanos {
            self.end_nanos - self.start_nanos
        } else {
            0
        }
    }

    /// Whether the span has no parent.
    pub fn is_root(&self) -> (r: bool)
        ensures
            r == (self@.parent_span_id is None),
    {
        self.parent_span_id.is_none()
    }

    /// The application that the span belongs to.
    pub fn app(&self) -> (name: &str)
        ensures
            name@ == app_of(self@.stream),
    {
        match self.stream.get(APP_LABEL) {
            Some(name) => name,
            None => UNKNOWN_APP,
        }
    }

    /// The service that the span ran in.
    pub fn service_name(&self) -> (name: &str)
        ensures
            name@ == self@.service(),
    {
        match self.stream.get("service_name") {
            Some(name) => name,
            None => match self.stream.get(APP_LABEL) {
                Some(name) => name,
                None => UNKNOWN_APP,
            },
        }
    }
}

// ---------------------------------------------------------------------------
// Metrics
// ---------------------------------------------------------------------------

#[derive(Debug, Clone, Copy, PartialEq, Eq, Structural)]
pub enum MetricKind {
    Unknown,
    Gauge,
    Counter,
    Histogram,
}

/// One value of a series.
#[derive(Debug)]
pub struct MetricSample {
    pub timestamp_nanos: u64,
    pub series: Labels,
    /// The bits of the value, an IEEE 754 double.
    pub value: u64,
    pub kind: MetricKind,
}

pub struct SampleView {
    pub timestamp_nanos: u64,
    pub series: Seq<Pair>,
    pub value: u64,
    pub kind: MetricKind,
}

impl MetricSample {
    /// The metric's name.
    pub fn name(&self) -> (name: &str)
        ensures
            name@ == (match lookup(self@.series, METRIC_NAME_LABEL@) {
                Some(name) => name,
                None => ""@,
            }),
    {
        match self.series.get(METRIC_NAME_LABEL) {
            Some(name) => name,
            None => "",
        }
    }

    /// The application that the series belongs to.
    pub fn app(&self) -> (name: &str)
        ensures
            name@ == app_of(self@.series),
    {
        match self.series.get(APP_LABEL) {
            Some(name) => name,
            None => UNKNOWN_APP,
        }
    }
}

impl View for MetricSample {
    type V = SampleView;

    open spec fn view(&self) -> SampleView {
        SampleView {
            timestamp_nanos: self.timestamp_nanos,
            series: self.series@,
            value: self.value,
            kind: self.kind,
        }
    }
}

// ---------------------------------------------------------------------------
// Laws
// ---------------------------------------------------------------------------

/// A kind or a status is read back from its number.
pub proof fn law_numbers_are_read_back(kind: SpanKind, status: SpanStatus)
    ensures
        SpanKind::numbered(kind.number()) == kind,
        SpanStatus::numbered(status.number()) == status,
{
}

} // verus!
