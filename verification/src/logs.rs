//! OTLP log records, converted to what is stored.
use vstd::prelude::*;

use crate::config::{IngestConfig, IngestView, LimitsConfig};
use crate::decoded::{
    allowance, count, law_what_is_held_is_bounded, lemma_empty_tally, lemma_with_agrees, Decoded,
    RejectReason, Rejection, RejectionView, Tally,
};
use crate::labels::{inserted, lookup, Labels, Pair, APP_LABEL, LEVEL_LABEL};
use crate::otlp::{
    any_text, enum_number, extend_attributes, extend_labels, extended, id_of, keep_unpromoted,
    normalize_id, unpromoted, AnyValue, AnyView, FlexEnum, FlexEnumView, FlexU64,
    InstrumentationScope, KeyValue, KeyView, Resource, ScopeView,
};
use crate::record::{LogRecord, LogView, Severity};
use crate::streams::{
    app_name, app_named, check_labels, labels_rejected, promote, promoted, Reserved,
};
use crate::text::{
    byte_len, chars_of, decimal, decimal_text, lemma_utf8_len_concat, lemma_utf8_len_step,
    option_view, piece, same, starts_with, strip_prefix, utf8_len, views, width_of,
};

verus! {

// ---------------------------------------------------------------------------
// Wire types
// ---------------------------------------------------------------------------

#[derive(Debug)]
pub struct LogsData {
    pub resource_logs: Vec<ResourceLogs>,
}

#[derive(Debug)]
pub struct ResourceLogs {
    pub resource: Option<Resource>,
    pub scope_logs: Vec<ScopeLogs>,
}

#[derive(Debug)]
pub struct ScopeLogs {
    pub scope: Option<InstrumentationScope>,
    pub log_records: Vec<LogRecordJson>,
}

#[derive(Debug)]
pub struct LogRecordJson {
    pub time_unix_nano: FlexU64,
    pub observed_time_unix_nano: FlexU64,
    pub severity_number: FlexEnum,
    pub severity_text: String,
    pub body: Option<AnyValue>,
    pub attributes: Vec<KeyValue>,
    pub trace_id: String,
    pub span_id: String,
}

pub struct ResourceLogsView {
    pub resource: Option<Seq<KeyView>>,
    pub scope_logs: Seq<ScopeLogsView>,
}

pub struct ScopeLogsView {
    pub scope: Option<ScopeView>,
    pub log_records: Seq<LogRecordView>,
}

pub struct LogRecordView {
    pub time_unix_nano: Option<u64>,
    pub observed_time_unix_nano: Option<u64>,
    pub severity_number: FlexEnumView,
    pub severity_text: Seq<char>,
    pub body: Option<AnyView>,
    pub attributes: Seq<KeyView>,
    pub trace_id: Seq<char>,
    pub span_id: Seq<char>,
}

impl View for LogsData {
    type V = Seq<ResourceLogsView>;

    open spec fn view(&self) -> Seq<ResourceLogsView> {
        views(self.resource_logs@)
    }
}

impl View for ResourceLogs {
    type V = ResourceLogsView;

    open spec fn view(&self) -> ResourceLogsView {
        ResourceLogsView {
            resource: option_view(self.resource),
            scope_logs: views(self.scope_logs@),
        }
    }
}

impl View for ScopeLogs {
    type V = ScopeLogsView;

    open spec fn view(&self) -> ScopeLogsView {
        ScopeLogsView { scope: option_view(self.scope), log_records: views(self.log_records@) }
    }
}

impl View for LogRecordJson {
    type V = LogRecordView;

    open spec fn view(&self) -> LogRecordView {
        LogRecordView {
            time_unix_nano: self.time_unix_nano.value(),
            observed_time_unix_nano: self.observed_time_unix_nano.value(),
            severity_number: self.severity_number@,
            severity_text: self.severity_text@,
            body: option_view(self.body),
            attributes: views(self.attributes@),
            trace_id: self.trace_id@,
            span_id: self.span_id@,
        }
    }
}

impl ResourceLogsView {
    pub open spec fn none() -> ResourceLogsView {
        ResourceLogsView { resource: None, scope_logs: Seq::empty() }
    }
}

impl ScopeLogsView {
    pub open spec fn none() -> ScopeLogsView {
        ScopeLogsView { scope: None, log_records: Seq::empty() }
    }
}

impl LogRecordView {
    pub open spec fn none() -> LogRecordView {
        LogRecordView {
            time_unix_nano: None,
            observed_time_unix_nano: None,
            severity_number: FlexEnumView::Absent,
            severity_text: Seq::empty(),
            body: None,
            attributes: Seq::empty(),
            trace_id: Seq::empty(),
            span_id: Seq::empty(),
        }
    }
}

impl Default for LogsData {
    fn default() -> (data: LogsData)
        ensures
            data@ == Seq::<ResourceLogsView>::empty(),
    {
        let data = LogsData { resource_logs: Vec::new() };
        assert(data@ =~= Seq::<ResourceLogsView>::empty());
        data
    }
}

impl Default for ResourceLogs {
    fn default() -> (logs: ResourceLogs)
        ensures
            logs@ == ResourceLogsView::none(),
    {
        let logs = ResourceLogs { resource: None, scope_logs: Vec::new() };
        assert(logs@.scope_logs =~= Seq::<ScopeLogsView>::empty());
        logs
    }
}

impl Default for ScopeLogs {
    fn default() -> (logs: ScopeLogs)
        ensures
            logs@ == ScopeLogsView::none(),
    {
        let logs = ScopeLogs { scope: None, log_records: Vec::new() };
        assert(logs@.log_records =~= Seq::<LogRecordView>::empty());
        logs
    }
}

impl Default for LogRecordJson {
    fn default() -> (record: LogRecordJson)
        ensures
            record@ == LogRecordView::none(),
    {
        let record = LogRecordJson {
            time_unix_nano: FlexU64::Absent,
            observed_time_unix_nano: FlexU64::Absent,
            severity_number: FlexEnum::Absent,
            severity_text: String::new(),
            body: None,
            attributes: Vec::new(),
            trace_id: String::new(),
            span_id: String::new(),
        };
        assert(record@.severity_text =~= Seq::<char>::empty());
        assert(record@.attributes =~= Seq::<KeyView>::empty());
        assert(record@.trace_id =~= Seq::<char>::empty());
        assert(record@.span_id =~= Seq::<char>::empty());
        record
    }
}

// ---------------------------------------------------------------------------
// Severity names
// ---------------------------------------------------------------------------

/// The number of a severity name within one level: `TRACE`, `TRACE2`, `TRACE3`, `TRACE4`.
pub open spec fn level_number(name: Seq<char>, level: Seq<char>, base: i32) -> Option<i32> {
    if name == level {
        Some(base)
    } else if name == level + "2"@ {
        Some((base + 1) as i32)
    } else if name == level + "3"@ {
        Some((base + 2) as i32)
    } else if name == level + "4"@ {
        Some((base + 3) as i32)
    } else {
        None
    }
}

/// The first of two answers that is one.
pub open spec fn either<T>(first: Option<T>, second: Option<T>) -> Option<T> {
    match first {
        Some(value) => Some(value),
        None => second,
    }
}

/// The number of a severity by its proto enum name.
pub open spec fn severity_named(name: Seq<char>) -> Option<i32> {
    if starts_with(name, "SEVERITY_NUMBER_"@) {
        let suffix = name.skip("SEVERITY_NUMBER_"@.len() as int);
        either(
            level_number(suffix, "TRACE"@, 1),
            either(
                level_number(suffix, "DEBUG"@, 5),
                either(
                    level_number(suffix, "INFO"@, 9),
                    either(
                        level_number(suffix, "WARN"@, 13),
                        either(
                            level_number(suffix, "ERROR"@, 17),
                            level_number(suffix, "FATAL"@, 21),
                        ),
                    ),
                ),
            ),
        )
    } else {
        None
    }
}

fn number_within(name: &str, level: &str, base: i32) -> (n: Option<i32>)
    requires
        0 <= base <= 100,
    ensures
        n == level_number(name@, level@, base),
{
    if same(name, level) {
        return Some(base);
    }
    let mut second: String = level.to_owned();
    second.append("2");
    let mut third: String = level.to_owned();
    third.append("3");
    let mut fourth: String = level.to_owned();
    fourth.append("4");
    if same(name, second.as_str()) {
        Some(base + 1)
    } else if same(name, third.as_str()) {
        Some(base + 2)
    } else if same(name, fourth.as_str()) {
        Some(base + 3)
    } else {
        None
    }
}

/// The number of a severity by its proto enum name.
pub fn severity_number_by_name(name: &str) -> (n: Option<i32>)
    ensures
        n == severity_named(name@),
{
    let suffix: String = match strip_prefix(name, "SEVERITY_NUMBER_") {
        Some(suffix) => suffix,
        None => {
            return None;
        },
    };
    let suffix: &str = suffix.as_str();
    let trace: Option<i32> = number_within(suffix, "TRACE", 1);
    if trace.is_some() {
        return trace;
    }
    let debug: Option<i32> = number_within(suffix, "DEBUG", 5);
    if debug.is_some() {
        return debug;
    }
    let info: Option<i32> = number_within(suffix, "INFO", 9);
    if info.is_some() {
        return info;
    }
    let warn: Option<i32> = number_within(suffix, "WARN", 13);
    if warn.is_some() {
        return warn;
    }
    let error: Option<i32> = number_within(suffix, "ERROR", 17);
    if error.is_some() {
        return error;
    }
    number_within(suffix, "FATAL", 21)
}

// ---------------------------------------------------------------------------
// Timestamps
// ---------------------------------------------------------------------------

/// The earliest second an event may have happened in: 2001-01-01.
pub const MIN_SECONDS: u64 = 978_307_200;

/// The second behind the last one: 2100-01-01.
pub const MAX_SECONDS: u64 = 4_102_444_800;

/// How a raw timestamp was interpreted.
#[derive(Debug, Clone, Copy, PartialEq, Eq, Structural)]
pub enum TimeUnit {
    Nanos,
    Micros,
    Millis,
    Seconds,
}

impl TimeUnit {
    /// Nanoseconds in the unit.
    pub open spec fn nanos(self) -> nat {
        match self {
            TimeUnit::Nanos => 1,
            TimeUnit::Micros => 1_000,
            TimeUnit::Millis => 1_000_000,
            TimeUnit::Seconds => 1_000_000_000,
        }
    }

    /// Whether a count of the unit is a time from 2001 to 2100.
    pub open spec fn plausible(self, raw: u64) -> bool {
        MIN_SECONDS * 1_000_000_000 <= raw * self.nanos() < MAX_SECONDS * 1_000_000_000
    }
}

/// What a raw timestamp means: the unit in which it is a time from 2001 to 2100.
pub open spec fn normalized(raw: u64) -> Option<(u64, TimeUnit)> {
    if TimeUnit::Nanos.plausible(raw) {
        Some((raw, TimeUnit::Nanos))
    } else if TimeUnit::Micros.plausible(raw) {
        Some(((raw * 1_000) as u64, TimeUnit::Micros))
    } else if TimeUnit::Millis.plausible(raw) {
        Some(((raw * 1_000_000) as u64, TimeUnit::Millis))
    } else if TimeUnit::Seconds.plausible(raw) {
        Some(((raw * 1_000_000_000) as u64, TimeUnit::Seconds))
    } else {
        None
    }
}

/// Interprets a raw timestamp, with the unit corrected where it is unambiguous.
///
/// OTLP says nanoseconds, and sending seconds or milliseconds instead is a common
/// mistake. The magnitudes do not overlap for any date between 2001 and 2100, so the
/// intended unit is recoverable rather than a guess.
pub fn normalize_timestamp(raw: u64) -> (time: Option<(u64, TimeUnit)>)
    ensures
        time == normalized(raw),
{
    if MIN_SECONDS * 1_000_000_000 <= raw && raw < MAX_SECONDS * 1_000_000_000 {
        Some((raw, TimeUnit::Nanos))
    } else if MIN_SECONDS * 1_000_000 <= raw && raw < MAX_SECONDS * 1_000_000 {
        Some((raw * 1_000, TimeUnit::Micros))
    } else if MIN_SECONDS * 1_000 <= raw && raw < MAX_SECONDS * 1_000 {
        Some((raw * 1_000_000, TimeUnit::Millis))
    } else if MIN_SECONDS <= raw && raw < MAX_SECONDS {
        Some((raw * 1_000_000_000, TimeUnit::Seconds))
    } else {
        None
    }
}

/// What a field with a timestamp means; nothing where it is absent, zero or implausible.
pub open spec fn time_of(raw: Option<u64>) -> Option<(u64, TimeUnit)> {
    match raw {
        Some(raw) => if raw > 0 {
            normalized(raw)
        } else {
            None
        },
        None => None,
    }
}

/// What a field with a timestamp means.
pub fn field_time(raw: FlexU64) -> (time: Option<(u64, TimeUnit)>)
    ensures
        time == time_of(raw.value()),
{
    match raw.get() {
        Some(raw) => if raw > 0 {
            normalize_timestamp(raw)
        } else {
            None
        },
        None => None,
    }
}

// ---------------------------------------------------------------------------
// Bodies
// ---------------------------------------------------------------------------

/// What a log body that was cut ends in.
pub const TRUNCATION_MARK: &'static str = "…[truncated by telemetryd]";

/// The longest beginning of a text that takes at most `max` bytes.
pub open spec fn cut(s: Seq<char>, max: nat) -> Seq<char>
    decreases s.len(),
{
    if utf8_len(s) <= max || s.len() == 0 {
        s
    } else {
        cut(s.drop_last(), max)
    }
}

proof fn lemma_cut(s: Seq<char>, n: int, max: nat)
    requires
        0 <= n <= s.len(),
        utf8_len(s.take(n)) <= max,
        n < s.len() ==> utf8_len(s.take(n + 1)) > max,
    ensures
        cut(s, max) == s.take(n),
    decreases s.len(),
{
    if n == s.len() {
        assert(s.take(n) =~= s);
    } else {
        lemma_utf8_len_step(s, n);
        assert(s.drop_last().take(n) =~= s.take(n));
        if n < s.len() - 1 {
            assert(s.drop_last().take(n + 1) =~= s.take(n + 1));
        }
        lemma_cut(s.drop_last(), n, max);
    }
}

/// Cuts a text to at most `max` bytes without splitting a character.
pub fn truncate_on_char_boundary(text: &mut String, max: usize)
    ensures
        final(text)@ == cut(old(text)@, max as nat),
{
    let chars: Vec<char> = chars_of(text.as_str());
    let mut used: usize = 0;
    let mut n: usize = 0;
    assert(chars@.take(0) =~= Seq::empty());
    while n < chars.len() && width_of(chars[n]) <= max - used
        invariant
            n <= chars@.len(),
            used == utf8_len(chars@.take(n as int)),
            used <= max,
        decreases chars@.len() - n,
    {
        proof {
            lemma_utf8_len_step(chars@, n as int);
        }
        used = used + width_of(chars[n]);
        n += 1;
    }
    proof {
        if n < chars@.len() {
            lemma_utf8_len_step(chars@, n as int);
        }
        lemma_cut(chars@, n as int, max as nat);
        assert(chars@.subrange(0, n as int) =~= chars@.take(n as int));
    }
    *text = piece(chars.as_slice(), 0, n);
}

/// A body cut to `max` bytes with the mark at its end.
pub open spec fn marked(body: Seq<char>, max: nat) -> Seq<char> {
    let room = if max >= utf8_len(TRUNCATION_MARK@) {
        (max - utf8_len(TRUNCATION_MARK@)) as nat
    } else {
        0
    };
    cut(body, room) + TRUNCATION_MARK@
}

// ---------------------------------------------------------------------------
// Conversion
// ---------------------------------------------------------------------------

/// Everything a decode pass needs that is not the payload itself.
#[derive(Debug, Clone, Copy)]
pub struct DecodeContext<'a> {
    pub limits: &'a LimitsConfig,
    pub ingest: &'a IngestConfig,
    /// Used when a record carries no usable timestamp of its own.
    pub now_nanos: u64,
}

pub struct ContextView {
    pub limits: LimitsConfig,
    pub ingest: IngestView,
    pub now_nanos: u64,
}

impl<'a> View for DecodeContext<'a> {
    type V = ContextView;

    open spec fn view(&self) -> ContextView {
        ContextView { limits: *self.limits, ingest: self.ingest@, now_nanos: self.now_nanos }
    }
}

/// When a record happened: event time, or else observation time, or else arrival.
pub open spec fn log_time(raw: LogRecordView, ctx: ContextView) -> (u64, TimeUnit) {
    match either(time_of(raw.time_unix_nano), time_of(raw.observed_time_unix_nano)) {
        Some(time) => time,
        None => (ctx.now_nanos, TimeUnit::Nanos),
    }
}

/// A record's severity: that of its number, or else that of its text.
pub open spec fn log_severity(raw: LogRecordView) -> Severity {
    let numbered = match enum_number(raw.severity_number, |name: Seq<char>| severity_named(name)) {
        Some(n) => Severity::numbered(n as int),
        None => Severity::Unknown,
    };
    if numbered == Severity::Unknown {
        Severity::worded(raw.severity_text)
    } else {
        numbered
    }
}

/// A record's body as text.
pub open spec fn log_body(raw: LogRecordView) -> Seq<char> {
    match raw.body {
        Some(body) => match any_text(body) {
            Some(text) => text,
            None => Seq::empty(),
        },
        None => Seq::empty(),
    }
}

/// Whether a record's body is too large.
pub open spec fn oversized(raw: LogRecordView, ctx: ContextView) -> bool {
    utf8_len(log_body(raw)) > ctx.limits.max_log_line_bytes
}

/// The stream labels of a record: `app`, `level`, and the configured promotions.
pub open spec fn log_stream(inherited: Seq<Pair>, severity: Severity, ctx: ContextView) -> Seq<
    Pair,
> {
    promoted(
        inserted(
            inserted(Seq::empty(), APP_LABEL@, app_named(inherited)),
            LEVEL_LABEL@,
            severity.label(),
        ),
        inherited,
        ctx.ingest.stream_labels,
        Reserved { app: true, level: true },
    )
}

/// The record that is stored, or why none is.
pub open spec fn log_of(
    raw: LogRecordView,
    inherited: Seq<Pair>,
    inherited_attributes: Seq<Pair>,
    ctx: ContextView,
) -> Result<LogView, RejectionView> {
    let severity = log_severity(raw);
    let stream = log_stream(inherited, severity, ctx);
    let attributes = unpromoted(
        extended(Seq::empty(), raw.attributes, false),
        inherited_attributes,
        stream,
    );
    if oversized(raw, ctx) && !ctx.ingest.truncate_oversized_bodies {
        Err(
            RejectionView {
                reason: RejectReason::BodyTooLarge,
                detail: "log body of "@ + decimal(utf8_len(log_body(raw)))
                    + " bytes exceeds max_log_line_bytes"@,
            },
        )
    } else if labels_rejected(stream, "stream labels"@, ctx.limits) is Some {
        Err(labels_rejected(stream, "stream labels"@, ctx.limits)->Some_0)
    } else if attributes.len() > ctx.limits.max_attrs_per_record {
        Err(
            RejectionView {
                reason: RejectReason::TooManyAttributes,
                detail: decimal(attributes.len()) + " attributes exceeds max_attrs_per_record ("@
                    + decimal(ctx.limits.max_attrs_per_record as nat) + ")"@,
            },
        )
    } else {
        Ok(
            LogView {
                timestamp_nanos: log_time(raw, ctx).0,
                stream,
                severity,
                severity_text: raw.severity_text,
                body: if oversized(raw, ctx) {
                    marked(log_body(raw), ctx.limits.max_log_line_bytes as nat)
                } else {
                    log_body(raw)
                },
                attributes,
                trace_id: id_of(raw.trace_id),
                span_id: id_of(raw.span_id),
            },
        )
    }
}

/// What one more record brings a request to.
pub open spec fn with_log(
    tally: Tally<LogView>,
    raw: LogRecordView,
    inherited: Seq<Pair>,
    inherited_attributes: Seq<Pair>,
    ctx: ContextView,
) -> Tally<LogView> {
    tally.rescaled_if(log_time(raw, ctx).1 != TimeUnit::Nanos).truncated_if(
        oversized(raw, ctx) && ctx.ingest.truncate_oversized_bodies,
    ).with(log_of(raw, inherited, inherited_attributes, ctx))
}

/// The labels or attributes of a resource.
pub open spec fn resource_pairs(resource: Option<Seq<KeyView>>, sanitize: bool) -> Seq<Pair> {
    match resource {
        Some(attributes) => extended(Seq::empty(), attributes, sanitize),
        None => Seq::empty(),
    }
}

/// The labels that records of a scope inherit. Scope attributes win over the resource's.
pub open spec fn scope_labels(resource: Seq<Pair>, scope: Option<ScopeView>) -> Seq<Pair> {
    match scope {
        Some(scope) => {
            let labels = extended(resource, scope.attributes, true);
            if scope.name.len() == 0 {
                labels
            } else {
                inserted(labels, "scope_name"@, scope.name)
            }
        },
        None => resource,
    }
}

/// The attributes that records of a scope inherit.
pub open spec fn scope_attributes(resource: Seq<Pair>, scope: Option<ScopeView>) -> Seq<Pair> {
    match scope {
        Some(scope) => extended(resource, scope.attributes, false),
        None => resource,
    }
}

/// A request after the first `n` records of a scope.
pub open spec fn scope_tally(
    tally: Tally<LogView>,
    records: Seq<LogRecordView>,
    n: nat,
    labels: Seq<Pair>,
    attributes: Seq<Pair>,
    ctx: ContextView,
) -> Tally<LogView>
    decreases n,
{
    if n == 0 || n > records.len() {
        tally
    } else {
        with_log(
            scope_tally(tally, records, (n - 1) as nat, labels, attributes, ctx),
            records[n - 1],
            labels,
            attributes,
            ctx,
        )
    }
}

/// A request after the first `n` scopes of a resource.
pub open spec fn resource_tally(
    tally: Tally<LogView>,
    resource: ResourceLogsView,
    n: nat,
    ctx: ContextView,
) -> Tally<LogView>
    decreases n,
{
    if n == 0 || n > resource.scope_logs.len() {
        tally
    } else {
        let scope = resource.scope_logs[n - 1];
        scope_tally(
            resource_tally(tally, resource, (n - 1) as nat, ctx),
            scope.log_records,
            scope.log_records.len(),
            scope_labels(resource_pairs(resource.resource, true), scope.scope),
            scope_attributes(resource_pairs(resource.resource, false), scope.scope),
            ctx,
        )
    }
}

/// A request that may hold `budget` bytes after its first `n` resources.
pub open spec fn data_tally(
    data: Seq<ResourceLogsView>,
    n: nat,
    ctx: ContextView,
    budget: usize,
) -> Tally<LogView>
    decreases n,
{
    if n == 0 || n > data.len() {
        Tally::none(budget)
    } else {
        resource_tally(
            data_tally(data, (n - 1) as nat, ctx, budget),
            data[n - 1],
            data[n - 1].scope_logs.len(),
            ctx,
        )
    }
}

/// Converts an already-parsed payload. Every limit, rejection reason and counter applies
/// here, whatever encoding the payload arrived in.
pub fn convert_data(data: &LogsData, ctx: DecodeContext<'_>) -> (decoded: Decoded<LogRecord>)
    ensures
        decoded.tally() == data_tally(data@, data@.len(), ctx@, allowance(ctx@.limits)),
        decoded.tally().agrees(data_tally(data@, data@.len(), ctx@, usize::MAX)),
{
    let mut decoded: Decoded<LogRecord> = Decoded::bounded(ctx.limits);
    proof {
        lemma_empty_tally(decoded);
    }
    let ghost all = data@;
    let mut i: usize = 0;
    while i < data.resource_logs.len()
        invariant
            i <= data.resource_logs@.len(),
            all == views(data.resource_logs@),
            decoded.tally() == data_tally(all, i as nat, ctx@, allowance(ctx@.limits)),
        decreases data.resource_logs@.len() - i,
    {
        assert(all[i as int] == data.resource_logs@[i as int]@);
        convert_resource(&data.resource_logs[i], ctx, &mut decoded);
        i += 1;
    }
    proof {
        lemma_data_agrees(all, all.len(), ctx@, allowance(ctx@.limits));
    }
    decoded
}

fn convert_resource(
    resource_logs: &ResourceLogs,
    ctx: DecodeContext<'_>,
    decoded: &mut Decoded<LogRecord>,
)
    ensures
        final(decoded).tally() == resource_tally(
            old(decoded).tally(),
            resource_logs@,
            resource_logs@.scope_logs.len(),
            ctx@,
        ),
{
    let ghost start = decoded.tally();
    let ghost whole = resource_logs@;
    let mut resource_labels: Labels = Labels::new();
    let mut resource_attributes: Labels = Labels::new();
    match &resource_logs.resource {
        Some(resource) => {
            extend_labels(&mut resource_labels, &resource.attributes);
            extend_attributes(&mut resource_attributes, &resource.attributes);
        },
        None => {},
    }
    let mut i: usize = 0;
    while i < resource_logs.scope_logs.len()
        invariant
            i <= resource_logs.scope_logs@.len(),
            whole == resource_logs@,
            resource_labels@ == resource_pairs(whole.resource, true),
            resource_attributes@ == resource_pairs(whole.resource, false),
            decoded.tally() == resource_tally(start, whole, i as nat, ctx@),
        decreases resource_logs.scope_logs@.len() - i,
    {
        let scope_logs: &ScopeLogs = &resource_logs.scope_logs[i];
        assert(whole.scope_logs[i as int] == resource_logs.scope_logs@[i as int]@);
        let mut labels: Labels = resource_labels.clone();
        let mut attributes: Labels = resource_attributes.clone();
        match &scope_logs.scope {
            Some(scope) => {
                extend_labels(&mut labels, &scope.attributes);
                extend_attributes(&mut attributes, &scope.attributes);
                if !scope.name.as_str().is_empty() {
                    labels.insert("scope_name", scope.name.as_str());
                }
            },
            None => {},
        }
        convert_scope(&scope_logs.log_records, &labels, &attributes, ctx, decoded);
        i += 1;
    }
}

fn convert_scope(
    records: &Vec<LogRecordJson>,
    labels: &Labels,
    attributes: &Labels,
    ctx: DecodeContext<'_>,
    decoded: &mut Decoded<LogRecord>,
)
    ensures
        final(decoded).tally() == scope_tally(
            old(decoded).tally(),
            views(records@),
            records@.len(),
            labels@,
            attributes@,
            ctx@,
        ),
{
    let ghost start = decoded.tally();
    let ghost all = views(records@);
    let mut i: usize = 0;
    while i < records.len()
        invariant
            i <= records@.len(),
            all == views(records@),
            decoded.tally() == scope_tally(start, all, i as nat, labels@, attributes@, ctx@),
        decreases records@.len() - i,
    {
        assert(all[i as int] == records@[i as int]@);
        let converted: Result<LogRecord, Rejection> = convert(
            &records[i],
            labels,
            attributes,
            ctx,
            decoded,
        );
        decoded.push(converted);
        i += 1;
    }
}

fn convert(
    raw: &LogRecordJson,
    inherited: &Labels,
    inherited_attributes: &Labels,
    ctx: DecodeContext<'_>,
    decoded: &mut Decoded<LogRecord>,
) -> (r: Result<LogRecord, Rejection>)
    ensures
        log_of(raw@, inherited@, inherited_attributes@, ctx@) == (match r {
            Ok(record) => Ok::<LogView, RejectionView>(record@),
            Err(rejection) => Err(rejection@),
        }),
        final(decoded).tally() == old(decoded).tally().rescaled_if(
            log_time(raw@, ctx@).1 != TimeUnit::Nanos,
        ).truncated_if(oversized(raw@, ctx@) && ctx@.ingest.truncate_oversized_bodies),
{
    let time: (u64, TimeUnit) = match field_time(raw.time_unix_nano) {
        Some(time) => time,
        None => match field_time(raw.observed_time_unix_nano) {
            Some(time) => time,
            None => (ctx.now_nanos, TimeUnit::Nanos),
        },
    };
    if time.1 != TimeUnit::Nanos {
        decoded.rescaled_timestamps = count(decoded.rescaled_timestamps);
    }
    let severity: Severity = severity_of(raw);
    let mut body: String = match &raw.body {
        Some(body) => match body.to_text() {
            Some(text) => text,
            None => String::new(),
        },
        None => String::new(),
    };
    assert(body@ =~= log_body(raw@));
    let size: usize = byte_len(body.as_str());
    if size as u64 > ctx.limits.max_log_line_bytes {
        if !ctx.ingest.truncate_oversized_bodies {
            let mut detail: String = "log body of ".to_owned();
            detail.append(decimal_text(size as u64).as_str());
            detail.append(" bytes exceeds max_log_line_bytes");
            return Err(Rejection::new(RejectReason::BodyTooLarge, detail));
        }
        let max_body: usize = ctx.limits.max_log_line_bytes as usize;
        let mark: usize = byte_len(TRUNCATION_MARK);
        truncate_on_char_boundary(&mut body, max_body.saturating_sub(mark));
        body.append(TRUNCATION_MARK);
        decoded.truncated_bodies = count(decoded.truncated_bodies);
    }
    let mut attributes: Labels = Labels::new();
    extend_attributes(&mut attributes, &raw.attributes);
    let stream: Labels = match build_stream_labels(inherited, severity, ctx) {
        Ok(stream) => stream,
        Err(rejection) => {
            return Err(rejection);
        },
    };
    keep_unpromoted(&mut attributes, inherited_attributes, &stream);
    if attributes.len() > ctx.limits.max_attrs_per_record as usize {
        let mut detail: String = decimal_text(attributes.len() as u64);
        detail.append(" attributes exceeds max_attrs_per_record (");
        detail.append(decimal_text(ctx.limits.max_attrs_per_record as u64).as_str());
        detail.append(")");
        return Err(Rejection::new(RejectReason::TooManyAttributes, detail));
    }
    Ok(
        LogRecord {
            timestamp_nanos: time.0,
            stream,
            severity,
            severity_text: raw.severity_text.clone(),
            body,
            attributes,
            trace_id: normalize_id(raw.trace_id.as_str()),
            span_id: normalize_id(raw.span_id.as_str()),
        },
    )
}

fn severity_of(raw: &LogRecordJson) -> (severity: Severity)
    ensures
        severity == log_severity(raw@),
{
    match raw.severity_number.resolve(severity_number_by_name) {
        Some(n) => {
            let severity: Severity = Severity::from_otlp_number(n);
            if severity != Severity::Unknown {
                return severity;
            }
        },
        None => {},
    }
    Severity::from_text(raw.severity_text.as_str())
}

/// The stream labels of a record: `app`, `level`, and the configured promotions.
fn build_stream_labels(inherited: &Labels, severity: Severity, ctx: DecodeContext<'_>) -> (r:
    Result<Labels, Rejection>)
    ensures
        match labels_rejected(
            log_stream(inherited@, severity, ctx@),
            "stream labels"@,
            ctx@.limits,
        ) {
            Some(rejection) => r is Err && r->Err_0@ == rejection,
            None => r is Ok && r->Ok_0@ == log_stream(inherited@, severity, ctx@),
        },
{
    let mut stream: Labels = Labels::new();
    stream.insert(APP_LABEL, app_name(inherited));
    stream.insert(LEVEL_LABEL, severity.as_str());
    promote(
        &mut stream,
        inherited,
        &ctx.ingest.stream_labels,
        Reserved { app: true, level: true },
    );
    match check_labels(&stream, "stream labels", ctx.limits) {
        Some(rejection) => Err(rejection),
        None => Ok(stream),
    }
}

// ---------------------------------------------------------------------------
// Laws
// ---------------------------------------------------------------------------

/// No raw timestamp is plausible in two units, and what it is taken for is a time from
/// 2001 to 2100.
pub proof fn law_units_do_not_overlap(raw: u64, one: TimeUnit, other: TimeUnit)
    ensures
        one.plausible(raw) && other.plausible(raw) ==> one == other,
        match normalized(raw) {
            Some((nanos, unit)) => unit.plausible(raw) && nanos == raw * unit.nanos()
                && MIN_SECONDS * 1_000_000_000 <= nanos < MAX_SECONDS * 1_000_000_000,
            None => !one.plausible(raw),
        },
{
    assert(TimeUnit::Nanos.plausible(raw) || TimeUnit::Micros.plausible(raw)
        || TimeUnit::Millis.plausible(raw) || TimeUnit::Seconds.plausible(raw)
        || normalized(raw) is None);
    match one {
        TimeUnit::Nanos => {},
        TimeUnit::Micros => {},
        TimeUnit::Millis => {},
        TimeUnit::Seconds => {},
    }
    match other {
        TimeUnit::Nanos => {},
        TimeUnit::Micros => {},
        TimeUnit::Millis => {},
        TimeUnit::Seconds => {},
    }
}

/// A normalised timestamp is normalised to itself.
pub proof fn law_normalized_is_nanoseconds(raw: u64)
    ensures
        match normalized(raw) {
            Some((nanos, _)) => normalized(nanos) == Some((nanos, TimeUnit::Nanos)),
            None => true,
        },
{
}

/// A cut text is a beginning of the text and takes at most `max` bytes.
pub proof fn law_cut_fits(s: Seq<char>, max: nat)
    ensures
        utf8_len(cut(s, max)) <= max,
        cut(s, max).len() <= s.len(),
        cut(s, max) == s.take(cut(s, max).len() as int),
        utf8_len(s) <= max ==> cut(s, max) == s,
    decreases s.len(),
{
    if utf8_len(s) <= max || s.len() == 0 {
        assert(s.take(s.len() as int) =~= s);
    } else {
        law_cut_fits(s.drop_last(), max);
        let n = cut(s, max).len() as int;
        assert(s.drop_last().take(n) =~= s.take(n));
    }
}

/// A body that was cut ends in the mark and takes no more than it may, as long as the
/// mark itself does not.
pub proof fn law_marked_fits(body: Seq<char>, max: nat)
    ensures
        crate::text::ends_with(marked(body, max), TRUNCATION_MARK@),
        max >= utf8_len(TRUNCATION_MARK@) ==> utf8_len(marked(body, max)) <= max,
{
    let room = if max >= utf8_len(TRUNCATION_MARK@) {
        (max - utf8_len(TRUNCATION_MARK@)) as nat
    } else {
        0
    };
    let head = cut(body, room);
    law_cut_fits(body, room);
    lemma_utf8_len_concat(head, TRUNCATION_MARK@);
    assert(marked(body, max).skip(head.len() as int) =~= TRUNCATION_MARK@);
}

/// Every stream names its application, and its level is the record's severity, whatever
/// is configured.
pub proof fn law_app_and_level_are_always_there(
    inherited: Seq<Pair>,
    severity: Severity,
    ctx: ContextView,
)
    ensures
        lookup(log_stream(inherited, severity, ctx), APP_LABEL@) == Some(app_named(inherited)),
        lookup(log_stream(inherited, severity, ctx), LEVEL_LABEL@) == Some(severity.label()),
{
    let reserved = Reserved { app: true, level: true };
    let empty = Seq::<Pair>::empty();
    let one = inserted(empty, APP_LABEL@, app_named(inherited));
    let two = inserted(one, LEVEL_LABEL@, severity.label());
    reveal_strlit("app");
    reveal_strlit("level");
    assert(APP_LABEL@.len() != LEVEL_LABEL@.len());
    crate::labels::law_insert_keeps_order(empty, APP_LABEL@, app_named(inherited));
    crate::labels::law_insert_then_get(empty, APP_LABEL@, app_named(inherited), APP_LABEL@);
    crate::labels::law_insert_keeps_order(one, LEVEL_LABEL@, severity.label());
    crate::labels::law_insert_then_get(one, LEVEL_LABEL@, severity.label(), LEVEL_LABEL@);
    crate::labels::law_insert_then_get(one, LEVEL_LABEL@, severity.label(), APP_LABEL@);
    crate::streams::law_reserved_labels_are_kept(
        two,
        inherited,
        ctx.ingest.stream_labels,
        reserved,
        APP_LABEL@,
    );
    crate::streams::law_reserved_labels_are_kept(
        two,
        inherited,
        ctx.ingest.stream_labels,
        reserved,
        LEVEL_LABEL@,
    );
}

/// How many records a payload holds.
pub open spec fn record_count(data: Seq<ResourceLogsView>, n: nat) -> nat
    decreases n,
{
    if n == 0 || n > data.len() {
        0
    } else {
        record_count(data, (n - 1) as nat) + scope_count(
            data[n - 1].scope_logs,
            data[n - 1].scope_logs.len(),
        )
    }
}

pub open spec fn scope_count(scopes: Seq<ScopeLogsView>, n: nat) -> nat
    decreases n,
{
    if n == 0 || n > scopes.len() {
        0
    } else {
        scope_count(scopes, (n - 1) as nat) + scopes[n - 1].log_records.len()
    }
}

/// Nothing is lost in silence: every record of a payload is kept or refused with a reason,
/// unless the request is over its budget and refused as a whole.
pub proof fn law_every_record_is_accounted_for(
    data: Seq<ResourceLogsView>,
    ctx: ContextView,
    budget: usize,
)
    ensures
        !data_tally(data, data.len(), ctx, budget).over() ==> data_tally(
            data,
            data.len(),
            ctx,
            budget,
        ).total() == record_count(data, data.len()),
{
    lemma_data_total(data, data.len(), ctx, budget);
}

/// What a payload is decoded into stays within the budget, however far it would expand.
pub proof fn law_what_is_decoded_is_bounded(
    data: Seq<ResourceLogsView>,
    ctx: ContextView,
    budget: usize,
)
    ensures
        data_tally(data, data.len(), ctx, budget).balanced(),
        data_tally(data, data.len(), ctx, budget).budget == budget,
{
    lemma_data_total(data, data.len(), ctx, budget);
}

proof fn lemma_data_total(
    data: Seq<ResourceLogsView>,
    n: nat,
    ctx: ContextView,
    budget: usize,
)
    requires
        n <= data.len(),
    ensures
        data_tally(data, n, ctx, budget).balanced(),
        data_tally(data, n, ctx, budget).budget == budget,
        !data_tally(data, n, ctx, budget).over() ==> data_tally(data, n, ctx, budget).total()
            == record_count(data, n),
    decreases n,
{
    if n > 0 {
        lemma_data_total(data, (n - 1) as nat, ctx, budget);
        lemma_resource_total(
            data_tally(data, (n - 1) as nat, ctx, budget),
            data[n - 1],
            data[n - 1].scope_logs.len(),
            ctx,
        );
    }
}

proof fn lemma_resource_total(
    tally: Tally<LogView>,
    resource: ResourceLogsView,
    n: nat,
    ctx: ContextView,
)
    requires
        n <= resource.scope_logs.len(),
        tally.balanced(),
    ensures
        ({
            let after = resource_tally(tally, resource, n, ctx);
            &&& after.balanced()
            &&& after.budget == tally.budget
            &&& tally.over() ==> after.over()
            &&& !after.over() ==> after.total() == tally.total() + scope_count(
                resource.scope_logs,
                n,
            )
        }),
    decreases n,
{
    if n > 0 {
        lemma_resource_total(tally, resource, (n - 1) as nat, ctx);
        let scope = resource.scope_logs[n - 1];
        lemma_scope_total(
            resource_tally(tally, resource, (n - 1) as nat, ctx),
            scope.log_records,
            scope.log_records.len(),
            scope_labels(resource_pairs(resource.resource, true), scope.scope),
            scope_attributes(resource_pairs(resource.resource, false), scope.scope),
            ctx,
        );
    }
}

proof fn lemma_scope_total(
    tally: Tally<LogView>,
    records: Seq<LogRecordView>,
    n: nat,
    labels: Seq<Pair>,
    attributes: Seq<Pair>,
    ctx: ContextView,
)
    requires
        n <= records.len(),
        tally.balanced(),
    ensures
        ({
            let after = scope_tally(tally, records, n, labels, attributes, ctx);
            &&& after.balanced()
            &&& after.budget == tally.budget
            &&& tally.over() ==> after.over()
            &&& !after.over() ==> after.total() == tally.total() + n
        }),
    decreases n,
{
    if n > 0 {
        lemma_scope_total(tally, records, (n - 1) as nat, labels, attributes, ctx);
        let before = scope_tally(tally, records, (n - 1) as nat, labels, attributes, ctx);
        let raw = records[n - 1];
        law_what_is_held_is_bounded(
            before.rescaled_if(log_time(raw, ctx).1 != TimeUnit::Nanos).truncated_if(
                oversized(raw, ctx) && ctx.ingest.truncate_oversized_bodies,
            ),
            log_of(raw, labels, attributes, ctx),
        );
    }
}

/// A request that is not over its budget comes to what it would come to without one.
proof fn lemma_data_agrees(data: Seq<ResourceLogsView>, n: nat, ctx: ContextView, budget: usize)
    ensures
        data_tally(data, n, ctx, budget).agrees(data_tally(data, n, ctx, usize::MAX)),
    decreases n,
{
    if 0 < n <= data.len() {
        lemma_data_agrees(data, (n - 1) as nat, ctx, budget);
        lemma_resource_agrees(
            data_tally(data, (n - 1) as nat, ctx, budget),
            data_tally(data, (n - 1) as nat, ctx, usize::MAX),
            data[n - 1],
            data[n - 1].scope_logs.len(),
            ctx,
        );
    }
}

proof fn lemma_resource_agrees(
    small: Tally<LogView>,
    whole: Tally<LogView>,
    resource: ResourceLogsView,
    n: nat,
    ctx: ContextView,
)
    requires
        small.agrees(whole),
    ensures
        resource_tally(small, resource, n, ctx).agrees(
            resource_tally(whole, resource, n, ctx),
        ),
    decreases n,
{
    if 0 < n <= resource.scope_logs.len() {
        let scope = resource.scope_logs[n - 1];
        lemma_resource_agrees(small, whole, resource, (n - 1) as nat, ctx);
        lemma_scope_agrees(
            resource_tally(small, resource, (n - 1) as nat, ctx),
            resource_tally(whole, resource, (n - 1) as nat, ctx),
            scope.log_records,
            scope.log_records.len(),
            scope_labels(resource_pairs(resource.resource, true), scope.scope),
            scope_attributes(resource_pairs(resource.resource, false), scope.scope),
            ctx,
        );
    }
}

proof fn lemma_scope_agrees(
    small: Tally<LogView>,
    whole: Tally<LogView>,
    items: Seq<LogRecordView>,
    n: nat,
    labels: Seq<Pair>,
    attributes: Seq<Pair>,
    ctx: ContextView,
)
    requires
        small.agrees(whole),
    ensures
        scope_tally(small, items, n, labels, attributes, ctx).agrees(
            scope_tally(whole, items, n, labels, attributes, ctx),
        ),
    decreases n,
{
    if 0 < n <= items.len() {
        lemma_scope_agrees(small, whole, items, (n - 1) as nat, labels, attributes, ctx);
        let raw = items[n - 1];
        let a = scope_tally(small, items, (n - 1) as nat, labels, attributes, ctx);
        let b = scope_tally(whole, items, (n - 1) as nat, labels, attributes, ctx);
        lemma_with_agrees(
            a.rescaled_if(log_time(raw, ctx).1 != TimeUnit::Nanos).truncated_if(
                oversized(raw, ctx) && ctx.ingest.truncate_oversized_bodies,
            ),
            b.rescaled_if(log_time(raw, ctx).1 != TimeUnit::Nanos).truncated_if(
                oversized(raw, ctx) && ctx.ingest.truncate_oversized_bodies,
            ),
            log_of(raw, labels, attributes, ctx),
        );
    }
}

/// A text is cut no shorter than it must be: with one more character it would take too much.
pub proof fn law_a_cut_keeps_what_fits(s: Seq<char>, max: nat)
    ensures
        cut(s, max).len() < s.len() ==> utf8_len(s.take(cut(s, max).len() as int + 1)) > max,
    decreases s.len(),
{
    if utf8_len(s) > max && s.len() > 0 {
        let front = s.drop_last();
        law_cut_fits(front, max);
        law_a_cut_keeps_what_fits(front, max);
        let n = cut(s, max).len() as int;
        if n < front.len() {
            assert(front.take(n + 1) =~= s.take(n + 1));
        } else {
            assert(s.take(n + 1) =~= s);
        }
    }
}

} // verus!
