//! OTLP spans, converted to what is stored.
use vstd::prelude::*;

use crate::config::{IngestConfig, LimitsConfig};
use crate::decoded::{
    allowance, count, law_what_is_held_is_bounded, lemma_empty_tally, lemma_with_agrees, Decoded,
    RejectReason, Rejection, RejectionView, Tally,
};
use crate::labels::{inserted, lookup, Labels, Pair, APP_LABEL};
use crate::logs::{
    field_time, resource_pairs, scope_labels, time_of, ContextView, DecodeContext, TimeUnit,
};
use crate::otlp::{
    enum_number, extend_attributes, extend_labels, extended, id_of, normalize_id, FlexEnum,
    FlexEnumView, FlexU64, InstrumentationScope, KeyValue, KeyView, Resource, ScopeView,
};
use crate::record::{SpanEvent, SpanEventView, SpanKind, SpanRecord, SpanStatus, SpanView};
use crate::streams::{
    app_name, app_named, check_label_count, promote, promoted, too_many_labels, Reserved,
};
use crate::text::{debug_text, decimal, decimal_text, lemma_views_push, option_view, quoted, views};

verus! {

// ---------------------------------------------------------------------------
// Wire types
// ---------------------------------------------------------------------------

#[derive(Debug)]
pub struct TracesData {
    pub resource_spans: Vec<ResourceSpans>,
}

#[derive(Debug)]
pub struct ResourceSpans {
    pub resource: Option<Resource>,
    pub scope_spans: Vec<ScopeSpans>,
}

#[derive(Debug)]
pub struct ScopeSpans {
    pub scope: Option<InstrumentationScope>,
    pub spans: Vec<SpanJson>,
}

#[derive(Debug)]
pub struct SpanJson {
    pub trace_id: String,
    pub span_id: String,
    pub parent_span_id: String,
    pub name: String,
    pub kind: FlexEnum,
    pub start_time_unix_nano: FlexU64,
    pub end_time_unix_nano: FlexU64,
    pub attributes: Vec<KeyValue>,
    pub events: Vec<SpanEventJson>,
    pub status: Option<StatusJson>,
}

#[derive(Debug)]
pub struct SpanEventJson {
    pub time_unix_nano: FlexU64,
    pub name: String,
    pub attributes: Vec<KeyValue>,
}

#[derive(Debug)]
pub struct StatusJson {
    pub code: FlexEnum,
    pub message: String,
}

pub struct ResourceSpansView {
    pub resource: Option<Seq<KeyView>>,
    pub scope_spans: Seq<ScopeSpansView>,
}

pub struct ScopeSpansView {
    pub scope: Option<ScopeView>,
    pub spans: Seq<SpanJsonView>,
}

pub struct SpanJsonView {
    pub trace_id: Seq<char>,
    pub span_id: Seq<char>,
    pub parent_span_id: Seq<char>,
    pub name: Seq<char>,
    pub kind: FlexEnumView,
    pub start_time_unix_nano: Option<u64>,
    pub end_time_unix_nano: Option<u64>,
    pub attributes: Seq<KeyView>,
    pub events: Seq<EventJsonView>,
    pub status: Option<StatusView>,
}

pub struct EventJsonView {
    pub time_unix_nano: Option<u64>,
    pub name: Seq<char>,
    pub attributes: Seq<KeyView>,
}

pub struct StatusView {
    pub code: FlexEnumView,
    pub message: Seq<char>,
}

impl View for TracesData {
    type V = Seq<ResourceSpansView>;

    open spec fn view(&self) -> Seq<ResourceSpansView> {
        views(self.resource_spans@)
    }
}

impl View for ResourceSpans {
    type V = ResourceSpansView;

    open spec fn view(&self) -> ResourceSpansView {
        ResourceSpansView {
            resource: option_view(self.resource),
            scope_spans: views(self.scope_spans@),
        }
    }
}

impl View for ScopeSpans {
    type V = ScopeSpansView;

    open spec fn view(&self) -> ScopeSpansView {
        ScopeSpansView { scope: option_view(self.scope), spans: views(self.spans@) }
    }
}

impl View for SpanJson {
    type V = SpanJsonView;

    open spec fn view(&self) -> SpanJsonView {
        SpanJsonView {
            trace_id: self.trace_id@,
            span_id: self.span_id@,
            parent_span_id: self.parent_span_id@,
            name: self.name@,
            kind: self.kind@,
            start_time_unix_nano: self.start_time_unix_nano.value(),
            end_time_unix_nano: self.end_time_unix_nano.value(),
            attributes: views(self.attributes@),
            events: views(self.events@),
            status: option_view(self.status),
        }
    }
}

impl View for SpanEventJson {
    type V = EventJsonView;

    open spec fn view(&self) -> EventJsonView {
        EventJsonView {
            time_unix_nano: self.time_unix_nano.value(),
            name: self.name@,
            attributes: views(self.attributes@),
        }
    }
}

impl View for StatusJson {
    type V = StatusView;

    open spec fn view(&self) -> StatusView {
        StatusView { code: self.code@, message: self.message@ }
    }
}

impl ResourceSpansView {
    pub open spec fn none() -> ResourceSpansView {
        ResourceSpansView { resource: None, scope_spans: Seq::empty() }
    }
}

impl ScopeSpansView {
    pub open spec fn none() -> ScopeSpansView {
        ScopeSpansView { scope: None, spans: Seq::empty() }
    }
}

impl SpanJsonView {
    pub open spec fn none() -> SpanJsonView {
        SpanJsonView {
            trace_id: Seq::empty(),
            span_id: Seq::empty(),
            parent_span_id: Seq::empty(),
            name: Seq::empty(),
            kind: FlexEnumView::Absent,
            start_time_unix_nano: None,
            end_time_unix_nano: None,
            attributes: Seq::empty(),
            events: Seq::empty(),
            status: None,
        }
    }
}

impl EventJsonView {
    pub open spec fn none() -> EventJsonView {
        EventJsonView { time_unix_nano: None, name: Seq::empty(), attributes: Seq::empty() }
    }
}

impl StatusView {
    pub open spec fn none() -> StatusView {
        StatusView { code: FlexEnumView::Absent, message: Seq::empty() }
    }
}

impl Default for TracesData {
    fn default() -> (data: TracesData)
        ensures
            data@ == Seq::<ResourceSpansView>::empty(),
    {
        let data = TracesData { resource_spans: Vec::new() };
        assert(data@ =~= Seq::<ResourceSpansView>::empty());
        data
    }
}

impl Default for ResourceSpans {
    fn default() -> (spans: ResourceSpans)
        ensures
            spans@ == ResourceSpansView::none(),
    {
        let spans = ResourceSpans { resource: None, scope_spans: Vec::new() };
        assert(spans@.scope_spans =~= Seq::<ScopeSpansView>::empty());
        spans
    }
}

impl Default for ScopeSpans {
    fn default() -> (spans: ScopeSpans)
        ensures
            spans@ == ScopeSpansView::none(),
    {
        let spans = ScopeSpans { scope: None, spans: Vec::new() };
        assert(spans@.spans =~= Seq::<SpanJsonView>::empty());
        spans
    }
}

impl Default for SpanJson {
    fn default() -> (span: SpanJson)
        ensures
            span@ == SpanJsonView::none(),
    {
        let span = SpanJson {
            trace_id: String::new(),
            span_id: String::new(),
            parent_span_id: String::new(),
            name: String::new(),
            kind: FlexEnum::Absent,
            start_time_unix_nano: FlexU64::Absent,
            end_time_unix_nano: FlexU64::Absent,
            attributes: Vec::new(),
            events: Vec::new(),
            status: None,
        };
        assert(span@.trace_id =~= Seq::<char>::empty());
        assert(span@.span_id =~= Seq::<char>::empty());
        assert(span@.parent_span_id =~= Seq::<char>::empty());
        assert(span@.name =~= Seq::<char>::empty());
        assert(span@.attributes =~= Seq::<KeyView>::empty());
        assert(span@.events =~= Seq::<EventJsonView>::empty());
        span
    }
}

impl Default for SpanEventJson {
    fn default() -> (event: SpanEventJson)
        ensures
            event@ == EventJsonView::none(),
    {
        let event = SpanEventJson {
            time_unix_nano: FlexU64::Absent,
            name: String::new(),
            attributes: Vec::new(),
        };
        assert(event@.name =~= Seq::<char>::empty());
        assert(event@.attributes =~= Seq::<KeyView>::empty());
        event
    }
}

impl Default for StatusJson {
    fn default() -> (status: StatusJson)
        ensures
            status@ == StatusView::none(),
    {
        let status = StatusJson { code: FlexEnum::Absent, message: String::new() };
        assert(status@.message =~= Seq::<char>::empty());
        status
    }
}

// ---------------------------------------------------------------------------
// What a span becomes
// ---------------------------------------------------------------------------

/// When a span started: its own time, or else arrival.
pub open spec fn span_start(raw: SpanJsonView, ctx: ContextView) -> (u64, TimeUnit) {
    match time_of(raw.start_time_unix_nano) {
        Some(time) => time,
        None => (ctx.now_nanos, TimeUnit::Nanos),
    }
}

/// A time that falls back to the span's start.
pub open spec fn time_or(raw: Option<u64>, start: u64) -> u64 {
    match time_of(raw) {
        Some((nanos, _)) => nanos,
        None => start,
    }
}

pub open spec fn kind_number(name: Seq<char>) -> Option<i32> {
    match SpanKind::named(name) {
        Some(kind) => Some(kind.number() as i32),
        None => None,
    }
}

pub open spec fn status_number(name: Seq<char>) -> Option<i32> {
    match SpanStatus::named(name) {
        Some(status) => Some(status.number() as i32),
        None => None,
    }
}

pub open spec fn span_kind(kind: FlexEnumView) -> SpanKind {
    match enum_number(kind, |name: Seq<char>| kind_number(name)) {
        Some(n) => SpanKind::numbered(n as int),
        None => SpanKind::Unspecified,
    }
}

pub open spec fn span_status(status: Option<StatusView>) -> SpanStatus {
    match status {
        Some(status) => match enum_number(status.code, |name: Seq<char>| status_number(name)) {
            Some(n) => SpanStatus::numbered(n as int),
            None => SpanStatus::Unset,
        },
        None => SpanStatus::Unset,
    }
}

/// What a span's events become.
pub open spec fn span_events(events: Seq<EventJsonView>, start: u64) -> Seq<SpanEventView> {
    events.map_values(
        |event: EventJsonView|
            SpanEventView {
                time_nanos: time_or(event.time_unix_nano, start),
                name: event.name,
                attributes: extended(Seq::empty(), event.attributes, false),
            },
    )
}

/// The stream labels of a span: `app` and the configured promotions. Severity is a log
/// concept, so there is no `level`.
pub open spec fn span_stream(inherited: Seq<Pair>, ctx: ContextView) -> Seq<Pair> {
    promoted(
        inserted(Seq::empty(), APP_LABEL@, app_named(inherited)),
        inherited,
        ctx.ingest.stream_labels,
        Reserved { app: true, level: false },
    )
}

/// The span that is stored, or why none is.
pub open spec fn span_of(raw: SpanJsonView, inherited: Seq<Pair>, ctx: ContextView) -> Result<
    SpanView,
    RejectionView,
> {
    let attributes = extended(Seq::empty(), raw.attributes, false);
    let stream = span_stream(inherited, ctx);
    let start = span_start(raw, ctx).0;
    if id_of(raw.trace_id) is None {
        Err(
            RejectionView {
                reason: RejectReason::MissingTraceId,
                detail: "span "@ + debug_text(raw.name) + " has no usable traceId"@,
            },
        )
    } else if id_of(raw.span_id) is None {
        Err(
            RejectionView {
                reason: RejectReason::MissingSpanId,
                detail: "span "@ + debug_text(raw.name) + " has no usable spanId"@,
            },
        )
    } else if attributes.len() > ctx.limits.max_attrs_per_record {
        Err(
            RejectionView {
                reason: RejectReason::TooManyAttributes,
                detail: decimal(attributes.len())
                    + " span attributes exceeds max_attrs_per_record ("@ + decimal(
                    ctx.limits.max_attrs_per_record as nat,
                ) + ")"@,
            },
        )
    } else if too_many_labels(stream, "stream labels"@, ctx.limits) is Some {
        Err(too_many_labels(stream, "stream labels"@, ctx.limits)->Some_0)
    } else {
        Ok(
            SpanView {
                trace_id: id_of(raw.trace_id)->Some_0,
                span_id: id_of(raw.span_id)->Some_0,
                parent_span_id: id_of(raw.parent_span_id),
                name: raw.name,
                kind: span_kind(raw.kind),
                start_nanos: start,
                end_nanos: time_or(raw.end_time_unix_nano, start),
                status: span_status(raw.status),
                status_message: match raw.status {
                    Some(status) => status.message,
                    None => Seq::empty(),
                },
                stream,
                attributes,
                events: span_events(raw.events, start),
                links: Seq::empty(),
            },
        )
    }
}

/// Whether a span's start was sent in the wrong unit. A span without ids is refused
/// before its time is looked at.
pub open spec fn span_rescaled(raw: SpanJsonView, ctx: ContextView) -> bool {
    id_of(raw.trace_id) is Some && id_of(raw.span_id) is Some && span_start(raw, ctx).1
        != TimeUnit::Nanos
}

/// A request after the first `n` spans of a scope.
pub open spec fn scope_tally(
    tally: Tally<SpanView>,
    spans: Seq<SpanJsonView>,
    n: nat,
    labels: Seq<Pair>,
    ctx: ContextView,
) -> Tally<SpanView>
    decreases n,
{
    if n == 0 || n > spans.len() {
        tally
    } else {
        let raw = spans[n - 1];
        scope_tally(tally, spans, (n - 1) as nat, labels, ctx).rescaled_if(
            span_rescaled(raw, ctx),
        ).with(span_of(raw, labels, ctx))
    }
}

/// A request after the first `n` scopes of a resource.
pub open spec fn resource_tally(
    tally: Tally<SpanView>,
    resource: ResourceSpansView,
    n: nat,
    ctx: ContextView,
) -> Tally<SpanView>
    decreases n,
{
    if n == 0 || n > resource.scope_spans.len() {
        tally
    } else {
        let scope = resource.scope_spans[n - 1];
        scope_tally(
            resource_tally(tally, resource, (n - 1) as nat, ctx),
            scope.spans,
            scope.spans.len(),
            scope_labels(resource_pairs(resource.resource, true), scope.scope),
            ctx,
        )
    }
}

/// A request that may hold `budget` bytes after its first `n` resources.
pub open spec fn data_tally(
    data: Seq<ResourceSpansView>,
    n: nat,
    ctx: ContextView,
    budget: usize,
) -> Tally<SpanView>
    decreases n,
{
    if n == 0 || n > data.len() {
        Tally::none(budget)
    } else {
        resource_tally(
            data_tally(data, (n - 1) as nat, ctx, budget),
            data[n - 1],
            data[n - 1].scope_spans.len(),
            ctx,
        )
    }
}

// ---------------------------------------------------------------------------
// Conversion
// ---------------------------------------------------------------------------

/// Converts an already-parsed payload.
pub fn convert_data(data: &TracesData, ctx: DecodeContext<'_>) -> (decoded: Decoded<SpanRecord>)
    ensures
        decoded.tally() == data_tally(data@, data@.len(), ctx@, allowance(ctx@.limits)),
        decoded.tally().agrees(data_tally(data@, data@.len(), ctx@, usize::MAX)),
{
    let mut decoded: Decoded<SpanRecord> = Decoded::bounded(ctx.limits);
    proof {
        lemma_empty_tally(decoded);
    }
    let ghost all = data@;
    let mut i: usize = 0;
    while i < data.resource_spans.len()
        invariant
            i <= data.resource_spans@.len(),
            all == views(data.resource_spans@),
            decoded.tally() == data_tally(all, i as nat, ctx@, allowance(ctx@.limits)),
        decreases data.resource_spans@.len() - i,
    {
        assert(all[i as int] == data.resource_spans@[i as int]@);
        convert_resource(&data.resource_spans[i], ctx, &mut decoded);
        i += 1;
    }
    proof {
        lemma_data_agrees(all, all.len(), ctx@, allowance(ctx@.limits));
    }
    decoded
}

fn convert_resource(
    resource_spans: &ResourceSpans,
    ctx: DecodeContext<'_>,
    decoded: &mut Decoded<SpanRecord>,
)
    ensures
        final(decoded).tally() == resource_tally(
            old(decoded).tally(),
            resource_spans@,
            resource_spans@.scope_spans.len(),
            ctx@,
        ),
{
    let ghost start = decoded.tally();
    let ghost whole = resource_spans@;
    let mut resource_labels: Labels = Labels::new();
    match &resource_spans.resource {
        Some(resource) => {
            extend_labels(&mut resource_labels, &resource.attributes);
        },
        None => {},
    }
    let mut i: usize = 0;
    while i < resource_spans.scope_spans.len()
        invariant
            i <= resource_spans.scope_spans@.len(),
            whole == resource_spans@,
            resource_labels@ == resource_pairs(whole.resource, true),
            decoded.tally() == resource_tally(start, whole, i as nat, ctx@),
        decreases resource_spans.scope_spans@.len() - i,
    {
        let scope_spans: &ScopeSpans = &resource_spans.scope_spans[i];
        assert(whole.scope_spans[i as int] == resource_spans.scope_spans@[i as int]@);
        let mut labels: Labels = resource_labels.clone();
        match &scope_spans.scope {
            Some(scope) => {
                extend_labels(&mut labels, &scope.attributes);
                if !scope.name.as_str().is_empty() {
                    labels.insert("scope_name", scope.name.as_str());
                }
            },
            None => {},
        }
        convert_scope(&scope_spans.spans, &labels, ctx, decoded);
        i += 1;
    }
}

fn convert_scope(
    spans: &Vec<SpanJson>,
    labels: &Labels,
    ctx: DecodeContext<'_>,
    decoded: &mut Decoded<SpanRecord>,
)
    ensures
        final(decoded).tally() == scope_tally(
            old(decoded).tally(),
            views(spans@),
            spans@.len(),
            labels@,
            ctx@,
        ),
{
    let ghost start = decoded.tally();
    let ghost all = views(spans@);
    let mut i: usize = 0;
    while i < spans.len()
        invariant
            i <= spans@.len(),
            all == views(spans@),
            decoded.tally() == scope_tally(start, all, i as nat, labels@, ctx@),
        decreases spans@.len() - i,
    {
        assert(all[i as int] == spans@[i as int]@);
        let converted: Result<SpanRecord, Rejection> = convert(&spans[i], labels, ctx, decoded);
        decoded.push(converted);
        i += 1;
    }
}

fn kind_number_by_name(name: &str) -> (n: Option<i32>)
    ensures
        n == kind_number(name@),
{
    match SpanKind::from_otlp_name(name) {
        Some(kind) => Some(kind.as_otlp_number()),
        None => None,
    }
}

fn status_number_by_name(name: &str) -> (n: Option<i32>)
    ensures
        n == status_number(name@),
{
    match SpanStatus::from_otlp_name(name) {
        Some(status) => Some(status.as_otlp_number()),
        None => None,
    }
}

fn missing_id(reason: RejectReason, name: &str, what: &str) -> (rejection: Rejection)
    ensures
        rejection@ == (RejectionView { reason, detail: "span "@ + debug_text(name@) + what@ }),
{
    let mut detail: String = "span ".to_owned();
    detail.append(quoted(name).as_str());
    detail.append(what);
    Rejection::new(reason, detail)
}

fn convert(
    raw: &SpanJson,
    inherited: &Labels,
    ctx: DecodeContext<'_>,
    decoded: &mut Decoded<SpanRecord>,
) -> (r: Result<SpanRecord, Rejection>)
    ensures
        span_of(raw@, inherited@, ctx@) == (match r {
            Ok(span) => Ok::<SpanView, RejectionView>(span@),
            Err(rejection) => Err(rejection@),
        }),
        final(decoded).tally() == old(decoded).tally().rescaled_if(span_rescaled(raw@, ctx@)),
{
    let trace_id: String = match normalize_id(raw.trace_id.as_str()) {
        Some(id) => id,
        None => {
            return Err(
                missing_id(
                    RejectReason::MissingTraceId,
                    raw.name.as_str(),
                    " has no usable traceId",
                ),
            );
        },
    };
    let span_id: String = match normalize_id(raw.span_id.as_str()) {
        Some(id) => id,
        None => {
            return Err(
                missing_id(
                    RejectReason::MissingSpanId,
                    raw.name.as_str(),
                    " has no usable spanId",
                ),
            );
        },
    };
    let start: (u64, TimeUnit) = match field_time(raw.start_time_unix_nano) {
        Some(time) => time,
        None => (ctx.now_nanos, TimeUnit::Nanos),
    };
    if start.1 != TimeUnit::Nanos {
        decoded.rescaled_timestamps = count(decoded.rescaled_timestamps);
    }
    let end_nanos: u64 = match field_time(raw.end_time_unix_nano) {
        Some(time) => time.0,
        None => start.0,
    };
    let kind: SpanKind = match raw.kind.resolve(kind_number_by_name) {
        Some(n) => SpanKind::from_otlp_number(n),
        None => SpanKind::Unspecified,
    };
    let mut status: SpanStatus = SpanStatus::Unset;
    let mut status_message: String = String::new();
    assert(status_message@ =~= Seq::empty());
    match &raw.status {
        Some(sent) => {
            match sent.code.resolve(status_number_by_name) {
                Some(n) => {
                    status = SpanStatus::from_otlp_number(n);
                },
                None => {},
            }
            status_message = sent.message.clone();
        },
        None => {},
    }
    let mut attributes: Labels = Labels::new();
    extend_attributes(&mut attributes, &raw.attributes);
    if attributes.len() > ctx.limits.max_attrs_per_record as usize {
        let mut detail: String = decimal_text(attributes.len() as u64);
        detail.append(" span attributes exceeds max_attrs_per_record (");
        detail.append(decimal_text(ctx.limits.max_attrs_per_record as u64).as_str());
        detail.append(")");
        return Err(Rejection::new(RejectReason::TooManyAttributes, detail));
    }
    let events: Vec<SpanEvent> = convert_events(&raw.events, start.0);
    let stream: Labels = match build_stream_labels(inherited, ctx) {
        Ok(stream) => stream,
        Err(rejection) => {
            return Err(rejection);
        },
    };
    let links: Vec<crate::record::SpanLink> = Vec::new();
    assert(views(links@) =~= Seq::empty());
    Ok(
        SpanRecord {
            trace_id,
            span_id,
            parent_span_id: normalize_id(raw.parent_span_id.as_str()),
            name: raw.name.clone(),
            kind,
            start_nanos: start.0,
            end_nanos,
            status,
            status_message,
            stream,
            attributes,
            events,
            links,
        },
    )
}

fn convert_events(events: &Vec<SpanEventJson>, start: u64) -> (out: Vec<SpanEvent>)
    ensures
        views(out@) == span_events(views(events@), start),
{
    let ghost goal = span_events(views(events@), start);
    let mut out: Vec<SpanEvent> = Vec::new();
    let mut i: usize = 0;
    assert(views(out@) =~= goal.take(0));
    while i < events.len()
        invariant
            i <= events@.len(),
            goal == span_events(views(events@), start),
            views(out@) == goal.take(i as int),
        decreases events@.len() - i,
    {
        let event: &SpanEventJson = &events[i];
        let mut attributes: Labels = Labels::new();
        extend_attributes(&mut attributes, &event.attributes);
        let time_nanos: u64 = match field_time(event.time_unix_nano) {
            Some(time) => time.0,
            None => start,
        };
        let converted: SpanEvent = SpanEvent { time_nanos, name: event.name.clone(), attributes };
        proof {
            lemma_views_push(out@, converted);
            assert(views(events@)[i as int] == events@[i as int]@);
            assert(goal.take(i as int + 1) =~= goal.take(i as int).push(converted@));
        }
        out.push(converted);
        i += 1;
    }
    assert(goal.take(i as int) =~= goal);
    out
}

fn build_stream_labels(inherited: &Labels, ctx: DecodeContext<'_>) -> (r: Result<Labels, Rejection>)
    ensures
        match too_many_labels(span_stream(inherited@, ctx@), "stream labels"@, ctx@.limits) {
            Some(rejection) => r is Err && r->Err_0@ == rejection,
            None => r is Ok && r->Ok_0@ == span_stream(inherited@, ctx@),
        },
{
    let mut stream: Labels = Labels::new();
    stream.insert(APP_LABEL, app_name(inherited));
    promote(
        &mut stream,
        inherited,
        &ctx.ingest.stream_labels,
        Reserved { app: true, level: false },
    );
    match check_label_count(&stream, "stream labels", ctx.limits) {
        Some(rejection) => Err(rejection),
        None => Ok(stream),
    }
}

/// The context of a decode pass.
pub fn context<'a>(limits: &'a LimitsConfig, ingest: &'a IngestConfig, now_nanos: u64) -> (ctx:
    DecodeContext<'a>)
    ensures
        ctx@ == (ContextView { limits: *limits, ingest: ingest@, now_nanos }),
{
    DecodeContext { limits, ingest, now_nanos }
}

// ---------------------------------------------------------------------------
// Laws
// ---------------------------------------------------------------------------

/// How many spans a payload holds.
pub open spec fn span_count(data: Seq<ResourceSpansView>, n: nat) -> nat
    decreases n,
{
    if n == 0 || n > data.len() {
        0
    } else {
        span_count(data, (n - 1) as nat) + scope_count(
            data[n - 1].scope_spans,
            data[n - 1].scope_spans.len(),
        )
    }
}

pub open spec fn scope_count(scopes: Seq<ScopeSpansView>, n: nat) -> nat
    decreases n,
{
    if n == 0 || n > scopes.len() {
        0
    } else {
        scope_count(scopes, (n - 1) as nat) + scopes[n - 1].spans.len()
    }
}

/// Nothing is lost in silence: every span of a payload is kept or refused with a reason,
/// unless the request is over its budget and refused as a whole.
pub proof fn law_every_span_is_accounted_for(
    data: Seq<ResourceSpansView>,
    ctx: ContextView,
    budget: usize,
)
    ensures
        !data_tally(data, data.len(), ctx, budget).over() ==> data_tally(
            data,
            data.len(),
            ctx,
            budget,
        ).total() == span_count(data, data.len()),
{
    lemma_data_total(data, data.len(), ctx, budget);
}

/// What a payload is decoded into stays within the budget, however far it would expand.
pub proof fn law_what_is_decoded_is_bounded(
    data: Seq<ResourceSpansView>,
    ctx: ContextView,
    budget: usize,
)
    ensures
        data_tally(data, data.len(), ctx, budget).balanced(),
        data_tally(data, data.len(), ctx, budget).budget == budget,
{
    lemma_data_total(data, data.len(), ctx, budget);
}

proof fn lemma_data_total(
    data: Seq<ResourceSpansView>,
    n: nat,
    ctx: ContextView,
    budget: usize,
)
    requires
        n <= data.len(),
    ensures
        data_tally(data, n, ctx, budget).balanced(),
        data_tally(data, n, ctx, budget).budget == budget,
        !data_tally(data, n, ctx, budget).over() ==> data_tally(data, n, ctx, budget).total()
            == span_count(data, n),
    decreases n,
{
    if n > 0 {
        lemma_data_total(data, (n - 1) as nat, ctx, budget);
        lemma_resource_total(
            data_tally(data, (n - 1) as nat, ctx, budget),
            data[n - 1],
            data[n - 1].scope_spans.len(),
            ctx,
        );
    }
}

proof fn lemma_resource_total(
    tally: Tally<SpanView>,
    resource: ResourceSpansView,
    n: nat,
    ctx: ContextView,
)
    requires
        n <= resource.scope_spans.len(),
        tally.balanced(),
    ensures
        ({
            let after = resource_tally(tally, resource, n, ctx);
            &&& after.balanced()
            &&& after.budget == tally.budget
            &&& tally.over() ==> after.over()
            &&& !after.over() ==> after.total() == tally.total() + scope_count(
                resource.scope_spans,
                n,
            )
        }),
    decreases n,
{
    if n > 0 {
        lemma_resource_total(tally, resource, (n - 1) as nat, ctx);
        let scope = resource.scope_spans[n - 1];
        lemma_scope_total(
            resource_tally(tally, resource, (n - 1) as nat, ctx),
            scope.spans,
            scope.spans.len(),
            scope_labels(resource_pairs(resource.resource, true), scope.scope),
            ctx,
        );
    }
}

proof fn lemma_scope_total(
    tally: Tally<SpanView>,
    spans: Seq<SpanJsonView>,
    n: nat,
    labels: Seq<Pair>,
    ctx: ContextView,
)
    requires
        n <= spans.len(),
        tally.balanced(),
    ensures
        ({
            let after = scope_tally(tally, spans, n, labels, ctx);
            &&& after.balanced()
            &&& after.budget == tally.budget
            &&& tally.over() ==> after.over()
            &&& !after.over() ==> after.total() == tally.total() + n
        }),
    decreases n,
{
    if n > 0 {
        lemma_scope_total(tally, spans, (n - 1) as nat, labels, ctx);
        let before = scope_tally(tally, spans, (n - 1) as nat, labels, ctx);
        let raw = spans[n - 1];
        law_what_is_held_is_bounded(
            before.rescaled_if(span_rescaled(raw, ctx)),
            span_of(raw, labels, ctx),
        );
    }
}

/// Every span's stream names its application.
pub proof fn law_app_is_always_there(inherited: Seq<Pair>, ctx: ContextView)
    ensures
        lookup(span_stream(inherited, ctx), APP_LABEL@) == Some(app_named(inherited)),
{
    let empty = Seq::<Pair>::empty();
    crate::labels::law_insert_keeps_order(empty, APP_LABEL@, app_named(inherited));
    crate::labels::law_insert_then_get(empty, APP_LABEL@, app_named(inherited), APP_LABEL@);
    crate::streams::law_reserved_labels_are_kept(
        inserted(empty, APP_LABEL@, app_named(inherited)),
        inherited,
        ctx.ingest.stream_labels,
        Reserved { app: true, level: false },
        APP_LABEL@,
    );
}

/// A request that is not over its budget comes to what it would come to without one.
proof fn lemma_data_agrees(data: Seq<ResourceSpansView>, n: nat, ctx: ContextView, budget: usize)
    ensures
        data_tally(data, n, ctx, budget).agrees(data_tally(data, n, ctx, usize::MAX)),
    decreases n,
{
    if 0 < n <= data.len() {
        lemma_data_agrees(data, (n - 1) as nat, ctx, budget);
        lemma_resource_agrees(
            data_tally(data, (n - 1) as nat, ctx, budget),
            data_tally(data, (n - 1) as nat, ctx, usize::MAX),
            data[n - 1],
            data[n - 1].scope_spans.len(),
            ctx,
        );
    }
}

proof fn lemma_resource_agrees(
    small: Tally<SpanView>,
    whole: Tally<SpanView>,
    resource: ResourceSpansView,
    n: nat,
    ctx: ContextView,
)
    requires
        small.agrees(whole),
    ensures
        resource_tally(small, resource, n, ctx).agrees(
            resource_tally(whole, resource, n, ctx),
        ),
    decreases n,
{
    if 0 < n <= resource.scope_spans.len() {
        let scope = resource.scope_spans[n - 1];
        lemma_resource_agrees(small, whole, resource, (n - 1) as nat, ctx);
        lemma_scope_agrees(
            resource_tally(small, resource, (n - 1) as nat, ctx),
            resource_tally(whole, resource, (n - 1) as nat, ctx),
            scope.spans,
            scope.spans.len(),
            scope_labels(resource_pairs(resource.resource, true), scope.scope),
            ctx,
        );
    }
}

proof fn lemma_scope_agrees(
    small: Tally<SpanView>,
    whole: Tally<SpanView>,
    items: Seq<SpanJsonView>,
    n: nat,
    labels: Seq<Pair>,
    ctx: ContextView,
)
    requires
        small.agrees(whole),
    ensures
        scope_tally(small, items, n, labels, ctx).agrees(
            scope_tally(whole, items, n, labels, ctx),
        ),
    decreases n,
{
    if 0 < n <= items.len() {
        lemma_scope_agrees(small, whole, items, (n - 1) as nat, labels, ctx);
        let raw = items[n - 1];
        let a = scope_tally(small, items, (n - 1) as nat, labels, ctx);
        let b = scope_tally(whole, items, (n - 1) as nat, labels, ctx);
        lemma_with_agrees(
            a.rescaled_if(span_rescaled(raw, ctx)),
            b.rescaled_if(span_rescaled(raw, ctx)),
            span_of(raw, labels, ctx),
        );
    }
}

} // verus!
