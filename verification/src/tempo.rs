//! The Tempo-compatible query API.
//!
//! Search is driven by TraceQL through `q`. `start` and `end` are seconds.
use vstd::prelude::*;

use crate::pb;
use crate::error::{outcome, refused, Error, Failure, Fault};
use crate::grouping::{
    chosen, group_by_text, grouped, label_views, law_a_sorted_group_is_all_of_its_labels,
    law_every_item_is_grouped, law_groups_have_distinct_keys, law_ordering_keeps_every_place,
    law_ordering_orders, law_sorted_groups, lemma_chosen_with, lemma_distinct_places, lemma_grouped,
    lemma_ordered_places, lemma_place_is_ordered, lemma_same_order, lemma_sorted_groups, numbers,
    order, ordered, places, places_with, sort_groups, sorted_groups, sound_groups,
};
use crate::labels::{lookup, lookup_relaxed, sanitize_label_name, sanitized, Labels, Pair};
use crate::lexer::{tokenize, tokenized, Lexeme, Spanned};
use crate::loki::{given, given_text, limit_of, loki_time, read_limit, text_of, time_outcome};
use crate::meta::add_names;
use crate::otlp_encode::span_streams;
use crate::pb::{bytes_field, fixed64_field, hex_bytes, message_field, string_field, uint_field};
use crate::record::{SpanEvent, SpanEventView, SpanLink, SpanLinkView, SpanRecord, SpanView};
use crate::seconds::{
    minus, read, read_number, Reading, ReadingView, NANOS_PER_MILLI, NANOS_PER_SECOND,
};
use crate::text::{
    before, debug_text, decimal, decimal_text, lemma_text_before_irreflexive,
    lemma_text_before_total, lemma_text_before_transitive, lemma_views_push, lower, lowered,
    option_view, parse_unsigned, quoted, read_unsigned, same, same_ignoring_case, starts_with,
    strip_prefix, text_before, texts_copy, trim, trimmed, views,
};
use crate::textset::{add_text, law_sorted_set, sorted_set};
use crate::traceql::{trace_query, ConditionView, TraceQuery};
use crate::written::law_a_written_number_is_read_back;

verus! {

pub const DEFAULT_SEARCH_LIMIT: usize = 20;

pub const MAX_SEARCH_LIMIT: usize = 1_000;

/// How many spans one search, tag listing or tag-value listing may read, newest first.
pub const MAX_SPANS_READ: usize = 100_000;

/// The default range, in nanoseconds: one hour.
pub const DEFAULT_SEARCH_RANGE: u64 = 3_600_000_000_000;

/// The seconds of the latest time that seconds are plausible for.
pub const LATEST_PLAUSIBLE: u64 = 4_102_444_800;

// ---------------------------------------------------------------------------
// Requests
// ---------------------------------------------------------------------------

/// Query parameters shared by the search endpoints.
#[derive(Debug)]
pub struct SearchParams {
    /// TraceQL.
    pub q: Option<String>,
    /// Unix seconds, as `end` is.
    pub start: Option<String>,
    pub end: Option<String>,
    pub limit: Option<String>,
    /// Accepted and ignored: superseded by `q`.
    pub tags: Option<String>,
    /// `resource`, `span` or `intrinsic` on the v2 tag listing; absent means all.
    pub scope: Option<String>,
    pub min_duration: Option<String>,
    pub max_duration: Option<String>,
}

impl Default for SearchParams {
    fn default() -> (params: SearchParams)
        ensures
            params == (SearchParams {
                q: None,
                start: None,
                end: None,
                limit: None,
                tags: None,
                scope: None,
                min_duration: None,
                max_duration: None,
            }),
    {
        SearchParams {
            q: None,
            start: None,
            end: None,
            limit: None,
            tags: None,
            scope: None,
            min_duration: None,
            max_duration: None,
        }
    }
}

#[derive(Debug)]
pub struct SearchRequest {
    pub query: TraceQuery,
    pub start_nanos: u64,
    pub end_nanos: u64,
    pub limit: usize,
    pub min_duration_nanos: Option<u64>,
    pub max_duration_nanos: Option<u64>,
}

pub struct SearchView {
    pub query: Seq<ConditionView>,
    pub start_nanos: u64,
    pub end_nanos: u64,
    pub limit: usize,
    pub min_duration_nanos: Option<u64>,
    pub max_duration_nanos: Option<u64>,
}

impl View for SearchRequest {
    type V = SearchView;

    open spec fn view(&self) -> SearchView {
        SearchView {
            query: self.query@,
            start_nanos: self.start_nanos,
            end_nanos: self.end_nanos,
            limit: self.limit,
            min_duration_nanos: self.min_duration_nanos,
            max_duration_nanos: self.max_duration_nanos,
        }
    }
}

/// The time that a Tempo timestamp writes: seconds, unless the number is far beyond them
/// and was sent in a finer unit.
pub open spec fn tempo_time(raw: Seq<char>) -> Result<u64, Fault> {
    let text = trim(raw);
    match read_number(text) {
        Some(ReadingView::Number(decimal)) => if decimal.countable() && !decimal.exceeds(
            LATEST_PLAUSIBLE as nat,
        ) {
            Ok(decimal.times(NANOS_PER_SECOND as nat))
        } else {
            loki_time(text)
        },
        _ => loki_time(text),
    }
}

/// Parses a Tempo timestamp.
pub fn parse_seconds(raw: &str) -> (r: Result<u64, Error>)
    ensures
        time_outcome(r) == tempo_time(raw@),
{
    let text: String = trimmed(raw);
    match read(text.as_str()) {
        Some(Reading::Number(decimal)) => if decimal.countable() && !decimal.exceeds(
            LATEST_PLAUSIBLE,
        ) {
            Ok(decimal.times(NANOS_PER_SECOND))
        } else {
            crate::loki::parse_time(text.as_str())
        },
        _ => crate::loki::parse_time(text.as_str()),
    }
}

/// The nanoseconds of a bare number of milliseconds.
pub open spec fn milliseconds(text: Seq<char>) -> Option<u64> {
    match read_number(text) {
        Some(ReadingView::Number(decimal)) => if !decimal.negative || decimal.is_zero() {
            Some(decimal.times(NANOS_PER_MILLI as nat))
        } else {
            None
        },
        _ => None,
    }
}

/// The nanoseconds of a duration bound: a duration, or a number of milliseconds.
pub open spec fn duration_bound(raw: Seq<char>) -> Result<u64, Fault> {
    let refusal = refused(debug_text(raw) + " is not a duration (try `100ms`, `1.5s`)"@);
    match tokenized(raw) {
        Err(fault) => Err(fault),
        Ok(tokens) => if tokens.len() > 0 {
            match tokens[0].token {
                Lexeme::Duration(nanos) => Ok(nanos),
                Lexeme::Number(text) => match milliseconds(text) {
                    Some(nanos) => Ok(nanos),
                    None => Err(refusal),
                },
                _ => Err(refusal),
            }
        } else {
            Err(refusal)
        },
    }
}

/// Parses a duration bound.
pub fn parse_duration(raw: &str) -> (r: Result<u64, Error>)
    ensures
        time_outcome(r) == duration_bound(raw@),
{
    let tokens: Vec<Spanned> = match tokenize(raw) {
        Ok(tokens) => tokens,
        Err(error) => {
            return Err(error);
        },
    };
    if tokens.len() > 0 {
        assert(views(tokens@)[0] == tokens@[0]@);
        match &tokens[0].token {
            Lexeme::Duration(nanos) => {
                return Ok(*nanos);
            },
            Lexeme::Number(text) => match read(text.as_str()) {
                Some(Reading::Number(decimal)) => if !decimal.negative || decimal.is_zero() {
                    return Ok(decimal.times(NANOS_PER_MILLI));
                },
                _ => {},
            },
            _ => {},
        }
    }
    let mut message: String = quoted(raw);
    message.append(" is not a duration (try `100ms`, `1.5s`)");
    Err(Failure::BadRequest(message))
}

pub open spec fn tempo_time_or(param: Option<Seq<char>>, default: u64) -> Result<u64, Fault> {
    match given(param) {
        Some(raw) => tempo_time(raw),
        None => Ok(default),
    }
}

fn read_time(param: Option<&str>, default: u64) -> (r: Result<u64, Error>)
    ensures
        time_outcome(r) == tempo_time_or(option_view(param), default),
{
    match given_text(param) {
        Some(raw) => parse_seconds(raw),
        None => Ok(default),
    }
}

pub open spec fn bound_of(param: Option<Seq<char>>) -> Result<Option<u64>, Fault> {
    match given(param) {
        Some(raw) => match duration_bound(raw) {
            Ok(nanos) => Ok(Some(nanos)),
            Err(fault) => Err(fault),
        },
        None => Ok(None),
    }
}

fn read_bound(param: Option<&str>) -> (r: Result<Option<u64>, Error>)
    ensures
        bound_of(option_view(param)) == (match r {
            Ok(bound) => Ok::<Option<u64>, Fault>(bound),
            Err(error) => Err(error@),
        }),
{
    match given_text(param) {
        Some(raw) => match parse_duration(raw) {
            Ok(nanos) => Ok(Some(nanos)),
            Err(error) => Err(error),
        },
        None => Ok(None),
    }
}

/// The TraceQL of a request; nothing where none is given.
pub open spec fn query_text(q: Option<Seq<char>>) -> Seq<char> {
    match q {
        Some(text) => text,
        None => Seq::empty(),
    }
}

/// The search that parameters ask for, or why they ask for none.
pub open spec fn search_request(params: SearchParams, now: u64) -> Result<SearchView, Fault> {
    match trace_query(query_text(option_view(params.q))) {
        Err(fault) => Err(fault),
        Ok(query) => match tempo_time_or(option_view(params.end), now) {
            Err(fault) => Err(fault),
            Ok(end_nanos) => match tempo_time_or(
                option_view(params.start),
                minus(end_nanos, DEFAULT_SEARCH_RANGE),
            ) {
                Err(fault) => Err(fault),
                Ok(start_nanos) => if start_nanos > end_nanos {
                    Err(refused("`start` must not be after `end`"@))
                } else {
                    match limit_of(
                        option_view(params.limit),
                        DEFAULT_SEARCH_LIMIT,
                        MAX_SEARCH_LIMIT,
                    ) {
                        Err(fault) => Err(fault),
                        Ok(limit) => match bound_of(option_view(params.min_duration)) {
                            Err(fault) => Err(fault),
                            Ok(min_duration_nanos) => match bound_of(
                                option_view(params.max_duration),
                            ) {
                                Err(fault) => Err(fault),
                                Ok(max_duration_nanos) => Ok(
                                    SearchView {
                                        query,
                                        start_nanos,
                                        end_nanos,
                                        limit,
                                        min_duration_nanos,
                                        max_duration_nanos,
                                    },
                                ),
                            },
                        },
                    }
                },
            },
        },
    }
}

impl SearchView {
    /// Whether a trace of this duration is within the bounds.
    pub open spec fn duration_within(self, nanos: u64) -> bool {
        (match self.min_duration_nanos {
            Some(min) => nanos >= min,
            None => true,
        }) && (match self.max_duration_nanos {
            Some(max) => nanos <= max,
            None => true,
        })
    }
}

impl SearchRequest {
    /// Validates raw parameters.
    pub fn from_params(params: &SearchParams, now_nanos: u64) -> (r: Result<SearchRequest, Error>)
        ensures
            outcome(r) == search_request(*params, now_nanos),
    {
        let q: &str = match &params.q {
            Some(text) => text.as_str(),
            None => "",
        };
        proof {
            reveal_strlit("");
            assert(q@ =~= query_text(option_view(params.q)));
        }
        let query: TraceQuery = match crate::traceql::parse(q) {
            Ok(query) => query,
            Err(error) => {
                return Err(error);
            },
        };
        let end_nanos: u64 = match read_time(text_of(&params.end), now_nanos) {
            Ok(nanos) => nanos,
            Err(error) => {
                return Err(error);
            },
        };
        let start_nanos: u64 = match read_time(
            text_of(&params.start),
            end_nanos.saturating_sub(DEFAULT_SEARCH_RANGE),
        ) {
            Ok(nanos) => nanos,
            Err(error) => {
                return Err(error);
            },
        };
        if start_nanos > end_nanos {
            return Err(Failure::BadRequest("`start` must not be after `end`".to_owned()));
        }
        let limit: usize = match read_limit(
            text_of(&params.limit),
            DEFAULT_SEARCH_LIMIT,
            MAX_SEARCH_LIMIT,
        ) {
            Ok(limit) => limit,
            Err(error) => {
                return Err(error);
            },
        };
        let min_duration_nanos: Option<u64> = match read_bound(text_of(&params.min_duration)) {
            Ok(bound) => bound,
            Err(error) => {
                return Err(error);
            },
        };
        let max_duration_nanos: Option<u64> = match read_bound(text_of(&params.max_duration)) {
            Ok(bound) => bound,
            Err(error) => {
                return Err(error);
            },
        };
        Ok(
            SearchRequest {
                query,
                start_nanos,
                end_nanos,
                limit,
                min_duration_nanos,
                max_duration_nanos,
            },
        )
    }

    /// Whether a trace of this duration is within the bounds, which are on the trace and
    /// not on each of its spans.
    pub fn duration_ok(&self, trace_nanos: u64) -> (r: bool)
        ensures
            r == self@.duration_within(trace_nanos),
    {
        (match self.min_duration_nanos {
            Some(min) => trace_nanos >= min,
            None => true,
        }) && (match self.max_duration_nanos {
            Some(max) => trace_nanos <= max,
            None => true,
        })
    }
}

// ---------------------------------------------------------------------------
// Spans, each once
// ---------------------------------------------------------------------------

/// Whether a span comes before another: by its start, then by its id.
pub open spec fn span_before(a: SpanView, b: SpanView) -> bool {
    a.start_nanos < b.start_nanos || (a.start_nanos == b.start_nanos && text_before(
        a.span_id,
        b.span_id,
    ))
}

/// Whether a span with this id is among the spans.
pub open spec fn has_span(spans: Seq<SpanView>, id: Seq<char>) -> bool {
    exists|i: int| 0 <= i < spans.len() && (#[trigger] spans[i]).span_id == id
}

/// The first span of each id.
pub open spec fn first_of_each(spans: Seq<SpanView>) -> Seq<SpanView>
    decreases spans.len(),
{
    if spans.len() == 0 {
        spans
    } else {
        let rest = first_of_each(spans.drop_last());
        if has_span(rest, spans.last().span_id) {
            rest
        } else {
            rest.push(spans.last())
        }
    }
}

pub open spec fn in_start_order(spans: Seq<SpanView>) -> Seq<SpanView> {
    chosen(spans, ordered(spans.len(), |a: int, b: int| span_before(spans[a], spans[b])))
}

/// Spans in start order, each once: an exporter that retries a batch it was not sure had
/// landed sends the same spans twice.
pub open spec fn each_once(spans: Seq<SpanView>) -> Seq<SpanView> {
    first_of_each(in_start_order(spans))
}

/// The spans of one trace.
pub open spec fn of_trace(spans: Seq<SpanView>, id: Seq<char>) -> Seq<SpanView>
    decreases spans.len(),
{
    if spans.len() == 0 {
        spans
    } else if spans.last().trace_id == id {
        of_trace(spans.drop_last(), id).push(spans.last())
    } else {
        of_trace(spans.drop_last(), id)
    }
}

fn contains_span(spans: &Vec<&SpanRecord>, id: &str) -> (r: bool)
    ensures
        r == has_span(views(spans@), id@),
{
    let mut i: usize = 0;
    while i < spans.len()
        invariant
            i <= spans@.len(),
            forall|j: int| 0 <= j < i ==> (#[trigger] views(spans@)[j]).span_id != id@,
        decreases spans@.len() - i,
    {
        assert(views(spans@)[i as int] == spans@[i as int]@);
        if same(spans[i].span_id.as_str(), id) {
            return true;
        }
        i += 1;
    }
    false
}

/// The spans at some places.
fn pick<'a>(spans: &Vec<&'a SpanRecord>, list: &Vec<usize>) -> (out: Vec<&'a SpanRecord>)
    requires
        forall|k: int| 0 <= k < list@.len() ==> 0 <= #[trigger] numbers(list@)[k] < spans@.len(),
    ensures
        views(out@) == chosen(views(spans@), numbers(list@)),
{
    let ghost at = numbers(list@);
    let mut out: Vec<&'a SpanRecord> = Vec::new();
    let mut k: usize = 0;
    while k < list.len()
        invariant
            k <= list@.len(),
            at == numbers(list@),
            forall|k: int| 0 <= k < list@.len() ==> 0 <= #[trigger] at[k] < spans@.len(),
            out@.len() == k,
            forall|j: int| 0 <= j < k ==> (#[trigger] out@[j])@ == views(spans@)[at[j]],
        decreases list@.len() - k,
    {
        assert(at[k as int] == list@[k as int]);
        assert(views(spans@)[at[k as int]] == spans@[at[k as int]]@);
        out.push(spans[list[k]]);
        k += 1;
    }
    assert(views(out@) =~= chosen(views(spans@), at));
    out
}

/// Spans in start order, each once.
pub fn distinct_spans<'a>(spans: &Vec<&'a SpanRecord>) -> (out: Vec<&'a SpanRecord>)
    ensures
        views(out@) == each_once(views(spans@)),
{
    let ghost all = views(spans@);
    let ghost less = |a: int, b: int| span_before(all[a], all[b]);
    let earlier = |a: usize, b: usize| -> (r: bool)
        requires
            a < spans@.len(),
            b < spans@.len(),
        ensures
            r == span_before(spans@[a as int]@, spans@[b as int]@),
        {
            spans[a].start_nanos < spans[b].start_nanos || (spans[a].start_nanos
                == spans[b].start_nanos && before(
                spans[a].span_id.as_str(),
                spans[b].span_id.as_str(),
            ))
        };
    let list: Vec<usize> = order(spans.len(), &earlier, Ghost(less));
    let sorted: Vec<&'a SpanRecord> = pick(spans, &list);
    let ghost s = in_start_order(all);
    let mut out: Vec<&'a SpanRecord> = Vec::new();
    let mut i: usize = 0;
    assert(views(out@) =~= s.take(0));
    while i < sorted.len()
        invariant
            i <= sorted@.len(),
            s == views(sorted@),
            views(out@) == first_of_each(s.take(i as int)),
        decreases sorted@.len() - i,
    {
        let span: &'a SpanRecord = sorted[i];
        proof {
            let next = s.take(i as int + 1);
            assert(next.drop_last() =~= s.take(i as int));
            assert(next.last() == span@);
        }
        if !contains_span(&out, span.span_id.as_str()) {
            proof {
                lemma_views_push(out@, span);
            }
            out.push(span);
        }
        i += 1;
    }
    assert(s.take(i as int) =~= s);
    out
}

/// The spans of one trace.
fn spans_of<'a>(spans: &'a Vec<SpanRecord>, id: &str) -> (out: Vec<&'a SpanRecord>)
    ensures
        views(out@) == of_trace(views(spans@), id@),
{
    let ghost all = views(spans@);
    let mut out: Vec<&'a SpanRecord> = Vec::new();
    let mut i: usize = 0;
    assert(views(out@) =~= all.take(0));
    while i < spans.len()
        invariant
            i <= spans@.len(),
            all == views(spans@),
            views(out@) == of_trace(all.take(i as int), id@),
        decreases spans@.len() - i,
    {
        let span: &'a SpanRecord = &spans[i];
        proof {
            let next = all.take(i as int + 1);
            assert(next.drop_last() =~= all.take(i as int));
            assert(next.last() == span@);
        }
        if same(span.trace_id.as_str(), id) {
            proof {
                lemma_views_push(out@, span);
            }
            out.push(span);
        }
        i += 1;
    }
    assert(all.take(i as int) =~= all);
    out
}

// ---------------------------------------------------------------------------
// Response shapes
// ---------------------------------------------------------------------------

#[derive(Debug)]
pub struct SearchResponse {
    pub traces: Vec<TraceSummary>,
    pub metrics: SearchMetrics,
}

/// One row of a search: a fact about the whole trace, and the spans that matched.
#[derive(Debug)]
pub struct TraceSummary {
    pub trace_id: String,
    pub root_service_name: String,
    pub root_trace_name: String,
    /// Nanoseconds, as a text.
    pub start_time_unix_nano: String,
    pub duration_nanos: u64,
    pub span_sets: Vec<SpanSet>,
}

pub struct SummaryView {
    pub trace_id: Seq<char>,
    pub root_service_name: Seq<char>,
    pub root_trace_name: Seq<char>,
    pub start_time_unix_nano: Seq<char>,
    pub duration_nanos: u64,
    pub span_sets: Seq<SpanSetView>,
}

impl View for TraceSummary {
    type V = SummaryView;

    open spec fn view(&self) -> SummaryView {
        SummaryView {
            trace_id: self.trace_id@,
            root_service_name: self.root_service_name@,
            root_trace_name: self.root_trace_name@,
            start_time_unix_nano: self.start_time_unix_nano@,
            duration_nanos: self.duration_nanos,
            span_sets: views(self.span_sets@),
        }
    }
}

#[derive(Debug)]
pub struct SpanSet {
    pub spans: Vec<MatchedSpan>,
    pub matched: u32,
}

pub struct SpanSetView {
    pub spans: Seq<MatchedView>,
    pub matched: u32,
}

impl View for SpanSet {
    type V = SpanSetView;

    open spec fn view(&self) -> SpanSetView {
        SpanSetView { spans: views(self.spans@), matched: self.matched }
    }
}

#[derive(Debug)]
pub struct MatchedSpan {
    pub span_id: String,
    pub name: String,
    pub start_time_unix_nano: String,
    pub duration_nanos: String,
    pub attributes: Vec<TempoKeyValue>,
}

pub struct MatchedView {
    pub span_id: Seq<char>,
    pub name: Seq<char>,
    pub start_time_unix_nano: Seq<char>,
    pub duration_nanos: Seq<char>,
    pub attributes: Seq<Pair>,
}

impl View for MatchedSpan {
    type V = MatchedView;

    open spec fn view(&self) -> MatchedView {
        MatchedView {
            span_id: self.span_id@,
            name: self.name@,
            start_time_unix_nano: self.start_time_unix_nano@,
            duration_nanos: self.duration_nanos@,
            attributes: views(self.attributes@),
        }
    }
}

#[derive(Debug)]
pub struct TempoKeyValue {
    pub key: String,
    pub value: TempoValue,
}

impl View for TempoKeyValue {
    type V = Pair;

    open spec fn view(&self) -> Pair {
        (self.key@, self.value.string_value@)
    }
}

#[derive(Debug)]
pub struct TempoValue {
    pub string_value: String,
}

#[derive(Debug, Clone, Copy, PartialEq, Eq, Structural)]
pub struct SearchMetrics {
    pub inspected_traces: u32,
    pub inspected_spans: u32,
}

impl Default for SearchMetrics {
    fn default() -> (metrics: SearchMetrics)
        ensures
            metrics == (SearchMetrics { inspected_traces: 0, inspected_spans: 0 }),
    {
        SearchMetrics { inspected_traces: 0, inspected_spans: 0 }
    }
}

/// The labels as keys and values.
fn key_values(labels: &Labels) -> (list: Vec<TempoKeyValue>)
    ensures
        views(list@) == labels@,
{
    let mut list: Vec<TempoKeyValue> = Vec::new();
    let mut i: usize = 0;
    while i < labels.len()
        invariant
            i <= labels@.len(),
            list@.len() == i,
            forall|j: int| 0 <= j < i ==> (#[trigger] list@[j])@ == labels@[j],
        decreases labels@.len() - i,
    {
        list.push(
            TempoKeyValue {
                key: labels.name_at(i).to_owned(),
                value: TempoValue { string_value: labels.value_at(i).to_owned() },
            },
        );
        i += 1;
    }
    assert(views(list@) =~= labels@);
    list
}

// ---------------------------------------------------------------------------
// Search
// ---------------------------------------------------------------------------

/// The earliest start of the spans, no later than `limit`.
pub open spec fn earliest(spans: Seq<SpanView>, limit: u64) -> u64
    decreases spans.len(),
{
    if spans.len() == 0 {
        limit
    } else {
        let rest = earliest(spans.drop_last(), limit);
        if spans.last().start_nanos < rest {
            spans.last().start_nanos
        } else {
            rest
        }
    }
}

/// The latest end of the spans, and zero where there are none.
pub open spec fn latest(spans: Seq<SpanView>) -> u64
    decreases spans.len(),
{
    if spans.len() == 0 {
        0
    } else {
        let rest = latest(spans.drop_last());
        if spans.last().end_nanos > rest {
            spans.last().end_nanos
        } else {
            rest
        }
    }
}

/// The first span without a parent, from the `i`-th on; else the first of all, so that the
/// row still names something.
pub open spec fn root_from(spans: Seq<SpanView>, i: int) -> SpanView
    decreases spans.len() - i,
{
    if i < 0 || i >= spans.len() {
        spans[0]
    } else if spans[i].parent_span_id is None {
        spans[i]
    } else {
        root_from(spans, i + 1)
    }
}

pub open spec fn matched_of(span: SpanView) -> MatchedView {
    MatchedView {
        span_id: span.span_id,
        name: span.name,
        start_time_unix_nano: decimal(span.start_nanos as nat),
        duration_nanos: decimal(span.duration() as nat),
        attributes: span.attributes,
    }
}

/// The spans of a trace that describe it: those that were read of it whole, or else those
/// that matched.
pub open spec fn trace_spans(
    matched: Seq<SpanView>,
    whole: Seq<SpanView>,
    id: Seq<char>,
) -> Seq<SpanView> {
    if of_trace(whole, id).len() > 0 {
        each_once(of_trace(whole, id))
    } else {
        each_once(of_trace(matched, id))
    }
}

/// The start of a trace, and its duration.
pub open spec fn trace_times(spans: Seq<SpanView>) -> (u64, u64) {
    let start = earliest(spans, u64::MAX);
    (start, minus(latest(spans), start))
}

/// The row of a trace, with what it is ordered by.
pub open spec fn summary_of(
    matched: Seq<SpanView>,
    whole: Seq<SpanView>,
    id: Seq<char>,
) -> (u64, SummaryView) {
    let all = trace_spans(matched, whole, id);
    let own = each_once(of_trace(matched, id));
    let root = root_from(all, 0);
    let (start, duration) = trace_times(all);
    (
        start,
        SummaryView {
            trace_id: id,
            root_service_name: root.service(),
            root_trace_name: root.name,
            start_time_unix_nano: decimal(start as nat),
            duration_nanos: duration,
            span_sets: seq![
                SpanSetView {
                    spans: own.map_values(|span: SpanView| matched_of(span)),
                    matched: if own.len() > u32::MAX {
                        u32::MAX
                    } else {
                        own.len() as u32
                    },
                },
            ],
        },
    )
}

pub open spec fn trace_ids(spans: Seq<SpanView>) -> Seq<Seq<char>> {
    spans.map_values(|span: SpanView| span.trace_id)
}

/// The rows of the traces of the first `n` groups of matched spans whose duration is
/// within the bounds.
pub open spec fn rows(
    request: SearchView,
    matched: Seq<SpanView>,
    whole: Seq<SpanView>,
    groups: Seq<Seq<int>>,
    n: nat,
) -> Seq<(u64, SummaryView)>
    decreases n,
{
    if n == 0 {
        Seq::empty()
    } else {
        let rest = rows(request, matched, whole, groups, (n - 1) as nat);
        let row = summary_of(matched, whole, matched[groups[n - 1][0]].trace_id);
        if request.duration_within(row.1.duration_nanos) {
            rest.push(row)
        } else {
            rest
        }
    }
}

/// Newest first, ties by id.
pub open spec fn row_before(a: (u64, SummaryView), b: (u64, SummaryView)) -> bool {
    a.0 > b.0 || (a.0 == b.0 && text_before(a.1.trace_id, b.1.trace_id))
}

/// The answer to a search, from the spans that match and those of the same traces.
pub open spec fn found(request: SearchView, matched: Seq<SpanView>, whole: Seq<SpanView>) -> Seq<
    SummaryView,
> {
    let groups = grouped(trace_ids(matched), matched.len());
    let all = rows(request, matched, whole, groups, groups.len());
    let sorted = chosen(all, ordered(all.len(), |a: int, b: int| row_before(all[a], all[b])));
    Seq::new(
        if request.limit < sorted.len() {
            request.limit as nat
        } else {
            sorted.len()
        },
        |i: int| sorted[i].1,
    )
}

fn times_of(spans: &Vec<&SpanRecord>) -> (times: (u64, u64))
    ensures
        times == trace_times(views(spans@)),
{
    let ghost all = views(spans@);
    let mut start: u64 = u64::MAX;
    let mut end: u64 = 0;
    let mut i: usize = 0;
    assert(all.take(0) =~= Seq::empty());
    while i < spans.len()
        invariant
            i <= spans@.len(),
            all == views(spans@),
            start == earliest(all.take(i as int), u64::MAX),
            end == latest(all.take(i as int)),
        decreases spans@.len() - i,
    {
        proof {
            let next = all.take(i as int + 1);
            assert(next.drop_last() =~= all.take(i as int));
            assert(next.last() == spans@[i as int]@);
        }
        if spans[i].start_nanos < start {
            start = spans[i].start_nanos;
        }
        if spans[i].end_nanos > end {
            end = spans[i].end_nanos;
        }
        i += 1;
    }
    assert(all.take(i as int) =~= all);
    (start, end.saturating_sub(start))
}

fn root_of<'a>(spans: &Vec<&'a SpanRecord>) -> (root: &'a SpanRecord)
    requires
        spans@.len() > 0,
    ensures
        root@ == root_from(views(spans@), 0),
{
    let mut i: usize = 0;
    while i < spans.len()
        invariant
            i <= spans@.len(),
            root_from(views(spans@), 0) == root_from(views(spans@), i as int),
        decreases spans@.len() - i,
    {
        assert(views(spans@)[i as int] == spans@[i as int]@);
        if spans[i].is_root() {
            return spans[i];
        }
        i += 1;
    }
    assert(views(spans@)[0] == spans@[0]@);
    spans[0]
}

fn matched_spans(spans: &Vec<&SpanRecord>) -> (out: Vec<MatchedSpan>)
    ensures
        views(out@) == views(spans@).map_values(|span: SpanView| matched_of(span)),
{
    let ghost all = views(spans@);
    let mut out: Vec<MatchedSpan> = Vec::new();
    let mut i: usize = 0;
    while i < spans.len()
        invariant
            i <= spans@.len(),
            all == views(spans@),
            out@.len() == i,
            forall|j: int| 0 <= j < i ==> (#[trigger] out@[j])@ == matched_of(all[j]),
        decreases spans@.len() - i,
    {
        assert(all[i as int] == spans@[i as int]@);
        let span: &SpanRecord = spans[i];
        out.push(
            MatchedSpan {
                span_id: span.span_id.clone(),
                name: span.name.clone(),
                start_time_unix_nano: decimal_text(span.start_nanos),
                duration_nanos: decimal_text(span.duration_nanos()),
                attributes: key_values(&span.attributes),
            },
        );
        i += 1;
    }
    assert(views(out@) =~= all.map_values(|span: SpanView| matched_of(span)));
    out
}

proof fn lemma_each_once_not_empty(spans: Seq<SpanView>)
    requires
        spans.len() > 0,
    ensures
        each_once(spans).len() > 0,
{
    crate::grouping::law_ordering_keeps_every_place(
        spans.len(),
        |a: int, b: int| span_before(spans[a], spans[b]),
    );
    lemma_first_not_empty(in_start_order(spans));
}

proof fn lemma_first_not_empty(spans: Seq<SpanView>)
    requires
        spans.len() > 0,
    ensures
        first_of_each(spans).len() > 0,
{
    let rest = first_of_each(spans.drop_last());
    if has_span(rest, spans.last().span_id) {
        assert(rest.len() > 0);
    }
}

proof fn lemma_of_trace_not_empty(spans: Seq<SpanView>, i: int)
    requires
        0 <= i < spans.len(),
    ensures
        of_trace(spans, spans[i].trace_id).len() > 0,
    decreases spans.len(),
{
    let id = spans[i].trace_id;
    if spans.last().trace_id != id {
        assert(i < spans.len() - 1);
        assert(spans.drop_last()[i] == spans[i]);
        lemma_of_trace_not_empty(spans.drop_last(), i);
    }
}

fn summarize(matched: &Vec<SpanRecord>, whole: &Vec<SpanRecord>, i: usize) -> (row: (
    u64,
    TraceSummary,
))
    requires
        i < matched@.len(),
    ensures
        (row.0, row.1@) == summary_of(
            views(matched@),
            views(whole@),
            views(matched@)[i as int].trace_id,
        ),
{
    let ghost m = views(matched@);
    let ghost w = views(whole@);
    assert(m[i as int] == matched@[i as int]@);
    let id: &str = matched[i].trace_id.as_str();
    let own_all: Vec<&SpanRecord> = spans_of(matched, id);
    let own: Vec<&SpanRecord> = distinct_spans(&own_all);
    let read: Vec<&SpanRecord> = spans_of(whole, id);
    proof {
        lemma_of_trace_not_empty(m, i as int);
        lemma_each_once_not_empty(of_trace(m, id@));
        if of_trace(w, id@).len() > 0 {
            lemma_each_once_not_empty(of_trace(w, id@));
        }
        assert(views(own@).len() == own@.len());
        assert(views(read@).len() == read@.len());
    }
    let count: u32 = if own.len() as u64 > u32::MAX as u64 {
        u32::MAX
    } else {
        own.len() as u32
    };
    let spans: Vec<MatchedSpan> = matched_spans(&own);
    let all: Vec<&SpanRecord> = if read.len() > 0 {
        distinct_spans(&read)
    } else {
        own
    };
    assert(views(all@) == trace_spans(m, w, id@));
    assert(views(all@).len() == all@.len());
    let (start, duration): (u64, u64) = times_of(&all);
    let root: &SpanRecord = root_of(&all);
    let mut span_sets: Vec<SpanSet> = Vec::new();
    span_sets.push(SpanSet { spans, matched: count });
    let summary = TraceSummary {
        trace_id: matched[i].trace_id.clone(),
        root_service_name: root.service_name().to_owned(),
        root_trace_name: root.name.clone(),
        start_time_unix_nano: decimal_text(start),
        duration_nanos: duration,
        span_sets,
    };
    assert(summary@.span_sets =~= summary_of(m, w, id@).1.span_sets);
    (start, summary)
}

/// The answer to a search. A row describes the trace: its root's name and service, its
/// start and its duration, which are facts about spans that need not have matched. Hence
/// two lists: the spans that match, and all those of the same traces.
pub fn search(
    matched: &Vec<SpanRecord>,
    whole: &Vec<SpanRecord>,
    request: &SearchRequest,
    inspected_spans: u32,
) -> (response: SearchResponse)
    ensures
        views(response.traces@) == found(request@, views(matched@), views(whole@)),
        response.metrics.inspected_spans == inspected_spans,
        response.metrics.inspected_traces == (if response.traces@.len() > u32::MAX {
            u32::MAX
        } else {
            response.traces@.len() as u32
        }),
{
    let ghost m = views(matched@);
    let ghost w = views(whole@);
    let mut ids: Vec<&str> = Vec::new();
    let mut i: usize = 0;
    while i < matched.len()
        invariant
            i <= matched@.len(),
            m == views(matched@),
            ids@.len() == i,
            forall|j: int| 0 <= j < i ==> (#[trigger] ids@[j])@ == m[j].trace_id,
        decreases matched@.len() - i,
    {
        assert(m[i as int] == matched@[i as int]@);
        ids.push(matched[i].trace_id.as_str());
        i += 1;
    }
    assert(views(ids@) =~= trace_ids(m));
    let groups: Vec<Vec<usize>> = group_by_text(&ids);
    let ghost split = grouped(trace_ids(m), m.len());
    proof {
        lemma_grouped(trace_ids(m), m.len());
    }
    let mut all: Vec<(u64, TraceSummary)> = Vec::new();
    let mut g: usize = 0;
    assert(views(all@) =~= Seq::empty());
    while g < groups.len()
        invariant
            g <= groups@.len(),
            m == views(matched@),
            w == views(whole@),
            split == places(groups@),
            sound_groups(split, trace_ids(m), m.len() as int),
            views(all@) == rows(request@, m, w, split, g as nat),
        decreases groups@.len() - g,
    {
        proof {
            assert(split[g as int] == numbers(groups@[g as int]@));
            assert(split[g as int].len() > 0);
            assert(split[g as int][0] == groups@[g as int]@[0]);
        }
        let row: (u64, TraceSummary) = summarize(matched, whole, groups[g][0]);
        if request.duration_ok(row.1.duration_nanos) {
            proof {
                lemma_views_push(all@, row);
            }
            all.push(row);
        }
        g += 1;
    }
    let ghost listed = views(all@);
    let ghost less = |a: int, b: int| row_before(listed[a], listed[b]);
    let earlier = |a: usize, b: usize| -> (r: bool)
        requires
            a < all@.len(),
            b < all@.len(),
        ensures
            r == row_before(all@[a as int]@, all@[b as int]@),
        {
            all[a].0 > all[b].0 || (all[a].0 == all[b].0 && before(
                all[a].1.trace_id.as_str(),
                all[b].1.trace_id.as_str(),
            ))
        };
    let list: Vec<usize> = order(all.len(), &earlier, Ghost(less));
    let count: usize = if request.limit < list.len() {
        request.limit
    } else {
        list.len()
    };
    let ghost goal = found(request@, m, w);
    let mut traces: Vec<TraceSummary> = Vec::new();
    let mut k: usize = 0;
    while k < count
        invariant
            k <= count <= list@.len(),
            list@.len() == all@.len(),
            listed == views(all@),
            goal.len() == count,
            forall|j: int| 0 <= j < count ==> #[trigger] goal[j] == listed[numbers(list@)[j]].1,
            forall|j: int| 0 <= j < list@.len() ==> #[trigger] list@[j] < all@.len(),
            traces@.len() == k,
            forall|j: int| 0 <= j < k ==> (#[trigger] traces@[j])@ == goal[j],
        decreases count - k,
    {
        proof {
            assert(list@[k as int] < all@.len());
            assert(numbers(list@)[k as int] == list@[k as int]);
            assert(listed[list@[k as int] as int] == all@[list@[k as int] as int]@);
        }
        traces.push(copy_summary(&all[list[k]].1));
        k += 1;
    }
    assert(views(traces@) =~= goal);
    let inspected_traces: u32 = if traces.len() as u64 > u32::MAX as u64 {
        u32::MAX
    } else {
        traces.len() as u32
    };
    SearchResponse { metrics: SearchMetrics { inspected_traces, inspected_spans }, traces }
}

/// The traces that matched spans belong to: the ids to read whole, each once and in order.
pub fn matched_traces(matched: &Vec<SpanRecord>) -> (ids: Vec<String>)
    ensures
        views(ids@) == sorted_set(trace_ids(views(matched@))),
{
    let ghost all = views(matched@);
    let mut ids: Vec<String> = Vec::new();
    let mut i: usize = 0;
    assert(views(ids@) =~= sorted_set(trace_ids(all.take(0))));
    while i < matched.len()
        invariant
            i <= matched@.len(),
            all == views(matched@),
            views(ids@) == sorted_set(trace_ids(all.take(i as int))),
        decreases matched@.len() - i,
    {
        proof {
            let next = trace_ids(all.take(i as int + 1));
            assert(next.drop_last() =~= trace_ids(all.take(i as int)));
            assert(next.last() == matched@[i as int]@.trace_id);
        }
        add_text(&mut ids, matched[i].trace_id.as_str());
        i += 1;
    }
    assert(all.take(i as int) =~= all);
    ids
}

/// Whether a span belongs to one of the traces.
pub fn is_of_any(span: &SpanRecord, ids: &Vec<String>) -> (r: bool)
    ensures
        r == views(ids@).contains(span@.trace_id),
{
    let mut i: usize = 0;
    while i < ids.len()
        invariant
            i <= ids@.len(),
            forall|j: int| 0 <= j < i ==> #[trigger] views(ids@)[j] != span@.trace_id,
        decreases ids@.len() - i,
    {
        assert(views(ids@)[i as int] == ids@[i as int]@);
        if same(ids[i].as_str(), span.trace_id.as_str()) {
            return true;
        }
        i += 1;
    }
    false
}

proof fn lemma_of_trace_among(spans: Seq<SpanView>, ids: Seq<Seq<char>>, id: Seq<char>)
    requires
        ids.contains(id),
    ensures
        of_trace(spans.filter(|span: SpanView| ids.contains(span.trace_id)), id) == of_trace(
            spans,
            id,
        ),
    decreases spans.len(),
{
    reveal(Seq::filter);
    let among = |span: SpanView| ids.contains(span.trace_id);
    if spans.len() > 0 {
        let rest = spans.drop_last();
        lemma_of_trace_among(rest, ids, id);
        if among(spans.last()) {
            assert(rest.filter(among).push(spans.last()).drop_last() =~= rest.filter(among));
        }
    }
}

proof fn lemma_rows_among(
    request: SearchView,
    matched: Seq<SpanView>,
    stored: Seq<SpanView>,
    whole: Seq<SpanView>,
    groups: Seq<Seq<int>>,
    n: nat,
)
    requires
        n <= groups.len(),
        sound_groups(groups, trace_ids(matched), matched.len() as int),
        forall|id: Seq<char>|
            trace_ids(matched).contains(id) ==> #[trigger] of_trace(whole, id) == of_trace(stored, id),
    ensures
        rows(request, matched, whole, groups, n) == rows(request, matched, stored, groups, n),
    decreases n,
{
    if n > 0 {
        lemma_rows_among(request, matched, stored, whole, groups, (n - 1) as nat);
        let at = groups[n - 1][0];
        assert(groups[n - 1].len() > 0);
        let id = matched[at].trace_id;
        assert(trace_ids(matched)[at] == id);
        assert(of_trace(whole, id) == of_trace(stored, id));
    }
}

/// A search needs no span of any other trace: with those of the matched traces alone, read
/// from a store, it answers as with the whole store.
pub proof fn law_other_traces_do_not_matter(
    request: SearchView,
    matched: Seq<SpanView>,
    stored: Seq<SpanView>,
)
    ensures
        found(
            request,
            matched,
            stored.filter(
                |span: SpanView| sorted_set(trace_ids(matched)).contains(span.trace_id),
            ),
        ) == found(request, matched, stored),
{
    let ids = sorted_set(trace_ids(matched));
    let whole = stored.filter(|span: SpanView| ids.contains(span.trace_id));
    law_sorted_set(trace_ids(matched));
    assert forall|id: Seq<char>| trace_ids(matched).contains(id) implies #[trigger] of_trace(
        whole,
        id,
    ) == of_trace(stored, id) by {
        assert(ids.contains(id));
        lemma_of_trace_among(stored, ids, id);
    }
    let groups = grouped(trace_ids(matched), matched.len());
    lemma_grouped(trace_ids(matched), matched.len());
    lemma_rows_among(request, matched, stored, whole, groups, groups.len());
}

fn copy_attributes(list: &Vec<TempoKeyValue>) -> (copy: Vec<TempoKeyValue>)
    ensures
        views(copy@) == views(list@),
{
    let mut copy: Vec<TempoKeyValue> = Vec::new();
    let mut i: usize = 0;
    while i < list.len()
        invariant
            i <= list@.len(),
            copy@.len() == i,
            forall|j: int| 0 <= j < i ==> (#[trigger] copy@[j])@ == list@[j]@,
        decreases list@.len() - i,
    {
        copy.push(
            TempoKeyValue {
                key: list[i].key.clone(),
                value: TempoValue { string_value: list[i].value.string_value.clone() },
            },
        );
        i += 1;
    }
    assert(views(copy@) =~= views(list@));
    copy
}

fn copy_set(set: &SpanSet) -> (copy: SpanSet)
    ensures
        copy@ == set@,
{
    let mut spans: Vec<MatchedSpan> = Vec::new();
    let mut i: usize = 0;
    while i < set.spans.len()
        invariant
            i <= set.spans@.len(),
            spans@.len() == i,
            forall|j: int| 0 <= j < i ==> (#[trigger] spans@[j])@ == set.spans@[j]@,
        decreases set.spans@.len() - i,
    {
        let span: &MatchedSpan = &set.spans[i];
        spans.push(
            MatchedSpan {
                span_id: span.span_id.clone(),
                name: span.name.clone(),
                start_time_unix_nano: span.start_time_unix_nano.clone(),
                duration_nanos: span.duration_nanos.clone(),
                attributes: copy_attributes(&span.attributes),
            },
        );
        i += 1;
    }
    assert(views(spans@) =~= views(set.spans@));
    SpanSet { spans, matched: set.matched }
}

fn copy_summary(summary: &TraceSummary) -> (copy: TraceSummary)
    ensures
        copy@ == summary@,
{
    let mut span_sets: Vec<SpanSet> = Vec::new();
    let mut i: usize = 0;
    while i < summary.span_sets.len()
        invariant
            i <= summary.span_sets@.len(),
            span_sets@.len() == i,
            forall|j: int| 0 <= j < i ==> (#[trigger] span_sets@[j])@ == summary.span_sets@[j]@,
        decreases summary.span_sets@.len() - i,
    {
        span_sets.push(copy_set(&summary.span_sets[i]));
        i += 1;
    }
    assert(views(span_sets@) =~= views(summary.span_sets@));
    TraceSummary {
        trace_id: summary.trace_id.clone(),
        root_service_name: summary.root_service_name.clone(),
        root_trace_name: summary.root_trace_name.clone(),
        start_time_unix_nano: summary.start_time_unix_nano.clone(),
        duration_nanos: summary.duration_nanos,
        span_sets,
    }
}

// ---------------------------------------------------------------------------
// One trace
// ---------------------------------------------------------------------------

/// A trace by its id, one batch per resource.
#[derive(Debug)]
pub struct TraceResponse {
    pub batches: Vec<ResourceSpans>,
}

impl View for TraceResponse {
    type V = Seq<BatchView>;

    open spec fn view(&self) -> Seq<BatchView> {
        views(self.batches@)
    }
}

#[derive(Debug)]
pub struct ResourceSpans {
    pub resource: ResourceJson,
    pub scope_spans: Vec<ScopeSpans>,
}

pub struct BatchView {
    pub resource: Seq<Pair>,
    pub scope_spans: Seq<Seq<SpanJsonView>>,
}

impl View for ResourceSpans {
    type V = BatchView;

    open spec fn view(&self) -> BatchView {
        BatchView {
            resource: views(self.resource.attributes@),
            scope_spans: views(self.scope_spans@),
        }
    }
}

#[derive(Debug)]
pub struct ResourceJson {
    pub attributes: Vec<TempoKeyValue>,
}

#[derive(Debug)]
pub struct ScopeSpans {
    pub spans: Vec<SpanJson>,
}

impl View for ScopeSpans {
    type V = Seq<SpanJsonView>;

    open spec fn view(&self) -> Seq<SpanJsonView> {
        views(self.spans@)
    }
}

#[derive(Debug)]
pub struct SpanJson {
    pub trace_id: String,
    pub span_id: String,
    /// Empty where there is no parent.
    pub parent_span_id: String,
    pub name: String,
    pub kind: i32,
    pub start_time_unix_nano: String,
    pub end_time_unix_nano: String,
    pub attributes: Vec<TempoKeyValue>,
    pub status: StatusJson,
    pub events: Vec<EventJson>,
    pub links: Vec<LinkJson>,
}

pub struct SpanJsonView {
    pub trace_id: Seq<char>,
    pub span_id: Seq<char>,
    pub parent_span_id: Seq<char>,
    pub name: Seq<char>,
    pub kind: i32,
    pub start_time_unix_nano: Seq<char>,
    pub end_time_unix_nano: Seq<char>,
    pub attributes: Seq<Pair>,
    pub status: (i32, Seq<char>),
    pub events: Seq<EventView>,
    pub links: Seq<LinkView>,
}

impl View for SpanJson {
    type V = SpanJsonView;

    open spec fn view(&self) -> SpanJsonView {
        SpanJsonView {
            trace_id: self.trace_id@,
            span_id: self.span_id@,
            parent_span_id: self.parent_span_id@,
            name: self.name@,
            kind: self.kind,
            start_time_unix_nano: self.start_time_unix_nano@,
            end_time_unix_nano: self.end_time_unix_nano@,
            attributes: views(self.attributes@),
            status: (self.status.code, self.status.message@),
            events: views(self.events@),
            links: views(self.links@),
        }
    }
}

#[derive(Debug)]
pub struct StatusJson {
    pub code: i32,
    pub message: String,
}

/// A link to another span, in the same spelling of ids as the span itself.
#[derive(Debug)]
pub struct LinkJson {
    pub trace_id: String,
    pub span_id: String,
    pub trace_state: String,
    pub attributes: Vec<TempoKeyValue>,
}

pub struct LinkView {
    pub trace_id: Seq<char>,
    pub span_id: Seq<char>,
    pub trace_state: Seq<char>,
    pub attributes: Seq<Pair>,
}

impl View for LinkJson {
    type V = LinkView;

    open spec fn view(&self) -> LinkView {
        LinkView {
            trace_id: self.trace_id@,
            span_id: self.span_id@,
            trace_state: self.trace_state@,
            attributes: views(self.attributes@),
        }
    }
}

#[derive(Debug)]
pub struct EventJson {
    pub time_unix_nano: String,
    pub name: String,
    pub attributes: Vec<TempoKeyValue>,
}

pub struct EventView {
    pub time_unix_nano: Seq<char>,
    pub name: Seq<char>,
    pub attributes: Seq<Pair>,
}

impl View for EventJson {
    type V = EventView;

    open spec fn view(&self) -> EventView {
        EventView {
            time_unix_nano: self.time_unix_nano@,
            name: self.name@,
            attributes: views(self.attributes@),
        }
    }
}

pub open spec fn event_json(event: SpanEventView) -> EventView {
    EventView {
        time_unix_nano: decimal(event.time_nanos as nat),
        name: event.name,
        attributes: event.attributes,
    }
}

pub open spec fn link_json(link: SpanLinkView) -> LinkView {
    LinkView {
        trace_id: link.trace_id,
        span_id: link.span_id,
        trace_state: link.trace_state,
        attributes: link.attributes,
    }
}

/// A span as it is written.
pub open spec fn span_json(span: SpanView) -> SpanJsonView {
    SpanJsonView {
        trace_id: span.trace_id,
        span_id: span.span_id,
        parent_span_id: query_text(span.parent_span_id),
        name: span.name,
        kind: span.kind.number() as i32,
        start_time_unix_nano: decimal(span.start_nanos as nat),
        end_time_unix_nano: decimal(span.end_nanos as nat),
        attributes: span.attributes,
        status: (span.status.number() as i32, span.status_message),
        events: span.events.map_values(|event: SpanEventView| event_json(event)),
        links: span.links.map_values(|link: SpanLinkView| link_json(link)),
    }
}

fn event_of(event: &SpanEvent) -> (out: EventJson)
    ensures
        out@ == event_json(event@),
{
    EventJson {
        time_unix_nano: decimal_text(event.time_nanos),
        name: event.name.clone(),
        attributes: key_values(&event.attributes),
    }
}

fn link_of(link: &SpanLink) -> (out: LinkJson)
    ensures
        out@ == link_json(link@),
{
    LinkJson {
        trace_id: link.trace_id.clone(),
        span_id: link.span_id.clone(),
        trace_state: link.trace_state.clone(),
        attributes: key_values(&link.attributes),
    }
}

/// Writes a span.
pub fn to_span_json(span: &SpanRecord) -> (out: SpanJson)
    ensures
        out@ == span_json(span@),
{
    let mut events: Vec<EventJson> = Vec::new();
    let mut i: usize = 0;
    while i < span.events.len()
        invariant
            i <= span.events@.len(),
            events@.len() == i,
            forall|j: int| 0 <= j < i ==> (#[trigger] events@[j])@ == event_json(span@.events[j]),
        decreases span.events@.len() - i,
    {
        assert(span@.events[i as int] == span.events@[i as int]@);
        events.push(event_of(&span.events[i]));
        i += 1;
    }
    let mut links: Vec<LinkJson> = Vec::new();
    let mut j: usize = 0;
    while j < span.links.len()
        invariant
            j <= span.links@.len(),
            links@.len() == j,
            forall|k: int| 0 <= k < j ==> (#[trigger] links@[k])@ == link_json(span@.links[k]),
        decreases span.links@.len() - j,
    {
        assert(span@.links[j as int] == span.links@[j as int]@);
        links.push(link_of(&span.links[j]));
        j += 1;
    }
    assert(views(events@) =~= span_json(span@).events);
    assert(views(links@) =~= span_json(span@).links);
    let parent_span_id: String = match &span.parent_span_id {
        Some(id) => id.clone(),
        None => String::new(),
    };
    assert(parent_span_id@ =~= query_text(span@.parent_span_id));
    SpanJson {
        trace_id: span.trace_id.clone(),
        span_id: span.span_id.clone(),
        parent_span_id,
        name: span.name.clone(),
        kind: span.kind.as_otlp_number(),
        start_time_unix_nano: decimal_text(span.start_nanos),
        end_time_unix_nano: decimal_text(span.end_nanos),
        attributes: key_values(&span.attributes),
        status: StatusJson {
            code: span.status.as_otlp_number(),
            message: span.status_message.clone(),
        },
        events,
        links,
    }
}

/// A resource label's name as it is written: clients read `service.name` with a dot.
pub open spec fn resource_key(name: Seq<char>) -> Seq<char> {
    if name == "service_name"@ {
        "service.name"@
    } else {
        name
    }
}

pub open spec fn resource_pairs(labels: Seq<Pair>) -> Seq<Pair> {
    labels.map_values(|pair: Pair| (resource_key(pair.0), pair.1))
}

fn resource_values(labels: &Labels) -> (list: Vec<TempoKeyValue>)
    ensures
        views(list@) == resource_pairs(labels@),
{
    let mut list: Vec<TempoKeyValue> = Vec::new();
    let mut i: usize = 0;
    while i < labels.len()
        invariant
            i <= labels@.len(),
            list@.len() == i,
            forall|j: int| 0 <= j < i ==> (#[trigger] list@[j])@ == resource_pairs(labels@)[j],
        decreases labels@.len() - i,
    {
        let name: &str = labels.name_at(i);
        let key: String = if same(name, "service_name") {
            "service.name".to_owned()
        } else {
            name.to_owned()
        };
        list.push(
            TempoKeyValue {
                key,
                value: TempoValue { string_value: labels.value_at(i).to_owned() },
            },
        );
        i += 1;
    }
    assert(views(list@) =~= resource_pairs(labels@));
    list
}

/// The batch of one group of spans, in start order.
pub open spec fn batch_of(spans: Seq<SpanView>, group: Seq<int>) -> BatchView {
    let own = chosen(spans, group);
    let sorted = chosen(
        own,
        ordered(own.len(), |a: int, b: int| own[a].start_nanos < own[b].start_nanos),
    );
    BatchView {
        resource: resource_pairs(spans[group[0]].stream),
        scope_spans: seq![sorted.map_values(|span: SpanView| span_json(span))],
    }
}

/// One batch per resource, the resources in the order of their labels.
pub open spec fn batches_of(spans: Seq<SpanView>) -> Seq<BatchView> {
    sorted_groups(span_streams(spans)).map_values(|group: Seq<int>| batch_of(spans, group))
}

/// The trace with an id, from spans among which its own are; each span once.
pub open spec fn trace_of(spans: Seq<SpanView>, raw: Seq<char>) -> Result<Seq<BatchView>, Fault> {
    let wanted = lower(trim(raw));
    if wanted.len() == 0 {
        Err(refused("empty trace id"@))
    } else {
        Ok(batches_of(each_once(of_trace(spans, wanted))))
    }
}

/// The trace id that a request asks for.
pub fn wanted_trace(trace_id: &str) -> (r: Result<String, Error>)
    ensures
        match r {
            Ok(id) => id@ == lower(trim(trace_id@)) && id@.len() > 0,
            Err(error) => error@ == refused("empty trace id"@) && lower(trim(trace_id@)).len() == 0,
        },
{
    let wanted: String = lowered(trimmed(trace_id).as_str());
    if wanted.as_str().is_empty() {
        return Err(Failure::BadRequest("empty trace id".to_owned()));
    }
    Ok(wanted)
}

fn one_batch(spans: &Vec<&SpanRecord>, group: &Vec<usize>) -> (batch: ResourceSpans)
    requires
        group@.len() > 0,
        forall|k: int| 0 <= k < group@.len() ==> 0 <= #[trigger] numbers(group@)[k] < spans@.len(),
    ensures
        batch@ == batch_of(views(spans@), numbers(group@)),
{
    let ghost all = views(spans@);
    let ghost at = numbers(group@);
    let own: Vec<&SpanRecord> = pick(spans, group);
    let ghost owned = chosen(all, at);
    let ghost less = |a: int, b: int| owned[a].start_nanos < owned[b].start_nanos;
    let earlier = |a: usize, b: usize| -> (r: bool)
        requires
            a < own@.len(),
            b < own@.len(),
        ensures
            r == (own@[a as int]@.start_nanos < own@[b as int]@.start_nanos),
        { own[a].start_nanos < own[b].start_nanos };
    assert(owned.len() == own@.len());
    assert forall|j: int| 0 <= j < own@.len() implies owned[j] == (#[trigger] own@[j])@ by {
        assert(views(own@)[j] == own@[j]@);
    }
    let list: Vec<usize> = order(own.len(), &earlier, Ghost(less));
    let sorted: Vec<&SpanRecord> = pick(&own, &list);
    let ghost s = views(sorted@);
    let mut written: Vec<SpanJson> = Vec::new();
    let mut i: usize = 0;
    while i < sorted.len()
        invariant
            i <= sorted@.len(),
            s == views(sorted@),
            written@.len() == i,
            forall|j: int| 0 <= j < i ==> (#[trigger] written@[j])@ == span_json(s[j]),
        decreases sorted@.len() - i,
    {
        assert(s[i as int] == sorted@[i as int]@);
        written.push(to_span_json(sorted[i]));
        i += 1;
    }
    let ghost goal = batch_of(all, at);
    assert(views(written@) =~= s.map_values(|span: SpanView| span_json(span)));
    let mut scope_spans: Vec<ScopeSpans> = Vec::new();
    scope_spans.push(ScopeSpans { spans: written });
    proof {
        assert(at[0] == group@[0]);
        assert(all[at[0]] == spans@[at[0]]@);
    }
    let resource = ResourceJson { attributes: resource_values(&spans[group[0]].stream) };
    let batch = ResourceSpans { resource, scope_spans };
    assert(batch@.scope_spans =~= goal.scope_spans);
    batch
}

/// Every span of a trace, grouped by resource.
pub fn trace(spans: &Vec<SpanRecord>, trace_id: &str) -> (r: Result<TraceResponse, Error>)
    ensures
        outcome(r) == trace_of(views(spans@), trace_id@),
{
    let wanted: String = match wanted_trace(trace_id) {
        Ok(wanted) => wanted,
        Err(error) => {
            return Err(error);
        },
    };
    let own: Vec<&SpanRecord> = distinct_spans(&spans_of(spans, wanted.as_str()));
    let ghost all = views(own@);
    let mut streams: Vec<&Labels> = Vec::new();
    let mut i: usize = 0;
    while i < own.len()
        invariant
            i <= own@.len(),
            all == views(own@),
            streams@.len() == i,
            forall|j: int| 0 <= j < i ==> (#[trigger] streams@[j])@ == all[j].stream,
        decreases own@.len() - i,
    {
        assert(all[i as int] == own@[i as int]@);
        streams.push(&own[i].stream);
        i += 1;
    }
    let ghost keys = span_streams(all);
    assert(label_views(streams@) =~= keys);
    let groups: Vec<Vec<usize>> = sort_groups(&streams);
    let ghost sorted = sorted_groups(keys);
    proof {
        lemma_sorted_groups(keys);
    }
    let mut batches: Vec<ResourceSpans> = Vec::new();
    let mut g: usize = 0;
    while g < groups.len()
        invariant
            g <= groups@.len(),
            all == views(own@),
            sorted == places(groups@),
            sound_groups(sorted, keys, all.len() as int),
            batches@.len() == g,
            forall|j: int| 0 <= j < g ==> (#[trigger] batches@[j])@ == batch_of(all, sorted[j]),
        decreases groups@.len() - g,
    {
        proof {
            assert(sorted[g as int] == numbers(groups@[g as int]@));
            assert(sorted[g as int].len() > 0);
        }
        batches.push(one_batch(&own, &groups[g]));
        g += 1;
    }
    assert(views(batches@) =~= batches_of(all));
    Ok(TraceResponse { batches })
}

// ---------------------------------------------------------------------------
// Tags
// ---------------------------------------------------------------------------

#[derive(Debug)]
pub struct TagsResponse {
    pub tag_names: Vec<String>,
}

/// Tag names by scope.
#[derive(Debug)]
pub struct TagScopesResponse {
    pub scopes: Vec<TagScope>,
}

#[derive(Debug)]
pub struct TagScope {
    pub name: &'static str,
    pub tags: Vec<String>,
}

impl View for TagScope {
    type V = (Seq<char>, Seq<Seq<char>>);

    open spec fn view(&self) -> (Seq<char>, Seq<Seq<char>>) {
        (self.name@, views(self.tags@))
    }
}

#[derive(Debug)]
pub struct TagValuesResponse {
    pub tag_values: Vec<TagValue>,
}

#[derive(Debug)]
pub struct TagValue {
    /// Always `string`: every attribute value is stored as text.
    pub value_type: &'static str,
    pub value: String,
}

impl View for TagValue {
    type V = (Seq<char>, Seq<char>);

    open spec fn view(&self) -> (Seq<char>, Seq<char>) {
        (self.value_type@, self.value@)
    }
}

/// The names of the attributes of the spans.
pub open spec fn attribute_names(spans: Seq<SpanView>) -> Seq<Seq<char>>
    decreases spans.len(),
{
    if spans.len() == 0 {
        Seq::empty()
    } else {
        attribute_names(spans.drop_last()) + spans.last().attributes.map_values(
            |pair: Pair| pair.0,
        )
    }
}

/// The fields that every span has, in order.
pub open spec fn intrinsic_names() -> Seq<Seq<char>> {
    seq!["duration"@, "kind"@, "name"@, "status"@]
}

/// Tag names by scope: stream labels are the resource, span attributes are the span, and
/// the fields that every span has.
pub open spec fn scopes_of(labels: Seq<Seq<char>>, spans: Seq<SpanView>) -> Seq<
    (Seq<char>, Seq<Seq<char>>),
> {
    seq![
        ("resource"@, sorted_set(labels)),
        ("span"@, sorted_set(attribute_names(spans))),
        ("intrinsic"@, intrinsic_names()),
    ]
}

fn sort_texts(texts: &Vec<String>) -> (list: Vec<String>)
    ensures
        views(list@) == sorted_set(views(texts@)),
{
    let ghost all = views(texts@);
    let mut list: Vec<String> = Vec::new();
    let mut i: usize = 0;
    assert(views(list@) =~= all.take(0));
    while i < texts.len()
        invariant
            i <= texts@.len(),
            all == views(texts@),
            views(list@) == sorted_set(all.take(i as int)),
        decreases texts@.len() - i,
    {
        proof {
            let next = all.take(i as int + 1);
            assert(next.drop_last() =~= all.take(i as int));
            assert(next.last() == texts@[i as int]@);
        }
        add_text(&mut list, texts[i].as_str());
        i += 1;
    }
    assert(all.take(i as int) =~= all);
    list
}

fn span_tags(spans: &Vec<SpanRecord>) -> (list: Vec<String>)
    ensures
        views(list@) == sorted_set(attribute_names(views(spans@))),
{
    let ghost all = views(spans@);
    let mut list: Vec<String> = Vec::new();
    let mut i: usize = 0;
    assert(views(list@) =~= sorted_set(attribute_names(all.take(0))));
    while i < spans.len()
        invariant
            i <= spans@.len(),
            all == views(spans@),
            views(list@) == sorted_set(attribute_names(all.take(i as int))),
        decreases spans@.len() - i,
    {
        proof {
            let next = all.take(i as int + 1);
            assert(next.drop_last() =~= all.take(i as int));
            assert(next.last() == spans@[i as int]@);
        }
        add_names(&mut list, &spans[i].attributes, Ghost(attribute_names(all.take(i as int))));
        i += 1;
    }
    assert(all.take(i as int) =~= all);
    list
}

/// Tag names by scope, from the names of the stream labels and from spans.
pub fn scoped_tags(labels: &Vec<String>, spans: &Vec<SpanRecord>) -> (scopes: Vec<TagScope>)
    ensures
        views(scopes@) == scopes_of(views(labels@), views(spans@)),
{
    let mut intrinsic: Vec<String> = Vec::new();
    intrinsic.push("duration".to_owned());
    intrinsic.push("kind".to_owned());
    intrinsic.push("name".to_owned());
    intrinsic.push("status".to_owned());
    assert(views(intrinsic@) =~= intrinsic_names());
    let mut scopes: Vec<TagScope> = Vec::new();
    scopes.push(TagScope { name: "resource", tags: sort_texts(labels) });
    scopes.push(TagScope { name: "span", tags: span_tags(spans) });
    scopes.push(TagScope { name: "intrinsic", tags: intrinsic });
    assert(views(scopes@) =~= scopes_of(views(labels@), views(spans@)));
    scopes
}

/// Every tag name: resource labels, span attributes and what every span has, since TraceQL
/// can filter on each.
pub fn tags(labels: &Vec<String>, spans: &Vec<SpanRecord>) -> (response: TagsResponse)
    ensures
        views(response.tag_names@) == sorted_set(
            views(labels@) + attribute_names(views(spans@)) + intrinsic_names(),
        ),
{
    let ghost all = views(spans@);
    let mut list: Vec<String> = sort_texts(labels);
    let ghost first = views(labels@);
    let mut i: usize = 0;
    assert(first + attribute_names(all.take(0)) =~= first);
    while i < spans.len()
        invariant
            i <= spans@.len(),
            all == views(spans@),
            first == views(labels@),
            views(list@) == sorted_set(first + attribute_names(all.take(i as int))),
        decreases spans@.len() - i,
    {
        let ghost seen = first + attribute_names(all.take(i as int));
        proof {
            let next = all.take(i as int + 1);
            assert(next.drop_last() =~= all.take(i as int));
            assert(next.last() == spans@[i as int]@);
            assert(first + attribute_names(next) =~= seen + spans@[i as int]@.attributes.map_values(
                |pair: Pair| pair.0,
            ));
        }
        add_names(&mut list, &spans[i].attributes, Ghost(seen));
        i += 1;
    }
    let ghost seen = first + attribute_names(all);
    proof {
        assert(all.take(i as int) =~= all);
        lemma_add_to_set(seen, "duration"@);
        lemma_add_to_set(seen.push("duration"@), "kind"@);
        lemma_add_to_set(seen.push("duration"@).push("kind"@), "name"@);
        lemma_add_to_set(seen.push("duration"@).push("kind"@).push("name"@), "status"@);
        assert(seen.push("duration"@).push("kind"@).push("name"@).push("status"@) =~= seen
            + intrinsic_names());
    }
    add_text(&mut list, "duration");
    add_text(&mut list, "kind");
    add_text(&mut list, "name");
    add_text(&mut list, "status");
    TagsResponse { tag_names: list }
}

proof fn lemma_add_to_set(texts: Seq<Seq<char>>, text: Seq<char>)
    ensures
        sorted_set(texts.push(text)) == crate::textset::with_text(sorted_set(texts), text),
{
    assert(texts.push(text).drop_last() =~= texts);
}

/// The scope that a request narrows to; nothing where it asks for all.
pub open spec fn wanted_scope(scope: Option<Seq<char>>) -> Option<Seq<char>> {
    match scope {
        Some(raw) => if trim(raw).len() == 0 || trim(raw) == "all"@ {
            None
        } else {
            Some(trim(raw))
        },
        None => None,
    }
}

pub open spec fn in_scope(scope: Option<Seq<char>>, name: Seq<char>) -> bool {
    match wanted_scope(scope) {
        Some(wanted) => lower(wanted) == lower(name),
        None => true,
    }
}

/// The scopes that a request asks for.
pub open spec fn scopes_within(
    scopes: Seq<(Seq<char>, Seq<Seq<char>>)>,
    scope: Option<Seq<char>>,
) -> Seq<(Seq<char>, Seq<Seq<char>>)>
    decreases scopes.len(),
{
    if scopes.len() == 0 {
        scopes
    } else if in_scope(scope, scopes.last().0) {
        scopes_within(scopes.drop_last(), scope).push(scopes.last())
    } else {
        scopes_within(scopes.drop_last(), scope)
    }
}

/// Tag names by scope. `scope` narrows the answer to one of them.
pub fn tags_v2(labels: &Vec<String>, spans: &Vec<SpanRecord>, scope: Option<&str>) -> (response:
    TagScopesResponse)
    ensures
        views(response.scopes@) == scopes_within(
            scopes_of(views(labels@), views(spans@)),
            option_view(scope),
        ),
{
    let wanted: Option<String> = match scope {
        Some(raw) => {
            let text: String = trimmed(raw);
            if text.as_str().is_empty() || same(text.as_str(), "all") {
                None
            } else {
                Some(text)
            }
        },
        None => None,
    };
    assert(option_view(wanted) == wanted_scope(option_view(scope)));
    let all: Vec<TagScope> = scoped_tags(labels, spans);
    let ghost s = views(all@);
    let mut scopes: Vec<TagScope> = Vec::new();
    let mut i: usize = 0;
    assert(views(scopes@) =~= s.take(0));
    while i < all.len()
        invariant
            i <= all@.len(),
            s == views(all@),
            option_view(wanted) == wanted_scope(option_view(scope)),
            views(scopes@) == scopes_within(s.take(i as int), option_view(scope)),
        decreases all@.len() - i,
    {
        proof {
            let next = s.take(i as int + 1);
            assert(next.drop_last() =~= s.take(i as int));
            assert(next.last() == all@[i as int]@);
        }
        let keep: bool = match &wanted {
            Some(wanted) => same_ignoring_case(wanted.as_str(), all[i].name),
            None => true,
        };
        if keep {
            let one = TagScope { name: all[i].name, tags: texts_copy(&all[i].tags) };
            proof {
                lemma_views_push(scopes@, one);
            }
            scopes.push(one);
        }
        i += 1;
    }
    assert(s.take(i as int) =~= s);
    TagScopesResponse { scopes }
}

/// A text without a prefix, however often it stands there.
pub open spec fn without_prefix(s: Seq<char>, prefix: Seq<char>) -> Seq<char>
    decreases s.len(),
{
    if prefix.len() > 0 && starts_with(s, prefix) {
        without_prefix(s.skip(prefix.len() as int), prefix)
    } else {
        s
    }
}

/// The tag that a request names, without its scope.
pub open spec fn bare_tag(tag: Seq<char>) -> Seq<char> {
    without_prefix(without_prefix(without_prefix(trim(tag), "resource."@), "span."@), "."@)
}

/// The value of a tag in a span. Stream labels are stored sanitised, so a dotted name is
/// sanitised to reach them.
pub open spec fn tag_value(span: SpanView, name: Seq<char>) -> Option<Seq<char>> {
    if name == "name"@ {
        Some(span.name)
    } else if name == "status"@ {
        Some(span.status.label())
    } else if name == "kind"@ {
        Some(span.kind.label())
    } else {
        match lookup_relaxed(span.attributes, name) {
            Some(value) => Some(value),
            None => match lookup(span.stream, name) {
                Some(value) => Some(value),
                None => lookup(span.stream, sanitized(name)),
            },
        }
    }
}

/// The values of a tag, one per span that has it.
pub open spec fn tag_values_of(spans: Seq<SpanView>, name: Seq<char>) -> Seq<Seq<char>>
    decreases spans.len(),
{
    if spans.len() == 0 {
        Seq::empty()
    } else {
        match tag_value(spans.last(), name) {
            Some(value) => tag_values_of(spans.drop_last(), name).push(value),
            None => tag_values_of(spans.drop_last(), name),
        }
    }
}

fn strip_all(text: &str, prefix: &str) -> (out: String)
    requires
        prefix@.len() > 0,
    ensures
        out@ == without_prefix(text@, prefix@),
{
    let mut out: String = text.to_owned();
    let mut more: bool = true;
    while more
        invariant
            prefix@.len() > 0,
            without_prefix(text@, prefix@) == without_prefix(out@, prefix@),
            !more ==> !starts_with(out@, prefix@),
        decreases out@.len() + (if more { 1int } else { 0 }),
    {
        match strip_prefix(out.as_str(), prefix) {
            Some(rest) => {
                out = rest;
            },
            None => {
                more = false;
            },
        }
    }
    out
}

fn value_of<'a>(span: &'a SpanRecord, name: &str) -> (value: Option<&'a str>)
    ensures
        option_view(value) == tag_value(span@, name@),
{
    if same(name, "name") {
        return Some(span.name.as_str());
    }
    if same(name, "status") {
        return Some(span.status.as_str());
    }
    if same(name, "kind") {
        return Some(span.kind.as_str());
    }
    match span.attributes.get_relaxed(name) {
        Some(value) => Some(value),
        None => match span.stream.get(name) {
            Some(value) => Some(value),
            None => span.stream.get(sanitize_label_name(name).as_str()),
        },
    }
}

/// The values of a tag over the spans of a request, in order, each once.
pub fn tag_values(spans: &Vec<SpanRecord>, tag: &str) -> (response: TagValuesResponse)
    ensures
        views(response.tag_values@) == sorted_set(
            tag_values_of(views(spans@), bare_tag(tag@)),
        ).map_values(|value: Seq<char>| ("string"@, value)),
{
    proof {
        reveal_strlit("resource.");
        reveal_strlit("span.");
        reveal_strlit(".");
    }
    let name: String = trimmed(tag);
    let name: String = strip_all(name.as_str(), "resource.");
    let name: String = strip_all(name.as_str(), "span.");
    let name: String = strip_all(name.as_str(), ".");
    let ghost all = views(spans@);
    let mut values: Vec<String> = Vec::new();
    let mut i: usize = 0;
    assert(views(values@) =~= sorted_set(tag_values_of(all.take(0), name@)));
    while i < spans.len()
        invariant
            i <= spans@.len(),
            all == views(spans@),
            views(values@) == sorted_set(tag_values_of(all.take(i as int), name@)),
        decreases spans@.len() - i,
    {
        proof {
            let next = all.take(i as int + 1);
            assert(next.drop_last() =~= all.take(i as int));
            assert(next.last() == spans@[i as int]@);
        }
        match value_of(&spans[i], name.as_str()) {
            Some(value) => {
                proof {
                    lemma_add_to_set(tag_values_of(all.take(i as int), name@), value@);
                }
                add_text(&mut values, value);
            },
            None => {},
        }
        i += 1;
    }
    assert(all.take(i as int) =~= all);
    let ghost sorted = views(values@);
    let mut list: Vec<TagValue> = Vec::new();
    let mut k: usize = 0;
    while k < values.len()
        invariant
            k <= values@.len(),
            sorted == views(values@),
            list@.len() == k,
            forall|j: int| 0 <= j < k ==> (#[trigger] list@[j])@ == ("string"@, sorted[j]),
        decreases values@.len() - k,
    {
        assert(sorted[k as int] == values@[k as int]@);
        list.push(TagValue { value_type: "string", value: values[k].clone() });
        k += 1;
    }
    assert(views(list@) =~= sorted.map_values(|value: Seq<char>| ("string"@, value)));
    TagValuesResponse { tag_values: list }
}

// ---------------------------------------------------------------------------
// Protobuf
// ---------------------------------------------------------------------------

/// A key and its text value.
pub open spec fn pair_bytes(pair: Pair) -> Seq<u8> {
    string_field(1, pair.0) + message_field(2, string_field(1, pair.1))
}

/// Messages under one field, one behind the other.
pub open spec fn fields_of(field: nat, messages: Seq<Seq<u8>>) -> Seq<u8>
    decreases messages.len(),
{
    if messages.len() == 0 {
        Seq::empty()
    } else {
        fields_of(field, messages.drop_last()) + message_field(field, messages.last())
    }
}

pub open spec fn pair_messages(pairs: Seq<Pair>) -> Seq<Seq<u8>> {
    pairs.map_values(|pair: Pair| pair_bytes(pair))
}

/// The number of a text of nanoseconds; zero where it is none.
pub open spec fn nanos_of(text: Seq<char>) -> nat {
    match parse_unsigned(text, u64::MAX as nat) {
        Some(nanos) => nanos,
        None => 0,
    }
}

/// A number as an unsigned one; zero where it is negative.
pub open spec fn unsigned(n: i32) -> nat {
    if n < 0 {
        0
    } else {
        n as nat
    }
}

pub open spec fn event_bytes(event: EventView) -> Seq<u8> {
    fixed64_field(1, nanos_of(event.time_unix_nano)) + string_field(2, event.name) + fields_of(
        3,
        pair_messages(event.attributes),
    )
}

pub open spec fn link_bytes(link: LinkView) -> Seq<u8> {
    bytes_field(1, hex_bytes(link.trace_id)) + bytes_field(2, hex_bytes(link.span_id))
        + string_field(3, link.trace_state) + fields_of(4, pair_messages(link.attributes))
}

pub open spec fn status_bytes(status: (i32, Seq<char>)) -> Seq<u8> {
    string_field(2, status.1) + uint_field(3, unsigned(status.0))
}

#[verifier::opaque]
pub open spec fn span_bytes(span: SpanJsonView) -> Seq<u8> {
    bytes_field(1, hex_bytes(span.trace_id)) + bytes_field(2, hex_bytes(span.span_id))
        + bytes_field(4, hex_bytes(span.parent_span_id)) + string_field(5, span.name)
        + uint_field(6, unsigned(span.kind)) + fixed64_field(
        7,
        nanos_of(span.start_time_unix_nano),
    ) + fixed64_field(8, nanos_of(span.end_time_unix_nano)) + fields_of(
        9,
        pair_messages(span.attributes),
    ) + fields_of(11, span.events.map_values(|event: EventView| event_bytes(event))) + fields_of(
        13,
        span.links.map_values(|link: LinkView| link_bytes(link)),
    ) + message_field(15, status_bytes(span.status))
}

/// The spans of a scope. The scope itself is always there, though it is empty: clients
/// read its name without asking whether it is there.
#[verifier::opaque]
pub open spec fn scope_bytes(spans: Seq<SpanJsonView>) -> Seq<u8> {
    message_field(1, Seq::empty()) + fields_of(
        2,
        spans.map_values(|span: SpanJsonView| span_bytes(span)),
    )
}

#[verifier::opaque]
pub open spec fn batch_bytes(batch: BatchView) -> Seq<u8> {
    message_field(1, fields_of(1, pair_messages(batch.resource))) + fields_of(
        2,
        batch.scope_spans.map_values(|spans: Seq<SpanJsonView>| scope_bytes(spans)),
    )
}

/// A trace in the shape of OTLP's `TracesData`.
pub open spec fn trace_bytes(batches: Seq<BatchView>) -> Seq<u8> {
    fields_of(1, batches.map_values(|batch: BatchView| batch_bytes(batch)))
}

/// One more message behind what is written.
proof fn lemma_fields_push(start: Seq<u8>, field: nat, messages: Seq<Seq<u8>>, message: Seq<u8>)
    ensures
        (start + fields_of(field, messages)) + message_field(field, message) == start + fields_of(
            field,
            messages.push(message),
        ),
{
    assert(messages.push(message).drop_last() =~= messages);
    let done = fields_of(field, messages);
    let piece = message_field(field, message);
    assert((start + done) + piece =~= start + (done + piece));
}

fn write_pairs(out: &mut Vec<u8>, field: u32, pairs: &Vec<TempoKeyValue>)
    ensures
        final(out)@ == old(out)@ + fields_of(field as nat, pair_messages(views(pairs@))),
{
    let ghost start = out@;
    let ghost all = pair_messages(views(pairs@));
    let mut i: usize = 0;
    assert(start + fields_of(field as nat, all.take(0)) =~= start);
    while i < pairs.len()
        invariant
            i <= pairs@.len(),
            all == pair_messages(views(pairs@)),
            out@ == start + fields_of(field as nat, all.take(i as int)),
        decreases pairs@.len() - i,
    {
        let payload: Vec<u8> = pairs[i].to_protobuf();
        proof {
            assert(views(pairs@)[i as int] == pairs@[i as int]@);
            assert(all.take(i as int + 1) =~= all.take(i as int).push(payload@));
            lemma_fields_push(start, field as nat, all.take(i as int), payload@);
        }
        pb::message(out, field, payload.as_slice());
        i += 1;
    }
    assert(all.take(i as int) =~= all);
}

fn read_nanos(text: &str) -> (nanos: u64)
    ensures
        nanos == nanos_of(text@),
{
    match read_unsigned(text, u64::MAX) {
        Some(nanos) => nanos,
        None => 0,
    }
}

fn as_unsigned(n: i32) -> (r: u64)
    ensures
        r == unsigned(n),
{
    if n < 0 {
        0
    } else {
        n as u64
    }
}

impl TempoKeyValue {
    fn to_protobuf(&self) -> (out: Vec<u8>)
        ensures
            out@ == pair_bytes(self@),
    {
        let mut value: Vec<u8> = Vec::new();
        pb::string(&mut value, 1, self.value.string_value.as_str());
        let mut out: Vec<u8> = Vec::new();
        pb::string(&mut out, 1, self.key.as_str());
        pb::message(&mut out, 2, value.as_slice());
        assert(value@ =~= string_field(1, self@.1));
        assert(out@ =~= pair_bytes(self@));
        out
    }
}

impl EventJson {
    fn to_protobuf(&self) -> (out: Vec<u8>)
        ensures
            out@ == event_bytes(self@),
    {
        let mut out: Vec<u8> = Vec::new();
        pb::fixed64(&mut out, 1, read_nanos(self.time_unix_nano.as_str()));
        pb::string(&mut out, 2, self.name.as_str());
        write_pairs(&mut out, 3, &self.attributes);
        assert(out@ =~= event_bytes(self@));
        out
    }
}

impl LinkJson {
    fn to_protobuf(&self) -> (out: Vec<u8>)
        ensures
            out@ == link_bytes(self@),
    {
        let mut out: Vec<u8> = Vec::new();
        pb::bytes(&mut out, 1, pb::hex(self.trace_id.as_str()).as_slice());
        pb::bytes(&mut out, 2, pb::hex(self.span_id.as_str()).as_slice());
        pb::string(&mut out, 3, self.trace_state.as_str());
        write_pairs(&mut out, 4, &self.attributes);
        assert(out@ =~= link_bytes(self@));
        out
    }
}

impl SpanJson {
    fn to_protobuf(&self) -> (out: Vec<u8>)
        ensures
            out@ == span_bytes(self@),
    {
        let mut out: Vec<u8> = Vec::new();
        pb::bytes(&mut out, 1, pb::hex(self.trace_id.as_str()).as_slice());
        pb::bytes(&mut out, 2, pb::hex(self.span_id.as_str()).as_slice());
        pb::bytes(&mut out, 4, pb::hex(self.parent_span_id.as_str()).as_slice());
        pb::string(&mut out, 5, self.name.as_str());
        pb::uint(&mut out, 6, as_unsigned(self.kind));
        pb::fixed64(&mut out, 7, read_nanos(self.start_time_unix_nano.as_str()));
        pb::fixed64(&mut out, 8, read_nanos(self.end_time_unix_nano.as_str()));
        write_pairs(&mut out, 9, &self.attributes);
        let ghost before_events = out@;
        let ghost events = self@.events.map_values(|event: EventView| event_bytes(event));
        let mut i: usize = 0;
        assert(before_events + fields_of(11, events.take(0)) =~= before_events);
        while i < self.events.len()
            invariant
                i <= self.events@.len(),
                events == self@.events.map_values(|event: EventView| event_bytes(event)),
                out@ == before_events + fields_of(11, events.take(i as int)),
            decreases self.events@.len() - i,
        {
            let payload: Vec<u8> = self.events[i].to_protobuf();
            proof {
                assert(self@.events[i as int] == self.events@[i as int]@);
                assert(events.take(i as int + 1) =~= events.take(i as int).push(payload@));
                lemma_fields_push(before_events, 11, events.take(i as int), payload@);
            }
            pb::message(&mut out, 11, payload.as_slice());
            i += 1;
        }
        assert(events.take(i as int) =~= events);
        let ghost before_links = out@;
        let ghost links = self@.links.map_values(|link: LinkView| link_bytes(link));
        let mut j: usize = 0;
        assert(before_links + fields_of(13, links.take(0)) =~= before_links);
        while j < self.links.len()
            invariant
                j <= self.links@.len(),
                links == self@.links.map_values(|link: LinkView| link_bytes(link)),
                out@ == before_links + fields_of(13, links.take(j as int)),
            decreases self.links@.len() - j,
        {
            let payload: Vec<u8> = self.links[j].to_protobuf();
            proof {
                assert(self@.links[j as int] == self.links@[j as int]@);
                assert(links.take(j as int + 1) =~= links.take(j as int).push(payload@));
                lemma_fields_push(before_links, 13, links.take(j as int), payload@);
            }
            pb::message(&mut out, 13, payload.as_slice());
            j += 1;
        }
        assert(links.take(j as int) =~= links);
        let mut status: Vec<u8> = Vec::new();
        pb::string(&mut status, 2, self.status.message.as_str());
        pb::uint(&mut status, 3, as_unsigned(self.status.code));
        assert(status@ =~= status_bytes(self@.status));
        pb::message(&mut out, 15, status.as_slice());
        reveal(span_bytes);
        assert(out@ =~= span_bytes(self@));
        out
    }
}

impl ScopeSpans {
    fn to_protobuf(&self) -> (out: Vec<u8>)
        ensures
            out@ == scope_bytes(self@),
    {
        let mut out: Vec<u8> = Vec::new();
        let empty: Vec<u8> = Vec::new();
        pb::message(&mut out, 1, empty.as_slice());
        let ghost start = out@;
        let ghost all = self@.map_values(|span: SpanJsonView| span_bytes(span));
        let mut i: usize = 0;
        assert(empty@ =~= Seq::<u8>::empty());
        assert(start =~= message_field(1, Seq::empty()));
        assert(start + fields_of(2, all.take(0)) =~= start);
        while i < self.spans.len()
            invariant
                i <= self.spans@.len(),
                all == self@.map_values(|span: SpanJsonView| span_bytes(span)),
                out@ == start + fields_of(2, all.take(i as int)),
            decreases self.spans@.len() - i,
        {
            let payload: Vec<u8> = self.spans[i].to_protobuf();
            proof {
                assert(self@[i as int] == self.spans@[i as int]@);
                assert(all.take(i as int + 1) =~= all.take(i as int).push(payload@));
                lemma_fields_push(start, 2, all.take(i as int), payload@);
            }
            pb::message(&mut out, 2, payload.as_slice());
            i += 1;
        }
        assert(all.take(i as int) =~= all);
        reveal(scope_bytes);
        out
    }
}

impl ResourceSpans {
    fn to_protobuf(&self) -> (out: Vec<u8>)
        ensures
            out@ == batch_bytes(self@),
    {
        let mut resource: Vec<u8> = Vec::new();
        write_pairs(&mut resource, 1, &self.resource.attributes);
        let mut out: Vec<u8> = Vec::new();
        assert(resource@ =~= fields_of(1, pair_messages(self@.resource)));
        pb::message(&mut out, 1, resource.as_slice());
        let ghost start = out@;
        let ghost all = self@.scope_spans.map_values(|spans: Seq<SpanJsonView>| scope_bytes(spans));
        let mut i: usize = 0;
        assert(start + fields_of(2, all.take(0)) =~= start);
        assert(start =~= message_field(1, fields_of(1, pair_messages(self@.resource))));
        while i < self.scope_spans.len()
            invariant
                i <= self.scope_spans@.len(),
                all == self@.scope_spans.map_values(
                    |spans: Seq<SpanJsonView>| scope_bytes(spans),
                ),
                out@ == start + fields_of(2, all.take(i as int)),
            decreases self.scope_spans@.len() - i,
        {
            let payload: Vec<u8> = self.scope_spans[i].to_protobuf();
            proof {
                assert(self@.scope_spans[i as int] == self.scope_spans@[i as int]@);
                assert(all.take(i as int + 1) =~= all.take(i as int).push(payload@));
                lemma_fields_push(start, 2, all.take(i as int), payload@);
            }
            pb::message(&mut out, 2, payload.as_slice());
            i += 1;
        }
        assert(all.take(i as int) =~= all);
        reveal(batch_bytes);
        out
    }
}

impl TraceResponse {
    /// The trace as a message with its batches under field 1, which is OTLP's
    /// `TracesData`.
    pub fn to_protobuf(&self) -> (out: Vec<u8>)
        ensures
            out@ == trace_bytes(self@),
    {
        let mut out: Vec<u8> = Vec::new();
        let ghost none = Seq::<u8>::empty();
        let ghost all = self@.map_values(|batch: BatchView| batch_bytes(batch));
        let mut i: usize = 0;
        assert(out@ =~= none + fields_of(1, all.take(0)));
        while i < self.batches.len()
            invariant
                i <= self.batches@.len(),
                all == self@.map_values(|batch: BatchView| batch_bytes(batch)),
                out@ == none + fields_of(1, all.take(i as int)),
            decreases self.batches@.len() - i,
        {
            let payload: Vec<u8> = self.batches[i].to_protobuf();
            proof {
                assert(self@[i as int] == self.batches@[i as int]@);
                assert(all.take(i as int + 1) =~= all.take(i as int).push(payload@));
                lemma_fields_push(none, 1, all.take(i as int), payload@);
            }
            pb::message(&mut out, 1, payload.as_slice());
            i += 1;
        }
        assert(all.take(i as int) =~= all);
        assert(none + fields_of(1, all) =~= fields_of(1, all));
        out
    }

    /// The trace under field 1 of an answer.
    pub fn to_protobuf_v2(&self) -> (out: Vec<u8>)
        ensures
            out@ == message_field(1, trace_bytes(self@)),
    {
        let mut out: Vec<u8> = Vec::new();
        pb::message(&mut out, 1, self.to_protobuf().as_slice());
        assert(out@ =~= message_field(1, trace_bytes(self@)));
        out
    }
}

// ---------------------------------------------------------------------------
// Laws
// ---------------------------------------------------------------------------

/// In start order and once: of a list of spans exactly the ids that were there are left,
/// none of them twice.
pub proof fn law_each_span_once(spans: Seq<SpanView>, id: Seq<char>)
    ensures
        has_span(each_once(spans), id) == has_span(spans, id),
        forall|i: int, j: int|
            0 <= i < j < each_once(spans).len() ==> (#[trigger] each_once(spans)[i]).span_id != (
            #[trigger] each_once(spans)[j]).span_id,
        forall|i: int|
            0 <= i < each_once(spans).len() ==> spans.contains(#[trigger] each_once(spans)[i]),
{
    let less = |a: int, b: int| span_before(spans[a], spans[b]);
    lemma_ordered_places(spans.len(), less);
    let list = ordered(spans.len(), less);
    let sorted = in_start_order(spans);
    lemma_first_of_each(sorted, id);
    if has_span(spans, id) {
        let i = choose|i: int| 0 <= i < spans.len() && (#[trigger] spans[i]).span_id == id;
        crate::grouping::lemma_place_is_ordered(spans.len(), less, i);
        let at = choose|at: int| 0 <= at < list.len() && list[at] == i;
        assert(sorted[at] == spans[i]);
    }
    if has_span(sorted, id) {
        let at = choose|at: int| 0 <= at < sorted.len() && (#[trigger] sorted[at]).span_id == id;
        assert(0 <= list[at] < spans.len());
        assert(spans[list[at]] == sorted[at]);
    }
    let out = each_once(spans);
    assert forall|i: int| 0 <= i < out.len() implies spans.contains(#[trigger] out[i]) by {
        assert(sorted.contains(out[i]));
        let at = choose|at: int| 0 <= at < sorted.len() && sorted[at] == out[i];
        assert(0 <= list[at] < spans.len());
        assert(spans[list[at]] == out[i]);
    }
}

proof fn lemma_first_of_each(spans: Seq<SpanView>, id: Seq<char>)
    ensures
        has_span(first_of_each(spans), id) == has_span(spans, id),
        forall|i: int, j: int|
            0 <= i < j < first_of_each(spans).len() ==> (#[trigger] first_of_each(
                spans,
            )[i]).span_id != (#[trigger] first_of_each(spans)[j]).span_id,
        forall|i: int|
            0 <= i < first_of_each(spans).len() ==> spans.contains(
                #[trigger] first_of_each(spans)[i],
            ),
    decreases spans.len(),
{
    if spans.len() > 0 {
        let front = spans.drop_last();
        let rest = first_of_each(front);
        let all = first_of_each(spans);
        lemma_first_of_each(front, id);
        assert forall|i: int| 0 <= i < all.len() implies spans.contains(#[trigger] all[i]) by {
            if i < rest.len() {
                assert(all[i] == rest[i]);
                let k = choose|k: int| 0 <= k < front.len() && front[k] == rest[i];
                assert(spans[k] == rest[i]);
            } else {
                assert(spans[spans.len() - 1] == all[i]);
            }
        }
        if has_span(all, id) {
            let i = choose|i: int| 0 <= i < all.len() && (#[trigger] all[i]).span_id == id;
            let k = choose|k: int| 0 <= k < spans.len() && spans[k] == all[i];
            assert(spans[k].span_id == id);
        }
        if has_span(spans, id) {
            let i = choose|i: int| 0 <= i < spans.len() && (#[trigger] spans[i]).span_id == id;
            if i < front.len() {
                assert(front[i].span_id == id);
                let k = choose|k: int| 0 <= k < rest.len() && (#[trigger] rest[k]).span_id == id;
                assert(all[k].span_id == id);
            } else if has_span(rest, id) {
                let k = choose|k: int| 0 <= k < rest.len() && (#[trigger] rest[k]).span_id == id;
                assert(all[k].span_id == id);
            } else {
                assert(all[all.len() - 1].span_id == id);
            }
        }
    }
}

/// A search answers with no more traces than its limit, and each is within the bounds on
/// durations.
pub proof fn law_found_traces_are_wanted(
    request: SearchView,
    matched: Seq<SpanView>,
    whole: Seq<SpanView>,
)
    ensures
        found(request, matched, whole).len() <= request.limit,
        forall|i: int|
            0 <= i < found(request, matched, whole).len() ==> request.duration_within(
                (#[trigger] found(request, matched, whole)[i]).duration_nanos,
            ),
{
    let groups = grouped(trace_ids(matched), matched.len());
    let all = rows(request, matched, whole, groups, groups.len());
    let less = |a: int, b: int| row_before(all[a], all[b]);
    lemma_ordered_places(all.len(), less);
    lemma_rows_are_within(request, matched, whole, groups, groups.len());
    let list = ordered(all.len(), less);
    let out = found(request, matched, whole);
    assert forall|i: int| 0 <= i < out.len() implies request.duration_within(
        (#[trigger] out[i]).duration_nanos,
    ) by {
        assert(0 <= list[i] < all.len());
        assert(out[i] == all[list[i]].1);
    }
}

proof fn lemma_rows_are_within(
    request: SearchView,
    matched: Seq<SpanView>,
    whole: Seq<SpanView>,
    groups: Seq<Seq<int>>,
    n: nat,
)
    ensures
        forall|i: int|
            0 <= i < rows(request, matched, whole, groups, n).len() ==> request.duration_within(
                (#[trigger] rows(request, matched, whole, groups, n)[i]).1.duration_nanos,
            ),
    decreases n,
{
    if n > 0 {
        lemma_rows_are_within(request, matched, whole, groups, (n - 1) as nat);
        let rest = rows(request, matched, whole, groups, (n - 1) as nat);
        let all = rows(request, matched, whole, groups, n);
        assert forall|i: int| 0 <= i < all.len() implies request.duration_within(
            (#[trigger] all[i]).1.duration_nanos,
        ) by {
            if i < rest.len() {
                assert(all[i] == rest[i]);
            }
        }
    }
}

/// The rows of traces: each is of a matched trace, no trace has two, and every matched trace
/// within the bounds has one.
proof fn lemma_rows(
    request: SearchView,
    matched: Seq<SpanView>,
    whole: Seq<SpanView>,
    groups: Seq<Seq<int>>,
    n: nat,
)
    requires
        n <= groups.len(),
        sound_groups(groups, trace_ids(matched), matched.len() as int),
        forall|a: int, b: int|
            0 <= a < b < groups.len() ==> trace_ids(matched)[(#[trigger] groups[a])[0]]
                != trace_ids(matched)[(#[trigger] groups[b])[0]],
    ensures
        forall|k: int|
            0 <= k < rows(request, matched, whole, groups, n).len() ==> exists|g: int|
                0 <= g < n && #[trigger] rows(request, matched, whole, groups, n)[k] == summary_of(
                    matched,
                    whole,
                    matched[(#[trigger] groups[g])[0]].trace_id,
                ) && request.duration_within(
                    rows(request, matched, whole, groups, n)[k].1.duration_nanos,
                ),
        forall|a: int, b: int|
            0 <= a < b < rows(request, matched, whole, groups, n).len() ==> (#[trigger] rows(
                request,
                matched,
                whole,
                groups,
                n,
            )[a]).1.trace_id != (#[trigger] rows(request, matched, whole, groups, n)[b]).1.trace_id,
        forall|g: int|
            0 <= g < n && request.duration_within(
                summary_of(
                    matched,
                    whole,
                    matched[(#[trigger] groups[g])[0]].trace_id,
                ).1.duration_nanos,
            ) ==> rows(request, matched, whole, groups, n).contains(
                summary_of(matched, whole, matched[groups[g][0]].trace_id),
            ),
    decreases n,
{
    if n > 0 {
        let m = (n - 1) as nat;
        lemma_rows(request, matched, whole, groups, m);
        let rest = rows(request, matched, whole, groups, m);
        let all = rows(request, matched, whole, groups, n);
        let row = summary_of(matched, whole, matched[groups[n - 1][0]].trace_id);
        assert(0 <= groups[n - 1][0] < matched.len());
        assert forall|k: int| 0 <= k < all.len() implies exists|g: int|
            0 <= g < n && #[trigger] all[k] == summary_of(
                matched,
                whole,
                matched[(#[trigger] groups[g])[0]].trace_id,
            ) && request.duration_within(all[k].1.duration_nanos) by {
            if k < rest.len() {
                assert(all[k] == rest[k]);
            } else {
                assert(all[k] == row);
                assert(groups[n - 1].len() > 0);
            }
        }
        assert forall|a: int, b: int| 0 <= a < b < all.len() implies (#[trigger] all[a]).1.trace_id
            != (#[trigger] all[b]).1.trace_id by {
            assert(all[a] == rest[a]);
            if b < rest.len() {
                assert(all[b] == rest[b]);
            } else {
                let g = choose|g: int|
                    0 <= g < m && rest[a] == summary_of(
                        matched,
                        whole,
                        matched[(#[trigger] groups[g])[0]].trace_id,
                    ) && request.duration_within(rest[a].1.duration_nanos);
                assert(groups[g].len() > 0 && groups[n - 1].len() > 0);
                assert(0 <= groups[g][0] < matched.len());
                assert(trace_ids(matched)[groups[g][0]] != trace_ids(matched)[groups[n - 1][0]]);
            }
        }
        assert forall|g: int|
            0 <= g < n && request.duration_within(
                summary_of(
                    matched,
                    whole,
                    matched[(#[trigger] groups[g])[0]].trace_id,
                ).1.duration_nanos,
            ) implies all.contains(summary_of(matched, whole, matched[groups[g][0]].trace_id)) by {
            let own = summary_of(matched, whole, matched[groups[g][0]].trace_id);
            if g < m {
                assert(rest.contains(own));
                let k = choose|k: int| 0 <= k < rest.len() && rest[k] == own;
                assert(all[k] == own);
            } else {
                assert(all[all.len() - 1] == own);
            }
        }
    }
}

/// Whether one row stands before another by what they show: it started later, or at the same
/// time and its id comes first.
pub open spec fn is_newer(a: SummaryView, b: SummaryView) -> bool {
    forall|x: nat, y: nat|
        a.start_time_unix_nano == #[trigger] decimal(x) && b.start_time_unix_nano
            == #[trigger] decimal(y) ==> x > y || (x == y && text_before(a.trace_id, b.trace_id))
}

proof fn lemma_is_newer(a: (u64, SummaryView), b: (u64, SummaryView))
    requires
        a.1.start_time_unix_nano == decimal(a.0 as nat),
        b.1.start_time_unix_nano == decimal(b.0 as nat),
        a.1.trace_id != b.1.trace_id,
        !row_before(b, a),
    ensures
        is_newer(a.1, b.1),
{
    lemma_text_before_total(a.1.trace_id, b.1.trace_id);
    assert forall|x: nat, y: nat|
        a.1.start_time_unix_nano == #[trigger] decimal(x) && b.1.start_time_unix_nano
            == #[trigger] decimal(y) implies x > y || (x == y && text_before(
        a.1.trace_id,
        b.1.trace_id,
    )) by {
        let most = x + y + a.0 as nat + b.0 as nat;
        law_a_written_number_is_read_back(x, most);
        law_a_written_number_is_read_back(y, most);
        law_a_written_number_is_read_back(a.0 as nat, most);
        law_a_written_number_is_read_back(b.0 as nat, most);
    }
}

/// Rows come newest first. A row that stands before another started later, or at the same
/// time and its id comes first; each is the row of a matched trace, and no trace has two. The
/// limit cuts off the oldest: a matched trace within the bounds that has no row is older than
/// every trace that has one, and then there are as many rows as the limit allows.
pub proof fn law_the_newest_traces_are_found(
    request: SearchView,
    matched: Seq<SpanView>,
    whole: Seq<SpanView>,
)
    ensures
        forall|i: int, j: int|
            0 <= i < j < found(request, matched, whole).len() ==> is_newer(
                #[trigger] found(request, matched, whole)[i],
                #[trigger] found(request, matched, whole)[j],
            ) && found(request, matched, whole)[i].trace_id != found(
                request,
                matched,
                whole,
            )[j].trace_id,
        forall|i: int|
            0 <= i < found(request, matched, whole).len() ==> exists|m: int|
                0 <= m < matched.len() && #[trigger] found(request, matched, whole)[i]
                    == summary_of(matched, whole, (#[trigger] matched[m]).trace_id).1,
        forall|m: int|
            0 <= m < matched.len() && request.duration_within(
                summary_of(matched, whole, (#[trigger] matched[m]).trace_id).1.duration_nanos,
            ) ==> is_answered(
                found(request, matched, whole),
                request.limit as int,
                summary_of(matched, whole, matched[m].trace_id).1,
            ),
{
    let keys = trace_ids(matched);
    let groups = grouped(keys, matched.len());
    lemma_grouped(keys, matched.len());
    law_groups_have_distinct_keys(keys, matched.len());
    let all = rows(request, matched, whole, groups, groups.len());
    lemma_rows(request, matched, whole, groups, groups.len());
    let n = all.len();
    let none = summary_of(matched, whole, Seq::empty());
    let item = |i: int|
        if 0 <= i < n {
            all[i]
        } else {
            none
        };
    let inside = |a: int, b: int| row_before(all[a], all[b]);
    let earlier = |a: int, b: int| row_before(item(a), item(b));
    assert forall|i: int, j: int, k: int|
        !(#[trigger] earlier(j, i)) && !(#[trigger] earlier(k, j)) implies !earlier(k, i) by {
        let (a, b, c) = (item(i).1.trace_id, item(j).1.trace_id, item(k).1.trace_id);
        lemma_text_before_total(a, b);
        lemma_text_before_total(b, c);
        lemma_text_before_irreflexive(a);
        if text_before(c, a) && text_before(a, b) {
            lemma_text_before_transitive(c, a, b);
        }
        if text_before(a, b) && text_before(b, c) {
            lemma_text_before_transitive(a, b, c);
            if text_before(c, a) {
                lemma_text_before_transitive(a, c, a);
            }
        }
    }
    assert forall|i: int, j: int| #[trigger] earlier(i, j) implies !earlier(j, i) by {
        let (a, b) = (item(i).1.trace_id, item(j).1.trace_id);
        lemma_text_before_irreflexive(a);
        if text_before(a, b) && text_before(b, a) {
            lemma_text_before_transitive(a, b, a);
        }
    }
    law_ordering_orders(n, earlier);
    lemma_same_order(n, inside, earlier);
    lemma_ordered_places(n, inside);
    let list = ordered(n, inside);
    let sorted = chosen(all, list);
    let out = found(request, matched, whole);
    assert forall|k: int| 0 <= k < n implies all[k].1.start_time_unix_nano == decimal(
        (#[trigger] all[k]).0 as nat,
    ) by {
        let g = choose|g: int|
            0 <= g < groups.len() && all[k] == summary_of(
                matched,
                whole,
                matched[(#[trigger] groups[g])[0]].trace_id,
            ) && request.duration_within(all[k].1.duration_nanos);
        assert(all[k] == summary_of(matched, whole, matched[groups[g][0]].trace_id));
    }
    law_ordering_keeps_every_place(n, inside);
    lemma_distinct_places(n, inside);
    assert forall|i: int, j: int| 0 <= i < j < n implies is_newer(
        (#[trigger] sorted[i]).1,
        (#[trigger] sorted[j]).1,
    ) && sorted[i].1.trace_id != sorted[j].1.trace_id by {
        assert(0 <= list[i] < n && 0 <= list[j] < n && list[i] != list[j]);
        assert(!earlier(list[j], list[i]));
        assert(sorted[i] == all[list[i]] && sorted[j] == all[list[j]]);
        if list[i] < list[j] {
            assert(all[list[i]].1.trace_id != all[list[j]].1.trace_id);
        } else {
            assert(all[list[j]].1.trace_id != all[list[i]].1.trace_id);
        }
        lemma_is_newer(sorted[i], sorted[j]);
    }
    assert forall|i: int| 0 <= i < out.len() implies exists|m: int|
        0 <= m < matched.len() && #[trigger] out[i] == summary_of(
            matched,
            whole,
            (#[trigger] matched[m]).trace_id,
        ).1 by {
        assert(0 <= list[i] < n);
        let k = list[i];
        let g = choose|g: int|
            0 <= g < groups.len() && all[k] == summary_of(
                matched,
                whole,
                matched[(#[trigger] groups[g])[0]].trace_id,
            ) && request.duration_within(all[k].1.duration_nanos);
        assert(groups[g].len() > 0);
        let m = groups[g][0];
        assert(0 <= m < matched.len());
        assert(out[i] == summary_of(matched, whole, matched[m].trace_id).1);
    }
    assert forall|m: int|
        0 <= m < matched.len() && request.duration_within(
            summary_of(matched, whole, (#[trigger] matched[m]).trace_id).1.duration_nanos,
        ) implies is_answered(
        out,
        request.limit as int,
        summary_of(matched, whole, matched[m].trace_id).1,
    ) by {
        let row = summary_of(matched, whole, matched[m].trace_id);
        law_every_item_is_grouped(keys, matched.len(), m);
        let (g, k) = choose|g: int, k: int|
            0 <= g < groups.len() && 0 <= k < groups[g].len() && #[trigger] groups[g][k] == m;
        assert(keys[groups[g][k]] == keys[groups[g][0]]);
        assert(0 <= groups[g][0] < matched.len());
        assert(matched[groups[g][0]].trace_id == keys[groups[g][0]]);
        assert(matched[m].trace_id == keys[m]);
        assert(all.contains(row));
        let at = choose|at: int| 0 <= at < all.len() && all[at] == row;
        lemma_place_is_ordered(n, inside, at);
        let place = choose|place: int| 0 <= place < list.len() && list[place] == at;
        assert(sorted[place] == row);
        if place < out.len() {
            assert(out[place] == row.1);
        } else {
            assert(out.len() == request.limit);
            assert forall|i: int| 0 <= i < out.len() implies is_newer(#[trigger] out[i], row.1) by {
                assert(out[i] == sorted[i].1);
                assert(is_newer(sorted[i].1, sorted[place].1));
            }
        }
    }
}

/// Whether a row is among those of an answer, or older than all of them where the limit is
/// reached.
pub open spec fn is_answered(answer: Seq<SummaryView>, limit: int, row: SummaryView) -> bool {
    answer.contains(row) || (answer.len() == limit && forall|i: int|
        0 <= i < answer.len() ==> is_newer(#[trigger] answer[i], row))
}

proof fn lemma_earliest(spans: Seq<SpanView>, limit: u64)
    ensures
        earliest(spans, limit) <= limit,
        forall|i: int| 0 <= i < spans.len() ==> earliest(spans, limit) <= (#[trigger] spans[i]).start_nanos,
        earliest(spans, limit) == limit || exists|i: int|
            0 <= i < spans.len() && (#[trigger] spans[i]).start_nanos == earliest(spans, limit),
    decreases spans.len(),
{
    if spans.len() > 0 {
        let front = spans.drop_last();
        lemma_earliest(front, limit);
        let least = earliest(spans, limit);
        assert forall|i: int| 0 <= i < spans.len() implies least <= (
        #[trigger] spans[i]).start_nanos by {
            if i < front.len() {
                assert(front[i] == spans[i]);
            }
        }
        if least == earliest(front, limit) && least != limit {
            let i = choose|i: int|
                0 <= i < front.len() && (#[trigger] front[i]).start_nanos == least;
            assert(spans[i].start_nanos == least);
        } else if least != limit {
            assert(spans[spans.len() - 1].start_nanos == least);
        }
    }
}

proof fn lemma_latest(spans: Seq<SpanView>)
    ensures
        forall|i: int| 0 <= i < spans.len() ==> latest(spans) >= (#[trigger] spans[i]).end_nanos,
        spans.len() > 0 ==> exists|i: int|
            0 <= i < spans.len() && (#[trigger] spans[i]).end_nanos == latest(spans),
    decreases spans.len(),
{
    if spans.len() > 0 {
        let front = spans.drop_last();
        lemma_latest(front);
        let most = latest(spans);
        assert forall|i: int| 0 <= i < spans.len() implies most >= (
        #[trigger] spans[i]).end_nanos by {
            if i < front.len() {
                assert(front[i] == spans[i]);
            }
        }
        if front.len() > 0 && most == latest(front) {
            let i = choose|i: int| 0 <= i < front.len() && (#[trigger] front[i]).end_nanos == most;
            assert(spans[i].end_nanos == most);
        } else {
            assert(spans[spans.len() - 1].end_nanos == most);
        }
    }
}

/// A row describes its trace: it starts when the first of its spans does, and lasts until the
/// last of them ends. What matched of it is listed, each span once.
pub proof fn law_a_row_spans_its_trace(
    matched: Seq<SpanView>,
    whole: Seq<SpanView>,
    id: Seq<char>,
    start: u64,
    end: u64,
)
    requires
        trace_spans(matched, whole, id).len() > 0,
        forall|i: int|
            0 <= i < trace_spans(matched, whole, id).len() ==> start <= (
            #[trigger] trace_spans(matched, whole, id)[i]).start_nanos && end >= trace_spans(
                matched,
                whole,
                id,
            )[i].end_nanos,
        exists|i: int|
            0 <= i < trace_spans(matched, whole, id).len() && (
            #[trigger] trace_spans(matched, whole, id)[i]).start_nanos == start,
        exists|i: int|
            0 <= i < trace_spans(matched, whole, id).len() && (
            #[trigger] trace_spans(matched, whole, id)[i]).end_nanos == end,
    ensures
        summary_of(matched, whole, id).1.trace_id == id,
        summary_of(matched, whole, id).1.start_time_unix_nano == decimal(start as nat),
        start <= end ==> summary_of(matched, whole, id).1.duration_nanos == end - start,
        start > end ==> summary_of(matched, whole, id).1.duration_nanos == 0,
{
    let spans = trace_spans(matched, whole, id);
    lemma_earliest(spans, u64::MAX);
    lemma_latest(spans);
}

/// The spans of a trace are those that have its id, in the order in which they stood.
pub proof fn law_a_trace_has_its_spans(spans: Seq<SpanView>, id: Seq<char>)
    ensures
        of_trace(spans, id) == spans.filter(|span: SpanView| span.trace_id == id),
    decreases spans.len(),
{
    reveal(Seq::filter);
    if spans.len() > 0 {
        law_a_trace_has_its_spans(spans.drop_last(), id);
    }
}

/// The root of a trace is its first span without a parent, and its first span where each has
/// one.
pub proof fn law_the_root_has_no_parent(spans: Seq<SpanView>, i: int)
    requires
        0 <= i < spans.len(),
        spans[i].parent_span_id is None,
        forall|k: int| 0 <= k < i ==> (#[trigger] spans[k]).parent_span_id is Some,
    ensures
        root_from(spans, 0) == spans[i],
{
    lemma_root_is(spans, 0, i);
}

proof fn lemma_root_is(spans: Seq<SpanView>, from: int, i: int)
    requires
        0 <= from <= i < spans.len(),
        spans[i].parent_span_id is None,
        forall|k: int| 0 <= k < i ==> (#[trigger] spans[k]).parent_span_id is Some,
    ensures
        root_from(spans, from) == spans[i],
    decreases i - from,
{
    if from < i {
        assert(spans[from].parent_span_id is Some);
        lemma_root_is(spans, from + 1, i);
    }
}

/// Whether a list is a part of another, in the same order.
pub open spec fn is_part(part: Seq<SpanView>, whole: Seq<SpanView>, at: Seq<int>) -> bool {
    &&& at.len() == part.len()
    &&& forall|i: int| 0 <= i < at.len() ==> 0 <= #[trigger] at[i] < whole.len() && part[i] == whole[at[i]]
    &&& forall|i: int, j: int| 0 <= i < j < at.len() ==> #[trigger] at[i] < #[trigger] at[j]
}

proof fn lemma_first_of_each_is_part(spans: Seq<SpanView>) -> (at: Seq<int>)
    ensures
        is_part(first_of_each(spans), spans, at),
    decreases spans.len(),
{
    if spans.len() == 0 {
        Seq::empty()
    } else {
        let front = spans.drop_last();
        let rest = first_of_each(front);
        let before = lemma_first_of_each_is_part(front);
        assert forall|i: int| 0 <= i < before.len() implies 0 <= #[trigger] before[i] < spans.len()
            && rest[i] == spans[before[i]] by {
            assert(front[before[i]] == spans[before[i]]);
        }
        if has_span(rest, spans.last().span_id) {
            before
        } else {
            let at = before.push(spans.len() - 1);
            let all = first_of_each(spans);
            assert forall|i: int| 0 <= i < at.len() implies 0 <= #[trigger] at[i] < spans.len()
                && all[i] == spans[at[i]] by {
                if i < before.len() {
                    assert(at[i] == before[i]);
                }
            }
            assert forall|i: int, j: int| 0 <= i < j < at.len() implies #[trigger] at[i]
                < #[trigger] at[j] by {
                assert(at[i] == before[i]);
                if j < before.len() {
                    assert(at[j] == before[j]);
                }
            }
            at
        }
    }
}

/// The spans of a trace are shown by their start: one that stands before another started
/// earlier, or at the same time and its id comes first.
pub proof fn law_spans_stand_by_their_start(spans: Seq<SpanView>)
    ensures
        forall|a: int, b: int|
            0 <= a < b < each_once(spans).len() ==> (#[trigger] each_once(spans)[a]).start_nanos < (
            #[trigger] each_once(spans)[b]).start_nanos || (each_once(spans)[a].start_nanos
                == each_once(spans)[b].start_nanos && text_before(
                each_once(spans)[a].span_id,
                each_once(spans)[b].span_id,
            )),
{
    let n = spans.len();
    let item = |i: int|
        if 0 <= i < n {
            (spans[i].start_nanos as int, spans[i].span_id)
        } else {
            (-1int, Seq::<char>::empty())
        };
    let inside = |a: int, b: int| span_before(spans[a], spans[b]);
    let earlier = |a: int, b: int|
        item(a).0 < item(b).0 || (item(a).0 == item(b).0 && text_before(item(a).1, item(b).1));
    assert forall|i: int, j: int, k: int|
        !(#[trigger] earlier(j, i)) && !(#[trigger] earlier(k, j)) implies !earlier(k, i) by {
        let (a, b, c) = (item(i).1, item(j).1, item(k).1);
        lemma_text_before_total(a, b);
        lemma_text_before_total(b, c);
        lemma_text_before_irreflexive(a);
        if text_before(c, a) && text_before(a, b) {
            lemma_text_before_transitive(c, a, b);
        }
        if text_before(a, b) && text_before(b, c) {
            lemma_text_before_transitive(a, b, c);
            if text_before(c, a) {
                lemma_text_before_transitive(a, c, a);
            }
        }
    }
    assert forall|i: int, j: int| #[trigger] earlier(i, j) implies !earlier(j, i) by {
        let (a, b) = (item(i).1, item(j).1);
        lemma_text_before_irreflexive(a);
        if text_before(a, b) && text_before(b, a) {
            lemma_text_before_transitive(a, b, a);
        }
    }
    law_ordering_orders(n, earlier);
    lemma_same_order(n, inside, earlier);
    lemma_ordered_places(n, inside);
    let list = ordered(n, inside);
    let sorted = in_start_order(spans);
    let at = lemma_first_of_each_is_part(sorted);
    let out = each_once(spans);
    law_each_span_once(spans, Seq::empty());
    assert forall|a: int, b: int| 0 <= a < b < out.len() implies (#[trigger] out[a]).start_nanos < (
    #[trigger] out[b]).start_nanos || (out[a].start_nanos == out[b].start_nanos && text_before(
        out[a].span_id,
        out[b].span_id,
    )) by {
        let (x, y) = (at[a], at[b]);
        assert(x < y);
        assert(out[a] == sorted[x] && out[b] == sorted[y]);
        assert(0 <= list[x] < n && 0 <= list[y] < n);
        assert(sorted[x] == spans[list[x]] && sorted[y] == spans[list[y]]);
        assert(!earlier(list[y], list[x]));
        assert(out[a].span_id != out[b].span_id);
        lemma_text_before_total(out[a].span_id, out[b].span_id);
    }
}

/// Whether a batch holds the spans of a resource, by their start.
pub open spec fn is_batch(batch: BatchView, spans: Seq<SpanView>, labels: Seq<Pair>) -> bool {
    exists|own: Seq<SpanView>|
        is_by_start(own, of_resource(spans, labels)) && batch.resource == resource_pairs(labels)
            && batch.scope_spans == #[trigger] one_scope(own)
}

/// Whether a batch holds the spans of one resource.
pub open spec fn is_some_batch(batch: BatchView, spans: Seq<SpanView>) -> bool {
    exists|labels: Seq<Pair>| is_batch(batch, spans, labels)
}

/// Spans as the one scope of a batch.
pub open spec fn one_scope(spans: Seq<SpanView>) -> Seq<Seq<SpanJsonView>> {
    seq![spans.map_values(|span: SpanView| span_json(span))]
}

/// The spans of a resource.
pub open spec fn of_resource(spans: Seq<SpanView>, labels: Seq<Pair>) -> Seq<SpanView> {
    spans.filter(|span: SpanView| span.stream == labels)
}

/// Whether spans are some others, by their start.
pub open spec fn is_by_start(ordered: Seq<SpanView>, spans: Seq<SpanView>) -> bool {
    &&& ordered.len() == spans.len()
    &&& forall|p: int| 0 <= p < spans.len() ==> ordered.contains(#[trigger] spans[p])
    &&& forall|a: int, b: int|
        0 <= a < b < ordered.len() ==> (#[trigger] ordered[a]).start_nanos <= (
        #[trigger] ordered[b]).start_nanos
}

#[verifier::spinoff_prover]
#[verifier::rlimit(40)]
proof fn lemma_batch(spans: Seq<SpanView>, b: int)
    requires
        0 <= b < batches_of(spans).len(),
    ensures
        is_batch(
            batches_of(spans)[b],
            spans,
            span_streams(spans)[sorted_groups(span_streams(spans))[b][0]],
        ),
{
    let keys = span_streams(spans);
    let groups = sorted_groups(keys);
    let out = batches_of(spans);
    law_a_sorted_group_is_all_of_its_labels(keys);
    lemma_sorted_groups(keys);
    assert(groups[b].len() > 0);
    assert(0 <= groups[b][0] < spans.len());
    let key = keys[groups[b][0]];
    let has = |span: SpanView| span.stream == key;
    lemma_chosen_with(spans, keys, key, has);
    let own = chosen(spans, groups[b]);
    assert(groups[b] == places_with(keys, key, spans.len()));
    assert(of_resource(spans, key) == own);
    let n = own.len();
    let item = |i: int|
        if 0 <= i < n {
            own[i].start_nanos as int
        } else {
            -1
        };
    let inside = |a: int, b: int| own[a].start_nanos < own[b].start_nanos;
    let earlier = |a: int, b: int| item(a) < item(b);
    law_ordering_orders(n, earlier);
    lemma_same_order(n, inside, earlier);
    lemma_ordered_places(n, inside);
    let list = ordered(n, inside);
    let sorted = chosen(own, list);
    assert forall|p: int| 0 <= p < n implies sorted.contains(#[trigger] own[p]) by {
        lemma_place_is_ordered(n, inside, p);
        let at = choose|at: int| 0 <= at < list.len() && list[at] == p;
        assert(sorted[at] == own[p]);
    }
    assert forall|a: int, c: int| 0 <= a < c < sorted.len() implies (
    #[trigger] sorted[a]).start_nanos <= (#[trigger] sorted[c]).start_nanos by {
        assert(0 <= list[a] < n && 0 <= list[c] < n);
        assert(!earlier(list[c], list[a]));
    }
    assert(is_by_start(sorted, own));
    assert(out[b] == batch_of(spans, groups[b]));
    assert(out[b].scope_spans == one_scope(sorted));
}

/// A trace is shown as one batch per resource, each with all the spans of that resource and no
/// other, by their start.
pub proof fn law_a_batch_holds_its_spans(spans: Seq<SpanView>)
    ensures
        forall|b: int|
            0 <= b < batches_of(spans).len() ==> is_some_batch(
                #[trigger] batches_of(spans)[b],
                spans,
            ),
        forall|i: int|
            0 <= i < spans.len() ==> exists|b: int|
                0 <= b < batches_of(spans).len() && is_batch(
                    #[trigger] batches_of(spans)[b],
                    spans,
                    (#[trigger] spans[i]).stream,
                ),
{
    let keys = span_streams(spans);
    let groups = sorted_groups(keys);
    let out = batches_of(spans);
    law_sorted_groups(keys);
    assert forall|b: int| 0 <= b < out.len() implies is_batch(
        #[trigger] out[b],
        spans,
        keys[groups[b][0]],
    ) by {
        lemma_batch(spans, b);
    }
    assert forall|i: int| 0 <= i < spans.len() implies exists|b: int|
        0 <= b < out.len() && is_batch(#[trigger] out[b], spans, (#[trigger] spans[i]).stream) by {
        assert(keys[i] == spans[i].stream);
        let g = choose|g: int|
            0 <= g < groups.len() && keys[(#[trigger] groups[g])[0]] == keys[i]
                && groups[g].contains(i);
        assert(is_batch(out[g], spans, keys[groups[g][0]]));
    }
}

/// The values of a tag are those that some span has under it.
pub proof fn law_tag_values_are_what_spans_have(spans: Seq<SpanView>, name: Seq<char>)
    ensures
        forall|value: Seq<char>| #[trigger]
            tag_values_of(spans, name).contains(value) == (exists|i: int|
                0 <= i < spans.len() && tag_value(#[trigger] spans[i], name) == Some(value)),
    decreases spans.len(),
{
    if spans.len() > 0 {
        let front = spans.drop_last();
        let n = spans.len() - 1;
        law_tag_values_are_what_spans_have(front, name);
        let rest = tag_values_of(front, name);
        let all = tag_values_of(spans, name);
        assert forall|value: Seq<char>| #[trigger] all.contains(value) == (exists|i: int|
            0 <= i < spans.len() && tag_value(#[trigger] spans[i], name) == Some(value)) by {
            if all.contains(value) {
                let k = choose|k: int| 0 <= k < all.len() && all[k] == value;
                if k < rest.len() {
                    assert(rest[k] == value);
                    assert(rest.contains(value));
                    let i = choose|i: int|
                        0 <= i < front.len() && tag_value(#[trigger] front[i], name) == Some(value);
                    assert(spans[i] == front[i]);
                } else {
                    assert(tag_value(spans[n], name) == Some(value));
                }
            }
            if exists|i: int|
                0 <= i < spans.len() && tag_value(#[trigger] spans[i], name) == Some(value) {
                let i = choose|i: int|
                    0 <= i < spans.len() && tag_value(#[trigger] spans[i], name) == Some(value);
                if i < front.len() {
                    assert(front[i] == spans[i]);
                    assert(rest.contains(value));
                    let k = choose|k: int| 0 <= k < rest.len() && rest[k] == value;
                    assert(all[k] == value);
                } else {
                    assert(all[all.len() - 1] == value);
                }
            }
        }
    }
}

/// A search with bounds on durations wants the traces that last at least as long as the least
/// and at most as long as the greatest.
pub proof fn law_bounds_are_inclusive(request: SearchView, nanos: u64)
    ensures
        request.duration_within(nanos) <==> (request.min_duration_nanos is Some
            ==> request.min_duration_nanos->Some_0 <= nanos) && (request.max_duration_nanos is Some
            ==> nanos <= request.max_duration_nanos->Some_0),
{
}

/// A row lists what matched of its trace, by its start and each span once, and says how many
/// that are. Its root names it.
pub proof fn law_a_row_lists_what_matched(
    matched: Seq<SpanView>,
    whole: Seq<SpanView>,
    id: Seq<char>,
)
    ensures
        ({
            let row = summary_of(matched, whole, id).1;
            let own = each_once(of_trace(matched, id));
            &&& row.span_sets.len() == 1
            &&& row.span_sets[0].spans.len() == own.len()
            &&& own.len() <= u32::MAX ==> row.span_sets[0].matched == own.len()
            &&& forall|i: int|
                0 <= i < own.len() ==> {
                    &&& (#[trigger] row.span_sets[0].spans[i]).span_id == own[i].span_id
                    &&& row.span_sets[0].spans[i].name == own[i].name
                    &&& row.span_sets[0].spans[i].start_time_unix_nano == decimal(
                        own[i].start_nanos as nat,
                    )
                    &&& row.span_sets[0].spans[i].attributes == own[i].attributes
                }
            &&& row.root_trace_name == root_from(trace_spans(matched, whole, id), 0).name
            &&& row.root_service_name == root_from(trace_spans(matched, whole, id), 0).service()
        }),
{
}

/// A tag is looked up among the span's own attributes first, and else among the labels of its
/// stream; its name, status and kind are the span's own.
pub proof fn law_a_tag_is_the_spans_own_first(span: SpanView, name: Seq<char>, value: Seq<char>)
    requires
        name != "name"@ && name != "status"@ && name != "kind"@,
    ensures
        lookup(span.attributes, name) == Some(value) ==> tag_value(span, name) == Some(value),
        lookup_relaxed(span.attributes, name) is None && lookup(span.stream, name) == Some(value)
            ==> tag_value(span, name) == Some(value),
        tag_value(span, "name"@) == Some(span.name),
{
}

/// A trace is found by its id in whatever case and with spaces around it, and holds only spans
/// with that id.
pub proof fn law_a_trace_is_found_by_its_id(
    spans: Seq<SpanView>,
    raw: Seq<char>,
    other: Seq<char>,
)
    requires
        lower(trim(raw)) == lower(trim(other)),
    ensures
        trace_of(spans, raw) == trace_of(spans, other),
        lower(trim(raw)).len() > 0 ==> trace_of(spans, raw) == Ok::<Seq<BatchView>, Fault>(
            batches_of(
                each_once(spans.filter(|span: SpanView| span.trace_id == lower(trim(raw)))),
            ),
        ),
        lower(trim(raw)).len() == 0 ==> trace_of(spans, raw) is Err,
{
    law_a_trace_has_its_spans(spans, lower(trim(raw)));
}

} // verus!
