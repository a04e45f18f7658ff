//! The Prometheus-compatible query API.
//!
//! `start`, `end` and `time` are seconds. A result's time stays in nanoseconds and its
//! value in the bits of a double until it is written.
use vstd::prelude::*;

use crate::double::{is_infinite, is_nan, less};
use crate::error::{outcome, outcome_all, refused, Error, Failure, Fault};
use crate::grouping::{
    label_views, lemma_sorted_groups, numbers, places, sort_groups, sorted_groups, sound_groups,
};
use crate::labels::{Labels, Pair};
use crate::lexer::{saturated, tokenize, Lexeme, Spanned};
use crate::loki::{
    duration_text, given, given_text, loki_time, no_query, range_outcome, read_seconds,
    seconds_time, text_of, time_outcome,
};
use crate::matcher::{LabelMatcher, MatcherView};
use crate::meta::{
    accepted_streams, all_names, all_values, distinct, matcher_sets, names_of, series_of, values_of,
};
use crate::promeval::{
    computes, evaluated, literals, reads, results, vector_of, Calc, Evaluated, EvaluatedView,
    InstantVector, Literals, Sampled, SeriesView, Snapshot,
};
use crate::promql::{arities_match, metric_expr, BinaryOp, Expr, ExprView};
use crate::seconds::{minus, read, read_number, Reading, ReadingView, NANOS_PER_SECOND};
use crate::text::{
    debug_text, decimal, decimal_text, lemma_views_push, option_view, quoted, trim, trimmed, views,
};
use crate::textset::sorted_set;

verus! {

/// Ceiling on points per series in a range query, so that one request cannot ask for a
/// million steps.
pub const MAX_STEPS: u64 = 11_000;

/// The default range, in nanoseconds: one hour.
pub const DEFAULT_RANGE: u64 = 3_600_000_000_000;

/// The default step, in nanoseconds: one minute.
pub const DEFAULT_STEP: u64 = 60_000_000_000;

/// The version that the build information reports.
pub const VERSION: &'static str = "0.1.0";

#[derive(Debug)]
pub struct InstantParams {
    pub query: Option<String>,
    pub time: Option<String>,
    pub timeout: Option<String>,
}

impl Default for InstantParams {
    fn default() -> (params: InstantParams)
        ensures
            params == (InstantParams { query: None, time: None, timeout: None }),
    {
        InstantParams { query: None, time: None, timeout: None }
    }
}

#[derive(Debug)]
pub struct RangeParams {
    pub query: Option<String>,
    pub start: Option<String>,
    pub end: Option<String>,
    pub step: Option<String>,
    pub timeout: Option<String>,
}

impl Default for RangeParams {
    fn default() -> (params: RangeParams)
        ensures
            params == (RangeParams {
                query: None,
                start: None,
                end: None,
                step: None,
                timeout: None,
            }),
    {
        RangeParams { query: None, start: None, end: None, step: None, timeout: None }
    }
}

#[derive(Debug)]
pub struct MetaParams {
    pub start: Option<String>,
    pub end: Option<String>,
    pub matches: Option<String>,
}

impl Default for MetaParams {
    fn default() -> (params: MetaParams)
        ensures
            params == (MetaParams { start: None, end: None, matches: None }),
    {
        MetaParams { start: None, end: None, matches: None }
    }
}

// ---------------------------------------------------------------------------
// Response shapes
// ---------------------------------------------------------------------------

#[derive(Debug)]
pub struct PromResponse<T> {
    pub status: &'static str,
    pub data: T,
}

impl<T> PromResponse<T> {
    pub fn success(data: T) -> (response: PromResponse<T>)
        ensures
            response.status@ == "success"@,
            response.data == data,
    {
        PromResponse { status: "success", data }
    }
}

#[derive(Debug)]
pub struct InstantData {
    pub result_type: &'static str,
    pub result: Vec<InstantResult>,
}

/// One series' value: when, in nanoseconds, and the double.
#[derive(Debug)]
pub struct InstantResult {
    pub metric: Labels,
    pub value: (u64, u64),
}

impl View for InstantResult {
    type V = Point;

    open spec fn view(&self) -> Point {
        (self.metric@, self.value)
    }
}

#[derive(Debug)]
pub struct RangeData {
    pub result_type: &'static str,
    pub result: Vec<RangeResult>,
}

#[derive(Debug)]
pub struct RangeResult {
    pub metric: Labels,
    pub values: Vec<(u64, u64)>,
}

impl View for RangeResult {
    type V = (Seq<Pair>, Seq<(u64, u64)>);

    open spec fn view(&self) -> (Seq<Pair>, Seq<(u64, u64)>) {
        (self.metric@, self.values@)
    }
}

#[derive(Debug)]
pub struct BuildInfo {
    pub version: &'static str,
    pub revision: &'static str,
    pub branch: &'static str,
    pub build_user: &'static str,
    pub build_date: &'static str,
    pub go_version: &'static str,
}

/// What this is, truthfully: a client probes it first, and shows a degraded backend
/// without it.
pub fn build_info() -> (response: PromResponse<BuildInfo>)
    ensures
        response.status@ == "success"@,
        response.data.version@ == VERSION@,
        response.data.revision@ == "unknown"@,
        response.data.branch@ == "main"@,
        response.data.build_user@ == "telemetryd"@,
        response.data.build_date@ == ""@,
        response.data.go_version@ == "n/a (telemetryd is not Prometheus)"@,
{
    PromResponse::success(
        BuildInfo {
            version: VERSION,
            revision: "unknown",
            branch: "main",
            build_user: "telemetryd",
            build_date: "",
            go_version: "n/a (telemetryd is not Prometheus)",
        },
    )
}

/// Writes a double the way Prometheus does, with `render` for what is finite.
pub fn format_value<R: Fn(u64) -> String>(value: u64, render: &R) -> (text: String)
    requires
        render.requires((value,)),
    ensures
        is_nan(value) ==> text@ == "NaN"@,
        is_infinite(value) && less(0, value) ==> text@ == "+Inf"@,
        is_infinite(value) && less(value, 0) ==> text@ == "-Inf"@,
        !is_nan(value) && !is_infinite(value) ==> render.ensures((value,), text),
{
    if is_nan(value) {
        "NaN".to_owned()
    } else if is_infinite(value) {
        if less(0, value) {
            "+Inf".to_owned()
        } else {
            "-Inf".to_owned()
        }
    } else {
        render(value)
    }
}

// ---------------------------------------------------------------------------
// Parameters
// ---------------------------------------------------------------------------

/// The time that a Prometheus timestamp writes: seconds, or RFC3339.
pub open spec fn prometheus_time(raw: Seq<char>) -> Result<u64, Fault> {
    let text = trim(raw);
    if text.len() == 0 {
        Err(refused("empty timestamp"@))
    } else {
        match seconds_time(text) {
            Some(nanos) => Ok(nanos),
            None => loki_time(text),
        }
    }
}

/// Parses a Prometheus timestamp: Unix seconds, possibly fractional.
pub fn parse_time(raw: &str) -> (r: Result<u64, Error>)
    ensures
        time_outcome(r) == prometheus_time(raw@),
{
    let text: String = trimmed(raw);
    let text: &str = text.as_str();
    if text.is_empty() {
        return Err(Failure::BadRequest("empty timestamp".to_owned()));
    }
    match read_seconds(text) {
        Some(nanos) => Ok(nanos),
        None => crate::loki::parse_time(text),
    }
}

/// The nanoseconds of a step: a positive number of seconds, or a positive duration.
pub open spec fn step_of(raw: Seq<char>) -> Result<u64, Fault> {
    let text = trim(raw);
    match read_number(text) {
        Some(ReadingView::Number(decimal)) => if decimal.countable() && !decimal.is_zero() {
            Ok(decimal.rounded(NANOS_PER_SECOND as nat))
        } else {
            Err(refused("`step` must be a positive number of seconds"@))
        },
        Some(_) => Err(refused("`step` must be a positive number of seconds"@)),
        None => match duration_text(text) {
            Err(fault) => Err(fault),
            Ok(Some(nanos)) => if nanos > 0 {
                Ok(nanos)
            } else {
                Err(no_step(text))
            },
            Ok(None) => Err(no_step(text)),
        },
    }
}

pub open spec fn no_step(text: Seq<char>) -> Fault {
    refused("`step` must be a positive duration, got "@ + debug_text(text))
}

/// Parses a step: seconds, or a duration.
pub fn parse_step(raw: &str) -> (r: Result<u64, Error>)
    ensures
        time_outcome(r) == step_of(raw@),
{
    let text: String = trimmed(raw);
    let text: &str = text.as_str();
    match read(text) {
        Some(Reading::Number(decimal)) => {
            if decimal.countable() && !decimal.is_zero() {
                return Ok(decimal.rounded(NANOS_PER_SECOND));
            }
            return Err(
                Failure::BadRequest("`step` must be a positive number of seconds".to_owned()),
            );
        },
        Some(_) => {
            return Err(
                Failure::BadRequest("`step` must be a positive number of seconds".to_owned()),
            );
        },
        None => {},
    }
    let tokens: Vec<Spanned> = match tokenize(text) {
        Ok(tokens) => tokens,
        Err(error) => {
            return Err(error);
        },
    };
    if tokens.len() > 0 {
        assert(views(tokens@)[0] == tokens@[0]@);
        match &tokens[0].token {
            Lexeme::Duration(nanos) => if *nanos > 0 {
                return Ok(*nanos);
            },
            _ => {},
        }
    }
    let mut message: String = "`step` must be a positive duration, got ".to_owned();
    message.append(quoted(text).as_str());
    Err(Failure::BadRequest(message))
}

/// The expression that a request asks for.
pub open spec fn query_of(query: Option<Seq<char>>) -> Result<ExprView, Fault> {
    match query {
        None => Err(no_query()),
        Some(raw) => if trim(raw).len() == 0 {
            Err(no_query())
        } else {
            metric_expr(raw)
        },
    }
}

/// Parses the expression of a request, which must have one.
pub fn required_query(query: Option<&str>) -> (r: Result<Expr, Error>)
    ensures
        outcome(r) == query_of(option_view(query)),
        r is Ok ==> arities_match(r.unwrap()@),
{
    match query {
        Some(raw) => {
            if !trimmed(raw).as_str().is_empty() {
                return crate::promql::parse(raw);
            }
        },
        None => {},
    }
    Err(Failure::BadRequest("the `query` parameter is required".to_owned()))
}

/// The time of a parameter, or another where it is not given.
pub open spec fn time_or(param: Option<Seq<char>>, default: u64) -> Result<u64, Fault> {
    match given(param) {
        Some(raw) => prometheus_time(raw),
        None => Ok(default),
    }
}

fn read_time(param: Option<&str>, default: u64) -> (r: Result<u64, Error>)
    ensures
        time_outcome(r) == time_or(option_view(param), default),
{
    match given_text(param) {
        Some(raw) => parse_time(raw),
        None => Ok(default),
    }
}

/// The range of a metadata request: by default the last hour.
pub open spec fn meta_times(start: Option<Seq<char>>, end: Option<Seq<char>>, now: u64) -> Result<
    (u64, u64),
    Fault,
> {
    match time_or(end, now) {
        Err(fault) => Err(fault),
        Ok(end_nanos) => match time_or(start, minus(end_nanos, DEFAULT_RANGE)) {
            Err(fault) => Err(fault),
            Ok(start_nanos) => Ok((start_nanos, end_nanos)),
        },
    }
}

/// Resolves a start and an end, by default the last hour.
fn read_times(start: Option<&str>, end: Option<&str>, now_nanos: u64) -> (r: Result<
    (u64, u64),
    Error,
>)
    ensures
        range_outcome(r) == meta_times(option_view(start), option_view(end), now_nanos),
{
    let end_nanos: u64 = match read_time(end, now_nanos) {
        Ok(nanos) => nanos,
        Err(error) => {
            return Err(error);
        },
    };
    match read_time(start, end_nanos.saturating_sub(DEFAULT_RANGE)) {
        Ok(start_nanos) => Ok((start_nanos, end_nanos)),
        Err(error) => Err(error),
    }
}

/// Resolves the range of a metadata request, by default the last hour.
pub fn meta_range(params: &MetaParams, now_nanos: u64) -> (r: Result<(u64, u64), Error>)
    ensures
        range_outcome(r) == meta_times(
            option_view(params.start),
            option_view(params.end),
            now_nanos,
        ),
{
    read_times(text_of(&params.start), text_of(&params.end), now_nanos)
}

/// The matchers of a bare selector.
pub open spec fn selector_matchers(raw: Seq<char>) -> Result<Seq<MatcherView>, Fault> {
    match metric_expr(raw) {
        Err(fault) => Err(fault),
        Ok(ExprView::Selector(selector)) => Ok(selector.matchers),
        Ok(_) => Err(
            refused("`match[]` takes a series selector, not an expression: "@ + debug_text(raw)),
        ),
    }
}

/// The matchers of a bare selector, for `match[]`.
pub fn matchers_of(selector: &str) -> (r: Result<Vec<LabelMatcher>, Error>)
    ensures
        outcome_all(r) == selector_matchers(selector@),
{
    match crate::promql::parse(selector) {
        Err(error) => Err(error),
        Ok(Expr::Selector(selector)) => Ok(selector.matchers),
        Ok(_) => {
            let mut message: String =
                "`match[]` takes a series selector, not an expression: ".to_owned();
            message.append(quoted(selector).as_str());
            Err(Failure::BadRequest(message))
        },
    }
}

// ---------------------------------------------------------------------------
// Requests
// ---------------------------------------------------------------------------

/// A validated instant query.
#[derive(Debug)]
pub struct InstantRequest {
    pub expr: Expr,
    pub at_nanos: u64,
}

pub struct InstantRequestView {
    pub expr: ExprView,
    pub at_nanos: u64,
}

impl View for InstantRequest {
    type V = InstantRequestView;

    open spec fn view(&self) -> InstantRequestView {
        InstantRequestView { expr: self.expr@, at_nanos: self.at_nanos }
    }
}

pub open spec fn instant_request(params: InstantParams, now: u64) -> Result<
    InstantRequestView,
    Fault,
> {
    match query_of(option_view(params.query)) {
        Err(fault) => Err(fault),
        Ok(expr) => match time_or(option_view(params.time), now) {
            Err(fault) => Err(fault),
            Ok(at_nanos) => Ok(InstantRequestView { expr, at_nanos }),
        },
    }
}

impl InstantRequest {
    /// Validates raw parameters.
    pub fn from_params(params: &InstantParams, now_nanos: u64) -> (r: Result<InstantRequest, Error>)
        ensures
            outcome(r) == instant_request(*params, now_nanos),
            r is Ok ==> arities_match(r.unwrap()@.expr),
    {
        let expr: Expr = match required_query(text_of(&params.query)) {
            Ok(expr) => expr,
            Err(error) => {
                return Err(error);
            },
        };
        match read_time(text_of(&params.time), now_nanos) {
            Ok(at_nanos) => Ok(InstantRequest { expr, at_nanos }),
            Err(error) => Err(error),
        }
    }
}

/// A validated range query.
#[derive(Debug)]
pub struct RangeRequest {
    pub expr: Expr,
    pub start_nanos: u64,
    pub end_nanos: u64,
    pub step_nanos: u64,
}

pub struct RangeRequestView {
    pub expr: ExprView,
    pub start_nanos: u64,
    pub end_nanos: u64,
    pub step_nanos: u64,
}

impl View for RangeRequest {
    type V = RangeRequestView;

    open spec fn view(&self) -> RangeRequestView {
        RangeRequestView {
            expr: self.expr@,
            start_nanos: self.start_nanos,
            end_nanos: self.end_nanos,
            step_nanos: self.step_nanos,
        }
    }
}

/// The refusal of a range with too many steps.
pub open spec fn too_many_steps(steps: nat) -> Fault {
    refused(
        "that range and step would need "@ + decimal(steps)
            + " points per series; the limit is "@ + decimal(MAX_STEPS as nat)
            + ". Widen `step` or narrow the range."@,
    )
}

/// The step that a parameter asks for: a minute where it is not given, and never zero.
pub open spec fn step_or_default(param: Option<Seq<char>>) -> Result<u64, Fault> {
    match given(param) {
        None => Ok(DEFAULT_STEP),
        Some(raw) => match step_of(raw) {
            Err(fault) => Err(fault),
            Ok(nanos) => Ok(
                if nanos == 0 {
                    1
                } else {
                    nanos
                },
            ),
        },
    }
}

pub open spec fn range_request(params: RangeParams, now: u64) -> Result<RangeRequestView, Fault> {
    match query_of(option_view(params.query)) {
        Err(fault) => Err(fault),
        Ok(expr) => match meta_times(option_view(params.start), option_view(params.end), now) {
            Err(fault) => Err(fault),
            Ok((start_nanos, end_nanos)) => if start_nanos > end_nanos {
                Err(refused("`start` must not be after `end`"@))
            } else {
                match step_or_default(option_view(params.step)) {
                    Err(fault) => Err(fault),
                    Ok(step_nanos) => if (end_nanos - start_nanos) / step_nanos as int >= MAX_STEPS {
                        Err(
                            too_many_steps(
                                saturated(
                                    ((end_nanos - start_nanos) / step_nanos as int + 1) as nat,
                                ) as nat,
                            ),
                        )
                    } else {
                        Ok(RangeRequestView { expr, start_nanos, end_nanos, step_nanos })
                    },
                }
            },
        },
    }
}

impl RangeRequest {
    /// Validates raw parameters. A range has at most [`MAX_STEPS`] steps.
    pub fn from_params(params: &RangeParams, now_nanos: u64) -> (r: Result<RangeRequest, Error>)
        ensures
            outcome(r) == range_request(*params, now_nanos),
            r is Ok ==> arities_match(r.unwrap()@.expr) && r.unwrap()@.step_nanos > 0,
    {
        let expr: Expr = match required_query(text_of(&params.query)) {
            Ok(expr) => expr,
            Err(error) => {
                return Err(error);
            },
        };
        let (start_nanos, end_nanos): (u64, u64) = match read_times(
            text_of(&params.start),
            text_of(&params.end),
            now_nanos,
        ) {
            Ok(times) => times,
            Err(error) => {
                return Err(error);
            },
        };
        if start_nanos > end_nanos {
            return Err(Failure::BadRequest("`start` must not be after `end`".to_owned()));
        }
        let step_nanos: u64 = match given_text(text_of(&params.step)) {
            None => DEFAULT_STEP,
            Some(raw) => match parse_step(raw) {
                Err(error) => {
                    return Err(error);
                },
                Ok(nanos) => if nanos == 0 {
                    1
                } else {
                    nanos
                },
            },
        };
        let quotient: u64 = (end_nanos - start_nanos) / step_nanos;
        if quotient >= MAX_STEPS {
            let steps: u64 = if quotient == u64::MAX {
                u64::MAX
            } else {
                quotient + 1
            };
            let mut message: String = "that range and step would need ".to_owned();
            message.append(decimal_text(steps).as_str());
            message.append(" points per series; the limit is ");
            message.append(decimal_text(MAX_STEPS).as_str());
            message.append(". Widen `step` or narrow the range.");
            return Err(Failure::BadRequest(message));
        }
        Ok(RangeRequest { expr, start_nanos, end_nanos, step_nanos })
    }
}

// ---------------------------------------------------------------------------
// Answers
// ---------------------------------------------------------------------------

/// A value of a series at a time.
pub type Point = (Seq<Pair>, (u64, u64));

pub open spec fn points_at(vector: Seq<Sampled>, at: u64) -> Seq<Point> {
    vector.map_values(|sample: Sampled| (sample.0, (at, sample.1)))
}

/// The answer to an instant query, from the series that were read.
pub fn instant<C: Fn(BinaryOp, u64, u64) -> u64, P: Fn(&str) -> u64>(
    snapshot: &Snapshot,
    request: &InstantRequest,
    calc: &C,
    parse: &P,
) -> (r: Result<PromResponse<InstantData>, Error>)
    requires
        arities_match(request@.expr),
        computes(calc),
        reads(parse),
    ensures
        match evaluated(
            snapshot@,
            request@.expr,
            request@.at_nanos,
            results(calc),
            literals(parse),
        ) {
            Err(fault) => r is Err && r->Err_0@ == fault,
            Ok(value) => r is Ok && r->Ok_0.status@ == "success"@ && r->Ok_0.data.result_type@
                == "vector"@ && views(r->Ok_0.data.result@) == points_at(
                vector_of(value),
                request@.at_nanos,
            ),
        },
{
    let vector: InstantVector = match snapshot.eval(&request.expr, request.at_nanos, calc, parse) {
        Err(error) => {
            return Err(error);
        },
        Ok(value) => value.into_vector(),
    };
    let at: u64 = request.at_nanos;
    let mut result: Vec<InstantResult> = Vec::new();
    let mut i: usize = 0;
    while i < vector.samples.len()
        invariant
            i <= vector.samples@.len(),
            result@.len() == i,
            forall|j: int|
                0 <= j < i ==> (#[trigger] result@[j])@ == (vector@[j].0, (at, vector@[j].1)),
        decreases vector.samples@.len() - i,
    {
        assert(vector@[i as int] == vector.samples@[i as int]@);
        result.push(
            InstantResult { metric: vector.samples[i].0.clone(), value: (at, vector.samples[i].1) },
        );
        i += 1;
    }
    assert(views(result@) =~= points_at(vector@, at));
    Ok(PromResponse::success(InstantData { result_type: "vector", result }))
}

/// How many steps a range has: those that are not after its end.
pub open spec fn steps_of(start: u64, end: u64, step: u64) -> nat {
    if start > end {
        0
    } else {
        ((end - start) / step as int + 1) as nat
    }
}

/// The time of a step.
pub open spec fn step_time(start: u64, step: u64, k: int) -> u64 {
    (start + k * step) as u64
}

/// What the points at one time are. A scalar has no series to show.
pub open spec fn shown_at(value: EvaluatedView, at: u64) -> Seq<Point> {
    match value {
        Evaluated::Vector(vector) => points_at(vector, at),
        Evaluated::Scalar(_) => Seq::empty(),
    }
}

/// The points of the first `n` steps, or the refusal of the first that has one.
pub open spec fn points_of(
    series: Seq<SeriesView>,
    e: ExprView,
    start: u64,
    step: u64,
    n: nat,
    calc: Calc,
    read: Literals,
) -> Result<Seq<Point>, Fault>
    decreases n,
{
    if n == 0 {
        Ok(Seq::empty())
    } else {
        match points_of(series, e, start, step, (n - 1) as nat, calc, read) {
            Err(fault) => Err(fault),
            Ok(points) => {
                let at = step_time(start, step, n - 1);
                match evaluated(series, e, at, calc, read) {
                    Err(fault) => Err(fault),
                    Ok(value) => Ok(points + shown_at(value, at)),
                }
            },
        }
    }
}

/// The series of each point.
pub open spec fn point_labels(points: Seq<Point>) -> Seq<Seq<Pair>> {
    points.map_values(|point: Point| point.0)
}

/// The values at some places.
pub open spec fn point_values(points: Seq<Point>, group: Seq<int>) -> Seq<(u64, u64)> {
    group.map_values(|i: int| points[i].1)
}

/// Points by series, the series in the order of their labels.
pub open spec fn matrix(points: Seq<Point>) -> Seq<(Seq<Pair>, Seq<(u64, u64)>)> {
    sorted_groups(point_labels(points)).map_values(
        |group: Seq<int>| (points[group[0]].0, point_values(points, group)),
    )
}

fn push_points(points: &mut Vec<(Labels, (u64, u64))>, vector: &InstantVector, at: u64)
    ensures
        views(final(points)@) == views(old(points)@) + points_at(vector@, at),
{
    let ghost start = views(points@);
    let ghost own = points_at(vector@, at);
    let mut i: usize = 0;
    assert(start + own.take(0) =~= start);
    while i < vector.samples.len()
        invariant
            i <= vector.samples@.len(),
            own == points_at(vector@, at),
            views(points@) == start + own.take(i as int),
        decreases vector.samples@.len() - i,
    {
        let ghost done = points@;
        assert(vector@[i as int] == vector.samples@[i as int]@);
        points.push((vector.samples[i].0.clone(), (at, vector.samples[i].1)));
        proof {
            lemma_views_push(done, points@.last());
            assert(start + own.take(i as int + 1) =~= (start + own.take(i as int)).push(
                own[i as int],
            ));
        }
        i += 1;
    }
    assert(own.take(i as int) =~= own);
}

fn group_points(points: &Vec<(Labels, (u64, u64))>) -> (result: Vec<RangeResult>)
    ensures
        views(result@) == matrix(views(points@)),
{
    let ghost all = views(points@);
    let mut refs: Vec<&Labels> = Vec::new();
    let mut i: usize = 0;
    while i < points.len()
        invariant
            i <= points@.len(),
            all == views(points@),
            refs@.len() == i,
            forall|j: int| 0 <= j < i ==> (#[trigger] refs@[j])@ == all[j].0,
        decreases points@.len() - i,
    {
        assert(all[i as int] == points@[i as int]@);
        refs.push(&points[i].0);
        i += 1;
    }
    let ghost keys = point_labels(all);
    assert(label_views(refs@) =~= keys);
    let groups: Vec<Vec<usize>> = sort_groups(&refs);
    let ghost sorted = sorted_groups(keys);
    proof {
        lemma_sorted_groups(keys);
    }
    let mut result: Vec<RangeResult> = Vec::new();
    let mut g: usize = 0;
    while g < groups.len()
        invariant
            g <= groups@.len(),
            all == views(points@),
            sorted == places(groups@),
            sound_groups(sorted, keys, all.len() as int),
            result@.len() == g,
            forall|j: int|
                0 <= j < g ==> (#[trigger] result@[j])@ == (
                    all[sorted[j][0]].0,
                    point_values(all, sorted[j]),
                ),
        decreases groups@.len() - g,
    {
        let group: &Vec<usize> = &groups[g];
        proof {
            assert(sorted[g as int] == numbers(group@));
            assert(sorted[g as int].len() > 0);
            assert(sorted[g as int][0] == group@[0]);
        }
        let mut values: Vec<(u64, u64)> = Vec::new();
        let mut k: usize = 0;
        while k < group.len()
            invariant
                k <= group@.len(),
                g < sorted.len(),
                all == views(points@),
                sound_groups(sorted, keys, all.len() as int),
                sorted[g as int] == numbers(group@),
                values@.len() == k,
                forall|j: int| 0 <= j < k ==> #[trigger] values@[j] == all[sorted[g as int][j]].1,
            decreases group@.len() - k,
        {
            proof {
                assert(sorted[g as int].len() > 0);
                assert(sorted[g as int][k as int] == group@[k as int]);
                assert(all[group@[k as int] as int] == points@[group@[k as int] as int]@);
            }
            values.push(points[group[k]].1);
            k += 1;
        }
        assert(values@ =~= point_values(all, sorted[g as int]));
        assert(all[group@[0] as int] == points@[group@[0] as int]@);
        result.push(RangeResult { metric: points[group[0]].0.clone(), values });
        g += 1;
    }
    assert(views(result@) =~= matrix(all));
    result
}

/// The answer to a range query, from the series that were read. Every step is evaluated
/// from memory.
pub fn range<C: Fn(BinaryOp, u64, u64) -> u64, P: Fn(&str) -> u64>(
    snapshot: &Snapshot,
    request: &RangeRequest,
    calc: &C,
    parse: &P,
) -> (r: Result<PromResponse<RangeData>, Error>)
    requires
        arities_match(request@.expr),
        request@.step_nanos > 0,
        computes(calc),
        reads(parse),
    ensures
        match points_of(
            snapshot@,
            request@.expr,
            request@.start_nanos,
            request@.step_nanos,
            steps_of(request@.start_nanos, request@.end_nanos, request@.step_nanos),
            results(calc),
            literals(parse),
        ) {
            Err(fault) => r is Err && r->Err_0@ == fault,
            Ok(points) => r is Ok && r->Ok_0.status@ == "success"@ && r->Ok_0.data.result_type@
                == "matrix"@ && views(r->Ok_0.data.result@) == matrix(points),
        },
{
    let ghost f = results(calc);
    let ghost h = literals(parse);
    let start: u64 = request.start_nanos;
    let end: u64 = request.end_nanos;
    let step: u64 = request.step_nanos;
    let ghost steps = steps_of(start, end, step);
    let count: u128 = if start > end {
        0
    } else {
        ((end - start) / step) as u128 + 1
    };
    let mut points: Vec<(Labels, (u64, u64))> = Vec::new();
    let mut k: u128 = 0;
    assert(views(points@) =~= Seq::<Point>::empty());
    while k < count
        invariant
            arities_match(request@.expr),
            computes(calc),
            reads(parse),
            f == results(calc),
            h == literals(parse),
            start == request@.start_nanos,
            end == request@.end_nanos,
            step == request@.step_nanos > 0,
            count == steps == steps_of(start, end, step),
            k <= count,
            points_of(snapshot@, request@.expr, start, step, k as nat, f, h) == Ok::<
                Seq<Point>,
                Fault,
            >(views(points@)),
        decreases count - k,
    {
        proof {
            lemma_step_is_inside(start, end, step, k as int);
        }
        let at: u64 = start + (k as u64) * step;
        let ghost before = views(points@);
        match snapshot.eval(&request.expr, at, calc, parse) {
            Err(error) => {
                proof {
                    lemma_refused_points(
                        snapshot@,
                        request@.expr,
                        start,
                        step,
                        (k + 1) as nat,
                        steps,
                        f,
                        h,
                    );
                }
                return Err(error);
            },
            Ok(Evaluated::Vector(vector)) => push_points(&mut points, &vector, at),
            Ok(Evaluated::Scalar(_)) => {
                assert(before + Seq::<Point>::empty() =~= before);
            },
        }
        k += 1;
    }
    let result: Vec<RangeResult> = group_points(&points);
    Ok(PromResponse::success(RangeData { result_type: "matrix", result }))
}

// ---------------------------------------------------------------------------
// Metadata
// ---------------------------------------------------------------------------

/// Every label name that any of the streams carries.
pub fn label_names(streams: &Vec<Labels>) -> (response: PromResponse<Vec<String>>)
    ensures
        response.status@ == "success"@,
        views(response.data@) == sorted_set(all_names(views(streams@))),
{
    PromResponse::success(names_of(streams))
}

/// Every value that a label takes across the streams.
pub fn label_values(streams: &Vec<Labels>, name: &str) -> (response: PromResponse<Vec<String>>)
    ensures
        response.status@ == "success"@,
        views(response.data@) == sorted_set(all_values(views(streams@), name@)),
{
    PromResponse::success(values_of(streams, name))
}

/// The matchers of each of the first `n` selectors, or the refusal of the first that is
/// none.
pub open spec fn selector_sets(selectors: Seq<Seq<char>>, n: nat) -> Result<
    Seq<Seq<MatcherView>>,
    Fault,
>
    decreases n,
{
    if n == 0 {
        Ok(Seq::empty())
    } else {
        match selector_sets(selectors, (n - 1) as nat) {
            Err(fault) => Err(fault),
            Ok(sets) => match selector_matchers(selectors[n - 1]) {
                Err(fault) => Err(fault),
                Ok(matchers) => Ok(sets.push(matchers)),
            },
        }
    }
}

/// The label sets of the streams that some selector accepts; of all without selectors.
pub fn series(streams: &Vec<Labels>, selectors: &Vec<String>) -> (r: Result<
    PromResponse<Vec<Labels>>,
    Error,
>)
    ensures
        match selector_sets(views(selectors@), selectors@.len()) {
            Err(fault) => r is Err && r->Err_0@ == fault,
            Ok(sets) => r is Ok && r->Ok_0.status@ == "success"@ && views(r->Ok_0.data@)
                == distinct(accepted_streams(views(streams@), sets)),
        },
{
    let ghost all = views(selectors@);
    let mut sets: Vec<Vec<LabelMatcher>> = Vec::new();
    let mut i: usize = 0;
    assert(matcher_sets(sets@) =~= Seq::empty());
    while i < selectors.len()
        invariant
            i <= selectors@.len(),
            all == views(selectors@),
            selector_sets(all, i as nat) == Ok::<Seq<Seq<MatcherView>>, Fault>(
                matcher_sets(sets@),
            ),
        decreases selectors@.len() - i,
    {
        assert(all[i as int] == selectors@[i as int]@);
        let matchers: Vec<LabelMatcher> = match matchers_of(selectors[i].as_str()) {
            Ok(matchers) => matchers,
            Err(error) => {
                proof {
                    lemma_refused_selectors(all, (i + 1) as nat, selectors@.len());
                }
                return Err(error);
            },
        };
        let ghost done = sets@;
        sets.push(matchers);
        assert(matcher_sets(sets@) =~= matcher_sets(done).push(views(matchers@)));
        i += 1;
    }
    Ok(PromResponse::success(series_of(streams, &sets)))
}

proof fn lemma_refused_selectors(selectors: Seq<Seq<char>>, i: nat, n: nat)
    requires
        selector_sets(selectors, i) is Err,
        i <= n,
    ensures
        selector_sets(selectors, n) == selector_sets(selectors, i),
    decreases n,
{
    if i < n {
        lemma_refused_selectors(selectors, i, (n - 1) as nat);
    }
}

// ---------------------------------------------------------------------------
// Laws
// ---------------------------------------------------------------------------

/// A range that is accepted is not inverted and has no more than the allowed number of
/// points per series.
pub proof fn law_ranges_are_bounded(params: RangeParams, now: u64)
    ensures
        match range_request(params, now) {
            Ok(request) => request.start_nanos <= request.end_nanos && request.step_nanos > 0 && 0
                < steps_of(request.start_nanos, request.end_nanos, request.step_nanos)
                <= MAX_STEPS,
            Err(_) => true,
        },
{
    match range_request(params, now) {
        Ok(request) => {
            let span = request.end_nanos - request.start_nanos;
            assert(span / request.step_nanos as int >= 0) by (nonlinear_arith)
                requires
                    span >= 0,
                    request.step_nanos > 0,
            ;
        },
        Err(_) => {},
    }
}

/// A range is evaluated from its start on, step by step, and never past its end: the next
/// step would be.
pub proof fn law_steps_fill_the_range(start: u64, end: u64, step: u64, k: int)
    requires
        start <= end,
        step > 0,
        0 <= k,
    ensures
        step_time(start, step, 0) == start,
        k < steps_of(start, end, step) <==> start + k * step <= end,
{
    lemma_step_is_inside(start, end, step, 0);
    let span = end - start;
    if k < steps_of(start, end, step) {
        lemma_step_is_inside(start, end, step, k);
    } else {
        assert(k * step > span) by (nonlinear_arith)
            requires
                k >= span / step as int + 1,
                span >= 0,
                step > 0,
        ;
    }
}

/// Every point of a range stands at one of its steps, in the order of their times.
pub proof fn law_points_stand_at_steps(
    series: Seq<SeriesView>,
    e: ExprView,
    start: u64,
    end: u64,
    step: u64,
    n: nat,
    calc: Calc,
    read: Literals,
)
    requires
        step > 0,
        n <= steps_of(start, end, step),
    ensures
        match points_of(series, e, start, step, n, calc, read) {
            Err(_) => true,
            Ok(points) => {
                &&& forall|i: int|
                    0 <= i < points.len() ==> exists|k: int|
                        0 <= k < n && (#[trigger] points[i]).1.0 == #[trigger] step_time(
                            start,
                            step,
                            k,
                        )
                &&& forall|i: int, j: int|
                    0 <= i < j < points.len() ==> (#[trigger] points[i]).1.0 <= (
                    #[trigger] points[j]).1.0
            },
        },
    decreases n,
{
    if n > 0 && points_of(series, e, start, step, n, calc, read) is Ok {
        let rest = points_of(series, e, start, step, (n - 1) as nat, calc, read)->Ok_0;
        let points = points_of(series, e, start, step, n, calc, read)->Ok_0;
        let at = step_time(start, step, n - 1);
        law_points_stand_at_steps(series, e, start, end, step, (n - 1) as nat, calc, read);
        lemma_step_is_inside(start, end, step, n - 1);
        assert forall|i: int| 0 <= i < points.len() implies exists|k: int|
            0 <= k < n && (#[trigger] points[i]).1.0 == #[trigger] step_time(start, step, k) by {
            if i < rest.len() {
                assert(points[i] == rest[i]);
            } else {
                assert(points[i].1.0 == at);
            }
        }
        assert forall|i: int, j: int| 0 <= i < j < points.len() implies (#[trigger] points[i]).1.0
            <= (#[trigger] points[j]).1.0 by {
            if j < rest.len() {
                assert(points[i] == rest[i] && points[j] == rest[j]);
            } else {
                assert(points[j].1.0 == at);
                let k = choose|k: int|
                    0 <= k < n && points[i].1.0 == #[trigger] step_time(start, step, k);
                lemma_step_is_inside(start, end, step, k);
                assert(k * step <= (n - 1) * step) by (nonlinear_arith)
                    requires
                        k <= n - 1,
                        step > 0,
                ;
            }
        }
    }
}

proof fn lemma_step_is_inside(start: u64, end: u64, step: u64, k: int)
    requires
        step > 0,
        0 <= k < steps_of(start, end, step),
    ensures
        0 <= k * step,
        start + k * step <= end,
        step_time(start, step, k) == start + k * step,
        k <= u64::MAX,
{
    let span = end - start;
    assert(0 <= k * step <= span && k <= span) by (nonlinear_arith)
        requires
            0 <= k <= span / step as int,
            span >= 0,
            step > 0,
    ;
}

proof fn lemma_refused_points(
    series: Seq<SeriesView>,
    e: ExprView,
    start: u64,
    step: u64,
    k: nat,
    n: nat,
    calc: Calc,
    read: Literals,
)
    requires
        points_of(series, e, start, step, k, calc, read) is Err,
        k <= n,
    ensures
        points_of(series, e, start, step, n, calc, read) == points_of(
            series,
            e,
            start,
            step,
            k,
            calc,
            read,
        ),
    decreases n,
{
    if k < n {
        lemma_refused_points(series, e, start, step, k, (n - 1) as nat, calc, read);
    }
}

} // verus!
