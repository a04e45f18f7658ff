//! The LogQL subset.
//!
//! The query is parsed in full and then lowered to what can be run, so that a construct
//! outside the subset is refused by its name instead of as a syntax error.
//!
//! Supported: stream selectors, line filters (`|=`, `!=`, `|~`, `!~`), the `json` and
//! `logfmt` parsers, and label filters.
use regex::Regex;
use vstd::prelude::*;

use crate::error::{outcome, refused, Error, Failure, Fault};
use crate::json::{
    json_parsed, json_shape, json_to_text, json_written, members, open_json, parse_json, Node,
    Shape,
};
use crate::labels::{
    inserted, law_insert_keeps_order, sanitize_label_name, sanitized, sorted, Labels, Pair,
};
use crate::lexer::{
    lemma_run, run, run_end, tokenize, tokenized, Class, Lexeme, Spanned, SpannedView, TokenView,
};
use crate::matcher::{
    bad_pattern, bad_pattern_error, compile, found, regex_error, regex_found, regex_source,
    LabelMatcher, MatcherView,
};
use crate::parser::{
    follows, ident_at, matcher_at, matchers_from, string_at, token_of, unexpected, Cursor, Dialect,
    Parsed,
};
use crate::text::{
    chars_of, contains, lemma_views_push, occurs, option_view, piece, same, string_of, views,
};

verus! {

// ---------------------------------------------------------------------------
// Queries
// ---------------------------------------------------------------------------

/// What a line filter asks of a line.
#[derive(Debug, Clone, Copy, PartialEq, Eq, Structural)]
pub enum LineOp {
    Contains,
    NotContains,
    Matches,
    NotMatches,
}

/// Matchers combined with `and` and `or`, over what stands for a matcher.
#[derive(Debug)]
pub enum Predicate<M> {
    Match(M),
    And(Box<Predicate<M>>, Box<Predicate<M>>),
    Or(Box<Predicate<M>>, Box<Predicate<M>>),
}

/// A label filter stage: one or more matchers combined with `and` / `or`.
pub type LabelPredicate = Predicate<LabelMatcher>;

pub type PredicateView = Predicate<MatcherView>;

pub open spec fn predicate_view(p: Predicate<LabelMatcher>) -> PredicateView
    decreases p,
{
    match p {
        Predicate::Match(matcher) => Predicate::Match(matcher@),
        Predicate::And(left, right) => Predicate::And(
            Box::new(predicate_view(*left)),
            Box::new(predicate_view(*right)),
        ),
        Predicate::Or(left, right) => Predicate::Or(
            Box::new(predicate_view(*left)),
            Box::new(predicate_view(*right)),
        ),
    }
}

impl View for Predicate<LabelMatcher> {
    type V = Predicate<MatcherView>;

    open spec fn view(&self) -> Predicate<MatcherView> {
        predicate_view(*self)
    }
}

/// Whether labels satisfy a combination of matchers.
pub open spec fn holds(p: PredicateView, labels: Seq<Pair>) -> bool
    decreases p,
{
    match p {
        Predicate::Match(matcher) => matcher.matches(labels),
        Predicate::And(left, right) => holds(*left, labels) && holds(*right, labels),
        Predicate::Or(left, right) => holds(*left, labels) || holds(*right, labels),
    }
}

impl Predicate<LabelMatcher> {
    /// Whether `labels` satisfy the filter.
    pub fn matches(&self, labels: &Labels) -> (r: bool)
        ensures
            r == holds(self@, labels@),
        decreases self,
    {
        match self {
            Predicate::Match(matcher) => matcher.matches(labels),
            Predicate::And(left, right) => left.matches(labels) && right.matches(labels),
            Predicate::Or(left, right) => left.matches(labels) || right.matches(labels),
        }
    }
}

/// A line filter.
#[derive(Debug)]
pub struct LineFilter {
    pub op: LineOp,
    pub pattern: String,
    regex: Option<Regex>,
}

/// Whether a line passes a line filter. A pattern need not match the whole line.
pub open spec fn line_passes(op: LineOp, pattern: Seq<char>, line: Seq<char>) -> bool {
    match op {
        LineOp::Contains => occurs(line, pattern),
        LineOp::NotContains => !occurs(line, pattern),
        LineOp::Matches => regex_found(pattern, line),
        LineOp::NotMatches => !regex_found(pattern, line),
    }
}

/// A stage of the pipeline.
#[derive(Debug)]
pub enum Stage {
    Line(LineFilter),
    /// Parse the line as JSON and merge its fields into the label set.
    Json,
    /// Parse the line as logfmt and merge its fields into the label set.
    Logfmt,
    Label(LabelPredicate),
}

pub enum StageView {
    Line(LineOp, Seq<char>),
    Json,
    Logfmt,
    Label(PredicateView),
}

impl View for LineFilter {
    type V = (LineOp, Seq<char>);

    closed spec fn view(&self) -> (LineOp, Seq<char>) {
        (self.op, self.pattern@)
    }
}

impl View for Stage {
    type V = StageView;

    open spec fn view(&self) -> StageView {
        match self {
            Stage::Line(filter) => StageView::Line(filter@.0, filter@.1),
            Stage::Json => StageView::Json,
            Stage::Logfmt => StageView::Logfmt,
            Stage::Label(predicate) => StageView::Label(predicate@),
        }
    }
}

/// A parsed and lowered log query.
#[derive(Debug)]
pub struct LogQuery {
    /// The stream selector. Never empty: an unselective query would scan everything.
    pub matchers: Vec<LabelMatcher>,
    pub stages: Vec<Stage>,
}

pub struct LogQueryView {
    pub matchers: Seq<MatcherView>,
    pub stages: Seq<StageView>,
}

impl View for LogQuery {
    type V = LogQueryView;

    open spec fn view(&self) -> LogQueryView {
        LogQueryView { matchers: views(self.matchers@), stages: views(self.stages@) }
    }
}

// ---------------------------------------------------------------------------
// Grammar
// ---------------------------------------------------------------------------

pub open spec fn is_range_function(name: Seq<char>) -> bool {
    name == "rate"@ || name == "count_over_time"@ || name == "bytes_rate"@ || name
        == "bytes_over_time"@ || name == "sum_over_time"@ || name == "avg_over_time"@ || name
        == "max_over_time"@ || name == "min_over_time"@ || name == "quantile_over_time"@ || name
        == "stdvar_over_time"@ || name == "stddev_over_time"@ || name == "first_over_time"@ || name
        == "last_over_time"@ || name == "absent_over_time"@
}

pub open spec fn is_aggregation(name: Seq<char>) -> bool {
    name == "sum"@ || name == "avg"@ || name == "min"@ || name == "max"@ || name == "count"@ || name
        == "topk"@ || name == "bottomk"@ || name == "stddev"@ || name == "stdvar"@
}

/// What to do instead of a metric query that starts with `name`.
pub open spec fn metric_hint(name: Seq<char>) -> Option<Seq<char>> {
    if is_range_function(name) {
        Some(
            "aggregate the results client-side, or use the Prometheus API for pre-aggregated metrics"@,
        )
    } else if is_aggregation(name) {
        Some(
            "aggregations over log streams are not available; select the streams and aggregate client-side"@,
        )
    } else {
        None
    }
}

/// The refusal of a metric query, which starts with a function or an aggregation.
pub open spec fn metric_query(tokens: Seq<SpannedView>) -> Option<Fault> {
    match token_of(tokens, 0) {
        Some(Lexeme::Ident(name)) => match metric_hint(name) {
            Some(hint) => Some(
                Failure::Unsupported {
                    feature: "LogQL metric query `"@ + name + "`"@,
                    hint: Some(hint),
                },
            ),
            None => None,
        },
        _ => None,
    }
}

/// The stream selector at a position.
pub open spec fn selector_at(input: Seq<char>, tokens: Seq<SpannedView>, at: int) -> Parsed<
    Seq<MatcherView>,
> {
    if token_of(tokens, at) != Some(TokenView::LeftBrace) {
        Err(unexpected(input, tokens, at, "a stream selector, e.g. {app=\"checkout\"}"@))
    } else if token_of(tokens, at + 1) == Some(TokenView::RightBrace) {
        Err(
            refused(
                "the stream selector {} matches every stream; add at least one matcher so the query does not scan the whole store"@,
            ),
        )
    } else {
        match matchers_from(Dialect::Log, input, tokens, at + 1, Seq::empty()) {
            Err(fault) => Err(fault),
            Ok((matchers, end)) => if any_selective(matchers) {
                Ok((matchers, end))
            } else {
                Err(
                    refused(
                        "the stream selector needs at least one matcher that requires a value; a selector built only from negative or match-everything matchers would scan the whole store"@,
                    ),
                )
            },
        }
    }
}

pub open spec fn any_selective(matchers: Seq<MatcherView>) -> bool {
    exists|i: int| 0 <= i < matchers.len() && #[trigger] matchers[i].selective()
}

/// A line filter whose operator stands at a position.
pub open spec fn line_filter_at(
    input: Seq<char>,
    tokens: Seq<SpannedView>,
    at: int,
    op: LineOp,
) -> Parsed<StageView> {
    match string_at(input, tokens, at + 1, "a quoted pattern after a line filter"@) {
        Err(fault) => Err(fault),
        Ok(pattern) => match filter_of(op, pattern) {
            Err(fault) => Err(fault),
            Ok((op, pattern)) => Ok((StageView::Line(op, pattern), at + 2)),
        },
    }
}

/// The line filter that an operator and a pattern make, or why they make none.
pub open spec fn filter_of(op: LineOp, pattern: Seq<char>) -> Result<(LineOp, Seq<char>), Fault> {
    if op == LineOp::Matches || op == LineOp::NotMatches {
        match regex_error(pattern) {
            Some(error) => Err(bad_pattern(pattern, error)),
            None => Ok((op, pattern)),
        }
    } else {
        Ok((op, pattern))
    }
}

/// A stage at a position.
pub open spec fn stage_at(input: Seq<char>, tokens: Seq<SpannedView>, at: int) -> Parsed<
    StageView,
> {
    match token_of(tokens, at) {
        Some(Lexeme::LineContains) => line_filter_at(input, tokens, at, LineOp::Contains),
        Some(Lexeme::LineRegex) => line_filter_at(input, tokens, at, LineOp::Matches),
        Some(Lexeme::NotEqual) => line_filter_at(input, tokens, at, LineOp::NotContains),
        Some(Lexeme::RegexNotMatch) => line_filter_at(input, tokens, at, LineOp::NotMatches),
        Some(Lexeme::Pipe) => pipe_stage_at(input, tokens, at + 1),
        Some(_) => Err(
            unexpected(input, tokens, at, "a line filter (`|=`, `!=`, `|~`, `!~`) or `|`"@),
        ),
        None => Err(unexpected(input, tokens, at, "a pipeline stage"@)),
    }
}

/// The refusal of a pipeline stage that is LogQL and is not run, by its name.
pub open spec fn unsupported_stage(name: Seq<char>) -> Option<Fault> {
    if name == "line_format"@ || name == "label_format"@ {
        Some(
            Failure::Unsupported {
                feature: "LogQL `| "@ + name + "`"@,
                hint: Some("formatting is not applied server-side; render the line client-side"@),
            },
        )
    } else if name == "unwrap"@ {
        Some(
            Failure::Unsupported {
                feature: "LogQL `| unwrap`"@,
                hint: Some(
                    "unwrap only feeds metric queries, which telemetryd does not run over logs"@,
                ),
            },
        )
    } else if name == "pattern"@ || name == "regexp"@ {
        Some(
            Failure::Unsupported {
                feature: "LogQL `| "@ + name + "` parser"@,
                hint: Some("use `| json` or `| logfmt`, or filter the line with `|~`"@),
            },
        )
    } else if name == "drop"@ || name == "keep"@ {
        Some(
            Failure::Unsupported {
                feature: "LogQL `| "@ + name + "`"@,
                hint: Some("select the labels you want client-side"@),
            },
        )
    } else if name == "decolorize"@ || name == "distinct"@ || name == "ip"@ {
        Some(Failure::Unsupported { feature: "LogQL `| "@ + name + "`"@, hint: None })
    } else {
        None
    }
}

/// What follows a `|`.
pub open spec fn pipe_stage_at(input: Seq<char>, tokens: Seq<SpannedView>, at: int) -> Parsed<
    StageView,
> {
    match ident_at(input, tokens, at, "a parser or label filter after `|`"@) {
        Err(fault) => Err(fault),
        Ok(name) => if name == "json"@ {
            match token_of(tokens, at + 1) {
                Some(Lexeme::Ident(_)) => Err(
                    Failure::Unsupported {
                        feature: "LogQL `json` with explicit field expressions"@,
                        hint: Some("use bare `| json`, then filter with a label filter"@),
                    },
                ),
                _ => Ok((StageView::Json, at + 1)),
            }
        } else if name == "logfmt"@ {
            Ok((StageView::Logfmt, at + 1))
        } else if unsupported_stage(name) is Some {
            Err(unsupported_stage(name)->Some_0)
        } else {
            match filter_matcher_at(input, tokens, at + 1, name) {
                Err(fault) => Err(fault),
                Ok((first, next)) => match alternatives_from(input, tokens, next, first) {
                    Err(fault) => Err(fault),
                    Ok((predicate, end)) => Ok((StageView::Label(predicate), end)),
                },
            }
        },
    }
}

/// One matcher of a label filter, whose operator stands at a position.
pub open spec fn filter_matcher_at(
    input: Seq<char>,
    tokens: Seq<SpannedView>,
    at: int,
    name: Seq<char>,
) -> Parsed<PredicateView> {
    match matcher_at(Dialect::Log, input, tokens, at, name, "a quoted value in a label filter"@) {
        Err(fault) => Err(fault),
        Ok((matcher, end)) => Ok((Predicate::Match(matcher), end)),
    }
}

/// `and` and what follows it, as long as there is an `and`.
pub open spec fn conjuncts_from(
    input: Seq<char>,
    tokens: Seq<SpannedView>,
    at: int,
    left: PredicateView,
) -> Parsed<PredicateView>
    decreases tokens.len() - at,
{
    if token_of(tokens, at) != Some(TokenView::Ident("and"@)) {
        Ok((left, at))
    } else {
        match ident_at(input, tokens, at + 1, "a label name after `and`"@) {
            Err(fault) => Err(fault),
            Ok(name) => match filter_matcher_at(input, tokens, at + 2, name) {
                Err(fault) => Err(fault),
                Ok((right, _)) => conjuncts_from(
                    input,
                    tokens,
                    at + 4,
                    Predicate::And(Box::new(left), Box::new(right)),
                ),
            },
        }
    }
}

/// `or` and what follows it, as long as there is an `or`. `and` binds tighter, so the
/// first matcher takes its `and`s first, and so does each one behind an `or`.
pub open spec fn alternatives_from(
    input: Seq<char>,
    tokens: Seq<SpannedView>,
    at: int,
    first: PredicateView,
) -> Parsed<PredicateView> {
    match conjuncts_from(input, tokens, at, first) {
        Err(fault) => Err(fault),
        Ok((left, next)) => disjuncts_from(input, tokens, next, left),
    }
}

pub open spec fn disjuncts_from(
    input: Seq<char>,
    tokens: Seq<SpannedView>,
    at: int,
    left: PredicateView,
) -> Parsed<PredicateView>
    decreases tokens.len() - at via disjuncts_from_decreases
{
    if token_of(tokens, at) != Some(TokenView::Ident("or"@)) {
        Ok((left, at))
    } else {
        match ident_at(input, tokens, at + 1, "a label name after `or`"@) {
            Err(fault) => Err(fault),
            Ok(name) => match filter_matcher_at(input, tokens, at + 2, name) {
                Err(fault) => Err(fault),
                Ok((matcher, _)) => match conjuncts_from(input, tokens, at + 4, matcher) {
                    Err(fault) => Err(fault),
                    Ok((right, next)) => disjuncts_from(
                        input,
                        tokens,
                        next,
                        Predicate::Or(Box::new(left), Box::new(right)),
                    ),
                },
            },
        }
    }
}

#[via_fn]
proof fn disjuncts_from_decreases(
    input: Seq<char>,
    tokens: Seq<SpannedView>,
    at: int,
    left: PredicateView,
) {
    match ident_at(input, tokens, at + 1, "a label name after `or`"@) {
        Err(_) => {},
        Ok(name) => {
            match filter_matcher_at(input, tokens, at + 2, name) {
                Err(_) => {},
                Ok((matcher, _)) => {
                    lemma_conjuncts_from(input, tokens, at + 4, matcher);
                },
            }
        },
    }
}

proof fn lemma_conjuncts_from(
    input: Seq<char>,
    tokens: Seq<SpannedView>,
    at: int,
    left: PredicateView,
)
    requires
        at <= tokens.len(),
    ensures
        match conjuncts_from(input, tokens, at, left) {
            Ok((_, end)) => at <= end <= tokens.len(),
            Err(fault) => !(fault is LimitExceeded),
        },
    decreases tokens.len() - at,
{
    if token_of(tokens, at) == Some(TokenView::Ident("and"@)) {
        match ident_at(input, tokens, at + 1, "a label name after `and`"@) {
            Err(_) => {},
            Ok(name) => {
                match filter_matcher_at(input, tokens, at + 2, name) {
                    Err(_) => {},
                    Ok((right, _)) => {
                        lemma_conjuncts_from(
                            input,
                            tokens,
                            at + 4,
                            Predicate::And(Box::new(left), Box::new(right)),
                        );
                    },
                }
            },
        }
    }
}

proof fn lemma_disjuncts_from(
    input: Seq<char>,
    tokens: Seq<SpannedView>,
    at: int,
    left: PredicateView,
)
    requires
        at <= tokens.len(),
    ensures
        match disjuncts_from(input, tokens, at, left) {
            Ok((_, end)) => at <= end <= tokens.len(),
            Err(fault) => !(fault is LimitExceeded),
        },
    decreases tokens.len() - at,
{
    if token_of(tokens, at) == Some(TokenView::Ident("or"@)) {
        match ident_at(input, tokens, at + 1, "a label name after `or`"@) {
            Err(_) => {},
            Ok(name) => {
                match filter_matcher_at(input, tokens, at + 2, name) {
                    Err(_) => {},
                    Ok((matcher, _)) => {
                        lemma_conjuncts_from(input, tokens, at + 4, matcher);
                        match conjuncts_from(input, tokens, at + 4, matcher) {
                            Err(_) => {},
                            Ok((right, next)) => {
                                lemma_disjuncts_from(
                                    input,
                                    tokens,
                                    next,
                                    Predicate::Or(Box::new(left), Box::new(right)),
                                );
                            },
                        }
                    },
                }
            },
        }
    }
}

/// A stage ends behind where it starts, and is never refused as going past a limit.
proof fn lemma_stage_at(input: Seq<char>, tokens: Seq<SpannedView>, at: int)
    requires
        0 <= at,
    ensures
        match stage_at(input, tokens, at) {
            Ok((_, end)) => at < end <= tokens.len(),
            Err(fault) => !(fault is LimitExceeded),
        },
{
    if token_of(tokens, at) == Some(TokenView::Pipe) {
        match ident_at(input, tokens, at + 1, "a parser or label filter after `|`"@) {
            Err(_) => {},
            Ok(name) => {
                match filter_matcher_at(input, tokens, at + 2, name) {
                    Err(_) => {},
                    Ok((first, next)) => {
                        lemma_conjuncts_from(input, tokens, next, first);
                        match conjuncts_from(input, tokens, next, first) {
                            Err(_) => {},
                            Ok((left, then_at)) => {
                                lemma_disjuncts_from(input, tokens, then_at, left);
                            },
                        }
                    },
                }
            },
        }
    }
}

/// The stages from a position to the end, behind those already read.
pub open spec fn stages_from(
    input: Seq<char>,
    tokens: Seq<SpannedView>,
    at: int,
    out: Seq<StageView>,
) -> Result<Seq<StageView>, Fault>
    decreases tokens.len() - at via stages_from_decreases
{
    if at < 0 || at >= tokens.len() {
        Ok(out)
    } else {
        match stage_at(input, tokens, at) {
            Err(fault) => Err(fault),
            Ok((stage, next)) => stages_from(input, tokens, next, out.push(stage)),
        }
    }
}

#[via_fn]
proof fn stages_from_decreases(
    input: Seq<char>,
    tokens: Seq<SpannedView>,
    at: int,
    out: Seq<StageView>,
) {
    if 0 <= at {
        lemma_stage_at(input, tokens, at);
    }
}

/// A log query made of tokens.
pub open spec fn query_of(input: Seq<char>, tokens: Seq<SpannedView>) -> Result<LogQueryView, Fault> {
    match metric_query(tokens) {
        Some(fault) => Err(fault),
        None => match selector_at(input, tokens, 0) {
            Err(fault) => Err(fault),
            Ok((matchers, next)) => match stages_from(input, tokens, next, Seq::empty()) {
                Err(fault) => Err(fault),
                Ok(stages) => Ok(LogQueryView { matchers, stages }),
            },
        },
    }
}

/// The log query that a text writes, or why it writes none.
pub open spec fn log_query(input: Seq<char>) -> Result<LogQueryView, Fault> {
    match tokenized(input) {
        Err(fault) => Err(fault),
        Ok(tokens) => if tokens.len() == 0 {
            Err(refused("empty LogQL query"@))
        } else {
            query_of(input, tokens)
        },
    }
}

// ---------------------------------------------------------------------------
// Parser
// ---------------------------------------------------------------------------

impl LineFilter {
    #[verifier::type_invariant]
    spec fn compiled(self) -> bool {
        match self.op {
            LineOp::Matches | LineOp::NotMatches => self.regex is Some && regex_source(
                &self.regex->Some_0,
            ) == self.pattern@,
            _ => true,
        }
    }

    fn new(op: LineOp, pattern: String) -> (r: Result<LineFilter, Error>)
        ensures
            outcome(r) == filter_of(op, pattern@),
    {
        match op {
            LineOp::Matches | LineOp::NotMatches => match compile(pattern.as_str()) {
                Ok(regex) => Ok(LineFilter { op, pattern, regex: Some(regex) }),
                Err(error) => Err(bad_pattern_error(pattern.as_str(), error.as_str())),
            },
            _ => Ok(LineFilter { op, pattern, regex: None }),
        }
    }

    /// Whether a line passes the filter.
    pub fn matches(&self, line: &str) -> (r: bool)
        ensures
            r == line_passes(self@.0, self@.1, line@),
    {
        proof {
            use_type_invariant(self);
        }
        match self.op {
            LineOp::Contains => contains(line, self.pattern.as_str()),
            LineOp::NotContains => !contains(line, self.pattern.as_str()),
            LineOp::Matches => match &self.regex {
                Some(regex) => found(regex, line),
                None => false,
            },
            LineOp::NotMatches => match &self.regex {
                Some(regex) => !found(regex, line),
                None => true,
            },
        }
    }
}

/// Parses a LogQL log-selector query.
pub fn parse(input: &str) -> (r: Result<LogQuery, Error>)
    ensures
        outcome(r) == log_query(input@),
{
    let tokens: Vec<Spanned> = match tokenize(input) {
        Ok(tokens) => tokens,
        Err(error) => {
            return Err(error);
        },
    };
    if tokens.len() == 0 {
        return Err(Failure::BadRequest("empty LogQL query".to_owned()));
    }
    let mut cursor: Cursor = Cursor { input, tokens: &tokens, pos: 0 };
    parse_log_query(&mut cursor)
}

fn parse_log_query(cursor: &mut Cursor) -> (r: Result<LogQuery, Error>)
    requires
        old(cursor).pos == 0,
    ensures
        outcome(r) == query_of(old(cursor).input@, old(cursor).ts()),
{
    match reject_metric_query(cursor) {
        Some(error) => {
            return Err(error);
        },
        None => {},
    }
    let matchers: Vec<LabelMatcher> = match parse_selector(cursor) {
        Ok(matchers) => matchers,
        Err(error) => {
            return Err(error);
        },
    };
    let ghost input = cursor.input@;
    let ghost tokens = cursor.ts();
    let ghost goal = stages_from(input, tokens, cursor.pos as int, Seq::empty());
    let mut stages: Vec<Stage> = Vec::new();
    assert(views(stages@) =~= Seq::empty());
    while cursor.pos < cursor.tokens.len()
        invariant
            cursor.same_text(*old(cursor)),
            input == cursor.input@,
            tokens == cursor.ts(),
            query_of(input, tokens) == (match goal {
                Err(fault) => Err::<LogQueryView, Fault>(fault),
                Ok(stages) => Ok(LogQueryView { matchers: views(matchers@), stages }),
            }),
            goal == stages_from(input, tokens, cursor.pos as int, views(stages@)),
        decreases tokens.len() - cursor.pos,
    {
        proof {
            lemma_stage_at(input, tokens, cursor.pos as int);
        }
        match parse_stage(cursor) {
            Ok(stage) => {
                proof {
                    lemma_views_push(stages@, stage);
                }
                stages.push(stage);
            },
            Err(error) => {
                return Err(error);
            },
        }
    }
    Ok(LogQuery { matchers, stages })
}

/// The refusal of a metric query, which starts with a function or an aggregation.
fn reject_metric_query(cursor: &Cursor) -> (r: Option<Error>)
    ensures
        option_view(r) == metric_query(cursor.ts()),
{
    let name: &str = match cursor.peek_at(0) {
        Some(Lexeme::Ident(name)) => name.as_str(),
        _ => {
            return None;
        },
    };
    let range: bool = same(name, "rate") || same(name, "count_over_time") || same(
        name,
        "bytes_rate",
    ) || same(name, "bytes_over_time") || same(name, "sum_over_time") || same(name, "avg_over_time")
        || same(name, "max_over_time") || same(name, "min_over_time") || same(
        name,
        "quantile_over_time",
    ) || same(name, "stdvar_over_time") || same(name, "stddev_over_time") || same(
        name,
        "first_over_time",
    ) || same(name, "last_over_time") || same(name, "absent_over_time");
    let aggregation: bool = same(name, "sum") || same(name, "avg") || same(name, "min") || same(
        name,
        "max",
    ) || same(name, "count") || same(name, "topk") || same(name, "bottomk") || same(name, "stddev")
        || same(name, "stdvar");
    let hint: &str = if range {
        "aggregate the results client-side, or use the Prometheus API for pre-aggregated metrics"
    } else if aggregation {
        "aggregations over log streams are not available; select the streams and aggregate client-side"
    } else {
        return None;
    };
    let mut feature: String = "LogQL metric query `".to_owned();
    feature.append(name);
    feature.append("`");
    Some(Error::unsupported_with_hint(feature, hint))
}

fn has_selective(matchers: &Vec<LabelMatcher>) -> (r: bool)
    ensures
        r == any_selective(views(matchers@)),
{
    let mut i: usize = 0;
    while i < matchers.len()
        invariant
            i <= matchers@.len(),
            forall|j: int| 0 <= j < i ==> !(#[trigger] views(matchers@)[j].selective()),
        decreases matchers@.len() - i,
    {
        assert(views(matchers@)[i as int] == matchers@[i as int]@);
        if matchers[i].is_selective() {
            return true;
        }
        i += 1;
    }
    false
}

fn parse_selector(cursor: &mut Cursor) -> (r: Result<Vec<LabelMatcher>, Error>)
    ensures
        crate::parser::follows_all(
            *old(cursor),
            *final(cursor),
            r,
            selector_at(old(cursor).input@, old(cursor).ts(), old(cursor).pos as int),
        ),
{
    match cursor.peek() {
        Some(Lexeme::LeftBrace) => {
            cursor.pos = cursor.pos + 1;
        },
        _ => {
            return Err(cursor.unexpected("a stream selector, e.g. {app=\"checkout\"}"));
        },
    }
    match cursor.peek() {
        Some(Lexeme::RightBrace) => {
            return Err(
                Failure::BadRequest(
                    "the stream selector {} matches every stream; add at least one matcher so the query does not scan the whole store".to_owned(),
                ),
            );
        },
        _ => {},
    }
    let matchers: Vec<LabelMatcher> = match cursor.matchers(Dialect::Log) {
        Ok(matchers) => matchers,
        Err(error) => {
            return Err(error);
        },
    };
    if !has_selective(&matchers) {
        return Err(
            Failure::BadRequest(
                "the stream selector needs at least one matcher that requires a value; a selector built only from negative or match-everything matchers would scan the whole store".to_owned(),
            ),
        );
    }
    Ok(matchers)
}

fn parse_stage(cursor: &mut Cursor) -> (r: Result<Stage, Error>)
    ensures
        follows(
            *old(cursor),
            *final(cursor),
            r,
            stage_at(old(cursor).input@, old(cursor).ts(), old(cursor).pos as int),
        ),
{
    match cursor.peek() {
        Some(Lexeme::LineContains) => line_filter(cursor, LineOp::Contains),
        Some(Lexeme::LineRegex) => line_filter(cursor, LineOp::Matches),
        Some(Lexeme::NotEqual) => line_filter(cursor, LineOp::NotContains),
        Some(Lexeme::RegexNotMatch) => line_filter(cursor, LineOp::NotMatches),
        Some(Lexeme::Pipe) => {
            cursor.pos = cursor.pos + 1;
            parse_pipe_stage(cursor)
        },
        Some(_) => Err(cursor.unexpected("a line filter (`|=`, `!=`, `|~`, `!~`) or `|`")),
        None => Err(cursor.unexpected("a pipeline stage")),
    }
}

fn line_filter(cursor: &mut Cursor, op: LineOp) -> (r: Result<Stage, Error>)
    requires
        old(cursor).pos < old(cursor).tokens@.len() <= usize::MAX,
    ensures
        follows(
            *old(cursor),
            *final(cursor),
            r,
            line_filter_at(old(cursor).input@, old(cursor).ts(), old(cursor).pos as int, op),
        ),
{
    cursor.pos = cursor.pos + 1;
    match cursor.expect_string("a quoted pattern after a line filter") {
        Ok(pattern) => match LineFilter::new(op, pattern) {
            Ok(filter) => Ok(Stage::Line(filter)),
            Err(error) => Err(error),
        },
        Err(error) => Err(error),
    }
}

fn reject_stage(name: &str) -> (r: Option<Error>)
    ensures
        option_view(r) == unsupported_stage(name@),
{
    let mut feature: String = "LogQL `| ".to_owned();
    feature.append(name);
    if same(name, "line_format") || same(name, "label_format") {
        feature.append("`");
        Some(
            Error::unsupported_with_hint(
                feature,
                "formatting is not applied server-side; render the line client-side",
            ),
        )
    } else if same(name, "unwrap") {
        Some(
            Error::unsupported_with_hint(
                "LogQL `| unwrap`".to_owned(),
                "unwrap only feeds metric queries, which telemetryd does not run over logs",
            ),
        )
    } else if same(name, "pattern") || same(name, "regexp") {
        feature.append("` parser");
        Some(
            Error::unsupported_with_hint(
                feature,
                "use `| json` or `| logfmt`, or filter the line with `|~`",
            ),
        )
    } else if same(name, "drop") || same(name, "keep") {
        feature.append("`");
        Some(Error::unsupported_with_hint(feature, "select the labels you want client-side"))
    } else if same(name, "decolorize") || same(name, "distinct") || same(name, "ip") {
        feature.append("`");
        Some(Error::unsupported(feature))
    } else {
        None
    }
}

fn parse_pipe_stage(cursor: &mut Cursor) -> (r: Result<Stage, Error>)
    ensures
        follows(
            *old(cursor),
            *final(cursor),
            r,
            pipe_stage_at(old(cursor).input@, old(cursor).ts(), old(cursor).pos as int),
        ),
{
    let name: String = match cursor.expect_ident("a parser or label filter after `|`") {
        Ok(name) => name,
        Err(error) => {
            return Err(error);
        },
    };
    if same(name.as_str(), "json") {
        return match cursor.peek() {
            Some(Lexeme::Ident(_)) => Err(
                Error::unsupported_with_hint(
                    "LogQL `json` with explicit field expressions".to_owned(),
                    "use bare `| json`, then filter with a label filter",
                ),
            ),
            _ => Ok(Stage::Json),
        };
    }
    if same(name.as_str(), "logfmt") {
        return Ok(Stage::Logfmt);
    }
    match reject_stage(name.as_str()) {
        Some(error) => {
            return Err(error);
        },
        None => {},
    }
    let first: LabelPredicate = match label_matcher(cursor, name) {
        Ok(first) => first,
        Err(error) => {
            return Err(error);
        },
    };
    match label_predicate_tail(cursor, first) {
        Ok(predicate) => Ok(Stage::Label(predicate)),
        Err(error) => Err(error),
    }
}

/// Reads the operator and the value of one matcher, for a name already read.
fn label_matcher(cursor: &mut Cursor, name: String) -> (r: Result<LabelPredicate, Error>)
    ensures
        follows(
            *old(cursor),
            *final(cursor),
            r,
            filter_matcher_at(
                old(cursor).input@,
                old(cursor).ts(),
                old(cursor).pos as int,
                name@,
            ),
        ),
        r is Ok ==> old(cursor).pos + 2 <= old(cursor).tokens@.len(),
{
    match cursor.matcher(Dialect::Log, name, "a quoted value in a label filter") {
        Ok(matcher) => Ok(Predicate::Match(matcher)),
        Err(error) => Err(error),
    }
}

/// Extends a matcher with any `and` / `or` behind it.
fn label_predicate_tail(cursor: &mut Cursor, first: LabelPredicate) -> (r: Result<
    LabelPredicate,
    Error,
>)
    ensures
        follows(
            *old(cursor),
            *final(cursor),
            r,
            alternatives_from(
                old(cursor).input@,
                old(cursor).ts(),
                old(cursor).pos as int,
                first@,
            ),
        ),
{
    let ghost input = cursor.input@;
    let ghost tokens = cursor.ts();
    let ghost goal = alternatives_from(input, tokens, cursor.pos as int, first@);
    let mut left: LabelPredicate = match label_predicate_and(cursor, first) {
        Ok(left) => left,
        Err(error) => {
            return Err(error);
        },
    };
    while cursor.at_word("or")
        invariant
            cursor.same_text(*old(cursor)),
            input == cursor.input@,
            tokens == cursor.ts(),
            goal == alternatives_from(input, tokens, old(cursor).pos as int, first@),
            goal == disjuncts_from(input, tokens, cursor.pos as int, left@),
        decreases tokens.len() - cursor.pos,
    {
        let ghost at = cursor.pos as int;
        cursor.pos = cursor.pos + 1;
        let name: String = match cursor.expect_ident("a label name after `or`") {
            Ok(name) => name,
            Err(error) => {
                return Err(error);
            },
        };
        let next: LabelPredicate = match label_matcher(cursor, name) {
            Ok(next) => next,
            Err(error) => {
                return Err(error);
            },
        };
        proof {
            lemma_conjuncts_from(input, tokens, cursor.pos as int, next@);
        }
        let right: LabelPredicate = match label_predicate_and(cursor, next) {
            Ok(right) => right,
            Err(error) => {
                return Err(error);
            },
        };
        left = Predicate::Or(Box::new(left), Box::new(right));
    }
    Ok(left)
}

fn label_predicate_and(cursor: &mut Cursor, first: LabelPredicate) -> (r: Result<
    LabelPredicate,
    Error,
>)
    ensures
        follows(
            *old(cursor),
            *final(cursor),
            r,
            conjuncts_from(
                old(cursor).input@,
                old(cursor).ts(),
                old(cursor).pos as int,
                first@,
            ),
        ),
{
    let ghost input = cursor.input@;
    let ghost tokens = cursor.ts();
    let ghost goal = conjuncts_from(input, tokens, cursor.pos as int, first@);
    let mut left: LabelPredicate = first;
    while cursor.at_word("and")
        invariant
            cursor.same_text(*old(cursor)),
            input == cursor.input@,
            tokens == cursor.ts(),
            goal == conjuncts_from(input, tokens, old(cursor).pos as int, first@),
            goal == conjuncts_from(input, tokens, cursor.pos as int, left@),
        decreases tokens.len() - cursor.pos,
    {
        cursor.pos = cursor.pos + 1;
        let name: String = match cursor.expect_ident("a label name after `and`") {
            Ok(name) => name,
            Err(error) => {
                return Err(error);
            },
        };
        let right: LabelPredicate = match label_matcher(cursor, name) {
            Ok(right) => right,
            Err(error) => {
                return Err(error);
            },
        };
        left = Predicate::And(Box::new(left), Box::new(right));
    }
    Ok(left)
}

// ---------------------------------------------------------------------------
// Evaluation
// ---------------------------------------------------------------------------

/// Whether a line passes the stages, label filters seeing `labels` and what parser
/// stages added.
pub open spec fn passes(stages: Seq<StageView>, line: Seq<char>, labels: Seq<Pair>) -> bool
    decreases stages.len(),
{
    if stages.len() == 0 {
        true
    } else {
        let rest = stages.drop_first();
        match stages[0] {
            StageView::Line(op, pattern) => line_passes(op, pattern, line) && passes(
                rest,
                line,
                labels,
            ),
            StageView::Json => passes(rest, line, json_merged(labels, line)),
            StageView::Logfmt => passes(rest, line, logfmt_merged(labels, line)),
            StageView::Label(predicate) => holds(predicate, labels) && passes(rest, line, labels),
        }
    }
}

/// The labels with what the parser stages take out of a line.
pub open spec fn extracts(stages: Seq<StageView>, line: Seq<char>, labels: Seq<Pair>) -> Seq<Pair>
    decreases stages.len(),
{
    if stages.len() == 0 {
        labels
    } else {
        let rest = stages.drop_first();
        match stages[0] {
            StageView::Json => extracts(rest, line, json_merged(labels, line)),
            StageView::Logfmt => extracts(rest, line, logfmt_merged(labels, line)),
            _ => extracts(rest, line, labels),
        }
    }
}

/// The first text that a positive `|=` asks for.
pub open spec fn first_required(stages: Seq<StageView>) -> Option<Seq<char>>
    decreases stages.len(),
{
    if stages.len() == 0 {
        None
    } else {
        match stages[0] {
            StageView::Line(LineOp::Contains, pattern) => Some(pattern),
            _ => first_required(stages.drop_first()),
        }
    }
}

pub open spec fn is_filter(stage: StageView) -> bool {
    stage is Line || stage is Label
}

pub open spec fn is_parser(stage: StageView) -> bool {
    stage is Json || stage is Logfmt
}

impl LogQuery {
    /// A text that every line the query returns contains, if the pipeline states one.
    ///
    /// Only a positive `|=` qualifies: `!=` and `!~` are satisfied by lines without the
    /// pattern, and the text of a `|~` pattern need not stand in the lines it matches.
    pub fn required_substring(&self) -> (r: Option<&str>)
        ensures
            first_required(self@.stages) == (match r {
                Some(text) => Some(text@),
                None => None,
            }),
    {
        let ghost all = self@.stages;
        let mut i: usize = 0;
        assert(all.skip(0) =~= all);
        while i < self.stages.len()
            invariant
                i <= self.stages@.len(),
                all == self@.stages,
                first_required(all) == first_required(all.skip(i as int)),
            decreases self.stages@.len() - i,
        {
            assert(all.skip(i as int)[0] == self.stages@[i as int]@);
            assert(all.skip(i as int).drop_first() =~= all.skip(i as int + 1));
            match &self.stages[i] {
                Stage::Line(filter) => {
                    if filter.op == LineOp::Contains {
                        return Some(filter.pattern.as_str());
                    }
                },
                _ => {},
            }
            i += 1;
        }
        None
    }

    /// What the parser stages pull out of a line; nothing for a query without one.
    pub fn extracted(&self, line: &str) -> (labels: Labels)
        ensures
            labels@ == extracts(self@.stages, line@, Seq::empty()),
    {
        let ghost all = self@.stages;
        let mut labels: Labels = Labels::new();
        let mut i: usize = 0;
        assert(all.skip(0) =~= all);
        while i < self.stages.len()
            invariant
                i <= self.stages@.len(),
                all == self@.stages,
                extracts(all, line@, Seq::empty()) == extracts(
                    all.skip(i as int),
                    line@,
                    labels@,
                ),
            decreases self.stages@.len() - i,
        {
            assert(all.skip(i as int)[0] == self.stages@[i as int]@);
            assert(all.skip(i as int).drop_first() =~= all.skip(i as int + 1));
            match &self.stages[i] {
                Stage::Json => merge_json(&mut labels, line),
                Stage::Logfmt => merge_logfmt(&mut labels, line),
                _ => {},
            }
            i += 1;
        }
        labels
    }

    /// Whether the query parses the line at all.
    pub fn has_parser_stage(&self) -> (r: bool)
        ensures
            r == exists|i: int| 0 <= i < self@.stages.len() && is_parser(#[trigger] self@.stages[i]),
    {
        let mut i: usize = 0;
        while i < self.stages.len()
            invariant
                i <= self.stages@.len(),
                forall|j: int| 0 <= j < i ==> !is_parser(#[trigger] self@.stages[j]),
            decreases self.stages@.len() - i,
        {
            assert(self@.stages[i as int] == self.stages@[i as int]@);
            match &self.stages[i] {
                Stage::Json | Stage::Logfmt => {
                    return true;
                },
                _ => {},
            }
            i += 1;
        }
        false
    }

    /// Whether any stage can reject a line.
    pub fn has_filters(&self) -> (r: bool)
        ensures
            r == exists|i: int| 0 <= i < self@.stages.len() && is_filter(#[trigger] self@.stages[i]),
    {
        let mut i: usize = 0;
        while i < self.stages.len()
            invariant
                i <= self.stages@.len(),
                forall|j: int| 0 <= j < i ==> !is_filter(#[trigger] self@.stages[j]),
            decreases self.stages@.len() - i,
        {
            assert(self@.stages[i as int] == self.stages@[i as int]@);
            match &self.stages[i] {
                Stage::Line(_) | Stage::Label(_) => {
                    return true;
                },
                _ => {},
            }
            i += 1;
        }
        false
    }

    /// Runs the pipeline against one line. `base` is what label filters see before any
    /// parser stage: the stream's labels plus the record's own attributes.
    pub fn evaluate(&self, line: &str, base: &Labels) -> (r: bool)
        ensures
            r == passes(self@.stages, line@, base@),
    {
        let ghost all = self@.stages;
        let mut extracted: Option<Labels> = None;
        let mut i: usize = 0;
        assert(all.skip(0) =~= all);
        while i < self.stages.len()
            invariant
                i <= self.stages@.len(),
                all == self@.stages,
                passes(all, line@, base@) == passes(
                    all.skip(i as int),
                    line@,
                    match extracted {
                        Some(labels) => labels@,
                        None => base@,
                    },
                ),
            decreases self.stages@.len() - i,
        {
            assert(all.skip(i as int)[0] == self.stages@[i as int]@);
            assert(all.skip(i as int).drop_first() =~= all.skip(i as int + 1));
            match &self.stages[i] {
                Stage::Line(filter) => {
                    if !filter.matches(line) {
                        return false;
                    }
                },
                Stage::Json => {
                    let mut labels: Labels = match extracted {
                        Some(labels) => labels,
                        None => base.clone(),
                    };
                    merge_json(&mut labels, line);
                    extracted = Some(labels);
                },
                Stage::Logfmt => {
                    let mut labels: Labels = match extracted {
                        Some(labels) => labels,
                        None => base.clone(),
                    };
                    merge_logfmt(&mut labels, line);
                    extracted = Some(labels);
                },
                Stage::Label(predicate) => {
                    let passed: bool = match &extracted {
                        Some(labels) => predicate.matches(labels),
                        None => predicate.matches(base),
                    };
                    if !passed {
                        return false;
                    }
                },
            }
            i += 1;
        }
        true
    }
}

// ---------------------------------------------------------------------------
// JSON lines
// ---------------------------------------------------------------------------

/// The labels with the fields of a JSON line set; a line that is not JSON adds none.
pub open spec fn json_merged(labels: Seq<Pair>, line: Seq<char>) -> Seq<Pair> {
    match json_parsed(line) {
        Some(shape) => flattened(labels, ""@, shape),
        None => labels,
    }
}

/// The name of a field inside what is called `prefix`.
pub open spec fn field_name(prefix: Seq<char>, key: Seq<char>) -> Seq<char> {
    if prefix.len() == 0 {
        sanitized(key)
    } else {
        prefix + "_"@ + sanitized(key)
    }
}

/// The labels with a JSON value set under `prefix`, nested names joined with `_`.
pub open spec fn flattened(labels: Seq<Pair>, prefix: Seq<char>, shape: Shape) -> Seq<Pair>
    decreases
            shape,
            match shape {
                Shape::Object(entries) => entries.len() + 2,
                _ => 0,
            },
{
    match shape {
        Shape::Null => labels,
        Shape::Text(text) => if prefix.len() == 0 {
            labels
        } else {
            inserted(labels, prefix, text)
        },
        Shape::Bool(_) | Shape::Number(_) | Shape::Array(_) => if prefix.len() == 0 {
            labels
        } else {
            inserted(labels, prefix, json_written(shape))
        },
        Shape::Object(entries) => flattened_members(labels, prefix, shape, entries.len()),
    }
}

/// The labels with the first `n` members of an object set.
pub open spec fn flattened_members(
    labels: Seq<Pair>,
    prefix: Seq<char>,
    object: Shape,
    n: nat,
) -> Seq<Pair>
    decreases object, n + 1,
{
    match object {
        Shape::Object(entries) => if n == 0 || n > entries.len() {
            labels
        } else {
            let entry = entries[n - 1];
            flattened(
                flattened_members(labels, prefix, object, (n - 1) as nat),
                field_name(prefix, entry.0),
                entry.1,
            )
        },
        _ => labels,
    }
}

/// Merges the fields of a JSON object into the label set.
fn merge_json(labels: &mut Labels, line: &str)
    ensures
        final(labels)@ == json_merged(old(labels)@, line@),
{
    match parse_json(line) {
        Some(value) => flatten_json(labels, "", value),
        None => {},
    }
}

fn flatten_json(labels: &mut Labels, prefix: &str, value: serde_json::Value)
    ensures
        final(labels)@ == flattened(old(labels)@, prefix@, json_shape(&value)),
    decreases json_shape(&value),
{
    let ghost shape = json_shape(&value);
    let ghost start = labels@;
    match open_json(value) {
        Node::Null => {},
        Node::Text(text) => {
            if !prefix.is_empty() {
                labels.insert(prefix, text.as_str());
            }
        },
        Node::Whole(value) => {
            if !prefix.is_empty() {
                labels.insert(prefix, json_to_text(&value).as_str());
            }
        },
        Node::Object(entries) => {
            let ghost held = members(entries@);
            #[verifier::loop_isolation(false)]
            for entry in it: entries
                invariant
                    it.seq() == entries@,
                    labels@ == flattened_members(start, prefix@, shape, it.index() as nat),
            {
                proof {
                    assert(held[it.index() as int] == (entry.0@, json_shape(&entry.1)));
                    assert(decreases_to!(shape => held[it.index() as int].1));
                }
                let key: String = sanitize_label_name(entry.0.as_str());
                if prefix.is_empty() {
                    flatten_json(labels, key.as_str(), entry.1);
                } else {
                    let mut name: String = prefix.to_owned();
                    name.append("_");
                    name.append(key.as_str());
                    flatten_json(labels, name.as_str(), entry.1);
                }
            }
        },
    }
}

// ---------------------------------------------------------------------------
// Logfmt lines
// ---------------------------------------------------------------------------

/// The labels with the fields of a logfmt line set.
pub open spec fn logfmt_merged(labels: Seq<Pair>, line: Seq<char>) -> Seq<Pair> {
    logfmt_from(line, 0, labels)
}

/// A quoted value from `i` on, with `out` so far, and where the line goes on behind it.
pub open spec fn logfmt_quoted(s: Seq<char>, i: int, out: Seq<char>) -> (Seq<char>, int)
    decreases s.len() - i,
{
    if i < 0 || i >= s.len() {
        (out, i)
    } else if s[i] == '"' {
        (out, i + 1)
    } else if s[i] == '\\' && i + 1 < s.len() {
        let c = s[i + 1];
        logfmt_quoted(
            s,
            i + 2,
            out.push(
                if c == 'n' {
                    '\n'
                } else if c == 't' {
                    '\t'
                } else {
                    c
                },
            ),
        )
    } else {
        logfmt_quoted(s, i + 1, out.push(s[i]))
    }
}

/// A value from `i` on and where the line goes on behind it.
pub open spec fn logfmt_value(s: Seq<char>, i: int) -> (Seq<char>, int) {
    if i < s.len() && s[i] == '"' {
        logfmt_quoted(s, i + 1, Seq::empty())
    } else {
        (s.subrange(i, run(s, i, Class::NotSpace)), run(s, i, Class::NotSpace))
    }
}

/// The labels with the fields of `key=value key2="quoted value"` from `i` on set. A bare
/// key is a flag with an empty value.
pub open spec fn logfmt_from(s: Seq<char>, i: int, labels: Seq<Pair>) -> Seq<Pair>
    decreases s.len() - i via logfmt_from_decreases
{
    if i < 0 || i >= s.len() {
        labels
    } else {
        let start = run(s, i, Class::Space);
        let end = run(s, start, Class::Key);
        let key = sanitized(s.subrange(start, end));
        if start >= s.len() {
            labels
        } else if start == end {
            logfmt_from(s, start + 1, labels)
        } else if end >= s.len() || s[end] != '=' {
            logfmt_from(s, end, inserted(labels, key, ""@))
        } else {
            let (value, next) = logfmt_value(s, end + 1);
            logfmt_from(s, next, inserted(labels, key, value))
        }
    }
}

proof fn lemma_logfmt_quoted(s: Seq<char>, i: int, out: Seq<char>)
    requires
        0 <= i <= s.len(),
    ensures
        i <= logfmt_quoted(s, i, out).1 <= s.len(),
    decreases s.len() - i,
{
    if i < s.len() && s[i] != '"' {
        if s[i] == '\\' && i + 1 < s.len() {
            let c = s[i + 1];
            lemma_logfmt_quoted(
                s,
                i + 2,
                out.push(
                    if c == 'n' {
                        '\n'
                    } else if c == 't' {
                        '\t'
                    } else {
                        c
                    },
                ),
            );
        } else {
            lemma_logfmt_quoted(s, i + 1, out.push(s[i]));
        }
    }
}

proof fn lemma_logfmt_value(s: Seq<char>, i: int)
    requires
        0 <= i <= s.len(),
    ensures
        i <= logfmt_value(s, i).1 <= s.len(),
{
    lemma_run(s, i, Class::NotSpace);
    if i < s.len() {
        lemma_logfmt_quoted(s, i + 1, Seq::empty());
    }
}

#[via_fn]
proof fn logfmt_from_decreases(s: Seq<char>, i: int, labels: Seq<Pair>) {
    if 0 <= i < s.len() {
        lemma_run(s, i, Class::Space);
        let start = run(s, i, Class::Space);
        lemma_run(s, start, Class::Key);
        let end = run(s, start, Class::Key);
        if end < s.len() {
            lemma_logfmt_value(s, end + 1);
        }
    }
}

/// Reads a quoted value that starts at `from`.
fn read_quoted(chars: &Vec<char>, from: usize) -> (r: (String, usize))
    requires
        from <= chars@.len(),
    ensures
        (r.0@, r.1 as int) == logfmt_quoted(chars@, from as int, Seq::empty()),
{
    let ghost goal = logfmt_quoted(chars@, from as int, Seq::empty());
    let mut out: Vec<char> = Vec::new();
    let mut i: usize = from;
    while i < chars.len() && chars[i] != '"'
        invariant
            from <= i <= chars@.len(),
            goal == logfmt_quoted(chars@, i as int, out@),
        decreases chars@.len() - i,
    {
        if chars[i] == '\\' && i + 1 < chars.len() {
            out.push(
                match chars[i + 1] {
                    'n' => '\n',
                    't' => '\t',
                    other => other,
                },
            );
            i += 2;
        } else {
            out.push(chars[i]);
            i += 1;
        }
    }
    let next: usize = if i < chars.len() {
        i + 1
    } else {
        i
    };
    (string_of(out.as_slice()), next)
}

/// Merges the fields of a logfmt line into the label set.
fn merge_logfmt(labels: &mut Labels, line: &str)
    ensures
        final(labels)@ == logfmt_merged(old(labels)@, line@),
{
    let chars: Vec<char> = chars_of(line);
    let ghost s = chars@;
    let ghost goal = logfmt_merged(labels@, s);
    let mut i: usize = 0;
    while i < chars.len()
        invariant
            s == chars@,
            s == line@,
            goal == logfmt_merged(old(labels)@, s),
            goal == logfmt_from(s, i as int, labels@),
        decreases s.len() - i,
    {
        let count: usize = chars.len();
        let start: usize = run_end(chars.as_slice(), i, Class::Space);
        let end: usize = run_end(chars.as_slice(), start, Class::Key);
        if start >= count {
            return;
        }
        if start == end {
            i = start + 1;
            continue;
        }
        let key: String = sanitize_label_name(piece(chars.as_slice(), start, end).as_str());
        if end >= count || chars[end] != '=' {
            labels.insert(key.as_str(), "");
            i = end;
            continue;
        }
        proof {
            lemma_logfmt_value(s, end + 1);
        }
        if end + 1 < count && chars[end + 1] == '"' {
            let read: (String, usize) = read_quoted(&chars, end + 2);
            labels.insert(key.as_str(), read.0.as_str());
            i = read.1;
        } else {
            let stop: usize = run_end(chars.as_slice(), end + 1, Class::NotSpace);
            let value: String = piece(chars.as_slice(), end + 1, stop);
            labels.insert(key.as_str(), value.as_str());
            i = stop;
        }
    }
}

// ---------------------------------------------------------------------------
// Laws
// ---------------------------------------------------------------------------

/// A line that passes contains the text that the query states as required.
pub proof fn law_required_substring_is_necessary(
    stages: Seq<StageView>,
    line: Seq<char>,
    labels: Seq<Pair>,
)
    requires
        passes(stages, line, labels),
    ensures
        match first_required(stages) {
            Some(text) => occurs(line, text),
            None => true,
        },
    decreases stages.len(),
{
    if stages.len() > 0 {
        let rest = stages.drop_first();
        match stages[0] {
            StageView::Json => law_required_substring_is_necessary(
                rest,
                line,
                json_merged(labels, line),
            ),
            StageView::Logfmt => law_required_substring_is_necessary(
                rest,
                line,
                logfmt_merged(labels, line),
            ),
            _ => law_required_substring_is_necessary(rest, line, labels),
        }
    }
}

/// A query without a filter stage passes every line: parser stages extract, they do not
/// reject.
pub proof fn law_only_filters_reject(stages: Seq<StageView>, line: Seq<char>, labels: Seq<Pair>)
    requires
        forall|i: int| 0 <= i < stages.len() ==> !is_filter(#[trigger] stages[i]),
    ensures
        passes(stages, line, labels),
    decreases stages.len(),
{
    if stages.len() > 0 {
        let rest = stages.drop_first();
        assert(!is_filter(stages[0]));
        assert forall|i: int| 0 <= i < rest.len() implies !is_filter(#[trigger] rest[i]) by {
            assert(rest[i] == stages[i + 1]);
        }
        law_only_filters_reject(rest, line, json_merged(labels, line));
        law_only_filters_reject(rest, line, logfmt_merged(labels, line));
    }
}

/// A query without a parser stage extracts nothing.
pub proof fn law_only_parsers_extract(stages: Seq<StageView>, line: Seq<char>, labels: Seq<Pair>)
    requires
        forall|i: int| 0 <= i < stages.len() ==> !is_parser(#[trigger] stages[i]),
    ensures
        extracts(stages, line, labels) == labels,
    decreases stages.len(),
{
    if stages.len() > 0 {
        let rest = stages.drop_first();
        assert(!is_parser(stages[0]));
        assert forall|i: int| 0 <= i < rest.len() implies !is_parser(#[trigger] rest[i]) by {
            assert(rest[i] == stages[i + 1]);
        }
        law_only_parsers_extract(rest, line, labels);
    }
}

pub open spec fn stage_passes_line(stage: StageView, line: Seq<char>) -> bool {
    match stage {
        StageView::Line(op, pattern) => line_passes(op, pattern, line),
        _ => true,
    }
}

/// A chain of line filters passes a line exactly where each filter does.
pub proof fn law_line_filters_are_a_conjunction(
    stages: Seq<StageView>,
    line: Seq<char>,
    labels: Seq<Pair>,
)
    requires
        forall|i: int| 0 <= i < stages.len() ==> #[trigger] stages[i] is Line,
    ensures
        passes(stages, line, labels) == (forall|i: int|
            0 <= i < stages.len() ==> stage_passes_line(#[trigger] stages[i], line)),
    decreases stages.len(),
{
    if stages.len() > 0 {
        let rest = stages.drop_first();
        assert(stages[0] is Line);
        assert(forall|i: int| 0 <= i < rest.len() ==> rest[i] == #[trigger] stages[i + 1]);
        assert forall|i: int| 0 <= i < rest.len() implies #[trigger] rest[i] is Line by {
            assert(rest[i] == stages[i + 1]);
        }
        law_line_filters_are_a_conjunction(rest, line, labels);
        if forall|i: int| 0 <= i < rest.len() ==> stage_passes_line(#[trigger] rest[i], line) {
            assert forall|i: int| 1 <= i < stages.len() implies stage_passes_line(
                #[trigger] stages[i],
                line,
            ) by {
                assert(stages[i] == rest[i - 1]);
            }
        } else {
            let i = choose|i: int|
                0 <= i < rest.len() && !stage_passes_line(#[trigger] rest[i], line);
            assert(!stage_passes_line(stages[i + 1], line));
        }
    }
}

/// The order of line filters does not change which lines pass.
pub proof fn law_line_filters_commute(
    first: Seq<StageView>,
    second: Seq<StageView>,
    line: Seq<char>,
    labels: Seq<Pair>,
)
    requires
        forall|i: int| 0 <= i < first.len() ==> #[trigger] first[i] is Line,
        forall|i: int| 0 <= i < second.len() ==> #[trigger] second[i] is Line,
    ensures
        passes(first + second, line, labels) == passes(second + first, line, labels),
{
    let a = first + second;
    let b = second + first;
    law_line_filters_are_a_conjunction(a, line, labels);
    law_line_filters_are_a_conjunction(b, line, labels);
    if passes(a, line, labels) {
        assert forall|i: int| 0 <= i < b.len() implies stage_passes_line(#[trigger] b[i], line) by {
            if i < second.len() {
                assert(b[i] == a[first.len() + i]);
            } else {
                assert(b[i] == a[i - second.len()]);
            }
        }
    }
    if passes(b, line, labels) {
        assert forall|i: int| 0 <= i < a.len() implies stage_passes_line(#[trigger] a[i], line) by {
            if i < first.len() {
                assert(a[i] == b[second.len() + i]);
            } else {
                assert(a[i] == b[i - first.len()]);
            }
        }
    }
}

proof fn lemma_flattened_sorted(labels: Seq<Pair>, prefix: Seq<char>, shape: Shape)
    requires
        sorted(labels),
    ensures
        sorted(flattened(labels, prefix, shape)),
    decreases
            shape,
            match shape {
                Shape::Object(entries) => entries.len() + 2,
                _ => 0,
            },
{
    match shape {
        Shape::Object(entries) => {
            lemma_members_sorted(labels, prefix, shape, entries.len());
        },
        Shape::Text(text) => {
            law_insert_keeps_order(labels, prefix, text);
        },
        _ => {
            law_insert_keeps_order(labels, prefix, json_written(shape));
        },
    }
}

proof fn lemma_members_sorted(labels: Seq<Pair>, prefix: Seq<char>, object: Shape, n: nat)
    requires
        sorted(labels),
    ensures
        sorted(flattened_members(labels, prefix, object, n)),
    decreases object, n + 1,
{
    if let Shape::Object(entries) = object {
        if 0 < n <= entries.len() {
            let entry = entries[n - 1];
            lemma_members_sorted(labels, prefix, object, (n - 1) as nat);
            lemma_flattened_sorted(
                flattened_members(labels, prefix, object, (n - 1) as nat),
                field_name(prefix, entry.0),
                entry.1,
            );
        }
    }
}

proof fn lemma_logfmt_sorted(s: Seq<char>, i: int, labels: Seq<Pair>)
    requires
        sorted(labels),
    ensures
        sorted(logfmt_from(s, i, labels)),
    decreases s.len() - i,
{
    if 0 <= i < s.len() {
        let start = run(s, i, Class::Space);
        let end = run(s, start, Class::Key);
        let key = sanitized(s.subrange(start, end));
        lemma_run(s, i, Class::Space);
        if start < s.len() {
            lemma_run(s, start, Class::Key);
            if start == end {
                lemma_logfmt_sorted(s, start + 1, labels);
            } else if end >= s.len() || s[end] != '=' {
                law_insert_keeps_order(labels, key, ""@);
                lemma_logfmt_sorted(s, end, inserted(labels, key, ""@));
            } else {
                let (value, next) = logfmt_value(s, end + 1);
                lemma_logfmt_value(s, end + 1);
                law_insert_keeps_order(labels, key, value);
                lemma_logfmt_sorted(s, next, inserted(labels, key, value));
            }
        }
    }
}

/// What is pulled out of a line is a set of labels: in order, each name once.
pub proof fn law_extracted_fields_are_labels(
    stages: Seq<StageView>,
    line: Seq<char>,
    labels: Seq<Pair>,
)
    requires
        sorted(labels),
    ensures
        sorted(extracts(stages, line, labels)),
    decreases stages.len(),
{
    if stages.len() > 0 {
        let rest = stages.drop_first();
        match stages[0] {
            StageView::Json => {
                if let Some(shape) = json_parsed(line) {
                    lemma_flattened_sorted(labels, ""@, shape);
                }
                law_extracted_fields_are_labels(rest, line, json_merged(labels, line));
            },
            StageView::Logfmt => {
                lemma_logfmt_sorted(line, 0, labels);
                law_extracted_fields_are_labels(rest, line, logfmt_merged(labels, line));
            },
            _ => {
                law_extracted_fields_are_labels(rest, line, labels);
            },
        }
    }
}

/// A field that `| json` takes out of a line satisfies a label filter on its value.
pub proof fn law_extracted_fields_match(
    line: Seq<char>,
    key: Seq<char>,
    value: Seq<char>,
    labels: Seq<Pair>,
)
    requires
        crate::labels::sorted(labels),
        json_parsed(line) == Some(Shape::Object(seq![(key, Shape::Text(value))])),
    ensures
        passes(
            seq![
                StageView::Json,
                StageView::Label(
                    Predicate::Match(
                        MatcherView {
                            name: sanitized(key),
                            op: crate::matcher::MatchOp::Equal,
                            value,
                        },
                    ),
                ),
            ],
            line,
            labels,
        ),
{
    let stages = seq![
        StageView::Json,
        StageView::Label(
            Predicate::Match(
                MatcherView {
                    name: sanitized(key),
                    op: crate::matcher::MatchOp::Equal,
                    value,
                },
            ),
        ),
    ];
    reveal_strlit("");
    let object = Shape::Object(seq![(key, Shape::Text(value))]);
    reveal_with_fuel(flattened, 2);
    reveal_with_fuel(flattened_members, 3);
    crate::labels::law_sanitized_is_label_name(key);
    assert(json_merged(labels, line) == inserted(labels, sanitized(key), value));
    crate::labels::law_insert_then_get(labels, sanitized(key), value, sanitized(key));
    reveal_with_fuel(passes, 3);
    reveal_with_fuel(holds, 2);
    assert(stages.drop_first()[0] == stages[1]);
}

/// A query that parses has a matcher that asks for a value, so it never selects every
/// stream.
pub proof fn law_a_query_selects(input: Seq<char>)
    ensures
        match log_query(input) {
            Ok(query) => any_selective(query.matchers),
            Err(_) => true,
        },
{
}

/// Whatever the input, a refusal is the client's: the query is malformed or asks for
/// something that is not offered.
pub proof fn law_refusals_are_the_clients(input: Seq<char>)
    ensures
        match log_query(input) {
            Ok(_) => true,
            Err(fault) => fault is BadRequest || fault is Unsupported,
        },
{
    crate::lexer::lemma_tokenized_refused(input);
    match tokenized(input) {
        Err(_) => {},
        Ok(tokens) => {
            crate::parser::lemma_matchers_refused(Dialect::Log, input, tokens, 1, Seq::empty());
            crate::parser::lemma_matchers_from(Dialect::Log, input, tokens, 1, Seq::empty());
            match selector_at(input, tokens, 0) {
                Err(_) => {},
                Ok((_, next)) => {
                    lemma_stages_refused(input, tokens, next, Seq::empty());
                },
            }
        },
    }
}

proof fn lemma_stages_refused(
    input: Seq<char>,
    tokens: Seq<SpannedView>,
    at: int,
    out: Seq<StageView>,
)
    requires
        0 <= at,
    ensures
        match stages_from(input, tokens, at, out) {
            Ok(_) => true,
            Err(fault) => !(fault is LimitExceeded),
        },
    decreases tokens.len() - at,
{
    if at < tokens.len() {
        lemma_stage_at(input, tokens, at);
        match stage_at(input, tokens, at) {
            Err(_) => {},
            Ok((stage, next)) => lemma_stages_refused(input, tokens, next, out.push(stage)),
        }
    }
}

} // verus!
