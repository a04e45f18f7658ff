//! The TraceQL subset: a single spanset of `&&`-joined conditions, optionally followed by
//! `| select(...)`.
//!
//! ```text
//! { resource.service.name = "checkout" && status = error && duration > 100ms }
//! ```
//!
//! As with LogQL, the input is parsed in full so that a construct outside the subset
//! (`||`, a second spanset, `count() > 2`) can be named rather than reported as a syntax
//! error.
use regex::Regex;
use vstd::prelude::*;

use crate::error::{outcome, refused, Error, Failure, Fault};
use crate::labels::{
    lemma_lookup_is_a_pair, lookup, lookup_relaxed, sanitize_label_name, sanitized, sorted,
};
use crate::lexer::{tokenize, tokenized, Lexeme, Spanned, SpannedView, TokenView};
use crate::matcher::{
    bad_pattern, bad_pattern_error, compile, found, regex_error, regex_found, regex_source,
};
use crate::parser::{follows, ident_at, token_of, unexpected, Cursor, Parsed};
use crate::record::{SpanKind, SpanRecord, SpanStatus, SpanView};
use crate::text::{
    chars_of, debug_text, find_char, find_from, lemma_views_push, lower, piece, quoted, same,
    same_ignoring_case, trim, trimmed, upper, uppered, views,
};

verus! {

/// A property of the span itself.
#[derive(Debug, Clone, Copy, PartialEq, Eq, Structural)]
pub enum Intrinsic {
    Name,
    Status,
    Duration,
    Kind,
}

/// What a condition reads from a span.
#[derive(Debug, PartialEq, Eq)]
pub enum Field {
    /// `name`, `status`, `duration`, `kind`.
    Intrinsic(Intrinsic),
    /// `resource.service.name`: a stream label.
    Resource(String),
    /// `span.http.status_code`: a span attribute.
    Span(String),
    /// `.foo` or a bare `foo`: span attributes first, then resource labels.
    Unscoped(String),
}

pub enum FieldView {
    Intrinsic(Intrinsic),
    Resource(Seq<char>),
    Span(Seq<char>),
    Unscoped(Seq<char>),
}

impl View for Field {
    type V = FieldView;

    open spec fn view(&self) -> FieldView {
        match self {
            Field::Intrinsic(intrinsic) => FieldView::Intrinsic(*intrinsic),
            Field::Resource(name) => FieldView::Resource(name@),
            Field::Span(name) => FieldView::Span(name@),
            Field::Unscoped(name) => FieldView::Unscoped(name@),
        }
    }
}

#[derive(Debug, Clone, Copy, PartialEq, Eq, Structural)]
pub enum CompareOp {
    Equal,
    NotEqual,
    Regex,
    Greater,
    GreaterEqual,
    Less,
    LessEqual,
}

/// What a condition compares with, over the type that carries its texts.
#[derive(Debug, PartialEq)]
pub enum Literal<S> {
    Str(S),
    /// A number, as it is written.
    Number(S),
    /// A duration literal, in nanoseconds.
    Duration(u64),
    Status(SpanStatus),
    Kind(SpanKind),
    /// `nil`: the attribute is absent.
    Nil,
}

/// A literal as a condition holds it.
pub type Constant = Literal<String>;

/// A literal as contracts speak of it.
pub type ConstantView = Literal<Seq<char>>;

impl View for Literal<String> {
    type V = Literal<Seq<char>>;

    open spec fn view(&self) -> Literal<Seq<char>> {
        match self {
            Literal::Str(text) => Literal::Str(text@),
            Literal::Number(text) => Literal::Number(text@),
            Literal::Duration(nanos) => Literal::Duration(*nanos),
            Literal::Status(status) => Literal::Status(*status),
            Literal::Kind(kind) => Literal::Kind(*kind),
            Literal::Nil => Literal::Nil,
        }
    }
}

/// One condition on a span.
#[derive(Debug)]
pub struct Condition {
    pub field: Field,
    pub op: CompareOp,
    pub value: Constant,
    regex: Option<Regex>,
}

pub struct ConditionView {
    pub field: FieldView,
    pub op: CompareOp,
    pub value: ConstantView,
}

impl View for Condition {
    type V = ConditionView;

    closed spec fn view(&self) -> ConditionView {
        ConditionView { field: self.field@, op: self.op, value: self.value@ }
    }
}

/// A parsed TraceQL query.
#[derive(Debug)]
pub struct TraceQuery {
    /// `&&`-joined; all must hold for a span to match. Empty means every span.
    pub conditions: Vec<Condition>,
}

impl View for TraceQuery {
    type V = Seq<ConditionView>;

    open spec fn view(&self) -> Seq<ConditionView> {
        views(self.conditions@)
    }
}

impl Default for TraceQuery {
    fn default() -> (query: TraceQuery)
        ensures
            query@ == Seq::<ConditionView>::empty(),
    {
        let query = TraceQuery { conditions: Vec::new() };
        assert(query@ =~= Seq::<ConditionView>::empty());
        query
    }
}

// ---------------------------------------------------------------------------
// Grammar
// ---------------------------------------------------------------------------

/// The field that a dotted path names. A leading `.` marks an attribute, so it is looked
/// at before the intrinsics: `name` is the span's name, `.name` an attribute of it.
pub open spec fn field_of(path: Seq<char>) -> Result<FieldView, Fault> {
    let dot = find_from(path, '.', 0);
    if path.len() > 0 && path[0] == '.' {
        Ok(FieldView::Unscoped(path.skip(1)))
    } else if dot < path.len() && path.take(dot) == "resource"@ {
        Ok(FieldView::Resource(sanitized(path.skip(dot + 1))))
    } else if dot < path.len() && path.take(dot) == "span"@ {
        Ok(FieldView::Span(path.skip(dot + 1)))
    } else if path == "name"@ {
        Ok(FieldView::Intrinsic(Intrinsic::Name))
    } else if path == "status"@ {
        Ok(FieldView::Intrinsic(Intrinsic::Status))
    } else if path == "duration"@ {
        Ok(FieldView::Intrinsic(Intrinsic::Duration))
    } else if path == "kind"@ {
        Ok(FieldView::Intrinsic(Intrinsic::Kind))
    } else if path == "rootName"@ || path == "rootServiceName"@ || path == "traceDuration"@ {
        Err(
            Failure::Unsupported {
                feature: "TraceQL trace-level intrinsic `"@ + path + "`"@,
                hint: Some(
                    "filter on the span-level equivalent (`name`, `resource.service.name`, `duration`)"@,
                ),
            },
        )
    } else {
        Ok(FieldView::Unscoped(path))
    }
}

/// The comparison at a position.
pub open spec fn compare_op_at(input: Seq<char>, tokens: Seq<SpannedView>, at: int) -> Result<
    CompareOp,
    Fault,
> {
    match token_of(tokens, at) {
        Some(Lexeme::Equal) => Ok(CompareOp::Equal),
        Some(Lexeme::NotEqual) => Ok(CompareOp::NotEqual),
        Some(Lexeme::RegexMatch) => Ok(CompareOp::Regex),
        Some(Lexeme::Greater) => Ok(CompareOp::Greater),
        Some(Lexeme::GreaterEqual) => Ok(CompareOp::GreaterEqual),
        Some(Lexeme::Less) => Ok(CompareOp::Less),
        Some(Lexeme::LessEqual) => Ok(CompareOp::LessEqual),
        Some(Lexeme::RegexNotMatch) => Err(
            Failure::Unsupported {
                feature: "TraceQL `!~`"@,
                hint: Some("use `=~` with a negated pattern, or filter client-side"@),
            },
        ),
        _ => Err(unexpected(input, tokens, at, "a comparison operator"@)),
    }
}

/// What a bare word means to the right of a field: `nil`, a status, a kind, or a text.
pub open spec fn word_value(field: FieldView, word: Seq<char>) -> Result<ConstantView, Fault> {
    if word == "nil"@ {
        Ok(Literal::Nil)
    } else {
        match field {
            FieldView::Intrinsic(Intrinsic::Status) => match SpanStatus::named(upper(word)) {
                Some(status) => Ok(Literal::Status(status)),
                None => Err(
                    refused(
                        debug_text(word) + " is not a span status (use ok, error or unset)"@,
                    ),
                ),
            },
            FieldView::Intrinsic(Intrinsic::Kind) => match SpanKind::named(upper(word)) {
                Some(kind) => Ok(Literal::Kind(kind)),
                None => Err(refused(debug_text(word) + " is not a span kind"@)),
            },
            _ => Ok(Literal::Str(word)),
        }
    }
}

/// The value at a position, read for a field.
pub open spec fn value_at(
    input: Seq<char>,
    tokens: Seq<SpannedView>,
    at: int,
    field: FieldView,
) -> Result<ConstantView, Fault> {
    match token_of(tokens, at) {
        Some(Lexeme::String(text)) => Ok(Literal::Str(text)),
        Some(Lexeme::Number(text)) => Ok(Literal::Number(text)),
        Some(Lexeme::Duration(nanos)) => Ok(Literal::Duration(nanos)),
        Some(Lexeme::Ident(word)) => word_value(field, word),
        _ => Err(unexpected(input, tokens, at, "a value"@)),
    }
}

/// The condition that three parts make, or why they make none.
pub open spec fn condition_of(field: FieldView, op: CompareOp, value: ConstantView) -> Result<
    ConditionView,
    Fault,
> {
    if op == CompareOp::Regex {
        match value {
            Literal::Str(pattern) => match regex_error(pattern) {
                Some(error) => Err(bad_pattern(pattern, error)),
                None => Ok(ConditionView { field, op, value }),
            },
            _ => Err(refused("`=~` needs a quoted pattern on the right-hand side"@)),
        }
    } else {
        Ok(ConditionView { field, op, value })
    }
}

/// The condition at a position.
pub open spec fn condition_at(input: Seq<char>, tokens: Seq<SpannedView>, at: int) -> Parsed<
    ConditionView,
> {
    match ident_at(input, tokens, at, "a field name"@) {
        Err(fault) => Err(fault),
        Ok(path) => match field_of(path) {
            Err(fault) => Err(fault),
            Ok(field) => match compare_op_at(input, tokens, at + 1) {
                Err(fault) => Err(fault),
                Ok(op) => match value_at(input, tokens, at + 2, field) {
                    Err(fault) => Err(fault),
                    Ok(value) => match condition_of(field, op, value) {
                        Err(fault) => Err(fault),
                        Ok(condition) => Ok((condition, at + 3)),
                    },
                },
            },
        },
    }
}

/// The conditions from a position to the closing brace, behind those already read.
pub open spec fn conditions_from(
    input: Seq<char>,
    tokens: Seq<SpannedView>,
    at: int,
    out: Seq<ConditionView>,
) -> Parsed<Seq<ConditionView>>
    decreases tokens.len() - at,
{
    match condition_at(input, tokens, at) {
        Err(fault) => Err(fault),
        Ok((condition, _)) => if token_of(tokens, at + 3) == Some(TokenView::AndAnd) || token_of(
            tokens,
            at + 3,
        ) == Some(TokenView::Ident("and"@)) {
            conditions_from(input, tokens, at + 4, out.push(condition))
        } else {
            match token_of(tokens, at + 3) {
                Some(Lexeme::OrOr) => Err(
                    Failure::Unsupported {
                        feature: "TraceQL `||` between conditions"@,
                        hint: Some("issue one search per alternative, or filter client-side"@),
                    },
                ),
                Some(Lexeme::RightBrace) => Ok((out.push(condition), at + 4)),
                _ => Err(unexpected(input, tokens, at + 3, "`&&` or `}`"@)),
            }
        },
    }
}

/// The spanset at the start: conditions between braces, none among them.
pub open spec fn spanset(input: Seq<char>, tokens: Seq<SpannedView>) -> Parsed<
    Seq<ConditionView>,
> {
    if token_of(tokens, 0) != Some(TokenView::LeftBrace) {
        Err(unexpected(input, tokens, 0, "a spanset, e.g. { status = error }"@))
    } else if token_of(tokens, 1) == Some(TokenView::RightBrace) {
        Ok((Seq::empty(), 2))
    } else {
        conditions_from(input, tokens, 1, Seq::empty())
    }
}

/// Behind the parenthesis that closes `depth` open ones.
pub open spec fn closed_from(
    input: Seq<char>,
    tokens: Seq<SpannedView>,
    at: int,
    depth: int,
) -> Result<int, Fault>
    decreases tokens.len() - at,
{
    if depth <= 0 {
        Ok(at)
    } else {
        match token_of(tokens, at) {
            None => Err(unexpected(input, tokens, at, "`)`"@)),
            Some(Lexeme::LeftParen) => closed_from(input, tokens, at + 1, depth + 1),
            Some(Lexeme::RightParen) => closed_from(input, tokens, at + 1, depth - 1),
            Some(_) => closed_from(input, tokens, at + 1, depth),
        }
    }
}

/// Behind `| select(…)`, where it stands. It is accepted and ignored: matched spans are
/// always returned in full.
pub open spec fn projection_at(input: Seq<char>, tokens: Seq<SpannedView>, at: int) -> Result<
    int,
    Fault,
> {
    if token_of(tokens, at) != Some(TokenView::Pipe) {
        Ok(at)
    } else {
        match ident_at(input, tokens, at + 1, "`select` after `|`"@) {
            Err(fault) => Err(fault),
            Ok(name) => if name != "select"@ {
                Err(Failure::Unsupported { feature: "TraceQL `| "@ + name + "`"@, hint: None })
            } else if token_of(tokens, at + 2) != Some(TokenView::LeftParen) {
                Err(unexpected(input, tokens, at + 2, "`(` after `select`"@))
            } else {
                closed_from(input, tokens, at + 3, 1)
            },
        }
    }
}

/// A query made of tokens.
pub open spec fn query_of(input: Seq<char>, tokens: Seq<SpannedView>) -> Result<
    Seq<ConditionView>,
    Fault,
> {
    match spanset(input, tokens) {
        Err(fault) => Err(fault),
        Ok((conditions, next)) => match projection_at(input, tokens, next) {
            Err(fault) => Err(fault),
            Ok(end) => if end < tokens.len() {
                Err(
                    Failure::Unsupported {
                        feature: "TraceQL beyond a single spanset"@,
                        hint: Some(
                            "telemetryd supports one `{ … }` spanset of `&&`-joined conditions"@,
                        ),
                    },
                )
            } else {
                Ok(conditions)
            },
        },
    }
}

/// The query that a text writes, or why it writes none. A blank text asks for every
/// span.
pub open spec fn trace_query(input: Seq<char>) -> Result<Seq<ConditionView>, Fault> {
    let trimmed = trim(input);
    if trimmed.len() == 0 {
        Ok(Seq::empty())
    } else {
        match tokenized(trimmed) {
            Err(fault) => Err(fault),
            Ok(tokens) => query_of(trimmed, tokens),
        }
    }
}

// ---------------------------------------------------------------------------
// Parser
// ---------------------------------------------------------------------------

/// Parses a TraceQL query. Whatever the input, a refusal is the client's.
pub fn parse(input: &str) -> (r: Result<TraceQuery, Error>)
    ensures
        outcome(r) == trace_query(input@),
        r is Err ==> r->Err_0@ is BadRequest || r->Err_0@ is Unsupported,
{
    let trimmed: String = trimmed(input);
    if trimmed.as_str().is_empty() {
        return Ok(TraceQuery::default());
    }
    proof {
        crate::lexer::lemma_tokenized_refused(trimmed@);
    }
    let tokens: Vec<Spanned> = match tokenize(trimmed.as_str()) {
        Ok(tokens) => tokens,
        Err(error) => {
            return Err(error);
        },
    };
    let mut cursor: Cursor = Cursor { input: trimmed.as_str(), tokens: &tokens, pos: 0 };
    parse_query(&mut cursor)
}

fn parse_query(cursor: &mut Cursor) -> (r: Result<TraceQuery, Error>)
    requires
        old(cursor).pos == 0,
    ensures
        outcome(r) == query_of(old(cursor).input@, old(cursor).ts()),
        r is Err ==> !(r->Err_0@ is LimitExceeded),
{
    let conditions: Vec<Condition> = match parse_spanset(cursor) {
        Ok(conditions) => conditions,
        Err(error) => {
            return Err(error);
        },
    };
    match cursor.peek() {
        Some(Lexeme::Pipe) => {
            cursor.pos = cursor.pos + 1;
            let name: String = match cursor.expect_ident("`select` after `|`") {
                Ok(name) => name,
                Err(error) => {
                    return Err(error);
                },
            };
            if !same(name.as_str(), "select") {
                let mut feature: String = "TraceQL `| ".to_owned();
                feature.append(name.as_str());
                feature.append("`");
                return Err(Error::unsupported(feature));
            }
            match skip_balanced_parens(cursor) {
                Some(error) => {
                    return Err(error);
                },
                None => {},
            }
        },
        _ => {},
    }
    if cursor.pos < cursor.tokens.len() {
        return Err(
            Error::unsupported_with_hint(
                "TraceQL beyond a single spanset".to_owned(),
                "telemetryd supports one `{ … }` spanset of `&&`-joined conditions",
            ),
        );
    }
    Ok(TraceQuery { conditions })
}

fn parse_spanset(cursor: &mut Cursor) -> (r: Result<Vec<Condition>, Error>)
    requires
        old(cursor).pos == 0,
    ensures
        crate::parser::follows_all(
            *old(cursor),
            *final(cursor),
            r,
            spanset(old(cursor).input@, old(cursor).ts()),
        ),
        r is Err ==> !(r->Err_0@ is LimitExceeded),
{
    match cursor.peek() {
        Some(Lexeme::LeftBrace) => {
            cursor.pos = cursor.pos + 1;
        },
        _ => {
            return Err(cursor.unexpected("a spanset, e.g. { status = error }"));
        },
    }
    let mut conditions: Vec<Condition> = Vec::new();
    assert(views(conditions@) =~= Seq::empty());
    match cursor.peek() {
        Some(Lexeme::RightBrace) => {
            cursor.pos = cursor.pos + 1;
            return Ok(conditions);
        },
        _ => {},
    }
    let ghost input = cursor.input@;
    let ghost tokens = cursor.ts();
    let ghost goal = conditions_from(input, tokens, 1, Seq::empty());
    loop
        invariant
            cursor.same_text(*old(cursor)),
            input == cursor.input@,
            tokens == cursor.ts(),
            goal == spanset(input, tokens),
            goal == conditions_from(input, tokens, cursor.pos as int, views(conditions@)),
        decreases tokens.len() - cursor.pos,
    {
        match parse_condition(cursor) {
            Ok(condition) => {
                proof {
                    lemma_views_push(conditions@, condition);
                }
                conditions.push(condition);
            },
            Err(error) => {
                return Err(error);
            },
        }
        if cursor.at_word("and") {
            cursor.pos = cursor.pos + 1;
        } else {
            match cursor.peek() {
                Some(Lexeme::AndAnd) => {
                    cursor.pos = cursor.pos + 1;
                },
                Some(Lexeme::OrOr) => {
                    return Err(
                        Error::unsupported_with_hint(
                            "TraceQL `||` between conditions".to_owned(),
                            "issue one search per alternative, or filter client-side",
                        ),
                    );
                },
                Some(Lexeme::RightBrace) => {
                    cursor.pos = cursor.pos + 1;
                    return Ok(conditions);
                },
                _ => {
                    return Err(cursor.unexpected("`&&` or `}`"));
                },
            }
        }
    }
}

fn parse_condition(cursor: &mut Cursor) -> (r: Result<Condition, Error>)
    ensures
        follows(
            *old(cursor),
            *final(cursor),
            r,
            condition_at(old(cursor).input@, old(cursor).ts(), old(cursor).pos as int),
        ),
        r is Ok ==> old(cursor).pos + 3 <= old(cursor).tokens@.len(),
        r is Err ==> !(r->Err_0@ is LimitExceeded),
{
    let path: String = match cursor.expect_ident("a field name") {
        Ok(path) => path,
        Err(error) => {
            return Err(error);
        },
    };
    let field: Field = match parse_field(path.as_str()) {
        Ok(field) => field,
        Err(error) => {
            return Err(error);
        },
    };
    let op: CompareOp = match parse_op(cursor) {
        Ok(op) => op,
        Err(error) => {
            return Err(error);
        },
    };
    let value: Constant = match parse_value(cursor, &field) {
        Ok(value) => value,
        Err(error) => {
            return Err(error);
        },
    };
    if op != CompareOp::Regex {
        return Ok(Condition { field, op, value, regex: None });
    }
    let compiled: Regex = match &value {
        Literal::Str(pattern) => match compile(pattern.as_str()) {
            Ok(regex) => regex,
            Err(error) => {
                return Err(bad_pattern_error(pattern.as_str(), error.as_str()));
            },
        },
        _ => {
            return Err(
                Failure::BadRequest(
                    "`=~` needs a quoted pattern on the right-hand side".to_owned(),
                ),
            );
        },
    };
    Ok(Condition { field, op, value, regex: Some(compiled) })
}

fn parse_field(path: &str) -> (r: Result<Field, Error>)
    ensures
        outcome(r) == field_of(path@),
        r is Err ==> !(r->Err_0@ is LimitExceeded),
{
    let chars: Vec<char> = chars_of(path);
    let count: usize = chars.len();
    let dot: usize = find_char(chars.as_slice(), '.', 0);
    if count > 0 && chars[0] == '.' {
        let rest: String = piece(chars.as_slice(), 1, count);
        assert(rest@ =~= path@.skip(1));
        return Ok(Field::Unscoped(rest));
    }
    if dot < count {
        let scope: String = piece(chars.as_slice(), 0, dot);
        let rest: String = piece(chars.as_slice(), dot + 1, count);
        assert(scope@ =~= path@.take(dot as int));
        assert(rest@ =~= path@.skip(dot + 1));
        if same(scope.as_str(), "resource") {
            return Ok(Field::Resource(sanitize_label_name(rest.as_str())));
        }
        if same(scope.as_str(), "span") {
            return Ok(Field::Span(rest));
        }
    }
    if same(path, "name") {
        Ok(Field::Intrinsic(Intrinsic::Name))
    } else if same(path, "status") {
        Ok(Field::Intrinsic(Intrinsic::Status))
    } else if same(path, "duration") {
        Ok(Field::Intrinsic(Intrinsic::Duration))
    } else if same(path, "kind") {
        Ok(Field::Intrinsic(Intrinsic::Kind))
    } else if same(path, "rootName") || same(path, "rootServiceName") || same(
        path,
        "traceDuration",
    ) {
        let mut feature: String = "TraceQL trace-level intrinsic `".to_owned();
        feature.append(path);
        feature.append("`");
        Err(
            Error::unsupported_with_hint(
                feature,
                "filter on the span-level equivalent (`name`, `resource.service.name`, `duration`)",
            ),
        )
    } else {
        Ok(Field::Unscoped(path.to_owned()))
    }
}

fn parse_op(cursor: &mut Cursor) -> (r: Result<CompareOp, Error>)
    ensures
        final(cursor).same_text(*old(cursor)),
        match compare_op_at(old(cursor).input@, old(cursor).ts(), old(cursor).pos as int) {
            Ok(op) => r is Ok && r->Ok_0 == op && final(cursor).pos == old(cursor).pos + 1
                && old(cursor).pos < old(cursor).tokens@.len(),
            Err(fault) => r is Err && r->Err_0@ == fault && !(fault is LimitExceeded),
        },
{
    let op: CompareOp = match cursor.peek() {
        Some(Lexeme::Equal) => CompareOp::Equal,
        Some(Lexeme::NotEqual) => CompareOp::NotEqual,
        Some(Lexeme::RegexMatch) => CompareOp::Regex,
        Some(Lexeme::Greater) => CompareOp::Greater,
        Some(Lexeme::GreaterEqual) => CompareOp::GreaterEqual,
        Some(Lexeme::Less) => CompareOp::Less,
        Some(Lexeme::LessEqual) => CompareOp::LessEqual,
        Some(Lexeme::RegexNotMatch) => {
            return Err(
                Error::unsupported_with_hint(
                    "TraceQL `!~`".to_owned(),
                    "use `=~` with a negated pattern, or filter client-side",
                ),
            );
        },
        _ => {
            return Err(cursor.unexpected("a comparison operator"));
        },
    };
    cursor.pos = cursor.pos + 1;
    Ok(op)
}

fn parse_word(field: &Field, word: &str) -> (r: Result<Constant, Error>)
    ensures
        outcome(r) == word_value(field@, word@),
        r is Err ==> !(r->Err_0@ is LimitExceeded),
{
    if same(word, "nil") {
        return Ok(Literal::Nil);
    }
    match field {
        Field::Intrinsic(Intrinsic::Status) => {
            match SpanStatus::from_otlp_name(uppered(word).as_str()) {
                Some(status) => Ok(Literal::Status(status)),
                None => {
                    let mut message: String = quoted(word);
                    message.append(" is not a span status (use ok, error or unset)");
                    Err(Failure::BadRequest(message))
                },
            }
        },
        Field::Intrinsic(Intrinsic::Kind) => {
            match SpanKind::from_otlp_name(uppered(word).as_str()) {
                Some(kind) => Ok(Literal::Kind(kind)),
                None => {
                    let mut message: String = quoted(word);
                    message.append(" is not a span kind");
                    Err(Failure::BadRequest(message))
                },
            }
        },
        _ => Ok(Literal::Str(word.to_owned())),
    }
}

fn parse_value(cursor: &mut Cursor, field: &Field) -> (r: Result<Constant, Error>)
    ensures
        final(cursor).same_text(*old(cursor)),
        match value_at(old(cursor).input@, old(cursor).ts(), old(cursor).pos as int, field@) {
            Ok(value) => r is Ok && r->Ok_0@ == value && final(cursor).pos == old(cursor).pos + 1
                && old(cursor).pos < old(cursor).tokens@.len(),
            Err(fault) => r is Err && r->Err_0@ == fault && !(fault is LimitExceeded),
        },
{
    let value: Constant = match cursor.peek() {
        Some(Lexeme::String(text)) => Literal::Str(text.clone()),
        Some(Lexeme::Number(text)) => Literal::Number(text.clone()),
        Some(Lexeme::Duration(nanos)) => Literal::Duration(*nanos),
        Some(Lexeme::Ident(word)) => match parse_word(field, word.as_str()) {
            Ok(value) => value,
            Err(error) => {
                return Err(error);
            },
        },
        _ => {
            return Err(cursor.unexpected("a value"));
        },
    };
    cursor.pos = cursor.pos + 1;
    Ok(value)
}

/// Moves past a parenthesised list.
fn skip_balanced_parens(cursor: &mut Cursor) -> (refusal: Option<Error>)
    ensures
        final(cursor).same_text(*old(cursor)),
        match (if token_of(old(cursor).ts(), old(cursor).pos as int) != Some(
            TokenView::LeftParen,
        ) {
            Err(
                unexpected(
                    old(cursor).input@,
                    old(cursor).ts(),
                    old(cursor).pos as int,
                    "`(` after `select`"@,
                ),
            )
        } else {
            closed_from(old(cursor).input@, old(cursor).ts(), old(cursor).pos + 1, 1)
        }) {
            Ok(end) => refusal is None && final(cursor).pos == end,
            Err(fault) => refusal is Some && refusal->Some_0@ == fault && !(fault is LimitExceeded),
        },
{
    match cursor.peek() {
        Some(Lexeme::LeftParen) => {
            cursor.pos = cursor.pos + 1;
        },
        _ => {
            return Some(cursor.unexpected("`(` after `select`"));
        },
    }
    let ghost input = cursor.input@;
    let ghost tokens = cursor.ts();
    let ghost first = cursor.pos as int;
    let mut depth: usize = 1;
    while depth > 0
        invariant
            cursor.same_text(*old(cursor)),
            input == cursor.input@,
            tokens == cursor.ts(),
            first == old(cursor).pos + 1,
            token_of(tokens, old(cursor).pos as int) == Some(TokenView::LeftParen),
            depth <= cursor.pos,
            closed_from(input, tokens, first, 1) == closed_from(
                input,
                tokens,
                cursor.pos as int,
                depth as int,
            ),
        decreases tokens.len() - cursor.pos,
    {
        match cursor.peek() {
            Some(Lexeme::LeftParen) => {
                depth = depth + 1;
            },
            Some(Lexeme::RightParen) => {
                depth = depth - 1;
            },
            Some(_) => {},
            None => {
                return Some(cursor.unexpected("`)`"));
            },
        }
        cursor.pos = cursor.pos + 1;
    }
    None
}

// ---------------------------------------------------------------------------
// Evaluation
// ---------------------------------------------------------------------------

/// A number to compare: a count of nanoseconds, or a text that may write one.
#[derive(Debug, PartialEq)]
pub enum Operand<S> {
    Nanos(u64),
    Text(S),
}

/// A comparison of two numbers, which holds where both operands are numbers and stand in
/// the relation `op`; with `negated`, where that is not so.
#[derive(Debug, PartialEq)]
pub struct Comparison<S> {
    pub op: CompareOp,
    pub left: Operand<S>,
    pub right: Operand<S>,
    pub negated: bool,
}

/// What a condition says of a span: an answer, or the comparison of numbers that it
/// comes down to.
#[derive(Debug, PartialEq)]
pub enum Verdict<S> {
    Known(bool),
    Numeric(Comparison<S>),
}

pub open spec fn operand_view(o: Operand<String>) -> Operand<Seq<char>> {
    match o {
        Operand::Nanos(nanos) => Operand::Nanos(nanos),
        Operand::Text(text) => Operand::Text(text@),
    }
}

impl View for Comparison<String> {
    type V = Comparison<Seq<char>>;

    open spec fn view(&self) -> Comparison<Seq<char>> {
        Comparison {
            op: self.op,
            left: operand_view(self.left),
            right: operand_view(self.right),
            negated: self.negated,
        }
    }
}

impl View for Verdict<String> {
    type V = Verdict<Seq<char>>;

    open spec fn view(&self) -> Verdict<Seq<char>> {
        match self {
            Verdict::Known(answer) => Verdict::Known(*answer),
            Verdict::Numeric(comparison) => Verdict::Numeric(comparison@),
        }
    }
}

/// An equality that holds or does not, as `=` or `!=` asks for it.
pub open spec fn equality(op: CompareOp, equal: bool) -> bool {
    match op {
        CompareOp::Equal => equal,
        CompareOp::NotEqual => !equal,
        _ => false,
    }
}

/// The operand that a value is, read as a number.
pub open spec fn number_of(value: ConstantView) -> Option<Operand<Seq<char>>> {
    match value {
        Literal::Number(text) | Literal::Str(text) => Some(Operand::Text(text)),
        Literal::Duration(nanos) => Some(Operand::Nanos(nanos)),
        _ => None,
    }
}

/// The comparison of a span's duration, always in nanoseconds.
pub open spec fn duration_verdict(c: ConditionView, nanos: u64) -> Verdict<Seq<char>> {
    match c.value {
        Literal::Duration(_) | Literal::Number(_) => Verdict::Numeric(
            Comparison {
                op: c.op,
                left: Operand::Nanos(nanos),
                right: number_of(c.value)->Some_0,
                negated: false,
            },
        ),
        _ => Verdict::Known(false),
    }
}

/// The comparison of a text that may be absent. `= nil` and `!= nil` test for presence;
/// otherwise an absent text satisfies only `!=`. Attributes are stored as text, so a
/// number on the right compares with the number that the text writes.
pub open spec fn text_verdict(c: ConditionView, actual: Option<Seq<char>>) -> Verdict<Seq<char>> {
    if c.value is Nil {
        Verdict::Known(
            match c.op {
                CompareOp::Equal => actual is None,
                CompareOp::NotEqual => actual is Some,
                _ => false,
            },
        )
    } else {
        match actual {
            None => Verdict::Known(c.op == CompareOp::NotEqual),
            Some(actual) => match c.op {
                CompareOp::Equal | CompareOp::NotEqual => match c.value {
                    Literal::Str(text) => Verdict::Known(equality(c.op, actual == text)),
                    _ => match number_of(c.value) {
                        Some(right) => Verdict::Numeric(
                            Comparison {
                                op: CompareOp::Equal,
                                left: Operand::Text(actual),
                                right,
                                negated: c.op == CompareOp::NotEqual,
                            },
                        ),
                        None => Verdict::Known(c.op == CompareOp::NotEqual),
                    },
                },
                CompareOp::Regex => Verdict::Known(
                    match c.value {
                        Literal::Str(pattern) => regex_found(pattern, actual),
                        _ => false,
                    },
                ),
                _ => match number_of(c.value) {
                    Some(right) => Verdict::Numeric(
                        Comparison {
                            op: c.op,
                            left: Operand::Text(actual),
                            right,
                            negated: false,
                        },
                    ),
                    None => Verdict::Known(false),
                },
            },
        }
    }
}

/// What a condition says of a span.
pub open spec fn verdict(c: ConditionView, span: SpanView) -> Verdict<Seq<char>> {
    match c.field {
        FieldView::Intrinsic(Intrinsic::Duration) => duration_verdict(c, span.duration()),
        FieldView::Intrinsic(Intrinsic::Status) => Verdict::Known(
            match c.value {
                Literal::Status(expected) => equality(c.op, span.status == expected),
                Literal::Str(text) => equality(
                    c.op,
                    lower(span.status.label()) == lower(text),
                ),
                _ => false,
            },
        ),
        FieldView::Intrinsic(Intrinsic::Kind) => Verdict::Known(
            match c.value {
                Literal::Kind(expected) => equality(c.op, span.kind == expected),
                Literal::Str(text) => equality(c.op, lower(span.kind.label()) == lower(text)),
                _ => false,
            },
        ),
        FieldView::Intrinsic(Intrinsic::Name) => text_verdict(c, Some(span.name)),
        FieldView::Resource(name) => text_verdict(c, lookup(span.stream, name)),
        FieldView::Span(name) => text_verdict(c, lookup_relaxed(span.attributes, name)),
        FieldView::Unscoped(name) => text_verdict(
            c,
            match lookup_relaxed(span.attributes, name) {
                Some(value) => Some(value),
                None => lookup_relaxed(span.stream, name),
            },
        ),
    }
}

fn equality_holds(op: CompareOp, equal: bool) -> (r: bool)
    ensures
        r == equality(op, equal),
{
    match op {
        CompareOp::Equal => equal,
        CompareOp::NotEqual => !equal,
        _ => false,
    }
}

impl Condition {
    #[verifier::type_invariant]
    spec fn compiled(self) -> bool {
        self.op == CompareOp::Regex ==> {
            &&& self.value is Str
            &&& self.regex is Some
            &&& regex_source(&self.regex->Some_0) == self.value->Str_0@
        }
    }

    /// The value as an operand of a comparison of numbers.
    fn value_as_number(&self) -> (operand: Option<Operand<String>>)
        ensures
            number_of(self@.value) == (match operand {
                Some(operand) => Some(operand_view(operand)),
                None => None,
            }),
    {
        match &self.value {
            Literal::Number(text) => Some(Operand::Text(text.clone())),
            Literal::Str(text) => Some(Operand::Text(text.clone())),
            Literal::Duration(nanos) => Some(Operand::Nanos(*nanos)),
            _ => None,
        }
    }

    /// Compares a text, which may be absent.
    fn compare_text(&self, actual: Option<&str>) -> (v: Verdict<String>)
        ensures
            v@ == text_verdict(
                self@,
                match actual {
                    Some(text) => Some(text@),
                    None => None,
                },
            ),
    {
        proof {
            use_type_invariant(self);
        }
        match &self.value {
            Literal::Nil => {
                return Verdict::Known(
                    match self.op {
                        CompareOp::Equal => actual.is_none(),
                        CompareOp::NotEqual => actual.is_some(),
                        _ => false,
                    },
                );
            },
            _ => {},
        }
        let actual: &str = match actual {
            Some(actual) => actual,
            None => {
                return Verdict::Known(self.op == CompareOp::NotEqual);
            },
        };
        match self.op {
            CompareOp::Equal | CompareOp::NotEqual => match &self.value {
                Literal::Str(text) => Verdict::Known(
                    equality_holds(self.op, same(actual, text.as_str())),
                ),
                _ => match self.value_as_number() {
                    Some(right) => Verdict::Numeric(
                        Comparison {
                            op: CompareOp::Equal,
                            left: Operand::Text(actual.to_owned()),
                            right,
                            negated: self.op == CompareOp::NotEqual,
                        },
                    ),
                    None => Verdict::Known(self.op == CompareOp::NotEqual),
                },
            },
            CompareOp::Regex => Verdict::Known(
                match &self.regex {
                    Some(regex) => found(regex, actual),
                    None => false,
                },
            ),
            _ => match self.value_as_number() {
                Some(right) => Verdict::Numeric(
                    Comparison {
                        op: self.op,
                        left: Operand::Text(actual.to_owned()),
                        right,
                        negated: false,
                    },
                ),
                None => Verdict::Known(false),
            },
        }
    }

    /// What the condition says of a span.
    pub fn judge(&self, span: &SpanRecord) -> (v: Verdict<String>)
        ensures
            v@ == verdict(self@, span@),
    {
        match &self.field {
            Field::Intrinsic(Intrinsic::Duration) => match &self.value {
                Literal::Duration(nanos) => Verdict::Numeric(
                    Comparison {
                        op: self.op,
                        left: Operand::Nanos(span.duration_nanos()),
                        right: Operand::Nanos(*nanos),
                        negated: false,
                    },
                ),
                Literal::Number(text) => Verdict::Numeric(
                    Comparison {
                        op: self.op,
                        left: Operand::Nanos(span.duration_nanos()),
                        right: Operand::Text(text.clone()),
                        negated: false,
                    },
                ),
                _ => Verdict::Known(false),
            },
            Field::Intrinsic(Intrinsic::Status) => Verdict::Known(
                match &self.value {
                    Literal::Status(expected) => equality_holds(self.op, span.status == *expected),
                    Literal::Str(text) => equality_holds(
                        self.op,
                        same_ignoring_case(span.status.as_str(), text.as_str()),
                    ),
                    _ => false,
                },
            ),
            Field::Intrinsic(Intrinsic::Kind) => Verdict::Known(
                match &self.value {
                    Literal::Kind(expected) => equality_holds(self.op, span.kind == *expected),
                    Literal::Str(text) => equality_holds(
                        self.op,
                        same_ignoring_case(span.kind.as_str(), text.as_str()),
                    ),
                    _ => false,
                },
            ),
            Field::Intrinsic(Intrinsic::Name) => self.compare_text(Some(span.name.as_str())),
            Field::Resource(name) => self.compare_text(span.stream.get(name.as_str())),
            Field::Span(name) => self.compare_text(span.attributes.get_relaxed(name.as_str())),
            Field::Unscoped(name) => match span.attributes.get_relaxed(name.as_str()) {
                Some(value) => self.compare_text(Some(value)),
                None => self.compare_text(span.stream.get_relaxed(name.as_str())),
            },
        }
    }

    /// Whether a span satisfies the condition, with `compare` to compare numbers.
    pub fn matches<F: Fn(&Comparison<String>) -> bool>(&self, span: &SpanRecord, compare: &F) -> (r:
        bool)
        requires
            forall|c: &Comparison<String>| compare.requires((c,)),
        ensures
            met(self@, span@, compare, r),
    {
        match self.judge(span) {
            Verdict::Known(answer) => answer,
            Verdict::Numeric(comparison) => compare(&comparison),
        }
    }
}

/// `answer` is the answer that a condition gives: the known one, or one that `compare`
/// gives for the comparison of numbers.
pub open spec fn met<F: Fn(&Comparison<String>) -> bool>(
    c: ConditionView,
    span: SpanView,
    compare: &F,
    answer: bool,
) -> bool {
    match verdict(c, span) {
        Verdict::Known(known) => answer == known,
        Verdict::Numeric(comparison) => exists|asked: &Comparison<String>|
            asked@ == comparison && #[trigger] compare.ensures((asked,), answer),
    }
}

impl TraceQuery {
    /// Whether a span satisfies every condition, with `compare` to compare numbers.
    pub fn matches<F: Fn(&Comparison<String>) -> bool>(&self, span: &SpanRecord, compare: &F) -> (r:
        bool)
        requires
            forall|c: &Comparison<String>| compare.requires((c,)),
        ensures
            r ==> forall|i: int|
                0 <= i < self@.len() ==> met(#[trigger] self@[i], span@, compare, true),
            !r ==> exists|i: int|
                0 <= i < self@.len() && met(#[trigger] self@[i], span@, compare, false),
    {
        let mut i: usize = 0;
        while i < self.conditions.len()
            invariant
                i <= self.conditions@.len(),
                forall|c: &Comparison<String>| compare.requires((c,)),
                forall|j: int| 0 <= j < i ==> met(#[trigger] self@[j], span@, compare, true),
            decreases self.conditions@.len() - i,
        {
            assert(self@[i as int] == self.conditions@[i as int]@);
            if !self.conditions[i].matches(span, compare) {
                return false;
            }
            i += 1;
        }
        true
    }

    /// Whether the query asks for every span.
    pub fn is_empty(&self) -> (r: bool)
        ensures
            r == (self@.len() == 0),
    {
        self.conditions.len() == 0
    }
}

// ---------------------------------------------------------------------------
// Laws
// ---------------------------------------------------------------------------

/// An absent text satisfies a negative comparison and `= nil`, and nothing else.
pub proof fn law_an_absent_text_matches_only_a_negation(c: ConditionView)
    ensures
        text_verdict(c, None) == Verdict::<Seq<char>>::Known(
            if c.value is Nil {
                c.op == CompareOp::Equal
            } else {
                c.op == CompareOp::NotEqual
            },
        ),
{
}

/// `= nil` and `!= nil` ask only whether there is a text, never what it says.
pub proof fn law_nil_tests_presence(c: ConditionView, text: Seq<char>)
    requires
        c.value is Nil,
    ensures
        text_verdict(c, Some(text)) == Verdict::<Seq<char>>::Known(c.op == CompareOp::NotEqual),
{
}

/// A leading dot means an attribute, whatever it is called: `.name` is never the name of
/// the span.
pub proof fn law_a_leading_dot_means_an_attribute(path: Seq<char>)
    ensures
        field_of(seq!['.'] + path) == Ok::<FieldView, Fault>(FieldView::Unscoped(path)),
{
    assert((seq!['.'] + path).skip(1) =~= path);
}

/// A status and a kind equal only themselves: a span without a status is neither ok nor
/// in error.
pub proof fn law_a_status_is_only_itself(
    span: SpanView,
    status: SpanStatus,
    kind: SpanKind,
    op: CompareOp,
)
    requires
        op == CompareOp::Equal || op == CompareOp::NotEqual,
    ensures
        verdict(
            ConditionView {
                field: FieldView::Intrinsic(Intrinsic::Status),
                op,
                value: Literal::Status(status),
            },
            span,
        ) == Verdict::<Seq<char>>::Known((op == CompareOp::Equal) == (span.status == status)),
        verdict(
            ConditionView {
                field: FieldView::Intrinsic(Intrinsic::Kind),
                op,
                value: Literal::Kind(kind),
            },
            span,
        ) == Verdict::<Seq<char>>::Known((op == CompareOp::Equal) == (span.kind == kind)),
{
}

/// What a verdict comes to, where `holds` says which operands stand in which relation.
pub open spec fn settled(
    verdict: Verdict<Seq<char>>,
    holds: spec_fn(CompareOp, Operand<Seq<char>>, Operand<Seq<char>>) -> bool,
) -> bool {
    match verdict {
        Verdict::Known(answer) => answer,
        Verdict::Numeric(asked) => holds(asked.op, asked.left, asked.right) != asked.negated,
    }
}

/// Whether `compare` gives a comparison and its negation opposite answers.
pub open spec fn negates<F: Fn(&Comparison<String>) -> bool>(compare: &F) -> bool {
    forall|asked: &Comparison<String>, answer: bool|
        #![trigger compare.ensures((asked,), answer)]
        compare.ensures((asked,), answer) ==> compare.ensures((&negation_of(*asked),), !answer)
}

/// The same comparison, the other way round about being negated.
pub open spec fn negation_of(c: Comparison<String>) -> Comparison<String> {
    Comparison { op: c.op, left: c.left, right: c.right, negated: !c.negated }
}

/// A field that is a text: a name, or an attribute.
pub open spec fn is_textual(field: FieldView) -> bool {
    match field {
        FieldView::Intrinsic(intrinsic) => intrinsic == Intrinsic::Name,
        _ => true,
    }
}

/// Whether a field of a span is there and says `actual`.
pub open spec fn says(field: FieldView, span: SpanView, actual: Seq<char>) -> bool {
    match field {
        FieldView::Intrinsic(intrinsic) => intrinsic == Intrinsic::Name && span.name == actual,
        FieldView::Resource(name) => sorted(span.stream) && span.stream.contains((name, actual)),
        FieldView::Span(name) | FieldView::Unscoped(name) => sorted(span.attributes)
            && span.attributes.contains((name, actual)),
    }
}

/// `!=` is the opposite of `=`, of every text and every value and however numbers compare:
/// a span satisfies exactly one of the two.
pub proof fn law_unequal_is_not_equal(
    field: FieldView,
    value: ConstantView,
    span: SpanView,
    holds: spec_fn(CompareOp, Operand<Seq<char>>, Operand<Seq<char>>) -> bool,
)
    requires
        is_textual(field),
    ensures
        settled(verdict(ConditionView { field, op: CompareOp::NotEqual, value }, span), holds)
            != settled(verdict(ConditionView { field, op: CompareOp::Equal, value }, span), holds),
{
}

/// The same of the answers that a comparison of numbers gives: where it answers a negated
/// comparison with the opposite, `!=` is answered so where `=` is answered otherwise.
pub proof fn law_unequal_is_answered_as_not_equal<F: Fn(&Comparison<String>) -> bool>(
    field: FieldView,
    value: ConstantView,
    span: SpanView,
    compare: &F,
    answer: bool,
)
    requires
        is_textual(field),
        negates(compare),
    ensures
        met(ConditionView { field, op: CompareOp::NotEqual, value }, span, compare, answer) == met(
            ConditionView { field, op: CompareOp::Equal, value },
            span,
            compare,
            !answer,
        ),
{
    let unequal = ConditionView { field, op: CompareOp::NotEqual, value };
    let equal = ConditionView { field, op: CompareOp::Equal, value };
    if let Verdict::Numeric(asked) = verdict(unequal, span) {
        assert(verdict(equal, span) is Numeric);
        let plain = verdict(equal, span)->Numeric_0;
        if met(unequal, span, compare, answer) {
            let one = choose|one: &Comparison<String>|
                one@ == asked && #[trigger] compare.ensures((one,), answer);
            let other = &negation_of(*one);
            assert(compare.ensures((other,), !answer));
            assert(other@ == plain);
        }
        let opposite = !answer;
        if met(equal, span, compare, opposite) {
            let one = choose|one: &Comparison<String>|
                one@ == plain && #[trigger] compare.ensures((one,), opposite);
            let other = &negation_of(*one);
            assert(compare.ensures((other,), !opposite));
            assert(compare.ensures((other,), answer));
            assert(other@ == asked);
        }
    }
}

/// The field that a condition names is the one that is compared, on the left: `=` with a text
/// asks for that very text, and with a number or a duration for that relation between the
/// number that the text writes and the one that was given. So do the orders.
pub proof fn law_a_condition_compares_its_field(
    field: FieldView,
    op: CompareOp,
    span: SpanView,
    actual: Seq<char>,
    text: Seq<char>,
    nanos: u64,
    holds: spec_fn(CompareOp, Operand<Seq<char>>, Operand<Seq<char>>) -> bool,
)
    requires
        says(field, span, actual),
        op != CompareOp::NotEqual,
    ensures
        op == CompareOp::Equal ==> settled(
            verdict(ConditionView { field, op, value: Literal::Str(text) }, span),
            holds,
        ) == (actual == text),
        op == CompareOp::Regex ==> settled(
            verdict(ConditionView { field, op, value: Literal::Str(text) }, span),
            holds,
        ) == regex_found(text, actual),
        op != CompareOp::Regex ==> settled(
            verdict(ConditionView { field, op, value: Literal::Number(text) }, span),
            holds,
        ) == holds(op, Operand::Text(actual), Operand::Text(text)),
        op != CompareOp::Regex ==> settled(
            verdict(ConditionView { field, op, value: Literal::Duration(nanos) }, span),
            holds,
        ) == holds(op, Operand::Text(actual), Operand::Nanos(nanos)),
{
    match field {
        FieldView::Intrinsic(_) => {},
        FieldView::Resource(name) => {
            lemma_lookup_is_a_pair(span.stream, name, actual);
        },
        FieldView::Span(name) | FieldView::Unscoped(name) => {
            lemma_lookup_is_a_pair(span.attributes, name, actual);
        },
    }
}

/// A duration is compared in nanoseconds, from the start of the span to its end, on the left.
pub proof fn law_a_duration_is_compared(
    op: CompareOp,
    span: SpanView,
    nanos: u64,
    holds: spec_fn(CompareOp, Operand<Seq<char>>, Operand<Seq<char>>) -> bool,
)
    requires
        span.start_nanos <= span.end_nanos,
    ensures
        settled(
            verdict(
                ConditionView {
                    field: FieldView::Intrinsic(Intrinsic::Duration),
                    op,
                    value: Literal::Duration(nanos),
                },
                span,
            ),
            holds,
        ) == holds(
            op,
            Operand::Nanos((span.end_nanos - span.start_nanos) as u64),
            Operand::Nanos(nanos),
        ),
{
}

/// A bare attribute is the span's own where it has one, and else its resource's.
pub proof fn law_a_bare_attribute_may_be_the_resources(
    c: ConditionView,
    name: Seq<char>,
    span: SpanView,
)
    requires
        c.field == FieldView::Unscoped(name),
    ensures
        lookup_relaxed(span.attributes, name) is Some ==> verdict(c, span) == verdict(
            ConditionView { field: FieldView::Span(name), ..c },
            span,
        ),
        lookup_relaxed(span.attributes, name) is None ==> verdict(c, span) == text_verdict(
            c,
            lookup_relaxed(span.stream, name),
        ),
{
}

} // verus!
