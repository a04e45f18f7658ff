//! What the log and trace queries mean, token by token and stage by stage.
use vstd::prelude::*;

use crate::error::Fault;
use crate::json::{json_parsed, Shape};
use crate::labels::{
    inserted, law_insert_then_get, law_sanitized_is_label_name, lookup, sanitized, sorted, Pair,
};
use crate::lexer::{in_class, token_at, Class, Lexed, SpannedView, TokenView};
use crate::logql::{
    alternatives_from, conjuncts_from, disjuncts_from, extracts, filter_matcher_at, flattened,
    flattened_members, holds, json_merged, line_passes, logfmt_from, logfmt_merged, logfmt_quoted,
    logfmt_value, passes, stage_at, LineOp, Predicate, PredicateView, StageView,
};
use crate::matcher::{regex_error, regex_found, MatchOp, MatcherView};
use crate::parser::{matcher_at, Dialect};
use crate::precedence::writes;
use crate::promql::BinaryOp;
use crate::text::is_ascii_space;
use crate::traceql::{
    condition_at, conditions_from, field_of, CompareOp, ConditionView, ConstantView, FieldView,
    Intrinsic, Literal,
};
use crate::written::lemma_run_to;

verus! {

// ---------------------------------------------------------------------------
// Tokens
// ---------------------------------------------------------------------------

/// The characters of a comparison make its token, wherever they stand: the longer one where
/// two of them could begin alike.
pub proof fn law_comparisons_are_tokens(s: Seq<char>, i: int, a: char, b: char)
    requires
        0 <= i,
        i + 1 < s.len(),
        s[i] == a,
        s[i + 1] == b,
    ensures
        a == '=' && b == '~' ==> token_at(s, i) == Lexed::Ok((TokenView::RegexMatch, i + 2)),
        a == '!' && b == '~' ==> token_at(s, i) == Lexed::Ok((TokenView::RegexNotMatch, i + 2)),
        a == '!' && b == '=' ==> token_at(s, i) == Lexed::Ok((TokenView::NotEqual, i + 2)),
        a == '=' && b != '~' && b != '=' ==> token_at(s, i) == Lexed::Ok(
            (TokenView::Equal, i + 1),
        ),
        a == '<' && b == '=' ==> token_at(s, i) == Lexed::Ok((TokenView::LessEqual, i + 2)),
        a == '<' && b != '=' ==> token_at(s, i) == Lexed::Ok((TokenView::Less, i + 1)),
        a == '>' && b == '=' ==> token_at(s, i) == Lexed::Ok((TokenView::GreaterEqual, i + 2)),
        a == '>' && b != '=' ==> token_at(s, i) == Lexed::Ok((TokenView::Greater, i + 1)),
        a == '|' && b == '=' ==> token_at(s, i) == Lexed::Ok((TokenView::LineContains, i + 2)),
        a == '|' && b == '~' ==> token_at(s, i) == Lexed::Ok((TokenView::LineRegex, i + 2)),
        a == '|' && b != '=' && b != '~' && b != '|' ==> token_at(s, i) == Lexed::Ok(
            (TokenView::Pipe, i + 1),
        ),
{
}

/// An arithmetic operator is one character, and its token is that operator's.
pub proof fn law_arithmetic_is_tokens(s: Seq<char>, i: int, op: BinaryOp)
    requires
        0 <= i < s.len(),
        op != BinaryOp::Or,
        s[i] == (match op {
            BinaryOp::Add => '+',
            BinaryOp::Sub => '-',
            BinaryOp::Mul => '*',
            BinaryOp::Div => '/',
            BinaryOp::Mod => '%',
            _ => '^',
        }),
    ensures
        match token_at(s, i) {
            Ok((token, end)) => writes(token, op) && end == i + 1,
            Err(_) => false,
        },
        op.symbol() == seq![s[i]],
{
    reveal_strlit("+");
    reveal_strlit("-");
    reveal_strlit("*");
    reveal_strlit("/");
    reveal_strlit("%");
    reveal_strlit("^");
    assert(op.symbol() =~= seq![s[i]]);
}

// ---------------------------------------------------------------------------
// Matchers
// ---------------------------------------------------------------------------

/// The token that writes a matcher's operator.
pub open spec fn match_token(op: MatchOp) -> TokenView {
    match op {
        MatchOp::Equal => TokenView::Equal,
        MatchOp::NotEqual => TokenView::NotEqual,
        MatchOp::Regex => TokenView::RegexMatch,
        MatchOp::NotRegex => TokenView::RegexNotMatch,
    }
}

/// A matcher is read as it is written: its name, the operator between, and the quoted value.
/// Only a pattern that does not compile is refused.
pub proof fn law_a_written_matcher_is_read(
    dialect: Dialect,
    input: Seq<char>,
    tokens: Seq<SpannedView>,
    at: int,
    name: Seq<char>,
    op: MatchOp,
    value: Seq<char>,
    wording: Seq<char>,
)
    requires
        0 <= at,
        at + 2 <= tokens.len(),
        tokens[at].token == match_token(op),
        tokens[at + 1].token == TokenView::String(value),
        (op == MatchOp::Regex || op == MatchOp::NotRegex) ==> regex_error(
            "^(?:"@ + value + ")$"@,
        ) is None,
    ensures
        matcher_at(dialect, input, tokens, at, name, wording) == Ok::<_, Fault>(
            (MatcherView { name, op, value }, at + 2),
        ),
{
}

// ---------------------------------------------------------------------------
// Log queries
// ---------------------------------------------------------------------------

/// The token that writes a line filter's operator.
pub open spec fn line_token(op: LineOp) -> TokenView {
    match op {
        LineOp::Contains => TokenView::LineContains,
        LineOp::NotContains => TokenView::NotEqual,
        LineOp::Matches => TokenView::LineRegex,
        LineOp::NotMatches => TokenView::RegexNotMatch,
    }
}

/// A line filter is read as it is written: `|=`, `!=`, `|~` or `!~`, and the quoted pattern.
pub proof fn law_a_written_line_filter_is_read(
    input: Seq<char>,
    tokens: Seq<SpannedView>,
    at: int,
    op: LineOp,
    pattern: Seq<char>,
)
    requires
        0 <= at,
        at + 2 <= tokens.len(),
        tokens[at].token == line_token(op),
        tokens[at + 1].token == TokenView::String(pattern),
        (op == LineOp::Matches || op == LineOp::NotMatches) ==> regex_error(pattern) is None,
    ensures
        stage_at(input, tokens, at) == Ok::<_, Fault>((StageView::Line(op, pattern), at + 2)),
{
}

/// A line contains a text where its characters stand in it one after the other; `!=` passes
/// the lines that `|=` does not, and `!~` those that `|~` does not.
pub proof fn law_line_filters_mean_what_they_say(
    before: Seq<char>,
    pattern: Seq<char>,
    after: Seq<char>,
    line: Seq<char>,
)
    ensures
        line_passes(LineOp::Contains, pattern, before + pattern + after),
        line_passes(LineOp::Contains, pattern, line) ==> exists|i: int|
            0 <= i <= line.len() - pattern.len() && #[trigger] line.subrange(
                i,
                i + pattern.len(),
            ) == pattern,
        line_passes(LineOp::NotContains, pattern, line) != line_passes(
            LineOp::Contains,
            pattern,
            line,
        ),
        line_passes(LineOp::Matches, pattern, line) == regex_found(pattern, line),
        line_passes(LineOp::NotMatches, pattern, line) != line_passes(
            LineOp::Matches,
            pattern,
            line,
        ),
{
    let all = before + pattern + after;
    let i = before.len() as int;
    assert(all.subrange(i, i + pattern.len()) =~= pattern);
    assert(crate::text::occurs_at(all, pattern, i));
    if line_passes(LineOp::Contains, pattern, line) {
        let i = choose|i: int| crate::text::occurs_at(line, pattern, i);
        assert(line.subrange(i, i + pattern.len()) == pattern);
    }
}

/// A pipeline runs stage by stage: what stands behind some stages sees the labels that those
/// took out of the line, and a line passes the whole where it passes both.
pub proof fn law_a_pipeline_runs_in_order(
    first: Seq<StageView>,
    second: Seq<StageView>,
    line: Seq<char>,
    labels: Seq<Pair>,
)
    ensures
        passes(first + second, line, labels) == (passes(first, line, labels) && passes(
            second,
            line,
            extracts(first, line, labels),
        )),
        extracts(first + second, line, labels) == extracts(
            second,
            line,
            extracts(first, line, labels),
        ),
    decreases first.len(),
{
    let all = first + second;
    if first.len() == 0 {
        assert(all =~= second);
    } else {
        let rest = first.drop_first();
        assert(all.drop_first() =~= rest + second);
        assert(all[0] == first[0]);
        match first[0] {
            StageView::Json => {
                law_a_pipeline_runs_in_order(rest, second, line, json_merged(labels, line));
            },
            StageView::Logfmt => {
                law_a_pipeline_runs_in_order(rest, second, line, logfmt_merged(labels, line));
            },
            _ => {
                law_a_pipeline_runs_in_order(rest, second, line, labels);
            },
        }
    }
}

/// One stage by itself: a line filter looks at the line, a label filter at the labels, and a
/// parser passes everything.
pub proof fn law_a_stage_does_its_own(
    line: Seq<char>,
    labels: Seq<Pair>,
    op: LineOp,
    pattern: Seq<char>,
    matcher: MatcherView,
)
    ensures
        passes(seq![StageView::Line(op, pattern)], line, labels) == line_passes(op, pattern, line),
        passes(seq![StageView::Label(Predicate::Match(matcher))], line, labels) == matcher.matches(
            labels,
        ),
        passes(seq![StageView::Json], line, labels),
        passes(seq![StageView::Logfmt], line, labels),
        passes(Seq::empty(), line, labels),
{
    lemma_one_stage(StageView::Line(op, pattern), line, labels);
    lemma_one_stage(StageView::Label(Predicate::Match(matcher)), line, labels);
    lemma_one_stage(StageView::Json, line, labels);
    lemma_one_stage(StageView::Logfmt, line, labels);
}

proof fn lemma_one_stage(stage: StageView, line: Seq<char>, labels: Seq<Pair>)
    ensures
        passes(seq![stage], line, labels) == (match stage {
            StageView::Line(op, pattern) => line_passes(op, pattern, line),
            StageView::Label(predicate) => holds(predicate, labels),
            _ => true,
        }),
{
    reveal_with_fuel(passes, 2);
    assert(seq![stage].drop_first() =~= Seq::<StageView>::empty());
}

/// `and` asks for both sides and `or` for one of them.
pub proof fn law_label_filters_combine(
    left: PredicateView,
    right: PredicateView,
    labels: Seq<Pair>,
)
    ensures
        holds(Predicate::And(Box::new(left), Box::new(right)), labels) == (holds(left, labels)
            && holds(right, labels)),
        holds(Predicate::Or(Box::new(left), Box::new(right)), labels) == (holds(left, labels)
            || holds(right, labels)),
{
}

/// Three label filters with a word between each two, from the second word on.
pub open spec fn is_filter_tail(
    tokens: Seq<SpannedView>,
    at: int,
    first: Seq<char>,
    second: Seq<char>,
    b: (Seq<char>, MatchOp, Seq<char>),
    c: (Seq<char>, MatchOp, Seq<char>),
) -> bool {
    &&& 0 <= at
    &&& tokens.len() == at + 8
    &&& tokens[at].token == TokenView::Ident(first)
    &&& tokens[at + 1].token == TokenView::Ident(b.0)
    &&& tokens[at + 2].token == match_token(b.1)
    &&& tokens[at + 3].token == TokenView::String(b.2)
    &&& tokens[at + 4].token == TokenView::Ident(second)
    &&& tokens[at + 5].token == TokenView::Ident(c.0)
    &&& tokens[at + 6].token == match_token(c.1)
    &&& tokens[at + 7].token == TokenView::String(c.2)
}

/// A filter that is neither of the regular expressions, so that it is never refused.
pub open spec fn is_plain(part: (Seq<char>, MatchOp, Seq<char>)) -> bool {
    part.1 == MatchOp::Equal || part.1 == MatchOp::NotEqual
}

/// `and` binds tighter than `or`, on whichever side it stands: `a or b and c` takes `b` and `c`
/// together, and `a and b or c` takes `a` and `b`.
pub proof fn law_and_binds_tighter_than_or(
    input: Seq<char>,
    tokens: Seq<SpannedView>,
    at: int,
    a: PredicateView,
    b: (Seq<char>, MatchOp, Seq<char>),
    c: (Seq<char>, MatchOp, Seq<char>),
)
    requires
        is_plain(b),
        is_plain(c),
    ensures
        ({
            let second = Predicate::Match(MatcherView { name: b.0, op: b.1, value: b.2 });
            let third = Predicate::Match(MatcherView { name: c.0, op: c.1, value: c.2 });
            &&& is_filter_tail(tokens, at, "or"@, "and"@, b, c) ==> alternatives_from(
                input,
                tokens,
                at,
                a,
            ) == Ok::<_, Fault>(
                (
                    Predicate::Or(
                        Box::new(a),
                        Box::new(Predicate::And(Box::new(second), Box::new(third))),
                    ),
                    at + 8,
                ),
            )
            &&& is_filter_tail(tokens, at, "and"@, "or"@, b, c) ==> alternatives_from(
                input,
                tokens,
                at,
                a,
            ) == Ok::<_, Fault>(
                (
                    Predicate::Or(
                        Box::new(Predicate::And(Box::new(a), Box::new(second))),
                        Box::new(third),
                    ),
                    at + 8,
                ),
            )
        }),
{
    reveal_strlit("or");
    reveal_strlit("and");
    assert("or"@.len() == 2 && "and"@.len() == 3);
    let second = Predicate::Match(MatcherView { name: b.0, op: b.1, value: b.2 });
    let third = Predicate::Match(MatcherView { name: c.0, op: c.1, value: c.2 });
    if is_filter_tail(tokens, at, "or"@, "and"@, b, c) {
        assert(filter_matcher_at(input, tokens, at + 2, b.0) == Ok::<_, Fault>((second, at + 4)));
        assert(filter_matcher_at(input, tokens, at + 6, c.0) == Ok::<_, Fault>((third, at + 8)));
        let both = Predicate::And(Box::new(second), Box::new(third));
        assert(conjuncts_from(input, tokens, at + 8, both) == Ok::<_, Fault>((both, at + 8)));
        assert(conjuncts_from(input, tokens, at + 4, second) == Ok::<_, Fault>((both, at + 8)));
        let all = Predicate::Or(Box::new(a), Box::new(both));
        assert(disjuncts_from(input, tokens, at + 8, all) == Ok::<_, Fault>((all, at + 8)));
    }
    if is_filter_tail(tokens, at, "and"@, "or"@, b, c) {
        assert(filter_matcher_at(input, tokens, at + 2, b.0) == Ok::<_, Fault>((second, at + 4)));
        assert(filter_matcher_at(input, tokens, at + 6, c.0) == Ok::<_, Fault>((third, at + 8)));
        let both = Predicate::And(Box::new(a), Box::new(second));
        assert(conjuncts_from(input, tokens, at + 4, both) == Ok::<_, Fault>((both, at + 4)));
        assert(conjuncts_from(input, tokens, at + 8, third) == Ok::<_, Fault>((third, at + 8)));
        let all = Predicate::Or(Box::new(both), Box::new(third));
        assert(disjuncts_from(input, tokens, at + 8, all) == Ok::<_, Fault>((all, at + 8)));
    }
}

/// Whether a text stands in another at a place.
pub open spec fn stands_at(s: Seq<char>, i: int, part: Seq<char>) -> bool {
    0 <= i && i + part.len() <= s.len() && s.subrange(i, i + part.len()) == part
}

/// A key as logfmt writes one: not empty, without `=` or spaces.
pub open spec fn is_key(key: Seq<char>) -> bool {
    key.len() > 0 && forall|k: int|
        0 <= k < key.len() ==> #[trigger] key[k] != '=' && !is_ascii_space(key[k])
}

/// A pair of logfmt sets its key, as a label, to its value, and the line goes on behind it:
/// `key=value` up to a space or the end, `key="value"` up to the quote, and a bare key as a
/// flag without a value.
pub proof fn law_logfmt_sets_its_pairs(
    line: Seq<char>,
    i: int,
    labels: Seq<Pair>,
    key: Seq<char>,
    value: Seq<char>,
)
    requires
        is_key(key),
        stands_at(line, i, key),
    ensures
        ({
            let at = i + key.len();
            let end = at + 1 + value.len();
            let name = sanitized(key);
            &&& at < line.len() && line[at] == '=' && value.len() > 0 && value[0] != '"' && (forall|
                k: int,
            |
                0 <= k < value.len() ==> !is_ascii_space(#[trigger] value[k])) && stands_at(
                line,
                at + 1,
                value,
            ) && (end == line.len() || is_ascii_space(line[end])) ==> logfmt_from(line, i, labels)
                == logfmt_from(line, end, inserted(labels, name, value))
            &&& at + 1 < line.len() && line[at] == '=' && line[at + 1] == '"' && stands_at(
                line,
                at + 2,
                value,
            ) && (forall|k: int|
                0 <= k < value.len() ==> #[trigger] value[k] != '"' && value[k] != '\\') && end + 1
                < line.len() && line[end + 1] == '"' ==> logfmt_from(line, i, labels)
                == logfmt_from(line, end + 2, inserted(labels, name, value))
            &&& at == line.len() || is_ascii_space(line[at]) ==> logfmt_from(line, i, labels)
                == logfmt_from(line, at, inserted(labels, name, Seq::empty()))
        }),
{
    let at = i + key.len();
    let end = at + 1 + value.len();
    reveal_strlit("");
    assert(""@ =~= Seq::<char>::empty());
    assert forall|k: int| i <= k < at implies line[k] == #[trigger] key[k - i] by {
        assert(line.subrange(i, at)[k - i] == line[k]);
    }
    assert forall|k: int| i <= k < at implies in_class(Class::Key, #[trigger] line[k]) by {
        assert(line[k] == key[k - i]);
    }
    assert(line[i] == key[0]);
    lemma_run_to(line, i, i, Class::Space);
    if at == line.len() || line[at] == '=' || is_ascii_space(line[at]) {
        lemma_run_to(line, i, at, Class::Key);
        assert(line.subrange(i, at) == key);
    }
    if at < line.len() && line[at] == '=' && value.len() > 0 && value[0] != '"' && (forall|k: int|
        0 <= k < value.len() ==> !is_ascii_space(#[trigger] value[k])) && stands_at(
        line,
        at + 1,
        value,
    ) && (end == line.len() || is_ascii_space(line[end])) {
        assert forall|k: int| at + 1 <= k < end implies in_class(
            Class::NotSpace,
            #[trigger] line[k],
        ) by {
            assert(line.subrange(at + 1, end)[k - at - 1] == line[k]);
            assert(value[k - at - 1] == line[k]);
        }
        assert(line.subrange(at + 1, end)[0] == line[at + 1]);
        lemma_run_to(line, at + 1, end, Class::NotSpace);
        assert(logfmt_value(line, at + 1) == (value, end));
    }
    if at + 1 < line.len() && line[at] == '=' && line[at + 1] == '"' && stands_at(
        line,
        at + 2,
        value,
    ) && (forall|k: int| 0 <= k < value.len() ==> #[trigger] value[k] != '"' && value[k] != '\\')
        && end + 1 < line.len() && line[end + 1] == '"' {
        lemma_quoted_to(line, at + 2, value, Seq::empty());
        assert(Seq::<char>::empty() + value =~= value);
        assert(logfmt_value(line, at + 1) == (value, end + 2));
    }
}

proof fn lemma_quoted_to(line: Seq<char>, i: int, value: Seq<char>, out: Seq<char>)
    requires
        stands_at(line, i, value),
        forall|k: int| 0 <= k < value.len() ==> #[trigger] value[k] != '"' && value[k] != '\\',
        i + value.len() < line.len(),
        line[i + value.len()] == '"',
    ensures
        logfmt_quoted(line, i, out) == (out + value, i + value.len() + 1),
    decreases value.len(),
{
    if value.len() == 0 {
        assert(out + value =~= out);
    } else {
        let rest = value.drop_first();
        assert(line.subrange(i, i + value.len())[0] == line[i]);
        assert(line[i] == value[0]);
        assert(line.subrange(i + 1, i + 1 + rest.len()) =~= rest) by {
            assert forall|k: int| 0 <= k < rest.len() implies line.subrange(
                i + 1,
                i + 1 + rest.len(),
            )[k] == rest[k] by {
                assert(line.subrange(i, i + value.len())[k + 1] == line[i + 1 + k]);
            }
        }
        assert forall|k: int| 0 <= k < rest.len() implies #[trigger] rest[k] != '"' && rest[k]
            != '\\' by {
            assert(rest[k] == value[k + 1]);
        }
        lemma_quoted_to(line, i + 1, rest, out.push(line[i]));
        assert(out.push(line[i]) + rest =~= out + value);
    }
}

/// A field inside an object is a label under both names, joined with `_`.
pub proof fn law_nested_fields_are_joined(
    line: Seq<char>,
    outer: Seq<char>,
    inner: Seq<char>,
    value: Seq<char>,
    labels: Seq<Pair>,
)
    requires
        sorted(labels),
        json_parsed(line) == Some(
            Shape::Object(seq![(outer, Shape::Object(seq![(inner, Shape::Text(value))]))]),
        ),
    ensures
        lookup(json_merged(labels, line), sanitized(outer) + "_"@ + sanitized(inner)) == Some(value),
{
    let name = sanitized(outer) + "_"@ + sanitized(inner);
    reveal_strlit("");
    reveal_strlit("_");
    law_sanitized_is_label_name(outer);
    law_sanitized_is_label_name(inner);
    let nested = Shape::Object(seq![(inner, Shape::Text(value))]);
    let whole = Shape::Object(seq![(outer, nested)]);
    reveal_with_fuel(flattened, 3);
    reveal_with_fuel(flattened_members, 3);
    assert(flattened(labels, sanitized(outer), nested) == inserted(labels, name, value));
    assert(flattened(labels, ""@, whole) == inserted(labels, name, value));
    law_insert_then_get(labels, name, value, name);
}

// ---------------------------------------------------------------------------
// Trace queries
// ---------------------------------------------------------------------------

/// The token that writes a comparison.
pub open spec fn compare_token(op: CompareOp) -> TokenView {
    match op {
        CompareOp::Equal => TokenView::Equal,
        CompareOp::NotEqual => TokenView::NotEqual,
        CompareOp::Regex => TokenView::RegexMatch,
        CompareOp::Greater => TokenView::Greater,
        CompareOp::GreaterEqual => TokenView::GreaterEqual,
        CompareOp::Less => TokenView::Less,
        CompareOp::LessEqual => TokenView::LessEqual,
    }
}

/// A condition is read as it is written: its field, the comparison between, and a text, a
/// number or a duration.
pub proof fn law_a_written_condition_is_read(
    input: Seq<char>,
    tokens: Seq<SpannedView>,
    at: int,
    path: Seq<char>,
    field: FieldView,
    op: CompareOp,
    value: ConstantView,
)
    requires
        0 <= at,
        at + 3 <= tokens.len(),
        tokens[at].token == TokenView::Ident(path),
        field_of(path) == Ok::<FieldView, Fault>(field),
        tokens[at + 1].token == compare_token(op),
        match value {
            Literal::Str(text) => tokens[at + 2].token == TokenView::String(text),
            Literal::Number(text) => tokens[at + 2].token == TokenView::Number(text),
            Literal::Duration(nanos) => tokens[at + 2].token == TokenView::Duration(nanos),
            _ => false,
        },
        op == CompareOp::Regex ==> value is Str && regex_error(value->Str_0) is None,
    ensures
        condition_at(input, tokens, at) == Ok::<_, Fault>(
            (ConditionView { field, op, value }, at + 3),
        ),
{
}

/// `resource.` names a label of the stream, under the name that labels have, and `span.` an
/// attribute of the span; the bare words are the span's own.
pub proof fn law_fields_are_named_by_their_scope(name: Seq<char>)
    ensures
        field_of("resource."@ + name) == Ok::<FieldView, Fault>(
            FieldView::Resource(sanitized(name)),
        ),
        field_of("span."@ + name) == Ok::<FieldView, Fault>(FieldView::Span(name)),
        field_of("name"@) == Ok::<FieldView, Fault>(FieldView::Intrinsic(Intrinsic::Name)),
        field_of("status"@) == Ok::<FieldView, Fault>(FieldView::Intrinsic(Intrinsic::Status)),
        field_of("duration"@) == Ok::<FieldView, Fault>(FieldView::Intrinsic(Intrinsic::Duration)),
        field_of("kind"@) == Ok::<FieldView, Fault>(FieldView::Intrinsic(Intrinsic::Kind)),
{
    reveal_strlit("resource.");
    reveal_strlit("resource");
    reveal_strlit("span.");
    reveal_strlit("span");
    reveal_strlit("name");
    reveal_strlit("status");
    reveal_strlit("duration");
    reveal_strlit("kind");
    let resource = "resource."@ + name;
    let span = "span."@ + name;
    lemma_dot(resource, 8);
    lemma_dot(span, 4);
    assert(resource.take(8) =~= "resource"@);
    assert(resource.skip(9) =~= name);
    assert(span.take(4) =~= "span"@);
    assert(span.skip(5) =~= name);
    assert(span.take(4).len() != "resource"@.len());
    lemma_no_dot("name"@);
    lemma_no_dot("status"@);
    lemma_no_dot("duration"@);
    lemma_no_dot("kind"@);
    assert("name"@[0] == 'n' && "status"@[0] == 's' && "duration"@[0] == 'd' && "kind"@[0] == 'k');
}

proof fn lemma_dot(s: Seq<char>, at: int)
    requires
        0 <= at < s.len(),
        s[at] == '.',
        forall|i: int| 0 <= i < at ==> #[trigger] s[i] != '.',
    ensures
        crate::text::find_from(s, '.', 0) == at,
{
    lemma_dot_from(s, at, 0);
}

proof fn lemma_dot_from(s: Seq<char>, at: int, i: int)
    requires
        0 <= i <= at < s.len(),
        s[at] == '.',
        forall|i: int| 0 <= i < at ==> #[trigger] s[i] != '.',
    ensures
        crate::text::find_from(s, '.', i) == at,
    decreases at - i,
{
    if i < at {
        lemma_dot_from(s, at, i + 1);
    }
}

proof fn lemma_no_dot(s: Seq<char>)
    requires
        forall|i: int| 0 <= i < s.len() ==> #[trigger] s[i] != '.',
    ensures
        crate::text::find_from(s, '.', 0) == s.len(),
{
    lemma_no_dot_from(s, 0);
}

proof fn lemma_no_dot_from(s: Seq<char>, i: int)
    requires
        0 <= i <= s.len(),
        forall|i: int| 0 <= i < s.len() ==> #[trigger] s[i] != '.',
    ensures
        crate::text::find_from(s, '.', i) == s.len(),
    decreases s.len() - i,
{
    if i < s.len() {
        lemma_no_dot_from(s, i + 1);
    }
}

/// Conditions with `&&` between them are all asked for, in their order.
pub proof fn law_conditions_are_joined(
    input: Seq<char>,
    tokens: Seq<SpannedView>,
    at: int,
    first: ConditionView,
    second: ConditionView,
)
    requires
        0 <= at,
        at + 8 <= tokens.len(),
        condition_at(input, tokens, at) == Ok::<_, Fault>((first, at + 3)),
        tokens[at + 3].token == TokenView::AndAnd,
        condition_at(input, tokens, at + 4) == Ok::<_, Fault>((second, at + 7)),
        tokens[at + 7].token == TokenView::RightBrace,
    ensures
        match conditions_from(input, tokens, at, Seq::empty()) {
            Ok((conditions, end)) => end == at + 8 && conditions.len() == 2 && conditions[0]
                == first && conditions[1] == second,
            Err(_) => false,
        },
{
    let one = Seq::<ConditionView>::empty().push(first);
    let both = one.push(second);
    assert(conditions_from(input, tokens, at + 4, one) == Ok::<_, Fault>((both, at + 8)));
}

} // verus!
