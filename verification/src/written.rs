//! Queries and durations that are written are read back.
use vstd::arithmetic::power2::{lemma2_to64, pow2};
use vstd::prelude::*;

use crate::error::Fault;
use crate::labels::{is_name_char, Pair};
use crate::lexer::{
    duration_from, ident_end, is_number, mantissa_end, number_end, quoted_from, run, saturated,
    skipped, token_at, tokenized, tokens_from, unescaped, unit_nanos, Class, Lexed, Placed,
    SpannedView, TokenView,
};
use crate::logql::{
    any_selective, log_query, passes, stage_at, stages_from, LineOp, LogQueryView, StageView,
};
use crate::loki::loki_time;
use crate::matcher::{MatchOp, MatcherView};
use crate::nearest::{is_held, law_products_of_doubles_are_exact, lemma_whole, product};
use crate::parser::{matchers_from, token_of, Dialect};
use crate::seconds::mantissa_digits;
use crate::text::{
    all_digits, decimal, digit_char, digits_value, is_digit, is_letter, parse_signed,
    parse_unsigned, signed_decimal, trim, utf8_len,
};

verus! {

// ---------------------------------------------------------------------------
// What is written
// ---------------------------------------------------------------------------

/// A text as it stands between double quotes.
pub open spec fn escaped(text: Seq<char>) -> Seq<char>
    decreases text.len(),
{
    if text.len() == 0 {
        text
    } else if text[0] == '"' || text[0] == '\\' {
        seq!['\\', text[0]] + escaped(text.drop_first())
    } else {
        seq![text[0]] + escaped(text.drop_first())
    }
}

/// A text between double quotes.
pub open spec fn quoted(text: Seq<char>) -> Seq<char> {
    seq!['"'] + escaped(text) + seq!['"']
}

/// A matcher for an equal value.
pub open spec fn matcher_text(pair: Pair) -> Seq<char> {
    pair.0 + (seq!['='] + quoted(pair.1))
}

/// Matchers, with commas between them and a brace behind them.
pub open spec fn matchers_text(pairs: Seq<Pair>) -> Seq<char>
    decreases pairs.len(),
{
    if pairs.len() == 0 {
        seq!['}']
    } else if pairs.len() == 1 {
        matcher_text(pairs[0]) + seq!['}']
    } else {
        matcher_text(pairs[0]) + (seq![',', ' '] + matchers_text(pairs.drop_first()))
    }
}

/// A filter on the line: whether it has to contain a text, and the text.
pub type Needle = (bool, Seq<char>);

pub open spec fn filters_text(filters: Seq<Needle>) -> Seq<char>
    decreases filters.len(),
{
    if filters.len() == 0 {
        Seq::empty()
    } else {
        (if filters[0].0 {
            seq![' ', '|', '=', ' ']
        } else {
            seq![' ', '!', '=', ' ']
        }) + (quoted(filters[0].1) + filters_text(filters.drop_first()))
    }
}

/// A log query with matchers for equal values and filters on the line.
pub open spec fn query_text(pairs: Seq<Pair>, filters: Seq<Needle>) -> Seq<char> {
    seq!['{'] + (matchers_text(pairs) + filters_text(filters))
}

/// A name that is a single token: a letter or `_`, then letters, digits and `_`.
pub open spec fn is_plain_name(name: Seq<char>) -> bool {
    name.len() > 0 && (is_letter(name[0]) || name[0] == '_') && (forall|i: int|
        0 <= i < name.len() ==> is_name_char(#[trigger] name[i]))
}

pub open spec fn plain_names(pairs: Seq<Pair>) -> bool {
    forall|i: int| 0 <= i < pairs.len() ==> is_plain_name((#[trigger] pairs[i]).0)
}

// ---------------------------------------------------------------------------
// Tokens
// ---------------------------------------------------------------------------

/// The tokens without their places.
pub open spec fn kinds(tokens: Seq<SpannedView>) -> Seq<TokenView> {
    tokens.map_values(|token: SpannedView| token.token)
}

pub open spec fn matcher_kinds(pairs: Seq<Pair>) -> Seq<TokenView>
    decreases pairs.len(),
{
    if pairs.len() == 0 {
        seq![TokenView::RightBrace]
    } else {
        seq![TokenView::Ident(pairs[0].0), TokenView::Equal, TokenView::String(pairs[0].1)] + (
        if pairs.len() == 1 {
            seq![TokenView::RightBrace]
        } else {
            seq![TokenView::Comma] + matcher_kinds(pairs.drop_first())
        })
    }
}

pub open spec fn filter_kinds(filters: Seq<Needle>) -> Seq<TokenView>
    decreases filters.len(),
{
    if filters.len() == 0 {
        Seq::empty()
    } else {
        seq![
            if filters[0].0 {
                TokenView::LineContains
            } else {
                TokenView::NotEqual
            },
            TokenView::String(filters[0].1),
        ] + filter_kinds(filters.drop_first())
    }
}

/// The text from a position on starts with `piece`.
spec fn stands_at(s: Seq<char>, i: int, piece: Seq<char>) -> bool {
    0 <= i && i + piece.len() <= s.len() && s.subrange(i, i + piece.len()) == piece
}

proof fn lemma_stands(s: Seq<char>, i: int, a: Seq<char>, b: Seq<char>)
    requires
        stands_at(s, i, a + b),
    ensures
        stands_at(s, i, a),
        stands_at(s, i + a.len(), b),
        forall|k: int| 0 <= k < a.len() ==> s[i + k] == #[trigger] a[k],
{
    let both = a + b;
    assert forall|k: int| 0 <= k < both.len() implies s[i + k] == #[trigger] both[k] by {
        assert(s.subrange(i, i + both.len())[k] == s[i + k]);
    }
    assert(s.subrange(i, i + a.len()) =~= a) by {
        assert forall|k: int| 0 <= k < a.len() implies s.subrange(i, i + a.len())[k] == a[k] by {
            assert(both[k] == a[k]);
        }
    }
    assert(s.subrange(i + a.len(), i + a.len() + b.len()) =~= b) by {
        assert forall|k: int| 0 <= k < b.len() implies s.subrange(
            i + a.len(),
            i + a.len() + b.len(),
        )[k] == b[k] by {
            assert(both[a.len() + k] == b[k]);
        }
    }
    assert forall|k: int| 0 <= k < a.len() implies s[i + k] == #[trigger] a[k] by {
        assert(both[k] == a[k]);
    }
}

/// A quoted text is read back.
proof fn lemma_quoted_text(
    s: Seq<char>,
    start: int,
    i: int,
    text: Seq<char>,
    out: Seq<char>,
)
    requires
        stands_at(s, i, escaped(text) + seq!['"']),
    ensures
        quoted_from(s, start, i, '"', out) == Lexed::Ok(
            (TokenView::String(out + text), i + escaped(text).len() + 1),
        ),
    decreases text.len(),
{
    let tail = seq!['"'];
    if text.len() == 0 {
        lemma_stands(s, i, escaped(text), tail);
        lemma_stands(s, i, tail, Seq::empty());
        assert(tail[0] == '"');
        assert(s[i] == '"') by {
            assert(s[i + 0] == tail[0]);
        }
        assert(out + text =~= out);
    } else {
        let rest = text.drop_first();
        let first = if text[0] == '"' || text[0] == '\\' {
            seq!['\\', text[0]]
        } else {
            seq![text[0]]
        };
        assert(escaped(text) + tail =~= first + (escaped(rest) + tail));
        lemma_stands(s, i, first, escaped(rest) + tail);
        assert(s[i + 0] == first[0]);
        if first.len() == 2 {
            assert(s[i + 1] == first[1]);
            assert(unescaped(text[0]) == seq![text[0]]);
            lemma_quoted_text(s, start, i + 2, rest, out + seq![text[0]]);
            assert((out + seq![text[0]]) + rest =~= out + text);
        } else {
            lemma_quoted_text(s, start, i + 1, rest, out.push(text[0]));
            assert(out.push(text[0]) + rest =~= out + text);
        }
    }
}

proof fn lemma_kinds_push(tokens: Seq<SpannedView>, token: SpannedView)
    ensures
        kinds(tokens.push(token)) == kinds(tokens).push(token.token),
{
    assert(kinds(tokens.push(token)) =~= kinds(tokens).push(token.token));
}

/// One token is read, and reading goes on behind it.
proof fn lemma_one_token(
    s: Seq<char>,
    i: int,
    at: int,
    token: TokenView,
    end: int,
    out: Seq<SpannedView>,
) -> (next: Seq<SpannedView>)
    requires
        0 <= i <= at < s.len(),
        skipped(s, i, false) == at,
        token_at(s, at) == Lexed::Ok((token, end)),
    ensures
        tokens_from(s, i, out) == tokens_from(s, end, next),
        kinds(next) == kinds(out).push(token),
{
    let placed = Placed { token, offset: utf8_len(s.take(at)) as usize };
    lemma_kinds_push(out, placed);
    out.push(placed)
}

proof fn lemma_string_token(s: Seq<char>, i: int, text: Seq<char>, rest: Seq<char>, out: Seq<
    SpannedView,
>) -> (next: Seq<SpannedView>)
    requires
        stands_at(s, i, quoted(text) + rest),
    ensures
        tokens_from(s, i, out) == tokens_from(s, i + quoted(text).len(), next),
        kinds(next) == kinds(out).push(TokenView::String(text)),
{
    let tail = escaped(text) + seq!['"'];
    lemma_stands(s, i, quoted(text), rest);
    assert(quoted(text) =~= seq!['"'] + tail);
    lemma_stands(s, i, seq!['"'], tail);
    assert(s[i + 0] == seq!['"'][0]);
    lemma_quoted_text(s, i, i + 1, text, Seq::empty());
    assert(Seq::<char>::empty() + text =~= text);
    lemma_one_token(s, i, i, TokenView::String(text), i + quoted(text).len(), out)
}

proof fn lemma_name_end(s: Seq<char>, i: int, end: int)
    requires
        0 <= i <= end < s.len(),
        forall|k: int| i <= k < end ==> is_name_char(#[trigger] s[k]),
        s[end] == '=',
    ensures
        ident_end(s, i) == end,
    decreases end - i,
{
    if i < end {
        lemma_name_end(s, i + 1, end);
    }
}

/// A matcher is three tokens.
proof fn lemma_matcher_tokens(
    s: Seq<char>,
    i: int,
    pair: Pair,
    rest: Seq<char>,
    out: Seq<SpannedView>,
) -> (next: Seq<SpannedView>)
    requires
        is_plain_name(pair.0),
        stands_at(s, i, matcher_text(pair) + rest),
    ensures
        tokens_from(s, i, out) == tokens_from(s, i + matcher_text(pair).len(), next),
        kinds(next) == kinds(out) + seq![
            TokenView::Ident(pair.0),
            TokenView::Equal,
            TokenView::String(pair.1),
        ],
{
    let name = pair.0;
    let value = quoted(pair.1) + rest;
    let equal = seq!['='] + value;
    assert(matcher_text(pair) + rest =~= name + equal);
    lemma_stands(s, i, name, equal);
    let at = i + name.len();
    lemma_stands(s, at, seq!['='], value);
    assert(s[at + 0] == seq!['='][0]);
    assert forall|k: int| i <= k < at implies is_name_char(#[trigger] s[k]) by {
        assert(s[i + (k - i)] == name[k - i]);
    }
    lemma_name_end(s, i, at);
    assert(s[i + 0] == name[0]);
    assert(s.subrange(i, at) =~= name);
    let first = lemma_one_token(s, i, i, TokenView::Ident(name), at, out);
    assert(value[0] == '"') by {
        assert(quoted(pair.1)[0] == '"');
    }
    assert(s[at + 1] == '"') by {
        assert(s.subrange(at + 1, at + 1 + value.len())[0] == value[0]);
    }
    let second = lemma_one_token(s, at, at, TokenView::Equal, at + 1, first);
    let third = lemma_string_token(s, at + 1, pair.1, rest, second);
    assert(kinds(third) =~= kinds(out) + seq![
        TokenView::Ident(name),
        TokenView::Equal,
        TokenView::String(pair.1),
    ]);
    third
}

proof fn lemma_selector_tokens(
    s: Seq<char>,
    i: int,
    pairs: Seq<Pair>,
    rest: Seq<char>,
    out: Seq<SpannedView>,
) -> (next: Seq<SpannedView>)
    requires
        plain_names(pairs),
        pairs.len() > 0,
        stands_at(s, i, matchers_text(pairs) + rest),
    ensures
        tokens_from(s, i, out) == tokens_from(s, i + matchers_text(pairs).len(), next),
        kinds(next) == kinds(out) + matcher_kinds(pairs),
    decreases pairs.len(),
{
    let first = matcher_text(pairs[0]);
    let three = seq![
        TokenView::Ident(pairs[0].0),
        TokenView::Equal,
        TokenView::String(pairs[0].1),
    ];
    assert(is_plain_name(pairs[0].0));
    if pairs.len() == 1 {
        let brace = seq!['}'] + rest;
        assert(matchers_text(pairs) + rest =~= first + brace);
        let done = lemma_matcher_tokens(s, i, pairs[0], brace, out);
        lemma_stands(s, i, first, brace);
        let at = i + first.len();
        lemma_stands(s, at, seq!['}'], rest);
        assert(s[at + 0] == seq!['}'][0]);
        let next = lemma_one_token(s, at, at, TokenView::RightBrace, at + 1, done);
        assert(kinds(next) =~= kinds(out) + matcher_kinds(pairs));
        next
    } else {
        let others = pairs.drop_first();
        let more = matchers_text(others) + rest;
        let comma = seq![',', ' '] + more;
        assert(matchers_text(pairs) + rest =~= first + comma);
        let done = lemma_matcher_tokens(s, i, pairs[0], comma, out);
        lemma_stands(s, i, first, comma);
        let at = i + first.len();
        lemma_stands(s, at, seq![',', ' '], more);
        assert(s[at + 0] == seq![',', ' '][0]);
        assert(s[at + 1] == seq![',', ' '][1]);
        let next = lemma_one_token(s, at, at, TokenView::Comma, at + 1, done);
        assert forall|k: int| 0 <= k < others.len() implies is_plain_name(
            (#[trigger] others[k]).0,
        ) by {
            assert(others[k] == pairs[k + 1]);
        }
        lemma_skip_space(s, at + 1, others, rest);
        let all = lemma_selector_tokens(s, at + 2, others, rest, next);
        lemma_same_from_space(s, at + 1, next);
        assert(kinds(all) =~= kinds(out) + matcher_kinds(pairs));
        all
    }
}

/// Behind the space after a comma a name starts.
proof fn lemma_skip_space(s: Seq<char>, i: int, pairs: Seq<Pair>, rest: Seq<char>)
    requires
        0 <= i < s.len(),
        s[i] == ' ',
        pairs.len() > 0,
        plain_names(pairs),
        stands_at(s, i + 1, matchers_text(pairs) + rest),
    ensures
        skipped(s, i, false) == i + 1,
        i + 1 < s.len(),
{
    assert(is_plain_name(pairs[0].0));
    let name = pairs[0].0;
    let text = matchers_text(pairs) + rest;
    assert(text[0] == name[0]);
    assert(s[i + 1] == name[0]) by {
        assert(s.subrange(i + 1, i + 1 + text.len())[0] == text[0]);
    }
    assert(is_name_char(name[0]));
    assert(skipped(s, i + 1, false) == i + 1);
}

/// Reading from a space reads what is behind it.
proof fn lemma_same_from_space(s: Seq<char>, i: int, out: Seq<SpannedView>)
    requires
        0 <= i,
        i + 1 < s.len(),
        s[i] == ' ',
        skipped(s, i, false) == i + 1,
    ensures
        tokens_from(s, i, out) == tokens_from(s, i + 1, out),
{
    assert(skipped(s, i + 1, false) == i + 1);
}

proof fn lemma_filter_tokens(s: Seq<char>, i: int, filters: Seq<Needle>, out: Seq<SpannedView>) -> (next: Seq<
    SpannedView,
>)
    requires
        stands_at(s, i, filters_text(filters)),
    ensures
        tokens_from(s, i, out) == tokens_from(s, i + filters_text(filters).len(), next),
        kinds(next) == kinds(out) + filter_kinds(filters),
    decreases filters.len(),
{
    if filters.len() == 0 {
        assert(kinds(out) =~= kinds(out) + filter_kinds(filters));
        out
    } else {
        let others = filters.drop_first();
        let op = if filters[0].0 {
            seq![' ', '|', '=', ' ']
        } else {
            seq![' ', '!', '=', ' ']
        };
        let kind = if filters[0].0 {
            TokenView::LineContains
        } else {
            TokenView::NotEqual
        };
        let more = filters_text(others);
        let text = quoted(filters[0].1) + more;
        assert(filters_text(filters) =~= op + text);
        lemma_stands(s, i, op, text);
        assert(s[i + 0] == op[0] && s[i + 1] == op[1] && s[i + 2] == op[2] && s[i + 3] == op[3]);
        assert(skipped(s, i, false) == i + 1) by {
            assert(skipped(s, i + 1, false) == i + 1);
        }
        let first = lemma_one_token(s, i, i + 1, kind, i + 3, out);
        assert(text[0] == '"') by {
            assert(quoted(filters[0].1)[0] == '"');
        }
        assert(s[i + 4] == '"') by {
            assert(s.subrange(i + 4, i + 4 + text.len())[0] == text[0]);
        }
        assert(skipped(s, i + 3, false) == i + 4) by {
            assert(skipped(s, i + 4, false) == i + 4);
        }
        lemma_same_from_space(s, i + 3, first);
        let second = lemma_string_token(s, i + 4, filters[0].1, more, first);
        lemma_stands(s, i + 4, quoted(filters[0].1), more);
        let at = i + 4 + quoted(filters[0].1).len();
        let all = lemma_filter_tokens(s, at, others, second);
        assert(kinds(all) =~= kinds(out) + filter_kinds(filters));
        all
    }
}

/// The tokens of a written query.
proof fn lemma_query_tokens(pairs: Seq<Pair>, filters: Seq<Needle>) -> (tokens: Seq<SpannedView>)
    requires
        plain_names(pairs),
        pairs.len() > 0,
    ensures
        tokenized(query_text(pairs, filters)) == Ok::<Seq<SpannedView>, Fault>(tokens),
        kinds(tokens) == seq![TokenView::LeftBrace] + matcher_kinds(pairs) + filter_kinds(filters),
{
    let s = query_text(pairs, filters);
    let inner = matchers_text(pairs) + filters_text(filters);
    let none = Seq::<SpannedView>::empty();
    assert(s.subrange(0, s.len() as int) =~= s);
    lemma_stands(s, 0, seq!['{'], inner);
    assert(s[0] == seq!['{'][0]) by {
        assert(s[0 + 0int] == seq!['{'][0]);
    }
    let first = lemma_one_token(s, 0, 0, TokenView::LeftBrace, 1, none);
    let second = lemma_selector_tokens(s, 1, pairs, filters_text(filters), first);
    lemma_stands(s, 1, matchers_text(pairs), filters_text(filters));
    let at = 1 + matchers_text(pairs).len() as int;
    let third = lemma_filter_tokens(s, at, filters, second);
    assert(at + filters_text(filters).len() == s.len());
    assert(tokens_from(s, s.len() as int, third) == Ok::<Seq<SpannedView>, Fault>(third));
    assert(kinds(third) =~= seq![TokenView::LeftBrace] + matcher_kinds(pairs) + filter_kinds(
        filters,
    ));
    third
}

// ---------------------------------------------------------------------------
// What is read
// ---------------------------------------------------------------------------

pub open spec fn equal_matchers(pairs: Seq<Pair>) -> Seq<MatcherView> {
    pairs.map_values(
        |pair: Pair| MatcherView { name: pair.0, op: MatchOp::Equal, value: pair.1 },
    )
}

pub open spec fn line_stage(filter: Needle) -> StageView {
    StageView::Line(
        if filter.0 {
            LineOp::Contains
        } else {
            LineOp::NotContains
        },
        filter.1,
    )
}

pub open spec fn line_stages(filters: Seq<Needle>) -> Seq<StageView> {
    filters.map_values(|filter: Needle| line_stage(filter))
}

proof fn lemma_token_kind(tokens: Seq<SpannedView>, at: int)
    requires
        0 <= at < tokens.len(),
    ensures
        token_of(tokens, at) == Some(kinds(tokens)[at]),
{
}

proof fn lemma_matchers_parsed(
    input: Seq<char>,
    tokens: Seq<SpannedView>,
    at: int,
    pairs: Seq<Pair>,
    out: Seq<MatcherView>,
)
    requires
        0 <= at,
        pairs.len() > 0,
        at + matcher_kinds(pairs).len() <= tokens.len(),
        kinds(tokens).subrange(at, at + matcher_kinds(pairs).len()) == matcher_kinds(pairs),
    ensures
        matchers_from(Dialect::Log, input, tokens, at, out) == Ok::<(Seq<MatcherView>, int), Fault>(
            (out + equal_matchers(pairs), at + matcher_kinds(pairs).len()),
        ),
    decreases pairs.len(),
{
    let expected = matcher_kinds(pairs);
    let all = kinds(tokens);
    assert forall|k: int| 0 <= k < expected.len() implies token_of(tokens, at + k) == Some(
        #[trigger] expected[k],
    ) by {
        assert(all.subrange(at, at + expected.len())[k] == all[at + k]);
        lemma_token_kind(tokens, at + k);
    }
    let matcher = MatcherView { name: pairs[0].0, op: MatchOp::Equal, value: pairs[0].1 };
    assert(token_of(tokens, at + 0) == Some(expected[0]));
    assert(token_of(tokens, at + 1) == Some(expected[1]));
    assert(token_of(tokens, at + 2) == Some(expected[2]));
    assert(token_of(tokens, at + 3) == Some(expected[3]));
    if pairs.len() == 1 {
        assert(out.push(matcher) =~= out + equal_matchers(pairs));
    } else {
        let others = pairs.drop_first();
        let rest = matcher_kinds(others);
        assert(expected =~= seq![expected[0], expected[1], expected[2], expected[3]] + rest);
        assert(expected[4] == rest[0]);
        assert(token_of(tokens, at + 4) == Some(expected[4]));
        assert(all.subrange(at + 4, at + 4 + rest.len()) =~= rest) by {
            assert forall|k: int| 0 <= k < rest.len() implies all.subrange(
                at + 4,
                at + 4 + rest.len(),
            )[k] == rest[k] by {
                assert(all.subrange(at, at + expected.len())[k + 4] == expected[k + 4]);
            }
        }
        lemma_matchers_parsed(input, tokens, at + 4, others, out.push(matcher));
        assert(out.push(matcher) + equal_matchers(others) =~= out + equal_matchers(pairs));
    }
}

proof fn lemma_filter_stage(
    input: Seq<char>,
    tokens: Seq<SpannedView>,
    at: int,
    filter: Needle,
)
    requires
        token_of(tokens, at) == Some(
            if filter.0 {
                TokenView::LineContains
            } else {
                TokenView::NotEqual
            },
        ),
        token_of(tokens, at + 1) == Some(TokenView::String(filter.1)),
    ensures
        stage_at(input, tokens, at) == Ok::<(StageView, int), Fault>((line_stage(filter), at + 2)),
{
}

proof fn lemma_filters_parsed(
    input: Seq<char>,
    tokens: Seq<SpannedView>,
    at: int,
    filters: Seq<Needle>,
    out: Seq<StageView>,
)
    requires
        0 <= at,
        at + filter_kinds(filters).len() == tokens.len(),
        kinds(tokens).skip(at) == filter_kinds(filters),
    ensures
        stages_from(input, tokens, at, out) == Ok::<Seq<StageView>, Fault>(
            out + line_stages(filters),
        ),
    decreases filters.len(),
{
    let expected = filter_kinds(filters);
    let all = kinds(tokens);
    if filters.len() == 0 {
        assert(out + line_stages(filters) =~= out);
    } else {
        let others = filters.drop_first();
        assert(all.skip(at)[0] == expected[0]);
        assert(all.skip(at)[1] == expected[1]);
        lemma_token_kind(tokens, at);
        lemma_token_kind(tokens, at + 1);
        assert(all.skip(at + 2) =~= filter_kinds(others)) by {
            assert forall|k: int| 0 <= k < filter_kinds(others).len() implies all.skip(at + 2)[k]
                == filter_kinds(others)[k] by {
                assert(all.skip(at)[k + 2] == expected[k + 2]);
            }
        }
        let stage = line_stage(filters[0]);
        lemma_filter_stage(input, tokens, at, filters[0]);
        lemma_filters_parsed(input, tokens, at + 2, others, out.push(stage));
        assert(out.push(stage) + line_stages(others) =~= out + line_stages(filters));
    }
}

// ---------------------------------------------------------------------------
// Laws
// ---------------------------------------------------------------------------

/// A query built from plain names, any values and any line filters parses, and its
/// matchers and filters are those that were written. The one refusal is of a selector that
/// asks for no value at all.
pub proof fn law_a_written_query_is_read_back(pairs: Seq<Pair>, filters: Seq<Needle>)
    requires
        plain_names(pairs),
        pairs.len() > 0,
    ensures
        (exists|i: int| 0 <= i < pairs.len() && (#[trigger] pairs[i]).1.len() > 0) ==> log_query(
            query_text(pairs, filters),
        ) == Ok::<LogQueryView, Fault>(
            LogQueryView { matchers: equal_matchers(pairs), stages: line_stages(filters) },
        ),
        (forall|i: int| 0 <= i < pairs.len() ==> (#[trigger] pairs[i]).1.len() == 0)
            ==> log_query(query_text(pairs, filters)) is Err,
{
    let input = query_text(pairs, filters);
    let tokens = lemma_query_tokens(pairs, filters);
    let all = kinds(tokens);
    let inner = matcher_kinds(pairs);
    assert(all.len() == tokens.len());
    assert(inner.len() >= 4);
    lemma_token_kind(tokens, 0);
    assert(all[0] == TokenView::LeftBrace);
    assert(all[1] == inner[0]);
    lemma_token_kind(tokens, 1);
    assert(all.subrange(1, 1 + inner.len() as int) =~= inner);
    lemma_matchers_parsed(input, tokens, 1, pairs, Seq::empty());
    let matchers = equal_matchers(pairs);
    assert(Seq::<MatcherView>::empty() + matchers =~= matchers);
    reveal_strlit("");
    if exists|i: int| 0 <= i < pairs.len() && (#[trigger] pairs[i]).1.len() > 0 {
        let i = choose|i: int| 0 <= i < pairs.len() && (#[trigger] pairs[i]).1.len() > 0;
        assert(matchers[i].selective());
        let at = 1 + inner.len() as int;
        assert(all.skip(at) =~= filter_kinds(filters));
        lemma_filters_parsed(input, tokens, at, filters, Seq::empty());
        assert(Seq::<StageView>::empty() + line_stages(filters) =~= line_stages(filters));
    }
    if forall|i: int| 0 <= i < pairs.len() ==> (#[trigger] pairs[i]).1.len() == 0 {
        assert forall|i: int| 0 <= i < matchers.len() implies !(
        #[trigger] matchers[i]).selective() by {
            assert(pairs[i].1.len() == 0);
            assert(matchers[i].value =~= ""@);
        }
        assert(!any_selective(matchers));
    }
}

/// A written line filter passes exactly the lines that contain its text, or that do not.
pub proof fn law_a_written_filter_is_containment(
    pairs: Seq<Pair>,
    filter: Needle,
    line: Seq<char>,
    labels: Seq<Pair>,
)
    requires
        plain_names(pairs),
        exists|i: int| 0 <= i < pairs.len() && (#[trigger] pairs[i]).1.len() > 0,
    ensures
        match log_query(query_text(pairs, seq![filter])) {
            Ok(query) => passes(query.stages, line, labels) == (filter.0
                == crate::text::occurs(line, filter.1)),
            Err(_) => false,
        },
{
    law_a_written_query_is_read_back(pairs, seq![filter]);
    let stages = line_stages(seq![filter]);
    assert(stages[0] == line_stage(filter));
    assert(stages.drop_first() =~= Seq::empty());
    assert(passes(stages.drop_first(), line, labels));
}

proof fn lemma_digit(d: nat)
    requires
        d < 10,
    ensures
        is_digit(digit_char(d)),
        digit_char(d) as u32 - '0' as u32 == d,
{
}

proof fn lemma_decimal(n: nat)
    ensures
        decimal(n).len() > 0,
        forall|i: int| 0 <= i < decimal(n).len() ==> is_digit(#[trigger] decimal(n)[i]),
        digits_value(decimal(n)) == n,
    decreases n,
{
    if n < 10 {
        let s = decimal(n);
        assert(s.drop_last() =~= Seq::empty());
        assert(s.last() == digit_char(n));
        assert(digits_value(s.drop_last()) == 0);
        lemma_digit(n);
    } else {
        lemma_decimal(n / 10);
        lemma_digit(n % 10);
        let s = decimal(n);
        assert(s.drop_last() =~= decimal(n / 10));
        assert(s.last() == digit_char(n % 10));
        assert forall|i: int| 0 <= i < s.len() implies is_digit(#[trigger] s[i]) by {
            if i < s.len() - 1 {
                assert(s[i] == decimal(n / 10)[i]);
            }
        }
    }
}

pub proof fn lemma_run_to(s: Seq<char>, i: int, end: int, class: Class)
    requires
        0 <= i <= end <= s.len(),
        forall|k: int| i <= k < end ==> crate::lexer::in_class(class, #[trigger] s[k]),
        end < s.len() ==> !crate::lexer::in_class(class, s[end]),
    ensures
        run(s, i, class) == end,
    decreases end - i,
{
    if i < end {
        lemma_run_to(s, i + 1, end, class);
    }
}

proof fn lemma_number_to(s: Seq<char>, i: int, end: int)
    requires
        0 <= i <= end < s.len(),
        forall|k: int| i <= k < end ==> is_digit(#[trigger] s[k]),
        !is_digit(s[end]) && s[end] != '.' && s[end] != 'e' && s[end] != 'E',
    ensures
        number_end(s, i) == end,
    decreases end - i,
{
    if i < end {
        lemma_number_to(s, i + 1, end);
    }
}

proof fn lemma_unit(unit: Seq<char>)
    requires
        unit_nanos(unit) is Some,
    ensures
        unit.len() > 0,
        forall|k: int| 0 <= k < unit.len() ==> is_letter(#[trigger] unit[k]),
        unit[0] != 'e' && unit[0] != 'E',
{
    reveal_strlit("ns");
    reveal_strlit("us");
    reveal_strlit("ms");
    reveal_strlit("s");
    reveal_strlit("m");
    reveal_strlit("h");
    reveal_strlit("d");
    reveal_strlit("w");
    reveal_strlit("y");
}

/// A whole number and a unit that stand at `i`, with a digit or nothing behind them, are
/// added to the duration.
proof fn lemma_duration_part(s: Seq<char>, i: int, value: nat, unit: Seq<char>, total: u64)
    requires
        unit_nanos(unit) is Some,
        0 <= i,
        ({
            let end = i + decimal(value).len() + unit.len();
            &&& end <= s.len()
            &&& s.subrange(i, end) == decimal(value) + unit
            &&& end < s.len() ==> is_digit(s[end])
        }),
    ensures
        ({
            let end = i + decimal(value).len() + unit.len();
            &&& number_end(s, i) == i + decimal(value).len()
            &&& is_letter(s[i + decimal(value).len()])
            &&& is_digit(s[i])
            &&& duration_from(s, i, total) == duration_from(
                s,
                end,
                saturated(total as nat + product(value, unit_nanos(unit)->Some_0) as nat),
            )
        }),
{
    let digits = decimal(value);
    let nanos = unit_nanos(unit)->Some_0;
    let at = i + digits.len();
    let end = at + unit.len();
    let part = s.subrange(i, end);
    lemma_decimal(value);
    lemma_unit(unit);
    assert forall|k: int| i <= k < at implies is_digit(#[trigger] s[k]) by {
        assert(part[k - i] == s[k]);
        assert(part[k - i] == digits[k - i]);
    }
    assert forall|k: int| at <= k < end implies is_letter(#[trigger] s[k]) by {
        assert(part[k - i] == s[k]);
        assert(part[k - i] == unit[k - at]);
    }
    assert(s[at] == part[at - i] && part[at - i] == unit[0]);
    lemma_number_to(s, i, at);
    lemma_run_to(s, i, at, Class::DigitOrDot);
    lemma_run_to(s, at, end, Class::Letter);
    assert(s.subrange(i, at) =~= digits) by {
        assert forall|k: int| 0 <= k < digits.len() implies s.subrange(i, at)[k] == digits[k] by {
            assert(part[k] == s[i + k]);
        }
    }
    assert(s.subrange(at, end) =~= unit) by {
        assert forall|k: int| 0 <= k < unit.len() implies s.subrange(at, end)[k] == unit[k] by {
            assert(part[digits.len() + k] == s[at + k]);
        }
    }
    lemma_run_to(digits, 0, digits.len() as int, Class::Digit);
    assert(mantissa_end(digits) == digits.len());
    assert(is_number(digits));
    assert(digits.take(digits.len() as int) =~= digits);
    lemma_whole(digits, nanos);
    assert(mantissa_digits(digits) =~= digits);
}

/// A text that is one duration from its start to its end is one token.
proof fn lemma_one_duration(s: Seq<char>, total: u64)
    requires
        s.len() > 0,
        is_digit(s[0]),
        0 <= number_end(s, 0) < s.len(),
        is_letter(s[number_end(s, 0)]),
        duration_from(s, 0, 0) == duration_from(s, s.len() as int, total),
    ensures
        tokenized(s) == Ok::<Seq<SpannedView>, Fault>(
            seq![Placed { token: TokenView::Duration(total), offset: 0usize }],
        ),
{
    let end = s.len() as int;
    assert(run(s, end, Class::DigitOrDot) == end);
    assert(duration_from(s, end, total) == Lexed::Ok((TokenView::Duration(total), end)));
    assert(token_at(s, 0) == Lexed::Ok((TokenView::Duration(total), end)));
    assert(skipped(s, 0, false) == 0);
    let placed = Placed { token: TokenView::Duration(total), offset: utf8_len(s.take(0)) as usize };
    assert(s.take(0) =~= Seq::<char>::empty());
    let out = Seq::<SpannedView>::empty().push(placed);
    assert(tokens_from(s, end, out) == Ok::<Seq<SpannedView>, Fault>(out));
    assert(out =~= seq![placed]);
}

/// A whole number of a unit of time is read back as their product, as doubles have it.
pub proof fn law_a_written_duration_is_read_back(value: nat, unit: Seq<char>)
    requires
        unit_nanos(unit) is Some,
    ensures
        tokenized(decimal(value) + unit) == Ok::<Seq<SpannedView>, Fault>(
            seq![
                Placed {
                    token: TokenView::Duration(product(value, unit_nanos(unit)->Some_0)),
                    offset: 0usize,
                },
            ],
        ),
{
    let s = decimal(value) + unit;
    assert(s.subrange(0, s.len() as int) =~= s);
    lemma_decimal(value);
    lemma_unit(unit);
    lemma_duration_part(s, 0, value, unit, 0);
    lemma_one_duration(s, product(value, unit_nanos(unit)->Some_0));
}

/// A whole number below 16384 of any unit of time is that many nanoseconds: nothing is lost in
/// the doubles.
pub proof fn law_short_durations_are_exact(value: nat, unit: Seq<char>)
    requires
        unit_nanos(unit) is Some,
        value < 0x4000,
    ensures
        product(value, unit_nanos(unit)->Some_0) == saturated(value * unit_nanos(unit)->Some_0),
{
    let nanos = unit_nanos(unit)->Some_0;
    lemma2_to64();
    assert(value * 1 == value) by (nonlinear_arith);
    assert(is_held(value, value, 0));
    let (odd, power): (nat, nat) = if nanos == 1 {
        assert(1 * pow2(0) == 1);
        (1, 0)
    } else if nanos == 1_000 {
        assert(125 * pow2(3) == 1_000);
        (125, 3)
    } else if nanos == 1_000_000 {
        assert(15_625 * pow2(6) == 1_000_000);
        (15_625, 6)
    } else if nanos == 1_000_000_000 {
        assert(1_953_125 * pow2(9) == 1_000_000_000);
        (1_953_125, 9)
    } else if nanos == 60_000_000_000 {
        assert(29_296_875 * pow2(11) == 60_000_000_000);
        (29_296_875, 11)
    } else if nanos == 3_600_000_000_000 {
        assert(439_453_125 * pow2(13) == 3_600_000_000_000);
        (439_453_125, 13)
    } else if nanos == 86_400_000_000_000 {
        assert(1_318_359_375 * pow2(16) == 86_400_000_000_000);
        (1_318_359_375, 16)
    } else if nanos == 604_800_000_000_000 {
        assert(9_228_515_625 * pow2(16) == 604_800_000_000_000);
        (9_228_515_625, 16)
    } else {
        assert(481_201_171_875 * pow2(16) == 31_536_000_000_000_000);
        (481_201_171_875, 16)
    };
    assert(nanos == odd * pow2(power));
    assert(value * nanos == (value * odd) * pow2(power)) by (nonlinear_arith)
        requires
            nanos == odd * pow2(power),
    ;
    assert(value * odd < 0x4000 * 500_000_000_000) by (nonlinear_arith)
        requires
            value < 0x4000,
            0 < odd < 500_000_000_000,
    ;
    assert(is_held(value * nanos, value * odd, power));
    law_products_of_doubles_are_exact(value, nanos);
}

/// A compound duration is the sum of its parts: `1h30m` is ninety minutes.
pub proof fn law_a_compound_duration_is_a_sum(a: nat, u: Seq<char>, b: nat, w: Seq<char>)
    requires
        unit_nanos(u) is Some,
        unit_nanos(w) is Some,
    ensures
        tokenized(decimal(a) + u + decimal(b) + w) == Ok::<Seq<SpannedView>, Fault>(
            seq![
                Placed {
                    token: TokenView::Duration(
                        saturated(
                            product(a, unit_nanos(u)->Some_0) as nat + product(
                                b,
                                unit_nanos(w)->Some_0,
                            ) as nat,
                        ),
                    ),
                    offset: 0usize,
                },
            ],
        ),
{
    let s = decimal(a) + u + decimal(b) + w;
    let (x, y) = (product(a, unit_nanos(u)->Some_0), product(b, unit_nanos(w)->Some_0));
    let mid = (decimal(a) + u).len() as int;
    lemma_decimal(a);
    lemma_decimal(b);
    lemma_unit(u);
    lemma_unit(w);
    assert(s.subrange(0, mid) =~= decimal(a) + u);
    assert(s.subrange(mid, s.len() as int) =~= decimal(b) + w);
    assert(s[mid] == decimal(b)[0]);
    lemma_duration_part(s, 0, a, u, 0);
    lemma_duration_part(s, mid, b, w, x);
    lemma_one_duration(s, saturated(x as nat + y as nat));
}

/// There is nothing to trim of a number in decimal.
pub proof fn lemma_untrimmed(n: nat)
    ensures
        trim(decimal(n)) == decimal(n),
        all_digits(decimal(n)),
{
    lemma_decimal(n);
    let s = decimal(n);
    assert(is_digit(s[0]));
    assert(is_digit(s[s.len() - 1]));
    assert(s.last() == s[s.len() - 1]);
}

/// A number written in decimal is read back as the same number.
pub proof fn law_a_written_number_is_read_back(n: nat, max: nat)
    requires
        n <= max,
    ensures
        parse_unsigned(decimal(n), max) == Some(n),
{
    lemma_decimal(n);
    lemma_untrimmed(n);
    assert(is_digit(decimal(n)[0]));
}

/// A signed number written in decimal is read back as the same number.
pub proof fn law_a_written_integer_is_read_back(n: i64)
    ensures
        parse_signed(trim(signed_decimal(n as int))) == Some(n as int),
{
    let size: nat = if n < 0 {
        (-n) as nat
    } else {
        n as nat
    };
    let s = signed_decimal(n as int);
    lemma_decimal(size);
    lemma_untrimmed(size);
    if n < 0 {
        reveal_strlit("-");
        assert(s[0] == '-');
        assert(s.last() == decimal(size).last());
        assert(is_digit(decimal(size)[decimal(size).len() - 1]));
        assert(s.skip(1) =~= decimal(size));
    } else {
        assert(is_digit(s[0]));
    }
}

/// A timestamp that an entry carries can be handed back as the bound of a range.
pub proof fn law_a_returned_timestamp_is_read_back(nanos: u64)
    requires
        nanos >= 978_307_200_000_000_000,
    ensures
        loki_time(decimal(nanos as nat)) == Ok::<u64, Fault>(nanos),
{
    lemma_decimal(nanos as nat);
    lemma_untrimmed(nanos as nat);
}

} // verus!
