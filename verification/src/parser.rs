//! What the three query languages' parsers share: a position in a list of tokens, the
//! refusal of a token that does not belong, and the matchers between braces.
use vstd::prelude::*;

use crate::error::{refused, Error, Failure, Fault};
use crate::lexer::{shown, Lexeme, Spanned, SpannedView, Token, TokenView};
use crate::matcher::{matcher_of, LabelMatcher, MatchOp, MatcherView};
use crate::text::{debug_text, decimal, decimal_text, lemma_views_push, quoted, same, views};

verus! {

/// What a grammar rule makes of the tokens from some position: a value and the position
/// behind it, or a refusal.
pub type Parsed<T> = Result<(T, int), Fault>;

/// The token at a position.
pub open spec fn token_of(tokens: Seq<SpannedView>, at: int) -> Option<TokenView> {
    if 0 <= at < tokens.len() {
        Some(tokens[at].token)
    } else {
        None
    }
}

/// The refusal of the token at a position, or of the end, where `expected` should be.
pub open spec fn unexpected(
    input: Seq<char>,
    tokens: Seq<SpannedView>,
    at: int,
    expected: Seq<char>,
) -> Fault {
    if 0 <= at < tokens.len() {
        refused(
            "expected "@ + expected + " but found `"@ + shown(tokens[at].token) + "` at position "@
                + decimal(tokens[at].offset as nat) + " in "@ + debug_text(input),
        )
    } else {
        refused("expected "@ + expected + " but the query ended: "@ + debug_text(input))
    }
}

/// The name at a position.
pub open spec fn ident_at(
    input: Seq<char>,
    tokens: Seq<SpannedView>,
    at: int,
    expected: Seq<char>,
) -> Result<Seq<char>, Fault> {
    match token_of(tokens, at) {
        Some(Lexeme::Ident(name)) => Ok(name),
        _ => Err(unexpected(input, tokens, at, expected)),
    }
}

/// The quoted text at a position.
pub open spec fn string_at(
    input: Seq<char>,
    tokens: Seq<SpannedView>,
    at: int,
    expected: Seq<char>,
) -> Result<Seq<char>, Fault> {
    match token_of(tokens, at) {
        Some(Lexeme::String(text)) => Ok(text),
        _ => Err(unexpected(input, tokens, at, expected)),
    }
}

/// Which language's wording a matcher's operator is refused in.
#[derive(Clone, Copy, PartialEq, Eq, Structural)]
pub enum Dialect {
    Log,
    Metric,
}

/// The matcher operator at a position. LogQL compares numbers too, which is named as
/// unsupported.
pub open spec fn op_at(
    dialect: Dialect,
    input: Seq<char>,
    tokens: Seq<SpannedView>,
    at: int,
) -> Result<MatchOp, Fault> {
    match token_of(tokens, at) {
        Some(Lexeme::Equal) => Ok(MatchOp::Equal),
        Some(Lexeme::NotEqual) => Ok(MatchOp::NotEqual),
        Some(Lexeme::RegexMatch) => Ok(MatchOp::Regex),
        Some(Lexeme::RegexNotMatch) => Ok(MatchOp::NotRegex),
        Some(token) => if dialect == Dialect::Log && is_comparison(token) {
            Err(
                Failure::Unsupported {
                    feature: "LogQL numeric label filters (`>`, `>=`, `<`, `<=`)"@,
                    hint: Some("compare as strings with `=` or `=~`, or filter client-side"@),
                },
            )
        } else {
            Err(unexpected(input, tokens, at, operator_wording(dialect)))
        },
        None => Err(unexpected(input, tokens, at, operator_wording(dialect))),
    }
}

pub open spec fn is_comparison(token: TokenView) -> bool {
    token is Greater || token is GreaterEqual || token is Less || token is LessEqual
}

pub open spec fn operator_wording(dialect: Dialect) -> Seq<char> {
    match dialect {
        Dialect::Log => "a matcher operator (`=`, `!=`, `=~`, `!~`)"@,
        Dialect::Metric => "a matcher operator"@,
    }
}

/// The matcher whose operator stands at a position, for a name already read.
pub open spec fn matcher_at(
    dialect: Dialect,
    input: Seq<char>,
    tokens: Seq<SpannedView>,
    at: int,
    name: Seq<char>,
    value_wording: Seq<char>,
) -> Parsed<MatcherView> {
    match op_at(dialect, input, tokens, at) {
        Err(fault) => Err(fault),
        Ok(op) => match string_at(input, tokens, at + 1, value_wording) {
            Err(fault) => Err(fault),
            Ok(value) => match matcher_of(name, op, value) {
                Err(fault) => Err(fault),
                Ok(matcher) => Ok((matcher, at + 2)),
            },
        },
    }
}

/// The matchers from a position to the closing brace, behind those already read. A comma
/// before the brace is accepted.
pub open spec fn matchers_from(
    dialect: Dialect,
    input: Seq<char>,
    tokens: Seq<SpannedView>,
    at: int,
    out: Seq<MatcherView>,
) -> Parsed<Seq<MatcherView>>
    decreases tokens.len() - at,
{
    match ident_at(input, tokens, at, "a label name"@) {
        Err(fault) => Err(fault),
        Ok(name) => match matcher_at(
            dialect,
            input,
            tokens,
            at + 1,
            name,
            "a quoted label value"@,
        ) {
            Err(fault) => Err(fault),
            Ok((matcher, _)) => match token_of(tokens, at + 3) {
                Some(Lexeme::RightBrace) => Ok((out.push(matcher), at + 4)),
                Some(Lexeme::Comma) => if token_of(tokens, at + 4) == Some(
                    TokenView::RightBrace,
                ) {
                    Ok((out.push(matcher), at + 5))
                } else {
                    matchers_from(dialect, input, tokens, at + 4, out.push(matcher))
                },
                _ => Err(unexpected(input, tokens, at + 3, "`,` or `}`"@)),
            },
        },
    }
}

/// Matchers that were read stand before the position reached, at least one of them new.
pub proof fn lemma_matchers_from(
    dialect: Dialect,
    input: Seq<char>,
    tokens: Seq<SpannedView>,
    at: int,
    out: Seq<MatcherView>,
)
    requires
        0 <= at,
    ensures
        match matchers_from(dialect, input, tokens, at, out) {
            Ok((matchers, end)) => at < end <= tokens.len() && matchers.len() > out.len(),
            Err(_) => true,
        },
    decreases tokens.len() - at,
{
    match ident_at(input, tokens, at, "a label name"@) {
        Err(_) => {},
        Ok(name) => {
            match matcher_at(dialect, input, tokens, at + 1, name, "a quoted label value"@) {
                Err(_) => {},
                Ok((matcher, _)) => {
                    if at + 4 <= tokens.len() {
                        lemma_matchers_from(dialect, input, tokens, at + 4, out.push(matcher));
                    }
                },
            }
        },
    }
}

/// No matcher, however malformed, is refused as going past a limit.
pub proof fn lemma_matchers_refused(
    dialect: Dialect,
    input: Seq<char>,
    tokens: Seq<SpannedView>,
    at: int,
    out: Seq<MatcherView>,
)
    ensures
        match matchers_from(dialect, input, tokens, at, out) {
            Ok(_) => true,
            Err(fault) => !(fault is LimitExceeded),
        },
    decreases tokens.len() - at,
{
    match ident_at(input, tokens, at, "a label name"@) {
        Err(_) => {},
        Ok(name) => {
            match matcher_at(dialect, input, tokens, at + 1, name, "a quoted label value"@) {
                Err(_) => {},
                Ok((matcher, _)) => {
                    if at + 4 <= tokens.len() {
                        lemma_matchers_refused(dialect, input, tokens, at + 4, out.push(matcher));
                    }
                },
            }
        },
    }
}

/// A position in a list of tokens.
pub struct Cursor<'a> {
    pub input: &'a str,
    pub tokens: &'a Vec<Spanned>,
    pub pos: usize,
}

/// What a parsing function did, against what its rule says.
pub open spec fn follows<T: View>(
    before: Cursor,
    after: Cursor,
    r: Result<T, Error>,
    rule: Parsed<T::V>,
) -> bool {
    &&& after.same_text(before)
    &&& match rule {
        Ok((value, end)) => r is Ok && r->Ok_0@ == value && after.pos == end,
        Err(fault) => r is Err && r->Err_0@ == fault,
    }
}

/// The same for a list.
pub open spec fn follows_all<T: View>(
    before: Cursor,
    after: Cursor,
    r: Result<Vec<T>, Error>,
    rule: Parsed<Seq<T::V>>,
) -> bool {
    &&& after.same_text(before)
    &&& match rule {
        Ok((values, end)) => r is Ok && views(r->Ok_0@) == values && after.pos == end,
        Err(fault) => r is Err && r->Err_0@ == fault,
    }
}

impl<'a> Cursor<'a> {
    pub open spec fn ts(self) -> Seq<SpannedView> {
        views(self.tokens@)
    }

    pub open spec fn same_text(self, other: Cursor) -> bool {
        self.input@ == other.input@ && self.tokens@ == other.tokens@
    }

    /// The token at the position.
    pub fn peek(&self) -> (token: Option<&'a Token>)
        ensures
            token_of(self.ts(), self.pos as int) == (match token {
                Some(token) => Some(token@),
                None => None,
            }),
            token is Some ==> self.pos < self.tokens@.len() <= usize::MAX,
    {
        self.peek_at(self.pos)
    }

    /// The token at another position.
    pub fn peek_at(&self, at: usize) -> (token: Option<&'a Token>)
        ensures
            token_of(self.ts(), at as int) == (match token {
                Some(token) => Some(token@),
                None => None,
            }),
            token is Some ==> at < self.tokens@.len() <= usize::MAX,
    {
        if at < self.tokens.len() {
            Some(&self.tokens[at].token)
        } else {
            None
        }
    }

    /// Whether the word `word` stands at the position.
    pub fn at_word(&self, word: &str) -> (r: bool)
        ensures
            r == (token_of(self.ts(), self.pos as int) == Some(TokenView::Ident(word@))),
            r ==> self.pos < self.tokens@.len() <= usize::MAX,
    {
        match self.peek() {
            Some(Lexeme::Ident(name)) => same(name.as_str(), word),
            _ => false,
        }
    }

    /// The refusal of what stands at the position.
    pub fn unexpected(&self, expected: &str) -> (error: Error)
        ensures
            error@ == unexpected(self.input@, self.ts(), self.pos as int, expected@),
    {
        let mut message: String = "expected ".to_owned();
        message.append(expected);
        if self.pos < self.tokens.len() {
            let spanned: &Spanned = &self.tokens[self.pos];
            message.append(" but found `");
            message.append(spanned.token.show().as_str());
            message.append("` at position ");
            message.append(decimal_text(spanned.offset as u64).as_str());
            message.append(" in ");
            message.append(quoted(self.input).as_str());
            Failure::BadRequest(message)
        } else {
            message.append(" but the query ended: ");
            message.append(quoted(self.input).as_str());
            Failure::BadRequest(message)
        }
    }

    /// Reads a name.
    pub fn expect_ident(&mut self, description: &str) -> (r: Result<String, Error>)
        ensures
            final(self).same_text(*old(self)),
            match ident_at(
                old(self).input@,
                old(self).ts(),
                old(self).pos as int,
                description@,
            ) {
                Ok(name) => r is Ok && r->Ok_0@ == name && final(self).pos == old(self).pos + 1
                    && old(self).pos < old(self).tokens@.len(),
                Err(fault) => r is Err && r->Err_0@ == fault,
            },
    {
        match self.peek() {
            Some(Lexeme::Ident(name)) => {
                let name: String = name.clone();
                self.pos = self.pos + 1;
                Ok(name)
            },
            _ => Err(self.unexpected(description)),
        }
    }

    /// Reads a quoted text.
    pub fn expect_string(&mut self, description: &str) -> (r: Result<String, Error>)
        ensures
            final(self).same_text(*old(self)),
            match string_at(
                old(self).input@,
                old(self).ts(),
                old(self).pos as int,
                description@,
            ) {
                Ok(text) => r is Ok && r->Ok_0@ == text && final(self).pos == old(self).pos + 1
                    && old(self).pos < old(self).tokens@.len(),
                Err(fault) => r is Err && r->Err_0@ == fault,
            },
    {
        match self.peek() {
            Some(Lexeme::String(text)) => {
                let text: String = text.clone();
                self.pos = self.pos + 1;
                Ok(text)
            },
            _ => Err(self.unexpected(description)),
        }
    }

    /// Reads a matcher operator.
    pub fn expect_match_op(&mut self, dialect: Dialect) -> (r: Result<MatchOp, Error>)
        ensures
            final(self).same_text(*old(self)),
            match op_at(dialect, old(self).input@, old(self).ts(), old(self).pos as int) {
                Ok(op) => r is Ok && r->Ok_0 == op && final(self).pos == old(self).pos + 1
                    && old(self).pos < old(self).tokens@.len(),
                Err(fault) => r is Err && r->Err_0@ == fault,
            },
    {
        let wording: &str = match dialect {
            Dialect::Log => "a matcher operator (`=`, `!=`, `=~`, `!~`)",
            Dialect::Metric => "a matcher operator",
        };
        let op: MatchOp = match self.peek() {
            Some(Lexeme::Equal) => MatchOp::Equal,
            Some(Lexeme::NotEqual) => MatchOp::NotEqual,
            Some(Lexeme::RegexMatch) => MatchOp::Regex,
            Some(Lexeme::RegexNotMatch) => MatchOp::NotRegex,
            Some(Lexeme::Greater) | Some(Lexeme::GreaterEqual) | Some(Lexeme::Less) | Some(
                Lexeme::LessEqual,
            ) => {
                if dialect == Dialect::Log {
                    return Err(
                        Error::unsupported_with_hint(
                            "LogQL numeric label filters (`>`, `>=`, `<`, `<=`)".to_owned(),
                            "compare as strings with `=` or `=~`, or filter client-side",
                        ),
                    );
                }
                return Err(self.unexpected(wording));
            },
            _ => {
                return Err(self.unexpected(wording));
            },
        };
        self.pos = self.pos + 1;
        Ok(op)
    }

    /// Reads the operator and the value of a matcher.
    pub fn matcher(&mut self, dialect: Dialect, name: String, value_wording: &str) -> (r: Result<
        LabelMatcher,
        Error,
    >)
        ensures
            follows(
                *old(self),
                *final(self),
                r,
                matcher_at(
                    dialect,
                    old(self).input@,
                    old(self).ts(),
                    old(self).pos as int,
                    name@,
                    value_wording@,
                ),
            ),
            r is Ok ==> old(self).pos + 2 <= old(self).tokens@.len(),
    {
        let op: MatchOp = match self.expect_match_op(dialect) {
            Ok(op) => op,
            Err(error) => {
                return Err(error);
            },
        };
        let value: String = match self.expect_string(value_wording) {
            Ok(value) => value,
            Err(error) => {
                return Err(error);
            },
        };
        LabelMatcher::new(name, op, value)
    }

    /// Reads matchers up to and with the closing brace.
    pub fn matchers(&mut self, dialect: Dialect) -> (r: Result<Vec<LabelMatcher>, Error>)
        ensures
            follows_all(
                *old(self),
                *final(self),
                r,
                matchers_from(
                    dialect,
                    old(self).input@,
                    old(self).ts(),
                    old(self).pos as int,
                    Seq::empty(),
                ),
            ),
            r is Ok ==> old(self).pos < final(self).pos <= old(self).tokens@.len(),
    {
        let ghost input = self.input@;
        let ghost tokens = self.ts();
        let ghost goal = matchers_from(dialect, input, tokens, self.pos as int, Seq::empty());
        let mut out: Vec<LabelMatcher> = Vec::new();
        assert(views(out@) =~= Seq::empty());
        loop
            invariant
                self.same_text(*old(self)),
                input == self.input@,
                tokens == self.ts(),
                old(self).pos <= self.pos,
                goal == matchers_from(
                    dialect,
                    input,
                    tokens,
                    old(self).pos as int,
                    Seq::empty(),
                ),
                goal == matchers_from(dialect, input, tokens, self.pos as int, views(out@)),
            decreases tokens.len() - self.pos,
        {
            let name: String = match self.expect_ident("a label name") {
                Ok(name) => name,
                Err(error) => {
                    return Err(error);
                },
            };
            let matcher: LabelMatcher = match self.matcher(dialect, name, "a quoted label value") {
                Ok(matcher) => matcher,
                Err(error) => {
                    return Err(error);
                },
            };
            proof {
                lemma_views_push(out@, matcher);
            }
            out.push(matcher);
            match self.peek() {
                Some(Lexeme::Comma) => {
                    self.pos = self.pos + 1;
                    match self.peek() {
                        Some(Lexeme::RightBrace) => {
                            self.pos = self.pos + 1;
                            return Ok(out);
                        },
                        _ => {},
                    }
                },
                Some(Lexeme::RightBrace) => {
                    self.pos = self.pos + 1;
                    return Ok(out);
                },
                _ => {
                    return Err(self.unexpected("`,` or `}`"));
                },
            }
        }
    }
}

} // verus!
