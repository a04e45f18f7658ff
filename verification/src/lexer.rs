//! The tokenizer shared by LogQL, PromQL and TraceQL.
//!
//! The languages share a lexical core: `{}`-delimited selectors, the same matcher
//! operators, quoted and backquoted strings, durations like `5m`. One lexer means the
//! parsers cannot drift on what a string literal or a duration is.
use vstd::prelude::*;

use crate::error::{outcome_all, refused, Error, Failure, Fault};
use crate::labels::is_name_char;
use crate::nearest::scaled_double;
use crate::seconds::{mantissa, mantissa_digits};
use crate::text::{
    all_digits, chars_of, debug_char, debug_text, decimal, decimal_text, digits_value,
    is_ascii_space, is_digit, is_letter, lemma_utf8_len, lemma_utf8_len_step, piece, quoted,
    quoted_char, same, string_of, utf8_len, views, width_of,
};

verus! {

/// A token, over the type that carries its texts.
#[derive(Debug, PartialEq)]
pub enum Lexeme<S> {
    LeftBrace,
    RightBrace,
    LeftParen,
    RightParen,
    LeftBracket,
    RightBracket,
    Comma,
    /// `|`, which starts a parser or label-filter stage.
    Pipe,
    Equal,
    NotEqual,
    RegexMatch,
    RegexNotMatch,
    /// `&&`, TraceQL's conjunction.
    AndAnd,
    /// `||`, TraceQL's disjunction. A token so that it can be named as unsupported.
    OrOr,
    /// `|=`: the line contains.
    LineContains,
    /// `|~`: the line matches.
    LineRegex,
    Less,
    LessEqual,
    Greater,
    GreaterEqual,
    Plus,
    Minus,
    Star,
    Slash,
    Percent,
    Caret,
    /// A name or a keyword.
    Ident(S),
    String(S),
    /// A number, as it is written.
    Number(S),
    /// A duration literal such as `5m` or `1h30m`, in nanoseconds.
    Duration(u64),
    /// `@`. A token so that PromQL's modifier can be named as unsupported.
    At,
    /// `:`, the subquery separator, likewise.
    Colon,
}

/// A token as it is handed to a parser.
pub type Token = Lexeme<String>;

/// A token as contracts speak of it.
pub type TokenView = Lexeme<Seq<char>>;

impl View for Lexeme<String> {
    type V = Lexeme<Seq<char>>;

    open spec fn view(&self) -> Lexeme<Seq<char>> {
        match self {
            Lexeme::LeftBrace => Lexeme::LeftBrace,
            Lexeme::RightBrace => Lexeme::RightBrace,
            Lexeme::LeftParen => Lexeme::LeftParen,
            Lexeme::RightParen => Lexeme::RightParen,
            Lexeme::LeftBracket => Lexeme::LeftBracket,
            Lexeme::RightBracket => Lexeme::RightBracket,
            Lexeme::Comma => Lexeme::Comma,
            Lexeme::Pipe => Lexeme::Pipe,
            Lexeme::Equal => Lexeme::Equal,
            Lexeme::NotEqual => Lexeme::NotEqual,
            Lexeme::RegexMatch => Lexeme::RegexMatch,
            Lexeme::RegexNotMatch => Lexeme::RegexNotMatch,
            Lexeme::AndAnd => Lexeme::AndAnd,
            Lexeme::OrOr => Lexeme::OrOr,
            Lexeme::LineContains => Lexeme::LineContains,
            Lexeme::LineRegex => Lexeme::LineRegex,
            Lexeme::Less => Lexeme::Less,
            Lexeme::LessEqual => Lexeme::LessEqual,
            Lexeme::Greater => Lexeme::Greater,
            Lexeme::GreaterEqual => Lexeme::GreaterEqual,
            Lexeme::Plus => Lexeme::Plus,
            Lexeme::Minus => Lexeme::Minus,
            Lexeme::Star => Lexeme::Star,
            Lexeme::Slash => Lexeme::Slash,
            Lexeme::Percent => Lexeme::Percent,
            Lexeme::Caret => Lexeme::Caret,
            Lexeme::Ident(name) => Lexeme::Ident(name@),
            Lexeme::String(value) => Lexeme::String(value@),
            Lexeme::Number(text) => Lexeme::Number(text@),
            Lexeme::Duration(nanos) => Lexeme::Duration(*nanos),
            Lexeme::At => Lexeme::At,
            Lexeme::Colon => Lexeme::Colon,
        }
    }
}

/// A token as an error message shows it.
pub open spec fn shown(token: TokenView) -> Seq<char> {
    match token {
        Lexeme::LeftBrace => "{"@,
        Lexeme::RightBrace => "}"@,
        Lexeme::LeftParen => "("@,
        Lexeme::RightParen => ")"@,
        Lexeme::LeftBracket => "["@,
        Lexeme::RightBracket => "]"@,
        Lexeme::Comma => ","@,
        Lexeme::Pipe => "|"@,
        Lexeme::Equal => "="@,
        Lexeme::NotEqual => "!="@,
        Lexeme::RegexMatch => "=~"@,
        Lexeme::RegexNotMatch => "!~"@,
        Lexeme::AndAnd => "&&"@,
        Lexeme::OrOr => "||"@,
        Lexeme::LineContains => "|="@,
        Lexeme::LineRegex => "|~"@,
        Lexeme::Less => "<"@,
        Lexeme::LessEqual => "<="@,
        Lexeme::Greater => ">"@,
        Lexeme::GreaterEqual => ">="@,
        Lexeme::Plus => "+"@,
        Lexeme::Minus => "-"@,
        Lexeme::Star => "*"@,
        Lexeme::Slash => "/"@,
        Lexeme::Percent => "%"@,
        Lexeme::Caret => "^"@,
        Lexeme::At => "@"@,
        Lexeme::Colon => ":"@,
        Lexeme::Ident(name) => name,
        Lexeme::String(value) => debug_text(value),
        Lexeme::Number(text) => text,
        Lexeme::Duration(nanos) => decimal(nanos as nat) + "ns"@,
    }
}

impl Lexeme<String> {
    /// The token as an error message shows it.
    pub fn show(&self) -> (text: String)
        ensures
            text@ == shown(self@),
    {
        let fixed: &str = match self {
            Lexeme::LeftBrace => "{",
            Lexeme::RightBrace => "}",
            Lexeme::LeftParen => "(",
            Lexeme::RightParen => ")",
            Lexeme::LeftBracket => "[",
            Lexeme::RightBracket => "]",
            Lexeme::Comma => ",",
            Lexeme::Pipe => "|",
            Lexeme::Equal => "=",
            Lexeme::NotEqual => "!=",
            Lexeme::RegexMatch => "=~",
            Lexeme::RegexNotMatch => "!~",
            Lexeme::AndAnd => "&&",
            Lexeme::OrOr => "||",
            Lexeme::LineContains => "|=",
            Lexeme::LineRegex => "|~",
            Lexeme::Less => "<",
            Lexeme::LessEqual => "<=",
            Lexeme::Greater => ">",
            Lexeme::GreaterEqual => ">=",
            Lexeme::Plus => "+",
            Lexeme::Minus => "-",
            Lexeme::Star => "*",
            Lexeme::Slash => "/",
            Lexeme::Percent => "%",
            Lexeme::Caret => "^",
            Lexeme::At => "@",
            Lexeme::Colon => ":",
            Lexeme::Ident(name) => name.as_str(),
            Lexeme::Number(text) => text.as_str(),
            Lexeme::String(value) => {
                return quoted(value.as_str());
            },
            Lexeme::Duration(nanos) => {
                let mut text: String = decimal_text(*nanos);
                text.append("ns");
                return text;
            },
        };
        fixed.to_owned()
    }
}

/// A token plus where it started, so that errors can point at it.
#[derive(Debug)]
pub struct Placed<S> {
    pub token: Lexeme<S>,
    /// Bytes before the token.
    pub offset: usize,
}

pub type Spanned = Placed<String>;

pub type SpannedView = Placed<Seq<char>>;

impl View for Placed<String> {
    type V = Placed<Seq<char>>;

    open spec fn view(&self) -> Placed<Seq<char>> {
        Placed { token: self.token@, offset: self.offset }
    }
}

// ---------------------------------------------------------------------------
// Runs of characters
// ---------------------------------------------------------------------------

/// A class of characters.
#[derive(Clone, Copy, PartialEq, Eq, Structural)]
pub enum Class {
    Digit,
    DigitOrDot,
    Letter,
    NotBackquote,
    Space,
    NotSpace,
    /// Neither `=` nor white space.
    Key,
}

pub open spec fn spec_in_class(class: Class, c: char) -> bool {
    match class {
        Class::Digit => is_digit(c),
        Class::DigitOrDot => is_digit(c) || c == '.',
        Class::Letter => is_letter(c),
        Class::NotBackquote => c != '`',
        Class::Space => is_ascii_space(c),
        Class::NotSpace => !is_ascii_space(c),
        Class::Key => c != '=' && !is_ascii_space(c),
    }
}

/// Whether `c` belongs to the class.
#[verifier::when_used_as_spec(spec_in_class)]
pub fn in_class(class: Class, c: char) -> (r: bool)
    ensures
        r == spec_in_class(class, c),
{
    match class {
        Class::Digit => is_digit(c),
        Class::DigitOrDot => is_digit(c) || c == '.',
        Class::Letter => is_letter(c),
        Class::NotBackquote => c != '`',
        Class::Space => is_ascii_space(c),
        Class::NotSpace => !is_ascii_space(c),
        Class::Key => c != '=' && !is_ascii_space(c),
    }
}

/// Where the run of characters of the class that starts at `i` ends.
pub open spec fn run(s: Seq<char>, i: int, class: Class) -> int
    decreases s.len() - i,
{
    if 0 <= i < s.len() && in_class(class, s[i]) {
        run(s, i + 1, class)
    } else {
        i
    }
}

/// A run stays inside the text, holds only its class and ends where the class does.
pub proof fn lemma_run(s: Seq<char>, i: int, class: Class)
    requires
        0 <= i <= s.len(),
    ensures
        i <= run(s, i, class) <= s.len(),
        forall|j: int| i <= j < run(s, i, class) ==> in_class(class, #[trigger] s[j]),
        run(s, i, class) < s.len() ==> !in_class(class, s[run(s, i, class)]),
    decreases s.len() - i,
{
    if i < s.len() && in_class(class, s[i]) {
        lemma_run(s, i + 1, class);
    }
}

/// Where the run of the class that starts at `from` ends.
pub fn run_end(chars: &[char], from: usize, class: Class) -> (end: usize)
    requires
        from <= chars@.len(),
    ensures
        end == run(chars@, from as int, class),
        from <= end <= chars@.len(),
{
    let mut i: usize = from;
    while i < chars.len() && in_class(class, chars[i])
        invariant
            from <= i <= chars@.len(),
            run(chars@, from as int, class) == run(chars@, i as int, class),
        decreases chars@.len() - i,
    {
        i += 1;
    }
    i
}

// ---------------------------------------------------------------------------
// What the tokens are
// ---------------------------------------------------------------------------

/// Where the next token starts: past white space and past comments, which run from `#`
/// to the end of the line.
pub open spec fn skipped(s: Seq<char>, i: int, in_comment: bool) -> int
    decreases s.len() - i,
{
    if i < 0 || i >= s.len() {
        i
    } else if in_comment {
        skipped(s, i + 1, s[i] != '\n')
    } else if is_ascii_space(s[i]) {
        skipped(s, i + 1, false)
    } else if s[i] == '#' {
        skipped(s, i + 1, true)
    } else {
        i
    }
}

/// The operators of two characters.
pub open spec fn double_operator(a: char, b: char) -> Option<TokenView> {
    if a == '!' && b == '=' {
        Some(Lexeme::NotEqual)
    } else if a == '!' && b == '~' {
        Some(Lexeme::RegexNotMatch)
    } else if a == '=' && b == '~' {
        Some(Lexeme::RegexMatch)
    } else if a == '=' && b == '=' {
        Some(Lexeme::Equal)
    } else if a == '&' && b == '&' {
        Some(Lexeme::AndAnd)
    } else if a == '|' && b == '|' {
        Some(Lexeme::OrOr)
    } else if a == '|' && b == '=' {
        Some(Lexeme::LineContains)
    } else if a == '|' && b == '~' {
        Some(Lexeme::LineRegex)
    } else if a == '<' && b == '=' {
        Some(Lexeme::LessEqual)
    } else if a == '>' && b == '=' {
        Some(Lexeme::GreaterEqual)
    } else {
        None
    }
}

/// The tokens of one character.
pub open spec fn single_operator(c: char) -> Option<TokenView> {
    if c == '{' {
        Some(Lexeme::LeftBrace)
    } else if c == '}' {
        Some(Lexeme::RightBrace)
    } else if c == '(' {
        Some(Lexeme::LeftParen)
    } else if c == ')' {
        Some(Lexeme::RightParen)
    } else if c == '[' {
        Some(Lexeme::LeftBracket)
    } else if c == ']' {
        Some(Lexeme::RightBracket)
    } else if c == ',' {
        Some(Lexeme::Comma)
    } else if c == '|' {
        Some(Lexeme::Pipe)
    } else if c == '=' {
        Some(Lexeme::Equal)
    } else if c == '<' {
        Some(Lexeme::Less)
    } else if c == '>' {
        Some(Lexeme::Greater)
    } else if c == '+' {
        Some(Lexeme::Plus)
    } else if c == '-' {
        Some(Lexeme::Minus)
    } else if c == '*' {
        Some(Lexeme::Star)
    } else if c == '/' {
        Some(Lexeme::Slash)
    } else if c == '%' {
        Some(Lexeme::Percent)
    } else if c == '^' {
        Some(Lexeme::Caret)
    } else if c == '@' {
        Some(Lexeme::At)
    } else if c == ':' {
        Some(Lexeme::Colon)
    } else {
        None
    }
}

/// What a lexical rule makes of the text from some position: a token and where it ends,
/// or a message and the position it speaks of.
pub type Lexed = Result<(TokenView, int), (Seq<char>, int)>;

/// What a backslash and `c` stand for in a quoted string. An unknown escape keeps both
/// characters, which is what a regular expression such as `\d` needs.
pub open spec fn unescaped(c: char) -> Seq<char> {
    if c == 'n' {
        seq!['\n']
    } else if c == 't' {
        seq!['\t']
    } else if c == 'r' {
        seq!['\r']
    } else if c == '\\' || c == '"' || c == '\'' || c == '`' {
        seq![c]
    } else {
        seq!['\\', c]
    }
}

/// The quoted string that starts at `start`, read up to `i` with `out` so far.
pub open spec fn quoted_from(s: Seq<char>, start: int, i: int, quote: char, out: Seq<char>) -> Lexed
    decreases s.len() - i,
{
    if i < 0 || i >= s.len() {
        Err(("unterminated string literal"@, start))
    } else if s[i] == '\\' {
        if i + 1 >= s.len() {
            Err(("string ends with a trailing backslash"@, i + 1))
        } else {
            quoted_from(s, start, i + 2, quote, out + unescaped(s[i + 1]))
        }
    } else if s[i] == quote {
        Ok((Lexeme::String(out), i + 1))
    } else {
        quoted_from(s, start, i + 1, quote, out.push(s[i]))
    }
}

/// The backquoted string that starts at `i`, without escapes.
pub open spec fn raw_from(s: Seq<char>, i: int) -> Lexed {
    let end = run(s, i + 1, Class::NotBackquote);
    if end < s.len() {
        Ok((Lexeme::String(s.subrange(i + 1, end)), end + 1))
    } else {
        Err(("unterminated raw string literal"@, i))
    }
}

/// Where an identifier ends. A `.` continues it only where a name character follows.
pub open spec fn ident_end(s: Seq<char>, i: int) -> int
    decreases s.len() - i,
{
    if i < 0 || i >= s.len() {
        i
    } else if is_name_char(s[i]) || s[i] == ':' {
        ident_end(s, i + 1)
    } else if s[i] == '.' && i + 1 < s.len() && is_name_char(s[i + 1]) {
        ident_end(s, i + 1)
    } else {
        i
    }
}

/// Where a number's characters end. An exponent sign counts only where something that
/// can follow it does, so that `1e` in front of a letter is left to the unit.
pub open spec fn number_end(s: Seq<char>, i: int) -> int
    decreases s.len() - i,
{
    if i < 0 || i >= s.len() {
        i
    } else if is_digit(s[i]) || s[i] == '.' {
        number_end(s, i + 1)
    } else if (s[i] == 'e' || s[i] == 'E') && i + 1 < s.len() && (is_digit(s[i + 1]) || s[i + 1]
        == '-' || s[i + 1] == '+') {
        number_end(s, i + 1)
    } else {
        i
    }
}

/// Where the digits of a decimal fraction end: digits, then maybe a dot and digits.
pub open spec fn mantissa_end(t: Seq<char>) -> int {
    let whole = run(t, 0, Class::Digit);
    if whole < t.len() && t[whole] == '.' {
        run(t, whole + 1, Class::Digit)
    } else {
        whole
    }
}

/// Digits with at most one dot and at least one digit, then maybe an exponent.
pub open spec fn is_number(t: Seq<char>) -> bool {
    let whole = run(t, 0, Class::Digit);
    let end = mantissa_end(t);
    &&& whole > 0 || end > whole + 1
    &&& end == t.len() || ((t[end] == 'e' || t[end] == 'E') && end + 1 < t.len() && run(
        t,
        end + 1,
        Class::Digit,
    ) == t.len())
}

/// The nanoseconds in a unit of time.
pub open spec fn unit_nanos(unit: Seq<char>) -> Option<nat> {
    if unit == "ns"@ {
        Some(1)
    } else if unit == "us"@ {
        Some(1_000)
    } else if unit == "ms"@ {
        Some(1_000_000)
    } else if unit == "s"@ {
        Some(1_000_000_000)
    } else if unit == "m"@ {
        Some(60_000_000_000)
    } else if unit == "h"@ {
        Some(3_600_000_000_000)
    } else if unit == "d"@ {
        Some(86_400_000_000_000)
    } else if unit == "w"@ {
        Some(604_800_000_000_000)
    } else if unit == "y"@ {
        Some(31_536_000_000_000_000)
    } else {
        None
    }
}

/// A decimal fraction times a whole number, both as doubles: rounded down, and held to the
/// greatest duration there is.
pub open spec fn scaled(t: Seq<char>, by: nat) -> u64 {
    scaled_double(mantissa_digits(t), run(t, 0, Class::Digit), by)
}

/// The greatest duration there is, where the sum would go past it.
pub open spec fn saturated(n: nat) -> u64 {
    if n > u64::MAX {
        u64::MAX
    } else {
        n as u64
    }
}

/// The message for a unit that is none.
pub open spec fn bad_unit(unit: Seq<char>) -> Seq<char> {
    debug_text(unit) + " is not a duration unit (use ns, us, ms, s, m, h, d, w or y)"@
}

/// The duration whose pairs of value and unit go on at `i`, with `total` nanoseconds so
/// far.
pub open spec fn duration_from(s: Seq<char>, i: int, total: u64) -> Lexed
    decreases s.len() - i via duration_from_decreases
{
    let digits = run(s, i, Class::DigitOrDot);
    if i < 0 || i > s.len() || digits == i {
        Ok((Lexeme::Duration(total), i))
    } else if !is_number(s.subrange(i, digits)) {
        Err(("invalid duration value"@, digits))
    } else {
        let end = run(s, digits, Class::Letter);
        let unit = s.subrange(digits, end);
        match unit_nanos(unit) {
            None => Err((bad_unit(unit), end)),
            Some(nanos) => duration_from(
                s,
                end,
                saturated(total as nat + scaled(s.subrange(i, digits), nanos) as nat),
            ),
        }
    }
}

#[via_fn]
proof fn duration_from_decreases(s: Seq<char>, i: int, total: u64) {
    if 0 <= i <= s.len() {
        lemma_run(s, i, Class::DigitOrDot);
        lemma_run(s, run(s, i, Class::DigitOrDot), Class::Letter);
    }
}

/// The number or duration that starts at `i`. A letter behind the digits makes it a
/// duration.
pub open spec fn number_from(s: Seq<char>, i: int) -> Lexed {
    let end = number_end(s, i);
    if end < s.len() && is_letter(s[end]) {
        duration_from(s, i, 0)
    } else if is_number(s.subrange(i, end)) {
        Ok((Lexeme::Number(s.subrange(i, end)), end))
    } else {
        Err((debug_text(s.subrange(i, end)) + " is not a valid number"@, end))
    }
}

/// Whether an identifier starts at `i`: a letter or `_`, or a `.` in front of one, which
/// is how TraceQL marks an unscoped attribute.
pub open spec fn starts_ident(s: Seq<char>, i: int) -> bool {
    ||| is_letter(s[i]) || s[i] == '_'
    ||| s[i] == '.' && i + 1 < s.len() && (is_letter(s[i + 1]) || s[i + 1] == '_')
}

/// The token that starts at `i`. An operator of two characters comes before one of one.
pub open spec fn token_at(s: Seq<char>, i: int) -> Lexed {
    let double = if i + 1 < s.len() {
        double_operator(s[i], s[i + 1])
    } else {
        None
    };
    if double is Some {
        Ok((double->Some_0, i + 2))
    } else if single_operator(s[i]) is Some {
        Ok((single_operator(s[i])->Some_0, i + 1))
    } else if s[i] == '"' || s[i] == '\'' {
        quoted_from(s, i, i + 1, s[i], Seq::empty())
    } else if s[i] == '`' {
        raw_from(s, i)
    } else if is_digit(s[i]) {
        number_from(s, i)
    } else if starts_ident(s, i) {
        Ok((Lexeme::Ident(s.subrange(i, ident_end(s, i))), ident_end(s, i)))
    } else {
        Err(("unexpected character "@ + debug_char(s[i]), i))
    }
}

/// The refusal of a text that does not lex: what, where and in which text.
pub open spec fn lex_fault(s: Seq<char>, message: Seq<char>, at: int) -> Fault {
    refused(
        message + " at position "@ + decimal(utf8_len(s.take(at))) + " in "@ + debug_text(s),
    )
}

/// The tokens from position `i` on, behind those already read.
pub open spec fn tokens_from(s: Seq<char>, i: int, out: Seq<SpannedView>) -> Result<
    Seq<SpannedView>,
    Fault,
>
    decreases s.len() - i via tokens_from_decreases
{
    let at = skipped(s, i, false);
    if i < 0 || i > s.len() || at >= s.len() {
        Ok(out)
    } else {
        match token_at(s, at) {
            Err((message, position)) => Err(lex_fault(s, message, position)),
            Ok((token, end)) => tokens_from(
                s,
                end,
                out.push(Placed { token, offset: utf8_len(s.take(at)) as usize }),
            ),
        }
    }
}

#[via_fn]
proof fn tokens_from_decreases(s: Seq<char>, i: int, out: Seq<SpannedView>) {
    if 0 <= i <= s.len() {
        lemma_skipped(s, i, false);
        let at = skipped(s, i, false);
        if at < s.len() {
            lemma_token_at(s, at);
        }
    }
}

/// The tokens of a text, each with its offset in bytes.
pub open spec fn tokenized(s: Seq<char>) -> Result<Seq<SpannedView>, Fault> {
    tokens_from(s, 0, Seq::empty())
}

proof fn lemma_skipped(s: Seq<char>, i: int, in_comment: bool)
    requires
        0 <= i <= s.len(),
    ensures
        i <= skipped(s, i, in_comment) <= s.len(),
    decreases s.len() - i,
{
    if i < s.len() {
        if in_comment {
            lemma_skipped(s, i + 1, s[i] != '\n');
        } else if is_ascii_space(s[i]) {
            lemma_skipped(s, i + 1, false);
        } else if s[i] == '#' {
            lemma_skipped(s, i + 1, true);
        }
    }
}

proof fn lemma_quoted_from(s: Seq<char>, start: int, i: int, quote: char, out: Seq<char>)
    requires
        0 <= start < i <= s.len(),
    ensures
        match quoted_from(s, start, i, quote, out) {
            Ok((_, end)) => i < end <= s.len(),
            Err((_, at)) => start <= at <= s.len(),
        },
    decreases s.len() - i,
{
    if i < s.len() {
        if s[i] == '\\' {
            if i + 1 < s.len() {
                lemma_quoted_from(s, start, i + 2, quote, out + unescaped(s[i + 1]));
            }
        } else if s[i] != quote {
            lemma_quoted_from(s, start, i + 1, quote, out.push(s[i]));
        }
    }
}

proof fn lemma_ident_end(s: Seq<char>, i: int)
    requires
        0 <= i <= s.len(),
    ensures
        i <= ident_end(s, i) <= s.len(),
    decreases s.len() - i,
{
    if i < s.len() && (is_name_char(s[i]) || s[i] == ':' || (s[i] == '.' && i + 1 < s.len()
        && is_name_char(s[i + 1]))) {
        lemma_ident_end(s, i + 1);
    }
}

proof fn lemma_number_end(s: Seq<char>, i: int)
    requires
        0 <= i <= s.len(),
    ensures
        i <= number_end(s, i) <= s.len(),
    decreases s.len() - i,
{
    if i < s.len() && (is_digit(s[i]) || s[i] == '.' || ((s[i] == 'e' || s[i] == 'E') && i + 1
        < s.len())) {
        lemma_number_end(s, i + 1);
    }
}

proof fn lemma_duration_from(s: Seq<char>, i: int, total: u64)
    requires
        0 <= i <= s.len(),
    ensures
        match duration_from(s, i, total) {
            Ok((_, end)) => i <= end <= s.len(),
            Err((_, at)) => i <= at <= s.len(),
        },
        i < s.len() && is_digit(s[i]) ==> match duration_from(s, i, total) {
            Ok((_, end)) => i < end,
            Err(_) => true,
        },
    decreases s.len() - i,
{
    let digits = run(s, i, Class::DigitOrDot);
    lemma_run(s, i, Class::DigitOrDot);
    lemma_run(s, digits, Class::Letter);
    if digits != i && is_number(s.subrange(i, digits)) {
        let end = run(s, digits, Class::Letter);
        match unit_nanos(s.subrange(digits, end)) {
            None => {},
            Some(nanos) => {
                lemma_duration_from(
                    s,
                    end,
                    saturated(total as nat + scaled(s.subrange(i, digits), nanos) as nat),
                );
            },
        }
    }
}

/// A token ends behind where it starts, inside the text.
pub proof fn lemma_token_at(s: Seq<char>, i: int)
    requires
        0 <= i < s.len(),
    ensures
        match token_at(s, i) {
            Ok((_, end)) => i < end <= s.len(),
            Err((_, at)) => i <= at <= s.len(),
        },
{
    if s[i] == '"' || s[i] == '\'' {
        lemma_quoted_from(s, i, i + 1, s[i], Seq::empty());
    }
    lemma_run(s, i + 1, Class::NotBackquote);
    lemma_number_end(s, i);
    lemma_number_end(s, i + 1);
    lemma_duration_from(s, i, 0);
    lemma_ident_end(s, i + 1);
}

/// A text that does not lex is refused as malformed.
pub proof fn lemma_tokenized_refused(s: Seq<char>)
    ensures
        match tokenized(s) {
            Ok(_) => true,
            Err(fault) => fault is BadRequest,
        },
{
    lemma_tokens_from_refused(s, 0, Seq::empty());
}

proof fn lemma_tokens_from_refused(s: Seq<char>, i: int, out: Seq<SpannedView>)
    ensures
        match tokens_from(s, i, out) {
            Ok(_) => true,
            Err(fault) => fault is BadRequest,
        },
    decreases s.len() - i,
{
    if 0 <= i <= s.len() {
        lemma_skipped(s, i, false);
        let at = skipped(s, i, false);
        if at < s.len() {
            lemma_token_at(s, at);
            match token_at(s, at) {
                Err(_) => {},
                Ok((token, end)) => lemma_tokens_from_refused(
                    s,
                    end,
                    out.push(Placed { token, offset: utf8_len(s.take(at)) as usize }),
                ),
            }
        }
    }
}

// ---------------------------------------------------------------------------
// The tokenizer
// ---------------------------------------------------------------------------

/// The tokens of `input`.
pub fn tokenize(input: &str) -> (r: Result<Vec<Spanned>, Error>)
    ensures
        outcome_all(r) == tokenized(input@),
{
    let mut lexer: Lexer = Lexer::new(input);
    lexer.run()
}

/// A position in a text.
struct Lexer<'a> {
    input: &'a str,
    chars: Vec<char>,
    /// Characters read.
    pos: usize,
    /// Bytes read.
    offset: usize,
}

fn double_token(a: char, b: char) -> (r: Option<Token>)
    ensures
        crate::text::option_view(r) == double_operator(a, b),
{
    match (a, b) {
        ('!', '=') => Some(Lexeme::NotEqual),
        ('!', '~') => Some(Lexeme::RegexNotMatch),
        ('=', '~') => Some(Lexeme::RegexMatch),
        ('=', '=') => Some(Lexeme::Equal),
        ('&', '&') => Some(Lexeme::AndAnd),
        ('|', '|') => Some(Lexeme::OrOr),
        ('|', '=') => Some(Lexeme::LineContains),
        ('|', '~') => Some(Lexeme::LineRegex),
        ('<', '=') => Some(Lexeme::LessEqual),
        ('>', '=') => Some(Lexeme::GreaterEqual),
        _ => None,
    }
}

fn single_token(c: char) -> (r: Option<Token>)
    ensures
        crate::text::option_view(r) == single_operator(c),
{
    match c {
        '{' => Some(Lexeme::LeftBrace),
        '}' => Some(Lexeme::RightBrace),
        '(' => Some(Lexeme::LeftParen),
        ')' => Some(Lexeme::RightParen),
        '[' => Some(Lexeme::LeftBracket),
        ']' => Some(Lexeme::RightBracket),
        ',' => Some(Lexeme::Comma),
        '|' => Some(Lexeme::Pipe),
        '=' => Some(Lexeme::Equal),
        '<' => Some(Lexeme::Less),
        '>' => Some(Lexeme::Greater),
        '+' => Some(Lexeme::Plus),
        '-' => Some(Lexeme::Minus),
        '*' => Some(Lexeme::Star),
        '/' => Some(Lexeme::Slash),
        '%' => Some(Lexeme::Percent),
        '^' => Some(Lexeme::Caret),
        '@' => Some(Lexeme::At),
        ':' => Some(Lexeme::Colon),
        _ => None,
    }
}

/// Whether a text writes a number.
pub fn number_text(chars: &[char], from: usize, to: usize) -> (r: bool)
    requires
        from <= to <= chars@.len(),
    ensures
        r == is_number(chars@.subrange(from as int, to as int)),
{
    let text: &[char] = vstd::slice::slice_subrange(chars, from, to);
    let whole: usize = run_end(text, 0, Class::Digit);
    let end: usize = if whole < text.len() && text[whole] == '.' {
        run_end(text, whole + 1, Class::Digit)
    } else {
        whole
    };
    if whole == 0 && end <= whole + 1 {
        return false;
    }
    if end == text.len() {
        return true;
    }
    (text[end] == 'e' || text[end] == 'E') && end + 1 < text.len() && run_end(
        text,
        end + 1,
        Class::Digit,
    ) == text.len()
}

fn unit_of(unit: &str) -> (r: Option<u64>)
    ensures
        unit_nanos(unit@) == (match r {
            Some(n) => Some(n as nat),
            None => None,
        }),
        r is Some ==> 1 <= r->Some_0 <= 31_536_000_000_000_000,
{
    if same(unit, "ns") {
        Some(1)
    } else if same(unit, "us") {
        Some(1_000)
    } else if same(unit, "ms") {
        Some(1_000_000)
    } else if same(unit, "s") {
        Some(1_000_000_000)
    } else if same(unit, "m") {
        Some(60_000_000_000)
    } else if same(unit, "h") {
        Some(3_600_000_000_000)
    } else if same(unit, "d") {
        Some(86_400_000_000_000)
    } else if same(unit, "w") {
        Some(604_800_000_000_000)
    } else if same(unit, "y") {
        Some(31_536_000_000_000_000)
    } else {
        None
    }
}

/// The digits' value, or the greatest number where it would not fit.
pub fn digits_saturating(digits: &[char]) -> (r: u64)
    requires
        all_digits(digits@),
    ensures
        r == saturated(digits_value(digits@)),
{
    let mut total: u64 = 0;
    let mut i: usize = 0;
    while i < digits.len()
        invariant
            all_digits(digits@),
            i <= digits@.len(),
            total == saturated(digits_value(digits@.take(i as int))),
        decreases digits@.len() - i,
    {
        let c: char = digits[i];
        assert(is_digit(digits@[i as int]));
        assert(digits@.take(i as int + 1).drop_last() =~= digits@.take(i as int));
        let d: u64 = (c as u8 - 48u8) as u64;
        total = if total > (u64::MAX - d) / 10 {
            u64::MAX
        } else {
            total * 10 + d
        };
        i += 1;
    }
    assert(digits@.take(i as int) =~= digits@);
    total
}

/// A decimal fraction times `by`, as doubles.
fn scaled_nanos(text: &[char], by: u64) -> (r: u64)
    requires
        1 <= by <= 31_536_000_000_000_000,
    ensures
        r == scaled(text@, by as nat),
{
    let (digits, whole, _) = mantissa(text);
    crate::nearest::scaled(digits.as_slice(), whole as i128, by)
}

impl<'a> Lexer<'a> {
    spec fn wf(&self) -> bool {
        &&& self.chars@ == self.input@
        &&& self.pos <= self.chars@.len() <= usize::MAX
        &&& self.offset == utf8_len(self.chars@.take(self.pos as int))
        &&& utf8_len(self.chars@) <= usize::MAX
    }

    fn new(input: &'a str) -> (lexer: Lexer<'a>)
        ensures
            lexer.wf(),
            lexer.input@ == input@,
            lexer.pos == 0,
    {
        let bytes: &[u8] = input.as_bytes();
        let size: usize = bytes.len();
        proof {
            lemma_utf8_len(input@);
            assert(input@.take(0) =~= Seq::empty());
        }
        let chars: Vec<char> = chars_of(input);
        let count: usize = chars.len();
        Lexer { input, chars, pos: 0, offset: 0 }
    }

    /// Moves on to character `to`.
    fn advance_to(&mut self, to: usize)
        requires
            old(self).wf(),
            old(self).pos <= to <= old(self).chars@.len(),
        ensures
            final(self).wf(),
            final(self).input@ == old(self).input@,
            final(self).pos == to,
    {
        self.offset = self.offset_of(to);
        self.pos = to;
    }

    fn run(&mut self) -> (r: Result<Vec<Spanned>, Error>)
        requires
            old(self).wf(),
            old(self).pos == 0,
        ensures
            outcome_all(r) == tokenized(old(self).input@),
    {
        let ghost s = self.input@;
        let mut out: Vec<Spanned> = Vec::new();
        assert(views(out@) =~= Seq::empty());
        loop
            invariant
                self.wf(),
                self.input@ == s,
                s == old(self).input@,
                tokenized(s) == tokens_from(s, self.pos as int, views(out@)),
            decreases s.len() - self.pos,
        {
            let ghost start = self.pos as int;
            self.skip_whitespace_and_comments();
            if self.pos >= self.chars.len() {
                return Ok(out);
            }
            let offset: usize = self.offset;
            let ghost at = self.pos as int;
            proof {
                lemma_token_at(s, at);
            }
            match self.next_token() {
                Ok(token) => {
                    let ghost done = out@;
                    out.push(Placed { token, offset });
                    proof {
                        crate::text::lemma_views_push(done, out@.last());
                    }
                },
                Err(error) => {
                    return Err(error);
                },
            }
        }
    }

    fn skip_whitespace_and_comments(&mut self)
        requires
            old(self).wf(),
        ensures
            final(self).wf(),
            final(self).input@ == old(self).input@,
            final(self).pos == skipped(old(self).input@, old(self).pos as int, false),
            final(self).pos >= old(self).pos,
    {
        let mut i: usize = self.pos;
        let mut in_comment: bool = false;
        while i < self.chars.len() && (in_comment || is_ascii_space(self.chars[i]) || self.chars[i]
            == '#')
            invariant
                self.wf(),
                self.pos <= i <= self.chars@.len(),
                skipped(self.chars@, self.pos as int, false) == skipped(
                    self.chars@,
                    i as int,
                    in_comment,
                ),
            decreases self.chars@.len() - i,
        {
            let c: char = self.chars[i];
            if in_comment {
                in_comment = c != '\n';
            } else if !is_ascii_space(c) {
                in_comment = true;
            }
            i += 1;
        }
        self.advance_to(i);
    }

    /// The character `ahead` places on.
    fn peek(&self, ahead: usize) -> (c: Option<char>)
        requires
            self.wf(),
        ensures
            c == (if self.pos + ahead < self.chars@.len() {
                Some(self.chars@[self.pos + ahead])
            } else {
                None
            }),
    {
        if ahead < self.chars.len() - self.pos {
            Some(self.chars[self.pos + ahead])
        } else {
            None
        }
    }

    /// Bytes before character `at`.
    fn offset_of(&self, at: usize) -> (offset: usize)
        requires
            self.wf(),
            self.pos <= at <= self.chars@.len(),
        ensures
            offset == utf8_len(self.chars@.take(at as int)),
    {
        let mut i: usize = self.pos;
        let mut offset: usize = self.offset;
        while i < at
            invariant
                self.wf(),
                self.pos <= i <= at <= self.chars@.len(),
                offset == utf8_len(self.chars@.take(i as int)),
            decreases at - i,
        {
            proof {
                lemma_utf8_len_step(self.chars@, i as int);
            }
            offset = offset + width_of(self.chars[i]);
            i += 1;
        }
        offset
    }

    /// The refusal with `message`, at character `at`.
    fn error(&self, message: String, at: usize) -> (error: Error)
        requires
            self.wf(),
            self.pos <= at <= self.chars@.len(),
        ensures
            error@ == lex_fault(self.input@, message@, at as int),
    {
        let offset: usize = self.offset_of(at);
        let mut text: String = message;
        text.append(" at position ");
        text.append(decimal_text(offset as u64).as_str());
        text.append(" in ");
        text.append(quoted(self.input).as_str());
        Failure::BadRequest(text)
    }

    fn next_token(&mut self) -> (r: Result<Token, Error>)
        requires
            old(self).wf(),
            old(self).pos < old(self).chars@.len(),
        ensures
            final(self).input@ == old(self).input@,
            match token_at(old(self).input@, old(self).pos as int) {
                Ok((token, end)) => r is Ok && r->Ok_0@ == token && final(self).wf()
                    && final(self).pos == end,
                Err((message, at)) => r is Err && r->Err_0@ == lex_fault(
                    old(self).input@,
                    message,
                    at,
                ),
            },
    {
        let first: char = self.chars[self.pos];
        match self.peek(1) {
            Some(second) => match double_token(first, second) {
                Some(token) => {
                    self.advance_to(self.pos + 2);
                    return Ok(token);
                },
                None => {},
            },
            None => {},
        }
        match single_token(first) {
            Some(token) => {
                self.advance_to(self.pos + 1);
                return Ok(token);
            },
            None => {},
        }
        if first == '"' || first == '\'' {
            return self.lex_quoted(first);
        }
        if first == '`' {
            return self.lex_raw();
        }
        if is_digit(first) {
            return self.lex_number();
        }
        let dotted: bool = first == '.' && match self.peek(1) {
            Some(c) => is_letter(c) || c == '_',
            None => false,
        };
        if is_letter(first) || first == '_' || dotted {
            return Ok(self.lex_ident());
        }
        let mut message: String = "unexpected character ".to_owned();
        message.append(quoted_char(first).as_str());
        let at: usize = self.pos;
        Err(self.error(message, at))
    }

    fn lex_quoted(&mut self, quote: char) -> (r: Result<Token, Error>)
        requires
            old(self).wf(),
            old(self).pos < old(self).chars@.len(),
        ensures
            final(self).input@ == old(self).input@,
            match quoted_from(
                old(self).input@,
                old(self).pos as int,
                old(self).pos + 1,
                quote,
                Seq::empty(),
            ) {
                Ok((token, end)) => r is Ok && r->Ok_0@ == token && final(self).wf()
                    && final(self).pos == end,
                Err((message, at)) => r is Err && r->Err_0@ == lex_fault(
                    old(self).input@,
                    message,
                    at,
                ),
            },
    {
        let start: usize = self.pos;
        let ghost s = self.input@;
        let ghost goal = quoted_from(s, start as int, start + 1, quote, Seq::empty());
        let mut i: usize = start + 1;
        let mut out: Vec<char> = Vec::new();
        while i < self.chars.len()
            invariant
                self.wf(),
                self.input@ == s,
                s == old(self).input@,
                self.pos == start,
                start < i <= self.chars@.len(),
                start == old(self).pos,
                goal == quoted_from(s, start as int, start + 1, quote, Seq::empty()),
                goal == quoted_from(s, start as int, i as int, quote, out@),
            decreases self.chars@.len() - i,
        {
            let c: char = self.chars[i];
            if c == '\\' {
                if i + 1 >= self.chars.len() {
                    return Err(self.error("string ends with a trailing backslash".to_owned(), i + 1));
                }
                let escaped: char = self.chars[i + 1];
                let ghost done = out@;
                match escaped {
                    'n' => out.push('\n'),
                    't' => out.push('\t'),
                    'r' => out.push('\r'),
                    '\\' | '"' | '\'' | '`' => out.push(escaped),
                    _ => {
                        out.push('\\');
                        out.push(escaped);
                    },
                }
                assert(out@ =~= done + unescaped(escaped));
                i += 2;
            } else if c == quote {
                let value: String = string_of(out.as_slice());
                self.advance_to(i + 1);
                return Ok(Lexeme::String(value));
            } else {
                out.push(c);
                i += 1;
            }
        }
        Err(self.error("unterminated string literal".to_owned(), start))
    }

    /// A backquoted string, without escapes.
    fn lex_raw(&mut self) -> (r: Result<Token, Error>)
        requires
            old(self).wf(),
            old(self).pos < old(self).chars@.len(),
        ensures
            final(self).input@ == old(self).input@,
            match raw_from(old(self).input@, old(self).pos as int) {
                Ok((token, end)) => r is Ok && r->Ok_0@ == token && final(self).wf()
                    && final(self).pos == end,
                Err((message, at)) => r is Err && r->Err_0@ == lex_fault(
                    old(self).input@,
                    message,
                    at,
                ),
            },
    {
        let start: usize = self.pos;
        let end: usize = run_end(self.chars.as_slice(), start + 1, Class::NotBackquote);
        if end < self.chars.len() {
            let value: String = piece(self.chars.as_slice(), start + 1, end);
            self.advance_to(end + 1);
            Ok(Lexeme::String(value))
        } else {
            Err(self.error("unterminated raw string literal".to_owned(), start))
        }
    }

    fn lex_number(&mut self) -> (r: Result<Token, Error>)
        requires
            old(self).wf(),
            old(self).pos < old(self).chars@.len(),
        ensures
            final(self).input@ == old(self).input@,
            match number_from(old(self).input@, old(self).pos as int) {
                Ok((token, end)) => r is Ok && r->Ok_0@ == token && final(self).wf()
                    && final(self).pos == end,
                Err((message, at)) => r is Err && r->Err_0@ == lex_fault(
                    old(self).input@,
                    message,
                    at,
                ),
            },
    {
        let start: usize = self.pos;
        let mut end: usize = start;
        while end < self.chars.len() && (is_digit(self.chars[end]) || self.chars[end] == '.' || ((
        self.chars[end] == 'e' || self.chars[end] == 'E') && end + 1 < self.chars.len() && (is_digit(
            self.chars[end + 1],
        ) || self.chars[end + 1] == '-' || self.chars[end + 1] == '+')))
            invariant
                start <= end <= self.chars@.len(),
                number_end(self.chars@, start as int) == number_end(self.chars@, end as int),
            decreases self.chars@.len() - end,
        {
            end += 1;
        }
        if end < self.chars.len() && is_letter(self.chars[end]) {
            return self.lex_duration();
        }
        let text: String = piece(self.chars.as_slice(), start, end);
        if number_text(self.chars.as_slice(), start, end) {
            self.advance_to(end);
            Ok(Lexeme::Number(text))
        } else {
            let mut message: String = quoted(text.as_str());
            message.append(" is not a valid number");
            Err(self.error(message, end))
        }
    }

    /// Durations are pairs of value and unit: `1h30m`, `500ms`, `2w`.
    fn lex_duration(&mut self) -> (r: Result<Token, Error>)
        requires
            old(self).wf(),
            old(self).pos < old(self).chars@.len(),
        ensures
            final(self).input@ == old(self).input@,
            match duration_from(old(self).input@, old(self).pos as int, 0) {
                Ok((token, end)) => r is Ok && r->Ok_0@ == token && final(self).wf()
                    && final(self).pos == end,
                Err((message, at)) => r is Err && r->Err_0@ == lex_fault(
                    old(self).input@,
                    message,
                    at,
                ),
            },
    {
        let ghost s = self.input@;
        let ghost goal = duration_from(s, self.pos as int, 0);
        let mut total: u64 = 0;
        loop
            invariant
                self.wf(),
                self.input@ == s,
                s == old(self).input@,
                goal == duration_from(s, old(self).pos as int, 0),
                goal == duration_from(s, self.pos as int, total),
            decreases s.len() - self.pos,
        {
            let start: usize = self.pos;
            let digits: usize = run_end(self.chars.as_slice(), start, Class::DigitOrDot);
            if digits == start {
                return Ok(Lexeme::Duration(total));
            }
            if !number_text(self.chars.as_slice(), start, digits) {
                return Err(self.error("invalid duration value".to_owned(), digits));
            }
            let end: usize = run_end(self.chars.as_slice(), digits, Class::Letter);
            let unit: String = piece(self.chars.as_slice(), digits, end);
            match unit_of(unit.as_str()) {
                None => {
                    let mut message: String = quoted(unit.as_str());
                    message.append(
                        " is not a duration unit (use ns, us, ms, s, m, h, d, w or y)",
                    );
                    return Err(self.error(message, end));
                },
                Some(nanos) => {
                    let value: &[char] = vstd::slice::slice_subrange(
                        self.chars.as_slice(),
                        start,
                        digits,
                    );
                    let component: u64 = scaled_nanos(value, nanos);
                    total = if total > u64::MAX - component {
                        u64::MAX
                    } else {
                        total + component
                    };
                    self.advance_to(end);
                },
            }
        }
    }

    /// Identifiers, dotted paths among them.
    fn lex_ident(&mut self) -> (token: Token)
        requires
            old(self).wf(),
            old(self).pos < old(self).chars@.len(),
        ensures
            final(self).wf(),
            final(self).input@ == old(self).input@,
            final(self).pos == ident_end(old(self).input@, old(self).pos as int),
            token@ == TokenView::Ident(
                old(self).input@.subrange(
                    old(self).pos as int,
                    ident_end(old(self).input@, old(self).pos as int),
                ),
            ),
    {
        let start: usize = self.pos;
        let mut end: usize = start;
        while end < self.chars.len() && (is_name_char(self.chars[end]) || self.chars[end] == ':' || (
        self.chars[end] == '.' && end + 1 < self.chars.len() && is_name_char(self.chars[end + 1])))
            invariant
                start <= end <= self.chars@.len(),
                ident_end(self.chars@, start as int) == ident_end(self.chars@, end as int),
            decreases self.chars@.len() - end,
        {
            end += 1;
        }
        let name: String = piece(self.chars.as_slice(), start, end);
        self.advance_to(end);
        Lexeme::Ident(name)
    }
}

} // verus!
