//! The PromQL subset: parsing and lowering.
//!
//! As with the other languages, the input is parsed in full, so that a construct outside
//! the subset reports itself by name rather than as a syntax error.
use vstd::prelude::*;

use crate::error::{outcome, refused, Error, Failure, Fault};
use crate::labels::METRIC_NAME_LABEL;
use crate::lexer::{tokenize, tokenized, Lexeme, Spanned, SpannedView, TokenView};
use crate::matcher::{LabelMatcher, MatchOp, MatcherView};
use crate::parser::{
    follows, follows_all, lemma_matchers_refused, matchers_from, token_of, unexpected, Cursor,
    Dialect, Parsed,
};
use crate::text::{decimal, decimal_text, lemma_views_push, same, views};

verus! {

/// How far back an instant vector looks for a sample, in nanoseconds.
pub const DEFAULT_LOOKBACK: u64 = 300_000_000_000;

// ---------------------------------------------------------------------------
// Expressions
// ---------------------------------------------------------------------------

#[derive(Debug, Clone, Copy, PartialEq, Eq, Structural)]
pub enum Function {
    Rate,
    Increase,
    HistogramQuantile,
    ClampMin,
    ClampMax,
    Abs,
}

impl Function {
    pub open spec fn name(self) -> Seq<char> {
        match self {
            Function::Rate => "rate"@,
            Function::Increase => "increase"@,
            Function::HistogramQuantile => "histogram_quantile"@,
            Function::ClampMin => "clamp_min"@,
            Function::ClampMax => "clamp_max"@,
            Function::Abs => "abs"@,
        }
    }

    /// The function that a name calls.
    pub open spec fn named(name: Seq<char>) -> Option<Function> {
        if name == "rate"@ {
            Some(Function::Rate)
        } else if name == "increase"@ {
            Some(Function::Increase)
        } else if name == "histogram_quantile"@ {
            Some(Function::HistogramQuantile)
        } else if name == "clamp_min"@ {
            Some(Function::ClampMin)
        } else if name == "clamp_max"@ {
            Some(Function::ClampMax)
        } else if name == "abs"@ {
            Some(Function::Abs)
        } else {
            None
        }
    }

    pub open spec fn takes(self) -> nat {
        match self {
            Function::Rate | Function::Increase | Function::Abs => 1,
            Function::HistogramQuantile | Function::ClampMin | Function::ClampMax => 2,
        }
    }

    fn from_name(name: &str) -> (r: Option<Function>)
        ensures
            r == Function::named(name@),
    {
        if same(name, "rate") {
            Some(Function::Rate)
        } else if same(name, "increase") {
            Some(Function::Increase)
        } else if same(name, "histogram_quantile") {
            Some(Function::HistogramQuantile)
        } else if same(name, "clamp_min") {
            Some(Function::ClampMin)
        } else if same(name, "clamp_max") {
            Some(Function::ClampMax)
        } else if same(name, "abs") {
            Some(Function::Abs)
        } else {
            None
        }
    }

    pub fn as_str(self) -> (name: &'static str)
        ensures
            name@ == self.name(),
    {
        match self {
            Function::Rate => "rate",
            Function::Increase => "increase",
            Function::HistogramQuantile => "histogram_quantile",
            Function::ClampMin => "clamp_min",
            Function::ClampMax => "clamp_max",
            Function::Abs => "abs",
        }
    }

    /// Whether the function takes a range vector (`sel[5m]`) as its argument.
    pub fn wants_range(self) -> (r: bool)
        ensures
            r == (self == Function::Rate || self == Function::Increase),
    {
        match self {
            Function::Rate | Function::Increase => true,
            _ => false,
        }
    }

    /// How many arguments the function takes.
    pub fn arity(self) -> (n: usize)
        ensures
            n == self.takes(),
    {
        match self {
            Function::Rate | Function::Increase | Function::Abs => 1,
            Function::HistogramQuantile | Function::ClampMin | Function::ClampMax => 2,
        }
    }
}

#[derive(Debug, Clone, Copy, PartialEq, Eq, Structural)]
pub enum AggregateOp {
    Sum,
    Avg,
    Min,
    Max,
    Count,
    /// The `k` greatest elements of each group. Evaluated, and not yet in the grammar.
    TopK,
    /// The `k` least elements of each group. Evaluated, and not yet in the grammar.
    BottomK,
}

impl AggregateOp {
    pub open spec fn name(self) -> Seq<char> {
        match self {
            AggregateOp::Sum => "sum"@,
            AggregateOp::Avg => "avg"@,
            AggregateOp::Min => "min"@,
            AggregateOp::Max => "max"@,
            AggregateOp::Count => "count"@,
            AggregateOp::TopK => "topk"@,
            AggregateOp::BottomK => "bottomk"@,
        }
    }

    /// The aggregation that a name asks for.
    pub open spec fn named(name: Seq<char>) -> Option<AggregateOp> {
        if name == "sum"@ {
            Some(AggregateOp::Sum)
        } else if name == "avg"@ {
            Some(AggregateOp::Avg)
        } else if name == "min"@ {
            Some(AggregateOp::Min)
        } else if name == "max"@ {
            Some(AggregateOp::Max)
        } else if name == "count"@ {
            Some(AggregateOp::Count)
        } else {
            None
        }
    }

    fn from_name(name: &str) -> (r: Option<AggregateOp>)
        ensures
            r == AggregateOp::named(name@),
    {
        if same(name, "sum") {
            Some(AggregateOp::Sum)
        } else if same(name, "avg") {
            Some(AggregateOp::Avg)
        } else if same(name, "min") {
            Some(AggregateOp::Min)
        } else if same(name, "max") {
            Some(AggregateOp::Max)
        } else if same(name, "count") {
            Some(AggregateOp::Count)
        } else {
            None
        }
    }

    pub fn as_str(self) -> (name: &'static str)
        ensures
            name@ == self.name(),
    {
        match self {
            AggregateOp::Sum => "sum",
            AggregateOp::Avg => "avg",
            AggregateOp::Min => "min",
            AggregateOp::Max => "max",
            AggregateOp::Count => "count",
            AggregateOp::TopK => "topk",
            AggregateOp::BottomK => "bottomk",
        }
    }

    /// Whether the aggregation keeps elements instead of reducing a group to one value.
    pub fn selects_elements(self) -> (r: bool)
        ensures
            r == (self == AggregateOp::TopK || self == AggregateOp::BottomK),
    {
        match self {
            AggregateOp::TopK | AggregateOp::BottomK => true,
            _ => false,
        }
    }
}

/// `by (…)` / `without (…)`, or neither.
#[derive(Debug)]
pub enum Grouping {
    All,
    By(Vec<String>),
    Without(Vec<String>),
}

pub enum GroupingView {
    All,
    By(Seq<Seq<char>>),
    Without(Seq<Seq<char>>),
}

impl View for Grouping {
    type V = GroupingView;

    open spec fn view(&self) -> GroupingView {
        match self {
            Grouping::All => GroupingView::All,
            Grouping::By(names) => GroupingView::By(views(names@)),
            Grouping::Without(names) => GroupingView::Without(views(names@)),
        }
    }
}

impl Default for Grouping {
    fn default() -> (r: Grouping)
        ensures
            r == Grouping::All,
    {
        Grouping::All
    }
}

#[derive(Debug, Clone, Copy, PartialEq, Eq, Structural)]
pub enum BinaryOp {
    Add,
    Sub,
    Mul,
    Div,
    Mod,
    Pow,
    /// Vector union: the left side wins, the right fills gaps.
    Or,
}

impl BinaryOp {
    pub open spec fn symbol(self) -> Seq<char> {
        match self {
            BinaryOp::Add => "+"@,
            BinaryOp::Sub => "-"@,
            BinaryOp::Mul => "*"@,
            BinaryOp::Div => "/"@,
            BinaryOp::Mod => "%"@,
            BinaryOp::Pow => "^"@,
            BinaryOp::Or => "or"@,
        }
    }

    pub fn as_str(self) -> (symbol: &'static str)
        ensures
            symbol@ == self.symbol(),
    {
        match self {
            BinaryOp::Add => "+",
            BinaryOp::Sub => "-",
            BinaryOp::Mul => "*",
            BinaryOp::Div => "/",
            BinaryOp::Mod => "%",
            BinaryOp::Pow => "^",
            BinaryOp::Or => "or",
        }
    }
}

#[derive(Debug)]
pub struct Selector {
    pub matchers: Vec<LabelMatcher>,
    /// `[5m]`, which makes this a range vector, in nanoseconds.
    pub range: Option<u64>,
    /// `offset 5m`, which shifts the evaluation time backwards, in nanoseconds.
    pub offset: Option<u64>,
}

pub struct SelectorView {
    pub matchers: Seq<MatcherView>,
    pub range: Option<u64>,
    pub offset: Option<u64>,
}

impl View for Selector {
    type V = SelectorView;

    open spec fn view(&self) -> SelectorView {
        SelectorView { matchers: views(self.matchers@), range: self.range, offset: self.offset }
    }
}

#[allow(inconsistent_fields)]
#[derive(Debug)]
pub enum Expr {
    /// A number, as it is written.
    Number(String),
    Selector(Selector),
    Call { function: Function, args: Vec<Expr> },
    Aggregation {
        op: AggregateOp,
        grouping: Grouping,
        /// The `k` of an aggregation that selects elements.
        param: Option<Box<Expr>>,
        inner: Box<Expr>,
    },
    Binary { op: BinaryOp, left: Box<Expr>, right: Box<Expr> },
    /// Unary minus.
    Negate(Box<Expr>),
}

#[allow(inconsistent_fields)]
pub enum ExprView {
    Number(Seq<char>),
    Selector(SelectorView),
    Call { function: Function, args: Seq<ExprView> },
    Aggregation {
        op: AggregateOp,
        grouping: GroupingView,
        param: Option<Box<ExprView>>,
        inner: Box<ExprView>,
    },
    Binary { op: BinaryOp, left: Box<ExprView>, right: Box<ExprView> },
    Negate(Box<ExprView>),
}

pub open spec fn expr_view(e: Expr) -> ExprView
    decreases e,
{
    match e {
        Expr::Number(text) => ExprView::Number(text@),
        Expr::Selector(selector) => ExprView::Selector(selector@),
        Expr::Call { function, args } => ExprView::Call {
            function,
            args: Seq::new(
                args@.len(),
                |i: int|
                    if 0 <= i < args@.len() {
                        expr_view(args@[i])
                    } else {
                        arbitrary()
                    },
            ),
        },
        Expr::Aggregation { op, grouping, param, inner } => ExprView::Aggregation {
            op,
            grouping: grouping@,
            param: match param {
                Some(k) => Some(Box::new(expr_view(*k))),
                None => None,
            },
            inner: Box::new(expr_view(*inner)),
        },
        Expr::Binary { op, left, right } => ExprView::Binary {
            op,
            left: Box::new(expr_view(*left)),
            right: Box::new(expr_view(*right)),
        },
        Expr::Negate(inner) => ExprView::Negate(Box::new(expr_view(*inner))),
    }
}

impl View for Expr {
    type V = ExprView;

    open spec fn view(&self) -> ExprView {
        expr_view(*self)
    }
}

/// A call's view holds its arguments' views.
pub proof fn lemma_call_view(function: Function, args: Vec<Expr>)
    ensures
        expr_view(Expr::Call { function, args }) == (ExprView::Call {
            function,
            args: views(args@),
        }),
{
    match expr_view(Expr::Call { function, args }) {
        ExprView::Call { function: _, args: seen } => {
            assert(seen =~= views(args@));
        },
        _ => {},
    }
}

/// Every call in the expression has as many arguments as its function takes.
pub open spec fn arities_match(e: ExprView) -> bool
    decreases e,
{
    match e {
        ExprView::Number(_) | ExprView::Selector(_) => true,
        ExprView::Call { function, args } => args.len() == function.takes() && (forall|i: int|
            0 <= i < args.len() ==> arities_match(#[trigger] args[i])),
        ExprView::Aggregation { op: _, grouping: _, param, inner } => arities_match(*inner) && (
        match param {
            Some(k) => arities_match(*k),
            None => true,
        }),
        ExprView::Binary { op: _, left, right } => arities_match(*left) && arities_match(*right),
        ExprView::Negate(inner) => arities_match(*inner),
    }
}

// ---------------------------------------------------------------------------
// Grammar
// ---------------------------------------------------------------------------

pub open spec fn word_at(tokens: Seq<SpannedView>, at: int, word: Seq<char>) -> bool {
    token_of(tokens, at) == Some(TokenView::Ident(word))
}

pub open spec fn binary_of(op: BinaryOp, left: ExprView, right: ExprView) -> ExprView {
    ExprView::Binary { op, left: Box::new(left), right: Box::new(right) }
}

/// The refusal of a vector operator other than `or`.
pub open spec fn vector_operator(word: Seq<char>) -> Fault {
    Failure::Unsupported {
        feature: "PromQL `"@ + word + "` between vectors"@,
        hint: Some("only `or` is supported for vector matching"@),
    }
}

/// An expression: `or` binds loosest.
pub open spec fn expr_at(input: Seq<char>, tokens: Seq<SpannedView>, at: int) -> Parsed<ExprView>
    decreases tokens.len() - at, 6nat,
{
    match additive_at(input, tokens, at) {
        Err(fault) => Err(fault),
        Ok((left, next)) => if next <= at || next > tokens.len() {
            Ok((left, next))
        } else {
            union_from(input, tokens, next, left)
        },
    }
}

pub open spec fn union_from(
    input: Seq<char>,
    tokens: Seq<SpannedView>,
    at: int,
    left: ExprView,
) -> Parsed<ExprView>
    decreases tokens.len() - at, 7nat,
{
    if word_at(tokens, at, "or"@) {
        match additive_at(input, tokens, at + 1) {
            Err(fault) => Err(fault),
            Ok((right, next)) => if next <= at || next > tokens.len() {
                Ok((binary_of(BinaryOp::Or, left, right), next))
            } else {
                union_from(input, tokens, next, binary_of(BinaryOp::Or, left, right))
            },
        }
    } else if word_at(tokens, at, "and"@) {
        Err(vector_operator("and"@))
    } else if word_at(tokens, at, "unless"@) {
        Err(vector_operator("unless"@))
    } else {
        Ok((left, at))
    }
}

pub open spec fn additive_op(token: Option<TokenView>) -> Option<BinaryOp> {
    match token {
        Some(Lexeme::Plus) => Some(BinaryOp::Add),
        Some(Lexeme::Minus) => Some(BinaryOp::Sub),
        _ => None,
    }
}

pub open spec fn additive_at(input: Seq<char>, tokens: Seq<SpannedView>, at: int) -> Parsed<
    ExprView,
>
    decreases tokens.len() - at, 5nat,
{
    match multiplicative_at(input, tokens, at) {
        Err(fault) => Err(fault),
        Ok((left, next)) => if next <= at || next > tokens.len() {
            Ok((left, next))
        } else {
            sum_from(input, tokens, next, left)
        },
    }
}

pub open spec fn sum_from(
    input: Seq<char>,
    tokens: Seq<SpannedView>,
    at: int,
    left: ExprView,
) -> Parsed<ExprView>
    decreases tokens.len() - at, 7nat,
{
    match additive_op(token_of(tokens, at)) {
        None => Ok((left, at)),
        Some(op) => match multiplicative_at(input, tokens, at + 1) {
            Err(fault) => Err(fault),
            Ok((right, next)) => if next <= at || next > tokens.len() {
                Ok((binary_of(op, left, right), next))
            } else {
                sum_from(input, tokens, next, binary_of(op, left, right))
            },
        },
    }
}

pub open spec fn multiplicative_op(token: Option<TokenView>) -> Option<BinaryOp> {
    match token {
        Some(Lexeme::Star) => Some(BinaryOp::Mul),
        Some(Lexeme::Slash) => Some(BinaryOp::Div),
        Some(Lexeme::Percent) => Some(BinaryOp::Mod),
        _ => None,
    }
}

pub open spec fn multiplicative_at(input: Seq<char>, tokens: Seq<SpannedView>, at: int) -> Parsed<
    ExprView,
>
    decreases tokens.len() - at, 4nat,
{
    match unary_at(input, tokens, at) {
        Err(fault) => Err(fault),
        Ok((left, next)) => if next <= at || next > tokens.len() {
            Ok((left, next))
        } else {
            product_from(input, tokens, next, left)
        },
    }
}

pub open spec fn product_from(
    input: Seq<char>,
    tokens: Seq<SpannedView>,
    at: int,
    left: ExprView,
) -> Parsed<ExprView>
    decreases tokens.len() - at, 7nat,
{
    match multiplicative_op(token_of(tokens, at)) {
        None => Ok((left, at)),
        Some(op) => match unary_at(input, tokens, at + 1) {
            Err(fault) => Err(fault),
            Ok((right, next)) => if next <= at || next > tokens.len() {
                Ok((binary_of(op, left, right), next))
            } else {
                product_from(input, tokens, next, binary_of(op, left, right))
            },
        },
    }
}

pub open spec fn unary_at(input: Seq<char>, tokens: Seq<SpannedView>, at: int) -> Parsed<ExprView>
    decreases tokens.len() - at, 3nat,
{
    if token_of(tokens, at) == Some(TokenView::Minus) {
        match unary_at(input, tokens, at + 1) {
            Err(fault) => Err(fault),
            Ok((inner, next)) => Ok((ExprView::Negate(Box::new(inner)), next)),
        }
    } else {
        power_at(input, tokens, at)
    }
}

/// A power: `^` binds tighter than any other operator, a minus in front of it included, and
/// from the right.
pub open spec fn power_at(input: Seq<char>, tokens: Seq<SpannedView>, at: int) -> Parsed<ExprView>
    decreases tokens.len() - at, 2nat,
{
    match atom_at(input, tokens, at) {
        Err(fault) => Err(fault),
        Ok((base, next)) => if next <= at || token_of(tokens, next) != Some(TokenView::Caret) {
            Ok((base, next))
        } else {
            match unary_at(input, tokens, next + 1) {
                Err(fault) => Err(fault),
                Ok((exponent, end)) => Ok((binary_of(BinaryOp::Pow, base, exponent), end)),
            }
        },
    }
}

pub open spec fn atom_at(input: Seq<char>, tokens: Seq<SpannedView>, at: int) -> Parsed<ExprView>
    decreases tokens.len() - at, 1nat,
{
    match token_of(tokens, at) {
        Some(Lexeme::Number(text)) => Ok((ExprView::Number(text), at + 1)),
        Some(Lexeme::Duration(_)) => Err(
            refused(
                "a duration is not a value here; durations belong in `[…]` or after `offset`"@,
            ),
        ),
        Some(Lexeme::LeftParen) => match expr_at(input, tokens, at + 1) {
            Err(fault) => Err(fault),
            Ok((inner, next)) => if token_of(tokens, next) == Some(TokenView::RightParen) {
                Ok((inner, next + 1))
            } else {
                Err(unexpected(input, tokens, next, "`)`"@))
            },
        },
        Some(Lexeme::LeftBrace) => match braces_at(input, tokens, at) {
            Err(fault) => Err(fault),
            Ok((matchers, next)) => selector_end(input, tokens, next, matchers),
        },
        Some(Lexeme::Ident(name)) => named_at(input, tokens, at, name),
        _ => Err(unexpected(input, tokens, at, "a metric selector, function call or number"@)),
    }
}

/// A name is a call or an aggregation where `(`, `by` or `without` follows it, and a
/// metric's name otherwise.
pub open spec fn is_call(tokens: Seq<SpannedView>, at: int) -> bool {
    token_of(tokens, at + 1) == Some(TokenView::LeftParen) || word_at(tokens, at + 1, "by"@)
        || word_at(tokens, at + 1, "without"@)
}

pub open spec fn name_matcher(name: Seq<char>) -> MatcherView {
    MatcherView { name: METRIC_NAME_LABEL@, op: MatchOp::Equal, value: name }
}

pub open spec fn named_at(
    input: Seq<char>,
    tokens: Seq<SpannedView>,
    at: int,
    name: Seq<char>,
) -> Parsed<ExprView>
    decreases tokens.len() - at, 0nat,
{
    if at >= tokens.len() {
        Err(unexpected(input, tokens, at, "a metric selector, function call or number"@))
    } else if !is_call(tokens, at) {
        if token_of(tokens, at + 1) == Some(TokenView::LeftBrace) {
            match braces_at(input, tokens, at + 1) {
                Err(fault) => Err(fault),
                Ok((matchers, next)) => selector_end(
                    input,
                    tokens,
                    next,
                    seq![name_matcher(name)] + matchers,
                ),
            }
        } else {
            selector_end(input, tokens, at + 1, seq![name_matcher(name)])
        }
    } else if AggregateOp::named(name) is Some {
        aggregation_at(input, tokens, at + 1, AggregateOp::named(name)->Some_0)
    } else if Function::named(name) is Some {
        call_at(input, tokens, at + 1, Function::named(name)->Some_0)
    } else {
        Err(
            Failure::Unsupported {
                feature: "PromQL function `"@ + name + "`"@,
                hint: Some("see COMPATIBILITY.md for the supported functions"@),
            },
        )
    }
}

/// What follows an aggregation's name. Both `sum by (a) (expr)` and `sum(expr) by (a)`
/// are legal.
pub open spec fn aggregation_at(
    input: Seq<char>,
    tokens: Seq<SpannedView>,
    at: int,
    op: AggregateOp,
) -> Parsed<ExprView>
    decreases tokens.len() - at, 8nat,
{
    match grouping_at(input, tokens, at) {
        Err(fault) => Err(fault),
        Ok((grouping, open)) => if open < at || token_of(tokens, open) != Some(
            TokenView::LeftParen,
        ) {
            Err(unexpected(input, tokens, open, "`(` after an aggregation"@))
        } else {
            match expr_at(input, tokens, open + 1) {
                Err(fault) => Err(fault),
                Ok((inner, close)) => if token_of(tokens, close) != Some(TokenView::RightParen) {
                    Err(unexpected(input, tokens, close, "`)`"@))
                } else if grouping is All {
                    match grouping_at(input, tokens, close + 1) {
                        Err(fault) => Err(fault),
                        Ok((grouping, end)) => Ok((aggregation_of(op, grouping, inner), end)),
                    }
                } else {
                    Ok((aggregation_of(op, grouping, inner), close + 1))
                },
            }
        },
    }
}

pub open spec fn aggregation_of(op: AggregateOp, grouping: GroupingView, inner: ExprView) -> ExprView {
    ExprView::Aggregation { op, grouping, param: None, inner: Box::new(inner) }
}

/// `by (…)` or `without (…)`, where it stands.
pub open spec fn grouping_at(input: Seq<char>, tokens: Seq<SpannedView>, at: int) -> Parsed<
    GroupingView,
> {
    if word_at(tokens, at, "by"@) || word_at(tokens, at, "without"@) {
        if token_of(tokens, at + 1) != Some(TokenView::LeftParen) {
            Err(unexpected(input, tokens, at + 1, "`(` after `by`/`without`"@))
        } else {
            match names_from(input, tokens, at + 2, Seq::empty()) {
                Err(fault) => Err(fault),
                Ok((names, end)) => Ok(
                    (
                        if word_at(tokens, at, "by"@) {
                            GroupingView::By(names)
                        } else {
                            GroupingView::Without(names)
                        },
                        end,
                    ),
                ),
            }
        }
    } else {
        Ok((GroupingView::All, at))
    }
}

/// The label names up to the closing parenthesis, with commas wherever they stand.
pub open spec fn names_from(
    input: Seq<char>,
    tokens: Seq<SpannedView>,
    at: int,
    out: Seq<Seq<char>>,
) -> Parsed<Seq<Seq<char>>>
    decreases tokens.len() - at,
{
    match token_of(tokens, at) {
        Some(Lexeme::RightParen) => Ok((out, at + 1)),
        Some(Lexeme::Comma) => names_from(input, tokens, at + 1, out),
        Some(Lexeme::Ident(name)) => names_from(input, tokens, at + 1, out.push(name)),
        _ => Err(unexpected(input, tokens, at, "a label name or `)`"@)),
    }
}

/// A function's arguments, up to the closing parenthesis.
pub open spec fn call_at(
    input: Seq<char>,
    tokens: Seq<SpannedView>,
    at: int,
    function: Function,
) -> Parsed<ExprView>
    decreases tokens.len() - at, 8nat,
{
    if token_of(tokens, at) != Some(TokenView::LeftParen) {
        Err(unexpected(input, tokens, at, "`(` after a function name"@))
    } else if token_of(tokens, at + 1) == Some(TokenView::RightParen) {
        call_of(function, Seq::empty(), at + 2)
    } else {
        match args_from(input, tokens, at + 1, Seq::empty()) {
            Err(fault) => Err(fault),
            Ok((args, end)) => call_of(function, args, end),
        }
    }
}

/// A call, refused where it has the wrong number of arguments.
pub open spec fn call_of(function: Function, args: Seq<ExprView>, end: int) -> Parsed<ExprView> {
    if args.len() == function.takes() {
        Ok((ExprView::Call { function, args }, end))
    } else {
        Err(
            refused(
                "`"@ + function.name() + "` takes "@ + decimal(function.takes())
                    + " argument(s), got "@ + decimal(args.len()),
            ),
        )
    }
}

pub open spec fn args_from(
    input: Seq<char>,
    tokens: Seq<SpannedView>,
    at: int,
    out: Seq<ExprView>,
) -> Parsed<Seq<ExprView>>
    decreases tokens.len() - at, 7nat,
{
    match expr_at(input, tokens, at) {
        Err(fault) => Err(fault),
        Ok((arg, next)) => match token_of(tokens, next) {
            Some(Lexeme::Comma) => if next < at {
                Ok((out.push(arg), next))
            } else {
                args_from(input, tokens, next + 1, out.push(arg))
            },
            Some(Lexeme::RightParen) => Ok((out.push(arg), next + 1)),
            _ => Err(unexpected(input, tokens, next, "`,` or `)`"@)),
        },
    }
}

/// Matchers between braces, none among them.
pub open spec fn braces_at(input: Seq<char>, tokens: Seq<SpannedView>, at: int) -> Parsed<
    Seq<MatcherView>,
> {
    if token_of(tokens, at) != Some(TokenView::LeftBrace) {
        Err(unexpected(input, tokens, at, "`{`"@))
    } else if token_of(tokens, at + 1) == Some(TokenView::RightBrace) {
        Ok((Seq::empty(), at + 2))
    } else {
        matchers_from(Dialect::Metric, input, tokens, at + 1, Seq::empty())
    }
}

/// `[5m]`, where it stands.
pub open spec fn range_at(input: Seq<char>, tokens: Seq<SpannedView>, at: int) -> Parsed<
    Option<u64>,
> {
    if token_of(tokens, at) != Some(TokenView::LeftBracket) {
        Ok((None, at))
    } else {
        match token_of(tokens, at + 1) {
            Some(Lexeme::Duration(nanos)) => match token_of(tokens, at + 2) {
                Some(Lexeme::Colon) => Err(
                    Failure::Unsupported {
                        feature: "PromQL subqueries"@,
                        hint: Some(
                            "aggregate over a range vector instead, e.g. rate(metric[5m])"@,
                        ),
                    },
                ),
                Some(Lexeme::RightBracket) => Ok((Some(nanos), at + 3)),
                _ => Err(unexpected(input, tokens, at + 2, "`]`"@)),
            },
            _ => Err(unexpected(input, tokens, at + 1, "a duration inside `[…]`"@)),
        }
    }
}

/// `offset 5m`, where it stands.
pub open spec fn offset_at(input: Seq<char>, tokens: Seq<SpannedView>, at: int) -> Parsed<
    Option<u64>,
> {
    if !word_at(tokens, at, "offset"@) {
        Ok((None, at))
    } else {
        match token_of(tokens, at + 1) {
            Some(Lexeme::Duration(nanos)) => Ok((Some(nanos), at + 2)),
            _ => Err(unexpected(input, tokens, at + 1, "a duration after `offset`"@)),
        }
    }
}

/// What follows a selector's matchers: a range, an offset, and no `@`.
pub open spec fn selector_end(
    input: Seq<char>,
    tokens: Seq<SpannedView>,
    at: int,
    matchers: Seq<MatcherView>,
) -> Parsed<ExprView> {
    match range_at(input, tokens, at) {
        Err(fault) => Err(fault),
        Ok((range, next)) => match offset_at(input, tokens, next) {
            Err(fault) => Err(fault),
            Ok((offset, end)) => if token_of(tokens, end) == Some(TokenView::At) {
                Err(
                    Failure::Unsupported {
                        feature: "the PromQL `@` modifier"@,
                        hint: Some("use `offset` to shift the evaluation time"@),
                    },
                )
            } else {
                Ok((ExprView::Selector(SelectorView { matchers, range, offset }), end))
            },
        },
    }
}

/// The expression that a text writes, or why it writes none.
pub open spec fn metric_expr(input: Seq<char>) -> Result<ExprView, Fault> {
    match tokenized(input) {
        Err(fault) => Err(fault),
        Ok(tokens) => if tokens.len() == 0 {
            Err(refused("empty PromQL query"@))
        } else {
            match expr_at(input, tokens, 0) {
                Err(fault) => Err(fault),
                Ok((expr, end)) => if end < tokens.len() {
                    Err(unexpected(input, tokens, end, "the end of the query"@))
                } else {
                    Ok(expr)
                },
            }
        },
    }
}

// ---------------------------------------------------------------------------
// Parser
// ---------------------------------------------------------------------------

/// Parses a PromQL expression. Whatever the input, every call has as many arguments as
/// its function takes, and a refusal is the client's.
pub fn parse(input: &str) -> (r: Result<Expr, Error>)
    ensures
        outcome(r) == metric_expr(input@),
        r is Ok ==> arities_match(r->Ok_0@),
        r is Err ==> r->Err_0@ is BadRequest || r->Err_0@ is Unsupported,
{
    proof {
        crate::lexer::lemma_tokenized_refused(input@);
    }
    let tokens: Vec<Spanned> = match tokenize(input) {
        Ok(tokens) => tokens,
        Err(error) => {
            return Err(error);
        },
    };
    if tokens.len() == 0 {
        return Err(Failure::BadRequest("empty PromQL query".to_owned()));
    }
    let mut cursor: Cursor = Cursor { input, tokens: &tokens, pos: 0 };
    match parse_expr(&mut cursor) {
        Ok(expr) => if cursor.pos < cursor.tokens.len() {
            Err(cursor.unexpected("the end of the query"))
        } else {
            Ok(expr)
        },
        Err(error) => Err(error),
    }
}

/// What every parsing function of an expression keeps: it follows its rule, it moves on
/// inside the tokens, calls have their arguments, and refusals are the client's.
pub open spec fn reads_expr(
    before: Cursor,
    after: Cursor,
    r: Result<Expr, Error>,
    rule: Parsed<ExprView>,
) -> bool {
    &&& follows(before, after, r, rule)
    &&& match r {
        Ok(expr) => before.pos < after.pos <= before.tokens@.len() && arities_match(expr@),
        Err(error) => !(error@ is LimitExceeded),
    }
}

fn binary_expr(op: BinaryOp, left: Expr, right: Expr) -> (e: Expr)
    requires
        arities_match(left@),
        arities_match(right@),
    ensures
        e@ == binary_of(op, left@, right@),
        arities_match(e@),
{
    Expr::Binary { op, left: Box::new(left), right: Box::new(right) }
}

fn parse_expr(cursor: &mut Cursor) -> (r: Result<Expr, Error>)
    requires
        old(cursor).pos <= old(cursor).tokens@.len(),
    ensures
        reads_expr(
            *old(cursor),
            *final(cursor),
            r,
            expr_at(old(cursor).input@, old(cursor).ts(), old(cursor).pos as int),
        ),
    decreases old(cursor).tokens@.len() - old(cursor).pos, 6nat,
{
    let ghost input = cursor.input@;
    let ghost tokens = cursor.ts();
    let ghost start = cursor.pos as int;
    let mut left: Expr = match parse_additive(cursor) {
        Ok(left) => left,
        Err(error) => {
            return Err(error);
        },
    };
    loop
        invariant
            cursor.same_text(*old(cursor)),
            input == cursor.input@,
            tokens == cursor.ts(),
            start == old(cursor).pos < cursor.pos <= tokens.len(),
            arities_match(left@),
            expr_at(input, tokens, start) == union_from(input, tokens, cursor.pos as int, left@),
        decreases tokens.len() - cursor.pos,
    {
        if cursor.at_word("or") {
            cursor.pos = cursor.pos + 1;
            match parse_additive(cursor) {
                Ok(right) => {
                    left = binary_expr(BinaryOp::Or, left, right);
                },
                Err(error) => {
                    return Err(error);
                },
            }
        } else if cursor.at_word("and") {
            return Err(
                Error::unsupported_with_hint(
                    vector_feature("and"),
                    "only `or` is supported for vector matching",
                ),
            );
        } else if cursor.at_word("unless") {
            return Err(
                Error::unsupported_with_hint(
                    vector_feature("unless"),
                    "only `or` is supported for vector matching",
                ),
            );
        } else {
            return Ok(left);
        }
    }
}

fn vector_feature(word: &str) -> (feature: String)
    ensures
        feature@ == "PromQL `"@ + word@ + "` between vectors"@,
{
    let mut feature: String = "PromQL `".to_owned();
    feature.append(word);
    feature.append("` between vectors");
    feature
}

fn parse_additive(cursor: &mut Cursor) -> (r: Result<Expr, Error>)
    requires
        old(cursor).pos <= old(cursor).tokens@.len(),
    ensures
        reads_expr(
            *old(cursor),
            *final(cursor),
            r,
            additive_at(old(cursor).input@, old(cursor).ts(), old(cursor).pos as int),
        ),
    decreases old(cursor).tokens@.len() - old(cursor).pos, 5nat,
{
    let ghost input = cursor.input@;
    let ghost tokens = cursor.ts();
    let ghost start = cursor.pos as int;
    let mut left: Expr = match parse_multiplicative(cursor) {
        Ok(left) => left,
        Err(error) => {
            return Err(error);
        },
    };
    loop
        invariant
            cursor.same_text(*old(cursor)),
            input == cursor.input@,
            tokens == cursor.ts(),
            start == old(cursor).pos < cursor.pos <= tokens.len(),
            arities_match(left@),
            additive_at(input, tokens, start) == sum_from(
                input,
                tokens,
                cursor.pos as int,
                left@,
            ),
        decreases tokens.len() - cursor.pos,
    {
        let op: BinaryOp = match cursor.peek() {
            Some(Lexeme::Plus) => BinaryOp::Add,
            Some(Lexeme::Minus) => BinaryOp::Sub,
            _ => {
                return Ok(left);
            },
        };
        cursor.pos = cursor.pos + 1;
        match parse_multiplicative(cursor) {
            Ok(right) => {
                left = binary_expr(op, left, right);
            },
            Err(error) => {
                return Err(error);
            },
        }
    }
}

fn parse_multiplicative(cursor: &mut Cursor) -> (r: Result<Expr, Error>)
    requires
        old(cursor).pos <= old(cursor).tokens@.len(),
    ensures
        reads_expr(
            *old(cursor),
            *final(cursor),
            r,
            multiplicative_at(old(cursor).input@, old(cursor).ts(), old(cursor).pos as int),
        ),
    decreases old(cursor).tokens@.len() - old(cursor).pos, 4nat,
{
    let ghost input = cursor.input@;
    let ghost tokens = cursor.ts();
    let ghost start = cursor.pos as int;
    let mut left: Expr = match parse_unary(cursor) {
        Ok(left) => left,
        Err(error) => {
            return Err(error);
        },
    };
    loop
        invariant
            cursor.same_text(*old(cursor)),
            input == cursor.input@,
            tokens == cursor.ts(),
            start == old(cursor).pos < cursor.pos <= tokens.len(),
            arities_match(left@),
            multiplicative_at(input, tokens, start) == product_from(
                input,
                tokens,
                cursor.pos as int,
                left@,
            ),
        decreases tokens.len() - cursor.pos,
    {
        let op: BinaryOp = match cursor.peek() {
            Some(Lexeme::Star) => BinaryOp::Mul,
            Some(Lexeme::Slash) => BinaryOp::Div,
            Some(Lexeme::Percent) => BinaryOp::Mod,
            _ => {
                return Ok(left);
            },
        };
        cursor.pos = cursor.pos + 1;
        match parse_unary(cursor) {
            Ok(right) => {
                left = binary_expr(op, left, right);
            },
            Err(error) => {
                return Err(error);
            },
        }
    }
}

fn parse_unary(cursor: &mut Cursor) -> (r: Result<Expr, Error>)
    requires
        old(cursor).pos <= old(cursor).tokens@.len(),
    ensures
        reads_expr(
            *old(cursor),
            *final(cursor),
            r,
            unary_at(old(cursor).input@, old(cursor).ts(), old(cursor).pos as int),
        ),
    decreases old(cursor).tokens@.len() - old(cursor).pos, 3nat,
{
    match cursor.peek() {
        Some(Lexeme::Minus) => {
            cursor.pos = cursor.pos + 1;
            match parse_unary(cursor) {
                Ok(inner) => Ok(Expr::Negate(Box::new(inner))),
                Err(error) => Err(error),
            }
        },
        _ => parse_power(cursor),
    }
}

fn parse_power(cursor: &mut Cursor) -> (r: Result<Expr, Error>)
    requires
        old(cursor).pos <= old(cursor).tokens@.len(),
    ensures
        reads_expr(
            *old(cursor),
            *final(cursor),
            r,
            power_at(old(cursor).input@, old(cursor).ts(), old(cursor).pos as int),
        ),
    decreases old(cursor).tokens@.len() - old(cursor).pos, 2nat,
{
    let base: Expr = match parse_atom(cursor) {
        Ok(base) => base,
        Err(error) => {
            return Err(error);
        },
    };
    match cursor.peek() {
        Some(Lexeme::Caret) => {
            cursor.pos = cursor.pos + 1;
            match parse_unary(cursor) {
                Ok(exponent) => Ok(binary_expr(BinaryOp::Pow, base, exponent)),
                Err(error) => Err(error),
            }
        },
        _ => Ok(base),
    }
}

fn parse_atom(cursor: &mut Cursor) -> (r: Result<Expr, Error>)
    requires
        old(cursor).pos <= old(cursor).tokens@.len(),
    ensures
        reads_expr(
            *old(cursor),
            *final(cursor),
            r,
            atom_at(old(cursor).input@, old(cursor).ts(), old(cursor).pos as int),
        ),
    decreases old(cursor).tokens@.len() - old(cursor).pos, 1nat,
{
    match cursor.peek() {
        Some(Lexeme::Number(text)) => {
            let text: String = text.clone();
            cursor.pos = cursor.pos + 1;
            Ok(Expr::Number(text))
        },
        Some(Lexeme::Duration(_)) => Err(
            Failure::BadRequest(
                "a duration is not a value here; durations belong in `[…]` or after `offset`".to_owned(),
            ),
        ),
        Some(Lexeme::LeftParen) => {
            cursor.pos = cursor.pos + 1;
            let inner: Expr = match parse_expr(cursor) {
                Ok(inner) => inner,
                Err(error) => {
                    return Err(error);
                },
            };
            match cursor.peek() {
                Some(Lexeme::RightParen) => {
                    cursor.pos = cursor.pos + 1;
                    Ok(inner)
                },
                _ => Err(cursor.unexpected("`)`")),
            }
        },
        Some(Lexeme::LeftBrace) => match parse_matchers(cursor) {
            Ok(matchers) => finish_selector(cursor, matchers),
            Err(error) => Err(error),
        },
        Some(Lexeme::Ident(name)) => parse_ident_atom(cursor, name.as_str()),
        _ => Err(cursor.unexpected("a metric selector, function call or number")),
    }
}

fn parse_ident_atom(cursor: &mut Cursor, name: &str) -> (r: Result<Expr, Error>)
    requires
        old(cursor).pos < old(cursor).tokens@.len() <= usize::MAX,
    ensures
        reads_expr(
            *old(cursor),
            *final(cursor),
            r,
            named_at(old(cursor).input@, old(cursor).ts(), old(cursor).pos as int, name@),
        ),
    decreases old(cursor).tokens@.len() - old(cursor).pos, 0nat,
{
    cursor.pos = cursor.pos + 1;
    let opens: bool = match cursor.peek() {
        Some(Lexeme::LeftParen) => true,
        _ => false,
    };
    if !opens && !cursor.at_word("by") && !cursor.at_word("without") {
        let mut matchers: Vec<LabelMatcher> = Vec::new();
        matchers.push(LabelMatcher::equal(METRIC_NAME_LABEL, name));
        assert(views(matchers@) =~= seq![name_matcher(name@)]);
        match cursor.peek() {
            Some(Lexeme::LeftBrace) => {
                let mut more: Vec<LabelMatcher> = match parse_matchers(cursor) {
                    Ok(more) => more,
                    Err(error) => {
                        return Err(error);
                    },
                };
                let ghost own = matchers@;
                let ghost rest = more@;
                matchers.append(&mut more);
                assert(views(matchers@) =~= views(own) + views(rest));
            },
            _ => {},
        }
        return finish_selector(cursor, matchers);
    }
    match AggregateOp::from_name(name) {
        Some(op) => {
            return parse_aggregation(cursor, op);
        },
        None => {},
    }
    match Function::from_name(name) {
        Some(function) => {
            return parse_call(cursor, function);
        },
        None => {},
    }
    let mut feature: String = "PromQL function `".to_owned();
    feature.append(name);
    feature.append("`");
    Err(
        Error::unsupported_with_hint(feature, "see COMPATIBILITY.md for the supported functions"),
    )
}

fn parse_aggregation(cursor: &mut Cursor, op: AggregateOp) -> (r: Result<Expr, Error>)
    requires
        old(cursor).pos <= old(cursor).tokens@.len(),
    ensures
        reads_expr(
            *old(cursor),
            *final(cursor),
            r,
            aggregation_at(old(cursor).input@, old(cursor).ts(), old(cursor).pos as int, op),
        ),
    decreases old(cursor).tokens@.len() - old(cursor).pos, 8nat,
{
    let mut grouping: Grouping = match parse_grouping(cursor) {
        Ok(grouping) => grouping,
        Err(error) => {
            return Err(error);
        },
    };
    match cursor.peek() {
        Some(Lexeme::LeftParen) => {
            cursor.pos = cursor.pos + 1;
        },
        _ => {
            return Err(cursor.unexpected("`(` after an aggregation"));
        },
    }
    let inner: Expr = match parse_expr(cursor) {
        Ok(inner) => inner,
        Err(error) => {
            return Err(error);
        },
    };
    match cursor.peek() {
        Some(Lexeme::RightParen) => {
            cursor.pos = cursor.pos + 1;
        },
        _ => {
            return Err(cursor.unexpected("`)`"));
        },
    }
    match grouping {
        Grouping::All => {
            grouping = match parse_grouping(cursor) {
                Ok(grouping) => grouping,
                Err(error) => {
                    return Err(error);
                },
            };
        },
        _ => {},
    }
    Ok(Expr::Aggregation { op, grouping, param: None, inner: Box::new(inner) })
}

fn parse_grouping(cursor: &mut Cursor) -> (r: Result<Grouping, Error>)
    requires
        old(cursor).pos <= old(cursor).tokens@.len(),
    ensures
        follows(
            *old(cursor),
            *final(cursor),
            r,
            grouping_at(old(cursor).input@, old(cursor).ts(), old(cursor).pos as int),
        ),
        r is Ok ==> old(cursor).pos <= final(cursor).pos <= old(cursor).tokens@.len(),
        r is Err ==> !(r->Err_0@ is LimitExceeded),
{
    let by: bool = cursor.at_word("by");
    if !by && !cursor.at_word("without") {
        return Ok(Grouping::All);
    }
    cursor.pos = cursor.pos + 1;
    match cursor.peek() {
        Some(Lexeme::LeftParen) => {
            cursor.pos = cursor.pos + 1;
        },
        _ => {
            return Err(cursor.unexpected("`(` after `by`/`without`"));
        },
    }
    let ghost input = cursor.input@;
    let ghost tokens = cursor.ts();
    let ghost goal = names_from(input, tokens, cursor.pos as int, Seq::empty());
    let mut names: Vec<String> = Vec::new();
    assert(views(names@) =~= Seq::empty());
    loop
        invariant
            cursor.same_text(*old(cursor)),
            input == cursor.input@,
            tokens == cursor.ts(),
            old(cursor).pos <= cursor.pos <= tokens.len(),
            by == word_at(tokens, old(cursor).pos as int, "by"@),
            grouping_at(input, tokens, old(cursor).pos as int) == (match goal {
                Err(fault) => Err::<(GroupingView, int), Fault>(fault),
                Ok((names, end)) => Ok(
                    (
                        if by {
                            GroupingView::By(names)
                        } else {
                            GroupingView::Without(names)
                        },
                        end,
                    ),
                ),
            }),
            goal == names_from(input, tokens, cursor.pos as int, views(names@)),
        decreases tokens.len() - cursor.pos,
    {
        match cursor.peek() {
            Some(Lexeme::RightParen) => {
                cursor.pos = cursor.pos + 1;
                return Ok(
                    if by {
                        Grouping::By(names)
                    } else {
                        Grouping::Without(names)
                    },
                );
            },
            Some(Lexeme::Comma) => {
                cursor.pos = cursor.pos + 1;
            },
            Some(Lexeme::Ident(name)) => {
                let name: String = name.clone();
                proof {
                    lemma_views_push(names@, name);
                }
                names.push(name);
                cursor.pos = cursor.pos + 1;
            },
            _ => {
                return Err(cursor.unexpected("a label name or `)`"));
            },
        }
    }
}

fn call_expr(function: Function, args: Vec<Expr>, Ghost(end): Ghost<int>) -> (r: Result<Expr, Error>)
    requires
        forall|i: int| 0 <= i < args@.len() ==> arities_match(#[trigger] views(args@)[i]),
    ensures
        match call_of(function, views(args@), end) {
            Ok((expr, _)) => r is Ok && r->Ok_0@ == expr && arities_match(expr),
            Err(fault) => r is Err && r->Err_0@ == fault && !(fault is LimitExceeded),
        },
{
    if args.len() == function.arity() {
        proof {
            lemma_call_view(function, args);
        }
        return Ok(Expr::Call { function, args });
    }
    let mut message: String = "`".to_owned();
    message.append(function.as_str());
    message.append("` takes ");
    message.append(decimal_text(function.arity() as u64).as_str());
    message.append(" argument(s), got ");
    message.append(decimal_text(args.len() as u64).as_str());
    Err(Failure::BadRequest(message))
}

fn parse_call(cursor: &mut Cursor, function: Function) -> (r: Result<Expr, Error>)
    requires
        old(cursor).pos <= old(cursor).tokens@.len(),
    ensures
        reads_expr(
            *old(cursor),
            *final(cursor),
            r,
            call_at(old(cursor).input@, old(cursor).ts(), old(cursor).pos as int, function),
        ),
    decreases old(cursor).tokens@.len() - old(cursor).pos, 8nat,
{
    match cursor.peek() {
        Some(Lexeme::LeftParen) => {
            cursor.pos = cursor.pos + 1;
        },
        _ => {
            return Err(cursor.unexpected("`(` after a function name"));
        },
    }
    let mut args: Vec<Expr> = Vec::new();
    assert(views(args@) =~= Seq::empty());
    match cursor.peek() {
        Some(Lexeme::RightParen) => {
            cursor.pos = cursor.pos + 1;
            return call_expr(function, args, Ghost(cursor.pos as int));
        },
        _ => {},
    }
    let ghost input = cursor.input@;
    let ghost tokens = cursor.ts();
    let ghost first = cursor.pos as int;
    let ghost goal = args_from(input, tokens, first, Seq::empty());
    loop
        invariant
            cursor.same_text(*old(cursor)),
            input == cursor.input@,
            tokens == cursor.ts(),
            old(cursor).pos + 1 == first <= cursor.pos <= tokens.len(),
            old(cursor).pos < tokens.len(),
            call_at(input, tokens, old(cursor).pos as int, function) == (match goal {
                Err(fault) => Err::<(ExprView, int), Fault>(fault),
                Ok((args, end)) => call_of(function, args, end),
            }),
            goal == args_from(input, tokens, cursor.pos as int, views(args@)),
            forall|i: int| 0 <= i < args@.len() ==> arities_match(#[trigger] views(args@)[i]),
        decreases tokens.len() - cursor.pos,
    {
        let arg: Expr = match parse_expr(cursor) {
            Ok(arg) => arg,
            Err(error) => {
                return Err(error);
            },
        };
        proof {
            lemma_views_push(args@, arg);
        }
        args.push(arg);
        match cursor.peek() {
            Some(Lexeme::Comma) => {
                cursor.pos = cursor.pos + 1;
            },
            Some(Lexeme::RightParen) => {
                cursor.pos = cursor.pos + 1;
                return call_expr(function, args, Ghost(cursor.pos as int));
            },
            _ => {
                return Err(cursor.unexpected("`,` or `)`"));
            },
        }
    }
}

fn parse_matchers(cursor: &mut Cursor) -> (r: Result<Vec<LabelMatcher>, Error>)
    ensures
        follows_all(
            *old(cursor),
            *final(cursor),
            r,
            braces_at(old(cursor).input@, old(cursor).ts(), old(cursor).pos as int),
        ),
        r is Ok ==> old(cursor).pos < final(cursor).pos <= old(cursor).tokens@.len(),
        r is Err ==> !(r->Err_0@ is LimitExceeded),
{
    match cursor.peek() {
        Some(Lexeme::LeftBrace) => {
            cursor.pos = cursor.pos + 1;
        },
        _ => {
            return Err(cursor.unexpected("`{`"));
        },
    }
    match cursor.peek() {
        Some(Lexeme::RightBrace) => {
            cursor.pos = cursor.pos + 1;
            let none: Vec<LabelMatcher> = Vec::new();
            assert(views(none@) =~= Seq::empty());
            return Ok(none);
        },
        _ => {},
    }
    proof {
        lemma_matchers_refused(
            Dialect::Metric,
            cursor.input@,
            cursor.ts(),
            cursor.pos as int,
            Seq::empty(),
        );
    }
    cursor.matchers(Dialect::Metric)
}

/// Attaches `[range]` and `offset`, and rejects the modifiers that are not run.
fn finish_selector(cursor: &mut Cursor, matchers: Vec<LabelMatcher>) -> (r: Result<Expr, Error>)
    requires
        old(cursor).pos <= old(cursor).tokens@.len(),
    ensures
        follows(
            *old(cursor),
            *final(cursor),
            r,
            selector_end(
                old(cursor).input@,
                old(cursor).ts(),
                old(cursor).pos as int,
                views(matchers@),
            ),
        ),
        r is Ok ==> old(cursor).pos <= final(cursor).pos <= old(cursor).tokens@.len()
            && arities_match(r->Ok_0@),
        r is Err ==> !(r->Err_0@ is LimitExceeded),
{
    let mut range: Option<u64> = None;
    match cursor.peek() {
        Some(Lexeme::LeftBracket) => {
            cursor.pos = cursor.pos + 1;
            match cursor.peek() {
                Some(Lexeme::Duration(nanos)) => {
                    range = Some(*nanos);
                    cursor.pos = cursor.pos + 1;
                },
                _ => {
                    return Err(cursor.unexpected("a duration inside `[…]`"));
                },
            }
            match cursor.peek() {
                Some(Lexeme::Colon) => {
                    return Err(
                        Error::unsupported_with_hint(
                            "PromQL subqueries".to_owned(),
                            "aggregate over a range vector instead, e.g. rate(metric[5m])",
                        ),
                    );
                },
                Some(Lexeme::RightBracket) => {
                    cursor.pos = cursor.pos + 1;
                },
                _ => {
                    return Err(cursor.unexpected("`]`"));
                },
            }
        },
        _ => {},
    }
    let mut offset: Option<u64> = None;
    if cursor.at_word("offset") {
        cursor.pos = cursor.pos + 1;
        match cursor.peek() {
            Some(Lexeme::Duration(nanos)) => {
                offset = Some(*nanos);
                cursor.pos = cursor.pos + 1;
            },
            _ => {
                return Err(cursor.unexpected("a duration after `offset`"));
            },
        }
    }
    match cursor.peek() {
        Some(Lexeme::At) => Err(
            Error::unsupported_with_hint(
                "the PromQL `@` modifier".to_owned(),
                "use `offset` to shift the evaluation time",
            ),
        ),
        _ => Ok(Expr::Selector(Selector { matchers, range, offset })),
    }
}

// ---------------------------------------------------------------------------
// What an expression reads
// ---------------------------------------------------------------------------

/// Every selector of an expression, from left to right.
pub open spec fn selectors_of(e: ExprView) -> Seq<SelectorView>
    decreases
            e,
            match e {
                ExprView::Call { function: _, args } => args.len() + 2,
                _ => 0,
            },
{
    match e {
        ExprView::Number(_) => Seq::empty(),
        ExprView::Selector(selector) => seq![selector],
        ExprView::Call { function: _, args } => selectors_of_args(e, args.len()),
        ExprView::Aggregation { op: _, grouping: _, param: _, inner } => selectors_of(*inner),
        ExprView::Negate(inner) => selectors_of(*inner),
        ExprView::Binary { op: _, left, right } => selectors_of(*left) + selectors_of(*right),
    }
}

/// The selectors of a call's first `n` arguments.
pub open spec fn selectors_of_args(call: ExprView, n: nat) -> Seq<SelectorView>
    decreases call, n + 1,
{
    match call {
        ExprView::Call { function: _, args } => if n == 0 || n > args.len() {
            Seq::empty()
        } else {
            selectors_of_args(call, (n - 1) as nat) + selectors_of(args[n - 1])
        },
        _ => Seq::empty(),
    }
}

/// Every grouping that an expression aggregates by, from the outside in.
pub open spec fn groupings_of(e: ExprView) -> Seq<GroupingView>
    decreases
            e,
            match e {
                ExprView::Call { function: _, args } => args.len() + 2,
                _ => 0,
            },
{
    match e {
        ExprView::Number(_) | ExprView::Selector(_) => Seq::empty(),
        ExprView::Call { function: _, args } => groupings_of_args(e, args.len()),
        ExprView::Aggregation { op: _, grouping, param: _, inner } => seq![grouping]
            + groupings_of(*inner),
        ExprView::Negate(inner) => groupings_of(*inner),
        ExprView::Binary { op: _, left, right } => groupings_of(*left) + groupings_of(*right),
    }
}

pub open spec fn groupings_of_args(call: ExprView, n: nat) -> Seq<GroupingView>
    decreases call, n + 1,
{
    match call {
        ExprView::Call { function: _, args } => if n == 0 || n > args.len() {
            Seq::empty()
        } else {
            groupings_of_args(call, (n - 1) as nat) + groupings_of(args[n - 1])
        },
        _ => Seq::empty(),
    }
}

/// How far back of the evaluation time a selector reads, in nanoseconds.
pub open spec fn reach(s: SelectorView) -> nat {
    (match s.range {
        Some(range) => range,
        None => DEFAULT_LOOKBACK,
    }) as nat + (match s.offset {
        Some(offset) => offset,
        None => 0,
    }) as nat
}

/// The widest reach of any selector, and at least the default lookback.
pub open spec fn widest_reach(selectors: Seq<SelectorView>) -> nat
    decreases selectors.len(),
{
    if selectors.len() == 0 {
        DEFAULT_LOOKBACK as nat
    } else {
        let rest = widest_reach(selectors.drop_last());
        if reach(selectors.last()) > rest {
            reach(selectors.last())
        } else {
            rest
        }
    }
}

impl Expr {
    /// Every selector in the expression, for planning which series to read.
    pub fn selectors(&self) -> (out: Vec<&Selector>)
        ensures
            views(out@) == selectors_of(self@),
    {
        let mut out: Vec<&Selector> = Vec::new();
        self.collect_selectors(&mut out);
        assert(views(out@) =~= selectors_of(self@));
        out
    }

    fn collect_selectors<'a>(&'a self, out: &mut Vec<&'a Selector>)
        ensures
            views(final(out)@) == views(old(out)@) + selectors_of(self@),
        decreases self,
    {
        let ghost before = views(out@);
        match self {
            Expr::Number(_) => {
                assert(before + Seq::<SelectorView>::empty() =~= before);
            },
            Expr::Selector(selector) => {
                proof {
                    lemma_views_push(out@, selector);
                    assert(before.push(selector@) =~= before + seq![selector@]);
                }
                out.push(selector);
            },
            Expr::Call { function, args } => {
                proof {
                    lemma_call_view(*function, *args);
                    assert(before + Seq::<SelectorView>::empty() =~= before);
                }
                let mut i: usize = 0;
                #[verifier::loop_isolation(false)]
                while i < args.len()
                    invariant
                        i <= args@.len(),
                        views(out@) == before + selectors_of_args(self@, i as nat),
                    decreases args@.len() - i,
                {
                    proof {
                        assert(views(args@)[i as int] == args@[i as int]@);
                        assert((before + selectors_of_args(self@, i as nat)) + selectors_of(
                            args@[i as int]@,
                        ) =~= before + (selectors_of_args(self@, i as nat) + selectors_of(
                            args@[i as int]@,
                        )));
                    }
                    args[i].collect_selectors(out);
                    i += 1;
                }
            },
            Expr::Aggregation { op: _, grouping: _, param: _, inner } => {
                inner.collect_selectors(out);
            },
            Expr::Negate(inner) => {
                inner.collect_selectors(out);
            },
            Expr::Binary { op: _, left, right } => {
                left.collect_selectors(out);
                right.collect_selectors(out);
                assert((before + selectors_of(left@)) + selectors_of(right@) =~= before + (
                selectors_of(left@) + selectors_of(right@)));
            },
        }
    }

    /// Every grouping that the expression aggregates by.
    pub fn groupings(&self) -> (out: Vec<&Grouping>)
        ensures
            views(out@) == groupings_of(self@),
    {
        let mut out: Vec<&Grouping> = Vec::new();
        self.collect_groupings(&mut out);
        assert(views(out@) =~= groupings_of(self@));
        out
    }

    fn collect_groupings<'a>(&'a self, out: &mut Vec<&'a Grouping>)
        ensures
            views(final(out)@) == views(old(out)@) + groupings_of(self@),
        decreases self,
    {
        let ghost before = views(out@);
        match self {
            Expr::Number(_) | Expr::Selector(_) => {
                assert(before + Seq::<GroupingView>::empty() =~= before);
            },
            Expr::Call { function, args } => {
                proof {
                    lemma_call_view(*function, *args);
                    assert(before + Seq::<GroupingView>::empty() =~= before);
                }
                let mut i: usize = 0;
                #[verifier::loop_isolation(false)]
                while i < args.len()
                    invariant
                        i <= args@.len(),
                        views(out@) == before + groupings_of_args(self@, i as nat),
                    decreases args@.len() - i,
                {
                    proof {
                        assert(views(args@)[i as int] == args@[i as int]@);
                        assert((before + groupings_of_args(self@, i as nat)) + groupings_of(
                            args@[i as int]@,
                        ) =~= before + (groupings_of_args(self@, i as nat) + groupings_of(
                            args@[i as int]@,
                        )));
                    }
                    args[i].collect_groupings(out);
                    i += 1;
                }
            },
            Expr::Aggregation { op: _, grouping, param: _, inner } => {
                proof {
                    lemma_views_push(out@, grouping);
                }
                out.push(grouping);
                inner.collect_groupings(out);
                assert(before.push(grouping@) + groupings_of(inner@) =~= before + (seq![grouping@]
                    + groupings_of(inner@)));
            },
            Expr::Negate(inner) => {
                inner.collect_groupings(out);
            },
            Expr::Binary { op: _, left, right } => {
                left.collect_groupings(out);
                right.collect_groupings(out);
                assert((before + groupings_of(left@)) + groupings_of(right@) =~= before + (
                groupings_of(left@) + groupings_of(right@)));
            },
        }
    }

    /// The widest lookback that any part of the expression needs, in nanoseconds.
    ///
    /// Used to widen the storage read, so that a `rate(x[5m])` at the start of a range
    /// still has samples behind it.
    pub fn required_lookback(&self) -> (widest: u128)
        ensures
            widest == widest_reach(selectors_of(self@)),
    {
        let selectors: Vec<&Selector> = self.selectors();
        let ghost all = views(selectors@);
        let mut widest: u128 = DEFAULT_LOOKBACK as u128;
        let mut i: usize = 0;
        assert(all.take(0) =~= Seq::empty());
        while i < selectors.len()
            invariant
                i <= selectors@.len(),
                all == views(selectors@),
                widest == widest_reach(all.take(i as int)),
            decreases selectors@.len() - i,
        {
            proof {
                assert(all.take(i as int + 1).drop_last() =~= all.take(i as int));
                assert(all.take(i as int + 1).last() == selectors@[i as int]@);
            }
            let range: u64 = match selectors[i].range {
                Some(range) => range,
                None => DEFAULT_LOOKBACK,
            };
            let offset: u64 = match selectors[i].offset {
                Some(offset) => offset,
                None => 0,
            };
            let needed: u128 = range as u128 + offset as u128;
            if needed > widest {
                widest = needed;
            }
            i += 1;
        }
        assert(all.take(i as int) =~= all);
        widest
    }
}

// ---------------------------------------------------------------------------
// Laws
// ---------------------------------------------------------------------------

/// The lookback covers every selector of the expression and the default.
pub proof fn law_lookback_covers_every_selector(selectors: Seq<SelectorView>)
    ensures
        widest_reach(selectors) >= DEFAULT_LOOKBACK,
        forall|i: int| 0 <= i < selectors.len() ==> reach(#[trigger] selectors[i]) <= widest_reach(
            selectors,
        ),
    decreases selectors.len(),
{
    if selectors.len() > 0 {
        let rest = selectors.drop_last();
        law_lookback_covers_every_selector(rest);
        assert forall|i: int| 0 <= i < selectors.len() implies reach(#[trigger] selectors[i])
            <= widest_reach(selectors) by {
            if i < rest.len() {
                assert(rest[i] == selectors[i]);
            }
        }
    }
}

/// The name of a function or an aggregation is read back as what it names; the two
/// aggregations that are not in the grammar are read as nothing.
pub proof fn law_names_are_read_back(function: Function, op: AggregateOp)
    ensures
        Function::named(function.name()) == Some(function),
        AggregateOp::named(op.name()) == (if op == AggregateOp::TopK || op == AggregateOp::BottomK {
            None
        } else {
            Some(op)
        }),
{
    reveal_strlit("rate");
    reveal_strlit("increase");
    reveal_strlit("histogram_quantile");
    reveal_strlit("clamp_min");
    reveal_strlit("clamp_max");
    reveal_strlit("abs");
    reveal_strlit("sum");
    reveal_strlit("avg");
    reveal_strlit("min");
    reveal_strlit("max");
    reveal_strlit("count");
    reveal_strlit("topk");
    reveal_strlit("bottomk");
    assert("rate"@.len() == 4 && "increase"@.len() == 8 && "histogram_quantile"@.len() == 18);
    assert("clamp_min"@.len() == 9 && "clamp_max"@.len() == 9 && "abs"@.len() == 3);
    assert("clamp_min"@[7] == 'i' && "clamp_max"@[7] == 'a');
    assert("sum"@.len() == 3 && "avg"@.len() == 3 && "min"@.len() == 3 && "max"@.len() == 3);
    assert("count"@.len() == 5 && "topk"@.len() == 4 && "bottomk"@.len() == 7);
    assert("sum"@[1] == 'u' && "avg"@[1] == 'v' && "min"@[1] == 'i' && "max"@[1] == 'a');
}

} // verus!
