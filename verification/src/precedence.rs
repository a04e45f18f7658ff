//! How expressions of PromQL are read: how operators group, and where ranges, offsets and
//! groupings stand.
use vstd::prelude::*;

use crate::labels::METRIC_NAME_LABEL;
use crate::lexer::{tokenized, Lexeme, SpannedView, TokenView};
use crate::matcher::{MatchOp, MatcherView};
use crate::parser::token_of;
use crate::promql::{
    additive_at, aggregation_at, atom_at, expr_at, metric_expr, multiplicative_at, names_from,
    power_at, product_from, selector_end, sum_from, unary_at, union_from, AggregateOp, BinaryOp,
    ExprView, GroupingView, SelectorView,
};

verus! {

// ---------------------------------------------------------------------------
// What is written
// ---------------------------------------------------------------------------

/// Whether a token writes an operator.
pub open spec fn writes(token: TokenView, op: BinaryOp) -> bool {
    token == (match op {
        BinaryOp::Add => TokenView::Plus,
        BinaryOp::Sub => TokenView::Minus,
        BinaryOp::Mul => TokenView::Star,
        BinaryOp::Div => TokenView::Slash,
        BinaryOp::Mod => TokenView::Percent,
        BinaryOp::Pow => TokenView::Caret,
        BinaryOp::Or => TokenView::Ident("or"@),
    })
}

/// How tightly an operator binds.
pub open spec fn tightness(op: BinaryOp) -> nat {
    match op {
        BinaryOp::Or => 0,
        BinaryOp::Add | BinaryOp::Sub => 1,
        BinaryOp::Mul | BinaryOp::Div | BinaryOp::Mod => 2,
        BinaryOp::Pow => 3,
    }
}

/// What a token is as an operand by itself: a number, or a metric by its name.
pub open spec fn operand(token: TokenView) -> Option<ExprView> {
    match token {
        Lexeme::Number(text) => Some(ExprView::Number(text)),
        Lexeme::Ident(name) => Some(
            ExprView::Selector(
                SelectorView {
                    matchers: seq![
                        MatcherView { name: METRIC_NAME_LABEL@, op: MatchOp::Equal, value: name },
                    ],
                    range: None,
                    offset: None,
                },
            ),
        ),
        _ => None,
    }
}

/// An operator between two operands.
pub open spec fn between(left: ExprView, op: BinaryOp, right: ExprView) -> ExprView {
    ExprView::Binary { op, left: Box::new(left), right: Box::new(right) }
}

/// Whether the first of two operators in a row takes its operands before the second.
pub open spec fn goes_first(first: BinaryOp, second: BinaryOp) -> bool {
    tightness(first) > tightness(second) || (tightness(first) == tightness(second) && first
        != BinaryOp::Pow)
}

/// Whether an operand can end before this token.
spec fn closes(token: Option<TokenView>) -> bool {
    match token {
        None => true,
        Some(Lexeme::RightParen) => true,
        Some(token) => exists|op: BinaryOp| writes(token, op),
    }
}

// ---------------------------------------------------------------------------
// Steps of the grammar
// ---------------------------------------------------------------------------

proof fn lemma_operand(input: Seq<char>, tokens: Seq<SpannedView>, at: int)
    requires
        0 <= at < tokens.len(),
        operand(tokens[at].token) is Some,
        closes(token_of(tokens, at + 1)),
    ensures
        atom_at(input, tokens, at) == Ok::<_, crate::error::Fault>(
            (operand(tokens[at].token)->Some_0, at + 1),
        ),
        tokens[at].token != TokenView::Minus,
{
    reveal_strlit("or");
    reveal_strlit("by");
    reveal_strlit("without");
    reveal_strlit("offset");
    assert("or"@.len() == 2 && "or"@[0] == 'o');
    assert("by"@.len() == 2 && "by"@[0] == 'b');
    assert("without"@.len() == 7);
    assert("offset"@.len() == 6);
}

/// A power ends where no `^` follows.
proof fn lemma_unary(input: Seq<char>, tokens: Seq<SpannedView>, at: int)
    requires
        0 <= at < tokens.len(),
        operand(tokens[at].token) is Some,
        closes(token_of(tokens, at + 1)),
        token_of(tokens, at + 1) != Some(TokenView::Caret),
    ensures
        unary_at(input, tokens, at) == Ok::<_, crate::error::Fault>(
            (operand(tokens[at].token)->Some_0, at + 1),
        ),
{
    lemma_operand(input, tokens, at);
    assert(power_at(input, tokens, at) == Ok::<_, crate::error::Fault>(
        (operand(tokens[at].token)->Some_0, at + 1),
    ));
}

proof fn lemma_unary_power(
    input: Seq<char>,
    tokens: Seq<SpannedView>,
    at: int,
    exponent: ExprView,
    end: int,
)
    requires
        0 <= at < tokens.len(),
        operand(tokens[at].token) is Some,
        token_of(tokens, at + 1) == Some(TokenView::Caret),
        unary_at(input, tokens, at + 2) == Ok::<_, crate::error::Fault>((exponent, end)),
    ensures
        unary_at(input, tokens, at) == Ok::<_, crate::error::Fault>(
            (between(operand(tokens[at].token)->Some_0, BinaryOp::Pow, exponent), end),
        ),
{
    assert(writes(TokenView::Caret, BinaryOp::Pow));
    lemma_operand(input, tokens, at);
    assert(power_at(input, tokens, at) == Ok::<_, crate::error::Fault>(
        (between(operand(tokens[at].token)->Some_0, BinaryOp::Pow, exponent), end),
    ));
}

/// A product, once its first factor is read.
proof fn lemma_product(
    input: Seq<char>,
    tokens: Seq<SpannedView>,
    at: int,
    left: ExprView,
    op: BinaryOp,
    right: ExprView,
    end: int,
)
    requires
        0 <= at < end <= tokens.len(),
        writes(tokens[at].token, op),
        tightness(op) == 2,
        unary_at(input, tokens, at + 1) == Ok::<_, crate::error::Fault>((right, end)),
    ensures
        product_from(input, tokens, at, left) == product_from(
            input,
            tokens,
            end,
            between(left, op, right),
        ),
{
}

proof fn lemma_sum(
    input: Seq<char>,
    tokens: Seq<SpannedView>,
    at: int,
    left: ExprView,
    op: BinaryOp,
    right: ExprView,
    end: int,
)
    requires
        0 <= at < end <= tokens.len(),
        writes(tokens[at].token, op),
        tightness(op) == 1,
        multiplicative_at(input, tokens, at + 1) == Ok::<_, crate::error::Fault>((right, end)),
    ensures
        sum_from(input, tokens, at, left) == sum_from(input, tokens, end, between(left, op, right)),
{
}

proof fn lemma_union(
    input: Seq<char>,
    tokens: Seq<SpannedView>,
    at: int,
    left: ExprView,
    right: ExprView,
    end: int,
)
    requires
        0 <= at < end <= tokens.len(),
        writes(tokens[at].token, BinaryOp::Or),
        additive_at(input, tokens, at + 1) == Ok::<_, crate::error::Fault>((right, end)),
    ensures
        union_from(input, tokens, at, left) == union_from(
            input,
            tokens,
            end,
            between(left, BinaryOp::Or, right),
        ),
{
}

/// Where the operators of a level end.
proof fn lemma_stops(input: Seq<char>, tokens: Seq<SpannedView>, at: int, left: ExprView)
    requires
        closes(token_of(tokens, at)),
    ensures
        ({
            let next = token_of(tokens, at);
            let done = Ok::<_, crate::error::Fault>((left, at));
            &&& next is None || next == Some(TokenView::RightParen) ==> product_from(
                input,
                tokens,
                at,
                left,
            ) == done && sum_from(input, tokens, at, left) == done && union_from(
                input,
                tokens,
                at,
                left,
            ) == done
            &&& forall|op: BinaryOp| next is Some && #[trigger] writes(next->Some_0, op) ==> {
                &&& tightness(op) < 2 ==> product_from(input, tokens, at, left) == done
                &&& tightness(op) < 1 ==> sum_from(input, tokens, at, left) == done
            }
        }),
{
    reveal_strlit("or");
    reveal_strlit("and");
    reveal_strlit("unless");
    assert("or"@.len() == 2 && "and"@.len() == 3 && "unless"@.len() == 6);
}

/// Three operands with two operators between them, from `at` on, up to the end or a `)`.
pub open spec fn is_triple(
    tokens: Seq<SpannedView>,
    at: int,
    first: BinaryOp,
    second: BinaryOp,
) -> bool {
    &&& 0 <= at
    &&& at + 5 <= tokens.len()
    &&& operand(tokens[at].token) is Some
    &&& writes(tokens[at + 1].token, first)
    &&& operand(tokens[at + 2].token) is Some
    &&& writes(tokens[at + 3].token, second)
    &&& operand(tokens[at + 4].token) is Some
    &&& at + 5 == tokens.len() || tokens[at + 5].token == TokenView::RightParen
}

#[verifier::spinoff_prover]
#[verifier::rlimit(60)]
proof fn lemma_triple(
    input: Seq<char>,
    tokens: Seq<SpannedView>,
    at: int,
    first: BinaryOp,
    second: BinaryOp,
)
    requires
        is_triple(tokens, at, first, second),
    ensures
        ({
            let a = operand(tokens[at].token)->Some_0;
            let b = operand(tokens[at + 2].token)->Some_0;
            let c = operand(tokens[at + 4].token)->Some_0;
            expr_at(input, tokens, at) == Ok::<_, crate::error::Fault>(
                (
                    if goes_first(first, second) {
                        between(between(a, first, b), second, c)
                    } else {
                        between(a, first, between(b, second, c))
                    },
                    at + 5,
                ),
            )
        }),
{
    let a = operand(tokens[at].token)->Some_0;
    let b = operand(tokens[at + 2].token)->Some_0;
    let c = operand(tokens[at + 4].token)->Some_0;
    let (p, q) = (tightness(first), tightness(second));
    let end = at + 5;
    let ab = between(a, first, b);
    let bc = between(b, second, c);
    assert(closes(token_of(tokens, at + 1)) && closes(token_of(tokens, at + 3)) && closes(
        token_of(tokens, end),
    ));
    lemma_unary(input, tokens, at + 4);
    if q == 3 {
        lemma_unary_power(input, tokens, at + 2, c, end);
        if p == 3 {
            lemma_unary_power(input, tokens, at, bc, end);
            let all = between(a, first, bc);
            lemma_stops(input, tokens, end, all);
            assert(multiplicative_at(input, tokens, at) == Ok::<_, crate::error::Fault>((all, end)));
            assert(additive_at(input, tokens, at) == Ok::<_, crate::error::Fault>((all, end)));
        } else {
            lemma_unary(input, tokens, at);
            let all = between(a, first, bc);
            lemma_stops(input, tokens, end, all);
            lemma_stops(input, tokens, end, bc);
            lemma_stops(input, tokens, at + 1, a);
            if p == 2 {
                lemma_product(input, tokens, at + 1, a, first, bc, end);
                assert(multiplicative_at(input, tokens, at) == Ok::<_, crate::error::Fault>(
                    (all, end),
                ));
                assert(additive_at(input, tokens, at) == Ok::<_, crate::error::Fault>((all, end)));
            } else {
                assert(multiplicative_at(input, tokens, at) == Ok::<_, crate::error::Fault>(
                    (a, at + 1),
                ));
                assert(multiplicative_at(input, tokens, at + 2) == Ok::<_, crate::error::Fault>(
                    (bc, end),
                ));
                if p == 1 {
                    lemma_sum(input, tokens, at + 1, a, first, bc, end);
                    assert(additive_at(input, tokens, at) == Ok::<_, crate::error::Fault>(
                        (all, end),
                    ));
                } else {
                    assert(additive_at(input, tokens, at) == Ok::<_, crate::error::Fault>(
                        (a, at + 1),
                    ));
                    assert(additive_at(input, tokens, at + 2) == Ok::<_, crate::error::Fault>(
                        (bc, end),
                    ));
                    lemma_union(input, tokens, at + 1, a, bc, end);
                }
            }
        }
    } else {
        lemma_unary(input, tokens, at + 2);
        if p == 3 {
            lemma_unary_power(input, tokens, at, b, at + 3);
            lemma_after(input, tokens, at, ab, at + 3, second, c, end);
        } else {
            lemma_unary(input, tokens, at);
            lemma_stops(input, tokens, at + 1, a);
            lemma_stops(input, tokens, at + 3, b);
            lemma_stops(input, tokens, at + 3, ab);
            lemma_stops(input, tokens, end, c);
            lemma_stops(input, tokens, end, bc);
            let left = between(ab, second, c);
            let right = between(a, first, bc);
            lemma_stops(input, tokens, end, left);
            lemma_stops(input, tokens, end, right);
            assert(multiplicative_at(input, tokens, at + 4) == Ok::<_, crate::error::Fault>(
                (c, end),
            ));
            assert(additive_at(input, tokens, at + 4) == Ok::<_, crate::error::Fault>((c, end)));
            if p == 2 {
                lemma_product(input, tokens, at + 1, a, first, b, at + 3);
                if q == 2 {
                    lemma_product(input, tokens, at + 3, ab, second, c, end);
                    assert(multiplicative_at(input, tokens, at) == Ok::<_, crate::error::Fault>(
                        (left, end),
                    ));
                    assert(additive_at(input, tokens, at) == Ok::<_, crate::error::Fault>(
                        (left, end),
                    ));
                } else {
                    assert(multiplicative_at(input, tokens, at) == Ok::<_, crate::error::Fault>(
                        (ab, at + 3),
                    ));
                    if q == 1 {
                        lemma_sum(input, tokens, at + 3, ab, second, c, end);
                        assert(additive_at(input, tokens, at) == Ok::<_, crate::error::Fault>(
                            (left, end),
                        ));
                    } else {
                        assert(additive_at(input, tokens, at) == Ok::<_, crate::error::Fault>(
                            (ab, at + 3),
                        ));
                        lemma_union(input, tokens, at + 3, ab, c, end);
                    }
                }
            } else {
                assert(multiplicative_at(input, tokens, at) == Ok::<_, crate::error::Fault>(
                    (a, at + 1),
                ));
                if q == 2 {
                    lemma_product(input, tokens, at + 3, b, second, c, end);
                    assert(multiplicative_at(input, tokens, at + 2) == Ok::<
                        _,
                        crate::error::Fault,
                    >((bc, end)));
                } else {
                    assert(multiplicative_at(input, tokens, at + 2) == Ok::<
                        _,
                        crate::error::Fault,
                    >((b, at + 3)));
                }
                if p == 1 {
                    if q == 2 {
                        lemma_sum(input, tokens, at + 1, a, first, bc, end);
                        assert(additive_at(input, tokens, at) == Ok::<_, crate::error::Fault>(
                            (right, end),
                        ));
                    } else {
                        lemma_sum(input, tokens, at + 1, a, first, b, at + 3);
                        if q == 1 {
                            lemma_sum(input, tokens, at + 3, ab, second, c, end);
                            assert(additive_at(input, tokens, at) == Ok::<_, crate::error::Fault>(
                                (left, end),
                            ));
                        } else {
                            assert(additive_at(input, tokens, at) == Ok::<_, crate::error::Fault>(
                                (ab, at + 3),
                            ));
                            lemma_union(input, tokens, at + 3, ab, c, end);
                        }
                    }
                } else {
                    assert(additive_at(input, tokens, at) == Ok::<_, crate::error::Fault>(
                        (a, at + 1),
                    ));
                    if q == 2 {
                        assert(additive_at(input, tokens, at + 2) == Ok::<_, crate::error::Fault>(
                            (bc, end),
                        ));
                        lemma_union(input, tokens, at + 1, a, bc, end);
                    } else if q == 1 {
                        lemma_sum(input, tokens, at + 3, b, second, c, end);
                        assert(additive_at(input, tokens, at + 2) == Ok::<_, crate::error::Fault>(
                            (bc, end),
                        ));
                        lemma_union(input, tokens, at + 1, a, bc, end);
                    } else {
                        assert(additive_at(input, tokens, at + 2) == Ok::<_, crate::error::Fault>(
                            (b, at + 3),
                        ));
                        lemma_union(input, tokens, at + 1, a, b, at + 3);
                        lemma_union(input, tokens, at + 3, ab, c, end);
                    }
                }
            }
        }
    }
}

/// One operator behind what binds tighter than any of its kind, and one operand behind it.
proof fn lemma_after(
    input: Seq<char>,
    tokens: Seq<SpannedView>,
    at: int,
    left: ExprView,
    mid: int,
    op: BinaryOp,
    right: ExprView,
    end: int,
)
    requires
        0 <= at < mid,
        mid + 1 < end <= tokens.len(),
        unary_at(input, tokens, at) == Ok::<_, crate::error::Fault>((left, mid)),
        writes(tokens[mid].token, op),
        op != BinaryOp::Pow,
        unary_at(input, tokens, mid + 1) == Ok::<_, crate::error::Fault>((right, end)),
        token_of(tokens, end) is None || token_of(tokens, end) == Some(
            TokenView::RightParen,
        ),
    ensures
        expr_at(input, tokens, at) == Ok::<_, crate::error::Fault>(
            (between(left, op, right), end),
        ),
{
    let all = between(left, op, right);
    assert(closes(token_of(tokens, mid)) && closes(token_of(tokens, end)));
    lemma_stops(input, tokens, mid, left);
    lemma_stops(input, tokens, end, right);
    lemma_stops(input, tokens, end, all);
    if tightness(op) == 2 {
        lemma_product(input, tokens, mid, left, op, right, end);
        assert(multiplicative_at(input, tokens, at) == Ok::<_, crate::error::Fault>((all, end)));
        assert(additive_at(input, tokens, at) == Ok::<_, crate::error::Fault>((all, end)));
    } else {
        assert(multiplicative_at(input, tokens, at) == Ok::<_, crate::error::Fault>((left, mid)));
        assert(multiplicative_at(input, tokens, mid + 1) == Ok::<_, crate::error::Fault>(
            (right, end),
        ));
        if tightness(op) == 1 {
            lemma_sum(input, tokens, mid, left, op, right, end);
            assert(additive_at(input, tokens, at) == Ok::<_, crate::error::Fault>((all, end)));
        } else {
            assert(additive_at(input, tokens, at) == Ok::<_, crate::error::Fault>((left, mid)));
            assert(additive_at(input, tokens, mid + 1) == Ok::<_, crate::error::Fault>(
                (right, end),
            ));
            lemma_union(input, tokens, mid, left, right, end);
        }
    }
}

// ---------------------------------------------------------------------------
// Laws
// ---------------------------------------------------------------------------

/// Of two operators between three operands the tighter one goes first; of two that are as
/// tight the left one, and with two `^` the right one. So `a / b * c` is `(a / b) * c`.
pub proof fn law_operators_group_by_tightness(
    input: Seq<char>,
    tokens: Seq<SpannedView>,
    first: BinaryOp,
    second: BinaryOp,
)
    requires
        tokenized(input) == Ok::<Seq<SpannedView>, crate::error::Fault>(tokens),
        tokens.len() == 5,
        is_triple(tokens, 0, first, second),
    ensures
        ({
            let a = operand(tokens[0].token)->Some_0;
            let b = operand(tokens[2].token)->Some_0;
            let c = operand(tokens[4].token)->Some_0;
            &&& goes_first(first, second) ==> metric_expr(input) == Ok::<
                ExprView,
                crate::error::Fault,
            >(between(between(a, first, b), second, c))
            &&& !goes_first(first, second) ==> metric_expr(input) == Ok::<
                ExprView,
                crate::error::Fault,
            >(between(a, first, between(b, second, c)))
        }),
{
    lemma_triple(input, tokens, 0, first, second);
}

/// Two operands with an operator between them, in parentheses from `at` on.
spec fn is_inner(tokens: Seq<SpannedView>, at: int, op: BinaryOp) -> bool {
    &&& 0 <= at
    &&& at + 5 <= tokens.len()
    &&& tokens[at].token == TokenView::LeftParen
    &&& operand(tokens[at + 1].token) is Some
    &&& writes(tokens[at + 2].token, op)
    &&& operand(tokens[at + 3].token) is Some
    &&& tokens[at + 4].token == TokenView::RightParen
}

proof fn lemma_inner(input: Seq<char>, tokens: Seq<SpannedView>, at: int, op: BinaryOp)
    requires
        is_inner(tokens, at, op),
    ensures
        atom_at(input, tokens, at) == Ok::<_, crate::error::Fault>(
            (
                between(
                    operand(tokens[at + 1].token)->Some_0,
                    op,
                    operand(tokens[at + 3].token)->Some_0,
                ),
                at + 5,
            ),
        ),
        token_of(tokens, at + 5) != Some(TokenView::Caret) ==> unary_at(input, tokens, at)
            == atom_at(input, tokens, at),
{
    let a = operand(tokens[at + 1].token)->Some_0;
    let b = operand(tokens[at + 3].token)->Some_0;
    let ab = between(a, op, b);
    assert(closes(token_of(tokens, at + 2)) && closes(token_of(tokens, at + 4)));
    lemma_unary(input, tokens, at + 3);
    if op == BinaryOp::Pow {
        lemma_unary_power(input, tokens, at + 1, b, at + 4);
        lemma_stops(input, tokens, at + 4, ab);
        assert(multiplicative_at(input, tokens, at + 1) == Ok::<_, crate::error::Fault>(
            (ab, at + 4),
        ));
        assert(additive_at(input, tokens, at + 1) == Ok::<_, crate::error::Fault>((ab, at + 4)));
    } else {
        lemma_unary(input, tokens, at + 1);
        lemma_after(input, tokens, at + 1, a, at + 2, op, b, at + 4);
    }
    assert(expr_at(input, tokens, at + 1) == Ok::<_, crate::error::Fault>((ab, at + 4)));
    assert(atom_at(input, tokens, at) == Ok::<_, crate::error::Fault>((ab, at + 5)));
    if token_of(tokens, at + 5) != Some(TokenView::Caret) {
        assert(power_at(input, tokens, at) == Ok::<_, crate::error::Fault>((ab, at + 5)));
    }
}

/// Parentheses go first, whatever the operators: `(a p b) q c` and `a p (b q c)` are what they
/// say.
pub proof fn law_parentheses_go_first(
    input: Seq<char>,
    tokens: Seq<SpannedView>,
    first: BinaryOp,
    second: BinaryOp,
)
    requires
        tokenized(input) == Ok::<Seq<SpannedView>, crate::error::Fault>(tokens),
        tokens.len() == 7,
    ensures
        tokens[0].token == TokenView::LeftParen && operand(tokens[1].token) is Some && writes(
            tokens[2].token,
            first,
        ) && operand(tokens[3].token) is Some && tokens[4].token == TokenView::RightParen && writes(
            tokens[5].token,
            second,
        ) && operand(tokens[6].token) is Some ==> metric_expr(input) == Ok::<
            ExprView,
            crate::error::Fault,
        >(
            between(
                between(operand(tokens[1].token)->Some_0, first, operand(tokens[3].token)->Some_0),
                second,
                operand(tokens[6].token)->Some_0,
            ),
        ),
        operand(tokens[0].token) is Some && writes(tokens[1].token, first) && tokens[2].token
            == TokenView::LeftParen && operand(tokens[3].token) is Some && writes(
            tokens[4].token,
            second,
        ) && operand(tokens[5].token) is Some && tokens[6].token == TokenView::RightParen
            ==> metric_expr(input) == Ok::<ExprView, crate::error::Fault>(
            between(
                operand(tokens[0].token)->Some_0,
                first,
                between(operand(tokens[3].token)->Some_0, second, operand(tokens[5].token)->Some_0),
            ),
        ),
{
    assert(closes(token_of(tokens, 7)));
    if is_inner(tokens, 0, first) && writes(tokens[5].token, second) && operand(
        tokens[6].token,
    ) is Some {
        let ab = between(
            operand(tokens[1].token)->Some_0,
            first,
            operand(tokens[3].token)->Some_0,
        );
        let c = operand(tokens[6].token)->Some_0;
        lemma_inner(input, tokens, 0, first);
        lemma_unary(input, tokens, 6);
        if second == BinaryOp::Pow {
            let all = between(ab, second, c);
            assert(power_at(input, tokens, 0) == Ok::<_, crate::error::Fault>((all, 7int)));
            lemma_stops(input, tokens, 7, all);
            assert(multiplicative_at(input, tokens, 0) == Ok::<_, crate::error::Fault>((all, 7int)));
            assert(additive_at(input, tokens, 0) == Ok::<_, crate::error::Fault>((all, 7int)));
        } else {
            lemma_after(input, tokens, 0, ab, 5, second, c, 7);
        }
    }
    if operand(tokens[0].token) is Some && writes(tokens[1].token, first) && is_inner(
        tokens,
        2,
        second,
    ) {
        let a = operand(tokens[0].token)->Some_0;
        let bc = between(
            operand(tokens[3].token)->Some_0,
            second,
            operand(tokens[5].token)->Some_0,
        );
        lemma_inner(input, tokens, 2, second);
        assert(closes(token_of(tokens, 1)));
        if first == BinaryOp::Pow {
            lemma_unary_power(input, tokens, 0, bc, 7);
            let all = between(a, first, bc);
            lemma_stops(input, tokens, 7, all);
            assert(multiplicative_at(input, tokens, 0) == Ok::<_, crate::error::Fault>((all, 7int)));
            assert(additive_at(input, tokens, 0) == Ok::<_, crate::error::Fault>((all, 7int)));
        } else {
            lemma_unary(input, tokens, 0);
            lemma_after(input, tokens, 0, a, 1, first, bc, 7);
        }
    }
}

/// Operands and operators in turn, all as tight as each other.
pub open spec fn is_chain(tokens: Seq<SpannedView>, ops: Seq<BinaryOp>, tight: nat) -> bool {
    &&& tokens.len() == 2 * ops.len() + 1
    &&& forall|i: int| 0 <= i <= ops.len() ==> operand((#[trigger] tokens[2 * i]).token) is Some
    &&& forall|i: int|
        0 <= i < ops.len() ==> writes(tokens[2 * i + 1].token, #[trigger] ops[i]) && tightness(
            ops[i],
        ) == tight
}

/// The first `n` operators of a chain, each taking what stands before it as its left side.
pub open spec fn from_the_left(tokens: Seq<SpannedView>, ops: Seq<BinaryOp>, n: nat) -> ExprView
    decreases n,
{
    if n == 0 {
        operand(tokens[0].token)->Some_0
    } else {
        between(
            from_the_left(tokens, ops, (n - 1) as nat),
            ops[n - 1],
            operand(tokens[2 * (n as int)].token)->Some_0,
        )
    }
}

proof fn lemma_chain_operands(
    input: Seq<char>,
    tokens: Seq<SpannedView>,
    ops: Seq<BinaryOp>,
    tight: nat,
    i: int,
)
    requires
        is_chain(tokens, ops, tight),
        tight < 3,
        0 <= i <= ops.len(),
    ensures
        unary_at(input, tokens, 2 * i) == Ok::<_, crate::error::Fault>(
            (operand(tokens[2 * i].token)->Some_0, 2 * i + 1),
        ),
        tight < 2 ==> multiplicative_at(input, tokens, 2 * i) == unary_at(input, tokens, 2 * i),
        tight < 1 ==> additive_at(input, tokens, 2 * i) == unary_at(input, tokens, 2 * i),
{
    let e = operand(tokens[2 * i].token)->Some_0;
    if i < ops.len() {
        assert(writes(tokens[2 * i + 1].token, ops[i]));
    }
    assert(closes(token_of(tokens, 2 * i + 1)));
    lemma_unary(input, tokens, 2 * i);
    lemma_stops(input, tokens, 2 * i + 1, e);
}

/// The same, held together.
#[verifier::opaque]
spec fn chained(tokens: Seq<SpannedView>, ops: Seq<BinaryOp>, tight: nat) -> bool {
    is_chain(tokens, ops, tight)
}

proof fn lemma_chain_step(
    input: Seq<char>,
    tokens: Seq<SpannedView>,
    ops: Seq<BinaryOp>,
    tight: nat,
    n: nat,
) -> (right: ExprView)
    requires
        chained(tokens, ops, tight),
        tight < 3,
        n < ops.len(),
    ensures
        2 * (n as int) + 3 <= tokens.len(),
        writes(tokens[2 * (n as int) + 1].token, ops[n as int]),
        tightness(ops[n as int]) == tight,
        tight == 0 ==> ops[n as int] == BinaryOp::Or,
        from_the_left(tokens, ops, n + 1) == between(
            from_the_left(tokens, ops, n),
            ops[n as int],
            right,
        ),
        ({
            let read = Ok::<_, crate::error::Fault>((right, 2 * (n as int) + 3));
            &&& unary_at(input, tokens, 2 * (n as int) + 2) == read
            &&& tight < 2 ==> multiplicative_at(input, tokens, 2 * (n as int) + 2) == read
            &&& tight < 1 ==> additive_at(input, tokens, 2 * (n as int) + 2) == read
        }),
{
    reveal(chained);
    let i = n as int + 1;
    lemma_chain_operands(input, tokens, ops, tight, i);
    assert(writes(tokens[2 * (n as int) + 1].token, ops[n as int]));
    assert(2 * i == 2 * (n as int) + 2);
    operand(tokens[2 * i].token)->Some_0
}

#[verifier::spinoff_prover]
#[verifier::rlimit(40)]
proof fn lemma_chain_of_products(
    input: Seq<char>,
    tokens: Seq<SpannedView>,
    ops: Seq<BinaryOp>,
    n: nat,
)
    requires
        chained(tokens, ops, 2),
        n <= ops.len(),
    ensures
        product_from(input, tokens, 2 * (n as int) + 1, from_the_left(tokens, ops, n)) == Ok::<
            _,
            crate::error::Fault,
        >((from_the_left(tokens, ops, ops.len()), 2 * (ops.len() as int) + 1)),
    decreases ops.len() - n,
{
    let left = from_the_left(tokens, ops, n);
    let at: int = 2 * (n as int) + 1;
    if n < ops.len() {
        let m = (n + 1) as nat;
        let op = ops[n as int];
        let right = lemma_chain_step(input, tokens, ops, 2, n);
        lemma_product(input, tokens, at, left, op, right, at + 2);
        lemma_chain_of_products(input, tokens, ops, m);
    } else {
        assert(token_of(tokens, at) is None) by {
            reveal(chained);
        }
        assert(closes(token_of(tokens, at)));
        lemma_stops(input, tokens, at, left);
    }
}

#[verifier::spinoff_prover]
#[verifier::rlimit(40)]
proof fn lemma_chain_of_sums(
    input: Seq<char>,
    tokens: Seq<SpannedView>,
    ops: Seq<BinaryOp>,
    n: nat,
)
    requires
        chained(tokens, ops, 1),
        n <= ops.len(),
    ensures
        sum_from(input, tokens, 2 * (n as int) + 1, from_the_left(tokens, ops, n)) == Ok::<
            _,
            crate::error::Fault,
        >((from_the_left(tokens, ops, ops.len()), 2 * (ops.len() as int) + 1)),
    decreases ops.len() - n,
{
    let left = from_the_left(tokens, ops, n);
    let at: int = 2 * (n as int) + 1;
    if n < ops.len() {
        let m = (n + 1) as nat;
        let op = ops[n as int];
        let right = lemma_chain_step(input, tokens, ops, 1, n);
        lemma_sum(input, tokens, at, left, op, right, at + 2);
        lemma_chain_of_sums(input, tokens, ops, m);
    } else {
        assert(token_of(tokens, at) is None) by {
            reveal(chained);
        }
        assert(closes(token_of(tokens, at)));
        lemma_stops(input, tokens, at, left);
    }
}

#[verifier::spinoff_prover]
#[verifier::rlimit(40)]
proof fn lemma_chain_of_unions(
    input: Seq<char>,
    tokens: Seq<SpannedView>,
    ops: Seq<BinaryOp>,
    n: nat,
)
    requires
        chained(tokens, ops, 0),
        n <= ops.len(),
    ensures
        union_from(input, tokens, 2 * (n as int) + 1, from_the_left(tokens, ops, n)) == Ok::<
            _,
            crate::error::Fault,
        >((from_the_left(tokens, ops, ops.len()), 2 * (ops.len() as int) + 1)),
    decreases ops.len() - n,
{
    let left = from_the_left(tokens, ops, n);
    let at: int = 2 * (n as int) + 1;
    if n < ops.len() {
        let m = (n + 1) as nat;
        let op = ops[n as int];
        let right = lemma_chain_step(input, tokens, ops, 0, n);
        lemma_union(input, tokens, at, left, right, at + 2);
        lemma_chain_of_unions(input, tokens, ops, m);
    } else {
        assert(token_of(tokens, at) is None) by {
            reveal(chained);
        }
        assert(closes(token_of(tokens, at)));
        lemma_stops(input, tokens, at, left);
    }
}

/// Operators of one tightness other than `^` group from the left, however many: `a - b + c - d`
/// is `((a - b) + c) - d`.
pub proof fn law_chains_group_from_the_left(
    input: Seq<char>,
    tokens: Seq<SpannedView>,
    ops: Seq<BinaryOp>,
    tight: nat,
)
    requires
        tokenized(input) == Ok::<Seq<SpannedView>, crate::error::Fault>(tokens),
        is_chain(tokens, ops, tight),
        tight < 3,
    ensures
        metric_expr(input) == Ok::<ExprView, crate::error::Fault>(
            from_the_left(tokens, ops, ops.len()),
        ),
{
    let all = from_the_left(tokens, ops, ops.len());
    let end = tokens.len() as int;
    lemma_chain_operands(input, tokens, ops, tight, 0);
    assert(tokens[2 * 0int].token == tokens[0].token);
    assert(closes(token_of(tokens, end)));
    lemma_stops(input, tokens, end, all);
    assert(chained(tokens, ops, tight)) by {
        reveal(chained);
    }
    if tight == 2 {
        lemma_chain_of_products(input, tokens, ops, 0);
    } else if tight == 1 {
        lemma_chain_of_sums(input, tokens, ops, 0);
    } else {
        lemma_chain_of_unions(input, tokens, ops, 0);
    }
    if tight == 2 {
        assert(multiplicative_at(input, tokens, 0) == Ok::<_, crate::error::Fault>((all, end)));
    }
    if tight >= 1 {
        assert(additive_at(input, tokens, 0) == Ok::<_, crate::error::Fault>((all, end)));
    }
    assert(expr_at(input, tokens, 0) == Ok::<_, crate::error::Fault>((all, end)));
}

/// A minus binds looser than `^` and tighter than every other operator: `-a ^ b` is `-(a ^ b)`,
/// and `-a * b` is `(-a) * b`.
pub proof fn law_a_minus_takes_a_power(
    input: Seq<char>,
    tokens: Seq<SpannedView>,
    op: BinaryOp,
)
    requires
        tokenized(input) == Ok::<Seq<SpannedView>, crate::error::Fault>(tokens),
        tokens.len() == 4,
        tokens[0].token == TokenView::Minus,
        operand(tokens[1].token) is Some,
        writes(tokens[2].token, op),
        operand(tokens[3].token) is Some,
    ensures
        ({
            let a = operand(tokens[1].token)->Some_0;
            let b = operand(tokens[3].token)->Some_0;
            metric_expr(input) == Ok::<ExprView, crate::error::Fault>(
                if op == BinaryOp::Pow {
                    ExprView::Negate(Box::new(between(a, op, b)))
                } else {
                    between(ExprView::Negate(Box::new(a)), op, b)
                },
            )
        }),
{
    let a = operand(tokens[1].token)->Some_0;
    let b = operand(tokens[3].token)->Some_0;
    assert(closes(token_of(tokens, 2)) && closes(token_of(tokens, 4)));
    lemma_unary(input, tokens, 3);
    if op == BinaryOp::Pow {
        let all = ExprView::Negate(Box::new(between(a, op, b)));
        lemma_unary_power(input, tokens, 1, b, 4);
        assert(unary_at(input, tokens, 0) == Ok::<_, crate::error::Fault>((all, 4int)));
        lemma_stops(input, tokens, 4, all);
        assert(multiplicative_at(input, tokens, 0) == Ok::<_, crate::error::Fault>((all, 4int)));
        assert(additive_at(input, tokens, 0) == Ok::<_, crate::error::Fault>((all, 4int)));
    } else {
        let minus = ExprView::Negate(Box::new(a));
        lemma_unary(input, tokens, 1);
        assert(unary_at(input, tokens, 0) == Ok::<_, crate::error::Fault>((minus, 2int)));
        lemma_after(input, tokens, 0, minus, 2, op, b, 4);
    }
}

/// A range stands in brackets and an offset behind its word, each where it is written: neither
/// is taken for the other, and what is not written is not there.
pub proof fn law_ranges_and_offsets_are_read(
    input: Seq<char>,
    tokens: Seq<SpannedView>,
    at: int,
    matchers: Seq<MatcherView>,
    range: u64,
    offset: u64,
)
    requires
        0 <= at,
    ensures
        at + 5 == tokens.len() && tokens[at].token == TokenView::LeftBracket && tokens[at + 1].token
            == TokenView::Duration(range) && tokens[at + 2].token == TokenView::RightBracket
            && tokens[at + 3].token == TokenView::Ident("offset"@) && tokens[at + 4].token
            == TokenView::Duration(offset) ==> selector_end(input, tokens, at, matchers) == Ok::<
            _,
            crate::error::Fault,
        >(
            (
                ExprView::Selector(
                    SelectorView { matchers, range: Some(range), offset: Some(offset) },
                ),
                at + 5,
            ),
        ),
        at + 3 == tokens.len() && tokens[at].token == TokenView::LeftBracket && tokens[at + 1].token
            == TokenView::Duration(range) && tokens[at + 2].token == TokenView::RightBracket
            ==> selector_end(input, tokens, at, matchers) == Ok::<_, crate::error::Fault>(
            (
                ExprView::Selector(SelectorView { matchers, range: Some(range), offset: None }),
                at + 3,
            ),
        ),
        at + 2 == tokens.len() && tokens[at].token == TokenView::Ident("offset"@) && tokens[at
            + 1].token == TokenView::Duration(offset) ==> selector_end(input, tokens, at, matchers)
            == Ok::<_, crate::error::Fault>(
            (
                ExprView::Selector(SelectorView { matchers, range: None, offset: Some(offset) }),
                at + 2,
            ),
        ),
{
}

/// A grouping stands before an aggregation's operand or behind it and means the same: `by`
/// the names that it lists, `without` all but those. Without one there is a single group.
pub proof fn law_a_grouping_stands_on_either_side(
    input: Seq<char>,
    tokens: Seq<SpannedView>,
    at: int,
    op: AggregateOp,
    name: Seq<char>,
    inner: ExprView,
    by: bool,
)
    requires
        0 <= at,
    ensures
        ({
            let word = if by {
                "by"@
            } else {
                "without"@
            };
            let grouping = if by {
                GroupingView::By(seq![name])
            } else {
                GroupingView::Without(seq![name])
            };
            let read = Ok::<_, crate::error::Fault>(
                (
                    ExprView::Aggregation { op, grouping, param: None, inner: Box::new(inner) },
                    at + 7,
                ),
            );
            &&& at + 7 == tokens.len() && tokens[at].token == TokenView::Ident(word) && tokens[at
                + 1].token == TokenView::LeftParen && tokens[at + 2].token == TokenView::Ident(name)
                && tokens[at + 3].token == TokenView::RightParen && tokens[at + 4].token
                == TokenView::LeftParen && operand(tokens[at + 5].token) == Some(inner)
                && tokens[at + 6].token == TokenView::RightParen ==> aggregation_at(
                input,
                tokens,
                at,
                op,
            ) == read
            &&& at + 7 == tokens.len() && tokens[at].token == TokenView::LeftParen && operand(
                tokens[at + 1].token,
            ) == Some(inner) && tokens[at + 2].token == TokenView::RightParen && tokens[at
                + 3].token == TokenView::Ident(word) && tokens[at + 4].token == TokenView::LeftParen
                && tokens[at + 5].token == TokenView::Ident(name) && tokens[at + 6].token
                == TokenView::RightParen ==> aggregation_at(input, tokens, at, op) == read
            &&& at + 3 == tokens.len() && tokens[at].token == TokenView::LeftParen && operand(
                tokens[at + 1].token,
            ) == Some(inner) && tokens[at + 2].token == TokenView::RightParen ==> aggregation_at(
                input,
                tokens,
                at,
                op,
            ) == Ok::<_, crate::error::Fault>(
                (
                    ExprView::Aggregation {
                        op,
                        grouping: GroupingView::All,
                        param: None,
                        inner: Box::new(inner),
                    },
                    at + 3,
                ),
            )
        }),
{
    reveal_strlit("by");
    reveal_strlit("without");
    assert("by"@.len() == 2 && "without"@.len() == 7);
    if at + 7 == tokens.len() && tokens[at + 4].token == TokenView::LeftParen && operand(
        tokens[at + 5].token,
    ) == Some(inner) && tokens[at + 6].token == TokenView::RightParen {
        lemma_lone_operand(input, tokens, at + 5);
        lemma_one_name(input, tokens, at + 2, name);
    }
    if at + 2 < tokens.len() && operand(tokens[at + 1].token) == Some(inner) && tokens[at + 2].token
        == TokenView::RightParen {
        lemma_lone_operand(input, tokens, at + 1);
        lemma_one_name(input, tokens, at + 5, name);
    }
}

proof fn lemma_one_name(input: Seq<char>, tokens: Seq<SpannedView>, at: int, name: Seq<char>)
    ensures
        0 <= at && at + 2 <= tokens.len() && tokens[at].token == TokenView::Ident(name)
            && tokens[at + 1].token == TokenView::RightParen ==> names_from(
            input,
            tokens,
            at,
            Seq::empty(),
        ) == Ok::<_, crate::error::Fault>((seq![name], at + 2)),
{
    let one = Seq::<Seq<char>>::empty().push(name);
    assert(one =~= seq![name]);
    if 0 <= at && at + 2 <= tokens.len() && tokens[at + 1].token == TokenView::RightParen {
        assert(names_from(input, tokens, at + 1, one) == Ok::<_, crate::error::Fault>(
            (one, at + 2),
        ));
    }
}

proof fn lemma_lone_operand(input: Seq<char>, tokens: Seq<SpannedView>, at: int)
    requires
        0 <= at,
        at + 1 < tokens.len(),
        operand(tokens[at].token) is Some,
        tokens[at + 1].token == TokenView::RightParen,
    ensures
        expr_at(input, tokens, at) == Ok::<_, crate::error::Fault>(
            (operand(tokens[at].token)->Some_0, at + 1),
        ),
{
    let e = operand(tokens[at].token)->Some_0;
    lemma_unary(input, tokens, at);
    lemma_stops(input, tokens, at + 1, e);
    assert(multiplicative_at(input, tokens, at) == Ok::<_, crate::error::Fault>((e, at + 1)));
    assert(additive_at(input, tokens, at) == Ok::<_, crate::error::Fault>((e, at + 1)));
}

} // verus!
