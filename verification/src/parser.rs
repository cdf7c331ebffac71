use crate::ast::{BinOp, Expr, ExprKind, SpecExpr, SpecExprKind};
use crate::error::Error;
use crate::lex::{
    is_name,
    is_numeral,
    token_views,
    well_formed,
    zero_text,
    Literal,
    SpecToken,
    SpecTokenKind,
    Token,
    TokenKind,
};
use vstd::prelude::*;

verus! {

/// The position of the token before index `at`, the last one consumed when
/// the parser stands at `at`; 1 where there is none.
pub open spec fn last_position(tokens: Seq<SpecToken>, at: int) -> usize {
    if 0 < at <= tokens.len() {
        tokens[at - 1].position
    } else {
        1
    }
}

/// Whether an operand that starts at `at` and ends before `next` spans at
/// least one token of `tokens`. Every operand does: see `lemma_primary` and
/// `lemma_expression`.
pub open spec fn spans(tokens: Seq<SpecToken>, at: int, next: int) -> bool {
    at < next <= tokens.len()
}

/// A literal or a variable at `position`.
pub open spec fn leaf(kind: SpecExprKind, position: usize) -> SpecExpr {
    SpecExpr { kind, position }
}

/// `left op right` at `position`.
pub open spec fn binary(op: BinOp, left: SpecExpr, right: SpecExpr, position: usize) -> SpecExpr {
    SpecExpr { kind: SpecExprKind::Bin(op, Box::new(left), Box::new(right)), position }
}

/// The primary expression whose first token is at `at`, with the index of
/// the token after it: a parenthesized expression, a negated primary (the
/// difference of a zero literal and the operand, both at the minus), a
/// literal or a variable.
pub open spec fn primary(tokens: Seq<SpecToken>, at: int) -> Result<(SpecExpr, int), Error>
    decreases tokens.len() - at, 0int,
{
    if at < 0 || at >= tokens.len() {
        Err(Error { message: "expected a token", position: last_position(tokens, at) })
    } else {
        let position = tokens[at].position;
        match tokens[at].kind {
            SpecTokenKind::LParen => match expression(tokens, at + 1, 1) {
                Ok((inner, next)) => {
                    if next < 0 || next >= tokens.len() {
                        Err(Error { message: "unclosed (", position: last_position(tokens, next) })
                    } else if tokens[next].kind is RParen {
                        Ok((inner, next + 1))
                    } else {
                        Err(Error { message: "unclosed (", position: tokens[next].position })
                    }
                },
                Err(e) => Err(e),
            },
            SpecTokenKind::Sub => match primary(tokens, at + 1) {
                Ok((operand, next)) => Ok(
                    (
                        binary(
                            BinOp::Sub,
                            leaf(SpecExprKind::Real(zero_text()), position),
                            operand,
                            position,
                        ),
                        next,
                    ),
                ),
                Err(e) => Err(e),
            },
            SpecTokenKind::Real(text) => Ok((leaf(SpecExprKind::Real(text), position), at + 1)),
            SpecTokenKind::Imag(text) => Ok((leaf(SpecExprKind::Imag(text), position), at + 1)),
            SpecTokenKind::Ident(name) => Ok((leaf(SpecExprKind::Var(name), position), at + 1)),
            _ => Err(Error { message: "unexpected token", position }),
        }
    }
}

/// The expression that starts at `at` and takes operators that bind at
/// least as tightly as `floor`, with the index of the token after it.
pub open spec fn expression(tokens: Seq<SpecToken>, at: int, floor: int) -> Result<
    (SpecExpr, int),
    Error,
>
    decreases tokens.len() - at, 2int,
{
    match primary(tokens, at) {
        Ok((left, next)) => {
            if spans(tokens, at, next) {
                climb(tokens, left, next, floor)
            } else {
                Ok((left, next))
            }
        },
        Err(e) => Err(e),
    }
}

/// `left` extended by the operators from `at` on that bind at least as
/// tightly as `floor`. The right operand of an operator takes only
/// operators that bind more tightly, so operators of one binding associate
/// to the left. A node stands at the position of the last token of its
/// right operand.
pub open spec fn climb(tokens: Seq<SpecToken>, left: SpecExpr, at: int, floor: int) -> Result<
    (SpecExpr, int),
    Error,
>
    decreases tokens.len() - at, 1int,
{
    if at < 0 || at >= tokens.len() {
        Ok((left, at))
    } else {
        match BinOp::of_token(tokens[at].kind) {
            Some(op) => {
                if op.binding() < floor {
                    Ok((left, at))
                } else {
                    match expression(tokens, at + 1, op.binding() + 1) {
                        Ok((right, next)) => {
                            if spans(tokens, at, next) {
                                climb(
                                    tokens,
                                    binary(op, left, right, last_position(tokens, next)),
                                    next,
                                    floor,
                                )
                            } else {
                                Ok((left, at))
                            }
                        },
                        Err(e) => Err(e),
                    }
                }
            },
            None => Ok((left, at)),
        }
    }
}

/// The expression that the whole of `tokens` spells: one expression with
/// no token left after it.
pub open spec fn parse_tokens(tokens: Seq<SpecToken>) -> Result<SpecExpr, Error> {
    match expression(tokens, 0, 1) {
        Ok((expr, next)) => {
            if 0 <= next < tokens.len() {
                Err(Error { message: "extra token", position: tokens[next].position })
            } else {
                Ok(expr)
            }
        },
        Err(e) => Err(e),
    }
}

/// What the result of `parse` is in contracts.
pub open spec fn parsed_view(r: Result<Expr, Error>) -> Result<SpecExpr, Error> {
    match r {
        Ok(expr) => Ok(expr@),
        Err(e) => Err(e),
    }
}

/// Whether `position` is that of one of the tokens, or 1 where there is no
/// token.
pub open spec fn attributed(tokens: Seq<SpecToken>, position: usize) -> bool {
    if tokens.len() == 0 {
        position == 1
    } else {
        exists|k: int| 0 <= k < tokens.len() && (#[trigger] tokens[k]).position == position
    }
}

/// Whether `e` is an error that an operand can fail with, at the position
/// of a token.
pub open spec fn operand_error(tokens: Seq<SpecToken>, e: Error) -> bool {
    &&& attributed(tokens, e.position)
    &&& e.message == "expected a token" || e.message == "unexpected token" || e.message
        == "unclosed ("
}

/// What holds of an operand that starts at `at`: it spans at least one
/// token, it is well formed where the tokens are, and where there is none
/// the error lies at a token.
pub open spec fn operand_holds(
    tokens: Seq<SpecToken>,
    at: int,
    found: Result<(SpecExpr, int), Error>,
) -> bool {
    match found {
        Ok((expr, next)) => spans(tokens, at, next) && (well_formed(tokens) ==> expr.well_formed()),
        Err(e) => operand_error(tokens, e),
    }
}

proof fn lemma_last_position(tokens: Seq<SpecToken>, at: int)
    requires
        0 <= at <= tokens.len(),
    ensures
        at > 0 || tokens.len() == 0 ==> attributed(tokens, last_position(tokens, at)),
{
    if at > 0 {
        assert(tokens[at - 1].position == last_position(tokens, at));
    }
}

/// Every primary spans at least one token; see `operand_holds`.
pub proof fn lemma_primary(tokens: Seq<SpecToken>, at: int)
    requires
        0 <= at <= tokens.len(),
        at > 0 || tokens.len() > 0,
    ensures
        operand_holds(tokens, at, primary(tokens, at)),
    decreases tokens.len() - at, 0int,
{
    if at >= tokens.len() {
        lemma_last_position(tokens, at);
    } else {
        assert(attributed(tokens, tokens[at].position));
        match tokens[at].kind {
            SpecTokenKind::LParen => {
                lemma_expression(tokens, at + 1, 1);
                match expression(tokens, at + 1, 1) {
                    Ok((inner, next)) => {
                        if next >= tokens.len() {
                            lemma_last_position(tokens, next);
                        } else {
                            assert(attributed(tokens, tokens[next].position));
                        }
                    },
                    Err(e) => {},
                }
            },
            SpecTokenKind::Sub => {
                lemma_primary(tokens, at + 1);
                let zero = leaf(SpecExprKind::Real(zero_text()), tokens[at].position);
                assert(is_numeral(zero_text()));
                assert(zero.well_formed());
            },
            SpecTokenKind::Real(text) => {
                assert(leaf(SpecExprKind::Real(text), tokens[at].position).well_formed()
                    == is_numeral(text));
            },
            SpecTokenKind::Imag(text) => {
                assert(leaf(SpecExprKind::Imag(text), tokens[at].position).well_formed()
                    == is_numeral(text));
            },
            SpecTokenKind::Ident(name) => {
                assert(leaf(SpecExprKind::Var(name), tokens[at].position).well_formed()
                    == is_name(name));
            },
            _ => {},
        }
    }
}

/// Every expression spans at least one token; see `operand_holds`.
pub proof fn lemma_expression(tokens: Seq<SpecToken>, at: int, floor: int)
    requires
        0 <= at <= tokens.len(),
        at > 0 || tokens.len() > 0,
    ensures
        operand_holds(tokens, at, expression(tokens, at, floor)),
    decreases tokens.len() - at, 2int,
{
    lemma_primary(tokens, at);
    match primary(tokens, at) {
        Ok((left, next)) => {
            lemma_climb(tokens, left, next, floor);
        },
        Err(e) => {},
    }
}

/// Extending an operand keeps what holds of it, and moves on by whole
/// operands only.
pub proof fn lemma_climb(tokens: Seq<SpecToken>, left: SpecExpr, at: int, floor: int)
    requires
        0 < at <= tokens.len(),
    ensures
        match climb(tokens, left, at, floor) {
            Ok((expr, next)) => {
                &&& at <= next <= tokens.len()
                &&& well_formed(tokens) && left.well_formed() ==> expr.well_formed()
            },
            Err(e) => operand_error(tokens, e),
        },
    decreases tokens.len() - at, 1int,
{
    if at < tokens.len() {
        match BinOp::of_token(tokens[at].kind) {
            Some(op) => {
                if op.binding() >= floor {
                    lemma_expression(tokens, at + 1, op.binding() + 1);
                    match expression(tokens, at + 1, op.binding() + 1) {
                        Ok((right, next)) => {
                            lemma_climb(
                                tokens,
                                binary(op, left, right, last_position(tokens, next)),
                                next,
                                floor,
                            );
                        },
                        Err(e) => {},
                    }
                }
            },
            None => {},
        }
    }
}

/// A parse gives an expression that is well formed where the tokens are, or
/// one of four errors at the position of a token (at 1 where there is no
/// token).
pub proof fn lemma_parse_tokens(tokens: Seq<SpecToken>)
    ensures
        match parse_tokens(tokens) {
            Ok(expr) => well_formed(tokens) ==> expr.well_formed(),
            Err(e) => {
                &&& attributed(tokens, e.position)
                &&& e.message == "expected a token" || e.message == "unexpected token"
                    || e.message == "unclosed (" || e.message == "extra token"
            },
        },
{
    if tokens.len() > 0 {
        lemma_expression(tokens, 0, 1);
        match expression(tokens, 0, 1) {
            Ok((expr, next)) => {
                if next < tokens.len() {
                    assert(attributed(tokens, tokens[next].position));
                }
            },
            Err(e) => {},
        }
    }
}

/// Whether the tokens of `a` from `i` on are, but for their positions, the
/// tokens of `b` from `j` on.
pub open spec fn same_kinds_from(a: Seq<SpecToken>, i: int, b: Seq<SpecToken>, j: int) -> bool {
    &&& a.len() - i == b.len() - j
    &&& forall|k: int| i <= k < a.len() ==> (#[trigger] a[k]).kind == b[k - i + j].kind
}

/// Whether an operand found at `i` and one found at `j` are the same but
/// for positions: expressions of the same shape that span as many tokens,
/// or errors with the same message.
pub open spec fn same_outcome(
    found: Result<(SpecExpr, int), Error>,
    i: int,
    other: Result<(SpecExpr, int), Error>,
    j: int,
) -> bool {
    match (found, other) {
        (Ok((expr, next)), Ok((expr2, next2))) => expr.same_shape(expr2) && next - i == next2 - j,
        (Err(e), Err(e2)) => e.message == e2.message,
        _ => false,
    }
}

/// A primary depends on the kinds of the tokens from its start on, and but
/// for positions on nothing else.
pub proof fn lemma_same_primary(a: Seq<SpecToken>, i: int, b: Seq<SpecToken>, j: int)
    requires
        0 <= i <= a.len(),
        0 <= j <= b.len(),
        same_kinds_from(a, i, b, j),
    ensures
        same_outcome(primary(a, i), i, primary(b, j), j),
    decreases a.len() - i, 0int,
{
    if i < a.len() {
        assert(a[i].kind == b[i - i + j].kind);
        match a[i].kind {
            SpecTokenKind::LParen => {
                lemma_same_expression(a, i + 1, b, j + 1, 1);
                lemma_expression(a, i + 1, 1);
                lemma_expression(b, j + 1, 1);
                match expression(a, i + 1, 1) {
                    Ok((inner, next)) => {
                        if next < a.len() {
                            assert(a[next].kind == b[next - i + j].kind);
                        }
                    },
                    Err(e) => {},
                }
            },
            SpecTokenKind::Sub => {
                lemma_same_primary(a, i + 1, b, j + 1);
                match (primary(a, i + 1), primary(b, j + 1)) {
                    (Ok((operand, _)), Ok((operand2, _))) => {
                        let zero = leaf(SpecExprKind::Real(zero_text()), a[i].position);
                        let zero2 = leaf(SpecExprKind::Real(zero_text()), b[j].position);
                        assert(zero.same_shape(zero2));
                        assert(binary(BinOp::Sub, zero, operand, a[i].position).same_shape(
                            binary(BinOp::Sub, zero2, operand2, b[j].position),
                        ));
                    },
                    _ => {},
                }
            },
            SpecTokenKind::Real(text) => {
                assert(leaf(SpecExprKind::Real(text), a[i].position).same_shape(
                    leaf(SpecExprKind::Real(text), b[j].position),
                ));
            },
            SpecTokenKind::Imag(text) => {
                assert(leaf(SpecExprKind::Imag(text), a[i].position).same_shape(
                    leaf(SpecExprKind::Imag(text), b[j].position),
                ));
            },
            SpecTokenKind::Ident(name) => {
                assert(leaf(SpecExprKind::Var(name), a[i].position).same_shape(
                    leaf(SpecExprKind::Var(name), b[j].position),
                ));
            },
            _ => {},
        }
    }
}

/// An expression depends on the kinds of the tokens from its start on, and
/// but for positions on nothing else.
pub proof fn lemma_same_expression(
    a: Seq<SpecToken>,
    i: int,
    b: Seq<SpecToken>,
    j: int,
    floor: int,
)
    requires
        0 <= i <= a.len(),
        0 <= j <= b.len(),
        same_kinds_from(a, i, b, j),
    ensures
        same_outcome(expression(a, i, floor), i, expression(b, j, floor), j),
    decreases a.len() - i, 2int,
{
    lemma_same_primary(a, i, b, j);
    if i < a.len() {
        lemma_primary(a, i);
        lemma_primary(b, j);
        match (primary(a, i), primary(b, j)) {
            (Ok((left, next)), Ok((left2, next2))) => {
                lemma_same_climb(a, left, next, b, left2, next2, floor);
            },
            _ => {},
        }
    }
}

/// Extending operands of the same shape over tokens of the same kinds gives
/// expressions of the same shape.
pub proof fn lemma_same_climb(
    a: Seq<SpecToken>,
    left: SpecExpr,
    i: int,
    b: Seq<SpecToken>,
    left2: SpecExpr,
    j: int,
    floor: int,
)
    requires
        0 < i <= a.len(),
        0 < j <= b.len(),
        same_kinds_from(a, i, b, j),
        left.same_shape(left2),
    ensures
        same_outcome(climb(a, left, i, floor), i, climb(b, left2, j, floor), j),
    decreases a.len() - i, 1int,
{
    if i < a.len() {
        assert(a[i].kind == b[i - i + j].kind);
        match BinOp::of_token(a[i].kind) {
            Some(op) => {
                if op.binding() >= floor {
                    lemma_same_expression(a, i + 1, b, j + 1, op.binding() + 1);
                    lemma_expression(a, i + 1, op.binding() + 1);
                    lemma_expression(b, j + 1, op.binding() + 1);
                    match (
                        expression(a, i + 1, op.binding() + 1),
                        expression(b, j + 1, op.binding() + 1),
                    ) {
                        (Ok((right, next)), Ok((right2, next2))) => {
                            let joint = binary(op, left, right, last_position(a, next));
                            let joint2 = binary(op, left2, right2, last_position(b, next2));
                            assert(joint.same_shape(joint2));
                            lemma_same_climb(a, joint, next, b, joint2, next2, floor);
                        },
                        _ => {},
                    }
                }
            },
            None => {},
        }
    }
}

/// Negating a primary is subtracting it from zero. Where the tokens after a
/// minus are one primary, the minus with them parses to the same
/// expression, but for positions, as a zero literal, a minus and tokens of
/// the same kinds.
pub proof fn lemma_negation_is_subtraction_from_zero(
    negated: Seq<SpecToken>,
    subtracted: Seq<SpecToken>,
)
    requires
        negated.len() >= 1,
        negated[0].kind is Sub,
        primary(negated, 1) matches Ok((_, next)) && next == negated.len(),
        subtracted.len() >= 2,
        subtracted[0].kind == SpecTokenKind::Real(zero_text()),
        subtracted[1].kind is Sub,
        same_kinds_from(negated, 1, subtracted, 2),
    ensures
        parse_tokens(negated) matches Ok(expr) && parse_tokens(subtracted) matches Ok(expr2)
            && expr.same_shape(expr2),
{
    let a = negated;
    let b = subtracted;
    lemma_same_primary(a, 1, b, 2);
    lemma_primary(a, 1);
    lemma_primary(b, 2);
    let operand = primary(a, 1)->Ok_0.0;
    let operand2 = primary(b, 2)->Ok_0.0;
    let zero = leaf(SpecExprKind::Real(zero_text()), a[0].position);
    let zero2 = leaf(SpecExprKind::Real(zero_text()), b[0].position);
    let whole = binary(BinOp::Sub, zero, operand, a[0].position);
    assert(primary(a, 0) == Ok::<(SpecExpr, int), Error>((whole, a.len() as int)));
    assert(climb(a, whole, a.len() as int, 1) == Ok::<(SpecExpr, int), Error>(
        (whole, a.len() as int),
    ));
    assert(expression(a, 0, 1) == Ok::<(SpecExpr, int), Error>((whole, a.len() as int)));
    assert(primary(b, 0) == Ok::<(SpecExpr, int), Error>((zero2, 1)));
    assert(climb(b, operand2, b.len() as int, 2) == Ok::<(SpecExpr, int), Error>(
        (operand2, b.len() as int),
    ));
    assert(expression(b, 2, 2) == Ok::<(SpecExpr, int), Error>((operand2, b.len() as int)));
    let whole2 = binary(BinOp::Sub, zero2, operand2, last_position(b, b.len() as int));
    assert(climb(b, whole2, b.len() as int, 1) == Ok::<(SpecExpr, int), Error>(
        (whole2, b.len() as int),
    ));
    assert(BinOp::of_token(b[1].kind) == Some(BinOp::Sub));
    assert(climb(b, zero2, 1, 1) == Ok::<(SpecExpr, int), Error>((whole2, b.len() as int)));
    assert(expression(b, 0, 1) == Ok::<(SpecExpr, int), Error>((whole2, b.len() as int)));
    assert(zero.same_shape(zero2));
    assert(whole.same_shape(whole2));
}

/// The token that spells an operator.
pub open spec fn token_of(op: BinOp) -> SpecTokenKind {
    match op {
        BinOp::Add => SpecTokenKind::Add,
        BinOp::Sub => SpecTokenKind::Sub,
        BinOp::Mul => SpecTokenKind::Mul,
        BinOp::Div => SpecTokenKind::Div,
    }
}

/// How an expression is spelled as an operand of an operator that binds
/// with `floor`: its left operand, its operator and its right operand, in
/// parentheses only where its own operator binds less tightly than `floor`.
/// A left operand is spelled for the binding of its operator, a right
/// operand for one more, so that operators of one binding read from the
/// left.
pub open spec fn spelling(expr: SpecExpr, floor: int) -> Seq<SpecTokenKind>
    decreases expr,
{
    match expr.kind {
        SpecExprKind::Bin(op, left, right) => {
            let body = spelling(*left, op.binding() as int) + seq![token_of(op)] + spelling(
                *right,
                op.binding() + 1,
            );
            if op.binding() >= floor {
                body
            } else {
                seq![SpecTokenKind::LParen] + body + seq![SpecTokenKind::RParen]
            }
        },
        SpecExprKind::Var(name) => seq![SpecTokenKind::Ident(name)],
        SpecExprKind::Real(text) => seq![SpecTokenKind::Real(text)],
        SpecExprKind::Imag(text) => seq![SpecTokenKind::Imag(text)],
    }
}

/// Whether the kinds of the tokens from `at` on are those of `word`.
pub open spec fn spelled(tokens: Seq<SpecToken>, at: int, word: Seq<SpecTokenKind>) -> bool {
    &&& 0 <= at
    &&& at + word.len() <= tokens.len()
    &&& forall|k: int| 0 <= k < word.len() ==> #[trigger] word[k] == tokens[at + k].kind
}

/// Whether the token at `at` ends an operand that takes operators binding
/// more tightly than `limit`: there is none, or it is no operator, or one
/// that binds with `limit` at most.
pub open spec fn ends_operand(tokens: Seq<SpecToken>, at: int, limit: int) -> bool {
    at >= tokens.len() || match BinOp::of_token(tokens[at].kind) {
        Some(op) => op.binding() <= limit,
        None => true,
    }
}

proof fn lemma_spelled_parts(
    tokens: Seq<SpecToken>,
    at: int,
    first: Seq<SpecTokenKind>,
    second: Seq<SpecTokenKind>,
)
    requires
        spelled(tokens, at, first + second),
    ensures
        spelled(tokens, at, first),
        spelled(tokens, at + first.len(), second),
{
    let word = first + second;
    assert forall|k: int| 0 <= k < first.len() implies #[trigger] first[k] == tokens[at + k].kind by {
        assert(word[k] == first[k]);
    }
    assert forall|k: int| 0 <= k < second.len() implies #[trigger] second[k] == tokens[at
        + first.len() + k].kind by {
        assert(word[first.len() + k] == second[k]);
    }
}

/// A spelling has at least one token.
proof fn lemma_spelling_len(expr: SpecExpr, floor: int)
    ensures
        spelling(expr, floor).len() >= 1,
    decreases expr,
{
    match expr.kind {
        SpecExprKind::Bin(op, left, right) => {
            lemma_spelling_len(*left, op.binding() as int);
        },
        _ => {},
    }
}

/// Where the tokens from `at` on spell `expr` for `floor` and the token
/// after them ends the operand, an expression that starts at `at` with a
/// floor of `floor` or less begins with `expr`: it is the result, of the
/// shape of `expr`, extended by the operators that follow.
proof fn lemma_spelled_expression(
    tokens: Seq<SpecToken>,
    at: int,
    expr: SpecExpr,
    floor: int,
    limit: int,
) -> (found: SpecExpr)
    requires
        spelled(tokens, at, spelling(expr, floor)),
        limit <= floor,
        ends_operand(tokens, at + spelling(expr, floor).len(), limit),
    ensures
        found.same_shape(expr),
        forall|g: int|
            g <= floor ==> #[trigger] expression(tokens, at, g) == climb(
                tokens,
                found,
                at + spelling(expr, floor).len(),
                g,
            ),
    decreases expr, (if expr.kind matches SpecExprKind::Bin(op, _, _) && op.binding() < floor {
        1int
    } else {
        0int
    }),
{
    let word = spelling(expr, floor);
    let end = at + word.len();
    lemma_spelling_len(expr, floor);
    assert(word[0] == tokens[at + 0].kind);
    match expr.kind {
        SpecExprKind::Bin(op, left, right) => {
            let bind = op.binding() as int;
            let first = spelling(*left, bind);
            let second = spelling(*right, bind + 1);
            let sign = seq![token_of(op)];
            let body = first + sign + second;
            lemma_spelling_len(*left, bind);
            lemma_spelling_len(*right, bind + 1);
            if bind >= floor {
                lemma_spelled_parts(tokens, at, first + sign, second);
                lemma_spelled_parts(tokens, at, first, sign);
                let middle = at + first.len();
                assert(sign[0] == tokens[middle + 0].kind);
                assert(BinOp::of_token(tokens[middle].kind) == Some(op));
                let found_left = lemma_spelled_expression(tokens, at, *left, bind, bind);
                let found_right = lemma_spelled_expression(
                    tokens,
                    middle + 1,
                    *right,
                    bind + 1,
                    limit,
                );
                let found = binary(op, found_left, found_right, last_position(tokens, end));
                assert(found.same_shape(expr));
                assert(expression(tokens, middle + 1, bind + 1) == climb(
                    tokens,
                    found_right,
                    end,
                    bind + 1,
                ));
                assert(climb(tokens, found_right, end, bind + 1) == Ok::<(SpecExpr, int), Error>(
                    (found_right, end),
                ));
                assert forall|g: int| g <= floor implies #[trigger] expression(tokens, at, g)
                    == climb(tokens, found, end, g) by {
                    assert(expression(tokens, at, g) == climb(tokens, found_left, middle, g));
                    assert(spans(tokens, middle, end));
                }
                found
            } else {
                assert(word == seq![SpecTokenKind::LParen] + body + seq![SpecTokenKind::RParen]);
                assert(body == spelling(expr, bind));
                lemma_spelled_parts(
                    tokens,
                    at,
                    seq![SpecTokenKind::LParen] + body,
                    seq![SpecTokenKind::RParen],
                );
                lemma_spelled_parts(tokens, at, seq![SpecTokenKind::LParen], body);
                let close = at + 1 + body.len();
                assert(seq![SpecTokenKind::RParen][0] == tokens[close + 0].kind);
                let found = lemma_spelled_expression(tokens, at + 1, expr, bind, bind);
                assert(expression(tokens, at + 1, 1) == climb(tokens, found, close, 1));
                assert(climb(tokens, found, close, 1) == Ok::<(SpecExpr, int), Error>(
                    (found, close),
                ));
                assert(primary(tokens, at) == Ok::<(SpecExpr, int), Error>((found, close + 1)));
                assert(spans(tokens, at, close + 1));
                found
            }
        },
        SpecExprKind::Var(name) => {
            let found = leaf(SpecExprKind::Var(name), tokens[at].position);
            assert(found.same_shape(expr));
            found
        },
        SpecExprKind::Real(text) => {
            let found = leaf(SpecExprKind::Real(text), tokens[at].position);
            assert(found.same_shape(expr));
            found
        },
        SpecExprKind::Imag(text) => {
            let found = leaf(SpecExprKind::Imag(text), tokens[at].position);
            assert(found.same_shape(expr));
            found
        },
    }
}

/// Parsing inverts spelling. Every expression, spelled with parentheses
/// only where an operand binds less tightly than its place asks, parses
/// back to an expression of its own shape: products and quotients bind
/// more tightly than sums and differences, operators of one binding
/// associate to the left, and parentheses override both.
pub proof fn lemma_spelling_parses_back(tokens: Seq<SpecToken>, expr: SpecExpr)
    requires
        tokens.len() == spelling(expr, 1).len(),
        spelled(tokens, 0, spelling(expr, 1)),
    ensures
        parse_tokens(tokens) matches Ok(found) && found.same_shape(expr),
{
    let found = lemma_spelled_expression(tokens, 0, expr, 1, 1);
    assert(expression(tokens, 0, 1) == climb(tokens, found, tokens.len() as int, 1));
}

struct Parser<'a> {
    tokens: &'a [Token],
    idx: usize,
    last_position: usize,
}

impl<'a> Parser<'a> {
    spec fn input(&self) -> Seq<SpecToken> {
        token_views(self.tokens@)
    }

    spec fn wf(&self) -> bool {
        &&& self.idx <= self.tokens@.len()
        &&& self.last_position == last_position(self.input(), self.idx as int)
    }

    fn parse_primary(&mut self, token: &Token) -> (r: Result<Expr, Error>)
        requires
            old(self).wf(),
            old(self).idx > 0,
            *token == old(self).tokens@[old(self).idx - 1],
        ensures
            final(self).tokens == old(self).tokens,
            match primary(old(self).input(), old(self).idx - 1) {
                Ok((expr, next)) => {
                    &&& r matches Ok(found)
                    &&& found@ == expr
                    &&& final(self).wf()
                    &&& final(self).idx == next
                    &&& final(self).idx >= old(self).idx
                },
                Err(e) => r == Err::<Expr, Error>(e),
            },
        decreases old(self).tokens@.len() - old(self).idx, 1int,
    {
        let ghost tokens = self.input();
        let ghost at = self.idx - 1;
        assert(tokens[at] == token@);
        let kind = match &token.kind {
            TokenKind::LParen => {
                let expr = match self.parse(1) {
                    Ok(expr) => expr,
                    Err(e) => {
                        return Err(e);
                    },
                };
                match self.next() {
                    Some(closing) => match &closing.kind {
                        TokenKind::RParen => {
                            return Ok(expr);
                        },
                        _ => {
                            return Err(self.error("unclosed ("));
                        },
                    },
                    None => {
                        return Err(self.error("unclosed ("));
                    },
                }
            },
            TokenKind::Sub => {
                let left = Expr { kind: ExprKind::Real(Literal::zero()), position: token.position };
                assert(left@ == leaf(SpecExprKind::Real(zero_text()), token.position));
                let operand = match self.next() {
                    Some(operand) => operand,
                    None => {
                        return Err(self.error("expected a token"));
                    },
                };
                let right = match self.parse_primary(operand) {
                    Ok(right) => right,
                    Err(e) => {
                        return Err(e);
                    },
                };
                ExprKind::Bin(BinOp::Sub, Box::new(left), Box::new(right))
            },
            TokenKind::Real(literal) => ExprKind::Real(literal.clone()),
            TokenKind::Imag(literal) => ExprKind::Imag(literal.clone()),
            TokenKind::Ident(name) => ExprKind::Var(*name),
            _ => {
                return Err(self.error("unexpected token"));
            },
        };
        let expr = Expr { kind, position: token.position };
        assert(expr@ == (SpecExpr { kind: kind@, position: token.position }));
        Ok(expr)
    }

    fn parse(&mut self, min_precedence: u32) -> (r: Result<Expr, Error>)
        requires
            old(self).wf(),
        ensures
            final(self).tokens == old(self).tokens,
            match expression(old(self).input(), old(self).idx as int, min_precedence as int) {
                Ok((expr, next)) => {
                    &&& r matches Ok(found)
                    &&& found@ == expr
                    &&& final(self).wf()
                    &&& final(self).idx == next
                    &&& final(self).idx > old(self).idx
                },
                Err(e) => r == Err::<Expr, Error>(e),
            },
        decreases old(self).tokens@.len() - old(self).idx, 0int,
    {
        let ghost tokens = self.input();
        let ghost start = self.idx as int;
        let first = match self.next() {
            Some(first) => first,
            None => {
                return Err(self.error("expected a token"));
            },
        };
        let mut expr = match self.parse_primary(first) {
            Ok(expr) => expr,
            Err(e) => {
                return Err(e);
            },
        };
        loop
            invariant
                self.wf(),
                self.tokens == old(self).tokens,
                tokens == self.input(),
                start == old(self).idx,
                self.idx > start,
                expression(tokens, start, min_precedence as int) == climb(
                    tokens,
                    expr@,
                    self.idx as int,
                    min_precedence as int,
                ),
            decreases self.tokens@.len() - self.idx,
        {
            let op = match self.peek() {
                Some(token) => match BinOp::from_token(&token.kind) {
                    Some(op) => op,
                    None => {
                        return Ok(expr);
                    },
                },
                None => {
                    return Ok(expr);
                },
            };
            if op.precedence() < min_precedence {
                return Ok(expr);
            }
            self.next();
            let right = match self.parse(op.precedence() + 1) {
                Ok(right) => right,
                Err(e) => {
                    return Err(e);
                },
            };
            expr =
            Expr {
                position: self.last_position,
                kind: ExprKind::Bin(op, Box::new(expr), Box::new(right)),
            };
        }
    }

    fn error(&self, message: &'static str) -> (e: Error)
        ensures
            e == (Error { message, position: self.last_position }),
    {
        Error { message, position: self.last_position }
    }

    fn peek(&self) -> (r: Option<&'a Token>)
        requires
            self.wf(),
        ensures
            self.idx < self.tokens@.len() ==> r == Some(&self.tokens@[self.idx as int]),
            self.idx >= self.tokens@.len() ==> r is None,
    {
        if self.idx >= self.tokens.len() {
            return None;
        }
        Some(&self.tokens[self.idx])
    }

    fn next(&mut self) -> (r: Option<&'a Token>)
        requires
            old(self).wf(),
        ensures
            final(self).wf(),
            final(self).tokens == old(self).tokens,
            old(self).idx < old(self).tokens@.len() ==> r == Some(
                &old(self).tokens@[old(self).idx as int],
            ) && final(self).idx == old(self).idx + 1,
            old(self).idx >= old(self).tokens@.len() ==> r is None && final(self).idx == old(
                self,
            ).idx,
    {
        if self.idx >= self.tokens.len() {
            return None;
        }
        let token = &self.tokens[self.idx];
        self.last_position = token.position;
        self.idx += 1;
        Some(token)
    }
}

/// Parses the whole of `tokens` as one expression, or fails with the
/// position of the token at which the failure shows.
pub fn parse(tokens: &[Token]) -> (r: Result<Expr, Error>)
    ensures
        parsed_view(r) == parse_tokens(token_views(tokens@)),
        r matches Ok(expr) ==> (well_formed(token_views(tokens@)) ==> expr@.well_formed()),
        r matches Err(e) ==> attributed(token_views(tokens@), e.position),
{
    proof {
        lemma_parse_tokens(token_views(tokens@));
    }
    let mut parser = Parser { tokens, idx: 0, last_position: 1 };
    let expr = match parser.parse(1) {
        Ok(expr) => expr,
        Err(e) => {
            return Err(e);
        },
    };
    if let Some(token) = parser.next() {
        return Err(Error { message: "extra token", position: token.position });
    }
    Ok(expr)
}

} // verus!
