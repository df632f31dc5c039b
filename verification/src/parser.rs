//! Pratt parser from tokens to expressions.
use vstd::prelude::*;

use crate::ast::{
    exprs_model, BOp, BoundExpr, BoundExprModel, Call, CallModel, Expr, ExprModel, IdentPath,
    InfinityKind, IntervalExpr, SetOp, UOp,
};
use crate::error::ParseError;
use crate::text::{join_dotted, join_with_dots, strings_view};
use crate::token::{tokens_view, Span, Token, TokenKind, TokenKindModel, TokenModel};

verus! {

/// Simple parser over a slice of tokens.
pub struct Parser<'a> {
    tokens: &'a [Token],
    pos: usize,
}

#[derive(Clone, Copy)]
pub enum InfixOp {
    Binary(BOp),
    SetOperation(SetOp),
    Membership,
}

#[derive(Clone, Copy)]
pub enum BoundKind {
    Open,
    Closed,
}

// ---------- The grammar, as functions on token sequences ----------
//
// Each function takes the tokens and a position and gives the result and the position
// that the parser reaches.

pub type Parsed<T> = (Result<T, ParseError>, int);

pub open spec fn eof_span(toks: Seq<TokenModel>) -> Span {
    if toks.len() > 0 {
        toks.last().span
    } else {
        Span { start: 0, end: 0 }
    }
}

pub open spec fn kind_is(toks: Seq<TokenModel>, p: int, k: TokenKindModel) -> bool {
    0 <= p < toks.len() && toks[p].kind == k
}

/// A result that no parse reaches: every step that continues after a sub-parse has moved forward.
pub open spec fn stuck<T>(p: int) -> Parsed<T> {
    (Err(ParseError::ExpectedOperand { span: Span { start: 0, end: 0 } }), p)
}

pub open spec fn eof_error<T>(toks: Seq<TokenModel>, p: int) -> Parsed<T> {
    (Err(ParseError::UnexpectedEof { span: eof_span(toks) }), p)
}

pub open spec fn stops_infix(k: TokenKindModel) -> bool {
    ||| k is RParen
    ||| k is RBrace
    ||| k is RBracket
    ||| k is Eof
    ||| k is Comma
    ||| k is Pipe
}

/// Left and right binding powers of an infix operator token.
pub open spec fn precedence(k: TokenKindModel) -> Option<(u8, u8, InfixOp)> {
    match k {
        TokenKindModel::Star => Some((11, 12, InfixOp::Binary(BOp::Mul))),
        TokenKindModel::Slash => Some((11, 12, InfixOp::Binary(BOp::Div))),
        TokenKindModel::Percent => Some((11, 12, InfixOp::Binary(BOp::Rem))),
        TokenKindModel::Plus => Some((9, 10, InfixOp::Binary(BOp::Add))),
        TokenKindModel::Minus => Some((9, 10, InfixOp::Binary(BOp::Sub))),
        TokenKindModel::Lt => Some((7, 8, InfixOp::Binary(BOp::Lt))),
        TokenKindModel::Le => Some((7, 8, InfixOp::Binary(BOp::Le))),
        TokenKindModel::Gt => Some((7, 8, InfixOp::Binary(BOp::Gt))),
        TokenKindModel::Ge => Some((7, 8, InfixOp::Binary(BOp::Ge))),
        TokenKindModel::In => Some((7, 8, InfixOp::Membership)),
        TokenKindModel::EqEq => Some((5, 6, InfixOp::Binary(BOp::Eq))),
        TokenKindModel::BangEq => Some((5, 6, InfixOp::Binary(BOp::Ne))),
        TokenKindModel::Union => Some((4, 5, InfixOp::SetOperation(SetOp::Union))),
        TokenKindModel::Intersect => Some((4, 5, InfixOp::SetOperation(SetOp::Intersect))),
        TokenKindModel::Diff => Some((4, 5, InfixOp::SetOperation(SetOp::Diff))),
        TokenKindModel::AndAnd => Some((3, 4, InfixOp::Binary(BOp::And))),
        TokenKindModel::OrOr => Some((1, 2, InfixOp::Binary(BOp::Or))),
        _ => None,
    }
}

pub open spec fn binds_at_least(prec: Option<(u8, u8, InfixOp)>, min_bp: int) -> bool {
    match prec {
        Some((l_bp, _, _)) => l_bp >= min_bp,
        None => false,
    }
}

pub open spec fn combine(op: InfixOp, lhs: ExprModel, rhs: ExprModel) -> ExprModel {
    match op {
        InfixOp::Binary(bop) => ExprModel::Binary { left: Box::new(lhs), op: bop, right: Box::new(rhs) },
        InfixOp::SetOperation(sop) => ExprModel::SetOp { op: sop, lhs: Box::new(lhs), rhs: Box::new(rhs) },
        InfixOp::Membership => ExprModel::In { elem: Box::new(lhs), set: Box::new(rhs) },
    }
}

pub open spec fn bound_of(kind: BoundKind, e: ExprModel) -> BoundExprModel {
    match e {
        ExprModel::Infinity(InfinityKind::Negative) => BoundExprModel::NegInf,
        ExprModel::Infinity(InfinityKind::Positive) => BoundExprModel::PosInf,
        _ => match kind {
            BoundKind::Open => BoundExprModel::Open(Box::new(e)),
            BoundKind::Closed => BoundExprModel::Closed(Box::new(e)),
        },
    }
}

/// An expression whose operators bind at least as tightly as `min_bp`.
pub open spec fn parse_prec(toks: Seq<TokenModel>, pos: int, min_bp: int) -> Parsed<ExprModel>
    decreases toks.len() - pos, 0nat,
{
    if pos < 0 || pos >= toks.len() {
        eof_error(toks, pos)
    } else {
        let (r, p2) = prefix(toks, pos + 1, toks[pos]);
        match r {
            Err(e) => (Err(e), p2),
            Ok(lhs) => if pos < p2 <= toks.len() {
                infix_loop(toks, p2, lhs, min_bp)
            } else {
                stuck(p2)
            },
        }
    }
}

/// The operand that starts with token `t`, whose remaining tokens start at `p`.
pub open spec fn prefix(toks: Seq<TokenModel>, p: int, t: TokenModel) -> Parsed<ExprModel>
    decreases toks.len() - p, 7nat,
{
    if p < 1 || p > toks.len() {
        stuck(p)
    } else {
        match t.kind {
            TokenKindModel::Int(n) => (Ok(ExprModel::Int(n as i64)), p),
            TokenKindModel::Bool(b) => (Ok(ExprModel::Bool(b)), p),
            TokenKindModel::Str(s) => (Ok(ExprModel::Str(s)), p),
            TokenKindModel::Ident(name) => ident_or_lambda(toks, p, name),
            TokenKindModel::Bang => {
                let (r, p2) = parse_prec(toks, p, 15);
                match r {
                    Ok(e) => (Ok(ExprModel::Unary { op: UOp::Not, expr: Box::new(e) }), p2),
                    Err(e) => (Err(e), p2),
                }
            },
            TokenKindModel::Minus => {
                let (r, p2) = parse_prec(toks, p, 15);
                match r {
                    Ok(e) => (Ok(ExprModel::Unary { op: UOp::Neg, expr: Box::new(e) }), p2),
                    Err(e) => (Err(e), p2),
                }
            },
            TokenKindModel::Card => {
                let (r, p2) = parenthesized(toks, p);
                match r {
                    Ok(e) => (Ok(ExprModel::Cardinality(Box::new(e))), p2),
                    Err(e) => (Err(e), p2),
                }
            },
            TokenKindModel::PlusInf => (Ok(ExprModel::Infinity(InfinityKind::Positive)), p),
            TokenKindModel::MinusInf => (Ok(ExprModel::Infinity(InfinityKind::Negative)), p),
            TokenKindModel::LParen => paren_group(toks, p),
            TokenKindModel::LBracket => interval_literal(toks, p, BoundKind::Closed),
            TokenKindModel::LBrace => set_items(toks, p, Seq::empty()),
            TokenKindModel::WithSemiring => with_semiring(toks, p),
            _ => (Err(ParseError::UnexpectedToken { span: t.span }), p),
        }
    }
}

/// Applies infix operators to `lhs` while they bind at least as tightly as `min_bp`.
pub open spec fn infix_loop(toks: Seq<TokenModel>, p: int, lhs: ExprModel, min_bp: int) -> Parsed<ExprModel>
    decreases toks.len() - p, 1nat,
{
    if 0 <= p < toks.len() && !stops_infix(toks[p].kind) && binds_at_least(
        precedence(toks[p].kind),
        min_bp,
    ) {
        let (l_bp, r_bp, op) = precedence(toks[p].kind).unwrap();
        let (rr, p3) = parse_prec(toks, p + 1, r_bp as int);
        match rr {
            Err(e) => (Err(e), p3),
            Ok(rhs) => if p < p3 <= toks.len() {
                infix_loop(toks, p3, combine(op, lhs, rhs), min_bp)
            } else {
                stuck(p3)
            },
        }
    } else {
        pipe_loop(toks, p, lhs)
    }
}

/// Applies `|> call(...)` steps to `lhs`.
pub open spec fn pipe_loop(toks: Seq<TokenModel>, p: int, lhs: ExprModel) -> Parsed<ExprModel>
    decreases toks.len() - p, 0nat,
{
    if 0 <= p && kind_is(toks, p, TokenKindModel::Pipe) {
        let (rc, p3) = call_expr(toks, p + 1);
        match rc {
            Err(e) => (Err(e), p3),
            Ok(call) => if p < p3 <= toks.len() {
                pipe_loop(toks, p3, ExprModel::Pipe { lhs: Box::new(lhs), call })
            } else {
                stuck(p3)
            },
        }
    } else {
        (Ok(lhs), p)
    }
}

/// A call `name(args)` as it follows `|>`.
pub open spec fn call_expr(toks: Seq<TokenModel>, p: int) -> Parsed<CallModel>
    decreases toks.len() - p, 3nat,
{
    if p < 0 || p >= toks.len() {
        (Err(ParseError::UnexpectedEof { span: eof_span(toks) }), p)
    } else {
        match toks[p].kind {
            TokenKindModel::Ident(name) => call_with_name(toks, p + 1, seq![name]),
            _ => (Err(ParseError::ExpectedToken { expected: "identifier", span: toks[p].span }), p + 1),
        }
    }
}

/// The parenthesized argument list of a call of the function named by `parts`.
pub open spec fn call_with_name(toks: Seq<TokenModel>, p: int, parts: Seq<Seq<char>>) -> Parsed<CallModel>
    decreases toks.len() - p, 2nat,
{
    if p < 0 || p >= toks.len() {
        (Err(ParseError::UnexpectedEof { span: eof_span(toks) }), p)
    } else if toks[p].kind is LParen {
        call_args(toks, p + 1, parts, Seq::empty())
    } else {
        (Err(ParseError::ExpectedToken { expected: "(", span: toks[p].span }), p + 1)
    }
}

pub open spec fn call_args(toks: Seq<TokenModel>, p: int, parts: Seq<Seq<char>>, args: Seq<ExprModel>) -> Parsed<CallModel>
    decreases toks.len() - p, 1nat,
{
    if p < 0 || p > toks.len() {
        stuck(p)
    } else if kind_is(toks, p, TokenKindModel::RParen) {
        (Ok(CallModel { func: join_dotted(parts), args }), p + 1)
    } else {
        let (r, p2) = parse_prec(toks, p, 0);
        match r {
            Err(e) => (Err(e), p2),
            Ok(e) => if p < p2 < toks.len() {
                match toks[p2].kind {
                    TokenKindModel::Comma => call_args(toks, p2 + 1, parts, args.push(e)),
                    TokenKindModel::RParen => (Ok(CallModel { func: join_dotted(parts), args: args.push(e) }), p2 + 1),
                    _ => (Err(ParseError::ExpectedToken { expected: ", or )", span: toks[p2].span }), p2),
                }
            } else if p < p2 {
                (Err(ParseError::UnexpectedEof { span: eof_span(toks) }), p2)
            } else {
                stuck(p2)
            },
        }
    }
}

/// After a name: a one-parameter lambda, or a path, enum variant or call.
pub open spec fn ident_or_lambda(toks: Seq<TokenModel>, p: int, name: Seq<char>) -> Parsed<ExprModel>
    decreases toks.len() - p, 6nat,
{
    if p < 0 || p > toks.len() {
        stuck(p)
    } else if kind_is(toks, p, TokenKindModel::Arrow) {
        let (r, p2) = parse_prec(toks, p + 1, 0);
        match r {
            Ok(body) => (Ok(ExprModel::Lambda { params: seq![name], body: Box::new(body) }), p2),
            Err(e) => (Err(e), p2),
        }
    } else {
        ident_dots(toks, p, seq![name])
    }
}

/// The `.name` parts of a path.
pub open spec fn ident_dots(toks: Seq<TokenModel>, p: int, parts: Seq<Seq<char>>) -> Parsed<ExprModel>
    decreases toks.len() - p, 5nat,
{
    if p < 0 || p > toks.len() {
        stuck(p)
    } else if kind_is(toks, p, TokenKindModel::Dot) {
        if p + 1 < toks.len() {
            match toks[p + 1].kind {
                TokenKindModel::Ident(n) => ident_dots(toks, p + 2, parts.push(n)),
                _ => (Err(ParseError::ExpectedToken { expected: "identifier", span: toks[p + 1].span }), p + 2),
            }
        } else {
            eof_error(toks, p + 1)
        }
    } else {
        ident_tail(toks, p, parts)
    }
}

/// What follows a complete path: `::Variant`, an argument list, or nothing.
pub open spec fn ident_tail(toks: Seq<TokenModel>, p: int, parts: Seq<Seq<char>>) -> Parsed<ExprModel>
    decreases toks.len() - p, 4nat,
{
    if p < 0 || p > toks.len() {
        stuck(p)
    } else if kind_is(toks, p, TokenKindModel::ColonColon) {
        if p + 1 < toks.len() {
            match toks[p + 1].kind {
                TokenKindModel::Ident(v) => (Ok(ExprModel::EnumVariant { ty: join_dotted(parts), variant: v }), p + 2),
                _ => (Err(ParseError::ExpectedToken { expected: "variant", span: toks[p + 1].span }), p + 2),
            }
        } else {
            (Err(ParseError::ExpectedToken { expected: "variant", span: eof_span(toks) }), p + 1)
        }
    } else if kind_is(toks, p, TokenKindModel::LParen) {
        let (rc, p2) = call_with_name(toks, p, parts);
        match rc {
            Ok(c) => (Ok(ExprModel::Call(c)), p2),
            Err(e) => (Err(e), p2),
        }
    } else {
        (Ok(ExprModel::Ident(parts)), p)
    }
}

/// `( expr )`, as it follows `card`.
pub open spec fn parenthesized(toks: Seq<TokenModel>, p: int) -> Parsed<ExprModel>
    decreases toks.len() - p, 2nat,
{
    if p < 0 || p >= toks.len() {
        eof_error(toks, p)
    } else if toks[p].kind is LParen {
        let (r, p2) = parse_prec(toks, p + 1, 0);
        match r {
            Err(e) => (Err(e), p2),
            Ok(e) => if 0 <= p2 < toks.len() {
                if toks[p2].kind is RParen {
                    (Ok(e), p2 + 1)
                } else {
                    (Err(ParseError::ExpectedToken { expected: ")", span: toks[p2].span }), p2 + 1)
                }
            } else {
                eof_error(toks, p2)
            },
        }
    } else {
        (Err(ParseError::ExpectedToken { expected: "(", span: toks[p].span }), p + 1)
    }
}

/// What follows `(`: a lambda, an open-lower interval, or a parenthesized expression.
pub open spec fn paren_group(toks: Seq<TokenModel>, p: int) -> Parsed<ExprModel>
    decreases toks.len() - p, 4nat,
{
    if p < 0 || p > toks.len() {
        stuck(p)
    } else {
        let (rl, pl) = try_lambda(toks, p);
        match rl {
            Err(e) => (Err(e), pl),
            Ok(Some(lam)) => (Ok(lam), pl),
            Ok(None) => {
                let (ri, pi) = try_interval(toks, p);
                match ri {
                    Err(e) => (Err(e), pi),
                    Ok(Some(iv)) => (Ok(iv), pi),
                    Ok(None) => {
                        let (re, pe) = parse_prec(toks, p, 0);
                        match re {
                            Err(e) => (Err(e), pe),
                            Ok(e) => if 0 <= pe < toks.len() {
                                if toks[pe].kind is RParen {
                                    (Ok(e), pe + 1)
                                } else {
                                    (Err(ParseError::ExpectedToken { expected: ")", span: toks[pe].span }), pe + 1)
                                }
                            } else {
                                eof_error(toks, pe)
                            },
                        }
                    },
                }
            },
        }
    }
}

/// Lambda parameters after `(`: the names and the position after `)`, or none.
pub open spec fn lambda_params(toks: Seq<TokenModel>, p: int) -> Option<(Seq<Seq<char>>, int)> {
    if kind_is(toks, p, TokenKindModel::RParen) {
        Some((Seq::empty(), p + 1))
    } else {
        lambda_param_list(toks, p, Seq::empty())
    }
}

pub open spec fn lambda_param_list(toks: Seq<TokenModel>, p: int, acc: Seq<Seq<char>>) -> Option<(Seq<Seq<char>>, int)>
    decreases toks.len() - p,
{
    if 0 <= p < toks.len() {
        match toks[p].kind {
            TokenKindModel::Ident(n) => if kind_is(toks, p + 1, TokenKindModel::Comma) {
                lambda_param_list(toks, p + 2, acc.push(n))
            } else if kind_is(toks, p + 1, TokenKindModel::RParen) {
                Some((acc.push(n), p + 2))
            } else {
                None
            },
            _ => None,
        }
    } else {
        None
    }
}

/// `(params) -> body` after `(`, or none (the position is then unchanged).
pub open spec fn try_lambda(toks: Seq<TokenModel>, p: int) -> Parsed<Option<ExprModel>>
    decreases toks.len() - p, 1nat,
{
    match lambda_params(toks, p) {
        None => (Ok(None), p),
        Some((params, q)) => if p <= q && kind_is(toks, q, TokenKindModel::Arrow) {
            let (r, q2) = parse_prec(toks, q + 1, 0);
            match r {
                Err(e) => (Err(e), q2),
                Ok(body) => (Ok(Some(ExprModel::Lambda { params, body: Box::new(body) })), q2),
            }
        } else {
            (Ok(None), p)
        },
    }
}

/// `lower, upper)` or `lower, upper]` after `(`, or none (the position is then unchanged).
pub open spec fn try_interval(toks: Seq<TokenModel>, p: int) -> Parsed<Option<ExprModel>>
    decreases toks.len() - p, 3nat,
{
    if p < 0 || p > toks.len() {
        (Ok(None), p)
    } else {
        let (rl, p1) = endpoint(toks, p);
        match rl {
            Err(e) => (Err(e), p),
            Ok(lower) => if kind_is(toks, p1, TokenKindModel::Comma) {
                if p <= p1 {
                    let (ra, p2) = after_lower(toks, p1 + 1, BoundKind::Open, lower);
                    match ra {
                        Ok(iv) => (Ok(Some(iv)), p2),
                        Err(e) => (Err(e), p),
                    }
                } else {
                    (Ok(None), p)
                }
            } else {
                (Ok(None), p)
            },
        }
    }
}

/// An interval endpoint: `+inf`, `-inf` or an expression.
pub open spec fn endpoint(toks: Seq<TokenModel>, p: int) -> Parsed<ExprModel>
    decreases toks.len() - p, 1nat,
{
    if p < 0 || p > toks.len() {
        stuck(p)
    } else if kind_is(toks, p, TokenKindModel::PlusInf) {
        (Ok(ExprModel::Infinity(InfinityKind::Positive)), p + 1)
    } else if kind_is(toks, p, TokenKindModel::MinusInf) {
        (Ok(ExprModel::Infinity(InfinityKind::Negative)), p + 1)
    } else {
        parse_prec(toks, p, 0)
    }
}

/// The upper endpoint and closing bracket of an interval whose lower endpoint is read.
pub open spec fn after_lower(toks: Seq<TokenModel>, p: int, lower_kind: BoundKind, lower: ExprModel) -> Parsed<ExprModel>
    decreases toks.len() - p, 2nat,
{
    if p < 0 || p > toks.len() {
        stuck(p)
    } else {
        let (ru, p2) = endpoint(toks, p);
        match ru {
            Err(e) => (Err(e), p2),
            Ok(upper) => if 0 <= p2 < toks.len() {
                if toks[p2].kind is RBracket {
                    (Ok(ExprModel::Interval { lo: bound_of(lower_kind, lower), hi: bound_of(BoundKind::Closed, upper) }), p2 + 1)
                } else if toks[p2].kind is RParen {
                    (Ok(ExprModel::Interval { lo: bound_of(lower_kind, lower), hi: bound_of(BoundKind::Open, upper) }), p2 + 1)
                } else {
                    (Err(ParseError::ExpectedToken { expected: ") or ]", span: toks[p2].span }), p2 + 1)
                }
            } else {
                eof_error(toks, p2)
            },
        }
    }
}

/// An interval after `[`.
pub open spec fn interval_literal(toks: Seq<TokenModel>, p: int, lower_kind: BoundKind) -> Parsed<ExprModel>
    decreases toks.len() - p, 3nat,
{
    if p < 0 || p > toks.len() {
        stuck(p)
    } else {
        let (rl, p1) = endpoint(toks, p);
        match rl {
            Err(e) => (Err(e), p1),
            Ok(lower) => if 0 <= p1 < toks.len() {
                if toks[p1].kind is Comma {
                    if p <= p1 {
                        after_lower(toks, p1 + 1, lower_kind, lower)
                    } else {
                        stuck(p1)
                    }
                } else {
                    (Err(ParseError::ExpectedToken { expected: ",", span: toks[p1].span }), p1 + 1)
                }
            } else {
                eof_error(toks, p1)
            },
        }
    }
}

/// The elements of a set literal after `{`, with `elems` already read.
pub open spec fn set_items(toks: Seq<TokenModel>, p: int, elems: Seq<ExprModel>) -> Parsed<ExprModel>
    decreases toks.len() - p, 1nat,
{
    if p < 0 || p >= toks.len() {
        eof_error(toks, p)
    } else if toks[p].kind is RBrace {
        (Ok(ExprModel::SetLiteral(elems)), p + 1)
    } else {
        let (r, p2) = parse_prec(toks, p, 0);
        match r {
            Err(e) => (Err(e), p2),
            Ok(e) => if p < p2 < toks.len() {
                match toks[p2].kind {
                    TokenKindModel::Comma => set_items(toks, p2 + 1, elems.push(e)),
                    TokenKindModel::RBrace => (Ok(ExprModel::SetLiteral(elems.push(e))), p2 + 1),
                    _ => (Err(ParseError::ExpectedToken { expected: "comma or '}'", span: toks[p2].span }), p2),
                }
            } else if p < p2 {
                eof_error(toks, p2)
            } else {
                stuck(p2)
            },
        }
    }
}

/// A dotted name `a.b.c`: its parts.
pub open spec fn dotted_name(toks: Seq<TokenModel>, p: int) -> Parsed<Seq<Seq<char>>> {
    if p < 0 || p >= toks.len() {
        (Err(ParseError::UnexpectedEof { span: eof_span(toks) }), p)
    } else {
        match toks[p].kind {
            TokenKindModel::Ident(n) => dotted_rest(toks, p + 1, seq![n]),
            _ => (Err(ParseError::ExpectedToken { expected: "identifier", span: toks[p].span }), p + 1),
        }
    }
}

pub open spec fn dotted_rest(toks: Seq<TokenModel>, p: int, parts: Seq<Seq<char>>) -> Parsed<Seq<Seq<char>>>
    decreases toks.len() - p,
{
    if kind_is(toks, p, TokenKindModel::Dot) {
        if p + 1 < toks.len() {
            match toks[p + 1].kind {
                TokenKindModel::Ident(n) => dotted_rest(toks, p + 2, parts.push(n)),
                _ => (Err(ParseError::ExpectedToken { expected: "identifier", span: toks[p + 1].span }), p + 2),
            }
        } else {
            (Err(ParseError::UnexpectedEof { span: eof_span(toks) }), p + 1)
        }
    } else {
        (Ok(parts), p)
    }
}

/// `name: body` after `with_semiring`.
pub open spec fn with_semiring(toks: Seq<TokenModel>, p: int) -> Parsed<ExprModel>
    decreases toks.len() - p, 2nat,
{
    if p < 0 || p > toks.len() {
        stuck(p)
    } else {
        let (rn, p1) = dotted_name(toks, p);
        match rn {
            Err(e) => (Err(e), p1),
            Ok(parts) => if 0 <= p1 < toks.len() {
                if toks[p1].kind is Colon {
                    if p <= p1 {
                        let (rb, p2) = parse_prec(toks, p1 + 1, 0);
                        match rb {
                            Err(e) => (Err(e), p2),
                            Ok(body) => (Ok(ExprModel::WithSemiring { name: join_dotted(parts), body: Box::new(body) }), p2),
                        }
                    } else {
                        stuck(p1)
                    }
                } else {
                    (Err(ParseError::ExpectedToken { expected: ":", span: toks[p1].span }), p1 + 1)
                }
            } else {
                eof_error(toks, p1)
            },
        }
    }
}

} // verus!

verus! {

// ---------- The parser ----------

pub open spec fn res_model(r: Result<Expr, ParseError>) -> Result<ExprModel, ParseError> {
    match r {
        Ok(e) => Ok(e@),
        Err(e) => Err(e),
    }
}

pub open spec fn call_model(c: Call) -> CallModel {
    CallModel { func: c.func@, args: exprs_model(c.args@) }
}

pub open spec fn call_res_model(r: Result<Call, ParseError>) -> Result<CallModel, ParseError> {
    match r {
        Ok(c) => Ok(call_model(c)),
        Err(e) => Err(e),
    }
}

pub open spec fn opt_res_model(r: Result<Option<Expr>, ParseError>) -> Result<Option<ExprModel>, ParseError> {
    match r {
        Ok(Some(e)) => Ok(Some(e@)),
        Ok(None) => Ok(None),
        Err(e) => Err(e),
    }
}

pub open spec fn parts_res_model(r: Result<Vec<String>, ParseError>) -> Result<Seq<Seq<char>>, ParseError> {
    match r {
        Ok(v) => Ok(strings_view(v@)),
        Err(e) => Err(e),
    }
}

fn get_precedence(tok: &TokenKind) -> (r: Option<(u8, u8, InfixOp)>)
    ensures
        r == precedence(tok@),
{
    match tok {
        TokenKind::Star => Some((11, 12, InfixOp::Binary(BOp::Mul))),
        TokenKind::Slash => Some((11, 12, InfixOp::Binary(BOp::Div))),
        TokenKind::Percent => Some((11, 12, InfixOp::Binary(BOp::Rem))),
        TokenKind::Plus => Some((9, 10, InfixOp::Binary(BOp::Add))),
        TokenKind::Minus => Some((9, 10, InfixOp::Binary(BOp::Sub))),
        TokenKind::Lt => Some((7, 8, InfixOp::Binary(BOp::Lt))),
        TokenKind::Le => Some((7, 8, InfixOp::Binary(BOp::Le))),
        TokenKind::Gt => Some((7, 8, InfixOp::Binary(BOp::Gt))),
        TokenKind::Ge => Some((7, 8, InfixOp::Binary(BOp::Ge))),
        TokenKind::In => Some((7, 8, InfixOp::Membership)),
        TokenKind::EqEq => Some((5, 6, InfixOp::Binary(BOp::Eq))),
        TokenKind::BangEq => Some((5, 6, InfixOp::Binary(BOp::Ne))),
        TokenKind::Union => Some((4, 5, InfixOp::SetOperation(SetOp::Union))),
        TokenKind::Intersect => Some((4, 5, InfixOp::SetOperation(SetOp::Intersect))),
        TokenKind::Diff => Some((4, 5, InfixOp::SetOperation(SetOp::Diff))),
        TokenKind::AndAnd => Some((3, 4, InfixOp::Binary(BOp::And))),
        TokenKind::OrOr => Some((1, 2, InfixOp::Binary(BOp::Or))),
        _ => None,
    }
}

fn combine_exprs(op: InfixOp, lhs: Expr, rhs: Expr) -> (r: Expr)
    ensures
        r@ == combine(op, lhs@, rhs@),
{
    match op {
        InfixOp::Binary(bop) => Expr::Binary { left: Box::new(lhs), op: bop, right: Box::new(rhs) },
        InfixOp::SetOperation(sop) => Expr::SetOp { op: sop, lhs: Box::new(lhs), rhs: Box::new(rhs) },
        InfixOp::Membership => Expr::In { elem: Box::new(lhs), set: Box::new(rhs) },
    }
}

fn build_bound(kind: BoundKind, expr: Expr) -> (r: BoundExpr)
    ensures
        r@ == bound_of(kind, expr@),
{
    match expr {
        Expr::Infinity(InfinityKind::Negative) => BoundExpr::NegInf,
        Expr::Infinity(InfinityKind::Positive) => BoundExpr::PosInf,
        other => match kind {
            BoundKind::Open => BoundExpr::Open(Box::new(other)),
            BoundKind::Closed => BoundExpr::Closed(Box::new(other)),
        },
    }
}

fn stops_infix_kind(k: &TokenKind) -> (r: bool)
    ensures
        r == stops_infix(k@),
{
    match k {
        TokenKind::RParen | TokenKind::RBrace | TokenKind::RBracket | TokenKind::Eof
        | TokenKind::Comma | TokenKind::Pipe => true,
        _ => false,
    }
}

impl<'a> Parser<'a> {
    #[verifier::type_invariant]
    spec fn pos_in_range(self) -> bool {
        self.pos <= self.tokens@.len()
    }

    /// The tokens that the parser reads, as a sequence of token models.
    pub closed spec fn toks(self) -> Seq<TokenModel> {
        tokens_view(self.tokens@)
    }

    /// The index of the next token to read.
    pub closed spec fn position(self) -> int {
        self.pos as int
    }

    pub fn new(tokens: &'a [Token]) -> (p: Self)
        ensures
            p.toks() == tokens_view(tokens@),
            p.position() == 0,
    {
        Self { tokens, pos: 0 }
    }

    fn next_token(&mut self) -> (r: Option<&'a Token>)
        ensures
            final(self).tokens == old(self).tokens,
            old(self).pos < old(self).tokens@.len() ==> r == Some(&old(self).tokens@[old(self).pos as int])
                && final(self).pos == old(self).pos + 1,
            old(self).pos >= old(self).tokens@.len() ==> r is None && final(self).pos == old(self).pos,
    {
        proof {
            use_type_invariant(&*self);
        }
        if self.pos < self.tokens.len() {
            let t = &self.tokens[self.pos];
            self.pos = self.pos + 1;
            Some(t)
        } else {
            None
        }
    }

    fn peek_token(&self) -> (r: Option<&'a Token>)
        ensures
            self.pos < self.tokens@.len() ==> r == Some(&self.tokens@[self.pos as int]),
            self.pos >= self.tokens@.len() ==> r is None,
    {
        if self.pos < self.tokens.len() {
            Some(&self.tokens[self.pos])
        } else {
            None
        }
    }

    fn eof_span(&self) -> (s: Span)
        ensures
            s == eof_span(tokens_view(self.tokens@)),
    {
        if self.tokens.len() > 0 {
            self.tokens[self.tokens.len() - 1].span
        } else {
            Span { start: 0, end: 0 }
        }
    }

    /// Parses one expression, reading tokens from the current position on.
    pub fn parse_expr(&mut self) -> (r: Result<Expr, ParseError>)
        ensures
            final(self).toks() == old(self).toks(),
            (res_model(r), final(self).position()) == parse_prec(old(self).toks(), old(self).position(), 0),
    {
        self.parse_precedence(0)
    }

    fn parse_precedence(&mut self, min_bp: u8) -> (r: Result<Expr, ParseError>)
        ensures
            final(self).tokens == old(self).tokens,
            (res_model(r), final(self).pos as int) == parse_prec(tokens_view(old(self).tokens@), old(self).pos as int, min_bp as int),
            old(self).pos <= final(self).pos,
            r is Ok ==> old(self).pos < final(self).pos,
        decreases old(self).tokens@.len() - old(self).pos, 0nat,
    {
        proof {
            use_type_invariant(&*self);
        }
        let ghost toks = tokens_view(self.tokens@);
        let token = match self.next_token() {
            Some(t) => t,
            None => {
                return Err(ParseError::UnexpectedEof { span: self.eof_span() });
            },
        };
        let lhs = match self.parse_prefix(token) {
            Ok(e) => e,
            Err(e) => {
                return Err(e);
            },
        };
        proof {
            use_type_invariant(&*self);
        }
        self.infix_loop(lhs, min_bp)
    }

    fn parse_prefix(&mut self, token: &'a Token) -> (r: Result<Expr, ParseError>)
        requires
            1 <= old(self).pos,
        ensures
            final(self).tokens == old(self).tokens,
            (res_model(r), final(self).pos as int) == prefix(tokens_view(old(self).tokens@), old(self).pos as int, token@),
            old(self).pos <= final(self).pos,
        decreases old(self).tokens@.len() - old(self).pos, 7nat,
    {
        proof {
            use_type_invariant(&*self);
        }
        match &token.kind {
            TokenKind::Int(n) => Ok(Expr::Int(*n)),
            TokenKind::Bool(b) => Ok(Expr::Bool(*b)),
            TokenKind::Str(s) => Ok(Expr::Str(s.clone())),
            TokenKind::Ident(name) => self.parse_ident_or_lambda(name.clone()),
            TokenKind::Bang => {
                match self.parse_precedence(15) {
                    Ok(rhs) => Ok(Expr::Unary { op: UOp::Not, expr: Box::new(rhs) }),
                    Err(e) => Err(e),
                }
            },
            TokenKind::Minus => {
                match self.parse_precedence(15) {
                    Ok(rhs) => Ok(Expr::Unary { op: UOp::Neg, expr: Box::new(rhs) }),
                    Err(e) => Err(e),
                }
            },
            TokenKind::Card => {
                match self.parse_parenthesized_expr() {
                    Ok(inner) => Ok(Expr::Cardinality(Box::new(inner))),
                    Err(e) => Err(e),
                }
            },
            TokenKind::PlusInf => Ok(Expr::Infinity(InfinityKind::Positive)),
            TokenKind::MinusInf => Ok(Expr::Infinity(InfinityKind::Negative)),
            TokenKind::LParen => self.parse_paren_group(),
            TokenKind::LBracket => self.parse_interval_literal(BoundKind::Closed),
            TokenKind::LBrace => {
                let elements: Vec<Expr> = Vec::new();
                proof {
                    assert(exprs_model(elements@) =~= Seq::<ExprModel>::empty());
                }
                self.parse_set_literal(elements)
            },
            TokenKind::WithSemiring => self.parse_with_semiring_expr(),
            _ => Err(ParseError::UnexpectedToken { span: token.span }),
        }
    }

    fn infix_loop(&mut self, lhs: Expr, min_bp: u8) -> (r: Result<Expr, ParseError>)
        ensures
            final(self).tokens == old(self).tokens,
            (res_model(r), final(self).pos as int) == infix_loop(tokens_view(old(self).tokens@), old(self).pos as int, lhs@, min_bp as int),
            old(self).pos <= final(self).pos,
        decreases old(self).tokens@.len() - old(self).pos, 1nat,
    {
        proof {
            use_type_invariant(&*self);
        }
        let next_kind = match self.peek_token() {
            Some(t) => &t.kind,
            None => {
                return self.pipe_loop(lhs);
            },
        };
        if stops_infix_kind(next_kind) {
            return self.pipe_loop(lhs);
        }
        let (l_bp, r_bp, op) = match get_precedence(next_kind) {
            Some(p) => p,
            None => {
                return self.pipe_loop(lhs);
            },
        };
        if l_bp < min_bp {
            return self.pipe_loop(lhs);
        }
        self.next_token();
        let rhs = match self.parse_precedence(r_bp) {
            Ok(e) => e,
            Err(e) => {
                return Err(e);
            },
        };
        proof {
            use_type_invariant(&*self);
        }
        let combined = combine_exprs(op, lhs, rhs);
        self.infix_loop(combined, min_bp)
    }

    fn pipe_loop(&mut self, lhs: Expr) -> (r: Result<Expr, ParseError>)
        ensures
            final(self).tokens == old(self).tokens,
            (res_model(r), final(self).pos as int) == pipe_loop(tokens_view(old(self).tokens@), old(self).pos as int, lhs@),
            old(self).pos <= final(self).pos,
        decreases old(self).tokens@.len() - old(self).pos, 0nat,
    {
        proof {
            use_type_invariant(&*self);
        }
        match self.peek_token() {
            Some(Token { kind: TokenKind::Pipe, .. }) => {},
            _ => {
                return Ok(lhs);
            },
        }
        self.next_token();
        let call = match self.parse_call_expr() {
            Ok(c) => c,
            Err(e) => {
                return Err(e);
            },
        };
        proof {
            use_type_invariant(&*self);
        }
        self.pipe_loop(Expr::Pipe { lhs: Box::new(lhs), call })
    }

    fn parse_call_expr(&mut self) -> (r: Result<Call, ParseError>)
        ensures
            final(self).tokens == old(self).tokens,
            (call_res_model(r), final(self).pos as int) == call_expr(tokens_view(old(self).tokens@), old(self).pos as int),
            old(self).pos <= final(self).pos,
            r is Ok ==> old(self).pos < final(self).pos,
        decreases old(self).tokens@.len() - old(self).pos, 3nat,
    {
        let func_token = match self.next_token() {
            Some(t) => t,
            None => {
                return Err(ParseError::UnexpectedEof { span: self.eof_span() });
            },
        };
        match &func_token.kind {
            TokenKind::Ident(name) => {
                let mut parts: Vec<String> = Vec::new();
                parts.push(name.clone());
                proof {
                    assert(strings_view(parts@) =~= seq![name@]);
                }
                self.parse_call_with_name(parts)
            },
            _ => Err(ParseError::ExpectedToken { expected: "identifier", span: func_token.span }),
        }
    }

    fn parse_call_with_name(&mut self, name_parts: Vec<String>) -> (r: Result<Call, ParseError>)
        ensures
            final(self).tokens == old(self).tokens,
            (call_res_model(r), final(self).pos as int) == call_with_name(tokens_view(old(self).tokens@), old(self).pos as int, strings_view(name_parts@)),
            old(self).pos <= final(self).pos,
            r is Ok ==> old(self).pos < final(self).pos,
        decreases old(self).tokens@.len() - old(self).pos, 2nat,
    {
        match self.next_token() {
            Some(Token { kind: TokenKind::LParen, .. }) => {},
            Some(tok) => {
                return Err(ParseError::ExpectedToken { expected: "(", span: tok.span });
            },
            None => {
                return Err(ParseError::UnexpectedEof { span: self.eof_span() });
            },
        }
        let args: Vec<Expr> = Vec::new();
        proof {
            assert(exprs_model(args@) =~= Seq::<ExprModel>::empty());
        }
        self.parse_call_args(name_parts, args)
    }

    fn parse_call_args(&mut self, name_parts: Vec<String>, args: Vec<Expr>) -> (r: Result<Call, ParseError>)
        ensures
            final(self).tokens == old(self).tokens,
            (call_res_model(r), final(self).pos as int) == call_args(tokens_view(old(self).tokens@), old(self).pos as int, strings_view(name_parts@), exprs_model(args@)),
            old(self).pos <= final(self).pos,
            r is Ok ==> old(self).pos < final(self).pos,
        decreases old(self).tokens@.len() - old(self).pos, 1nat,
    {
        proof {
            use_type_invariant(&*self);
        }
        let mut args = args;
        if let Some(Token { kind: TokenKind::RParen, .. }) = self.peek_token() {
            self.next_token();
            return Ok(Call { func: join_with_dots(&name_parts), args });
        }
        let expr = match self.parse_precedence(0) {
            Ok(e) => e,
            Err(e) => {
                return Err(e);
            },
        };
        proof {
            use_type_invariant(&*self);
            crate::ast::lemma_exprs_model_push(args@, expr);
        }
        args.push(expr);
        match self.peek_token() {
            Some(Token { kind: TokenKind::Comma, .. }) => {
                self.next_token();
                self.parse_call_args(name_parts, args)
            },
            Some(Token { kind: TokenKind::RParen, .. }) => {
                self.next_token();
                Ok(Call { func: join_with_dots(&name_parts), args })
            },
            Some(tok) => Err(ParseError::ExpectedToken { expected: ", or )", span: tok.span }),
            None => Err(ParseError::UnexpectedEof { span: self.eof_span() }),
        }
    }

    fn parse_ident_or_lambda(&mut self, first: String) -> (r: Result<Expr, ParseError>)
        ensures
            final(self).tokens == old(self).tokens,
            (res_model(r), final(self).pos as int) == ident_or_lambda(tokens_view(old(self).tokens@), old(self).pos as int, first@),
            old(self).pos <= final(self).pos,
        decreases old(self).tokens@.len() - old(self).pos, 6nat,
    {
        proof {
            use_type_invariant(&*self);
        }
        if let Some(Token { kind: TokenKind::Arrow, .. }) = self.peek_token() {
            self.next_token();
            let body = match self.parse_expr_inner() {
                Ok(b) => b,
                Err(e) => {
                    return Err(e);
                },
            };
            let mut params: Vec<String> = Vec::new();
            params.push(first);
            proof {
                assert(strings_view(params@) =~= seq![first@]);
            }
            return Ok(Expr::Lambda { params, body: Box::new(body) });
        }
        let mut parts: Vec<String> = Vec::new();
        parts.push(first);
        proof {
            assert(strings_view(parts@) =~= seq![first@]);
        }
        self.parse_ident_dots(parts)
    }

    fn parse_expr_inner(&mut self) -> (r: Result<Expr, ParseError>)
        ensures
            final(self).tokens == old(self).tokens,
            (res_model(r), final(self).pos as int) == parse_prec(tokens_view(old(self).tokens@), old(self).pos as int, 0),
            old(self).pos <= final(self).pos,
            r is Ok ==> old(self).pos < final(self).pos,
        decreases old(self).tokens@.len() - old(self).pos, 1nat,
    {
        self.parse_precedence(0)
    }

    fn parse_ident_dots(&mut self, parts: Vec<String>) -> (r: Result<Expr, ParseError>)
        ensures
            final(self).tokens == old(self).tokens,
            (res_model(r), final(self).pos as int) == ident_dots(tokens_view(old(self).tokens@), old(self).pos as int, strings_view(parts@)),
            old(self).pos <= final(self).pos,
        decreases old(self).tokens@.len() - old(self).pos, 5nat,
    {
        proof {
            use_type_invariant(&*self);
        }
        let mut parts = parts;
        if let Some(Token { kind: TokenKind::Dot, .. }) = self.peek_token() {
            self.next_token();
            match self.next_token() {
                Some(Token { kind: TokenKind::Ident(name), .. }) => {
                    let ghost before = parts@;
                    parts.push(name.clone());
                    proof {
                        assert(strings_view(parts@) =~= strings_view(before).push(name@));
                    }
                    return self.parse_ident_dots(parts);
                },
                Some(tok) => {
                    return Err(ParseError::ExpectedToken { expected: "identifier", span: tok.span });
                },
                None => {
                    return Err(ParseError::UnexpectedEof { span: self.eof_span() });
                },
            }
        }
        self.parse_ident_tail(parts)
    }

    fn parse_ident_tail(&mut self, parts: Vec<String>) -> (r: Result<Expr, ParseError>)
        ensures
            final(self).tokens == old(self).tokens,
            (res_model(r), final(self).pos as int) == ident_tail(tokens_view(old(self).tokens@), old(self).pos as int, strings_view(parts@)),
            old(self).pos <= final(self).pos,
        decreases old(self).tokens@.len() - old(self).pos, 4nat,
    {
        proof {
            use_type_invariant(&*self);
        }
        if let Some(Token { kind: TokenKind::ColonColon, .. }) = self.peek_token() {
            self.next_token();
            let variant_tok = match self.next_token() {
                Some(t) => t,
                None => {
                    return Err(ParseError::ExpectedToken { expected: "variant", span: self.eof_span() });
                },
            };
            return match &variant_tok.kind {
                TokenKind::Ident(variant) => {
                    let ty = join_with_dots(&parts);
                    Ok(Expr::EnumVariant { ty, variant: variant.clone() })
                },
                _ => Err(ParseError::ExpectedToken { expected: "variant", span: variant_tok.span }),
            };
        }
        if let Some(Token { kind: TokenKind::LParen, .. }) = self.peek_token() {
            return match self.parse_call_with_name(parts) {
                Ok(call) => Ok(Expr::Call(call)),
                Err(e) => Err(e),
            };
        }
        Ok(Expr::Ident(IdentPath(parts)))
    }

    fn parse_parenthesized_expr(&mut self) -> (r: Result<Expr, ParseError>)
        ensures
            final(self).tokens == old(self).tokens,
            (res_model(r), final(self).pos as int) == parenthesized(tokens_view(old(self).tokens@), old(self).pos as int),
            old(self).pos <= final(self).pos,
        decreases old(self).tokens@.len() - old(self).pos, 2nat,
    {
        match self.next_token() {
            Some(Token { kind: TokenKind::LParen, .. }) => {},
            Some(tok) => {
                return Err(ParseError::ExpectedToken { expected: "(", span: tok.span });
            },
            None => {
                return Err(ParseError::UnexpectedEof { span: self.eof_span() });
            },
        }
        let expr = match self.parse_expr_inner() {
            Ok(e) => e,
            Err(e) => {
                return Err(e);
            },
        };
        match self.next_token() {
            Some(Token { kind: TokenKind::RParen, .. }) => Ok(expr),
            Some(tok) => Err(ParseError::ExpectedToken { expected: ")", span: tok.span }),
            None => Err(ParseError::UnexpectedEof { span: self.eof_span() }),
        }
    }

    fn parse_paren_group(&mut self) -> (r: Result<Expr, ParseError>)
        ensures
            final(self).tokens == old(self).tokens,
            (res_model(r), final(self).pos as int) == paren_group(tokens_view(old(self).tokens@), old(self).pos as int),
            old(self).pos <= final(self).pos,
        decreases old(self).tokens@.len() - old(self).pos, 4nat,
    {
        proof {
            use_type_invariant(&*self);
        }
        match self.try_parse_lambda_from_paren() {
            Ok(Some(lambda)) => {
                return Ok(lambda);
            },
            Ok(None) => {},
            Err(e) => {
                return Err(e);
            },
        }
        match self.try_parse_interval_from_paren() {
            Ok(Some(interval)) => {
                return Ok(interval);
            },
            Ok(None) => {},
            Err(e) => {
                return Err(e);
            },
        }
        let expr = match self.parse_expr_inner() {
            Ok(e) => e,
            Err(e) => {
                return Err(e);
            },
        };
        match self.next_token() {
            Some(Token { kind: TokenKind::RParen, .. }) => Ok(expr),
            Some(tok) => Err(ParseError::ExpectedToken { expected: ")", span: tok.span }),
            None => Err(ParseError::UnexpectedEof { span: self.eof_span() }),
        }
    }

    fn read_lambda_params(&mut self) -> (r: Option<Vec<String>>)
        ensures
            final(self).tokens == old(self).tokens,
            lambda_params(tokens_view(old(self).tokens@), old(self).pos as int) == match r {
                Some(v) => Some((strings_view(v@), final(self).pos as int)),
                None => None::<(Seq<Seq<char>>, int)>,
            },
            r is None ==> final(self).pos == old(self).pos,
            old(self).pos <= final(self).pos,
    {
        proof {
            use_type_invariant(&*self);
        }
        let mut params: Vec<String> = Vec::new();
        if let Some(Token { kind: TokenKind::RParen, .. }) = self.peek_token() {
            self.next_token();
            proof {
                assert(strings_view(params@) =~= Seq::<Seq<char>>::empty());
            }
            return Some(params);
        }
        let ghost toks = tokens_view(self.tokens@);
        let start = self.pos;
        proof {
            assert(strings_view(params@) =~= Seq::<Seq<char>>::empty());
        }
        loop
            invariant
                self.tokens == old(self).tokens,
                toks == tokens_view(self.tokens@),
                start == old(self).pos,
                start <= self.pos <= self.tokens@.len(),
                !kind_is(toks, start as int, TokenKindModel::RParen),
                lambda_params(toks, start as int) == lambda_param_list(toks, self.pos as int, strings_view(params@)),
            decreases self.tokens@.len() - self.pos,
        {
            let ident = match self.next_token() {
                Some(Token { kind: TokenKind::Ident(name), .. }) => name.clone(),
                _ => {
                    self.pos = start;
                    return None;
                },
            };
            let ghost before = params@;
            params.push(ident);
            proof {
                assert(strings_view(params@) =~= strings_view(before).push(ident@));
            }
            match self.peek_token() {
                Some(Token { kind: TokenKind::Comma, .. }) => {
                    self.next_token();
                },
                Some(Token { kind: TokenKind::RParen, .. }) => {
                    self.next_token();
                    return Some(params);
                },
                _ => {
                    self.pos = start;
                    return None;
                },
            }
        }
    }

    fn try_parse_lambda_from_paren(&mut self) -> (r: Result<Option<Expr>, ParseError>)
        ensures
            final(self).tokens == old(self).tokens,
            (opt_res_model(r), final(self).pos as int) == try_lambda(tokens_view(old(self).tokens@), old(self).pos as int),
            old(self).pos <= final(self).pos,
        decreases old(self).tokens@.len() - old(self).pos, 1nat,
    {
        proof {
            use_type_invariant(&*self);
        }
        let start_pos = self.pos;
        let params = match self.read_lambda_params() {
            Some(p) => p,
            None => {
                return Ok(None);
            },
        };
        if let Some(Token { kind: TokenKind::Arrow, .. }) = self.peek_token() {
            self.next_token();
            let body = match self.parse_expr_inner() {
                Ok(b) => b,
                Err(e) => {
                    return Err(e);
                },
            };
            return Ok(Some(Expr::Lambda { params, body: Box::new(body) }));
        }
        self.pos = start_pos;
        Ok(None)
    }

    fn try_parse_interval_from_paren(&mut self) -> (r: Result<Option<Expr>, ParseError>)
        ensures
            final(self).tokens == old(self).tokens,
            (opt_res_model(r), final(self).pos as int) == try_interval(tokens_view(old(self).tokens@), old(self).pos as int),
            old(self).pos <= final(self).pos,
        decreases old(self).tokens@.len() - old(self).pos, 3nat,
    {
        proof {
            use_type_invariant(&*self);
        }
        let start_pos = self.pos;
        let lower_expr = match self.parse_interval_endpoint_expr() {
            Ok(expr) => expr,
            Err(err) => {
                self.pos = start_pos;
                return Err(err);
            },
        };
        if let Some(Token { kind: TokenKind::Comma, .. }) = self.peek_token() {
        } else {
            self.pos = start_pos;
            return Ok(None);
        }
        self.next_token();
        match self.parse_interval_after_lower(BoundKind::Open, lower_expr) {
            Ok(expr) => Ok(Some(expr)),
            Err(err) => {
                self.pos = start_pos;
                Err(err)
            },
        }
    }

    fn parse_interval_endpoint_expr(&mut self) -> (r: Result<Expr, ParseError>)
        ensures
            final(self).tokens == old(self).tokens,
            (res_model(r), final(self).pos as int) == endpoint(tokens_view(old(self).tokens@), old(self).pos as int),
            old(self).pos <= final(self).pos,
            r is Ok ==> old(self).pos < final(self).pos,
        decreases old(self).tokens@.len() - old(self).pos, 1nat,
    {
        proof {
            use_type_invariant(&*self);
        }
        match self.peek_token() {
            Some(Token { kind: TokenKind::PlusInf, .. }) => {
                self.next_token();
                Ok(Expr::Infinity(InfinityKind::Positive))
            },
            Some(Token { kind: TokenKind::MinusInf, .. }) => {
                self.next_token();
                Ok(Expr::Infinity(InfinityKind::Negative))
            },
            _ => self.parse_precedence(0),
        }
    }

    fn parse_interval_after_lower(&mut self, lower_kind: BoundKind, lower_expr: Expr) -> (r: Result<Expr, ParseError>)
        ensures
            final(self).tokens == old(self).tokens,
            (res_model(r), final(self).pos as int) == after_lower(tokens_view(old(self).tokens@), old(self).pos as int, lower_kind, lower_expr@),
            old(self).pos <= final(self).pos,
        decreases old(self).tokens@.len() - old(self).pos, 2nat,
    {
        proof {
            use_type_invariant(&*self);
        }
        let upper_expr = match self.parse_interval_endpoint_expr() {
            Ok(e) => e,
            Err(e) => {
                return Err(e);
            },
        };
        let closing = match self.next_token() {
            Some(t) => t,
            None => {
                return Err(ParseError::UnexpectedEof { span: self.eof_span() });
            },
        };
        let upper_kind = match closing.kind {
            TokenKind::RBracket => BoundKind::Closed,
            TokenKind::RParen => BoundKind::Open,
            _ => {
                return Err(ParseError::ExpectedToken { expected: ") or ]", span: closing.span });
            },
        };
        Ok(Expr::Interval(IntervalExpr {
            lo: build_bound(lower_kind, lower_expr),
            hi: build_bound(upper_kind, upper_expr),
        }))
    }

    fn parse_interval_literal(&mut self, lower_kind: BoundKind) -> (r: Result<Expr, ParseError>)
        ensures
            final(self).tokens == old(self).tokens,
            (res_model(r), final(self).pos as int) == interval_literal(tokens_view(old(self).tokens@), old(self).pos as int, lower_kind),
            old(self).pos <= final(self).pos,
        decreases old(self).tokens@.len() - old(self).pos, 3nat,
    {
        proof {
            use_type_invariant(&*self);
        }
        let lower_expr = match self.parse_interval_endpoint_expr() {
            Ok(e) => e,
            Err(e) => {
                return Err(e);
            },
        };
        match self.next_token() {
            Some(Token { kind: TokenKind::Comma, .. }) => {},
            Some(tok) => {
                return Err(ParseError::ExpectedToken { expected: ",", span: tok.span });
            },
            None => {
                return Err(ParseError::UnexpectedEof { span: self.eof_span() });
            },
        }
        self.parse_interval_after_lower(lower_kind, lower_expr)
    }

    fn parse_set_literal(&mut self, elements: Vec<Expr>) -> (r: Result<Expr, ParseError>)
        ensures
            final(self).tokens == old(self).tokens,
            (res_model(r), final(self).pos as int) == set_items(tokens_view(old(self).tokens@), old(self).pos as int, exprs_model(elements@)),
            old(self).pos <= final(self).pos,
        decreases old(self).tokens@.len() - old(self).pos, 1nat,
    {
        proof {
            use_type_invariant(&*self);
        }
        let mut elements = elements;
        match self.peek_token() {
            Some(Token { kind: TokenKind::RBrace, .. }) => {
                self.next_token();
                return Ok(Expr::SetLiteral(elements));
            },
            Some(_) => {},
            None => {
                return Err(ParseError::UnexpectedEof { span: self.eof_span() });
            },
        }
        let expr = match self.parse_precedence(0) {
            Ok(e) => e,
            Err(e) => {
                return Err(e);
            },
        };
        proof {
            use_type_invariant(&*self);
            crate::ast::lemma_exprs_model_push(elements@, expr);
        }
        elements.push(expr);
        match self.peek_token() {
            Some(Token { kind: TokenKind::Comma, .. }) => {
                self.next_token();
                self.parse_set_literal(elements)
            },
            Some(Token { kind: TokenKind::RBrace, .. }) => {
                self.next_token();
                Ok(Expr::SetLiteral(elements))
            },
            Some(tok) => Err(ParseError::ExpectedToken { expected: "comma or '}'", span: tok.span }),
            None => Err(ParseError::UnexpectedEof { span: self.eof_span() }),
        }
    }

    fn parse_dotted_ident_string(&mut self) -> (r: Result<Vec<String>, ParseError>)
        ensures
            final(self).tokens == old(self).tokens,
            (parts_res_model(r), final(self).pos as int) == dotted_name(tokens_view(old(self).tokens@), old(self).pos as int),
            old(self).pos <= final(self).pos,
    {
        proof {
            use_type_invariant(&*self);
        }
        let ghost toks = tokens_view(self.tokens@);
        let first = match self.next_token() {
            Some(t) => t,
            None => {
                return Err(ParseError::UnexpectedEof { span: self.eof_span() });
            },
        };
        let mut parts: Vec<String> = Vec::new();
        match &first.kind {
            TokenKind::Ident(name) => {
                parts.push(name.clone());
            },
            _ => {
                return Err(ParseError::ExpectedToken { expected: "identifier", span: first.span });
            },
        }
        proof {
            assert(strings_view(parts@) =~= seq![first.kind@->Ident_0]);
        }
        loop
            invariant
                self.tokens == old(self).tokens,
                toks == tokens_view(self.tokens@),
                old(self).pos <= self.pos <= self.tokens@.len(),
                dotted_name(toks, old(self).pos as int) == dotted_rest(toks, self.pos as int, strings_view(parts@)),
            decreases self.tokens@.len() - self.pos,
        {
            if let Some(Token { kind: TokenKind::Dot, .. }) = self.peek_token() {
            } else {
                return Ok(parts);
            }
            self.next_token();
            match self.next_token() {
                Some(Token { kind: TokenKind::Ident(name), .. }) => {
                    let ghost before = parts@;
                    parts.push(name.clone());
                    proof {
                        assert(strings_view(parts@) =~= strings_view(before).push(name@));
                    }
                },
                Some(tok) => {
                    return Err(ParseError::ExpectedToken { expected: "identifier", span: tok.span });
                },
                None => {
                    return Err(ParseError::UnexpectedEof { span: self.eof_span() });
                },
            }
        }
    }

    fn parse_with_semiring_expr(&mut self) -> (r: Result<Expr, ParseError>)
        ensures
            final(self).tokens == old(self).tokens,
            (res_model(r), final(self).pos as int) == with_semiring(tokens_view(old(self).tokens@), old(self).pos as int),
            old(self).pos <= final(self).pos,
        decreases old(self).tokens@.len() - old(self).pos, 2nat,
    {
        proof {
            use_type_invariant(&*self);
        }
        let parts = match self.parse_dotted_ident_string() {
            Ok(p) => p,
            Err(e) => {
                return Err(e);
            },
        };
        match self.next_token() {
            Some(Token { kind: TokenKind::Colon, .. }) => {},
            Some(tok) => {
                return Err(ParseError::ExpectedToken { expected: ":", span: tok.span });
            },
            None => {
                return Err(ParseError::UnexpectedEof { span: self.eof_span() });
            },
        }
        let body = match self.parse_expr_inner() {
            Ok(b) => b,
            Err(e) => {
                return Err(e);
            },
        };
        Ok(Expr::WithSemiring { name: join_with_dots(&parts), body: Box::new(body) })
    }
}

} // verus!
