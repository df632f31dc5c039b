//! Laws of the concrete syntax: which characters make which token, and which operator each
//! infix token stands for and how tightly it binds.
use vstd::prelude::*;

use crate::ast::{BOp, ExprModel, SetOp};
use crate::error::{LexError, ParseError};
use crate::parser::{parse_prec, precedence};
use crate::properties::binds_tighter;
use crate::token::{scan_token, TokenKindModel, TokenModel};

verus! {

// ---------- Infix operators ----------

/// The expression that `l k r` denotes for each infix token `k`.
pub open spec fn infix_node(k: TokenKindModel, l: ExprModel, r: ExprModel) -> ExprModel {
    let bin = |op: BOp| ExprModel::Binary { left: Box::new(l), op, right: Box::new(r) };
    let set = |op: SetOp| ExprModel::SetOp { op, lhs: Box::new(l), rhs: Box::new(r) };
    match k {
        TokenKindModel::Star => bin(BOp::Mul),
        TokenKindModel::Slash => bin(BOp::Div),
        TokenKindModel::Percent => bin(BOp::Rem),
        TokenKindModel::Plus => bin(BOp::Add),
        TokenKindModel::Minus => bin(BOp::Sub),
        TokenKindModel::Lt => bin(BOp::Lt),
        TokenKindModel::Le => bin(BOp::Le),
        TokenKindModel::Gt => bin(BOp::Gt),
        TokenKindModel::Ge => bin(BOp::Ge),
        TokenKindModel::In => ExprModel::In { elem: Box::new(l), set: Box::new(r) },
        TokenKindModel::EqEq => bin(BOp::Eq),
        TokenKindModel::BangEq => bin(BOp::Ne),
        TokenKindModel::Union => set(SetOp::Union),
        TokenKindModel::Intersect => set(SetOp::Intersect),
        TokenKindModel::Diff => set(SetOp::Diff),
        TokenKindModel::AndAnd => bin(BOp::And),
        _ => bin(BOp::Or),
    }
}

/// How tightly each infix token binds, from `||` (loosest) to `*`, `/`, `%` (tightest);
/// `None` for a token that is not an infix operator.
pub open spec fn infix_level(k: TokenKindModel) -> Option<int> {
    match k {
        TokenKindModel::Star | TokenKindModel::Slash | TokenKindModel::Percent => Some(6),
        TokenKindModel::Plus | TokenKindModel::Minus => Some(5),
        TokenKindModel::Lt | TokenKindModel::Le | TokenKindModel::Gt | TokenKindModel::Ge | TokenKindModel::In => Some(4),
        TokenKindModel::EqEq | TokenKindModel::BangEq => Some(3),
        TokenKindModel::Union | TokenKindModel::Intersect | TokenKindModel::Diff => Some(2),
        TokenKindModel::AndAnd => Some(1),
        TokenKindModel::OrOr => Some(0),
        _ => None,
    }
}

/// The infix operators are `* / % + - < <= > >= in == != union intersect diff && ||`, and of
/// two of them one binds more tightly than the other exactly when its level is higher.
pub proof fn law_precedence_levels(k1: TokenKindModel, k2: TokenKindModel)
    ensures
        (precedence(k1) is Some) == (infix_level(k1) is Some),
        infix_level(k1) is Some && infix_level(k2) is Some ==> (binds_tighter(k2, k1) <==> infix_level(k2)->Some_0 > infix_level(k1)->Some_0),
{
}

/// `a k b` on integer literals `a` and `b` parses as the operation that infix token `k`
/// stands for, applied to `a` and `b` in that order.
pub proof fn law_infix_operations(toks: Seq<TokenModel>)
    requires
        toks.len() == 4,
        toks[0].kind is Int,
        toks[2].kind is Int,
        infix_level(toks[1].kind) is Some,
        toks[3].kind is Eof,
    ensures
        parse_prec(toks, 0, 0) == (
            Ok::<ExprModel, ParseError>(infix_node(
                toks[1].kind,
                ExprModel::Int(toks[0].kind->Int_0 as i64),
                ExprModel::Int(toks[2].kind->Int_0 as i64),
            )),
            3int,
        ),
{
    let a = ExprModel::Int(toks[0].kind->Int_0 as i64);
    let b = ExprModel::Int(toks[2].kind->Int_0 as i64);
    let (l1, r1, op) = precedence(toks[1].kind).unwrap();
    assert(crate::parser::prefix(toks, 1, toks[0]) == (Ok::<ExprModel, ParseError>(a), 1int));
    assert(crate::parser::prefix(toks, 3, toks[2]) == (Ok::<ExprModel, ParseError>(b), 3int));
    assert(crate::parser::stops_infix(toks[3].kind));
    assert forall|x: ExprModel, m: int| #[trigger] crate::parser::infix_loop(toks, 3, x, m) == (Ok::<ExprModel, ParseError>(x), 3int) by {
        assert(crate::parser::pipe_loop(toks, 3, x) == (Ok::<ExprModel, ParseError>(x), 3int));
    }
    assert(crate::parser::infix_loop(toks, 3, b, r1 as int) == (Ok::<ExprModel, ParseError>(b), 3int));
    assert(parse_prec(toks, 2, r1 as int) == (Ok::<ExprModel, ParseError>(b), 3int));
    assert(!crate::parser::stops_infix(toks[1].kind));
    assert(crate::parser::binds_at_least(precedence(toks[1].kind), 0));
    assert(crate::parser::infix_loop(toks, 3, crate::parser::combine(op, a, b), 0)
        == (Ok::<ExprModel, ParseError>(crate::parser::combine(op, a, b)), 3int));
    assert(crate::parser::combine(op, a, b) == infix_node(toks[1].kind, a, b));
    assert(crate::parser::infix_loop(toks, 1, a, 0) == (Ok::<ExprModel, ParseError>(infix_node(toks[1].kind, a, b)), 3int));
}

// ---------- Tokens ----------

/// Whether `src[k]` is `c`.
pub open spec fn char_is(src: Seq<char>, k: int, c: char) -> bool {
    0 <= k < src.len() && src[k] == c
}

/// The operator and punctuation tokens and their spellings: a two-character spelling is
/// taken whenever its second character follows.
pub proof fn law_operator_spellings(src: Seq<char>, i: int)
    requires
        0 <= i < src.len(),
    ensures
        char_is(src, i, '<') ==> scan_token(src, i) == if char_is(src, i + 1, '=') {
            Ok::<(TokenKindModel, int), LexError>((TokenKindModel::Le, i + 2))
        } else {
            Ok((TokenKindModel::Lt, i + 1))
        },
        char_is(src, i, '>') ==> scan_token(src, i) == if char_is(src, i + 1, '=') {
            Ok::<(TokenKindModel, int), LexError>((TokenKindModel::Ge, i + 2))
        } else {
            Ok((TokenKindModel::Gt, i + 1))
        },
        char_is(src, i, '!') ==> scan_token(src, i) == if char_is(src, i + 1, '=') {
            Ok::<(TokenKindModel, int), LexError>((TokenKindModel::BangEq, i + 2))
        } else {
            Ok((TokenKindModel::Bang, i + 1))
        },
        char_is(src, i, ':') ==> scan_token(src, i) == if char_is(src, i + 1, ':') {
            Ok::<(TokenKindModel, int), LexError>((TokenKindModel::ColonColon, i + 2))
        } else {
            Ok((TokenKindModel::Colon, i + 1))
        },
        char_is(src, i, '=') && char_is(src, i + 1, '=') ==> scan_token(src, i) == Ok::<(TokenKindModel, int), LexError>((TokenKindModel::EqEq, i + 2)),
        char_is(src, i, '&') && char_is(src, i + 1, '&') ==> scan_token(src, i) == Ok::<(TokenKindModel, int), LexError>((TokenKindModel::AndAnd, i + 2)),
        char_is(src, i, '|') && char_is(src, i + 1, '|') ==> scan_token(src, i) == Ok::<(TokenKindModel, int), LexError>((TokenKindModel::OrOr, i + 2)),
        char_is(src, i, '|') && char_is(src, i + 1, '>') ==> scan_token(src, i) == Ok::<(TokenKindModel, int), LexError>((TokenKindModel::Pipe, i + 2)),
        char_is(src, i, '-') && char_is(src, i + 1, '>') ==> scan_token(src, i) == Ok::<(TokenKindModel, int), LexError>((TokenKindModel::Arrow, i + 2)),
        char_is(src, i, '*') ==> scan_token(src, i) == Ok::<(TokenKindModel, int), LexError>((TokenKindModel::Star, i + 1)),
        char_is(src, i, '/') ==> scan_token(src, i) == Ok::<(TokenKindModel, int), LexError>((TokenKindModel::Slash, i + 1)),
        char_is(src, i, '%') ==> scan_token(src, i) == Ok::<(TokenKindModel, int), LexError>((TokenKindModel::Percent, i + 1)),
        char_is(src, i, '(') ==> scan_token(src, i) == Ok::<(TokenKindModel, int), LexError>((TokenKindModel::LParen, i + 1)),
        char_is(src, i, ')') ==> scan_token(src, i) == Ok::<(TokenKindModel, int), LexError>((TokenKindModel::RParen, i + 1)),
        char_is(src, i, '{') ==> scan_token(src, i) == Ok::<(TokenKindModel, int), LexError>((TokenKindModel::LBrace, i + 1)),
        char_is(src, i, '}') ==> scan_token(src, i) == Ok::<(TokenKindModel, int), LexError>((TokenKindModel::RBrace, i + 1)),
        char_is(src, i, '[') ==> scan_token(src, i) == Ok::<(TokenKindModel, int), LexError>((TokenKindModel::LBracket, i + 1)),
        char_is(src, i, ']') ==> scan_token(src, i) == Ok::<(TokenKindModel, int), LexError>((TokenKindModel::RBracket, i + 1)),
        char_is(src, i, ',') ==> scan_token(src, i) == Ok::<(TokenKindModel, int), LexError>((TokenKindModel::Comma, i + 1)),
        char_is(src, i, '.') ==> scan_token(src, i) == Ok::<(TokenKindModel, int), LexError>((TokenKindModel::Dot, i + 1)),
        char_is(src, i, '+') && !char_is(src, i + 1, 'i') ==> scan_token(src, i) == Ok::<(TokenKindModel, int), LexError>((TokenKindModel::Plus, i + 1)),
        char_is(src, i, '-') && !char_is(src, i + 1, 'i') && !char_is(src, i + 1, '>') ==> scan_token(src, i) == Ok::<(TokenKindModel, int), LexError>((TokenKindModel::Minus, i + 1)),
{
}

/// The keywords: `true`, `false`, `card`, `in`, `union`, `intersect`, `diff` and
/// `with_semiring`, each a whole word; any other word is a name.
pub proof fn law_keywords(w: Seq<char>)
    ensures
        crate::token::word_kind(w) == if w == "true"@ {
            TokenKindModel::Bool(true)
        } else if w == "false"@ {
            TokenKindModel::Bool(false)
        } else if w == "card"@ {
            TokenKindModel::Card
        } else if w == "in"@ {
            TokenKindModel::In
        } else if w == "union"@ {
            TokenKindModel::Union
        } else if w == "intersect"@ {
            TokenKindModel::Intersect
        } else if w == "diff"@ {
            TokenKindModel::Diff
        } else if w == "with_semiring"@ {
            TokenKindModel::WithSemiring
        } else {
            TokenKindModel::Ident(w)
        },
{
    reveal_strlit("true");
    reveal_strlit("false");
    reveal_strlit("card");
    reveal_strlit("in");
    reveal_strlit("union");
    reveal_strlit("intersect");
    reveal_strlit("diff");
    reveal_strlit("with_semiring");
    assert("true"@ =~= seq!['t', 'r', 'u', 'e']);
    assert("false"@ =~= seq!['f', 'a', 'l', 's', 'e']);
    assert("card"@ =~= seq!['c', 'a', 'r', 'd']);
    assert("in"@ =~= seq!['i', 'n']);
    assert("union"@ =~= seq!['u', 'n', 'i', 'o', 'n']);
    assert("intersect"@ =~= seq!['i', 'n', 't', 'e', 'r', 's', 'e', 'c', 't']);
    assert("diff"@ =~= seq!['d', 'i', 'f', 'f']);
    assert("with_semiring"@ =~= seq!['w', 'i', 't', 'h', '_', 's', 'e', 'm', 'i', 'r', 'i', 'n', 'g']);
}

} // verus!
