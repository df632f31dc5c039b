//! Pure expression language: tokenizer, Pratt parser and evaluator.
pub mod ast;
pub mod builtins;
pub mod error;
pub mod eval;
pub mod evaluation_laws;
pub mod parser;
pub mod properties;
pub mod quantifier;
pub mod runtime;
pub mod semantics;
pub mod syntax_laws;
pub mod text;
pub mod token;
pub mod value;

pub use crate::ast::{BOp, BoundExpr, Call, Expr, IdentPath, InfinityKind, IntervalExpr, SetOp, UOp};
pub use crate::builtins::apply;
pub use crate::error::{EvalError, LexError, ParseError, TypeTag};
pub use crate::eval::eval;
pub use crate::parser::Parser;
pub use crate::quantifier::{eval_exists, eval_forall};
pub use crate::runtime::{Comparison, Env};
pub use crate::token::{tokenize, tokenize_checked, Span, Token, TokenKind};
pub use crate::value::{
    contains_value, value_eq, BoundValue, EnumInfo, IntervalValue, LambdaValue, LatticeOps, OrderInfo, OrderKind,
    SemiringOps, SetValue, Value,
};
