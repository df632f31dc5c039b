//! Errors of the tokenizer, the parser and the evaluator, and value type tags.
use vstd::prelude::*;

use crate::token::Span;

verus! {

#[derive(Debug, Clone, PartialEq)]
pub enum LexError {
    UnterminatedString { span: Span },
    UnknownChar { ch: char, span: Span },
}

#[derive(Debug, Clone, PartialEq)]
pub enum ParseError {
    ExpectedOperand { span: Span },
    ExpectedToken { expected: &'static str, span: Span },
    UnexpectedToken { span: Span },
    UnexpectedEof { span: Span },
}

#[derive(Debug, PartialEq, Eq)]
pub enum TypeTag {
    Int,
    Bool,
    Str,
    Enum(String),
    SetOf(Box<TypeTag>),
    Interval(Box<TypeTag>),
    Lambda,
    Unknown,
}

/// The mathematical form of a type tag.
pub enum TypeTagModel {
    Int,
    Bool,
    Str,
    Enum(Seq<char>),
    SetOf(Box<TypeTagModel>),
    Interval(Box<TypeTagModel>),
    Lambda,
    Unknown,
}

pub open spec fn tag_model(t: TypeTag) -> TypeTagModel
    decreases t,
{
    match t {
        TypeTag::Int => TypeTagModel::Int,
        TypeTag::Bool => TypeTagModel::Bool,
        TypeTag::Str => TypeTagModel::Str,
        TypeTag::Enum(s) => TypeTagModel::Enum(s@),
        TypeTag::SetOf(inner) => TypeTagModel::SetOf(Box::new(tag_model(*inner))),
        TypeTag::Interval(inner) => TypeTagModel::Interval(Box::new(tag_model(*inner))),
        TypeTag::Lambda => TypeTagModel::Lambda,
        TypeTag::Unknown => TypeTagModel::Unknown,
    }
}

impl View for TypeTag {
    type V = TypeTagModel;

    open spec fn view(&self) -> TypeTagModel {
        tag_model(*self)
    }
}

impl TypeTag {
    pub fn set(inner: TypeTag) -> (r: Self)
        ensures
            r == TypeTag::SetOf(Box::new(inner)),
    {
        TypeTag::SetOf(Box::new(inner))
    }

    pub fn interval(inner: TypeTag) -> (r: Self)
        ensures
            r == TypeTag::Interval(Box::new(inner)),
    {
        TypeTag::Interval(Box::new(inner))
    }
}

/// Whether two type tags are equal.
pub fn tag_eq(a: &TypeTag, b: &TypeTag) -> (r: bool)
    ensures
        r == (a@ == b@),
    decreases a,
{
    match (a, b) {
        (TypeTag::Int, TypeTag::Int) => true,
        (TypeTag::Bool, TypeTag::Bool) => true,
        (TypeTag::Str, TypeTag::Str) => true,
        (TypeTag::Enum(x), TypeTag::Enum(y)) => *x == *y,
        (TypeTag::SetOf(x), TypeTag::SetOf(y)) => tag_eq(x, y),
        (TypeTag::Interval(x), TypeTag::Interval(y)) => tag_eq(x, y),
        (TypeTag::Lambda, TypeTag::Lambda) => true,
        (TypeTag::Unknown, TypeTag::Unknown) => true,
        _ => false,
    }
}

impl Clone for TypeTag {
    fn clone(&self) -> (r: Self)
        ensures
            r == *self,
    {
        copy_tag(self)
    }
}

/// Whether the tag is `Unknown`.
pub fn tag_is_unknown(a: &TypeTag) -> (r: bool)
    ensures
        r == (a@ == TypeTagModel::Unknown),
{
    match a {
        TypeTag::Unknown => true,
        _ => false,
    }
}

/// A copy of a type tag.
pub fn copy_tag(t: &TypeTag) -> (r: TypeTag)
    ensures
        r == *t,
    decreases t,
{
    match t {
        TypeTag::Int => TypeTag::Int,
        TypeTag::Bool => TypeTag::Bool,
        TypeTag::Str => TypeTag::Str,
        TypeTag::Enum(s) => TypeTag::Enum(s.clone()),
        TypeTag::SetOf(inner) => TypeTag::SetOf(Box::new(copy_tag(inner))),
        TypeTag::Interval(inner) => TypeTag::Interval(Box::new(copy_tag(inner))),
        TypeTag::Lambda => TypeTag::Lambda,
        TypeTag::Unknown => TypeTag::Unknown,
    }
}

#[derive(Debug, Clone, PartialEq)]
pub enum EvalError {
    TypeMismatch { op: &'static str, left: TypeTag, right: TypeTag, span: Span },
    UnknownIdent { name: String, span: Span },
    UnknownField { base: String, field: String, span: Span },
    DivideByZero { span: Span },
    EnumUnknownType { type_id: String, span: Span },
    EnumUnknownVariant { type_id: String, variant: String, span: Span },
    EqMismatch { left_ty: TypeTag, right_ty: TypeTag, span: Span },
    OrderMissing { ty: TypeTag, span: Span },
    OrderAmbiguous { ty: TypeTag, span: Span },
    OrderScopeUnknown { order_id: String, span: Span },
    InOnNonSet { rhs_ty: TypeTag, span: Span },
    SetElemMismatch { expected: TypeTag, found: TypeTag, span: Span },
    SetTypeMismatch { lhs_ty: TypeTag, rhs_ty: TypeTag, span: Span },
    IntervalTypeMismatch { lo_ty: TypeTag, hi_ty: TypeTag, x_ty: TypeTag, span: Span },
    IntervalInvalidBounds { span: Span },
    IntervalInfiniteUnsupported { ty: TypeTag, span: Span },
    CallUnknown { func: String, span: Span },
    LambdaArity { expected: usize, found: usize, span: Span },
    LambdaCaptureUnknown { name: String, span: Span },
    LambdaType { param: String, expected: TypeTag, found: TypeTag, span: Span },
    SemiringMissing { span: Span },
    LatticeRequired { ty: TypeTag, span: Span },
    CollectionUnknown { name: String, span: Span },
    QuantifierTypeMismatch { quantifier: &'static str, found: TypeTag, span: Span },
    Other { message: String, span: Span },
}

/// The mathematical form of an evaluation error.
pub enum EvalErrorModel {
    TypeMismatch { op: &'static str, left: TypeTagModel, right: TypeTagModel, span: Span },
    UnknownIdent { name: Seq<char>, span: Span },
    UnknownField { base: Seq<char>, field: Seq<char>, span: Span },
    DivideByZero { span: Span },
    EnumUnknownType { type_id: Seq<char>, span: Span },
    EnumUnknownVariant { type_id: Seq<char>, variant: Seq<char>, span: Span },
    EqMismatch { left_ty: TypeTagModel, right_ty: TypeTagModel, span: Span },
    OrderMissing { ty: TypeTagModel, span: Span },
    OrderAmbiguous { ty: TypeTagModel, span: Span },
    OrderScopeUnknown { order_id: Seq<char>, span: Span },
    InOnNonSet { rhs_ty: TypeTagModel, span: Span },
    SetElemMismatch { expected: TypeTagModel, found: TypeTagModel, span: Span },
    SetTypeMismatch { lhs_ty: TypeTagModel, rhs_ty: TypeTagModel, span: Span },
    IntervalTypeMismatch {
        lo_ty: TypeTagModel,
        hi_ty: TypeTagModel,
        x_ty: TypeTagModel,
        span: Span,
    },
    IntervalInvalidBounds { span: Span },
    IntervalInfiniteUnsupported { ty: TypeTagModel, span: Span },
    CallUnknown { func: Seq<char>, span: Span },
    LambdaArity { expected: nat, found: nat, span: Span },
    LambdaCaptureUnknown { name: Seq<char>, span: Span },
    LambdaType { param: Seq<char>, expected: TypeTagModel, found: TypeTagModel, span: Span },
    SemiringMissing { span: Span },
    LatticeRequired { ty: TypeTagModel, span: Span },
    CollectionUnknown { name: Seq<char>, span: Span },
    QuantifierTypeMismatch { quantifier: &'static str, found: TypeTagModel, span: Span },
    Other { message: Seq<char>, span: Span },
}

impl View for EvalError {
    type V = EvalErrorModel;

    open spec fn view(&self) -> EvalErrorModel {
        match self {
            EvalError::TypeMismatch { op, left, right, span } => EvalErrorModel::TypeMismatch {
                op: *op,
                left: left@,
                right: right@,
                span: *span,
            },
            EvalError::UnknownIdent { name, span } => EvalErrorModel::UnknownIdent {
                name: name@,
                span: *span,
            },
            EvalError::UnknownField { base, field, span } => EvalErrorModel::UnknownField {
                base: base@,
                field: field@,
                span: *span,
            },
            EvalError::DivideByZero { span } => EvalErrorModel::DivideByZero { span: *span },
            EvalError::EnumUnknownType { type_id, span } => EvalErrorModel::EnumUnknownType {
                type_id: type_id@,
                span: *span,
            },
            EvalError::EnumUnknownVariant { type_id, variant, span } =>
                EvalErrorModel::EnumUnknownVariant {
                    type_id: type_id@,
                    variant: variant@,
                    span: *span,
                },
            EvalError::EqMismatch { left_ty, right_ty, span } => EvalErrorModel::EqMismatch {
                left_ty: left_ty@,
                right_ty: right_ty@,
                span: *span,
            },
            EvalError::OrderMissing { ty, span } => EvalErrorModel::OrderMissing {
                ty: ty@,
                span: *span,
            },
            EvalError::OrderAmbiguous { ty, span } => EvalErrorModel::OrderAmbiguous {
                ty: ty@,
                span: *span,
            },
            EvalError::OrderScopeUnknown { order_id, span } => EvalErrorModel::OrderScopeUnknown {
                order_id: order_id@,
                span: *span,
            },
            EvalError::InOnNonSet { rhs_ty, span } => EvalErrorModel::InOnNonSet {
                rhs_ty: rhs_ty@,
                span: *span,
            },
            EvalError::SetElemMismatch { expected, found, span } =>
                EvalErrorModel::SetElemMismatch {
                    expected: expected@,
                    found: found@,
                    span: *span,
                },
            EvalError::SetTypeMismatch { lhs_ty, rhs_ty, span } =>
                EvalErrorModel::SetTypeMismatch {
                    lhs_ty: lhs_ty@,
                    rhs_ty: rhs_ty@,
                    span: *span,
                },
            EvalError::IntervalTypeMismatch { lo_ty, hi_ty, x_ty, span } =>
                EvalErrorModel::IntervalTypeMismatch {
                    lo_ty: lo_ty@,
                    hi_ty: hi_ty@,
                    x_ty: x_ty@,
                    span: *span,
                },
            EvalError::IntervalInvalidBounds { span } => EvalErrorModel::IntervalInvalidBounds {
                span: *span,
            },
            EvalError::IntervalInfiniteUnsupported { ty, span } =>
                EvalErrorModel::IntervalInfiniteUnsupported { ty: ty@, span: *span },
            EvalError::CallUnknown { func, span } => EvalErrorModel::CallUnknown {
                func: func@,
                span: *span,
            },
            EvalError::LambdaArity { expected, found, span } => EvalErrorModel::LambdaArity {
                expected: *expected as nat,
                found: *found as nat,
                span: *span,
            },
            EvalError::LambdaCaptureUnknown { name, span } =>
                EvalErrorModel::LambdaCaptureUnknown { name: name@, span: *span },
            EvalError::LambdaType { param, expected, found, span } => EvalErrorModel::LambdaType {
                param: param@,
                expected: expected@,
                found: found@,
                span: *span,
            },
            EvalError::SemiringMissing { span } => EvalErrorModel::SemiringMissing { span: *span },
            EvalError::LatticeRequired { ty, span } => EvalErrorModel::LatticeRequired {
                ty: ty@,
                span: *span,
            },
            EvalError::CollectionUnknown { name, span } => EvalErrorModel::CollectionUnknown {
                name: name@,
                span: *span,
            },
            EvalError::QuantifierTypeMismatch { quantifier, found, span } =>
                EvalErrorModel::QuantifierTypeMismatch {
                    quantifier: *quantifier,
                    found: found@,
                    span: *span,
                },
            EvalError::Other { message, span } => EvalErrorModel::Other {
                message: message@,
                span: *span,
            },
        }
    }
}

} // verus!
