//! What evaluation computes, as functions on models.
//!
//! The environment is consulted through a sequence of replies: each question that evaluation
//! asks of it takes the next reply, which must answer that question (a reply to another
//! question leaves no replies to go on with). A statement that holds for every sequence of
//! replies holds whatever the environment answers.
use vstd::prelude::*;

use crate::ast::{bsize, esize, esizes, lemma_esize_pos, BOp, BoundExprModel, ExprModel, SetOp, UOp};
use crate::error::{EvalErrorModel, TypeTag, TypeTagModel};
use crate::runtime::{
    later, read_compare, read_enum_info, read_lattice, read_op, read_order,
    read_semiring, read_value, Comparison, EnumInfoModel, EnvQuery, EnvReply, LatticeModel, SemiringModel,
};
use crate::text::{push_str, string_from_str};
use crate::value::{contains_model, no_span, tag_of, BoundValueModel, ValueModel};

verus! {

/// The budget of nested lambda calls that a top-level evaluation starts with: the largest
/// `u64`, so that no nesting depth a machine can reach is refused.
pub const MAX_CALL_DEPTH: u64 = 18446744073709551615;

/// Evaluation context: names bound by enclosing lambda calls or quantifiers (later bindings
/// hide earlier ones), and the semiring chosen by an enclosing `with_semiring`.
pub struct Ctx {
    pub scope: Seq<(Seq<char>, ValueModel)>,
    pub semiring: Option<SemiringModel>,
}

pub open spec fn empty_ctx() -> Ctx {
    Ctx { scope: Seq::empty(), semiring: None }
}

/// An outcome and the replies not yet used.
pub type Ev<T> = (Result<T, EvalErrorModel>, Seq<EnvReply>);

/// The text that `{:?}` gives for a string: quoted, with std's escapes.
pub uninterp spec fn str_debug(s: Seq<char>) -> Seq<char>;

/// Wraps std's `format!("{:?}", ..)` on a string slice: the quoted and escaped text, which
/// depends on the string alone and is named `str_debug`.
#[verifier::external_body]
pub(crate) fn str_debug_text(s: &str) -> (r: String)
    ensures
        r@ == str_debug(s@),
{
    format!("{:?}", s)
}

/// The debug text of a type tag, as a derived `Debug` writes the tags `Int`, `Bool`, `Str`,
/// `Enum(name)`, `Set(tag)`, `Interval(tag)`, `Lambda` and `Unknown`.
pub open spec fn type_tag_debug(t: TypeTagModel) -> Seq<char>
    decreases t,
{
    match t {
        TypeTagModel::Int => "Int"@,
        TypeTagModel::Bool => "Bool"@,
        TypeTagModel::Str => "Str"@,
        TypeTagModel::Enum(name) => "Enum("@ + str_debug(name) + ")"@,
        TypeTagModel::SetOf(inner) => "Set("@ + type_tag_debug(*inner) + ")"@,
        TypeTagModel::Interval(inner) => "Interval("@ + type_tag_debug(*inner) + ")"@,
        TypeTagModel::Lambda => "Lambda"@,
        TypeTagModel::Unknown => "Unknown"@,
    }
}

/// The debug text of a type tag.
pub(crate) fn debug_text(t: &TypeTag) -> (s: String)
    ensures
        s@ == type_tag_debug(t@),
    decreases t,
{
    match t {
        TypeTag::Int => string_from_str("Int"),
        TypeTag::Bool => string_from_str("Bool"),
        TypeTag::Str => string_from_str("Str"),
        TypeTag::Enum(name) => {
            let mut s = string_from_str("Enum(");
            let quoted = str_debug_text(name.as_str());
            push_str(&mut s, quoted.as_str());
            push_str(&mut s, ")");
            s
        },
        TypeTag::SetOf(inner) => {
            let mut s = string_from_str("Set(");
            let text = debug_text(&**inner);
            push_str(&mut s, text.as_str());
            push_str(&mut s, ")");
            s
        },
        TypeTag::Interval(inner) => {
            let mut s = string_from_str("Interval(");
            let text = debug_text(&**inner);
            push_str(&mut s, text.as_str());
            push_str(&mut s, ")");
            s
        },
        TypeTag::Lambda => string_from_str("Lambda"),
        TypeTag::Unknown => string_from_str("Unknown"),
    }
}

pub open spec fn overflow_error() -> EvalErrorModel {
    EvalErrorModel::Other { message: "integer overflow"@, span: no_span() }
}

pub open spec fn depth_error() -> EvalErrorModel {
    EvalErrorModel::Other { message: "lambda calls nested too deeply"@, span: no_span() }
}

// ---------- Names ----------

pub open spec fn lookup_local(scope: Seq<(Seq<char>, ValueModel)>, name: Seq<char>) -> Option<ValueModel>
    decreases scope.len(),
{
    if scope.len() == 0 {
        None
    } else if scope.last().0 == name {
        Some(scope.last().1)
    } else {
        lookup_local(scope.drop_last(), name)
    }
}

/// A name's value: from the bindings when bound there, otherwise from the environment.
pub open spec fn lookup_name(scope: Seq<(Seq<char>, ValueModel)>, name: Seq<char>, t: Seq<EnvReply>) -> (Option<ValueModel>, Seq<EnvReply>) {
    match lookup_local(scope, name) {
        Some(v) => (Some(v), t),
        None => (read_value(EnvQuery::Ident(name), t), later(EnvQuery::Ident(name), t)),
    }
}

pub open spec fn follow_fields(cur: ValueModel, path: Seq<Seq<char>>, i: int, t: Seq<EnvReply>) -> Ev<ValueModel>
    decreases path.len() - i,
{
    if i < 0 || i >= path.len() {
        (Ok(cur), t)
    } else {
        match read_value(EnvQuery::Field(cur, path[i]), t) {
            None => (
                Err(EvalErrorModel::UnknownField { base: type_tag_debug(tag_of(cur)), field: path[i], span: no_span() }),
                later(EnvQuery::Field(cur, path[i]), t),
            ),
            Some(v) => follow_fields(v, path, i + 1, later(EnvQuery::Field(cur, path[i]), t)),
        }
    }
}

/// A dotted path: its first name, then one field per later part.
pub open spec fn resolve_ident_m(path: Seq<Seq<char>>, scope: Seq<(Seq<char>, ValueModel)>, t: Seq<EnvReply>) -> Ev<ValueModel> {
    if path.len() == 0 {
        (Err(EvalErrorModel::Other { message: "empty identifier path"@, span: no_span() }), t)
    } else {
        let (v, t1) = lookup_name(scope, path[0], t);
        match v {
            None => (Err(EvalErrorModel::UnknownIdent { name: path[0], span: no_span() }), t1),
            Some(v0) => follow_fields(v0, path, 1, t1),
        }
    }
}

pub open spec fn variant_known(info: EnumInfoModel, variant: Seq<char>) -> bool {
    ||| info.variants.contains(variant)
    ||| exists|k: int|
        0 <= k < info.aliases.len() && #[trigger] info.aliases[k].0 == variant && info.variants.contains(
            info.aliases[k].1,
        )
}

pub open spec fn enum_variant_m(ty: Seq<char>, variant: Seq<char>, t: Seq<EnvReply>) -> Ev<ValueModel> {
    match read_enum_info(EnvQuery::EnumInfo(ty), t) {
        None => (Err(EvalErrorModel::EnumUnknownType { type_id: ty, span: no_span() }), later(EnvQuery::EnumInfo(ty), t)),
        Some(info) => (
            if variant_known(info, variant) {
                Ok(ValueModel::Enum { type_id: info.type_id, variant })
            } else {
                Err(EvalErrorModel::EnumUnknownVariant { type_id: ty, variant, span: no_span() })
            },
            later(EnvQuery::EnumInfo(ty), t),
        ),
    }
}

// ---------- Operators ----------

pub open spec fn unary_result(op: UOp, v: ValueModel) -> Result<ValueModel, EvalErrorModel> {
    match op {
        UOp::Not => match v {
            ValueModel::Bool(b) => Ok(ValueModel::Bool(!b)),
            _ => Err(EvalErrorModel::TypeMismatch { op: "!", left: tag_of(v), right: TypeTagModel::Bool, span: no_span() }),
        },
        UOp::Neg => match v {
            ValueModel::Int(i) => if i == i64::MIN {
                Err(overflow_error())
            } else {
                Ok(ValueModel::Int((-i) as i64))
            },
            _ => Err(EvalErrorModel::TypeMismatch { op: "-", left: tag_of(v), right: TypeTagModel::Int, span: no_span() }),
        },
    }
}

pub open spec fn int_result(x: int) -> Result<ValueModel, EvalErrorModel> {
    if i64::MIN <= x <= i64::MAX {
        Ok(ValueModel::Int(x as i64))
    } else {
        Err(overflow_error())
    }
}

/// Integer division rounding toward zero.
pub open spec fn div_toward_zero(a: int, b: int) -> int {
    if a >= 0 && b > 0 {
        a / b
    } else if a < 0 && b > 0 {
        -((-a) / b)
    } else if a >= 0 && b < 0 {
        -(a / (-b))
    } else {
        (-a) / (-b)
    }
}

/// The remainder that goes with `div_toward_zero`: it has the sign of `a`.
pub open spec fn rem_toward_zero(a: int, b: int) -> int {
    a - b * div_toward_zero(a, b)
}

pub open spec fn op_name(op: BOp) -> &'static str {
    match op {
        BOp::Add => "+",
        BOp::Sub => "-",
        BOp::Mul => "*",
        BOp::Div => "/",
        BOp::Rem => "%",
        BOp::And => "&&",
        BOp::Or => "||",
        _ => "cmp",
    }
}

/// The operators that need no order: arithmetic, equality and the boolean connectives.
pub open spec fn binary_plain(op: BOp, l: ValueModel, r: ValueModel) -> Result<ValueModel, EvalErrorModel> {
    let mismatch = Err(EvalErrorModel::TypeMismatch { op: op_name(op), left: tag_of(l), right: tag_of(r), span: no_span() });
    match op {
        BOp::Add => match (l, r) {
            (ValueModel::Int(a), ValueModel::Int(b)) => int_result(a + b),
            _ => mismatch,
        },
        BOp::Sub => match (l, r) {
            (ValueModel::Int(a), ValueModel::Int(b)) => int_result(a - b),
            _ => mismatch,
        },
        BOp::Mul => match (l, r) {
            (ValueModel::Int(a), ValueModel::Int(b)) => int_result(a * b),
            _ => mismatch,
        },
        BOp::Div => match (l, r) {
            (ValueModel::Int(a), ValueModel::Int(b)) => if b == 0 {
                Err(EvalErrorModel::DivideByZero { span: no_span() })
            } else {
                int_result(div_toward_zero(a as int, b as int))
            },
            _ => mismatch,
        },
        BOp::Rem => match (l, r) {
            (ValueModel::Int(a), ValueModel::Int(b)) => if b == 0 {
                Err(EvalErrorModel::DivideByZero { span: no_span() })
            } else if a == i64::MIN && b == -1 {
                Err(overflow_error())
            } else {
                Ok(ValueModel::Int(rem_toward_zero(a as int, b as int) as i64))
            },
            _ => mismatch,
        },
        BOp::And => match (l, r) {
            (ValueModel::Bool(a), ValueModel::Bool(b)) => Ok(ValueModel::Bool(a && b)),
            _ => mismatch,
        },
        BOp::Or => match (l, r) {
            (ValueModel::Bool(a), ValueModel::Bool(b)) => Ok(ValueModel::Bool(a || b)),
            _ => mismatch,
        },
        BOp::Eq => match crate::value::values_equal(l, r) {
            Ok(b) => Ok(ValueModel::Bool(b)),
            Err(e) => Err(e),
        },
        _ => match crate::value::values_equal(l, r) {
            Ok(b) => Ok(ValueModel::Bool(!b)),
            Err(e) => Err(e),
        },
    }
}

pub open spec fn compare_ints(a: i64, b: i64) -> Comparison {
    if a < b {
        Comparison::Less
    } else if a == b {
        Comparison::Equal
    } else {
        Comparison::Greater
    }
}

/// A comparison of `a` and `b` in the environment's default order of the enum type `type_id`:
/// the order, then its verdict; either missing gives `OrderMissing` for `ty`.
pub open spec fn ordered_by_default(type_id: Seq<char>, a: ValueModel, b: ValueModel, ty: TypeTagModel, t: Seq<EnvReply>) -> Ev<Comparison> {
    match read_order(EnvQuery::DefaultOrder(type_id), t) {
        None => (Err(EvalErrorModel::OrderMissing { ty, span: no_span() }), later(EnvQuery::DefaultOrder(type_id), t)),
        Some(order) => {
            let t1 = later(EnvQuery::DefaultOrder(type_id), t);
            match read_compare(EnvQuery::Compare(order, a, b), t1) {
                Some(c) => (Ok(c), later(EnvQuery::Compare(order, a, b), t1)),
                None => (Err(EvalErrorModel::OrderMissing { ty, span: no_span() }), later(EnvQuery::Compare(order, a, b), t1)),
            }
        },
    }
}

/// Ordering of two values for `<`, `<=`, `>`, `>=`.
pub open spec fn compare_m(l: ValueModel, r: ValueModel, t: Seq<EnvReply>) -> Ev<Comparison> {
    let mismatch = Err(EvalErrorModel::TypeMismatch { op: "cmp", left: tag_of(l), right: tag_of(r), span: no_span() });
    match (l, r) {
        (ValueModel::Int(a), ValueModel::Int(b)) => (Ok(compare_ints(a, b)), t),
        (ValueModel::Enum { type_id: ta, .. }, ValueModel::Enum { type_id: tb, .. }) => if ta == tb {
            ordered_by_default(ta, l, r, TypeTagModel::Enum(ta), t)
        } else {
            (mismatch, t)
        },
        _ => (mismatch, t),
    }
}

pub open spec fn binary_m(op: BOp, l: ValueModel, r: ValueModel, t: Seq<EnvReply>) -> Ev<ValueModel> {
    match op {
        BOp::Lt | BOp::Le | BOp::Gt | BOp::Ge => {
            let (c, t1) = compare_m(l, r, t);
            match c {
                Err(e) => (Err(e), t1),
                Ok(c) => (Ok(ValueModel::Bool(match op {
                    BOp::Lt => c == Comparison::Less,
                    BOp::Le => c != Comparison::Greater,
                    BOp::Gt => c == Comparison::Greater,
                    _ => c != Comparison::Less,
                })), t1),
            }
        },
        _ => (binary_plain(op, l, r), t),
    }
}

// ---------- Sets ----------

pub open spec fn union_from(all: Seq<ValueModel>, i: int, acc: Seq<ValueModel>) -> Result<Seq<ValueModel>, EvalErrorModel>
    decreases all.len() - i,
{
    if i < 0 || i >= all.len() {
        Ok(acc)
    } else {
        match contains_model(acc, all[i]) {
            Err(e) => Err(e),
            Ok(true) => union_from(all, i + 1, acc),
            Ok(false) => union_from(all, i + 1, acc.push(all[i])),
        }
    }
}

pub open spec fn intersect_from(ea: Seq<ValueModel>, i: int, eb: Seq<ValueModel>, acc: Seq<ValueModel>) -> Result<Seq<ValueModel>, EvalErrorModel>
    decreases ea.len() - i,
{
    if i < 0 || i >= ea.len() {
        Ok(acc)
    } else {
        match contains_model(eb, ea[i]) {
            Err(e) => Err(e),
            Ok(false) => intersect_from(ea, i + 1, eb, acc),
            Ok(true) => match contains_model(acc, ea[i]) {
                Err(e) => Err(e),
                Ok(true) => intersect_from(ea, i + 1, eb, acc),
                Ok(false) => intersect_from(ea, i + 1, eb, acc.push(ea[i])),
            },
        }
    }
}

pub open spec fn diff_from(ea: Seq<ValueModel>, i: int, eb: Seq<ValueModel>, acc: Seq<ValueModel>) -> Result<Seq<ValueModel>, EvalErrorModel>
    decreases ea.len() - i,
{
    if i < 0 || i >= ea.len() {
        Ok(acc)
    } else {
        match contains_model(eb, ea[i]) {
            Err(e) => Err(e),
            Ok(true) => diff_from(ea, i + 1, eb, acc),
            Ok(false) => diff_from(ea, i + 1, eb, acc.push(ea[i])),
        }
    }
}

/// Union, intersection or difference of two sets; the elements keep the order of the left
/// set, then the right one, and each equal value occurs once.
pub open spec fn set_op_result(op: SetOp, l: ValueModel, r: ValueModel) -> Result<ValueModel, EvalErrorModel> {
    match (l, r) {
        (ValueModel::SetOf { elem_type: ta, elements: ea }, ValueModel::SetOf { elem_type: tb, elements: eb }) =>
            if ta != tb && ta != TypeTagModel::Unknown && tb != TypeTagModel::Unknown {
                Err(EvalErrorModel::SetTypeMismatch { lhs_ty: ta, rhs_ty: tb, span: no_span() })
            } else {
                let elem_type = if ta != TypeTagModel::Unknown { ta } else { tb };
                let elems = match op {
                    SetOp::Union => union_from(ea + eb, 0, Seq::empty()),
                    SetOp::Intersect => intersect_from(ea, 0, eb, Seq::empty()),
                    SetOp::Diff => diff_from(ea, 0, eb, Seq::empty()),
                };
                match elems {
                    Ok(es) => Ok(ValueModel::SetOf { elem_type, elements: es }),
                    Err(e) => Err(e),
                }
            },
        _ => Err(EvalErrorModel::InOnNonSet { rhs_ty: tag_of(r), span: no_span() }),
    }
}

// ---------- Intervals ----------

/// Comparison of two values as elements of an interval of type `ty`.
pub open spec fn compare_typed_m(a: ValueModel, b: ValueModel, ty: TypeTagModel, t: Seq<EnvReply>) -> Ev<Comparison> {
    let mismatch = Err(EvalErrorModel::IntervalTypeMismatch { lo_ty: tag_of(a), hi_ty: tag_of(b), x_ty: ty, span: no_span() });
    match ty {
        TypeTagModel::Int => match (a, b) {
            (ValueModel::Int(x), ValueModel::Int(y)) => (Ok(compare_ints(x, y)), t),
            _ => (mismatch, t),
        },
        TypeTagModel::Enum(type_id) => match (a, b) {
            (ValueModel::Enum { type_id: ta, .. }, ValueModel::Enum { type_id: tb, .. }) => if ta == tb {
                ordered_by_default(type_id, a, b, ty, t)
            } else {
                (mismatch, t)
            },
            _ => (mismatch, t),
        },
        _ => (Err(EvalErrorModel::OrderMissing { ty, span: no_span() }), t),
    }
}

pub open spec fn resolve_interval_type(lo: Option<TypeTagModel>, hi: Option<TypeTagModel>) -> Result<TypeTagModel, EvalErrorModel> {
    match (lo, hi) {
        (Some(a), Some(b)) => if a == b {
            Ok(a)
        } else {
            Err(EvalErrorModel::IntervalTypeMismatch { lo_ty: a, hi_ty: b, x_ty: TypeTagModel::Unknown, span: no_span() })
        },
        (Some(a), None) => Ok(a),
        (None, Some(b)) => Ok(b),
        (None, None) => Ok(TypeTagModel::Int),
    }
}

pub open spec fn finite_bound(b: BoundValueModel) -> Option<ValueModel> {
    match b {
        BoundValueModel::Open(v) => Some(*v),
        BoundValueModel::Closed(v) => Some(*v),
        _ => None,
    }
}

/// An interval's bounds are valid when the lower one is not `+inf`, the upper one not `-inf`,
/// and finite bounds are in order.
pub open spec fn validate_bounds_m(lo: BoundValueModel, hi: BoundValueModel, ty: TypeTagModel, t: Seq<EnvReply>) -> Ev<()> {
    if lo is PosInf || hi is NegInf {
        (Err(EvalErrorModel::IntervalInvalidBounds { span: no_span() }), t)
    } else if lo is NegInf || hi is PosInf {
        (Ok(()), t)
    } else {
        let (c, t1) = compare_typed_m(finite_bound(lo)->0, finite_bound(hi)->0, ty, t);
        match c {
            Err(e) => (Err(e), t1),
            Ok(c) => if c == Comparison::Greater {
                (Err(EvalErrorModel::IntervalInvalidBounds { span: no_span() }), t1)
            } else {
                (Ok(()), t1)
            },
        }
    }
}

pub open spec fn lower_ok_m(v: ValueModel, b: BoundValueModel, ty: TypeTagModel, t: Seq<EnvReply>) -> Ev<bool> {
    match b {
        BoundValueModel::NegInf => (Ok(true), t),
        BoundValueModel::PosInf => (Err(EvalErrorModel::IntervalInvalidBounds { span: no_span() }), t),
        BoundValueModel::Open(x) => {
            let (c, t1) = compare_typed_m(v, *x, ty, t);
            match c {
                Err(e) => (Err(e), t1),
                Ok(c) => (Ok(c == Comparison::Greater), t1),
            }
        },
        BoundValueModel::Closed(x) => {
            let (c, t1) = compare_typed_m(v, *x, ty, t);
            match c {
                Err(e) => (Err(e), t1),
                Ok(c) => (Ok(c == Comparison::Greater || c == Comparison::Equal), t1),
            }
        },
    }
}

pub open spec fn upper_ok_m(v: ValueModel, b: BoundValueModel, ty: TypeTagModel, t: Seq<EnvReply>) -> Ev<bool> {
    match b {
        BoundValueModel::PosInf => (Ok(true), t),
        BoundValueModel::NegInf => (Err(EvalErrorModel::IntervalInvalidBounds { span: no_span() }), t),
        BoundValueModel::Open(x) => {
            let (c, t1) = compare_typed_m(v, *x, ty, t);
            match c {
                Err(e) => (Err(e), t1),
                Ok(c) => (Ok(c == Comparison::Less), t1),
            }
        },
        BoundValueModel::Closed(x) => {
            let (c, t1) = compare_typed_m(v, *x, ty, t);
            match c {
                Err(e) => (Err(e), t1),
                Ok(c) => (Ok(c == Comparison::Less || c == Comparison::Equal), t1),
            }
        },
    }
}

/// Whether the value lies in the interval; both bounds are checked.
pub open spec fn interval_contains_m(v: ValueModel, elem_type: TypeTagModel, lo: BoundValueModel, hi: BoundValueModel, t: Seq<EnvReply>) -> Ev<bool> {
    let value_tag = tag_of(v);
    let target = if elem_type == TypeTagModel::Unknown { value_tag } else { elem_type };
    if target != TypeTagModel::Unknown && value_tag != target {
        (Err(EvalErrorModel::IntervalTypeMismatch { lo_ty: elem_type, hi_ty: elem_type, x_ty: value_tag, span: no_span() }), t)
    } else {
        let (l, t1) = lower_ok_m(v, lo, target, t);
        match l {
            Err(e) => (Err(e), t1),
            Ok(lb) => {
                let (u, t2) = upper_ok_m(v, hi, target, t1);
                match u {
                    Err(e) => (Err(e), t2),
                    Ok(ub) => (Ok(lb && ub), t2),
                }
            },
        }
    }
}

/// `v in s` for a set or an interval `s`.
pub open spec fn membership_m(v: ValueModel, s: ValueModel, t: Seq<EnvReply>) -> Ev<ValueModel> {
    match s {
        ValueModel::SetOf { elements, .. } => (
            match contains_model(elements, v) {
                Ok(b) => Ok(ValueModel::Bool(b)),
                Err(e) => Err(e),
            },
            t,
        ),
        ValueModel::Interval { elem_type, lo, hi } => {
            let (r, t1) = interval_contains_m(v, elem_type, lo, hi, t);
            match r {
                Ok(b) => (Ok(ValueModel::Bool(b)), t1),
                Err(e) => (Err(e), t1),
            }
        },
        _ => (Err(EvalErrorModel::InOnNonSet { rhs_ty: tag_of(s), span: no_span() }), t),
    }
}

// ---------- Lambdas ----------

/// The names that `e` uses without binding them, each once, in order of first use, after those in `acc`.
pub open spec fn free_vars(e: ExprModel, bound: Seq<Seq<char>>, acc: Seq<Seq<char>>) -> Seq<Seq<char>>
    decreases esize(e), 0nat,
{
    match e {
        ExprModel::Ident(path) => if path.len() > 0 && !bound.contains(path[0]) && !acc.contains(path[0]) {
            acc.push(path[0])
        } else {
            acc
        },
        ExprModel::Unary { expr, .. } => free_vars(*expr, bound, acc),
        ExprModel::Binary { left, right, .. } => free_vars(*right, bound, free_vars(*left, bound, acc)),
        ExprModel::SetLiteral(items) => free_vars_list(items, bound, acc),
        ExprModel::In { elem, set } => free_vars(*set, bound, free_vars(*elem, bound, acc)),
        ExprModel::SetOp { lhs, rhs, .. } => free_vars(*rhs, bound, free_vars(*lhs, bound, acc)),
        ExprModel::Cardinality(x) => free_vars(*x, bound, acc),
        ExprModel::Interval { lo, hi } => free_vars_bound(hi, bound, free_vars_bound(lo, bound, acc)),
        ExprModel::Lambda { params, body } => free_vars(*body, bound + params, acc),
        ExprModel::Call(c) => free_vars_list(c.args, bound, acc),
        ExprModel::Pipe { lhs, call } => free_vars_list(call.args, bound, free_vars(*lhs, bound, acc)),
        ExprModel::WithSemiring { body, .. } => free_vars(*body, bound, acc),
        _ => acc,
    }
}

pub open spec fn free_vars_bound(b: BoundExprModel, bound: Seq<Seq<char>>, acc: Seq<Seq<char>>) -> Seq<Seq<char>>
    decreases bsize(b), 1nat,
{
    match b {
        BoundExprModel::Open(x) => free_vars(*x, bound, acc),
        BoundExprModel::Closed(x) => free_vars(*x, bound, acc),
        _ => acc,
    }
}

pub open spec fn free_vars_list(items: Seq<ExprModel>, bound: Seq<Seq<char>>, acc: Seq<Seq<char>>) -> Seq<Seq<char>>
    decreases esizes(items), 1nat,
{
    if items.len() == 0 {
        acc
    } else {
        proof {
            lemma_esize_pos(items[0]);
        }
        free_vars_list(items.subrange(1, items.len() as int), bound, free_vars(items[0], bound, acc))
    }
}

pub open spec fn capture_all(names: Seq<Seq<char>>, i: int, scope: Seq<(Seq<char>, ValueModel)>, acc: Seq<(Seq<char>, ValueModel)>, t: Seq<EnvReply>) -> Ev<Seq<(Seq<char>, ValueModel)>>
    decreases names.len() - i,
{
    if i < 0 || i >= names.len() {
        (Ok(acc), t)
    } else {
        let (v, t1) = lookup_name(scope, names[i], t);
        match v {
            None => (Err(EvalErrorModel::LambdaCaptureUnknown { name: names[i], span: no_span() }), t1),
            Some(v) => capture_all(names, i + 1, scope, acc.push((names[i], v)), t1),
        }
    }
}

/// A lambda value: its parameters, body, and the values of the names its body uses freely.
pub open spec fn build_lambda_m(params: Seq<Seq<char>>, body: ExprModel, scope: Seq<(Seq<char>, ValueModel)>, t: Seq<EnvReply>) -> Ev<ValueModel> {
    let names = free_vars(body, params, Seq::empty());
    let (r, t1) = capture_all(names, 0, scope, Seq::empty(), t);
    match r {
        Err(e) => (Err(e), t1),
        Ok(captures) => (Ok(ValueModel::Lambda { params, body, captures }), t1),
    }
}

pub open spec fn bind_params(params: Seq<Seq<char>>, args: Seq<ValueModel>) -> Seq<(Seq<char>, ValueModel)> {
    Seq::new(params.len(), |i: int| (params[i], args[i]))
}

pub struct LambdaParts {
    pub params: Seq<Seq<char>>,
    pub body: ExprModel,
    pub captures: Seq<(Seq<char>, ValueModel)>,
}

pub open spec fn expect_set(v: ValueModel) -> Result<(TypeTagModel, Seq<ValueModel>), EvalErrorModel> {
    match v {
        ValueModel::SetOf { elem_type, elements } => Ok((elem_type, elements)),
        _ => Err(EvalErrorModel::InOnNonSet { rhs_ty: tag_of(v), span: no_span() }),
    }
}

pub open spec fn expect_lambda(v: ValueModel, label: Seq<char>) -> Result<LambdaParts, EvalErrorModel> {
    match v {
        ValueModel::Lambda { params, body, captures } => Ok(LambdaParts { params, body, captures }),
        _ => Err(EvalErrorModel::LambdaType { param: label, expected: TypeTagModel::Lambda, found: tag_of(v), span: no_span() }),
    }
}

/// The question for one step of a lattice reduction.
pub open spec fn lattice_query(meet: bool, ops: LatticeModel, a: ValueModel, b: ValueModel) -> EnvQuery {
    if meet {
        EnvQuery::Meet(ops, a, b)
    } else {
        EnvQuery::Join(ops, a, b)
    }
}

/// Folds the lattice's meet (`meet`) or join over `elems[i..]`, each step taking one reply.
pub open spec fn lattice_fold(meet: bool, ops: LatticeModel, elems: Seq<ValueModel>, i: int, acc: ValueModel, t: Seq<EnvReply>) -> Ev<ValueModel>
    decreases elems.len() - i,
{
    if i < 0 || i >= elems.len() {
        (Ok(acc), t)
    } else {
        match read_op(lattice_query(meet, ops, acc, elems[i]), t) {
            Err(e) => (Err(e), later(lattice_query(meet, ops, acc, elems[i]), t)),
            Ok(v) => lattice_fold(meet, ops, elems, i + 1, v, later(lattice_query(meet, ops, acc, elems[i]), t)),
        }
    }
}

/// The name under which the environment keeps the lattice of a type: an enum's name,
/// `core.Int`, or else the type's debug text.
pub open spec fn lattice_id(t: TypeTagModel) -> Seq<char> {
    match t {
        TypeTagModel::Enum(name) => name,
        TypeTagModel::Int => "core.Int"@,
        _ => type_tag_debug(t),
    }
}

/// `reduce_meet` (`meet`) and `reduce_join`: the lattice of the set's element type, then its
/// operation folded over the elements from the first one.
pub open spec fn lattice_reduce_m(meet: bool, args: Seq<ValueModel>, t: Seq<EnvReply>) -> Ev<ValueModel> {
    if args.len() != 1 {
        (Err(EvalErrorModel::LambdaArity { expected: 1, found: args.len(), span: no_span() }), t)
    } else {
        match expect_set(args[0]) {
            Err(e) => (Err(e), t),
            Ok((et, elems)) => match read_lattice(EnvQuery::Lattice(lattice_id(et)), t) {
                None => (Err(EvalErrorModel::LatticeRequired { ty: et, span: no_span() }), later(EnvQuery::Lattice(lattice_id(et)), t)),
                Some(ops) => if elems.len() == 0 {
                    (Err(EvalErrorModel::Other { message: "lattice reduction on empty set"@, span: no_span() }), later(EnvQuery::Lattice(lattice_id(et)), t))
                } else {
                    lattice_fold(meet, ops, elems, 1, elems[0], later(EnvQuery::Lattice(lattice_id(et)), t))
                },
            },
        }
    }
}

// ---------- Evaluation ----------

pub open spec fn unwrap_tag(t: Option<TypeTagModel>) -> TypeTagModel {
    match t {
        Some(x) => x,
        None => TypeTagModel::Unknown,
    }
}

/// The value of `e` in context `cx`, with at most `fuel` nested lambda calls.
pub open spec fn eval_m(fuel: nat, e: ExprModel, cx: Ctx, t: Seq<EnvReply>) -> Ev<ValueModel>
    decreases fuel, esize(e), 3nat, 0nat,
{
    match e {
        ExprModel::Int(n) => (Ok(ValueModel::Int(n)), t),
        ExprModel::Bool(b) => (Ok(ValueModel::Bool(b)), t),
        ExprModel::Str(s) => (Ok(ValueModel::Str(s)), t),
        ExprModel::EnumVariant { ty, variant } => enum_variant_m(ty, variant, t),
        ExprModel::Ident(path) => resolve_ident_m(path, cx.scope, t),
        ExprModel::Unary { op, expr } => {
            let (r, t1) = eval_m(fuel, *expr, cx, t);
            match r {
                Err(e) => (Err(e), t1),
                Ok(v) => (unary_result(op, v), t1),
            }
        },
        ExprModel::Binary { left, op, right } => {
            let (r1, t1) = eval_m(fuel, *left, cx, t);
            match r1 {
                Err(e) => (Err(e), t1),
                Ok(l) => {
                    let (r2, t2) = eval_m(fuel, *right, cx, t1);
                    match r2 {
                        Err(e) => (Err(e), t2),
                        Ok(r) => binary_m(op, l, r, t2),
                    }
                },
            }
        },
        ExprModel::SetLiteral(items) => set_literal_m(fuel, items, cx, None, Seq::empty(), t),
        ExprModel::In { elem, set } => {
            let (r1, t1) = eval_m(fuel, *elem, cx, t);
            match r1 {
                Err(e) => (Err(e), t1),
                Ok(v) => {
                    let (r2, t2) = eval_m(fuel, *set, cx, t1);
                    match r2 {
                        Err(e) => (Err(e), t2),
                        Ok(s) => membership_m(v, s, t2),
                    }
                },
            }
        },
        ExprModel::SetOp { op, lhs, rhs } => {
            let (r1, t1) = eval_m(fuel, *lhs, cx, t);
            match r1 {
                Err(e) => (Err(e), t1),
                Ok(l) => {
                    let (r2, t2) = eval_m(fuel, *rhs, cx, t1);
                    match r2 {
                        Err(e) => (Err(e), t2),
                        Ok(r) => (set_op_result(op, l, r), t2),
                    }
                },
            }
        },
        ExprModel::Cardinality(x) => {
            let (r, t1) = eval_m(fuel, *x, cx, t);
            match r {
                Err(e) => (Err(e), t1),
                Ok(v) => (match v {
                    ValueModel::SetOf { elements, .. } => Ok(ValueModel::Int(elements.len() as i64)),
                    _ => Err(EvalErrorModel::InOnNonSet { rhs_ty: tag_of(v), span: no_span() }),
                }, t1),
            }
        },
        ExprModel::Interval { lo, hi } => {
            let (rl, t1) = bound_m(fuel, lo, cx, t);
            match rl {
                Err(e) => (Err(e), t1),
                Ok((lb, ltag)) => {
                    let (rh, t2) = bound_m(fuel, hi, cx, t1);
                    match rh {
                        Err(e) => (Err(e), t2),
                        Ok((hb, htag)) => match resolve_interval_type(ltag, htag) {
                            Err(e) => (Err(e), t2),
                            Ok(ty) => {
                                let (rv, t3) = validate_bounds_m(lb, hb, ty, t2);
                                match rv {
                                    Err(e) => (Err(e), t3),
                                    Ok(_) => (Ok(ValueModel::Interval { elem_type: ty, lo: lb, hi: hb }), t3),
                                }
                            },
                        },
                    }
                },
            }
        },
        ExprModel::Infinity(_) => (
            Err(EvalErrorModel::IntervalInfiniteUnsupported { ty: TypeTagModel::Unknown, span: no_span() }),
            t,
        ),
        ExprModel::Lambda { params, body } => build_lambda_m(params, *body, cx.scope, t),
        ExprModel::Call(c) => {
            let (ra, t1) = eval_args_m(fuel, c.args, cx, Seq::empty(), t);
            match ra {
                Err(e) => (Err(e), t1),
                Ok(args) => apply_m(fuel, c.func, args, cx, t1),
            }
        },
        ExprModel::Pipe { lhs, call } => {
            let (r1, t1) = eval_m(fuel, *lhs, cx, t);
            match r1 {
                Err(e) => (Err(e), t1),
                Ok(v) => {
                    let (ra, t2) = eval_args_m(fuel, call.args, cx, seq![v], t1);
                    match ra {
                        Err(e) => (Err(e), t2),
                        Ok(args) => apply_m(fuel, call.func, args, cx, t2),
                    }
                },
            }
        },
        ExprModel::WithSemiring { name, body } => match read_semiring(EnvQuery::Semiring(name), t) {
            None => (Err(EvalErrorModel::SemiringMissing { span: no_span() }), later(EnvQuery::Semiring(name), t)),
            Some(ops) => eval_m(fuel, *body, Ctx { scope: cx.scope, semiring: Some(ops) }, later(EnvQuery::Semiring(name), t)),
        },
    }
}

/// An interval bound: its value and that value's type tag, or an infinite bound without one.
pub open spec fn bound_m(fuel: nat, b: BoundExprModel, cx: Ctx, t: Seq<EnvReply>) -> Ev<(BoundValueModel, Option<TypeTagModel>)>
    decreases fuel, bsize(b), 4nat, 0nat,
{
    match b {
        BoundExprModel::Open(x) => {
            let (r, t1) = eval_m(fuel, *x, cx, t);
            match r {
                Err(e) => (Err(e), t1),
                Ok(v) => (Ok((BoundValueModel::Open(Box::new(v)), Some(tag_of(v)))), t1),
            }
        },
        BoundExprModel::Closed(x) => {
            let (r, t1) = eval_m(fuel, *x, cx, t);
            match r {
                Err(e) => (Err(e), t1),
                Ok(v) => (Ok((BoundValueModel::Closed(Box::new(v)), Some(tag_of(v)))), t1),
            }
        },
        BoundExprModel::NegInf => (Ok((BoundValueModel::NegInf, None)), t),
        BoundExprModel::PosInf => (Ok((BoundValueModel::PosInf, None)), t),
    }
}

/// The elements of a set literal, in order; the element type is that of the first element
/// whose type is known, and every later element of known type must have it.
pub open spec fn set_literal_m(fuel: nat, items: Seq<ExprModel>, cx: Ctx, et: Option<TypeTagModel>, acc: Seq<ValueModel>, t: Seq<EnvReply>) -> Ev<ValueModel>
    decreases fuel, esizes(items), 4nat, 0nat,
{
    if items.len() == 0 {
        (Ok(ValueModel::SetOf { elem_type: unwrap_tag(et), elements: acc }), t)
    } else {
        proof {
            lemma_esize_pos(items[0]);
        }
        let (r, t1) = eval_m(fuel, items[0], cx, t);
        match r {
            Err(e) => (Err(e), t1),
            Ok(v) => {
                let tag = tag_of(v);
                let rest = items.subrange(1, items.len() as int);
                match et {
                    Some(expected) => if expected != tag && tag != TypeTagModel::Unknown {
                        (Err(EvalErrorModel::SetElemMismatch { expected, found: tag, span: no_span() }), t1)
                    } else {
                        set_literal_m(fuel, rest, cx, et, acc.push(v), t1)
                    },
                    None => set_literal_m(
                        fuel,
                        rest,
                        cx,
                        if tag != TypeTagModel::Unknown { Some(tag) } else { None },
                        acc.push(v),
                        t1,
                    ),
                }
            },
        }
    }
}

/// The values of call arguments, in order, after those in `acc`.
pub open spec fn eval_args_m(fuel: nat, items: Seq<ExprModel>, cx: Ctx, acc: Seq<ValueModel>, t: Seq<EnvReply>) -> Ev<Seq<ValueModel>>
    decreases fuel, esizes(items), 4nat, 0nat,
{
    if items.len() == 0 {
        (Ok(acc), t)
    } else {
        proof {
            lemma_esize_pos(items[0]);
        }
        let (r, t1) = eval_m(fuel, items[0], cx, t);
        match r {
            Err(e) => (Err(e), t1),
            Ok(v) => eval_args_m(fuel, items.subrange(1, items.len() as int), cx, acc.push(v), t1),
        }
    }
}

/// A call of lambda `lam` on `args`: the body is evaluated with the context's bindings, then
/// the lambda's captures, then its parameters bound to the arguments.
pub open spec fn call_lambda_m(fuel: nat, lam: LambdaParts, args: Seq<ValueModel>, cx: Ctx, t: Seq<EnvReply>) -> Ev<ValueModel>
    decreases fuel, 0nat, 0nat, 0nat,
{
    if lam.params.len() != args.len() {
        (Err(EvalErrorModel::LambdaArity { expected: lam.params.len(), found: args.len(), span: no_span() }), t)
    } else if fuel == 0 {
        (Err(depth_error()), t)
    } else {
        eval_m(
            (fuel - 1) as nat,
            lam.body,
            Ctx { scope: cx.scope + lam.captures + bind_params(lam.params, args), semiring: cx.semiring },
            t,
        )
    }
}

/// The built-in functions: `map`, `filter`, `fold`, `reduce_meet`, `reduce_join`, `reduce_semiring`.
pub open spec fn apply_m(fuel: nat, name: Seq<char>, args: Seq<ValueModel>, cx: Ctx, t: Seq<EnvReply>) -> Ev<ValueModel>
    decreases fuel, 0nat, 3nat, 0nat,
{
    if name == "map"@ {
        map_call_m(fuel, args, cx, t)
    } else if name == "filter"@ {
        filter_call_m(fuel, args, cx, t)
    } else if name == "fold"@ {
        fold_call_m(fuel, args, cx, t)
    } else if name == "reduce_meet"@ {
        lattice_reduce_m(true, args, t)
    } else if name == "reduce_join"@ {
        lattice_reduce_m(false, args, t)
    } else if name == "reduce_semiring"@ {
        semiring_call_m(fuel, args, cx, t)
    } else {
        (Err(EvalErrorModel::CallUnknown { func: name, span: no_span() }), t)
    }
}

/// `map(set, f)`.
pub open spec fn map_call_m(fuel: nat, args: Seq<ValueModel>, cx: Ctx, t: Seq<EnvReply>) -> Ev<ValueModel>
    decreases fuel, 0nat, 2nat, 0nat,
{
    if args.len() != 2 {
        (Err(EvalErrorModel::LambdaArity { expected: 2, found: args.len(), span: no_span() }), t)
    } else {
        match expect_set(args[0]) {
            Err(e) => (Err(e), t),
            Ok((_, elems)) => match expect_lambda(args[1], "map"@) {
                Err(e) => (Err(e), t),
                Ok(lam) => map_m(fuel, elems, 0, lam, cx, TypeTagModel::Unknown, Seq::empty(), t),
            },
        }
    }
}

/// `filter(set, p)`.
pub open spec fn filter_call_m(fuel: nat, args: Seq<ValueModel>, cx: Ctx, t: Seq<EnvReply>) -> Ev<ValueModel>
    decreases fuel, 0nat, 2nat, 0nat,
{
    if args.len() != 2 {
        (Err(EvalErrorModel::LambdaArity { expected: 2, found: args.len(), span: no_span() }), t)
    } else {
        match expect_set(args[0]) {
            Err(e) => (Err(e), t),
            Ok((et, elems)) => match expect_lambda(args[1], "filter"@) {
                Err(e) => (Err(e), t),
                Ok(lam) => filter_m(fuel, elems, 0, lam, cx, et, Seq::empty(), t),
            },
        }
    }
}

/// `fold(set, init, f)`.
pub open spec fn fold_call_m(fuel: nat, args: Seq<ValueModel>, cx: Ctx, t: Seq<EnvReply>) -> Ev<ValueModel>
    decreases fuel, 0nat, 2nat, 0nat,
{
    if args.len() != 3 {
        (Err(EvalErrorModel::LambdaArity { expected: 3, found: args.len(), span: no_span() }), t)
    } else {
        match expect_set(args[0]) {
            Err(e) => (Err(e), t),
            Ok((_, elems)) => match expect_lambda(args[2], "fold"@) {
                Err(e) => (Err(e), t),
                Ok(lam) => fold_m(fuel, elems, 0, lam, cx, args[1], t),
            },
        }
    }
}

/// The semiring already chosen, or else the environment's reply.
pub open spec fn read_semiring_or(chosen: Option<SemiringModel>, t: Seq<EnvReply>) -> (Option<SemiringModel>, Seq<EnvReply>) {
    match chosen {
        Some(s) => (Some(s), t),
        None => (read_semiring(EnvQuery::CurrentSemiring, t), later(EnvQuery::CurrentSemiring, t)),
    }
}

/// `reduce_semiring(set, f)`: the semiring chosen by an enclosing `with_semiring`, or else the
/// environment's current one.
pub open spec fn semiring_call_m(fuel: nat, args: Seq<ValueModel>, cx: Ctx, t: Seq<EnvReply>) -> Ev<ValueModel>
    decreases fuel, 0nat, 2nat, 0nat,
{
    if args.len() != 2 {
        (Err(EvalErrorModel::LambdaArity { expected: 2, found: args.len(), span: no_span() }), t)
    } else {
        match expect_set(args[0]) {
            Err(e) => (Err(e), t),
            Ok((_, elems)) => match expect_lambda(args[1], "reduce_semiring"@) {
                Err(e) => (Err(e), t),
                Ok(lam) => {
                    let (sr, t1) = read_semiring_or(cx.semiring, t);
                    match sr {
                        None => (Err(EvalErrorModel::SemiringMissing { span: no_span() }), t1),
                        Some(ops) => semiring_m(fuel, elems, 0, lam, cx, ops, ops.zero, t1),
                    }
                },
            },
        }
    }
}

/// `map`: the lambda's results, each equal value once, typed by the first result.
pub open spec fn map_m(fuel: nat, elems: Seq<ValueModel>, i: int, lam: LambdaParts, cx: Ctx, et: TypeTagModel, results: Seq<ValueModel>, t: Seq<EnvReply>) -> Ev<ValueModel>
    decreases fuel, 0nat, 1nat, elems.len() - i,
{
    if i < 0 || i >= elems.len() {
        (Ok(ValueModel::SetOf { elem_type: et, elements: results }), t)
    } else {
        let (r, t1) = call_lambda_m(fuel, lam, seq![elems[i]], cx, t);
        match r {
            Err(e) => (Err(e), t1),
            Ok(v) => {
                let et2 = if et == TypeTagModel::Unknown { tag_of(v) } else { et };
                match contains_model(results, v) {
                    Err(e) => (Err(e), t1),
                    Ok(true) => map_m(fuel, elems, i + 1, lam, cx, et2, results, t1),
                    Ok(false) => map_m(fuel, elems, i + 1, lam, cx, et2, results.push(v), t1),
                }
            },
        }
    }
}

/// `filter`: the elements for which the lambda gives `true`.
pub open spec fn filter_m(fuel: nat, elems: Seq<ValueModel>, i: int, lam: LambdaParts, cx: Ctx, et: TypeTagModel, results: Seq<ValueModel>, t: Seq<EnvReply>) -> Ev<ValueModel>
    decreases fuel, 0nat, 1nat, elems.len() - i,
{
    if i < 0 || i >= elems.len() {
        (Ok(ValueModel::SetOf { elem_type: et, elements: results }), t)
    } else {
        let (r, t1) = call_lambda_m(fuel, lam, seq![elems[i]], cx, t);
        match r {
            Err(e) => (Err(e), t1),
            Ok(ValueModel::Bool(true)) => filter_m(fuel, elems, i + 1, lam, cx, et, results.push(elems[i]), t1),
            Ok(ValueModel::Bool(false)) => filter_m(fuel, elems, i + 1, lam, cx, et, results, t1),
            Ok(other) => (Err(EvalErrorModel::TypeMismatch { op: "filter", left: tag_of(other), right: TypeTagModel::Bool, span: no_span() }), t1),
        }
    }
}

/// `fold`: the accumulator passed through the lambda with each element in turn.
pub open spec fn fold_m(fuel: nat, elems: Seq<ValueModel>, i: int, lam: LambdaParts, cx: Ctx, acc: ValueModel, t: Seq<EnvReply>) -> Ev<ValueModel>
    decreases fuel, 0nat, 1nat, elems.len() - i,
{
    if i < 0 || i >= elems.len() {
        (Ok(acc), t)
    } else {
        let (r, t1) = call_lambda_m(fuel, lam, seq![acc, elems[i]], cx, t);
        match r {
            Err(e) => (Err(e), t1),
            Ok(v) => fold_m(fuel, elems, i + 1, lam, cx, v, t1),
        }
    }
}

/// `reduce_semiring`: the semiring sum of the lambda's results, starting from zero.
pub open spec fn semiring_m(fuel: nat, elems: Seq<ValueModel>, i: int, lam: LambdaParts, cx: Ctx, ops: SemiringModel, acc: ValueModel, t: Seq<EnvReply>) -> Ev<ValueModel>
    decreases fuel, 0nat, 1nat, elems.len() - i,
{
    if i < 0 || i >= elems.len() {
        (Ok(acc), t)
    } else {
        let (r, t1) = call_lambda_m(fuel, lam, seq![elems[i]], cx, t);
        match r {
            Err(e) => (Err(e), t1),
            Ok(mapped) => match read_op(EnvQuery::Oplus(ops, acc, mapped), t1) {
                Err(e) => (Err(e), later(EnvQuery::Oplus(ops, acc, mapped), t1)),
                Ok(v) => semiring_m(fuel, elems, i + 1, lam, cx, ops, v, later(EnvQuery::Oplus(ops, acc, mapped), t1)),
            },
        }
    }
}

} // verus!
