//! Evaluation of expressions.
use vstd::prelude::*;

use crate::ast::{
    esize, esizes, exprs_model, lemma_esizes_elem, lemma_exprs_model, BOp, BoundExpr, Expr, ExprModel, IntervalExpr, SetOp,
    UOp,
};
use crate::error::{copy_tag, tag_eq, tag_is_unknown, EvalError, EvalErrorModel, TypeTag, TypeTagModel};
use crate::runtime::{
    answered, later, lemma_later_one, opt_value_model, opt_view, Comparison, Env, EnvAnswer, EnvQuery, EnvReply,
};
use crate::semantics::{
    binary_m, binary_plain, compare_ints, compare_m, compare_typed_m, debug_text, diff_from,
    div_toward_zero, enum_variant_m, follow_fields, free_vars, int_result, interval_contains_m,
    intersect_from, lookup_local, lookup_name, lower_ok_m, membership_m, op_name, ordered_by_default,
    overflow_error, rem_toward_zero, resolve_ident_m, set_op_result, unary_result,
    union_from, upper_ok_m, validate_bounds_m, variant_known, Ctx, LambdaParts, bind_params, bound_m,
    call_lambda_m, empty_ctx, eval_args_m, eval_m, set_literal_m, MAX_CALL_DEPTH,
};
use crate::text::{string_from_str, strings_view};
use crate::token::Span;
use crate::value::{
    captures_model, contains_value, copy_value, err_model, lemma_captures_model, lemma_values_model,
    lemma_values_model_push, value_eq, values_model, BoundValue, BoundValueModel, EnumInfo, IntervalValue,
    LambdaValue, SemiringOps, SetValue, Value, ValueModel,
};

verus! {

broadcast use {crate::runtime::lemma_answered_concat, crate::runtime::lemma_empty_prefix};

pub open spec fn vres(r: Result<Value, EvalError>) -> Result<ValueModel, EvalErrorModel> {
    match r {
        Ok(v) => Ok(v@),
        Err(e) => Err(e@),
    }
}

pub open spec fn ctx_of(scope: Seq<(String, Value)>, sr: Option<SemiringOps>) -> Ctx {
    Ctx {
        scope: captures_model(scope),
        semiring: match sr {
            Some(s) => Some(s@),
            None => None,
        },
    }
}

pub proof fn lemma_assoc(a: Seq<EnvReply>, b: Seq<EnvReply>, rest: Seq<EnvReply>)
    ensures
        (a + b) + rest == a + (b + rest),
{
    assert((a + b) + rest =~= a + (b + rest));
}

pub proof fn lemma_later_two(r1: EnvReply, r2: EnvReply, rest: Seq<EnvReply>)
    ensures
        (seq![r1, r2] + rest)[0] == r1,
        later(r1.query, seq![r1, r2] + rest) == seq![r2] + rest,
{
    assert(later(r1.query, seq![r1, r2] + rest) =~= seq![r2] + rest);
}

pub(crate) fn no_span() -> (s: Span)
    ensures
        s == crate::value::no_span(),
{
    Span { start: 0, end: 0 }
}

pub(crate) fn overflow_err() -> (e: EvalError)
    ensures
        e@ == overflow_error(),
{
    EvalError::Other { message: string_from_str("integer overflow"), span: no_span() }
}

// ---------- Names ----------

/// The value bound to `name` by the innermost binding in `scope`.
pub(crate) fn lookup_local_exec(scope: &Vec<(String, Value)>, name: &String) -> (r: Option<Value>)
    ensures
        opt_value_model(r) == lookup_local(captures_model(scope@), name@),
{
    let ghost full = captures_model(scope@);
    proof {
        lemma_captures_model(scope@);
    }
    let mut k = scope.len();
    assert(full.take(k as int) =~= full);
    while k > 0
        invariant
            k <= scope@.len(),
            full == captures_model(scope@),
            full.len() == scope@.len(),
            forall|i: int| 0 <= i < scope@.len() ==> #[trigger] full[i] == (scope@[i].0@, scope@[i].1@),
            lookup_local(full, name@) == lookup_local(full.take(k as int), name@),
        decreases k,
    {
        let ghost pre = full.take(k as int);
        assert(pre.last() == full[k - 1]);
        assert(pre.drop_last() =~= full.take(k - 1));
        if scope[k - 1].0 == *name {
            return Some(copy_value(&scope[k - 1].1));
        }
        k = k - 1;
    }
    assert(full.take(0) =~= Seq::<(Seq<char>, ValueModel)>::empty());
    None
}

/// The value of `name`: from `scope` when bound there, otherwise from the environment.
pub(crate) fn lookup<E: Env>(env: &E, scope: &Vec<(String, Value)>, name: &String) -> (out: (Option<Value>, Ghost<Seq<EnvReply>>))
    ensures
        forall|rest: Seq<EnvReply>| #[trigger] lookup_name(captures_model(scope@), name@, out.1@ + rest) == (opt_value_model(out.0), rest),
        answered(env, out.1@),
{
    match lookup_local_exec(scope, name) {
        Some(v) => {
            proof {
                assert(forall|rest: Seq<EnvReply>| #[trigger] lookup_name(captures_model(scope@), name@, Seq::empty() + rest) == (opt_value_model(Some(v)), rest));
            }
            (Some(v), Ghost(Seq::empty()))
        },
        None => {
            let r = env.get_ident(name.as_str());
            let ghost reply = EnvReply { query: EnvQuery::Ident(name@), answer: EnvAnswer::Value(opt_value_model(r)) };
            let ghost t = seq![reply];
            proof {
                assert forall|rest: Seq<EnvReply>| #[trigger] lookup_name(captures_model(scope@), name@, t + rest) == (opt_value_model(r), rest) by {
                    lemma_later_one(reply, rest);
                }
            }
            (r, Ghost(t))
        },
    }
}

/// A dotted path: its first name from the bindings or the environment, then its fields from the environment.
pub(crate) fn resolve_ident<E: Env>(path: &Vec<String>, env: &E, scope: &Vec<(String, Value)>) -> (out: (Result<Value, EvalError>, Ghost<Seq<EnvReply>>))
    ensures
        forall|rest: Seq<EnvReply>| #[trigger] resolve_ident_m(strings_view(path@), captures_model(scope@), out.1@ + rest) == (vres(out.0), rest),
        answered(env, out.1@),
{
    let ghost p = strings_view(path@);
    if path.len() == 0 {
        let e = EvalError::Other { message: string_from_str("empty identifier path"), span: no_span() };
        proof {
            assert(forall|rest: Seq<EnvReply>| #[trigger] resolve_ident_m(p, captures_model(scope@), Seq::empty() + rest) == (vres(Err::<Value, EvalError>(e)), rest));
        }
        return (Err(e), Ghost(Seq::empty()));
    }
    let (first, Ghost(t0)) = lookup(env, scope, &path[0]);
    let mut current = match first {
        Some(v) => v,
        None => {
            let e = EvalError::UnknownIdent { name: path[0].clone(), span: no_span() };
            return (Err(e), Ghost(t0));
        },
    };
    let ghost mut t = t0;
    let mut i: usize = 1;
    while i < path.len()
        invariant
            answered(env, t),
            1 <= i <= path@.len(),
            p == strings_view(path@),
            forall|rest: Seq<EnvReply>| #[trigger] resolve_ident_m(p, captures_model(scope@), t + rest) == follow_fields(current@, p, i as int, rest),
        decreases path@.len() - i,
    {
        let r = env.get_field(&current, path[i].as_str());
        let ghost reply = EnvReply { query: EnvQuery::Field(current@, path@[i as int]@), answer: EnvAnswer::Value(opt_value_model(r)) };
        match r {
            Some(v) => {
                proof {
                    assert forall|rest: Seq<EnvReply>| #[trigger] resolve_ident_m(p, captures_model(scope@), (t + seq![reply]) + rest) == follow_fields(v@, p, i + 1, rest) by {
                        lemma_assoc(t, seq![reply], rest);
                        lemma_later_one(reply, rest);
                    }
                }
                current = v;
                proof {
                    t = t + seq![reply];
                }
            },
            None => {
                let base = debug_text(&current.type_tag());
                let e = EvalError::UnknownField { base, field: path[i].clone(), span: no_span() };
                proof {
                    assert forall|rest: Seq<EnvReply>| #[trigger] resolve_ident_m(p, captures_model(scope@), (t + seq![reply]) + rest) == (vres(Err::<Value, EvalError>(e)), rest) by {
                        lemma_assoc(t, seq![reply], rest);
                        lemma_later_one(reply, rest);
                    }
                }
                return (Err(e), Ghost(t + seq![reply]));
            },
        }
        i = i + 1;
    }
    proof {
        assert forall|rest: Seq<EnvReply>| #[trigger] resolve_ident_m(p, captures_model(scope@), t + rest) == (vres(Ok::<Value, EvalError>(current)), rest) by {
        }
    }
    (Ok(current), Ghost(t))
}

} // verus!

verus! {

// ---------- Enum variants ----------

fn contains_string(v: &Vec<String>, x: &String) -> (r: bool)
    ensures
        r == strings_view(v@).contains(x@),
{
    let mut i: usize = 0;
    while i < v.len()
        invariant
            i <= v@.len(),
            forall|k: int| 0 <= k < i ==> #[trigger] v@[k]@ != x@,
        decreases v@.len() - i,
    {
        if v[i] == *x {
            assert(strings_view(v@)[i as int] == x@);
            return true;
        }
        i = i + 1;
    }
    proof {
        if strings_view(v@).contains(x@) {
            let k = choose|k: int| 0 <= k < strings_view(v@).len() && strings_view(v@)[k] == x@;
            assert(v@[k]@ == x@);
        }
    }
    false
}

/// Whether `variant` names a variant of the enum, directly or through an alias of an existing variant.
fn variant_is_known(info: &EnumInfo, variant: &String) -> (r: bool)
    ensures
        r == variant_known(info@, variant@),
{
    if contains_string(&info.variants, variant) {
        return true;
    }
    let ghost m = info@;
    let mut k: usize = 0;
    while k < info.aliases.len()
        invariant
            k <= info.aliases@.len(),
            m == info@,
            m.aliases.len() == info.aliases@.len(),
            !m.variants.contains(variant@),
            forall|j: int| 0 <= j < k ==> !(#[trigger] m.aliases[j].0 == variant@ && m.variants.contains(m.aliases[j].1)),
        decreases info.aliases@.len() - k,
    {
        assert(m.aliases[k as int] == (info.aliases@[k as int].0@, info.aliases@[k as int].1@));
        if info.aliases[k].0 == *variant && contains_string(&info.variants, &info.aliases[k].1) {
            assert(m.aliases[k as int].0 == variant@ && m.variants.contains(m.aliases[k as int].1));
            return true;
        }
        k = k + 1;
    }
    false
}

pub(crate) fn resolve_enum_variant<E: Env>(ty: &String, variant: &String, env: &E) -> (out: (Result<Value, EvalError>, Ghost<Seq<EnvReply>>))
    ensures
        forall|rest: Seq<EnvReply>| #[trigger] enum_variant_m(ty@, variant@, out.1@ + rest) == (vres(out.0), rest),
        answered(env, out.1@),
{
    let info = env.enum_info(ty.as_str());
    let ghost reply = EnvReply { query: EnvQuery::EnumInfo(ty@), answer: EnvAnswer::EnumInfo(opt_view(info)) };
    let r = match info {
        Some(info) => {
            if variant_is_known(&info, variant) {
                Ok(Value::Enum { type_id: info.type_id, variant: variant.clone() })
            } else {
                Err(EvalError::EnumUnknownVariant { type_id: ty.clone(), variant: variant.clone(), span: no_span() })
            }
        },
        None => Err(EvalError::EnumUnknownType { type_id: ty.clone(), span: no_span() }),
    };
    let ghost t = seq![reply];
    proof {
        assert forall|rest: Seq<EnvReply>| #[trigger] enum_variant_m(ty@, variant@, t + rest) == (vres(r), rest) by {
            lemma_later_one(reply, rest);
        }
    }
    (r, Ghost(t))
}

// ---------- Operators ----------

pub(crate) fn eval_unary(op: UOp, value: Value) -> (r: Result<Value, EvalError>)
    ensures
        vres(r) == unary_result(op, value@),
{
    match op {
        UOp::Not => match value {
            Value::Bool(b) => Ok(Value::Bool(!b)),
            other => Err(EvalError::TypeMismatch { op: "!", left: other.type_tag(), right: TypeTag::Bool, span: no_span() }),
        },
        UOp::Neg => match value {
            Value::Int(i) => if i == i64::MIN {
                Err(overflow_err())
            } else {
                Ok(Value::Int(-i))
            },
            other => Err(EvalError::TypeMismatch { op: "-", left: other.type_tag(), right: TypeTag::Int, span: no_span() }),
        },
    }
}

fn op_text(op: BOp) -> (s: &'static str)
    ensures
        s == op_name(op),
{
    match op {
        BOp::Add => "+",
        BOp::Sub => "-",
        BOp::Mul => "*",
        BOp::Div => "/",
        BOp::Rem => "%",
        BOp::And => "&&",
        BOp::Or => "||",
        _ => "cmp",
    }
}

fn int_value(x: i128) -> (r: Result<Value, EvalError>)
    ensures
        vres(r) == int_result(x as int),
{
    if x < i64::MIN as i128 || x > i64::MAX as i128 {
        Err(overflow_err())
    } else {
        Ok(Value::Int(x as i64))
    }
}

fn magnitude(a: i64) -> (m: u64)
    ensures
        m as int == if a < 0 { -(a as int) } else { a as int },
{
    if a < 0 {
        (-(a as i128)) as u64
    } else {
        a as u64
    }
}

/// Division rounding toward zero, as `/` on `i64`.
fn div_trunc(a: i64, b: i64) -> (q: i64)
    requires
        b != 0,
        !(a == i64::MIN && b == -1),
    ensures
        q as int == div_toward_zero(a as int, b as int),
{
    let ua = magnitude(a);
    let ub = magnitude(b);
    let q = ua / ub;
    proof {
        assert(q <= ua) by (nonlinear_arith)
            requires
                q == ua / ub,
                ub >= 1,
        ;
        if ub >= 2 {
            assert(q <= ua / 2) by (nonlinear_arith)
                requires
                    q == ua / ub,
                    ub >= 2,
            ;
        }
    }
    let qi = q as i128;
    if (a < 0) == (b < 0) {
        (qi) as i64
    } else {
        (-qi) as i64
    }
}

/// The remainder of `div_trunc`, as `%` on `i64`.
fn rem_trunc(a: i64, b: i64) -> (r: i64)
    requires
        b != 0,
        !(a == i64::MIN && b == -1),
    ensures
        r as int == rem_toward_zero(a as int, b as int),
{
    let ua = magnitude(a);
    let ub = magnitude(b);
    let q = ua / ub;
    let m = ua % ub;
    proof {
        vstd::arithmetic::div_mod::lemma_fundamental_div_mod(ua as int, ub as int);
        let d = div_toward_zero(a as int, b as int);
        if a >= 0 && b > 0 {
            assert(d == q);
        } else if a < 0 && b > 0 {
            assert(d == -(q as int));
            assert(b * d == -(ub * q)) by (nonlinear_arith)
                requires
                    d == -(q as int),
                    b == ub,
            ;
        } else if a >= 0 && b < 0 {
            assert(d == -(q as int));
            assert(b * d == ub * q) by (nonlinear_arith)
                requires
                    d == -(q as int),
                    b == -(ub as int),
            ;
        } else {
            assert(d == q);
            assert(b * d == -(ub * q)) by (nonlinear_arith)
                requires
                    d == q,
                    b == -(ub as int),
            ;
        }
    }
    let mi = m as i128;
    if a < 0 {
        (-mi) as i64
    } else {
        mi as i64
    }
}

/// Arithmetic, equality and the boolean connectives on two values.
pub(crate) fn eval_plain(op: BOp, lhs: &Value, rhs: &Value) -> (r: Result<Value, EvalError>)
    requires
        !(op is Lt || op is Le || op is Gt || op is Ge),
    ensures
        vres(r) == binary_plain(op, lhs@, rhs@),
{
    match op {
        BOp::Add | BOp::Sub | BOp::Mul | BOp::Div | BOp::Rem => {
            match (lhs, rhs) {
                (Value::Int(a), Value::Int(b)) => eval_int_op(op, *a, *b),
                _ => Err(EvalError::TypeMismatch { op: op_text(op), left: lhs.type_tag(), right: rhs.type_tag(), span: no_span() }),
            }
        },
        BOp::And | BOp::Or => {
            match (lhs, rhs) {
                (Value::Bool(a), Value::Bool(b)) => {
                    if matches!(op, BOp::And) {
                        Ok(Value::Bool(*a && *b))
                    } else {
                        Ok(Value::Bool(*a || *b))
                    }
                },
                _ => Err(EvalError::TypeMismatch { op: op_text(op), left: lhs.type_tag(), right: rhs.type_tag(), span: no_span() }),
            }
        },
        BOp::Eq => match value_eq(lhs, rhs) {
            Ok(b) => Ok(Value::Bool(b)),
            Err(e) => Err(e),
        },
        _ => match value_eq(lhs, rhs) {
            Ok(b) => Ok(Value::Bool(!b)),
            Err(e) => Err(e),
        },
    }
}

#[verifier::spinoff_prover]
fn eval_int_op(op: BOp, a: i64, b: i64) -> (r: Result<Value, EvalError>)
    requires
        op is Add || op is Sub || op is Mul || op is Div || op is Rem,
    ensures
        vres(r) == binary_plain(op, ValueModel::Int(a), ValueModel::Int(b)),
{
    match op {
        BOp::Add => int_value(a as i128 + b as i128),
        BOp::Sub => int_value(a as i128 - b as i128),
        BOp::Mul => {
            proof {
                assert(-0x4000_0000_0000_0000_0000_0000_0000_0000 <= (a as int) * (b as int) <= 0x4000_0000_0000_0000_0000_0000_0000_0000) by (nonlinear_arith)
                    requires
                        -0x8000_0000_0000_0000 <= a <= 0x7fff_ffff_ffff_ffff,
                        -0x8000_0000_0000_0000 <= b <= 0x7fff_ffff_ffff_ffff,
                ;
            }
            int_value(a as i128 * b as i128)
        },
        BOp::Div => {
            if b == 0 {
                Err(EvalError::DivideByZero { span: no_span() })
            } else if a == i64::MIN && b == -1 {
                Err(overflow_err())
            } else {
                Ok(Value::Int(div_trunc(a, b)))
            }
        },
        _ => {
            if b == 0 {
                Err(EvalError::DivideByZero { span: no_span() })
            } else if a == i64::MIN && b == -1 {
                Err(overflow_err())
            } else {
                Ok(Value::Int(rem_trunc(a, b)))
            }
        },
    }
}

fn compare_i64(a: i64, b: i64) -> (c: Comparison)
    ensures
        c == compare_ints(a, b),
{
    if a < b {
        Comparison::Less
    } else if a == b {
        Comparison::Equal
    } else {
        Comparison::Greater
    }
}

/// Asks the environment for the default order of `type_id`, then for its verdict on `a` and `b`.
fn compare_in_default_order<E: Env>(env: &E, type_id: &String, a: &Value, b: &Value, missing: TypeTag) -> (out: (Result<Comparison, EvalError>, Ghost<Seq<EnvReply>>))
    ensures
        forall|rest: Seq<EnvReply>| #[trigger] ordered_by_default(type_id@, a@, b@, missing@, out.1@ + rest) == (err_model(out.0), rest),
        answered(env, out.1@),
{
    match env.default_order(type_id.as_str()) {
        None => {
            let ghost reply = EnvReply { query: EnvQuery::DefaultOrder(type_id@), answer: EnvAnswer::Order(None) };
            let r = Err(EvalError::OrderMissing { ty: missing, span: no_span() });
            let ghost t = seq![reply];
            proof {
                assert forall|rest: Seq<EnvReply>| #[trigger] ordered_by_default(type_id@, a@, b@, missing@, t + rest) == (err_model(r), rest) by {
                    lemma_later_one(reply, rest);
                }
            }
            (r, Ghost(t))
        },
        Some(order) => {
            let c = env.order_cmp(&order, a, b);
            let ghost r1 = EnvReply { query: EnvQuery::DefaultOrder(type_id@), answer: EnvAnswer::Order(Some(order@)) };
            let ghost r2 = EnvReply { query: EnvQuery::Compare(order@, a@, b@), answer: EnvAnswer::Compare(c) };
            let r = Ok(c);
            let ghost t = seq![r1, r2];
            proof {
                assert forall|rest: Seq<EnvReply>| #[trigger] ordered_by_default(type_id@, a@, b@, missing@, t + rest) == (err_model(r), rest) by {
                    lemma_later_two(r1, r2, rest);
                    lemma_later_one(r2, rest);
                }
            }
            (r, Ghost(t))
        },
    }
}

/// Orders two values for `<`, `<=`, `>`, `>=`: integers by value, variants of one enum by its default order.
pub(crate) fn compare_values<E: Env>(lhs: &Value, rhs: &Value, env: &E) -> (out: (Result<Comparison, EvalError>, Ghost<Seq<EnvReply>>))
    ensures
        forall|rest: Seq<EnvReply>| #[trigger] compare_m(lhs@, rhs@, out.1@ + rest) == (err_model(out.0), rest),
        answered(env, out.1@),
{
    match (lhs, rhs) {
        (Value::Int(a), Value::Int(b)) => {
            let c = compare_i64(*a, *b);
            proof {
                assert(forall|rest: Seq<EnvReply>| #[trigger] compare_m(lhs@, rhs@, Seq::empty() + rest) == (err_model(Ok::<Comparison, EvalError>(c)), rest));
            }
            (Ok(c), Ghost(Seq::empty()))
        },
        (Value::Enum { type_id: ty_l, .. }, Value::Enum { type_id: ty_r, .. }) => {
            if *ty_l == *ty_r {
                let missing = TypeTag::Enum(ty_l.clone());
                let (r, Ghost(t)) = compare_in_default_order(env, ty_l, lhs, rhs, missing);
                proof {
                    assert(missing@ == TypeTagModel::Enum(ty_l@));
                    assert forall|rest: Seq<EnvReply>| #[trigger] compare_m(lhs@, rhs@, t + rest) == (err_model(r), rest) by {
                        assert(ordered_by_default(ty_l@, lhs@, rhs@, missing@, t + rest) == (err_model(r), rest));
                    }
                }
                (r, Ghost(t))
            } else {
                let e = EvalError::TypeMismatch { op: "cmp", left: lhs.type_tag(), right: rhs.type_tag(), span: no_span() };
                proof {
                    assert(forall|rest: Seq<EnvReply>| #[trigger] compare_m(lhs@, rhs@, Seq::empty() + rest) == (err_model(Err::<Comparison, EvalError>(e)), rest));
                }
                (Err(e), Ghost(Seq::empty()))
            }
        },
        _ => {
            let e = EvalError::TypeMismatch { op: "cmp", left: lhs.type_tag(), right: rhs.type_tag(), span: no_span() };
            proof {
                assert(forall|rest: Seq<EnvReply>| #[trigger] compare_m(lhs@, rhs@, Seq::empty() + rest) == (err_model(Err::<Comparison, EvalError>(e)), rest));
            }
            (Err(e), Ghost(Seq::empty()))
        },
    }
}

/// A binary operator applied to two values.
pub(crate) fn eval_binary<E: Env>(op: BOp, lhs: Value, rhs: Value, env: &E) -> (out: (Result<Value, EvalError>, Ghost<Seq<EnvReply>>))
    ensures
        forall|rest: Seq<EnvReply>| #[trigger] binary_m(op, lhs@, rhs@, out.1@ + rest) == (vres(out.0), rest),
        answered(env, out.1@),
{
    match op {
        BOp::Lt | BOp::Le | BOp::Gt | BOp::Ge => {
            let (c, Ghost(t)) = compare_values(&lhs, &rhs, env);
            let r = match c {
                Err(e) => Err(e),
                Ok(c) => Ok(Value::Bool(match op {
                    BOp::Lt => matches!(c, Comparison::Less),
                    BOp::Le => !matches!(c, Comparison::Greater),
                    BOp::Gt => matches!(c, Comparison::Greater),
                    _ => !matches!(c, Comparison::Less),
                })),
            };
            proof {
                assert forall|rest: Seq<EnvReply>| #[trigger] binary_m(op, lhs@, rhs@, t + rest) == (vres(r), rest) by {
                    assert(compare_m(lhs@, rhs@, t + rest) == (err_model(c), rest));
                }
            }
            (r, Ghost(t))
        },
        _ => {
            let r = eval_plain(op, &lhs, &rhs);
            proof {
                assert(forall|rest: Seq<EnvReply>| #[trigger] binary_m(op, lhs@, rhs@, Seq::empty() + rest) == (vres(r), rest));
            }
            (r, Ghost(Seq::empty()))
        },
    }
}

} // verus!

verus! {

// ---------- Sets ----------

pub open spec fn vec_res(r: Result<Vec<Value>, EvalError>) -> Result<Seq<ValueModel>, EvalErrorModel> {
    match r {
        Ok(v) => Ok(values_model(v@)),
        Err(e) => Err(e@),
    }
}

/// The elements of `a` then `b`, each equal value kept once, at its first place.
fn union_values(a: &Vec<Value>, b: &Vec<Value>) -> (r: Result<Vec<Value>, EvalError>)
    ensures
        vec_res(r) == union_from(values_model(a@) + values_model(b@), 0, Seq::empty()),
{
    let ghost all = values_model(a@) + values_model(b@);
    proof {
        lemma_values_model(a@);
        lemma_values_model(b@);
    }
    let mut result: Vec<Value> = Vec::new();
    assert(values_model(result@) =~= Seq::<ValueModel>::empty());
    let mut i: usize = 0;
    while i < a.len()
        invariant
            i <= a@.len(),
            all == values_model(a@) + values_model(b@),
            values_model(a@).len() == a@.len(),
            values_model(b@).len() == b@.len(),
            forall|k: int| 0 <= k < a@.len() ==> #[trigger] values_model(a@)[k] == a@[k]@,
            union_from(all, 0, Seq::empty()) == union_from(all, i as int, values_model(result@)),
        decreases a@.len() - i,
    {
        assert(all[i as int] == a@[i as int]@);
        match contains_value(result.as_slice(), &a[i]) {
            Err(e) => {
                return Err(e);
            },
            Ok(true) => {},
            Ok(false) => {
                let c = copy_value(&a[i]);
                proof {
                    lemma_values_model_push(result@, c);
                }
                result.push(c);
            },
        }
        i = i + 1;
    }
    let mut j: usize = 0;
    while j < b.len()
        invariant
            j <= b@.len(),
            all == values_model(a@) + values_model(b@),
            values_model(a@).len() == a@.len(),
            values_model(b@).len() == b@.len(),
            forall|k: int| 0 <= k < b@.len() ==> #[trigger] values_model(b@)[k] == b@[k]@,
            union_from(all, 0, Seq::empty()) == union_from(all, a@.len() + j, values_model(result@)),
        decreases b@.len() - j,
    {
        assert(all[a@.len() + j] == b@[j as int]@);
        match contains_value(result.as_slice(), &b[j]) {
            Err(e) => {
                return Err(e);
            },
            Ok(true) => {},
            Ok(false) => {
                let c = copy_value(&b[j]);
                proof {
                    lemma_values_model_push(result@, c);
                }
                result.push(c);
            },
        }
        j = j + 1;
    }
    Ok(result)
}

/// The elements of `a` equal to some element of `b`, each equal value kept once.
fn intersect_values(a: &Vec<Value>, b: &Vec<Value>) -> (r: Result<Vec<Value>, EvalError>)
    ensures
        vec_res(r) == intersect_from(values_model(a@), 0, values_model(b@), Seq::empty()),
{
    let ghost am = values_model(a@);
    let ghost bm = values_model(b@);
    proof {
        lemma_values_model(a@);
    }
    let mut result: Vec<Value> = Vec::new();
    assert(values_model(result@) =~= Seq::<ValueModel>::empty());
    let mut i: usize = 0;
    while i < a.len()
        invariant
            i <= a@.len(),
            am == values_model(a@),
            bm == values_model(b@),
            am.len() == a@.len(),
            forall|k: int| 0 <= k < a@.len() ==> #[trigger] am[k] == a@[k]@,
            intersect_from(am, 0, bm, Seq::empty()) == intersect_from(am, i as int, bm, values_model(result@)),
        decreases a@.len() - i,
    {
        assert(am[i as int] == a@[i as int]@);
        match contains_value(b.as_slice(), &a[i]) {
            Err(e) => {
                return Err(e);
            },
            Ok(false) => {},
            Ok(true) => {
                match contains_value(result.as_slice(), &a[i]) {
                    Err(e) => {
                        return Err(e);
                    },
                    Ok(true) => {},
                    Ok(false) => {
                        let c = copy_value(&a[i]);
                        proof {
                            lemma_values_model_push(result@, c);
                        }
                        result.push(c);
                    },
                }
            },
        }
        i = i + 1;
    }
    Ok(result)
}

/// The elements of `a` equal to no element of `b`.
fn diff_values(a: &Vec<Value>, b: &Vec<Value>) -> (r: Result<Vec<Value>, EvalError>)
    ensures
        vec_res(r) == diff_from(values_model(a@), 0, values_model(b@), Seq::empty()),
{
    let ghost am = values_model(a@);
    let ghost bm = values_model(b@);
    proof {
        lemma_values_model(a@);
    }
    let mut result: Vec<Value> = Vec::new();
    assert(values_model(result@) =~= Seq::<ValueModel>::empty());
    let mut i: usize = 0;
    while i < a.len()
        invariant
            i <= a@.len(),
            am == values_model(a@),
            bm == values_model(b@),
            am.len() == a@.len(),
            forall|k: int| 0 <= k < a@.len() ==> #[trigger] am[k] == a@[k]@,
            diff_from(am, 0, bm, Seq::empty()) == diff_from(am, i as int, bm, values_model(result@)),
        decreases a@.len() - i,
    {
        assert(am[i as int] == a@[i as int]@);
        match contains_value(b.as_slice(), &a[i]) {
            Err(e) => {
                return Err(e);
            },
            Ok(true) => {},
            Ok(false) => {
                let c = copy_value(&a[i]);
                proof {
                    lemma_values_model_push(result@, c);
                }
                result.push(c);
            },
        }
        i = i + 1;
    }
    Ok(result)
}

/// Union, intersection or difference of two sets.
pub(crate) fn eval_set_op(op: SetOp, lhs: Value, rhs: Value) -> (r: Result<Value, EvalError>)
    ensures
        vres(r) == set_op_result(op, lhs@, rhs@),
{
    match (lhs, rhs) {
        (Value::SetOf(left), Value::SetOf(right)) => {
            if !tag_eq(&left.elem_type, &right.elem_type) && !tag_is_unknown(&left.elem_type)
                && !tag_is_unknown(&right.elem_type) {
                return Err(EvalError::SetTypeMismatch { lhs_ty: left.elem_type, rhs_ty: right.elem_type, span: no_span() });
            }
            let elems = match op {
                SetOp::Union => union_values(&left.elements, &right.elements),
                SetOp::Intersect => intersect_values(&left.elements, &right.elements),
                SetOp::Diff => diff_values(&left.elements, &right.elements),
            };
            let elem_type = if !tag_is_unknown(&left.elem_type) {
                left.elem_type
            } else {
                right.elem_type
            };
            match elems {
                Ok(es) => Ok(Value::SetOf(SetValue { elem_type, elements: es })),
                Err(e) => Err(e),
            }
        },
        (_left, right) => Err(EvalError::InOnNonSet { rhs_ty: right.type_tag(), span: no_span() }),
    }
}

// ---------- Intervals ----------

/// Compares two values as elements of an interval whose elements have type `ty`.
fn compare_values_with_type<E: Env>(a: &Value, b: &Value, ty: &TypeTag, env: &E) -> (out: (Result<Comparison, EvalError>, Ghost<Seq<EnvReply>>))
    ensures
        forall|rest: Seq<EnvReply>| #[trigger] compare_typed_m(a@, b@, ty@, out.1@ + rest) == (err_model(out.0), rest),
        answered(env, out.1@),
{
    let ghost empty = Seq::<EnvReply>::empty();
    let r = match ty {
        TypeTag::Int => match (a, b) {
            (Value::Int(x), Value::Int(y)) => Ok(compare_i64(*x, *y)),
            _ => Err(EvalError::IntervalTypeMismatch { lo_ty: a.type_tag(), hi_ty: b.type_tag(), x_ty: copy_tag(ty), span: no_span() }),
        },
        TypeTag::Enum(type_id) => match (a, b) {
            (Value::Enum { type_id: ta, .. }, Value::Enum { type_id: tb, .. }) => {
                if *ta == *tb {
                    let (r, Ghost(t)) = compare_in_default_order(env, type_id, a, b, copy_tag(ty));
                    proof {
                        assert forall|rest: Seq<EnvReply>| #[trigger] compare_typed_m(a@, b@, ty@, t + rest) == (err_model(r), rest) by {
                            assert(ordered_by_default(type_id@, a@, b@, ty@, t + rest) == (err_model(r), rest));
                        }
                    }
                    return (r, Ghost(t));
                } else {
                    Err(EvalError::IntervalTypeMismatch { lo_ty: a.type_tag(), hi_ty: b.type_tag(), x_ty: copy_tag(ty), span: no_span() })
                }
            },
            _ => Err(EvalError::IntervalTypeMismatch { lo_ty: a.type_tag(), hi_ty: b.type_tag(), x_ty: copy_tag(ty), span: no_span() }),
        },
        _ => Err(EvalError::OrderMissing { ty: copy_tag(ty), span: no_span() }),
    };
    proof {
        assert(forall|rest: Seq<EnvReply>| #[trigger] compare_typed_m(a@, b@, ty@, empty + rest) == (err_model(r), rest));
    }
    (r, Ghost(empty))
}

fn satisfies_lower_bound<E: Env>(value: &Value, bound: &BoundValue, ty: &TypeTag, env: &E) -> (out: (Result<bool, EvalError>, Ghost<Seq<EnvReply>>))
    ensures
        forall|rest: Seq<EnvReply>| #[trigger] lower_ok_m(value@, bound@, ty@, out.1@ + rest) == (err_model(out.0), rest),
        answered(env, out.1@),
{
    let ghost empty = Seq::<EnvReply>::empty();
    match bound {
        BoundValue::NegInf => {
            proof {
                assert(forall|rest: Seq<EnvReply>| #[trigger] lower_ok_m(value@, bound@, ty@, empty + rest) == (err_model(Ok::<bool, EvalError>(true)), rest));
            }
            (Ok(true), Ghost(empty))
        },
        BoundValue::PosInf => {
            let r = Err(EvalError::IntervalInvalidBounds { span: no_span() });
            proof {
                assert(forall|rest: Seq<EnvReply>| #[trigger] lower_ok_m(value@, bound@, ty@, empty + rest) == (err_model(r), rest));
            }
            (r, Ghost(empty))
        },
        BoundValue::Open(v) => {
            let (c, Ghost(t)) = compare_values_with_type(value, v, ty, env);
            let r = match c {
                Err(e) => Err(e),
                Ok(c) => Ok(matches!(c, Comparison::Greater)),
            };
            proof {
                assert forall|rest: Seq<EnvReply>| #[trigger] lower_ok_m(value@, bound@, ty@, t + rest) == (err_model(r), rest) by {
                    assert(compare_typed_m(value@, v@, ty@, t + rest) == (err_model(c), rest));
                }
            }
            (r, Ghost(t))
        },
        BoundValue::Closed(v) => {
            let (c, Ghost(t)) = compare_values_with_type(value, v, ty, env);
            let r = match c {
                Err(e) => Err(e),
                Ok(c) => Ok(matches!(c, Comparison::Greater) || matches!(c, Comparison::Equal)),
            };
            proof {
                assert forall|rest: Seq<EnvReply>| #[trigger] lower_ok_m(value@, bound@, ty@, t + rest) == (err_model(r), rest) by {
                    assert(compare_typed_m(value@, v@, ty@, t + rest) == (err_model(c), rest));
                }
            }
            (r, Ghost(t))
        },
    }
}

fn satisfies_upper_bound<E: Env>(value: &Value, bound: &BoundValue, ty: &TypeTag, env: &E) -> (out: (Result<bool, EvalError>, Ghost<Seq<EnvReply>>))
    ensures
        forall|rest: Seq<EnvReply>| #[trigger] upper_ok_m(value@, bound@, ty@, out.1@ + rest) == (err_model(out.0), rest),
        answered(env, out.1@),
{
    let ghost empty = Seq::<EnvReply>::empty();
    match bound {
        BoundValue::PosInf => {
            proof {
                assert(forall|rest: Seq<EnvReply>| #[trigger] upper_ok_m(value@, bound@, ty@, empty + rest) == (err_model(Ok::<bool, EvalError>(true)), rest));
            }
            (Ok(true), Ghost(empty))
        },
        BoundValue::NegInf => {
            let r = Err(EvalError::IntervalInvalidBounds { span: no_span() });
            proof {
                assert(forall|rest: Seq<EnvReply>| #[trigger] upper_ok_m(value@, bound@, ty@, empty + rest) == (err_model(r), rest));
            }
            (r, Ghost(empty))
        },
        BoundValue::Open(v) => {
            let (c, Ghost(t)) = compare_values_with_type(value, v, ty, env);
            let r = match c {
                Err(e) => Err(e),
                Ok(c) => Ok(matches!(c, Comparison::Less)),
            };
            proof {
                assert forall|rest: Seq<EnvReply>| #[trigger] upper_ok_m(value@, bound@, ty@, t + rest) == (err_model(r), rest) by {
                    assert(compare_typed_m(value@, v@, ty@, t + rest) == (err_model(c), rest));
                }
            }
            (r, Ghost(t))
        },
        BoundValue::Closed(v) => {
            let (c, Ghost(t)) = compare_values_with_type(value, v, ty, env);
            let r = match c {
                Err(e) => Err(e),
                Ok(c) => Ok(matches!(c, Comparison::Less) || matches!(c, Comparison::Equal)),
            };
            proof {
                assert forall|rest: Seq<EnvReply>| #[trigger] upper_ok_m(value@, bound@, ty@, t + rest) == (err_model(r), rest) by {
                    assert(compare_typed_m(value@, v@, ty@, t + rest) == (err_model(c), rest));
                }
            }
            (r, Ghost(t))
        },
    }
}

/// Checks that an interval's bounds are valid: lower not `+inf`, upper not `-inf`, finite bounds in order.
pub(crate) fn validate_interval_bounds<E: Env>(lo: &BoundValue, hi: &BoundValue, ty: &TypeTag, env: &E) -> (out: (Result<(), EvalError>, Ghost<Seq<EnvReply>>))
    ensures
        forall|rest: Seq<EnvReply>| #[trigger] validate_bounds_m(lo@, hi@, ty@, out.1@ + rest) == (err_model(out.0), rest),
        answered(env, out.1@),
{
    let ghost empty = Seq::<EnvReply>::empty();
    match (lo, hi) {
        (BoundValue::PosInf, _) | (_, BoundValue::NegInf) => {
            let r = Err(EvalError::IntervalInvalidBounds { span: no_span() });
            proof {
                assert(forall|rest: Seq<EnvReply>| #[trigger] validate_bounds_m(lo@, hi@, ty@, empty + rest) == (err_model(r), rest));
            }
            (r, Ghost(empty))
        },
        (BoundValue::NegInf, _) | (_, BoundValue::PosInf) => {
            proof {
                assert(forall|rest: Seq<EnvReply>| #[trigger] validate_bounds_m(lo@, hi@, ty@, empty + rest) == (err_model(Ok::<(), EvalError>(())), rest));
            }
            (Ok(()), Ghost(empty))
        },
        (BoundValue::Open(l), BoundValue::Open(r)) | (BoundValue::Open(l), BoundValue::Closed(r))
        | (BoundValue::Closed(l), BoundValue::Open(r)) | (BoundValue::Closed(l), BoundValue::Closed(r)) => {
            let (c, Ghost(t)) = compare_values_with_type(l, r, ty, env);
            let res = match c {
                Err(e) => Err(e),
                Ok(c) => if matches!(c, Comparison::Greater) {
                    Err(EvalError::IntervalInvalidBounds { span: no_span() })
                } else {
                    Ok(())
                },
            };
            proof {
                assert forall|rest: Seq<EnvReply>| #[trigger] validate_bounds_m(lo@, hi@, ty@, t + rest) == (err_model(res), rest) by {
                    assert(compare_typed_m(l@, r@, ty@, t + rest) == (err_model(c), rest));
                }
            }
            (res, Ghost(t))
        },
    }
}

/// Whether the value lies in the interval.
fn interval_contains<E: Env>(value: &Value, interval: &IntervalValue, env: &E) -> (out: (Result<bool, EvalError>, Ghost<Seq<EnvReply>>))
    ensures
        forall|rest: Seq<EnvReply>| #[trigger] interval_contains_m(value@, interval.elem_type@, interval.lo@, interval.hi@, out.1@ + rest) == (err_model(out.0), rest),
        answered(env, out.1@),
{
    let ghost empty = Seq::<EnvReply>::empty();
    let value_tag = value.type_tag();
    let target_ty = if tag_is_unknown(&interval.elem_type) {
        copy_tag(&value_tag)
    } else {
        copy_tag(&interval.elem_type)
    };
    if !tag_is_unknown(&target_ty) && !tag_eq(&value_tag, &target_ty) {
        let r = Err(EvalError::IntervalTypeMismatch {
            lo_ty: copy_tag(&interval.elem_type),
            hi_ty: copy_tag(&interval.elem_type),
            x_ty: value_tag,
            span: no_span(),
        });
        proof {
            assert(forall|rest: Seq<EnvReply>| #[trigger] interval_contains_m(value@, interval.elem_type@, interval.lo@, interval.hi@, empty + rest) == (err_model(r), rest));
        }
        return (r, Ghost(empty));
    }
    let (lower, Ghost(t1)) = satisfies_lower_bound(value, &interval.lo, &target_ty, env);
    let lower_ok = match lower {
        Ok(b) => b,
        Err(e) => {
            return (Err(e), Ghost(t1));
        },
    };
    let (upper, Ghost(t2)) = satisfies_upper_bound(value, &interval.hi, &target_ty, env);
    let r = match upper {
        Ok(b) => Ok(lower_ok && b),
        Err(e) => Err(e),
    };
    proof {
        assert forall|rest: Seq<EnvReply>| #[trigger] interval_contains_m(value@, interval.elem_type@, interval.lo@, interval.hi@, (t1 + t2) + rest) == (err_model(r), rest) by {
            lemma_assoc(t1, t2, rest);
            assert(lower_ok_m(value@, interval.lo@, target_ty@, t1 + (t2 + rest)) == (err_model(Ok::<bool, EvalError>(lower_ok)), t2 + rest));
            assert(upper_ok_m(value@, interval.hi@, target_ty@, t2 + rest) == (err_model(upper), rest));
        }
    }
    (r, Ghost(t1 + t2))
}

/// `value in set_value`, for a set or an interval.
pub(crate) fn eval_membership<E: Env>(value: Value, set_value: Value, env: &E) -> (out: (Result<Value, EvalError>, Ghost<Seq<EnvReply>>))
    ensures
        forall|rest: Seq<EnvReply>| #[trigger] membership_m(value@, set_value@, out.1@ + rest) == (vres(out.0), rest),
        answered(env, out.1@),
{
    let ghost empty = Seq::<EnvReply>::empty();
    match &set_value {
        Value::SetOf(set) => {
            let r = match contains_value(set.elements.as_slice(), &value) {
                Ok(b) => Ok(Value::Bool(b)),
                Err(e) => Err(e),
            };
            proof {
                assert(forall|rest: Seq<EnvReply>| #[trigger] membership_m(value@, set_value@, empty + rest) == (vres(r), rest));
            }
            (r, Ghost(empty))
        },
        Value::Interval(interval) => {
            let (c, Ghost(t)) = interval_contains(&value, interval, env);
            let r = match c {
                Ok(b) => Ok(Value::Bool(b)),
                Err(e) => Err(e),
            };
            proof {
                assert forall|rest: Seq<EnvReply>| #[trigger] membership_m(value@, set_value@, t + rest) == (vres(r), rest) by {
                    assert(interval_contains_m(value@, interval.elem_type@, interval.lo@, interval.hi@, t + rest) == (err_model(c), rest));
                }
            }
            (r, Ghost(t))
        },
        other => {
            let r = Err(EvalError::InOnNonSet { rhs_ty: other.type_tag(), span: no_span() });
            proof {
                assert(forall|rest: Seq<EnvReply>| #[trigger] membership_m(value@, set_value@, empty + rest) == (vres(r), rest));
            }
            (r, Ghost(empty))
        },
    }
}

} // verus!

verus! {

// ---------- Lambdas ----------

/// Adds to `acc` the names that `expr` uses without binding them, in order of first use.
fn collect_free_vars(expr: &Expr, bound: &Vec<String>, acc: &mut Vec<String>)
    ensures
        strings_view(final(acc)@) == free_vars(expr@, strings_view(bound@), strings_view(old(acc)@)),
    decreases esize(expr@), 0nat,
{
    match expr {
        Expr::Int(_) | Expr::Bool(_) | Expr::Str(_) | Expr::EnumVariant { .. } | Expr::Infinity(_) => {},
        Expr::Ident(path) => {
            if path.0.len() > 0 && !contains_string(bound, &path.0[0]) && !contains_string(acc, &path.0[0]) {
                let ghost before = acc@;
                acc.push(path.0[0].clone());
                proof {
                    assert(strings_view(acc@) =~= strings_view(before).push(path.0@[0]@));
                }
            }
        },
        Expr::Unary { expr, .. } => collect_free_vars(expr, bound, acc),
        Expr::Binary { left, right, .. } => {
            collect_free_vars(left, bound, acc);
            collect_free_vars(right, bound, acc);
        },
        Expr::SetLiteral(items) => collect_free_vars_list(items, bound, acc),
        Expr::In { elem, set } => {
            collect_free_vars(elem, bound, acc);
            collect_free_vars(set, bound, acc);
        },
        Expr::SetOp { lhs, rhs, .. } => {
            collect_free_vars(lhs, bound, acc);
            collect_free_vars(rhs, bound, acc);
        },
        Expr::Cardinality(inner) => collect_free_vars(inner, bound, acc),
        Expr::Interval(interval) => {
            collect_free_vars_bound(&interval.lo, bound, acc);
            collect_free_vars_bound(&interval.hi, bound, acc);
        },
        Expr::Lambda { params, body } => {
            let mut inner_bound = crate::ast::copy_strings(bound);
            let mut k: usize = 0;
            while k < params.len()
                invariant
                    k <= params@.len(),
                    strings_view(inner_bound@) == strings_view(bound@) + strings_view(params@.take(k as int)),
                decreases params@.len() - k,
            {
                let ghost before = inner_bound@;
                inner_bound.push(params[k].clone());
                proof {
                    assert(strings_view(inner_bound@) =~= strings_view(before).push(params@[k as int]@));
                    assert(strings_view(params@.take(k as int + 1)) =~= strings_view(params@.take(k as int)).push(params@[k as int]@));
                }
                k = k + 1;
            }
            assert(params@.take(k as int) =~= params@);
            collect_free_vars(body, &inner_bound, acc);
        },
        Expr::Call(call) => collect_free_vars_list(&call.args, bound, acc),
        Expr::Pipe { lhs, call } => {
            collect_free_vars(lhs, bound, acc);
            collect_free_vars_list(&call.args, bound, acc);
        },
        Expr::WithSemiring { body, .. } => collect_free_vars(body, bound, acc),
    }
}

fn collect_free_vars_bound(b: &crate::ast::BoundExpr, bound: &Vec<String>, acc: &mut Vec<String>)
    ensures
        strings_view(final(acc)@) == crate::semantics::free_vars_bound(b@, strings_view(bound@), strings_view(old(acc)@)),
    decreases crate::ast::bsize(b@), 1nat,
{
    match b {
        crate::ast::BoundExpr::Open(x) | crate::ast::BoundExpr::Closed(x) => collect_free_vars(x, bound, acc),
        _ => {},
    }
}

fn collect_free_vars_list(items: &Vec<Expr>, bound: &Vec<String>, acc: &mut Vec<String>)
    ensures
        strings_view(final(acc)@) == crate::semantics::free_vars_list(crate::ast::exprs_model(items@), strings_view(bound@), strings_view(old(acc)@)),
    decreases crate::ast::esizes(crate::ast::exprs_model(items@)), 1nat,
{
    let ghost all = crate::ast::exprs_model(items@);
    proof {
        crate::ast::lemma_exprs_model(items@);
    }
    let mut i: usize = 0;
    assert(all.subrange(0, all.len() as int) =~= all);
    while i < items.len()
        invariant
            i <= items@.len(),
            all == crate::ast::exprs_model(items@),
            all.len() == items@.len(),
            forall|k: int| 0 <= k < items@.len() ==> #[trigger] all[k] == items@[k]@,
            crate::semantics::free_vars_list(all, strings_view(bound@), strings_view(old(acc)@))
                == crate::semantics::free_vars_list(all.subrange(i as int, all.len() as int), strings_view(bound@), strings_view(acc@)),
        decreases items@.len() - i,
    {
        let ghost sub = all.subrange(i as int, all.len() as int);
        proof {
            crate::ast::lemma_esizes_elem(all, i as int);
            assert(sub[0] == all[i as int]);
            assert(sub.subrange(1, sub.len() as int) =~= all.subrange(i + 1, all.len() as int));
        }
        collect_free_vars(&items[i], bound, acc);
        i = i + 1;
    }
    acc.len();
}

/// A lambda value capturing the current values of the names its body uses freely.
pub(crate) fn build_lambda<E: Env>(params: &Vec<String>, body: &Expr, env: &E, scope: &Vec<(String, Value)>) -> (out: (Result<Value, EvalError>, Ghost<Seq<EnvReply>>))
    ensures
        forall|rest: Seq<EnvReply>| #[trigger] crate::semantics::build_lambda_m(strings_view(params@), body@, captures_model(scope@), out.1@ + rest) == (vres(out.0), rest),
        answered(env, out.1@),
{
    let mut free: Vec<String> = Vec::new();
    assert(strings_view(free@) =~= Seq::<Seq<char>>::empty());
    collect_free_vars(body, params, &mut free);
    let ghost names = strings_view(free@);
    let ghost sc = captures_model(scope@);
    let mut captures: Vec<(String, Value)> = Vec::new();
    assert(captures_model(captures@) =~= Seq::<(Seq<char>, ValueModel)>::empty());
    let ghost mut t = Seq::<EnvReply>::empty();
    let mut i: usize = 0;
    while i < free.len()
        invariant
            answered(env, t),
            i <= free@.len(),
            names == strings_view(free@),
            names == crate::semantics::free_vars(body@, strings_view(params@), Seq::empty()),
            sc == captures_model(scope@),
            forall|rest: Seq<EnvReply>| #[trigger] crate::semantics::capture_all(names, 0, sc, Seq::empty(), t + rest)
                == crate::semantics::capture_all(names, i as int, sc, captures_model(captures@), rest),
        decreases free@.len() - i,
    {
        let (v, Ghost(t1)) = lookup(env, scope, &free[i]);
        assert(names[i as int] == free@[i as int]@);
        match v {
            None => {
                let e = EvalError::LambdaCaptureUnknown { name: free[i].clone(), span: no_span() };
                proof {
                    assert forall|rest: Seq<EnvReply>| #[trigger] crate::semantics::build_lambda_m(strings_view(params@), body@, sc, (t + t1) + rest) == (vres(Err::<Value, EvalError>(e)), rest) by {
                        lemma_assoc(t, t1, rest);
                        assert(lookup_name(sc, names[i as int], t1 + rest) == (opt_value_model(v), rest));
                    }
                }
                return (Err(e), Ghost(t + t1));
            },
            Some(v) => {
                let c = (free[i].clone(), v);
                proof {
                    crate::value::lemma_captures_model_push(captures@, c);
                    assert forall|rest: Seq<EnvReply>| #[trigger] crate::semantics::capture_all(names, 0, sc, Seq::empty(), (t + t1) + rest)
                        == crate::semantics::capture_all(names, i + 1, sc, captures_model(captures@.push(c)), rest) by {
                        lemma_assoc(t, t1, rest);
                        assert(lookup_name(sc, names[i as int], t1 + rest) == (Some(c.1@), rest));
                    }
                    t = t + t1;
                }
                captures.push(c);
            },
        }
        i = i + 1;
    }
    let r = Ok(Value::Lambda(crate::value::LambdaValue {
        params: crate::ast::copy_strings(params),
        body: Box::new(crate::ast::copy_expr(body)),
        captures,
    }));
    (r, Ghost(t))
}

} // verus!

verus! {

// ---------- Evaluation ----------

/// A lambda value as the semantics takes it apart.
pub open spec fn lambda_parts(l: LambdaValue) -> LambdaParts {
    LambdaParts { params: strings_view(l.params@), body: l.body@, captures: captures_model(l.captures@) }
}

pub open spec fn bound_res(r: Result<(BoundValue, Option<TypeTag>), EvalError>) -> Result<(BoundValueModel, Option<TypeTagModel>), EvalErrorModel> {
    match r {
        Ok((b, tag)) => Ok((b@, opt_view(tag))),
        Err(e) => Err(e@),
    }
}

pub open spec fn tag_res(r: Result<TypeTag, EvalError>) -> Result<TypeTagModel, EvalErrorModel> {
    match r {
        Ok(t) => Ok(t@),
        Err(e) => Err(e@),
    }
}

fn interval_type(lo: Option<TypeTag>, hi: Option<TypeTag>) -> (r: Result<TypeTag, EvalError>)
    ensures
        tag_res(r) == crate::semantics::resolve_interval_type(opt_view(lo), opt_view(hi)),
{
    match (lo, hi) {
        (Some(a), Some(b)) => if tag_eq(&a, &b) {
            Ok(a)
        } else {
            Err(EvalError::IntervalTypeMismatch { lo_ty: a, hi_ty: b, x_ty: TypeTag::Unknown, span: no_span() })
        },
        (Some(a), None) => Ok(a),
        (None, Some(b)) => Ok(b),
        (None, None) => Ok(TypeTag::Int),
    }
}


/// An interval bound: its value and the value's type tag; an infinite bound has no tag.
fn eval_bound<E: Env>(fuel: u64, b: &BoundExpr, env: &E, scope: &Vec<(String, Value)>, sr: &Option<SemiringOps>) -> (out: (Result<(BoundValue, Option<TypeTag>), EvalError>, Ghost<Seq<EnvReply>>))
    ensures
        forall|rest: Seq<EnvReply>| #[trigger] bound_m(fuel as nat, b@, ctx_of(scope@, *sr), out.1@ + rest) == (bound_res(out.0), rest),
        answered(env, out.1@),
    decreases fuel, crate::ast::bsize(b@), 4nat, 0nat,
{
    let ghost cx = ctx_of(scope@, *sr);
    let ghost empty = Seq::<EnvReply>::empty();
    match b {
        BoundExpr::Open(x) | BoundExpr::Closed(x) => {
            let (r, Ghost(t)) = eval_in(fuel, x, env, scope, sr);
            let ghost rm = vres(r);
            let out = match r {
                Err(e) => Err(e),
                Ok(v) => {
                    let tag = v.type_tag();
                    if matches!(b, BoundExpr::Open(_)) {
                        Ok((BoundValue::Open(Box::new(v)), Some(tag)))
                    } else {
                        Ok((BoundValue::Closed(Box::new(v)), Some(tag)))
                    }
                },
            };
            proof {
                assert forall|rest: Seq<EnvReply>| #[trigger] bound_m(fuel as nat, b@, cx, t + rest) == (bound_res(out), rest) by {
                    assert(eval_m(fuel as nat, x@, cx, t + rest) == (rm, rest));
                }
            }
            (out, Ghost(t))
        },
        BoundExpr::NegInf => {
            let out = Ok((BoundValue::NegInf, None));
            proof {
                assert(forall|rest: Seq<EnvReply>| #[trigger] bound_m(fuel as nat, b@, cx, empty + rest) == (bound_res(out), rest));
            }
            (out, Ghost(empty))
        },
        BoundExpr::PosInf => {
            let out = Ok((BoundValue::PosInf, None));
            proof {
                assert(forall|rest: Seq<EnvReply>| #[trigger] bound_m(fuel as nat, b@, cx, empty + rest) == (bound_res(out), rest));
            }
            (out, Ghost(empty))
        },
    }
}

pub open spec fn interval_expr_m(iv: IntervalExpr) -> ExprModel {
    ExprModel::Interval { lo: iv.lo@, hi: iv.hi@ }
}

/// An interval literal: both bounds, their common type, and a check that they are in order.
fn eval_interval_literal<E: Env>(fuel: u64, interval: &IntervalExpr, env: &E, scope: &Vec<(String, Value)>, sr: &Option<SemiringOps>) -> (out: (Result<Value, EvalError>, Ghost<Seq<EnvReply>>))
    ensures
        forall|rest: Seq<EnvReply>| #[trigger] eval_m(fuel as nat, interval_expr_m(*interval), ctx_of(scope@, *sr), out.1@ + rest) == (vres(out.0), rest),
        answered(env, out.1@),
    decreases fuel, crate::ast::bsize(interval.lo@) + crate::ast::bsize(interval.hi@), 5nat, 0nat,
{
    let ghost cx = ctx_of(scope@, *sr);
    let ghost e = interval_expr_m(*interval);
    let (rl, Ghost(t1)) = eval_bound(fuel, &interval.lo, env, scope, sr);
    let ghost rlm = bound_res(rl);
    let (lo, lo_tag) = match rl {
        Err(err) => {
            proof {
                assert forall|rest: Seq<EnvReply>| #[trigger] eval_m(fuel as nat, e, cx, t1 + rest) == (vres(Err::<Value, EvalError>(err)), rest) by {
                    assert(bound_m(fuel as nat, interval.lo@, cx, t1 + rest) == (rlm, rest));
                }
            }
            return (Err(err), Ghost(t1));
        },
        Ok(p) => p,
    };
    let (rh, Ghost(t2)) = eval_bound(fuel, &interval.hi, env, scope, sr);
    let ghost rhm = bound_res(rh);
    let (hi, hi_tag) = match rh {
        Err(err) => {
            proof {
                assert forall|rest: Seq<EnvReply>| #[trigger] eval_m(fuel as nat, e, cx, (t1 + t2) + rest) == (vres(Err::<Value, EvalError>(err)), rest) by {
                    lemma_assoc(t1, t2, rest);
                    assert(bound_m(fuel as nat, interval.lo@, cx, t1 + (t2 + rest)) == (rlm, t2 + rest));
                    assert(bound_m(fuel as nat, interval.hi@, cx, t2 + rest) == (rhm, rest));
                }
            }
            return (Err(err), Ghost(t1 + t2));
        },
        Ok(p) => p,
    };
    let ghost lo_tag_m = opt_view(lo_tag);
    let ghost hi_tag_m = opt_view(hi_tag);
    let ty = match interval_type(lo_tag, hi_tag) {
        Err(err) => {
            proof {
                assert forall|rest: Seq<EnvReply>| #[trigger] eval_m(fuel as nat, e, cx, (t1 + t2) + rest) == (vres(Err::<Value, EvalError>(err)), rest) by {
                    lemma_assoc(t1, t2, rest);
                    assert(bound_m(fuel as nat, interval.lo@, cx, t1 + (t2 + rest)) == (rlm, t2 + rest));
                    assert(bound_m(fuel as nat, interval.hi@, cx, t2 + rest) == (rhm, rest));
                }
            }
            return (Err(err), Ghost(t1 + t2));
        },
        Ok(ty) => ty,
    };
    let (rv, Ghost(t3)) = validate_interval_bounds(&lo, &hi, &ty, env);
    let r = match rv {
        Err(err) => Err(err),
        Ok(_) => Ok(Value::Interval(Box::new(IntervalValue { elem_type: ty, lo, hi }))),
    };
    proof {
        assert forall|rest: Seq<EnvReply>| #[trigger] eval_m(fuel as nat, e, cx, ((t1 + t2) + t3) + rest) == (vres(r), rest) by {
            lemma_assoc(t1 + t2, t3, rest);
            lemma_assoc(t1, t2, t3 + rest);
            assert(bound_m(fuel as nat, interval.lo@, cx, t1 + (t2 + (t3 + rest))) == (rlm, t2 + (t3 + rest)));
            assert(bound_m(fuel as nat, interval.hi@, cx, t2 + (t3 + rest)) == (rhm, t3 + rest));
            assert(validate_bounds_m(lo@, hi@, ty@, t3 + rest) == (err_model(rv), rest));
        }
    }
    (r, Ghost((t1 + t2) + t3))
}

/// The elements of a set literal, evaluated in order; their type is that of the first element
/// of known type, and every later element of known type must have it.
fn eval_set_literal<E: Env>(fuel: u64, items: &Vec<Expr>, env: &E, scope: &Vec<(String, Value)>, sr: &Option<SemiringOps>) -> (out: (Result<Value, EvalError>, Ghost<Seq<EnvReply>>))
    ensures
        forall|rest: Seq<EnvReply>| #[trigger] set_literal_m(fuel as nat, exprs_model(items@), ctx_of(scope@, *sr), None, Seq::empty(), out.1@ + rest) == (vres(out.0), rest),
        answered(env, out.1@),
    decreases fuel, esizes(exprs_model(items@)), 4nat, 0nat,
{
    let ghost all = exprs_model(items@);
    let ghost cx = ctx_of(scope@, *sr);
    proof {
        lemma_exprs_model(items@);
    }
    let mut evaluated: Vec<Value> = Vec::new();
    let mut elem_type: Option<TypeTag> = None;
    let ghost mut t = Seq::<EnvReply>::empty();
    let mut i: usize = 0;
    proof {
        assert(all.subrange(0, all.len() as int) =~= all);
        assert(values_model(evaluated@) =~= Seq::<ValueModel>::empty());
        assert(forall|rest: Seq<EnvReply>| #[trigger] set_literal_m(fuel as nat, all, cx, None, Seq::empty(), t + rest)
            == set_literal_m(fuel as nat, all.subrange(0, all.len() as int), cx, opt_view(elem_type), values_model(evaluated@), rest));
    }
    while i < items.len()
        invariant
            answered(env, t),
            i <= items@.len(),
            all == exprs_model(items@),
            all.len() == items@.len(),
            forall|k: int| 0 <= k < items@.len() ==> #[trigger] all[k] == items@[k]@,
            cx == ctx_of(scope@, *sr),
            forall|rest: Seq<EnvReply>| #[trigger] set_literal_m(fuel as nat, all, cx, None, Seq::empty(), t + rest)
                == set_literal_m(fuel as nat, all.subrange(i as int, all.len() as int), cx, opt_view(elem_type), values_model(evaluated@), rest),
        decreases items@.len() - i,
    {
        let ghost sub = all.subrange(i as int, all.len() as int);
        let ghost et0 = opt_view(elem_type);
        let ghost acc0 = values_model(evaluated@);
        proof {
            lemma_esizes_elem(all, i as int);
            assert(sub[0] == all[i as int]);
            assert(sub.subrange(1, sub.len() as int) =~= all.subrange(i + 1, all.len() as int));
        }
        let (r, Ghost(t1)) = eval_in(fuel, &items[i], env, scope, sr);
        let ghost rm = vres(r);
        let value = match r {
            Err(e) => {
                proof {
                    assert forall|rest: Seq<EnvReply>| #[trigger] set_literal_m(fuel as nat, all, cx, None, Seq::empty(), (t + t1) + rest) == (vres(Err::<Value, EvalError>(e)), rest) by {
                        lemma_assoc(t, t1, rest);
                        assert(eval_m(fuel as nat, sub[0], cx, t1 + rest) == (rm, rest));
                    }
                }
                return (Err(e), Ghost(t + t1));
            },
            Ok(v) => v,
        };
        let tag = value.type_tag();
        let mismatch = match &elem_type {
            Some(expected) => !tag_eq(expected, &tag) && !tag_is_unknown(&tag),
            None => false,
        };
        if mismatch {
            let expected = match &elem_type {
                Some(x) => copy_tag(x),
                None => TypeTag::Unknown,
            };
            let e = EvalError::SetElemMismatch { expected, found: tag, span: no_span() };
            proof {
                assert forall|rest: Seq<EnvReply>| #[trigger] set_literal_m(fuel as nat, all, cx, None, Seq::empty(), (t + t1) + rest) == (vres(Err::<Value, EvalError>(e)), rest) by {
                    lemma_assoc(t, t1, rest);
                    assert(eval_m(fuel as nat, sub[0], cx, t1 + rest) == (rm, rest));
                }
            }
            return (Err(e), Ghost(t + t1));
        }
        if elem_type.is_none() && !tag_is_unknown(&tag) {
            elem_type = Some(tag);
        }
        let ghost vm = value@;
        proof {
            lemma_values_model_push(evaluated@, value);
        }
        evaluated.push(value);
        proof {
            assert forall|rest: Seq<EnvReply>| #[trigger] set_literal_m(fuel as nat, all, cx, None, Seq::empty(), (t + t1) + rest)
                == set_literal_m(fuel as nat, all.subrange(i + 1, all.len() as int), cx, opt_view(elem_type), values_model(evaluated@), rest) by {
                lemma_assoc(t, t1, rest);
                assert(eval_m(fuel as nat, sub[0], cx, t1 + rest) == (rm, rest));
            }
            t = t + t1;
        }
        i = i + 1;
    }
    let r = Ok(Value::SetOf(SetValue {
        elem_type: match elem_type {
            Some(x) => x,
            None => TypeTag::Unknown,
        },
        elements: evaluated,
    }));
    proof {
        assert(all.subrange(i as int, all.len() as int).len() == 0);
    }
    (r, Ghost(t))
}

/// The values of call arguments in order, after those already in `acc`.
fn eval_args<E: Env>(fuel: u64, items: &Vec<Expr>, acc: Vec<Value>, env: &E, scope: &Vec<(String, Value)>, sr: &Option<SemiringOps>) -> (out: (Result<Vec<Value>, EvalError>, Ghost<Seq<EnvReply>>))
    ensures
        forall|rest: Seq<EnvReply>| #[trigger] eval_args_m(fuel as nat, exprs_model(items@), ctx_of(scope@, *sr), values_model(acc@), out.1@ + rest) == (vec_res(out.0), rest),
        answered(env, out.1@),
    decreases fuel, esizes(exprs_model(items@)), 4nat, 0nat,
{
    let ghost all = exprs_model(items@);
    let ghost cx = ctx_of(scope@, *sr);
    let ghost acc0 = values_model(acc@);
    proof {
        lemma_exprs_model(items@);
    }
    let mut values = acc;
    let ghost mut t = Seq::<EnvReply>::empty();
    let mut i: usize = 0;
    proof {
        assert(all.subrange(0, all.len() as int) =~= all);
        assert(forall|rest: Seq<EnvReply>| #[trigger] eval_args_m(fuel as nat, all, cx, acc0, t + rest)
            == eval_args_m(fuel as nat, all.subrange(0, all.len() as int), cx, values_model(values@), rest));
    }
    while i < items.len()
        invariant
            answered(env, t),
            i <= items@.len(),
            all == exprs_model(items@),
            all.len() == items@.len(),
            forall|k: int| 0 <= k < items@.len() ==> #[trigger] all[k] == items@[k]@,
            cx == ctx_of(scope@, *sr),
            acc0 == values_model(acc@),
            forall|rest: Seq<EnvReply>| #[trigger] eval_args_m(fuel as nat, all, cx, acc0, t + rest)
                == eval_args_m(fuel as nat, all.subrange(i as int, all.len() as int), cx, values_model(values@), rest),
        decreases items@.len() - i,
    {
        let ghost sub = all.subrange(i as int, all.len() as int);
        proof {
            lemma_esizes_elem(all, i as int);
            assert(sub[0] == all[i as int]);
            assert(sub.subrange(1, sub.len() as int) =~= all.subrange(i + 1, all.len() as int));
        }
        let (r, Ghost(t1)) = eval_in(fuel, &items[i], env, scope, sr);
        let ghost rm = vres(r);
        let value = match r {
            Err(e) => {
                proof {
                    assert forall|rest: Seq<EnvReply>| #[trigger] eval_args_m(fuel as nat, all, cx, acc0, (t + t1) + rest) == (vec_res(Err::<Vec<Value>, EvalError>(e)), rest) by {
                        lemma_assoc(t, t1, rest);
                        assert(eval_m(fuel as nat, sub[0], cx, t1 + rest) == (rm, rest));
                    }
                }
                return (Err(e), Ghost(t + t1));
            },
            Ok(v) => v,
        };
        proof {
            lemma_values_model_push(values@, value);
        }
        values.push(value);
        proof {
            assert forall|rest: Seq<EnvReply>| #[trigger] eval_args_m(fuel as nat, all, cx, acc0, (t + t1) + rest)
                == eval_args_m(fuel as nat, all.subrange(i + 1, all.len() as int), cx, values_model(values@), rest) by {
                lemma_assoc(t, t1, rest);
                assert(eval_m(fuel as nat, sub[0], cx, t1 + rest) == (rm, rest));
            }
            t = t + t1;
        }
        i = i + 1;
    }
    proof {
        assert(all.subrange(i as int, all.len() as int).len() == 0);
    }
    (Ok(values), Ghost(t))
}


/// Calls a lambda: its body is evaluated with the caller's bindings, then the lambda's
/// captures, then its parameters bound to the arguments.
pub(crate) fn call_lambda<E: Env>(fuel: u64, lambda: &LambdaValue, args: &Vec<Value>, env: &E, scope: &Vec<(String, Value)>, sr: &Option<SemiringOps>) -> (out: (Result<Value, EvalError>, Ghost<Seq<EnvReply>>))
    ensures
        forall|rest: Seq<EnvReply>| #[trigger] call_lambda_m(fuel as nat, lambda_parts(*lambda), values_model(args@), ctx_of(scope@, *sr), out.1@ + rest) == (vres(out.0), rest),
        answered(env, out.1@),
    decreases fuel, 0nat, 0nat, 0nat,
{
    let ghost lam = lambda_parts(*lambda);
    let ghost am = values_model(args@);
    let ghost cx = ctx_of(scope@, *sr);
    let ghost empty = Seq::<EnvReply>::empty();
    proof {
        lemma_values_model(args@);
    }
    if lambda.params.len() != args.len() {
        let r = Err(EvalError::LambdaArity { expected: lambda.params.len(), found: args.len(), span: no_span() });
        proof {
            assert(forall|rest: Seq<EnvReply>| #[trigger] call_lambda_m(fuel as nat, lam, am, cx, empty + rest) == (vres(r), rest));
        }
        return (r, Ghost(empty));
    }
    if fuel == 0 {
        let r = Err(EvalError::Other { message: string_from_str("lambda calls nested too deeply"), span: no_span() });
        proof {
            assert(forall|rest: Seq<EnvReply>| #[trigger] call_lambda_m(fuel as nat, lam, am, cx, empty + rest) == (vres(r), rest));
        }
        return (r, Ghost(empty));
    }
    let mut inner = crate::value::copy_captures(scope);
    let mut k: usize = 0;
    while k < lambda.captures.len()
        invariant
            k <= lambda.captures@.len(),
            captures_model(inner@) == captures_model(scope@) + captures_model(lambda.captures@.take(k as int)),
        decreases lambda.captures@.len() - k,
    {
        let c = (lambda.captures[k].0.clone(), copy_value(&lambda.captures[k].1));
        proof {
            crate::value::lemma_captures_model_push(inner@, c);
            crate::value::lemma_captures_model_push(lambda.captures@.take(k as int), lambda.captures@[k as int]);
            assert(lambda.captures@.take(k as int + 1) =~= lambda.captures@.take(k as int).push(lambda.captures@[k as int]));
        }
        inner.push(c);
        proof {
            assert(captures_model(inner@) =~= captures_model(scope@) + captures_model(lambda.captures@.take(k as int + 1)));
        }
        k = k + 1;
    }
    assert(lambda.captures@.take(k as int) =~= lambda.captures@);
    let ghost base = captures_model(inner@);
    let ghost pm = strings_view(lambda.params@);
    let mut j: usize = 0;
    while j < args.len()
        invariant
            j <= args@.len(),
            args@.len() == lambda.params@.len(),
            pm == strings_view(lambda.params@),
            am == values_model(args@),
            am.len() == args@.len(),
            forall|i: int| 0 <= i < args@.len() ==> #[trigger] am[i] == args@[i]@,
            captures_model(inner@) == base + Seq::new(j as nat, |i: int| (pm[i], am[i])),
        decreases args@.len() - j,
    {
        let c = (lambda.params[j].clone(), copy_value(&args[j]));
        proof {
            crate::value::lemma_captures_model_push(inner@, c);
        }
        inner.push(c);
        proof {
            assert(captures_model(inner@) =~= base + Seq::new(j as nat + 1, |i: int| (pm[i], am[i])));
        }
        j = j + 1;
    }
    proof {
        assert(Seq::new(j as nat, |i: int| (pm[i], am[i])) =~= bind_params(pm, am));
        assert(captures_model(inner@) == cx.scope + lam.captures + bind_params(lam.params, am));
    }
    let (r, Ghost(t)) = eval_in(fuel - 1, &lambda.body, env, &inner, sr);
    proof {
        assert forall|rest: Seq<EnvReply>| #[trigger] call_lambda_m(fuel as nat, lam, am, cx, t + rest) == (vres(r), rest) by {
            assert(eval_m((fuel - 1) as nat, lam.body, ctx_of(inner@, *sr), t + rest) == (vres(r), rest));
        }
    }
    (r, Ghost(t))
}


/// The value of `expr` under the bindings in `scope` (later ones hide earlier ones) and the
/// semiring `sr` chosen by an enclosing `with_semiring`, with at most `fuel` nested lambda calls.
/// Also returns the exchanges with the environment, in order: for every continuation `rest`,
/// `eval_m` on them followed by `rest` gives this outcome and leaves `rest`.
#[verifier::spinoff_prover]
#[verifier::rlimit(60)]
pub fn eval_in<E: Env>(fuel: u64, expr: &Expr, env: &E, scope: &Vec<(String, Value)>, sr: &Option<SemiringOps>) -> (out: (Result<Value, EvalError>, Ghost<Seq<EnvReply>>))
    ensures
        forall|rest: Seq<EnvReply>| #[trigger] eval_m(fuel as nat, expr@, ctx_of(scope@, *sr), out.1@ + rest) == (vres(out.0), rest),
        answered(env, out.1@),
    decreases fuel, esize(expr@), 3nat, 0nat,
{
    let ghost cx = ctx_of(scope@, *sr);
    let ghost empty = Seq::<EnvReply>::empty();
    match expr {
        Expr::Int(n) => {
            let r = Ok(Value::Int(*n));
            proof {
                assert(forall|rest: Seq<EnvReply>| #[trigger] eval_m(fuel as nat, expr@, cx, empty + rest) == (vres(r), rest));
            }
            (r, Ghost(empty))
        },
        Expr::Bool(b) => {
            let r = Ok(Value::Bool(*b));
            proof {
                assert(forall|rest: Seq<EnvReply>| #[trigger] eval_m(fuel as nat, expr@, cx, empty + rest) == (vres(r), rest));
            }
            (r, Ghost(empty))
        },
        Expr::Str(text) => {
            let r = Ok(Value::Str(text.clone()));
            proof {
                assert(forall|rest: Seq<EnvReply>| #[trigger] eval_m(fuel as nat, expr@, cx, empty + rest) == (vres(r), rest));
            }
            (r, Ghost(empty))
        },
        Expr::Infinity(_) => {
            let r = Err(EvalError::IntervalInfiniteUnsupported { ty: TypeTag::Unknown, span: no_span() });
            proof {
                assert(forall|rest: Seq<EnvReply>| #[trigger] eval_m(fuel as nat, expr@, cx, empty + rest) == (vres(r), rest));
            }
            (r, Ghost(empty))
        },
        Expr::EnumVariant { ty, variant } => {
            let (r, Ghost(t)) = resolve_enum_variant(ty, variant, env);
            proof {
                assert forall|rest: Seq<EnvReply>| #[trigger] eval_m(fuel as nat, expr@, cx, t + rest) == (vres(r), rest) by {
                    assert(enum_variant_m(ty@, variant@, t + rest) == (vres(r), rest));
                }
            }
            (r, Ghost(t))
        },
        Expr::Ident(path) => {
            let (r, Ghost(t)) = resolve_ident(&path.0, env, scope);
            proof {
                assert forall|rest: Seq<EnvReply>| #[trigger] eval_m(fuel as nat, expr@, cx, t + rest) == (vres(r), rest) by {
                    assert(resolve_ident_m(strings_view(path.0@), cx.scope, t + rest) == (vres(r), rest));
                }
            }
            (r, Ghost(t))
        },
        Expr::Unary { op, expr: inner } => {
            let (r, Ghost(t)) = eval_in(fuel, inner, env, scope, sr);
            let ghost rm = vres(r);
            let out = match r {
                Err(e) => Err(e),
                Ok(v) => eval_unary(*op, v),
            };
            proof {
                assert forall|rest: Seq<EnvReply>| #[trigger] eval_m(fuel as nat, expr@, cx, t + rest) == (vres(out), rest) by {
                    assert(eval_m(fuel as nat, inner@, cx, t + rest) == (rm, rest));
                }
            }
            (out, Ghost(t))
        },
        Expr::Cardinality(inner) => {
            let (r, Ghost(t)) = eval_in(fuel, inner, env, scope, sr);
            let ghost rm = vres(r);
            let out = match r {
                Err(e) => Err(e),
                Ok(Value::SetOf(set)) => Ok(Value::Int(set.elements.len() as i64)),
                Ok(other) => Err(EvalError::InOnNonSet { rhs_ty: other.type_tag(), span: no_span() }),
            };
            proof {
                assert forall|rest: Seq<EnvReply>| #[trigger] eval_m(fuel as nat, expr@, cx, t + rest) == (vres(out), rest) by {
                    assert(eval_m(fuel as nat, inner@, cx, t + rest) == (rm, rest));
                    if let Ok(Value::SetOf(set)) = r {
                        lemma_values_model(set.elements@);
                    }
                }
            }
            (out, Ghost(t))
        },
        Expr::Binary { left, op, right } => {
            let (r1, Ghost(t1)) = eval_in(fuel, left, env, scope, sr);
            let ghost r1m = vres(r1);
            let lhs = match r1 {
                Err(e) => {
                    proof {
                        assert forall|rest: Seq<EnvReply>| #[trigger] eval_m(fuel as nat, expr@, cx, t1 + rest) == (vres(Err::<Value, EvalError>(e)), rest) by {
                            assert(eval_m(fuel as nat, left@, cx, t1 + rest) == (r1m, rest));
                        }
                    }
                    return (Err(e), Ghost(t1));
                },
                Ok(v) => v,
            };
            let (r2, Ghost(t2)) = eval_in(fuel, right, env, scope, sr);
            let ghost r2m = vres(r2);
            let rhs = match r2 {
                Err(e) => {
                    proof {
                        assert forall|rest: Seq<EnvReply>| #[trigger] eval_m(fuel as nat, expr@, cx, (t1 + t2) + rest) == (vres(Err::<Value, EvalError>(e)), rest) by {
                            lemma_assoc(t1, t2, rest);
                            assert(eval_m(fuel as nat, left@, cx, t1 + (t2 + rest)) == (r1m, t2 + rest));
                            assert(eval_m(fuel as nat, right@, cx, t2 + rest) == (r2m, rest));
                        }
                    }
                    return (Err(e), Ghost(t1 + t2));
                },
                Ok(v) => v,
            };
            let ghost lm = lhs@;
            let ghost rhm = rhs@;
            let (r, Ghost(t3)) = eval_binary(*op, lhs, rhs, env);
            proof {
                assert forall|rest: Seq<EnvReply>| #[trigger] eval_m(fuel as nat, expr@, cx, ((t1 + t2) + t3) + rest) == (vres(r), rest) by {
                    lemma_assoc(t1 + t2, t3, rest);
                    lemma_assoc(t1, t2, t3 + rest);
                    assert(eval_m(fuel as nat, left@, cx, t1 + (t2 + (t3 + rest))) == (r1m, t2 + (t3 + rest)));
                    assert(eval_m(fuel as nat, right@, cx, t2 + (t3 + rest)) == (r2m, t3 + rest));
                    assert(binary_m(*op, lm, rhm, t3 + rest) == (vres(r), rest));
                }
            }
            (r, Ghost((t1 + t2) + t3))
        },
        Expr::In { elem: left, set: right } => {
            let (r1, Ghost(t1)) = eval_in(fuel, left, env, scope, sr);
            let ghost r1m = vres(r1);
            let lhs = match r1 {
                Err(e) => {
                    proof {
                        assert forall|rest: Seq<EnvReply>| #[trigger] eval_m(fuel as nat, expr@, cx, t1 + rest) == (vres(Err::<Value, EvalError>(e)), rest) by {
                            assert(eval_m(fuel as nat, left@, cx, t1 + rest) == (r1m, rest));
                        }
                    }
                    return (Err(e), Ghost(t1));
                },
                Ok(v) => v,
            };
            let (r2, Ghost(t2)) = eval_in(fuel, right, env, scope, sr);
            let ghost r2m = vres(r2);
            let rhs = match r2 {
                Err(e) => {
                    proof {
                        assert forall|rest: Seq<EnvReply>| #[trigger] eval_m(fuel as nat, expr@, cx, (t1 + t2) + rest) == (vres(Err::<Value, EvalError>(e)), rest) by {
                            lemma_assoc(t1, t2, rest);
                            assert(eval_m(fuel as nat, left@, cx, t1 + (t2 + rest)) == (r1m, t2 + rest));
                            assert(eval_m(fuel as nat, right@, cx, t2 + rest) == (r2m, rest));
                        }
                    }
                    return (Err(e), Ghost(t1 + t2));
                },
                Ok(v) => v,
            };
            let ghost lm = lhs@;
            let ghost rhm = rhs@;
            let (r, Ghost(t3)) = eval_membership(lhs, rhs, env);
            proof {
                assert forall|rest: Seq<EnvReply>| #[trigger] eval_m(fuel as nat, expr@, cx, ((t1 + t2) + t3) + rest) == (vres(r), rest) by {
                    lemma_assoc(t1 + t2, t3, rest);
                    lemma_assoc(t1, t2, t3 + rest);
                    assert(eval_m(fuel as nat, left@, cx, t1 + (t2 + (t3 + rest))) == (r1m, t2 + (t3 + rest)));
                    assert(eval_m(fuel as nat, right@, cx, t2 + (t3 + rest)) == (r2m, t3 + rest));
                    assert(membership_m(lm, rhm, t3 + rest) == (vres(r), rest));
                }
            }
            (r, Ghost((t1 + t2) + t3))
        },
        Expr::SetOp { op, lhs: left, rhs: right } => {
            let (r1, Ghost(t1)) = eval_in(fuel, left, env, scope, sr);
            let ghost r1m = vres(r1);
            let lhs = match r1 {
                Err(e) => {
                    proof {
                        assert forall|rest: Seq<EnvReply>| #[trigger] eval_m(fuel as nat, expr@, cx, t1 + rest) == (vres(Err::<Value, EvalError>(e)), rest) by {
                            assert(eval_m(fuel as nat, left@, cx, t1 + rest) == (r1m, rest));
                        }
                    }
                    return (Err(e), Ghost(t1));
                },
                Ok(v) => v,
            };
            let (r2, Ghost(t2)) = eval_in(fuel, right, env, scope, sr);
            let ghost r2m = vres(r2);
            let rhs = match r2 {
                Err(e) => {
                    proof {
                        assert forall|rest: Seq<EnvReply>| #[trigger] eval_m(fuel as nat, expr@, cx, (t1 + t2) + rest) == (vres(Err::<Value, EvalError>(e)), rest) by {
                            lemma_assoc(t1, t2, rest);
                            assert(eval_m(fuel as nat, left@, cx, t1 + (t2 + rest)) == (r1m, t2 + rest));
                            assert(eval_m(fuel as nat, right@, cx, t2 + rest) == (r2m, rest));
                        }
                    }
                    return (Err(e), Ghost(t1 + t2));
                },
                Ok(v) => v,
            };
            let ghost lm = lhs@;
            let ghost rhm = rhs@;
            let r = eval_set_op(*op, lhs, rhs);
            let ghost t3 = empty;
            proof {
                assert forall|rest: Seq<EnvReply>| #[trigger] eval_m(fuel as nat, expr@, cx, ((t1 + t2) + t3) + rest) == (vres(r), rest) by {
                    lemma_assoc(t1 + t2, t3, rest);
                    lemma_assoc(t1, t2, t3 + rest);
                    assert(eval_m(fuel as nat, left@, cx, t1 + (t2 + (t3 + rest))) == (r1m, t2 + (t3 + rest)));
                    assert(eval_m(fuel as nat, right@, cx, t2 + (t3 + rest)) == (r2m, t3 + rest));
                }
            }
            (r, Ghost((t1 + t2) + t3))
        },
        Expr::SetLiteral(items) => {
            let (r, Ghost(t)) = eval_set_literal(fuel, items, env, scope, sr);
            proof {
                assert forall|rest: Seq<EnvReply>| #[trigger] eval_m(fuel as nat, expr@, cx, t + rest) == (vres(r), rest) by {
                    assert(set_literal_m(fuel as nat, exprs_model(items@), cx, None, Seq::empty(), t + rest) == (vres(r), rest));
                }
            }
            (r, Ghost(t))
        },
        Expr::Interval(interval) => {
            let (r, Ghost(t)) = eval_interval_literal(fuel, interval, env, scope, sr);
            proof {
                assert(expr@ == interval_expr_m(*interval));
            }
            (r, Ghost(t))
        },
        Expr::Lambda { params, body } => {
            let (r, Ghost(t)) = build_lambda(params, body, env, scope);
            proof {
                assert forall|rest: Seq<EnvReply>| #[trigger] eval_m(fuel as nat, expr@, cx, t + rest) == (vres(r), rest) by {
                    assert(crate::semantics::build_lambda_m(strings_view(params@), body@, cx.scope, t + rest) == (vres(r), rest));
                }
            }
            (r, Ghost(t))
        },
        Expr::Call(call) => {
            let none: Vec<Value> = Vec::new();
            proof {
                assert(values_model(none@) =~= Seq::<ValueModel>::empty());
            }
            let (ra, Ghost(t1)) = eval_args(fuel, &call.args, none, env, scope, sr);
            let ghost ram = vec_res(ra);
            let args = match ra {
                Err(e) => {
                    proof {
                        assert forall|rest: Seq<EnvReply>| #[trigger] eval_m(fuel as nat, expr@, cx, t1 + rest) == (vres(Err::<Value, EvalError>(e)), rest) by {
                            assert(eval_args_m(fuel as nat, exprs_model(call.args@), cx, Seq::empty(), t1 + rest) == (ram, rest));
                        }
                    }
                    return (Err(e), Ghost(t1));
                },
                Ok(a) => a,
            };
            let ghost argm = values_model(args@);
            let (r, Ghost(t2)) = crate::builtins::apply_in(fuel, &call.func, args, env, scope, sr);
            proof {
                assert forall|rest: Seq<EnvReply>| #[trigger] eval_m(fuel as nat, expr@, cx, (t1 + t2) + rest) == (vres(r), rest) by {
                    lemma_assoc(t1, t2, rest);
                    assert(eval_args_m(fuel as nat, exprs_model(call.args@), cx, Seq::empty(), t1 + (t2 + rest)) == (ram, t2 + rest));
                    assert(crate::semantics::apply_m(fuel as nat, call.func@, argm, cx, t2 + rest) == (vres(r), rest));
                }
            }
            (r, Ghost(t1 + t2))
        },
        Expr::Pipe { lhs, call } => {
            let (r1, Ghost(t1)) = eval_in(fuel, lhs, env, scope, sr);
            let ghost r1m = vres(r1);
            let first = match r1 {
                Err(e) => {
                    proof {
                        assert forall|rest: Seq<EnvReply>| #[trigger] eval_m(fuel as nat, expr@, cx, t1 + rest) == (vres(Err::<Value, EvalError>(e)), rest) by {
                            assert(eval_m(fuel as nat, lhs@, cx, t1 + rest) == (r1m, rest));
                        }
                    }
                    return (Err(e), Ghost(t1));
                },
                Ok(v) => v,
            };
            let ghost fm = first@;
            let mut acc: Vec<Value> = Vec::new();
            proof {
                lemma_values_model_push(acc@, first);
                assert(values_model(acc@) =~= Seq::<ValueModel>::empty());
            }
            acc.push(first);
            proof {
                assert(values_model(acc@) =~= seq![fm]);
            }
            let (ra, Ghost(t2)) = eval_args(fuel, &call.args, acc, env, scope, sr);
            let ghost ram = vec_res(ra);
            let args = match ra {
                Err(e) => {
                    proof {
                        assert forall|rest: Seq<EnvReply>| #[trigger] eval_m(fuel as nat, expr@, cx, (t1 + t2) + rest) == (vres(Err::<Value, EvalError>(e)), rest) by {
                            lemma_assoc(t1, t2, rest);
                            assert(eval_m(fuel as nat, lhs@, cx, t1 + (t2 + rest)) == (r1m, t2 + rest));
                            assert(eval_args_m(fuel as nat, exprs_model(call.args@), cx, seq![fm], t2 + rest) == (ram, rest));
                        }
                    }
                    return (Err(e), Ghost(t1 + t2));
                },
                Ok(a) => a,
            };
            let ghost argm = values_model(args@);
            let (r, Ghost(t3)) = crate::builtins::apply_in(fuel, &call.func, args, env, scope, sr);
            proof {
                assert forall|rest: Seq<EnvReply>| #[trigger] eval_m(fuel as nat, expr@, cx, ((t1 + t2) + t3) + rest) == (vres(r), rest) by {
                    lemma_assoc(t1 + t2, t3, rest);
                    lemma_assoc(t1, t2, t3 + rest);
                    assert(eval_m(fuel as nat, lhs@, cx, t1 + (t2 + (t3 + rest))) == (r1m, t2 + (t3 + rest)));
                    assert(eval_args_m(fuel as nat, exprs_model(call.args@), cx, seq![fm], t2 + (t3 + rest)) == (ram, t3 + rest));
                    assert(crate::semantics::apply_m(fuel as nat, call.func@, argm, cx, t3 + rest) == (vres(r), rest));
                }
            }
            (r, Ghost((t1 + t2) + t3))
        },
        Expr::WithSemiring { name, body } => {
            let found = env.semiring(name.as_str());
            let ghost reply = EnvReply { query: EnvQuery::Semiring(name@), answer: EnvAnswer::Semiring(opt_view(found)) };
            let ghost one = seq![reply];
            match found {
                None => {
                    let r = Err(EvalError::SemiringMissing { span: no_span() });
                    proof {
                        assert forall|rest: Seq<EnvReply>| #[trigger] eval_m(fuel as nat, expr@, cx, seq![reply] + rest) == (vres(r), rest) by {
                            lemma_later_one(reply, rest);
                        }
                    }
                    (r, Ghost(one))
                },
                Some(ops) => {
                    let inner_sr = Some(ops);
                    let (r, Ghost(t1)) = eval_in(fuel, body, env, scope, &inner_sr);
                    proof {
                        assert forall|rest: Seq<EnvReply>| #[trigger] eval_m(fuel as nat, expr@, cx, (seq![reply] + t1) + rest) == (vres(r), rest) by {
                            lemma_assoc(seq![reply], t1, rest);
                            lemma_later_one(reply, t1 + rest);
                            assert(eval_m(fuel as nat, body@, ctx_of(scope@, inner_sr), t1 + rest) == (vres(r), rest));
                        }
                    }
                    (r, Ghost(seq![reply] + t1))
                },
            }
        },
    }
}

} // verus!

verus! {

/// Evaluates `expr` at the top level: no enclosing bindings and no semiring chosen by
/// `with_semiring`. The result is what `eval_m` gives for some sequence of replies, each an
/// answer that `env` gives to its question (`env.answers`); where the expression consults no
/// environment, that fixes it.
pub fn eval<E: Env>(expr: &Expr, env: &E) -> (r: Result<Value, EvalError>)
    ensures
        exists|t: Seq<EnvReply>| #[trigger] answered(env, t) && forall|rest: Seq<EnvReply>|
            #[trigger] eval_m(MAX_CALL_DEPTH as nat, expr@, empty_ctx(), t + rest) == (vres(r), rest),
{
    let scope: Vec<(String, Value)> = Vec::new();
    let sr: Option<SemiringOps> = None;
    let (r, Ghost(t)) = eval_in(MAX_CALL_DEPTH, expr, env, &scope, &sr);
    proof {
        assert(captures_model(scope@) =~= Seq::<(Seq<char>, ValueModel)>::empty());
        assert(ctx_of(scope@, sr) == empty_ctx());
        assert(answered(env, t));
    }
    r
}

} // verus!
