//! Laws of evaluation: how lambdas receive their arguments, how the built-in functions step
//! through a set, and what the operators compute.
use vstd::prelude::*;

use crate::ast::{BOp, ExprModel, UOp};
use crate::error::{EvalErrorModel, TypeTagModel};
use crate::properties::{comparable, lemma_contains_model};
use crate::quantifier::{binding_ctx, quantify_from};
use crate::runtime::{
    later, lemma_later_one, read_lattice, read_op, read_semiring, EnumInfoModel, EnvAnswer, EnvQuery, EnvReply, LatticeModel,
    SemiringModel,
};
use crate::semantics::{
    apply_m, bind_params, call_lambda_m, eval_m, filter_call_m, filter_m, fold_call_m, fold_m, lattice_fold, lattice_id,
    lattice_reduce_m, lookup_local, map_call_m, membership_m, map_m, overflow_error, read_semiring_or, semiring_call_m, semiring_m, Ctx,
    LambdaParts, MAX_CALL_DEPTH,
};
use crate::value::{contains_model, no_span, tag_of, ValueModel};

verus! {

// ---------- Lambda calls ----------

/// The last binding of `b[k]`'s name in `pre + b` is `b[k]` when no later binding of `b`
/// has that name.
proof fn lemma_lookup_last_binding(pre: Seq<(Seq<char>, ValueModel)>, b: Seq<(Seq<char>, ValueModel)>, k: int)
    requires
        0 <= k < b.len(),
        forall|j: int| k < j < b.len() ==> (#[trigger] b[j]).0 != b[k].0,
    ensures
        lookup_local(pre + b, b[k].0) == Some(b[k].1),
    decreases b.len(),
{
    let s = pre + b;
    assert(s.last() == b.last());
    if k < b.len() - 1 {
        assert(s.drop_last() =~= pre + b.drop_last());
        assert forall|j: int| k < j < b.drop_last().len() implies (#[trigger] b.drop_last()[j]).0 != b.drop_last()[k].0 by {
            assert(b.drop_last()[j] == b[j]);
        }
        lemma_lookup_last_binding(pre, b.drop_last(), k);
    }
}

/// A lambda whose body is its parameter number `k` gives, when called, argument number `k`:
/// arguments are bound to parameters by position (a later parameter of the same name hides an
/// earlier one), whatever the enclosing bindings and captures.
pub proof fn law_lambda_binds_arguments_by_position(
    fuel: nat,
    params: Seq<Seq<char>>,
    captures: Seq<(Seq<char>, ValueModel)>,
    args: Seq<ValueModel>,
    k: int,
    cx: Ctx,
    t: Seq<EnvReply>,
)
    requires
        fuel > 0,
        params.len() == args.len(),
        0 <= k < params.len(),
        forall|j: int| k < j < params.len() ==> #[trigger] params[j] != params[k],
    ensures
        call_lambda_m(fuel, LambdaParts { params, body: ExprModel::Ident(seq![params[k]]), captures }, args, cx, t)
            == (Ok::<ValueModel, EvalErrorModel>(args[k]), t),
{
    let b = bind_params(params, args);
    let pre = cx.scope + captures;
    assert forall|j: int| k < j < b.len() implies (#[trigger] b[j]).0 != b[k].0 by {}
    lemma_lookup_last_binding(pre, b, k);
    assert(pre + b == cx.scope + captures + b);
}

/// The lambda `(p0, p1) -> p0` (`first`) or `(p0, p1) -> p1`, on two distinct names.
pub open spec fn pick(p0: Seq<char>, p1: Seq<char>, first: bool, captures: Seq<(Seq<char>, ValueModel)>) -> LambdaParts {
    LambdaParts { params: seq![p0, p1], body: ExprModel::Ident(seq![if first { p0 } else { p1 }]), captures }
}

proof fn lemma_call_pick(fuel: nat, p0: Seq<char>, p1: Seq<char>, first: bool, captures: Seq<(Seq<char>, ValueModel)>, a: ValueModel, b: ValueModel, cx: Ctx, t: Seq<EnvReply>)
    requires
        fuel > 0,
        p0 != p1,
    ensures
        call_lambda_m(fuel, pick(p0, p1, first, captures), seq![a, b], cx, t)
            == (Ok::<ValueModel, EvalErrorModel>(if first { a } else { b }), t),
{
    let params = seq![p0, p1];
    if first {
        assert(params[0] == p0);
        law_lambda_binds_arguments_by_position(fuel, params, captures, seq![a, b], 0, cx, t);
    } else {
        assert(params[1] == p1);
        law_lambda_binds_arguments_by_position(fuel, params, captures, seq![a, b], 1, cx, t);
    }
}

// ---------- fold ----------

proof fn lemma_fold_snoc(fuel: nat, s: Seq<ValueModel>, e: ValueModel, i: int, lam: LambdaParts, cx: Ctx, acc: ValueModel, t: Seq<EnvReply>)
    requires
        0 <= i <= s.len(),
    ensures
        fold_m(fuel, s.push(e), i, lam, cx, acc, t) == ({
            let (r, t1) = fold_m(fuel, s, i, lam, cx, acc, t);
            match r {
                Ok(v) => call_lambda_m(fuel, lam, seq![v, e], cx, t1),
                Err(x) => (Err(x), t1),
            }
        }),
    decreases s.len() - i,
{
    let sp = s.push(e);
    if i < s.len() {
        assert(sp[i] == s[i]);
        let (r, t1) = call_lambda_m(fuel, lam, seq![acc, s[i]], cx, t);
        if let Ok(v) = r {
            lemma_fold_snoc(fuel, s, e, i + 1, lam, cx, v, t1);
        }
    } else {
        assert(sp[i] == e);
        let (r, t1) = call_lambda_m(fuel, lam, seq![acc, e], cx, t);
        if let Ok(v) = r {
            assert(fold_m(fuel, sp, i + 1, lam, cx, v, t1) == (Ok::<ValueModel, EvalErrorModel>(v), t1));
        }
    }
}

/// `fold(set, init, f)` over no values gives `init`; over the values of `s` followed by `e`, it
/// folds `s` and then calls `f` with the accumulator first and `e` second:
/// `fold(s ++ [e], init, f) == f(fold(s, init, f), e)`.
pub proof fn law_fold_steps(
    fuel: nat,
    et: TypeTagModel,
    s: Seq<ValueModel>,
    e: ValueModel,
    init: ValueModel,
    params: Seq<Seq<char>>,
    body: ExprModel,
    captures: Seq<(Seq<char>, ValueModel)>,
    cx: Ctx,
    t: Seq<EnvReply>,
)
    ensures
        fold_call_m(
            fuel,
            seq![ValueModel::SetOf { elem_type: et, elements: Seq::empty() }, init, ValueModel::Lambda { params, body, captures }],
            cx,
            t,
        ) == (Ok::<ValueModel, EvalErrorModel>(init), t),
        fold_call_m(
            fuel,
            seq![ValueModel::SetOf { elem_type: et, elements: s.push(e) }, init, ValueModel::Lambda { params, body, captures }],
            cx,
            t,
        ) == ({
            let (r, t1) = fold_call_m(
                fuel,
                seq![ValueModel::SetOf { elem_type: et, elements: s }, init, ValueModel::Lambda { params, body, captures }],
                cx,
                t,
            );
            match r {
                Ok(v) => call_lambda_m(fuel, LambdaParts { params, body, captures }, seq![v, e], cx, t1),
                Err(x) => (Err(x), t1),
            }
        }),
{
    lemma_fold_snoc(fuel, s, e, 0, LambdaParts { params, body, captures }, cx, init, t);
}

proof fn lemma_fold_pick(fuel: nat, s: Seq<ValueModel>, i: int, p0: Seq<char>, p1: Seq<char>, first: bool, captures: Seq<(Seq<char>, ValueModel)>, cx: Ctx, acc: ValueModel, t: Seq<EnvReply>)
    requires
        fuel > 0,
        p0 != p1,
        0 <= i <= s.len(),
    ensures
        fold_m(fuel, s, i, pick(p0, p1, first, captures), cx, acc, t)
            == (Ok::<ValueModel, EvalErrorModel>(if first || i == s.len() { acc } else { s.last() }), t),
    decreases s.len() - i,
{
    if i < s.len() {
        lemma_call_pick(fuel, p0, p1, first, captures, acc, s[i], cx, t);
        lemma_fold_pick(fuel, s, i + 1, p0, p1, first, captures, cx, if first { acc } else { s[i] }, t);
    }
}

/// `fold(set, init, (a, x) -> a)` gives `init`, and `fold(set, init, (a, x) -> x)` gives the
/// set's last value (`init` for an empty set): the accumulator is the lambda's first argument
/// and the element its second, and no question is put to the environment.
pub proof fn law_fold_passes_accumulator_then_element(
    fuel: nat,
    et: TypeTagModel,
    s: Seq<ValueModel>,
    init: ValueModel,
    a: Seq<char>,
    x: Seq<char>,
    captures: Seq<(Seq<char>, ValueModel)>,
    cx: Ctx,
    t: Seq<EnvReply>,
)
    requires
        fuel > 0,
        a != x,
    ensures
        fold_call_m(
            fuel,
            seq![
                ValueModel::SetOf { elem_type: et, elements: s },
                init,
                ValueModel::Lambda { params: seq![a, x], body: ExprModel::Ident(seq![a]), captures },
            ],
            cx,
            t,
        ) == (Ok::<ValueModel, EvalErrorModel>(init), t),
        fold_call_m(
            fuel,
            seq![
                ValueModel::SetOf { elem_type: et, elements: s },
                init,
                ValueModel::Lambda { params: seq![a, x], body: ExprModel::Ident(seq![x]), captures },
            ],
            cx,
            t,
        ) == (Ok::<ValueModel, EvalErrorModel>(if s.len() == 0 { init } else { s.last() }), t),
{
    lemma_fold_pick(fuel, s, 0, a, x, true, captures, cx, init, t);
    lemma_fold_pick(fuel, s, 0, a, x, false, captures, cx, init, t);
}

// ---------- reduce_meet and reduce_join ----------

/// The question a lattice reduction puts for one step: the meet (`meet`) or join of `a` and `b`.
pub open spec fn lattice_step_query(meet: bool, ops: LatticeModel, a: ValueModel, b: ValueModel) -> EnvQuery {
    if meet {
        EnvQuery::Meet(ops, a, b)
    } else {
        EnvQuery::Join(ops, a, b)
    }
}

proof fn lemma_lattice_fold_snoc(meet: bool, ops: LatticeModel, s: Seq<ValueModel>, e: ValueModel, i: int, acc: ValueModel, t: Seq<EnvReply>)
    requires
        1 <= i <= s.len(),
    ensures
        lattice_fold(meet, ops, s.push(e), i, acc, t) == ({
            let (r, t1) = lattice_fold(meet, ops, s, i, acc, t);
            match r {
                Ok(v) => (read_op(lattice_step_query(meet, ops, v, e), t1), later(lattice_step_query(meet, ops, v, e), t1)),
                Err(x) => (Err(x), t1),
            }
        }),
    decreases s.len() - i,
{
    let sp = s.push(e);
    if i < s.len() {
        assert(sp[i] == s[i]);
        let q = lattice_step_query(meet, ops, acc, s[i]);
        if let Ok(v) = read_op(q, t) {
            lemma_lattice_fold_snoc(meet, ops, s, e, i + 1, v, later(q, t));
        }
    } else {
        assert(sp[i] == e);
        let q = lattice_step_query(meet, ops, acc, e);
        if let Ok(v) = read_op(q, t) {
            assert(lattice_fold(meet, ops, sp, i + 1, v, later(q, t)) == (Ok::<ValueModel, EvalErrorModel>(v), later(q, t)));
        }
    }
}

/// `reduce_meet` (`meet`) or `reduce_join` of a set asks for the type's lattice first; without
/// one it fails with `LatticeRequired`. With one, a set of one value gives that value and asks
/// nothing more, and the values of a non-empty `s` followed by `e` give the meet (or join) of
/// the reduction of `s` and `e`, as the environment answers it: every value takes part, the
/// first as the starting value and each later one in one question.
pub proof fn law_lattice_reduction_steps(meet: bool, et: TypeTagModel, s: Seq<ValueModel>, e: ValueModel, t: Seq<EnvReply>)
    requires
        s.len() > 0,
    ensures
        lattice_reduce_m(meet, seq![ValueModel::SetOf { elem_type: et, elements: seq![e] }], t) == (
            match read_lattice(EnvQuery::Lattice(lattice_id(et)), t) {
                None => Err(EvalErrorModel::LatticeRequired { ty: et, span: no_span() }),
                Some(_) => Ok::<ValueModel, EvalErrorModel>(e),
            },
            later(EnvQuery::Lattice(lattice_id(et)), t),
        ),
        lattice_reduce_m(meet, seq![ValueModel::SetOf { elem_type: et, elements: s.push(e) }], t) == ({
            let (r, t1) = lattice_reduce_m(meet, seq![ValueModel::SetOf { elem_type: et, elements: s }], t);
            match r {
                Ok(v) => {
                    let q = lattice_step_query(meet, read_lattice(EnvQuery::Lattice(lattice_id(et)), t)->Some_0, v, e);
                    (read_op(q, t1), later(q, t1))
                },
                Err(x) => (Err(x), t1),
            }
        }),
{
    assert(seq![e][0] == e);
    assert(s.push(e)[0] == s[0]);
    if let Some(ops) = read_lattice(EnvQuery::Lattice(lattice_id(et)), t) {
        lemma_lattice_fold_snoc(meet, ops, s, e, 1, s[0], later(EnvQuery::Lattice(lattice_id(et)), t));
    }
}

// ---------- Operators ----------

/// `a && b` and `a || b` on boolean literals are Rust's `&&` and `||`; `!a` is Rust's `!`.
pub proof fn law_boolean_operators(fuel: nat, a: bool, b: bool, cx: Ctx, t: Seq<EnvReply>)
    ensures
        eval_m(fuel, ExprModel::Binary { left: Box::new(ExprModel::Bool(a)), op: BOp::And, right: Box::new(ExprModel::Bool(b)) }, cx, t)
            == (Ok::<ValueModel, EvalErrorModel>(ValueModel::Bool(a && b)), t),
        eval_m(fuel, ExprModel::Binary { left: Box::new(ExprModel::Bool(a)), op: BOp::Or, right: Box::new(ExprModel::Bool(b)) }, cx, t)
            == (Ok::<ValueModel, EvalErrorModel>(ValueModel::Bool(a || b)), t),
        eval_m(fuel, ExprModel::Unary { op: UOp::Not, expr: Box::new(ExprModel::Bool(a)) }, cx, t)
            == (Ok::<ValueModel, EvalErrorModel>(ValueModel::Bool(!a)), t),
        eval_m(fuel, ExprModel::Binary { left: Box::new(ExprModel::Bool(a)), op: BOp::Eq, right: Box::new(ExprModel::Bool(b)) }, cx, t)
            == (Ok::<ValueModel, EvalErrorModel>(ValueModel::Bool(a == b)), t),
        eval_m(fuel, ExprModel::Binary { left: Box::new(ExprModel::Bool(a)), op: BOp::Ne, right: Box::new(ExprModel::Bool(b)) }, cx, t)
            == (Ok::<ValueModel, EvalErrorModel>(ValueModel::Bool(a != b)), t),
{
    assert(eval_m(fuel, ExprModel::Bool(a), cx, t) == (Ok::<ValueModel, EvalErrorModel>(ValueModel::Bool(a)), t));
    assert(eval_m(fuel, ExprModel::Bool(b), cx, t) == (Ok::<ValueModel, EvalErrorModel>(ValueModel::Bool(b)), t));
}

/// The result of integer arithmetic: the mathematical value when it fits an `i64`, otherwise
/// the overflow error.
pub open spec fn checked(x: int) -> Result<ValueModel, EvalErrorModel> {
    if i64::MIN <= x <= i64::MAX {
        Ok(ValueModel::Int(x as i64))
    } else {
        Err(overflow_error())
    }
}

/// On integer literals, `+`, `-` and `*` give the sum, difference and product (or the overflow
/// error), `-a` gives the negation, and `<`, `<=`, `>`, `>=`, `==`, `!=` compare as integers do.
pub proof fn law_integer_operators(fuel: nat, a: i64, b: i64, cx: Ctx, t: Seq<EnvReply>)
    ensures
        eval_m(fuel, ExprModel::Binary { left: Box::new(ExprModel::Int(a)), op: BOp::Add, right: Box::new(ExprModel::Int(b)) }, cx, t)
            == (checked(a + b), t),
        eval_m(fuel, ExprModel::Binary { left: Box::new(ExprModel::Int(a)), op: BOp::Sub, right: Box::new(ExprModel::Int(b)) }, cx, t)
            == (checked(a - b), t),
        eval_m(fuel, ExprModel::Binary { left: Box::new(ExprModel::Int(a)), op: BOp::Mul, right: Box::new(ExprModel::Int(b)) }, cx, t)
            == (checked(a * b), t),
        eval_m(fuel, ExprModel::Unary { op: UOp::Neg, expr: Box::new(ExprModel::Int(a)) }, cx, t)
            == (checked(-a), t),
        eval_m(fuel, ExprModel::Binary { left: Box::new(ExprModel::Int(a)), op: BOp::Lt, right: Box::new(ExprModel::Int(b)) }, cx, t)
            == (Ok::<ValueModel, EvalErrorModel>(ValueModel::Bool(a < b)), t),
        eval_m(fuel, ExprModel::Binary { left: Box::new(ExprModel::Int(a)), op: BOp::Le, right: Box::new(ExprModel::Int(b)) }, cx, t)
            == (Ok::<ValueModel, EvalErrorModel>(ValueModel::Bool(a <= b)), t),
        eval_m(fuel, ExprModel::Binary { left: Box::new(ExprModel::Int(a)), op: BOp::Gt, right: Box::new(ExprModel::Int(b)) }, cx, t)
            == (Ok::<ValueModel, EvalErrorModel>(ValueModel::Bool(a > b)), t),
        eval_m(fuel, ExprModel::Binary { left: Box::new(ExprModel::Int(a)), op: BOp::Ge, right: Box::new(ExprModel::Int(b)) }, cx, t)
            == (Ok::<ValueModel, EvalErrorModel>(ValueModel::Bool(a >= b)), t),
        eval_m(fuel, ExprModel::Binary { left: Box::new(ExprModel::Int(a)), op: BOp::Eq, right: Box::new(ExprModel::Int(b)) }, cx, t)
            == (Ok::<ValueModel, EvalErrorModel>(ValueModel::Bool(a == b)), t),
        eval_m(fuel, ExprModel::Binary { left: Box::new(ExprModel::Int(a)), op: BOp::Ne, right: Box::new(ExprModel::Int(b)) }, cx, t)
            == (Ok::<ValueModel, EvalErrorModel>(ValueModel::Bool(a != b)), t),
        b == 0 ==> eval_m(fuel, ExprModel::Binary { left: Box::new(ExprModel::Int(a)), op: BOp::Div, right: Box::new(ExprModel::Int(b)) }, cx, t)
            == (Err::<ValueModel, EvalErrorModel>(EvalErrorModel::DivideByZero { span: no_span() }), t),
        b == 0 ==> eval_m(fuel, ExprModel::Binary { left: Box::new(ExprModel::Int(a)), op: BOp::Rem, right: Box::new(ExprModel::Int(b)) }, cx, t)
            == (Err::<ValueModel, EvalErrorModel>(EvalErrorModel::DivideByZero { span: no_span() }), t),
{
    assert(eval_m(fuel, ExprModel::Int(a), cx, t) == (Ok::<ValueModel, EvalErrorModel>(ValueModel::Int(a)), t));
    assert(eval_m(fuel, ExprModel::Int(b), cx, t) == (Ok::<ValueModel, EvalErrorModel>(ValueModel::Int(b)), t));
}

/// `card(x)` is the number of values of the set that `x` gives.
pub proof fn law_cardinality_counts_values(fuel: nat, x: ExprModel, cx: Ctx, t: Seq<EnvReply>)
    ensures
        eval_m(fuel, x, cx, t).0 matches Ok(ValueModel::SetOf { elements, .. }) ==> eval_m(fuel, ExprModel::Cardinality(Box::new(x)), cx, t)
            == (Ok::<ValueModel, EvalErrorModel>(ValueModel::Int(elements.len() as i64)), eval_m(fuel, x, cx, t).1),
{
}

/// A call names its built-in: `map`, `filter` and `fold` call with a lambda, `reduce_meet`
/// reduces with the lattice's meet, `reduce_join` with its join, `reduce_semiring` with the
/// semiring's addition; any other name is an unknown function.
pub proof fn law_builtin_names(fuel: nat, name: Seq<char>, args: Seq<ValueModel>, cx: Ctx, t: Seq<EnvReply>)
    ensures
        apply_m(fuel, "map"@, args, cx, t) == map_call_m(fuel, args, cx, t),
        apply_m(fuel, "filter"@, args, cx, t) == filter_call_m(fuel, args, cx, t),
        apply_m(fuel, "fold"@, args, cx, t) == fold_call_m(fuel, args, cx, t),
        apply_m(fuel, "reduce_meet"@, args, cx, t) == lattice_reduce_m(true, args, t),
        apply_m(fuel, "reduce_join"@, args, cx, t) == lattice_reduce_m(false, args, t),
        apply_m(fuel, "reduce_semiring"@, args, cx, t) == semiring_call_m(fuel, args, cx, t),
        name != "map"@ && name != "filter"@ && name != "fold"@ && name != "reduce_meet"@ && name != "reduce_join"@
            && name != "reduce_semiring"@ ==> apply_m(fuel, name, args, cx, t)
            == (Err::<ValueModel, EvalErrorModel>(EvalErrorModel::CallUnknown { func: name, span: no_span() }), t),
{
    reveal_strlit("map");
    reveal_strlit("filter");
    reveal_strlit("fold");
    reveal_strlit("reduce_meet");
    reveal_strlit("reduce_join");
    reveal_strlit("reduce_semiring");
    assert("filter"@[0] != "map"@[0]);
    assert("fold"@[0] != "map"@[0]);
    assert("fold"@[1] != "filter"@[1]);
    assert("reduce_meet"@[0] != "map"@[0] && "reduce_meet"@[0] != "filter"@[0]);
    assert("reduce_join"@[0] != "map"@[0] && "reduce_join"@[0] != "filter"@[0] && "reduce_join"@[7] != "reduce_meet"@[7]);
    assert("reduce_semiring"@[0] != "map"@[0] && "reduce_semiring"@[0] != "filter"@[0]);
    assert("reduce_semiring"@[7] != "reduce_meet"@[7] && "reduce_semiring"@[7] != "reduce_join"@[7]);
}

// ---------- Names ----------

proof fn lemma_lookup_absent(scope: Seq<(Seq<char>, ValueModel)>, n: Seq<char>)
    requires
        forall|j: int| 0 <= j < scope.len() ==> (#[trigger] scope[j]).0 != n,
    ensures
        lookup_local(scope, n) == None::<ValueModel>,
    decreases scope.len(),
{
    if scope.len() > 0 {
        assert(scope.last() == scope[scope.len() - 1]);
        assert forall|j: int| 0 <= j < scope.drop_last().len() implies (#[trigger] scope.drop_last()[j]).0 != n by {
            assert(scope.drop_last()[j] == scope[j]);
        }
        lemma_lookup_absent(scope.drop_last(), n);
    }
}

/// A name bound by the context has the value of its latest binding and nothing is asked of
/// the environment; a name the context does not bind is asked of the environment, and its
/// answer is the value, or, when the environment has no such name, `UnknownIdent`.
pub proof fn law_names(fuel: nat, n: Seq<char>, k: int, cx: Ctx, v: Option<ValueModel>, t: Seq<EnvReply>)
    ensures
        0 <= k < cx.scope.len() && cx.scope[k].0 == n && (forall|j: int| k < j < cx.scope.len() ==> (#[trigger] cx.scope[j]).0 != n)
            ==> eval_m(fuel, ExprModel::Ident(seq![n]), cx, t) == (Ok::<ValueModel, EvalErrorModel>(cx.scope[k].1), t),
        (forall|j: int| 0 <= j < cx.scope.len() ==> (#[trigger] cx.scope[j]).0 != n)
            ==> eval_m(
                fuel,
                ExprModel::Ident(seq![n]),
                cx,
                seq![EnvReply { query: EnvQuery::Ident(n), answer: EnvAnswer::Value(v) }] + t,
            ) == (
                match v {
                    Some(x) => Ok::<ValueModel, EvalErrorModel>(x),
                    None => Err(EvalErrorModel::UnknownIdent { name: n, span: no_span() }),
                },
                t,
            ),
{
    if 0 <= k < cx.scope.len() && cx.scope[k].0 == n && (forall|j: int| k < j < cx.scope.len() ==> (#[trigger] cx.scope[j]).0 != n) {
        lemma_lookup_last_binding(Seq::empty(), cx.scope, k);
        assert(Seq::<(Seq<char>, ValueModel)>::empty() + cx.scope == cx.scope);
    }
    if forall|j: int| 0 <= j < cx.scope.len() ==> (#[trigger] cx.scope[j]).0 != n {
        lemma_lookup_absent(cx.scope, n);
        let r = EnvReply { query: EnvQuery::Ident(n), answer: EnvAnswer::Value(v) };
        lemma_later_one(r, t);
    }
}

// ---------- Enum variants ----------

/// `T::V` asks the environment for the enum type `T`: without it the result is
/// `EnumUnknownType`; with it, `V` names a variant when it is one of the type's variants or an
/// alias of one, and the result is that variant of the type; otherwise `EnumUnknownVariant`.
pub proof fn law_enum_variants(fuel: nat, ty: Seq<char>, variant: Seq<char>, info: Option<EnumInfoModel>, cx: Ctx, t: Seq<EnvReply>)
    ensures
        eval_m(
            fuel,
            ExprModel::EnumVariant { ty, variant },
            cx,
            seq![EnvReply { query: EnvQuery::EnumInfo(ty), answer: EnvAnswer::EnumInfo(info) }] + t,
        ) == (
            match info {
                None => Err(EvalErrorModel::EnumUnknownType { type_id: ty, span: no_span() }),
                Some(i) => if i.variants.contains(variant) || exists|k: int| 0 <= k < i.aliases.len() && #[trigger] i.aliases[k].0 == variant && i.variants.contains(i.aliases[k].1) {
                    Ok::<ValueModel, EvalErrorModel>(ValueModel::Enum { type_id: i.type_id, variant })
                } else {
                    Err(EvalErrorModel::EnumUnknownVariant { type_id: ty, variant, span: no_span() })
                },
            },
            t,
        ),
{
    let r = EnvReply { query: EnvQuery::EnumInfo(ty), answer: EnvAnswer::EnumInfo(info) };
    lemma_later_one(r, t);
}

// ---------- Set membership ----------

/// `x in s`, for a set whose values are comparable to `x`, tells whether the set holds `x`,
/// and asks nothing of the environment.
pub proof fn law_set_membership(x: ValueModel, et: TypeTagModel, elems: Seq<ValueModel>, t: Seq<EnvReply>)
    requires
        forall|k: int| 0 <= k < elems.len() ==> comparable(#[trigger] elems[k], x),
    ensures
        membership_m(x, ValueModel::SetOf { elem_type: et, elements: elems }, t)
            == (Ok::<ValueModel, EvalErrorModel>(ValueModel::Bool(elems.contains(x))), t),
{
    lemma_contains_model(elems, x);
}

// ---------- map, filter and reduce_semiring ----------

/// One step of `map`: `f` applied to `e`, its result added unless an equal value is there;
/// the element type is that of the first result.
pub open spec fn map_step(lam: LambdaParts, e: ValueModel, et: TypeTagModel, rs: Seq<ValueModel>, cx: Ctx, fuel: nat, t: Seq<EnvReply>) -> (Result<ValueModel, EvalErrorModel>, Seq<EnvReply>) {
    let (r, t1) = call_lambda_m(fuel, lam, seq![e], cx, t);
    match r {
        Err(x) => (Err(x), t1),
        Ok(v) => (
            match contains_model(rs, v) {
                Err(x) => Err(x),
                Ok(found) => Ok(ValueModel::SetOf {
                    elem_type: if et == TypeTagModel::Unknown { tag_of(v) } else { et },
                    elements: if found { rs } else { rs.push(v) },
                }),
            },
            t1,
        ),
    }
}

proof fn lemma_map_snoc(fuel: nat, s: Seq<ValueModel>, e: ValueModel, i: int, lam: LambdaParts, cx: Ctx, et: TypeTagModel, rs: Seq<ValueModel>, t: Seq<EnvReply>)
    requires
        0 <= i <= s.len(),
    ensures
        map_m(fuel, s.push(e), i, lam, cx, et, rs, t) == ({
            let (r, t1) = map_m(fuel, s, i, lam, cx, et, rs, t);
            match r {
                Ok(ValueModel::SetOf { elem_type, elements }) => map_step(lam, e, elem_type, elements, cx, fuel, t1),
                _ => (r, t1),
            }
        }),
    decreases s.len() - i,
{
    let sp = s.push(e);
    if i < s.len() {
        assert(sp[i] == s[i]);
        let (r, t1) = call_lambda_m(fuel, lam, seq![s[i]], cx, t);
        if let Ok(v) = r {
            let et2 = if et == TypeTagModel::Unknown { tag_of(v) } else { et };
            if let Ok(found) = contains_model(rs, v) {
                lemma_map_snoc(fuel, s, e, i + 1, lam, cx, et2, if found { rs } else { rs.push(v) }, t1);
            }
        }
    } else {
        assert(sp[i] == e);
        let (r, t1) = call_lambda_m(fuel, lam, seq![e], cx, t);
        if let Ok(v) = r {
            let et2 = if et == TypeTagModel::Unknown { tag_of(v) } else { et };
            if let Ok(found) = contains_model(rs, v) {
                let rs2 = if found { rs } else { rs.push(v) };
                assert(map_m(fuel, sp, i + 1, lam, cx, et2, rs2, t1) == (Ok::<ValueModel, EvalErrorModel>(ValueModel::SetOf { elem_type: et2, elements: rs2 }), t1));
            }
        }
    }
}

/// `map(set, f)` over no values is the empty set of unknown type; over the values of `s`
/// followed by `e`, it maps `s` and then applies `f` to `e` alone, adding the result unless a
/// value equal to it is there already.
pub proof fn law_map_steps(
    fuel: nat,
    et: TypeTagModel,
    s: Seq<ValueModel>,
    e: ValueModel,
    params: Seq<Seq<char>>,
    body: ExprModel,
    captures: Seq<(Seq<char>, ValueModel)>,
    cx: Ctx,
    t: Seq<EnvReply>,
)
    ensures
        map_call_m(fuel, seq![ValueModel::SetOf { elem_type: et, elements: Seq::empty() }, ValueModel::Lambda { params, body, captures }], cx, t)
            == (Ok::<ValueModel, EvalErrorModel>(ValueModel::SetOf { elem_type: TypeTagModel::Unknown, elements: Seq::empty() }), t),
        map_call_m(fuel, seq![ValueModel::SetOf { elem_type: et, elements: s.push(e) }, ValueModel::Lambda { params, body, captures }], cx, t) == ({
            let (r, t1) = map_call_m(fuel, seq![ValueModel::SetOf { elem_type: et, elements: s }, ValueModel::Lambda { params, body, captures }], cx, t);
            match r {
                Ok(ValueModel::SetOf { elem_type, elements }) => map_step(LambdaParts { params, body, captures }, e, elem_type, elements, cx, fuel, t1),
                _ => (r, t1),
            }
        }),
{
    lemma_map_snoc(fuel, s, e, 0, LambdaParts { params, body, captures }, cx, TypeTagModel::Unknown, Seq::empty(), t);
}

/// One step of `filter`: `e` kept when `p(e)` is `true`, dropped when it is `false`; any other
/// value is an error.
pub open spec fn filter_step(lam: LambdaParts, e: ValueModel, et: TypeTagModel, rs: Seq<ValueModel>, cx: Ctx, fuel: nat, t: Seq<EnvReply>) -> (Result<ValueModel, EvalErrorModel>, Seq<EnvReply>) {
    let (r, t1) = call_lambda_m(fuel, lam, seq![e], cx, t);
    (
        match r {
            Err(x) => Err(x),
            Ok(ValueModel::Bool(keep)) => Ok(ValueModel::SetOf { elem_type: et, elements: if keep { rs.push(e) } else { rs } }),
            Ok(other) => Err(EvalErrorModel::TypeMismatch { op: "filter", left: tag_of(other), right: TypeTagModel::Bool, span: no_span() }),
        },
        t1,
    )
}

proof fn lemma_filter_snoc(fuel: nat, s: Seq<ValueModel>, e: ValueModel, i: int, lam: LambdaParts, cx: Ctx, et: TypeTagModel, rs: Seq<ValueModel>, t: Seq<EnvReply>)
    requires
        0 <= i <= s.len(),
    ensures
        filter_m(fuel, s.push(e), i, lam, cx, et, rs, t) == ({
            let (r, t1) = filter_m(fuel, s, i, lam, cx, et, rs, t);
            match r {
                Ok(ValueModel::SetOf { elem_type, elements }) => filter_step(lam, e, elem_type, elements, cx, fuel, t1),
                _ => (r, t1),
            }
        }),
    decreases s.len() - i,
{
    let sp = s.push(e);
    if i < s.len() {
        assert(sp[i] == s[i]);
        let (r, t1) = call_lambda_m(fuel, lam, seq![s[i]], cx, t);
        if let Ok(ValueModel::Bool(keep)) = r {
            lemma_filter_snoc(fuel, s, e, i + 1, lam, cx, et, if keep { rs.push(s[i]) } else { rs }, t1);
        }
    } else {
        assert(sp[i] == e);
        let (r, t1) = call_lambda_m(fuel, lam, seq![e], cx, t);
        if let Ok(ValueModel::Bool(keep)) = r {
            let rs2 = if keep { rs.push(e) } else { rs };
            assert(filter_m(fuel, sp, i + 1, lam, cx, et, rs2, t1) == (Ok::<ValueModel, EvalErrorModel>(ValueModel::SetOf { elem_type: et, elements: rs2 }), t1));
        }
    }
}

/// `filter(set, p)` over no values is the empty set of the set's type; over the values of `s`
/// followed by `e`, it filters `s` and then keeps `e` exactly when `p(e)` is `true`.
pub proof fn law_filter_steps(
    fuel: nat,
    et: TypeTagModel,
    s: Seq<ValueModel>,
    e: ValueModel,
    params: Seq<Seq<char>>,
    body: ExprModel,
    captures: Seq<(Seq<char>, ValueModel)>,
    cx: Ctx,
    t: Seq<EnvReply>,
)
    ensures
        filter_call_m(fuel, seq![ValueModel::SetOf { elem_type: et, elements: Seq::empty() }, ValueModel::Lambda { params, body, captures }], cx, t)
            == (Ok::<ValueModel, EvalErrorModel>(ValueModel::SetOf { elem_type: et, elements: Seq::empty() }), t),
        filter_call_m(fuel, seq![ValueModel::SetOf { elem_type: et, elements: s.push(e) }, ValueModel::Lambda { params, body, captures }], cx, t) == ({
            let (r, t1) = filter_call_m(fuel, seq![ValueModel::SetOf { elem_type: et, elements: s }, ValueModel::Lambda { params, body, captures }], cx, t);
            match r {
                Ok(ValueModel::SetOf { elem_type, elements }) => filter_step(LambdaParts { params, body, captures }, e, elem_type, elements, cx, fuel, t1),
                _ => (r, t1),
            }
        }),
{
    lemma_filter_snoc(fuel, s, e, 0, LambdaParts { params, body, captures }, cx, et, Seq::empty(), t);
}

/// One step of `reduce_semiring`: `f(e)`, then the semiring sum of `acc` and it, as the
/// environment answers.
pub open spec fn semiring_step(lam: LambdaParts, e: ValueModel, ops: SemiringModel, acc: ValueModel, cx: Ctx, fuel: nat, t: Seq<EnvReply>) -> (Result<ValueModel, EvalErrorModel>, Seq<EnvReply>) {
    let (r, t1) = call_lambda_m(fuel, lam, seq![e], cx, t);
    match r {
        Err(x) => (Err(x), t1),
        Ok(m) => (read_op(EnvQuery::Oplus(ops, acc, m), t1), later(EnvQuery::Oplus(ops, acc, m), t1)),
    }
}

proof fn lemma_semiring_snoc(fuel: nat, s: Seq<ValueModel>, e: ValueModel, i: int, lam: LambdaParts, cx: Ctx, ops: SemiringModel, acc: ValueModel, t: Seq<EnvReply>)
    requires
        0 <= i <= s.len(),
    ensures
        semiring_m(fuel, s.push(e), i, lam, cx, ops, acc, t) == ({
            let (r, t1) = semiring_m(fuel, s, i, lam, cx, ops, acc, t);
            match r {
                Ok(v) => semiring_step(lam, e, ops, v, cx, fuel, t1),
                Err(x) => (Err(x), t1),
            }
        }),
    decreases s.len() - i,
{
    let sp = s.push(e);
    if i < s.len() {
        assert(sp[i] == s[i]);
        let (r, t1) = call_lambda_m(fuel, lam, seq![s[i]], cx, t);
        if let Ok(m) = r {
            let q = EnvQuery::Oplus(ops, acc, m);
            if let Ok(v) = read_op(q, t1) {
                lemma_semiring_snoc(fuel, s, e, i + 1, lam, cx, ops, v, later(q, t1));
            }
        }
    } else {
        assert(sp[i] == e);
        let (r, t1) = call_lambda_m(fuel, lam, seq![e], cx, t);
        if let Ok(m) = r {
            let q = EnvQuery::Oplus(ops, acc, m);
            if let Ok(v) = read_op(q, t1) {
                assert(semiring_m(fuel, sp, i + 1, lam, cx, ops, v, later(q, t1)) == (Ok::<ValueModel, EvalErrorModel>(v), later(q, t1)));
            }
        }
    }
}

/// `reduce_semiring(set, f)` uses the semiring chosen by an enclosing `with_semiring`, or else
/// asks the environment for its current one; without one it fails with `SemiringMissing`.
/// Over no values it gives the semiring's zero; over the values of `s` followed by `e`, it
/// reduces `s` and then adds `f(e)` to that sum with the semiring's addition.
pub proof fn law_semiring_reduction_steps(
    fuel: nat,
    et: TypeTagModel,
    s: Seq<ValueModel>,
    e: ValueModel,
    params: Seq<Seq<char>>,
    body: ExprModel,
    captures: Seq<(Seq<char>, ValueModel)>,
    cx: Ctx,
    t: Seq<EnvReply>,
)
    ensures
        ({
            let (sr, t0) = match cx.semiring {
                Some(ops) => (Some(ops), t),
                None => (read_semiring(EnvQuery::CurrentSemiring, t), later(EnvQuery::CurrentSemiring, t)),
            };
            &&& semiring_call_m(fuel, seq![ValueModel::SetOf { elem_type: et, elements: Seq::empty() }, ValueModel::Lambda { params, body, captures }], cx, t)
                == (
                    match sr {
                        None => Err(EvalErrorModel::SemiringMissing { span: no_span() }),
                        Some(ops) => Ok::<ValueModel, EvalErrorModel>(ops.zero),
                    },
                    t0,
                )
            &&& semiring_call_m(fuel, seq![ValueModel::SetOf { elem_type: et, elements: s.push(e) }, ValueModel::Lambda { params, body, captures }], cx, t) == ({
                let (r, t1) = semiring_call_m(fuel, seq![ValueModel::SetOf { elem_type: et, elements: s }, ValueModel::Lambda { params, body, captures }], cx, t);
                match r {
                    Ok(v) => semiring_step(LambdaParts { params, body, captures }, e, sr->Some_0, v, cx, fuel, t1),
                    Err(x) => (Err(x), t1),
                }
            })
        }),
{
    let (sr, t0) = read_semiring_or(cx.semiring, t);
    if let Some(ops) = sr {
        lemma_semiring_snoc(fuel, s, e, 0, LambdaParts { params, body, captures }, cx, ops, ops.zero, t0);
    }
}

// ---------- Quantifiers ----------

proof fn lemma_quantify_snoc(universal: bool, var: Seq<char>, s: Seq<ValueModel>, e: ValueModel, i: int, pred: ExprModel, t: Seq<EnvReply>)
    requires
        0 <= i <= s.len(),
    ensures
        quantify_from(universal, var, s.push(e), i, pred, t) == ({
            let (r, t1) = quantify_from(universal, var, s, i, pred, t);
            match r {
                Ok(b) => if b != universal {
                    (Ok(b), t1)
                } else {
                    let (pe, t2) = eval_m(MAX_CALL_DEPTH as nat, pred, Ctx { scope: seq![(var, e)], semiring: None }, t1);
                    (
                        match pe {
                            Err(x) => Err(x),
                            Ok(ValueModel::Bool(c)) => Ok(c),
                            Ok(other) => Err(EvalErrorModel::QuantifierTypeMismatch {
                                quantifier: if universal { "forall" } else { "exists" },
                                found: tag_of(other),
                                span: no_span(),
                            }),
                        },
                        t2,
                    )
                },
                Err(x) => (Err(x), t1),
            }
        }),
    decreases s.len() - i,
{
    let sp = s.push(e);
    if i < s.len() {
        assert(sp[i] == s[i]);
        let (r, t1) = eval_m(MAX_CALL_DEPTH as nat, pred, binding_ctx(var, s[i]), t);
        if let Ok(ValueModel::Bool(c)) = r {
            if c == universal {
                lemma_quantify_snoc(universal, var, s, e, i + 1, pred, t1);
            }
        }
    } else {
        assert(sp[i] == e);
        let (r, t1) = eval_m(MAX_CALL_DEPTH as nat, pred, binding_ctx(var, e), t);
        if let Ok(ValueModel::Bool(c)) = r {
            if c == universal {
                assert(quantify_from(universal, var, sp, i + 1, pred, t1) == (Ok::<bool, EvalErrorModel>(universal), t1));
            }
        }
    }
}

/// A quantifier over the items of `s` followed by `e`: when the items of `s` already decide it
/// (a `false` for `forall`, a `true` for `exists`), that verdict stands and `e` is not looked
/// at; otherwise the verdict is the predicate's value with the variable bound to `e` alone.
/// Over no items, `forall` holds and `exists` does not.
pub proof fn law_quantifier_steps(universal: bool, var: Seq<char>, s: Seq<ValueModel>, e: ValueModel, pred: ExprModel, t: Seq<EnvReply>)
    ensures
        quantify_from(universal, var, Seq::empty(), 0, pred, t) == (Ok::<bool, EvalErrorModel>(universal), t),
        quantify_from(universal, var, s.push(e), 0, pred, t) == ({
            let (r, t1) = quantify_from(universal, var, s, 0, pred, t);
            match r {
                Ok(b) => if b != universal {
                    (Ok(b), t1)
                } else {
                    let (pe, t2) = eval_m(MAX_CALL_DEPTH as nat, pred, Ctx { scope: seq![(var, e)], semiring: None }, t1);
                    (
                        match pe {
                            Err(x) => Err(x),
                            Ok(ValueModel::Bool(c)) => Ok(c),
                            Ok(other) => Err(EvalErrorModel::QuantifierTypeMismatch {
                                quantifier: if universal { "forall" } else { "exists" },
                                found: tag_of(other),
                                span: no_span(),
                            }),
                        },
                        t2,
                    )
                },
                Err(x) => (Err(x), t1),
            }
        }),
{
    lemma_quantify_snoc(universal, var, s, e, 0, pred, t);
}

} // verus!
