//! Properties of the language that hold for all inputs, proved over the semantics.
use vstd::prelude::*;

use crate::ast::{bsize, esize, esizes, lemma_esize_pos, BOp, BoundExprModel, CallModel, ExprModel, SetOp, UOp};
use crate::error::{EvalErrorModel, TypeTagModel};
use crate::quantifier::{binding_ctx, quantify_from, quantify_m};
use crate::runtime::{later, read_collection, EnvQuery, EnvReply};
use crate::error::{LexError, ParseError};
use crate::parser::{
    after_lower, binds_at_least, call_args, call_expr, call_with_name, combine, dotted_name, dotted_rest, endpoint,
    ident_dots, ident_or_lambda, ident_tail, infix_loop, interval_literal, kind_is, lambda_param_list, lambda_params,
    paren_group, parenthesized, parse_prec, pipe_loop, precedence, prefix, set_items, stops_infix, try_interval,
    try_lambda, with_semiring, BoundKind, InfixOp, Parsed,
};
use crate::token::{
    digits_end, digits_value, ident_end, is_digit, is_ident_continue_char, is_ident_start_char, is_space,
    lemma_digits_end, lemma_ident_end, lemma_scan_advances, lemma_scan_kind, lemma_string_end, lex, lex_from, mk_span,
    scan_token, string_end, TokenKindModel, TokenModel,
};
use crate::semantics::{
    binary_m, binary_plain, call_lambda_m, diff_from, div_toward_zero, eval_m, expect_lambda, expect_set, filter_call_m, filter_m,
    fold_call_m, intersect_from, map_call_m, map_m, membership_m, rem_toward_zero, set_op_result, unary_result,
    union_from, bound_m, compare_m, compare_typed_m, finite_bound, resolve_interval_type, set_literal_m, unwrap_tag, Ctx, Ev,
    LambdaParts, MAX_CALL_DEPTH, build_lambda_m, capture_all, eval_args_m, free_vars, free_vars_bound, free_vars_list, lookup_name,
};
use crate::value::{all_contained, contained_from, contains_model, tag_of, values_equal, BoundValueModel, ValueModel};
use vstd::seq_lib::seq_to_set_is_finite;
use vstd::relations::injective_on;
use vstd::set_lib::{lemma_int_range, lemma_len_subset, lemma_map_size, lemma_subset_equality, set_int_range};

verus! {

// ---------- Intervals of integers ----------

/// A bound that is infinite or holds an integer.
pub open spec fn int_bound(b: BoundValueModel) -> bool {
    match b {
        BoundValueModel::Open(v) => *v is Int,
        BoundValueModel::Closed(v) => *v is Int,
        _ => true,
    }
}

/// Whether `x` lies above the lower bound `b`.
pub open spec fn above_lower(x: i64, b: BoundValueModel) -> bool {
    match b {
        BoundValueModel::Open(v) => v->Int_0 < x,
        BoundValueModel::Closed(v) => v->Int_0 <= x,
        BoundValueModel::NegInf => true,
        BoundValueModel::PosInf => false,
    }
}

/// Whether `x` lies below the upper bound `b`.
pub open spec fn below_upper(x: i64, b: BoundValueModel) -> bool {
    match b {
        BoundValueModel::Open(v) => x < v->Int_0,
        BoundValueModel::Closed(v) => x <= v->Int_0,
        BoundValueModel::PosInf => true,
        BoundValueModel::NegInf => false,
    }
}

/// An integer is in an interval of integers exactly when it lies above the lower bound and
/// below the upper one: a closed bound admits its own value, an open bound does not, and an
/// infinite bound admits every integer. The environment is not consulted.
pub proof fn law_int_interval_membership(x: i64, lo: BoundValueModel, hi: BoundValueModel, t: Seq<EnvReply>)
    requires
        int_bound(lo),
        int_bound(hi),
        !(lo is PosInf),
        !(hi is NegInf),
    ensures
        membership_m(ValueModel::Int(x), ValueModel::Interval { elem_type: TypeTagModel::Int, lo, hi }, t)
            == (Ok::<ValueModel, EvalErrorModel>(ValueModel::Bool(above_lower(x, lo) && below_upper(x, hi))), t),
{
}

/// Every integer is in the interval `(-inf, +inf)`.
pub proof fn law_unbounded_interval_holds_every_int(x: i64, t: Seq<EnvReply>)
    ensures
        membership_m(
            ValueModel::Int(x),
            ValueModel::Interval { elem_type: TypeTagModel::Int, lo: BoundValueModel::NegInf, hi: BoundValueModel::PosInf },
            t,
        ) == (Ok::<ValueModel, EvalErrorModel>(ValueModel::Bool(true)), t),
{
    law_int_interval_membership(x, BoundValueModel::NegInf, BoundValueModel::PosInf, t);
}

// ---------- Division ----------

pub open spec fn abs(x: int) -> int {
    if x < 0 {
        -x
    } else {
        x
    }
}

/// Division rounds toward zero and the remainder takes the sign of the dividend: for `b != 0`,
/// `a == b * q + r` with `|r| < |b|`, and `r` is zero or has the sign of `a`.
pub proof fn law_division_identity(a: int, b: int)
    requires
        b != 0,
    ensures
        a == b * div_toward_zero(a, b) + rem_toward_zero(a, b),
        abs(rem_toward_zero(a, b)) < abs(b),
        rem_toward_zero(a, b) == 0 || ((rem_toward_zero(a, b) < 0) == (a < 0)),
{
    let q = div_toward_zero(a, b);
    let r = rem_toward_zero(a, b);
    let ua = abs(a);
    let ub = abs(b);
    vstd::arithmetic::div_mod::lemma_fundamental_div_mod(ua, ub);
    vstd::arithmetic::div_mod::lemma_mod_pos_bound(ua, ub);
    let uq = ua / ub;
    let ur = ua % ub;
    assert(ua == ub * uq + ur);
    if a >= 0 && b > 0 {
        assert(q == uq);
        assert(r == ur);
    } else if a < 0 && b > 0 {
        assert(q == -uq);
        assert(b * q == -(ub * uq)) by (nonlinear_arith)
            requires
                q == -uq,
                b == ub,
        ;
        assert(r == -ur);
    } else if a >= 0 && b < 0 {
        assert(q == -uq);
        assert(b * q == ub * uq) by (nonlinear_arith)
            requires
                q == -uq,
                b == -ub,
        ;
        assert(r == ur);
    } else {
        assert(q == uq);
        assert(b * q == -(ub * uq)) by (nonlinear_arith)
            requires
                q == uq,
                b == -ub,
        ;
        assert(r == -ur);
    }
}

/// On integers, `/` and `%` fit together: where neither divides by zero nor overflows,
/// `a == b * (a / b) + a % b`, the remainder is smaller than the divisor in magnitude and has
/// the sign of the dividend.
pub proof fn law_div_rem(a: i64, b: i64)
    requires
        b != 0,
        !(a == i64::MIN && b == -1),
    ensures
        binary_plain(BOp::Div, ValueModel::Int(a), ValueModel::Int(b)) matches Ok(ValueModel::Int(q))
            && binary_plain(BOp::Rem, ValueModel::Int(a), ValueModel::Int(b)) matches Ok(ValueModel::Int(r))
            && a == b * q + r
            && abs(r as int) < abs(b as int)
            && (r == 0 || ((r < 0) == (a < 0))),
{
    law_division_identity(a as int, b as int);
    let q = div_toward_zero(a as int, b as int);
    let r = rem_toward_zero(a as int, b as int);
    // The quotient is no larger in magnitude than the dividend, so it fits.
    let ua = abs(a as int);
    let ub = abs(b as int);
    vstd::arithmetic::div_mod::lemma_div_basics_4(ua, ub);
    vstd::arithmetic::div_mod::lemma_div_basics_5(ua, ub);
    if ub >= 2 {
        vstd::arithmetic::div_mod::lemma_div_is_ordered_by_denominator(ua, 2, ub);
    }
    assert(i64::MIN <= q <= i64::MAX);
}

// ---------- Comparisons ----------

/// On integers the comparison operators are the usual order, agree with `==`, and `!=` is the
/// negation of `==`; the environment is not consulted.
pub proof fn law_int_comparisons(a: i64, b: i64, t: Seq<EnvReply>)
    ensures
        binary_m(BOp::Lt, ValueModel::Int(a), ValueModel::Int(b), t) == (Ok::<ValueModel, EvalErrorModel>(ValueModel::Bool(a < b)), t),
        binary_m(BOp::Le, ValueModel::Int(a), ValueModel::Int(b), t) == (Ok::<ValueModel, EvalErrorModel>(ValueModel::Bool(a <= b)), t),
        binary_m(BOp::Gt, ValueModel::Int(a), ValueModel::Int(b), t) == (Ok::<ValueModel, EvalErrorModel>(ValueModel::Bool(a > b)), t),
        binary_m(BOp::Ge, ValueModel::Int(a), ValueModel::Int(b), t) == (Ok::<ValueModel, EvalErrorModel>(ValueModel::Bool(a >= b)), t),
        binary_m(BOp::Eq, ValueModel::Int(a), ValueModel::Int(b), t) == (Ok::<ValueModel, EvalErrorModel>(ValueModel::Bool(a == b)), t),
        binary_m(BOp::Ne, ValueModel::Int(a), ValueModel::Int(b), t) == (Ok::<ValueModel, EvalErrorModel>(ValueModel::Bool(a != b)), t),
{
}

// ---------- Sets of scalar values ----------

/// Two values that `==` compares without error: numbers, booleans, strings, or variants of one
/// enum type.
pub open spec fn comparable(a: ValueModel, b: ValueModel) -> bool {
    match (a, b) {
        (ValueModel::Int(_), ValueModel::Int(_)) => true,
        (ValueModel::Bool(_), ValueModel::Bool(_)) => true,
        (ValueModel::Str(_), ValueModel::Str(_)) => true,
        (ValueModel::Enum { type_id: ta, .. }, ValueModel::Enum { type_id: tb, .. }) => ta == tb,
        _ => false,
    }
}

/// Values that are pairwise comparable.
pub open spec fn uniform(s: Seq<ValueModel>) -> bool {
    forall|i: int, j: int| 0 <= i < s.len() && 0 <= j < s.len() ==> comparable(#[trigger] s[i], #[trigger] s[j])
}

/// Equality of comparable values is equality of the values; it is reflexive and symmetric.
pub proof fn law_scalar_equality(a: ValueModel, b: ValueModel)
    requires
        comparable(a, b),
    ensures
        values_equal(a, b) == Ok::<bool, EvalErrorModel>(a == b),
        values_equal(b, a) == values_equal(a, b),
        values_equal(a, a) == Ok::<bool, EvalErrorModel>(true),
{
}

/// Looking for a value among values comparable to it is membership.
proof fn lemma_contained_from(hay: Seq<ValueModel>, j: int, x: ValueModel)
    requires
        0 <= j <= hay.len(),
        forall|k: int| 0 <= k < hay.len() ==> comparable(#[trigger] hay[k], x),
    ensures
        contained_from(hay, j, x) == Ok::<bool, EvalErrorModel>(hay.subrange(j, hay.len() as int).contains(x)),
    decreases hay.len() - j,
{
    if j < hay.len() {
        lemma_contained_from(hay, j + 1, x);
        law_scalar_equality(hay[j], x);
        let sub = hay.subrange(j, hay.len() as int);
        let rest = hay.subrange(j + 1, hay.len() as int);
        assert(sub[0] == hay[j]);
        assert(sub =~= seq![hay[j]] + rest);
        assert(sub.contains(x) == (hay[j] == x || rest.contains(x))) by {
            if rest.contains(x) {
                let k = choose|k: int| 0 <= k < rest.len() && rest[k] == x;
                assert(sub[k + 1] == x);
            }
            if sub.contains(x) && hay[j] != x {
                let k = choose|k: int| 0 <= k < sub.len() && sub[k] == x;
                assert(k != 0);
                assert(rest[k - 1] == x);
            }
        }
    } else {
        assert(hay.subrange(j, hay.len() as int).len() == 0);
    }
}

pub(crate) proof fn lemma_contains_model(hay: Seq<ValueModel>, x: ValueModel)
    requires
        forall|k: int| 0 <= k < hay.len() ==> comparable(#[trigger] hay[k], x),
    ensures
        contains_model(hay, x) == Ok::<bool, EvalErrorModel>(hay.contains(x)),
{
    lemma_contained_from(hay, 0, x);
    assert(hay.subrange(0, hay.len() as int) =~= hay);
}


proof fn lemma_suffix_set(s: Seq<ValueModel>, i: int)
    requires
        0 <= i < s.len(),
    ensures
        s.subrange(i, s.len() as int).to_set() == s.subrange(i + 1, s.len() as int).to_set().insert(s[i]),
{
    let here = s.subrange(i, s.len() as int);
    let rest = s.subrange(i + 1, s.len() as int);
    assert forall|y: ValueModel| here.to_set().contains(y) <==> rest.to_set().insert(s[i]).contains(y) by {
        if here.contains(y) {
            let k = choose|k: int| 0 <= k < here.len() && here[k] == y;
            if k > 0 {
                assert(rest[k - 1] == y);
            }
        }
        if rest.contains(y) {
            let k = choose|k: int| 0 <= k < rest.len() && rest[k] == y;
            assert(here[k + 1] == y);
        }
        if y == s[i] {
            assert(here[0] == y);
        }
    }
    assert(here.to_set() =~= rest.to_set().insert(s[i]));
}

proof fn lemma_push_set(acc: Seq<ValueModel>, x: ValueModel)
    ensures
        acc.push(x).to_set() == acc.to_set().insert(x),
        acc.no_duplicates() && !acc.contains(x) ==> acc.push(x).no_duplicates(),
{
    let acc2 = acc.push(x);
    assert forall|y: ValueModel| acc2.to_set().contains(y) <==> acc.to_set().insert(x).contains(y) by {
        if acc2.contains(y) {
            let k = choose|k: int| 0 <= k < acc2.len() && acc2[k] == y;
            if k < acc.len() {
                assert(acc[k] == y);
            }
        }
        if acc.contains(y) {
            let k = choose|k: int| 0 <= k < acc.len() && acc[k] == y;
            assert(acc2[k] == y);
        }
        if y == x {
            assert(acc2[acc.len() as int] == x);
        }
    }
    assert(acc2.to_set() =~= acc.to_set().insert(x));
    if acc.no_duplicates() && !acc.contains(x) {
        assert forall|p: int, q: int| 0 <= p < acc2.len() && 0 <= q < acc2.len() && p != q implies acc2[p] != acc2[q] by {
            if p == acc.len() {
                assert(acc2[q] == acc[q]);
            } else if q == acc.len() {
                assert(acc2[p] == acc[p]);
            } else {
                assert(acc2[p] == acc[p] && acc2[q] == acc[q]);
            }
        }
    }
}

/// Values of `acc` drawn from `all` are comparable to every value of `all`.
proof fn lemma_drawn_comparable(all: Seq<ValueModel>, acc: Seq<ValueModel>, x: ValueModel)
    requires
        uniform(all),
        acc.to_set().subset_of(all.to_set()),
        all.contains(x),
    ensures
        forall|k: int| 0 <= k < acc.len() ==> comparable(#[trigger] acc[k], x),
{
    let n = choose|n: int| 0 <= n < all.len() && all[n] == x;
    assert forall|k: int| 0 <= k < acc.len() implies comparable(#[trigger] acc[k], x) by {
        assert(acc.to_set().contains(acc[k]));
        let m = choose|m: int| 0 <= m < all.len() && all[m] == acc[k];
        assert(comparable(all[m], all[n]));
    }
}

proof fn lemma_union_from(all: Seq<ValueModel>, i: int, acc: Seq<ValueModel>)
    requires
        0 <= i <= all.len(),
        uniform(all),
        acc.to_set().subset_of(all.to_set()),
        acc.no_duplicates(),
    ensures
        union_from(all, i, acc) matches Ok(u) && u.to_set() == acc.to_set().union(all.subrange(i, all.len() as int).to_set())
            && u.no_duplicates(),
    decreases all.len() - i,
{
    if i < all.len() {
        let x = all[i];
        assert(all.contains(x)) by {
            assert(all[i] == x);
        }
        lemma_drawn_comparable(all, acc, x);
        lemma_contains_model(acc, x);
        lemma_suffix_set(all, i);
        let rest = all.subrange(i + 1, all.len() as int);
        let here = all.subrange(i, all.len() as int);
        if acc.contains(x) {
            lemma_union_from(all, i + 1, acc);
            assert(acc.to_set().union(here.to_set()) =~= acc.to_set().union(rest.to_set()));
        } else {
            lemma_push_set(acc, x);
            lemma_union_from(all, i + 1, acc.push(x));
            assert(acc.push(x).to_set().union(rest.to_set()) =~= acc.to_set().union(here.to_set()));
        }
    } else {
        assert(all.subrange(i, all.len() as int).to_set() =~= Set::<ValueModel>::empty());
        assert(acc.to_set().union(Set::<ValueModel>::empty()) =~= acc.to_set());
    }
}

proof fn lemma_intersect_from(ea: Seq<ValueModel>, i: int, eb: Seq<ValueModel>, acc: Seq<ValueModel>)
    requires
        0 <= i <= ea.len(),
        uniform(ea + eb),
        acc.to_set().subset_of(ea.to_set()),
        acc.no_duplicates(),
    ensures
        intersect_from(ea, i, eb, acc) matches Ok(u)
            && u.to_set() == acc.to_set().union(ea.subrange(i, ea.len() as int).to_set().intersect(eb.to_set()))
            && u.no_duplicates(),
    decreases ea.len() - i,
{
    let all = ea + eb;
    if i < ea.len() {
        let x = ea[i];
        assert(all.contains(x)) by {
            assert(all[i] == x);
        }
        assert(acc.to_set().subset_of(all.to_set())) by {
            assert forall|y: ValueModel| acc.to_set().contains(y) implies all.to_set().contains(y) by {
                assert(ea.to_set().contains(y));
                let k = choose|k: int| 0 <= k < ea.len() && ea[k] == y;
                assert(all[k] == y);
            }
        }
        assert(eb.to_set().subset_of(all.to_set())) by {
            assert forall|y: ValueModel| eb.to_set().contains(y) implies all.to_set().contains(y) by {
                let k = choose|k: int| 0 <= k < eb.len() && eb[k] == y;
                assert(all[ea.len() + k] == y);
            }
        }
        lemma_drawn_comparable(all, acc, x);
        lemma_drawn_comparable(all, eb, x);
        lemma_contains_model(acc, x);
        lemma_contains_model(eb, x);
        lemma_suffix_set(ea, i);
        let rest = ea.subrange(i + 1, ea.len() as int);
        let here = ea.subrange(i, ea.len() as int);
        if !eb.contains(x) || acc.contains(x) {
            lemma_intersect_from(ea, i + 1, eb, acc);
            assert(acc.to_set().union(here.to_set().intersect(eb.to_set())) =~= acc.to_set().union(rest.to_set().intersect(eb.to_set())));
        } else {
            lemma_push_set(acc, x);
            assert(ea.to_set().contains(x)) by {
                assert(ea[i] == x);
            }
            lemma_intersect_from(ea, i + 1, eb, acc.push(x));
            assert(acc.push(x).to_set().union(rest.to_set().intersect(eb.to_set())) =~= acc.to_set().union(here.to_set().intersect(eb.to_set())));
        }
    } else {
        assert(ea.subrange(i, ea.len() as int).to_set() =~= Set::<ValueModel>::empty());
        assert(acc.to_set().union(Set::<ValueModel>::empty().intersect(eb.to_set())) =~= acc.to_set());
    }
}

proof fn lemma_diff_from(ea: Seq<ValueModel>, i: int, eb: Seq<ValueModel>, acc: Seq<ValueModel>)
    requires
        0 <= i <= ea.len(),
        uniform(ea + eb),
    ensures
        diff_from(ea, i, eb, acc) matches Ok(u)
            && u.to_set() == acc.to_set().union(ea.subrange(i, ea.len() as int).to_set().difference(eb.to_set()))
            && u.len() <= acc.len() + ea.len() - i
            && ((acc.no_duplicates() && ea.no_duplicates() && acc.to_set().disjoint(ea.subrange(i, ea.len() as int).to_set()))
                ==> u.no_duplicates()),
    decreases ea.len() - i,
{
    let all = ea + eb;
    if i < ea.len() {
        let x = ea[i];
        assert(all.contains(x)) by {
            assert(all[i] == x);
        }
        assert(eb.to_set().subset_of(all.to_set())) by {
            assert forall|y: ValueModel| eb.to_set().contains(y) implies all.to_set().contains(y) by {
                let k = choose|k: int| 0 <= k < eb.len() && eb[k] == y;
                assert(all[ea.len() + k] == y);
            }
        }
        lemma_drawn_comparable(all, eb, x);
        lemma_contains_model(eb, x);
        lemma_suffix_set(ea, i);
        let rest = ea.subrange(i + 1, ea.len() as int);
        let here = ea.subrange(i, ea.len() as int);
        assert(!rest.contains(x) || !ea.no_duplicates()) by {
            if rest.contains(x) && ea.no_duplicates() {
                let k = choose|k: int| 0 <= k < rest.len() && rest[k] == x;
                assert(ea[i + 1 + k] == x);
            }
        }
        if eb.contains(x) {
            lemma_diff_from(ea, i + 1, eb, acc);
            assert(acc.to_set().union(here.to_set().difference(eb.to_set())) =~= acc.to_set().union(rest.to_set().difference(eb.to_set())));
            assert(acc.to_set().disjoint(here.to_set()) ==> acc.to_set().disjoint(rest.to_set()));
        } else {
            lemma_push_set(acc, x);
            lemma_diff_from(ea, i + 1, eb, acc.push(x));
            assert(acc.push(x).to_set().union(rest.to_set().difference(eb.to_set())) =~= acc.to_set().union(here.to_set().difference(eb.to_set())));
            if acc.no_duplicates() && ea.no_duplicates() && acc.to_set().disjoint(here.to_set()) {
                assert(!acc.contains(x)) by {
                    assert(here.to_set().contains(x));
                    if acc.contains(x) {
                        assert(acc.to_set().contains(x));
                    }
                }
                assert(acc.push(x).to_set().disjoint(rest.to_set()));
            }
        }
    } else {
        assert(ea.subrange(i, ea.len() as int).to_set() =~= Set::<ValueModel>::empty());
        assert(acc.to_set().union(Set::<ValueModel>::empty().difference(eb.to_set())) =~= acc.to_set());
    }
}

proof fn lemma_concat_set(ea: Seq<ValueModel>, eb: Seq<ValueModel>)
    ensures
        (ea + eb).to_set() == ea.to_set().union(eb.to_set()),
{
    let all = ea + eb;
    assert forall|y: ValueModel| all.to_set().contains(y) <==> ea.to_set().union(eb.to_set()).contains(y) by {
        if all.contains(y) {
            let k = choose|k: int| 0 <= k < all.len() && all[k] == y;
            if k < ea.len() {
                assert(ea[k] == y);
            } else {
                assert(eb[k - ea.len()] == y);
            }
        }
        if ea.contains(y) {
            let k = choose|k: int| 0 <= k < ea.len() && ea[k] == y;
            assert(all[k] == y);
        }
        if eb.contains(y) {
            let k = choose|k: int| 0 <= k < eb.len() && eb[k] == y;
            assert(all[ea.len() + k] == y);
        }
    }
    assert(all.to_set() =~= ea.to_set().union(eb.to_set()));
}

/// The union of two sets of comparable values holds each value of either set once, and no
/// other value; so its cardinality is that of the union of the two sets.
pub proof fn law_union(ta: TypeTagModel, ea: Seq<ValueModel>, tb: TypeTagModel, eb: Seq<ValueModel>)
    requires
        uniform(ea + eb),
        ta == tb || ta == TypeTagModel::Unknown || tb == TypeTagModel::Unknown,
    ensures
        set_op_result(SetOp::Union, ValueModel::SetOf { elem_type: ta, elements: ea }, ValueModel::SetOf { elem_type: tb, elements: eb })
            matches Ok(ValueModel::SetOf { elem_type, elements })
            && elem_type == (if ta != TypeTagModel::Unknown { ta } else { tb })
            && elements.to_set() == ea.to_set().union(eb.to_set())
            && elements.no_duplicates()
            && elements.len() == ea.to_set().union(eb.to_set()).len(),
{
    let all = ea + eb;
    assert(Seq::<ValueModel>::empty().to_set() =~= Set::<ValueModel>::empty());
    lemma_union_from(all, 0, Seq::empty());
    assert(all.subrange(0, all.len() as int) =~= all);
    lemma_concat_set(ea, eb);
    assert(Set::<ValueModel>::empty().union(all.to_set()) =~= all.to_set());
    let u = union_from(all, 0, Seq::empty())->Ok_0;
    u.unique_seq_to_set();
}

/// The intersection of two sets of comparable values holds each value that is in both sets
/// once, and no other value.
pub proof fn law_intersect(ta: TypeTagModel, ea: Seq<ValueModel>, tb: TypeTagModel, eb: Seq<ValueModel>)
    requires
        uniform(ea + eb),
        ta == tb || ta == TypeTagModel::Unknown || tb == TypeTagModel::Unknown,
    ensures
        set_op_result(SetOp::Intersect, ValueModel::SetOf { elem_type: ta, elements: ea }, ValueModel::SetOf { elem_type: tb, elements: eb })
            matches Ok(ValueModel::SetOf { elem_type, elements })
            && elem_type == (if ta != TypeTagModel::Unknown { ta } else { tb })
            && elements.to_set() == ea.to_set().intersect(eb.to_set())
            && elements.no_duplicates(),
{
    assert(Seq::<ValueModel>::empty().to_set() =~= Set::<ValueModel>::empty());
    lemma_intersect_from(ea, 0, eb, Seq::empty());
    assert(ea.subrange(0, ea.len() as int) =~= ea);
    assert(Set::<ValueModel>::empty().union(ea.to_set().intersect(eb.to_set())) =~= ea.to_set().intersect(eb.to_set()));
}

/// The difference of two sets of comparable values holds the values of the first set that are
/// not in the second, in their order; a first set without repeated values gives a difference
/// without repeated values.
pub proof fn law_difference(ta: TypeTagModel, ea: Seq<ValueModel>, tb: TypeTagModel, eb: Seq<ValueModel>)
    requires
        uniform(ea + eb),
        ta == tb || ta == TypeTagModel::Unknown || tb == TypeTagModel::Unknown,
    ensures
        set_op_result(SetOp::Diff, ValueModel::SetOf { elem_type: ta, elements: ea }, ValueModel::SetOf { elem_type: tb, elements: eb })
            matches Ok(ValueModel::SetOf { elem_type, elements })
            && elem_type == (if ta != TypeTagModel::Unknown { ta } else { tb })
            && elements.to_set() == ea.to_set().difference(eb.to_set())
            && elements.len() <= ea.len()
            && (ea.no_duplicates() ==> elements.no_duplicates()),
{
    let empty = Seq::<ValueModel>::empty();
    assert(empty.to_set() =~= Set::<ValueModel>::empty());
    lemma_diff_from(ea, 0, eb, empty);
    assert(ea.subrange(0, ea.len() as int) =~= ea);
    assert(Set::<ValueModel>::empty().union(ea.to_set().difference(eb.to_set())) =~= ea.to_set().difference(eb.to_set()));
    assert(empty.no_duplicates());
    assert(empty.to_set().disjoint(ea.to_set()));
}

/// Looking for each value of `ea[i..]` among values comparable to it is membership of each.
proof fn lemma_all_contained(ea: Seq<ValueModel>, i: int, eb: Seq<ValueModel>)
    requires
        0 <= i <= ea.len(),
        uniform(ea + eb),
    ensures
        all_contained(ea, i, eb) == Ok::<bool, EvalErrorModel>(forall|k: int| i <= k < ea.len() ==> eb.contains(#[trigger] ea[k])),
    decreases ea.len() - i,
{
    if i < ea.len() {
        let all = ea + eb;
        assert forall|k: int| 0 <= k < eb.len() implies comparable(#[trigger] eb[k], ea[i]) by {
            assert(all[ea.len() + k] == eb[k]);
            assert(all[i] == ea[i]);
        }
        lemma_contains_model(eb, ea[i]);
        lemma_all_contained(ea, i + 1, eb);
        assert((forall|k: int| i <= k < ea.len() ==> eb.contains(#[trigger] ea[k]))
            == (eb.contains(ea[i]) && forall|k: int| i + 1 <= k < ea.len() ==> eb.contains(#[trigger] ea[k])));
    }
}

/// Values pairwise comparable in `ea + eb` are pairwise comparable in `eb + ea`.
proof fn lemma_uniform_swap(ea: Seq<ValueModel>, eb: Seq<ValueModel>)
    requires
        uniform(ea + eb),
    ensures
        uniform(eb + ea),
{
    let x = ea + eb;
    let y = eb + ea;
    assert forall|i: int, j: int| 0 <= i < y.len() && 0 <= j < y.len() implies comparable(#[trigger] y[i], #[trigger] y[j]) by {
        let i2 = if i < eb.len() { ea.len() + i } else { i - eb.len() };
        let j2 = if j < eb.len() { ea.len() + j } else { j - eb.len() };
        assert(y[i] == x[i2]);
        assert(y[j] == x[j2]);
    }
}

proof fn lemma_scalar_set_equality_one(ta: TypeTagModel, ea: Seq<ValueModel>, tb: TypeTagModel, eb: Seq<ValueModel>)
    requires
        uniform(ea + eb),
        ea.no_duplicates(),
        eb.no_duplicates(),
    ensures
        values_equal(ValueModel::SetOf { elem_type: ta, elements: ea }, ValueModel::SetOf { elem_type: tb, elements: eb })
            == Ok::<bool, EvalErrorModel>(ea.to_set() == eb.to_set()),
{
    ea.unique_seq_to_set();
    eb.unique_seq_to_set();
    seq_to_set_is_finite(ea);
    seq_to_set_is_finite(eb);
    if ea.len() == eb.len() {
        lemma_all_contained(ea, 0, eb);
        if forall|k: int| 0 <= k < ea.len() ==> eb.contains(#[trigger] ea[k]) {
            assert forall|y: ValueModel| ea.to_set().contains(y) implies eb.to_set().contains(y) by {
                let k = choose|k: int| 0 <= k < ea.len() && ea[k] == y;
                assert(eb.contains(ea[k]));
            }
            lemma_subset_equality(ea.to_set(), eb.to_set());
        } else {
            let k = choose|k: int| 0 <= k < ea.len() && !eb.contains(#[trigger] ea[k]);
            assert(ea.to_set().contains(ea[k]));
            assert(!eb.to_set().contains(ea[k]));
        }
    } else {
        assert(ea.to_set().len() != eb.to_set().len());
    }
}

/// Two sets of comparable scalar values, neither holding a value twice, are equal exactly
/// when they hold the same values; so this equality is symmetric.
pub proof fn law_scalar_set_equality(ta: TypeTagModel, ea: Seq<ValueModel>, tb: TypeTagModel, eb: Seq<ValueModel>)
    requires
        uniform(ea + eb),
        ea.no_duplicates(),
        eb.no_duplicates(),
    ensures
        values_equal(ValueModel::SetOf { elem_type: ta, elements: ea }, ValueModel::SetOf { elem_type: tb, elements: eb })
            == Ok::<bool, EvalErrorModel>(ea.to_set() == eb.to_set()),
        values_equal(ValueModel::SetOf { elem_type: tb, elements: eb }, ValueModel::SetOf { elem_type: ta, elements: ea })
            == values_equal(ValueModel::SetOf { elem_type: ta, elements: ea }, ValueModel::SetOf { elem_type: tb, elements: eb }),
{
    lemma_scalar_set_equality_one(ta, ea, tb, eb);
    lemma_uniform_swap(ea, eb);
    lemma_scalar_set_equality_one(tb, eb, ta, ea);
}

/// Value equality is an equivalence on the values of `s`: it is defined on every two of them,
/// and it is reflexive, symmetric and transitive there.
pub open spec fn equality_is_equivalence(s: Seq<ValueModel>) -> bool {
    &&& forall|x: ValueModel, y: ValueModel| s.contains(x) && s.contains(y)
        ==> (#[trigger] values_equal(x, y)) is Ok && values_equal(x, y) == values_equal(y, x)
    &&& forall|x: ValueModel| s.contains(x) ==> #[trigger] values_equal(x, x) == Ok::<bool, EvalErrorModel>(true)
    &&& forall|x: ValueModel, y: ValueModel, z: ValueModel|
        s.contains(x) && s.contains(y) && s.contains(z) && #[trigger] values_equal(x, y) == Ok::<bool, EvalErrorModel>(true)
            && #[trigger] values_equal(y, z) == Ok::<bool, EvalErrorModel>(true)
            ==> values_equal(x, z) == Ok::<bool, EvalErrorModel>(true)
}

/// Some value of `b` equals `x`.
pub open spec fn has_equal(b: Seq<ValueModel>, x: ValueModel) -> bool {
    exists|j: int| 0 <= j < b.len() && #[trigger] values_equal(b[j], x) == Ok::<bool, EvalErrorModel>(true)
}

/// Every value of `a` equals some value of `b`.
pub open spec fn each_has_equal(a: Seq<ValueModel>, b: Seq<ValueModel>) -> bool {
    forall|i: int| 0 <= i < a.len() ==> has_equal(b, #[trigger] a[i])
}

/// Looking for `x` among values that compare with it finds an equal one when there is one.
proof fn lemma_contained_from_equal(hay: Seq<ValueModel>, j: int, x: ValueModel)
    requires
        0 <= j <= hay.len(),
        forall|k: int| 0 <= k < hay.len() ==> (#[trigger] values_equal(hay[k], x)) is Ok,
    ensures
        contained_from(hay, j, x) == Ok::<bool, EvalErrorModel>(
            exists|k: int| j <= k < hay.len() && #[trigger] values_equal(hay[k], x) == Ok::<bool, EvalErrorModel>(true),
        ),
    decreases hay.len() - j,
{
    if j < hay.len() {
        lemma_contained_from_equal(hay, j + 1, x);
        assert(values_equal(hay[j], x) is Ok);
    }
}

proof fn lemma_all_contained_equal(ea: Seq<ValueModel>, i: int, eb: Seq<ValueModel>)
    requires
        0 <= i <= ea.len(),
        compares_with(ea, eb),
    ensures
        all_contained(ea, i, eb) == Ok::<bool, EvalErrorModel>(forall|k: int| i <= k < ea.len() ==> has_equal(eb, #[trigger] ea[k])),
    decreases ea.len() - i,
{
    if i < ea.len() {
        assert forall|k: int| 0 <= k < eb.len() implies (#[trigger] values_equal(eb[k], ea[i])) is Ok by {}
        lemma_contained_from_equal(eb, 0, ea[i]);
        lemma_all_contained_equal(ea, i + 1, eb);
        assert((forall|k: int| i <= k < ea.len() ==> has_equal(eb, #[trigger] ea[k]))
            == (has_equal(eb, ea[i]) && forall|k: int| i + 1 <= k < ea.len() ==> has_equal(eb, #[trigger] ea[k])));
    }
}

/// Some `i` in `[0, n)` has `f(i) == j`.
pub open spec fn hit(f: spec_fn(int) -> int, n: int, j: int) -> bool {
    exists|i: int| 0 <= i < n && #[trigger] f(i) == j
}

/// An injection from `[0, n)` into `[0, m)` has `n <= m`, and is onto when `n == m`.
proof fn lemma_injection(n: int, m: int, f: spec_fn(int) -> int)
    requires
        0 <= n,
        0 <= m,
        forall|i: int| 0 <= i < n ==> 0 <= #[trigger] f(i) < m,
        forall|i: int, k: int| 0 <= i < n && 0 <= k < n && #[trigger] f(i) == #[trigger] f(k) ==> i == k,
    ensures
        n <= m,
        n == m ==> forall|j: int| 0 <= j < m ==> #[trigger] hit(f, n, j),
{
    let dom = set_int_range(0, n);
    let img = dom.map(f);
    lemma_int_range(0, n);
    lemma_int_range(0, m);
    assert(injective_on(f, dom));
    lemma_map_size(dom, img, f);
    assert(img.subset_of(set_int_range(0, m)));
    lemma_len_subset(img, set_int_range(0, m));
    if n == m {
        lemma_subset_equality(img, set_int_range(0, m));
        assert forall|j: int| 0 <= j < m implies #[trigger] hit(f, n, j) by {
            assert(set_int_range(0, m).contains(j));
            assert(img.contains(j));
        }
    }
}

/// Every value of `eb` compares with every value of `ea`.
pub open spec fn compares_with(ea: Seq<ValueModel>, eb: Seq<ValueModel>) -> bool {
    forall|p: int, q: int| 0 <= p < ea.len() && 0 <= q < eb.len() ==> (#[trigger] values_equal(eb[q], ea[p])) is Ok
}

/// Comparing a value of `ea` with a value of `eb` gives what comparing them the other way does.
pub open spec fn compares_symmetrically(ea: Seq<ValueModel>, eb: Seq<ValueModel>) -> bool {
    forall|p: int, q: int| 0 <= p < ea.len() && 0 <= q < eb.len()
        ==> #[trigger] values_equal(ea[p], eb[q]) == #[trigger] values_equal(eb[q], ea[p])
}

/// No value of `eb` equals two values of `ea`.
pub open spec fn equals_at_most_one(ea: Seq<ValueModel>, eb: Seq<ValueModel>) -> bool {
    forall|p: int, k: int, q: int|
        0 <= p < ea.len() && 0 <= k < ea.len() && 0 <= q < eb.len()
            && #[trigger] values_equal(eb[q], ea[p]) == Ok::<bool, EvalErrorModel>(true)
            && #[trigger] values_equal(eb[q], ea[k]) == Ok::<bool, EvalErrorModel>(true) ==> p == k
}

proof fn lemma_equivalence_between(ea: Seq<ValueModel>, eb: Seq<ValueModel>)
    requires
        equality_is_equivalence(ea + eb),
        distinct_values(ea),
        distinct_values(eb),
    ensures
        compares_with(ea, eb),
        compares_with(eb, ea),
        compares_symmetrically(ea, eb),
        compares_symmetrically(eb, ea),
        equals_at_most_one(ea, eb),
        equals_at_most_one(eb, ea),
{
    let all = ea + eb;
    assert forall|p: int| 0 <= p < ea.len() implies all.contains(#[trigger] ea[p]) by {
        assert(all[p] == ea[p]);
    }
    assert forall|q: int| 0 <= q < eb.len() implies all.contains(#[trigger] eb[q]) by {
        assert(all[ea.len() + q] == eb[q]);
    }
    assert forall|p: int, q: int| 0 <= p < ea.len() && 0 <= q < eb.len() implies
        (#[trigger] values_equal(eb[q], ea[p])) is Ok && values_equal(eb[q], ea[p]) == values_equal(ea[p], eb[q]) by {
        assert(all.contains(ea[p]) && all.contains(eb[q]));
    }
    assert forall|p: int, k: int, q: int|
        0 <= p < ea.len() && 0 <= k < ea.len() && 0 <= q < eb.len()
            && #[trigger] values_equal(eb[q], ea[p]) == Ok::<bool, EvalErrorModel>(true)
            && #[trigger] values_equal(eb[q], ea[k]) == Ok::<bool, EvalErrorModel>(true) implies p == k by {
        assert(all.contains(ea[p]) && all.contains(ea[k]) && all.contains(eb[q]));
        assert(values_equal(ea[p], eb[q]) == Ok::<bool, EvalErrorModel>(true));
        assert(values_equal(ea[p], ea[k]) == Ok::<bool, EvalErrorModel>(true));
        if p < k {
            assert(values_equal(ea[p], ea[k]) == Ok::<bool, EvalErrorModel>(false));
        } else if k < p {
            assert(values_equal(ea[k], ea[p]) == Ok::<bool, EvalErrorModel>(false));
        }
    }
    assert forall|q: int, r: int, p: int|
        0 <= q < eb.len() && 0 <= r < eb.len() && 0 <= p < ea.len()
            && #[trigger] values_equal(ea[p], eb[q]) == Ok::<bool, EvalErrorModel>(true)
            && #[trigger] values_equal(ea[p], eb[r]) == Ok::<bool, EvalErrorModel>(true) implies q == r by {
        assert(all.contains(eb[q]) && all.contains(eb[r]) && all.contains(ea[p]));
        assert(values_equal(eb[q], ea[p]) == Ok::<bool, EvalErrorModel>(true));
        assert(values_equal(eb[q], eb[r]) == Ok::<bool, EvalErrorModel>(true));
        if q < r {
            assert(values_equal(eb[q], eb[r]) == Ok::<bool, EvalErrorModel>(false));
        } else if r < q {
            assert(values_equal(eb[r], eb[q]) == Ok::<bool, EvalErrorModel>(false));
        }
    }
}

/// When each value of `ea` equals some value of `eb`, and no value of `eb` equals two of `ea`,
/// `ea` is no longer than `eb`; when they are as long, each value of `eb` equals one of `ea`.
proof fn lemma_equal_counts(ea: Seq<ValueModel>, eb: Seq<ValueModel>)
    requires
        each_has_equal(ea, eb),
        equals_at_most_one(ea, eb),
        compares_symmetrically(ea, eb),
    ensures
        ea.len() <= eb.len(),
        ea.len() == eb.len() ==> each_has_equal(eb, ea),
{
    let n = ea.len() as int;
    let m = eb.len() as int;
    let f = |i: int| choose|j: int| 0 <= j < m && values_equal(eb[j], ea[i]) == Ok::<bool, EvalErrorModel>(true);
    assert forall|i: int| 0 <= i < n implies 0 <= #[trigger] f(i) < m && values_equal(eb[f(i)], ea[i]) == Ok::<bool, EvalErrorModel>(true) by {
        assert(has_equal(eb, ea[i]));
    }
    lemma_injection(n, m, f);
    if n == m {
        assert forall|j: int| 0 <= j < m implies has_equal(ea, #[trigger] eb[j]) by {
            assert(hit(f, n, j));
            let i = choose|i: int| 0 <= i < n && #[trigger] f(i) == j;
            assert(values_equal(eb[j], ea[i]) == Ok::<bool, EvalErrorModel>(true));
            assert(values_equal(ea[i], eb[j]) == Ok::<bool, EvalErrorModel>(true));
        }
    }
}

proof fn lemma_set_equality_one(ta: TypeTagModel, ea: Seq<ValueModel>, tb: TypeTagModel, eb: Seq<ValueModel>)
    requires
        equality_is_equivalence(ea + eb),
        distinct_values(ea),
        distinct_values(eb),
    ensures
        values_equal(ValueModel::SetOf { elem_type: ta, elements: ea }, ValueModel::SetOf { elem_type: tb, elements: eb })
            == Ok::<bool, EvalErrorModel>(each_has_equal(ea, eb) && each_has_equal(eb, ea)),
{
    lemma_equivalence_between(ea, eb);
    if each_has_equal(ea, eb) {
        lemma_equal_counts(ea, eb);
    }
    if each_has_equal(eb, ea) {
        lemma_equal_counts(eb, ea);
    }
    if ea.len() == eb.len() {
        lemma_all_contained_equal(ea, 0, eb);
    }
}

/// Two sets, each without two equal values, whose values value equality treats as an
/// equivalence, are equal exactly when each value of either equals some value of the other;
/// so this equality is symmetric.
pub proof fn law_set_equality(ta: TypeTagModel, ea: Seq<ValueModel>, tb: TypeTagModel, eb: Seq<ValueModel>)
    requires
        equality_is_equivalence(ea + eb),
        distinct_values(ea),
        distinct_values(eb),
    ensures
        values_equal(ValueModel::SetOf { elem_type: ta, elements: ea }, ValueModel::SetOf { elem_type: tb, elements: eb })
            == Ok::<bool, EvalErrorModel>(each_has_equal(ea, eb) && each_has_equal(eb, ea)),
        values_equal(ValueModel::SetOf { elem_type: tb, elements: eb }, ValueModel::SetOf { elem_type: ta, elements: ea })
            == values_equal(ValueModel::SetOf { elem_type: ta, elements: ea }, ValueModel::SetOf { elem_type: tb, elements: eb }),
{
    lemma_set_equality_one(ta, ea, tb, eb);
    assert forall|x: ValueModel| (eb + ea).contains(x) <==> (ea + eb).contains(x) by {
        lemma_concat_contains(ea, eb, x);
        lemma_concat_contains(eb, ea, x);
    }
    assert(equality_is_equivalence(eb + ea));
    lemma_set_equality_one(tb, eb, ta, ea);
}

proof fn lemma_concat_contains(a: Seq<ValueModel>, b: Seq<ValueModel>, x: ValueModel)
    ensures
        (a + b).contains(x) <==> (a.contains(x) || b.contains(x)),
{
    if (a + b).contains(x) {
        let k = choose|k: int| 0 <= k < (a + b).len() && (a + b)[k] == x;
        if k < a.len() {
            assert(a[k] == x);
        } else {
            assert(b[k - a.len()] == x);
        }
    }
    if a.contains(x) {
        let k = choose|k: int| 0 <= k < a.len() && a[k] == x;
        assert((a + b)[k] == x);
    }
    if b.contains(x) {
        let k = choose|k: int| 0 <= k < b.len() && b[k] == x;
        assert((a + b)[a.len() + k] == x);
    }
}

/// The values of `s` in order, each at its first occurrence only.
pub open spec fn first_occurrences(s: Seq<ValueModel>) -> Seq<ValueModel>
    decreases s.len(),
{
    if s.len() == 0 {
        s
    } else {
        let d = first_occurrences(s.drop_last());
        if s.drop_last().contains(s.last()) {
            d
        } else {
            d.push(s.last())
        }
    }
}

/// The values of `s`, in order, that `b` holds (`inside`) or does not hold.
pub open spec fn those_in(s: Seq<ValueModel>, b: Seq<ValueModel>, inside: bool) -> Seq<ValueModel>
    decreases s.len(),
{
    if s.len() == 0 {
        s
    } else {
        let d = those_in(s.drop_last(), b, inside);
        if b.contains(s.last()) == inside {
            d.push(s.last())
        } else {
            d
        }
    }
}

proof fn lemma_push_contains(s: Seq<ValueModel>, x: ValueModel, y: ValueModel)
    ensures
        s.push(x).contains(y) <==> (s.contains(y) || y == x),
{
    if s.push(x).contains(y) {
        let k = choose|k: int| 0 <= k < s.push(x).len() && s.push(x)[k] == y;
        if k < s.len() {
            assert(s[k] == y);
        }
    }
    if s.contains(y) {
        let k = choose|k: int| 0 <= k < s.len() && s[k] == y;
        assert(s.push(x)[k] == y);
    }
    assert(s.push(x)[s.len() as int] == x);
}

proof fn lemma_first_occurrences_contains(s: Seq<ValueModel>, y: ValueModel)
    ensures
        first_occurrences(s).contains(y) <==> s.contains(y),
    decreases s.len(),
{
    if s.len() > 0 {
        lemma_first_occurrences_contains(s.drop_last(), y);
        lemma_push_contains(first_occurrences(s.drop_last()), s.last(), y);
        lemma_push_contains(s.drop_last(), s.last(), y);
        assert(s.drop_last().push(s.last()) =~= s);
    }
}

proof fn lemma_those_in_contains(s: Seq<ValueModel>, b: Seq<ValueModel>, inside: bool, y: ValueModel)
    ensures
        those_in(s, b, inside).contains(y) ==> s.contains(y),
    decreases s.len(),
{
    if s.len() > 0 {
        lemma_those_in_contains(s.drop_last(), b, inside, y);
        lemma_push_contains(those_in(s.drop_last(), b, inside), s.last(), y);
        lemma_push_contains(s.drop_last(), s.last(), y);
        assert(s.drop_last().push(s.last()) =~= s);
    }
}

/// Values of `acc` that `all` holds compare with every value of `all`.
proof fn lemma_held_comparable(all: Seq<ValueModel>, acc: Seq<ValueModel>, x: ValueModel)
    requires
        uniform(all),
        forall|y: ValueModel| acc.contains(y) ==> all.contains(y),
        all.contains(x),
    ensures
        forall|k: int| 0 <= k < acc.len() ==> comparable(#[trigger] acc[k], x),
{
    let n = choose|n: int| 0 <= n < all.len() && all[n] == x;
    assert forall|k: int| 0 <= k < acc.len() implies comparable(#[trigger] acc[k], x) by {
        assert(acc.contains(acc[k]));
        let m = choose|m: int| 0 <= m < all.len() && all[m] == acc[k];
        assert(comparable(all[m], all[n]));
    }
}

proof fn lemma_union_order(all: Seq<ValueModel>, i: int, acc: Seq<ValueModel>)
    requires
        0 <= i <= all.len(),
        uniform(all),
        acc == first_occurrences(all.subrange(0, i)),
    ensures
        union_from(all, i, acc) == Ok::<Seq<ValueModel>, EvalErrorModel>(first_occurrences(all)),
    decreases all.len() - i,
{
    if i < all.len() {
        let x = all[i];
        let pre = all.subrange(0, i);
        assert(all.contains(x)) by {
            assert(all[i] == x);
        }
        assert forall|y: ValueModel| acc.contains(y) implies all.contains(y) by {
            lemma_first_occurrences_contains(pre, y);
            let k = choose|k: int| 0 <= k < pre.len() && pre[k] == y;
            assert(all[k] == y);
        }
        lemma_held_comparable(all, acc, x);
        lemma_contains_model(acc, x);
        lemma_first_occurrences_contains(pre, x);
        let next = all.subrange(0, i + 1);
        assert(next.drop_last() =~= pre);
        assert(next.last() == x);
        lemma_union_order(all, i + 1, first_occurrences(next));
    } else {
        assert(all.subrange(0, i) =~= all);
    }
}

proof fn lemma_intersect_order(ea: Seq<ValueModel>, i: int, eb: Seq<ValueModel>, acc: Seq<ValueModel>)
    requires
        0 <= i <= ea.len(),
        uniform(ea + eb),
        acc == first_occurrences(those_in(ea.subrange(0, i), eb, true)),
    ensures
        intersect_from(ea, i, eb, acc) == Ok::<Seq<ValueModel>, EvalErrorModel>(first_occurrences(those_in(ea, eb, true))),
    decreases ea.len() - i,
{
    let all = ea + eb;
    if i < ea.len() {
        let x = ea[i];
        let pre = ea.subrange(0, i);
        let kept = those_in(pre, eb, true);
        assert(all.contains(x)) by {
            assert(all[i] == x);
        }
        assert forall|k: int| 0 <= k < eb.len() implies comparable(#[trigger] eb[k], x) by {
            assert(all[ea.len() + k] == eb[k]);
            assert(all[i] == x);
        }
        lemma_contains_model(eb, x);
        assert forall|y: ValueModel| acc.contains(y) implies all.contains(y) by {
            lemma_first_occurrences_contains(kept, y);
            lemma_those_in_contains(pre, eb, true, y);
            let k = choose|k: int| 0 <= k < pre.len() && pre[k] == y;
            assert(all[k] == y);
        }
        lemma_held_comparable(all, acc, x);
        lemma_contains_model(acc, x);
        lemma_first_occurrences_contains(kept, x);
        let next = ea.subrange(0, i + 1);
        assert(next.drop_last() =~= pre);
        assert(next.last() == x);
        if eb.contains(x) {
            assert(those_in(next, eb, true) == kept.push(x));
            assert(kept.push(x).drop_last() =~= kept);
        }
        lemma_intersect_order(ea, i + 1, eb, first_occurrences(those_in(next, eb, true)));
    } else {
        assert(ea.subrange(0, i) =~= ea);
    }
}

proof fn lemma_diff_order(ea: Seq<ValueModel>, i: int, eb: Seq<ValueModel>, acc: Seq<ValueModel>)
    requires
        0 <= i <= ea.len(),
        uniform(ea + eb),
        acc == those_in(ea.subrange(0, i), eb, false),
    ensures
        diff_from(ea, i, eb, acc) == Ok::<Seq<ValueModel>, EvalErrorModel>(those_in(ea, eb, false)),
    decreases ea.len() - i,
{
    let all = ea + eb;
    if i < ea.len() {
        let x = ea[i];
        assert forall|k: int| 0 <= k < eb.len() implies comparable(#[trigger] eb[k], x) by {
            assert(all[ea.len() + k] == eb[k]);
            assert(all[i] == x);
        }
        lemma_contains_model(eb, x);
        let next = ea.subrange(0, i + 1);
        assert(next.drop_last() =~= ea.subrange(0, i));
        assert(next.last() == x);
        lemma_diff_order(ea, i + 1, eb, those_in(next, eb, false));
    } else {
        assert(ea.subrange(0, i) =~= ea);
    }
}

/// On sets of comparable values, the set operations keep the order of their operands: a union
/// lists the values of the left set and then of the right one, each at its first occurrence;
/// an intersection lists the values of the left set that the right one holds, each at its
/// first occurrence; a difference lists the values of the left set that the right one does
/// not hold.
pub proof fn law_set_operations_keep_order(ta: TypeTagModel, ea: Seq<ValueModel>, tb: TypeTagModel, eb: Seq<ValueModel>)
    requires
        uniform(ea + eb),
        ta == tb || ta == TypeTagModel::Unknown || tb == TypeTagModel::Unknown,
    ensures
        ({
            let (l, r) = (ValueModel::SetOf { elem_type: ta, elements: ea }, ValueModel::SetOf { elem_type: tb, elements: eb });
            let et = if ta != TypeTagModel::Unknown { ta } else { tb };
            &&& set_op_result(SetOp::Union, l, r) == Ok::<ValueModel, EvalErrorModel>(ValueModel::SetOf { elem_type: et, elements: first_occurrences(ea + eb) })
            &&& set_op_result(SetOp::Intersect, l, r) == Ok::<ValueModel, EvalErrorModel>(ValueModel::SetOf { elem_type: et, elements: first_occurrences(those_in(ea, eb, true)) })
            &&& set_op_result(SetOp::Diff, l, r) == Ok::<ValueModel, EvalErrorModel>(ValueModel::SetOf { elem_type: et, elements: those_in(ea, eb, false) })
        }),
{
    let all = ea + eb;
    let empty = Seq::<ValueModel>::empty();
    assert(all.subrange(0, 0) =~= empty);
    assert(ea.subrange(0, 0) =~= empty);
    lemma_union_order(all, 0, empty);
    lemma_intersect_order(ea, 0, eb, empty);
    lemma_diff_order(ea, 0, eb, empty);
}

// ---------- Quantifiers ----------

/// The predicate `!p`.
pub open spec fn negation(p: ExprModel) -> ExprModel {
    ExprModel::Unary { op: UOp::Not, expr: Box::new(p) }
}

/// Over an empty collection, `forall` holds and `exists` does not.
pub proof fn law_quantifier_over_empty_collection(universal: bool, var: Seq<char>, collection: Seq<char>, pred: ExprModel, t: Seq<EnvReply>)
    requires
        read_collection(EnvQuery::FiniteSet(collection), t) == Some(Seq::<ValueModel>::empty()),
    ensures
        quantify_m(universal, var, collection, pred, t) == (Ok::<bool, EvalErrorModel>(universal), later(EnvQuery::FiniteSet(collection), t)),
{
}

/// A quantifier's outcome with its verdict negated; an error is kept.
pub open spec fn negated_verdict(r: Result<bool, EvalErrorModel>) -> Result<bool, EvalErrorModel> {
    match r {
        Ok(b) => Ok(!b),
        Err(e) => Err(e),
    }
}

/// Whether a quantifier's outcome reports a predicate value that is not a boolean.
pub open spec fn non_boolean_predicate(r: Result<bool, EvalErrorModel>) -> bool {
    r matches Err(EvalErrorModel::QuantifierTypeMismatch { .. })
}

proof fn lemma_duality_from(universal: bool, var: Seq<char>, items: Seq<ValueModel>, i: int, p: ExprModel, t: Seq<EnvReply>)
    requires
        0 <= i <= items.len(),
    ensures
        !non_boolean_predicate(quantify_from(universal, var, items, i, p, t).0)
            ==> quantify_from(!universal, var, items, i, negation(p), t) == (
                negated_verdict(quantify_from(universal, var, items, i, p, t).0),
                quantify_from(universal, var, items, i, p, t).1,
            ),
        quantify_from(!universal, var, items, i, negation(p), t).0 matches Ok(b)
            ==> quantify_from(universal, var, items, i, p, t) == (
                Ok::<bool, EvalErrorModel>(!b),
                quantify_from(!universal, var, items, i, negation(p), t).1,
            ),
    decreases items.len() - i,
{
    if i < items.len() {
        let cx = binding_ctx(var, items[i]);
        let (r, t1) = eval_m(MAX_CALL_DEPTH as nat, p, cx, t);
        assert(eval_m(MAX_CALL_DEPTH as nat, negation(p), cx, t) == (
            match r {
                Err(e) => Err(e),
                Ok(v) => unary_result(UOp::Not, v),
            },
            t1,
        ));
        lemma_duality_from(universal, var, items, i + 1, p, t1);
    }
}

/// `forall x in c: p` is `!(exists x in c: !p)`: on the same exchanges with the environment
/// the two give opposite verdicts, or the same error, unless a value of `p` is not a boolean
/// (which `forall` reports as a quantifier type mismatch, and `!` as an operand error); and
/// whenever `exists x in c: !p` gives a verdict, `forall x in c: p` gives the opposite one.
pub proof fn law_forall_exists_duality(var: Seq<char>, collection: Seq<char>, p: ExprModel, t: Seq<EnvReply>)
    ensures
        !non_boolean_predicate(quantify_m(true, var, collection, p, t).0)
            ==> quantify_m(false, var, collection, negation(p), t) == (
                negated_verdict(quantify_m(true, var, collection, p, t).0),
                quantify_m(true, var, collection, p, t).1,
            ),
        quantify_m(false, var, collection, negation(p), t).0 matches Ok(b)
            ==> quantify_m(true, var, collection, p, t) == (
                Ok::<bool, EvalErrorModel>(!b),
                quantify_m(false, var, collection, negation(p), t).1,
            ),
{
    match read_collection(EnvQuery::FiniteSet(collection), t) {
        Some(items) => {
            lemma_duality_from(true, var, items, 0, p, later(EnvQuery::FiniteSet(collection), t));
        },
        None => {},
    }
}

/// `exists x in c: p` is `!(forall x in c: !p)`: on the same exchanges with the environment
/// the two give opposite verdicts, or the same error, unless a value of `p` is not a boolean
/// (which `exists` reports as a quantifier type mismatch, and `!` as an operand error); and
/// whenever `forall x in c: !p` gives a verdict, `exists x in c: p` gives the opposite one.
pub proof fn law_exists_is_not_forall_not(var: Seq<char>, collection: Seq<char>, p: ExprModel, t: Seq<EnvReply>)
    ensures
        !non_boolean_predicate(quantify_m(false, var, collection, p, t).0)
            ==> quantify_m(true, var, collection, negation(p), t) == (
                negated_verdict(quantify_m(false, var, collection, p, t).0),
                quantify_m(false, var, collection, p, t).1,
            ),
        quantify_m(true, var, collection, negation(p), t).0 matches Ok(b)
            ==> quantify_m(false, var, collection, p, t) == (
                Ok::<bool, EvalErrorModel>(!b),
                quantify_m(true, var, collection, negation(p), t).1,
            ),
{
    match read_collection(EnvQuery::FiniteSet(collection), t) {
        Some(items) => {
            lemma_duality_from(false, var, items, 0, p, later(EnvQuery::FiniteSet(collection), t));
        },
        None => {},
    }
}

// ---------- Calls and pipelines ----------

/// A pipeline `lhs |> f(args)` is the call `f(lhs, args)`: the piped value is the first
/// argument, evaluated first, with the same result and the same exchanges with the environment.
pub proof fn law_pipe_is_call_with_piped_value_first(fuel: nat, lhs: ExprModel, call: CallModel, cx: Ctx, t: Seq<EnvReply>)
    ensures
        eval_m(fuel, ExprModel::Pipe { lhs: Box::new(lhs), call }, cx, t)
            == eval_m(fuel, ExprModel::Call(CallModel { func: call.func, args: seq![lhs] + call.args }), cx, t),
{
    let items = seq![lhs] + call.args;
    assert(items[0] == lhs);
    assert(items.subrange(1, items.len() as int) =~= call.args);
    let (r1, t1) = eval_m(fuel, lhs, cx, t);
    match r1 {
        Ok(v) => {
            assert(Seq::<ValueModel>::empty().push(v) =~= seq![v]);
            assert(eval_args_m(fuel, items, cx, Seq::empty(), t) == eval_args_m(fuel, call.args, cx, seq![v], t1));
        },
        Err(e) => {
            assert(eval_args_m(fuel, items, cx, Seq::empty(), t) == (Err::<Seq<ValueModel>, EvalErrorModel>(e), t1));
        },
    }
}

// ---------- Lambdas ----------

proof fn lemma_push_new_name(acc: Seq<Seq<char>>, x: Seq<char>)
    requires
        acc.no_duplicates(),
        !acc.contains(x),
    ensures
        acc.push(x).no_duplicates(),
{
    let acc2 = acc.push(x);
    assert forall|p: int, q: int| 0 <= p < acc2.len() && 0 <= q < acc2.len() && p != q implies acc2[p] != acc2[q] by {
        if p == acc.len() {
            assert(acc2[q] == acc[q]);
        } else if q == acc.len() {
            assert(acc2[p] == acc[p]);
        } else {
            assert(acc2[p] == acc[p] && acc2[q] == acc[q]);
        }
    }
}

proof fn lemma_free_vars_distinct(e: ExprModel, bound: Seq<Seq<char>>, acc: Seq<Seq<char>>)
    requires
        acc.no_duplicates(),
    ensures
        free_vars(e, bound, acc).no_duplicates(),
    decreases esize(e), 0nat,
{
    match e {
        ExprModel::Ident(path) => {
            if path.len() > 0 && !bound.contains(path[0]) && !acc.contains(path[0]) {
                lemma_push_new_name(acc, path[0]);
            }
        },
        ExprModel::Unary { expr, .. } => lemma_free_vars_distinct(*expr, bound, acc),
        ExprModel::Binary { left, right, .. } => {
            lemma_free_vars_distinct(*left, bound, acc);
            lemma_free_vars_distinct(*right, bound, free_vars(*left, bound, acc));
        },
        ExprModel::SetLiteral(items) => lemma_free_vars_list_distinct(items, bound, acc),
        ExprModel::In { elem, set } => {
            lemma_free_vars_distinct(*elem, bound, acc);
            lemma_free_vars_distinct(*set, bound, free_vars(*elem, bound, acc));
        },
        ExprModel::SetOp { lhs, rhs, .. } => {
            lemma_free_vars_distinct(*lhs, bound, acc);
            lemma_free_vars_distinct(*rhs, bound, free_vars(*lhs, bound, acc));
        },
        ExprModel::Cardinality(x) => lemma_free_vars_distinct(*x, bound, acc),
        ExprModel::Interval { lo, hi } => {
            lemma_free_vars_bound_distinct(lo, bound, acc);
            lemma_free_vars_bound_distinct(hi, bound, free_vars_bound(lo, bound, acc));
        },
        ExprModel::Lambda { params, body } => lemma_free_vars_distinct(*body, bound + params, acc),
        ExprModel::Call(c) => lemma_free_vars_list_distinct(c.args, bound, acc),
        ExprModel::Pipe { lhs, call } => {
            lemma_free_vars_distinct(*lhs, bound, acc);
            lemma_free_vars_list_distinct(call.args, bound, free_vars(*lhs, bound, acc));
        },
        ExprModel::WithSemiring { body, .. } => lemma_free_vars_distinct(*body, bound, acc),
        _ => {},
    }
}

proof fn lemma_free_vars_bound_distinct(b: BoundExprModel, bound: Seq<Seq<char>>, acc: Seq<Seq<char>>)
    requires
        acc.no_duplicates(),
    ensures
        free_vars_bound(b, bound, acc).no_duplicates(),
    decreases bsize(b), 1nat,
{
    match b {
        BoundExprModel::Open(x) => lemma_free_vars_distinct(*x, bound, acc),
        BoundExprModel::Closed(x) => lemma_free_vars_distinct(*x, bound, acc),
        _ => {},
    }
}

proof fn lemma_free_vars_list_distinct(items: Seq<ExprModel>, bound: Seq<Seq<char>>, acc: Seq<Seq<char>>)
    requires
        acc.no_duplicates(),
    ensures
        free_vars_list(items, bound, acc).no_duplicates(),
    decreases esizes(items), 1nat,
{
    if items.len() > 0 {
        lemma_esize_pos(items[0]);
        lemma_free_vars_distinct(items[0], bound, acc);
        lemma_free_vars_list_distinct(items.subrange(1, items.len() as int), bound, free_vars(items[0], bound, acc));
    }
}

/// Capturing names `names[i..]` after `acc` keeps `acc` and adds one capture per name, in order.
proof fn lemma_capture_all_names(names: Seq<Seq<char>>, i: int, scope: Seq<(Seq<char>, ValueModel)>, acc: Seq<(Seq<char>, ValueModel)>, t: Seq<EnvReply>)
    requires
        0 <= i <= names.len(),
    ensures
        capture_all(names, i, scope, acc, t).0 matches Ok(c) ==> c.len() == acc.len() + names.len() - i
            && (forall|k: int| 0 <= k < acc.len() ==> #[trigger] c[k] == acc[k])
            && (forall|k: int| i <= k < names.len() ==> c[acc.len() + k - i].0 == #[trigger] names[k]),
    decreases names.len() - i,
{
    if i < names.len() {
        let (v, t1) = lookup_name(scope, names[i], t);
        if let Some(v) = v {
            let acc2 = acc.push((names[i], v));
            lemma_capture_all_names(names, i + 1, scope, acc2, t1);
            if let Ok(c) = capture_all(names, i + 1, scope, acc2, t1).0 {
                assert(c[acc.len() as int] == acc2[acc.len() as int]);
                assert forall|k: int| 0 <= k < acc.len() implies #[trigger] c[k] == acc[k] by {
                    assert(c[k] == acc2[k]);
                }
                assert forall|k: int| i <= k < names.len() implies c[acc.len() + k - i].0 == #[trigger] names[k] by {
                    if k > i {
                        assert(c[acc2.len() + k - (i + 1)].0 == names[k]);
                    }
                }
            }
        }
    }
}

/// The names that a lambda's body uses freely are listed once each, so the values that a
/// lambda captures are bound to distinct names.
pub proof fn law_lambda_captures_distinct_names(params: Seq<Seq<char>>, body: ExprModel, scope: Seq<(Seq<char>, ValueModel)>, t: Seq<EnvReply>)
    ensures
        free_vars(body, params, Seq::empty()).no_duplicates(),
        build_lambda_m(params, body, scope, t).0 matches Ok(ValueModel::Lambda { captures, .. })
            ==> forall|p: int, q: int| 0 <= p < q < captures.len() ==> #[trigger] captures[p].0 != #[trigger] captures[q].0,
{
    let names = free_vars(body, params, Seq::empty());
    lemma_free_vars_distinct(body, params, Seq::empty());
    lemma_capture_all_names(names, 0, scope, Seq::empty(), t);
    if let Ok(c) = capture_all(names, 0, scope, Seq::empty(), t).0 {
        assert forall|p: int, q: int| 0 <= p < q < c.len() implies #[trigger] c[p].0 != #[trigger] c[q].0 by {
            assert(c[0 + p - 0].0 == names[p]);
            assert(c[0 + q - 0].0 == names[q]);
        }
    }
}

// ---------- Built-in functions ----------

/// No two elements of `s` are equal under `==`.
pub open spec fn distinct_values(s: Seq<ValueModel>) -> bool {
    forall|i: int, j: int| 0 <= i < j < s.len() ==> values_equal(#[trigger] s[i], #[trigger] s[j]) == Ok::<bool, EvalErrorModel>(false)
}

/// A value found absent was compared unequal to every element.
proof fn lemma_absent(hay: Seq<ValueModel>, j: int, x: ValueModel)
    requires
        0 <= j <= hay.len(),
        contained_from(hay, j, x) == Ok::<bool, EvalErrorModel>(false),
    ensures
        forall|k: int| j <= k < hay.len() ==> values_equal(#[trigger] hay[k], x) == Ok::<bool, EvalErrorModel>(false),
    decreases hay.len() - j,
{
    if j < hay.len() {
        lemma_absent(hay, j + 1, x);
    }
}

proof fn lemma_push_distinct(s: Seq<ValueModel>, x: ValueModel)
    requires
        distinct_values(s),
        contains_model(s, x) == Ok::<bool, EvalErrorModel>(false),
    ensures
        distinct_values(s.push(x)),
{
    lemma_absent(s, 0, x);
    let s2 = s.push(x);
    assert forall|i: int, j: int| 0 <= i < j < s2.len() implies values_equal(#[trigger] s2[i], #[trigger] s2[j]) == Ok::<bool, EvalErrorModel>(false) by {
        assert(s2[i] == s[i]);
        if j < s.len() {
            assert(s2[j] == s[j]);
        }
    }
}

proof fn lemma_map_from(fuel: nat, elems: Seq<ValueModel>, i: int, lam: LambdaParts, cx: Ctx, et: TypeTagModel, results: Seq<ValueModel>, t: Seq<EnvReply>)
    requires
        0 <= i <= elems.len(),
        distinct_values(results),
        results.len() <= i,
    ensures
        map_m(fuel, elems, i, lam, cx, et, results, t).0 matches Ok(ValueModel::SetOf { elements, .. })
            ==> distinct_values(elements) && elements.len() <= elems.len(),
    decreases elems.len() - i,
{
    if i < elems.len() {
        let (r, t1) = call_lambda_m(fuel, lam, seq![elems[i]], cx, t);
        if let Ok(v) = r {
            let et2 = if et == TypeTagModel::Unknown { tag_of(v) } else { et };
            match contains_model(results, v) {
                Ok(true) => {
                    lemma_map_from(fuel, elems, i + 1, lam, cx, et2, results, t1);
                },
                Ok(false) => {
                    lemma_push_distinct(results, v);
                    lemma_map_from(fuel, elems, i + 1, lam, cx, et2, results.push(v), t1);
                },
                Err(_) => {},
            }
        }
    }
}

/// `map` gives a set: no two of its elements are equal, and it has no more elements than the
/// set it was given.
pub proof fn law_map_gives_distinct_values(fuel: nat, args: Seq<ValueModel>, cx: Ctx, t: Seq<EnvReply>)
    ensures
        map_call_m(fuel, args, cx, t).0 matches Ok(ValueModel::SetOf { elements, .. })
            ==> distinct_values(elements) && (args[0] matches ValueModel::SetOf { elements: src, .. } && elements.len() <= src.len()),
{
    if args.len() == 2 {
        if let (Ok((_, elems)), Ok(lam)) = (expect_set(args[0]), expect_lambda(args[1], "map"@)) {
            lemma_map_from(fuel, elems, 0, lam, cx, TypeTagModel::Unknown, Seq::empty(), t);
        }
    }
}

proof fn lemma_filter_from(fuel: nat, elems: Seq<ValueModel>, i: int, lam: LambdaParts, cx: Ctx, et: TypeTagModel, results: Seq<ValueModel>, t: Seq<EnvReply>)
    requires
        0 <= i <= elems.len(),
        results.to_set().subset_of(elems.to_set()),
        results.len() <= i,
    ensures
        filter_m(fuel, elems, i, lam, cx, et, results, t).0 matches Ok(ValueModel::SetOf { elem_type, elements })
            ==> elem_type == et && elements.to_set().subset_of(elems.to_set()) && elements.len() <= elems.len(),
    decreases elems.len() - i,
{
    if i < elems.len() {
        let (r, t1) = call_lambda_m(fuel, lam, seq![elems[i]], cx, t);
        match r {
            Ok(ValueModel::Bool(true)) => {
                lemma_push_set(results, elems[i]);
                assert(elems.to_set().contains(elems[i])) by {
                    assert(elems[i] == elems[i]);
                }
                lemma_filter_from(fuel, elems, i + 1, lam, cx, et, results.push(elems[i]), t1);
            },
            Ok(ValueModel::Bool(false)) => {
                lemma_filter_from(fuel, elems, i + 1, lam, cx, et, results, t1);
            },
            _ => {},
        }
    }
}

/// `filter` keeps the type of its set and only elements of it, never more of them than it has.
pub proof fn law_filter_keeps_subset(fuel: nat, args: Seq<ValueModel>, cx: Ctx, t: Seq<EnvReply>)
    ensures
        filter_call_m(fuel, args, cx, t).0 matches Ok(ValueModel::SetOf { elem_type, elements })
            ==> (args[0] matches ValueModel::SetOf { elem_type: et, elements: src }
                && elem_type == et && elements.to_set().subset_of(src.to_set()) && elements.len() <= src.len()),
{
    if args.len() == 2 {
        if let (Ok((et, elems)), Ok(lam)) = (expect_set(args[0]), expect_lambda(args[1], "filter"@)) {
            assert(Seq::<ValueModel>::empty().to_set() =~= Set::<ValueModel>::empty());
            lemma_filter_from(fuel, elems, 0, lam, cx, et, Seq::empty(), t);
        }
    }
}

/// Over an empty set, `fold` gives its initial value and `map` and `filter` give empty sets,
/// without calling the lambda or consulting the environment.
pub proof fn law_builtins_on_empty_set(fuel: nat, et: TypeTagModel, init: ValueModel, f: ValueModel, cx: Ctx, t: Seq<EnvReply>)
    requires
        f is Lambda,
    ensures
        fold_call_m(fuel, seq![ValueModel::SetOf { elem_type: et, elements: Seq::empty() }, init, f], cx, t) == (Ok::<ValueModel, EvalErrorModel>(init), t),
        map_call_m(fuel, seq![ValueModel::SetOf { elem_type: et, elements: Seq::empty() }, f], cx, t)
            == (Ok::<ValueModel, EvalErrorModel>(ValueModel::SetOf { elem_type: TypeTagModel::Unknown, elements: Seq::empty() }), t),
        filter_call_m(fuel, seq![ValueModel::SetOf { elem_type: et, elements: Seq::empty() }, f], cx, t)
            == (Ok::<ValueModel, EvalErrorModel>(ValueModel::SetOf { elem_type: et, elements: Seq::empty() }), t),
{
}

proof fn lemma_union_distinct(all: Seq<ValueModel>, i: int, acc: Seq<ValueModel>)
    requires
        0 <= i <= all.len(),
        distinct_values(acc),
    ensures
        union_from(all, i, acc) matches Ok(u) ==> distinct_values(u),
    decreases all.len() - i,
{
    if i < all.len() {
        match contains_model(acc, all[i]) {
            Ok(true) => lemma_union_distinct(all, i + 1, acc),
            Ok(false) => {
                lemma_push_distinct(acc, all[i]);
                lemma_union_distinct(all, i + 1, acc.push(all[i]));
            },
            Err(_) => {},
        }
    }
}

proof fn lemma_intersect_distinct(ea: Seq<ValueModel>, i: int, eb: Seq<ValueModel>, acc: Seq<ValueModel>)
    requires
        0 <= i <= ea.len(),
        distinct_values(acc),
    ensures
        intersect_from(ea, i, eb, acc) matches Ok(u) ==> distinct_values(u),
    decreases ea.len() - i,
{
    if i < ea.len() {
        match contains_model(eb, ea[i]) {
            Ok(true) => match contains_model(acc, ea[i]) {
                Ok(true) => lemma_intersect_distinct(ea, i + 1, eb, acc),
                Ok(false) => {
                    lemma_push_distinct(acc, ea[i]);
                    lemma_intersect_distinct(ea, i + 1, eb, acc.push(ea[i]));
                },
                Err(_) => {},
            },
            Ok(false) => lemma_intersect_distinct(ea, i + 1, eb, acc),
            Err(_) => {},
        }
    }
}

/// Whatever their elements, a union or an intersection that succeeds holds no two elements
/// that are equal under `==`.
pub proof fn law_union_intersect_give_distinct_values(op: SetOp, l: ValueModel, r: ValueModel)
    requires
        op == SetOp::Union || op == SetOp::Intersect,
    ensures
        set_op_result(op, l, r) matches Ok(ValueModel::SetOf { elements, .. }) ==> distinct_values(elements),
{
    if let (ValueModel::SetOf { elements: ea, .. }, ValueModel::SetOf { elements: eb, .. }) = (l, r) {
        lemma_union_distinct(ea + eb, 0, Seq::empty());
        lemma_intersect_distinct(ea, 0, eb, Seq::empty());
    }
}

// ---------- Tokens ----------

/// Whether position `p` of the source lies inside some token's span.
pub open spec fn covered(ts: Seq<TokenModel>, p: int) -> bool {
    exists|k: int| 0 <= k < ts.len() && ts[k].span.start <= p < #[trigger] ts[k].span.end
}

/// The shape of a successful tokenization of `src[i..]`: tokens in order, each one what
/// scanning at its start gives, then a single `Eof` at the end of the source; every character
/// outside the tokens is white space.
pub open spec fn well_tokenized(src: Seq<char>, i: int, ts: Seq<TokenModel>) -> bool {
    &&& ts.len() >= 1
    &&& ts.last().kind == TokenKindModel::Eof
    &&& ts.last().span == mk_span(src.len() as int, src.len() as int)
    &&& forall|k: int| 0 <= k < ts.len() ==> i <= (#[trigger] ts[k]).span.start <= ts[k].span.end <= src.len()
    &&& forall|k: int| 0 <= k < ts.len() - 1 ==> {
        &&& (#[trigger] ts[k]).span.start < ts[k].span.end
        &&& ts[k].kind != TokenKindModel::Eof
        &&& scan_token(src, ts[k].span.start as int) == Ok::<(TokenKindModel, int), LexError>((ts[k].kind, ts[k].span.end as int))
        &&& ts[k].span.end <= ts[k + 1].span.start
    }
    &&& forall|p: int| i <= p < src.len() && !covered(ts, p) ==> is_space(#[trigger] src[p])
}

#[verifier::rlimit(30)]
proof fn lemma_lex_from_shape(src: Seq<char>, i: int)
    requires
        0 <= i <= src.len(),
        src.len() <= usize::MAX,
    ensures
        lex_from(src, i).1 is None ==> well_tokenized(src, i, lex_from(src, i).0),
    decreases src.len() - i,
{
    if i >= src.len() {
        let ts = lex_from(src, i).0;
        assert(ts =~= seq![TokenModel { kind: TokenKindModel::Eof, span: mk_span(i, i) }]);
    } else if is_space(src[i]) {
        lemma_lex_from_shape(src, i + 1);
    } else {
        lemma_scan_advances(src, i);
        match scan_token(src, i) {
            Ok((kind, j)) => {
                lemma_lex_from_shape(src, j);
                lemma_scan_kind(src, i);
                let rest = lex_from(src, j).0;
                let tok = TokenModel { kind, span: mk_span(i, j) };
                let ts = seq![tok] + rest;
                assert(lex_from(src, i).0 == ts);
                if lex_from(src, j).1 is None {
                    assert(ts[0] == tok);
                    assert forall|k: int| 0 <= k < rest.len() implies ts[k + 1] == rest[k] by {}
                    assert(ts.last() == rest.last());
                    assert forall|k: int| 0 <= k < ts.len() implies i <= (#[trigger] ts[k]).span.start <= ts[k].span.end <= src.len() by {
                        if k > 0 {
                            assert(ts[k] == rest[k - 1]);
                        }
                    }
                    assert forall|k: int| 0 <= k < ts.len() - 1 implies {
                        &&& (#[trigger] ts[k]).span.start < ts[k].span.end
                        &&& ts[k].kind != TokenKindModel::Eof
                        &&& scan_token(src, ts[k].span.start as int) == Ok::<(TokenKindModel, int), LexError>((ts[k].kind, ts[k].span.end as int))
                        &&& ts[k].span.end <= ts[k + 1].span.start
                    } by {
                        if k > 0 {
                            assert(ts[k] == rest[k - 1]);
                            assert(ts[k + 1] == rest[k]);
                        } else {
                            assert(ts[1] == rest[0]);
                        }
                    }
                    assert forall|p: int| i <= p < src.len() && !covered(ts, p) implies is_space(#[trigger] src[p]) by {
                        if p < j {
                            assert(ts[0].span.start <= p < ts[0].span.end);
                        } else if covered(rest, p) {
                            let k = choose|k: int| 0 <= k < rest.len() && rest[k].span.start <= p < #[trigger] rest[k].span.end;
                            assert(ts[k + 1] == rest[k]);
                            assert(ts[k + 1].span.start <= p < ts[k + 1].span.end);
                        }
                    }
                }
            },
            Err(_) => {},
        }
    }
}

/// A tokenization that succeeds lists the source's tokens in order, each one what scanning at
/// its start gives, and ends with a single `Eof` at the end of the source; every character
/// outside the tokens is white space. Positions here count characters; `tokenize` gives them
/// as byte offsets (`at_bytes`).
pub proof fn law_tokens_cover_source(src: Seq<char>)
    requires
        src.len() <= usize::MAX,
    ensures
        lex(src).1 is None ==> well_tokenized(src, 0, lex(src).0),
{
    lemma_lex_from_shape(src, 0);
}

proof fn lemma_digits_end_alone(src: Seq<char>, i: int, j: int, k: int)
    requires
        0 <= i <= k <= j <= src.len(),
        forall|m: int| i <= m < j ==> is_digit(#[trigger] src[m]),
    ensures
        digits_end(src.subrange(i, j), k - i) == j - i,
    decreases j - k,
{
    if k < j {
        assert(src.subrange(i, j)[k - i] == src[k]);
        lemma_digits_end_alone(src, i, j, k + 1);
    }
}

proof fn lemma_digits_value_alone(src: Seq<char>, i: int, j: int, k: int)
    requires
        0 <= i <= k <= j <= src.len(),
    ensures
        digits_value(src.subrange(i, j), 0, k - i) == digits_value(src, i, k),
    decreases k - i,
{
    if k > i {
        assert(src.subrange(i, j)[k - 1 - i] == src[k - 1]);
        lemma_digits_value_alone(src, i, j, k - 1);
    }
}

proof fn lemma_ident_end_alone(src: Seq<char>, i: int, j: int, k: int)
    requires
        0 <= i <= k <= j <= src.len(),
        forall|m: int| i <= m < j ==> is_ident_continue_char(#[trigger] src[m]),
    ensures
        ident_end(src.subrange(i, j), k - i) == j - i,
    decreases j - k,
{
    if k < j {
        assert(src.subrange(i, j)[k - i] == src[k]);
        lemma_ident_end_alone(src, i, j, k + 1);
    }
}

proof fn lemma_string_end_alone(src: Seq<char>, i: int, j: int, k: int)
    requires
        0 <= i < k <= j - 1,
        j <= src.len(),
        src[j - 1] == '"',
        forall|m: int| k <= m < j - 1 ==> (#[trigger] src[m] != '"' && src[m] != '\n'),
    ensures
        string_end(src.subrange(i, j), k - i) == j - 1 - i,
    decreases j - k,
{
    assert(src.subrange(i, j)[k - i] == src[k]);
    if k < j - 1 {
        lemma_string_end_alone(src, i, j, k + 1);
    }
}

/// The characters of a scanned token, scanned alone, give the same token.
proof fn lemma_scan_alone(src: Seq<char>, i: int)
    requires
        0 <= i < src.len(),
    ensures
        scan_token(src, i) matches Ok((kind, j)) ==> scan_token(src.subrange(i, j), 0) == Ok::<(TokenKindModel, int), LexError>((kind, j - i)),
{
    lemma_scan_advances(src, i);
    if let Ok((kind, j)) = scan_token(src, i) {
        let sub = src.subrange(i, j);
        assert(sub[0] == src[i]);
        if is_digit(src[i]) {
            lemma_digits_end(src, i);
            lemma_digits_end_alone(src, i, j, i);
            lemma_digits_value_alone(src, i, j, j);
        } else if is_ident_start_char(src[i]) {
            lemma_ident_end(src, i);
            lemma_ident_end_alone(src, i, j, i);
            assert(sub.subrange(0, j - i) =~= src.subrange(i, j));
        } else if src[i] == '"' {
            lemma_string_end(src, i + 1);
            if i + 1 < j - 1 {
                lemma_string_end_alone(src, i, j, i + 1);
            } else {
                assert(sub[1] == src[i + 1]);
            }
            assert(sub.subrange(1, j - i - 1) =~= src.subrange(i + 1, j - 1));
        } else {
            if j - i >= 2 {
                assert(sub[1] == src[i + 1]);
            }
            if j - i == 4 {
                assert(sub[2] == src[i + 2] && sub[3] == src[i + 3]);
            }
        }
    }
}

/// Each token of a successful tokenization, lexed alone from the characters of its span, is
/// that token followed by `Eof`. Positions here count characters; `tokenize` gives them as
/// byte offsets, which delimit the same characters.
pub proof fn law_each_token_lexes_alone(src: Seq<char>, k: int)
    requires
        src.len() <= usize::MAX,
        lex(src).1 is None,
        0 <= k < lex(src).0.len() - 1,
    ensures
        ({
            let t = lex(src).0[k];
            let alone = src.subrange(t.span.start as int, t.span.end as int);
            lex(alone) == (
                seq![
                    TokenModel { kind: t.kind, span: mk_span(0, alone.len() as int) },
                    TokenModel { kind: TokenKindModel::Eof, span: mk_span(alone.len() as int, alone.len() as int) },
                ],
                None::<LexError>,
            )
        }),
{
    law_tokens_cover_source(src);
    let ts = lex(src).0;
    let t = ts[k];
    let (i, j) = (t.span.start as int, t.span.end as int);
    assert(i < j <= src.len() && scan_token(src, i) == Ok::<(TokenKindModel, int), LexError>((t.kind, j)));
    lemma_scan_alone(src, i);
    lemma_lex_single(src.subrange(i, j), t.kind);
}

/// A source that scans as one token lexes as that token and `Eof`.
proof fn lemma_lex_single(s: Seq<char>, kind: TokenKindModel)
    requires
        0 < s.len() <= usize::MAX,
        scan_token(s, 0) == Ok::<(TokenKindModel, int), LexError>((kind, s.len() as int)),
    ensures
        lex(s) == (
            seq![
                TokenModel { kind, span: mk_span(0, s.len() as int) },
                TokenModel { kind: TokenKindModel::Eof, span: mk_span(s.len() as int, s.len() as int) },
            ],
            None::<LexError>,
        ),
{
    let n = s.len() as int;
    assert(!is_space(s[0]));
    assert(lex_from(s, n) == (seq![TokenModel { kind: TokenKindModel::Eof, span: mk_span(n, n) }], None::<LexError>));
    assert(lex_from(s, 0).0 =~= seq![TokenModel { kind, span: mk_span(0, n) }] + lex_from(s, n).0);
}

// ---------- Expressions that need no environment ----------

/// A type that mentions no enum type.
pub open spec fn enum_free_tag(t: TypeTagModel) -> bool
    decreases t,
{
    match t {
        TypeTagModel::Enum(_) => false,
        TypeTagModel::SetOf(inner) => enum_free_tag(*inner),
        TypeTagModel::Interval(inner) => enum_free_tag(*inner),
        _ => true,
    }
}

/// An expression made of literals and operators alone: no names, enum variants, lambdas, calls
/// or semiring scopes.
pub open spec fn env_free(e: ExprModel) -> bool
    decreases esize(e), 0nat,
{
    match e {
        ExprModel::Int(_) | ExprModel::Bool(_) | ExprModel::Str(_) | ExprModel::Infinity(_) => true,
        ExprModel::Unary { expr, .. } => env_free(*expr),
        ExprModel::Binary { left, right, .. } => env_free(*left) && env_free(*right),
        ExprModel::SetLiteral(items) => env_free_list(items),
        ExprModel::In { elem, set } => env_free(*elem) && env_free(*set),
        ExprModel::SetOp { lhs, rhs, .. } => env_free(*lhs) && env_free(*rhs),
        ExprModel::Cardinality(x) => env_free(*x),
        ExprModel::Interval { lo, hi } => env_free_bound(lo) && env_free_bound(hi),
        _ => false,
    }
}

pub open spec fn env_free_bound(b: BoundExprModel) -> bool
    decreases bsize(b), 1nat,
{
    match b {
        BoundExprModel::Open(x) => env_free(*x),
        BoundExprModel::Closed(x) => env_free(*x),
        _ => true,
    }
}

pub open spec fn env_free_list(items: Seq<ExprModel>) -> bool
    decreases esizes(items), 1nat,
{
    if items.len() == 0 {
        true
    } else {
        proof {
            lemma_esize_pos(items[0]);
        }
        env_free(items[0]) && env_free_list(items.subrange(1, items.len() as int))
    }
}

/// What a pure evaluation step gives: no reply is used, the outcome is the same for all
/// replies, and a value it gives mentions no enum type.
pub open spec fn pure_outcome(r: Ev<ValueModel>, r0: Ev<ValueModel>, t: Seq<EnvReply>) -> bool {
    &&& r == (r0.0, t)
    &&& (r.0 matches Ok(v) ==> enum_free_tag(tag_of(v)))
}

proof fn lemma_compare_pure(a: ValueModel, b: ValueModel, ty: TypeTagModel, t: Seq<EnvReply>)
    requires
        enum_free_tag(tag_of(a)),
        enum_free_tag(ty),
    ensures
        compare_m(a, b, t) == (compare_m(a, b, Seq::empty()).0, t),
        compare_typed_m(a, b, ty, t) == (compare_typed_m(a, b, ty, Seq::empty()).0, t),
{
}

proof fn lemma_eval_pure(fuel: nat, e: ExprModel, cx: Ctx, t: Seq<EnvReply>)
    requires
        env_free(e),
    ensures
        pure_outcome(eval_m(fuel, e, cx, t), eval_m(fuel, e, cx, Seq::empty()), t),
    decreases esize(e), 0nat,
{
    let empty = Seq::<EnvReply>::empty();
    match e {
        ExprModel::Unary { op, expr } => {
            lemma_eval_pure(fuel, *expr, cx, t);
            lemma_eval_pure(fuel, *expr, cx, empty);
        },
        ExprModel::Binary { left, op, right } => {
            lemma_eval_pure(fuel, *left, cx, t);
            lemma_eval_pure(fuel, *left, cx, empty);
            lemma_eval_pure(fuel, *right, cx, t);
            lemma_eval_pure(fuel, *right, cx, empty);
            if let (Ok(l), Ok(r)) = (eval_m(fuel, *left, cx, t).0, eval_m(fuel, *right, cx, t).0) {
                lemma_compare_pure(l, r, TypeTagModel::Int, t);
            }
        },
        ExprModel::SetLiteral(items) => {
            lemma_set_literal_pure(fuel, items, cx, None, Seq::empty(), t);
        },
        ExprModel::In { elem, set } => {
            lemma_eval_pure(fuel, *elem, cx, t);
            lemma_eval_pure(fuel, *elem, cx, empty);
            lemma_eval_pure(fuel, *set, cx, t);
            lemma_eval_pure(fuel, *set, cx, empty);
            if let (Ok(v), Ok(sv)) = (eval_m(fuel, *elem, cx, t).0, eval_m(fuel, *set, cx, t).0) {
                if let ValueModel::Interval { elem_type, lo, hi } = sv {
                    let target = if elem_type == TypeTagModel::Unknown { tag_of(v) } else { elem_type };
                    match lo {
                        BoundValueModel::Open(x) => lemma_compare_pure(v, *x, target, t),
                        BoundValueModel::Closed(x) => lemma_compare_pure(v, *x, target, t),
                        _ => {},
                    }
                    match hi {
                        BoundValueModel::Open(x) => lemma_compare_pure(v, *x, target, t),
                        BoundValueModel::Closed(x) => lemma_compare_pure(v, *x, target, t),
                        _ => {},
                    }
                }
            }
        },
        ExprModel::SetOp { lhs, rhs, .. } => {
            lemma_eval_pure(fuel, *lhs, cx, t);
            lemma_eval_pure(fuel, *lhs, cx, empty);
            lemma_eval_pure(fuel, *rhs, cx, t);
            lemma_eval_pure(fuel, *rhs, cx, empty);
        },
        ExprModel::Cardinality(x) => {
            lemma_eval_pure(fuel, *x, cx, t);
            lemma_eval_pure(fuel, *x, cx, empty);
        },
        ExprModel::Interval { lo, hi } => {
            lemma_bound_pure(fuel, lo, cx, t);
            lemma_bound_pure(fuel, lo, cx, empty);
            lemma_bound_pure(fuel, hi, cx, t);
            lemma_bound_pure(fuel, hi, cx, empty);
            if let (Ok((lb, ltag)), Ok((hb, htag))) = (bound_m(fuel, lo, cx, t).0, bound_m(fuel, hi, cx, t).0) {
                if let Ok(ty) = resolve_interval_type(ltag, htag) {
                    assert(enum_free_tag(ty));
                    assert(enum_free_tag(TypeTagModel::Interval(Box::new(ty))));
                    if let (Some(a), Some(b)) = (finite_bound(lb), finite_bound(hb)) {
                        lemma_compare_pure(a, b, ty, t);
                    }
                }
            }
        },
        _ => {},
    }
}

proof fn lemma_bound_pure(fuel: nat, b: BoundExprModel, cx: Ctx, t: Seq<EnvReply>)
    requires
        env_free_bound(b),
    ensures
        bound_m(fuel, b, cx, t) == (bound_m(fuel, b, cx, Seq::empty()).0, t),
        bound_m(fuel, b, cx, t).0 matches Ok((bv, tag)) ==> (tag matches Some(tg) ==> enum_free_tag(tg))
            && (finite_bound(bv) matches Some(x) ==> enum_free_tag(tag_of(x)) && tag == Some(tag_of(x)))
            && (finite_bound(bv) is None ==> tag is None),
    decreases bsize(b), 1nat,
{
    match b {
        BoundExprModel::Open(x) => {
            lemma_eval_pure(fuel, *x, cx, t);
            lemma_eval_pure(fuel, *x, cx, Seq::empty());
        },
        BoundExprModel::Closed(x) => {
            lemma_eval_pure(fuel, *x, cx, t);
            lemma_eval_pure(fuel, *x, cx, Seq::empty());
        },
        _ => {},
    }
}

proof fn lemma_set_literal_pure(fuel: nat, items: Seq<ExprModel>, cx: Ctx, et: Option<TypeTagModel>, acc: Seq<ValueModel>, t: Seq<EnvReply>)
    requires
        env_free_list(items),
        et matches Some(tg) ==> enum_free_tag(tg),
    ensures
        pure_outcome(set_literal_m(fuel, items, cx, et, acc, t), set_literal_m(fuel, items, cx, et, acc, Seq::empty()), t),
    decreases esizes(items), 1nat,
{
    if items.len() > 0 {
        lemma_esize_pos(items[0]);
        lemma_eval_pure(fuel, items[0], cx, t);
        lemma_eval_pure(fuel, items[0], cx, Seq::empty());
        if let Ok(v) = eval_m(fuel, items[0], cx, t).0 {
            let rest = items.subrange(1, items.len() as int);
            let tag = tag_of(v);
            let et2 = match et {
                Some(_) => et,
                None => if tag != TypeTagModel::Unknown { Some(tag) } else { None },
            };
            lemma_set_literal_pure(fuel, rest, cx, et2, acc.push(v), eval_m(fuel, items[0], cx, t).1);
            lemma_set_literal_pure(fuel, rest, cx, et2, acc.push(v), Seq::empty());
        }
    } else {
        assert(enum_free_tag(unwrap_tag(et)));
        assert(enum_free_tag(TypeTagModel::SetOf(Box::new(unwrap_tag(et)))));
    }
}

/// An expression made of literals and operators alone does not consult the environment: it
/// uses no reply, and gives the same outcome whatever the environment would answer.
pub proof fn law_literal_expressions_need_no_environment(fuel: nat, e: ExprModel, cx: Ctx, t: Seq<EnvReply>)
    requires
        env_free(e),
    ensures
        eval_m(fuel, e, cx, t) == (eval_m(fuel, e, cx, Seq::empty()).0, t),
{
    lemma_eval_pure(fuel, e, cx, t);
}

// ---------- Parsing ----------

/// A parse step that, when it succeeds, has read at least one token and stays within the
/// tokens; and whose error, if any, is never `ExpectedOperand`.
pub open spec fn advances<T>(r: Parsed<T>, p: int, len: int) -> bool {
    &&& (r.0 is Ok ==> p < r.1 <= len)
    &&& !(r.0 matches Err(ParseError::ExpectedOperand { .. }))
}

/// As `advances`, but a success may read no token.
pub open spec fn keeps_or_advances<T>(r: Parsed<T>, p: int, len: int) -> bool {
    &&& (r.0 is Ok ==> p <= r.1 <= len)
    &&& !(r.0 matches Err(ParseError::ExpectedOperand { .. }))
}

proof fn lemma_parse_prec(toks: Seq<TokenModel>, pos: int, min_bp: int)
    requires
        0 <= pos,
    ensures
        advances(parse_prec(toks, pos, min_bp), pos, toks.len() as int),
    decreases toks.len() - pos, 0nat,
{
    if pos < toks.len() {
        lemma_prefix(toks, pos + 1, toks[pos]);
        let (r, p2) = prefix(toks, pos + 1, toks[pos]);
        if let Ok(lhs) = r {
            lemma_infix_loop(toks, p2, lhs, min_bp);
        }
    }
}

proof fn lemma_prefix(toks: Seq<TokenModel>, p: int, t: TokenModel)
    requires
        1 <= p <= toks.len(),
    ensures
        keeps_or_advances(prefix(toks, p, t), p, toks.len() as int),
    decreases toks.len() - p, 7nat,
{
    match t.kind {
        TokenKindModel::Ident(name) => lemma_ident_or_lambda(toks, p, name),
        TokenKindModel::Bang | TokenKindModel::Minus => lemma_parse_prec(toks, p, 15),
        TokenKindModel::Card => lemma_parenthesized(toks, p),
        TokenKindModel::LParen => lemma_paren_group(toks, p),
        TokenKindModel::LBracket => lemma_interval_literal(toks, p, BoundKind::Closed),
        TokenKindModel::LBrace => lemma_set_items(toks, p, Seq::empty()),
        TokenKindModel::WithSemiring => lemma_with_semiring(toks, p),
        _ => {},
    }
}

proof fn lemma_infix_loop(toks: Seq<TokenModel>, p: int, lhs: ExprModel, min_bp: int)
    requires
        0 <= p <= toks.len(),
    ensures
        keeps_or_advances(infix_loop(toks, p, lhs, min_bp), p, toks.len() as int),
    decreases toks.len() - p, 1nat,
{
    if 0 <= p < toks.len() && !stops_infix(toks[p].kind) && binds_at_least(precedence(toks[p].kind), min_bp) {
        let (l_bp, r_bp, op) = precedence(toks[p].kind).unwrap();
        lemma_parse_prec(toks, p + 1, r_bp as int);
        let (rr, p3) = parse_prec(toks, p + 1, r_bp as int);
        if let Ok(rhs) = rr {
            lemma_infix_loop(toks, p3, combine(op, lhs, rhs), min_bp);
        }
    } else {
        lemma_pipe_loop(toks, p, lhs);
    }
}

proof fn lemma_pipe_loop(toks: Seq<TokenModel>, p: int, lhs: ExprModel)
    requires
        0 <= p <= toks.len(),
    ensures
        keeps_or_advances(pipe_loop(toks, p, lhs), p, toks.len() as int),
    decreases toks.len() - p, 0nat,
{
    if 0 <= p && kind_is(toks, p, TokenKindModel::Pipe) {
        lemma_call_expr(toks, p + 1);
        let (rc, p3) = call_expr(toks, p + 1);
        if let Ok(call) = rc {
            lemma_pipe_loop(toks, p3, ExprModel::Pipe { lhs: Box::new(lhs), call });
        }
    }
}

proof fn lemma_call_expr(toks: Seq<TokenModel>, p: int)
    requires
        0 <= p,
    ensures
        advances(call_expr(toks, p), p, toks.len() as int),
    decreases toks.len() - p, 3nat,
{
    if p < toks.len() {
        if let TokenKindModel::Ident(name) = toks[p].kind {
            lemma_call_with_name(toks, p + 1, seq![name]);
        }
    }
}

proof fn lemma_call_with_name(toks: Seq<TokenModel>, p: int, parts: Seq<Seq<char>>)
    requires
        0 <= p,
    ensures
        advances(call_with_name(toks, p, parts), p, toks.len() as int),
    decreases toks.len() - p, 2nat,
{
    if p < toks.len() && toks[p].kind is LParen {
        lemma_call_args(toks, p + 1, parts, Seq::empty());
    }
}

proof fn lemma_call_args(toks: Seq<TokenModel>, p: int, parts: Seq<Seq<char>>, args: Seq<ExprModel>)
    requires
        0 <= p <= toks.len(),
    ensures
        advances(call_args(toks, p, parts, args), p, toks.len() as int),
    decreases toks.len() - p, 1nat,
{
    if !kind_is(toks, p, TokenKindModel::RParen) {
        lemma_parse_prec(toks, p, 0);
        let (r, p2) = parse_prec(toks, p, 0);
        if let Ok(e) = r {
            if p < p2 < toks.len() && toks[p2].kind is Comma {
                lemma_call_args(toks, p2 + 1, parts, args.push(e));
            }
        }
    }
}

proof fn lemma_ident_or_lambda(toks: Seq<TokenModel>, p: int, name: Seq<char>)
    requires
        0 <= p <= toks.len(),
    ensures
        keeps_or_advances(ident_or_lambda(toks, p, name), p, toks.len() as int),
    decreases toks.len() - p, 6nat,
{
    if kind_is(toks, p, TokenKindModel::Arrow) {
        lemma_parse_prec(toks, p + 1, 0);
    } else {
        lemma_ident_dots(toks, p, seq![name]);
    }
}

proof fn lemma_ident_dots(toks: Seq<TokenModel>, p: int, parts: Seq<Seq<char>>)
    requires
        0 <= p <= toks.len(),
    ensures
        keeps_or_advances(ident_dots(toks, p, parts), p, toks.len() as int),
    decreases toks.len() - p, 5nat,
{
    if kind_is(toks, p, TokenKindModel::Dot) {
        if p + 1 < toks.len() {
            if let TokenKindModel::Ident(n) = toks[p + 1].kind {
                lemma_ident_dots(toks, p + 2, parts.push(n));
            }
        }
    } else {
        lemma_ident_tail(toks, p, parts);
    }
}

proof fn lemma_ident_tail(toks: Seq<TokenModel>, p: int, parts: Seq<Seq<char>>)
    requires
        0 <= p <= toks.len(),
    ensures
        keeps_or_advances(ident_tail(toks, p, parts), p, toks.len() as int),
    decreases toks.len() - p, 4nat,
{
    if !kind_is(toks, p, TokenKindModel::ColonColon) && kind_is(toks, p, TokenKindModel::LParen) {
        lemma_call_with_name(toks, p, parts);
    }
}

proof fn lemma_parenthesized(toks: Seq<TokenModel>, p: int)
    requires
        0 <= p,
    ensures
        advances(parenthesized(toks, p), p, toks.len() as int),
    decreases toks.len() - p, 2nat,
{
    if p < toks.len() && toks[p].kind is LParen {
        lemma_parse_prec(toks, p + 1, 0);
    }
}

proof fn lemma_lambda_param_list(toks: Seq<TokenModel>, p: int, acc: Seq<Seq<char>>)
    requires
        0 <= p,
    ensures
        lambda_param_list(toks, p, acc) matches Some((_, q)) ==> p < q <= toks.len(),
    decreases toks.len() - p,
{
    if 0 <= p < toks.len() {
        if let TokenKindModel::Ident(n) = toks[p].kind {
            if kind_is(toks, p + 1, TokenKindModel::Comma) {
                lemma_lambda_param_list(toks, p + 2, acc.push(n));
            }
        }
    }
}

proof fn lemma_try_lambda(toks: Seq<TokenModel>, p: int)
    requires
        0 <= p <= toks.len(),
    ensures
        try_lambda(toks, p).0 matches Ok(Some(_)) ==> p < try_lambda(toks, p).1 <= toks.len(),
        try_lambda(toks, p).0 matches Ok(None) ==> try_lambda(toks, p).1 == p,
        !(try_lambda(toks, p).0 matches Err(ParseError::ExpectedOperand { .. })),
    decreases toks.len() - p, 1nat,
{
    lemma_lambda_param_list(toks, p, Seq::empty());
    if let Some((params, q)) = lambda_params(toks, p) {
        if p <= q && kind_is(toks, q, TokenKindModel::Arrow) {
            lemma_parse_prec(toks, q + 1, 0);
        }
    }
}

proof fn lemma_endpoint(toks: Seq<TokenModel>, p: int)
    requires
        0 <= p <= toks.len(),
    ensures
        advances(endpoint(toks, p), p, toks.len() as int),
    decreases toks.len() - p, 1nat,
{
    if !kind_is(toks, p, TokenKindModel::PlusInf) && !kind_is(toks, p, TokenKindModel::MinusInf) {
        lemma_parse_prec(toks, p, 0);
    }
}

proof fn lemma_after_lower(toks: Seq<TokenModel>, p: int, lower_kind: BoundKind, lower: ExprModel)
    requires
        0 <= p <= toks.len(),
    ensures
        advances(after_lower(toks, p, lower_kind, lower), p, toks.len() as int),
    decreases toks.len() - p, 2nat,
{
    lemma_endpoint(toks, p);
}

proof fn lemma_try_interval(toks: Seq<TokenModel>, p: int)
    requires
        0 <= p <= toks.len(),
    ensures
        try_interval(toks, p).0 matches Ok(Some(_)) ==> p < try_interval(toks, p).1 <= toks.len(),
        try_interval(toks, p).0 matches Ok(None) ==> try_interval(toks, p).1 == p,
        !(try_interval(toks, p).0 matches Err(ParseError::ExpectedOperand { .. })),
    decreases toks.len() - p, 3nat,
{
    lemma_endpoint(toks, p);
    let (rl, p1) = endpoint(toks, p);
    if let Ok(lower) = rl {
        if kind_is(toks, p1, TokenKindModel::Comma) && p <= p1 {
            lemma_after_lower(toks, p1 + 1, BoundKind::Open, lower);
        }
    }
}

proof fn lemma_paren_group(toks: Seq<TokenModel>, p: int)
    requires
        0 <= p <= toks.len(),
    ensures
        advances(paren_group(toks, p), p, toks.len() as int),
    decreases toks.len() - p, 4nat,
{
    lemma_try_lambda(toks, p);
    lemma_try_interval(toks, p);
    lemma_parse_prec(toks, p, 0);
}

proof fn lemma_interval_literal(toks: Seq<TokenModel>, p: int, lower_kind: BoundKind)
    requires
        0 <= p <= toks.len(),
    ensures
        advances(interval_literal(toks, p, lower_kind), p, toks.len() as int),
    decreases toks.len() - p, 3nat,
{
    lemma_endpoint(toks, p);
    let (rl, p1) = endpoint(toks, p);
    if let Ok(lower) = rl {
        if 0 <= p1 < toks.len() && toks[p1].kind is Comma && p <= p1 {
            lemma_after_lower(toks, p1 + 1, lower_kind, lower);
        }
    }
}

proof fn lemma_set_items(toks: Seq<TokenModel>, p: int, elems: Seq<ExprModel>)
    requires
        0 <= p,
    ensures
        advances(set_items(toks, p, elems), p, toks.len() as int),
    decreases toks.len() - p, 1nat,
{
    if p < toks.len() && !(toks[p].kind is RBrace) {
        lemma_parse_prec(toks, p, 0);
        let (r, p2) = parse_prec(toks, p, 0);
        if let Ok(e) = r {
            if p < p2 < toks.len() && toks[p2].kind is Comma {
                lemma_set_items(toks, p2 + 1, elems.push(e));
            }
        }
    }
}

proof fn lemma_dotted_rest(toks: Seq<TokenModel>, p: int, parts: Seq<Seq<char>>)
    requires
        0 <= p <= toks.len(),
    ensures
        keeps_or_advances(dotted_rest(toks, p, parts), p, toks.len() as int),
    decreases toks.len() - p,
{
    if kind_is(toks, p, TokenKindModel::Dot) && p + 1 < toks.len() {
        if let TokenKindModel::Ident(n) = toks[p + 1].kind {
            lemma_dotted_rest(toks, p + 2, parts.push(n));
        }
    }
}

proof fn lemma_with_semiring(toks: Seq<TokenModel>, p: int)
    requires
        0 <= p <= toks.len(),
    ensures
        advances(with_semiring(toks, p), p, toks.len() as int),
    decreases toks.len() - p, 2nat,
{
    if p < toks.len() {
        if let TokenKindModel::Ident(n) = toks[p].kind {
            lemma_dotted_rest(toks, p + 1, seq![n]);
        }
    }
    let (rn, p1) = dotted_name(toks, p);
    if rn is Ok && 0 <= p1 < toks.len() && toks[p1].kind is Colon && p <= p1 {
        lemma_parse_prec(toks, p1 + 1, 0);
    }
}

/// Parsing from any position makes progress: a parse that succeeds has read at least one token
/// and stops within the tokens, and no parse reports `ExpectedOperand`.
pub proof fn law_parse_advances(toks: Seq<TokenModel>, pos: int, min_bp: int)
    requires
        0 <= pos,
    ensures
        parse_prec(toks, pos, min_bp).0 is Ok ==> pos < parse_prec(toks, pos, min_bp).1 <= toks.len(),
        !(parse_prec(toks, pos, min_bp).0 matches Err(ParseError::ExpectedOperand { .. })),
{
    lemma_parse_prec(toks, pos, min_bp);
}

/// The operator of an infix token.
pub open spec fn infix_op(k: TokenKindModel) -> InfixOp {
    precedence(k).unwrap().2
}

/// Whether infix token `k2` binds more tightly than infix token `k1`.
pub open spec fn binds_tighter(k2: TokenKindModel, k1: TokenKindModel) -> bool {
    precedence(k2).unwrap().0 > precedence(k1).unwrap().0
}

/// An integer literal token.
pub open spec fn int_literal(t: TokenModel) -> ExprModel {
    ExprModel::Int(t.kind->Int_0 as i64)
}

/// `a op1 b op2 c` groups as `a op1 (b op2 c)` when `op2` binds more tightly than `op1`, and
/// as `(a op1 b) op2 c` otherwise: operators of equal precedence associate to the left.
pub proof fn law_infix_precedence(toks: Seq<TokenModel>)
    requires
        toks.len() == 6,
        toks[0].kind is Int,
        toks[2].kind is Int,
        toks[4].kind is Int,
        precedence(toks[1].kind) is Some,
        precedence(toks[3].kind) is Some,
        toks[5].kind is Eof,
    ensures
        parse_prec(toks, 0, 0) == (
            Ok::<ExprModel, ParseError>(if binds_tighter(toks[3].kind, toks[1].kind) {
                combine(infix_op(toks[1].kind), int_literal(toks[0]), combine(infix_op(toks[3].kind), int_literal(toks[2]), int_literal(toks[4])))
            } else {
                combine(infix_op(toks[3].kind), combine(infix_op(toks[1].kind), int_literal(toks[0]), int_literal(toks[2])), int_literal(toks[4]))
            }),
            5int,
        ),
{
    let (a, b, c) = (int_literal(toks[0]), int_literal(toks[2]), int_literal(toks[4]));
    let (l1, r1, op1) = precedence(toks[1].kind).unwrap();
    let (l2, r2, op2) = precedence(toks[3].kind).unwrap();
    assert(prefix(toks, 1, toks[0]) == (Ok::<ExprModel, ParseError>(a), 1int));
    assert(prefix(toks, 3, toks[2]) == (Ok::<ExprModel, ParseError>(b), 3int));
    assert(prefix(toks, 5, toks[4]) == (Ok::<ExprModel, ParseError>(c), 5int));
    assert(r1 == l1 + 1 && r2 == l2 + 1 && l1 >= 1 && l2 >= 1);
    assert(!stops_infix(toks[1].kind) && !stops_infix(toks[3].kind));
    assert(!kind_is(toks, 5, TokenKindModel::Pipe) && !kind_is(toks, 3, TokenKindModel::Pipe));
    assert(stops_infix(toks[5].kind));
    assert forall|x: ExprModel, m: int| #[trigger] infix_loop(toks, 5, x, m) == (Ok::<ExprModel, ParseError>(x), 5int) by {
        assert(pipe_loop(toks, 5, x) == (Ok::<ExprModel, ParseError>(x), 5int));
    }
    assert(parse_prec(toks, 4, r2 as int) == (Ok::<ExprModel, ParseError>(c), 5int)) by {
        assert(infix_loop(toks, 5, c, r2 as int) == pipe_loop(toks, 5, c));
    }
    if binds_tighter(toks[3].kind, toks[1].kind) {
        let bc = combine(op2, b, c);
        assert(infix_loop(toks, 5, bc, r1 as int) == (Ok::<ExprModel, ParseError>(bc), 5int));
        assert(infix_loop(toks, 3, b, r1 as int) == (Ok::<ExprModel, ParseError>(bc), 5int));
        assert(parse_prec(toks, 2, r1 as int) == (Ok::<ExprModel, ParseError>(bc), 5int));
        let abc = combine(op1, a, bc);
        assert(infix_loop(toks, 5, abc, 0) == (Ok::<ExprModel, ParseError>(abc), 5int));
        assert(infix_loop(toks, 1, a, 0) == (Ok::<ExprModel, ParseError>(abc), 5int));
    } else {
        assert(!binds_at_least(precedence(toks[3].kind), r1 as int));
        assert(pipe_loop(toks, 3, b) == (Ok::<ExprModel, ParseError>(b), 3int));
        assert(infix_loop(toks, 3, b, r1 as int) == (Ok::<ExprModel, ParseError>(b), 3int));
        assert(parse_prec(toks, 2, r1 as int) == (Ok::<ExprModel, ParseError>(b), 3int));
        let ab = combine(op1, a, b);
        let abc = combine(op2, ab, c);
        assert(infix_loop(toks, 5, abc, 0) == (Ok::<ExprModel, ParseError>(abc), 5int));
        assert(infix_loop(toks, 3, ab, 0) == (Ok::<ExprModel, ParseError>(abc), 5int));
        assert(infix_loop(toks, 1, a, 0) == (Ok::<ExprModel, ParseError>(abc), 5int));
    }
}

} // verus!
