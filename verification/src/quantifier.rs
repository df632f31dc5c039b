//! Quantifiers over the environment's finite collections.
use vstd::prelude::*;

use crate::ast::{Expr, ExprModel};
use crate::error::{EvalError, EvalErrorModel};
use crate::eval::{ctx_of, eval_in, lemma_assoc, no_span, vres};
use crate::runtime::{
    answered, later, lemma_later_one, opt_values_model, read_collection, Env, EnvAnswer, EnvQuery, EnvReply,
};
use crate::semantics::{eval_m, Ctx, MAX_CALL_DEPTH};
use crate::text::string_from_str;
use crate::value::{
    captures_model, err_model, lemma_captures_model_push, lemma_values_model, no_span as no_span_m, tag_of,
    values_model, SemiringOps, Value, ValueModel,
};

verus! {

broadcast use {crate::runtime::lemma_answered_concat, crate::runtime::lemma_empty_prefix};

/// The context in which a quantifier's predicate is evaluated: only its variable is bound.
pub open spec fn binding_ctx(var: Seq<char>, v: ValueModel) -> Ctx {
    Ctx { scope: seq![(var, v)], semiring: None }
}

pub open spec fn quantifier_name(universal: bool) -> &'static str {
    if universal {
        "forall"
    } else {
        "exists"
    }
}

/// The verdict over `items[i..]`: for `forall` (`universal`) the first item on which the
/// predicate is false decides, for `exists` the first on which it is true; a predicate value
/// that is not a boolean is an error.
pub open spec fn quantify_from(universal: bool, var: Seq<char>, items: Seq<ValueModel>, i: int, pred: ExprModel, t: Seq<EnvReply>) -> (Result<bool, EvalErrorModel>, Seq<EnvReply>)
    decreases items.len() - i,
{
    if i < 0 || i >= items.len() {
        (Ok(universal), t)
    } else {
        let (r, t1) = eval_m(MAX_CALL_DEPTH as nat, pred, binding_ctx(var, items[i]), t);
        match r {
            Err(e) => (Err(e), t1),
            Ok(ValueModel::Bool(b)) => if b == universal {
                quantify_from(universal, var, items, i + 1, pred, t1)
            } else {
                (Ok(!universal), t1)
            },
            Ok(other) => (
                Err(EvalErrorModel::QuantifierTypeMismatch { quantifier: quantifier_name(universal), found: tag_of(other), span: no_span_m() }),
                t1,
            ),
        }
    }
}

/// A quantifier over the environment's collection named `collection`.
pub open spec fn quantify_m(universal: bool, var: Seq<char>, collection: Seq<char>, pred: ExprModel, t: Seq<EnvReply>) -> (Result<bool, EvalErrorModel>, Seq<EnvReply>) {
    match read_collection(EnvQuery::FiniteSet(collection), t) {
        None => (Err(EvalErrorModel::CollectionUnknown { name: collection, span: no_span_m() }), later(EnvQuery::FiniteSet(collection), t)),
        Some(items) => quantify_from(universal, var, items, 0, pred, later(EnvQuery::FiniteSet(collection), t)),
    }
}

/// `forall` (`universal`) or `exists` over `items`, with `var` bound to each item in turn;
/// also returns the exchanges with the environment, as `eval_in` does.
pub fn quantify_items<E: Env>(universal: bool, var: &str, items: &Vec<Value>, predicate: &Expr, env: &E) -> (out: (Result<bool, EvalError>, Ghost<Seq<EnvReply>>))
    ensures
        forall|rest: Seq<EnvReply>| #[trigger] quantify_from(universal, var@, values_model(items@), 0, predicate@, out.1@ + rest) == (err_model(out.0), rest),
        answered(env, out.1@),
{
    let ghost im = values_model(items@);
    proof {
        lemma_values_model(items@);
    }
    let ghost mut t = Seq::<EnvReply>::empty();
    let mut i: usize = 0;
    proof {
        assert(forall|rest: Seq<EnvReply>| #[trigger] quantify_from(universal, var@, im, 0, predicate@, t + rest)
            == quantify_from(universal, var@, im, i as int, predicate@, rest));
    }
    while i < items.len()
        invariant
            answered(env, t),
            i <= items@.len(),
            im == values_model(items@),
            im.len() == items@.len(),
            forall|k: int| 0 <= k < items@.len() ==> #[trigger] im[k] == items@[k]@,
            forall|rest: Seq<EnvReply>| #[trigger] quantify_from(universal, var@, im, 0, predicate@, t + rest)
                == quantify_from(universal, var@, im, i as int, predicate@, rest),
        decreases items@.len() - i,
    {
        let mut scope: Vec<(String, Value)> = Vec::new();
        let binding = (string_from_str(var), crate::value::copy_value(&items[i]));
        proof {
            lemma_captures_model_push(scope@, binding);
            assert(captures_model(scope@) =~= Seq::<(Seq<char>, ValueModel)>::empty());
        }
        scope.push(binding);
        let sr: Option<SemiringOps> = None;
        proof {
            assert(captures_model(scope@) =~= seq![(var@, im[i as int])]);
            assert(ctx_of(scope@, sr) == binding_ctx(var@, im[i as int]));
        }
        let (r, Ghost(t1)) = eval_in(MAX_CALL_DEPTH, predicate, env, &scope, &sr);
        let ghost rm = vres(r);
        let verdict: Result<Option<bool>, EvalError> = match r {
            Err(e) => Err(e),
            Ok(Value::Bool(b)) => if b == universal {
                Ok(None)
            } else {
                Ok(Some(!universal))
            },
            Ok(other) => Err(EvalError::QuantifierTypeMismatch {
                quantifier: if universal { "forall" } else { "exists" },
                found: other.type_tag(),
                span: no_span(),
            }),
        };
        match verdict {
            Ok(None) => {
                proof {
                    assert forall|rest: Seq<EnvReply>| #[trigger] quantify_from(universal, var@, im, 0, predicate@, (t + t1) + rest)
                        == quantify_from(universal, var@, im, i + 1, predicate@, rest) by {
                        lemma_assoc(t, t1, rest);
                        assert(eval_m(MAX_CALL_DEPTH as nat, predicate@, binding_ctx(var@, im[i as int]), t1 + rest) == (rm, rest));
                    }
                    t = t + t1;
                }
            },
            _ => {
                let out = match verdict {
                    Ok(Some(b)) => Ok(b),
                    Err(e) => Err(e),
                    Ok(None) => Ok(universal),
                };
                proof {
                    assert forall|rest: Seq<EnvReply>| #[trigger] quantify_from(universal, var@, im, 0, predicate@, (t + t1) + rest) == (err_model(out), rest) by {
                        lemma_assoc(t, t1, rest);
                        assert(eval_m(MAX_CALL_DEPTH as nat, predicate@, binding_ctx(var@, im[i as int]), t1 + rest) == (rm, rest));
                    }
                }
                return (out, Ghost(t + t1));
            },
        }
        i = i + 1;
    }
    (Ok(universal), Ghost(t))
}

/// `forall` (`universal`) or `exists` over the environment's collection `collection`; also
/// returns the exchanges with the environment, as `eval_in` does.
pub fn quantify<E: Env>(universal: bool, var: &str, collection: &str, predicate: &Expr, env: &E) -> (out: (Result<bool, EvalError>, Ghost<Seq<EnvReply>>))
    ensures
        forall|rest: Seq<EnvReply>| #[trigger] quantify_m(universal, var@, collection@, predicate@, out.1@ + rest) == (err_model(out.0), rest),
        answered(env, out.1@),
{
    let found = env.finite_set(collection);
    let ghost first = EnvReply { query: EnvQuery::FiniteSet(collection@), answer: EnvAnswer::Collection(opt_values_model(found)) };
    let ghost tf = seq![first];
    let items = match found {
        None => {
            let r = Err(EvalError::CollectionUnknown { name: string_from_str(collection), span: no_span() });
            proof {
                assert forall|rest: Seq<EnvReply>| #[trigger] quantify_m(universal, var@, collection@, predicate@, tf + rest) == (err_model(r), rest) by {
                    lemma_later_one(first, rest);
                }
            }
            return (r, Ghost(tf));
        },
        Some(items) => items,
    };
    let (r, Ghost(t)) = quantify_items(universal, var, &items, predicate, env);
    proof {
        assert forall|rest: Seq<EnvReply>| #[trigger] quantify_m(universal, var@, collection@, predicate@, (tf + t) + rest) == (err_model(r), rest) by {
            lemma_assoc(tf, t, rest);
            lemma_later_one(first, t + rest);
            assert(quantify_from(universal, var@, values_model(items@), 0, predicate@, t + rest) == (err_model(r), rest));
        }
    }
    (r, Ghost(tf + t))
}

/// Whether `predicate` holds with `var` bound to every item of the environment's collection
/// `collection`; the first item on which it is false decides.
pub fn eval_forall<E: Env>(var: &str, collection: &str, predicate: &Expr, env: &E) -> (r: Result<bool, EvalError>)
    ensures
        exists|t: Seq<EnvReply>| #[trigger] answered(env, t) && forall|rest: Seq<EnvReply>|
            #[trigger] quantify_m(true, var@, collection@, predicate@, t + rest) == (err_model(r), rest),
{
    let (r, Ghost(t)) = quantify(true, var, collection, predicate, env);
    proof {
        assert(answered(env, t));
    }
    r
}

/// Whether `predicate` holds with `var` bound to some item of the environment's collection
/// `collection`; the first item on which it is true decides.
pub fn eval_exists<E: Env>(var: &str, collection: &str, predicate: &Expr, env: &E) -> (r: Result<bool, EvalError>)
    ensures
        exists|t: Seq<EnvReply>| #[trigger] answered(env, t) && forall|rest: Seq<EnvReply>|
            #[trigger] quantify_m(false, var@, collection@, predicate@, t + rest) == (err_model(r), rest),
{
    let (r, Ghost(t)) = quantify(false, var, collection, predicate, env);
    proof {
        assert(answered(env, t));
    }
    r
}

} // verus!
