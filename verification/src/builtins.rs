//! The built-in functions that calls and pipelines name.
use vstd::prelude::*;

use crate::error::{copy_tag, tag_is_unknown, EvalError, TypeTag};
use crate::eval::{call_lambda, ctx_of, lambda_parts, lemma_assoc, no_span, vres};
use crate::runtime::{answered, lemma_later_one, opt_view, Env, EnvAnswer, EnvQuery, EnvReply};
use crate::semantics::{
    apply_m, debug_text, empty_ctx, filter_call_m, filter_m, fold_call_m, fold_m, lattice_fold, lattice_id,
    lattice_query, lattice_reduce_m, map_call_m, map_m, semiring_call_m, semiring_m, MAX_CALL_DEPTH,
};
use crate::text::{string_from_str, text_is};
use crate::value::{
    contains_value, copy_value, lemma_values_model, lemma_values_model_push, values_model, SemiringOps, SetValue,
    Value, ValueModel,
};

verus! {

broadcast use {crate::runtime::lemma_answered_concat, crate::runtime::lemma_empty_prefix};

/// A one-element argument list.
fn single(v: &Value) -> (r: Vec<Value>)
    ensures
        values_model(r@) == seq![v@],
{
    let mut r: Vec<Value> = Vec::new();
    let c = copy_value(v);
    proof {
        lemma_values_model_push(r@, c);
        assert(values_model(r@) =~= Seq::<ValueModel>::empty());
    }
    r.push(c);
    proof {
        assert(values_model(r@) =~= seq![v@]);
    }
    r
}

/// A two-element argument list.
fn pair(a: &Value, b: &Value) -> (r: Vec<Value>)
    ensures
        values_model(r@) == seq![a@, b@],
{
    let mut r = single(a);
    let c = copy_value(b);
    proof {
        lemma_values_model_push(r@, c);
    }
    r.push(c);
    proof {
        assert(values_model(r@) =~= seq![a@, b@]);
    }
    r
}

/// `map(set, f)`: the results of `f` on the set's elements, each equal value once; the result
/// type is that of the first result.
fn builtin_map<E: Env>(fuel: u64, args: &Vec<Value>, env: &E, scope: &Vec<(String, Value)>, sr: &Option<SemiringOps>) -> (out: (Result<Value, EvalError>, Ghost<Seq<EnvReply>>))
    ensures
        forall|rest: Seq<EnvReply>| #[trigger] map_call_m(fuel as nat, values_model(args@), ctx_of(scope@, *sr), out.1@ + rest) == (vres(out.0), rest),
        answered(env, out.1@),
    decreases fuel, 0nat, 2nat, 0nat,
{
    let ghost am = values_model(args@);
    let ghost cx = ctx_of(scope@, *sr);
    let ghost empty = Seq::<EnvReply>::empty();
    proof {
        lemma_values_model(args@);
    }
    if args.len() != 2 {
        let r = Err(EvalError::LambdaArity { expected: 2, found: args.len(), span: no_span() });
        proof {
            assert(forall|rest: Seq<EnvReply>| #[trigger] map_call_m(fuel as nat, am, cx, empty + rest) == (vres(r), rest));
        }
        return (r, Ghost(empty));
    }
    let set = match &args[0] {
        Value::SetOf(set) => set,
        other => {
            let r = Err(EvalError::InOnNonSet { rhs_ty: other.type_tag(), span: no_span() });
            proof {
                assert(forall|rest: Seq<EnvReply>| #[trigger] map_call_m(fuel as nat, am, cx, empty + rest) == (vres(r), rest));
            }
            return (r, Ghost(empty));
        },
    };
    let lambda = match &args[1] {
        Value::Lambda(l) => l,
        other => {
            let r = Err(EvalError::LambdaType { param: string_from_str("map"), expected: TypeTag::Lambda, found: other.type_tag(), span: no_span() });
            proof {
                assert(forall|rest: Seq<EnvReply>| #[trigger] map_call_m(fuel as nat, am, cx, empty + rest) == (vres(r), rest));
            }
            return (r, Ghost(empty));
        },
    };
    let ghost elems = values_model(set.elements@);
    let ghost lam = lambda_parts(*lambda);
    proof {
        lemma_values_model(set.elements@);
    }
    let mut results: Vec<Value> = Vec::new();
    let mut elem_type = TypeTag::Unknown;
    let ghost mut t = empty;
    let mut i: usize = 0;
    proof {
        assert(values_model(results@) =~= Seq::<ValueModel>::empty());
        assert(forall|rest: Seq<EnvReply>| #[trigger] map_call_m(fuel as nat, am, cx, t + rest)
            == map_m(fuel as nat, elems, i as int, lam, cx, elem_type@, values_model(results@), rest));
    }
    while i < set.elements.len()
        invariant
            answered(env, t),
            i <= set.elements@.len(),
            elems == values_model(set.elements@),
            elems.len() == set.elements@.len(),
            forall|k: int| 0 <= k < set.elements@.len() ==> #[trigger] elems[k] == set.elements@[k]@,
            lam == lambda_parts(*lambda),
            cx == ctx_of(scope@, *sr),
            am == values_model(args@),
            forall|rest: Seq<EnvReply>| #[trigger] map_call_m(fuel as nat, am, cx, t + rest)
                == map_m(fuel as nat, elems, i as int, lam, cx, elem_type@, values_model(results@), rest),
        decreases set.elements@.len() - i,
    {
        let one = single(&set.elements[i]);
        let (r, Ghost(t1)) = call_lambda(fuel, lambda, &one, env, scope, sr);
        let ghost rm = vres(r);
        let ghost et0 = elem_type@;
        let ghost res0 = values_model(results@);
        let value = match r {
            Err(e) => {
                proof {
                    assert forall|rest: Seq<EnvReply>| #[trigger] map_call_m(fuel as nat, am, cx, (t + t1) + rest) == (vres(Err::<Value, EvalError>(e)), rest) by {
                        lemma_assoc(t, t1, rest);
                        assert(crate::semantics::call_lambda_m(fuel as nat, lam, seq![elems[i as int]], cx, t1 + rest) == (rm, rest));
                    }
                }
                return (Err(e), Ghost(t + t1));
            },
            Ok(v) => v,
        };
        if tag_is_unknown(&elem_type) {
            elem_type = value.type_tag();
        }
        match contains_value(results.as_slice(), &value) {
            Err(e) => {
                proof {
                    assert forall|rest: Seq<EnvReply>| #[trigger] map_call_m(fuel as nat, am, cx, (t + t1) + rest) == (vres(Err::<Value, EvalError>(e)), rest) by {
                        lemma_assoc(t, t1, rest);
                        assert(crate::semantics::call_lambda_m(fuel as nat, lam, seq![elems[i as int]], cx, t1 + rest) == (rm, rest));
                    }
                }
                return (Err(e), Ghost(t + t1));
            },
            Ok(true) => {},
            Ok(false) => {
                proof {
                    lemma_values_model_push(results@, value);
                }
                results.push(value);
            },
        }
        proof {
            assert forall|rest: Seq<EnvReply>| #[trigger] map_call_m(fuel as nat, am, cx, (t + t1) + rest)
                == map_m(fuel as nat, elems, i + 1, lam, cx, elem_type@, values_model(results@), rest) by {
                lemma_assoc(t, t1, rest);
                assert(crate::semantics::call_lambda_m(fuel as nat, lam, seq![elems[i as int]], cx, t1 + rest) == (rm, rest));
            }
            t = t + t1;
        }
        i = i + 1;
    }
    let r = Ok(Value::SetOf(SetValue { elem_type, elements: results }));
    (r, Ghost(t))
}

/// `filter(set, p)`: the elements on which `p` gives `true`; any result that is not a boolean
/// is an error.
fn builtin_filter<E: Env>(fuel: u64, args: &Vec<Value>, env: &E, scope: &Vec<(String, Value)>, sr: &Option<SemiringOps>) -> (out: (Result<Value, EvalError>, Ghost<Seq<EnvReply>>))
    ensures
        forall|rest: Seq<EnvReply>| #[trigger] filter_call_m(fuel as nat, values_model(args@), ctx_of(scope@, *sr), out.1@ + rest) == (vres(out.0), rest),
        answered(env, out.1@),
    decreases fuel, 0nat, 2nat, 0nat,
{
    let ghost am = values_model(args@);
    let ghost cx = ctx_of(scope@, *sr);
    let ghost empty = Seq::<EnvReply>::empty();
    proof {
        lemma_values_model(args@);
    }
    if args.len() != 2 {
        let r = Err(EvalError::LambdaArity { expected: 2, found: args.len(), span: no_span() });
        proof {
            assert(forall|rest: Seq<EnvReply>| #[trigger] filter_call_m(fuel as nat, am, cx, empty + rest) == (vres(r), rest));
        }
        return (r, Ghost(empty));
    }
    let set = match &args[0] {
        Value::SetOf(set) => set,
        other => {
            let r = Err(EvalError::InOnNonSet { rhs_ty: other.type_tag(), span: no_span() });
            proof {
                assert(forall|rest: Seq<EnvReply>| #[trigger] filter_call_m(fuel as nat, am, cx, empty + rest) == (vres(r), rest));
            }
            return (r, Ghost(empty));
        },
    };
    let lambda = match &args[1] {
        Value::Lambda(l) => l,
        other => {
            let r = Err(EvalError::LambdaType { param: string_from_str("filter"), expected: TypeTag::Lambda, found: other.type_tag(), span: no_span() });
            proof {
                assert(forall|rest: Seq<EnvReply>| #[trigger] filter_call_m(fuel as nat, am, cx, empty + rest) == (vres(r), rest));
            }
            return (r, Ghost(empty));
        },
    };
    let ghost elems = values_model(set.elements@);
    let ghost lam = lambda_parts(*lambda);
    proof {
        lemma_values_model(set.elements@);
    }
    let mut results: Vec<Value> = Vec::new();
    let ghost mut t = empty;
    let mut i: usize = 0;
    proof {
        assert(values_model(results@) =~= Seq::<ValueModel>::empty());
        assert(forall|rest: Seq<EnvReply>| #[trigger] filter_call_m(fuel as nat, am, cx, t + rest)
            == filter_m(fuel as nat, elems, i as int, lam, cx, set.elem_type@, values_model(results@), rest));
    }
    while i < set.elements.len()
        invariant
            answered(env, t),
            i <= set.elements@.len(),
            elems == values_model(set.elements@),
            elems.len() == set.elements@.len(),
            forall|k: int| 0 <= k < set.elements@.len() ==> #[trigger] elems[k] == set.elements@[k]@,
            lam == lambda_parts(*lambda),
            cx == ctx_of(scope@, *sr),
            am == values_model(args@),
            forall|rest: Seq<EnvReply>| #[trigger] filter_call_m(fuel as nat, am, cx, t + rest)
                == filter_m(fuel as nat, elems, i as int, lam, cx, set.elem_type@, values_model(results@), rest),
        decreases set.elements@.len() - i,
    {
        let one = single(&set.elements[i]);
        let (r, Ghost(t1)) = call_lambda(fuel, lambda, &one, env, scope, sr);
        let ghost rm = vres(r);
        match r {
            Ok(Value::Bool(true)) => {
                let c = copy_value(&set.elements[i]);
                proof {
                    lemma_values_model_push(results@, c);
                }
                results.push(c);
            },
            Ok(Value::Bool(false)) => {},
            Ok(other) => {
                let e = EvalError::TypeMismatch { op: "filter", left: other.type_tag(), right: TypeTag::Bool, span: no_span() };
                proof {
                    assert forall|rest: Seq<EnvReply>| #[trigger] filter_call_m(fuel as nat, am, cx, (t + t1) + rest) == (vres(Err::<Value, EvalError>(e)), rest) by {
                        lemma_assoc(t, t1, rest);
                        assert(crate::semantics::call_lambda_m(fuel as nat, lam, seq![elems[i as int]], cx, t1 + rest) == (rm, rest));
                    }
                }
                return (Err(e), Ghost(t + t1));
            },
            Err(e) => {
                proof {
                    assert forall|rest: Seq<EnvReply>| #[trigger] filter_call_m(fuel as nat, am, cx, (t + t1) + rest) == (vres(Err::<Value, EvalError>(e)), rest) by {
                        lemma_assoc(t, t1, rest);
                        assert(crate::semantics::call_lambda_m(fuel as nat, lam, seq![elems[i as int]], cx, t1 + rest) == (rm, rest));
                    }
                }
                return (Err(e), Ghost(t + t1));
            },
        }
        proof {
            assert forall|rest: Seq<EnvReply>| #[trigger] filter_call_m(fuel as nat, am, cx, (t + t1) + rest)
                == filter_m(fuel as nat, elems, i + 1, lam, cx, set.elem_type@, values_model(results@), rest) by {
                lemma_assoc(t, t1, rest);
                assert(crate::semantics::call_lambda_m(fuel as nat, lam, seq![elems[i as int]], cx, t1 + rest) == (rm, rest));
            }
            t = t + t1;
        }
        i = i + 1;
    }
    let r = Ok(Value::SetOf(SetValue { elem_type: copy_tag(&set.elem_type), elements: results }));
    (r, Ghost(t))
}

/// `fold(set, init, f)`: the accumulator, starting at `init`, passed through `f` with each
/// element in turn.
fn builtin_fold<E: Env>(fuel: u64, args: &Vec<Value>, env: &E, scope: &Vec<(String, Value)>, sr: &Option<SemiringOps>) -> (out: (Result<Value, EvalError>, Ghost<Seq<EnvReply>>))
    ensures
        forall|rest: Seq<EnvReply>| #[trigger] fold_call_m(fuel as nat, values_model(args@), ctx_of(scope@, *sr), out.1@ + rest) == (vres(out.0), rest),
        answered(env, out.1@),
    decreases fuel, 0nat, 2nat, 0nat,
{
    let ghost am = values_model(args@);
    let ghost cx = ctx_of(scope@, *sr);
    let ghost empty = Seq::<EnvReply>::empty();
    proof {
        lemma_values_model(args@);
    }
    if args.len() != 3 {
        let r = Err(EvalError::LambdaArity { expected: 3, found: args.len(), span: no_span() });
        proof {
            assert(forall|rest: Seq<EnvReply>| #[trigger] fold_call_m(fuel as nat, am, cx, empty + rest) == (vres(r), rest));
        }
        return (r, Ghost(empty));
    }
    let set = match &args[0] {
        Value::SetOf(set) => set,
        other => {
            let r = Err(EvalError::InOnNonSet { rhs_ty: other.type_tag(), span: no_span() });
            proof {
                assert(forall|rest: Seq<EnvReply>| #[trigger] fold_call_m(fuel as nat, am, cx, empty + rest) == (vres(r), rest));
            }
            return (r, Ghost(empty));
        },
    };
    let lambda = match &args[2] {
        Value::Lambda(l) => l,
        other => {
            let r = Err(EvalError::LambdaType { param: string_from_str("fold"), expected: TypeTag::Lambda, found: other.type_tag(), span: no_span() });
            proof {
                assert(forall|rest: Seq<EnvReply>| #[trigger] fold_call_m(fuel as nat, am, cx, empty + rest) == (vres(r), rest));
            }
            return (r, Ghost(empty));
        },
    };
    let ghost elems = values_model(set.elements@);
    let ghost lam = lambda_parts(*lambda);
    proof {
        lemma_values_model(set.elements@);
    }
    let mut acc = copy_value(&args[1]);
    let ghost mut t = empty;
    let mut i: usize = 0;
    proof {
        assert(forall|rest: Seq<EnvReply>| #[trigger] fold_call_m(fuel as nat, am, cx, t + rest)
            == fold_m(fuel as nat, elems, i as int, lam, cx, acc@, rest));
    }
    while i < set.elements.len()
        invariant
            answered(env, t),
            i <= set.elements@.len(),
            elems == values_model(set.elements@),
            elems.len() == set.elements@.len(),
            forall|k: int| 0 <= k < set.elements@.len() ==> #[trigger] elems[k] == set.elements@[k]@,
            lam == lambda_parts(*lambda),
            cx == ctx_of(scope@, *sr),
            am == values_model(args@),
            forall|rest: Seq<EnvReply>| #[trigger] fold_call_m(fuel as nat, am, cx, t + rest)
                == fold_m(fuel as nat, elems, i as int, lam, cx, acc@, rest),
        decreases set.elements@.len() - i,
    {
        let two = pair(&acc, &set.elements[i]);
        let (r, Ghost(t1)) = call_lambda(fuel, lambda, &two, env, scope, sr);
        let ghost rm = vres(r);
        let ghost acc0 = acc@;
        match r {
            Err(e) => {
                proof {
                    assert forall|rest: Seq<EnvReply>| #[trigger] fold_call_m(fuel as nat, am, cx, (t + t1) + rest) == (vres(Err::<Value, EvalError>(e)), rest) by {
                        lemma_assoc(t, t1, rest);
                        assert(crate::semantics::call_lambda_m(fuel as nat, lam, seq![acc0, elems[i as int]], cx, t1 + rest) == (rm, rest));
                    }
                }
                return (Err(e), Ghost(t + t1));
            },
            Ok(v) => {
                acc = v;
            },
        }
        proof {
            assert forall|rest: Seq<EnvReply>| #[trigger] fold_call_m(fuel as nat, am, cx, (t + t1) + rest)
                == fold_m(fuel as nat, elems, i + 1, lam, cx, acc@, rest) by {
                lemma_assoc(t, t1, rest);
                assert(crate::semantics::call_lambda_m(fuel as nat, lam, seq![acc0, elems[i as int]], cx, t1 + rest) == (rm, rest));
            }
            t = t + t1;
        }
        i = i + 1;
    }
    (Ok(acc), Ghost(t))
}

} // verus!

verus! {

/// The name under which the environment keeps the lattice of a set's element type.
fn lattice_type_id(t: &TypeTag) -> (r: String)
    ensures
        r@ == lattice_id(t@),
{
    match t {
        TypeTag::Enum(name) => name.clone(),
        TypeTag::Int => string_from_str("core.Int"),
        other => debug_text(other),
    }
}

/// `reduce_meet(set)` (`meet` true) and `reduce_join(set)` (`meet` false): the lattice operation
/// folded over the set's elements from the first one; an empty set is an error.
fn builtin_reduce_lattice<E: Env>(meet: bool, args: &Vec<Value>, env: &E) -> (out: (Result<Value, EvalError>, Ghost<Seq<EnvReply>>))
    ensures
        forall|rest: Seq<EnvReply>| #[trigger] lattice_reduce_m(meet, values_model(args@), out.1@ + rest) == (vres(out.0), rest),
        answered(env, out.1@),
{
    let ghost am = values_model(args@);
    let ghost empty = Seq::<EnvReply>::empty();
    proof {
        lemma_values_model(args@);
    }
    if args.len() != 1 {
        let r = Err(EvalError::LambdaArity { expected: 1, found: args.len(), span: no_span() });
        proof {
            assert(forall|rest: Seq<EnvReply>| #[trigger] lattice_reduce_m(meet, am, empty + rest) == (vres(r), rest));
        }
        return (r, Ghost(empty));
    }
    let set = match &args[0] {
        Value::SetOf(set) => set,
        other => {
            let r = Err(EvalError::InOnNonSet { rhs_ty: other.type_tag(), span: no_span() });
            proof {
                assert(forall|rest: Seq<EnvReply>| #[trigger] lattice_reduce_m(meet, am, empty + rest) == (vres(r), rest));
            }
            return (r, Ghost(empty));
        },
    };
    let ghost elems = values_model(set.elements@);
    proof {
        lemma_values_model(set.elements@);
    }
    let type_id = lattice_type_id(&set.elem_type);
    let found = env.lattice_ops(type_id.as_str());
    let ghost first = EnvReply { query: EnvQuery::Lattice(lattice_id(set.elem_type@)), answer: EnvAnswer::Lattice(opt_view(found)) };
    let ghost tf = seq![first];
    let ops = match found {
        None => {
            let r = Err(EvalError::LatticeRequired { ty: copy_tag(&set.elem_type), span: no_span() });
            proof {
                assert forall|rest: Seq<EnvReply>| #[trigger] lattice_reduce_m(meet, am, seq![first] + rest) == (vres(r), rest) by {
                    lemma_later_one(first, rest);
                }
            }
            return (r, Ghost(tf));
        },
        Some(ops) => ops,
    };
    if set.elements.len() == 0 {
        let r = Err(EvalError::Other { message: string_from_str("lattice reduction on empty set"), span: no_span() });
        proof {
            assert forall|rest: Seq<EnvReply>| #[trigger] lattice_reduce_m(meet, am, seq![first] + rest) == (vres(r), rest) by {
                lemma_later_one(first, rest);
            }
        }
        return (r, Ghost(tf));
    }
    let mut acc = copy_value(&set.elements[0]);
    let ghost mut t = seq![first];
    let mut i: usize = 1;
    proof {
        assert forall|rest: Seq<EnvReply>| #[trigger] lattice_reduce_m(meet, am, t + rest) == lattice_fold(meet, ops@, elems, i as int, acc@, rest) by {
            lemma_later_one(first, rest);
        }
    }
    while i < set.elements.len()
        invariant
            answered(env, t),
            1 <= i <= set.elements@.len(),
            elems == values_model(set.elements@),
            elems.len() == set.elements@.len(),
            forall|k: int| 0 <= k < set.elements@.len() ==> #[trigger] elems[k] == set.elements@[k]@,
            am == values_model(args@),
            forall|rest: Seq<EnvReply>| #[trigger] lattice_reduce_m(meet, am, t + rest) == lattice_fold(meet, ops@, elems, i as int, acc@, rest),
        decreases set.elements@.len() - i,
    {
        let r = if meet {
            env.lattice_meet(&ops, &acc, &set.elements[i])
        } else {
            env.lattice_join(&ops, &acc, &set.elements[i])
        };
        let ghost reply = EnvReply { query: lattice_query(meet, ops@, acc@, set.elements@[i as int]@), answer: EnvAnswer::Op(vres(r)) };
        match r {
            Err(e) => {
                proof {
                    assert forall|rest: Seq<EnvReply>| #[trigger] lattice_reduce_m(meet, am, (t + seq![reply]) + rest) == (vres(Err::<Value, EvalError>(e)), rest) by {
                        lemma_assoc(t, seq![reply], rest);
                        lemma_later_one(reply, rest);
                    }
                }
                return (Err(e), Ghost(t + seq![reply]));
            },
            Ok(v) => {
                proof {
                    assert forall|rest: Seq<EnvReply>| #[trigger] lattice_reduce_m(meet, am, (t + seq![reply]) + rest) == lattice_fold(meet, ops@, elems, i + 1, v@, rest) by {
                        lemma_assoc(t, seq![reply], rest);
                        lemma_later_one(reply, rest);
                    }
                    t = t + seq![reply];
                }
                acc = v;
            },
        }
        i = i + 1;
    }
    (Ok(acc), Ghost(t))
}

/// `reduce_semiring(set, f)`: starting from the semiring's zero, adds the result of `f` on each
/// element with the semiring's addition.
fn builtin_reduce_semiring<E: Env>(fuel: u64, args: &Vec<Value>, env: &E, scope: &Vec<(String, Value)>, sr: &Option<SemiringOps>) -> (out: (Result<Value, EvalError>, Ghost<Seq<EnvReply>>))
    ensures
        forall|rest: Seq<EnvReply>| #[trigger] semiring_call_m(fuel as nat, values_model(args@), ctx_of(scope@, *sr), out.1@ + rest) == (vres(out.0), rest),
        answered(env, out.1@),
    decreases fuel, 0nat, 2nat, 0nat,
{
    let ghost am = values_model(args@);
    let ghost cx = ctx_of(scope@, *sr);
    let ghost empty = Seq::<EnvReply>::empty();
    proof {
        lemma_values_model(args@);
    }
    if args.len() != 2 {
        let r = Err(EvalError::LambdaArity { expected: 2, found: args.len(), span: no_span() });
        proof {
            assert(forall|rest: Seq<EnvReply>| #[trigger] semiring_call_m(fuel as nat, am, cx, empty + rest) == (vres(r), rest));
        }
        return (r, Ghost(empty));
    }
    let set = match &args[0] {
        Value::SetOf(set) => set,
        other => {
            let r = Err(EvalError::InOnNonSet { rhs_ty: other.type_tag(), span: no_span() });
            proof {
                assert(forall|rest: Seq<EnvReply>| #[trigger] semiring_call_m(fuel as nat, am, cx, empty + rest) == (vres(r), rest));
            }
            return (r, Ghost(empty));
        },
    };
    let lambda = match &args[1] {
        Value::Lambda(l) => l,
        other => {
            let r = Err(EvalError::LambdaType { param: string_from_str("reduce_semiring"), expected: TypeTag::Lambda, found: other.type_tag(), span: no_span() });
            proof {
                assert(forall|rest: Seq<EnvReply>| #[trigger] semiring_call_m(fuel as nat, am, cx, empty + rest) == (vres(r), rest));
            }
            return (r, Ghost(empty));
        },
    };
    let ghost elems = values_model(set.elements@);
    let ghost lam = lambda_parts(*lambda);
    proof {
        lemma_values_model(set.elements@);
    }
    let (found, Ghost(t0)) = match sr {
        Some(s) => (Some(s.clone()), Ghost(empty)),
        None => {
            let f = env.current_semiring();
            let ghost one = seq![EnvReply { query: EnvQuery::CurrentSemiring, answer: EnvAnswer::Semiring(opt_view(f)) }];
            (f, Ghost(one))
        },
    };
    proof {
        assert forall|rest: Seq<EnvReply>| #[trigger] crate::semantics::read_semiring_or(cx.semiring, t0 + rest) == (opt_view(found), rest) by {
            match sr {
                Some(s) => {
                },
                None => {
                    lemma_later_one(t0[0], rest);
                    assert(t0 =~= seq![t0[0]]);
                },
            }
        }
    }
    let ops = match found {
        None => {
            let r = Err(EvalError::SemiringMissing { span: no_span() });
            proof {
                assert forall|rest: Seq<EnvReply>| #[trigger] semiring_call_m(fuel as nat, am, cx, t0 + rest) == (vres(r), rest) by {
                    assert(crate::semantics::read_semiring_or(cx.semiring, t0 + rest) == (opt_view(found), rest));
                }
            }
            return (r, Ghost(t0));
        },
        Some(ops) => ops,
    };
    let mut acc = copy_value(&ops.zero);
    let ghost mut t = t0;
    let mut i: usize = 0;
    proof {
        assert forall|rest: Seq<EnvReply>| #[trigger] semiring_call_m(fuel as nat, am, cx, t + rest) == semiring_m(fuel as nat, elems, i as int, lam, cx, ops@, acc@, rest) by {
            assert(crate::semantics::read_semiring_or(cx.semiring, t0 + rest) == (Some(ops@), rest));
        }
    }
    while i < set.elements.len()
        invariant
            answered(env, t),
            i <= set.elements@.len(),
            elems == values_model(set.elements@),
            elems.len() == set.elements@.len(),
            forall|k: int| 0 <= k < set.elements@.len() ==> #[trigger] elems[k] == set.elements@[k]@,
            lam == lambda_parts(*lambda),
            cx == ctx_of(scope@, *sr),
            am == values_model(args@),
            forall|rest: Seq<EnvReply>| #[trigger] semiring_call_m(fuel as nat, am, cx, t + rest) == semiring_m(fuel as nat, elems, i as int, lam, cx, ops@, acc@, rest),
        decreases set.elements@.len() - i,
    {
        let one = single(&set.elements[i]);
        let (r, Ghost(t1)) = call_lambda(fuel, lambda, &one, env, scope, sr);
        let ghost rm = vres(r);
        let mapped = match r {
            Err(e) => {
                proof {
                    assert forall|rest: Seq<EnvReply>| #[trigger] semiring_call_m(fuel as nat, am, cx, (t + t1) + rest) == (vres(Err::<Value, EvalError>(e)), rest) by {
                        lemma_assoc(t, t1, rest);
                        assert(crate::semantics::call_lambda_m(fuel as nat, lam, seq![elems[i as int]], cx, t1 + rest) == (rm, rest));
                    }
                }
                return (Err(e), Ghost(t + t1));
            },
            Ok(v) => v,
        };
        let sum = env.semiring_oplus(&ops, &acc, &mapped);
        let ghost reply = EnvReply { query: EnvQuery::Oplus(ops@, acc@, mapped@), answer: EnvAnswer::Op(vres(sum)) };
        match sum {
            Err(e) => {
                proof {
                    assert forall|rest: Seq<EnvReply>| #[trigger] semiring_call_m(fuel as nat, am, cx, ((t + t1) + seq![reply]) + rest) == (vres(Err::<Value, EvalError>(e)), rest) by {
                        lemma_assoc(t + t1, seq![reply], rest);
                        lemma_assoc(t, t1, seq![reply] + rest);
                        lemma_later_one(reply, rest);
                        assert(crate::semantics::call_lambda_m(fuel as nat, lam, seq![elems[i as int]], cx, t1 + (seq![reply] + rest)) == (rm, seq![reply] + rest));
                    }
                }
                return (Err(e), Ghost((t + t1) + seq![reply]));
            },
            Ok(v) => {
                proof {
                    assert forall|rest: Seq<EnvReply>| #[trigger] semiring_call_m(fuel as nat, am, cx, ((t + t1) + seq![reply]) + rest) == semiring_m(fuel as nat, elems, i + 1, lam, cx, ops@, v@, rest) by {
                        lemma_assoc(t + t1, seq![reply], rest);
                        lemma_assoc(t, t1, seq![reply] + rest);
                        lemma_later_one(reply, rest);
                        assert(crate::semantics::call_lambda_m(fuel as nat, lam, seq![elems[i as int]], cx, t1 + (seq![reply] + rest)) == (rm, seq![reply] + rest));
                    }
                    t = (t + t1) + seq![reply];
                }
                acc = v;
            },
        }
        i = i + 1;
    }
    (Ok(acc), Ghost(t))
}

/// Applies the built-in function `name` to `args` under the bindings in `scope` and the
/// semiring `sr`; also returns the exchanges with the environment, as `eval_in` does.
pub fn apply_in<E: Env>(fuel: u64, name: &String, args: Vec<Value>, env: &E, scope: &Vec<(String, Value)>, sr: &Option<SemiringOps>) -> (out: (Result<Value, EvalError>, Ghost<Seq<EnvReply>>))
    ensures
        forall|rest: Seq<EnvReply>| #[trigger] apply_m(fuel as nat, name@, values_model(args@), ctx_of(scope@, *sr), out.1@ + rest) == (vres(out.0), rest),
        answered(env, out.1@),
    decreases fuel, 0nat, 3nat, 0nat,
{
    let ghost am = values_model(args@);
    let ghost cx = ctx_of(scope@, *sr);
    if text_is(name, "map") {
        let (r, Ghost(t)) = builtin_map(fuel, &args, env, scope, sr);
        proof {
            assert forall|rest: Seq<EnvReply>| #[trigger] apply_m(fuel as nat, name@, am, cx, t + rest) == (vres(r), rest) by {
                assert(map_call_m(fuel as nat, am, cx, t + rest) == (vres(r), rest));
            }
        }
        (r, Ghost(t))
    } else if text_is(name, "filter") {
        let (r, Ghost(t)) = builtin_filter(fuel, &args, env, scope, sr);
        proof {
            assert forall|rest: Seq<EnvReply>| #[trigger] apply_m(fuel as nat, name@, am, cx, t + rest) == (vres(r), rest) by {
                assert(filter_call_m(fuel as nat, am, cx, t + rest) == (vres(r), rest));
            }
        }
        (r, Ghost(t))
    } else if text_is(name, "fold") {
        let (r, Ghost(t)) = builtin_fold(fuel, &args, env, scope, sr);
        proof {
            assert forall|rest: Seq<EnvReply>| #[trigger] apply_m(fuel as nat, name@, am, cx, t + rest) == (vres(r), rest) by {
                assert(fold_call_m(fuel as nat, am, cx, t + rest) == (vres(r), rest));
            }
        }
        (r, Ghost(t))
    } else if text_is(name, "reduce_meet") {
        let (r, Ghost(t)) = builtin_reduce_lattice(true, &args, env);
        proof {
            assert forall|rest: Seq<EnvReply>| #[trigger] apply_m(fuel as nat, name@, am, cx, t + rest) == (vres(r), rest) by {
                assert(lattice_reduce_m(true, am, t + rest) == (vres(r), rest));
            }
        }
        (r, Ghost(t))
    } else if text_is(name, "reduce_join") {
        let (r, Ghost(t)) = builtin_reduce_lattice(false, &args, env);
        proof {
            assert forall|rest: Seq<EnvReply>| #[trigger] apply_m(fuel as nat, name@, am, cx, t + rest) == (vres(r), rest) by {
                assert(lattice_reduce_m(false, am, t + rest) == (vres(r), rest));
            }
        }
        (r, Ghost(t))
    } else if text_is(name, "reduce_semiring") {
        let (r, Ghost(t)) = builtin_reduce_semiring(fuel, &args, env, scope, sr);
        proof {
            assert forall|rest: Seq<EnvReply>| #[trigger] apply_m(fuel as nat, name@, am, cx, t + rest) == (vres(r), rest) by {
                assert(semiring_call_m(fuel as nat, am, cx, t + rest) == (vres(r), rest));
            }
        }
        (r, Ghost(t))
    } else {
        let r = Err(EvalError::CallUnknown { func: name.clone(), span: no_span() });
        let ghost empty = Seq::<EnvReply>::empty();
        proof {
            assert(forall|rest: Seq<EnvReply>| #[trigger] apply_m(fuel as nat, name@, am, cx, empty + rest) == (vres(r), rest));
        }
        (r, Ghost(empty))
    }
}

/// Applies the built-in function `name` to `args` at the top level: no enclosing bindings and
/// no semiring chosen by `with_semiring`. The result is what `apply_m` gives for some sequence of
/// replies, each an answer that `env` gives to its question (`env.answers`).
pub fn apply<E: Env>(name: &str, args: Vec<Value>, env: &E) -> (r: Result<Value, EvalError>)
    ensures
        exists|t: Seq<EnvReply>| #[trigger] answered(env, t) && forall|rest: Seq<EnvReply>|
            #[trigger] apply_m(MAX_CALL_DEPTH as nat, name@, values_model(args@), empty_ctx(), t + rest) == (vres(r), rest),
{
    let scope: Vec<(String, Value)> = Vec::new();
    let sr: Option<SemiringOps> = None;
    let owned = string_from_str(name);
    let ghost am = values_model(args@);
    let (r, Ghost(t)) = apply_in(MAX_CALL_DEPTH, &owned, args, env, &scope, &sr);
    proof {
        assert(crate::value::captures_model(scope@) =~= Seq::<(Seq<char>, ValueModel)>::empty());
        assert(ctx_of(scope@, sr) == empty_ctx());
        assert(owned@ == name@);
        assert(answered(env, t));
    }
    r
}

} // verus!
