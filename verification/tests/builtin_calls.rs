use std::collections::HashMap;

use lib::{
    apply, eval, tokenize, EnumInfo, Env, EvalError, Expr, LambdaValue, LatticeOps, OrderInfo, Parser, SemiringOps,
    SetValue, Span, TypeTag, Value,
};

#[derive(Default)]
struct TestEnv {
    idents: HashMap<String, Value>,
    lattice_everywhere: bool,
    current: Option<SemiringOps>,
    failing_oplus: bool,
}

impl Env for TestEnv {
    fn get_ident(&self, name: &str) -> Option<Value> {
        self.idents.get(name).cloned()
    }

    fn get_field(&self, _base: &Value, _field: &str) -> Option<Value> {
        None
    }

    fn enum_info(&self, _type_id: &str) -> Option<EnumInfo> {
        None
    }

    fn default_order(&self, _type_id: &str) -> Option<OrderInfo> {
        None
    }

    fn named_order(&self, _order_id: &str) -> Option<OrderInfo> {
        None
    }

    fn semiring(&self, name: &str) -> Option<SemiringOps> {
        if name == "core.Sum" {
            Some(sum_semiring())
        } else {
            None
        }
    }

    fn current_semiring(&self) -> Option<SemiringOps> {
        self.current.clone()
    }

    fn semiring_oplus(&self, _ops: &SemiringOps, a: &Value, b: &Value) -> Result<Value, EvalError> {
        if self.failing_oplus {
            return Err(EvalError::Other { message: "no sum".to_string(), span: Span::default() });
        }
        match (a, b) {
            (Value::Int(x), Value::Int(y)) => Ok(Value::Int(x + y)),
            _ => Err(EvalError::TypeMismatch { op: "oplus", left: TypeTag::Int, right: TypeTag::Int, span: Span::default() }),
        }
    }

    fn lattice_ops(&self, type_id: &str) -> Option<LatticeOps> {
        if self.lattice_everywhere || type_id == "core.Int" {
            Some(LatticeOps { type_id: type_id.to_string(), has_top: false, has_bottom: false, top: None, bottom: None })
        } else {
            None
        }
    }

    fn lattice_meet(&self, _ops: &LatticeOps, a: &Value, b: &Value) -> Result<Value, EvalError> {
        match (a, b) {
            (Value::Int(x), Value::Int(y)) => Ok(Value::Int(*x.min(y))),
            _ => Err(EvalError::LatticeRequired { ty: TypeTag::Int, span: Span::default() }),
        }
    }

    fn lattice_join(&self, _ops: &LatticeOps, a: &Value, b: &Value) -> Result<Value, EvalError> {
        match (a, b) {
            (Value::Int(x), Value::Int(y)) => Ok(Value::Int(*x.max(y))),
            _ => Err(EvalError::LatticeRequired { ty: TypeTag::Int, span: Span::default() }),
        }
    }

    fn finite_set(&self, _name: &str) -> Option<Vec<Value>> {
        None
    }

    fn order_cmp(&self, _order: &lib::OrderInfo, _a: &Value, _b: &Value) -> lib::Comparison {
        lib::Comparison::Equal
    }
}

fn sum_semiring() -> SemiringOps {
    SemiringOps {
        name: "core.Sum".to_string(),
        zero: Value::Int(0),
        one: Value::Int(1),
        idempotent_oplus: false,
        commutative_otimes: true,
    }
}

fn parse_expr(src: &str) -> Expr {
    let tokens = tokenize(src).expect("tokenize");
    let mut parser = Parser::new(&tokens);
    parser.parse_expr().expect("parse")
}

fn run_in(src: &str, env: &TestEnv) -> Result<Value, EvalError> {
    eval(&parse_expr(src), env)
}

fn run(src: &str) -> Result<Value, EvalError> {
    run_in(src, &TestEnv::default())
}

fn ints(xs: &[i64]) -> Value {
    Value::SetOf(SetValue { elem_type: TypeTag::Int, elements: xs.iter().map(|x| Value::Int(*x)).collect() })
}

#[test]
fn lambdas_capture_free_names() {
    let mut env = TestEnv::default();
    env.idents.insert("y".to_string(), Value::Int(10));
    assert_eq!(run_in("map({1, 2}, x -> x + y)", &env), Ok(ints(&[11, 12])));
    match run_in("x -> x + y", &env) {
        Ok(Value::Lambda(l)) => {
            assert_eq!(l.params, vec!["x".to_string()]);
            assert_eq!(l.captures, vec![("y".to_string(), Value::Int(10))]);
        }
        other => panic!("unexpected {:?}", other),
    }
    assert_eq!(
        run_in("x -> x + z", &env),
        Err(EvalError::LambdaCaptureUnknown { name: "z".to_string(), span: Span::default() })
    );
}

#[test]
fn parameters_hide_outer_names() {
    let mut env = TestEnv::default();
    env.idents.insert("x".to_string(), Value::Int(100));
    assert_eq!(run_in("map({1}, x -> x)", &env), Ok(ints(&[1])));
    assert_eq!(run_in("map({1, 2}, x -> fold({10, 20}, x, (acc, y) -> acc + y))", &env), Ok(ints(&[31, 32])));
}

#[test]
fn map_keeps_each_result_once() {
    assert_eq!(run("map({1, 2, 3}, x -> x % 2)"), Ok(ints(&[1, 0])));
    assert_eq!(
        run("map({}, x -> x)"),
        Ok(Value::SetOf(SetValue { elem_type: TypeTag::Unknown, elements: vec![] }))
    );
}

#[test]
fn filter_keeps_elements_and_type() {
    assert_eq!(run("filter({1, 2, 3, 4}, x -> x % 2 == 0)"), Ok(ints(&[2, 4])));
    assert_eq!(run("filter({}, x -> true)"), Ok(Value::SetOf(SetValue { elem_type: TypeTag::Unknown, elements: vec![] })));
    assert_eq!(run("filter({1}, x -> false)"), Ok(ints(&[])));
    assert_eq!(
        run("filter({1}, x -> x)"),
        Err(EvalError::TypeMismatch { op: "filter", left: TypeTag::Int, right: TypeTag::Bool, span: Span::default() })
    );
}

#[test]
fn fold_threads_the_accumulator() {
    assert_eq!(run("fold({1, 2, 3}, 10, (acc, x) -> acc * x)"), Ok(Value::Int(60)));
    assert_eq!(run("fold({}, 7, (acc, x) -> acc + x)"), Ok(Value::Int(7)));
}

#[test]
fn builtin_argument_errors() {
    assert_eq!(
        run("map({1})"),
        Err(EvalError::LambdaArity { expected: 2, found: 1, span: Span::default() })
    );
    assert_eq!(
        run("fold({1}, 0, x -> x)"),
        Err(EvalError::LambdaArity { expected: 1, found: 2, span: Span::default() })
    );
    assert_eq!(
        run("map({1}, 5)"),
        Err(EvalError::LambdaType { param: "map".to_string(), expected: TypeTag::Lambda, found: TypeTag::Int, span: Span::default() })
    );
    assert_eq!(run("map(1, x -> x)"), Err(EvalError::InOnNonSet { rhs_ty: TypeTag::Int, span: Span::default() }));
    assert_eq!(run("foo(1)"), Err(EvalError::CallUnknown { func: "foo".to_string(), span: Span::default() }));
    assert_eq!(run("reduce_meet({1}, {2})"), Err(EvalError::LambdaArity { expected: 1, found: 2, span: Span::default() }));
}

#[test]
fn lattice_reductions() {
    assert_eq!(run("reduce_join({3, 9, 2})"), Ok(Value::Int(9)));
    assert_eq!(run("{4, 8} |> reduce_meet()"), Ok(Value::Int(4)));
    let env = TestEnv { lattice_everywhere: true, ..TestEnv::default() };
    match run_in("reduce_meet({})", &env) {
        Err(EvalError::Other { message, .. }) => assert_eq!(message, "lattice reduction on empty set"),
        other => panic!("unexpected {:?}", other),
    }
    assert_eq!(
        run("reduce_meet({\"a\"})"),
        Err(EvalError::LatticeRequired { ty: TypeTag::Str, span: Span::default() })
    );
}

#[test]
fn semiring_reductions() {
    assert_eq!(run("with_semiring core.Sum: reduce_semiring({1, 2, 3}, x -> x * x)"), Ok(Value::Int(14)));
    assert_eq!(run("with_semiring core.Nope: 1"), Err(EvalError::SemiringMissing { span: Span::default() }));
    let env = TestEnv { current: Some(sum_semiring()), ..TestEnv::default() };
    assert_eq!(run_in("reduce_semiring({5, 6}, x -> x)", &env), Ok(Value::Int(11)));
    assert_eq!(run_in("reduce_semiring({}, x -> x)", &env), Ok(Value::Int(0)));
    let failing = TestEnv { failing_oplus: true, ..TestEnv::default() };
    assert_eq!(
        run_in("with_semiring core.Sum: reduce_semiring({1}, x -> x)", &failing),
        Err(EvalError::Other { message: "no sum".to_string(), span: Span::default() })
    );
}

#[test]
fn apply_calls_a_builtin_directly() {
    let add = Value::Lambda(LambdaValue {
        params: vec!["a".to_string(), "b".to_string()],
        body: Box::new(parse_expr("a + b")),
        captures: vec![],
    });
    let env = TestEnv::default();
    assert_eq!(apply("fold", vec![ints(&[1, 2, 3]), Value::Int(0), add.clone()], &env), Ok(Value::Int(6)));
    assert_eq!(
        apply("map", vec![ints(&[1]), add], &env),
        Err(EvalError::LambdaArity { expected: 2, found: 1, span: Span::default() })
    );
    assert_eq!(apply("nope", vec![], &env), Err(EvalError::CallUnknown { func: "nope".to_string(), span: Span::default() }));
}

#[test]
fn deeply_nested_lambda_calls_are_evaluated() {
    let mut src = String::from("1");
    for _ in 0..300 {
        src = format!("fold({{1}}, 0, (a, b) -> {})", src);
    }
    assert_eq!(run(&src), Ok(Value::Int(1)));
}

#[test]
fn a_pipeline_is_the_call_with_the_piped_value_first() {
    let mut env = TestEnv::default();
    env.idents.insert("s".to_string(), ints(&[1, 2, 3]));
    let pairs = [
        ("s |> map(x -> x * 2)", "map(s, x -> x * 2)"),
        ("s |> filter(x -> x > 1)", "filter(s, x -> x > 1)"),
        ("s |> fold(0, (a, x) -> a + x)", "fold(s, 0, (a, x) -> a + x)"),
        ("{4, 8} |> reduce_meet()", "reduce_meet({4, 8})"),
        ("s |> map()", "map(s)"),
        ("1 |> fold(0, (a, x) -> a)", "fold(1, 0, (a, x) -> a)"),
        ("t |> map(x -> x)", "map(t, x -> x)"),
    ];
    for (piped, called) in pairs.iter() {
        assert_eq!(run_in(piped, &env), run_in(called, &env), "{}", piped);
    }
    assert_eq!(run_in("s |> map(x -> x * 2)", &env), Ok(ints(&[2, 4, 6])));
    assert_eq!(run_in("s |> fold(0, (a, x) -> a + x)", &env), Ok(Value::Int(6)));
}

#[test]
fn captured_names_are_listed_once() {
    let mut env = TestEnv::default();
    env.idents.insert("y".to_string(), Value::Int(10));
    env.idents.insert("z".to_string(), Value::Int(20));
    match run_in("x -> y + x + z + y + (z * y)", &env) {
        Ok(Value::Lambda(l)) => {
            assert_eq!(l.captures, vec![("y".to_string(), Value::Int(10)), ("z".to_string(), Value::Int(20))]);
        }
        other => panic!("unexpected {:?}", other),
    }
}
