use std::collections::HashMap;

use lib::{
    contains_value, eval_exists, eval_forall, tokenize, value_eq, BoundValue, EnumInfo, Env, EvalError, Expr,
    IntervalValue, OrderInfo, Parser, SetValue, Span, TypeTag, Value,
};

fn ints(xs: &[i64]) -> Value {
    Value::SetOf(SetValue { elem_type: TypeTag::Int, elements: xs.iter().map(|x| Value::Int(*x)).collect() })
}

fn status(v: &str) -> Value {
    Value::Enum { type_id: "core.Status".to_string(), variant: v.to_string() }
}

#[test]
fn value_equality_by_kind() {
    assert_eq!(value_eq(&Value::Int(1), &Value::Int(1)), Ok(true));
    assert_eq!(value_eq(&Value::Bool(true), &Value::Bool(false)), Ok(false));
    assert_eq!(value_eq(&Value::Str("a".to_string()), &Value::Str("a".to_string())), Ok(true));
    assert_eq!(value_eq(&status("Ready"), &status("Ready")), Ok(true));
    assert_eq!(
        value_eq(&status("Ready"), &Value::Enum { type_id: "other".to_string(), variant: "Ready".to_string() }),
        Err(EvalError::EqMismatch {
            left_ty: TypeTag::Enum("core.Status".to_string()),
            right_ty: TypeTag::Enum("other".to_string()),
            span: Span::default(),
        })
    );
    assert_eq!(value_eq(&ints(&[1, 2]), &ints(&[2, 1])), Ok(true));
    assert_eq!(value_eq(&ints(&[1, 2]), &ints(&[1])), Ok(false));
    assert_eq!(value_eq(&ints(&[1, 2]), &ints(&[1, 3])), Ok(false));
    assert!(matches!(value_eq(&Value::Unknown, &Value::Unknown), Err(EvalError::EqMismatch { .. })));
}

#[test]
fn scalar_equality_is_symmetric() {
    let samples = [Value::Int(0), Value::Int(5), Value::Int(-5)];
    for a in samples.iter() {
        assert_eq!(value_eq(a, a), Ok(true));
        for b in samples.iter() {
            assert_eq!(value_eq(a, b), value_eq(b, a));
        }
    }
}

#[test]
fn contains_value_searches_in_order() {
    let hay = vec![Value::Int(1), Value::Int(2)];
    assert_eq!(contains_value(&hay, &Value::Int(2)), Ok(true));
    assert_eq!(contains_value(&hay, &Value::Int(3)), Ok(false));
    assert_eq!(contains_value(&[], &Value::Bool(true)), Ok(false));
    assert!(matches!(contains_value(&hay, &Value::Bool(true)), Err(EvalError::EqMismatch { .. })));
}

#[test]
fn type_tags_of_values() {
    assert_eq!(Value::Int(1).type_tag(), TypeTag::Int);
    assert_eq!(Value::Bool(true).type_tag(), TypeTag::Bool);
    assert_eq!(Value::Str("s".to_string()).type_tag(), TypeTag::Str);
    assert_eq!(status("Ready").type_tag(), TypeTag::Enum("core.Status".to_string()));
    assert_eq!(ints(&[]).type_tag(), TypeTag::set(TypeTag::Int));
    assert_eq!(TypeTag::set(TypeTag::Int), TypeTag::SetOf(Box::new(TypeTag::Int)));
    let interval = Value::Interval(Box::new(IntervalValue { elem_type: TypeTag::Int, lo: BoundValue::NegInf, hi: BoundValue::PosInf }));
    assert_eq!(interval.type_tag(), TypeTag::interval(TypeTag::Int));
    assert_eq!(TypeTag::interval(TypeTag::Bool), TypeTag::Interval(Box::new(TypeTag::Bool)));
    assert_eq!(Value::Object("o".to_string()).type_tag(), TypeTag::Unknown);
    assert_eq!(Value::Unknown.type_tag(), TypeTag::Unknown);
}

#[derive(Default)]
struct SetsEnv {
    sets: HashMap<String, Vec<Value>>,
}

impl SetsEnv {
    fn with_set(mut self, name: &str, values: Vec<Value>) -> Self {
        self.sets.insert(name.to_string(), values);
        self
    }
}

impl Env for SetsEnv {
    fn get_ident(&self, _name: &str) -> Option<Value> {
        None
    }

    fn get_field(&self, _base: &Value, _field: &str) -> Option<Value> {
        None
    }

    fn enum_info(&self, _type_id: &str) -> Option<EnumInfo> {
        None
    }

    fn default_order(&self, _type_id: &str) -> Option<OrderInfo> {
        None
    }

    fn named_order(&self, _order_id: &str) -> Option<OrderInfo> {
        None
    }

    fn finite_set(&self, name: &str) -> Option<Vec<Value>> {
        self.sets.get(name).cloned()
    }

    fn semiring(&self, _name: &str) -> Option<lib::SemiringOps> {
        None
    }

    fn lattice_ops(&self, _type_id: &str) -> Option<lib::LatticeOps> {
        None
    }

    fn current_semiring(&self) -> Option<lib::SemiringOps> {
        None
    }

    fn order_cmp(&self, _order: &lib::OrderInfo, _a: &Value, _b: &Value) -> lib::Comparison {
        lib::Comparison::Equal
    }

    fn semiring_oplus(&self, _ops: &lib::SemiringOps, _a: &Value, _b: &Value) -> Result<Value, lib::EvalError> {
        Err(lib::EvalError::SemiringMissing { span: lib::Span::default() })
    }

    fn lattice_meet(&self, _ops: &lib::LatticeOps, _a: &Value, _b: &Value) -> Result<Value, lib::EvalError> {
        Err(lib::EvalError::LatticeRequired { ty: lib::TypeTag::Unknown, span: lib::Span::default() })
    }

    fn lattice_join(&self, _ops: &lib::LatticeOps, _a: &Value, _b: &Value) -> Result<Value, lib::EvalError> {
        Err(lib::EvalError::LatticeRequired { ty: lib::TypeTag::Unknown, span: lib::Span::default() })
    }
}

fn parse_expr(src: &str) -> Expr {
    let tokens = tokenize(src).expect("tokenize");
    let mut parser = Parser::new(&tokens);
    parser.parse_expr().expect("parse")
}

fn nums() -> SetsEnv {
    SetsEnv::default().with_set("nums", vec![Value::Int(1), Value::Int(2), Value::Int(3)]).with_set("none", vec![])
}

#[test]
fn quantifiers_find_counterexamples_and_witnesses() {
    let env = nums();
    assert_eq!(eval_forall("x", "nums", &parse_expr("x > 1"), &env), Ok(false));
    assert_eq!(eval_exists("x", "nums", &parse_expr("x > 3"), &env), Ok(false));
    assert_eq!(eval_exists("x", "nums", &parse_expr("x * x == 9"), &env), Ok(true));
}

#[test]
fn quantifiers_over_an_empty_collection() {
    let env = nums();
    assert_eq!(eval_forall("x", "none", &parse_expr("x > 100"), &env), Ok(true));
    assert_eq!(eval_exists("x", "none", &parse_expr("x > 100"), &env), Ok(false));
}

#[test]
fn forall_is_not_exists_not() {
    let env = nums();
    for p in ["x > 0", "x > 1", "x == 2", "x < 0"] {
        let forall = eval_forall("x", "nums", &parse_expr(p), &env).expect("forall");
        let exists_not = eval_exists("x", "nums", &parse_expr(&format!("!({})", p)), &env).expect("exists");
        assert_eq!(forall, !exists_not);
    }
}

#[test]
fn quantifier_predicates_must_be_boolean() {
    let env = nums();
    assert_eq!(
        eval_forall("x", "nums", &parse_expr("x + 1"), &env),
        Err(EvalError::QuantifierTypeMismatch { quantifier: "forall", found: TypeTag::Int, span: Span::default() })
    );
    assert_eq!(
        eval_exists("x", "nums", &parse_expr("x"), &env),
        Err(EvalError::QuantifierTypeMismatch { quantifier: "exists", found: TypeTag::Int, span: Span::default() })
    );
    assert_eq!(
        eval_exists("x", "nums", &parse_expr("y"), &env),
        Err(EvalError::UnknownIdent { name: "y".to_string(), span: Span::default() })
    );
    assert_eq!(
        eval_exists("x", "gone", &parse_expr("x"), &env),
        Err(EvalError::CollectionUnknown { name: "gone".to_string(), span: Span::default() })
    );
}

#[test]
fn exists_is_not_forall_not() {
    let env = nums();
    for p in ["x > 0", "x > 1", "x == 2", "x < 0", "x * x == 9", "y > 0"] {
        let exists = eval_exists("x", "nums", &parse_expr(p), &env);
        let forall_not = eval_forall("x", "nums", &parse_expr(&format!("!({})", p)), &env);
        assert_eq!(exists, forall_not.map(|b| !b), "{}", p);
    }
    assert_eq!(eval_exists("x", "none", &parse_expr("x > 0"), &env), Ok(false));
    assert_eq!(eval_forall("x", "none", &parse_expr("!(x > 0)"), &env), Ok(true));
    assert_eq!(
        eval_exists("x", "gone", &parse_expr("x > 0"), &env),
        eval_forall("x", "gone", &parse_expr("!(x > 0)"), &env)
    );
}

#[test]
fn set_equality_is_two_way_containment() {
    let samples = [ints(&[]), ints(&[1]), ints(&[2]), ints(&[1, 2]), ints(&[2, 1]), ints(&[1, 3]), ints(&[3, 2, 1])];
    for a in samples.iter() {
        assert_eq!(value_eq(a, a), Ok(true));
        for b in samples.iter() {
            let (ea, eb) = match (a, b) {
                (Value::SetOf(x), Value::SetOf(y)) => (&x.elements, &y.elements),
                _ => unreachable!(),
            };
            let two_way = ea.iter().all(|x| eb.contains(x)) && eb.iter().all(|y| ea.contains(y));
            assert_eq!(value_eq(a, b), Ok(two_way));
            assert_eq!(value_eq(a, b), value_eq(b, a));
        }
    }
}

#[test]
fn nested_set_equality_is_two_way_containment() {
    let set_of = |xs: Vec<Value>| Value::SetOf(SetValue { elem_type: TypeTag::SetOf(Box::new(TypeTag::Int)), elements: xs });
    let a = set_of(vec![ints(&[1, 2]), ints(&[3])]);
    let b = set_of(vec![ints(&[3]), ints(&[2, 1])]);
    let c = set_of(vec![ints(&[3]), ints(&[2, 4])]);
    assert_eq!(value_eq(&a, &b), Ok(true));
    assert_eq!(value_eq(&b, &a), Ok(true));
    assert_eq!(value_eq(&a, &c), Ok(false));
    assert_eq!(value_eq(&c, &a), Ok(false));
    // Inner sets holding a value twice are outside the law: containment is then one-way.
    let d = set_of(vec![ints(&[1, 2])]);
    let e = set_of(vec![ints(&[1, 1])]);
    assert_eq!(value_eq(&d, &e), Ok(true));
    assert_eq!(value_eq(&e, &d), Ok(false));
}
