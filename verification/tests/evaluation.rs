use std::collections::HashMap;

use lib::{
    eval, tokenize, Comparison, EnumInfo, Env, EvalError, Expr, OrderInfo, OrderKind, Parser, SetValue, TypeTag, Value,
};

#[derive(Default)]
struct TestEnv {
    idents: HashMap<String, Value>,
    enums: HashMap<String, EnumInfo>,
    ordered: bool,
}

impl TestEnv {
    fn with_ident(mut self, name: &str, value: Value) -> Self {
        self.idents.insert(name.to_string(), value);
        self
    }

    fn with_status(mut self) -> Self {
        self.enums.insert(
            "core.Status".to_string(),
            EnumInfo {
                type_id: "core.Status".to_string(),
                variants: vec!["Ready".to_string(), "Pending".to_string(), "Done".to_string()],
                aliases: vec![("OK".to_string(), "Ready".to_string()), ("Gone".to_string(), "Missing".to_string())],
            },
        );
        self
    }

    fn ordered(mut self) -> Self {
        self.ordered = true;
        self
    }

    fn rank(&self, v: &Value) -> Option<usize> {
        match v {
            Value::Enum { type_id, variant } => {
                let info = self.enums.get(type_id)?;
                info.variants.iter().position(|x| x == variant)
            }
            _ => None,
        }
    }
}

impl Env for TestEnv {
    fn get_ident(&self, name: &str) -> Option<Value> {
        self.idents.get(name).cloned()
    }

    fn get_field(&self, base: &Value, field: &str) -> Option<Value> {
        match (base, field) {
            (Value::Object(o), "x") if o == "point" => Some(Value::Int(3)),
            (Value::Object(o), "next") if o == "point" => Some(Value::Object("point".to_string())),
            _ => None,
        }
    }

    fn enum_info(&self, type_id: &str) -> Option<EnumInfo> {
        self.enums.get(type_id).cloned()
    }

    fn default_order(&self, type_id: &str) -> Option<OrderInfo> {
        if self.ordered && self.enums.contains_key(type_id) {
            Some(OrderInfo { order_id: "by_rank".to_string(), type_id: type_id.to_string(), kind: OrderKind::Total })
        } else {
            None
        }
    }

    fn named_order(&self, _order_id: &str) -> Option<OrderInfo> {
        None
    }

    fn order_cmp(&self, _order: &OrderInfo, a: &Value, b: &Value) -> Comparison {
        let (x, y) = (self.rank(a), self.rank(b));
        if x < y {
            Comparison::Less
        } else if x == y {
            Comparison::Equal
        } else {
            Comparison::Greater
        }
    }

    fn semiring(&self, _name: &str) -> Option<lib::SemiringOps> {
        None
    }

    fn lattice_ops(&self, _type_id: &str) -> Option<lib::LatticeOps> {
        None
    }

    fn current_semiring(&self) -> Option<lib::SemiringOps> {
        None
    }

    fn finite_set(&self, _name: &str) -> Option<Vec<Value>> {
        None
    }

    fn semiring_oplus(&self, _ops: &lib::SemiringOps, _a: &Value, _b: &Value) -> Result<Value, lib::EvalError> {
        Err(lib::EvalError::SemiringMissing { span: lib::Span::default() })
    }

    fn lattice_meet(&self, _ops: &lib::LatticeOps, _a: &Value, _b: &Value) -> Result<Value, lib::EvalError> {
        Err(lib::EvalError::LatticeRequired { ty: lib::TypeTag::Unknown, span: lib::Span::default() })
    }

    fn lattice_join(&self, _ops: &lib::LatticeOps, _a: &Value, _b: &Value) -> Result<Value, lib::EvalError> {
        Err(lib::EvalError::LatticeRequired { ty: lib::TypeTag::Unknown, span: lib::Span::default() })
    }
}

fn parse_expr(src: &str) -> Expr {
    let tokens = tokenize(src).expect("tokenize");
    let mut parser = Parser::new(&tokens);
    parser.parse_expr().expect("parse")
}

fn run(src: &str) -> Result<Value, EvalError> {
    eval(&parse_expr(src), &TestEnv::default())
}

fn run_in(src: &str, env: &TestEnv) -> Result<Value, EvalError> {
    eval(&parse_expr(src), env)
}

fn ints(elem_type: TypeTag, xs: &[i64]) -> Value {
    Value::SetOf(SetValue { elem_type, elements: xs.iter().map(|x| Value::Int(*x)).collect() })
}

#[test]
fn arithmetic_follows_precedence() {
    assert_eq!(run("1 + 2 * 3"), Ok(Value::Int(7)));
    assert_eq!(run("(1 + 2) * 3"), Ok(Value::Int(9)));
    assert_eq!(run("10 - 3 - 2"), Ok(Value::Int(5)));
    assert_eq!(run("-(4)"), Ok(Value::Int(-4)));
}

#[test]
fn division_truncates_toward_zero() {
    assert_eq!(run("7 / 2"), Ok(Value::Int(3)));
    assert_eq!(run("-7 / 2"), Ok(Value::Int(-3)));
    assert_eq!(run("7 / -2"), Ok(Value::Int(-3)));
    assert_eq!(run("-7 / -2"), Ok(Value::Int(3)));
    assert_eq!(run("7 % 3"), Ok(Value::Int(1)));
    assert_eq!(run("-7 % 3"), Ok(Value::Int(-1)));
    assert_eq!(run("7 % -3"), Ok(Value::Int(1)));
}

#[test]
fn division_identity_holds_on_samples() {
    for a in [-9i64, -7, -1, 0, 1, 5, 8] {
        for b in [-4i64, -3, -1, 1, 2, 3] {
            let q = match run(&format!("({}) / ({})", a, b)) {
                Ok(Value::Int(q)) => q,
                other => panic!("unexpected {:?}", other),
            };
            let r = match run(&format!("({}) % ({})", a, b)) {
                Ok(Value::Int(r)) => r,
                other => panic!("unexpected {:?}", other),
            };
            assert_eq!(a, b * q + r);
            assert!(r.abs() < b.abs());
            assert!(r == 0 || (r < 0) == (a < 0));
        }
    }
}

#[test]
fn division_by_zero_errors() {
    assert!(matches!(run("1 / 0"), Err(EvalError::DivideByZero { .. })));
    assert!(matches!(run("1 % 0"), Err(EvalError::DivideByZero { .. })));
}

#[test]
fn integer_overflow_is_an_error() {
    for src in ["9223372036854775807 + 1", "-9223372036854775807 - 2", "9223372036854775807 * 2"] {
        match run(src) {
            Err(EvalError::Other { message, .. }) => assert_eq!(message, "integer overflow"),
            other => panic!("unexpected {:?}", other),
        }
    }
    let min = Value::Int(i64::MIN);
    let env = TestEnv::default().with_ident("m", min);
    for src in ["-m", "m / -1", "m % -1"] {
        match run_in(src, &env) {
            Err(EvalError::Other { message, .. }) => assert_eq!(message, "integer overflow"),
            other => panic!("unexpected {:?}", other),
        }
    }
}

#[test]
fn operators_check_operand_types() {
    assert_eq!(
        run("1 + true"),
        Err(EvalError::TypeMismatch { op: "+", left: TypeTag::Int, right: TypeTag::Bool, span: Default::default() })
    );
    assert_eq!(
        run("!1"),
        Err(EvalError::TypeMismatch { op: "!", left: TypeTag::Int, right: TypeTag::Bool, span: Default::default() })
    );
    assert_eq!(
        run("-true"),
        Err(EvalError::TypeMismatch { op: "-", left: TypeTag::Bool, right: TypeTag::Int, span: Default::default() })
    );
    assert_eq!(
        run("true < false"),
        Err(EvalError::TypeMismatch { op: "cmp", left: TypeTag::Bool, right: TypeTag::Bool, span: Default::default() })
    );
    assert_eq!(
        run("1 && true"),
        Err(EvalError::TypeMismatch { op: "&&", left: TypeTag::Int, right: TypeTag::Bool, span: Default::default() })
    );
}

#[test]
fn comparisons_and_logic() {
    assert_eq!(run("1 < 2"), Ok(Value::Bool(true)));
    assert_eq!(run("2 <= 2"), Ok(Value::Bool(true)));
    assert_eq!(run("1 > 2"), Ok(Value::Bool(false)));
    assert_eq!(run("3 >= 4"), Ok(Value::Bool(false)));
    assert_eq!(run("1 != 2"), Ok(Value::Bool(true)));
    assert_eq!(run("\"a\" == \"a\""), Ok(Value::Bool(true)));
    assert_eq!(run("true && false || true"), Ok(Value::Bool(true)));
}

#[test]
fn equality_of_incomparable_values_errors() {
    assert_eq!(
        run("1 == true"),
        Err(EvalError::EqMismatch { left_ty: TypeTag::Int, right_ty: TypeTag::Bool, span: Default::default() })
    );
    assert!(matches!(run("[1, 2] == [1, 2]"), Err(EvalError::EqMismatch { .. })));
}

#[test]
fn names_and_fields_come_from_the_environment() {
    let env = TestEnv::default().with_ident("p", Value::Object("point".to_string())).with_ident("n", Value::Int(4));
    assert_eq!(run_in("n * 2", &env), Ok(Value::Int(8)));
    assert_eq!(run_in("p.x", &env), Ok(Value::Int(3)));
    assert_eq!(run_in("p.next.next.x", &env), Ok(Value::Int(3)));
    assert_eq!(
        run_in("p.y", &env),
        Err(EvalError::UnknownField { base: "Unknown".to_string(), field: "y".to_string(), span: Default::default() })
    );
    assert_eq!(
        run_in("n.y", &env),
        Err(EvalError::UnknownField { base: "Int".to_string(), field: "y".to_string(), span: Default::default() })
    );
    assert_eq!(run_in("q", &env), Err(EvalError::UnknownIdent { name: "q".to_string(), span: Default::default() }));
}

#[test]
fn enum_variants_and_aliases() {
    let env = TestEnv::default().with_status();
    assert_eq!(
        run_in("core.Status::Pending", &env),
        Ok(Value::Enum { type_id: "core.Status".to_string(), variant: "Pending".to_string() })
    );
    assert_eq!(
        run_in("core.Status::OK", &env),
        Ok(Value::Enum { type_id: "core.Status".to_string(), variant: "OK".to_string() })
    );
    assert_eq!(
        run_in("core.Status::Gone", &env),
        Err(EvalError::EnumUnknownVariant {
            type_id: "core.Status".to_string(),
            variant: "Gone".to_string(),
            span: Default::default(),
        })
    );
    assert_eq!(run_in("core.Status::Ready != core.Status::Done", &env), Ok(Value::Bool(true)));
}

#[test]
fn enum_comparisons_use_the_default_order() {
    let env = TestEnv::default().with_status().ordered();
    assert_eq!(run_in("core.Status::Ready < core.Status::Done", &env), Ok(Value::Bool(true)));
    assert_eq!(run_in("core.Status::Done <= core.Status::Pending", &env), Ok(Value::Bool(false)));
    assert_eq!(run_in("core.Status::Pending in [core.Status::Ready, core.Status::Done]", &env), Ok(Value::Bool(true)));
    let unordered = TestEnv::default().with_status();
    assert_eq!(
        run_in("core.Status::Ready < core.Status::Done", &unordered),
        Err(EvalError::OrderMissing { ty: TypeTag::Enum("core.Status".to_string()), span: Default::default() })
    );
}

#[test]
fn infinity_outside_an_interval_errors() {
    assert_eq!(
        run("+inf"),
        Err(EvalError::IntervalInfiniteUnsupported { ty: TypeTag::Unknown, span: Default::default() })
    );
}

#[test]
fn intervals_check_bounds_and_types() {
    assert_eq!(run("2 in (1, 3)"), Ok(Value::Bool(true)));
    assert_eq!(run("1 in (1, 3)"), Ok(Value::Bool(false)));
    assert_eq!(run("3 in (1, 3]"), Ok(Value::Bool(true)));
    assert_eq!(run("-100 in (-inf, 0]"), Ok(Value::Bool(true)));
    assert_eq!(run("5 in [2, +inf)"), Ok(Value::Bool(true)));
    assert!(matches!(run("(3, 1)"), Err(EvalError::IntervalInvalidBounds { .. })));
    assert!(matches!(run("[+inf, 3]"), Err(EvalError::IntervalInvalidBounds { .. })));
    assert!(matches!(run("true in [1, 2]"), Err(EvalError::IntervalTypeMismatch { .. })));
    assert_eq!(run("[true, false]"), Err(EvalError::OrderMissing { ty: TypeTag::Bool, span: Default::default() }));
    assert!(matches!(run("(-inf, +inf)"), Ok(Value::Interval(_))));
}

#[test]
fn sets_keep_order_and_apply_operators() {
    assert_eq!(run("{1, 2} intersect {2, 3}"), Ok(ints(TypeTag::Int, &[2])));
    assert_eq!(run("{1, 2, 3} diff {2}"), Ok(ints(TypeTag::Int, &[1, 3])));
    assert_eq!(run("{3, 1} union {1, 2}"), Ok(ints(TypeTag::Int, &[3, 1, 2])));
    assert_eq!(run("{} union {1}"), Ok(ints(TypeTag::Int, &[1])));
    assert_eq!(run("card({1, 1})"), Ok(Value::Int(2)));
    assert_eq!(run("card({1, 1} union {})"), Ok(Value::Int(1)));
    assert_eq!(run("{1, 2} == {2, 1}"), Ok(Value::Bool(true)));
    assert_eq!(run("{1, 2} == {1}"), Ok(Value::Bool(false)));
}

#[test]
fn set_errors() {
    assert_eq!(
        run("{1} union {true}"),
        Err(EvalError::SetTypeMismatch { lhs_ty: TypeTag::Int, rhs_ty: TypeTag::Bool, span: Default::default() })
    );
    assert_eq!(run("{1} union 2"), Err(EvalError::InOnNonSet { rhs_ty: TypeTag::Int, span: Default::default() }));
    assert_eq!(run("1 in 2"), Err(EvalError::InOnNonSet { rhs_ty: TypeTag::Int, span: Default::default() }));
    assert_eq!(run("card(1)"), Err(EvalError::InOnNonSet { rhs_ty: TypeTag::Int, span: Default::default() }));
    assert!(matches!(run("1 in {true}"), Err(EvalError::EqMismatch { .. })));
}

#[test]
fn set_literal_takes_the_first_known_element_type() {
    let env = TestEnv::default().with_ident("u", Value::Unknown);
    assert_eq!(
        run_in("{u, 1}", &env),
        Ok(Value::SetOf(SetValue { elem_type: TypeTag::Int, elements: vec![Value::Unknown, Value::Int(1)] }))
    );
    assert_eq!(
        run("{{1}, {2}}"),
        Ok(Value::SetOf(SetValue {
            elem_type: TypeTag::set(TypeTag::Int),
            elements: vec![ints(TypeTag::Int, &[1]), ints(TypeTag::Int, &[2])],
        }))
    );
}

/// An environment that must not be asked anything.
struct SilentEnv;

impl Env for SilentEnv {
    fn get_ident(&self, _name: &str) -> Option<Value> {
        panic!("asked for a name")
    }

    fn get_field(&self, _base: &Value, _field: &str) -> Option<Value> {
        panic!("asked for a field")
    }

    fn enum_info(&self, _type_id: &str) -> Option<EnumInfo> {
        panic!("asked for an enum")
    }

    fn default_order(&self, _type_id: &str) -> Option<OrderInfo> {
        panic!("asked for an order")
    }

    fn named_order(&self, _order_id: &str) -> Option<OrderInfo> {
        panic!("asked for an order")
    }

    fn semiring(&self, _name: &str) -> Option<lib::SemiringOps> {
        panic!("asked the environment")
    }

    fn lattice_ops(&self, _type_id: &str) -> Option<lib::LatticeOps> {
        panic!("asked the environment")
    }

    fn current_semiring(&self) -> Option<lib::SemiringOps> {
        panic!("asked the environment")
    }

    fn finite_set(&self, _name: &str) -> Option<Vec<Value>> {
        panic!("asked the environment")
    }

    fn order_cmp(&self, _order: &lib::OrderInfo, _a: &Value, _b: &Value) -> lib::Comparison {
        panic!("asked the environment")
    }

    fn semiring_oplus(&self, _ops: &lib::SemiringOps, _a: &Value, _b: &Value) -> Result<Value, lib::EvalError> {
        panic!("asked the environment")
    }

    fn lattice_meet(&self, _ops: &lib::LatticeOps, _a: &Value, _b: &Value) -> Result<Value, lib::EvalError> {
        panic!("asked the environment")
    }

    fn lattice_join(&self, _ops: &lib::LatticeOps, _a: &Value, _b: &Value) -> Result<Value, lib::EvalError> {
        panic!("asked the environment")
    }
}

#[test]
fn literal_expressions_never_consult_the_environment() {
    let expr = parse_expr("card({1, 2} union {3}) * 2 + (4 in [1, 5)) == 6 ");
    assert!(eval(&expr, &SilentEnv).is_err());
    let expr = parse_expr("card({1, 2} union {3}) * 2 == 6 && 4 in [1, 5) && \"a\" != \"b\"");
    assert_eq!(eval(&expr, &SilentEnv), Ok(Value::Bool(true)));
}

#[test]
fn unknown_field_names_the_base_type_as_debug_text() {
    let env = TestEnv::default()
        .with_status()
        .with_ident("s", ints(TypeTag::Int, &[1]))
        .with_ident("ss", Value::SetOf(SetValue { elem_type: TypeTag::SetOf(Box::new(TypeTag::Int)), elements: vec![] }))
        .with_ident("st", Value::Enum { type_id: "core.\"Status\"".to_string(), variant: "Ready".to_string() });
    let field_error = |base: &str| Err(EvalError::UnknownField { base: base.to_string(), field: "f".to_string(), span: Default::default() });
    assert_eq!(run_in("s.f", &env), field_error("Set(Int)"));
    assert_eq!(run_in("ss.f", &env), field_error("Set(Set(Int))"));
    assert_eq!(run_in("st.f", &env), field_error("Enum(\"core.\\\"Status\\\"\")"));
}

#[test]
fn set_operations_keep_the_order_of_their_operands() {
    assert_eq!(run("{3, 1, 3} union {2, 3, 4}"), Ok(ints(TypeTag::Int, &[3, 1, 2, 4])));
    assert_eq!(run("{3, 1, 2, 3} intersect {2, 3}"), Ok(ints(TypeTag::Int, &[3, 2])));
    assert_eq!(run("{3, 1, 2, 1} diff {2}"), Ok(ints(TypeTag::Int, &[3, 1, 1])));
}
