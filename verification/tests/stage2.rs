use std::collections::HashMap;

use lib::{eval, tokenize, Env, EvalError, Parser, Value};

#[derive(Default)]
struct TestEnv {
    idents: HashMap<String, Value>,
}

impl TestEnv {
    fn with_ident(mut self, name: &str, value: Value) -> Self {
        self.idents.insert(name.to_string(), value);
        self
    }
}

impl Env for TestEnv {
    fn get_ident(&self, name: &str) -> Option<Value> {
        self.idents.get(name).cloned()
    }

    fn get_field(&self, _base: &Value, _field: &str) -> Option<Value> {
        None
    }

    fn enum_info(&self, _type_id: &str) -> Option<lib::EnumInfo> {
        None
    }

    fn default_order(&self, _type_id: &str) -> Option<lib::OrderInfo> {
        None
    }

    fn named_order(&self, _order_id: &str) -> Option<lib::OrderInfo> {
        None
    }

    fn semiring(&self, _name: &str) -> Option<lib::SemiringOps> {
        None
    }

    fn lattice_ops(&self, _type_id: &str) -> Option<lib::LatticeOps> {
        None
    }

    fn current_semiring(&self) -> Option<lib::SemiringOps> {
        None
    }

    fn finite_set(&self, _name: &str) -> Option<Vec<Value>> {
        None
    }

    fn order_cmp(&self, _order: &lib::OrderInfo, _a: &Value, _b: &Value) -> lib::Comparison {
        lib::Comparison::Equal
    }

    fn semiring_oplus(&self, _ops: &lib::SemiringOps, _a: &Value, _b: &Value) -> Result<Value, lib::EvalError> {
        Err(lib::EvalError::SemiringMissing { span: lib::Span::default() })
    }

    fn lattice_meet(&self, _ops: &lib::LatticeOps, _a: &Value, _b: &Value) -> Result<Value, lib::EvalError> {
        Err(lib::EvalError::LatticeRequired { ty: lib::TypeTag::Unknown, span: lib::Span::default() })
    }

    fn lattice_join(&self, _ops: &lib::LatticeOps, _a: &Value, _b: &Value) -> Result<Value, lib::EvalError> {
        Err(lib::EvalError::LatticeRequired { ty: lib::TypeTag::Unknown, span: lib::Span::default() })
    }
}

fn parse_expr(src: &str) -> lib::Expr {
    let tokens = tokenize(src).expect("tokenize");
    let mut parser = Parser::new(&tokens);
    parser.parse_expr().expect("parse")
}

#[test]
fn interval_membership_inclusive_lower_exclusive_upper() {
    let expr = parse_expr("x in [1, 3)");
    let env = TestEnv::default().with_ident("x", Value::Int(2));
    let value = eval(&expr, &env).expect("eval");
    assert_eq!(value, Value::Bool(true));

    let env = TestEnv::default().with_ident("x", Value::Int(3));
    let value = eval(&expr, &env).expect("eval");
    assert_eq!(value, Value::Bool(false));
}

#[test]
fn interval_with_infinities_covers_all_ints() {
    let expr = parse_expr("x in (-inf, +inf)");
    let env = TestEnv::default().with_ident("x", Value::Int(-10));
    let value = eval(&expr, &env).expect("eval");
    assert_eq!(value, Value::Bool(true));
}

#[test]
fn interval_invalid_bounds_error() {
    let expr = parse_expr("[5, 3]");
    let err = eval(&expr, &TestEnv::default()).expect_err("expected error");
    assert!(matches!(err, EvalError::IntervalInvalidBounds { .. }));
}

#[test]
fn interval_type_mismatch_error() {
    let expr = parse_expr("[1, true]");
    let err = eval(&expr, &TestEnv::default()).expect_err("expected error");
    assert!(matches!(err, EvalError::IntervalTypeMismatch { .. }));
}
