use lib::{tokenize, BOp, BoundExpr, Call, Expr, IdentPath, IntervalExpr, ParseError, Parser, SetOp, Span, Token, UOp};

fn parse(src: &str) -> Result<Expr, ParseError> {
    let tokens = tokenize(src).expect("tokenize");
    let mut parser = Parser::new(&tokens);
    parser.parse_expr()
}

fn num(n: i64) -> Expr {
    Expr::Int(n)
}

fn name(n: &str) -> Expr {
    Expr::Ident(IdentPath(vec![n.to_string()]))
}

fn bin(l: Expr, op: BOp, r: Expr) -> Expr {
    Expr::Binary { left: Box::new(l), op, right: Box::new(r) }
}

#[test]
fn multiplication_binds_tighter_than_addition() {
    assert_eq!(parse("1 + 2 * 3"), Ok(bin(num(1), BOp::Add, bin(num(2), BOp::Mul, num(3)))));
}

#[test]
fn subtraction_is_left_associative() {
    assert_eq!(parse("10 - 3 - 2"), Ok(bin(bin(num(10), BOp::Sub, num(3)), BOp::Sub, num(2))));
}

#[test]
fn parentheses_group() {
    assert_eq!(parse("(1 + 2) * 3"), Ok(bin(bin(num(1), BOp::Add, num(2)), BOp::Mul, num(3))));
}

#[test]
fn unary_operators() {
    assert_eq!(parse("-x"), Ok(Expr::Unary { op: UOp::Neg, expr: Box::new(name("x")) }));
    assert_eq!(parse("!true"), Ok(Expr::Unary { op: UOp::Not, expr: Box::new(Expr::Bool(true)) }));
    assert_eq!(parse("-2 * 3"), Ok(bin(Expr::Unary { op: UOp::Neg, expr: Box::new(num(2)) }, BOp::Mul, num(3))));
}

#[test]
fn comparison_binds_tighter_than_logic() {
    assert_eq!(
        parse("a < b && c || d"),
        Ok(bin(bin(bin(name("a"), BOp::Lt, name("b")), BOp::And, name("c")), BOp::Or, name("d")))
    );
    assert_eq!(parse("1 == 2 != false"), Ok(bin(bin(num(1), BOp::Eq, num(2)), BOp::Ne, Expr::Bool(false))));
}

#[test]
fn dotted_names_enum_variants_and_strings() {
    assert_eq!(parse("a.b.c"), Ok(Expr::Ident(IdentPath(vec!["a".to_string(), "b".to_string(), "c".to_string()]))));
    assert_eq!(
        parse("core.Status::Ready"),
        Ok(Expr::EnumVariant { ty: "core.Status".to_string(), variant: "Ready".to_string() })
    );
    assert_eq!(parse("\"s\""), Ok(Expr::Str("s".to_string())));
}

#[test]
fn calls_with_dotted_names() {
    assert_eq!(parse("f(1, 2)"), Ok(Expr::Call(Call { func: "f".to_string(), args: vec![num(1), num(2)] })));
    assert_eq!(parse("ns.f()"), Ok(Expr::Call(Call { func: "ns.f".to_string(), args: vec![] })));
}

#[test]
fn lambdas_with_any_number_of_parameters() {
    assert_eq!(
        parse("x -> x + 1"),
        Ok(Expr::Lambda { params: vec!["x".to_string()], body: Box::new(bin(name("x"), BOp::Add, num(1))) })
    );
    assert_eq!(
        parse("(a, b) -> a"),
        Ok(Expr::Lambda { params: vec!["a".to_string(), "b".to_string()], body: Box::new(name("a")) })
    );
    assert_eq!(parse("() -> 1"), Ok(Expr::Lambda { params: vec![], body: Box::new(num(1)) }));
}

#[test]
fn intervals_with_every_bound_kind() {
    assert_eq!(
        parse("[1, 3)"),
        Ok(Expr::Interval(IntervalExpr { lo: BoundExpr::Closed(Box::new(num(1))), hi: BoundExpr::Open(Box::new(num(3))) }))
    );
    assert_eq!(
        parse("(-inf, 5]"),
        Ok(Expr::Interval(IntervalExpr { lo: BoundExpr::NegInf, hi: BoundExpr::Closed(Box::new(num(5))) }))
    );
    assert_eq!(
        parse("(a, +inf)"),
        Ok(Expr::Interval(IntervalExpr { lo: BoundExpr::Open(Box::new(name("a"))), hi: BoundExpr::PosInf }))
    );
}

#[test]
fn set_literals_and_set_operators() {
    assert_eq!(parse("{}"), Ok(Expr::SetLiteral(vec![])));
    assert_eq!(parse("{1, 2}"), Ok(Expr::SetLiteral(vec![num(1), num(2)])));
    assert_eq!(
        parse("a union b intersect c"),
        Ok(Expr::SetOp {
            op: SetOp::Intersect,
            lhs: Box::new(Expr::SetOp { op: SetOp::Union, lhs: Box::new(name("a")), rhs: Box::new(name("b")) }),
            rhs: Box::new(name("c")),
        })
    );
    assert_eq!(parse("1 in s"), Ok(Expr::In { elem: Box::new(num(1)), set: Box::new(name("s")) }));
    assert_eq!(parse("card(s)"), Ok(Expr::Cardinality(Box::new(name("s")))));
}

#[test]
fn pipelines_and_semiring_scopes() {
    assert_eq!(
        parse("s |> f(1) |> g()"),
        Ok(Expr::Pipe {
            lhs: Box::new(Expr::Pipe { lhs: Box::new(name("s")), call: Call { func: "f".to_string(), args: vec![num(1)] } }),
            call: Call { func: "g".to_string(), args: vec![] },
        })
    );
    assert_eq!(
        parse("with_semiring a.b: 1 + 2"),
        Ok(Expr::WithSemiring { name: "a.b".to_string(), body: Box::new(bin(num(1), BOp::Add, num(2))) })
    );
}

#[test]
fn parse_stops_at_closing_delimiter() {
    let tokens = tokenize("1 + 2 ) 3").expect("tokenize");
    let mut parser = Parser::new(&tokens);
    assert_eq!(parser.parse_expr(), Ok(bin(num(1), BOp::Add, num(2))));
}

#[test]
fn parse_errors_carry_the_offending_span() {
    assert_eq!(parse(""), Err(ParseError::UnexpectedToken { span: Span { start: 0, end: 0 } }));
    assert_eq!(parse("1 +"), Err(ParseError::UnexpectedToken { span: Span { start: 3, end: 3 } }));
    assert_eq!(parse("(1"), Err(ParseError::ExpectedToken { expected: ")", span: Span { start: 2, end: 2 } }));
    assert_eq!(parse("{1 2}"), Err(ParseError::ExpectedToken { expected: "comma or '}'", span: Span { start: 3, end: 4 } }));
    assert_eq!(parse("f(1 2)"), Err(ParseError::ExpectedToken { expected: ", or )", span: Span { start: 4, end: 5 } }));
    assert_eq!(parse("a.1"), Err(ParseError::ExpectedToken { expected: "identifier", span: Span { start: 2, end: 3 } }));
    assert_eq!(parse("[1 2]"), Err(ParseError::ExpectedToken { expected: ",", span: Span { start: 3, end: 4 } }));
    assert_eq!(parse("[1, 2"), Err(ParseError::ExpectedToken { expected: ") or ]", span: Span { start: 5, end: 5 } }));
    assert_eq!(parse("with_semiring a 1"), Err(ParseError::ExpectedToken { expected: ":", span: Span { start: 16, end: 17 } }));
    assert_eq!(parse("a::1"), Err(ParseError::ExpectedToken { expected: "variant", span: Span { start: 3, end: 4 } }));
    assert_eq!(parse("s |> 1"), Err(ParseError::ExpectedToken { expected: "identifier", span: Span { start: 5, end: 6 } }));
}

#[test]
fn parse_without_tokens_reports_end_of_input() {
    let tokens: Vec<Token> = Vec::new();
    let mut parser = Parser::new(&tokens);
    assert_eq!(parser.parse_expr(), Err(ParseError::UnexpectedEof { span: Span { start: 0, end: 0 } }));
}

#[test]
fn parse_never_reports_a_missing_operand() {
    for src in ["", "1 +", "(", "[", "{", "f(", "a.", "a::", "x ->", "(a, b) ->", "with_semiring", "card", "card(1", "s |>", ")", "1 2", "[1, 2 3]", "(1, 2"] {
        let tokens = tokenize(src).expect("tokenize");
        let mut parser = Parser::new(&tokens);
        match parser.parse_expr() {
            Err(ParseError::ExpectedOperand { .. }) => panic!("missing operand reported for {:?}", src),
            _ => {}
        }
    }
}

#[test]
fn operators_group_by_precedence_then_to_the_left() {
    // Binding powers, loosest first: `||`, `&&`, set operations, `==` `!=`, comparisons and
    // `in`, `+` `-`, `*` `/` `%`.
    let ops: [(&str, u8, BOp); 11] = [
        ("||", 1, BOp::Or),
        ("&&", 3, BOp::And),
        ("==", 5, BOp::Eq),
        ("!=", 5, BOp::Ne),
        ("<", 7, BOp::Lt),
        ("<=", 7, BOp::Le),
        ("+", 9, BOp::Add),
        ("-", 9, BOp::Sub),
        ("*", 11, BOp::Mul),
        ("/", 11, BOp::Div),
        ("%", 11, BOp::Rem),
    ];
    for (s1, p1, o1) in ops.iter() {
        for (s2, p2, o2) in ops.iter() {
            let src = format!("1 {} 2 {} 3", s1, s2);
            let expected = if p2 > p1 {
                bin(num(1), *o1, bin(num(2), *o2, num(3)))
            } else {
                bin(bin(num(1), *o1, num(2)), *o2, num(3))
            };
            assert_eq!(parse(&src), Ok(expected), "{}", src);
        }
    }
    assert_eq!(
        parse("1 == 2 union 3"),
        Ok(Expr::SetOp { op: SetOp::Union, lhs: Box::new(bin(num(1), BOp::Eq, num(2))), rhs: Box::new(num(3)) })
    );
}
