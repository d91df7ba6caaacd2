use c_compiler::{parse, BinOp, Expr, ParseError, Statement, Token};

fn body_of(src: &str) -> Vec<Statement> {
    let mut p = parse(src).unwrap();
    assert_eq!(p.functions.len(), 1);
    p.functions.remove(0).body
}

fn returned(src: &str) -> Expr {
    let mut body = body_of(src);
    match body.remove(0) {
        Statement::Return(Some(e)) => e,
        other => panic!("not a return: {:?}", other),
    }
}

#[test]
fn parse_precedence_and_left_associativity() {
    let e = returned("int main() { return 1 + 2 * 3 - 4; }");
    assert_eq!(
        format!("{:?}", e),
        "BinOp { op: Sub, left: BinOp { op: Add, left: Number(1), right: BinOp { op: Mul, left: Number(2), right: Number(3) } }, right: Number(4) }"
    );
}

#[test]
fn parse_logical_operators_bind_loosest() {
    let e = returned("int main() { return a < b && c == d || !e; }");
    match e {
        Expr::BinOp { op: BinOp::OrOr, left, right } => {
            assert!(matches!(*left, Expr::BinOp { op: BinOp::AndAnd, .. }));
            assert!(matches!(*right, Expr::UnaryOp { .. }));
        }
        other => panic!("unexpected {:?}", other),
    }
}

#[test]
fn parse_assignment_and_calls() {
    let e = returned("int main() { return x = f(1, g(), y); }");
    assert_eq!(
        format!("{:?}", e),
        "Assign { name: \"x\", value: Call { name: \"f\", args: [Number(1), Call { name: \"g\", args: [] }, Ident(\"y\")] } }"
    );
}

#[test]
fn parse_statements() {
    let body = body_of(
        "int main(int a, int b) { int x; int y = 2; if (a) { x = 1; } else { x = 2; } \
         while (x < 10) { x = x + 1; } for (int i = 0; i < 3; i = i + 1) { y = y * 2; } return; }",
    );
    assert_eq!(body.len(), 6);
    assert!(matches!(body[0], Statement::Decl { .. }));
    assert!(matches!(body[1], Statement::DeclInit { .. }));
    assert!(matches!(body[2], Statement::If { else_body: Some(_), .. }));
    assert!(matches!(body[3], Statement::While { .. }));
    assert!(matches!(body[4], Statement::For { init: Some(_), cond: Some(_), step: Some(_), .. }));
    assert!(matches!(body[5], Statement::Return(None)));
}

#[test]
fn parse_function_parameters() {
    let p = parse("int f(int a, int b, int c) { } int g() { }").unwrap();
    assert_eq!(p.functions.len(), 2);
    assert_eq!(p.functions[0].name, "f");
    assert_eq!(p.functions[0].params, vec!["a".to_string(), "b".to_string(), "c".to_string()]);
    assert!(p.functions[1].params.is_empty());
}

#[test]
fn parse_missing_semicolon() {
    match parse("int main() { return 1 }") {
        Err(ParseError::Expected { want: Token::Semicolon, got: Some(Token::RBrace) }) => {}
        other => panic!("unexpected {:?}", other),
    }
}

#[test]
fn parse_empty_for_header() {
    // init, condition and step of a for header may each be empty
    let program = parse("int main() { for (;;) { } }").unwrap();
    let body = &program.functions[0].body;
    assert_eq!(body.len(), 1);
    match &body[0] {
        Statement::For { init: None, cond: None, step: None, body } => assert!(body.is_empty()),
        other => panic!("unexpected {:?}", other),
    }
}

#[test]
fn parse_for_without_step() {
    let program = parse("int main() { int i; for (i = 0; i < 3;) { i = i + 1; } }").unwrap();
    match &program.functions[0].body[1] {
        Statement::For { init: Some(_), cond: Some(_), step: None, body } => assert_eq!(body.len(), 1),
        other => panic!("unexpected {:?}", other),
    }
}

#[test]
fn parse_expected_expression_at_end() {
    match parse("int main() { return") {
        Err(ParseError::ExpectedExpression { got: None }) => {}
        other => panic!("unexpected {:?}", other),
    }
}

#[test]
fn parse_expected_identifier() {
    match parse("int 5() { }") {
        Err(ParseError::ExpectedIdent { got: Some(Token::Number(5)) }) => {}
        other => panic!("unexpected {:?}", other),
    }
}

#[test]
fn parse_lex_error() {
    match parse("int main() { return 1 @ 2; }") {
        Err(ParseError::Lex(m)) => assert_eq!(m, "Invalid token at position 22"),
        other => panic!("unexpected {:?}", other),
    }
}

#[test]
fn parse_empty_program() {
    assert!(parse("").unwrap().functions.is_empty());
}
