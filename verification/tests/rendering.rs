use c_compiler::{lex, parse, BinOp, LalrpopLexer, ParseError, Program, Token};

#[test]
fn token_display_text() {
    assert_eq!(Token::Number(-12).to_string(), "-12");
    assert_eq!(Token::Number(42).to_string(), "42");
    assert_eq!(Token::Ident("foo".to_string()).to_string(), "foo");
    assert_eq!(Token::LParen.to_string(), "LParen");
    assert_eq!(Token::AndAnd.to_string(), "AndAnd");
}

#[test]
fn binop_display_text() {
    let ops = [
        (BinOp::Add, "+"), (BinOp::Sub, "-"), (BinOp::Mul, "*"), (BinOp::Div, "/"),
        (BinOp::Mod, "%"), (BinOp::Eq, "=="), (BinOp::Ne, "!="), (BinOp::Lt, "<"),
        (BinOp::Le, "<="), (BinOp::Gt, ">"), (BinOp::Ge, ">="), (BinOp::AndAnd, "&&"),
        (BinOp::OrOr, "||"),
    ];
    for (op, text) in ops {
        assert_eq!(op.to_string(), text);
    }
}

#[test]
fn parse_error_messages() {
    let e = parse("int main() { return 1 }").unwrap_err();
    assert_eq!(e.message(), "Expected Semicolon, got Some(RBrace)");
    let e = parse("int main() { return").unwrap_err();
    assert_eq!(e.message(), "Unexpected token None, expected expression");
    let e = parse("int main( { }").unwrap_err();
    assert_eq!(e.message(), "Expected RParen, got Some(LBrace)");
    let e = parse("int 7").unwrap_err();
    assert_eq!(e.message(), "Expected identifier, got Some(Number(7))");
    let e = parse("int main() { x = ; }").unwrap_err();
    assert_eq!(e.message(), "Unexpected token Some(Semicolon), expected expression");
    let e = parse("int f() { } g").unwrap_err();
    assert_eq!(e.message(), "Expected Int, got Some(Ident(\"g\"))");
    let e = parse("$").unwrap_err();
    assert_eq!(e.message(), "Lex error: Invalid token at position 0");
    assert!(matches!(e, ParseError::Lex(_)));
}

#[test]
fn clone_keeps_the_program() {
    let p = parse("int main(int a) { int x = a * 2; for (x = 0; x < 3; x = x + 1) { if (x) { return f(x, 1); } else { } } while (a) { } return; }").unwrap();
    let q: Program = p.clone();
    assert_eq!(format!("{:?}", p), format!("{:?}", q));
}

#[test]
fn lex_agrees_with_token_stream() {
    let src = "int main() { /* c */ return a1 >= 10 || !b; } // end";
    let tokens = lex(src).unwrap();
    let mut stream = LalrpopLexer::new(src);
    let mut streamed = Vec::new();
    while let Some(item) = stream.next() {
        let (_, t, _) = item.unwrap();
        streamed.push(t);
    }
    assert_eq!(tokens, streamed);
}

#[test]
fn lex_fails_where_the_stream_errs() {
    let src = "a b ? c";
    assert_eq!(lex(src), Err("Invalid token at position 4".to_string()));
    let mut stream = LalrpopLexer::new(src);
    assert!(stream.next().unwrap().is_ok());
    assert!(stream.next().unwrap().is_ok());
    assert!(stream.next().unwrap().is_err());
}
