use c_compiler::{lex, Token};

#[test]
fn test_lex_numbers() {
    let tokens = lex("42 0 123").unwrap();
    assert_eq!(tokens, vec![Token::Number(42), Token::Number(0), Token::Number(123)]);
}

#[test]
fn test_lex_fib5() {
    let tokens = lex("fib(5)").unwrap();
    assert_eq!(tokens.len(), 4);
    assert!(matches!(tokens[0], Token::Ident(_)));
    assert!(matches!(tokens[1], Token::LParen));
    assert!(matches!(tokens[2], Token::Number(5)));
    assert!(matches!(tokens[3], Token::RParen));
}

#[test]
fn test_lex_keywords() {
    let tokens = lex("int return if else while").unwrap();
    assert_eq!(
        tokens,
        vec![Token::Int, Token::Return, Token::If, Token::Else, Token::While]
    );
}
