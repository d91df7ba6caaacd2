use c_compiler::{lex, LalrpopLexer, Token};

fn ident(s: &str) -> Token {
    Token::Ident(s.to_string())
}

#[test]
fn lex_operators_longest_match() {
    let tokens = lex("a==b!=c<=d>=e&&f||!g=h<i>j").unwrap();
    assert_eq!(
        tokens,
        vec![
            ident("a"), Token::EqEq, ident("b"), Token::Ne, ident("c"), Token::Le, ident("d"),
            Token::Ge, ident("e"), Token::AndAnd, ident("f"), Token::OrOr, Token::Bang, ident("g"),
            Token::Eq, ident("h"), Token::Lt, ident("i"), Token::Gt, ident("j"),
        ]
    );
}

#[test]
fn lex_delimiters_and_arithmetic() {
    let tokens = lex("(){};,+-*/%").unwrap();
    assert_eq!(
        tokens,
        vec![
            Token::LParen, Token::RParen, Token::LBrace, Token::RBrace, Token::Semicolon,
            Token::Comma, Token::Plus, Token::Minus, Token::Star, Token::Slash, Token::Percent,
        ]
    );
}

#[test]
fn lex_skips_comments_and_whitespace() {
    let tokens = lex("// line comment\n x /* block\n comment ** */ 1\t\r\n// end").unwrap();
    assert_eq!(tokens, vec![ident("x"), Token::Number(1)]);
}

#[test]
fn lex_block_comment_ends_at_first_close() {
    let tokens = lex("/* a */ b /* c */").unwrap();
    assert_eq!(tokens, vec![ident("b")]);
    let tokens = lex("/***/x").unwrap();
    assert_eq!(tokens, vec![ident("x")]);
}

#[test]
fn lex_unclosed_block_comment_is_a_slash() {
    // The `/` token takes in everything after an unclosed `/*`.
    assert_eq!(lex("/* abc").unwrap(), vec![Token::Slash]);
    assert_eq!(lex("x /*/ y @").unwrap(), vec![ident("x"), Token::Slash]);
    let mut l = LalrpopLexer::new("a /* b");
    assert_eq!(l.next().unwrap().unwrap(), (0, ident("a"), 1));
    assert_eq!(l.next().unwrap().unwrap(), (2, Token::Slash, 6));
    assert!(l.next().is_none());
}

#[test]
fn lex_keywords_versus_identifiers() {
    let tokens = lex("integer int_ intx int for4 for _if else while").unwrap();
    assert_eq!(
        tokens,
        vec![
            ident("integer"), ident("int_"), ident("intx"), Token::Int, ident("for4"),
            Token::For, ident("_if"), Token::Else, Token::While,
        ]
    );
}

#[test]
fn lex_number_then_identifier() {
    let tokens = lex("123abc 007").unwrap();
    assert_eq!(tokens, vec![Token::Number(123), ident("abc"), Token::Number(7)]);
}

#[test]
fn lex_largest_number() {
    assert_eq!(lex("2147483647").unwrap(), vec![Token::Number(2147483647)]);
}

#[test]
fn lex_number_too_large_is_an_error() {
    assert_eq!(lex("x = 2147483648;"), Err("Invalid token at position 4".to_string()));
}

#[test]
fn lex_invalid_character_position() {
    assert_eq!(lex("int x = 3 @"), Err("Invalid token at position 10".to_string()));
    assert_eq!(lex("a & b"), Err("Invalid token at position 2".to_string()));
    assert_eq!(lex("a | b"), Err("Invalid token at position 2".to_string()));
    assert_eq!(lex("#"), Err("Invalid token at position 0".to_string()));
}

#[test]
fn lex_error_position_counts_bytes() {
    // 'é' takes two bytes, so the '@' is at byte 6.
    assert_eq!(lex("/*é*/@"), Err("Invalid token at position 6".to_string()));
    assert_eq!(lex("x é"), Err("Invalid token at position 2".to_string()));
}

#[test]
fn lex_non_ascii_digits_join_a_number_run() {
    // An Arabic-Indic digit continues the digit run, which then does not read as an i32.
    assert_eq!(lex("ab 12\u{0663}"), Err("Invalid token at position 3".to_string()));
    assert_eq!(lex("\u{0663}"), Err("Invalid token at position 0".to_string()));
}

#[test]
fn lex_empty_source() {
    assert_eq!(lex("").unwrap(), vec![]);
    assert_eq!(lex("  // only a comment").unwrap(), vec![]);
}

#[test]
fn token_stream_yields_spans() {
    let mut l = LalrpopLexer::new("int x = 42;");
    assert_eq!(l.next().unwrap().unwrap(), (0, Token::Int, 3));
    assert_eq!(l.next().unwrap().unwrap(), (4, ident("x"), 5));
    assert_eq!(l.next().unwrap().unwrap(), (6, Token::Eq, 7));
    assert_eq!(l.next().unwrap().unwrap(), (8, Token::Number(42), 10));
    assert_eq!(l.next().unwrap().unwrap(), (10, Token::Semicolon, 11));
    assert!(l.next().is_none());
    assert!(l.next().is_none());
}

#[test]
fn token_stream_goes_on_after_an_error() {
    let mut l = LalrpopLexer::new("a @ b");
    assert_eq!(l.next().unwrap().unwrap(), (0, ident("a"), 1));
    assert!(l.next().unwrap().is_err());
    assert_eq!(l.next().unwrap().unwrap(), (4, ident("b"), 5));
    assert!(l.next().is_none());
}

#[test]
fn token_stream_byte_spans_after_multibyte_text() {
    let mut l = LalrpopLexer::new("/* é */ y");
    assert_eq!(l.next().unwrap().unwrap(), (9, ident("y"), 10));
}

#[test]
fn lex_of_joined_lines_is_joined_tokens() {
    let a = "int x = 1; y";
    let b = "  return x /* note */ + 2;";
    let joined = format!("{}\n{}", a, b);
    let mut expected = lex(a).unwrap();
    expected.extend(lex(b).unwrap());
    assert_eq!(lex(&joined).unwrap(), expected);
}

#[test]
fn lex_error_in_second_line_is_shifted() {
    // the '$' is at character 3 of the second text; 3 + 1 + 3 = 7
    let joined = format!("{}\n{}", "int", "a; $");
    assert_eq!(lex(&joined), Err("Invalid token at position 7".to_string()));
    assert_eq!(lex("a; $"), Err("Invalid token at position 3".to_string()));
}
