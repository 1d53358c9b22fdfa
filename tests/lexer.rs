use sigma_parser::{lex_tokens2, Lexer, Token};

fn binding_tokens() -> Vec<Token> {
    vec![
        Token::LBracket,
        Token::Identifier("a".to_owned()),
        Token::Assign,
        Token::Sigma,
        Token::LParen,
        Token::Identifier("x".to_owned()),
        Token::RParen,
        Token::Identifier("x".to_owned()),
        Token::RBracket,
    ]
}

#[test]
fn test_lexer1() {
    let input = &b"[a = sigma(x) x]"[..];
    let (_, result) = Lexer::lex_tokens(input).unwrap();

    let expected_results = vec![
        Token::LBracket,
        Token::Identifier("a".to_owned()),
        Token::Assign,
        Token::Sigma,
        Token::LParen,
        Token::Identifier("x".to_owned()),
        Token::RParen,
        Token::Identifier("x".to_owned()),
        Token::RBracket,
        Token::EOF,
    ];

    assert_eq!(result, expected_results);
}

#[test]
fn test_lexer2() {
    let input = &b"[a = sigma(x) x]"[..];
    let (_, result) = lex_tokens2(input).unwrap();

    let expected_results = vec![
        Token::LBracket,
        Token::Identifier("a".to_owned()),
        Token::Assign,
        Token::Sigma,
        Token::LParen,
        Token::Identifier("x".to_owned()),
        Token::RParen,
        Token::Identifier("x".to_owned()),
        Token::RBracket,
    ];

    assert_eq!(result, expected_results);
}

#[test]
fn empty_input_gives_only_eof() {
    let (rest, tokens) = Lexer::lex_tokens(b"").unwrap();
    assert_eq!(tokens, vec![Token::EOF]);
    assert!(rest.is_empty());
}

#[test]
fn whitespace_only_input_is_handed_back() {
    let (rest, tokens) = Lexer::lex_tokens(b" \t\r\n").unwrap();
    assert_eq!(tokens, vec![Token::EOF]);
    assert_eq!(rest, &b" \t\r\n"[..]);
}

#[test]
fn whitespace_is_insignificant() {
    let (rest, tokens) = lex_tokens2(b"[a=sigma(x)x]").unwrap();
    assert_eq!(tokens, binding_tokens());
    assert!(rest.is_empty());
    let (rest, tokens) = lex_tokens2(b"\n [ a\t=  sigma ( x ) x ] \r\n").unwrap();
    assert_eq!(tokens, binding_tokens());
    assert!(rest.is_empty());
}

#[test]
fn illegal_bytes_are_single_tokens() {
    let (_, tokens) = Lexer::lex_tokens(b"a#?b").unwrap();
    assert_eq!(
        tokens,
        vec![
            Token::Identifier("a".to_owned()),
            Token::Illegal,
            Token::Illegal,
            Token::Identifier("b".to_owned()),
            Token::EOF,
        ]
    );
}

#[test]
fn exactly_one_eof_on_malformed_input() {
    let (_, tokens) = Lexer::lex_tokens(b"]]((= . ,, @@ \xff").unwrap();
    assert_eq!(tokens.iter().filter(|t| **t == Token::EOF).count(), 1);
    assert_eq!(tokens.last(), Some(&Token::EOF));
    assert_eq!(
        tokens,
        vec![
            Token::RBracket,
            Token::RBracket,
            Token::LParen,
            Token::LParen,
            Token::Assign,
            Token::Select,
            Token::Comma,
            Token::Comma,
            Token::Illegal,
            Token::Illegal,
            Token::Illegal,
            Token::EOF,
        ]
    );
}

#[test]
fn identifier_token_never_starts_with_digit() {
    let (_, tokens) = Lexer::lex_tokens(b"1abc").unwrap();
    assert_eq!(
        tokens,
        vec![Token::Illegal, Token::Identifier("abc".to_owned()), Token::EOF]
    );
}

#[test]
fn identifiers_are_greedy_and_keyword_comes_first() {
    let (_, tokens) = Lexer::lex_tokens(b"_a1b_ sigma sigmax x.y").unwrap();
    assert_eq!(
        tokens,
        vec![
            Token::Identifier("_a1b_".to_owned()),
            Token::Sigma,
            Token::Sigma,
            Token::Identifier("x".to_owned()),
            Token::Identifier("x".to_owned()),
            Token::Select,
            Token::Identifier("y".to_owned()),
            Token::EOF,
        ]
    );
}

#[test]
fn token_texts_rebuild_the_input_without_whitespace() {
    let (_, tokens) = lex_tokens2(b"[ tag = sigma( v1 ) e_2 ]").unwrap();
    let mut text = String::new();
    for t in &tokens {
        match t {
            Token::Identifier(s) => text.push_str(s),
            Token::Assign => text.push('='),
            Token::Select => text.push('.'),
            Token::Sigma => text.push_str("sigma"),
            Token::Comma => text.push(','),
            Token::LParen => text.push('('),
            Token::RParen => text.push(')'),
            Token::LBracket => text.push('['),
            Token::RBracket => text.push(']'),
            Token::Illegal | Token::EOF => panic!("unexpected token"),
        }
    }
    assert_eq!(text, "[tag=sigma(v1)e_2]");
}

#[test]
fn keyword_then_digit_is_illegal() {
    let (_, tokens) = Lexer::lex_tokens(b"sigma1").unwrap();
    assert_eq!(tokens, vec![Token::Sigma, Token::Illegal, Token::EOF]);
}
