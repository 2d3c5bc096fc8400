use summit_breeze::lexer::{tokenize, Lexer, TokenKind};

fn lex(src: &str) -> Vec<(TokenKind, &str)> {
    let mut lexer = Lexer::new(src);
    let mut out = Vec::new();
    while let Some(tok) = lexer.next_token() {
        let text = &src[tok.span.start as usize..tok.span.end as usize];
        out.push((tok.kind, text));
    }
    out
}

#[test]
fn test_parens() {
    let tokens = lex("( )");
    assert_eq!(tokens.len(), 2);
    assert_eq!(tokens[0], (TokenKind::LParen, "("));
    assert_eq!(tokens[1], (TokenKind::RParen, ")"));
}

#[test]
fn test_numeral() {
    let tokens = lex("0 42 007");
    assert_eq!(tokens.len(), 3);
    assert!(tokens.iter().all(|(k, _)| *k == TokenKind::Numeral));
    assert_eq!(tokens[1].1, "42");
}

#[test]
fn test_decimal() {
    let tokens = lex("3.14 0.0");
    assert_eq!(tokens.len(), 2);
    assert!(tokens.iter().all(|(k, _)| *k == TokenKind::Decimal));
    assert_eq!(tokens[0].1, "3.14");
}

#[test]
fn test_hex_and_binary() {
    let tokens = lex("#xFF #b1010");
    assert_eq!(tokens.len(), 2);
    assert_eq!(tokens[0], (TokenKind::Hexadecimal, "#xFF"));
    assert_eq!(tokens[1], (TokenKind::Binary, "#b1010"));
}

#[test]
fn test_string_literal() {
    let tokens = lex(r#""hello" "with""quotes""#);
    assert_eq!(tokens.len(), 2);
    assert!(tokens.iter().all(|(k, _)| *k == TokenKind::StringLiteral));
    assert_eq!(tokens[0].1, "\"hello\"");
    assert_eq!(tokens[1].1, "\"with\"\"quotes\"");
}

#[test]
fn test_symbol() {
    let tokens = lex("foo bar+ baz_123 <= >=");
    assert!(tokens.iter().all(|(k, _)| *k == TokenKind::Symbol));
    assert_eq!(tokens.len(), 5);
    assert_eq!(tokens[0].1, "foo");
    assert_eq!(tokens[3].1, "<=");
}

#[test]
fn test_quoted_symbol() {
    let tokens = lex("|hello world| |with spaces|");
    assert_eq!(tokens.len(), 2);
    assert!(tokens.iter().all(|(k, _)| *k == TokenKind::QuotedSymbol));
    assert_eq!(tokens[0].1, "|hello world|");
}

#[test]
fn test_keyword() {
    let tokens = lex(":status :named :pattern");
    assert_eq!(tokens.len(), 3);
    assert!(tokens.iter().all(|(k, _)| *k == TokenKind::Keyword));
    assert_eq!(tokens[0].1, ":status");
}

#[test]
fn test_comment() {
    let tokens = lex("; this is a comment\n(assert true)");
    assert_eq!(tokens.len(), 5); // comment, (, assert, true, )
    assert_eq!(tokens[0], (TokenKind::Comment, "; this is a comment"));
    assert_eq!(tokens[1], (TokenKind::LParen, "("));
}

#[test]
fn test_smt_snippet() {
    let src = r#"
(set-logic QF_LIA)
(declare-fun x () Int)
(assert (> x 0))
(check-sat)
"#;
    let tokens = tokenize(src);
    // Should have meaningful tokens without comments
    assert!(tokens.len() > 10);
    assert_eq!(tokens[0].kind, TokenKind::LParen);
}

#[test]
fn test_z3_indexed_identifier() {
    let tokens = lex("(_ bv32 8)");
    assert_eq!(tokens[0], (TokenKind::LParen, "("));
    assert_eq!(tokens[1], (TokenKind::Symbol, "_"));
    assert_eq!(tokens[2], (TokenKind::Symbol, "bv32"));
    assert_eq!(tokens[3], (TokenKind::Numeral, "8"));
    assert_eq!(tokens[4], (TokenKind::RParen, ")"));
}

#[test]
fn test_empty_input() {
    let tokens = lex("");
    assert!(tokens.is_empty());
}

#[test]
fn test_whitespace_only() {
    let tokens = lex("   \n\t\r  ");
    assert!(tokens.is_empty());
}

#[test]
fn test_numeral_followed_by_dot_no_digit() {
    // "42." without a following digit should be numeral + error/symbol for dot
    let tokens = lex("42.)");
    assert_eq!(tokens[0], (TokenKind::Numeral, "42"));
    assert_eq!(tokens[1], (TokenKind::Symbol, "."));
    assert_eq!(tokens[2], (TokenKind::RParen, ")"));
}
