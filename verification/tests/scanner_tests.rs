use symcalc::scanner::{Scanner, Token, TokenType};

fn scanner_for(src: &str) -> Scanner {
    Scanner::new(src.as_bytes().to_vec())
}

#[test]
fn test_scan_tokens() {
    let source = "a = 1;";
    let mut scanner = scanner_for(source);
    assert_eq!(scanner.scan_token().kind, TokenType::Identifier);
    assert_eq!(scanner.scan_token().kind, TokenType::Equal);
    assert_eq!(scanner.scan_token().kind, TokenType::Number);
    assert_eq!(scanner.scan_token().kind, TokenType::Semicolon);
    assert_eq!(scanner.scan_token().kind, TokenType::Eof);
}

#[test]
fn scan_punctuation_and_lexemes() {
    let mut scanner = scanner_for("(x + 12.5) * y^2 / 3 - 4, .");
    let expected: Vec<(TokenType, &str)> = vec![
        (TokenType::LeftParen, "("),
        (TokenType::Identifier, "x"),
        (TokenType::Plus, "+"),
        (TokenType::Number, "12.5"),
        (TokenType::RightParen, ")"),
        (TokenType::Star, "*"),
        (TokenType::Identifier, "y"),
        (TokenType::Power, "^"),
        (TokenType::Number, "2"),
        (TokenType::Slash, "/"),
        (TokenType::Number, "3"),
        (TokenType::Minus, "-"),
        (TokenType::Number, "4"),
        (TokenType::Comma, ","),
        (TokenType::Dot, "."),
        (TokenType::Eof, ""),
    ];
    for (kind, lexeme) in expected {
        let t = scanner.scan_token();
        assert_eq!(t.kind, kind);
        assert_eq!(t.lexeme, lexeme.as_bytes().to_vec());
    }
}

#[test]
fn scan_skips_line_and_nested_block_comments() {
    let mut scanner = scanner_for("// nothing here\n 1 /* outer /* inner */ still */ 2");
    let a = scanner.scan_token();
    assert_eq!(a.kind, TokenType::Number);
    assert_eq!(a.lexeme, b"1".to_vec());
    let b = scanner.scan_token();
    assert_eq!(b.kind, TokenType::Number);
    assert_eq!(b.lexeme, b"2".to_vec());
    assert_eq!(scanner.scan_token().kind, TokenType::Eof);
}

#[test]
fn scan_unexpected_byte_gives_error_token() {
    let mut scanner = scanner_for("@");
    let t = scanner.scan_token();
    assert_eq!(t.kind, TokenType::Error);
    assert_eq!(t.lexeme, b"Unexpected character.".to_vec());
}

#[test]
fn scan_number_without_trailing_fraction() {
    // the dot is not part of the number unless a digit follows it
    let mut scanner = scanner_for("7.");
    let n = scanner.scan_token();
    assert_eq!(n.kind, TokenType::Number);
    assert_eq!(n.lexeme, b"7".to_vec());
    assert_eq!(scanner.scan_token().kind, TokenType::Dot);
}

#[test]
fn synthetic_token_is_error() {
    let t = Token::synthetic(b"boom".to_vec());
    assert_eq!(t.kind, TokenType::Error);
    assert_eq!(t.lexeme, b"boom".to_vec());
    assert_eq!(t.line, 0);
    assert_eq!(t.column, 0);
}
