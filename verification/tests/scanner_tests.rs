use jlox::scanner::Scanner;
use jlox::token_type::{LiteralValue, Token, TokenType};

fn scan(source: &str) -> Scanner {
    let mut scanner = Scanner::new(source.to_string());
    scanner.scan_tokens();
    scanner
}

fn kinds(scanner: &Scanner) -> Vec<TokenType> {
    scanner.tokens.iter().map(|t| t.token_type).collect()
}

#[test]
fn single_character_tokens() {
    let cases: Vec<(&str, TokenType)> = vec![
        ("(", TokenType::LeftParen),
        (")", TokenType::RightParen),
        ("{", TokenType::LeftBrace),
        ("}", TokenType::RightBrace),
        (",", TokenType::Comma),
        (".", TokenType::Dot),
        ("-", TokenType::Minus),
        ("+", TokenType::Plus),
        (";", TokenType::Semicolon),
        ("*", TokenType::Star),
        ("/", TokenType::Slash),
    ];
    for (text, kind) in cases {
        let scanner = scan(text);
        assert_eq!(scanner.tokens.len(), 2);
        assert_eq!(scanner.tokens[0].token_type, kind);
        assert_eq!(scanner.tokens[0].lexeme, text);
        assert_eq!(scanner.tokens[1].token_type, TokenType::EOF);
        assert!(scanner.diagnostics.is_empty());
    }
}

#[test]
fn two_character_operators() {
    let cases: Vec<(&str, TokenType)> = vec![
        ("!=", TokenType::BangEqual),
        ("==", TokenType::EqualEqual),
        ("<=", TokenType::LessEqual),
        (">=", TokenType::GreaterEqual),
    ];
    for (text, kind) in cases {
        let scanner = scan(text);
        assert_eq!(scanner.tokens.len(), 2);
        assert_eq!(scanner.tokens[0].token_type, kind);
        assert_eq!(scanner.tokens[0].lexeme, text);
    }
}

#[test]
fn one_character_operators_when_no_equal_follows() {
    let cases: Vec<(&str, TokenType)> = vec![
        ("!", TokenType::Bang),
        ("=", TokenType::Equal),
        ("<", TokenType::Less),
        (">", TokenType::Greater),
    ];
    for (text, kind) in cases {
        let scanner = scan(text);
        assert_eq!(scanner.tokens.len(), 2);
        assert_eq!(scanner.tokens[0].token_type, kind);
        assert_eq!(scanner.tokens[0].lexeme, text);
    }
    // Not followed by `=` but by another character: still one-character.
    let scanner = scan("<5");
    assert_eq!(
        kinds(&scanner),
        vec![TokenType::Less, TokenType::NumberLit, TokenType::EOF]
    );
}

#[test]
fn comment_yields_no_token() {
    let scanner = scan("// comment\n123");
    assert_eq!(scanner.tokens.len(), 2);
    assert_eq!(scanner.tokens[0].token_type, TokenType::NumberLit);
    assert_eq!(scanner.tokens[0].lexeme, "123");
    match &scanner.tokens[0].literal {
        Some(LiteralValue::NumberText(t)) => assert_eq!(t, "123"),
        other => panic!("wrong literal: {:?}", other),
    }
    assert_eq!(scanner.tokens[0].line, 2);
    assert_eq!(scanner.tokens[1].token_type, TokenType::EOF);
    assert!(scanner.diagnostics.is_empty());
}

#[test]
fn string_literal_value_excludes_quotes() {
    let scanner = scan("\"abc\"");
    assert_eq!(scanner.tokens.len(), 2);
    assert_eq!(scanner.tokens[0].token_type, TokenType::StringLit);
    assert_eq!(scanner.tokens[0].lexeme, "\"abc\"");
    match &scanner.tokens[0].literal {
        Some(LiteralValue::StringText(t)) => assert_eq!(t, "abc"),
        other => panic!("wrong literal: {:?}", other),
    }
    assert!(scanner.diagnostics.is_empty());
}

#[test]
fn unterminated_string_is_a_diagnostic_not_fatal() {
    let scanner = scan("\"abc");
    assert_eq!(scanner.tokens.len(), 1);
    assert_eq!(scanner.tokens[0].token_type, TokenType::EOF);
    assert_eq!(scanner.diagnostics.len(), 1);
    assert_eq!(scanner.diagnostics[0].message, "Unterminated string.");
    assert_eq!(scanner.diagnostics[0].line, 1);
}

#[test]
fn multi_line_string_tracks_lines() {
    let scanner = scan("\"a\nb\" 1");
    assert_eq!(scanner.tokens.len(), 3);
    assert_eq!(scanner.tokens[0].token_type, TokenType::StringLit);
    assert_eq!(scanner.tokens[0].line, 2);
    match &scanner.tokens[0].literal {
        Some(LiteralValue::StringText(t)) => assert_eq!(t, "a\nb"),
        other => panic!("wrong literal: {:?}", other),
    }
    assert_eq!(scanner.tokens[1].token_type, TokenType::NumberLit);
    assert_eq!(scanner.tokens[1].line, 2);
}

#[test]
fn decimal_number_scans_whole() {
    let scanner = scan("12.5");
    assert_eq!(scanner.tokens.len(), 2);
    assert_eq!(scanner.tokens[0].token_type, TokenType::NumberLit);
    assert_eq!(scanner.tokens[0].lexeme, "12.5");
    match &scanner.tokens[0].literal {
        Some(LiteralValue::NumberText(t)) => assert_eq!(t, "12.5"),
        other => panic!("wrong literal: {:?}", other),
    }
}

#[test]
fn trailing_dot_is_not_consumed() {
    let scanner = scan("12.");
    assert_eq!(
        kinds(&scanner),
        vec![TokenType::NumberLit, TokenType::Dot, TokenType::EOF]
    );
    assert_eq!(scanner.tokens[0].lexeme, "12");
    match &scanner.tokens[0].literal {
        Some(LiteralValue::NumberText(t)) => assert_eq!(t, "12"),
        other => panic!("wrong literal: {:?}", other),
    }
}

#[test]
fn keyword_scans_as_reserved_kind() {
    let scanner = scan("var");
    assert_eq!(scanner.tokens.len(), 2);
    assert_eq!(scanner.tokens[0].token_type, TokenType::Var);
    assert_eq!(scanner.tokens[0].lexeme, "var");
}

#[test]
fn keyword_prefix_scans_as_identifier() {
    let scanner = scan("variable");
    assert_eq!(scanner.tokens.len(), 2);
    assert_eq!(scanner.tokens[0].token_type, TokenType::Identifier);
    assert_eq!(scanner.tokens[0].lexeme, "variable");
}

#[test]
fn all_keywords_resolve() {
    let cases: Vec<(&str, TokenType)> = vec![
        ("and", TokenType::And),
        ("class", TokenType::Class),
        ("else", TokenType::Else),
        ("false", TokenType::False),
        ("fun", TokenType::Fun),
        ("for", TokenType::For),
        ("if", TokenType::If),
        ("nil", TokenType::Nil),
        ("or", TokenType::Or),
        ("print", TokenType::Print),
        ("return", TokenType::Return),
        ("super", TokenType::Super),
        ("this", TokenType::This),
        ("true", TokenType::True),
        ("var", TokenType::Var),
        ("while", TokenType::While),
    ];
    for (text, kind) in cases {
        let scanner = scan(text);
        assert_eq!(scanner.tokens.len(), 2, "on {}", text);
        assert_eq!(scanner.tokens[0].token_type, kind, "on {}", text);
    }
}

#[test]
fn unexpected_character_is_a_diagnostic_and_scanning_continues() {
    let scanner = scan("#1");
    assert_eq!(scanner.diagnostics.len(), 1);
    assert_eq!(scanner.diagnostics[0].message, "Unexpected character.");
    assert_eq!(scanner.diagnostics[0].line, 1);
    assert_eq!(
        kinds(&scanner),
        vec![TokenType::NumberLit, TokenType::EOF]
    );
}

#[test]
fn empty_source_yields_only_eof() {
    let scanner = scan("");
    assert_eq!(scanner.tokens.len(), 1);
    assert_eq!(scanner.tokens[0].token_type, TokenType::EOF);
    assert_eq!(scanner.tokens[0].lexeme, "");
    assert_eq!(scanner.tokens[0].line, 1);
}

#[test]
fn newlines_increment_lines_and_stamp_eof() {
    let scanner = scan("1\n2\n");
    assert_eq!(scanner.tokens.len(), 3);
    assert_eq!(scanner.tokens[0].line, 1);
    assert_eq!(scanner.tokens[1].line, 2);
    assert_eq!(scanner.tokens[2].token_type, TokenType::EOF);
    assert_eq!(scanner.tokens[2].line, 3);
}

#[test]
fn whitespace_emits_nothing() {
    let scanner = scan(" \t\r 7 ");
    assert_eq!(
        kinds(&scanner),
        vec![TokenType::NumberLit, TokenType::EOF]
    );
}

#[test]
fn mixed_expression_token_sequence() {
    let scanner = scan("(1 + 2) * three != \"s\"");
    assert_eq!(
        kinds(&scanner),
        vec![
            TokenType::LeftParen,
            TokenType::NumberLit,
            TokenType::Plus,
            TokenType::NumberLit,
            TokenType::RightParen,
            TokenType::Star,
            TokenType::Identifier,
            TokenType::BangEqual,
            TokenType::StringLit,
            TokenType::EOF,
        ]
    );
}

#[test]
fn comment_to_end_of_input_yields_only_eof() {
    let scanner = scan("// trailing");
    assert_eq!(scanner.tokens.len(), 1);
    assert_eq!(scanner.tokens[0].token_type, TokenType::EOF);
    assert!(scanner.diagnostics.is_empty());
}

#[test]
fn adjacent_operators_split_greedily() {
    let scanner = scan("===");
    assert_eq!(
        kinds(&scanner),
        vec![TokenType::EqualEqual, TokenType::Equal, TokenType::EOF]
    );
    let scanner = scan("1+2");
    assert_eq!(
        kinds(&scanner),
        vec![TokenType::NumberLit, TokenType::Plus, TokenType::NumberLit, TokenType::EOF]
    );
}

#[test]
fn number_keeps_leading_zeros_exactly() {
    let scanner = scan("007");
    assert_eq!(scanner.tokens[0].lexeme, "007");
    match &scanner.tokens[0].literal {
        Some(LiteralValue::NumberText(t)) => assert_eq!(t, "007"),
        other => panic!("wrong literal: {:?}", other),
    }
}

#[test]
fn token_rendering_names_kind_lexeme_and_literal() {
    let token = Token {
        token_type: TokenType::NumberLit,
        lexeme: "12.5".to_string(),
        literal: Some(LiteralValue::NumberText("12.5".to_string())),
        line: 1,
    };
    assert_eq!(token.to_string(), "NumberLit 12.5 12.5");
    let bare = Token {
        token_type: TokenType::Plus,
        lexeme: "+".to_string(),
        literal: None,
        line: 1,
    };
    assert_eq!(bare.to_string(), "Plus +");
}
