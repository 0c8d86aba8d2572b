use jlox::error_handling::Diagnostic;
use jlox::expressions::{BinaryExpression, Expr, GroupingExpression, LiteralExpression, UnaryExpression};
use jlox::parser::Parser;
use jlox::scanner::Scanner;
use jlox::token_type::TokenType;

fn parse_source(source: &str) -> (Option<Expr>, Vec<Diagnostic>) {
    let mut scanner = Scanner::new(source.to_string());
    scanner.scan_tokens();
    assert!(scanner.diagnostics.is_empty(), "lexical fault in {}", source);
    let mut parser = Parser::new(scanner.tokens);
    let expr = parser.parse();
    (expr, parser.diagnostics)
}

fn num(text: &str) -> Expr {
    Expr::Literal(LiteralExpression::Number(text.to_string()))
}

fn bin(left: Expr, operator: TokenType, right: Expr) -> Expr {
    Expr::Binary(BinaryExpression { left: Box::new(left), operator, right: Box::new(right) })
}

fn expr_eq(a: &Expr, b: &Expr) -> bool {
    match (a, b) {
        (Expr::Literal(la), Expr::Literal(lb)) => match (la, lb) {
            (LiteralExpression::Number(x), LiteralExpression::Number(y)) => x == y,
            (LiteralExpression::Text(x), LiteralExpression::Text(y)) => x == y,
            (LiteralExpression::Boolean(x), LiteralExpression::Boolean(y)) => x == y,
            (LiteralExpression::Nil, LiteralExpression::Nil) => true,
            _ => false,
        },
        (Expr::Unary(ua), Expr::Unary(ub)) => {
            ua.operator == ub.operator && expr_eq(&ua.right, &ub.right)
        },
        (Expr::Binary(ba), Expr::Binary(bb)) => {
            ba.operator == bb.operator
                && expr_eq(&ba.left, &bb.left)
                && expr_eq(&ba.right, &bb.right)
        },
        (Expr::Grouping(ga), Expr::Grouping(gb)) => expr_eq(&ga.expression, &gb.expression),
        _ => false,
    }
}

#[test]
fn multiplication_binds_tighter_than_addition() {
    let (expr, diagnostics) = parse_source("1 + 2 * 3");
    assert!(diagnostics.is_empty());
    let expected = bin(num("1"), TokenType::Plus, bin(num("2"), TokenType::Star, num("3")));
    assert!(expr_eq(&expr.unwrap(), &expected));
}

#[test]
fn subtraction_is_left_associative() {
    let (expr, diagnostics) = parse_source("1 - 2 - 3");
    assert!(diagnostics.is_empty());
    let expected = bin(bin(num("1"), TokenType::Minus, num("2")), TokenType::Minus, num("3"));
    assert!(expr_eq(&expr.unwrap(), &expected));
}

#[test]
fn missing_close_paren_is_a_diagnostic() {
    let (expr, diagnostics) = parse_source("(1 + 2");
    assert!(expr.is_none());
    assert_eq!(diagnostics.len(), 1);
    assert_eq!(diagnostics[0].message, "Expect ')' after expression.");
    assert_eq!(diagnostics[0].line, 1);
}

#[test]
fn star_without_operand_expects_expression() {
    let (expr, diagnostics) = parse_source("*3");
    assert!(expr.is_none());
    assert_eq!(diagnostics.len(), 1);
    assert_eq!(diagnostics[0].message, "Expect expression.");
    assert_eq!(diagnostics[0].lexeme.as_deref(), Some("*"));
}

#[test]
fn grouping_overrides_precedence() {
    let (expr, diagnostics) = parse_source("(1 + 2) * 3");
    assert!(diagnostics.is_empty());
    let grouped = Expr::Grouping(GroupingExpression {
        expression: Box::new(bin(num("1"), TokenType::Plus, num("2"))),
    });
    let expected = bin(grouped, TokenType::Star, num("3"));
    assert!(expr_eq(&expr.unwrap(), &expected));
}

#[test]
fn unary_operators_nest() {
    let (expr, diagnostics) = parse_source("!!true");
    assert!(diagnostics.is_empty());
    let expected = Expr::Unary(UnaryExpression {
        operator: TokenType::Bang,
        right: Box::new(Expr::Unary(UnaryExpression {
            operator: TokenType::Bang,
            right: Box::new(Expr::Literal(LiteralExpression::Boolean(true))),
        })),
    });
    assert!(expr_eq(&expr.unwrap(), &expected));
}

#[test]
fn unary_minus_binds_tighter_than_binary() {
    let (expr, diagnostics) = parse_source("-1 + 2");
    assert!(diagnostics.is_empty());
    let neg = Expr::Unary(UnaryExpression { operator: TokenType::Minus, right: Box::new(num("1")) });
    let expected = bin(neg, TokenType::Plus, num("2"));
    assert!(expr_eq(&expr.unwrap(), &expected));
}

#[test]
fn comparison_and_equality_levels() {
    let (expr, diagnostics) = parse_source("1 < 2 == 3 >= 4");
    assert!(diagnostics.is_empty());
    let expected = bin(
        bin(num("1"), TokenType::Less, num("2")),
        TokenType::EqualEqual,
        bin(num("3"), TokenType::GreaterEqual, num("4")),
    );
    assert!(expr_eq(&expr.unwrap(), &expected));
}

#[test]
fn literal_leaves() {
    let cases: Vec<(&str, Expr)> = vec![
        ("true", Expr::Literal(LiteralExpression::Boolean(true))),
        ("false", Expr::Literal(LiteralExpression::Boolean(false))),
        ("nil", Expr::Literal(LiteralExpression::Nil)),
        ("42", num("42")),
        ("\"hi\"", Expr::Literal(LiteralExpression::Text("hi".to_string()))),
    ];
    for (source, expected) in cases {
        let (expr, diagnostics) = parse_source(source);
        assert!(diagnostics.is_empty(), "on {}", source);
        assert!(expr_eq(&expr.unwrap(), &expected), "on {}", source);
    }
}

#[test]
fn diagnostic_at_eof_names_the_empty_lexeme() {
    let (expr, diagnostics) = parse_source("");
    assert!(expr.is_none());
    assert_eq!(diagnostics.len(), 1);
    assert_eq!(diagnostics[0].message, "Expect expression.");
    assert_eq!(diagnostics[0].lexeme.as_deref(), Some(""));
}

#[test]
fn parser_recovers_past_a_semicolon() {
    let mut scanner = Scanner::new("*3; 4".to_string());
    scanner.scan_tokens();
    assert!(scanner.diagnostics.is_empty());
    let mut parser = Parser::new(scanner.tokens);
    let first = parser.parse();
    assert!(first.is_none());
    assert_eq!(parser.diagnostics.len(), 1);
    assert_eq!(parser.diagnostics[0].message, "Expect expression.");
    let second = parser.parse();
    assert!(expr_eq(&second.unwrap(), &num("4")));
    assert_eq!(parser.diagnostics.len(), 1);
}

#[test]
fn error_builder_carries_line_and_message() {
    let d = jlox::error_handling::error(7, "boom".to_string());
    assert_eq!(d.line, 7);
    assert_eq!(d.message, "boom");
    assert!(d.lexeme.is_none());
}
