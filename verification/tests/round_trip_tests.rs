use jlox::expressions::{Expr, LiteralExpression};
use jlox::parser::Parser;
use jlox::scanner::Scanner;

fn parse_text(source: &str) -> Expr {
    let mut scanner = Scanner::new(source.to_string());
    scanner.scan_tokens();
    assert!(scanner.diagnostics.is_empty(), "lexical fault in {}", source);
    let mut parser = Parser::new(scanner.tokens);
    let expr = parser.parse();
    assert!(parser.diagnostics.is_empty(), "syntax fault in {}", source);
    expr.unwrap()
}

fn tree_eq(a: &Expr, b: &Expr) -> bool {
    match (a, b) {
        (Expr::Literal(la), Expr::Literal(lb)) => match (la, lb) {
            (LiteralExpression::Number(x), LiteralExpression::Number(y)) => x == y,
            (LiteralExpression::Text(x), LiteralExpression::Text(y)) => x == y,
            (LiteralExpression::Boolean(x), LiteralExpression::Boolean(y)) => x == y,
            (LiteralExpression::Nil, LiteralExpression::Nil) => true,
            _ => false,
        },
        (Expr::Unary(ua), Expr::Unary(ub)) => {
            ua.operator == ub.operator && tree_eq(&ua.right, &ub.right)
        },
        (Expr::Binary(ba), Expr::Binary(bb)) => {
            ba.operator == bb.operator
                && tree_eq(&ba.left, &bb.left)
                && tree_eq(&ba.right, &bb.right)
        },
        (Expr::Grouping(ga), Expr::Grouping(gb)) => tree_eq(&ga.expression, &gb.expression),
        _ => false,
    }
}

fn assert_round_trip(source: &str) {
    let first = parse_text(source);
    let printed = first.to_string();
    let second = parse_text(&printed);
    assert!(
        tree_eq(&first, &second),
        "round trip changed the tree: {} printed as {}",
        source,
        printed
    );
}

#[test]
fn round_trip_precedence_mix() {
    assert_round_trip("1 + 2 * 3");
}

#[test]
fn round_trip_left_associative_chain() {
    assert_round_trip("1 - 2 - 3");
}

#[test]
fn round_trip_grouping_and_unary() {
    assert_round_trip("-(1 + 2) * !true");
}

#[test]
fn round_trip_string_and_nil() {
    assert_round_trip("\"a b\" == nil != false");
}

#[test]
fn round_trip_decimal_and_comparison() {
    assert_round_trip("12.5 / 4 <= 3.25 < 99");
}

#[test]
fn round_trip_nested_groupings() {
    assert_round_trip("((1))");
}

#[test]
fn round_trip_double_negation() {
    assert_round_trip("--1 + -2");
}

#[test]
fn rendering_is_the_canonical_text() {
    let expr = parse_text("(1+2)*3");
    assert_eq!(expr.to_string(), "(1 + 2) * 3");
    let expr = parse_text("\"x\"");
    assert_eq!(expr.to_string(), "\"x\"");
    let expr = parse_text("-4.5");
    assert_eq!(expr.to_string(), "-4.5");
}
