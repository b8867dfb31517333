use arithmetic_analyzer::parser::{Node, ParseError, Parser};
use arithmetic_analyzer::tokenizer::LexError;

fn num(literal: &str) -> Box<Node> {
    Box::new(Node::Number(literal.chars().collect()))
}

fn parse(expr: &str) -> Result<Node, ParseError> {
    let mut parser = Parser::new(expr).map_err(ParseError::Lex)?;
    parser.parse()
}

#[test]
fn parse_single_number() {
    let expr = "1";
    assert_eq!(parse(expr), Ok(Node::Number("1".chars().collect())));
}

#[test]
fn parse_simple_add_expression() {
    let expr = "1+2";
    assert_eq!(parse(expr), Ok(Node::Add(num("1"), num("2"))));
}

#[test]
fn parse_simple_power_operation() {
    let expr = "2^3";
    assert_eq!(parse(expr), Ok(Node::Power(num("2"), num("3"))));
}

#[test]
fn parse_expression_with_parenthesis() {
    let expr = "2*(1+3)";
    assert_eq!(
        parse(expr),
        Ok(Node::Multiply(
            num("2"),
            Box::new(Node::Add(num("1"), num("3")))
        ))
    );
}

#[test]
fn parse_expression_with_negative_value() {
    let expr = "-2^3";
    assert_eq!(
        parse(expr),
        Ok(Node::Power(
            Box::new(Node::Negative(num("2"))),
            num("3")
        ))
    );
}

#[test]
fn parenthesis_must_in_pair() {
    let expr = "2*(1+3";
    assert_eq!(parse(expr), Err(ParseError::MissingRightParen));
}

#[test]
fn parse_expression_with_parenthesis_with_after_actions() {
    let expr = "(1+3)*2";
    assert_eq!(
        parse(expr),
        Ok(Node::Multiply(
            Box::new(Node::Add(num("1"), num("3"))),
            num("2")
        ))
    );
}

#[test]
fn parse_expression_with_two_parenthesis() {
    let expr = "(1+3)(2+4)";
    assert_eq!(
        parse(expr),
        Ok(Node::Multiply(
            Box::new(Node::Add(num("1"), num("3"))),
            Box::new(Node::Add(num("2"), num("4"))),
        ))
    );
}

#[test]
fn parse_complex_expr() {
    let expr = "-1 + 2.4 * 3 - 4^2 / (1.5 + 1)(1+2)";
    assert_eq!(
        parse(expr),
        Ok(Node::Subtract(
            Box::new(Node::Add(
                Box::new(Node::Negative(num("1"))),
                Box::new(Node::Multiply(num("2.4"), num("3"))),
            )),
            Box::new(Node::Divide(
                Box::new(Node::Power(num("4"), num("2"))),
                Box::new(Node::Multiply(
                    Box::new(Node::Add(num("1.5"), num("1"))),
                    Box::new(Node::Add(num("1"), num("2"))),
                )),
            )),
        ))
    );
}

#[test]
fn parse_power_chain_right_associative() {
    let expr = "2^3^2";
    assert_eq!(
        parse(expr),
        Ok(Node::Power(
            num("2"),
            Box::new(Node::Power(num("3"), num("2")))
        ))
    );
}

#[test]
fn parse_chain_of_groups() {
    let expr = "(1)(2)(3)";
    assert_eq!(
        parse(expr),
        Ok(Node::Multiply(
            num("1"),
            Box::new(Node::Multiply(num("2"), num("3")))
        ))
    );
}

#[test]
fn parse_empty_input_fails() {
    assert_eq!(parse(""), Err(ParseError::UnsupportedToken));
}

#[test]
fn parse_operator_without_operand_fails() {
    assert_eq!(parse("1+"), Err(ParseError::UnsupportedToken));
}

#[test]
fn parse_leading_star_fails() {
    assert_eq!(parse("*3"), Err(ParseError::UnsupportedToken));
}

#[test]
fn parse_reports_invalid_character() {
    assert_eq!(
        parse("1+@"),
        Err(ParseError::Lex(LexError::InvalidCharacter('@')))
    );
}

#[test]
fn parse_reports_invalid_number() {
    assert_eq!(
        parse("1.2.3"),
        Err(ParseError::Lex(LexError::InvalidNumber))
    );
}

#[test]
fn parse_stops_at_trailing_content() {
    assert_eq!(parse("1)2"), Ok(Node::Number("1".chars().collect())));
}
