use arithmetic_analyzer::parser::{Node, Parser};

fn literal_value(literal: &[char]) -> f64 {
    let text: String = literal.iter().collect();
    text.parse::<f64>().unwrap()
}

fn calculate(node: &Node) -> f64 {
    match node {
        Node::Number(literal) => literal_value(literal),
        Node::Add(x, y) => calculate(x) + calculate(y),
        Node::Divide(x, y) => calculate(x) / calculate(y),
        Node::Negative(x) => -calculate(x),
        Node::Multiply(x, y) => calculate(x) * calculate(y),
        Node::Subtract(x, y) => calculate(x) - calculate(y),
        Node::Power(x, y) => calculate(x).powf(calculate(y)),
    }
}

fn eval(expr: &str) -> f64 {
    let mut parser = Parser::new(expr).unwrap();
    let node = parser.parse().unwrap();
    calculate(&node)
}

#[test]
fn evaluate_expr() {
    let result = eval("1 + 2*3.5 - 4 / 2^2 + (1 + (2 * 2)) * 5");
    assert_eq!(result, 32_f64);
}

#[test]
fn evaluate_right_associative_power() {
    assert_eq!(eval("2^3^2"), 512.0);
}

#[test]
fn evaluate_negative_before_power() {
    assert_eq!(eval("-2^3"), -8.0);
}

#[test]
fn evaluate_implicit_multiplication() {
    assert_eq!(eval("(1+3)(2+4)"), 24.0);
}

#[test]
fn evaluate_division_by_zero() {
    assert_eq!(eval("1/0"), f64::INFINITY);
    assert_eq!(eval("-1/0"), f64::NEG_INFINITY);
    assert!(eval("0/0").is_nan());
}

#[test]
fn evaluate_is_deterministic() {
    let expr = "-1 + 2.4 * 3 - 4^2 / (1.5 + 1)(1+2)";
    let first = eval(expr).to_bits();
    let second = eval(expr).to_bits();
    let third = eval(expr).to_bits();
    assert_eq!(first, second);
    assert_eq!(second, third);
}

#[test]
fn evaluate_number_with_separators() {
    assert_eq!(eval("1_000 + 2"), 1002.0);
    assert_eq!(eval("6. 1 - 1"), 5.1);
}
