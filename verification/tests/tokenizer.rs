use arithmetic_analyzer::parser::OperPrec;
use arithmetic_analyzer::tokenizer::{LexError, Token, Tokenizer};

fn num(literal: &str) -> Token {
    Token::Number(literal.chars().collect())
}

#[test]
fn next_returns_expected_tokens() {
    let mut tokenizer = Tokenizer::new("1+12.15*5/1^2 - (6. 1-1)");

    assert_eq!(tokenizer.next(), Ok(num("1")));
    assert_eq!(tokenizer.next(), Ok(Token::Add));
    assert_eq!(tokenizer.next(), Ok(num("12.15")));
    assert_eq!(tokenizer.next(), Ok(Token::Multiply));
    assert_eq!(tokenizer.next(), Ok(num("5")));
    assert_eq!(tokenizer.next(), Ok(Token::Divide));
    assert_eq!(tokenizer.next(), Ok(num("1")));
    assert_eq!(tokenizer.next(), Ok(Token::Caret));
    assert_eq!(tokenizer.next(), Ok(num("2")));
    assert_eq!(tokenizer.next(), Ok(Token::Subtract));
    assert_eq!(tokenizer.next(), Ok(Token::LeftParen));
    assert_eq!(tokenizer.next(), Ok(num("6.1")));
    assert_eq!(tokenizer.next(), Ok(Token::Subtract));
    assert_eq!(tokenizer.next(), Ok(num("1")));
    assert_eq!(tokenizer.next(), Ok(Token::RightParen));
    assert_eq!(tokenizer.next(), Ok(Token::EOF));
}

#[test]
fn lexer_skips_underscores_in_numbers() {
    let mut tokenizer = Tokenizer::new("1_000_000");
    assert_eq!(tokenizer.next(), Ok(num("1000000")));
    assert_eq!(tokenizer.next(), Ok(Token::EOF));
}

#[test]
fn lexer_returns_eof_repeatedly() {
    let mut tokenizer = Tokenizer::new("7 ");
    assert_eq!(tokenizer.next(), Ok(num("7")));
    assert_eq!(tokenizer.next(), Ok(Token::EOF));
    assert_eq!(tokenizer.next(), Ok(Token::EOF));
    assert_eq!(tokenizer.next(), Ok(Token::EOF));
}

#[test]
fn lexer_rejects_invalid_character() {
    let mut tokenizer = Tokenizer::new("1+@");
    assert_eq!(tokenizer.next(), Ok(num("1")));
    assert_eq!(tokenizer.next(), Ok(Token::Add));
    assert_eq!(tokenizer.next(), Err(LexError::InvalidCharacter('@')));
}

#[test]
fn lexer_rejects_number_with_two_points() {
    let mut tokenizer = Tokenizer::new("1.2.3");
    assert_eq!(tokenizer.next(), Err(LexError::InvalidNumber));
}

#[test]
fn lexer_accepts_trailing_point() {
    let mut tokenizer = Tokenizer::new("1.");
    assert_eq!(tokenizer.next(), Ok(num("1.")));
    assert_eq!(tokenizer.next(), Ok(Token::EOF));
}

#[test]
fn lexer_repeats_a_fault() {
    let mut tokenizer = Tokenizer::new("@1");
    assert_eq!(tokenizer.next(), Err(LexError::InvalidCharacter('@')));
    assert_eq!(tokenizer.next(), Err(LexError::InvalidCharacter('@')));
}

#[test]
fn token_precedences() {
    assert_eq!(Token::Add.get_oper_prec(), OperPrec::AddSub);
    assert_eq!(Token::Subtract.get_oper_prec(), OperPrec::AddSub);
    assert_eq!(Token::Multiply.get_oper_prec(), OperPrec::MulDiv);
    assert_eq!(Token::Divide.get_oper_prec(), OperPrec::MulDiv);
    assert_eq!(Token::Caret.get_oper_prec(), OperPrec::Power);
    assert_eq!(Token::LeftParen.get_oper_prec(), OperPrec::Default);
    assert_eq!(Token::RightParen.get_oper_prec(), OperPrec::Default);
    assert_eq!(Token::EOF.get_oper_prec(), OperPrec::Default);
    assert_eq!(num("1").get_oper_prec(), OperPrec::Default);
    assert!(OperPrec::Default < OperPrec::AddSub);
    assert!(OperPrec::AddSub < OperPrec::MulDiv);
    assert!(OperPrec::MulDiv < OperPrec::Power);
    assert!(OperPrec::Power < OperPrec::Negative);
}
