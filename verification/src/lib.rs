//! Analysis of arithmetic expressions given as text.
//!
//! The library turns an expression string into a stream of tokens
//! ([`tokenizer`]) and then into an abstract syntax tree ([`parser`]) by
//! recursive descent with operator-precedence climbing. Every step is
//! specified against a mathematical model of the input text, so the token
//! stream and the tree returned for a given string are pinned down exactly.
//!
//! Numeric literals are kept as their text (digits and at most one decimal
//! point); turning a literal into a machine number, and evaluating the tree
//! with floating-point arithmetic, is left to the caller.

pub mod parser;
pub mod tokenizer;
