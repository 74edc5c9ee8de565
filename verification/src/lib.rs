//! A calculator for infix arithmetic: numbers, `+ - * / ^`, brackets and
//! implicit multiplication.
//!
//! The crate holds every rule of the language: how text becomes tokens,
//! where a multiplication is implied, how brackets nest, and in which order
//! operators are reduced. It never touches a floating-point number. A number
//! is carried as the bit pattern of an IEEE-754 double, and the two things that
//! need the floating-point unit (reading a literal and applying an operator)
//! are asked of the caller, one [`Request`] at a time. The caller records each
//! answer and calls again; with the same text and the same answers the same
//! result comes back.
//!
//! The stages are [`tokenize`], [`normalize`], [`group`] and [`evaluate`];
//! [`Calculator::calculate`] runs them in turn. Each is specified by a
//! function on sequences of [`Term`]s, the model of tokens. The module
//! `meaning` defines the value of a text where the floating-point work is
//! given as two functions, and the module `replay` proves that a caller who
//! answers every request by those functions arrives at that value, after a
//! bounded number of requests.
pub mod calculator;
pub mod display;
pub mod error;
pub mod evaluator;
pub mod grouper;
pub mod meaning;
pub mod normalizer;
pub mod replay;
pub mod term;
pub mod token;
pub mod tokenizer;

pub use calculator::{parse, Calculator};
pub use display::flatten;
pub use error::{Ask, CalculatorError, CalculatorErrorType, Fault, Halt, Request, Stop};
pub use evaluator::evaluate;
pub use grouper::group;
pub use normalizer::normalize;
pub use term::Term;
pub use token::{copy_tokens, BinaryOp, BracketItem, Level, Operator};
pub use tokenizer::tokenize;
