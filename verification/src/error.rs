//! What a stage reports when it stops without a result: a failure, or a
//! question for the caller.
use crate::term::Term;
use crate::token::{copy_tokens, terms, BinaryOp, Operator};
use vstd::prelude::*;

verus! {

/// The kind of a failure.
#[derive(Clone, Copy, Debug, PartialEq, Eq, Structural)]
pub enum CalculatorErrorType {
    /// The text holds a character that is no part of the language.
    ParseError,
    /// A numeric failure: code `0` is a division by zero, code `1` a literal
    /// that is no number.
    CalculationError(u8),
    /// The expression is malformed: a bracket left open, an operator without
    /// its operands, or a sequence that does not reduce to one number.
    SyntaxError,
}

/// The code of a division by zero.
pub const DIVISION_BY_ZERO: u8 = 0;

/// The code of a literal that is no number.
pub const MALFORMED_LITERAL: u8 = 1;

/// The mathematical model of a failure.
pub struct Fault {
    pub kind: CalculatorErrorType,
    pub index: int,
    pub input: Seq<Term>,
}

/// A failure: its kind, the index at which it was found, and the token
/// sequence as it stood at that moment.
#[derive(Debug, PartialEq)]
pub struct CalculatorError {
    err_type: CalculatorErrorType,
    index: usize,
    input: Vec<Operator>,
}

impl View for CalculatorError {
    type V = Fault;

    closed spec fn view(&self) -> Fault {
        Fault { kind: self.err_type, index: self.index as int, input: terms(self.input@) }
    }
}

impl CalculatorError {
    /// A failure of the given kind, found at `index`, with `input` as the
    /// tokens stood.
    pub fn new(error_type: CalculatorErrorType, index: usize, input: Vec<Operator>) -> (error: Self)
        ensures
            error@ == (Fault { kind: error_type, index: index as int, input: terms(input@) }),
    {
        Self { err_type: error_type, index, input }
    }

    /// The kind of the failure.
    pub fn kind(&self) -> (kind: CalculatorErrorType)
        ensures
            kind == self@.kind,
    {
        self.err_type
    }

    /// The index at which the failure was found.
    pub fn index(&self) -> (index: usize)
        ensures
            index == self@.index,
    {
        self.index
    }

    /// The token sequence as it stood when the failure was found.
    pub fn input(&self) -> (input: &Vec<Operator>)
        ensures
            terms(input@) == self@.input,
    {
        &self.input
    }
}

impl Clone for CalculatorError {
    fn clone(&self) -> (copy: Self)
        ensures
            copy@ == self@,
    {
        Self { err_type: self.err_type, index: self.index, input: copy_tokens(&self.input) }
    }
}

/// The mathematical model of a request.
pub enum Ask {
    Literal(Seq<char>),
    Arithmetic(BinaryOp, u64, u64),
}

/// A piece of floating-point work that the caller does for the library.
#[derive(Debug, PartialEq)]
pub enum Request {
    /// Read this literal, a run of digits and decimal points, as a double.
    /// The answer is the double's bit pattern, or `None` where the literal is
    /// no number.
    Literal(String),
    /// Apply the operation to the two doubles with these bit patterns, the
    /// left operand first. The answer is the bit pattern of the result.
    Arithmetic(BinaryOp, u64, u64),
}

impl View for Request {
    type V = Ask;

    open spec fn view(&self) -> Ask {
        match self {
            Request::Literal(text) => Ask::Literal(text@),
            Request::Arithmetic(op, lhs, rhs) => Ask::Arithmetic(*op, *lhs, *rhs),
        }
    }
}

impl Clone for Request {
    fn clone(&self) -> (copy: Self)
        ensures
            copy@ == self@,
    {
        match self {
            Request::Literal(text) => Request::Literal(text.clone()),
            Request::Arithmetic(op, lhs, rhs) => Request::Arithmetic(*op, *lhs, *rhs),
        }
    }
}

/// The mathematical model of a halt.
pub enum Stop {
    Pending(Ask),
    Failed(Fault),
}

/// Why a stage returned no result.
#[derive(Debug, PartialEq)]
pub enum Halt {
    /// The answers given so far do not reach: the caller answers this
    /// request, adds the answer to those it gave before, and calls again.
    Pending(Request),
    /// The expression is in error.
    Failed(CalculatorError),
}

impl View for Halt {
    type V = Stop;

    open spec fn view(&self) -> Stop {
        match self {
            Halt::Pending(request) => Stop::Pending(request@),
            Halt::Failed(error) => Stop::Failed(error@),
        }
    }
}

} // verus!
