use calculator::{
    BinaryOp, BracketItem, Calculator, CalculatorError, CalculatorErrorType, Halt, Operator, Request,
};

const PARSE: CalculatorErrorType = CalculatorErrorType::ParseError;
const SYNTAX: CalculatorErrorType = CalculatorErrorType::SyntaxError;
const ZERO: CalculatorErrorType = CalculatorErrorType::CalculationError(0);
const LITERAL: CalculatorErrorType = CalculatorErrorType::CalculationError(1);

fn apply(op: BinaryOp, lhs: u64, rhs: u64) -> u64 {
    let (lhs, rhs) = (f64::from_bits(lhs), f64::from_bits(rhs));
    let value = match op {
        BinaryOp::Add => lhs + rhs,
        BinaryOp::Sub => lhs - rhs,
        BinaryOp::Mul => lhs * rhs,
        BinaryOp::Div => lhs / rhs,
        BinaryOp::Pow => lhs.powf(rhs),
    };
    value.to_bits()
}

fn answer_all(input: &str) -> Result<f64, CalculatorError> {
    let mut calculator = Calculator::new();
    let mut literals: Vec<Option<u64>> = Vec::new();
    let mut results: Vec<u64> = Vec::new();
    loop {
        assert!(literals.len() <= input.chars().count(), "too many literals for {}", input);
        assert!(results.len() <= 2 * input.chars().count(), "too much arithmetic for {}", input);
        match calculator.calculate(input, &literals, &results) {
            Ok(bits) => return Ok(f64::from_bits(bits)),
            Err(Halt::Failed(error)) => return Err(error),
            Err(Halt::Pending(Request::Literal(literal))) => {
                literals.push(literal.parse::<f64>().ok().map(f64::to_bits));
            }
            Err(Halt::Pending(Request::Arithmetic(op, lhs, rhs))) => {
                results.push(apply(op, lhs, rhs));
            }
        }
    }
}

fn gives(input: &str, value: f64) {
    match answer_all(input) {
        Ok(got) => assert_eq!(got.to_bits(), value.to_bits(), "value of {}", input),
        Err(error) => panic!("{} fails with {:?}", input, error),
    }
}

fn fails(input: &str, kind: CalculatorErrorType, index: usize, tokens: Vec<Operator>) {
    match answer_all(input) {
        Ok(got) => panic!("{} gives {}", input, got),
        Err(error) => {
            assert_eq!(error.kind(), kind, "kind for {}", input);
            assert_eq!(error.index(), index, "index for {}", input);
            assert_eq!(error.input(), &tokens, "tokens for {}", input);
        }
    }
}

fn n(value: f64) -> Operator {
    Operator::Num(value.to_bits())
}

fn g(inner: Vec<Operator>) -> Operator {
    Operator::BracketItem(BracketItem::new(inner))
}

use Operator::{
    Addition as Plus, Division as Over, LBracket as Open, Multiplication as Times, Power as Hat,
    RBracket as Close, Subtraction as Minus,
};

#[test]
fn values_of_plain_expressions() {
    gives("67", 67.0);
    gives("1+3/100", 1.0 + 3.0 / 100.0);
    gives("1/3", 1.0 / 3.0);
    gives("7%2", 3.5);
    gives("10/4/5", 0.5);
    gives("1-2-3", -4.0);
    gives("8-6/3", 6.0);
    gives("2*3^2", 18.0);
    gives("2^3^2", 64.0);
    gives("2^0", 1.0);
    gives("0^0", 1.0);
}

#[test]
fn values_of_bracketed_expressions() {
    gives("12*(3.5+4)", 90.0);
    gives("(1+2)*(3+4)", 21.0);
    gives("2*(3+(4*(5-1)))", 38.0);
    gives("(((1)+1)+1)+1", 4.0);
    gives("9*2/(3/3)", 18.0);
    gives("(4./7)*(7)+2.25+(100)", 4.0 / 7.0 * 7.0 + 2.25 + 100.0);
}

#[test]
fn values_of_implied_products() {
    gives("0.5(1)", 0.5);
    gives("(1+2)3", 9.0);
    gives("2(3)(4)", 24.0);
    gives("(2)(3)4", 24.0);
    gives("(1)(2)(3)", 6.0);
    gives("100(4.(4.)+(0.5))*4.", 6600.0);
}

#[test]
fn characters_outside_the_language() {
    fails("1@", PARSE, 1, vec![n(1.0)]);
    fails("(@", PARSE, 1, vec![Open]);
    fails("1 + 1", PARSE, 1, vec![n(1.0)]);
}

#[test]
fn literals_that_are_no_numbers() {
    fails("2..25", LITERAL, 1, vec![]);
    fails("1.5.", LITERAL, 1, vec![]);
    fails("..", LITERAL, 1, vec![]);
    fails(".^", LITERAL, 1, vec![]);
    fails("1.1.1+(", LITERAL, 5, vec![]);
    fails("2.25(.@)", LITERAL, 6, vec![n(2.25), Open]);
}

#[test]
fn divisions_by_zero() {
    fails("0/0", ZERO, 2, vec![n(0.0), Over, n(0.0)]);
    fails("1/0.0", ZERO, 2, vec![n(1.0), Over, n(0.0)]);
    fails("1/(0)", ZERO, 2, vec![n(1.0), Over, g(vec![n(0.0)])]);
    fails("(3)/(0)", ZERO, 2, vec![g(vec![n(3.0)]), Over, g(vec![n(0.0)])]);
    fails("1/(2-2)", ZERO, 2, vec![n(1.0), Over, g(vec![n(2.0), Minus, n(2.0)])]);
}

#[test]
fn brackets_that_do_not_match() {
    fails("(2+3", SYNTAX, 0, vec![Open, n(2.0), Plus, n(3.0)]);
    fails("2+3)", SYNTAX, 0, vec![n(2.0), Plus, n(3.0), Close]);
    fails("3(", SYNTAX, 2, vec![n(3.0), Times, Open]);
    fails("(()", SYNTAX, 0, vec![Open, Open, Close, Times]);
    fails("())", SYNTAX, 0, vec![g(vec![]), Times, Close]);
    fails(")/8102", SYNTAX, 0, vec![Close, Over, n(8102.0)]);
    fails("(1/0)+(", SYNTAX, 2, vec![g(vec![n(1.0), Over, n(0.0)]), Plus, Open]);
    fails(")(", SYNTAX, 1, vec![Close, Times, Open]);
    fails("5)(", SYNTAX, 2, vec![n(5.0), Close, Times, Open]);
}

#[test]
fn operators_without_operands() {
    fails("/", SYNTAX, 0, vec![Over]);
    fails("+1", SYNTAX, 0, vec![Plus, n(1.0)]);
    fails("^3", SYNTAX, 0, vec![Hat, n(3.0)]);
    fails("1+", SYNTAX, 1, vec![n(1.0), Plus]);
    fails("3^", SYNTAX, 1, vec![n(3.0), Hat]);
    fails("1++1", SYNTAX, 1, vec![n(1.0), Plus, Plus, n(1.0)]);
    fails("1*/2", SYNTAX, 1, vec![n(1.0), Times, Over, n(2.0)]);
    fails("*^7/7", SYNTAX, 1, vec![Times, Hat, n(7.0), Over, n(7.0)]);
    fails("-+719*", SYNTAX, 3, vec![Minus, Plus, n(719.0), Times]);
    fails("/0(7)", SYNTAX, 0, vec![Over, n(0.0)]);
}

#[test]
fn groups_that_stand_alone() {
    fails("(.5)", SYNTAX, 0, vec![g(vec![n(0.5)])]);
    fails("((2))*3", SYNTAX, 0, vec![g(vec![n(2.0)])]);
    fails("((0.5+1))-(4.)", SYNTAX, 0, vec![g(vec![n(0.5), Plus, n(1.0)])]);
}
