use calculator::{
    BinaryOp, Calculator, CalculatorError, CalculatorErrorType, Halt, Operator, Request,
};

fn apply(op: BinaryOp, lhs: u64, rhs: u64) -> u64 {
    let (lhs, rhs) = (f64::from_bits(lhs), f64::from_bits(rhs));
    let value = match op {
        BinaryOp::Add => lhs + rhs,
        BinaryOp::Sub => lhs - rhs,
        BinaryOp::Mul => lhs * rhs,
        BinaryOp::Div => lhs / rhs,
        BinaryOp::Pow => lhs.powf(rhs),
    };
    value.to_bits()
}

fn run(input: &str) -> Result<f64, CalculatorError> {
    let text = input.trim().replace(" ", "");
    let mut calculator = Calculator::new();
    let mut literals: Vec<Option<u64>> = Vec::new();
    let mut results: Vec<u64> = Vec::new();
    loop {
        match calculator.calculate(&text, &literals, &results) {
            Ok(bits) => return Ok(f64::from_bits(bits)),
            Err(Halt::Failed(error)) => return Err(error),
            Err(Halt::Pending(Request::Literal(literal))) => {
                literals.push(literal.parse::<f64>().ok().map(f64::to_bits));
            }
            Err(Halt::Pending(Request::Arithmetic(op, lhs, rhs))) => {
                results.push(apply(op, lhs, rhs));
            }
        }
    }
}

fn num(value: f64) -> Operator {
    Operator::Num(value.to_bits())
}

#[test]
fn equation_input() {
    assert_eq!(run("(10-9)(1+21)").unwrap(), 22.0);
}

#[test]
fn addition() {
    assert_eq!(run("234+324").unwrap(), 558.0);
}

#[test]
fn multiplication() {
    assert_eq!(run("234*324/212").unwrap(), 234.0 * 324.0 / 212.0);
}

#[test]
fn division_by_a_group() {
    assert_eq!(run("9*2/(3/3)").unwrap(), 18.0);
}

#[test]
fn division_by_zero_points_at_the_divisor() {
    let error = run("1/0").unwrap_err();
    assert_eq!(error.kind(), CalculatorErrorType::CalculationError(0));
    assert_eq!(error.index(), 2);
    assert_eq!(error.input(), &vec![num(1.0), Operator::Division, num(0.0)]);
}

#[test]
fn open_bracket_is_a_syntax_error() {
    let error = run("(1+2").unwrap_err();
    assert_eq!(error.kind(), CalculatorErrorType::SyntaxError);
    assert_eq!(error.index(), 0);
    assert_eq!(
        error.input(),
        &vec![Operator::LBracket, num(1.0), Operator::Addition, num(2.0)]
    );
}

#[test]
fn open_bracket_after_other_tokens() {
    let error = run("7*(1+2").unwrap_err();
    assert_eq!(error.kind(), CalculatorErrorType::SyntaxError);
    assert_eq!(error.index(), 2);
}

#[test]
fn unknown_character_is_a_parse_error() {
    let error = run("2@3").unwrap_err();
    assert_eq!(error.kind(), CalculatorErrorType::ParseError);
    assert_eq!(error.index(), 1);
    assert_eq!(error.input(), &vec![num(2.0)]);
}

#[test]
fn subtraction_runs_left_to_right() {
    assert_eq!(run("10-4-3").unwrap(), (10.0 - 4.0) - 3.0);
    assert_eq!(run("0.1-0.2-0.3").unwrap(), (0.1 - 0.2) - 0.3);
}

#[test]
fn repeated_calls_agree() {
    let first = run("2^0.5*(3-1.25)/7").unwrap();
    let second = run("2^0.5*(3-1.25)/7").unwrap();
    assert_eq!(first.to_bits(), second.to_bits());
}

#[test]
fn power_binds_tighter_than_product() {
    assert_eq!(run("2*3^2").unwrap(), 18.0);
    assert_eq!(run("2^3^2").unwrap(), 64.0);
}

#[test]
fn product_binds_tighter_than_sum() {
    assert_eq!(run("1+2*3").unwrap(), 7.0);
    assert_eq!(run("8-6/3").unwrap(), 6.0);
}

#[test]
fn percent_divides() {
    assert_eq!(run("9%3").unwrap(), 3.0);
}

#[test]
fn blanks_are_the_callers_to_remove() {
    assert_eq!(run(" 43 + 234 ").unwrap(), 277.0);
    let mut calculator = Calculator::new();
    let literals = vec![Some(43f64.to_bits())];
    let halt = calculator.calculate("43 +234", &literals, &Vec::new()).unwrap_err();
    match halt {
        Halt::Failed(error) => {
            assert_eq!(error.kind(), CalculatorErrorType::ParseError);
            assert_eq!(error.index(), 2);
        }
        Halt::Pending(_) => panic!("a blank is no request"),
    }
}

#[test]
fn nested_brackets() {
    assert_eq!(run("((2+3)*(4-1))^2").unwrap(), 225.0);
    assert_eq!(run("2(3)").unwrap(), 6.0);
    assert_eq!(run("(2)3").unwrap(), 6.0);
    assert_eq!(run("(((42*3)-18)/2)+((5*6)-(12/2))").unwrap(), 78.0);
}

#[test]
fn malformed_literal_in_the_middle() {
    let error = run("1+1.2.3*4").unwrap_err();
    assert_eq!(error.kind(), CalculatorErrorType::CalculationError(1));
    assert_eq!(error.index(), 7);
    assert_eq!(error.input(), &vec![num(1.0), Operator::Addition]);
}

#[test]
fn malformed_literal_at_the_end() {
    let error = run("1+1.2.3").unwrap_err();
    assert_eq!(error.kind(), CalculatorErrorType::CalculationError(1));
    assert_eq!(error.index(), 3);
    assert_eq!(error.input(), &vec![num(1.0), Operator::Addition]);
}

#[test]
fn leading_minus_is_no_negation() {
    let error = run("-5").unwrap_err();
    assert_eq!(error.kind(), CalculatorErrorType::SyntaxError);
    assert_eq!(error.index(), 0);
}

#[test]
fn operator_without_right_operand() {
    let error = run("2*3+").unwrap_err();
    assert_eq!(error.kind(), CalculatorErrorType::SyntaxError);
    assert_eq!(error.index(), 1);
    assert_eq!(error.input(), &vec![num(6.0), Operator::Addition]);
}

#[test]
fn empty_text_is_a_syntax_error() {
    let error = run("").unwrap_err();
    assert_eq!(error.kind(), CalculatorErrorType::SyntaxError);
    assert_eq!(error.index(), 0);
    assert!(error.input().is_empty());
}

#[test]
fn a_lone_group_is_no_number() {
    let error = run("(5)").unwrap_err();
    assert_eq!(error.kind(), CalculatorErrorType::SyntaxError);
    assert_eq!(error.index(), 0);
}

#[test]
fn literals_with_a_bare_point() {
    assert_eq!(run("5.+.5").unwrap(), 5.5);
    let error = run(".").unwrap_err();
    assert_eq!(error.kind(), CalculatorErrorType::CalculationError(1));
}

#[test]
fn empty_brackets_are_a_syntax_error() {
    let error = run("()").unwrap_err();
    assert_eq!(error.kind(), CalculatorErrorType::SyntaxError);
    assert_eq!(error.index(), 0);
    assert!(error.input().is_empty());
}

#[test]
fn a_failure_inside_brackets_carries_the_inner_tokens() {
    let error = run("3+(4/(2-2))").unwrap_err();
    assert_eq!(error.kind(), CalculatorErrorType::CalculationError(0));
    assert_eq!(error.index(), 2);
    assert_eq!(error.input().len(), 3);
    assert_eq!(error.input()[0], num(4.0));
    assert_eq!(error.input()[1], Operator::Division);
}

#[test]
fn power_of_fractions_follows_the_doubles() {
    assert_eq!(run("2^0.5").unwrap(), 2f64.powf(0.5));
    assert!(run("(0-8)^0.5").unwrap().is_nan());
}

#[test]
fn a_long_expression() {
    let value = run("(((42 * 3) - 18) / 2) + ((5 * 6) - (12 / 2)) + ((80 - (3 * 7)) + ((24 / 6) * 5)) - ((9 * 2) - 5) + (((96 / 4) + (7 * 3)) - (5^2))").unwrap();
    assert_eq!(value, 54.0 + 24.0 + (59.0 + 20.0) - 13.0 + (45.0 - 25.0));
}

#[test]
fn the_first_request_is_the_first_literal() {
    let mut calculator = Calculator::new();
    let halt = calculator.calculate("12.5+3", &Vec::new(), &Vec::new()).unwrap_err();
    assert_eq!(halt, Halt::Pending(Request::Literal("12.5".to_string())));
    let literals = vec![Some(12.5f64.to_bits())];
    let halt = calculator.calculate("12.5+3", &literals, &Vec::new()).unwrap_err();
    assert_eq!(halt, Halt::Pending(Request::Literal("3".to_string())));
    let literals = vec![Some(12.5f64.to_bits()), Some(3f64.to_bits())];
    let halt = calculator.calculate("12.5+3", &literals, &Vec::new()).unwrap_err();
    assert_eq!(
        halt,
        Halt::Pending(Request::Arithmetic(BinaryOp::Add, 12.5f64.to_bits(), 3f64.to_bits()))
    );
    let results = vec![15.5f64.to_bits()];
    assert_eq!(calculator.calculate("12.5+3", &literals, &results), Ok(15.5f64.to_bits()));
}
