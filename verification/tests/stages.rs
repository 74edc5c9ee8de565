use calculator::{
    copy_tokens, evaluate, flatten, group, normalize, parse, tokenize, BinaryOp, BracketItem,
    CalculatorError, CalculatorErrorType, Halt, Level, Operator, Request,
};

fn num(value: f64) -> Operator {
    Operator::Num(value.to_bits())
}

fn item(inner: Vec<Operator>) -> Operator {
    Operator::BracketItem(BracketItem::new(inner))
}

fn values(literals: &[f64]) -> Vec<Option<u64>> {
    literals.iter().map(|value| Some(value.to_bits())).collect()
}

fn bits(results: &[f64]) -> Vec<u64> {
    results.iter().map(|value| value.to_bits()).collect()
}

fn failure(halt: Halt) -> CalculatorError {
    match halt {
        Halt::Failed(error) => error,
        Halt::Pending(request) => panic!("unexpected request {:?}", request),
    }
}

#[test]
fn tokenize_reads_every_symbol() {
    let tokens = tokenize("+-*/%^()", &Vec::new()).unwrap();
    assert_eq!(
        tokens,
        vec![
            Operator::Addition,
            Operator::Subtraction,
            Operator::Multiplication,
            Operator::Division,
            Operator::Division,
            Operator::Power,
            Operator::LBracket,
            Operator::RBracket,
        ]
    );
}

#[test]
fn tokenize_keeps_the_order_of_the_text() {
    let tokens = tokenize("12*(3.5+4)", &values(&[12.0, 3.5, 4.0])).unwrap();
    assert_eq!(
        tokens,
        vec![
            num(12.0),
            Operator::Multiplication,
            Operator::LBracket,
            num(3.5),
            Operator::Addition,
            num(4.0),
            Operator::RBracket,
        ]
    );
}

#[test]
fn tokenize_asks_for_the_whole_literal() {
    let halt = tokenize("(007.250)", &Vec::new()).unwrap_err();
    assert_eq!(halt, Halt::Pending(Request::Literal("007.250".to_string())));
    let halt = tokenize("1+22", &values(&[1.0])).unwrap_err();
    assert_eq!(halt, Halt::Pending(Request::Literal("22".to_string())));
}

#[test]
fn tokenize_takes_the_answer_as_the_value() {
    let tokens = tokenize("5", &vec![Some(77)]).unwrap();
    assert_eq!(tokens, vec![Operator::Num(77)]);
}

#[test]
fn tokenize_ignores_answers_it_does_not_need() {
    let tokens = tokenize("5+", &values(&[5.0, 6.0, 7.0])).unwrap();
    assert_eq!(tokens, vec![num(5.0), Operator::Addition]);
}

#[test]
fn tokenize_fails_at_a_literal_that_is_no_number() {
    let error = failure(tokenize("2*1..5)", &vec![Some(2f64.to_bits()), None]).unwrap_err());
    assert_eq!(error.kind(), CalculatorErrorType::CalculationError(1));
    assert_eq!(error.index(), 6);
    assert_eq!(error.input(), &vec![num(2.0), Operator::Multiplication]);
}

#[test]
fn tokenize_fails_at_a_last_literal_that_is_no_number() {
    let error = failure(tokenize("(.", &vec![None]).unwrap_err());
    assert_eq!(error.kind(), CalculatorErrorType::CalculationError(1));
    assert_eq!(error.index(), 2);
    assert_eq!(error.input(), &vec![Operator::LBracket]);
}

#[test]
fn tokenize_reads_the_literal_before_it_rejects_a_character() {
    let halt = tokenize("3x", &Vec::new()).unwrap_err();
    assert_eq!(halt, Halt::Pending(Request::Literal("3".to_string())));
    let error = failure(tokenize("3x", &values(&[3.0])).unwrap_err());
    assert_eq!(error.kind(), CalculatorErrorType::ParseError);
    assert_eq!(error.index(), 1);
    assert_eq!(error.input(), &vec![num(3.0)]);
}

#[test]
fn tokenize_rejects_characters_beyond_ascii() {
    let error = failure(tokenize("1+\u{00e9}", &values(&[1.0])).unwrap_err());
    assert_eq!(error.kind(), CalculatorErrorType::ParseError);
    assert_eq!(error.index(), 2);
}

#[test]
fn normalize_writes_the_implied_products() {
    let tokens = vec![
        num(2.0),
        Operator::LBracket,
        num(3.0),
        Operator::RBracket,
        Operator::LBracket,
        num(4.0),
        Operator::RBracket,
        num(5.0),
    ];
    assert_eq!(
        normalize(tokens),
        vec![
            num(2.0),
            Operator::Multiplication,
            Operator::LBracket,
            num(3.0),
            Operator::RBracket,
            Operator::Multiplication,
            Operator::LBracket,
            num(4.0),
            Operator::RBracket,
            Operator::Multiplication,
            num(5.0),
        ]
    );
}

#[test]
fn normalize_leaves_explicit_operators_alone() {
    let tokens = vec![
        num(2.0),
        Operator::Multiplication,
        Operator::LBracket,
        num(3.0),
        Operator::RBracket,
        Operator::Addition,
        num(1.0),
    ];
    assert_eq!(normalize(copy_tokens(&tokens)), tokens);
}

#[test]
fn normalize_follows_an_empty_pair_by_a_product() {
    assert_eq!(
        normalize(vec![Operator::LBracket, Operator::RBracket]),
        vec![Operator::LBracket, Operator::RBracket, Operator::Multiplication]
    );
    assert_eq!(
        normalize(vec![
            Operator::LBracket,
            Operator::RBracket,
            Operator::LBracket,
            Operator::RBracket
        ]),
        vec![
            Operator::LBracket,
            Operator::RBracket,
            Operator::Multiplication,
            Operator::LBracket,
            Operator::RBracket,
            Operator::Multiplication,
        ]
    );
}

#[test]
fn normalize_of_nothing_is_nothing() {
    assert_eq!(normalize(Vec::new()), Vec::new());
}

#[test]
fn group_returns_grouped_tokens_unchanged() {
    let tokens = vec![
        item(vec![num(1.0), Operator::Addition, item(vec![num(2.0)])]),
        Operator::Multiplication,
        num(3.0),
    ];
    assert_eq!(group(copy_tokens(&tokens)).unwrap(), tokens);
    let empty: Vec<Operator> = Vec::new();
    assert_eq!(group(Vec::new()).unwrap(), empty);
}

#[test]
fn group_twice_is_group_once() {
    let tokens = tokenize("(1+(2*3))-(4)", &values(&[1.0, 2.0, 3.0, 4.0])).unwrap();
    let once = group(tokens).unwrap();
    let twice = group(copy_tokens(&once)).unwrap();
    assert_eq!(twice, once);
}

#[test]
fn group_nests_brackets() {
    let tokens = tokenize("(1+(2*3))-(4)", &values(&[1.0, 2.0, 3.0, 4.0])).unwrap();
    assert_eq!(
        group(tokens).unwrap(),
        vec![
            item(vec![
                num(1.0),
                Operator::Addition,
                item(vec![num(2.0), Operator::Multiplication, num(3.0)]),
            ]),
            Operator::Subtraction,
            item(vec![num(4.0)]),
        ]
    );
}

#[test]
fn group_fails_at_the_bracket_left_open() {
    let tokens = tokenize("1+(2*(3)", &values(&[1.0, 2.0, 3.0])).unwrap();
    let error = group(copy_tokens(&tokens)).unwrap_err();
    assert_eq!(error.kind(), CalculatorErrorType::SyntaxError);
    assert_eq!(error.index(), 2);
    assert_eq!(error.input(), &tokens);
}

#[test]
fn group_fails_at_the_remembered_bracket_when_one_closes_too_many() {
    let tokens = tokenize("1+(2))", &values(&[1.0, 2.0])).unwrap();
    let error = group(tokens).unwrap_err();
    assert_eq!(error.kind(), CalculatorErrorType::SyntaxError);
    assert_eq!(error.index(), 2);
    assert_eq!(
        error.input(),
        &vec![num(1.0), Operator::Addition, item(vec![num(2.0)]), Operator::RBracket]
    );
    let error = group(vec![num(1.0), Operator::RBracket]).unwrap_err();
    assert_eq!(error.kind(), CalculatorErrorType::SyntaxError);
    assert_eq!(error.index(), 0);
}

#[test]
fn group_leaves_brackets_that_close_before_they_open() {
    let tokens = vec![Operator::RBracket, Operator::LBracket];
    assert_eq!(group(copy_tokens(&tokens)).unwrap(), tokens);
}

#[test]
fn group_passes_over_groups_inside_a_pair() {
    let tokens = vec![Operator::LBracket, num(1.0), item(vec![num(2.0)]), Operator::RBracket];
    assert_eq!(group(tokens).unwrap(), vec![item(vec![num(1.0)])]);
}

#[test]
fn flatten_writes_groups_out_again() {
    let tokens = tokenize("(1+(2*3))-(4)", &values(&[1.0, 2.0, 3.0, 4.0])).unwrap();
    let groups = group(copy_tokens(&tokens)).unwrap();
    assert_eq!(flatten(&groups), tokens);
}

#[test]
fn a_group_turns_into_its_tokens() {
    let group = BracketItem::new(vec![num(1.0), Operator::Addition, num(2.0)]);
    let expected =
        vec![Operator::LBracket, num(1.0), Operator::Addition, num(2.0), Operator::RBracket];
    assert_eq!(group.to_tokens(), expected);
    assert_eq!(Vec::<Operator>::from(&group), expected);
}

#[test]
fn characters_are_read_back() {
    for token in tokenize("+-*/^()", &Vec::new()).unwrap() {
        let text = token.character().unwrap().to_string();
        assert_eq!(tokenize(&text, &Vec::new()).unwrap(), vec![token]);
    }
    assert_eq!(num(1.0).character(), None);
    assert_eq!(item(Vec::new()).character(), None);
}

#[test]
fn parse_normalizes_before_it_groups() {
    let tokens = tokenize("(10-9)(1+21)", &values(&[10.0, 9.0, 1.0, 21.0])).unwrap();
    assert_eq!(
        parse(tokens).unwrap(),
        vec![
            item(vec![num(10.0), Operator::Subtraction, num(9.0)]),
            Operator::Multiplication,
            item(vec![num(1.0), Operator::Addition, num(21.0)]),
        ]
    );
}

#[test]
fn evaluate_asks_for_each_operation_in_turn() {
    let tokens = vec![
        num(1.0),
        Operator::Addition,
        num(2.0),
        Operator::Multiplication,
        num(3.0),
        Operator::Power,
        num(2.0),
    ];
    let halt = evaluate(copy_tokens(&tokens), &Vec::new()).unwrap_err();
    assert_eq!(
        halt,
        Halt::Pending(Request::Arithmetic(BinaryOp::Pow, 3f64.to_bits(), 2f64.to_bits()))
    );
    let halt = evaluate(copy_tokens(&tokens), &bits(&[9.0])).unwrap_err();
    assert_eq!(
        halt,
        Halt::Pending(Request::Arithmetic(BinaryOp::Mul, 2f64.to_bits(), 9f64.to_bits()))
    );
    let halt = evaluate(copy_tokens(&tokens), &bits(&[9.0, 18.0])).unwrap_err();
    assert_eq!(
        halt,
        Halt::Pending(Request::Arithmetic(BinaryOp::Add, 1f64.to_bits(), 18f64.to_bits()))
    );
    assert_eq!(evaluate(tokens, &bits(&[9.0, 18.0, 19.0])), Ok(19f64.to_bits()));
}

#[test]
fn evaluate_takes_the_answer_as_the_result() {
    let tokens = vec![num(1.0), Operator::Addition, num(2.0)];
    assert_eq!(evaluate(tokens, &vec![1234]), Ok(1234));
}

#[test]
fn evaluate_reduces_the_left_operand_first() {
    let tokens = vec![
        item(vec![num(1.0), Operator::Addition, num(2.0)]),
        Operator::Division,
        item(vec![num(4.0), Operator::Subtraction, num(3.0)]),
    ];
    let halt = evaluate(copy_tokens(&tokens), &Vec::new()).unwrap_err();
    assert_eq!(
        halt,
        Halt::Pending(Request::Arithmetic(BinaryOp::Add, 1f64.to_bits(), 2f64.to_bits()))
    );
    let halt = evaluate(copy_tokens(&tokens), &bits(&[3.0])).unwrap_err();
    assert_eq!(
        halt,
        Halt::Pending(Request::Arithmetic(BinaryOp::Sub, 4f64.to_bits(), 3f64.to_bits()))
    );
    let halt = evaluate(copy_tokens(&tokens), &bits(&[3.0, 1.0])).unwrap_err();
    assert_eq!(
        halt,
        Halt::Pending(Request::Arithmetic(BinaryOp::Div, 3f64.to_bits(), 1f64.to_bits()))
    );
    assert_eq!(evaluate(tokens, &bits(&[3.0, 1.0, 3.0])), Ok(3f64.to_bits()));
}

#[test]
fn evaluate_fails_on_a_divisor_that_a_group_makes_zero() {
    let tokens = vec![
        num(1.0),
        Operator::Division,
        item(vec![num(2.0), Operator::Subtraction, num(2.0)]),
    ];
    let error = failure(evaluate(copy_tokens(&tokens), &bits(&[0.0])).unwrap_err());
    assert_eq!(error.kind(), CalculatorErrorType::CalculationError(0));
    assert_eq!(error.index(), 2);
    assert_eq!(error.input(), &tokens);
    let error = failure(evaluate(copy_tokens(&tokens), &bits(&[-0.0])).unwrap_err());
    assert_eq!(error.kind(), CalculatorErrorType::CalculationError(0));
}

#[test]
fn evaluate_reports_the_failure_inside_a_group() {
    let tokens = vec![
        item(vec![num(1.0), Operator::Division, num(0.0)]),
        Operator::Addition,
        num(1.0),
    ];
    let error = failure(evaluate(tokens, &Vec::new()).unwrap_err());
    assert_eq!(error.kind(), CalculatorErrorType::CalculationError(0));
    assert_eq!(error.index(), 2);
    assert_eq!(error.input(), &vec![num(1.0), Operator::Division, num(0.0)]);
}

#[test]
fn evaluate_fails_on_an_operator_as_operand() {
    let tokens = vec![num(1.0), Operator::Addition, Operator::Multiplication, num(2.0)];
    let error = failure(evaluate(copy_tokens(&tokens), &Vec::new()).unwrap_err());
    assert_eq!(error.kind(), CalculatorErrorType::SyntaxError);
    assert_eq!(error.index(), 2);
    assert_eq!(error.input(), &tokens);
}

#[test]
fn evaluate_fails_on_a_raw_bracket_as_operand() {
    let tokens = vec![num(1.0), Operator::Addition, Operator::LBracket];
    let error = failure(evaluate(tokens, &Vec::new()).unwrap_err());
    assert_eq!(error.kind(), CalculatorErrorType::SyntaxError);
    assert_eq!(error.index(), 1);
}

#[test]
fn evaluate_fails_on_what_is_no_single_number() {
    let error = failure(evaluate(vec![num(1.0), num(2.0)], &Vec::new()).unwrap_err());
    assert_eq!(error.kind(), CalculatorErrorType::SyntaxError);
    assert_eq!(error.index(), 0);
    assert_eq!(error.input(), &vec![num(1.0), num(2.0)]);
    let error = failure(evaluate(vec![item(vec![num(5.0)])], &Vec::new()).unwrap_err());
    assert_eq!(error.kind(), CalculatorErrorType::SyntaxError);
    assert_eq!(error.index(), 0);
    let error = failure(evaluate(Vec::new(), &Vec::new()).unwrap_err());
    assert_eq!(error.kind(), CalculatorErrorType::SyntaxError);
    assert_eq!(error.index(), 0);
}

#[test]
fn evaluate_of_one_number_is_the_number() {
    assert_eq!(evaluate(vec![num(42.0)], &Vec::new()), Ok(42f64.to_bits()));
}

#[test]
fn evaluate_of_an_empty_group_fails_inside_it() {
    let tokens = vec![item(Vec::new()), Operator::Multiplication];
    let error = failure(evaluate(tokens, &Vec::new()).unwrap_err());
    assert_eq!(error.kind(), CalculatorErrorType::SyntaxError);
    assert_eq!(error.index(), 0);
    assert!(error.input().is_empty());
}

#[test]
fn levels_of_the_operations() {
    assert_eq!(BinaryOp::Pow.precedence(), Level::Power);
    assert_eq!(BinaryOp::Mul.precedence(), Level::Product);
    assert_eq!(BinaryOp::Div.precedence(), Level::Product);
    assert_eq!(BinaryOp::Add.precedence(), Level::Sum);
    assert_eq!(BinaryOp::Sub.precedence(), Level::Sum);
}

#[test]
fn an_error_keeps_what_it_was_made_of() {
    let error = CalculatorError::new(CalculatorErrorType::SyntaxError, 3, vec![num(1.0)]);
    assert_eq!(error.kind(), CalculatorErrorType::SyntaxError);
    assert_eq!(error.index(), 3);
    assert_eq!(error.input(), &vec![num(1.0)]);
    assert_eq!(error.clone(), error);
}
