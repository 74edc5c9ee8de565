//! Reduction of a grouped sequence to one number, in precedence order.
use crate::error::{
    Ask, CalculatorError, CalculatorErrorType, Fault, Halt, Request, Stop, DIVISION_BY_ZERO,
};
use crate::term::{lemma_weight_concat, lemma_weight_group, lemma_weight_len, weight, Term};
use crate::token::{copy_tokens, terms, BinaryOp, Level, Operator};
use vstd::prelude::*;

verus! {

/// Whether the bit pattern is that of a double equal to zero: `0.0` or `-0.0`.
pub open spec fn is_zero(bits: u64) -> bool {
    bits == 0 || bits == 0x8000_0000_0000_0000u64
}

/// The index of the first operator of the level at or after `from`; the
/// length of the sequence where there is none.
pub open spec fn operator_at(ts: Seq<Term>, level: Level, from: int) -> int
    decreases ts.len() - from,
{
    if from < 0 || from >= ts.len() {
        ts.len() as int
    } else if ts[from] matches Term::Operation(op) && op.level() == level {
        from
    } else {
        operator_at(ts, level, from + 1)
    }
}

/// The sequence with the operator at `at` and its two operands replaced by
/// one number.
pub open spec fn replaced(ts: Seq<Term>, at: int, bits: u64) -> Seq<Term> {
    ts.take(at - 1).push(Term::Number(bits)) + ts.skip(at + 2)
}

/// A malformed expression, found at `at`.
pub open spec fn malformed(at: int, ts: Seq<Term>) -> Fault {
    Fault { kind: CalculatorErrorType::SyntaxError, index: at, input: ts }
}

/// A division whose divisor, at `at`, is zero.
pub open spec fn division_by_zero(at: int, ts: Seq<Term>) -> Fault {
    Fault { kind: CalculatorErrorType::CalculationError(DIVISION_BY_ZERO), index: at, input: ts }
}

/// The value of the operand at `of` for the operator at `at`, and how many
/// answers are used once it is known.
///
/// A number is its own value. A group is reduced on its own, from the first
/// pass on. Anything else, or no term at all, is malformed.
pub open spec fn operand(ts: Seq<Term>, at: int, of: int, answers: Seq<u64>, used: int) -> Result<
    (u64, int),
    Stop,
>
    decreases weight(ts), 0nat,
{
    if of < 0 || of >= ts.len() {
        Err(Stop::Failed(malformed(at, ts)))
    } else {
        match ts[of] {
            Term::Number(bits) => Ok((bits, used)),
            Term::Group(inner) => {
                proof {
                    lemma_weight_group(ts, of);
                }
                reduced(inner, Level::Power, answers, used)
            },
            _ => Err(Stop::Failed(malformed(at, ts))),
        }
    }
}

/// The value of a sequence from the pass of `level` on, with `used` of the
/// answers used before, and how many are used once it is known.
///
/// The pass takes the first operator of its level that stands at index 1 or
/// later, finds the values of its left and of its right operand, and asks for
/// the result: the next answer. The three terms become that one number and
/// the pass starts again. A division by a zero fails at the divisor. Where the
/// answers given do not reach, the request for the missing one is the outcome.
/// When no operator of the level is left the next pass begins. After the last
/// pass the sequence must be one number. An operator that stands last has no
/// right operand and is malformed.
pub open spec fn reduced(ts: Seq<Term>, level: Level, answers: Seq<u64>, used: int) -> Result<
    (u64, int),
    Stop,
>
    decreases weight(ts), level.rank(),
{
    let at = operator_at(ts, level, 1);
    if at >= ts.len() {
        match level {
            Level::Power => reduced(ts, Level::Product, answers, used),
            Level::Product => reduced(ts, Level::Sum, answers, used),
            Level::Sum => if ts.len() == 1 && ts[0] is Number {
                Ok((ts[0]->Number_0, used))
            } else {
                Err(Stop::Failed(malformed(0, ts)))
            },
        }
    } else {
        let op = ts[at]->Operation_0;
        match operand(ts, at, at - 1, answers, used) {
            Err(stop) => Err(stop),
            Ok((lhs, after_lhs)) => if at + 1 >= ts.len() {
                Err(Stop::Failed(malformed(at, ts)))
            } else {
                match operand(ts, at, at + 1, answers, after_lhs) {
                    Err(stop) => Err(stop),
                    Ok((rhs, after_rhs)) => if op == BinaryOp::Div && is_zero(rhs) {
                        Err(Stop::Failed(division_by_zero(at + 1, ts)))
                    } else if after_rhs < 0 || after_rhs >= answers.len() {
                        Err(Stop::Pending(Ask::Arithmetic(op, lhs, rhs)))
                    } else {
                        proof {
                            lemma_operator_at_bounds(ts, level, 1);
                            lemma_replaced_weight(ts, at, answers[after_rhs]);
                        }
                        reduced(
                            replaced(ts, at, answers[after_rhs]),
                            level,
                            answers,
                            after_rhs + 1,
                        )
                    },
                }
            },
        }
    }
}

/// The value of a grouped sequence, given the results of its arithmetic in
/// the order in which it asks for them.
pub open spec fn evaluation(ts: Seq<Term>, answers: Seq<u64>) -> Result<u64, Stop> {
    match reduced(ts, Level::Power, answers, 0) {
        Ok((bits, _)) => Ok(bits),
        Err(stop) => Err(stop),
    }
}

/// Where the first operator of a level is found: at or after `from`, and
/// what stands there is an operator of the level.
pub proof fn lemma_operator_at_bounds(ts: Seq<Term>, level: Level, from: int)
    requires
        0 <= from,
    ensures
        from <= operator_at(ts, level, from) || operator_at(ts, level, from) == ts.len(),
        operator_at(ts, level, from) <= ts.len(),
        operator_at(ts, level, from) < ts.len() ==> ts[operator_at(ts, level, from)] is Operation
            && ts[operator_at(ts, level, from)]->Operation_0.level() == level,
    decreases ts.len() - from,
{
    if from < ts.len() && !(ts[from] matches Term::Operation(op) && op.level() == level) {
        lemma_operator_at_bounds(ts, level, from + 1);
    }
}

proof fn lemma_operand_asks_arithmetic(
    ts: Seq<Term>,
    at: int,
    of: int,
    answers: Seq<u64>,
    used: int,
)
    ensures
        operand(ts, at, of, answers, used) matches Err(Stop::Pending(ask)) ==> ask is Arithmetic,
    decreases weight(ts), 0nat,
{
    if 0 <= of < ts.len() {
        match ts[of] {
            Term::Group(inner) => {
                lemma_weight_group(ts, of);
                lemma_reduced_asks_arithmetic(inner, Level::Power, answers, used);
            },
            _ => {},
        }
    }
}

proof fn lemma_reduced_asks_arithmetic(ts: Seq<Term>, level: Level, answers: Seq<u64>, used: int)
    ensures
        reduced(ts, level, answers, used) matches Err(Stop::Pending(ask)) ==> ask is Arithmetic,
    decreases weight(ts), level.rank(),
{
    let at = operator_at(ts, level, 1);
    if at >= ts.len() {
        match level {
            Level::Power => lemma_reduced_asks_arithmetic(ts, Level::Product, answers, used),
            Level::Product => lemma_reduced_asks_arithmetic(ts, Level::Sum, answers, used),
            Level::Sum => {},
        }
    } else {
        lemma_operator_at_bounds(ts, level, 1);
        lemma_operand_asks_arithmetic(ts, at, at - 1, answers, used);
        let left = operand(ts, at, at - 1, answers, used);
        if left is Ok && at + 1 < ts.len() {
            let after_lhs = left->Ok_0.1;
            lemma_operand_asks_arithmetic(ts, at, at + 1, answers, after_lhs);
            let right = operand(ts, at, at + 1, answers, after_lhs);
            if right is Ok {
                let (rhs, after_rhs) = right->Ok_0;
                if !(ts[at]->Operation_0 == BinaryOp::Div && is_zero(rhs)) && 0 <= after_rhs
                    < answers.len() {
                    lemma_replaced_weight(ts, at, answers[after_rhs]);
                    lemma_reduced_asks_arithmetic(
                        replaced(ts, at, answers[after_rhs]),
                        level,
                        answers,
                        after_rhs + 1,
                    );
                }
            }
        }
    }
}

/// An evaluation asks for arithmetic and for nothing else.
pub proof fn lemma_evaluation_asks_arithmetic(ts: Seq<Term>, answers: Seq<u64>)
    ensures
        evaluation(ts, answers) matches Err(Stop::Pending(ask)) ==> ask is Arithmetic,
{
    lemma_reduced_asks_arithmetic(ts, Level::Power, answers, 0);
}

proof fn lemma_reduced_leading_operator(
    ts: Seq<Term>,
    level: Level,
    answers: Seq<u64>,
    used: int,
)
    requires
        ts.len() > 0,
        ts[0] is Operation,
    ensures
        reduced(ts, level, answers, used) is Err,
    decreases weight(ts), level.rank(),
{
    let at = operator_at(ts, level, 1);
    if at >= ts.len() {
        match level {
            Level::Power => lemma_reduced_leading_operator(ts, Level::Product, answers, used),
            Level::Product => lemma_reduced_leading_operator(ts, Level::Sum, answers, used),
            Level::Sum => {},
        }
    } else {
        lemma_operator_at_bounds(ts, level, 1);
        let left = operand(ts, at, at - 1, answers, used);
        if left is Ok && at + 1 < ts.len() {
            let right = operand(ts, at, at + 1, answers, left->Ok_0.1);
            if right is Ok {
                let (rhs, after_rhs) = right->Ok_0;
                if !(ts[at]->Operation_0 == BinaryOp::Div && is_zero(rhs)) && 0 <= after_rhs
                    < answers.len() {
                    let next = replaced(ts, at, answers[after_rhs]);
                    lemma_replaced_weight(ts, at, answers[after_rhs]);
                    assert(next[0] == ts[0]);
                    lemma_reduced_leading_operator(next, level, answers, after_rhs + 1);
                }
            }
        }
    }
}

/// There is no sign: a sequence that begins with an operator has no value,
/// whatever the answers.
pub proof fn lemma_leading_operator_fails(ts: Seq<Term>, answers: Seq<u64>)
    requires
        ts.len() > 0,
        ts[0] is Operation,
    ensures
        evaluation(ts, answers) is Err,
{
    lemma_reduced_leading_operator(ts, Level::Power, answers, 0);
}

/// Replacing an operator and its operands by a number makes a sequence
/// lighter.
pub proof fn lemma_replaced_weight(ts: Seq<Term>, at: int, bits: u64)
    requires
        1 <= at,
        at + 1 < ts.len(),
    ensures
        weight(replaced(ts, at, bits)) < weight(ts),
{
    let front = ts.take(at - 1);
    let middle = ts.subrange(at - 1, at + 2);
    let back = ts.skip(at + 2);
    assert(ts =~= front + middle + back);
    lemma_weight_concat(front + middle, back);
    lemma_weight_concat(front, middle);
    let number = seq![Term::Number(bits)];
    assert(replaced(ts, at, bits) =~= front + number + back);
    lemma_weight_concat(front + number, back);
    lemma_weight_concat(front, number);
    assert(number.drop_last() =~= Seq::<Term>::empty());
    assert(weight(number) == 1) by {
        reveal_with_fuel(weight, 2);
    }
    lemma_weight_len(middle);
}

/// The outcome of a reduction in terms of the model.
pub open spec fn outcome(result: Result<(u64, usize), Halt>) -> Result<(u64, int), Stop> {
    match result {
        Ok((bits, used)) => Ok((bits, used as int)),
        Err(halt) => Err(halt@),
    }
}

/// Whether the double with this bit pattern equals zero.
pub fn is_zero_bits(bits: u64) -> (zero: bool)
    ensures
        zero == is_zero(bits),
{
    bits == 0 || bits == 0x8000_0000_0000_0000u64
}

/// The first operator of the level from index 1 on, with its index; the
/// length of the sequence where there is none.
fn find_operator(tokens: &Vec<Operator>, level: Level) -> (found: (usize, BinaryOp))
    ensures
        found.0 == operator_at(terms(tokens@), level, 1),
        found.0 < tokens.len() ==> 1 <= found.0 && terms(tokens@)[found.0 as int]
            == Term::Operation(found.1),
        found.0 <= tokens.len(),
{
    let ghost ts = terms(tokens@);
    let mut at: usize = 1;
    if tokens.len() == 0 {
        return (0, BinaryOp::Add);
    }
    while at < tokens.len()
        invariant
            ts == terms(tokens@),
            1 <= at <= tokens.len(),
            operator_at(ts, level, 1) == operator_at(ts, level, at as int),
        decreases tokens.len() - at,
    {
        assert(ts[at as int] == tokens@[at as int]@);
        match tokens[at].operation() {
            Some(op) => {
                if op.precedence() == level {
                    return (at, op);
                }
            },
            None => {},
        }
        at += 1;
    }
    (at, BinaryOp::Add)
}

/// The value of the operand at `of` for the operator at `at`.
fn operand_value(
    tokens: &Vec<Operator>,
    at: usize,
    of: usize,
    answers: &Vec<u64>,
    used: usize,
) -> (result: Result<(u64, usize), Halt>)
    requires
        used <= answers.len(),
    ensures
        outcome(result) == operand(terms(tokens@), at as int, of as int, answers@, used as int),
        result matches Ok((_, after)) ==> after <= answers.len(),
    decreases weight(terms(tokens@)), 0nat,
{
    if of < tokens.len() {
        assert(terms(tokens@)[of as int] == tokens@[of as int]@);
        match &tokens[of] {
            Operator::Num(bits) => {
                return Ok((*bits, used));
            },
            Operator::BracketItem(item) => {
                proof {
                    lemma_weight_group(terms(tokens@), of as int);
                }
                return reduce(copy_tokens(&item.inner_equation), answers, used);
            },
            _ => {},
        }
    }
    let snapshot = copy_tokens(tokens);
    Err(Halt::Failed(CalculatorError::new(CalculatorErrorType::SyntaxError, at, snapshot)))
}

/// The three passes over a sequence, with `used` of the answers used before.
fn reduce(tokens: Vec<Operator>, answers: &Vec<u64>, used: usize) -> (result: Result<
    (u64, usize),
    Halt,
>)
    requires
        used <= answers.len(),
    ensures
        outcome(result) == reduced(terms(tokens@), Level::Power, answers@, used as int),
        result matches Ok((_, after)) ==> after <= answers.len(),
    decreases weight(terms(tokens@)), 1nat,
{
    let ghost given = terms(tokens@);
    let mut current = tokens;
    let mut taken = used;
    let mut level = Level::Power;
    loop
        invariant
            taken <= answers.len(),
            weight(terms(current@)) <= weight(given),
            given == terms(tokens@),
            reduced(terms(current@), level, answers@, taken as int) == reduced(
                given,
                Level::Power,
                answers@,
                used as int,
            ),
        decreases weight(terms(current@)), level.rank(),
    {
        let ghost ts = terms(current@);
        let (at, op) = find_operator(&current, level);
        if at >= current.len() {
            match level {
                Level::Power => {
                    level = Level::Product;
                },
                Level::Product => {
                    level = Level::Sum;
                },
                Level::Sum => {
                    if current.len() == 1 {
                        assert(ts[0] == current@[0]@);
                        match &current[0] {
                            Operator::Num(bits) => {
                                return Ok((*bits, taken));
                            },
                            _ => {},
                        }
                    }
                    return Err(
                        Halt::Failed(
                            CalculatorError::new(CalculatorErrorType::SyntaxError, 0, current),
                        ),
                    );
                },
            }
        } else {
            let (lhs, after_lhs) = match operand_value(&current, at, at - 1, answers, taken) {
                Ok(value) => value,
                Err(halt) => {
                    return Err(halt);
                },
            };
            if at + 1 >= current.len() {
                return Err(
                    Halt::Failed(CalculatorError::new(CalculatorErrorType::SyntaxError, at, current)),
                );
            }
            let (rhs, after_rhs) = match operand_value(&current, at, at + 1, answers, after_lhs) {
                Ok(value) => value,
                Err(halt) => {
                    return Err(halt);
                },
            };
            if op == BinaryOp::Div && is_zero_bits(rhs) {
                return Err(
                    Halt::Failed(
                        CalculatorError::new(
                            CalculatorErrorType::CalculationError(DIVISION_BY_ZERO),
                            at + 1,
                            current,
                        ),
                    ),
                );
            }
            if after_rhs >= answers.len() {
                return Err(Halt::Pending(Request::Arithmetic(op, lhs, rhs)));
            }
            let bits = answers[after_rhs];
            proof {
                lemma_replaced_weight(ts, at as int, bits);
            }
            current.remove(at + 1);
            current.remove(at);
            current.remove(at - 1);
            current.insert(at - 1, Operator::Num(bits));
            taken = after_rhs + 1;
            assert(terms(current@) =~= replaced(ts, at as int, bits));
        }
    }
}

/// Reduces a grouped sequence to one number.
///
/// `answers` holds the results of the arithmetic done so far, in the order in
/// which it was asked for. The result is the number, or the request for the
/// next piece of arithmetic, or the failure of the expression: `evaluation`
/// of the tokens and the answers. Answers beyond those asked for are not
/// looked at.
pub fn evaluate(tokens: Vec<Operator>, answers: &Vec<u64>) -> (result: Result<u64, Halt>)
    ensures
        match result {
            Ok(bits) => evaluation(terms(tokens@), answers@) == Ok::<u64, Stop>(bits),
            Err(halt) => evaluation(terms(tokens@), answers@) == Err::<u64, Stop>(halt@),
        },
        result matches Err(Halt::Pending(request)) ==> request is Arithmetic,
{
    proof {
        lemma_evaluation_asks_arithmetic(terms(tokens@), answers@);
    }
    match reduce(tokens, answers, 0) {
        Ok((bits, _)) => Ok(bits),
        Err(halt) => Err(halt),
    }
}

} // verus!
