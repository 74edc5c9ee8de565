//! What an expression is worth where literals are read by one function and
//! the arithmetic is another.
//!
//! The executable stages take the floating-point work as lists of answers.
//! Here that work is two functions, and the value of a text is defined in one
//! piece: this is the meaning that the stages arrive at, as the module
//! `replay` proves.
use crate::calculator::parsed;
use crate::error::{CalculatorErrorType, Fault};
use crate::evaluator::{
    division_by_zero, is_zero, lemma_operator_at_bounds, lemma_replaced_weight, malformed,
    operator_at, replaced,
};
use crate::grouper::lemma_bracket_free_grouped;
use crate::normalizer::lemma_bracket_free_normalized;
use crate::term::{bracket_free, lemma_weight_group, weight, Term};
use crate::token::{BinaryOp, Level};
use crate::tokenizer::{
    is_numeric, lemma_literal_end_bounds, lemma_literal_end_is, literal_end, malformed_literal,
    symbol,
};
use vstd::prelude::*;

verus! {

/// A reading of literals: the bit pattern of the double that a literal
/// denotes, or `None` where it denotes none.
pub type Reading = spec_fn(Seq<char>) -> Option<u64>;

/// Arithmetic on doubles, given and returned as bit patterns.
pub type Arithmetic = spec_fn(BinaryOp, u64, u64) -> u64;

/// The scan from character `at` on, where `read` are the tokens of the text
/// before it: the tokens of the whole text or the failure of the scan, and
/// what `p` made of the literals met, in order.
///
/// A literal extends as far as numeric characters go and is worth what `p`
/// reads it as; where `p` reads no number the scan fails. A character that
/// is neither numeric nor a symbol fails the scan.
pub open spec fn scan_run(text: Seq<char>, p: Reading, at: int, read: Seq<Term>) -> (
    Result<Seq<Term>, Fault>,
    Seq<Option<u64>>,
)
    decreases text.len() - at,
{
    if at < 0 || at >= text.len() {
        (Ok(read), Seq::empty())
    } else if is_numeric(text[at]) {
        let end = literal_end(text, at);
        proof {
            lemma_literal_end_bounds(text, at);
        }
        let answer = p(text.subrange(at, end));
        match answer {
            Some(bits) => {
                let (rest, later) = scan_run(text, p, end, read.push(Term::Number(bits)));
                (rest, seq![answer] + later)
            },
            None => (Err(malformed_literal(text, end, read)), seq![answer]),
        }
    } else {
        match symbol(text[at]) {
            Some(term) => scan_run(text, p, at + 1, read.push(term)),
            None => (
                Err(Fault { kind: CalculatorErrorType::ParseError, index: at, input: read }),
                Seq::empty(),
            ),
        }
    }
}

/// The tokens of a text under the reading `p`.
pub open spec fn tokens(text: Seq<char>, p: Reading) -> Result<Seq<Term>, Fault> {
    scan_run(text, p, 0, Seq::empty()).0
}

/// What `p` makes of the literals that the scan of a text meets, in order.
pub open spec fn literals_read(text: Seq<char>, p: Reading) -> Seq<Option<u64>> {
    scan_run(text, p, 0, Seq::empty()).1
}

/// The value of the operand at `of` for the operator at `at`, and the
/// results of the arithmetic done to find it, in order.
pub open spec fn operand_run(ts: Seq<Term>, at: int, of: int, f: Arithmetic) -> (
    Result<u64, Fault>,
    Seq<u64>,
)
    decreases weight(ts), 0nat,
{
    if of < 0 || of >= ts.len() {
        (Err(malformed(at, ts)), Seq::empty())
    } else {
        match ts[of] {
            Term::Number(bits) => (Ok(bits), Seq::empty()),
            Term::Group(inner) => {
                proof {
                    lemma_weight_group(ts, of);
                }
                reduction_run(inner, Level::Power, f)
            },
            _ => (Err(malformed(at, ts)), Seq::empty()),
        }
    }
}

/// The value of a sequence from the pass of `level` on, and the results of
/// the arithmetic done to find it, in order.
///
/// The pass takes the first operator of its level that stands at index 1 or
/// later, finds the values of its left and of its right operand, and applies
/// `f`. The three terms become that one number and the pass starts again. A
/// division by a zero fails at the divisor, an operator without an operand
/// fails where it stands. When no operator of the level is left the next pass
/// begins. After the last pass the sequence must be one number.
pub open spec fn reduction_run(ts: Seq<Term>, level: Level, f: Arithmetic) -> (
    Result<u64, Fault>,
    Seq<u64>,
)
    decreases weight(ts), level.rank(),
{
    let at = operator_at(ts, level, 1);
    if at >= ts.len() {
        match level {
            Level::Power => reduction_run(ts, Level::Product, f),
            Level::Product => reduction_run(ts, Level::Sum, f),
            Level::Sum => if ts.len() == 1 && ts[0] is Number {
                (Ok(ts[0]->Number_0), Seq::empty())
            } else {
                (Err(malformed(0, ts)), Seq::empty())
            },
        }
    } else {
        let op = ts[at]->Operation_0;
        let (left, first) = operand_run(ts, at, at - 1, f);
        match left {
            Err(fault) => (Err(fault), first),
            Ok(lhs) => if at + 1 >= ts.len() {
                (Err(malformed(at, ts)), first)
            } else {
                let (right, second) = operand_run(ts, at, at + 1, f);
                match right {
                    Err(fault) => (Err(fault), first + second),
                    Ok(rhs) => if op == BinaryOp::Div && is_zero(rhs) {
                        (Err(division_by_zero(at + 1, ts)), first + second)
                    } else {
                        let bits = f(op, lhs, rhs);
                        proof {
                            lemma_operator_at_bounds(ts, level, 1);
                            lemma_replaced_weight(ts, at, bits);
                        }
                        let (rest, third) = reduction_run(replaced(ts, at, bits), level, f);
                        (rest, first + second + seq![bits] + third)
                    },
                }
            },
        }
    }
}

/// The value of a grouped sequence under the arithmetic `f`.
pub open spec fn value(ts: Seq<Term>, f: Arithmetic) -> Result<u64, Fault> {
    reduction_run(ts, Level::Power, f).0
}

/// The results of the arithmetic that finding the value takes, in order.
pub open spec fn arithmetic_done(ts: Seq<Term>, f: Arithmetic) -> Seq<u64> {
    reduction_run(ts, Level::Power, f).1
}

/// The value of a text where literals are read by `p` and the arithmetic is
/// `f`: the text becomes tokens, implied products are written out, brackets
/// are grouped, and the groups are reduced. The first stage that fails
/// decides the outcome.
pub open spec fn calculation_with(text: Seq<char>, p: Reading, f: Arithmetic) -> Result<
    u64,
    Fault,
> {
    match tokens(text, p) {
        Err(fault) => Err(fault),
        Ok(ts) => match parsed(ts) {
            Err(fault) => Err(fault),
            Ok(groups) => value(groups, f),
        },
    }
}

proof fn lemma_run_leading_operator(ts: Seq<Term>, level: Level, f: Arithmetic)
    requires
        ts.len() > 0,
        ts[0] is Operation,
    ensures
        reduction_run(ts, level, f).0 is Err,
    decreases weight(ts), level.rank(),
{
    let at = operator_at(ts, level, 1);
    if at >= ts.len() {
        match level {
            Level::Power => lemma_run_leading_operator(ts, Level::Product, f),
            Level::Product => lemma_run_leading_operator(ts, Level::Sum, f),
            Level::Sum => {},
        }
    } else {
        lemma_operator_at_bounds(ts, level, 1);
        let left = operand_run(ts, at, at - 1, f).0;
        if left is Ok && at + 1 < ts.len() {
            let right = operand_run(ts, at, at + 1, f).0;
            if right is Ok && !(ts[at]->Operation_0 == BinaryOp::Div && is_zero(right->Ok_0)) {
                let bits = f(ts[at]->Operation_0, left->Ok_0, right->Ok_0);
                let next = replaced(ts, at, bits);
                lemma_replaced_weight(ts, at, bits);
                assert(next[0] == ts[0]);
                lemma_run_leading_operator(next, level, f);
            }
        }
    }
}

/// There is no sign: a sequence that begins with an operator has no value,
/// whatever the arithmetic.
pub proof fn lemma_leading_operator_has_no_value(ts: Seq<Term>, f: Arithmetic)
    requires
        ts.len() > 0,
        ts[0] is Operation,
    ensures
        value(ts, f) is Err,
{
    lemma_run_leading_operator(ts, Level::Power, f);
}

/// Whether the characters are a numeric literal: at least one character,
/// each a digit or a decimal point.
pub open spec fn is_literal(s: Seq<char>) -> bool {
    s.len() > 0 && forall|i: int| 0 <= i < s.len() ==> is_numeric(#[trigger] s[i])
}

/// The scan of a literal that is followed by the end of the text or by a
/// character that is not numeric: one number, and the scan goes on behind it.
proof fn lemma_scan_literal(text: Seq<char>, p: Reading, at: int, read: Seq<Term>, s: Seq<char>)
    requires
        is_literal(s),
        0 <= at,
        at + s.len() <= text.len(),
        text.subrange(at, at + s.len()) == s,
        at + s.len() == text.len() || !is_numeric(text[at + s.len()]),
        p(s) is Some,
    ensures
        scan_run(text, p, at, read).0 == scan_run(
            text,
            p,
            at + s.len(),
            read.push(Term::Number(p(s)->Some_0)),
        ).0,
{
    assert forall|i: int| at <= i < at + s.len() implies is_numeric(#[trigger] text[i]) by {
        assert(text[i] == s[i - at]);
    }
    lemma_literal_end_is(text, at, at + s.len());
}

/// Subtraction runs from left to right: for any three literals `a`, `b`
/// and `c`, the value of `a-b-c` is `(a - b) - c`.
pub proof fn lemma_subtraction_left_to_right(
    a: Seq<char>,
    b: Seq<char>,
    c: Seq<char>,
    p: Reading,
    f: Arithmetic,
)
    requires
        is_literal(a),
        is_literal(b),
        is_literal(c),
        p(a) is Some,
        p(b) is Some,
        p(c) is Some,
    ensures
        calculation_with(a + seq!['-'] + b + seq!['-'] + c, p, f) == Ok::<u64, Fault>(
            f(
                BinaryOp::Sub,
                f(BinaryOp::Sub, p(a)->Some_0, p(b)->Some_0),
                p(c)->Some_0,
            ),
        ),
{
    let text = a + seq!['-'] + b + seq!['-'] + c;
    let minus = Term::Operation(BinaryOp::Sub);
    let (x, y, z) = (p(a)->Some_0, p(b)->Some_0, p(c)->Some_0);
    let after_a = a.len() as int;
    let after_b = after_a + 1 + b.len();
    let none = Seq::<Term>::empty();
    let ts = seq![Term::Number(x), minus, Term::Number(y), minus, Term::Number(z)];

    assert(text.subrange(0, after_a) =~= a);
    assert(text[after_a] == '-');
    lemma_scan_literal(text, p, 0, none, a);
    let read_a = none.push(Term::Number(x));
    assert(scan_run(text, p, after_a, read_a) == scan_run(text, p, after_a + 1, read_a.push(minus)));
    assert(text.subrange(after_a + 1, after_b) =~= b);
    assert(text[after_b] == '-');
    lemma_scan_literal(text, p, after_a + 1, read_a.push(minus), b);
    let read_b = read_a.push(minus).push(Term::Number(y));
    assert(scan_run(text, p, after_b, read_b) == scan_run(text, p, after_b + 1, read_b.push(minus)));
    assert(text.subrange(after_b + 1, text.len() as int) =~= c);
    lemma_scan_literal(text, p, after_b + 1, read_b.push(minus), c);
    let read_c = read_b.push(minus).push(Term::Number(z));
    assert(scan_run(text, p, text.len() as int, read_c).0 == Ok::<Seq<Term>, Fault>(read_c));
    assert(read_c =~= ts);
    assert(tokens(text, p) == Ok::<Seq<Term>, Fault>(ts));

    assert(bracket_free(ts));
    lemma_bracket_free_normalized(ts);
    lemma_bracket_free_grouped(ts, 0);
    assert(parsed(ts) == Ok::<Seq<Term>, Fault>(ts));

    reveal_with_fuel(operator_at, 6);
    let first = f(BinaryOp::Sub, x, y);
    let second = f(BinaryOp::Sub, first, z);
    let ts1 = seq![Term::Number(first), minus, Term::Number(z)];
    let ts2 = seq![Term::Number(second)];
    assert(replaced(ts, 1, first) =~= ts1);
    assert(replaced(ts1, 1, second) =~= ts2);
    assert(reduction_run(ts2, Level::Sum, f).0 == Ok::<u64, Fault>(second));
    assert(operand_run(ts1, 1, 0, f).0 == Ok::<u64, Fault>(first));
    assert(operand_run(ts1, 1, 2, f).0 == Ok::<u64, Fault>(z));
    assert(reduction_run(ts1, Level::Sum, f).0 == Ok::<u64, Fault>(second));
    assert(operand_run(ts, 1, 0, f).0 == Ok::<u64, Fault>(x));
    assert(operand_run(ts, 1, 2, f).0 == Ok::<u64, Fault>(y));
    assert(reduction_run(ts, Level::Sum, f).0 == Ok::<u64, Fault>(second));
    assert(reduction_run(ts, Level::Product, f).0 == Ok::<u64, Fault>(second));
    assert(reduction_run(ts, Level::Power, f).0 == Ok::<u64, Fault>(second));
}

} // verus!
