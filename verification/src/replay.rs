//! Why answering one request at a time arrives at the meaning.
//!
//! A caller of the executable stages begins with no answers, gets a request,
//! answers it, and calls again with one answer more. The laws of this module
//! say that such a caller, whose answers come from a reading `p` and an
//! arithmetic `f`, gets exactly what the module `meaning` defines, and that
//! the number of requests is bounded.
use crate::calculator::{calculation, lemma_normalized_nesting, parsed};
use crate::grouper::lemma_grouped_weight;
use crate::normalizer::{lemma_normalized_len, normalized};
use crate::error::{Ask, Fault, Stop};
use crate::evaluator::{
    evaluation, is_zero, lemma_operator_at_bounds, lemma_replaced_weight, operand, operator_at,
    reduced, replaced,
};
use crate::meaning::{
    arithmetic_done, calculation_with, literals_read, operand_run, reduction_run, scan_run,
    tokens, value, Arithmetic, Reading,
};
use crate::term::{lemma_weight_concat, lemma_weight_flat, lemma_weight_group, weight, Term};
use crate::token::{BinaryOp, Level};
use crate::tokenizer::{
    is_numeric, lemma_literal_end_bounds, lemma_tokens_are_plain, literal_end, scanned, symbol,
    tokens_of,
};
use vstd::prelude::*;

verus! {

/// Whether the answers from number `used` on are the results `done`, as far
/// as both go.
spec fn follows<T>(answers: Seq<T>, used: int, done: Seq<T>) -> bool {
    forall|j: int|
        0 <= j < done.len() && used + j < answers.len() ==> answers[used + j] == #[trigger] done[j]
}

/// Whether `got`, the outcome of a stage that takes its answers from number
/// `used` on, is what the run `run` under `f` makes it: the outcome of the
/// run where the answers reach to its end, and else the request for the
/// first result that is missing.
spec fn replays(
    got: Result<(u64, int), Stop>,
    run: (Result<u64, Fault>, Seq<u64>),
    answers: Seq<u64>,
    used: int,
    f: Arithmetic,
) -> bool {
    if used + run.1.len() <= answers.len() {
        got == match run.0 {
            Ok(bits) => Ok::<(u64, int), Stop>((bits, used + run.1.len())),
            Err(fault) => Err::<(u64, int), Stop>(Stop::Failed(fault)),
        }
    } else {
        got matches Err(Stop::Pending(Ask::Arithmetic(op, lhs, rhs))) && f(op, lhs, rhs)
            == run.1[answers.len() - used]
    }
}

proof fn lemma_scanned_replays(
    text: Seq<char>,
    literals: Seq<Option<u64>>,
    at: int,
    read: Seq<Term>,
    used: int,
    p: Reading,
)
    requires
        0 <= used <= literals.len(),
        follows(literals, used, scan_run(text, p, at, read).1),
    ensures
        ({
            let run = scan_run(text, p, at, read);
            let got = scanned(text, literals, at, read, used);
            if used + run.1.len() <= literals.len() {
                got == match run.0 {
                    Ok(ts) => Ok::<Seq<Term>, Stop>(ts),
                    Err(fault) => Err::<Seq<Term>, Stop>(Stop::Failed(fault)),
                }
            } else {
                got matches Err(Stop::Pending(Ask::Literal(literal))) && p(literal)
                    == run.1[literals.len() - used]
            }
        }),
    decreases text.len() - at,
{
    if 0 <= at < text.len() {
        if is_numeric(text[at]) {
            let end = literal_end(text, at);
            lemma_literal_end_bounds(text, at);
            let answer = p(text.subrange(at, end));
            let whole = scan_run(text, p, at, read).1;
            assert(whole[0] == answer);
            if used < literals.len() {
                assert(literals[used + 0] == whole[0]);
                match answer {
                    Some(bits) => {
                        let later = scan_run(text, p, end, read.push(Term::Number(bits))).1;
                        assert(whole =~= seq![answer] + later);
                        assert(follows(literals, used + 1, later)) by {
                            assert forall|j: int|
                                0 <= j < later.len() && used + 1 + j < literals.len() implies literals[used
                                + 1 + j] == #[trigger] later[j] by {
                                assert(literals[used + (1 + j)] == whole[1 + j]);
                            }
                        }
                        lemma_scanned_replays(
                            text,
                            literals,
                            end,
                            read.push(Term::Number(bits)),
                            used + 1,
                            p,
                        );
                    },
                    None => {},
                }
            }
        } else {
            match symbol(text[at]) {
                Some(term) => lemma_scanned_replays(text, literals, at + 1, read.push(term), used, p),
                None => {},
            }
        }
    }
}

proof fn lemma_operand_replays(
    ts: Seq<Term>,
    at: int,
    of: int,
    answers: Seq<u64>,
    used: int,
    f: Arithmetic,
)
    requires
        0 <= used <= answers.len(),
        follows(answers, used, operand_run(ts, at, of, f).1),
    ensures
        replays(operand(ts, at, of, answers, used), operand_run(ts, at, of, f), answers, used, f),
    decreases weight(ts), 0nat,
{
    if 0 <= of < ts.len() {
        match ts[of] {
            Term::Group(inner) => {
                lemma_weight_group(ts, of);
                lemma_reduced_replays(inner, Level::Power, answers, used, f);
            },
            _ => {},
        }
    }
}

proof fn lemma_reduced_replays(
    ts: Seq<Term>,
    level: Level,
    answers: Seq<u64>,
    used: int,
    f: Arithmetic,
)
    requires
        0 <= used <= answers.len(),
        follows(answers, used, reduction_run(ts, level, f).1),
    ensures
        replays(reduced(ts, level, answers, used), reduction_run(ts, level, f), answers, used, f),
    decreases weight(ts), level.rank(),
{
    let at = operator_at(ts, level, 1);
    let whole = reduction_run(ts, level, f).1;
    if at >= ts.len() {
        match level {
            Level::Power => lemma_reduced_replays(ts, Level::Product, answers, used, f),
            Level::Product => lemma_reduced_replays(ts, Level::Sum, answers, used, f),
            Level::Sum => {},
        }
    } else {
        lemma_operator_at_bounds(ts, level, 1);
        let op = ts[at]->Operation_0;
        let (left, first) = operand_run(ts, at, at - 1, f);
        assert(first.len() <= whole.len() && forall|j: int|
            0 <= j < first.len() ==> first[j] == whole[j]);
        assert(follows(answers, used, first)) by {
            assert forall|j: int| 0 <= j < first.len() && used + j < answers.len() implies answers[used
                + j] == #[trigger] first[j] by {
                assert(answers[used + j] == whole[j]);
            }
        }
        lemma_operand_replays(ts, at, at - 1, answers, used, f);
        if left is Ok && used + first.len() <= answers.len() && at + 1 < ts.len() {
            let lhs = left->Ok_0;
            let used1 = used + first.len();
            let (right, second) = operand_run(ts, at, at + 1, f);
            assert(first.len() + second.len() <= whole.len() && forall|j: int|
                0 <= j < second.len() ==> second[j] == whole[first.len() + j]);
            assert(follows(answers, used1, second)) by {
                assert forall|j: int|
                    0 <= j < second.len() && used1 + j < answers.len() implies answers[used1 + j]
                    == #[trigger] second[j] by {
                    assert(answers[used + (first.len() + j)] == whole[first.len() + j]);
                }
            }
            lemma_operand_replays(ts, at, at + 1, answers, used1, f);
            if right is Ok && used1 + second.len() <= answers.len() && !(op == BinaryOp::Div
                && is_zero(right->Ok_0)) {
                let rhs = right->Ok_0;
                let used2 = used1 + second.len();
                let bits = f(op, lhs, rhs);
                let (rest, third) = reduction_run(replaced(ts, at, bits), level, f);
                let middle = first.len() as int + second.len();
                assert(whole =~= first + second + seq![bits] + third);
                assert(whole[middle] == bits);
                if used2 < answers.len() {
                    assert(answers[used + middle] == whole[middle]);
                    lemma_replaced_weight(ts, at, bits);
                    assert(follows(answers, used2 + 1, third)) by {
                        assert forall|j: int|
                            0 <= j < third.len() && used2 + 1 + j < answers.len() implies answers[used2
                            + 1 + j] == #[trigger] third[j] by {
                            assert(answers[used + (middle + 1 + j)] == whole[middle + 1 + j]);
                        }
                    }
                    lemma_reduced_replays(replaced(ts, at, bits), level, answers, used2 + 1, f);
                }
            }
        }
    }
}

/// What a term holds inside: the weight of a group's terms, nothing for any
/// other term.
spec fn held(term: Term) -> nat {
    match term {
        Term::Group(inner) => weight(inner),
        _ => 0,
    }
}

proof fn lemma_held_weight(ts: Seq<Term>, at: int)
    requires
        0 <= at < ts.len(),
    ensures
        held(ts[at]) < weight(ts),
{
    if ts[at] is Group {
        lemma_weight_group(ts, at);
    } else {
        assert(ts =~= ts.take(at + 1) + ts.skip(at + 1));
        lemma_weight_concat(ts.take(at + 1), ts.skip(at + 1));
        assert(ts.take(at + 1).last() == ts[at]);
    }
}

proof fn lemma_replaced_weight_exact(ts: Seq<Term>, at: int, bits: u64)
    requires
        1 <= at,
        at + 1 < ts.len(),
    ensures
        weight(replaced(ts, at, bits)) + 2 + held(ts[at - 1]) + held(ts[at]) + held(ts[at + 1])
            == weight(ts),
{
    let front = ts.take(at - 1);
    let middle = ts.subrange(at - 1, at + 2);
    let back = ts.skip(at + 2);
    assert(ts =~= front + middle + back);
    lemma_weight_concat(front + middle, back);
    lemma_weight_concat(front, middle);
    let number = seq![Term::Number(bits)];
    assert(replaced(ts, at, bits) =~= front + number + back);
    lemma_weight_concat(front + number, back);
    lemma_weight_concat(front, number);
    assert(number.drop_last() =~= Seq::<Term>::empty());
    assert(weight(number) == 1) by {
        reveal_with_fuel(weight, 2);
    }
    let two = middle.drop_last();
    let one = two.drop_last();
    assert(one.drop_last() =~= Seq::<Term>::empty());
    assert(middle.last() == ts[at + 1] && two.last() == ts[at] && one.last() == ts[at - 1]);
    assert(weight(middle) == 3 + held(ts[at - 1]) + held(ts[at]) + held(ts[at + 1])) by {
        reveal_with_fuel(weight, 4);
    }
}

proof fn lemma_operand_run_length(ts: Seq<Term>, at: int, of: int, f: Arithmetic)
    ensures
        0 <= of < ts.len() ==> operand_run(ts, at, of, f).1.len() <= held(ts[of]),
        !(0 <= of < ts.len()) ==> operand_run(ts, at, of, f).1.len() == 0,
    decreases weight(ts), 0nat,
{
    if 0 <= of < ts.len() {
        match ts[of] {
            Term::Group(inner) => {
                lemma_weight_group(ts, of);
                lemma_run_length(inner, Level::Power, f);
            },
            _ => {},
        }
    }
}

/// A run does no more arithmetic than the sequence has terms.
pub proof fn lemma_run_length(ts: Seq<Term>, level: Level, f: Arithmetic)
    ensures
        reduction_run(ts, level, f).1.len() <= weight(ts),
    decreases weight(ts), level.rank(),
{
    let at = operator_at(ts, level, 1);
    if at >= ts.len() {
        match level {
            Level::Power => lemma_run_length(ts, Level::Product, f),
            Level::Product => lemma_run_length(ts, Level::Sum, f),
            Level::Sum => {},
        }
    } else {
        lemma_operator_at_bounds(ts, level, 1);
        lemma_operand_run_length(ts, at, at - 1, f);
        lemma_held_weight(ts, at - 1);
        let left = operand_run(ts, at, at - 1, f).0;
        if left is Ok && at + 1 < ts.len() {
            lemma_operand_run_length(ts, at, at + 1, f);
            let right = operand_run(ts, at, at + 1, f).0;
            lemma_replaced_weight_exact(ts, at, 0);
            if right is Ok && !(ts[at]->Operation_0 == BinaryOp::Div && is_zero(right->Ok_0)) {
                let bits = f(ts[at]->Operation_0, left->Ok_0, right->Ok_0);
                lemma_replaced_weight_exact(ts, at, bits);
                lemma_run_length(replaced(ts, at, bits), level, f);
            }
        }
    }
}

/// A scan reads no more literals than the text, from where it stands, has
/// characters.
pub proof fn lemma_scan_length(text: Seq<char>, p: Reading, at: int, read: Seq<Term>)
    requires
        0 <= at <= text.len(),
    ensures
        scan_run(text, p, at, read).1.len() <= text.len() - at,
    decreases text.len() - at,
{
    if at < text.len() {
        if is_numeric(text[at]) {
            let end = literal_end(text, at);
            lemma_literal_end_bounds(text, at);
            match p(text.subrange(at, end)) {
                Some(bits) => lemma_scan_length(text, p, end, read.push(Term::Number(bits))),
                None => {},
            }
        } else {
            match symbol(text[at]) {
                Some(term) => lemma_scan_length(text, p, at + 1, read.push(term)),
                None => {},
            }
        }
    }
}

/// Whether answer number `k` is what `p` reads the literal as that it
/// answers: the literal asked for when only the answers before it are given.
pub open spec fn answers_literal(text: Seq<char>, literals: Seq<Option<u64>>, k: int, p: Reading) -> bool {
    tokens_of(text, literals.take(k)) matches Err(Stop::Pending(Ask::Literal(literal)))
        && literals[k] == p(literal)
}

/// Whether the answers are those of a caller that began with none and read
/// each literal asked for by `p`.
pub open spec fn read_by(text: Seq<char>, literals: Seq<Option<u64>>, p: Reading) -> bool {
    forall|k: int| 0 <= k < literals.len() ==> #[trigger] answers_literal(text, literals, k, p)
}

proof fn lemma_literals_are_read(text: Seq<char>, literals: Seq<Option<u64>>, p: Reading, k: int)
    requires
        read_by(text, literals, p),
        0 <= k <= literals.len(),
    ensures
        k <= literals_read(text, p).len(),
        forall|j: int| 0 <= j < k ==> literals[j] == literals_read(text, p)[j],
    decreases k,
{
    if k > 0 {
        lemma_literals_are_read(text, literals, p, k - 1);
        let given = literals.take(k - 1);
        assert(follows(given, 0, literals_read(text, p)));
        lemma_scanned_replays(text, given, 0, Seq::empty(), 0, p);
        assert(answers_literal(text, literals, k - 1, p));
    }
}

/// A caller that begins with no answers and reads each literal asked for by
/// `p` is led to the tokens under `p`.
///
/// Its answers are what `p` makes of the literals of the text, in order,
/// and there are no more of them than the text has characters. While some
/// are missing the scan asks for the next. Once all are given the scan ends
/// as the scan under `p` does, with the same tokens or the same failure.
pub proof fn lemma_tokens_follow_reading(text: Seq<char>, literals: Seq<Option<u64>>, p: Reading)
    requires
        read_by(text, literals, p),
    ensures
        literals.len() <= literals_read(text, p).len() <= text.len(),
        literals == literals_read(text, p).take(literals.len() as int),
        match tokens_of(text, literals) {
            Ok(ts) => tokens(text, p) == Ok::<Seq<Term>, Fault>(ts),
            Err(Stop::Failed(fault)) => tokens(text, p) == Err::<Seq<Term>, Fault>(fault),
            Err(Stop::Pending(ask)) => literals.len() < literals_read(text, p).len() && ask is Literal,
        },
{
    lemma_scan_length(text, p, 0, Seq::empty());
    lemma_literals_are_read(text, literals, p, literals.len() as int);
    assert(literals =~= literals_read(text, p).take(literals.len() as int));
    assert(follows(literals, 0, literals_read(text, p)));
    lemma_scanned_replays(text, literals, 0, Seq::empty(), 0, p);
}

/// Whether answer number `k` is what `f` gives for the request that it
/// answers: the request that comes back when only the answers before it are
/// given.
pub open spec fn answers_request(ts: Seq<Term>, answers: Seq<u64>, k: int, f: Arithmetic) -> bool {
    evaluation(ts, answers.take(k)) matches Err(Stop::Pending(Ask::Arithmetic(op, lhs, rhs)))
        && answers[k] == f(op, lhs, rhs)
}

/// Whether the answers are those of a caller that began with none and
/// answered each request by `f`.
pub open spec fn answered_by(ts: Seq<Term>, answers: Seq<u64>, f: Arithmetic) -> bool {
    forall|k: int| 0 <= k < answers.len() ==> #[trigger] answers_request(ts, answers, k, f)
}

proof fn lemma_answers_are_done(ts: Seq<Term>, answers: Seq<u64>, f: Arithmetic, k: int)
    requires
        answered_by(ts, answers, f),
        0 <= k <= answers.len(),
    ensures
        k <= arithmetic_done(ts, f).len(),
        forall|j: int| 0 <= j < k ==> answers[j] == arithmetic_done(ts, f)[j],
    decreases k,
{
    if k > 0 {
        lemma_answers_are_done(ts, answers, f, k - 1);
        let given = answers.take(k - 1);
        assert(follows(given, 0, arithmetic_done(ts, f)));
        lemma_reduced_replays(ts, Level::Power, given, 0, f);
        assert(answers_request(ts, answers, k - 1, f));
    }
}

/// A caller that begins with no answers and answers each request by `f` is
/// led to the value under `f`.
///
/// Its answers are the results of the arithmetic under `f`, in order, and
/// there are no more of them than the sequence has terms. While some are
/// missing the evaluation asks for the next. Once all are given the
/// evaluation ends as the value under `f` does, with the same number or the
/// same failure.
pub proof fn lemma_evaluation_follows_arithmetic(ts: Seq<Term>, answers: Seq<u64>, f: Arithmetic)
    requires
        answered_by(ts, answers, f),
    ensures
        answers.len() <= arithmetic_done(ts, f).len() <= weight(ts),
        answers == arithmetic_done(ts, f).take(answers.len() as int),
        match evaluation(ts, answers) {
            Ok(bits) => value(ts, f) == Ok::<u64, Fault>(bits),
            Err(Stop::Failed(fault)) => value(ts, f) == Err::<u64, Fault>(fault),
            Err(Stop::Pending(ask)) => answers.len() < arithmetic_done(ts, f).len() && ask is Arithmetic,
        },
{
    lemma_run_length(ts, Level::Power, f);
    lemma_answers_are_done(ts, answers, f, answers.len() as int);
    assert(answers =~= arithmetic_done(ts, f).take(answers.len() as int));
    assert(follows(answers, 0, arithmetic_done(ts, f)));
    lemma_reduced_replays(ts, Level::Power, answers, 0, f);
}

/// Whether result number `k` is what `f` gives for the request that it
/// answers: the request that comes back when all the literals and only the
/// results before it are given.
pub open spec fn answers_calculation(
    text: Seq<char>,
    literals: Seq<Option<u64>>,
    results: Seq<u64>,
    k: int,
    f: Arithmetic,
) -> bool {
    calculation(text, literals, results.take(k)) matches Err(
        Stop::Pending(Ask::Arithmetic(op, lhs, rhs)),
    ) && results[k] == f(op, lhs, rhs)
}

/// Whether the results are those of a caller that answered each request for
/// arithmetic by `f`.
pub open spec fn calculated_by(
    text: Seq<char>,
    literals: Seq<Option<u64>>,
    results: Seq<u64>,
    f: Arithmetic,
) -> bool {
    forall|k: int|
        0 <= k < results.len() ==> #[trigger] answers_calculation(text, literals, results, k, f)
}

/// The outcome of a calculation depends on the text and on the floating-point
/// arithmetic alone.
///
/// A caller that begins with no answers, reads each literal asked for by `p`
/// and answers each request for arithmetic by `f` is led to the value of the
/// text under `p` and `f`: when the calculation returns a number it is that
/// of the value, and when it fails the value fails in the same way. It gets
/// there: it is asked to read no more literals than the text has characters,
/// and to do no more arithmetic than twice that.
pub proof fn lemma_calculation_follows_arithmetic(
    text: Seq<char>,
    literals: Seq<Option<u64>>,
    results: Seq<u64>,
    p: Reading,
    f: Arithmetic,
)
    requires
        read_by(text, literals, p),
        calculated_by(text, literals, results, f),
    ensures
        match calculation(text, literals, results) {
            Ok(bits) => calculation_with(text, p, f) == Ok::<u64, Fault>(bits),
            Err(Stop::Failed(fault)) => calculation_with(text, p, f) == Err::<u64, Fault>(fault),
            Err(Stop::Pending(_)) => true,
        },
        literals.len() <= text.len(),
        results.len() <= 2 * text.len(),
{
    lemma_tokens_follow_reading(text, literals, p);
    if results.len() > 0 {
        assert(answers_calculation(text, literals, results, 0, f));
    }
    match tokens_of(text, literals) {
        Ok(ts) => {
            match parsed(ts) {
                Ok(groups) => {
                    assert forall|k: int| 0 <= k < results.len() implies #[trigger] answers_request(
                        groups,
                        results,
                        k,
                        f,
                    ) by {
                        assert(answers_calculation(text, literals, results, k, f));
                    }
                    lemma_evaluation_follows_arithmetic(groups, results, f);
                    lemma_tokens_are_plain(text, literals);
                    lemma_normalized_len(ts);
                    lemma_normalized_nesting(ts);
                    lemma_weight_flat(normalized(ts));
                    lemma_grouped_weight(normalized(ts), 0);
                },
                Err(_) => {},
            }
        },
        Err(_) => {},
    }
}

} // verus!
