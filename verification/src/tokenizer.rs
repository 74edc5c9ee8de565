//! From text to tokens.
use crate::error::{
    Ask, CalculatorError, CalculatorErrorType, Fault, Halt, Request, Stop, MALFORMED_LITERAL,
};
use crate::term::{flat, Term};
use crate::token::{terms, BinaryOp, Operator};
use vstd::prelude::*;
use vstd::string::StrSliceExecFns;

verus! {

/// Whether the character belongs to a numeric literal: a digit or the decimal
/// point.
pub open spec fn is_numeric(c: char) -> bool {
    ('0' <= c && c <= '9') || c == '.'
}

/// The token that a character outside literals stands for; `%` is read as a
/// division.
pub open spec fn symbol(c: char) -> Option<Term> {
    if c == '+' {
        Some(Term::Operation(BinaryOp::Add))
    } else if c == '-' {
        Some(Term::Operation(BinaryOp::Sub))
    } else if c == '/' || c == '%' {
        Some(Term::Operation(BinaryOp::Div))
    } else if c == '*' {
        Some(Term::Operation(BinaryOp::Mul))
    } else if c == '^' {
        Some(Term::Operation(BinaryOp::Pow))
    } else if c == ')' {
        Some(Term::Close)
    } else if c == '(' {
        Some(Term::Open)
    } else {
        None
    }
}

/// Where the literal that begins at `from` ends: the index of the first
/// character at or after `from` that is not numeric, or the length of the text.
pub open spec fn literal_end(text: Seq<char>, from: int) -> int
    decreases text.len() - from,
{
    if 0 <= from < text.len() && is_numeric(text[from]) {
        literal_end(text, from + 1)
    } else {
        from
    }
}

/// The failure for a literal that is no number: found at the character that
/// ends the literal, or, where the literal ends the text, one past the number
/// of tokens read before it.
pub open spec fn malformed_literal(text: Seq<char>, end: int, read: Seq<Term>) -> Fault {
    Fault {
        kind: CalculatorErrorType::CalculationError(MALFORMED_LITERAL),
        index: if end < text.len() {
            end
        } else {
            read.len() as int + 1
        },
        input: read,
    }
}

/// Scanning from character `at`, with `read` the tokens of the text before it
/// and `used` the number of literals before it.
///
/// A literal extends as far as numeric characters go. Its value is the answer
/// at `literals[used]`: where no such answer was given the scan asks for it,
/// and where the answer is `None` the scan fails. A character that is neither
/// numeric nor a symbol fails the scan.
pub open spec fn scanned(
    text: Seq<char>,
    literals: Seq<Option<u64>>,
    at: int,
    read: Seq<Term>,
    used: int,
) -> Result<Seq<Term>, Stop>
    decreases text.len() - at,
{
    if at < 0 || at >= text.len() {
        Ok(read)
    } else if is_numeric(text[at]) {
        let end = literal_end(text, at);
        proof {
            lemma_literal_end_bounds(text, at);
        }
        if used < 0 || used >= literals.len() {
            Err(Stop::Pending(Ask::Literal(text.subrange(at, end))))
        } else {
            match literals[used] {
                Some(bits) => scanned(text, literals, end, read.push(Term::Number(bits)), used + 1),
                None => Err(Stop::Failed(malformed_literal(text, end, read))),
            }
        }
    } else {
        match symbol(text[at]) {
            Some(term) => scanned(text, literals, at + 1, read.push(term), used),
            None => Err(
                Stop::Failed(
                    Fault { kind: CalculatorErrorType::ParseError, index: at, input: read },
                ),
            ),
        }
    }
}

/// The tokens of a text, given the values of its literals in the order in
/// which they stand.
pub open spec fn tokens_of(text: Seq<char>, literals: Seq<Option<u64>>) -> Result<Seq<Term>, Stop> {
    scanned(text, literals, 0, Seq::empty(), 0)
}

/// A literal reaches at least one character beyond a numeric character, and
/// never past the end of the text. What follows it is not numeric.
pub proof fn lemma_literal_end_bounds(text: Seq<char>, from: int)
    requires
        0 <= from <= text.len(),
    ensures
        from <= literal_end(text, from) <= text.len(),
        from < text.len() && is_numeric(text[from]) ==> from < literal_end(text, from),
        literal_end(text, from) < text.len() ==> !is_numeric(text[literal_end(text, from)]),
    decreases text.len() - from,
{
    if from < text.len() && is_numeric(text[from]) {
        lemma_literal_end_bounds(text, from + 1);
    }
}

/// A run of numeric characters from `from` up to `to`, followed by a
/// character that is not numeric or by the end of the text, is the literal
/// that begins at `from`.
pub proof fn lemma_literal_end_is(text: Seq<char>, from: int, to: int)
    requires
        0 <= from <= to <= text.len(),
        forall|i: int| from <= i < to ==> is_numeric(#[trigger] text[i]),
        to == text.len() || !is_numeric(text[to]),
    ensures
        literal_end(text, from) == to,
    decreases to - from,
{
    if from < to {
        lemma_literal_end_is(text, from + 1, to);
    }
}

/// A scan asks for literals and for nothing else.
pub proof fn lemma_scanned_asks_literal(
    text: Seq<char>,
    literals: Seq<Option<u64>>,
    at: int,
    read: Seq<Term>,
    used: int,
)
    ensures
        scanned(text, literals, at, read, used) matches Err(Stop::Pending(ask)) ==> ask is Literal,
    decreases text.len() - at,
{
    if 0 <= at < text.len() {
        if is_numeric(text[at]) {
            lemma_literal_end_bounds(text, at);
            if 0 <= used < literals.len() && literals[used] is Some {
                lemma_scanned_asks_literal(
                    text,
                    literals,
                    literal_end(text, at),
                    read.push(Term::Number(literals[used]->Some_0)),
                    used + 1,
                );
            }
        } else if symbol(text[at]) is Some {
            lemma_scanned_asks_literal(
                text,
                literals,
                at + 1,
                read.push(symbol(text[at])->Some_0),
                used,
            );
        }
    }
}

/// Whether no two numbers stand side by side.
pub open spec fn numbers_apart(ts: Seq<Term>) -> bool {
    forall|i: int| 0 <= i < ts.len() - 1 ==> !(#[trigger] ts[i] is Number && ts[i + 1] is Number)
}

proof fn lemma_scanned_plain(
    text: Seq<char>,
    literals: Seq<Option<u64>>,
    at: int,
    read: Seq<Term>,
    used: int,
)
    requires
        0 <= at <= text.len(),
        flat(read),
        numbers_apart(read),
        read.len() > 0 && read.last() is Number ==> at >= text.len() || !is_numeric(text[at]),
        scanned(text, literals, at, read, used) is Ok,
    ensures
        flat(scanned(text, literals, at, read, used)->Ok_0),
        numbers_apart(scanned(text, literals, at, read, used)->Ok_0),
        scanned(text, literals, at, read, used)->Ok_0.len() <= read.len() + text.len() - at,
    decreases text.len() - at,
{
    if at < text.len() {
        if is_numeric(text[at]) {
            let end = literal_end(text, at);
            lemma_literal_end_bounds(text, at);
            let next = read.push(Term::Number(literals[used]->Some_0));
            assert(flat(next));
            assert(numbers_apart(next));
            lemma_scanned_plain(text, literals, end, next, used + 1);
        } else {
            let next = read.push(symbol(text[at])->Some_0);
            assert(flat(next));
            assert(numbers_apart(next));
            lemma_scanned_plain(text, literals, at + 1, next, used);
        }
    }
}

/// The tokens of a text are plain: no group is among them, and no two
/// numbers stand side by side. There are no more of them than the text has
/// characters.
pub proof fn lemma_tokens_are_plain(text: Seq<char>, literals: Seq<Option<u64>>)
    requires
        tokens_of(text, literals) is Ok,
    ensures
        flat(tokens_of(text, literals)->Ok_0),
        numbers_apart(tokens_of(text, literals)->Ok_0),
        tokens_of(text, literals)->Ok_0.len() <= text.len(),
{
    lemma_scanned_plain(text, literals, 0, Seq::empty(), 0);
}

/// Whether the character belongs to a numeric literal.
fn is_numeric_char(c: char) -> (numeric: bool)
    ensures
        numeric == is_numeric(c),
{
    ('0' <= c && c <= '9') || c == '.'
}

/// The token that a character outside literals stands for.
fn symbol_of(c: char) -> (token: Option<Operator>)
    ensures
        match token {
            Some(t) => symbol(c) == Some(t@),
            None => symbol(c) is None,
        },
{
    if c == '+' {
        Some(Operator::Addition)
    } else if c == '-' {
        Some(Operator::Subtraction)
    } else if c == '/' || c == '%' {
        Some(Operator::Division)
    } else if c == '*' {
        Some(Operator::Multiplication)
    } else if c == '^' {
        Some(Operator::Power)
    } else if c == ')' {
        Some(Operator::RBracket)
    } else if c == '(' {
        Some(Operator::LBracket)
    } else {
        None
    }
}

/// The value of the literal `text[from..to]`, which is literal number `used`
/// of the text, or the reason why the scan stops at it.
fn literal_value(
    input: &str,
    literals: &Vec<Option<u64>>,
    from: usize,
    to: usize,
    used: usize,
) -> (value: Result<u64, Option<Request>>)
    requires
        from <= to <= input@.len(),
    ensures
        match value {
            Ok(bits) => used < literals.len() && literals[used as int] == Some(bits),
            Err(None) => used < literals.len() && literals[used as int] is None,
            Err(Some(request)) => used >= literals.len() && request@ == Ask::Literal(
                input@.subrange(from as int, to as int),
            ),
        },
{
    if used < literals.len() {
        match literals[used] {
            Some(bits) => Ok(bits),
            None => Err(None),
        }
    } else {
        Err(Some(Request::Literal(input.substring_char(from, to).to_owned())))
    }
}

/// Reads a text into tokens.
///
/// `literals` holds the values of the text's numeric literals, in the order
/// in which they stand: for each the bit pattern of the double it denotes, or
/// `None` where it denotes none. Where the text holds more literals than
/// `literals` has answers, the result is the request for the first literal
/// without an answer. The tokens stand in the order of the text; no group is
/// among them, and no two numbers stand side by side.
pub fn tokenize(input: &str, literals: &Vec<Option<u64>>) -> (result: Result<Vec<Operator>, Halt>)
    ensures
        match result {
            Ok(tokens) => tokens_of(input@, literals@) == Ok::<Seq<Term>, Stop>(terms(tokens@)),
            Err(halt) => tokens_of(input@, literals@) == Err::<Seq<Term>, Stop>(halt@),
        },
        result matches Ok(tokens) ==> flat(terms(tokens@)) && numbers_apart(terms(tokens@))
            && tokens.len() <= input@.len(),
        result matches Err(Halt::Pending(request)) ==> request is Literal,
{
    proof {
        if tokens_of(input@, literals@) is Ok {
            lemma_tokens_are_plain(input@, literals@);
        }
        lemma_scanned_asks_literal(input@, literals@, 0, Seq::empty(), 0);
    }
    let length = input.unicode_len();
    let mut tokens: Vec<Operator> = Vec::new();
    let mut used: usize = 0;
    let mut reading = false;
    let mut start: usize = 0;
    let mut at: usize = 0;
    assert(terms(tokens@) =~= Seq::<Term>::empty());
    for c in it: input.chars()
        invariant
            it.seq() == input@,
            at == it.index(),
            at <= length == input@.len(),
            used <= literals.len(),
            used <= at,
            reading ==> start < at && tokens.len() < at && forall|i: int|
                start <= i < at ==> is_numeric(#[trigger] input@[i]),
            !reading ==> tokens.len() <= at,
            tokens_of(input@, literals@) == scanned(
                input@,
                literals@,
                if reading {
                    start as int
                } else {
                    at as int
                },
                terms(tokens@),
                used as int,
            ),
    {
        assert(c == input@[at as int]);
        if is_numeric_char(c) {
            if !reading {
                reading = true;
                start = at;
            }
        } else {
            if reading {
                proof {
                    lemma_literal_end_is(input@, start as int, at as int);
                }
                match literal_value(input, literals, start, at, used) {
                    Ok(bits) => {
                        proof {
                            assert(terms(tokens@.push(Operator::Num(bits))) =~= terms(tokens@).push(
                                Term::Number(bits),
                            ));
                        }
                        tokens.push(Operator::Num(bits));
                        used += 1;
                        reading = false;
                        assert(tokens_of(input@, literals@) == scanned(
                            input@,
                            literals@,
                            at as int,
                            terms(tokens@),
                            used as int,
                        ));
                    },
                    Err(None) => {
                        return Err(
                            Halt::Failed(
                                CalculatorError::new(
                                    CalculatorErrorType::CalculationError(MALFORMED_LITERAL),
                                    at,
                                    tokens,
                                ),
                            ),
                        );
                    },
                    Err(Some(request)) => {
                        return Err(Halt::Pending(request));
                    },
                }
            }
            match symbol_of(c) {
                Some(token) => {
                    proof {
                        assert(terms(tokens@.push(token)) =~= terms(tokens@).push(token@));
                    }
                    tokens.push(token);
                },
                None => {
                    return Err(
                        Halt::Failed(
                            CalculatorError::new(CalculatorErrorType::ParseError, at, tokens),
                        ),
                    );
                },
            }
        }
        at += 1;
    }
    assert(at == input@.len());
    if reading {
        proof {
            lemma_literal_end_is(input@, start as int, at as int);
        }
        match literal_value(input, literals, start, at, used) {
            Ok(bits) => {
                proof {
                    assert(terms(tokens@.push(Operator::Num(bits))) =~= terms(tokens@).push(
                        Term::Number(bits),
                    ));
                }
                tokens.push(Operator::Num(bits));
                assert(tokens_of(input@, literals@) == scanned(
                    input@,
                    literals@,
                    at as int,
                    terms(tokens@),
                    used + 1,
                ));
            },
            Err(None) => {
                let index = tokens.len() + 1;
                return Err(
                    Halt::Failed(
                        CalculatorError::new(
                            CalculatorErrorType::CalculationError(MALFORMED_LITERAL),
                            index,
                            tokens,
                        ),
                    ),
                );
            },
            Err(Some(request)) => {
                return Err(Halt::Pending(request));
            },
        }
    }
    Ok(tokens)
}

} // verus!
