//! The whole pipeline: text to tokens, implied products, groups, one number.
use crate::error::{CalculatorError, Fault, Halt, Stop};
use crate::evaluator::{evaluate, evaluation};
use crate::grouper::{
    depth_after, group, grouped, lemma_depth_concat, lemma_depth_prefix,
    lemma_well_nested_grouped, well_nested,
};
use crate::normalizer::{appended, normalize, normalized};
use crate::term::{flat, fully_grouped, Term};
use crate::token::{terms, BinaryOp, Operator};
use crate::tokenizer::{tokenize, tokens_of};
use vstd::prelude::*;

verus! {

/// The tokens in the form that evaluation takes: implied products written
/// out, then brackets grouped.
pub open spec fn parsed(ts: Seq<Term>) -> Result<Seq<Term>, Fault> {
    grouped(normalized(ts))
}

/// The value of a text.
///
/// `literals` are the values of the text's literals in the order in which
/// they stand, `results` the results of its arithmetic in the order in which
/// it is asked for. The stages run one after the other, and the first that
/// stops decides the outcome.
pub open spec fn calculation(
    text: Seq<char>,
    literals: Seq<Option<u64>>,
    results: Seq<u64>,
) -> Result<u64, Stop> {
    match tokens_of(text, literals) {
        Err(stop) => Err(stop),
        Ok(ts) => match parsed(ts) {
            Err(fault) => Err(Stop::Failed(fault)),
            Ok(groups) => evaluation(groups, results),
        },
    }
}

/// A calculation has no hidden state: the same text with the same answers
/// has the same outcome.
pub proof fn lemma_calculation_is_determined(
    text: Seq<char>,
    literals: Seq<Option<u64>>,
    results: Seq<u64>,
    same_text: Seq<char>,
    same_literals: Seq<Option<u64>>,
    same_results: Seq<u64>,
)
    requires
        text =~= same_text,
        literals =~= same_literals,
        results =~= same_results,
    ensures
        calculation(text, literals, results) == calculation(same_text, same_literals, same_results),
{
}

/// Writing out implied products adds no group and leaves the nesting counter
/// as it was: where it never fell below zero it still does not, and it ends
/// where it ended.
pub proof fn lemma_normalized_nesting(ts: Seq<Term>)
    ensures
        flat(ts) ==> flat(normalized(ts)),
        depth_after(normalized(ts), normalized(ts).len() as int) == depth_after(
            ts,
            ts.len() as int,
        ),
        (forall|n: int| 0 <= n <= ts.len() ==> #[trigger] depth_after(ts, n) >= 0) ==> (forall|
            n: int,
        | 0 <= n <= normalized(ts).len() ==> #[trigger] depth_after(normalized(ts), n) >= 0),
    decreases ts.len(),
{
    if ts.len() > 0 {
        let front = ts.drop_last();
        let last = ts.last();
        let written = normalized(front);
        let all = appended(written, last);
        let added = all.skip(written.len() as int);
        let times = Term::Operation(BinaryOp::Mul);
        lemma_normalized_nesting(front);
        assert(ts =~= front + seq![last]);
        lemma_depth_concat(front, seq![last], 1);
        assert(all =~= written + added);
        assert(added =~= seq![last] || added =~= seq![times, last] || added =~= seq![last, times]);
        reveal_with_fuel(depth_after, 3);
        assert(depth_after(added, added.len() as int) == depth_after(seq![last], 1));
        lemma_depth_concat(written, added, added.len() as int);
        if flat(ts) {
            assert(flat(front)) by {
                assert forall|i: int| 0 <= i < front.len() implies !(#[trigger] front[i] is Group) by {
                    assert(front[i] == ts[i]);
                }
            }
            assert(!(ts[ts.len() - 1] is Group));
            assert(flat(all)) by {
                assert forall|i: int| 0 <= i < all.len() implies !(#[trigger] all[i] is Group) by {
                    if i < written.len() {
                        assert(all[i] == written[i]);
                    } else {
                        assert(all[i] == added[i - written.len()]);
                    }
                }
            }
        }
        if forall|n: int| 0 <= n <= ts.len() ==> #[trigger] depth_after(ts, n) >= 0 {
            assert forall|n: int| 0 <= n <= front.len() implies #[trigger] depth_after(front, n)
                >= 0 by {
                lemma_depth_prefix(front, seq![last], n);
                assert(depth_after(ts, n) >= 0);
            }
            assert(depth_after(ts, ts.len() as int) >= 0);
            assert(depth_after(front, front.len() as int) >= 0);
            assert forall|n: int| 0 <= n <= all.len() implies #[trigger] depth_after(all, n)
                >= 0 by {
                if n <= written.len() {
                    lemma_depth_prefix(written, added, n);
                    assert(depth_after(written, n) >= 0);
                } else {
                    let m = n - written.len();
                    lemma_depth_concat(written, added, m);
                    assert(depth_after(added, m) == 0 || depth_after(added, m) == depth_after(
                        seq![last],
                        1,
                    ));
                }
            }
        }
    }
}

/// Parsing plain tokens whose brackets match succeeds and leaves no raw
/// bracket at any depth.
pub proof fn lemma_parsed_fully_grouped(ts: Seq<Term>)
    requires
        flat(ts),
        well_nested(ts),
    ensures
        parsed(ts) is Ok,
        fully_grouped(parsed(ts)->Ok_0),
{
    lemma_normalized_nesting(ts);
    lemma_well_nested_grouped(normalized(ts));
}

/// Writes out implied products and groups the brackets. Plain tokens whose
/// brackets match come out with success and without a raw bracket at any
/// depth.
pub fn parse(tokens: Vec<Operator>) -> (result: Result<Vec<Operator>, CalculatorError>)
    ensures
        match result {
            Ok(groups) => parsed(terms(tokens@)) == Ok::<Seq<Term>, Fault>(terms(groups@)),
            Err(error) => parsed(terms(tokens@)) == Err::<Seq<Term>, Fault>(error@),
        },
        flat(terms(tokens@)) && well_nested(terms(tokens@)) ==> result is Ok && fully_grouped(
            terms(result->Ok_0@),
        ),
{
    proof {
        if flat(terms(tokens@)) && well_nested(terms(tokens@)) {
            lemma_parsed_fully_grouped(terms(tokens@));
        }
    }
    group(normalize(tokens))
}

/// The calculator. It holds no state: what `calculate` returns depends on
/// its arguments alone.
pub struct Calculator {}

impl Calculator {
    /// A calculator.
    pub fn new() -> Self {
        Self {  }
    }

    /// Calculates the value of an expression, as far as the answers reach.
    ///
    /// The text is taken as it is: blanks are not part of the language. The
    /// result is the bit pattern of the value, or the failure of the
    /// expression, or the request whose answer is missing. A caller begins
    /// with no answers; after a request it adds the answer to `literals` or to
    /// `results`, whichever the request belongs to, and calls again.
    pub fn calculate(
        &mut self,
        input: &str,
        literals: &Vec<Option<u64>>,
        results: &Vec<u64>,
    ) -> (result: Result<u64, Halt>)
        ensures
            match result {
                Ok(bits) => calculation(input@, literals@, results@) == Ok::<u64, Stop>(bits),
                Err(halt) => calculation(input@, literals@, results@) == Err::<u64, Stop>(halt@),
            },
    {
        let tokens = match tokenize(input, literals) {
            Ok(tokens) => tokens,
            Err(halt) => {
                return Err(halt);
            },
        };
        let groups = match parse(tokens) {
            Ok(groups) => groups,
            Err(error) => {
                return Err(Halt::Failed(error));
            },
        };
        evaluate(groups, results)
    }
}

} // verus!
