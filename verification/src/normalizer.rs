//! Implicit multiplication: `2(3)`, `(2)(3)` and `(2)3` are products.
use crate::term::{bracket_free, Term};
use crate::token::{terms, BinaryOp, Operator};
use vstd::prelude::*;

verus! {

/// Whether `current`, standing directly after `previous`, multiplies it: a
/// bracket opening after a closing bracket or after a number, or a number
/// after a closing bracket.
pub open spec fn implies_product(previous: Term, current: Term) -> bool {
    ||| previous == Term::Close && current == Term::Open
    ||| previous is Number && current == Term::Open
    ||| previous == Term::Close && current is Number
}

/// What is written once `current` has been read, where `written` was written
/// before it.
///
/// A multiplication goes before `current` where `current` multiplies the last
/// term written. An empty pair of brackets is followed by a multiplication.
pub open spec fn appended(written: Seq<Term>, current: Term) -> Seq<Term> {
    if written.len() == 0 {
        seq![current]
    } else if implies_product(written.last(), current) {
        written.push(Term::Operation(BinaryOp::Mul)).push(current)
    } else if written.last() == Term::Open && current == Term::Close {
        written.push(current).push(Term::Operation(BinaryOp::Mul))
    } else {
        written.push(current)
    }
}

/// The terms with every implied multiplication written out: one scan from
/// the left, each term judged against the last term written.
pub open spec fn normalized(ts: Seq<Term>) -> Seq<Term>
    decreases ts.len(),
{
    if ts.len() == 0 {
        Seq::empty()
    } else {
        appended(normalized(ts.drop_last()), ts.last())
    }
}

/// Normalizing adds at most one product for each term.
pub proof fn lemma_normalized_len(ts: Seq<Term>)
    ensures
        ts.len() <= normalized(ts).len() <= 2 * ts.len(),
    decreases ts.len(),
{
    if ts.len() > 0 {
        lemma_normalized_len(ts.drop_last());
    }
}

/// Only a bracket implies a product: a sequence without raw brackets is
/// normalized already.
pub proof fn lemma_bracket_free_normalized(ts: Seq<Term>)
    requires
        bracket_free(ts),
    ensures
        normalized(ts) == ts,
    decreases ts.len(),
{
    if ts.len() > 0 {
        let front = ts.drop_last();
        assert(bracket_free(front)) by {
            assert forall|i: int| 0 <= i < front.len() implies #[trigger] front[i] != Term::Open
                && front[i] != Term::Close by {
                assert(front[i] == ts[i]);
            }
        }
        lemma_bracket_free_normalized(front);
        assert(ts.last() == ts[ts.len() - 1]);
        if front.len() > 0 {
            assert(front.last() == ts[ts.len() - 2]);
        }
        assert(normalized(ts) =~= ts);
    } else {
        assert(normalized(ts) =~= ts);
    }
}

/// Writes out the multiplications that adjacency implies: the result is
/// `normalized` of the tokens. Tokens are added, none is removed or rejected.
pub fn normalize(tokens: Vec<Operator>) -> (written: Vec<Operator>)
    ensures
        terms(written@) == normalized(terms(tokens@)),
{
    let ghost read = terms(tokens@);
    let mut written: Vec<Operator> = Vec::new();
    assert(read.take(0) =~= Seq::<Term>::empty());
    assert(terms(written@) =~= Seq::<Term>::empty());
    for token in it: tokens
        invariant
            it.seq() == tokens@,
            read == terms(tokens@),
            terms(written@) == normalized(read.take(it.index() as int)),
    {
        let ghost before = terms(written@);
        proof {
            let k = it.index() as int;
            assert(read.take(k + 1).drop_last() =~= read.take(k));
            assert(read.take(k + 1).last() == token@);
        }
        let mut before_token = false;
        let mut after_token = false;
        if written.len() > 0 {
            match (&written[written.len() - 1], &token) {
                (Operator::RBracket, Operator::LBracket) => {
                    before_token = true;
                },
                (Operator::Num(_), Operator::LBracket) => {
                    before_token = true;
                },
                (Operator::RBracket, Operator::Num(_)) => {
                    before_token = true;
                },
                (Operator::LBracket, Operator::RBracket) => {
                    after_token = true;
                },
                _ => {},
            }
            assert(before.last() == written@[written.len() - 1]@);
        }
        assert(before_token == (before.len() > 0 && implies_product(before.last(), token@)));
        assert(after_token == (before.len() > 0 && !before_token && before.last() == Term::Open
            && token@ == Term::Close));
        if before_token {
            written.push(Operator::Multiplication);
        }
        written.push(token);
        if after_token {
            written.push(Operator::Multiplication);
        }
        assert(terms(written@) =~= appended(before, token@));
    }
    assert(read.take(tokens@.len() as int) =~= read);
    written
}

} // verus!
