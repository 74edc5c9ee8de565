//! The mathematical model of tokens: terms, and what is said of sequences
//! of terms.
use crate::token::BinaryOp;
use vstd::prelude::*;

verus! {

/// The mathematical model of a token.
pub enum Term {
    Operation(BinaryOp),
    Open,
    Close,
    Number(u64),
    Group(Seq<Term>),
}

/// Whether no raw bracket stands in the sequence itself.
pub open spec fn bracket_free(ts: Seq<Term>) -> bool {
    forall|i: int| 0 <= i < ts.len() ==> #[trigger] ts[i] != Term::Open && ts[i] != Term::Close
}

/// Whether no group stands in the sequence itself.
pub open spec fn flat(ts: Seq<Term>) -> bool {
    forall|i: int| 0 <= i < ts.len() ==> !(#[trigger] ts[i] is Group)
}

/// Whether no raw bracket is left at any depth: none in the sequence and
/// none in what its groups hold.
pub open spec fn fully_grouped(ts: Seq<Term>) -> bool
    decreases ts,
{
    forall|i: int|
        0 <= i < ts.len() ==> {
            &&& #[trigger] ts[i] != Term::Open
            &&& ts[i] != Term::Close
            &&& ts[i] is Group ==> fully_grouped(ts[i]->Group_0)
        }
}

/// The number of terms in a sequence, those inside its groups included.
pub open spec fn weight(ts: Seq<Term>) -> nat
    decreases ts,
{
    if ts.len() == 0 {
        0
    } else {
        weight(ts.drop_last()) + 1 + match ts.last() {
            Term::Group(inner) => weight(inner),
            _ => 0,
        }
    }
}

/// The weight of a concatenation is the sum of the weights.
pub proof fn lemma_weight_concat(front: Seq<Term>, back: Seq<Term>)
    ensures
        weight(front + back) == weight(front) + weight(back),
    decreases back.len(),
{
    if back.len() == 0 {
        assert(front + back =~= front);
    } else {
        assert((front + back).drop_last() =~= front + back.drop_last());
        assert((front + back).last() == back.last());
        lemma_weight_concat(front, back.drop_last());
    }
}

/// A sequence weighs more than what any one of its groups holds.
pub proof fn lemma_weight_group(ts: Seq<Term>, at: int)
    requires
        0 <= at < ts.len(),
        ts[at] is Group,
    ensures
        weight(ts[at]->Group_0) < weight(ts),
{
    assert(ts =~= ts.take(at + 1) + ts.skip(at + 1));
    lemma_weight_concat(ts.take(at + 1), ts.skip(at + 1));
    assert(ts.take(at + 1).last() == ts[at]);
}

/// A sequence weighs at least its length.
pub proof fn lemma_weight_len(ts: Seq<Term>)
    ensures
        weight(ts) >= ts.len(),
    decreases ts.len(),
{
    if ts.len() > 0 {
        lemma_weight_len(ts.drop_last());
    }
}

/// A sequence without groups weighs its length.
pub proof fn lemma_weight_flat(ts: Seq<Term>)
    requires
        flat(ts),
    ensures
        weight(ts) == ts.len(),
    decreases ts.len(),
{
    if ts.len() > 0 {
        let front = ts.drop_last();
        assert(flat(front)) by {
            assert forall|i: int| 0 <= i < front.len() implies !(#[trigger] front[i] is Group) by {
                assert(front[i] == ts[i]);
            }
        }
        lemma_weight_flat(front);
        assert(!(ts[ts.len() - 1] is Group));
    }
}

/// A group as it was written: an opening bracket, what the group holds, a
/// closing bracket.
pub open spec fn bracketed(inner: Seq<Term>) -> Seq<Term> {
    seq![Term::Open] + inner + seq![Term::Close]
}

/// The sequence with every group, at any depth, written out with its
/// brackets.
pub open spec fn flattened(ts: Seq<Term>) -> Seq<Term>
    decreases weight(ts),
{
    if ts.len() == 0 {
        Seq::empty()
    } else {
        flattened(ts.drop_last()) + match ts.last() {
            Term::Group(inner) => {
                proof {
                    lemma_weight_group(ts, ts.len() - 1);
                }
                bracketed(flattened(inner))
            },
            term => seq![term],
        }
    }
}

/// Writing groups out goes term by term.
pub proof fn lemma_flattened_concat(front: Seq<Term>, back: Seq<Term>)
    ensures
        flattened(front + back) == flattened(front) + flattened(back),
    decreases back.len(),
{
    if back.len() == 0 {
        assert(front + back =~= front);
        assert(flattened(front) + flattened(back) =~= flattened(front));
    } else {
        assert((front + back).drop_last() =~= front + back.drop_last());
        assert((front + back).last() == back.last());
        lemma_flattened_concat(front, back.drop_last());
        assert(flattened(front + back) =~= flattened(front) + flattened(back));
    }
}

/// A sequence without groups is written out already.
pub proof fn lemma_flattened_flat(ts: Seq<Term>)
    requires
        flat(ts),
    ensures
        flattened(ts) == ts,
    decreases ts.len(),
{
    if ts.len() > 0 {
        let front = ts.drop_last();
        assert(flat(front)) by {
            assert forall|i: int| 0 <= i < front.len() implies !(#[trigger] front[i] is Group) by {
                assert(front[i] == ts[i]);
            }
        }
        lemma_flattened_flat(front);
        assert(!(ts[ts.len() - 1] is Group));
        assert(flattened(ts) =~= ts);
    } else {
        assert(flattened(ts) =~= ts);
    }
}

} // verus!
