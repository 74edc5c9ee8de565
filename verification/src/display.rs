//! From tokens back to text: the characters of the symbols, and groups
//! written out with their brackets.
use crate::term::{bracketed, flattened, lemma_weight_group, weight, Term};
use crate::token::{copy_tokens, terms, BinaryOp, BracketItem, Operator};
use crate::tokenizer::symbol;
use vstd::prelude::*;

verus! {

/// The character that stands for a term; none for a number or a group.
pub open spec fn character(term: Term) -> Option<char> {
    match term {
        Term::Operation(BinaryOp::Add) => Some('+'),
        Term::Operation(BinaryOp::Sub) => Some('-'),
        Term::Operation(BinaryOp::Mul) => Some('*'),
        Term::Operation(BinaryOp::Div) => Some('/'),
        Term::Operation(BinaryOp::Pow) => Some('^'),
        Term::Open => Some('('),
        Term::Close => Some(')'),
        Term::Number(_) => None,
        Term::Group(_) => None,
    }
}

/// Reading the character of a term gives the term back.
pub proof fn lemma_character_is_read_back(term: Term)
    requires
        character(term) is Some,
    ensures
        symbol(character(term)->Some_0) == Some(term),
{
}

impl Operator {
    /// The character that stands for this token; none for a number or a
    /// group.
    pub fn character(&self) -> (c: Option<char>)
        ensures
            c == character(self@),
    {
        match self {
            Operator::Addition => Some('+'),
            Operator::Subtraction => Some('-'),
            Operator::Multiplication => Some('*'),
            Operator::Division => Some('/'),
            Operator::Power => Some('^'),
            Operator::LBracket => Some('('),
            Operator::RBracket => Some(')'),
            Operator::Num(_) => None,
            Operator::BracketItem(_) => None,
        }
    }
}

impl BracketItem {
    /// The tokens of the group between its two brackets.
    pub fn to_tokens(&self) -> (tokens: Vec<Operator>)
        ensures
            terms(tokens@) == bracketed(self@),
    {
        let mut tokens = copy_tokens(&self.inner_equation);
        tokens.push(Operator::RBracket);
        tokens.insert(0, Operator::LBracket);
        assert(terms(tokens@) =~= bracketed(self@));
        tokens
    }
}

impl From<&BracketItem> for Vec<Operator> {
    /// The tokens of the group between its two brackets.
    fn from(value: &BracketItem) -> (tokens: Self)
        ensures
            terms(tokens@) == bracketed(value@),
    {
        value.to_tokens()
    }
}

/// A specification cannot name a new vector, so `from` does not go by
/// `from_spec`: its own contract says what it returns.
impl vstd::std_specs::convert::FromSpecImpl<&BracketItem> for Vec<Operator> {
    open spec fn obeys_from_spec() -> bool {
        false
    }

    open spec fn from_spec(value: &BracketItem) -> Self {
        value.inner_equation
    }
}

/// Writes every group out with its brackets, at any depth: the tokens in the
/// order in which their text stands.
pub fn flatten(tokens: &Vec<Operator>) -> (flat: Vec<Operator>)
    ensures
        terms(flat@) == flattened(terms(tokens@)),
    decreases weight(terms(tokens@)),
{
    let ghost ts = terms(tokens@);
    let mut flat: Vec<Operator> = Vec::new();
    let mut at: usize = 0;
    assert(ts.take(0) =~= Seq::<Term>::empty());
    assert(terms(flat@) =~= Seq::<Term>::empty());
    while at < tokens.len()
        invariant
            ts == terms(tokens@),
            at <= tokens.len(),
            terms(flat@) == flattened(ts.take(at as int)),
        decreases tokens.len() - at,
    {
        let ghost before = terms(flat@);
        assert(ts.take(at + 1).drop_last() =~= ts.take(at as int));
        assert(ts.take(at + 1).last() == tokens@[at as int]@);
        match &tokens[at] {
            Operator::BracketItem(item) => {
                proof {
                    lemma_weight_group(ts, at as int);
                }
                let mut inner = flatten(&item.inner_equation);
                let ghost inner_terms = terms(inner@);
                flat.push(Operator::LBracket);
                flat.append(&mut inner);
                flat.push(Operator::RBracket);
                assert(terms(flat@) =~= before + bracketed(inner_terms));
            },
            token => {
                let copy = token.clone();
                flat.push(copy);
                assert(terms(flat@) =~= before + seq![copy@]);
            },
        }
        at += 1;
    }
    assert(ts.take(tokens.len() as int) =~= ts);
    flat
}

} // verus!
