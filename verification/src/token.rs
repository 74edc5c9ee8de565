//! Tokens, and the operators' precedence levels.
use crate::term::Term;
use vstd::prelude::*;

verus! {

/// A binary operation of the expression language.
#[derive(Clone, Copy, Debug, PartialEq, Eq, Structural)]
pub enum BinaryOp {
    Add,
    Sub,
    Mul,
    Div,
    Pow,
}

/// A precedence level. Evaluation reduces every operator of `Power` first,
/// then those of `Product`, then those of `Sum`.
#[derive(Clone, Copy, Debug, PartialEq, Eq, Structural)]
pub enum Level {
    Power,
    Product,
    Sum,
}

impl Level {
    /// The order of the passes: a level of higher rank is reduced earlier.
    pub open spec fn rank(self) -> nat {
        match self {
            Level::Power => 3,
            Level::Product => 2,
            Level::Sum => 1,
        }
    }
}

impl BinaryOp {
    /// The level at which this operation is reduced.
    pub open spec fn level(self) -> Level {
        match self {
            BinaryOp::Pow => Level::Power,
            BinaryOp::Mul | BinaryOp::Div => Level::Product,
            BinaryOp::Add | BinaryOp::Sub => Level::Sum,
        }
    }

    /// The level at which this operation is reduced.
    pub fn precedence(self) -> (level: Level)
        ensures
            level == self.level(),
    {
        match self {
            BinaryOp::Pow => Level::Power,
            BinaryOp::Mul | BinaryOp::Div => Level::Product,
            BinaryOp::Add | BinaryOp::Sub => Level::Sum,
        }
    }
}

/// A token of an expression.
///
/// `Num` carries the bit pattern of a double. `LBracket` and `RBracket` are the
/// raw bracket characters; grouping replaces each matched pair, with what it
/// encloses, by one `BracketItem`.
#[derive(Debug, PartialEq)]
pub enum Operator {
    Addition,
    Subtraction,
    Multiplication,
    Division,
    Power,
    LBracket,
    RBracket,
    Num(u64),
    BracketItem(BracketItem),
}

/// A bracketed sub-expression: the tokens that stood between one matched pair
/// of brackets.
#[derive(Debug, PartialEq)]
pub struct BracketItem {
    pub inner_equation: Vec<Operator>,
}

impl Operator {
    /// The term that this token stands for.
    pub open spec fn model(self) -> Term
        decreases self,
    {
        match self {
            Operator::Addition => Term::Operation(BinaryOp::Add),
            Operator::Subtraction => Term::Operation(BinaryOp::Sub),
            Operator::Multiplication => Term::Operation(BinaryOp::Mul),
            Operator::Division => Term::Operation(BinaryOp::Div),
            Operator::Power => Term::Operation(BinaryOp::Pow),
            Operator::LBracket => Term::Open,
            Operator::RBracket => Term::Close,
            Operator::Num(bits) => Term::Number(bits),
            Operator::BracketItem(item) => Term::Group(terms(item.inner_equation@)),
        }
    }

    /// The operation that this token stands for, if it is an operator.
    pub fn operation(&self) -> (operation: Option<BinaryOp>)
        ensures
            match operation {
                Some(op) => self@ == Term::Operation(op),
                None => !(self@ is Operation),
            },
    {
        match self {
            Operator::Addition => Some(BinaryOp::Add),
            Operator::Subtraction => Some(BinaryOp::Sub),
            Operator::Multiplication => Some(BinaryOp::Mul),
            Operator::Division => Some(BinaryOp::Div),
            Operator::Power => Some(BinaryOp::Pow),
            _ => None,
        }
    }
}

/// The terms that a sequence of tokens stands for, token by token.
pub open spec fn terms(tokens: Seq<Operator>) -> Seq<Term>
    decreases tokens,
{
    Seq::new(
        tokens.len(),
        |i: int|
            if 0 <= i < tokens.len() {
                tokens[i].model()
            } else {
                Term::Open
            },
    )
}

impl BracketItem {
    /// The group that holds these tokens.
    pub fn new(equation: Vec<Operator>) -> (item: Self)
        ensures
            item@ == terms(equation@),
    {
        BracketItem { inner_equation: equation }
    }
}

impl View for Operator {
    type V = Term;

    open spec fn view(&self) -> Term {
        self.model()
    }
}

impl View for BracketItem {
    type V = Seq<Term>;

    open spec fn view(&self) -> Seq<Term> {
        terms(self.inner_equation@)
    }
}

impl Clone for Operator {
    fn clone(&self) -> (copy: Self)
        ensures
            copy@ == self@,
        decreases self,
    {
        match self {
            Operator::Addition => Operator::Addition,
            Operator::Subtraction => Operator::Subtraction,
            Operator::Multiplication => Operator::Multiplication,
            Operator::Division => Operator::Division,
            Operator::Power => Operator::Power,
            Operator::LBracket => Operator::LBracket,
            Operator::RBracket => Operator::RBracket,
            Operator::Num(bits) => Operator::Num(*bits),
            Operator::BracketItem(item) => Operator::BracketItem(
                BracketItem { inner_equation: copy_tokens(&item.inner_equation) },
            ),
        }
    }
}

impl Clone for BracketItem {
    fn clone(&self) -> (copy: Self)
        ensures
            copy@ == self@,
    {
        BracketItem { inner_equation: copy_tokens(&self.inner_equation) }
    }
}

/// A deep copy of a token sequence.
pub fn copy_tokens(tokens: &Vec<Operator>) -> (copy: Vec<Operator>)
    ensures
        terms(copy@) == terms(tokens@),
    decreases tokens,
{
    let mut copy: Vec<Operator> = Vec::new();
    let mut i: usize = 0;
    while i < tokens.len()
        invariant
            i <= tokens.len(),
            copy.len() == i,
            forall|k: int| 0 <= k < i ==> copy@[k].model() == tokens@[k].model(),
        decreases tokens.len() - i,
    {
        let token = tokens[i].clone();
        copy.push(token);
        i += 1;
    }
    assert(terms(copy@) =~= terms(tokens@));
    copy
}

} // verus!
