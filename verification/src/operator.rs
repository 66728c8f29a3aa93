//! The four operators.
use vstd::prelude::*;

verus! {

/// One of the four arithmetic operators.
#[derive(Clone, Copy, Debug, PartialEq, Eq, Structural)]
pub enum Operator {
    Add,
    Sub,
    Mul,
    Div,
}

impl Operator {
    /// The character that stands for the operator.
    pub open spec fn symbol_spec(self) -> char {
        match self {
            Operator::Add => '+',
            Operator::Sub => '-',
            Operator::Mul => '*',
            Operator::Div => '/',
        }
    }

    /// `+` and `-` bind loosest; `*` and `/` bind tighter.
    pub open spec fn is_additive_spec(self) -> bool {
        self == Operator::Add || self == Operator::Sub
    }

    /// The operator that `c` stands for, if it stands for one.
    pub open spec fn of_symbol(c: char) -> Option<Operator> {
        if c == '+' {
            Some(Operator::Add)
        } else if c == '-' {
            Some(Operator::Sub)
        } else if c == '*' {
            Some(Operator::Mul)
        } else if c == '/' {
            Some(Operator::Div)
        } else {
            None
        }
    }

    #[verifier::when_used_as_spec(symbol_spec)]
    pub fn symbol(self) -> (c: char)
        ensures
            c == self.symbol_spec(),
    {
        match self {
            Operator::Add => '+',
            Operator::Sub => '-',
            Operator::Mul => '*',
            Operator::Div => '/',
        }
    }

    #[verifier::when_used_as_spec(is_additive_spec)]
    pub fn is_additive(self) -> (b: bool)
        ensures
            b == self.is_additive_spec(),
    {
        match self {
            Operator::Add => true,
            Operator::Sub => true,
            Operator::Mul => false,
            Operator::Div => false,
        }
    }

    /// The operator that `c` stands for, if it stands for one.
    pub fn from_symbol(c: char) -> (r: Option<Operator>)
        ensures
            r == Operator::of_symbol(c),
    {
        if c == '+' {
            Some(Operator::Add)
        } else if c == '-' {
            Some(Operator::Sub)
        } else if c == '*' {
            Some(Operator::Mul)
        } else if c == '/' {
            Some(Operator::Div)
        } else {
            None
        }
    }
}

/// A character stands for an operator exactly when it is that operator's
/// symbol; so distinct operators have distinct symbols.
pub proof fn lemma_symbols(op: Operator, c: char)
    ensures
        Operator::of_symbol(c) == Some(op) <==> op.symbol() == c,
{
}

} // verus!
