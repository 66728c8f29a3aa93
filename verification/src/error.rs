//! The errors of evaluation.
use vstd::prelude::*;

verus! {

/// Why a run over a batch of postfix lines stops.
#[derive(Clone, Copy, Debug, PartialEq, Eq, Structural)]
pub enum EvalError {
    /// No line of the input holds anything but white space.
    EmptyInput,
    /// A token of one character that is neither a number nor an operator.
    UnknownOperator { symbol: char },
    /// Operands and operators do not match up, or a token of several
    /// characters is no number.
    MalformedExpression,
}

} // verus!
