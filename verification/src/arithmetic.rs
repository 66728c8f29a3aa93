//! What the caller supplies: the three things that only floating-point
//! hardware and its formatting routines can do. Each is a function value;
//! contracts speak of what such a function may return through its own
//! `requires` and `ensures`.
use crate::literal::is_float_literal;
use crate::operator::Operator;
use crate::value::Value;
use vstd::prelude::*;

verus! {

/// `read` can be called on every text that is a number.
pub open spec fn reads_literals<R: Fn(&str) -> Value>(read: R) -> bool {
    forall|piece: &str| is_float_literal(piece@) ==> #[trigger] read.requires((piece,))
}

/// `apply` can be called on every operator and every pair of values.
pub open spec fn applies_always<A: Fn(Operator, Value, Value) -> Value>(apply: A) -> bool {
    forall|op: Operator, left: Value, right: Value| #[trigger] apply.requires((op, left, right))
}

/// `show` can be called on every value.
pub open spec fn shows_always<S: Fn(Value) -> String>(show: S) -> bool {
    forall|value: Value| #[trigger] show.requires((value,))
}

/// What `apply` may return, as a relation: whether `result` is something
/// that it may return for `op`, `left` and `right`.
pub open spec fn results_of<A: Fn(Operator, Value, Value) -> Value>(apply: A) -> spec_fn(
    Operator,
    Value,
    Value,
    Value,
) -> bool {
    |op: Operator, left: Value, right: Value, result: Value|
        apply.ensures((op, left, right), result)
}

/// `value` is something that `read` may return for the text `text`.
pub open spec fn reads_as<R: Fn(&str) -> Value>(read: R, text: Seq<char>, value: Value) -> bool {
    exists|piece: &str| #[trigger] read.ensures((piece,), value) && piece@ == text
}

/// `text` is something that `show` may return for `value`.
pub open spec fn shows_as<S: Fn(Value) -> String>(show: S, value: Value, text: Seq<char>) -> bool {
    exists|shown: String| #[trigger] show.ensures((value,), shown) && shown@ == text
}

} // verus!
