//! The stack machine that evaluates a postfix token sequence.
use crate::arithmetic::{applies_always, results_of};
use crate::error::EvalError;
use crate::fragment::{build_infix, combine, Fragment, FragmentView};
use crate::operator::Operator;
use crate::postfix::{is_postfix, lemma_pending_step, pending};
use crate::term::{
    flatten, is_deterministic, lemma_flatten_push, lemma_postfix_determines_shape,
    lemma_shape_determines_result, lemma_term_is_postfix, Term,
};
use crate::token::{operands, token_views, Token, TokenView};
use crate::value::Value;
use vstd::prelude::*;

verus! {

/// `value` and `fragment` are what `tokens` may evaluate to: the tokens are
/// the postfix writing of a term whose operators were all computed by
/// `results`, `value` is the value of that term and `fragment` its infix
/// writing.
pub open spec fn evaluates_to(
    tokens: Seq<TokenView>,
    results: spec_fn(Operator, Value, Value, Value) -> bool,
    value: Value,
    fragment: FragmentView,
) -> bool {
    exists|term: Term|
        {
            &&& #[trigger] term.postfix() == tokens
            &&& term.computed_by(results)
            &&& term.value() == value
            &&& term.fragment() == fragment
        }
}

/// Evaluates a postfix token sequence in one pass from left to right, on a
/// stack of values and a stack of fragments of equal height. A number is
/// pushed on both. An operator takes the two topmost entries of each, the
/// lower one as its left operand, and pushes what `apply` makes of the values
/// and what [`build_infix`] makes of the fragments.
///
/// The sequence is malformed if an operator finds fewer than two operands or
/// if anything but one entry is left at the end.
pub fn evaluate<A: Fn(Operator, Value, Value) -> Value>(tokens: &Vec<Token>, apply: &A) -> (r:
    Result<(Value, Fragment), EvalError>)
    requires
        applies_always(*apply),
    ensures
        match r {
            Ok((value, fragment)) => {
                &&& is_postfix(operands(token_views(tokens@)))
                &&& evaluates_to(token_views(tokens@), results_of(*apply), value, fragment@)
            },
            Err(e) => {
                &&& e == EvalError::MalformedExpression
                &&& !is_postfix(operands(token_views(tokens@)))
            },
        },
{
    let ghost all = token_views(tokens@);
    let ghost shape = operands(all);
    let mut values: Vec<Value> = Vec::new();
    let mut fragments: Vec<Fragment> = Vec::new();
    let ghost mut terms: Seq<Term> = Seq::empty();
    let mut i: usize = 0;
    assert(all.take(0) =~= Seq::empty());
    assert(shape.take(0) =~= Seq::empty());
    while i < tokens.len()
        invariant
            i <= tokens.len(),
            all == token_views(tokens@),
            shape == operands(all),
            applies_always(*apply),
            values.len() == terms.len(),
            fragments.len() == terms.len(),
            terms.len() == pending(shape.take(i as int)),
            forall|j: int| 0 <= j < i && !shape[j] ==> #[trigger] pending(shape.take(j)) >= 2,
            flatten(terms) == all.take(i as int),
            forall|k: int|
                0 <= k < terms.len() ==> {
                    &&& (#[trigger] terms[k]).computed_by(results_of(*apply))
                    &&& terms[k].value() == values[k]
                    &&& terms[k].fragment() == fragments[k]@
                },
        decreases tokens.len() - i,
    {
        proof {
            lemma_pending_step(shape, i as int);
            assert(all.take(i + 1) =~= all.take(i as int) + seq![all[i as int]]);
        }
        match &tokens[i] {
            Token::Number { value, text } => {
                let ghost term = Term::Number { value: *value, text: text@ };
                values.push(*value);
                fragments.push(Fragment::atom(text.clone()));
                proof {
                    lemma_flatten_push(terms, term);
                    terms = terms.push(term);
                }
            },
            Token::Operator(op) => {
                if values.len() < 2 {
                    return Err(EvalError::MalformedExpression);
                }
                let ghost below = terms.drop_last().drop_last();
                let ghost left_term = terms[terms.len() - 2];
                let ghost right_term = terms[terms.len() - 1];
                let right_value = values.pop().unwrap();
                let left_value = values.pop().unwrap();
                let right = fragments.pop().unwrap();
                let left = fragments.pop().unwrap();
                let value = apply(*op, left_value, right_value);
                let fragment = build_infix(&left, &right, *op);
                values.push(value);
                fragments.push(fragment);
                proof {
                    let term = Term::Binary {
                        op: *op,
                        left: Box::new(left_term),
                        right: Box::new(right_term),
                        value,
                    };
                    assert(terms =~= below.push(left_term).push(right_term));
                    lemma_flatten_push(below, left_term);
                    lemma_flatten_push(below.push(left_term), right_term);
                    lemma_flatten_push(below, term);
                    assert(flatten(below.push(term)) =~= flatten(terms) + seq![all[i as int]]);
                    terms = below.push(term);
                }
            },
        }
        i += 1;
    }
    assert(shape.take(i as int) =~= shape);
    assert(all.take(i as int) =~= all);
    if values.len() == 1 {
        let value = values.pop().unwrap();
        let fragment = fragments.pop().unwrap();
        proof {
            assert(terms =~= Seq::<Term>::empty().push(terms[0]));
            lemma_flatten_push(Seq::empty(), terms[0]);
            assert(flatten(Seq::<Term>::empty()) =~= Seq::empty());
            assert(terms[0].postfix() =~= all);
        }
        Ok((value, fragment))
    } else {
        Err(EvalError::MalformedExpression)
    }
}

/// A term that shows what `tokens` evaluate to.
pub proof fn evaluated_term(
    tokens: Seq<TokenView>,
    results: spec_fn(Operator, Value, Value, Value) -> bool,
    value: Value,
    fragment: FragmentView,
) -> (term: Term)
    requires
        evaluates_to(tokens, results, value, fragment),
    ensures
        term.postfix() == tokens,
        term.computed_by(results),
        term.value() == value,
        term.fragment() == fragment,
{
    choose|term: Term|
        {
            &&& #[trigger] term.postfix() == tokens
            &&& term.computed_by(results)
            &&& term.value() == value
            &&& term.fragment() == fragment
        }
}

/// A token sequence has one evaluation at most: whatever it evaluates to has
/// the same infix writing, and the same value if there is one result at most
/// for each application.
pub proof fn lemma_evaluation_is_determined(
    tokens: Seq<TokenView>,
    results: spec_fn(Operator, Value, Value, Value) -> bool,
    value: Value,
    fragment: FragmentView,
    other_value: Value,
    other_fragment: FragmentView,
)
    requires
        evaluates_to(tokens, results, value, fragment),
        evaluates_to(tokens, results, other_value, other_fragment),
    ensures
        fragment == other_fragment,
        is_deterministic(results) ==> value == other_value,
{
    let a = evaluated_term(tokens, results, value, fragment);
    let b = evaluated_term(tokens, results, other_value, other_fragment);
    lemma_postfix_determines_shape(a, b);
    lemma_shape_determines_result(a, b, results);
}

/// Only a postfix expression evaluates to anything.
pub proof fn lemma_evaluated_is_postfix(
    tokens: Seq<TokenView>,
    results: spec_fn(Operator, Value, Value, Value) -> bool,
    value: Value,
    fragment: FragmentView,
)
    requires
        evaluates_to(tokens, results, value, fragment),
    ensures
        is_postfix(operands(tokens)),
{
    let term = evaluated_term(tokens, results, value, fragment);
    lemma_term_is_postfix(term);
}

/// The operand that was written first stands on the left: what `left`,
/// `right` and then `op` evaluate to is `left op right`, in writing and, if
/// there is one result at most for each application, in value.
pub proof fn lemma_first_operand_is_left(
    left: Term,
    right: Term,
    op: Operator,
    results: spec_fn(Operator, Value, Value, Value) -> bool,
    value: Value,
    fragment: FragmentView,
)
    requires
        left.computed_by(results),
        right.computed_by(results),
        evaluates_to(
            left.postfix() + right.postfix() + seq![TokenView::Operator(op)],
            results,
            value,
            fragment,
        ),
    ensures
        fragment == combine(left.fragment(), op, right.fragment()),
        is_deterministic(results) ==> results(op, left.value(), right.value(), value),
{
    let tokens = left.postfix() + right.postfix() + seq![TokenView::Operator(op)];
    let term = evaluated_term(tokens, results, value, fragment);
    let written = Term::Binary { op, left: Box::new(left), right: Box::new(right), value };
    lemma_postfix_determines_shape(written, term);
    lemma_shape_determines_result(*written->left, *term->left, results);
    lemma_shape_determines_result(*written->right, *term->right, results);
}

} // verus!
