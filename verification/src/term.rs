//! The expression that a postfix token sequence writes down, as a tree.
//! Contracts say what was evaluated by naming such a tree.
use crate::fragment::{combine, FragmentView, Root};
use crate::operator::Operator;
use crate::postfix::{is_postfix, lemma_pending_concat, pending};
use crate::token::{operands, TokenView};
use crate::value::Value;
use vstd::prelude::*;

verus! {

/// An arithmetic expression with the value of each of its sub-expressions.
pub ghost enum Term {
    /// A number, with the text it is written down as.
    Number { value: Value, text: Seq<char> },
    /// `left op right`.
    Binary { op: Operator, left: Box<Term>, right: Box<Term>, value: Value },
}

impl Term {
    /// The value at the root.
    pub open spec fn value(self) -> Value {
        match self {
            Term::Number { value, .. } => value,
            Term::Binary { value, .. } => value,
        }
    }

    /// The postfix writing: left operand, right operand, operator.
    pub open spec fn postfix(self) -> Seq<TokenView>
        decreases self,
    {
        match self {
            Term::Number { value, text } => seq![TokenView::Number { value, text }],
            Term::Binary { op, left, right, .. } => left.postfix() + right.postfix()
                + seq![TokenView::Operator(op)],
        }
    }

    /// The infix writing, with parentheses where they are needed and nowhere
    /// else.
    pub open spec fn fragment(self) -> FragmentView
        decreases self,
    {
        match self {
            Term::Number { text, .. } => FragmentView { text, root: Root::Atomic },
            Term::Binary { op, left, right, .. } => combine(left.fragment(), op, right.fragment()),
        }
    }

    /// Whether the value at every operator is a result, by `results`, of
    /// that operator, the value of the left operand and the value of the
    /// right operand, in this order.
    pub open spec fn computed_by(
        self,
        results: spec_fn(Operator, Value, Value, Value) -> bool,
    ) -> bool
        decreases self,
    {
        match self {
            Term::Number { .. } => true,
            Term::Binary { op, left, right, value } => {
                &&& left.computed_by(results)
                &&& right.computed_by(results)
                &&& results(op, left.value(), right.value(), value)
            },
        }
    }

    /// Whether two terms are the same expression: the same numbers under
    /// the same operators in the same places. The values at the operators
    /// are left out of the comparison.
    pub open spec fn same_shape(self, other: Term) -> bool
        decreases self,
    {
        match self {
            Term::Number { .. } => other == self,
            Term::Binary { op, left, right, .. } => {
                &&& other is Binary
                &&& other->op == op
                &&& left.same_shape(*other->left)
                &&& right.same_shape(*other->right)
            },
        }
    }
}

/// There is one result at most for each operator and pair of operands.
pub open spec fn is_deterministic(results: spec_fn(Operator, Value, Value, Value) -> bool) -> bool {
    forall|op: Operator, left: Value, right: Value, a: Value, b: Value|
        #![trigger results(op, left, right, a), results(op, left, right, b)]
        results(op, left, right, a) && results(op, left, right, b) ==> a == b
}

/// The postfix writings of a row of terms, one after the other.
pub open spec fn flatten(terms: Seq<Term>) -> Seq<TokenView>
    decreases terms.len(),
{
    if terms.len() == 0 {
        Seq::empty()
    } else {
        flatten(terms.drop_last()) + terms.last().postfix()
    }
}

pub proof fn lemma_flatten_push(terms: Seq<Term>, term: Term)
    ensures
        flatten(terms.push(term)) == flatten(terms) + term.postfix(),
{
    assert(terms.push(term).drop_last() =~= terms);
}

/// A postfix writing ends with the token of the root: the number itself, or
/// the operator after both operands.
pub proof fn lemma_postfix_ends(term: Term)
    ensures
        term.postfix().len() >= 1,
        term is Number ==> term.postfix() == seq![
            TokenView::Number { value: term->Number_value, text: term->text },
        ],
        term is Binary ==> term.postfix().len() >= 3 && term.postfix().last()
            == TokenView::Operator(term->op),
    decreases term,
{
    match term {
        Term::Number { .. } => {},
        Term::Binary { left, right, .. } => {
            lemma_postfix_ends(*left);
            lemma_postfix_ends(*right);
        },
    }
}

proof fn lemma_suffix_determines_shape(x: Seq<TokenView>, a: Term, y: Seq<TokenView>, b: Term)
    requires
        x + a.postfix() == y + b.postfix(),
    ensures
        x == y,
        a.same_shape(b),
        a.postfix() == b.postfix(),
    decreases a,
{
    lemma_postfix_ends(a);
    lemma_postfix_ends(b);
    let pa = a.postfix();
    let pb = b.postfix();
    assert((x + pa).last() == pa.last());
    assert((y + pb).last() == pb.last());
    match a {
        Term::Number { .. } => {
            assert(b is Number);
            assert((x + pa).drop_last() =~= x);
            assert((y + pb).drop_last() =~= y);
        },
        Term::Binary { op, left, right, .. } => {
            assert(b is Binary);
            let left_b = *b->left;
            let right_b = *b->right;
            let xa = x + left.postfix();
            let yb = y + left_b.postfix();
            assert((x + pa).drop_last() =~= xa + right.postfix());
            assert((y + pb).drop_last() =~= yb + right_b.postfix());
            lemma_suffix_determines_shape(xa, *right, yb, right_b);
            lemma_suffix_determines_shape(x, *left, y, left_b);
        },
    }
}

/// A postfix writing is the writing of one expression only: two terms with
/// the same postfix writing have the same shape.
pub proof fn lemma_postfix_determines_shape(a: Term, b: Term)
    requires
        a.postfix() == b.postfix(),
    ensures
        a.same_shape(b),
{
    assert(Seq::<TokenView>::empty() + a.postfix() =~= a.postfix());
    assert(Seq::<TokenView>::empty() + b.postfix() =~= b.postfix());
    lemma_suffix_determines_shape(Seq::empty(), a, Seq::empty(), b);
}

/// Terms of the same shape have the same infix writing, and the same value
/// if both were computed by results of which there is one at most for each
/// application.
pub proof fn lemma_shape_determines_result(
    a: Term,
    b: Term,
    results: spec_fn(Operator, Value, Value, Value) -> bool,
)
    requires
        a.same_shape(b),
    ensures
        a.fragment() == b.fragment(),
        a.postfix() == b.postfix(),
        is_deterministic(results) && a.computed_by(results) && b.computed_by(results)
            ==> a.value() == b.value(),
    decreases a,
{
    match a {
        Term::Number { .. } => {},
        Term::Binary { left, right, .. } => {
            lemma_shape_determines_result(*left, *b->left, results);
            lemma_shape_determines_result(*right, *b->right, results);
        },
    }
}

/// The postfix writing of every term is a postfix expression: each of its
/// operators finds two operands waiting, and one value is left at the end.
pub proof fn lemma_term_is_postfix(term: Term)
    ensures
        is_postfix(operands(term.postfix())),
    decreases term,
{
    let shape = operands(term.postfix());
    match term {
        Term::Number { .. } => {
            assert(shape.drop_last() =~= Seq::<bool>::empty());
            assert(pending(shape.drop_last()) == 0);
        },
        Term::Binary { left, right, .. } => {
            lemma_term_is_postfix(*left);
            lemma_term_is_postfix(*right);
            let l = operands(left.postfix());
            let r = operands(right.postfix());
            assert(shape =~= l + r + seq![false]);
            assert(shape.drop_last() =~= l + r);
            lemma_pending_concat(l, r);
            assert forall|i: int| 0 <= i < shape.len() && !shape[i] implies #[trigger] pending(
                shape.take(i),
            ) >= 2 by {
                if i < l.len() {
                    assert(shape.take(i) =~= l.take(i));
                } else if i < l.len() + r.len() {
                    let k = i - l.len();
                    assert(shape.take(i) =~= l + r.take(k));
                    lemma_pending_concat(l, r.take(k));
                    assert(!r[k]);
                } else {
                    assert(shape.take(i) =~= l + r);
                }
            }
        },
    }
}

} // verus!
