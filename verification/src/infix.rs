//! Reading infix writing back: the usual reader of infix expressions, in
//! which `*` and `/` bind tighter than `+` and `-`, operators of one level
//! group from the left and parentheses group first.
use crate::evaluator::{evaluated_term, evaluates_to};
use crate::fragment::{
    needs_parentheses, operand_text, parenthesized, root_of, FragmentView, Root,
};
use crate::operator::Operator;
use crate::term::{lemma_postfix_determines_shape, lemma_shape_determines_result, Term};
use crate::value::Value;
use vstd::prelude::*;

verus! {

/// A token of infix writing.
pub ghost enum InfixToken {
    Number { value: Value, text: Seq<char> },
    Operator(Operator),
    Open,
    Close,
}

/// `tokens` between a pair of parentheses.
pub open spec fn in_parentheses(tokens: Seq<InfixToken>) -> Seq<InfixToken> {
    seq![InfixToken::Open] + tokens + seq![InfixToken::Close]
}

/// The tokens of an operand with root `root` as they stand beside `op`.
pub open spec fn operand_tokens(tokens: Seq<InfixToken>, root: Root, op: Operator) -> Seq<
    InfixToken,
> {
    if needs_parentheses(root, op) {
        in_parentheses(tokens)
    } else {
        tokens
    }
}

/// The infix writing of a term, token by token.
pub open spec fn infix_tokens(term: Term) -> Seq<InfixToken>
    decreases term,
{
    match term {
        Term::Number { value, text } => seq![InfixToken::Number { value, text }],
        Term::Binary { op, left, right, .. } => operand_tokens(
            infix_tokens(*left),
            left.fragment().root,
            op,
        ) + seq![InfixToken::Operator(op)] + operand_tokens(
            infix_tokens(*right),
            right.fragment().root,
            op,
        ),
    }
}

/// How a token is spelt.
pub open spec fn token_text(token: InfixToken) -> Seq<char> {
    match token {
        InfixToken::Number { text, .. } => text,
        InfixToken::Operator(op) => seq![op.symbol()],
        InfixToken::Open => seq!['('],
        InfixToken::Close => seq![')'],
    }
}

/// The tokens spelt out, with one space between each two.
pub open spec fn spelled(tokens: Seq<InfixToken>) -> Seq<char>
    decreases tokens.len(),
{
    if tokens.len() == 0 {
        Seq::empty()
    } else if tokens.len() == 1 {
        token_text(tokens[0])
    } else {
        spelled(tokens.drop_last()) + seq![' '] + token_text(tokens.last())
    }
}

/// The operator at a position, if there is one.
pub open spec fn operator_at(tokens: Seq<InfixToken>, at: int) -> Option<Operator> {
    if 0 <= at < tokens.len() {
        match tokens[at] {
            InfixToken::Operator(op) => Some(op),
            _ => None,
        }
    } else {
        None
    }
}

/// `left op right` with the value that `calc` gives it.
pub open spec fn applied(
    op: Operator,
    left: Term,
    right: Term,
    calc: spec_fn(Operator, Value, Value) -> Value,
) -> Term {
    Term::Binary {
        op,
        left: Box::new(left),
        right: Box::new(right),
        value: calc(op, left.value(), right.value()),
    }
}

/// Reads a number or an expression in parentheses at `at`; gives the term
/// and the position after it.
pub open spec fn read_factor(
    tokens: Seq<InfixToken>,
    at: int,
    calc: spec_fn(Operator, Value, Value) -> Value,
) -> Option<(Term, int)>
    decreases tokens.len() - at, 1nat,
{
    if at < 0 || at >= tokens.len() {
        None
    } else {
        match tokens[at] {
            InfixToken::Number { value, text } => Some((Term::Number { value, text }, at + 1)),
            InfixToken::Open => match read_sum(tokens, at + 1, calc) {
                Some((term, end)) => if 0 <= end < tokens.len() && tokens[end] is Close {
                    Some((term, end + 1))
                } else {
                    None
                },
                None => None,
            },
            _ => None,
        }
    }
}

/// Goes on reading a product whose factors so far make up `left`.
pub open spec fn product_rest(
    tokens: Seq<InfixToken>,
    at: int,
    left: Term,
    calc: spec_fn(Operator, Value, Value) -> Value,
) -> Option<(Term, int)>
    decreases tokens.len() - at, 0nat,
{
    match operator_at(tokens, at) {
        Some(op) => if op.is_additive() {
            Some((left, at))
        } else {
            match read_factor(tokens, at + 1, calc) {
                Some((right, next)) => if at < next <= tokens.len() {
                    product_rest(tokens, next, applied(op, left, right, calc), calc)
                } else {
                    None
                },
                None => None,
            }
        },
        None => Some((left, at)),
    }
}

/// Reads factors joined by `*` and `/`, grouped from the left.
pub open spec fn read_product(
    tokens: Seq<InfixToken>,
    at: int,
    calc: spec_fn(Operator, Value, Value) -> Value,
) -> Option<(Term, int)>
    decreases tokens.len() - at, 2nat,
{
    match read_factor(tokens, at, calc) {
        Some((first, next)) => if at < next <= tokens.len() {
            product_rest(tokens, next, first, calc)
        } else {
            None
        },
        None => None,
    }
}

/// Goes on reading a sum whose products so far make up `left`.
pub open spec fn sum_rest(
    tokens: Seq<InfixToken>,
    at: int,
    left: Term,
    calc: spec_fn(Operator, Value, Value) -> Value,
) -> Option<(Term, int)>
    decreases tokens.len() - at, 0nat,
{
    match operator_at(tokens, at) {
        Some(op) => if !op.is_additive() {
            Some((left, at))
        } else {
            match read_product(tokens, at + 1, calc) {
                Some((right, next)) => if at < next <= tokens.len() {
                    sum_rest(tokens, next, applied(op, left, right, calc), calc)
                } else {
                    None
                },
                None => None,
            }
        },
        None => Some((left, at)),
    }
}

/// Reads products joined by `+` and `-`, grouped from the left.
pub open spec fn read_sum(
    tokens: Seq<InfixToken>,
    at: int,
    calc: spec_fn(Operator, Value, Value) -> Value,
) -> Option<(Term, int)>
    decreases tokens.len() - at, 3nat,
{
    match read_product(tokens, at, calc) {
        Some((first, next)) => if at < next <= tokens.len() {
            sum_rest(tokens, next, first, calc)
        } else {
            None
        },
        None => None,
    }
}

/// Reads a whole infix expression: the term it stands for, with the value
/// that `calc` gives to each operator, if the tokens are one expression.
pub open spec fn read_infix(
    tokens: Seq<InfixToken>,
    calc: spec_fn(Operator, Value, Value) -> Value,
) -> Option<Term> {
    match read_sum(tokens, 0, calc) {
        Some((term, end)) => if end == tokens.len() {
            Some(term)
        } else {
            None
        },
        None => None,
    }
}

/// The results of a function: one for each application.
pub open spec fn results_by(calc: spec_fn(Operator, Value, Value) -> Value) -> spec_fn(
    Operator,
    Value,
    Value,
    Value,
) -> bool {
    |op: Operator, left: Value, right: Value, result: Value| result == calc(op, left, right)
}

/// Whether the term groups from the left: no operator has a right operand
/// of its own level, that is, no `+` or `-` a sum or difference and no `*`
/// or `/` a product or quotient.
pub open spec fn groups_from_the_left(term: Term) -> bool
    decreases term,
{
    match term {
        Term::Number { .. } => true,
        Term::Binary { op, left, right, .. } => {
            &&& groups_from_the_left(*left)
            &&& groups_from_the_left(*right)
            &&& right.fragment().root != root_of(op)
        },
    }
}

/// `part` stands in `tokens` at `at`.
pub open spec fn stands_at(tokens: Seq<InfixToken>, at: int, part: Seq<InfixToken>) -> bool {
    &&& 0 <= at
    &&& at + part.len() <= tokens.len()
    &&& forall|i: int| 0 <= i < part.len() ==> tokens[at + i] == #[trigger] part[i]
}

/// Whether `*` or `/` stands at `at`.
pub open spec fn product_goes_on(tokens: Seq<InfixToken>, at: int) -> bool {
    operator_at(tokens, at) matches Some(op) && !op.is_additive()
}

proof fn lemma_stands_parts(
    tokens: Seq<InfixToken>,
    at: int,
    a: Seq<InfixToken>,
    b: Seq<InfixToken>,
)
    requires
        stands_at(tokens, at, a + b),
    ensures
        stands_at(tokens, at, a),
        stands_at(tokens, at + a.len(), b),
{
    assert forall|i: int| 0 <= i < a.len() implies tokens[at + i] == #[trigger] a[i] by {
        assert((a + b)[i] == a[i]);
    }
    assert forall|i: int| 0 <= i < b.len() implies tokens[at + a.len() + i] == #[trigger] b[i] by {
        assert((a + b)[a.len() + i] == b[i]);
    }
}

/// What stands where the writing of `left op right` stands: the left
/// operand, the operator after it, the right operand after that.
proof fn lemma_stands_operands(
    tokens: Seq<InfixToken>,
    at: int,
    left: Seq<InfixToken>,
    op: Operator,
    right: Seq<InfixToken>,
)
    requires
        stands_at(tokens, at, left + seq![InfixToken::Operator(op)] + right),
    ensures
        stands_at(tokens, at, left),
        operator_at(tokens, at + left.len()) == Some(op),
        stands_at(tokens, at + left.len() + 1, right),
{
    let middle = seq![InfixToken::Operator(op)];
    lemma_stands_parts(tokens, at, left + middle, right);
    lemma_stands_parts(tokens, at, left, middle);
    assert(tokens[at + left.len() + 0] == middle[0]);
}

proof fn lemma_infix_tokens_len(term: Term)
    ensures
        infix_tokens(term).len() >= 1,
    decreases term,
{
    match term {
        Term::Number { .. } => {},
        Term::Binary { left, right, .. } => {
            lemma_infix_tokens_len(*left);
            lemma_infix_tokens_len(*right);
        },
    }
}

/// An expression in parentheses is read as a factor.
proof fn lemma_read_wrapped(
    tokens: Seq<InfixToken>,
    at: int,
    term: Term,
    calc: spec_fn(Operator, Value, Value) -> Value,
)
    requires
        groups_from_the_left(term),
        term.computed_by(results_by(calc)),
        stands_at(tokens, at, in_parentheses(infix_tokens(term))),
    ensures
        read_factor(tokens, at, calc) == Some((term, at + infix_tokens(term).len() + 2)),
    decreases term, 4nat,
{
    let inner = infix_tokens(term);
    let open = seq![InfixToken::Open];
    let close = seq![InfixToken::Close];
    lemma_stands_parts(tokens, at, open + inner, close);
    lemma_stands_parts(tokens, at, open, inner);
    assert(tokens[at + 0] == open[0]);
    assert(tokens[at + 1 + inner.len() + 0] == close[0]);
    lemma_read_sum(tokens, at + 1, term, calc);
}

/// An expression that no operator follows is read as a sum.
proof fn lemma_read_sum(
    tokens: Seq<InfixToken>,
    at: int,
    term: Term,
    calc: spec_fn(Operator, Value, Value) -> Value,
)
    requires
        groups_from_the_left(term),
        term.computed_by(results_by(calc)),
        stands_at(tokens, at, infix_tokens(term)),
        operator_at(tokens, at + infix_tokens(term).len()) is None,
    ensures
        read_sum(tokens, at, calc) == Some((term, at + infix_tokens(term).len())),
    decreases term, 3nat,
{
    lemma_sum_level(tokens, at, term, calc);
}

/// Reading a sum where an expression stands leads to where the expression
/// has been read and the sum goes on after it.
proof fn lemma_sum_level(
    tokens: Seq<InfixToken>,
    at: int,
    term: Term,
    calc: spec_fn(Operator, Value, Value) -> Value,
)
    requires
        groups_from_the_left(term),
        term.computed_by(results_by(calc)),
        stands_at(tokens, at, infix_tokens(term)),
        !product_goes_on(tokens, at + infix_tokens(term).len()),
    ensures
        read_sum(tokens, at, calc) == sum_rest(tokens, at + infix_tokens(term).len(), term, calc),
    decreases term, 2nat,
{
    lemma_infix_tokens_len(term);
    match term {
        Term::Number { .. } => {
            lemma_read_product(tokens, at, term, calc);
        },
        Term::Binary { op, left, right, .. } => {
            if op.is_additive() {
                let before = infix_tokens(*left);
                let after = infix_tokens(*right);
                lemma_infix_tokens_len(*left);
                lemma_infix_tokens_len(*right);
                lemma_stands_operands(tokens, at, before, op, after);
                let mid = at + before.len();
                lemma_sum_level(tokens, at, *left, calc);
                lemma_read_product(tokens, mid + 1, *right, calc);
                assert(applied(op, *left, *right, calc) == term);
            } else {
                lemma_read_product(tokens, at, term, calc);
            }
        },
    }
}

/// A number, a product or a quotient that neither `*` nor `/` follows is
/// read as a product.
proof fn lemma_read_product(
    tokens: Seq<InfixToken>,
    at: int,
    term: Term,
    calc: spec_fn(Operator, Value, Value) -> Value,
)
    requires
        groups_from_the_left(term),
        term.computed_by(results_by(calc)),
        term.fragment().root != Root::Additive,
        stands_at(tokens, at, infix_tokens(term)),
        !product_goes_on(tokens, at + infix_tokens(term).len()),
    ensures
        read_product(tokens, at, calc) == Some((term, at + infix_tokens(term).len())),
    decreases term, 1nat,
{
    lemma_product_level(tokens, at, term, calc);
}

/// Reading a product where a number, a product or a quotient stands leads
/// to where it has been read and the product goes on after it.
proof fn lemma_product_level(
    tokens: Seq<InfixToken>,
    at: int,
    term: Term,
    calc: spec_fn(Operator, Value, Value) -> Value,
)
    requires
        groups_from_the_left(term),
        term.computed_by(results_by(calc)),
        term.fragment().root != Root::Additive,
        stands_at(tokens, at, infix_tokens(term)),
    ensures
        read_product(tokens, at, calc) == product_rest(
            tokens,
            at + infix_tokens(term).len(),
            term,
            calc,
        ),
    decreases term, 0nat,
{
    lemma_infix_tokens_len(term);
    match term {
        Term::Number { .. } => {
            assert(tokens[at + 0] == infix_tokens(term)[0]);
        },
        Term::Binary { op, left, right, .. } => {
            let before = operand_tokens(infix_tokens(*left), left.fragment().root, op);
            let after = operand_tokens(infix_tokens(*right), right.fragment().root, op);
            lemma_infix_tokens_len(*left);
            lemma_infix_tokens_len(*right);
            lemma_stands_operands(tokens, at, before, op, after);
            let mid = at + before.len();
            if left.fragment().root == Root::Additive {
                lemma_read_wrapped(tokens, at, *left, calc);
            } else {
                lemma_product_level(tokens, at, *left, calc);
            }
            if right.fragment().root == Root::Additive {
                lemma_read_wrapped(tokens, mid + 1, *right, calc);
            } else {
                assert(*right is Number);
                assert(tokens[mid + 1 + 0] == after[0]);
            }
            assert(read_factor(tokens, mid + 1, calc) == Some((*right, mid + 1 + after.len())));
            assert(applied(op, *left, *right, calc) == term);
        },
    }
}

/// An expression that groups from the left is read back from its infix
/// writing as itself, with the value of each operator: the usual reader
/// takes the writing for the expression that was written.
pub proof fn lemma_infix_reads_back(term: Term, calc: spec_fn(Operator, Value, Value) -> Value)
    requires
        groups_from_the_left(term),
        term.computed_by(results_by(calc)),
    ensures
        read_infix(infix_tokens(term), calc) == Some(term),
{
    lemma_read_sum(infix_tokens(term), 0, term, calc);
}

proof fn lemma_spelled_concat(a: Seq<InfixToken>, b: Seq<InfixToken>)
    requires
        a.len() > 0,
        b.len() > 0,
    ensures
        spelled(a + b) == spelled(a) + seq![' '] + spelled(b),
    decreases b.len(),
{
    if b.len() == 1 {
        assert((a + b).drop_last() =~= a);
    } else {
        assert((a + b).drop_last() =~= a + b.drop_last());
        lemma_spelled_concat(a, b.drop_last());
        assert(spelled(a + b) =~= spelled(a) + seq![' '] + spelled(b));
    }
}

/// The infix text of a term is its infix tokens spelt out.
pub proof fn lemma_fragment_spells_infix(term: Term)
    ensures
        term.fragment().text == spelled(infix_tokens(term)),
    decreases term,
{
    match term {
        Term::Number { .. } => {},
        Term::Binary { op, left, right, .. } => {
            lemma_fragment_spells_infix(*left);
            lemma_fragment_spells_infix(*right);
            lemma_spelled_operand(*left, op);
            lemma_spelled_operand(*right, op);
            let before = operand_tokens(infix_tokens(*left), left.fragment().root, op);
            let after = operand_tokens(infix_tokens(*right), right.fragment().root, op);
            let middle = seq![InfixToken::Operator(op)];
            lemma_infix_tokens_len(*left);
            lemma_infix_tokens_len(*right);
            lemma_spelled_concat(before, middle);
            lemma_spelled_concat(before + middle, after);
            assert(term.fragment().text =~= spelled(before) + seq![' '] + spelled(middle) + seq![
                ' ',
            ] + spelled(after));
        },
    }
}

proof fn lemma_spelled_operand(operand: Term, op: Operator)
    requires
        operand.fragment().text == spelled(infix_tokens(operand)),
    ensures
        operand_text(operand.fragment(), op) == spelled(
            operand_tokens(infix_tokens(operand), operand.fragment().root, op),
        ),
{
    let inner = infix_tokens(operand);
    lemma_infix_tokens_len(operand);
    if needs_parentheses(operand.fragment().root, op) {
        let open = seq![InfixToken::Open];
        let close = seq![InfixToken::Close];
        lemma_spelled_concat(open, inner);
        lemma_spelled_concat(open + inner, close);
        assert(parenthesized(operand.fragment().text) =~= spelled(open) + seq![' '] + spelled(inner)
            + seq![' '] + spelled(close));
    }
}

/// Terms of one shape have the same infix tokens, and both group from the
/// left or neither does.
pub proof fn lemma_shape_determines_infix(a: Term, b: Term)
    requires
        a.same_shape(b),
    ensures
        infix_tokens(a) == infix_tokens(b),
        groups_from_the_left(a) == groups_from_the_left(b),
    decreases a,
{
    match a {
        Term::Number { .. } => {},
        Term::Binary { left, right, .. } => {
            lemma_shape_determines_infix(*left, *b->left);
            lemma_shape_determines_infix(*right, *b->right);
            lemma_shape_determines_result(*left, *b->left, |
                op: Operator,
                l: Value,
                r: Value,
                v: Value,
            | true);
            lemma_shape_determines_result(*right, *b->right, |
                op: Operator,
                l: Value,
                r: Value,
                v: Value,
            | true);
        },
    }
}

/// Round trip. What the postfix writing of an expression that groups from
/// the left evaluates to, with arithmetic `calc`, is read back from the
/// infix text: the text spells the infix tokens of the expression, and the
/// usual reader, with the same arithmetic, makes of them that expression
/// again, with that value.
pub proof fn lemma_round_trip(
    term: Term,
    calc: spec_fn(Operator, Value, Value) -> Value,
    value: Value,
    fragment: FragmentView,
)
    requires
        groups_from_the_left(term),
        evaluates_to(term.postfix(), results_by(calc), value, fragment),
    ensures
        fragment.text == spelled(infix_tokens(term)),
        read_infix(infix_tokens(term), calc) matches Some(read) && read.same_shape(term)
            && read.value() == value,
{
    let evaluated = evaluated_term(term.postfix(), results_by(calc), value, fragment);
    lemma_postfix_determines_shape(term, evaluated);
    lemma_shape_determines_infix(term, evaluated);
    lemma_fragment_spells_infix(evaluated);
    lemma_infix_reads_back(evaluated, calc);
    lemma_postfix_determines_shape(evaluated, term);
}

} // verus!
