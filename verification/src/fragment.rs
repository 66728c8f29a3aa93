//! Infix text and the rule that decides where parentheses go.
use crate::operator::Operator;
use vstd::prelude::*;

verus! {

/// What stands at the root of a piece of infix text.
#[derive(Clone, Copy, Debug, PartialEq, Eq, Structural)]
pub enum Root {
    /// A single number.
    Atomic,
    /// A sum or a difference.
    Additive,
    /// A product or a quotient.
    Multiplicative,
}

/// The infix text of a sub-expression, with the kind of its root operation.
/// The kind, not the text, decides where parentheses go.
#[derive(Clone, Debug, PartialEq, Eq)]
pub struct Fragment {
    pub text: String,
    pub root: Root,
}

/// A fragment as contracts see it.
pub ghost struct FragmentView {
    pub text: Seq<char>,
    pub root: Root,
}

impl View for Fragment {
    type V = FragmentView;

    open spec fn view(&self) -> FragmentView {
        FragmentView { text: self.text@, root: self.root }
    }
}

/// `text` between a pair of parentheses, set off by single spaces.
pub open spec fn parenthesized(text: Seq<char>) -> Seq<char> {
    seq!['(', ' '] + text + seq![' ', ')']
}

/// Whether an operand with root `root` needs parentheses under `op`: only a
/// sum or difference does, and only under `*` or `/`.
pub open spec fn needs_parentheses(root: Root, op: Operator) -> bool {
    !op.is_additive() && root == Root::Additive
}

/// The text of `operand` as it stands beside `op`.
pub open spec fn operand_text(operand: FragmentView, op: Operator) -> Seq<char> {
    if needs_parentheses(operand.root, op) {
        parenthesized(operand.text)
    } else {
        operand.text
    }
}

/// The root kind of an expression whose last operation is `op`.
pub open spec fn root_of(op: Operator) -> Root {
    if op.is_additive() {
        Root::Additive
    } else {
        Root::Multiplicative
    }
}

/// The infix writing of `left op right`.
pub open spec fn combine(left: FragmentView, op: Operator, right: FragmentView) -> FragmentView {
    FragmentView {
        text: operand_text(left, op) + seq![' ', op.symbol(), ' '] + operand_text(right, op),
        root: root_of(op),
    }
}

impl Fragment {
    /// The fragment of a number written as `text`.
    pub fn atom(text: String) -> (f: Fragment)
        ensures
            f@ == (FragmentView { text: text@, root: Root::Atomic }),
    {
        Fragment { text, root: Root::Atomic }
    }
}

fn symbol_text(op: Operator) -> (s: &'static str)
    ensures
        s@ == seq![' ', op.symbol(), ' '],
{
    proof {
        reveal_strlit(" + ");
        reveal_strlit(" - ");
        reveal_strlit(" * ");
        reveal_strlit(" / ");
    }
    let s = match op {
        Operator::Add => " + ",
        Operator::Sub => " - ",
        Operator::Mul => " * ",
        Operator::Div => " / ",
    };
    assert(s@ =~= seq![' ', op.symbol(), ' ']);
    s
}

fn push_operand(out: &mut String, operand: &Fragment, op: Operator)
    ensures
        final(out)@ == old(out)@ + operand_text(operand@, op),
{
    let wrap = !op.is_additive() && match operand.root {
        Root::Additive => true,
        _ => false,
    };
    if wrap {
        proof {
            reveal_strlit("( ");
            reveal_strlit(" )");
        }
        out.append("( ");
        out.append(operand.text.as_str());
        out.append(" )");
        assert(out@ =~= old(out)@ + parenthesized(operand.text@));
    } else {
        out.append(operand.text.as_str());
    }
}

/// Joins two fragments under an operator. An operand is put in parentheses
/// exactly when it is a sum or difference and the operator is `*` or `/`.
pub fn build_infix(left: &Fragment, right: &Fragment, operator: Operator) -> (out: Fragment)
    ensures
        out@ == combine(left@, operator, right@),
{
    let mut text = String::new();
    push_operand(&mut text, left, operator);
    text.append(symbol_text(operator));
    push_operand(&mut text, right, operator);
    assert(text@ =~= combine(left@, operator, right@).text);
    let root = if operator.is_additive() {
        Root::Additive
    } else {
        Root::Multiplicative
    };
    Fragment { text, root }
}

/// Where parentheses go. Under `*` or `/` an operand is wrapped if and only
/// if it is a sum or a difference; under `+` or `-` nothing is ever wrapped,
/// so the result is the two texts with the operator between them.
pub proof fn lemma_parentheses(left: FragmentView, op: Operator, right: FragmentView)
    ensures
        !op.is_additive() && left.root == Root::Additive ==> operand_text(left, op)
            == parenthesized(left.text),
        !op.is_additive() && left.root != Root::Additive ==> operand_text(left, op) == left.text,
        !op.is_additive() && right.root == Root::Additive ==> operand_text(right, op)
            == parenthesized(right.text),
        !op.is_additive() && right.root != Root::Additive ==> operand_text(right, op)
            == right.text,
        op.is_additive() ==> combine(left, op, right).text == left.text + seq![
            ' ',
            op.symbol(),
            ' ',
        ] + right.text,
        combine(left, op, right).root == Root::Additive <==> op.is_additive(),
        combine(left, op, right).root != Root::Atomic,
{
}

} // verus!
