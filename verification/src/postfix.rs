//! The shape of a postfix expression: which of its tokens are operands.
use vstd::prelude::*;

verus! {

/// The number of operands that wait on the stack after the tokens of
/// `operands` (`true` for a number, `false` for an operator), if each number
/// adds one and each operator takes two and gives one back.
pub open spec fn pending(operands: Seq<bool>) -> int
    decreases operands.len(),
{
    if operands.len() == 0 {
        0
    } else {
        pending(operands.drop_last()) + if operands.last() {
            1int
        } else {
            -1int
        }
    }
}

/// How many of the tokens are numbers (`kind` true) or operators (`kind`
/// false).
pub open spec fn count(operands: Seq<bool>, kind: bool) -> int
    decreases operands.len(),
{
    if operands.len() == 0 {
        0
    } else {
        count(operands.drop_last(), kind) + if operands.last() == kind {
            1int
        } else {
            0int
        }
    }
}

/// A token sequence is a postfix expression when every operator finds at
/// least two operands waiting and exactly one is left at the end.
pub open spec fn is_postfix(operands: Seq<bool>) -> bool {
    &&& pending(operands) == 1
    &&& forall|i: int|
        0 <= i < operands.len() && !operands[i] ==> #[trigger] pending(operands.take(i)) >= 2
}

/// One more token changes the count by one.
pub proof fn lemma_pending_step(operands: Seq<bool>, i: int)
    requires
        0 <= i < operands.len(),
    ensures
        pending(operands.take(i + 1)) == pending(operands.take(i)) + if operands[i] {
            1int
        } else {
            -1int
        },
{
    assert(operands.take(i + 1).drop_last() =~= operands.take(i));
}

/// The count over two sequences, one after the other, is the sum of the
/// counts.
pub proof fn lemma_pending_concat(a: Seq<bool>, b: Seq<bool>)
    ensures
        pending(a + b) == pending(a) + pending(b),
    decreases b.len(),
{
    if b.len() == 0 {
        assert(a + b =~= a);
    } else {
        assert((a + b).drop_last() =~= a + b.drop_last());
        lemma_pending_concat(a, b.drop_last());
    }
}

/// What waits after a token sequence is the number of its numbers less the
/// number of its operators. So a postfix expression of `n` numbers has
/// `n - 1` operators.
pub proof fn lemma_pending_counts(operands: Seq<bool>)
    ensures
        pending(operands) == count(operands, true) - count(operands, false),
        is_postfix(operands) ==> count(operands, false) == count(operands, true) - 1,
    decreases operands.len(),
{
    if operands.len() > 0 {
        lemma_pending_counts(operands.drop_last());
    }
}

} // verus!
