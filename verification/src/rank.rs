//! Ranking a batch by value: a selection sort.
use crate::expression::Expression;
use crate::value::Value;
use vstd::prelude::*;

verus! {

/// `items` with the entries at `i` and `j` exchanged.
pub open spec fn swapped<T>(items: Seq<T>, i: int, j: int) -> Seq<T> {
    items.update(i, items[j]).update(j, items[i])
}

/// Calls `<[T]>::swap`, which exchanges two elements of a slice and panics
/// if an index is out of bounds. The contract keeps both indices in bounds
/// and claims that the two elements change places and nothing else moves.
#[verifier::external_body]
fn swap_items<T>(items: &mut Vec<T>, i: usize, j: usize)
    requires
        i < old(items).len(),
        j < old(items).len(),
    ensures
        final(items)@ == swapped(old(items)@, i as int, j as int),
{
    items.swap(i, j);
}

/// The values of a batch, in its order.
pub open spec fn values_of(batch: Seq<Expression>) -> Seq<Value> {
    batch.map_values(|x: Expression| x.value)
}

/// The candidate for the lowest value after a scan of the positions from
/// `start` up to, but not including, `end`. The scan starts with `start` as
/// its candidate and moves on to a later position only if the value there is
/// less than the candidate's.
pub open spec fn lowest_in(values: Seq<Value>, start: int, end: int) -> int
    decreases end - start,
{
    if end <= start + 1 {
        start
    } else {
        let candidate = lowest_in(values, start, end - 1);
        if values[end - 1].less_than(values[candidate]) {
            end - 1
        } else {
            candidate
        }
    }
}

/// The batch after the positions from `from` on have been filled, each in
/// turn, with the lowest of what was left.
pub open spec fn ranked_from(batch: Seq<Expression>, from: int) -> Seq<Expression>
    decreases batch.len() - from,
{
    if from < 0 || from >= batch.len() {
        batch
    } else {
        let lowest = lowest_in(values_of(batch), from, batch.len() as int);
        proof {
            lemma_lowest_in_range(values_of(batch), from, batch.len() as int);
        }
        ranked_from(swapped(batch, from, lowest), from + 1)
    }
}

/// A scan of a range that is not empty ends on a position in the range.
pub proof fn lemma_lowest_in_range(values: Seq<Value>, start: int, end: int)
    requires
        start < end,
    ensures
        start <= lowest_in(values, start, end) < end,
    decreases end - start,
{
    if end > start + 1 {
        lemma_lowest_in_range(values, start, end - 1);
    }
}

/// The batch in the order of its values, lowest first.
pub open spec fn ranked(batch: Seq<Expression>) -> Seq<Expression> {
    ranked_from(batch, 0)
}

/// Finds the lowest value from `start` on. Of several that are equally low
/// it finds the first: the scan moves on only to a value that is less than
/// the lowest so far. With nothing from `start` on, the answer is `start`.
pub fn find_lowest(batch: &Vec<Expression>, start: usize) -> (lowest: usize)
    ensures
        lowest == lowest_in(values_of(batch@), start as int, batch.len() as int),
        start < batch.len() ==> start <= lowest < batch.len(),
        start < batch.len() && all_numbers(values_of(batch@)) ==> {
            &&& forall|k: int|
                start <= k < batch.len() ==> !(#[trigger] batch[k]).value.less_than(
                    batch[lowest as int].value,
                )
            &&& forall|k: int|
                start <= k < lowest ==> batch[lowest as int].value.less_than(
                    (#[trigger] batch[k]).value,
                )
        },
{
    if start >= batch.len() {
        return start;
    }
    proof {
        if all_numbers(values_of(batch@)) {
            lemma_lowest_is_first_minimum(values_of(batch@), start as int, batch.len() as int);
            let found = lowest_in(values_of(batch@), start as int, batch.len() as int);
            assert forall|k: int| start <= k < batch.len() implies !(#[trigger] batch[k]).value.less_than(
                batch[found].value,
            ) by {
                assert(values_of(batch@)[k] == batch[k].value);
            }
            assert forall|k: int| start <= k < found implies batch[found].value.less_than(
                (#[trigger] batch[k]).value,
            ) by {
                assert(values_of(batch@)[k] == batch[k].value);
            }
        }
    }
    let mut lowest: usize = start;
    let mut num: usize = start + 1;
    while num < batch.len()
        invariant
            start < num <= batch.len(),
            start <= lowest < num,
            lowest == lowest_in(values_of(batch@), start as int, num as int),
        decreases batch.len() - num,
    {
        if batch[num].value.less_than(batch[lowest].value) {
            lowest = num;
        }
        num += 1;
    }
    lowest
}

/// Ranks a batch by value, lowest first: each position in turn gets the
/// lowest of what is left, which changes places with what stood there.
///
/// The batch keeps its expressions. If all its values are numbers, they
/// never decrease from one expression to the next.
pub fn sort_list(batch: &mut Vec<Expression>)
    ensures
        final(batch)@ == ranked(old(batch)@),
        final(batch)@.len() == old(batch)@.len(),
        final(batch)@.to_multiset() == old(batch)@.to_multiset(),
        all_numbers(values_of(old(batch)@)) ==> non_decreasing(values_of(final(batch)@)),
{
    proof {
        lemma_ranked_holds_the_same(batch@);
        if all_numbers(values_of(batch@)) {
            lemma_ranked_non_decreasing(batch@);
        }
    }
    let mut num: usize = 0;
    while num < batch.len()
        invariant
            num <= batch.len(),
            batch.len() == old(batch).len(),
            ranked_from(batch@, num as int) == ranked(old(batch)@),
        decreases batch.len() - num,
    {
        let lowest = find_lowest(batch, num);
        if lowest > num {
            swap_items(batch, num, lowest);
        } else {
            assert(swapped(batch@, num as int, lowest as int) =~= batch@);
        }
        num += 1;
    }
}

/// None of the values is not a number.
pub open spec fn all_numbers(values: Seq<Value>) -> bool {
    forall|i: int| 0 <= i < values.len() ==> !(#[trigger] values[i]).is_nan()
}

/// No value is less than one that stands before it.
pub open spec fn non_decreasing(values: Seq<Value>) -> bool {
    forall|i: int, j: int|
        0 <= i <= j < values.len() ==> !(#[trigger] values[j]).less_than(#[trigger] values[i])
}

/// Among numbers a scan ends on the first of the lowest values of its
/// range: nothing in the range is less than what it found, and everything
/// before that is greater.
pub proof fn lemma_lowest_is_first_minimum(values: Seq<Value>, start: int, end: int)
    requires
        0 <= start < end <= values.len(),
        all_numbers(values),
    ensures
        start <= lowest_in(values, start, end) < end,
        forall|k: int|
            start <= k < end ==> !(#[trigger] values[k]).less_than(
                values[lowest_in(values, start, end)],
            ),
        forall|k: int|
            start <= k < lowest_in(values, start, end) ==> values[lowest_in(
                values,
                start,
                end,
            )].less_than(#[trigger] values[k]),
    decreases end - start,
{
    if end > start + 1 {
        lemma_lowest_is_first_minimum(values, start, end - 1);
    }
}

/// Exchanging two entries keeps what the sequence holds.
pub proof fn lemma_swapped_holds_the_same<T>(items: Seq<T>, i: int, j: int)
    requires
        0 <= i < items.len(),
        0 <= j < items.len(),
    ensures
        swapped(items, i, j).len() == items.len(),
        swapped(items, i, j).to_multiset() == items.to_multiset(),
{
    broadcast use {
        vstd::seq_lib::group_to_multiset_ensures,
        vstd::multiset::group_multiset_axioms,
        vstd::multiset::group_multiset_properties,
    };

    let first = items.update(i, items[j]);
    assert(first[j] == items[j]);
    assert(items.to_multiset().count(items[i]) > 0);
    assert(items.to_multiset().count(items[j]) > 0);
    assert(swapped(items, i, j).to_multiset() =~= items.to_multiset());
}

proof fn lemma_ranked_from_holds_the_same(batch: Seq<Expression>, from: int)
    requires
        0 <= from,
    ensures
        ranked_from(batch, from).len() == batch.len(),
        ranked_from(batch, from).to_multiset() == batch.to_multiset(),
    decreases batch.len() - from,
{
    if from < batch.len() {
        let lowest = lowest_in(values_of(batch), from, batch.len() as int);
        lemma_lowest_in_range(values_of(batch), from, batch.len() as int);
        lemma_swapped_holds_the_same(batch, from, lowest);
        lemma_ranked_from_holds_the_same(swapped(batch, from, lowest), from + 1);
    }
}

/// Ranking neither loses nor adds nor changes an expression.
pub proof fn lemma_ranked_holds_the_same(batch: Seq<Expression>)
    ensures
        ranked(batch).len() == batch.len(),
        ranked(batch).to_multiset() == batch.to_multiset(),
{
    lemma_ranked_from_holds_the_same(batch, 0);
}

proof fn lemma_ranked_from_non_decreasing(batch: Seq<Expression>, from: int)
    requires
        0 <= from <= batch.len(),
        all_numbers(values_of(batch)),
        forall|i: int, j: int|
            0 <= i <= j < from ==> !(#[trigger] values_of(batch)[j]).less_than(
                #[trigger] values_of(batch)[i],
            ),
        forall|i: int, j: int|
            0 <= i < from <= j < batch.len() ==> !(#[trigger] values_of(batch)[j]).less_than(
                #[trigger] values_of(batch)[i],
            ),
    ensures
        non_decreasing(values_of(ranked_from(batch, from))),
    decreases batch.len() - from,
{
    let values = values_of(batch);
    if from < batch.len() {
        let lowest = lowest_in(values, from, batch.len() as int);
        lemma_lowest_is_first_minimum(values, from, batch.len() as int);
        let next = swapped(batch, from, lowest);
        assert(values_of(next) =~= swapped(values, from, lowest));
        lemma_ranked_from_non_decreasing(next, from + 1);
    }
}

/// A ranked batch of numbers is in order: no value is less than one before
/// it.
pub proof fn lemma_ranked_non_decreasing(batch: Seq<Expression>)
    requires
        all_numbers(values_of(batch)),
    ensures
        non_decreasing(values_of(ranked(batch))),
{
    lemma_ranked_from_non_decreasing(batch, 0);
}

proof fn lemma_ranked_from_keeps_order(batch: Seq<Expression>, from: int)
    requires
        0 <= from,
        all_numbers(values_of(batch)),
        non_decreasing(values_of(batch)),
    ensures
        ranked_from(batch, from) == batch,
    decreases batch.len() - from,
{
    let values = values_of(batch);
    if from < batch.len() {
        let lowest = lowest_in(values, from, batch.len() as int);
        lemma_lowest_is_first_minimum(values, from, batch.len() as int);
        if lowest > from {
            assert(values[lowest].less_than(values[from]));
        }
        assert(swapped(batch, from, lowest) =~= batch);
        lemma_ranked_from_keeps_order(batch, from + 1);
    }
}

/// A batch of numbers that is in order already stays as it is: where values
/// are equal, the expression that came first stays first.
pub proof fn lemma_ranked_keeps_order(batch: Seq<Expression>)
    requires
        all_numbers(values_of(batch)),
        non_decreasing(values_of(batch)),
    ensures
        ranked(batch) == batch,
{
    lemma_ranked_from_keeps_order(batch, 0);
}

} // verus!
