//! A whole run: from the lines of a file to the lines of its ranked output.
use crate::arithmetic::{applies_always, reads_literals, shows_always, shows_as};
use crate::error::EvalError;
use crate::expression::{first_error, lemma_first_error, line_error, line_text, solves, Expression};
use crate::operator::Operator;
use crate::rank::{lemma_ranked_holds_the_same, ranked, sort_list};
use crate::text::{is_blank, is_blank_line, texts};
use crate::value::Value;
use vstd::prelude::*;

verus! {

/// The lines that hold more than white space, in their order.
pub open spec fn non_blank(lines: Seq<Seq<char>>) -> Seq<Seq<char>> {
    lines.filter(|line: Seq<char>| !is_blank(line))
}

/// Why a run over `lines` stops without output, if it does: there is no
/// line to evaluate, or else the first line that cannot be evaluated gives
/// its error.
pub open spec fn batch_error(lines: Seq<Seq<char>>) -> Option<EvalError> {
    let sources = non_blank(lines);
    if sources.len() == 0 {
        Some(EvalError::EmptyInput)
    } else {
        first_error(0, sources.len() as int, line_errors(sources))
    }
}

/// The errors of the lines of a batch, by position.
pub open spec fn line_errors(sources: Seq<Seq<char>>) -> spec_fn(int) -> Option<EvalError> {
    |i: int| line_error(sources[i])
}

/// `batch` is what `sources` may evaluate to, line by line.
pub open spec fn solves_all<
    R: Fn(&str) -> Value,
    A: Fn(Operator, Value, Value) -> Value,
    S: Fn(Value) -> String,
>(sources: Seq<Seq<char>>, read: R, apply: A, show: S, batch: Seq<Expression>) -> bool {
    &&& batch.len() == sources.len()
    &&& forall|i: int|
        0 <= i < sources.len() ==> solves(sources[i], read, apply, show, (#[trigger] batch[i])@)
}

/// `line` is an output line of `expression`: its infix text, ` = `, and its
/// value as `show` may write it.
pub open spec fn renders<S: Fn(Value) -> String>(
    show: S,
    expression: Expression,
    line: Seq<char>,
) -> bool {
    exists|value: Seq<char>|
        {
            &&& #[trigger] shows_as(show, expression.value, value)
            &&& line == line_text(expression.fragment.text@, value)
        }
}

/// `lines` are output lines of the expressions of `batch`, in its order.
pub open spec fn renders_all<S: Fn(Value) -> String>(
    show: S,
    batch: Seq<Expression>,
    lines: Seq<Seq<char>>,
) -> bool {
    &&& lines.len() == batch.len()
    &&& forall|i: int| 0 <= i < batch.len() ==> renders(show, batch[i], #[trigger] lines[i])
}

/// Picks the lines to evaluate: all but the blank ones. A file without any
/// is an error.
pub fn build_expression_list(lines: &Vec<String>) -> (r: Result<Vec<String>, EvalError>)
    ensures
        match r {
            Ok(sources) => sources.len() > 0 && texts(sources@) == non_blank(texts(lines@)),
            Err(e) => e == EvalError::EmptyInput && non_blank(texts(lines@)).len() == 0,
        },
{
    let ghost all = texts(lines@);
    let ghost keep = |line: Seq<char>| !is_blank(line);
    let mut sources: Vec<String> = Vec::new();
    let mut i: usize = 0;
    proof {
        assert(all.take(0) =~= Seq::empty());
        Seq::<Seq<char>>::empty().lemma_filter_len(keep);
    }
    while i < lines.len()
        invariant
            i <= lines.len(),
            all == texts(lines@),
            keep == |line: Seq<char>| !is_blank(line),
            texts(sources@) == all.take(i as int).filter(keep),
        decreases lines.len() - i,
    {
        proof {
            assert(all.take(i + 1) =~= all.take(i as int).push(all[i as int]));
            all.take(i as int).lemma_filter_push(all[i as int], keep);
        }
        if !is_blank_line(lines[i].as_str()) {
            let source = lines[i].clone();
            assert(texts(sources@.push(source)) =~= texts(sources@).push(source@));
            sources.push(source);
        }
        i += 1;
    }
    assert(all.take(i as int) =~= all);
    if sources.len() == 0 {
        Err(EvalError::EmptyInput)
    } else {
        Ok(sources)
    }
}

/// Evaluates the lines in their order and stops at the first that cannot be
/// evaluated.
pub fn solve_list<
    R: Fn(&str) -> Value,
    A: Fn(Operator, Value, Value) -> Value,
    S: Fn(Value) -> String,
>(sources: &Vec<String>, read: &R, apply: &A, show: &S) -> (r: Result<Vec<Expression>, EvalError>)
    requires
        reads_literals(*read),
        applies_always(*apply),
        shows_always(*show),
    ensures
        match r {
            Ok(batch) => {
                &&& first_error(0, sources.len() as int, line_errors(texts(sources@))) is None
                &&& solves_all(texts(sources@), *read, *apply, *show, batch@)
            },
            Err(e) => first_error(0, sources.len() as int, line_errors(texts(sources@))) == Some(
                e,
            ),
        },
{
    let ghost all = texts(sources@);
    let mut batch: Vec<Expression> = Vec::new();
    let mut i: usize = 0;
    while i < sources.len()
        invariant
            i <= sources.len(),
            batch.len() == i,
            all == texts(sources@),
            reads_literals(*read),
            applies_always(*apply),
            shows_always(*show),
            forall|j: int| 0 <= j < i ==> (#[trigger] line_errors(all)(j)) is None,
            forall|j: int|
                0 <= j < i ==> solves(all[j], *read, *apply, *show, (#[trigger] batch@[j])@),
        decreases sources.len() - i,
    {
        assert(all[i as int] == sources[i as int]@);
        match Expression::solve(sources[i].as_str(), read, apply, show) {
            Ok(expression) => {
                batch.push(expression);
            },
            Err(e) => {
                proof {
                    lemma_first_error(0, all.len() as int, line_errors(all), i as int);
                }
                return Err(e);
            },
        }
        i += 1;
    }
    proof {
        lemma_first_error(0, all.len() as int, line_errors(all), i as int);
    }
    Ok(batch)
}

/// The whole run over the lines of a file: the blank lines are dropped, the
/// others are evaluated, the batch is ranked by value, and each expression
/// is written as `infix = value`. The first error ends the run; then there
/// is no output at all.
pub fn process<
    R: Fn(&str) -> Value,
    A: Fn(Operator, Value, Value) -> Value,
    S: Fn(Value) -> String,
>(lines: &Vec<String>, read: &R, apply: &A, show: &S) -> (r: Result<Vec<String>, EvalError>)
    requires
        reads_literals(*read),
        applies_always(*apply),
        shows_always(*show),
    ensures
        match r {
            Ok(out) => {
                &&& batch_error(texts(lines@)) is None
                &&& out.len() == non_blank(texts(lines@)).len()
                &&& exists|batch: Seq<Expression>|
                    {
                        &&& #[trigger] solves_all(
                            non_blank(texts(lines@)),
                            *read,
                            *apply,
                            *show,
                            batch,
                        )
                        &&& renders_all(*show, ranked(batch), texts(out@))
                    }
            },
            Err(e) => batch_error(texts(lines@)) == Some(e),
        },
{
    let sources = match build_expression_list(lines) {
        Ok(sources) => sources,
        Err(e) => {
            return Err(e);
        },
    };
    let mut batch = match solve_list(&sources, read, apply, show) {
        Ok(batch) => batch,
        Err(e) => {
            return Err(e);
        },
    };
    let ghost solved = batch@;
    proof {
        lemma_ranked_holds_the_same(solved);
    }
    sort_list(&mut batch);
    let mut out: Vec<String> = Vec::new();
    let mut i: usize = 0;
    while i < batch.len()
        invariant
            i <= batch.len(),
            out.len() == i,
            shows_always(*show),
            forall|j: int| 0 <= j < i ==> renders(*show, batch@[j], #[trigger] texts(out@)[j]),
        decreases batch.len() - i,
    {
        let value = show(batch[i].value);
        let line = batch[i].render(value.as_str());
        proof {
            assert(shows_as(*show, batch@[i as int].value, value@));
            assert(texts(out@.push(line)) =~= texts(out@).push(line@));
        }
        out.push(line);
        i += 1;
    }
    proof {
        assert(solves_all(non_blank(texts(lines@)), *read, *apply, *show, solved));
        assert(renders_all(*show, ranked(solved), texts(out@)));
    }
    Ok(out)
}

} // verus!
