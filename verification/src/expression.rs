//! One line of input, evaluated and ready to be ranked and written out.
use crate::arithmetic::{applies_always, reads_literals, results_of, shows_always};
use crate::error::EvalError;
use crate::evaluator::{evaluate, evaluates_to};
use crate::fragment::{Fragment, FragmentView};
use crate::literal::is_float_literal;
use crate::operator::Operator;
use crate::postfix::{lemma_pending_step, pending};
use crate::text::{split_words, texts, words};
use crate::token::{classify, is_token_of, operands, token_error, token_views, Token, TokenView};
use crate::value::Value;
use vstd::prelude::*;

verus! {

/// An evaluated line: the postfix text it was read from, its value and its
/// infix writing. There is no expression without these; a line that cannot
/// be evaluated yields an error instead.
#[derive(Clone, Debug, PartialEq, Eq)]
pub struct Expression {
    pub source: String,
    pub value: Value,
    pub fragment: Fragment,
}

/// An expression as contracts see it.
pub ghost struct ExpressionView {
    pub source: Seq<char>,
    pub value: Value,
    pub fragment: FragmentView,
}

impl View for Expression {
    type V = ExpressionView;

    open spec fn view(&self) -> ExpressionView {
        ExpressionView { source: self.source@, value: self.value, fragment: self.fragment@ }
    }
}

/// The first error among those at the positions from `from` up to, but not
/// including, `to`.
pub open spec fn first_error(
    from: int,
    to: int,
    error: spec_fn(int) -> Option<EvalError>,
) -> Option<EvalError>
    decreases to - from,
{
    if from >= to {
        None
    } else {
        match error(from) {
            Some(e) => Some(e),
            None => first_error(from + 1, to, error),
        }
    }
}

/// The first error is that of the first position that has one, and there is
/// none if no position has one.
pub proof fn lemma_first_error(
    from: int,
    to: int,
    error: spec_fn(int) -> Option<EvalError>,
    k: int,
)
    requires
        from <= k <= to,
        forall|j: int| from <= j < k ==> (#[trigger] error(j)) is None,
    ensures
        k < to && error(k) is Some ==> first_error(from, to, error) == error(k),
        k == to ==> first_error(from, to, error) is None,
    decreases k - from,
{
    if from < k {
        lemma_first_error(from + 1, to, error, k);
    }
}

/// Which of the pieces of a line are numbers.
pub open spec fn literal_flags(pieces: Seq<Seq<char>>) -> Seq<bool> {
    pieces.map_values(|piece: Seq<char>| is_float_literal(piece))
}

/// The error that the piece at `i` raises when the pieces before it have
/// raised none: it is no token, or it is an operator that finds fewer than
/// two operands waiting.
pub open spec fn piece_error(pieces: Seq<Seq<char>>, i: int) -> Option<EvalError> {
    match token_error(pieces[i]) {
        Some(e) => Some(e),
        None => if !is_float_literal(pieces[i]) && pending(literal_flags(pieces).take(i)) < 2 {
            Some(EvalError::MalformedExpression)
        } else {
            None
        },
    }
}

/// The errors of the pieces of a line, by position.
pub open spec fn piece_errors(pieces: Seq<Seq<char>>) -> spec_fn(int) -> Option<EvalError> {
    |i: int| piece_error(pieces, i)
}

/// Why a line cannot be evaluated, if it cannot. The pieces are taken from
/// left to right and the first that raises an error gives it; if none does,
/// anything but one value left at the end is an error.
pub open spec fn line_error(line: Seq<char>) -> Option<EvalError> {
    let pieces = words(line);
    match first_error(0, pieces.len() as int, piece_errors(pieces)) {
        Some(e) => Some(e),
        None => if pending(literal_flags(pieces)) == 1 {
            None
        } else {
            Some(EvalError::MalformedExpression)
        },
    }
}

/// `tokens` are what `pieces` may be classified as, piece by piece.
pub open spec fn classifies<R: Fn(&str) -> Value, S: Fn(Value) -> String>(
    read: R,
    show: S,
    pieces: Seq<Seq<char>>,
    tokens: Seq<TokenView>,
) -> bool {
    &&& tokens.len() == pieces.len()
    &&& forall|i: int|
        0 <= i < pieces.len() ==> is_token_of(read, show, pieces[i], #[trigger] tokens[i])
}

/// `expression` is what `line` may evaluate to: its words can be classified
/// as a token sequence that evaluates to its value and its fragment.
pub open spec fn solves<
    R: Fn(&str) -> Value,
    A: Fn(Operator, Value, Value) -> Value,
    S: Fn(Value) -> String,
>(line: Seq<char>, read: R, apply: A, show: S, expression: ExpressionView) -> bool {
    &&& expression.source == line
    &&& exists|tokens: Seq<TokenView>|
        {
            &&& #[trigger] classifies(read, show, words(line), tokens)
            &&& evaluates_to(tokens, results_of(apply), expression.value, expression.fragment)
        }
}

/// The text of an output line: the infix text, ` = `, the value.
pub open spec fn line_text(infix: Seq<char>, value: Seq<char>) -> Seq<char> {
    infix + seq![' ', '=', ' '] + value
}

impl Expression {
    /// Evaluates one line of postfix text. The line is split at white space
    /// and its pieces are taken from left to right. The first piece that is
    /// no token, or is an operator short of operands, ends the evaluation
    /// with its error; so does anything but one value left at the end.
    pub fn solve<
        R: Fn(&str) -> Value,
        A: Fn(Operator, Value, Value) -> Value,
        S: Fn(Value) -> String,
    >(source: &str, read: &R, apply: &A, show: &S) -> (r: Result<Expression, EvalError>)
        requires
            reads_literals(*read),
            applies_always(*apply),
            shows_always(*show),
        ensures
            match r {
                Ok(expression) => {
                    &&& line_error(source@) is None
                    &&& solves(source@, *read, *apply, *show, expression@)
                },
                Err(e) => line_error(source@) == Some(e),
            },
    {
        let pieces = split_words(source);
        let ghost all = words(source@);
        let ghost flags = literal_flags(all);
        let mut tokens: Vec<Token> = Vec::new();
        // The number of operands that wait for an operator. Counting them
        // here ends the evaluation at the first operator that is short of
        // operands, before any piece after it is looked at.
        let mut waiting: usize = 0;
        let mut i: usize = 0;
        assert(flags.take(0) =~= Seq::empty());
        while i < pieces.len()
            invariant
                i <= pieces.len(),
                tokens.len() == i,
                all == words(source@),
                texts(pieces@) == all,
                flags == literal_flags(all),
                reads_literals(*read),
                shows_always(*show),
                waiting == pending(flags.take(i as int)),
                waiting <= i,
                forall|j: int| 0 <= j < i ==> (#[trigger] piece_errors(all)(j)) is None,
                forall|j: int|
                    0 <= j < i ==> is_token_of(
                        *read,
                        *show,
                        all[j],
                        #[trigger] token_views(tokens@)[j],
                    ),
            decreases pieces.len() - i,
        {
            proof {
                assert(all[i as int] == pieces[i as int]@);
                lemma_pending_step(flags, i as int);
            }
            match classify(pieces[i].as_str(), read, show) {
                Ok(token) => {
                    match token {
                        Token::Number { .. } => {
                            waiting += 1;
                        },
                        Token::Operator(_) => {
                            if waiting < 2 {
                                proof {
                                    lemma_first_error(
                                        0,
                                        all.len() as int,
                                        piece_errors(all),
                                        i as int,
                                    );
                                }
                                return Err(EvalError::MalformedExpression);
                            }
                            waiting -= 1;
                        },
                    }
                    assert(token_views(tokens@.push(token)) =~= token_views(tokens@).push(token@));
                    tokens.push(token);
                },
                Err(e) => {
                    proof {
                        lemma_first_error(0, all.len() as int, piece_errors(all), i as int);
                    }
                    return Err(e);
                },
            }
            i += 1;
        }
        proof {
            lemma_first_error(0, all.len() as int, piece_errors(all), i as int);
            assert(flags.take(i as int) =~= flags);
            assert(operands(token_views(tokens@)) =~= flags);
            assert(classifies(*read, *show, all, token_views(tokens@)));
            assert forall|j: int| 0 <= j < flags.len() && !flags[j] implies #[trigger] pending(
                flags.take(j),
            ) >= 2 by {
                assert(piece_errors(all)(j) is None);
            }
        }
        match evaluate(&tokens, apply) {
            Ok((value, fragment)) => Ok(Expression { source: source.to_owned(), value, fragment }),
            Err(e) => Err(e),
        }
    }

    /// The value of the expression.
    pub fn get_result(&self) -> (value: Value)
        ensures
            value == self.value,
    {
        self.value
    }

    /// The output line of the expression, given its value written down.
    pub fn render(&self, value: &str) -> (line: String)
        ensures
            line@ == line_text(self.fragment.text@, value@),
    {
        proof {
            reveal_strlit(" = ");
        }
        let mut line = self.fragment.text.clone();
        line.append(" = ");
        line.append(value);
        assert(line@ =~= line_text(self.fragment.text@, value@));
        line
    }
}

} // verus!
