//! Tokens and the classification of a piece of text as one.
use crate::arithmetic::{reads_as, reads_literals, shows_always, shows_as};
use crate::error::EvalError;
use crate::literal::{is_float_literal, is_string_number};
use crate::operator::Operator;
use crate::value::Value;
use vstd::prelude::*;

verus! {

/// A classified token: a number, with its value and the text it is written
/// down as, or an operator.
#[derive(Clone, Debug, PartialEq, Eq)]
pub enum Token {
    Number { value: Value, text: String },
    Operator(Operator),
}

/// A token as contracts see it.
pub ghost enum TokenView {
    Number { value: Value, text: Seq<char> },
    Operator(Operator),
}

impl View for Token {
    type V = TokenView;

    open spec fn view(&self) -> TokenView {
        match self {
            Token::Number { value, text } => TokenView::Number { value: *value, text: text@ },
            Token::Operator(op) => TokenView::Operator(*op),
        }
    }
}

/// The views of a sequence of tokens.
pub open spec fn token_views(tokens: Seq<Token>) -> Seq<TokenView> {
    tokens.map_values(|t: Token| t@)
}

/// Which of the tokens are numbers.
pub open spec fn operands(tokens: Seq<TokenView>) -> Seq<bool> {
    tokens.map_values(|t: TokenView| t is Number)
}

/// What a piece of text that is no number stands for: an operator, if it is
/// the symbol of one; an unknown operator, if it is any other single
/// character; nothing well formed otherwise.
pub open spec fn operator_of(piece: Seq<char>) -> Result<Operator, EvalError> {
    if piece.len() != 1 {
        Err(EvalError::MalformedExpression)
    } else {
        match Operator::of_symbol(piece[0]) {
            Some(op) => Ok(op),
            None => Err(EvalError::UnknownOperator { symbol: piece[0] }),
        }
    }
}

/// Why `piece` is no token, if it is none. Numbers are recognized first.
pub open spec fn token_error(piece: Seq<char>) -> Option<EvalError> {
    if is_float_literal(piece) {
        None
    } else {
        match operator_of(piece) {
            Ok(_) => None,
            Err(e) => Some(e),
        }
    }
}

/// `token` is what `piece` may be classified as, with `read` to give a
/// number its value and `show` to write that value down.
pub open spec fn is_token_of<R: Fn(&str) -> Value, S: Fn(Value) -> String>(
    read: R,
    show: S,
    piece: Seq<char>,
    token: TokenView,
) -> bool {
    match token {
        TokenView::Number { value, text } => {
            &&& is_float_literal(piece)
            &&& reads_as(read, piece, value)
            &&& shows_as(show, value, text)
        },
        TokenView::Operator(op) => {
            &&& !is_float_literal(piece)
            &&& operator_of(piece) == Ok::<Operator, EvalError>(op)
        },
    }
}

/// What a piece of text is as an operator. Numbers are recognized first: the
/// text of a number, a single digit too, is no operator and no unknown
/// operator either.
pub open spec fn checked_operator(piece: Seq<char>) -> Result<Operator, EvalError> {
    if is_float_literal(piece) {
        Err(EvalError::MalformedExpression)
    } else {
        operator_of(piece)
    }
}

/// Tells which operator a piece of text is. The text of a number and a text
/// of several characters are malformed; a single character that is neither a
/// number nor an operator is an unknown operator.
pub fn operator_check(piece: &str) -> (r: Result<Operator, EvalError>)
    ensures
        r == checked_operator(piece@),
{
    if piece.unicode_len() != 1 {
        return Err(EvalError::MalformedExpression);
    }
    if is_string_number(piece) {
        return Err(EvalError::MalformedExpression);
    }
    let symbol: char = piece.get_char(0);
    match Operator::from_symbol(symbol) {
        Some(op) => Ok(op),
        None => Err(EvalError::UnknownOperator { symbol }),
    }
}

/// Classifies one piece of a line. A piece that is the text of a number is a
/// number, whatever else it might be; its value is what `read` makes of it,
/// and its text is that value as `show` writes it. Any other piece has to be
/// an operator.
pub fn classify<R: Fn(&str) -> Value, S: Fn(Value) -> String>(piece: &str, read: &R, show: &S) -> (r:
    Result<Token, EvalError>)
    requires
        reads_literals(*read),
        shows_always(*show),
    ensures
        match r {
            Ok(token) => token_error(piece@) is None && is_token_of(*read, *show, piece@, token@),
            Err(e) => token_error(piece@) == Some(e),
        },
{
    if is_string_number(piece) {
        let value = read(piece);
        let text = show(value);
        assert(reads_as(*read, piece@, value));
        assert(shows_as(*show, value, text@));
        Ok(Token::Number { value, text })
    } else {
        match operator_check(piece) {
            Ok(op) => Ok(Token::Operator(op)),
            Err(e) => Err(e),
        }
    }
}

} // verus!
