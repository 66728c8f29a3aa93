use postfix_infix::error::EvalError;
use postfix_infix::operator::Operator;
use postfix_infix::token::{classify, operator_check, Token};
use postfix_infix::value::Value;

fn read(text: &str) -> Value {
    Value::from_bits(text.parse::<f64>().unwrap().to_bits())
}

fn show(value: Value) -> String {
    f64::from_bits(value.to_bits()).to_string()
}

fn number(x: f64, text: &str) -> Token {
    Token::Number { value: Value::from_bits(x.to_bits()), text: text.to_string() }
}

#[test]
fn symbols_stand_for_their_operators() {
    assert_eq!(Operator::from_symbol('+'), Some(Operator::Add));
    assert_eq!(Operator::from_symbol('-'), Some(Operator::Sub));
    assert_eq!(Operator::from_symbol('*'), Some(Operator::Mul));
    assert_eq!(Operator::from_symbol('/'), Some(Operator::Div));
    assert_eq!(Operator::from_symbol('$'), None);
    assert_eq!(Operator::from_symbol('x'), None);
    for op in [Operator::Add, Operator::Sub, Operator::Mul, Operator::Div] {
        assert_eq!(Operator::from_symbol(op.symbol()), Some(op));
    }
}

#[test]
fn sums_and_differences_are_additive() {
    assert!(Operator::Add.is_additive());
    assert!(Operator::Sub.is_additive());
    assert!(!Operator::Mul.is_additive());
    assert!(!Operator::Div.is_additive());
}

#[test]
fn operator_check_knows_the_four_operators() {
    assert_eq!(operator_check("+"), Ok(Operator::Add));
    assert_eq!(operator_check("-"), Ok(Operator::Sub));
    assert_eq!(operator_check("*"), Ok(Operator::Mul));
    assert_eq!(operator_check("/"), Ok(Operator::Div));
}

#[test]
fn another_single_character_is_an_unknown_operator() {
    assert_eq!(operator_check("$"), Err(EvalError::UnknownOperator { symbol: '$' }));
    assert_eq!(operator_check("x"), Err(EvalError::UnknownOperator { symbol: 'x' }));
    assert_eq!(operator_check("é"), Err(EvalError::UnknownOperator { symbol: 'é' }));
    assert_eq!(operator_check("("), Err(EvalError::UnknownOperator { symbol: '(' }));
}

#[test]
fn a_number_is_no_operator_and_no_unknown_operator() {
    for digit in ["0", "1", "2", "3", "4", "5", "6", "7", "8", "9"] {
        assert_eq!(operator_check(digit), Err(EvalError::MalformedExpression), "{digit:?}");
    }
    assert_eq!(operator_check("12"), Err(EvalError::MalformedExpression));
    assert_eq!(operator_check("-5"), Err(EvalError::MalformedExpression));
    assert_eq!(operator_check("inf"), Err(EvalError::MalformedExpression));
    assert_eq!(operator_check("١"), Err(EvalError::UnknownOperator { symbol: '١' }));
}

#[test]
fn several_characters_are_malformed() {
    assert_eq!(operator_check("++"), Err(EvalError::MalformedExpression));
    assert_eq!(operator_check("abc"), Err(EvalError::MalformedExpression));
    assert_eq!(operator_check("1+"), Err(EvalError::MalformedExpression));
    assert_eq!(operator_check(""), Err(EvalError::MalformedExpression));
}

#[test]
fn a_number_is_classified_with_its_value_and_its_rendering() {
    assert_eq!(classify("3", &read, &show), Ok(number(3.0, "3")));
    assert_eq!(classify("3.0", &read, &show), Ok(number(3.0, "3")));
    assert_eq!(classify("1e2", &read, &show), Ok(number(100.0, "100")));
    assert_eq!(classify("-.5", &read, &show), Ok(number(-0.5, "-0.5")));
    assert_eq!(classify("+7", &read, &show), Ok(number(7.0, "7")));
    assert_eq!(classify("inf", &read, &show), Ok(number(f64::INFINITY, "inf")));
}

#[test]
fn an_operator_is_classified_as_itself() {
    assert_eq!(classify("+", &read, &show), Ok(Token::Operator(Operator::Add)));
    assert_eq!(classify("-", &read, &show), Ok(Token::Operator(Operator::Sub)));
    assert_eq!(classify("*", &read, &show), Ok(Token::Operator(Operator::Mul)));
    assert_eq!(classify("/", &read, &show), Ok(Token::Operator(Operator::Div)));
}

#[test]
fn numbers_are_recognized_before_operators() {
    assert_eq!(classify("5", &read, &show), Ok(number(5.0, "5")));
    assert_eq!(classify("-5", &read, &show), Ok(number(-5.0, "-5")));
}

#[test]
fn what_is_neither_is_an_error() {
    assert_eq!(classify("$", &read, &show), Err(EvalError::UnknownOperator { symbol: '$' }));
    assert_eq!(classify("two", &read, &show), Err(EvalError::MalformedExpression));
    assert_eq!(classify("1e", &read, &show), Err(EvalError::MalformedExpression));
    assert_eq!(classify("e", &read, &show), Err(EvalError::UnknownOperator { symbol: 'e' }));
}
