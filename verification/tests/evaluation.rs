use postfix_infix::error::EvalError;
use postfix_infix::evaluator::evaluate;
use postfix_infix::expression::Expression;
use postfix_infix::fragment::{Fragment, Root};
use postfix_infix::operator::Operator;
use postfix_infix::token::Token;
use postfix_infix::value::Value;

fn number(value: Value) -> f64 {
    f64::from_bits(value.to_bits())
}

fn value(x: f64) -> Value {
    Value::from_bits(x.to_bits())
}

fn read(text: &str) -> Value {
    value(text.parse::<f64>().unwrap())
}

fn apply(op: Operator, left: Value, right: Value) -> Value {
    let (a, b) = (number(left), number(right));
    value(match op {
        Operator::Add => a + b,
        Operator::Sub => a - b,
        Operator::Mul => a * b,
        Operator::Div => a / b,
    })
}

fn show(value: Value) -> String {
    number(value).to_string()
}

fn num(x: f64) -> Token {
    Token::Number { value: value(x), text: x.to_string() }
}

fn solve(line: &str) -> Result<(f64, String), EvalError> {
    Expression::solve(line, &read, &apply, &show).map(|x| (number(x.value), x.fragment.text))
}

fn solved(line: &str, value: f64, infix: &str) {
    assert_eq!(solve(line), Ok((value, infix.to_string())), "{line:?}");
}

#[test]
fn tokens_evaluate_to_value_and_fragment() {
    let tokens = vec![num(3.0), num(4.0), Token::Operator(Operator::Add)];
    assert_eq!(
        evaluate(&tokens, &apply),
        Ok((value(7.0), Fragment { text: "3 + 4".to_string(), root: Root::Additive }))
    );
}

#[test]
fn a_single_number_is_an_expression() {
    assert_eq!(
        evaluate(&vec![num(7.0)], &apply),
        Ok((value(7.0), Fragment { text: "7".to_string(), root: Root::Atomic }))
    );
    solved("7", 7.0, "7");
    solved("  -2.50  ", -2.5, "-2.5");
}

#[test]
fn no_tokens_are_malformed() {
    assert_eq!(evaluate(&vec![], &apply), Err(EvalError::MalformedExpression));
}

#[test]
fn an_operator_short_of_operands_is_malformed() {
    let plus = Token::Operator(Operator::Add);
    assert_eq!(evaluate(&vec![plus.clone()], &apply), Err(EvalError::MalformedExpression));
    assert_eq!(evaluate(&vec![num(1.0), plus.clone()], &apply), Err(EvalError::MalformedExpression));
    assert_eq!(
        evaluate(&vec![num(1.0), plus.clone(), num(2.0)], &apply),
        Err(EvalError::MalformedExpression)
    );
    assert_eq!(
        evaluate(&vec![num(1.0), num(2.0), plus.clone(), plus], &apply),
        Err(EvalError::MalformedExpression)
    );
    assert_eq!(solve("1 +"), Err(EvalError::MalformedExpression));
    assert_eq!(solve("+ 1 2"), Err(EvalError::MalformedExpression));
}

#[test]
fn leftover_operands_are_malformed() {
    assert_eq!(evaluate(&vec![num(1.0), num(2.0)], &apply), Err(EvalError::MalformedExpression));
    assert_eq!(solve("1 2 3 +"), Err(EvalError::MalformedExpression));
    assert_eq!(solve("1 2"), Err(EvalError::MalformedExpression));
}

#[test]
fn the_operand_written_first_is_the_left_one() {
    solved("10 4 -", 6.0, "10 - 4");
    solved("4 10 -", -6.0, "4 - 10");
    solved("8 2 /", 4.0, "8 / 2");
    solved("2 8 /", 0.25, "2 / 8");
}

#[test]
fn each_operator_computes_what_it_stands_for() {
    solved("6 3 +", 9.0, "6 + 3");
    solved("6 3 -", 3.0, "6 - 3");
    solved("6 3 *", 18.0, "6 * 3");
    solved("6 3 /", 2.0, "6 / 3");
}

#[test]
fn evaluate_calls_apply_with_left_then_right() {
    let record = |op: Operator, left: Value, right: Value| {
        assert_eq!(op, Operator::Sub);
        Value::from_bits(left.to_bits() * 100 + right.to_bits())
    };
    let tokens = vec![
        Token::Number { value: Value::from_bits(10), text: "ten".to_string() },
        Token::Number { value: Value::from_bits(4), text: "four".to_string() },
        Token::Operator(Operator::Sub),
    ];
    let (value, fragment) = evaluate(&tokens, &record).unwrap();
    assert_eq!(value.to_bits(), 1004);
    assert_eq!(fragment.text, "ten - four");
}

#[test]
fn nested_expressions_are_parenthesized_where_needed() {
    solved("5 1 2 + 4 * +", 17.0, "5 + ( 1 + 2 ) * 4");
    solved("1 2 + 3 4 + *", 21.0, "( 1 + 2 ) * ( 3 + 4 )");
    solved("1 2 * 3 +", 5.0, "1 * 2 + 3");
    solved("2 3 4 * *", 24.0, "2 * 3 * 4");
    solved("8 4 2 / /", 4.0, "8 / 4 / 2");
    solved("1 2 - 3 /", -1.0 / 3.0, "( 1 - 2 ) / 3");
    solved("1 2 3 4 5 + + + +", 15.0, "1 + 2 + 3 + 4 + 5");
    solved("1 2 + 3 * 4 + 5 *", 65.0, "( ( 1 + 2 ) * 3 + 4 ) * 5");
}

#[test]
fn a_difference_on_the_right_is_written_without_parentheses() {
    solved("5 3 1 - -", 3.0, "5 - 3 - 1");
    solved("5 3 1 + -", 1.0, "5 - 3 + 1");
}

#[test]
fn numbers_are_written_in_their_shortest_form() {
    solved("3.0 4.50 +", 7.5, "3 + 4.5");
    solved("1e2 1 -", 99.0, "100 - 1");
    solved("0.1 0.2 +", 0.30000000000000004, "0.1 + 0.2");
    solved("+7 -0 *", -0.0, "7 * -0");
}

#[test]
fn division_by_zero_is_not_an_error() {
    solved("1 0 /", f64::INFINITY, "1 / 0");
    solved("-1 0 /", f64::NEG_INFINITY, "-1 / 0");
    let (value, infix) = solve("0 0 /").unwrap();
    assert!(value.is_nan());
    assert_eq!(infix, "0 / 0");
}

#[test]
fn the_names_of_the_special_values_are_numbers() {
    solved("inf 1 +", f64::INFINITY, "inf + 1");
    solved("-Infinity 2 *", f64::NEG_INFINITY, "-inf * 2");
    let (value, infix) = solve("nan 1 +").unwrap();
    assert!(value.is_nan());
    assert_eq!(infix, "NaN + 1");
}

#[test]
fn an_unknown_operator_is_named() {
    assert_eq!(solve("2 3 $"), Err(EvalError::UnknownOperator { symbol: '$' }));
    assert_eq!(solve("2 3 ^"), Err(EvalError::UnknownOperator { symbol: '^' }));
    assert_eq!(solve("x"), Err(EvalError::UnknownOperator { symbol: 'x' }));
}

#[test]
fn a_longer_piece_that_is_no_number_is_malformed() {
    assert_eq!(solve("2 three +"), Err(EvalError::MalformedExpression));
    assert_eq!(solve("2 3 ++"), Err(EvalError::MalformedExpression));
    assert_eq!(solve("2 3+"), Err(EvalError::MalformedExpression));
}

#[test]
fn the_first_piece_in_error_gives_the_error() {
    assert_eq!(solve("1 $ two"), Err(EvalError::UnknownOperator { symbol: '$' }));
    assert_eq!(solve("1 two $"), Err(EvalError::MalformedExpression));
    assert_eq!(solve("$ +"), Err(EvalError::UnknownOperator { symbol: '$' }));
    assert_eq!(solve("1 2 $ +"), Err(EvalError::UnknownOperator { symbol: '$' }));
}

#[test]
fn an_operator_short_of_operands_ends_the_evaluation_at_once() {
    assert_eq!(solve("+ $"), Err(EvalError::MalformedExpression));
    assert_eq!(solve("1 + $"), Err(EvalError::MalformedExpression));
    assert_eq!(solve("1 2 + * $ 3"), Err(EvalError::MalformedExpression));
}

#[test]
fn leftover_operands_are_found_at_the_end_only() {
    assert_eq!(solve("1 2 3 $"), Err(EvalError::UnknownOperator { symbol: '$' }));
    assert_eq!(solve("1 2 3 + four"), Err(EvalError::MalformedExpression));
    assert_eq!(solve("1 2 3"), Err(EvalError::MalformedExpression));
}

#[test]
fn the_expression_keeps_its_source() {
    let x = Expression::solve(" 3   4 +\t", &read, &apply, &show).unwrap();
    assert_eq!(x.source, " 3   4 +\t");
    assert_eq!(x.get_result(), value(7.0));
    assert_eq!(x.fragment, Fragment { text: "3 + 4".to_string(), root: Root::Additive });
}

#[test]
fn an_expression_renders_as_infix_equals_value() {
    let x = Expression::solve("3 4 +", &read, &apply, &show).unwrap();
    assert_eq!(x.render("7"), "3 + 4 = 7");
    assert_eq!(x.render(""), "3 + 4 = ");
    assert_eq!(x.render(&show(x.value)), "3 + 4 = 7");
}
