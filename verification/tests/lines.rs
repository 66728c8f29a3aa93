use postfix_infix::batch::process;
use postfix_infix::error::EvalError;
use postfix_infix::expression::Expression;
use postfix_infix::operator::Operator;
use postfix_infix::value::Value;

fn number(value: Value) -> f64 {
    f64::from_bits(value.to_bits())
}

fn read(text: &str) -> Value {
    Value::from_bits(text.parse::<f64>().unwrap().to_bits())
}

fn apply(op: Operator, left: Value, right: Value) -> Value {
    let (a, b) = (number(left), number(right));
    let result = match op {
        Operator::Add => a + b,
        Operator::Sub => a - b,
        Operator::Mul => a * b,
        Operator::Div => a / b,
    };
    Value::from_bits(result.to_bits())
}

fn show(value: Value) -> String {
    number(value).to_string()
}

fn run(lines: &[&str]) -> Result<Vec<String>, EvalError> {
    let lines: Vec<String> = lines.iter().map(|line| line.to_string()).collect();
    process(&lines, &read, &apply, &show)
}

#[test]
fn sum_of_two_numbers() {
    assert_eq!(run(&["3 4 +"]), Ok(vec!["3 + 4 = 7".to_string()]));
}

#[test]
fn sum_under_product_is_parenthesized() {
    assert_eq!(run(&["5 1 2 + 4 * +"]), Ok(vec!["5 + ( 1 + 2 ) * 4 = 17".to_string()]));
}

#[test]
fn leftover_operand_is_malformed() {
    assert_eq!(run(&["1 2 3 +"]), Err(EvalError::MalformedExpression));
}

#[test]
fn unknown_operator_is_named() {
    assert_eq!(run(&["2 3 $"]), Err(EvalError::UnknownOperator { symbol: '$' }));
}

#[test]
fn batch_comes_out_lowest_first() {
    assert_eq!(
        run(&["1 2 +", "5 3 -"]),
        Ok(vec!["5 - 3 = 2".to_string(), "1 + 2 = 3".to_string()])
    );
}

#[test]
fn blank_lines_only_is_empty_input() {
    assert_eq!(run(&["", "   ", "\t \u{a0}"]), Err(EvalError::EmptyInput));
    assert_eq!(run(&[]), Err(EvalError::EmptyInput));
}

#[test]
fn second_popped_operand_stands_on_the_left() {
    let solved = Expression::solve("10 4 -", &read, &apply, &show).unwrap();
    assert_eq!(number(solved.get_result()), 6.0);
    assert_eq!(solved.fragment.text, "10 - 4");
    assert_eq!(solved.source, "10 4 -");
}
