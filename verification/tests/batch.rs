use postfix_infix::batch::{build_expression_list, process, solve_list};
use postfix_infix::error::EvalError;
use postfix_infix::operator::Operator;
use postfix_infix::value::Value;

fn number(value: Value) -> f64 {
    f64::from_bits(value.to_bits())
}

fn read(text: &str) -> Value {
    Value::from_bits(text.parse::<f64>().unwrap().to_bits())
}

fn apply(op: Operator, left: Value, right: Value) -> Value {
    let (a, b) = (number(left), number(right));
    let result = match op {
        Operator::Add => a + b,
        Operator::Sub => a - b,
        Operator::Mul => a * b,
        Operator::Div => a / b,
    };
    Value::from_bits(result.to_bits())
}

fn show(value: Value) -> String {
    number(value).to_string()
}

fn lines(lines: &[&str]) -> Vec<String> {
    lines.iter().map(|line| line.to_string()).collect()
}

#[test]
fn blank_lines_are_skipped() {
    assert_eq!(
        build_expression_list(&lines(&["", "1 2 +", "   ", "\t", "3", " 4 5 * "])),
        Ok(lines(&["1 2 +", "3", " 4 5 * "]))
    );
}

#[test]
fn no_line_to_evaluate_is_an_error() {
    assert_eq!(build_expression_list(&lines(&[])), Err(EvalError::EmptyInput));
    assert_eq!(build_expression_list(&lines(&[""])), Err(EvalError::EmptyInput));
    assert_eq!(build_expression_list(&lines(&[" ", "\t\t", "\u{3000}"])), Err(EvalError::EmptyInput));
}

#[test]
fn lines_are_solved_in_their_order() {
    let batch = solve_list(&lines(&["1 2 +", "5 3 -", "2 3 4 + *"]), &read, &apply, &show).unwrap();
    let found: Vec<(&str, f64, &str)> = batch
        .iter()
        .map(|x| (x.source.as_str(), number(x.value), x.fragment.text.as_str()))
        .collect();
    assert_eq!(
        found,
        vec![("1 2 +", 3.0, "1 + 2"), ("5 3 -", 2.0, "5 - 3"), ("2 3 4 + *", 14.0, "2 * ( 3 + 4 )")]
    );
}

#[test]
fn no_lines_solve_to_no_expressions() {
    assert_eq!(solve_list(&lines(&[]), &read, &apply, &show), Ok(vec![]));
}

#[test]
fn the_first_line_in_error_ends_the_run() {
    assert_eq!(
        solve_list(&lines(&["1 2 +", "1 2 $", "1 2"]), &read, &apply, &show),
        Err(EvalError::UnknownOperator { symbol: '$' })
    );
    assert_eq!(
        solve_list(&lines(&["1 2 +", "1 2", "1 2 $"]), &read, &apply, &show),
        Err(EvalError::MalformedExpression)
    );
    assert_eq!(
        process(&lines(&["1 2 +", "", "1 2", "1 2 $"]), &read, &apply, &show),
        Err(EvalError::MalformedExpression)
    );
}

#[test]
fn a_run_gives_ranked_lines() {
    assert_eq!(
        process(
            &lines(&["5 1 2 + 4 * +", "", "3 4 +", "  ", "10 4 -", "1 0 /", "0 1 -"]),
            &read,
            &apply,
            &show
        ),
        Ok(lines(&["0 - 1 = -1", "10 - 4 = 6", "3 + 4 = 7", "5 + ( 1 + 2 ) * 4 = 17", "1 / 0 = inf"]))
    );
}

#[test]
fn equal_values_come_out_as_the_swaps_leave_them() {
    assert_eq!(
        process(&lines(&["1 1 +", "4 2 -", "1"]), &read, &apply, &show),
        Ok(lines(&["1 = 1", "4 - 2 = 2", "1 + 1 = 2"]))
    );
    assert_eq!(
        process(&lines(&["1", "1 1 +", "4 2 -"]), &read, &apply, &show),
        Ok(lines(&["1 = 1", "1 + 1 = 2", "4 - 2 = 2"]))
    );
}

#[test]
fn a_run_without_lines_is_empty_input() {
    assert_eq!(process(&lines(&[]), &read, &apply, &show), Err(EvalError::EmptyInput));
    assert_eq!(process(&lines(&["", " "]), &read, &apply, &show), Err(EvalError::EmptyInput));
}

#[test]
fn values_are_written_in_their_shortest_form() {
    assert_eq!(
        process(&lines(&["0.1 0.2 +", "1 3 /", "1e21 1 *", "2.50 2 *"]), &read, &apply, &show),
        Ok(lines(&[
            "0.1 + 0.2 = 0.30000000000000004",
            "1 / 3 = 0.3333333333333333",
            "2.5 * 2 = 5",
            "1000000000000000000000 * 1 = 1000000000000000000000",
        ]))
    );
}
