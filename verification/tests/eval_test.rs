use dax_rust::eval::{eval_dax, plan, Aggregate, DaxResult, DaxValue, Plan};
use dax_rust::token::tokenize;
use dax_rust::{DaxToken, Table, Value};

fn add(a: u64, b: u64) -> u64 {
    (f64::from_bits(a) + f64::from_bits(b)).to_bits()
}

fn div(a: u64, b: u64) -> u64 {
    (f64::from_bits(a) / f64::from_bits(b)).to_bits()
}

fn numbers(xs: &[f64]) -> Vec<Value> {
    xs.iter().map(|x| Value::Number(x.to_bits())).collect()
}

fn number(x: f64) -> DaxResult {
    DaxResult::Number(x.to_bits())
}

fn error(message: &str) -> DaxResult {
    DaxResult::Error(message.to_string())
}

fn sales() -> Table {
    let mut table = Table::new();
    table.add_column("Sales".to_string(), numbers(&[100.0, 150.0, 200.0]));
    table.add_column("Quantity".to_string(), numbers(&[10.0, 15.0, 15.0]));
    table.add_column(
        "Product".to_string(),
        vec![Value::from("Apple"), Value::from("Banana"), Value::from("Orange")],
    );
    table.add_column("Empty".to_string(), vec![]);
    table
}

fn evaluate(table: &Table, formula: &str) -> DaxResult {
    table.evaluate_dax(formula, &add, &div)
}

#[test]
fn the_sum_of_sales_is_450() {
    assert_eq!(evaluate(&sales(), "SUM([Sales])"), number(450.0));
}

#[test]
fn every_aggregate_can_be_called() {
    let table = sales();
    assert_eq!(evaluate(&table, "SUM([Quantity])"), number(40.0));
    assert_eq!(evaluate(&table, "AVERAGE([Sales])"), number(150.0));
    assert_eq!(evaluate(&table, "MIN([Sales])"), number(100.0));
    assert_eq!(evaluate(&table, "MAX([Sales])"), number(200.0));
    assert_eq!(evaluate(&table, "DISTINCTCOUNT([Quantity])"), number(2.0));
    assert_eq!(evaluate(&table, "DISTINCTCOUNT([Product])"), number(3.0));
    assert_eq!(evaluate(&table, "DISTINCTCOUNT([Empty])"), number(0.0));
}

#[test]
fn an_average_over_a_missing_column_could_not_be_calculated() {
    let table = Table::new();
    match evaluate(&table, "AVERAGE([Quantity])") {
        DaxResult::Error(e) => assert!(e.contains("Could not calculate")),
        _ => panic!("Expected error for empty table"),
    }
    assert_eq!(
        evaluate(&table, "AVERAGE([Quantity])"),
        error("Could not calculate AVERAGE for column Quantity")
    );
}

#[test]
fn a_missing_column_is_named_in_the_error() {
    let table = sales();
    assert_eq!(
        evaluate(&table, "SUM([NonExistent])"),
        error("Could not calculate SUM for column NonExistent")
    );
    assert_eq!(
        evaluate(&table, "MIN([x])"),
        error("Could not calculate MIN for column x")
    );
    assert_eq!(
        evaluate(&table, "MAX([x])"),
        error("Could not calculate MAX for column x")
    );
    assert_eq!(
        evaluate(&table, "DISTINCTCOUNT([])"),
        error("Could not calculate DISTINCTCOUNT for column ")
    );
}

#[test]
fn the_extremes_of_a_column_without_numbers_could_not_be_calculated() {
    let table = sales();
    assert_eq!(
        evaluate(&table, "MIN([Product])"),
        error("Could not calculate MIN for column Product")
    );
    assert_eq!(
        evaluate(&table, "MAX([Empty])"),
        error("Could not calculate MAX for column Empty")
    );
    assert_eq!(evaluate(&table, "SUM([Product])"), number(0.0));
    assert_eq!(evaluate(&table, "AVERAGE([Empty])"), number(0.0));
}

#[test]
fn an_unknown_function_is_unsupported() {
    let table = sales();
    assert_eq!(
        evaluate(&table, "INVALID([Sales])"),
        error("Unsupported function: INVALID")
    );
    assert_eq!(evaluate(&table, "sum([Sales])"), error("Unsupported function: sum"));
    assert_eq!(evaluate(&table, "DIVIDE(1, 2)"), error("Unsupported function: DIVIDE"));
    assert_eq!(evaluate(&table, "COUNT([Sales])"), error("Unsupported function: COUNT"));
    assert_eq!(
        evaluate(&table, "FOO + SUM([Sales])"),
        error("Unsupported function: FOO")
    );
}

#[test]
fn only_the_first_call_is_evaluated() {
    let table = sales();
    assert_eq!(evaluate(&table, "SUM([Sales]) / SUM([Quantity])"), number(450.0));
    assert_eq!(evaluate(&table, "SUM([Sales]) + INVALID([Quantity])"), number(450.0));
    assert_eq!(evaluate(&table, "SUM([Sales]) ; 1.2.3 [x"), number(450.0));
    assert_eq!(evaluate(&table, "MAX([Quantity]) - MIN([Sales])"), number(15.0));
}

#[test]
fn what_stands_before_the_first_function_is_skipped() {
    let table = sales();
    assert_eq!(evaluate(&table, "  1 + (SUM([Sales]))"), number(450.0));
    assert_eq!(evaluate(&table, "[Quantity] SUM([Sales])"), number(450.0));
    assert_eq!(evaluate(&table, "1.5, 2 * AVERAGE [Quantity]"), number(40.0 / 3.0));
}

#[test]
fn the_column_is_the_first_after_the_function_whatever_lies_between() {
    let table = sales();
    assert_eq!(evaluate(&table, "SUM [Sales]"), number(450.0));
    assert_eq!(evaluate(&table, "SUM(1, 2 + ) ([Sales], [Quantity])"), number(450.0));
    assert_eq!(evaluate(&table, "SUM([Sales"), number(450.0));
    assert_eq!(evaluate(&table, "SUM MAX([Sales])"), number(450.0));
}

#[test]
fn a_formula_without_a_call_is_invalid() {
    let table = sales();
    let invalid = error("Invalid or unsupported DAX expression");
    assert_eq!(evaluate(&table, ""), invalid);
    assert_eq!(evaluate(&table, "   "), invalid);
    assert_eq!(evaluate(&table, "1 + 2"), invalid);
    assert_eq!(evaluate(&table, "[Sales]"), invalid);
    assert_eq!(evaluate(&table, "SUM"), invalid);
    assert_eq!(evaluate(&table, "SUM()"), invalid);
    assert_eq!(evaluate(&table, "[Sales] SUM"), invalid);
    assert_eq!(evaluate(&table, "SUM(1 + 2)"), invalid);
}

#[test]
fn tokens_ask_for_one_call() {
    assert_eq!(
        plan(&tokenize("SUM([Sales]) / SUM([Quantity])")),
        Plan::Call(Aggregate::Sum, "Sales".to_string())
    );
    assert_eq!(
        plan(&tokenize("AVERAGE([a])")),
        Plan::Call(Aggregate::Average, "a".to_string())
    );
    assert_eq!(plan(&tokenize("MIN([a])")), Plan::Call(Aggregate::Min, "a".to_string()));
    assert_eq!(plan(&tokenize("MAX([a])")), Plan::Call(Aggregate::Max, "a".to_string()));
    assert_eq!(
        plan(&tokenize("DISTINCTCOUNT([a])")),
        Plan::Call(Aggregate::DistinctCount, "a".to_string())
    );
    assert_eq!(plan(&tokenize("Sum([a])")), Plan::Unsupported("Sum".to_string()));
    assert_eq!(plan(&tokenize("[a]")), Plan::Invalid);
    assert_eq!(plan(&tokenize("SUM(")), Plan::Invalid);
    assert_eq!(plan(&vec![]), Plan::Invalid);
}

#[test]
fn a_plan_is_carried_out_on_the_table() {
    let table = sales();
    let call = Plan::Call(Aggregate::Max, "Quantity".to_string());
    assert_eq!(table.perform(&call, &add, &div), number(15.0));
    assert_eq!(
        table.perform(&Plan::Unsupported("X".to_string()), &add, &div),
        error("Unsupported function: X")
    );
    assert_eq!(
        table.perform(&Plan::Invalid, &add, &div),
        error("Invalid or unsupported DAX expression")
    );
}

#[test]
fn aggregates_are_known_by_their_names_in_upper_case() {
    assert_eq!(Aggregate::recognize(&"SUM".to_string()), Some(Aggregate::Sum));
    assert_eq!(Aggregate::recognize(&"AVERAGE".to_string()), Some(Aggregate::Average));
    assert_eq!(Aggregate::recognize(&"MIN".to_string()), Some(Aggregate::Min));
    assert_eq!(Aggregate::recognize(&"MAX".to_string()), Some(Aggregate::Max));
    assert_eq!(
        Aggregate::recognize(&"DISTINCTCOUNT".to_string()),
        Some(Aggregate::DistinctCount)
    );
    assert_eq!(Aggregate::recognize(&"Sum".to_string()), None);
    assert_eq!(Aggregate::recognize(&"SUMS".to_string()), None);
    assert_eq!(Aggregate::recognize(&"".to_string()), None);
    assert_eq!(Aggregate::recognize(&"DIVIDE".to_string()), None);
    assert_eq!(Aggregate::Sum.as_str(), "SUM");
    assert_eq!(Aggregate::DistinctCount.as_str(), "DISTINCTCOUNT");
}

#[test]
fn an_evaluation_gives_a_value_or_a_message() {
    let table = sales();
    assert_eq!(
        eval_dax(&table, "SUM([Quantity])", &add, &div),
        Ok(DaxValue::Number(40.0f64.to_bits()))
    );
    assert_eq!(
        eval_dax(&table, "AVERAGE([Quantity]", &add, &div),
        Ok(DaxValue::Number((40.0f64 / 3.0).to_bits()))
    );
    assert_eq!(
        eval_dax(&table, "NOPE([Quantity])", &add, &div),
        Err("Unsupported function: NOPE".to_string())
    );
    assert_eq!(
        eval_dax(&table, "", &add, &div),
        Err("Invalid or unsupported DAX expression".to_string())
    );
}

fn column(name: &str) -> DaxToken {
    DaxToken::Column(name.to_string())
}

#[test]
fn a_division_takes_two_or_three_arguments() {
    let table = sales();
    let wrong = Err("DIVIDE requires 2 or 3 arguments".to_string());
    assert_eq!(table.evaluate_divide(&[], &add, &div), wrong);
    assert_eq!(table.evaluate_divide(&[column("SUM([Sales")], &add, &div), wrong);
    let four = [column("a"), column("b"), column("c"), column("d")];
    assert_eq!(table.evaluate_divide(&four, &add, &div), wrong);
}

#[test]
fn a_division_evaluates_the_text_of_its_arguments() {
    let mut table = sales();
    table.add_column("Zero".to_string(), numbers(&[0.0]));
    let sales = column("SUM([Sales");
    let quantity = column("SUM([Quantity");
    let zero = column("SUM([Zero");
    assert_eq!(
        table.evaluate_divide(&[sales.clone(), quantity.clone()], &add, &div),
        Ok(number(11.25))
    );
    assert_eq!(
        table.evaluate_divide(&[sales.clone(), quantity.clone(), zero.clone()], &add, &div),
        Ok(number(11.25))
    );
    assert_eq!(
        table.evaluate_divide(&[sales.clone(), zero.clone()], &add, &div),
        Err("Division by zero".to_string())
    );
    assert_eq!(
        table.evaluate_divide(&[sales.clone(), zero.clone(), quantity.clone()], &add, &div),
        Ok(number(40.0))
    );
    assert_eq!(
        table.evaluate_divide(&[sales.clone(), zero.clone(), column("x")], &add, &div),
        Err("Alternate result must be a number".to_string())
    );
    assert_eq!(
        table.evaluate_divide(&[DaxToken::Number("1".to_string()), quantity.clone()], &add, &div),
        Err("Numerator must be a number".to_string())
    );
    assert_eq!(
        table.evaluate_divide(&[sales.clone(), DaxToken::Function("SUM".to_string())], &add, &div),
        Err("Denominator must be a number".to_string())
    );
    assert_eq!(
        table.evaluate_divide(&[column("x"), column("y")], &add, &div),
        Err("Numerator must be a number".to_string())
    );
}
