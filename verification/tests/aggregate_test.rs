use dax_rust::aggregate::{average, count, distinct_count, max, min, sum};
use dax_rust::{Table, Value};

fn add(a: u64, b: u64) -> u64 {
    (f64::from_bits(a) + f64::from_bits(b)).to_bits()
}

fn div(a: u64, b: u64) -> u64 {
    (f64::from_bits(a) / f64::from_bits(b)).to_bits()
}

fn number(x: f64) -> Value {
    Value::Number(x.to_bits())
}

fn numbers(xs: &[f64]) -> Vec<Value> {
    xs.iter().map(|x| number(*x)).collect()
}

fn floats(values: &[Value]) -> Vec<f64> {
    values
        .iter()
        .filter_map(|v| match v {
            Value::Number(bits) => Some(f64::from_bits(*bits)),
            _ => None,
        })
        .collect()
}

fn least_by_the_machine(values: &[Value]) -> Option<u64> {
    floats(values)
        .into_iter()
        .min_by(|a, b| a.partial_cmp(b).unwrap_or(std::cmp::Ordering::Equal))
        .map(f64::to_bits)
}

fn greatest_by_the_machine(values: &[Value]) -> Option<u64> {
    floats(values)
        .into_iter()
        .max_by(|a, b| a.partial_cmp(b).unwrap_or(std::cmp::Ordering::Equal))
        .map(f64::to_bits)
}

fn columns() -> Vec<Vec<Value>> {
    let nan = f64::NAN;
    let inf = f64::INFINITY;
    let mut all = vec![
        vec![],
        numbers(&[1.0]),
        numbers(&[3.0, 1.0, 2.0]),
        numbers(&[1.0, 1.0, 1.0]),
        numbers(&[0.0, -0.0]),
        numbers(&[-0.0, 0.0]),
        numbers(&[-1.0, -2.0, -3.0]),
        numbers(&[nan]),
        numbers(&[nan, 1.0]),
        numbers(&[1.0, nan]),
        numbers(&[2.0, nan, 1.0]),
        numbers(&[1.0, nan, 2.0]),
        numbers(&[nan, 2.0, 1.0, nan, 3.0]),
        numbers(&[3.0, nan, 1.0, nan, 2.0, nan]),
        numbers(&[inf, -inf, 0.0]),
        numbers(&[-inf, inf]),
        numbers(&[inf, nan, -inf]),
        numbers(&[5e-324, -5e-324, 0.0]),
        vec![Value::Null, Value::Text("x".to_string()), Value::Boolean(true)],
        vec![Value::Null, number(2.0), Value::Text("x".to_string()), number(1.0)],
    ];
    let pool = [nan, 1.0, 2.0, -1.0, 0.0, -0.0, inf, -inf, 1.0];
    let mut x: u64 = 0x2545_F491_4F6C_DD1D;
    for _ in 0..500 {
        let mut column = Vec::new();
        x ^= x << 13;
        x ^= x >> 7;
        x ^= x << 17;
        let len = x % 7;
        for _ in 0..len {
            x ^= x << 13;
            x ^= x >> 7;
            x ^= x << 17;
            column.push(number(pool[(x % pool.len() as u64) as usize]));
        }
        all.push(column);
    }
    all
}

#[test]
fn the_sum_adds_only_the_numbers() {
    let column = vec![
        number(100.0),
        Value::Text("Not a number".to_string()),
        Value::Null,
        number(300.0),
        Value::Boolean(true),
    ];
    assert_eq!(f64::from_bits(sum(&column, &add)), 400.0);
}

#[test]
fn the_sum_adds_from_left_to_right() {
    let column = numbers(&[1e16, 1.0, -1e16, 1.0]);
    let expected = ((0.0 + 1e16 + 1.0) + -1e16) + 1.0;
    assert_eq!(f64::from_bits(sum(&column, &add)), expected);
    assert_eq!(f64::from_bits(sum(&column, &add)), 1.0);
}

#[test]
fn the_sum_of_no_numbers_is_positive_zero() {
    assert_eq!(sum(&vec![], &add), 0.0f64.to_bits());
    let others = vec![Value::Null, Value::Text("x".to_string()), Value::Boolean(false)];
    assert_eq!(sum(&others, &add), 0.0f64.to_bits());
}

#[test]
fn the_sum_starts_from_positive_zero() {
    assert_eq!(sum(&numbers(&[-0.0]), &add), 0.0f64.to_bits());
    assert!(f64::from_bits(sum(&numbers(&[1.0, f64::NAN]), &add)).is_nan());
}

#[test]
fn the_average_divides_the_sum_by_the_count_of_numbers() {
    let column = vec![number(1.0), Value::Null, number(2.0), Value::Text("x".to_string())];
    assert_eq!(f64::from_bits(average(&column, &add, &div)), 1.5);
    assert_eq!(f64::from_bits(average(&numbers(&[10.0, 20.0, 30.0]), &add, &div)), 20.0);
    assert_eq!(f64::from_bits(average(&numbers(&[1.0, 2.0, 2.0]), &add, &div)), 5.0 / 3.0);
}

#[test]
fn the_average_of_no_numbers_is_positive_zero() {
    assert_eq!(average(&vec![], &add, &div), 0.0f64.to_bits());
    let others = vec![Value::Null, Value::Text("x".to_string())];
    assert_eq!(average(&others, &add, &div), 0.0f64.to_bits());
}

#[test]
fn the_count_takes_every_kind() {
    assert_eq!(count(&vec![]), 0);
    let column = vec![number(1.0), Value::Null, Value::Text("x".to_string()), Value::Boolean(true)];
    assert_eq!(count(&column), 4);
}

#[test]
fn the_extremes_of_no_numbers_are_absent() {
    assert_eq!(min(&vec![]), None);
    assert_eq!(max(&vec![]), None);
    let others = vec![Value::Null, Value::Text("0".to_string()), Value::Boolean(false)];
    assert_eq!(min(&others), None);
    assert_eq!(max(&others), None);
}

#[test]
fn the_extremes_are_the_least_and_the_greatest_number() {
    let column = vec![number(3.0), Value::Null, number(-1.5), number(7.0), Value::Boolean(true)];
    assert_eq!(min(&column), Some((-1.5f64).to_bits()));
    assert_eq!(max(&column), Some(7.0f64.to_bits()));
    assert_eq!(min(&numbers(&[f64::INFINITY, f64::NEG_INFINITY])), Some(f64::NEG_INFINITY.to_bits()));
    assert_eq!(max(&numbers(&[f64::INFINITY, f64::NEG_INFINITY])), Some(f64::INFINITY.to_bits()));
}

#[test]
fn of_equal_numbers_the_least_is_the_first_and_the_greatest_the_last() {
    assert_eq!(min(&numbers(&[0.0, -0.0])), Some(0.0f64.to_bits()));
    assert_eq!(min(&numbers(&[-0.0, 0.0])), Some((-0.0f64).to_bits()));
    assert_eq!(max(&numbers(&[0.0, -0.0])), Some((-0.0f64).to_bits()));
    assert_eq!(max(&numbers(&[-0.0, 0.0])), Some(0.0f64.to_bits()));
}

#[test]
fn the_extremes_agree_with_the_machine_nan_included() {
    for column in columns() {
        assert_eq!(min(&column), least_by_the_machine(&column), "min of {:?}", floats(&column));
        assert_eq!(max(&column), greatest_by_the_machine(&column), "max of {:?}", floats(&column));
    }
}

#[test]
fn the_sum_and_the_average_agree_with_the_machine() {
    for column in columns() {
        let xs = floats(&column);
        let total = xs.iter().fold(0.0, |acc, x| acc + x);
        let mean = if xs.is_empty() { 0.0 } else { total / xs.len() as f64 };
        assert_eq!(sum(&column, &add), total.to_bits(), "sum of {:?}", xs);
        assert_eq!(average(&column, &add, &div), mean.to_bits(), "average of {:?}", xs);
    }
}

#[test]
fn equal_values_count_once() {
    assert_eq!(distinct_count(&vec![]), 0);
    assert_eq!(distinct_count(&numbers(&[1.0, 1.0, 2.5, 3.7, 3.7])), 3);
    let column = vec![
        Value::Null,
        Value::Null,
        Value::Text("a".to_string()),
        Value::Text("a".to_string()),
        Value::Text("b".to_string()),
        Value::Boolean(true),
        Value::Boolean(true),
        Value::Boolean(false),
        number(1.0),
        Value::Text("1".to_string()),
    ];
    assert_eq!(distinct_count(&column), 7);
}

#[test]
fn every_nan_is_one_value_and_the_infinities_are_two() {
    let column = vec![
        number(f64::NAN),
        Value::Number(0x7FF0_0000_0000_0001),
        number(f64::INFINITY),
        Value::Number(0xFFFF_FFFF_FFFF_FFFF),
        number(f64::NEG_INFINITY),
    ];
    assert_eq!(distinct_count(&column), 3);
    assert_eq!(distinct_count(&numbers(&[f64::NAN, f64::NAN])), 1);
    assert_eq!(distinct_count(&numbers(&[f64::NAN, f64::NAN, f64::INFINITY, f64::NEG_INFINITY])), 3);
}

#[test]
fn the_two_zeros_are_one_value() {
    assert_eq!(distinct_count(&numbers(&[0.0, -0.0])), 1);
}

#[test]
fn a_table_keeps_its_columns() {
    let mut table = Table::new();
    assert!(table.is_empty());
    assert_eq!(table.get_column("a"), None);
    table.add_column("a".to_string(), numbers(&[1.0, 2.0]));
    table.add_column("b".to_string(), vec![Value::Null]);
    assert!(!table.is_empty());
    assert_eq!(table.get_column("a"), Some(&numbers(&[1.0, 2.0])));
    assert_eq!(table.get_column("b"), Some(&vec![Value::Null]));
    assert_eq!(table.get_column("c"), None);
    assert_eq!(table.get_column("A"), None);
    assert_eq!(table.get_column(""), None);
}

#[test]
fn adding_a_column_again_replaces_it() {
    let mut table = Table::new();
    table.add_column("a".to_string(), numbers(&[1.0, 2.0]));
    table.add_column("b".to_string(), numbers(&[5.0]));
    table.add_column("a".to_string(), numbers(&[3.0]));
    assert_eq!(table.get_column("a"), Some(&numbers(&[3.0])));
    assert_eq!(table.get_column("b"), Some(&numbers(&[5.0])));
    assert_eq!(table.count("a"), Some(1));
    assert_eq!(table.column_names(), vec!["a".to_string(), "b".to_string()]);
}

#[test]
fn columns_may_differ_in_length() {
    let mut table = Table::new();
    table.add_column("long".to_string(), numbers(&[1.0, 2.0, 3.0]));
    table.add_column("short".to_string(), numbers(&[1.0]));
    table.add_column("none".to_string(), vec![]);
    assert_eq!(table.count("long"), Some(3));
    assert_eq!(table.count("short"), Some(1));
    assert_eq!(table.count("none"), Some(0));
}

#[test]
fn a_missing_column_gives_no_result() {
    let mut table = Table::new();
    table.add_column("a".to_string(), numbers(&[1.0]));
    assert_eq!(table.sum("b", &add), None);
    assert_eq!(table.average("b", &add, &div), None);
    assert_eq!(table.count("b"), None);
    assert_eq!(table.distinctcount("b"), None);
    assert_eq!(table.min("b"), None);
    assert_eq!(table.max("b"), None);
}

#[test]
fn a_table_reduces_the_column_that_is_named() {
    let mut table = Table::new();
    table.add_column("a".to_string(), numbers(&[1.0, 4.0, 4.0]));
    table.add_column("b".to_string(), vec![Value::Text("x".to_string())]);
    assert_eq!(table.sum("a", &add), Some(9.0f64.to_bits()));
    assert_eq!(table.average("a", &add, &div), Some(3.0f64.to_bits()));
    assert_eq!(table.count("a"), Some(3));
    assert_eq!(table.distinctcount("a"), Some(2));
    assert_eq!(table.min("a"), Some(1.0f64.to_bits()));
    assert_eq!(table.max("a"), Some(4.0f64.to_bits()));
    assert_eq!(table.sum("b", &add), Some(0.0f64.to_bits()));
    assert_eq!(table.average("b", &add, &div), Some(0.0f64.to_bits()));
    assert_eq!(table.min("b"), None);
    assert_eq!(table.max("b"), None);
    assert_eq!(table.distinctcount("b"), Some(1));
}

#[test]
fn a_division_by_zero_gives_the_alternate_result() {
    let table = Table::new();
    let one = 1.0f64.to_bits();
    let two = 2.0f64.to_bits();
    let zero = 0.0f64.to_bits();
    let minus_zero = (-0.0f64).to_bits();
    assert_eq!(table.divide(one, two, None, &div), Some(0.5f64.to_bits()));
    assert_eq!(table.divide(one, two, Some(7.0f64.to_bits()), &div), Some(0.5f64.to_bits()));
    assert_eq!(table.divide(one, zero, None, &div), None);
    assert_eq!(table.divide(one, zero, Some(two), &div), Some(two));
    assert_eq!(table.divide(one, minus_zero, Some(two), &div), Some(two));
    assert_eq!(table.divide(one, minus_zero, None, &div), None);
    let by_nan = table.divide(one, f64::NAN.to_bits(), Some(two), &div);
    assert!(f64::from_bits(by_nan.unwrap()).is_nan());
}

#[test]
fn column_names_come_in_the_order_of_a_dictionary() {
    let mut table = Table::new();
    assert_eq!(table.column_names(), Vec::<String>::new());
    for name in ["b", "a", "ab", "B", "", "\u{e9}", "z", "aa", "a b"] {
        table.add_column(name.to_string(), vec![]);
    }
    let mut expected: Vec<String> = ["b", "a", "ab", "B", "", "\u{e9}", "z", "aa", "a b"]
        .iter()
        .map(|s| s.to_string())
        .collect();
    expected.sort();
    assert_eq!(table.column_names(), expected);
    assert_eq!(
        table.column_names(),
        vec!["", "B", "a", "a b", "aa", "ab", "b", "z", "\u{e9}"]
    );
}
