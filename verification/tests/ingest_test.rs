use dax_rust::ingest::{classify, parse_value, read_csv, split_fields};
use dax_rust::text::eq_ignore_ascii_case;
use dax_rust::{Table, Value};

fn parse(text: &str) -> Option<u64> {
    text.parse::<f64>().ok().map(f64::to_bits)
}

fn number(x: f64) -> Value {
    Value::Number(x.to_bits())
}

fn text(s: &str) -> Value {
    Value::Text(s.to_string())
}

fn lines(all: &[&str]) -> Vec<String> {
    all.iter().map(|s| s.to_string()).collect()
}

fn read(all: &[&str]) -> Table {
    read_csv(&lines(all), &parse)
}

#[test]
fn a_line_splits_at_its_commas() {
    assert_eq!(split_fields("a,b,c"), vec!["a", "b", "c"]);
    assert_eq!(split_fields("abc"), vec!["abc"]);
    assert_eq!(split_fields(""), vec![""]);
    assert_eq!(split_fields(","), vec!["", ""]);
    assert_eq!(split_fields("a,,b"), vec!["a", "", "b"]);
    assert_eq!(split_fields(",a,"), vec!["", "a", ""]);
    assert_eq!(split_fields(" a , b "), vec![" a ", " b "]);
    assert_eq!(split_fields("\u{e9},\u{4eac}"), vec!["\u{e9}", "\u{4eac}"]);
}

#[test]
fn a_line_splits_as_the_standard_library_splits_it() {
    for line in ["", ",", ",,", "a", "a,", ",a", "a,b", "a,,b,", "1.5,true,,x y", "\"a,b\""] {
        let expected: Vec<String> = line.split(',').map(String::from).collect();
        assert_eq!(split_fields(line), expected, "fields of {:?}", line);
    }
}

#[test]
fn case_is_disregarded_for_the_letters_a_to_z_only() {
    assert!(eq_ignore_ascii_case("true", "true"));
    assert!(eq_ignore_ascii_case("TRUE", "true"));
    assert!(eq_ignore_ascii_case("tRuE", "TrUe"));
    assert!(eq_ignore_ascii_case("", ""));
    assert!(!eq_ignore_ascii_case("true", "tru"));
    assert!(!eq_ignore_ascii_case("tru", "true"));
    assert!(!eq_ignore_ascii_case("true", "trua"));
    assert!(!eq_ignore_ascii_case("\u{c9}", "\u{e9}"));
    assert!(!eq_ignore_ascii_case("@", "`"));
    assert!(!eq_ignore_ascii_case("[", "{"));
    for (a, b) in [("Az", "aZ"), ("a1", "A1"), ("k", "\u{212a}"), ("ab", "a"), ("[", "{")] {
        assert_eq!(eq_ignore_ascii_case(a, b), a.eq_ignore_ascii_case(b), "{:?} and {:?}", a, b);
    }
}

#[test]
fn a_field_is_a_number_a_boolean_nothing_or_a_text() {
    assert_eq!(parse_value("1.5", &parse), number(1.5));
    assert_eq!(parse_value("-3", &parse), number(-3.0));
    assert_eq!(parse_value("1e3", &parse), number(1000.0));
    assert_eq!(parse_value("inf", &parse), number(f64::INFINITY));
    assert_eq!(parse_value("NaN", &parse), number(f64::NAN));
    assert_eq!(parse_value("true", &parse), Value::Boolean(true));
    assert_eq!(parse_value("TRUE", &parse), Value::Boolean(true));
    assert_eq!(parse_value("False", &parse), Value::Boolean(false));
    assert_eq!(parse_value("", &parse), Value::Null);
    assert_eq!(parse_value("abc", &parse), text("abc"));
    assert_eq!(parse_value(" 1", &parse), text(" 1"));
    assert_eq!(parse_value("truth", &parse), text("truth"));
    assert_eq!(parse_value(" ", &parse), text(" "));
}

#[test]
fn a_field_that_read_as_a_number_is_that_number() {
    assert_eq!(classify("true", Some(7.0f64.to_bits())), number(7.0));
    assert_eq!(classify("", Some(0)), number(0.0));
    assert_eq!(classify("true", None), Value::Boolean(true));
    assert_eq!(classify("1.5", None), text("1.5"));
}

#[test]
fn no_lines_give_the_empty_table() {
    assert!(read(&[]).is_empty());
}

#[test]
fn the_first_line_names_the_columns() {
    let table = read(&["a,b,c"]);
    assert_eq!(table.column_names(), vec!["a", "b", "c"]);
    assert_eq!(table.get_column("a"), Some(&vec![]));
    assert_eq!(table.get_column("c"), Some(&vec![]));
    let table = read(&[""]);
    assert_eq!(table.column_names(), vec![""]);
}

#[test]
fn the_rows_fill_the_columns_in_order() {
    let table = read(&["name,age,member,note", "Ann,31,true,", "Bob,4.5,FALSE,x"]);
    assert_eq!(table.get_column("name"), Some(&vec![text("Ann"), text("Bob")]));
    assert_eq!(table.get_column("age"), Some(&vec![number(31.0), number(4.5)]));
    assert_eq!(
        table.get_column("member"),
        Some(&vec![Value::Boolean(true), Value::Boolean(false)])
    );
    assert_eq!(table.get_column("note"), Some(&vec![Value::Null, text("x")]));
}

#[test]
fn a_short_row_leaves_the_later_columns_short() {
    let table = read(&["a,b,c", "1,2,3", "4", "5,6", "7,8,9"]);
    assert_eq!(
        table.get_column("a"),
        Some(&vec![number(1.0), number(4.0), number(5.0), number(7.0)])
    );
    assert_eq!(
        table.get_column("b"),
        Some(&vec![number(2.0), number(6.0), number(8.0)])
    );
    assert_eq!(table.get_column("c"), Some(&vec![number(3.0), number(9.0)]));
}

#[test]
fn an_empty_row_is_one_empty_field() {
    let table = read(&["a,b", "", "1,2"]);
    assert_eq!(table.get_column("a"), Some(&vec![Value::Null, number(1.0)]));
    assert_eq!(table.get_column("b"), Some(&vec![number(2.0)]));
}

#[test]
fn fields_beyond_the_last_name_are_dropped() {
    let table = read(&["a,b", "1,2,3,4"]);
    assert_eq!(table.column_names(), vec!["a", "b"]);
    assert_eq!(table.get_column("a"), Some(&vec![number(1.0)]));
    assert_eq!(table.get_column("b"), Some(&vec![number(2.0)]));
}

#[test]
fn of_two_columns_with_one_name_the_later_is_kept() {
    let table = read(&["a,b,a", "1,2,3", "4,5,6"]);
    assert_eq!(table.column_names(), vec!["a", "b"]);
    assert_eq!(table.get_column("a"), Some(&vec![number(3.0), number(6.0)]));
    assert_eq!(table.get_column("b"), Some(&vec![number(2.0), number(5.0)]));
}
