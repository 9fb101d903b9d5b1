use dax_rust::expand::{
    count_brackets, generate_table_tokens, parse_dax, token_vector_of, ColumnDef, TableData,
};
use dax_rust::{DaxError, DaxToken};

#[test]
fn a_token_is_written_as_the_expression_that_builds_it() {
    assert_eq!(
        DaxToken::Function("SUM".to_string()).source(),
        "DaxToken::Function(\"SUM\".to_string())"
    );
    assert_eq!(
        DaxToken::Number("1.5".to_string()).source(),
        "DaxToken::Number(\"1.5\".to_string())"
    );
    assert_eq!(DaxToken::Operator('+').source(), "DaxToken::Operator('+')");
    assert_eq!(
        DaxToken::Column("Sales".to_string()).source(),
        "DaxToken::Column(\"Sales\".to_string())"
    );
    assert_eq!(DaxToken::Comma.source(), "DaxToken::Comma");
    assert_eq!(DaxToken::ParenOpen.source(), "DaxToken::ParenOpen");
    assert_eq!(DaxToken::ParenClose.source(), "DaxToken::ParenClose");
    assert_eq!(DaxToken::Whitespace.source(), "DaxToken::Whitespace");
}

#[test]
fn a_formula_expands_to_the_vector_of_its_tokens() {
    assert_eq!(token_vector_of(""), "{ use dax_rust::DaxToken; vec![] }");
    assert_eq!(
        token_vector_of("SUM"),
        "{ use dax_rust::DaxToken; vec![DaxToken::Function(\"SUM\".to_string())] }"
    );
    assert_eq!(
        token_vector_of("MAX([a]) "),
        "{ use dax_rust::DaxToken; vec![DaxToken::Function(\"MAX\".to_string()), \
         DaxToken::ParenOpen, DaxToken::Column(\"a\".to_string()), DaxToken::ParenClose, \
         DaxToken::Whitespace] }"
    );
}

#[test]
fn a_formula_is_read_from_its_string_literal() {
    assert_eq!(
        parse_dax("\"SUM\"").ok(),
        Some("{ use dax_rust::DaxToken; vec![DaxToken::Function(\"SUM\".to_string())] }".to_string())
    );
    assert_eq!(parse_dax("\"MAX([a]) \"").ok(), Some(token_vector_of("MAX([a]) ")));
    assert_eq!(parse_dax("\"a\\tb\"").ok(), Some(token_vector_of("a\tb")));
    assert_eq!(parse_dax("\"[\\\"x\\\"]\"").ok(), Some(token_vector_of("[\"x\"]")));
    assert_eq!(parse_dax("r\"1+2\"").ok(), Some(token_vector_of("1+2")));
    assert_eq!(parse_dax("r#\"[a\"b]\"#").ok(), Some(token_vector_of("[a\"b]")));
    assert_eq!(parse_dax("\"\\u{41}\"").ok(), Some(token_vector_of("A")));
    assert_eq!(parse_dax("\"\"").ok(), Some(token_vector_of("")));
}

#[test]
fn what_is_not_one_string_literal_is_a_parse_error() {
    for input in ["", "SUM", "42", "\"a\" \"b\"", "\"a\", 1", "\"open", "b\"bytes\"", "'c'"] {
        match parse_dax(input) {
            Err(DaxError::ParseError(message)) => assert!(!message.is_empty()),
            other => panic!("expected a parse error for {:?}, got {:?}", input, other),
        }
    }
}

fn column(name: &str, values: &[&str]) -> ColumnDef {
    ColumnDef {
        name: name.to_string(),
        values: values.iter().map(|v| v.to_string()).collect(),
    }
}

#[test]
fn a_literal_table_expands_to_the_block_that_builds_it() {
    let none = TableData { columns: vec![] };
    assert_eq!(
        generate_table_tokens(&none),
        "{ let mut table = Table::new(); table }"
    );
    let one = TableData { columns: vec![column("\"Empty\"", &[])] };
    assert_eq!(
        generate_table_tokens(&one),
        "{ let mut table = Table::new(); \
         table.add_column(\"Empty\".to_string(), vec![]); table }"
    );
    let two = TableData {
        columns: vec![
            column("\"Sales\"", &["100.0", "150.0", "x + 1"]),
            column("\"Product\"", &["\"Apple\""]),
        ],
    };
    assert_eq!(
        generate_table_tokens(&two),
        "{ let mut table = Table::new(); \
         table.add_column(\"Sales\".to_string(), vec![Value::from(100.0), \
         Value::from(150.0), Value::from(x + 1)]); \
         table.add_column(\"Product\".to_string(), vec![Value::from(\"Apple\")]); table }"
    );
    assert_eq!(
        two.columns[0].statement(),
        "table.add_column(\"Sales\".to_string(), vec![Value::from(100.0), \
         Value::from(150.0), Value::from(x + 1)]); "
    );
}

#[test]
fn opening_brackets_are_counted_wherever_they_stand() {
    assert_eq!(count_brackets(""), 0);
    assert_eq!(count_brackets("SUM([Sales])"), 2);
    assert_eq!(count_brackets("\"([{\" )]}"), 3);
    assert_eq!(count_brackets("]]))}}"), 0);
    assert_eq!(count_brackets(&"[".repeat(5000)), 5000);
}

#[test]
fn a_source_with_too_many_brackets_is_refused_unread() {
    let at_the_limit = format!("\"{}\"", "[".repeat(1024));
    assert_eq!(parse_dax(&at_the_limit).ok(), Some(token_vector_of(&"[".repeat(1024))));
    let over_the_limit = format!("\"{}\"", "[".repeat(1025));
    match parse_dax(&over_the_limit) {
        Err(DaxError::ParseError(message)) => {
            assert_eq!(message, "more than 1024 opening brackets")
        }
        other => panic!("expected a parse error, got {:?}", other),
    }
    let nested = format!("{}{}", "(".repeat(200000), ")".repeat(200000));
    match parse_dax(&nested) {
        Err(DaxError::ParseError(message)) => {
            assert_eq!(message, "more than 1024 opening brackets")
        }
        other => panic!("expected a parse error, got {:?}", other),
    }
    let shallow = format!("{}{}", "(".repeat(1024), ")".repeat(1024));
    assert!(matches!(parse_dax(&shallow), Err(DaxError::ParseError(_))));
}
