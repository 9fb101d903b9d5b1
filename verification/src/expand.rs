//! Source text for building tokens and tables at compile time.
//!
//! A procedural macro that wants a formula's tokens or a literal table in
//! the compiled program splices in the text made here. Names, numerals and
//! expressions are put in as they are written; nothing is escaped.
use crate::error::DaxError;
use crate::text::{chars_of, listed};
use crate::token::{lex, tokenize, views, DaxToken, TokenView};
use vstd::prelude::*;
use vstd::string::StringExecFns;

verus! {

impl TokenView {
    /// The expression that builds this token.
    pub open spec fn source(self) -> Seq<char> {
        match self {
            TokenView::Function(name) => "DaxToken::Function(\""@ + name + "\".to_string())"@,
            TokenView::Number(numeral) => "DaxToken::Number(\""@ + numeral + "\".to_string())"@,
            TokenView::Operator(c) => "DaxToken::Operator('"@ + seq![c] + "')"@,
            TokenView::Column(name) => "DaxToken::Column(\""@ + name + "\".to_string())"@,
            TokenView::Comma => "DaxToken::Comma"@,
            TokenView::ParenOpen => "DaxToken::ParenOpen"@,
            TokenView::ParenClose => "DaxToken::ParenClose"@,
            TokenView::Whitespace => "DaxToken::Whitespace"@,
        }
    }
}

impl DaxToken {
    /// The expression that builds this token.
    pub fn source(&self) -> (text: String)
        ensures
            text@ == self@.source(),
    {
        match self {
            DaxToken::Function(name) => {
                let mut text = "DaxToken::Function(\"".to_owned();
                text.append(name.as_str());
                text.append("\".to_string())");
                text
            },
            DaxToken::Number(numeral) => {
                let mut text = "DaxToken::Number(\"".to_owned();
                text.append(numeral.as_str());
                text.append("\".to_string())");
                text
            },
            DaxToken::Operator(c) => {
                let mut text = "DaxToken::Operator('".to_owned();
                text.push(*c);
                text.append("')");
                text
            },
            DaxToken::Column(name) => {
                let mut text = "DaxToken::Column(\"".to_owned();
                text.append(name.as_str());
                text.append("\".to_string())");
                text
            },
            DaxToken::Comma => "DaxToken::Comma".to_owned(),
            DaxToken::ParenOpen => "DaxToken::ParenOpen".to_owned(),
            DaxToken::ParenClose => "DaxToken::ParenClose".to_owned(),
            DaxToken::Whitespace => "DaxToken::Whitespace".to_owned(),
        }
    }
}

/// The block that builds the vector of `tokens`.
pub open spec fn token_vector(tokens: Seq<TokenView>) -> Seq<char> {
    "{ use dax_rust::DaxToken; vec!["@ + listed(
        tokens.map_values(|t: TokenView| t.source()),
        ", "@,
        tokens.len(),
    ) + "] }"@
}

/// An error of the parser of Rust syntax, opaque to the library.
#[verifier::external_type_specification]
#[verifier::external_body]
pub struct ExSynError(syn::Error);

/// The most opening brackets that a text may hold to be read as Rust
/// syntax. Reading nests one call for each level of brackets, so that a text
/// nested without bound could use up the stack before it is refused.
pub const MAX_BRACKETS: usize = 1024;

/// An opening parenthesis, square bracket or brace.
pub open spec fn opening_bracket(c: char) -> bool {
    c == '(' || c == '[' || c == '{'
}

/// The number of opening brackets in `s`, wherever they stand. No text is
/// nested more deeply than it holds opening brackets.
pub open spec fn brackets(s: Seq<char>) -> nat
    decreases s.len(),
{
    if s.len() == 0 {
        0
    } else {
        brackets(s.drop_last()) + if opening_bracket(s.last()) {
            1nat
        } else {
            0nat
        }
    }
}

/// The number of opening brackets in `text`.
pub fn count_brackets(text: &str) -> (n: usize)
    ensures
        n == brackets(text@),
{
    let chars = chars_of(text);
    let mut n: usize = 0;
    let mut i: usize = 0;
    proof {
        assert(chars@.take(0) == Seq::<char>::empty());
    }
    while i < chars.len()
        invariant
            i <= chars.len(),
            n == brackets(chars@.take(i as int)),
            n <= i,
        decreases chars.len() - i,
    {
        proof {
            assert(chars@.take(i + 1).drop_last() == chars@.take(i as int));
        }
        let c = chars[i];
        if c == '(' || c == '[' || c == '{' {
            n += 1;
        }
        i += 1;
    }
    proof {
        assert(chars@.take(chars.len() as int) == chars@);
    }
    n
}

/// `syn::parse_str` reads all of `source` as one `syn::LitStr`, and
/// `LitStr::value` gives the text that the literal denotes. An error comes
/// back where `source` is anything but one string literal. Nothing is claimed
/// of what comes back; the text must not hold more opening brackets than the
/// reader may nest calls.
#[verifier::external_body]
fn read_string_literal(source: &str) -> (read: Result<String, syn::Error>)
    requires
        brackets(source@) <= MAX_BRACKETS,
{
    match syn::parse_str::<syn::LitStr>(source) {
        Ok(literal) => Ok(literal.value()),
        Err(error) => Err(error),
    }
}

/// The message that `syn::Error` displays. Nothing is claimed of it.
#[verifier::external_body]
fn syntax_error_text(error: &syn::Error) -> (text: String) {
    format!("{}", error)
}

/// The message for a text that holds too many opening brackets to be read.
pub open spec fn too_many_brackets() -> Seq<char> {
    "more than 1024 opening brackets"@
}

/// The block that a formula written in the program expands to, from the
/// source of the string literal that holds the formula: it builds the vector
/// of the formula's tokens.
///
/// The source is read as Rust syntax and has to be one string literal, else
/// the reader's complaint comes back as a parse error. A source with more
/// than [`MAX_BRACKETS`] opening brackets is a parse error unread. What a
/// literal denotes is for the reader to say; of the formula that it gives,
/// [`token_vector_of`] writes the block.
pub fn parse_dax(input: &str) -> (expansion: Result<String, DaxError>)
    ensures
        match expansion {
            Ok(text) => brackets(input@) <= MAX_BRACKETS && exists|dax: Seq<char>|
                text@ == token_vector(#[trigger] lex(dax)),
            Err(error) => error is ParseError,
        },
        brackets(input@) > MAX_BRACKETS ==> expansion is Err
            && expansion->Err_0->ParseError_0@ == too_many_brackets(),
{
    if count_brackets(input) > MAX_BRACKETS {
        return Err(DaxError::ParseError("more than 1024 opening brackets".to_owned()));
    }
    match read_string_literal(input) {
        Ok(dax) => {
            let text = token_vector_of(dax.as_str());
            assert(text@ == token_vector(lex(dax@)));
            Ok(text)
        },
        Err(error) => Err(DaxError::ParseError(syntax_error_text(&error))),
    }
}

/// The block that builds the vector of the tokens of the formula `dax`.
pub fn token_vector_of(dax: &str) -> (text: String)
    ensures
        text@ == token_vector(lex(dax@)),
{
    let tokens = tokenize(dax);
    let ghost sources = views(tokens@).map_values(|t: TokenView| t.source());
    let mut text = "{ use dax_rust::DaxToken; vec![".to_owned();
    let ghost head = text@;
    let mut i: usize = 0;
    proof {
        assert(head + listed(sources, ", "@, 0) == head);
    }
    while i < tokens.len()
        invariant
            i <= tokens.len(),
            sources == views(tokens@).map_values(|t: TokenView| t.source()),
            text@ == head + listed(sources, ", "@, i as nat),
        decreases tokens.len() - i,
    {
        let ghost before = text@;
        if i > 0 {
            text.append(", ");
        }
        let source = tokens[i].source();
        text.append(source.as_str());
        proof {
            let gap = if i > 0 {
                ", "@
            } else {
                Seq::<char>::empty()
            };
            assert(before + Seq::<char>::empty() == before);
            assert(sources[i as int] == tokens@[i as int]@.source());
            assert(text@ == head + (listed(sources, ", "@, i as nat) + gap + sources[i as int]));
        }
        i += 1;
    }
    text.append("] }");
    text
}

/// A column written in the program: its name as a string literal, quotes
/// included, and its values as expressions.
#[derive(Debug, Clone, PartialEq, Eq)]
pub struct ColumnDef {
    pub name: String,
    pub values: Vec<String>,
}

/// A table written in the program: its columns in the order written.
#[derive(Debug, Clone, PartialEq, Eq)]
pub struct TableData {
    pub columns: Vec<ColumnDef>,
}

/// A column definition with its texts as sequences of characters.
pub struct ColumnDefView {
    pub name: Seq<char>,
    pub values: Seq<Seq<char>>,
}

impl View for ColumnDef {
    type V = ColumnDefView;

    open spec fn view(&self) -> ColumnDefView {
        ColumnDefView { name: self.name@, values: self.values@.map_values(|v: String| v@) }
    }
}

impl View for TableData {
    type V = Seq<ColumnDefView>;

    open spec fn view(&self) -> Seq<ColumnDefView> {
        self.columns@.map_values(|c: ColumnDef| c@)
    }
}

impl ColumnDefView {
    /// The statement that adds this column to the table under construction.
    /// Every value is converted to a cell value.
    pub open spec fn statement(self) -> Seq<char> {
        "table.add_column("@ + self.name + ".to_string(), vec!["@ + listed(
            self.values.map_values(|v: Seq<char>| "Value::from("@ + v + ")"@),
            ", "@,
            self.values.len(),
        ) + "]); "@
    }
}

/// The statements that add the first `n` columns.
pub open spec fn statements(columns: Seq<ColumnDefView>, n: nat) -> Seq<char>
    decreases n,
{
    if n == 0 {
        Seq::empty()
    } else {
        statements(columns, (n - 1) as nat) + columns[n - 1].statement()
    }
}

/// The block that builds the table of `columns`: it makes an empty table,
/// adds the columns in the order written and yields the table.
pub open spec fn table_block(columns: Seq<ColumnDefView>) -> Seq<char> {
    "{ let mut table = Table::new(); "@ + statements(columns, columns.len()) + "table }"@
}

impl ColumnDef {
    /// The statement that adds this column to the table under construction.
    pub fn statement(&self) -> (text: String)
        ensures
            text@ == self@.statement(),
    {
        let ghost items = self@.values.map_values(|v: Seq<char>| "Value::from("@ + v + ")"@);
        let mut text = "table.add_column(".to_owned();
        text.append(self.name.as_str());
        text.append(".to_string(), vec![");
        let ghost head = text@;
        let mut i: usize = 0;
        proof {
            assert(head + listed(items, ", "@, 0) == head);
        }
        while i < self.values.len()
            invariant
                i <= self.values.len(),
                items == self@.values.map_values(|v: Seq<char>| "Value::from("@ + v + ")"@),
                text@ == head + listed(items, ", "@, i as nat),
            decreases self.values.len() - i,
        {
            let ghost before = text@;
            if i > 0 {
                text.append(", ");
            }
            text.append("Value::from(");
            text.append(self.values[i].as_str());
            text.append(")");
            proof {
                let gap = if i > 0 {
                    ", "@
                } else {
                    Seq::<char>::empty()
                };
                assert(before + Seq::<char>::empty() == before);
                assert(self@.values[i as int] == self.values@[i as int]@);
                assert(items[i as int] == "Value::from("@ + self.values@[i as int]@ + ")"@);
                assert(text@ == head + (listed(items, ", "@, i as nat) + gap + items[i as int]));
            }
            i += 1;
        }
        text.append("]); ");
        text
    }
}

/// The block that a table written in the program expands to.
pub fn generate_table_tokens(table_data: &TableData) -> (text: String)
    ensures
        text@ == table_block(table_data@),
{
    let mut text = "{ let mut table = Table::new(); ".to_owned();
    let ghost head = text@;
    let mut i: usize = 0;
    proof {
        assert(head + statements(table_data@, 0) == head);
    }
    while i < table_data.columns.len()
        invariant
            i <= table_data.columns.len(),
            text@ == head + statements(table_data@, i as nat),
        decreases table_data.columns.len() - i,
    {
        let statement = table_data.columns[i].statement();
        text.append(statement.as_str());
        proof {
            assert(table_data@[i as int] == table_data.columns@[i as int]@);
            assert(text@ == head + (statements(table_data@, i as nat)
                + table_data@[i as int].statement()));
        }
        i += 1;
    }
    text.append("table }");
    text
}

} // verus!
