//! Tables from delimited text.
//!
//! The first line names the columns; every further line is a row whose
//! fields go to the columns in order. Reading the lines from a file is left to
//! the caller, and so is the reading of a field as a number: `parser` is
//! handed a field and gives the bit pattern of the number it reads there, if
//! it reads one.
use crate::table::Table;
use crate::text::{
    chars_of, eq_ignore_ascii_case, find_from, listed, reads_ignoring_case, span_until,
    span_until_stops, string_between, texts,
};
use crate::types::Value;
use vstd::prelude::*;

verus! {

/// The fields of a line: the stretches between its commas. A line without a
/// comma is one field, and so is the empty line.
pub open spec fn fields(line: Seq<char>) -> Seq<Seq<char>>
    decreases line.len(),
{
    let n = span_until(line, ',');
    if n >= line.len() {
        seq![line]
    } else {
        seq![line.take(n as int)] + fields(line.skip(n as int + 1))
    }
}

/// Whether `value` is what the field `cell` holds, given what the parser
/// read there.
///
/// A field that reads as a number is that number. Of the others, `true` and
/// `false` in any case are booleans, the empty field is the absent value and
/// anything else a text.
pub open spec fn cell_value(cell: Seq<char>, parsed: Option<u64>, value: Value) -> bool {
    match parsed {
        Some(bits) => value == Value::Number(bits),
        None => if reads_ignoring_case(cell, "true"@) {
            value == Value::Boolean(true)
        } else if reads_ignoring_case(cell, "false"@) {
            value == Value::Boolean(false)
        } else if cell.len() == 0 {
            value == Value::Null
        } else {
            value is Text && value->Text_0@ == cell
        },
    }
}

/// Whether `value` can come out of reading the field `cell` with `parser`.
pub open spec fn reads_cell<P: Fn(&str) -> Option<u64>>(
    parser: &P,
    cell: Seq<char>,
    value: Value,
) -> bool {
    exists|text: &str, parsed: Option<u64>|
        {
            &&& text@ == cell
            &&& #[trigger] call_ensures(parser, (text,), parsed)
            &&& cell_value(cell, parsed, value)
        }
}

/// Whether `values` can come out of reading `cells` one by one.
pub open spec fn reads_cells<P: Fn(&str) -> Option<u64>>(
    parser: &P,
    cells: Seq<Seq<char>>,
    values: Seq<Value>,
) -> bool {
    &&& values.len() == cells.len()
    &&& forall|k: int| 0 <= k < cells.len() ==> reads_cell(parser, #[trigger] cells[k], values[k])
}

/// The cells of column `j`: from every row that has more than `j` fields, its
/// field `j`. A short row leaves the column shorter; nothing is filled in.
pub open spec fn cells(rows: Seq<Seq<char>>, j: int) -> Seq<Seq<char>> {
    rows.filter_map(
        |row: Seq<char>|
            if 0 <= j < fields(row).len() {
                Some(fields(row)[j])
            } else {
                None
            },
    )
}

/// Whether no name after position `j` of the header repeats the name there.
pub open spec fn names_last(header: Seq<Seq<char>>, j: int) -> bool {
    forall|k: int| j < k < header.len() ==> header[k] != header[j]
}

/// Whether `table` can come out of reading `lines`.
///
/// No lines give the empty table. Otherwise the fields of the first line name
/// the columns, and the column of a name holds the cells under it, read one
/// by one. Where a name stands twice, its last column is the one kept.
/// Fields beyond the last name are dropped.
pub open spec fn reads_table<P: Fn(&str) -> Option<u64>>(
    parser: &P,
    lines: Seq<Seq<char>>,
    table: Map<Seq<char>, Seq<Value>>,
) -> bool {
    if lines.len() == 0 {
        table == Map::<Seq<char>, Seq<Value>>::empty()
    } else {
        let header = fields(lines[0]);
        let rows = lines.skip(1);
        &&& forall|name: Seq<char>| table.contains_key(name) <==> header.contains(name)
        &&& forall|j: int|
            0 <= j < header.len() && names_last(header, j) ==> reads_cells(
                parser,
                cells(rows, j),
                #[trigger] table[header[j]],
            )
    }
}

/// No field holds a comma, and the fields with a comma between every two of
/// them make up the line.
pub proof fn fields_make_up_the_line(line: Seq<char>)
    ensures
        fields(line).len() >= 1,
        forall|k: int, i: int|
            0 <= k < fields(line).len() && 0 <= i < fields(line)[k].len() ==> (
            #[trigger] fields(line)[k][i]) != ',',
        listed(fields(line), seq![','], fields(line).len()) == line,
    decreases line.len(),
{
    let n = span_until(line, ',');
    span_until_stops(line, ',');
    if n >= line.len() {
        assert(listed(fields(line), seq![','], 0) == Seq::<char>::empty());
        assert(Seq::<char>::empty() + Seq::<char>::empty() + line == line);
    } else {
        let first = line.take(n as int);
        let rest = line.skip(n as int + 1);
        let tail = fields(rest);
        let all = fields(line);
        fields_make_up_the_line(rest);
        assert(all == seq![first] + tail);
        assert forall|k: int, i: int|
            0 <= k < all.len() && 0 <= i < all[k].len() implies (#[trigger] all[k][i]) != ',' by {
            if k > 0 {
                assert(all[k] == tail[k - 1]);
                assert(tail[k - 1][i] != ',');
            }
        }
        listed_after_first(first, tail, seq![','], tail.len());
        assert(first + seq![','] + rest == line);
    }
}

/// A list with one more item in front is that item, the separator and the
/// list, as long as the list is not empty.
proof fn listed_after_first(first: Seq<char>, tail: Seq<Seq<char>>, separator: Seq<char>, n: nat)
    requires
        1 <= n <= tail.len(),
    ensures
        listed(seq![first] + tail, separator, n + 1) == first + separator + listed(
            tail,
            separator,
            n,
        ),
    decreases n,
{
    let all = seq![first] + tail;
    assert(all[n as int] == tail[n - 1]);
    if n == 1 {
        assert(listed(all, separator, 0) == Seq::<char>::empty());
        assert(listed(tail, separator, 0) == Seq::<char>::empty());
        assert(listed(all, separator, 1) == first);
        assert(listed(tail, separator, 1) == tail[0]);
        assert(listed(all, separator, 2) == first + separator + tail[0]);
    } else {
        listed_after_first(first, tail, separator, (n - 1) as nat);
        assert(listed(all, separator, n + 1) == first + separator + (listed(
            tail,
            separator,
            (n - 1) as nat,
        ) + separator + tail[n - 1]));
    }
}

/// The fields of `line`, split at its commas.
pub fn split_fields(line: &str) -> (parts: Vec<String>)
    ensures
        texts(parts@) == fields(line@),
{
    let chars = chars_of(line);
    let mut parts: Vec<String> = Vec::new();
    let mut start: usize = 0;
    proof {
        assert(chars@.skip(0) == chars@);
        assert(texts(parts@) + fields(chars@) == fields(chars@));
    }
    loop
        invariant_except_break
            start <= chars.len(),
            texts(parts@) + fields(chars@.skip(start as int)) == fields(chars@),
        ensures
            texts(parts@) == fields(chars@),
        decreases chars.len() - start,
    {
        let ghost here = chars@.skip(start as int);
        let ghost before = parts@;
        let end = find_from(&chars, start, ',');
        let part = string_between(&chars, start, end);
        proof {
            assert(here.take(end - start) == chars@.subrange(start as int, end as int));
            assert(texts(before.push(part)) == texts(before) + seq![part@]);
        }
        parts.push(part);
        if end >= chars.len() {
            proof {
                assert(here.take(end - start) == here);
                assert(fields(here) == seq![here]);
                assert(texts(before) + seq![here] == texts(parts@));
            }
            break ;
        }
        proof {
            assert(here.skip(end - start + 1) == chars@.skip(end + 1));
            assert(texts(before) + (seq![part@] + fields(chars@.skip(end + 1))) == texts(parts@)
                + fields(chars@.skip(end + 1)));
        }
        start = end + 1;
    }
    parts
}

/// The value that the field `cell` holds, given what the parser read there.
pub fn classify(cell: &str, parsed: Option<u64>) -> (value: Value)
    ensures
        cell_value(cell@, parsed, value),
{
    match parsed {
        Some(bits) => Value::Number(bits),
        None => {
            if eq_ignore_ascii_case(cell, "true") {
                Value::Boolean(true)
            } else if eq_ignore_ascii_case(cell, "false") {
                Value::Boolean(false)
            } else if cell.is_empty() {
                Value::Null
            } else {
                Value::Text(cell.to_owned())
            }
        },
    }
}

/// The value that the field `value` holds: a number where `parser` reads
/// one, else a boolean, the absent value or a text.
pub fn parse_value<P: Fn(&str) -> Option<u64>>(value: &str, parser: &P) -> (read: Value)
    requires
        forall|text: &str| call_requires(parser, (text,)),
    ensures
        reads_cell(parser, value@, read),
{
    let parsed = parser(value);
    classify(value, parsed)
}

/// The column under the name at position `j`: from every row that has a field
/// there, that field's value.
fn read_column<P: Fn(&str) -> Option<u64>>(rows: &Vec<Vec<String>>, j: usize, parser: &P) -> (column:
    Vec<Value>)
    requires
        forall|text: &str| call_requires(parser, (text,)),
    ensures
        column@.len() <= rows@.len(),
        forall|lines: Seq<Seq<char>>|
            lines.len() == rows@.len() && (forall|i: int|
                0 <= i < rows@.len() ==> texts(rows@[i]@) == fields(#[trigger] lines[i]))
                ==> reads_cells(parser, #[trigger] cells(lines, j as int), column@),
{
    let mut column: Vec<Value> = Vec::new();
    let mut i: usize = 0;
    while i < rows.len()
        invariant
            i <= rows.len(),
            column@.len() <= i,
            forall|text: &str| call_requires(parser, (text,)),
            forall|lines: Seq<Seq<char>>|
                lines.len() == rows@.len() && (forall|i: int|
                    0 <= i < rows@.len() ==> texts(rows@[i]@) == fields(#[trigger] lines[i]))
                    ==> reads_cells(
                    parser,
                    #[trigger] cells(lines.take(i as int), j as int),
                    column@,
                ),
        decreases rows.len() - i,
    {
        let row = &rows[i];
        let ghost before = column@;
        if j < row.len() {
            let value = parse_value(row[j].as_str(), parser);
            column.push(value);
        }
        proof {
            assert forall|lines: Seq<Seq<char>>|
                lines.len() == rows@.len() && (forall|i: int|
                    0 <= i < rows@.len() ==> texts(rows@[i]@) == fields(
                        #[trigger] lines[i],
                    )) implies reads_cells(
                parser,
                #[trigger] cells(lines.take(i + 1), j as int),
                column@,
            ) by {
                let pick = |row: Seq<char>|
                    if 0 <= j < fields(row).len() {
                        Some(fields(row)[j as int])
                    } else {
                        None
                    };
                lines.lemma_filter_map_take_succ(pick, i as int);
                assert(texts(rows@[i as int]@) == fields(lines[i as int]));
                let earlier = cells(lines.take(i as int), j as int);
                assert(reads_cells(parser, earlier, before));
                if j < row.len() {
                    assert(texts(row@)[j as int] == row@[j as int]@);
                    let longer = earlier + seq![fields(lines[i as int])[j as int]];
                    assert(cells(lines.take(i + 1), j as int) == longer);
                    assert forall|k: int| 0 <= k < longer.len() implies reads_cell(
                        parser,
                        #[trigger] longer[k],
                        column@[k],
                    ) by {
                        if k < earlier.len() {
                            assert(reads_cell(parser, earlier[k], before[k]));
                        }
                    }
                } else {
                    assert(cells(lines.take(i + 1), j as int) == earlier + Seq::<
                        Seq<char>,
                    >::empty());
                    assert(earlier + Seq::<Seq<char>>::empty() == earlier);
                }
            }
        }
        i += 1;
    }
    proof {
        assert forall|lines: Seq<Seq<char>>|
            lines.len() == rows@.len() && (forall|i: int|
                0 <= i < rows@.len() ==> texts(rows@[i]@) == fields(
                    #[trigger] lines[i],
                )) implies reads_cells(parser, #[trigger] cells(lines, j as int), column@) by {
            assert(lines.take(rows@.len() as int) == lines);
            assert(reads_cells(parser, cells(lines.take(rows@.len() as int), j as int), column@));
        }
    }
    column
}

/// The table that `lines` describe: the first line names the columns, the
/// others are rows. No lines give the empty table.
///
/// A row with fewer fields than there are names leaves the columns beyond it
/// shorter, and fields beyond the last name are dropped. Of two columns with
/// one name the later is kept.
pub fn read_csv<P: Fn(&str) -> Option<u64>>(lines: &Vec<String>, parser: &P) -> (table: Table)
    requires
        forall|text: &str| call_requires(parser, (text,)),
    ensures
        reads_table(parser, texts(lines@), table@),
{
    let mut table = Table::new();
    if lines.len() == 0 {
        return table;
    }
    let ghost all = texts(lines@);
    let ghost header = fields(all[0]);
    let ghost raw = all.skip(1);
    let headers = split_fields(lines[0].as_str());
    let mut rows: Vec<Vec<String>> = Vec::new();
    let mut i: usize = 1;
    while i < lines.len()
        invariant
            1 <= i <= lines.len(),
            all == texts(lines@),
            raw == all.skip(1),
            rows@.len() == i - 1,
            forall|r: int| 0 <= r < rows@.len() ==> texts(#[trigger] rows@[r]@) == fields(raw[r]),
        decreases lines.len() - i,
    {
        let row = split_fields(lines[i].as_str());
        proof {
            assert(raw[i - 1] == all[i as int]);
            assert(all[i as int] == lines@[i as int]@);
        }
        rows.push(row);
        i += 1;
    }
    let mut j: usize = 0;
    while j < headers.len()
        invariant
            j <= headers.len(),
            texts(headers@) == header,
            raw.len() == rows@.len(),
            forall|r: int| 0 <= r < rows@.len() ==> texts(#[trigger] rows@[r]@) == fields(raw[r]),
            forall|text: &str| call_requires(parser, (text,)),
            forall|name: Seq<char>| table@.contains_key(name) <==> header.take(j as int).contains(name),
            forall|k: int|
                0 <= k < j && names_last(header.take(j as int), k) ==> reads_cells(
                    parser,
                    cells(raw, k),
                    #[trigger] table@[header[k]],
                ),
        decreases headers.len() - j,
    {
        let column = read_column(&rows, j, parser);
        let name = headers[j].clone();
        let ghost before = table@;
        proof {
            assert(texts(headers@)[j as int] == headers@[j as int]@);
            assert(reads_cells(parser, cells(raw, j as int), column@));
        }
        table.add_column(name, column);
        proof {
            let shorter = header.take(j as int);
            let longer = header.take(j + 1);
            assert(longer == shorter.push(header[j as int]));
            assert forall|name: Seq<char>| table@.contains_key(name) <==> longer.contains(
                name,
            ) by {
                if longer.contains(name) {
                    let k = choose|k: int| 0 <= k < longer.len() && longer[k] == name;
                    if k < j {
                        assert(shorter[k] == name);
                    }
                }
                if shorter.contains(name) {
                    let k = choose|k: int| 0 <= k < shorter.len() && shorter[k] == name;
                    assert(longer[k] == name);
                }
                if name == header[j as int] {
                    assert(longer[j as int] == name);
                }
            }
            assert forall|k: int| 0 <= k < j + 1 && names_last(longer, k) implies reads_cells(
                parser,
                cells(raw, k),
                #[trigger] table@[header[k]],
            ) by {
                if k < j {
                    assert(longer[j as int] != longer[k]);
                    assert forall|m: int| k < m < shorter.len() implies shorter[m]
                        != shorter[k] by {
                        assert(longer[m] != longer[k]);
                    }
                    assert(names_last(shorter, k));
                    assert(table@[header[k]] == before[header[k]]);
                }
            }
        }
        j += 1;
    }
    proof {
        assert(header.take(headers@.len() as int) == header);
        assert(all.len() > 0);
    }
    table
}

} // verus!
