//! A table as a bordered grid of text.
//!
//! The grid has a rule, a line of column names, a rule, one line for each
//! row and a closing rule. Each column is as wide as its longest entry, the
//! name included, counted in bytes of UTF-8, and every entry stands between
//! two spaces. Entries shorter than the column are filled up with spaces,
//! counted in characters: texts and names on the right, so that they stand
//! flush left, and everything else on the left.
use crate::table::Table;
use crate::text::{ascending, chars_of, texts};
use crate::types::Value;
use vstd::prelude::*;
use vstd::string::StringExecFns;
use vstd::utf8::encode_utf8;

verus! {

/// The corner at the top left of the grid.
pub const TOP_LEFT: char = '\u{250C}';

/// The corner at the top right of the grid.
pub const TOP_RIGHT: char = '\u{2510}';

/// The left end of the rule under the names.
pub const TEE_LEFT: char = '\u{251C}';

/// The right end of the rule under the names.
pub const TEE_RIGHT: char = '\u{2524}';

/// The corner at the bottom left of the grid.
pub const BOTTOM_LEFT: char = '\u{2514}';

/// The corner at the bottom right of the grid.
pub const BOTTOM_RIGHT: char = '\u{2518}';

/// The horizontal stroke that rules are made of.
pub const STROKE: char = '\u{2500}';

/// The vertical stroke between two columns.
pub const BAR: char = '\u{2502}';

/// One entry of a column as it is shown.
#[derive(Debug, Clone, PartialEq, Eq)]
pub struct Cell {
    /// The entry as text.
    pub text: String,
    /// Whether the text stands flush right in its column.
    pub flush_right: bool,
}

/// A cell with its text as a sequence of characters.
pub struct CellView {
    pub text: Seq<char>,
    pub flush_right: bool,
}

impl View for Cell {
    type V = CellView;

    open spec fn view(&self) -> CellView {
        CellView { text: self.text@, flush_right: self.flush_right }
    }
}

/// A column as it is shown: its name and its entries from the top.
#[derive(Debug, Clone, PartialEq, Eq)]
pub struct Strip {
    pub name: String,
    pub cells: Vec<Cell>,
}

/// A strip with its texts as sequences of characters.
pub struct StripView {
    pub name: Seq<char>,
    pub cells: Seq<CellView>,
}

impl View for Strip {
    type V = StripView;

    open spec fn view(&self) -> StripView {
        StripView { name: self.name@, cells: self.cells@.map_values(|c: Cell| c@) }
    }
}

/// The views of a sequence of strips.
pub open spec fn strip_views(strips: Seq<Strip>) -> Seq<StripView> {
    strips.map_values(|s: Strip| s@)
}

/// `c`, `n` times.
pub open spec fn repeat(c: char, n: nat) -> Seq<char> {
    Seq::new(n, |i: int| c)
}

/// The length of `text` in bytes of UTF-8, as the length of a string.
pub open spec fn bytes(text: Seq<char>) -> nat {
    (encode_utf8(text).len() as usize) as nat
}

/// The length in bytes of the longest text among the first `n` cells, and at
/// least `least`.
pub open spec fn widest(cells: Seq<CellView>, n: nat, least: nat) -> nat
    decreases n,
{
    if n == 0 {
        least
    } else {
        let before = widest(cells, (n - 1) as nat, least);
        if bytes(cells[n - 1].text) > before {
            bytes(cells[n - 1].text)
        } else {
            before
        }
    }
}

impl StripView {
    /// The width of the column: the length in bytes of its longest entry, the
    /// name included.
    pub open spec fn width(self) -> nat {
        widest(self.cells, self.cells.len(), bytes(self.name))
    }
}

/// `text` filled up with spaces to `width` characters, on the left if it is
/// to stand flush right and on the right otherwise. A text that is as long
/// or longer stays as it is.
pub open spec fn padded(text: Seq<char>, width: nat, flush_right: bool) -> Seq<char> {
    let fill = repeat(' ', if text.len() < width {
        (width - text.len()) as nat
    } else {
        0
    });
    if flush_right {
        fill + text
    } else {
        text + fill
    }
}

/// An entry in its column: a space, the text filled up to the width of the
/// column, a space.
pub open spec fn boxed(text: Seq<char>, width: nat, flush_right: bool) -> Seq<char> {
    seq![' '] + padded(text, width, flush_right) + seq![' ']
}

/// The strokes over the first `n` columns: for each column its width and
/// two more, and one for each bar between two columns.
pub open spec fn strokes(strips: Seq<StripView>, n: nat) -> Seq<char>
    decreases n,
{
    if n == 0 {
        Seq::empty()
    } else {
        strokes(strips, (n - 1) as nat) + repeat(STROKE, if n > 1 {
            1
        } else {
            0
        }) + repeat(STROKE, strips[n - 1].width() + 2)
    }
}

/// A rule of the grid: strokes between two ends, and a line feed.
pub open spec fn rule(strips: Seq<StripView>, left: char, right: char) -> Seq<char> {
    seq![left] + strokes(strips, strips.len()) + seq![right, '\n']
}

/// The names of the first `n` columns, each in its column, with a bar between
/// two columns.
pub open spec fn names(strips: Seq<StripView>, n: nat) -> Seq<char>
    decreases n,
{
    if n == 0 {
        Seq::empty()
    } else {
        names(strips, (n - 1) as nat) + (if n > 1 {
            seq![BAR]
        } else {
            Seq::empty()
        }) + boxed(strips[n - 1].name, strips[n - 1].width(), false)
    }
}

/// The entries of row `r` in the first `n` columns, each in its column, with
/// a bar between two columns. A column that ends above the row shows nothing
/// there, not even spaces.
pub open spec fn entries(strips: Seq<StripView>, r: int, n: nat) -> Seq<char>
    decreases n,
{
    if n == 0 {
        Seq::empty()
    } else {
        let strip = strips[n - 1];
        entries(strips, r, (n - 1) as nat) + (if n > 1 {
            seq![BAR]
        } else {
            Seq::empty()
        }) + (if 0 <= r < strip.cells.len() {
            boxed(strip.cells[r].text, strip.width(), strip.cells[r].flush_right)
        } else {
            Seq::empty()
        })
    }
}

/// The lines of the first `n` rows.
pub open spec fn rows(strips: Seq<StripView>, n: nat) -> Seq<char>
    decreases n,
{
    if n == 0 {
        Seq::empty()
    } else {
        rows(strips, (n - 1) as nat) + entries(strips, n - 1, strips.len()) + seq!['\n']
    }
}

/// The grid of `strips`, which must not be empty. It has as many rows as the
/// first column has entries.
pub open spec fn grid(strips: Seq<StripView>) -> Seq<char>
    recommends
        strips.len() > 0,
{
    rule(strips, TOP_LEFT, TOP_RIGHT) + names(strips, strips.len()) + seq!['\n'] + rule(
        strips,
        TEE_LEFT,
        TEE_RIGHT,
    ) + rows(strips, strips[0].cells.len()) + rule(strips, BOTTOM_LEFT, BOTTOM_RIGHT)
}

/// Appends `c` to `out`, `n` times.
fn push_repeated(out: &mut String, c: char, n: usize)
    ensures
        final(out)@ == old(out)@ + repeat(c, n as nat),
{
    let mut i: usize = 0;
    proof {
        assert(out@ + repeat(c, 0) == out@);
    }
    while i < n
        invariant
            i <= n,
            out@ == old(out)@ + repeat(c, i as nat),
        decreases n - i,
    {
        proof {
            assert((old(out)@ + repeat(c, i as nat)).push(c) == old(out)@ + repeat(
                c,
                (i + 1) as nat,
            ));
        }
        out.push(c);
        i += 1;
    }
}

/// Appends `text`, boxed in a column of `width`, to `out`.
fn push_boxed(out: &mut String, text: &str, width: usize, flush_right: bool)
    ensures
        final(out)@ == old(out)@ + boxed(text@, width as nat, flush_right),
{
    let count = chars_of(text).len();
    let fill: usize = if count < width {
        width - count
    } else {
        0
    };
    out.push(' ');
    if flush_right {
        push_repeated(out, ' ', fill);
        out.append(text);
    } else {
        out.append(text);
        push_repeated(out, ' ', fill);
    }
    out.push(' ');
    proof {
        assert(out@ == old(out)@ + boxed(text@, width as nat, flush_right));
    }
}

impl Strip {
    /// The width of the column.
    pub fn width(&self) -> (w: usize)
        ensures
            w == self@.width(),
    {
        let mut w: usize = self.name.as_str().len();
        let mut i: usize = 0;
        while i < self.cells.len()
            invariant
                i <= self.cells.len(),
                w == widest(self@.cells, i as nat, bytes(self.name@)),
            decreases self.cells.len() - i,
        {
            let n = self.cells[i].text.as_str().len();
            if n > w {
                w = n;
            }
            i += 1;
        }
        w
    }
}

/// Appends to `out` the rule of `strips` between the ends `left` and `right`.
fn push_rule(out: &mut String, strips: &Vec<Strip>, widths: &Vec<usize>, left: char, right: char)
    requires
        widths@.len() == strips@.len(),
        forall|j: int| 0 <= j < strips@.len() ==> widths@[j] == strips@[j]@.width(),
    ensures
        final(out)@ == old(out)@ + rule(strip_views(strips@), left, right),
{
    let ghost all = strip_views(strips@);
    out.push(left);
    let mut j: usize = 0;
    proof {
        assert(out@ == old(out)@ + seq![left] + strokes(all, 0));
    }
    while j < strips.len()
        invariant
            j <= strips.len(),
            all == strip_views(strips@),
            widths@.len() == strips@.len(),
            forall|j: int| 0 <= j < strips@.len() ==> widths@[j] == strips@[j]@.width(),
            out@ == old(out)@ + seq![left] + strokes(all, j as nat),
        decreases strips.len() - j,
    {
        let ghost before = out@;
        if j > 0 {
            push_repeated(out, STROKE, 1);
        }
        push_repeated(out, STROKE, widths[j]);
        push_repeated(out, STROKE, 2);
        proof {
            let w = all[j as int].width();
            assert(repeat(STROKE, w) + repeat(STROKE, 2) == repeat(STROKE, w + 2));
            let gap = repeat(STROKE, if j > 0 { 1nat } else { 0nat });
            assert(before + repeat(STROKE, 0) == before);
            assert(out@ == before + gap + repeat(STROKE, w) + repeat(STROKE, 2));
            assert(out@ == before + gap + repeat(STROKE, w + 2));
            assert(out@ == old(out)@ + seq![left] + (strokes(all, j as nat) + gap + repeat(
                STROKE,
                w + 2,
            )));
        }
        j += 1;
    }
    out.push(right);
    out.push('\n');
    proof {
        assert(out@ == old(out)@ + rule(all, left, right));
    }
}

/// The grid of `strips`: a rule, the names, a rule, the rows and a rule. The
/// first strip decides how many rows there are.
pub fn draw(strips: &Vec<Strip>) -> (text: String)
    requires
        strips@.len() > 0,
    ensures
        text@ == grid(strip_views(strips@)),
{
    let ghost all = strip_views(strips@);
    let mut widths: Vec<usize> = Vec::new();
    let mut j: usize = 0;
    while j < strips.len()
        invariant
            j <= strips.len(),
            widths@.len() == j,
            forall|k: int| 0 <= k < j ==> widths@[k] == strips@[k]@.width(),
        decreases strips.len() - j,
    {
        widths.push(strips[j].width());
        j += 1;
    }
    let mut out = String::new();
    push_rule(&mut out, strips, &widths, TOP_LEFT, TOP_RIGHT);
    let ghost top = out@;
    j = 0;
    proof {
        assert(top + names(all, 0) == top);
    }
    while j < strips.len()
        invariant
            j <= strips.len(),
            all == strip_views(strips@),
            widths@.len() == strips@.len(),
            forall|k: int| 0 <= k < strips@.len() ==> widths@[k] == strips@[k]@.width(),
            out@ == top + names(all, j as nat),
        decreases strips.len() - j,
    {
        let ghost before = out@;
        if j > 0 {
            out.push(BAR);
        }
        push_boxed(&mut out, strips[j].name.as_str(), widths[j], false);
        proof {
            let gap = if j > 0 {
                seq![BAR]
            } else {
                Seq::<char>::empty()
            };
            let name = boxed(all[j as int].name, all[j as int].width(), false);
            assert(before + Seq::<char>::empty() == before);
            assert(before.push(BAR) == before + seq![BAR]);
            assert(out@ == before + gap + name);
            assert(out@ == top + (names(all, j as nat) + gap + name));
        }
        j += 1;
    }
    out.push('\n');
    push_rule(&mut out, strips, &widths, TEE_LEFT, TEE_RIGHT);
    let ghost head = out@;
    let row_count = strips[0].cells.len();
    let mut r: usize = 0;
    proof {
        assert(head == top + names(all, all.len()) + seq!['\n'] + rule(all, TEE_LEFT, TEE_RIGHT));
        assert(head + rows(all, 0) == head);
        assert(all[0].cells.len() == row_count);
    }
    while r < row_count
        invariant
            r <= row_count,
            strips@.len() > 0,
            all == strip_views(strips@),
            widths@.len() == strips@.len(),
            forall|k: int| 0 <= k < strips@.len() ==> widths@[k] == strips@[k]@.width(),
            out@ == head + rows(all, r as nat),
        decreases row_count - r,
    {
        let ghost start = out@;
        j = 0;
        proof {
            assert(start + entries(all, r as int, 0) == start);
        }
        while j < strips.len()
            invariant
                j <= strips.len(),
                all == strip_views(strips@),
                widths@.len() == strips@.len(),
                forall|k: int| 0 <= k < strips@.len() ==> widths@[k] == strips@[k]@.width(),
                out@ == start + entries(all, r as int, j as nat),
            decreases strips.len() - j,
        {
            let ghost before = out@;
            if j > 0 {
                out.push(BAR);
            }
            let strip = &strips[j];
            if r < strip.cells.len() {
                let cell = &strip.cells[r];
                push_boxed(&mut out, cell.text.as_str(), widths[j], cell.flush_right);
            }
            proof {
                let gap = if j > 0 {
                    seq![BAR]
                } else {
                    Seq::<char>::empty()
                };
                let shown = all[j as int];
                let entry = if 0 <= r < shown.cells.len() {
                    boxed(shown.cells[r as int].text, shown.width(), shown.cells[r as int].flush_right)
                } else {
                    Seq::<char>::empty()
                };
                assert(shown.cells.len() == strip.cells@.len());
                if r < strip.cells.len() {
                    assert(shown.cells[r as int] == strip.cells@[r as int]@);
                }
                assert(before + Seq::<char>::empty() == before);
                assert(before.push(BAR) == before + seq![BAR]);
                assert(out@ == before + gap + entry);
                assert(out@ == start + (entries(all, r as int, j as nat) + gap + entry));
            }
            j += 1;
        }
        out.push('\n');
        proof {
            assert(out@ == head + (rows(all, r as nat) + entries(all, r as int, all.len())
                + seq!['\n']));
        }
        r += 1;
    }
    push_rule(&mut out, strips, &widths, BOTTOM_LEFT, BOTTOM_RIGHT);
    proof {
        assert(out@ == grid(all));
    }
    out
}

/// Whether `cell` shows `value`, with numbers written by `format_number`.
///
/// A text is shown as it is, flush left. A number as `format_number` writes
/// it, a boolean as `true` or `false` and the absent value as nothing stand
/// flush right.
pub open spec fn shows<F: Fn(u64) -> String>(format_number: &F, value: Value, cell: CellView) -> bool {
    match value {
        Value::Number(bits) => cell.flush_right && exists|written: String|
            {
                &&& #[trigger] call_ensures(format_number, (bits,), written)
                &&& written@ == cell.text
            },
        Value::Text(text) => !cell.flush_right && cell.text == text@,
        Value::Boolean(b) => cell.flush_right && cell.text == if b {
            "true"@
        } else {
            "false"@
        },
        Value::Null => cell.flush_right && cell.text == Seq::<char>::empty(),
    }
}

/// Whether `cells` show `values`, one by one.
pub open spec fn shows_column<F: Fn(u64) -> String>(
    format_number: &F,
    values: Seq<Value>,
    cells: Seq<CellView>,
) -> bool {
    &&& cells.len() == values.len()
    &&& forall|r: int|
        0 <= r < values.len() ==> shows(format_number, #[trigger] values[r], cells[r])
}

/// The names of `strips`.
pub open spec fn strip_names(strips: Seq<StripView>) -> Seq<Seq<char>> {
    strips.map_values(|s: StripView| s.name)
}

/// The cell that shows `value`.
pub fn show<F: Fn(u64) -> String>(value: &Value, format_number: &F) -> (cell: Cell)
    requires
        forall|bits: u64| call_requires(format_number, (bits,)),
    ensures
        shows(format_number, *value, cell@),
{
    match value {
        Value::Number(bits) => Cell { text: format_number(*bits), flush_right: true },
        Value::Text(text) => Cell { text: text.clone(), flush_right: false },
        Value::Boolean(b) => Cell {
            text: if *b {
                "true".to_owned()
            } else {
                "false".to_owned()
            },
            flush_right: true,
        },
        Value::Null => Cell { text: String::new(), flush_right: true },
    }
}

/// The cells that show `values`, one by one.
pub fn show_column<F: Fn(u64) -> String>(values: &Vec<Value>, format_number: &F) -> (cells: Vec<
    Cell,
>)
    requires
        forall|bits: u64| call_requires(format_number, (bits,)),
    ensures
        shows_column(format_number, values@, cells@.map_values(|c: Cell| c@)),
{
    let mut cells: Vec<Cell> = Vec::new();
    let mut r: usize = 0;
    while r < values.len()
        invariant
            r <= values@.len(),
            cells@.len() == r,
            forall|bits: u64| call_requires(format_number, (bits,)),
            forall|q: int|
                0 <= q < r ==> shows(format_number, #[trigger] values@[q], cells@[q]@),
        decreases values@.len() - r,
    {
        cells.push(show(&values[r], format_number));
        r += 1;
    }
    cells
}

impl Table {
    /// Whether `strips` show this table: one strip for each column, in the
    /// order of their names, each showing the values of its column.
    pub open spec fn shown_as<F: Fn(u64) -> String>(
        &self,
        format_number: &F,
        strips: Seq<StripView>,
    ) -> bool {
        &&& ascending(strip_names(strips))
        &&& forall|name: Seq<char>| self@.contains_key(name) <==> strip_names(strips).contains(name)
        &&& forall|j: int|
            0 <= j < strips.len() ==> shows_column(
                format_number,
                self@[(#[trigger] strips[j]).name],
                strips[j].cells,
            )
    }

    /// The table as a grid of text, with numbers written by `format_number`.
    ///
    /// The columns stand in the order of their names, and the grid has as
    /// many rows as the first of them has values. A table without columns
    /// has no grid.
    pub fn render<F: Fn(u64) -> String>(&self, format_number: &F) -> (text: String)
        requires
            exists|name: Seq<char>| self@.contains_key(name),
            forall|bits: u64| call_requires(format_number, (bits,)),
        ensures
            exists|strips: Seq<StripView>|
                {
                    &&& self.shown_as(format_number, strips)
                    &&& text@ == #[trigger] grid(strips)
                },
    {
        let names = self.column_names();
        let mut strips: Vec<Strip> = Vec::new();
        let mut j: usize = 0;
        while j < names.len()
            invariant
                j <= names@.len(),
                strips@.len() == j,
                forall|name: Seq<char>| self@.contains_key(name) <==> texts(names@).contains(name),
                forall|bits: u64| call_requires(format_number, (bits,)),
                forall|k: int| 0 <= k < j ==> (#[trigger] strips@[k])@.name == names@[k]@,
                forall|k: int|
                    0 <= k < j ==> shows_column(
                        format_number,
                        self@[names@[k]@],
                        (#[trigger] strips@[k])@.cells,
                    ),
            decreases names@.len() - j,
        {
            let name = names[j].clone();
            assert(texts(names@)[j as int] == name@);
            let cells = match self.get_column(name.as_str()) {
                Some(values) => show_column(values, format_number),
                None => Vec::new(),
            };
            strips.push(Strip { name, cells });
            j += 1;
        }
        proof {
            let shown = strip_views(strips@);
            assert(strip_names(shown) == texts(names@));
            assert(self.shown_as(format_number, shown));
            let name = choose|name: Seq<char>| self@.contains_key(name);
            assert(texts(names@).contains(name));
        }
        draw(&strips)
    }
}

} // verus!
