//! The lexical units of a formula and the scanner that produces them.
use crate::text::{chars_of, string_between};
use vstd::prelude::*;

verus! {

/// A lexical unit of a formula.
///
/// A number holds its decimal numeral as written: digits with at most one
/// point among, before or after them, such as `12`, `1.5`, `.5` and `5.`.
/// Tokens carry no position and do not nest.
#[derive(Debug, Clone, PartialEq, Eq)]
pub enum DaxToken {
    Function(String),
    Number(String),
    Operator(char),
    Column(String),
    Comma,
    ParenOpen,
    ParenClose,
    Whitespace,
}

/// A token with its text as a sequence of characters.
pub enum TokenView {
    Function(Seq<char>),
    Number(Seq<char>),
    Operator(char),
    Column(Seq<char>),
    Comma,
    ParenOpen,
    ParenClose,
    Whitespace,
}

impl View for DaxToken {
    type V = TokenView;

    open spec fn view(&self) -> TokenView {
        match self {
            DaxToken::Function(name) => TokenView::Function(name@),
            DaxToken::Number(numeral) => TokenView::Number(numeral@),
            DaxToken::Operator(c) => TokenView::Operator(*c),
            DaxToken::Column(name) => TokenView::Column(name@),
            DaxToken::Comma => TokenView::Comma,
            DaxToken::ParenOpen => TokenView::ParenOpen,
            DaxToken::ParenClose => TokenView::ParenClose,
            DaxToken::Whitespace => TokenView::Whitespace,
        }
    }
}

impl TokenView {
    /// The token as text: a name or a numeral as it stands, a sign as
    /// itself, a blank as one space.
    pub open spec fn text(self) -> Seq<char> {
        match self {
            TokenView::Function(name) => name,
            TokenView::Number(numeral) => numeral,
            TokenView::Operator(c) => seq![c],
            TokenView::Column(name) => name,
            TokenView::Comma => ","@,
            TokenView::ParenOpen => "("@,
            TokenView::ParenClose => ")"@,
            TokenView::Whitespace => " "@,
        }
    }
}

impl DaxToken {
    /// The token as text: a name or a numeral as it stands, a sign as
    /// itself, a blank as one space. A column name comes without brackets.
    pub fn text(&self) -> (text: String)
        ensures
            text@ == self@.text(),
    {
        match self {
            DaxToken::Function(name) => name.clone(),
            DaxToken::Number(numeral) => numeral.clone(),
            DaxToken::Operator(c) => {
                let mut text = String::new();
                text.push(*c);
                text
            },
            DaxToken::Column(name) => name.clone(),
            DaxToken::Comma => ",".to_owned(),
            DaxToken::ParenOpen => "(".to_owned(),
            DaxToken::ParenClose => ")".to_owned(),
            DaxToken::Whitespace => " ".to_owned(),
        }
    }
}

/// The views of a sequence of tokens.
pub open spec fn views(tokens: Seq<DaxToken>) -> Seq<TokenView> {
    tokens.map_values(|t: DaxToken| t@)
}

/// Whether `c` has the Alphabetic property of Unicode, by the tables that the
/// standard library holds.
pub uninterp spec fn alphabetic(c: char) -> bool;

/// `char::is_alphabetic` tells whether the character has the Alphabetic
/// property of Unicode. The answer depends on the character alone.
pub assume_specification[ char::is_alphabetic ](c: char) -> (r: bool)
    ensures
        r == alphabetic(c),
;

/// A decimal digit.
pub open spec fn digit(c: char) -> bool {
    '0' <= c <= '9'
}

/// A letter of the Latin alphabet without diacritics, in either case.
pub open spec fn letter(c: char) -> bool {
    ('A' <= c <= 'Z') || ('a' <= c <= 'z')
}

/// One of the four arithmetic signs.
pub open spec fn operator(c: char) -> bool {
    c == '+' || c == '-' || c == '*' || c == '/'
}

/// A space, a tab, a line feed or a carriage return.
pub open spec fn blank(c: char) -> bool {
    c == ' ' || c == '\t' || c == '\n' || c == '\r'
}

/// The kinds of character that a token of several characters is made of.
#[derive(Clone, Copy, Debug)]
pub enum Run {
    /// Digits and points: the body of a numeral.
    Numeral,
    /// Anything but a closing bracket: the body of a column name.
    Name,
    /// Alphabetic characters: the body of a function name. Of the characters
    /// of ASCII these are the letters; beyond ASCII, those that Unicode calls
    /// alphabetic.
    Word,
}

impl Run {
    /// Whether `c` may continue a run of this kind.
    pub open spec fn admits(self, c: char) -> bool {
        match self {
            Run::Numeral => digit(c) || c == '.',
            Run::Name => c != ']',
            Run::Word => if c <= '\x7f' {
                letter(c)
            } else {
                alphabetic(c)
            },
        }
    }

    /// The length of the longest prefix of `s` made of characters that this
    /// kind admits.
    pub open spec fn len(self, s: Seq<char>) -> nat
        decreases s.len(),
    {
        if s.len() > 0 && self.admits(s[0]) {
            1 + self.len(s.drop_first())
        } else {
            0
        }
    }

    fn contains(self, c: char) -> (r: bool)
        ensures
            r == self.admits(c),
    {
        match self {
            Run::Numeral => ('0' <= c && c <= '9') || c == '.',
            Run::Name => c != ']',
            Run::Word => if c <= '\x7f' {
                ('A' <= c && c <= 'Z') || ('a' <= c && c <= 'z')
            } else {
                c.is_alphabetic()
            },
        }
    }
}

/// The number of points in `s`.
pub open spec fn points(s: Seq<char>) -> nat
    decreases s.len(),
{
    if s.len() == 0 {
        0
    } else {
        points(s.drop_last()) + if s.last() == '.' {
            1nat
        } else {
            0nat
        }
    }
}

/// Whether a run of digits and points reads as a number: it holds at most
/// one point and at least one digit.
pub open spec fn reads_as_number(run: Seq<char>) -> bool {
    &&& points(run) <= 1
    &&& exists|i: int| 0 <= i < run.len() && digit(#[trigger] run[i])
}

/// What the scanner does at the head of a non-empty input: the token it
/// emits, if any, and the number of characters it passes over.
pub struct Step {
    pub token: Option<TokenView>,
    pub consumed: nat,
}

/// The step taken at the head of `s`, which must not be empty.
///
/// - A digit or a point starts a run of digits and points, taken as long as
///   it goes. The run is a number token when it reads as a number, and is
///   dropped otherwise: a run with two points, and a point alone.
/// - An opening bracket starts a column name, which runs up to the next
///   closing bracket or, if there is none, to the end of the input. Neither
///   bracket belongs to the name.
/// - Parentheses, the comma, the arithmetic signs and blanks are tokens of
///   one character.
/// - A letter starts a function name: the letter and the longest run of
///   alphabetic characters after it.
/// - Any other character is passed over.
pub open spec fn scan(s: Seq<char>) -> Step
    recommends
        s.len() > 0,
{
    let c = s[0];
    let rest = s.drop_first();
    if digit(c) || c == '.' {
        let n = 1 + Run::Numeral.len(rest);
        let numeral = s.take(n as int);
        Step {
            token: if reads_as_number(numeral) {
                Some(TokenView::Number(numeral))
            } else {
                None
            },
            consumed: n,
        }
    } else if c == '[' {
        let n = Run::Name.len(rest);
        Step {
            token: Some(TokenView::Column(rest.take(n as int))),
            consumed: if n < rest.len() {
                n + 2
            } else {
                n + 1
            },
        }
    } else if c == '(' {
        Step { token: Some(TokenView::ParenOpen), consumed: 1 }
    } else if c == ')' {
        Step { token: Some(TokenView::ParenClose), consumed: 1 }
    } else if c == ',' {
        Step { token: Some(TokenView::Comma), consumed: 1 }
    } else if operator(c) {
        Step { token: Some(TokenView::Operator(c)), consumed: 1 }
    } else if blank(c) {
        Step { token: Some(TokenView::Whitespace), consumed: 1 }
    } else if letter(c) {
        let n = 1 + Run::Word.len(rest);
        Step { token: Some(TokenView::Function(s.take(n as int))), consumed: n }
    } else {
        Step { token: None, consumed: 1 }
    }
}

/// The tokens of `s`: the scanner's steps from left to right, each starting
/// where the one before it stopped.
pub open spec fn lex(s: Seq<char>) -> Seq<TokenView>
    decreases s.len(),
{
    if s.len() == 0 {
        Seq::empty()
    } else {
        let step = scan(s);
        proof {
            scan_advances(s);
        }
        let rest = lex(s.skip(step.consumed as int));
        match step.token {
            Some(token) => seq![token] + rest,
            None => rest,
        }
    }
}

/// A run is no longer than the sequence it is taken from.
pub proof fn run_fits(run: Run, s: Seq<char>)
    ensures
        run.len(s) <= s.len(),
    decreases s.len(),
{
    if s.len() > 0 && run.admits(s[0]) {
        run_fits(run, s.drop_first());
    }
}

/// Every step passes over at least one character and never more than there
/// are.
pub proof fn scan_advances(s: Seq<char>)
    requires
        s.len() > 0,
    ensures
        1 <= scan(s).consumed <= s.len(),
{
    run_fits(Run::Numeral, s.drop_first());
    run_fits(Run::Name, s.drop_first());
    run_fits(Run::Word, s.drop_first());
}

/// Every character of a run is one that its kind admits, and the character
/// after the run, if there is one, is not.
pub proof fn run_is_longest(run: Run, s: Seq<char>)
    ensures
        forall|i: int| 0 <= i < run.len(s) ==> run.admits(#[trigger] s[i]),
        run.len(s) < s.len() ==> !run.admits(s[run.len(s) as int]),
    decreases s.len(),
{
    run_fits(run, s);
    if s.len() > 0 && run.admits(s[0]) {
        let rest = s.drop_first();
        run_is_longest(run, rest);
        run_fits(run, rest);
        assert forall|i: int| 0 <= i < run.len(s) implies run.admits(#[trigger] s[i]) by {
            if i > 0 {
                assert(rest[i - 1] == s[i]);
            }
        }
        if run.len(s) < s.len() {
            assert(rest[run.len(rest) as int] == s[run.len(s) as int]);
        }
    }
}

impl TokenView {
    /// What holds of every token that the scanner emits: a numeral is made
    /// of digits and points and reads as a number; a function name starts
    /// with a letter and goes on with alphabetic characters; a column name
    /// holds no closing bracket; an operator is one of the four signs.
    pub open spec fn well_formed(self) -> bool {
        match self {
            TokenView::Number(numeral) => {
                &&& forall|i: int|
                    0 <= i < numeral.len() ==> digit(#[trigger] numeral[i]) || numeral[i] == '.'
                &&& reads_as_number(numeral)
            },
            TokenView::Function(name) => {
                &&& name.len() > 0
                &&& letter(name[0])
                &&& forall|i: int| 1 <= i < name.len() ==> Run::Word.admits(#[trigger] name[i])
            },
            TokenView::Column(name) => forall|i: int|
                0 <= i < name.len() ==> #[trigger] name[i] != ']',
            TokenView::Operator(c) => operator(c),
            _ => true,
        }
    }
}

/// The token of a step, if it emits one, is well formed.
pub proof fn scan_emits_well_formed(s: Seq<char>)
    requires
        s.len() > 0,
    ensures
        match scan(s).token {
            Some(token) => token.well_formed(),
            None => true,
        },
{
    let rest = s.drop_first();
    run_fits(Run::Numeral, rest);
    run_fits(Run::Name, rest);
    run_fits(Run::Word, rest);
    run_is_longest(Run::Numeral, rest);
    run_is_longest(Run::Name, rest);
    run_is_longest(Run::Word, rest);
    assert forall|i: int| 1 <= i < s.len() implies s[i] == rest[i - 1] by {}
    match scan(s).token {
        Some(TokenView::Number(numeral)) => {
            assert forall|i: int| 0 <= i < numeral.len() implies digit(#[trigger] numeral[i])
                || numeral[i] == '.' by {
                if i > 0 {
                    assert(Run::Numeral.admits(rest[i - 1]));
                }
            }
        },
        Some(TokenView::Function(name)) => {
            assert forall|i: int| 1 <= i < name.len() implies Run::Word.admits(
                #[trigger] name[i],
            ) by {
                assert(Run::Word.admits(rest[i - 1]));
            }
        },
        Some(TokenView::Column(name)) => {
            assert forall|i: int| 0 <= i < name.len() implies #[trigger] name[i] != ']' by {
                assert(Run::Name.admits(rest[i]));
            }
        },
        _ => {},
    }
}

/// Every token of a formula is well formed.
pub proof fn lex_emits_well_formed(s: Seq<char>)
    ensures
        forall|i: int| 0 <= i < lex(s).len() ==> (#[trigger] lex(s)[i]).well_formed(),
    decreases s.len(),
{
    if s.len() > 0 {
        scan_advances(s);
        scan_emits_well_formed(s);
        let rest = lex(s.skip(scan(s).consumed as int));
        lex_emits_well_formed(s.skip(scan(s).consumed as int));
        assert forall|i: int| 0 <= i < lex(s).len() implies (#[trigger] lex(s)[i]).well_formed() by {
            match scan(s).token {
                Some(token) => {
                    if i > 0 {
                        assert(lex(s)[i] == rest[i - 1]);
                    }
                },
                None => {},
            }
        }
    }
}

/// A formula has no more tokens than characters.
pub proof fn lex_is_no_longer_than_its_input(s: Seq<char>)
    ensures
        lex(s).len() <= s.len(),
    decreases s.len(),
{
    if s.len() > 0 {
        scan_advances(s);
        lex_is_no_longer_than_its_input(s.skip(scan(s).consumed as int));
    }
}

/// The run of `run` that starts at `start` ends just before the position
/// returned.
fn run_end(chars: &Vec<char>, start: usize, run: Run) -> (end: usize)
    requires
        start <= chars.len(),
    ensures
        start <= end <= chars.len(),
        end - start == run.len(chars@.skip(start as int)),
{
    let mut end: usize = start;
    while end < chars.len() && run.contains(chars[end])
        invariant
            start <= end <= chars.len(),
            run.len(chars@.skip(start as int)) == (end - start) + run.len(
                chars@.skip(end as int),
            ),
        decreases chars.len() - end,
    {
        proof {
            assert(chars@.skip(end as int).drop_first() == chars@.skip(end + 1));
        }
        end += 1;
    }
    proof {
        if end < chars.len() {
            assert(chars@.skip(end as int)[0] == chars@[end as int]);
        }
    }
    end
}

/// Whether `chars[from..to]` reads as a number.
fn run_reads_as_number(chars: &Vec<char>, from: usize, to: usize) -> (r: bool)
    requires
        from <= to <= chars.len(),
    ensures
        r == reads_as_number(chars@.subrange(from as int, to as int)),
{
    let ghost run = chars@.subrange(from as int, to as int);
    let mut seen: usize = 0;
    let mut digit_met = false;
    let mut i: usize = from;
    while i < to
        invariant
            from <= i <= to <= chars.len(),
            run == chars@.subrange(from as int, to as int),
            seen == points(chars@.subrange(from as int, i as int)),
            seen <= i - from,
            digit_met <==> exists|k: int| 0 <= k < i - from && digit(#[trigger] run[k]),
        decreases to - i,
    {
        proof {
            assert(chars@.subrange(from as int, i + 1).drop_last() == chars@.subrange(
                from as int,
                i as int,
            ));
            assert(run[i - from] == chars@[i as int]);
        }
        if chars[i] == '.' {
            seen += 1;
        }
        if '0' <= chars[i] && chars[i] <= '9' {
            digit_met = true;
        }
        i += 1;
    }
    seen <= 1 && digit_met
}

/// Splits a formula into its tokens.
///
/// The scan never fails: what it cannot read it drops, a run of digits with
/// two points for one. Blanks are tokens, one for each character.
pub fn tokenize(input: &str) -> (tokens: Vec<DaxToken>)
    ensures
        views(tokens@) == lex(input@),
{
    let chars = chars_of(input);
    let mut tokens: Vec<DaxToken> = Vec::new();
    let mut i: usize = 0;
    proof {
        assert(chars@.skip(0) == chars@);
        assert(views(tokens@) + lex(chars@) == lex(chars@));
    }
    while i < chars.len()
        invariant
            i <= chars.len(),
            views(tokens@) + lex(chars@.skip(i as int)) == lex(chars@),
        decreases chars.len() - i,
    {
        let ghost here = chars@.skip(i as int);
        let ghost before = tokens@;
        let c = chars[i];
        let mut emitted: Option<DaxToken> = None;
        let next: usize;
        proof {
            scan_advances(here);
            assert(here.drop_first() == chars@.skip(i + 1));
        }
        if ('0' <= c && c <= '9') || c == '.' {
            next = run_end(&chars, i + 1, Run::Numeral);
            proof {
                assert(here.take(next - i) == chars@.subrange(i as int, next as int));
            }
            if run_reads_as_number(&chars, i, next) {
                emitted = Some(DaxToken::Number(string_between(&chars, i, next)));
            }
        } else if c == '[' {
            let close = run_end(&chars, i + 1, Run::Name);
            proof {
                assert(here.drop_first().take(close - (i + 1)) == chars@.subrange(
                    i + 1,
                    close as int,
                ));
            }
            emitted = Some(DaxToken::Column(string_between(&chars, i + 1, close)));
            next = if close < chars.len() {
                close + 1
            } else {
                close
            };
        } else if c == '(' {
            emitted = Some(DaxToken::ParenOpen);
            next = i + 1;
        } else if c == ')' {
            emitted = Some(DaxToken::ParenClose);
            next = i + 1;
        } else if c == ',' {
            emitted = Some(DaxToken::Comma);
            next = i + 1;
        } else if c == '+' || c == '-' || c == '*' || c == '/' {
            emitted = Some(DaxToken::Operator(c));
            next = i + 1;
        } else if c == ' ' || c == '\t' || c == '\n' || c == '\r' {
            emitted = Some(DaxToken::Whitespace);
            next = i + 1;
        } else if ('A' <= c && c <= 'Z') || ('a' <= c && c <= 'z') {
            next = run_end(&chars, i + 1, Run::Word);
            proof {
                assert(here.take(next - i) == chars@.subrange(i as int, next as int));
            }
            emitted = Some(DaxToken::Function(string_between(&chars, i, next)));
        } else {
            next = i + 1;
        }
        proof {
            assert(next - i == scan(here).consumed);
            assert(here.skip(next - i) == chars@.skip(next as int));
        }
        match emitted {
            Some(token) => {
                proof {
                    assert(scan(here).token == Some(token@));
                    assert(views(before.push(token)) == views(before) + seq![token@]);
                }
                tokens.push(token);
            },
            None => {
                proof {
                    assert(scan(here).token is None);
                }
            },
        }
        proof {
            let rest = lex(chars@.skip(next as int));
            assert(lex(here) == match scan(here).token {
                Some(token) => seq![token] + rest,
                None => rest,
            });
            assert(views(tokens@) + rest == views(before) + lex(here));
        }
        i = next;
    }
    proof {
        assert(views(tokens@) + Seq::<TokenView>::empty() == views(tokens@));
    }
    tokens
}

} // verus!
