//! Evaluation of a formula against a table.
//!
//! A formula is read in one pass over its tokens. The first function name
//! decides: if it names an aggregate, the first column after it is the
//! argument and everything else is ignored; if it does not, the formula is
//! refused. Operators, numbers and further calls are never looked at, so
//! `SUM([A]) / SUM([B])` is the sum of `A`.
use crate::aggregate::{averages_to, classes, greatest, least, numbers, sums_to};
use crate::number::{count_bits, from_count, is_zero, zero};
use crate::table::Table;
use crate::text::{joined, reads};
use crate::token::{lex, tokenize, views, DaxToken, TokenView};
use vstd::prelude::*;
use vstd::string::StringExecFns;

verus! {

/// An aggregate that a formula can call.
#[derive(Debug, Clone, Copy, PartialEq, Eq, Structural)]
pub enum Aggregate {
    Sum,
    Average,
    Min,
    Max,
    DistinctCount,
}

impl Aggregate {
    /// The name by which a formula calls this aggregate.
    pub open spec fn name(self) -> Seq<char> {
        match self {
            Aggregate::Sum => "SUM"@,
            Aggregate::Average => "AVERAGE"@,
            Aggregate::Min => "MIN"@,
            Aggregate::Max => "MAX"@,
            Aggregate::DistinctCount => "DISTINCTCOUNT"@,
        }
    }

    /// The aggregate that `name` calls, if it calls one. Names are matched as
    /// written, in upper case.
    pub open spec fn named(name: Seq<char>) -> Option<Aggregate> {
        if name == "SUM"@ {
            Some(Aggregate::Sum)
        } else if name == "AVERAGE"@ {
            Some(Aggregate::Average)
        } else if name == "MIN"@ {
            Some(Aggregate::Min)
        } else if name == "MAX"@ {
            Some(Aggregate::Max)
        } else if name == "DISTINCTCOUNT"@ {
            Some(Aggregate::DistinctCount)
        } else {
            None
        }
    }

    /// The name by which a formula calls this aggregate.
    pub fn as_str(self) -> (name: &'static str)
        ensures
            name@ == self.name(),
    {
        match self {
            Aggregate::Sum => "SUM",
            Aggregate::Average => "AVERAGE",
            Aggregate::Min => "MIN",
            Aggregate::Max => "MAX",
            Aggregate::DistinctCount => "DISTINCTCOUNT",
        }
    }

    /// The aggregate that `name` calls, if it calls one.
    pub fn recognize(name: &String) -> (found: Option<Aggregate>)
        ensures
            found == Aggregate::named(name@),
    {
        if reads(name, "SUM") {
            Some(Aggregate::Sum)
        } else if reads(name, "AVERAGE") {
            Some(Aggregate::Average)
        } else if reads(name, "MIN") {
            Some(Aggregate::Min)
        } else if reads(name, "MAX") {
            Some(Aggregate::Max)
        } else if reads(name, "DISTINCTCOUNT") {
            Some(Aggregate::DistinctCount)
        } else {
            None
        }
    }
}

/// What a formula asks for.
#[derive(Debug, Clone, PartialEq, Eq)]
pub enum Plan {
    /// An aggregate over the column of this name.
    Call(Aggregate, String),
    /// A function of this name, which is not an aggregate.
    Unsupported(String),
    /// Nothing that can be evaluated.
    Invalid,
}

/// A plan with its texts as sequences of characters.
pub enum PlanView {
    Call(Aggregate, Seq<char>),
    Unsupported(Seq<char>),
    Invalid,
}

impl View for Plan {
    type V = PlanView;

    open spec fn view(&self) -> PlanView {
        match self {
            Plan::Call(aggregate, column) => PlanView::Call(*aggregate, column@),
            Plan::Unsupported(name) => PlanView::Unsupported(name@),
            Plan::Invalid => PlanView::Invalid,
        }
    }
}

/// The outcome of an evaluation. A number is held as its bit pattern.
#[derive(Debug, Clone, PartialEq, Eq)]
pub enum DaxResult {
    Number(u64),
    Text(String),
    Boolean(bool),
    Error(String),
}

/// An outcome with its texts as sequences of characters.
pub enum Outcome {
    Number(u64),
    Text(Seq<char>),
    Boolean(bool),
    Error(Seq<char>),
}

impl View for DaxResult {
    type V = Outcome;

    open spec fn view(&self) -> Outcome {
        match self {
            DaxResult::Number(bits) => Outcome::Number(*bits),
            DaxResult::Text(text) => Outcome::Text(text@),
            DaxResult::Boolean(b) => Outcome::Boolean(*b),
            DaxResult::Error(message) => Outcome::Error(message@),
        }
    }
}

/// The position of the first function name at or after `from`.
pub open spec fn next_function(tokens: Seq<TokenView>, from: int) -> Option<int>
    decreases tokens.len() - from,
{
    if from < 0 || from >= tokens.len() {
        None
    } else if tokens[from] is Function {
        Some(from)
    } else {
        next_function(tokens, from + 1)
    }
}

/// The position of the first column name at or after `from`.
pub open spec fn next_column(tokens: Seq<TokenView>, from: int) -> Option<int>
    decreases tokens.len() - from,
{
    if from < 0 || from >= tokens.len() {
        None
    } else if tokens[from] is Column {
        Some(from)
    } else {
        next_column(tokens, from + 1)
    }
}

/// What the tokens of a formula ask for.
///
/// Without a function name there is nothing to evaluate. The first function
/// name must call an aggregate, else the formula is unsupported. The
/// aggregate's argument is the first column after its name; without one
/// there is nothing to evaluate.
pub open spec fn plan_of(tokens: Seq<TokenView>) -> PlanView {
    match next_function(tokens, 0) {
        None => PlanView::Invalid,
        Some(f) => match Aggregate::named(tokens[f]->Function_0) {
            None => PlanView::Unsupported(tokens[f]->Function_0),
            Some(aggregate) => match next_column(tokens, f + 1) {
                None => PlanView::Invalid,
                Some(c) => PlanView::Call(aggregate, tokens[c]->Column_0),
            },
        },
    }
}

/// The message for an aggregate that gave no result for a column.
pub open spec fn could_not_calculate(aggregate: Aggregate, column: Seq<char>) -> Seq<char> {
    "Could not calculate "@ + aggregate.name() + " for column "@ + column
}

/// The message for a function name that calls no aggregate.
pub open spec fn unsupported_function(name: Seq<char>) -> Seq<char> {
    "Unsupported function: "@ + name
}

/// The message for a formula that asks for nothing.
pub open spec fn invalid_expression() -> Seq<char> {
    "Invalid or unsupported DAX expression"@
}

impl Table {
    /// Whether `outcome` can come out of carrying out `plan` on this table,
    /// with sums formed by `adder` and quotients by `divider`.
    ///
    /// Apart from the rounding of a sum and of an average the outcome is
    /// determined: an aggregate over a column that the table lacks, and an
    /// extreme of a column without numbers, give the message that names the
    /// aggregate and the column.
    pub open spec fn carries_out<A: Fn(u64, u64) -> u64, D: Fn(u64, u64) -> u64>(
        &self,
        plan: PlanView,
        adder: &A,
        divider: &D,
        outcome: Outcome,
    ) -> bool {
        match plan {
            PlanView::Invalid => outcome == Outcome::Error(invalid_expression()),
            PlanView::Unsupported(name) => outcome == Outcome::Error(unsupported_function(name)),
            PlanView::Call(aggregate, column) => match self.column(column) {
                None => outcome == Outcome::Error(could_not_calculate(aggregate, column)),
                Some(values) => match aggregate {
                    Aggregate::Sum => outcome is Number && sums_to(
                        adder,
                        numbers(values),
                        outcome->Number_0,
                    ),
                    Aggregate::Average => outcome is Number && averages_to(
                        adder,
                        divider,
                        numbers(values),
                        outcome->Number_0,
                    ),
                    Aggregate::Min => outcome == match least(numbers(values)) {
                        Some(bits) => Outcome::Number(bits),
                        None => Outcome::Error(could_not_calculate(aggregate, column)),
                    },
                    Aggregate::Max => outcome == match greatest(numbers(values)) {
                        Some(bits) => Outcome::Number(bits),
                        None => Outcome::Error(could_not_calculate(aggregate, column)),
                    },
                    Aggregate::DistinctCount => outcome == Outcome::Number(
                        count_bits(classes(values).len()) as u64,
                    ),
                },
            },
        }
    }
}

impl Table {
    /// Whether `result` can come out of dividing the first of `args` by the
    /// second, each evaluated as a formula of its own from its text.
    ///
    /// Two or three arguments are taken. The numerator is evaluated first and
    /// must give a number, then the denominator. A denominator that is a zero
    /// of either sign yields the third argument, which must then give a
    /// number, or the error of a division by zero where there is no third.
    /// Otherwise the result is the quotient formed by `divider`.
    pub open spec fn carries_out_division<A: Fn(u64, u64) -> u64, D: Fn(u64, u64) -> u64>(
        &self,
        args: Seq<TokenView>,
        adder: &A,
        divider: &D,
        result: Result<DaxResult, String>,
    ) -> bool {
        if args.len() < 2 || args.len() > 3 {
            result is Err && result->Err_0@ == "DIVIDE requires 2 or 3 arguments"@
        } else {
            exists|numerator: Outcome|
                {
                    &&& #[trigger] self.carries_out(
                        plan_of(lex(args[0].text())),
                        adder,
                        divider,
                        numerator,
                    )
                    &&& if numerator is Number {
                        self.divides(args, adder, divider, numerator->Number_0, result)
                    } else {
                        result is Err && result->Err_0@ == "Numerator must be a number"@
                    }
                }
        }
    }

    /// Whether `result` can come out of the division once the numerator is
    /// known.
    pub open spec fn divides<A: Fn(u64, u64) -> u64, D: Fn(u64, u64) -> u64>(
        &self,
        args: Seq<TokenView>,
        adder: &A,
        divider: &D,
        numerator: u64,
        result: Result<DaxResult, String>,
    ) -> bool
        recommends
            2 <= args.len() <= 3,
    {
        exists|denominator: Outcome|
            {
                &&& #[trigger] self.carries_out(
                    plan_of(lex(args[1].text())),
                    adder,
                    divider,
                    denominator,
                )
                &&& if !(denominator is Number) {
                    result is Err && result->Err_0@ == "Denominator must be a number"@
                } else if !zero(denominator->Number_0) {
                    &&& result is Ok
                    &&& result->Ok_0 is Number
                    &&& call_ensures(
                        divider,
                        (numerator, denominator->Number_0),
                        result->Ok_0->Number_0,
                    )
                } else if args.len() == 3 {
                    self.falls_back(args, adder, divider, result)
                } else {
                    result is Err && result->Err_0@ == "Division by zero"@
                }
            }
    }

    /// Whether `result` can come out of a division by zero that has a third
    /// argument to fall back on.
    pub open spec fn falls_back<A: Fn(u64, u64) -> u64, D: Fn(u64, u64) -> u64>(
        &self,
        args: Seq<TokenView>,
        adder: &A,
        divider: &D,
        result: Result<DaxResult, String>,
    ) -> bool
        recommends
            args.len() == 3,
    {
        exists|alternate: Outcome|
            {
                &&& #[trigger] self.carries_out(
                    plan_of(lex(args[2].text())),
                    adder,
                    divider,
                    alternate,
                )
                &&& if alternate is Number {
                    result is Ok && result->Ok_0@ == alternate
                } else {
                    result is Err && result->Err_0@ == "Alternate result must be a number"@
                }
            }
    }
}

/// What the tokens of a formula ask for.
pub fn plan(tokens: &Vec<DaxToken>) -> (p: Plan)
    ensures
        p@ == plan_of(views(tokens@)),
{
    let ghost all = views(tokens@);
    let mut i: usize = 0;
    while i < tokens.len()
        invariant
            i <= tokens.len(),
            all == views(tokens@),
            next_function(all, 0) == next_function(all, i as int),
        decreases tokens.len() - i,
    {
        if let DaxToken::Function(name) = &tokens[i] {
            assert(all[i as int] == TokenView::Function(name@));
            match Aggregate::recognize(name) {
                None => {
                    return Plan::Unsupported(name.clone());
                },
                Some(aggregate) => {
                    let mut j: usize = i + 1;
                    while j < tokens.len()
                        invariant
                            i < j <= tokens.len(),
                            all == views(tokens@),
                            next_function(all, 0) == Some(i as int),
                            Aggregate::named(all[i as int]->Function_0) == Some(aggregate),
                            next_column(all, i + 1) == next_column(all, j as int),
                        decreases tokens.len() - j,
                    {
                        if let DaxToken::Column(column) = &tokens[j] {
                            assert(all[j as int] == TokenView::Column(column@));
                            return Plan::Call(aggregate, column.clone());
                        }
                        assert(!(all[j as int] is Column));
                        j += 1;
                    }
                    return Plan::Invalid;
                },
            }
        }
        assert(!(all[i as int] is Function));
        i += 1;
    }
    Plan::Invalid
}

impl Table {
    /// Carries out `plan` on this table, with sums formed by `adder` and
    /// quotients by `divider`.
    pub fn perform<A: Fn(u64, u64) -> u64, D: Fn(u64, u64) -> u64>(
        &self,
        plan: &Plan,
        adder: &A,
        divider: &D,
    ) -> (result: DaxResult)
        requires
            forall|a: u64, b: u64| call_requires(adder, (a, b)),
            forall|a: u64, b: u64| call_requires(divider, (a, b)),
        ensures
            self.carries_out(plan@, adder, divider, result@),
    {
        match plan {
            Plan::Invalid => DaxResult::Error("Invalid or unsupported DAX expression".to_owned()),
            Plan::Unsupported(name) => DaxResult::Error(
                joined("Unsupported function: ", name.as_str()),
            ),
            Plan::Call(aggregate, column) => {
                let found = match aggregate {
                    Aggregate::Sum => self.sum(column.as_str(), adder),
                    Aggregate::Average => self.average(column.as_str(), adder, divider),
                    Aggregate::Min => self.min(column.as_str()),
                    Aggregate::Max => self.max(column.as_str()),
                    Aggregate::DistinctCount => match self.distinctcount(column.as_str()) {
                        Some(n) => Some(from_count(n)),
                        None => None,
                    },
                };
                match found {
                    Some(bits) => DaxResult::Number(bits),
                    None => {
                        let mut message = joined("Could not calculate ", aggregate.as_str());
                        message.append(" for column ");
                        message.append(column.as_str());
                        DaxResult::Error(message)
                    },
                }
            },
        }
    }

    /// Evaluates a formula against this table, with sums formed by `adder`
    /// and quotients by `divider`.
    ///
    /// Only the first aggregate call of the formula is evaluated; what
    /// follows its column is ignored. Every failure comes back as an error
    /// outcome with its message.
    pub fn evaluate_dax<A: Fn(u64, u64) -> u64, D: Fn(u64, u64) -> u64>(
        &self,
        expression: &str,
        adder: &A,
        divider: &D,
    ) -> (result: DaxResult)
        requires
            forall|a: u64, b: u64| call_requires(adder, (a, b)),
            forall|a: u64, b: u64| call_requires(divider, (a, b)),
        ensures
            self.carries_out(plan_of(lex(expression@)), adder, divider, result@),
    {
        let tokens = tokenize(expression);
        let plan = plan(&tokens);
        self.perform(&plan, adder, divider)
    }
}

impl Table {
    /// Divides the first of `args` by the second, each evaluated as a formula
    /// of its own from its text, with an optional third to fall back on when
    /// the denominator is zero.
    ///
    /// No formula reaches this: `DIVIDE` is not among the aggregates that
    /// [`Table::evaluate_dax`] calls.
    pub fn evaluate_divide<A: Fn(u64, u64) -> u64, D: Fn(u64, u64) -> u64>(
        &self,
        args: &[DaxToken],
        adder: &A,
        divider: &D,
    ) -> (result: Result<DaxResult, String>)
        requires
            forall|a: u64, b: u64| call_requires(adder, (a, b)),
            forall|a: u64, b: u64| call_requires(divider, (a, b)),
        ensures
            self.carries_out_division(views(args@), adder, divider, result),
    {
        if args.len() < 2 || args.len() > 3 {
            return Err("DIVIDE requires 2 or 3 arguments".to_owned());
        }
        let ghost all = views(args@);
        assert(all[0] == args@[0]@ && all[1] == args@[1]@);
        let first = self.evaluate_dax(args[0].text().as_str(), adder, divider);
        let numerator = match first {
            DaxResult::Number(bits) => bits,
            _ => {
                return Err("Numerator must be a number".to_owned());
            },
        };
        let second = self.evaluate_dax(args[1].text().as_str(), adder, divider);
        let denominator = match second {
            DaxResult::Number(bits) => bits,
            _ => {
                let result = Err("Denominator must be a number".to_owned());
                assert(self.divides(all, adder, divider, numerator, result));
                return result;
            },
        };
        if is_zero(denominator) {
            if args.len() == 3 {
                assert(all[2] == args@[2]@);
                let third = self.evaluate_dax(args[2].text().as_str(), adder, divider);
                let result = match third {
                    DaxResult::Number(bits) => Ok(DaxResult::Number(bits)),
                    _ => Err("Alternate result must be a number".to_owned()),
                };
                assert(self.falls_back(all, adder, divider, result));
                assert(self.divides(all, adder, divider, numerator, result));
                result
            } else {
                let result = Err("Division by zero".to_owned());
                assert(self.divides(all, adder, divider, numerator, result));
                result
            }
        } else {
            let result = Ok(DaxResult::Number(divider(numerator, denominator)));
            assert(self.divides(all, adder, divider, numerator, result));
            result
        }
    }
}

/// A value that an evaluation gives. A number is held as its bit pattern.
#[derive(Debug, Clone, PartialEq, Eq)]
pub enum DaxValue {
    Number(u64),
    Text(String),
    Boolean(bool),
}

/// The outcome that a value or a message stands for.
pub open spec fn outcome_of(result: Result<DaxValue, String>) -> Outcome {
    match result {
        Ok(DaxValue::Number(bits)) => Outcome::Number(bits),
        Ok(DaxValue::Text(text)) => Outcome::Text(text@),
        Ok(DaxValue::Boolean(b)) => Outcome::Boolean(b),
        Err(message) => Outcome::Error(message@),
    }
}

/// Evaluates a formula against `table`: the value it gives, or the message
/// of the error outcome.
pub fn eval_dax<A: Fn(u64, u64) -> u64, D: Fn(u64, u64) -> u64>(
    table: &Table,
    dax_expr: &str,
    adder: &A,
    divider: &D,
) -> (result: Result<DaxValue, String>)
    requires
        forall|a: u64, b: u64| call_requires(adder, (a, b)),
        forall|a: u64, b: u64| call_requires(divider, (a, b)),
    ensures
        table.carries_out(plan_of(lex(dax_expr@)), adder, divider, outcome_of(result)),
{
    match table.evaluate_dax(dax_expr, adder, divider) {
        DaxResult::Number(bits) => Ok(DaxValue::Number(bits)),
        DaxResult::Text(text) => Ok(DaxValue::Text(text)),
        DaxResult::Boolean(b) => Ok(DaxValue::Boolean(b)),
        DaxResult::Error(message) => Err(message),
    }
}

/// The first function name at or after `from` stands where it is said to,
/// and no function name stands between `from` and it.
pub proof fn next_function_is_first(tokens: Seq<TokenView>, from: int)
    requires
        0 <= from,
    ensures
        match next_function(tokens, from) {
            Some(f) => from <= f < tokens.len() && tokens[f] is Function && forall|i: int|
                from <= i < f ==> !(#[trigger] tokens[i] is Function),
            None => forall|i: int| from <= i < tokens.len() ==> !(#[trigger] tokens[i] is Function),
        },
    decreases tokens.len() - from,
{
    if from < tokens.len() && !(tokens[from] is Function) {
        next_function_is_first(tokens, from + 1);
    }
}

/// The first column name at or after `from` stands where it is said to, and
/// no column name stands between `from` and it.
pub proof fn next_column_is_first(tokens: Seq<TokenView>, from: int)
    requires
        0 <= from,
    ensures
        match next_column(tokens, from) {
            Some(c) => from <= c < tokens.len() && tokens[c] is Column && forall|i: int|
                from <= i < c ==> !(#[trigger] tokens[i] is Column),
            None => forall|i: int| from <= i < tokens.len() ==> !(#[trigger] tokens[i] is Column),
        },
    decreases tokens.len() - from,
{
    if from < tokens.len() && !(tokens[from] is Column) {
        next_column_is_first(tokens, from + 1);
    }
}

/// A function name that was found is found again, in its place, when tokens
/// are added at the end.
proof fn next_function_ignores_rest(tokens: Seq<TokenView>, more: Seq<TokenView>, from: int)
    requires
        0 <= from,
        next_function(tokens, from) is Some,
    ensures
        next_function(tokens + more, from) == next_function(tokens, from),
    decreases tokens.len() - from,
{
    assert((tokens + more)[from] == tokens[from]);
    if !(tokens[from] is Function) {
        next_function_ignores_rest(tokens, more, from + 1);
    }
}

/// A column name that was found is found again, in its place, when tokens are
/// added at the end.
proof fn next_column_ignores_rest(tokens: Seq<TokenView>, more: Seq<TokenView>, from: int)
    requires
        0 <= from,
        next_column(tokens, from) is Some,
    ensures
        next_column(tokens + more, from) == next_column(tokens, from),
    decreases tokens.len() - from,
{
    assert((tokens + more)[from] == tokens[from]);
    if !(tokens[from] is Column) {
        next_column_ignores_rest(tokens, more, from + 1);
    }
}

/// Only the first call counts. Once the tokens of a formula ask for an
/// aggregate over a column, or name a function that is not supported, no
/// token that follows changes what is asked: an operator and a second call
/// after the first are never looked at.
pub proof fn plan_ignores_what_follows(tokens: Seq<TokenView>, more: Seq<TokenView>)
    requires
        !(plan_of(tokens) is Invalid),
    ensures
        plan_of(tokens + more) == plan_of(tokens),
{
    next_function_is_first(tokens, 0);
    next_function_ignores_rest(tokens, more, 0);
    let f = next_function(tokens, 0)->Some_0;
    assert((tokens + more)[f] == tokens[f]);
    if Aggregate::named(tokens[f]->Function_0) is Some {
        next_column_is_first(tokens, f + 1);
        next_column_ignores_rest(tokens, more, f + 1);
        let c = next_column(tokens, f + 1)->Some_0;
        assert((tokens + more)[c] == tokens[c]);
    }
}

} // verus!
