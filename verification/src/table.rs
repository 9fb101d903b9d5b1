//! The column store.
pub use crate::eval::DaxResult;

use crate::aggregate::{averages_to, classes, greatest, least, numbers, sums_to};
use crate::number::zero;
use crate::text::{
    ascending, chars_of, comes_before, precedes, precedes_is_total, precedes_is_transitive, texts,
};
use crate::types::Value;
use vstd::prelude::*;

verus! {

/// A named column of a table.
#[derive(Debug)]
struct Column {
    name: String,
    values: Vec<Value>,
}

/// A set of named columns held in memory.
///
/// A table is seen as a map from column names to sequences of values. Columns
/// need not have the same length.
#[derive(Debug)]
pub struct Table {
    columns: Vec<Column>,
}

impl View for Table {
    type V = Map<Seq<char>, Seq<Value>>;

    closed spec fn view(&self) -> Map<Seq<char>, Seq<Value>> {
        Map::new(
            |name: Seq<char>| self.position(name) is Some,
            |name: Seq<char>| self.columns@[self.position(name)->Some_0].values@,
        )
    }
}

impl Table {
    /// No two columns share a name.
    #[verifier::type_invariant]
    spec fn names_differ(self) -> bool {
        forall|i: int, j: int|
            0 <= i < j < self.columns@.len() ==> self.columns@[i].name@ != self.columns@[j].name@
    }

    /// Where the column called `name` is held, if there is one.
    spec fn position(&self, name: Seq<char>) -> Option<int> {
        if exists|i: int| 0 <= i < self.columns@.len() && self.columns@[i].name@ == name {
            Some(choose|i: int| 0 <= i < self.columns@.len() && self.columns@[i].name@ == name)
        } else {
            None
        }
    }

    /// A column is found where it is held.
    proof fn position_of_held(self, i: int)
        requires
            self.names_differ(),
            0 <= i < self.columns@.len(),
        ensures
            self.position(self.columns@[i].name@) == Some(i),
    {
        let name = self.columns@[i].name@;
        let k = choose|k: int| 0 <= k < self.columns@.len() && self.columns@[k].name@ == name;
        if k < i {
            assert(self.columns@[k].name@ != self.columns@[i].name@);
        } else if i < k {
            assert(self.columns@[i].name@ != self.columns@[k].name@);
        }
    }

    /// The values of the column called `name`, if the table has one.
    pub open spec fn column(&self, name: Seq<char>) -> Option<Seq<Value>> {
        if self@.contains_key(name) {
            Some(self@[name])
        } else {
            None
        }
    }

    /// A table without columns.
    pub fn new() -> (table: Table)
        ensures
            table@ == Map::<Seq<char>, Seq<Value>>::empty(),
    {
        let table = Table { columns: Vec::new() };
        assert(table@ =~= Map::<Seq<char>, Seq<Value>>::empty());
        table
    }

    fn find(&self, name: &String) -> (found: Option<usize>)
        ensures
            match found {
                Some(i) => self.position(name@) == Some(i as int) && i < self.columns@.len()
                    && self.columns@[i as int].name@ == name@,
                None => self.position(name@) is None,
            },
    {
        let mut i: usize = 0;
        while i < self.columns.len()
            invariant
                i <= self.columns@.len(),
                forall|k: int| 0 <= k < i ==> self.columns@[k].name@ != name@,
            decreases self.columns@.len() - i,
        {
            if self.columns[i].name == *name {
                proof {
                    use_type_invariant(self);
                    self.position_of_held(i as int);
                }
                return Some(i);
            }
            i += 1;
        }
        None
    }

    /// The values of the column called `name`, if the table has one.
    pub fn get_column(&self, name: &str) -> (values: Option<&Vec<Value>>)
        ensures
            match values {
                Some(values) => self.column(name@) == Some(values@),
                None => self.column(name@) is None,
            },
    {
        let name = name.to_owned();
        match self.find(&name) {
            Some(i) => Some(&self.columns[i].values),
            None => None,
        }
    }

    /// Gives the table a column called `name` that holds `values`. A column
    /// that had this name is replaced; every other column stays as it was.
    pub fn add_column(&mut self, name: String, values: Vec<Value>)
        ensures
            final(self)@ == old(self)@.insert(name@, values@),
    {
        proof {
            use_type_invariant(&*self);
        }
        let ghost before = *self;
        let found = self.find(&name);
        let mut columns: Vec<Column> = Vec::new();
        core::mem::swap(&mut self.columns, &mut columns);
        match found {
            Some(i) => {
                columns.set(i, Column { name, values });
            },
            None => {
                columns.push(Column { name, values });
            },
        }
        self.columns = columns;
        proof {
            let held = match found {
                Some(i) => i as int,
                None => before.columns@.len() as int,
            };
            assert(self.columns@[held].name@ == name@);
            self.position_of_held(held);
            assert forall|other: Seq<char>| other != name@ implies self.position(other)
                == before.position(other) by {
                if before.position(other) is Some {
                    let k = before.position(other)->Some_0;
                    assert(self.columns@[k].name@ == other);
                    self.position_of_held(k);
                }
                if self.position(other) is Some {
                    let k = self.position(other)->Some_0;
                    assert(before.columns@[k].name@ == other);
                    before.position_of_held(k);
                }
            }
            assert(self@ =~= before@.insert(name@, values@));
        }
    }

    /// Whether the table has no column.
    pub fn is_empty(&self) -> (r: bool)
        ensures
            r == (forall|name: Seq<char>| !self@.contains_key(name)),
    {
        proof {
            use_type_invariant(self);
            if self.columns@.len() > 0 {
                self.position_of_held(0);
                assert(self@.contains_key(self.columns@[0].name@));
            }
        }
        self.columns.len() == 0
    }

    /// The names of the columns, in the order of a dictionary.
    pub fn column_names(&self) -> (names: Vec<String>)
        ensures
            forall|name: Seq<char>| self@.contains_key(name) <==> texts(names@).contains(name),
            ascending(texts(names@)),
    {
        let mut names: Vec<String> = Vec::new();
        let mut keys: Vec<Vec<char>> = Vec::new();
        let mut i: usize = 0;
        while i < self.columns.len()
            invariant
                i <= self.columns@.len(),
                names@.len() == i,
                keys@.len() == i,
                forall|k: int| 0 <= k < i ==> (#[trigger] keys@[k])@ == names@[k]@,
                ascending(texts(names@)),
                forall|k: int|
                    0 <= k < i ==> exists|m: int|
                        0 <= m < i && self.columns@[m].name@ == #[trigger] names@[k]@,
                forall|m: int|
                    0 <= m < i ==> texts(names@).contains(#[trigger] self.columns@[m].name@),
            decreases self.columns@.len() - i,
        {
            let name = self.columns[i].name.clone();
            let key = chars_of(name.as_str());
            let ghost sorted = texts(names@);
            let mut p: usize = 0;
            while p < keys.len() && comes_before(&keys[p], &key)
                invariant
                    p <= keys@.len(),
                    keys@.len() == names@.len(),
                    sorted == texts(names@),
                    forall|k: int| 0 <= k < keys@.len() ==> (#[trigger] keys@[k])@ == names@[k]@,
                    forall|q: int| 0 <= q < p ==> precedes(#[trigger] sorted[q], key@),
                decreases keys@.len() - p,
            {
                p += 1;
            }
            proof {
                use_type_invariant(self);
                assert forall|q: int| p <= q < sorted.len() implies precedes(
                    key@,
                    #[trigger] sorted[q],
                ) by {
                    let m = choose|m: int| 0 <= m < i && self.columns@[m].name@ == names@[p as int]@;
                    assert(self.columns@[m].name@ != self.columns@[i as int].name@);
                    assert(sorted[p as int] == names@[p as int]@);
                    precedes_is_total(key@, sorted[p as int]);
                    if q > p {
                        assert(precedes(sorted[p as int], sorted[q]));
                        precedes_is_transitive(key@, sorted[p as int], sorted[q]);
                    }
                }
            }
            let ghost old_names = names@;
            let ghost old_keys = keys@;
            names.insert(p, name);
            keys.insert(p, key);
            proof {
                let longer = texts(names@);
                assert(longer == sorted.insert(p as int, key@));
                assert forall|a: int, b: int| 0 <= a < b < longer.len() implies precedes(
                    longer[a],
                    longer[b],
                ) by {
                    if a < p && b > p {
                        assert(precedes(sorted[a], sorted[b - 1]));
                    } else if a < p && b < p {
                        assert(precedes(sorted[a], sorted[b]));
                    } else if a > p {
                        assert(precedes(sorted[a - 1], sorted[b - 1]));
                    }
                }
                assert forall|k: int| 0 <= k < i + 1 implies exists|m: int|
                    0 <= m < i + 1 && self.columns@[m].name@ == #[trigger] names@[k]@ by {
                    if k < p {
                        assert(names@[k] == old_names[k]);
                        let m = choose|m: int|
                            0 <= m < i && self.columns@[m].name@ == old_names[k]@;
                        assert(self.columns@[m].name@ == names@[k]@);
                    } else if k > p {
                        assert(names@[k] == old_names[k - 1]);
                        let m = choose|m: int|
                            0 <= m < i && self.columns@[m].name@ == old_names[k - 1]@;
                        assert(self.columns@[m].name@ == names@[k]@);
                    } else {
                        assert(self.columns@[i as int].name@ == names@[k]@);
                    }
                }
                assert forall|m: int| 0 <= m < i + 1 implies longer.contains(
                    #[trigger] self.columns@[m].name@,
                ) by {
                    if m < i {
                        let k = choose|k: int|
                            0 <= k < sorted.len() && sorted[k] == self.columns@[m].name@;
                        if k < p {
                            assert(longer[k] == sorted[k]);
                        } else {
                            assert(longer[k + 1] == sorted[k]);
                        }
                    } else {
                        assert(longer[p as int] == key@);
                    }
                }
                assert forall|k: int| 0 <= k < keys@.len() implies (#[trigger] keys@[k])@
                    == names@[k]@ by {
                    if k < p {
                        assert(keys@[k] == old_keys[k]);
                        assert(names@[k] == old_names[k]);
                    } else if k > p {
                        assert(keys@[k] == old_keys[k - 1]);
                        assert(names@[k] == old_names[k - 1]);
                    }
                }
            }
            i += 1;
        }
        proof {
            use_type_invariant(self);
            let listed = texts(names@);
            assert forall|name: Seq<char>| self@.contains_key(name) <==> listed.contains(
                name,
            ) by {
                if self@.contains_key(name) {
                    let m = self.position(name)->Some_0;
                    assert(listed.contains(self.columns@[m].name@));
                }
                if listed.contains(name) {
                    let k = choose|k: int| 0 <= k < listed.len() && listed[k] == name;
                    let m = choose|m: int|
                        0 <= m < self.columns@.len() && self.columns@[m].name@ == names@[k]@;
                    self.position_of_held(m);
                }
            }
        }
        names
    }

    /// The sum of the numbers in the column called `column_name`, added from
    /// left to right by `adder`; none when the table has no such column.
    pub fn sum<A: Fn(u64, u64) -> u64>(&self, column_name: &str, adder: &A) -> (total: Option<u64>)
        requires
            forall|a: u64, b: u64| call_requires(adder, (a, b)),
        ensures
            match self.column(column_name@) {
                Some(values) => total is Some && sums_to(adder, numbers(values), total->Some_0),
                None => total is None,
            },
    {
        match self.get_column(column_name) {
            Some(values) => Some(crate::aggregate::sum(values, adder)),
            None => None,
        }
    }

    /// The average of the numbers in the column called `column_name`, or
    /// positive zero when it holds no number; none when the table has no such
    /// column.
    pub fn average<A: Fn(u64, u64) -> u64, D: Fn(u64, u64) -> u64>(
        &self,
        column_name: &str,
        adder: &A,
        divider: &D,
    ) -> (mean: Option<u64>)
        requires
            forall|a: u64, b: u64| call_requires(adder, (a, b)),
            forall|a: u64, b: u64| call_requires(divider, (a, b)),
        ensures
            match self.column(column_name@) {
                Some(values) => mean is Some && averages_to(
                    adder,
                    divider,
                    numbers(values),
                    mean->Some_0,
                ),
                None => mean is None,
            },
    {
        match self.get_column(column_name) {
            Some(values) => Some(crate::aggregate::average(values, adder, divider)),
            None => None,
        }
    }

    /// The number of values in the column called `column_name`, of whatever
    /// kind; none when the table has no such column.
    pub fn count(&self, column_name: &str) -> (n: Option<usize>)
        ensures
            match self.column(column_name@) {
                Some(values) => n is Some && n->Some_0 == values.len(),
                None => n is None,
            },
    {
        match self.get_column(column_name) {
            Some(values) => Some(values.len()),
            None => None,
        }
    }

    /// The number of distinct values in the column called `column_name`; none
    /// when the table has no such column.
    pub fn distinctcount(&self, column_name: &str) -> (n: Option<usize>)
        ensures
            match self.column(column_name@) {
                Some(values) => n is Some && n->Some_0 == classes(values).len(),
                None => n is None,
            },
    {
        match self.get_column(column_name) {
            Some(values) => Some(crate::aggregate::distinct_count(values)),
            None => None,
        }
    }

    /// The least number in the column called `column_name`; none when the
    /// table has no such column or the column holds no number.
    pub fn min(&self, column_name: &str) -> (found: Option<u64>)
        ensures
            found == match self.column(column_name@) {
                Some(values) => least(numbers(values)),
                None => None,
            },
    {
        match self.get_column(column_name) {
            Some(values) => crate::aggregate::min(values),
            None => None,
        }
    }

    /// The greatest number in the column called `column_name`; none when the
    /// table has no such column or the column holds no number.
    pub fn max(&self, column_name: &str) -> (found: Option<u64>)
        ensures
            found == match self.column(column_name@) {
                Some(values) => greatest(numbers(values)),
                None => None,
            },
    {
        match self.get_column(column_name) {
            Some(values) => crate::aggregate::max(values),
            None => None,
        }
    }

    /// `numerator / denominator`, computed by `divider`, unless the
    /// denominator is a zero of either sign: then the alternate result, which
    /// may be none.
    pub fn divide<D: Fn(u64, u64) -> u64>(
        &self,
        numerator: u64,
        denominator: u64,
        alternate_result: Option<u64>,
        divider: &D,
    ) -> (quotient: Option<u64>)
        requires
            forall|a: u64, b: u64| call_requires(divider, (a, b)),
        ensures
            zero(denominator) ==> quotient == alternate_result,
            !zero(denominator) ==> quotient is Some && call_ensures(
                divider,
                (numerator, denominator),
                quotient->Some_0,
            ),
    {
        if crate::number::is_zero(denominator) {
            alternate_result
        } else {
            Some(divider(numerator, denominator))
        }
    }
}

} // verus!
