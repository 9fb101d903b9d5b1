//! Reductions of a column to one scalar.
//!
//! Counting, the extremes and the number of distinct values are decided here
//! on the bit patterns. A sum and an average need rounding arithmetic, which
//! the caller supplies as two functions on bit patterns: `adder(a, b)` for
//! `a + b` and `divider(a, b)` for `a / b`. Their contracts say of the result
//! what holds for every function handed in.
use crate::number::{
    count_bits, from_count, greater, nan, numerically_greater, rank, NEGATIVE_INFINITY,
    POSITIVE_INFINITY, POSITIVE_ZERO,
};
use crate::types::{Value, ValueClass};
use vstd::prelude::*;

verus! {

/// The numbers among `values`, in their order.
pub open spec fn numbers(values: Seq<Value>) -> Seq<u64> {
    values.filter_map(
        |v: Value|
            match v {
                Value::Number(bits) => Some(bits),
                _ => None,
            },
    )
}

/// Whether `total` can come out of adding `terms` one by one, from left to
/// right, to a positive zero. No terms leave the zero.
pub open spec fn sums_to<A: Fn(u64, u64) -> u64>(adder: &A, terms: Seq<u64>, total: u64) -> bool
    decreases terms.len(),
{
    if terms.len() == 0 {
        total == POSITIVE_ZERO
    } else {
        exists|partial: u64|
            {
                &&& sums_to(adder, terms.drop_last(), partial)
                &&& #[trigger] call_ensures(adder, (partial, terms.last()), total)
            }
    }
}

/// Whether `mean` can come out as the average of `terms`: their sum divided
/// by their count, or a positive zero when there are none.
pub open spec fn averages_to<A: Fn(u64, u64) -> u64, D: Fn(u64, u64) -> u64>(
    adder: &A,
    divider: &D,
    terms: Seq<u64>,
    mean: u64,
) -> bool {
    if terms.len() == 0 {
        mean == POSITIVE_ZERO
    } else {
        exists|total: u64|
            {
                &&& #[trigger] sums_to(adder, terms, total)
                &&& call_ensures(divider, (total, count_bits(terms.len()) as u64), mean)
            }
    }
}

/// The first of the numbers that none before it undercuts, each number
/// replacing the one held only when that one is numerically greater. A NaN is
/// greater than nothing and nothing is greater than a NaN, so a NaN held stays
/// and a NaN met is passed over.
pub open spec fn least(terms: Seq<u64>) -> Option<u64>
    decreases terms.len(),
{
    if terms.len() == 0 {
        None
    } else {
        match least(terms.drop_last()) {
            None => Some(terms.last()),
            Some(held) => if numerically_greater(held, terms.last()) {
                Some(terms.last())
            } else {
                Some(held)
            },
        }
    }
}

/// The last of the numbers that none before it exceeds, each number replacing
/// the one held unless that one is numerically greater. A NaN met replaces
/// the number held, and the number after a NaN replaces it.
pub open spec fn greatest(terms: Seq<u64>) -> Option<u64>
    decreases terms.len(),
{
    if terms.len() == 0 {
        None
    } else {
        match greatest(terms.drop_last()) {
            None => Some(terms.last()),
            Some(held) => if numerically_greater(held, terms.last()) {
                Some(held)
            } else {
                Some(terms.last())
            },
        }
    }
}

/// The classes of the values, each once.
pub open spec fn classes(values: Seq<Value>) -> Set<ValueClass> {
    values.map_values(|v: Value| v.class()).to_set()
}

/// One more value adds its number to the numbers, if it is one.
pub proof fn numbers_grow(values: Seq<Value>, i: int)
    requires
        0 <= i < values.len(),
    ensures
        numbers(values.take(i + 1)) == match values[i] {
            Value::Number(bits) => numbers(values.take(i)).push(bits),
            _ => numbers(values.take(i)),
        },
{
    assert(values.take(i + 1).drop_last() == values.take(i));
    assert(values.take(i + 1).last() == values[i]);
    if let Value::Number(bits) = values[i] {
        assert(numbers(values.take(i)) + seq![bits] == numbers(values.take(i)).push(bits));
    }
}

/// Adding one more term to a sum gives a sum of the longer sequence.
pub proof fn sum_grows<A: Fn(u64, u64) -> u64>(
    adder: &A,
    terms: Seq<u64>,
    partial: u64,
    term: u64,
    total: u64,
)
    requires
        sums_to(adder, terms, partial),
        call_ensures(adder, (partial, term), total),
    ensures
        sums_to(adder, terms.push(term), total),
{
    let longer = terms.push(term);
    assert(longer.drop_last() == terms);
    assert(sums_to(adder, longer.drop_last(), partial));
    assert(call_ensures(adder, (partial, longer.last()), total));
}

/// One more value adds its class to the classes.
pub proof fn classes_grow(values: Seq<Value>, i: int)
    requires
        0 <= i < values.len(),
    ensures
        classes(values.take(i + 1)) == classes(values.take(i)).insert(values[i].class()),
        classes(values.take(i)).finite(),
        classes(values.take(i)).contains(values[i].class()) <==> exists|j: int|
            0 <= j < i && #[trigger] values[j].same(&values[i]),
{
    broadcast use vstd::seq_lib::seq_to_set_is_finite;

    let class = |v: Value| v.class();
    let earlier = values.take(i).map_values(class);
    assert(values.take(i + 1).map_values(class) == earlier.push(values[i].class()));
    earlier.lemma_push_to_set_commute(values[i].class());
    if classes(values.take(i)).contains(values[i].class()) {
        let j = choose|j: int| 0 <= j < earlier.len() && earlier[j] == values[i].class();
        assert(values[j].same(&values[i]));
    }
    assert forall|j: int| 0 <= j < i && #[trigger] values[j].same(&values[i]) implies classes(
        values.take(i),
    ).contains(values[i].class()) by {
        assert(earlier[j] == values[i].class());
    }
}

/// The sum of the numbers among `values`, added from left to right to a
/// positive zero; values of other kinds are passed over. A column without
/// numbers sums to positive zero.
pub fn sum<A: Fn(u64, u64) -> u64>(values: &Vec<Value>, adder: &A) -> (total: u64)
    requires
        forall|a: u64, b: u64| call_requires(adder, (a, b)),
    ensures
        sums_to(adder, numbers(values@), total),
{
    let mut total: u64 = POSITIVE_ZERO;
    let mut i: usize = 0;
    proof {
        assert(values@.take(0) == Seq::<Value>::empty());
    }
    while i < values.len()
        invariant
            i <= values.len(),
            forall|a: u64, b: u64| call_requires(adder, (a, b)),
            sums_to(adder, numbers(values@.take(i as int)), total),
        decreases values.len() - i,
    {
        proof {
            numbers_grow(values@, i as int);
        }
        if let Value::Number(bits) = &values[i] {
            let ghost partial = total;
            let ghost terms = numbers(values@.take(i as int));
            total = adder(total, *bits);
            proof {
                sum_grows(adder, terms, partial, *bits, total);
            }
        }
        i += 1;
    }
    proof {
        assert(values@.take(values.len() as int) == values@);
    }
    total
}

/// The average of the numbers among `values`: their sum divided by their
/// count. A column without numbers averages to positive zero.
pub fn average<A: Fn(u64, u64) -> u64, D: Fn(u64, u64) -> u64>(
    values: &Vec<Value>,
    adder: &A,
    divider: &D,
) -> (mean: u64)
    requires
        forall|a: u64, b: u64| call_requires(adder, (a, b)),
        forall|a: u64, b: u64| call_requires(divider, (a, b)),
    ensures
        averages_to(adder, divider, numbers(values@), mean),
{
    let mut total: u64 = POSITIVE_ZERO;
    let mut count: usize = 0;
    let mut i: usize = 0;
    proof {
        assert(values@.take(0) == Seq::<Value>::empty());
    }
    while i < values.len()
        invariant
            i <= values.len(),
            forall|a: u64, b: u64| call_requires(adder, (a, b)),
            sums_to(adder, numbers(values@.take(i as int)), total),
            count == numbers(values@.take(i as int)).len(),
            count <= i,
        decreases values.len() - i,
    {
        proof {
            numbers_grow(values@, i as int);
        }
        if let Value::Number(bits) = &values[i] {
            let ghost partial = total;
            let ghost terms = numbers(values@.take(i as int));
            total = adder(total, *bits);
            count += 1;
            proof {
                sum_grows(adder, terms, partial, *bits, total);
            }
        }
        i += 1;
    }
    proof {
        assert(values@.take(values.len() as int) == values@);
    }
    if count > 0 {
        divider(total, from_count(count))
    } else {
        POSITIVE_ZERO
    }
}

/// The number of values, of whatever kind.
pub fn count(values: &Vec<Value>) -> (n: usize)
    ensures
        n == values@.len(),
{
    values.len()
}

/// The number of distinct values: values that are equal count once, so every
/// NaN counts as one value and the two infinities as two.
pub fn distinct_count(values: &Vec<Value>) -> (n: usize)
    ensures
        n == classes(values@).len(),
{
    let mut n: usize = 0;
    let mut i: usize = 0;
    proof {
        assert(values@.take(0).map_values(|v: Value| v.class()) == Seq::<ValueClass>::empty());
        assert(classes(values@.take(0)) == Set::<ValueClass>::empty());
    }
    while i < values.len()
        invariant
            i <= values.len(),
            n == classes(values@.take(i as int)).len(),
            n <= i,
        decreases values.len() - i,
    {
        let mut seen = false;
        let mut j: usize = 0;
        while j < i
            invariant
                j <= i < values.len(),
                seen <==> exists|k: int| 0 <= k < j && #[trigger] values@[k].same(&values@[i as int]),
            decreases i - j,
        {
            if values[j] == values[i] {
                seen = true;
            }
            j += 1;
        }
        proof {
            classes_grow(values@, i as int);
        }
        if !seen {
            n += 1;
        }
        i += 1;
    }
    proof {
        assert(values@.take(values.len() as int) == values@);
    }
    n
}

/// The least of the numbers among `values`; none when there is no number.
pub fn min(values: &Vec<Value>) -> (found: Option<u64>)
    ensures
        found == least(numbers(values@)),
{
    let mut held: Option<u64> = None;
    let mut i: usize = 0;
    proof {
        assert(values@.take(0) == Seq::<Value>::empty());
    }
    while i < values.len()
        invariant
            i <= values.len(),
            held == least(numbers(values@.take(i as int))),
        decreases values.len() - i,
    {
        proof {
            numbers_grow(values@, i as int);
        }
        if let Value::Number(bits) = &values[i] {
            let ghost terms = numbers(values@.take(i as int));
            proof {
                assert(terms.push(*bits).drop_last() == terms);
            }
            held = match held {
                None => Some(*bits),
                Some(h) => if greater(h, *bits) {
                    Some(*bits)
                } else {
                    Some(h)
                },
            };
        }
        i += 1;
    }
    proof {
        assert(values@.take(values.len() as int) == values@);
    }
    held
}

/// The greatest of the numbers among `values`; none when there is no number.
pub fn max(values: &Vec<Value>) -> (found: Option<u64>)
    ensures
        found == greatest(numbers(values@)),
{
    let mut held: Option<u64> = None;
    let mut i: usize = 0;
    proof {
        assert(values@.take(0) == Seq::<Value>::empty());
    }
    while i < values.len()
        invariant
            i <= values.len(),
            held == greatest(numbers(values@.take(i as int))),
        decreases values.len() - i,
    {
        proof {
            numbers_grow(values@, i as int);
        }
        if let Value::Number(bits) = &values[i] {
            let ghost terms = numbers(values@.take(i as int));
            proof {
                assert(terms.push(*bits).drop_last() == terms);
            }
            held = match held {
                None => Some(*bits),
                Some(h) => if greater(h, *bits) {
                    Some(h)
                } else {
                    Some(*bits)
                },
            };
        }
        i += 1;
    }
    proof {
        assert(values@.take(values.len() as int) == values@);
    }
    held
}

/// The numbers of two columns laid end to end are the numbers of the first
/// followed by the numbers of the second.
pub proof fn numbers_of_joined(front: Seq<Value>, back: Seq<Value>)
    ensures
        numbers(front + back) == numbers(front) + numbers(back),
    decreases back.len(),
{
    if back.len() == 0 {
        assert(front + back == front);
        assert(numbers(front) + numbers(back) == numbers(front));
    } else {
        numbers_of_joined(front, back.drop_last());
        assert((front + back).drop_last() == front + back.drop_last());
        assert((front + back).last() == back.last());
        match back.last() {
            Value::Number(bits) => {
                assert(numbers(front) + (numbers(back.drop_last()) + seq![bits]) == (numbers(front)
                    + numbers(back.drop_last())) + seq![bits]);
            },
            _ => {},
        }
    }
}

/// A sum passes over what is not a number: taking such a value out of a
/// column, wherever it stands, leaves the terms of the sum as they were.
pub proof fn sum_ignores_other_kinds(values: Seq<Value>, i: int)
    requires
        0 <= i < values.len(),
        !(values[i] is Number),
    ensures
        numbers(values.remove(i)) == numbers(values),
{
    let front = values.take(i);
    let back = values.skip(i + 1);
    assert(values == front + seq![values[i]] + back);
    assert(values.remove(i) == front + back);
    numbers_of_joined(front, back);
    numbers_of_joined(front + seq![values[i]], back);
    numbers_of_joined(front, seq![values[i]]);
    assert(seq![values[i]].drop_last() == Seq::<Value>::empty());
    assert(seq![values[i]].last() == values[i]);
    assert(numbers(Seq::<Value>::empty()) == Seq::<u64>::empty());
    assert(numbers(seq![values[i]]) == Seq::<u64>::empty());
    assert(numbers(front) + Seq::<u64>::empty() == numbers(front));
}

/// The terms of a sum are exactly the numbers of the column: in a column of
/// numbers only, every value is a term, in its place.
pub proof fn sum_takes_every_number(values: Seq<Value>)
    requires
        forall|i: int| 0 <= i < values.len() ==> values[i] is Number,
    ensures
        numbers(values) == values.map_values(|v: Value| v->Number_0),
    decreases values.len(),
{
    let bits = |v: Value| v->Number_0;
    if values.len() == 0 {
        assert(numbers(values) == values.map_values(bits));
    } else {
        sum_takes_every_number(values.drop_last());
        assert(values.drop_last().map_values(bits) + seq![bits(values.last())]
            == values.map_values(bits));
    }
}

/// A column holds no number exactly when none of its values is one.
pub proof fn no_numbers_iff_none_numeric(values: Seq<Value>)
    ensures
        numbers(values).len() == 0 <==> forall|i: int|
            0 <= i < values.len() ==> !(#[trigger] values[i] is Number),
        numbers(values).len() <= values.len(),
    decreases values.len(),
{
    if values.len() > 0 {
        no_numbers_iff_none_numeric(values.drop_last());
        if numbers(values).len() == 0 {
            assert forall|i: int| 0 <= i < values.len() implies !(#[trigger] values[i]
                is Number) by {
                if i < values.len() - 1 {
                    assert(values.drop_last()[i] == values[i]);
                }
            }
        } else if !(values.last() is Number) {
            let i = choose|i: int|
                0 <= i < values.len() - 1 && #[trigger] values.drop_last()[i] is Number;
            assert(values[i] is Number);
        }
    }
}

/// The sum of a column without numbers is positive zero, whatever the adder.
pub proof fn sum_of_no_numbers_is_zero<A: Fn(u64, u64) -> u64>(
    adder: &A,
    values: Seq<Value>,
    total: u64,
)
    requires
        forall|i: int| 0 <= i < values.len() ==> !(#[trigger] values[i] is Number),
        sums_to(adder, numbers(values), total),
    ensures
        total == POSITIVE_ZERO,
{
    no_numbers_iff_none_numeric(values);
}

/// The average of a column with numbers is a sum of its numbers divided by
/// how many they are.
pub proof fn average_is_sum_over_count<A: Fn(u64, u64) -> u64, D: Fn(u64, u64) -> u64>(
    adder: &A,
    divider: &D,
    values: Seq<Value>,
    mean: u64,
)
    requires
        averages_to(adder, divider, numbers(values), mean),
        exists|i: int| 0 <= i < values.len() && #[trigger] values[i] is Number,
    ensures
        exists|total: u64|
            {
                &&& #[trigger] sums_to(adder, numbers(values), total)
                &&& call_ensures(divider, (total, count_bits(numbers(values).len()) as u64), mean)
            },
{
    no_numbers_iff_none_numeric(values);
}

/// The average of a column without numbers is positive zero: a result, not
/// the lack of one.
pub proof fn average_of_no_numbers_is_zero<A: Fn(u64, u64) -> u64, D: Fn(u64, u64) -> u64>(
    adder: &A,
    divider: &D,
    values: Seq<Value>,
    mean: u64,
)
    requires
        forall|i: int| 0 <= i < values.len() ==> !(#[trigger] values[i] is Number),
        averages_to(adder, divider, numbers(values), mean),
    ensures
        mean == POSITIVE_ZERO,
{
    no_numbers_iff_none_numeric(values);
}

/// A column has a least and a greatest number exactly when it holds a number:
/// an empty column and a column of other kinds have neither, not a zero.
pub proof fn extremes_need_a_number(values: Seq<Value>)
    ensures
        least(numbers(values)) is None <==> forall|i: int|
            0 <= i < values.len() ==> !(#[trigger] values[i] is Number),
        greatest(numbers(values)) is None <==> forall|i: int|
            0 <= i < values.len() ==> !(#[trigger] values[i] is Number),
{
    no_numbers_iff_none_numeric(values);
}

/// Among numbers none of which is a NaN, the least is one of them and none is
/// below it; of several that are equally low it is the first.
pub proof fn least_is_lowest(terms: Seq<u64>)
    requires
        terms.len() > 0,
        forall|i: int| 0 <= i < terms.len() ==> !nan(#[trigger] terms[i]),
    ensures
        least(terms) is Some,
        exists|k: int|
            {
                &&& 0 <= k < terms.len()
                &&& #[trigger] terms[k] == least(terms)->Some_0
                &&& forall|i: int| 0 <= i < terms.len() ==> rank(terms[k]) <= rank(#[trigger] terms[i])
                &&& forall|i: int| 0 <= i < k ==> rank(terms[k]) < rank(#[trigger] terms[i])
            },
    decreases terms.len(),
{
    let shorter = terms.drop_last();
    if shorter.len() == 0 {
        assert(terms[0] == least(terms)->Some_0);
    } else {
        assert forall|i: int| 0 <= i < shorter.len() implies !nan(#[trigger] shorter[i]) by {
            assert(shorter[i] == terms[i]);
        }
        least_is_lowest(shorter);
        let k = choose|k: int|
            {
                &&& 0 <= k < shorter.len()
                &&& #[trigger] shorter[k] == least(shorter)->Some_0
                &&& forall|i: int|
                    0 <= i < shorter.len() ==> rank(shorter[k]) <= rank(#[trigger] shorter[i])
                &&& forall|i: int| 0 <= i < k ==> rank(shorter[k]) < rank(#[trigger] shorter[i])
            };
        let last = terms.len() - 1;
        assert(forall|i: int| 0 <= i < shorter.len() ==> shorter[i] == terms[i]);
        if numerically_greater(shorter[k], terms.last()) {
            assert(terms[last] == least(terms)->Some_0);
            assert forall|i: int| 0 <= i < terms.len() implies rank(terms[last]) <= rank(
                #[trigger] terms[i],
            ) by {
                if i < last {
                    assert(rank(shorter[k]) <= rank(shorter[i]));
                }
            }
            assert forall|i: int| 0 <= i < last implies rank(terms[last]) < rank(
                #[trigger] terms[i],
            ) by {
                assert(rank(shorter[k]) <= rank(shorter[i]));
            }
        } else {
            assert(terms[k] == least(terms)->Some_0);
            assert forall|i: int| 0 <= i < terms.len() implies rank(terms[k]) <= rank(
                #[trigger] terms[i],
            ) by {
                if i < last {
                    assert(rank(shorter[k]) <= rank(shorter[i]));
                }
            }
            assert forall|i: int| 0 <= i < k implies rank(terms[k]) < rank(
                #[trigger] terms[i],
            ) by {
                assert(rank(shorter[k]) < rank(shorter[i]));
            }
        }
    }
}

/// Among numbers none of which is a NaN, the greatest is one of them and none
/// is above it; of several that are equally high it is the last.
pub proof fn greatest_is_highest(terms: Seq<u64>)
    requires
        terms.len() > 0,
        forall|i: int| 0 <= i < terms.len() ==> !nan(#[trigger] terms[i]),
    ensures
        greatest(terms) is Some,
        exists|k: int|
            {
                &&& 0 <= k < terms.len()
                &&& #[trigger] terms[k] == greatest(terms)->Some_0
                &&& forall|i: int| 0 <= i < terms.len() ==> rank(#[trigger] terms[i]) <= rank(terms[k])
                &&& forall|i: int| k < i < terms.len() ==> rank(#[trigger] terms[i]) < rank(terms[k])
            },
    decreases terms.len(),
{
    let shorter = terms.drop_last();
    if shorter.len() == 0 {
        assert(terms[0] == greatest(terms)->Some_0);
    } else {
        assert forall|i: int| 0 <= i < shorter.len() implies !nan(#[trigger] shorter[i]) by {
            assert(shorter[i] == terms[i]);
        }
        greatest_is_highest(shorter);
        let k = choose|k: int|
            {
                &&& 0 <= k < shorter.len()
                &&& #[trigger] shorter[k] == greatest(shorter)->Some_0
                &&& forall|i: int|
                    0 <= i < shorter.len() ==> rank(#[trigger] shorter[i]) <= rank(shorter[k])
                &&& forall|i: int|
                    k < i < shorter.len() ==> rank(#[trigger] shorter[i]) < rank(shorter[k])
            };
        let last = terms.len() - 1;
        assert(forall|i: int| 0 <= i < shorter.len() ==> shorter[i] == terms[i]);
        if numerically_greater(shorter[k], terms.last()) {
            assert(terms[k] == greatest(terms)->Some_0);
            assert forall|i: int| 0 <= i < terms.len() implies rank(#[trigger] terms[i]) <= rank(
                terms[k],
            ) by {
                if i < last {
                    assert(rank(shorter[i]) <= rank(shorter[k]));
                }
            }
            assert forall|i: int| k < i < terms.len() implies rank(#[trigger] terms[i]) < rank(
                terms[k],
            ) by {
                if i < last {
                    assert(rank(shorter[i]) < rank(shorter[k]));
                }
            }
        } else {
            assert(terms[last] == greatest(terms)->Some_0);
            assert forall|i: int| 0 <= i < terms.len() implies rank(#[trigger] terms[i]) <= rank(
                terms[last],
            ) by {
                if i < last {
                    assert(rank(shorter[i]) <= rank(shorter[k]));
                }
            }
        }
    }
}

/// A value equal to one that the column holds adds nothing to the distinct
/// values; any other value adds one.
pub proof fn distinct_values_grow(values: Seq<Value>, value: Value)
    ensures
        classes(values).finite(),
        (exists|i: int| 0 <= i < values.len() && #[trigger] values[i].same(&value)) ==> classes(
            values.push(value),
        ) == classes(values),
        !(exists|i: int| 0 <= i < values.len() && #[trigger] values[i].same(&value)) ==> classes(
            values.push(value),
        ).len() == classes(values).len() + 1,
{
    let longer = values.push(value);
    assert(longer.take(values.len() as int) == values);
    classes_grow(longer, values.len() as int);
    assert(longer.take(values.len() as int + 1) == longer);
    assert forall|i: int| 0 <= i < values.len() implies (#[trigger] values[i].same(&value)
        <==> longer[i].same(&longer[values.len() as int])) by {}
    if exists|i: int| 0 <= i < values.len() && #[trigger] values[i].same(&value) {
        let i = choose|i: int| 0 <= i < values.len() && #[trigger] values[i].same(&value);
        assert(longer[i].same(&longer[values.len() as int]));
        assert(classes(values).insert(value.class()) == classes(values));
    } else {
        if classes(values).contains(value.class()) {
            let j = choose|j: int|
                0 <= j < values.len() && #[trigger] longer[j].same(&longer[values.len() as int]);
            assert(values[j].same(&value));
        }
    }
}

/// Every NaN is the same value: a column that holds a NaN has as many
/// distinct values with one more NaN, whatever its payload, as without it.
pub proof fn nans_count_once(values: Seq<Value>, i: int, bits: u64)
    requires
        0 <= i < values.len(),
        values[i] is Number,
        nan(values[i]->Number_0),
        nan(bits),
    ensures
        classes(values.push(Value::Number(bits))) == classes(values),
{
    assert(values[i].same(&Value::Number(bits)));
    distinct_values_grow(values, Value::Number(bits));
}

/// Two NaNs and the two infinities are three distinct values.
pub proof fn nans_and_infinities_are_three(a: u64, b: u64)
    requires
        nan(a),
        nan(b),
    ensures
        classes(
            seq![
                Value::Number(a),
                Value::Number(b),
                Value::Number(POSITIVE_INFINITY),
                Value::Number(NEGATIVE_INFINITY),
            ],
        ).len() == 3,
{
    let none = Seq::<Value>::empty();
    let one = none.push(Value::Number(a));
    let two = one.push(Value::Number(b));
    let three = two.push(Value::Number(POSITIVE_INFINITY));
    let four = three.push(Value::Number(NEGATIVE_INFINITY));
    assert(classes(none) == Set::<ValueClass>::empty()) by {
        assert(none.map_values(|v: Value| v.class()) == Seq::<ValueClass>::empty());
    }
    distinct_values_grow(none, Value::Number(a));
    assert(one[0].same(&Value::Number(b)));
    distinct_values_grow(one, Value::Number(b));
    distinct_values_grow(two, Value::Number(POSITIVE_INFINITY));
    distinct_values_grow(three, Value::Number(NEGATIVE_INFINITY));
    assert(four == seq![
        Value::Number(a),
        Value::Number(b),
        Value::Number(POSITIVE_INFINITY),
        Value::Number(NEGATIVE_INFINITY),
    ]);
}

/// A column has no more distinct values than values.
pub proof fn distinct_values_are_no_more_than_values(values: Seq<Value>)
    ensures
        classes(values).finite(),
        classes(values).len() <= values.len(),
{
    broadcast use vstd::seq_lib::seq_to_set_is_finite;

    values.map_values(|v: Value| v.class()).lemma_cardinality_of_set();
}

} // verus!
