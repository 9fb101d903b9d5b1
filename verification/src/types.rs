//! The scalar held in a table cell, with its own notion of equality.
use crate::number::{
    infinite, is_infinite, is_nan, is_sign_positive, nan, negative, rank, same_number, zero,
    NEGATIVE_INFINITY, POSITIVE_INFINITY,
};
use vstd::prelude::*;
use vstd::std_specs::cmp::PartialEqSpecImpl;
use vstd::std_specs::convert::FromSpecImpl;

verus! {

/// One cell of a column.
///
/// A number is an IEEE 754 binary64 value held as its bit pattern.
#[derive(Debug, Clone)]
pub enum Value {
    Number(u64),
    Text(String),
    Boolean(bool),
    Null,
}

/// What two values must share to be equal: equal values have the same class
/// and unequal values different ones.
///
/// Every NaN falls into one class. Any other number is classed by its place on
/// the number line, so the two zeros share a class and each infinity has one
/// of its own.
pub enum ValueClass {
    NotANumber,
    Number(int),
    Text(Seq<char>),
    Boolean(bool),
    Null,
}

/// What a value contributes to a hash.
///
/// A NaN contributes the byte 0, positive infinity the byte 1, negative
/// infinity the byte 2 and the absent value the byte 3. A finite number
/// contributes its bit pattern, a boolean the byte 0 or 1, a text itself.
#[derive(Debug, Clone, PartialEq, Eq, Hash)]
pub enum HashKey {
    Byte(u8),
    Word(u64),
    Text(String),
}

/// A hash key with its text as a sequence of characters.
pub enum HashKeyView {
    Byte(u8),
    Word(u64),
    Text(Seq<char>),
}

impl View for HashKey {
    type V = HashKeyView;

    open spec fn view(&self) -> HashKeyView {
        match self {
            HashKey::Byte(b) => HashKeyView::Byte(*b),
            HashKey::Word(w) => HashKeyView::Word(*w),
            HashKey::Text(s) => HashKeyView::Text(s@),
        }
    }
}

impl Value {
    /// The class of this value under equality.
    pub open spec fn class(&self) -> ValueClass {
        match self {
            Value::Number(bits) => if nan(*bits) {
                ValueClass::NotANumber
            } else {
                ValueClass::Number(rank(*bits))
            },
            Value::Text(s) => ValueClass::Text(s@),
            Value::Boolean(b) => ValueClass::Boolean(*b),
            Value::Null => ValueClass::Null,
        }
    }

    /// Equality of values. Numbers are equal when they are numerically equal
    /// or both NaN; texts, booleans and the absent value compare by content;
    /// values of different kinds are never equal.
    pub open spec fn same(&self, other: &Value) -> bool {
        match (self, other) {
            (Value::Number(a), Value::Number(b)) => same_number(*a, *b),
            (Value::Text(a), Value::Text(b)) => a@ == b@,
            (Value::Boolean(a), Value::Boolean(b)) => a == b,
            (Value::Null, Value::Null) => true,
            _ => false,
        }
    }

    /// Whether this value is a number.
    pub open spec fn numeric(&self) -> bool {
        self is Number
    }

    /// What this value contributes to a hash.
    pub open spec fn hash_key_spec(&self) -> HashKeyView {
        match self {
            Value::Number(bits) => if nan(*bits) {
                HashKeyView::Byte(0)
            } else if infinite(*bits) {
                if negative(*bits) {
                    HashKeyView::Byte(2)
                } else {
                    HashKeyView::Byte(1)
                }
            } else {
                HashKeyView::Word(*bits)
            },
            Value::Text(s) => HashKeyView::Text(s@),
            Value::Boolean(b) => HashKeyView::Byte(if *b { 1 } else { 0 }),
            Value::Null => HashKeyView::Byte(3),
        }
    }

    /// What this value contributes to a hash: values that are equal contribute
    /// the same, except for a positive and a negative zero.
    pub fn hash_key(&self) -> (key: HashKey)
        ensures
            key@ == self.hash_key_spec(),
    {
        match self {
            Value::Number(bits) => {
                if is_nan(*bits) {
                    HashKey::Byte(0)
                } else if is_infinite(*bits) {
                    if is_sign_positive(*bits) {
                        HashKey::Byte(1)
                    } else {
                        HashKey::Byte(2)
                    }
                } else {
                    HashKey::Word(*bits)
                }
            },
            Value::Text(s) => HashKey::Text(s.clone()),
            Value::Boolean(b) => HashKey::Byte(if *b { 1 } else { 0 }),
            Value::Null => HashKey::Byte(3),
        }
    }
}

impl PartialEq for Value {
    fn eq(&self, other: &Value) -> (r: bool) {
        match (self, other) {
            (Value::Number(a), Value::Number(b)) => crate::number::same(*a, *b),
            (Value::Text(a), Value::Text(b)) => *a == *b,
            (Value::Boolean(a), Value::Boolean(b)) => *a == *b,
            (Value::Null, Value::Null) => true,
            _ => false,
        }
    }
}

impl PartialEqSpecImpl for Value {
    open spec fn obeys_eq_spec() -> bool {
        true
    }

    open spec fn eq_spec(&self, other: &Value) -> bool {
        self.same(other)
    }
}

impl Eq for Value {

}

impl From<String> for Value {
    fn from(s: String) -> (value: Value) {
        Value::Text(s)
    }
}

impl FromSpecImpl<String> for Value {
    open spec fn obeys_from_spec() -> bool {
        true
    }

    open spec fn from_spec(s: String) -> Value {
        Value::Text(s)
    }
}

impl<'a> From<&'a str> for Value {
    fn from(s: &'a str) -> (value: Value)
        ensures
            value is Text,
            value->Text_0@ == s@,
    {
        Value::Text(s.to_owned())
    }
}

impl<'a> FromSpecImpl<&'a str> for Value {
    open spec fn obeys_from_spec() -> bool {
        false
    }

    open spec fn from_spec(s: &'a str) -> Value {
        arbitrary()
    }
}

impl From<bool> for Value {
    fn from(b: bool) -> (value: Value) {
        Value::Boolean(b)
    }
}

impl FromSpecImpl<bool> for Value {
    open spec fn obeys_from_spec() -> bool {
        true
    }

    open spec fn from_spec(b: bool) -> Value {
        Value::Boolean(b)
    }
}

/// Values are equal exactly when their classes are.
pub proof fn same_iff_same_class(a: Value, b: Value)
    ensures
        a.same(&b) <==> a.class() == b.class(),
{
}

/// Equality of values is reflexive, symmetric and transitive.
pub proof fn same_is_equivalence(a: Value, b: Value, c: Value)
    ensures
        a.same(&a),
        a.same(&b) ==> b.same(&a),
        a.same(&b) && b.same(&c) ==> a.same(&c),
{
}

/// A NaN equals every NaN and nothing else; an infinity equals only the
/// number with its own bit pattern, so the two infinities differ from each
/// other and from every finite number.
pub proof fn special_values_compare(a: u64, b: u64, other: Value)
    ensures
        nan(a) && nan(b) ==> Value::Number(a).same(&Value::Number(b)),
        nan(a) && Value::Number(a).same(&other) ==> other is Number && nan(other->Number_0),
        infinite(a) && Value::Number(a).same(&other) ==> other == Value::Number(a),
        !Value::Number(POSITIVE_INFINITY).same(&Value::Number(NEGATIVE_INFINITY)),
{
}

/// Equal values contribute the same to a hash, unless they are a positive and
/// a negative zero.
pub proof fn equal_values_hash_alike(a: Value, b: Value)
    requires
        a.same(&b),
        !(a is Number && b is Number && zero(a->Number_0) && a != b),
    ensures
        a.hash_key_spec() == b.hash_key_spec(),
{
}

/// Numbers that contribute the same to a hash are equal.
pub proof fn hash_key_tells_numbers_apart(a: u64, b: u64)
    requires
        Value::Number(a).hash_key_spec() == Value::Number(b).hash_key_spec(),
    ensures
        Value::Number(a).same(&Value::Number(b)),
{
}

} // verus!
