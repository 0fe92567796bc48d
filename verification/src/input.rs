use crate::decoding::{decimal_value, is_digit};
use crate::encoding::{int_text, write_int};
use crate::value::{ObjectValue, ObjectView, Type, Value, ValueView};
use vstd::prelude::*;

verus! {

/// The integer that a text stands for in decimal: an optional sign `+` or
/// `-`, then digits and nothing else. There is none where the text has no
/// digit, holds anything else, or stands for a number outside the 64-bit
/// range.
pub open spec fn signed_decimal(s: Seq<char>) -> Option<i64> {
    let negative = s.len() > 0 && s[0] == '-';
    let digits = if s.len() > 0 && (s[0] == '-' || s[0] == '+') {
        s.skip(1)
    } else {
        s
    };
    let value = if negative {
        -(decimal_value(digits) as int)
    } else {
        decimal_value(digits) as int
    };
    if digits.len() > 0 && (forall|i: int| 0 <= i < digits.len() ==> is_digit(#[trigger] digits[i]))
        && i64::MIN <= value <= i64::MAX {
        Some(value as i64)
    } else {
        None
    }
}

/// Calls `str::parse` for an `i64`. The standard library reads an optional
/// sign followed by decimal digits only, and fails on an empty text, on any
/// other character and on overflow.
#[verifier::external_body]
fn parse_i64(s: &str) -> (value: Option<i64>)
    ensures
        value == signed_decimal(s@),
{
    s.parse::<i64>().ok()
}

/// Whether a text is the given literal.
fn text_is(s: &str, literal: &str) -> (same: bool)
    ensures
        same == (s@ == literal@),
{
    let n = literal.unicode_len();
    if s.unicode_len() != n {
        return false;
    }
    let mut i: usize = 0;
    while i < n
        invariant
            i <= n,
            n == literal@.len(),
            n == s@.len(),
            forall|j: int| 0 <= j < i ==> s@[j] == literal@[j],
        decreases n - i,
    {
        if s.get_char(i) != literal.get_char(i) {
            return false;
        }
        i += 1;
    }
    assert(s@ =~= literal@);
    true
}

/// The value of a type that stands where none was given: the empty string,
/// zero, false, or an object without fields.
pub open spec fn default_of(t: Type) -> ValueView {
    match t {
        Type::String => ValueView::String(Seq::empty()),
        Type::Int => ValueView::Int(0),
        Type::Number => ValueView::Number(0),
        Type::Boolean => ValueView::Boolean(false),
        Type::Object(object_type_id) => ValueView::Object(
            ObjectView { object_type_id, fields: Map::empty() },
        ),
    }
}

/// What a text entered for a field of a type reads as. A string is taken as
/// it is; an integer is read in decimal; a boolean is `true` or `false`; a
/// number is what the caller read from the text, as the bits of a double;
/// an object is never read from text.
pub open spec fn parsed(t: Type, s: Seq<char>, number: Option<u64>) -> Option<ValueView> {
    match t {
        Type::String => Some(ValueView::String(s)),
        Type::Int => match signed_decimal(s) {
            Some(i) => Some(ValueView::Int(i)),
            None => None,
        },
        Type::Number => match number {
            Some(bits) => Some(ValueView::Number(bits)),
            None => None,
        },
        Type::Boolean => if s == "true"@ {
            Some(ValueView::Boolean(true))
        } else if s == "false"@ {
            Some(ValueView::Boolean(false))
        } else {
            None
        },
        Type::Object(_) => None,
    }
}

/// The text that shows a value. A number is shown by `number`, the text
/// that the caller made of it.
pub open spec fn shown(v: ValueView, number: Seq<char>) -> Seq<char> {
    match v {
        ValueView::Empty => "<EMPTY>"@,
        ValueView::String(s) => s,
        ValueView::Int(i) => int_text(i as int),
        ValueView::Number(_) => number,
        ValueView::Boolean(b) => if b {
            "true"@
        } else {
            "false"@
        },
        ValueView::Object(_) => "<OBJECT>"@,
    }
}

impl Type {
    /// The value that stands where none was given.
    pub fn default_value(&self) -> (value: Value)
        ensures
            value@ == default_of(*self),
    {
        match self {
            Type::String => Value::String(String::new()),
            Type::Int => Value::Int(0),
            Type::Number => Value::Number(0),
            Type::Boolean => Value::Boolean(false),
            Type::Object(object_type_id) => Value::Object(ObjectValue::new(*object_type_id)),
        }
    }
}

impl Value {
    /// Reads a value of a type from text that a user entered. `number` is
    /// what the caller read from the same text as a double, by its bits; it
    /// counts for the type `Number` only.
    pub fn parse(type_: Type, s: &str, number: Option<u64>) -> (value: Option<Value>)
        ensures
            match value {
                Some(v) => parsed(type_, s@, number) == Some(v@),
                None => parsed(type_, s@, number) is None,
            },
    {
        match type_ {
            Type::String => Some(Value::String(s.to_owned())),
            Type::Int => match parse_i64(s) {
                Some(i) => Some(Value::Int(i)),
                None => None,
            },
            Type::Number => match number {
                Some(bits) => Some(Value::Number(bits)),
                None => None,
            },
            Type::Boolean => if text_is(s, "true") {
                Some(Value::Boolean(true))
            } else if text_is(s, "false") {
                Some(Value::Boolean(false))
            } else {
                None
            },
            Type::Object(_) => None,
        }
    }

    /// The text that shows the value. A number is shown by `number`, the
    /// text that the caller made of it.
    pub fn to_string(&self, number: &str) -> (text: String)
        ensures
            text@ == shown(self@, number@),
    {
        match self {
            Value::Empty => String::from_str("<EMPTY>"),
            Value::String(s) => s.clone(),
            Value::Int(i) => {
                let mut text = String::new();
                write_int(&mut text, *i);
                assert(text@ =~= int_text(*i as int));
                text
            },
            Value::Number(_) => number.to_owned(),
            Value::Boolean(b) => if *b {
                String::from_str("true")
            } else {
                String::from_str("false")
            },
            Value::Object(_) => String::from_str("<OBJECT>"),
        }
    }
}

/// The value of a new document: an object of the type `2325` whose fields
/// `0`, `1` and `2` are empty.
pub open spec fn new_document() -> ValueView {
    ValueView::Object(
        ObjectView {
            object_type_id: 2325,
            fields: Map::empty().insert(0u32, Seq::empty()).insert(1u32, Seq::empty()).insert(
                2u32,
                Seq::empty(),
            ),
        },
    )
}

/// The value of a new document.
pub fn create_value() -> (value: Value)
    ensures
        value@ == new_document(),
{
    let mut object = ObjectValue::new(2325);
    object.fields.insert(0, Vec::new());
    object.fields.insert(1, Vec::new());
    object.fields.insert(2, Vec::new());
    assert(object@.fields =~= new_document()->Object_0.fields);
    Value::Object(object)
}

} // verus!
