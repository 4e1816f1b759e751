//! Values: the scalars that can be stored at a path.

use crate::number::{number_order, number_text, Number, NumberModel, Order};
use crate::path::{path_text, Path, Seg};
use crate::text::{int_text, push_int, push_quoted, push_str, quoted, string_of, text_of};
use vstd::prelude::*;

verus! {

/// The mathematical model of a value.
pub enum ValueModel {
    /// Null value
    Null,
    /// Boolean value
    Boolean(bool),
    /// Integer value
    Integer(int),
    /// Floating point value, by its decimal notation
    Float(NumberModel),
    /// String value
    String(Seq<char>),
    /// Binary data with optional MIME type
    Binary(Seq<u8>, Option<Seq<char>>),
    /// Reference to another path
    Reference(Seq<Seg>),
}

/// The name of the type of a value.
pub open spec fn kind_name_of(v: ValueModel) -> Seq<char> {
    match v {
        ValueModel::Null => "null"@,
        ValueModel::Boolean(_) => "boolean"@,
        ValueModel::Integer(_) => "integer"@,
        ValueModel::Float(_) => "float"@,
        ValueModel::String(_) => "string"@,
        ValueModel::Binary(_, _) => "binary"@,
        ValueModel::Reference(_) => "reference"@,
    }
}

/// How a value is shown: `null`; `true` or `false`; a number in decimal
/// notation; a string in quotes; binary data by a marker, with the MIME
/// type where there is one; a reference by `@` and the path.
pub open spec fn value_text(v: ValueModel) -> Seq<char> {
    match v {
        ValueModel::Null => "null"@,
        ValueModel::Boolean(b) => if b {
            "true"@
        } else {
            "false"@
        },
        ValueModel::Integer(i) => int_text(i),
        ValueModel::Float(n) => number_text(n),
        ValueModel::String(s) => quoted(s),
        ValueModel::Binary(_, mime) => match mime {
            Some(m) => "[binary data: "@ + m + "]"@,
            None => "[binary data]"@,
        },
        ValueModel::Reference(p) => "@"@ + path_text(p),
    }
}

/// Whether two values are equal. Values of different types never are; two
/// floating point values are equal where they are equal as numbers.
pub open spec fn values_equal(a: ValueModel, b: ValueModel) -> bool {
    match (a, b) {
        (ValueModel::Float(x), ValueModel::Float(y)) => number_order(x, y) == Some(Order::Equal),
        (ValueModel::Float(_), _) => false,
        (_, ValueModel::Float(_)) => false,
        _ => a == b,
    }
}

/// The different types of values that can be stored in the database
#[derive(Debug, PartialEq)]
pub enum Value {
    /// Null value
    Null,
    /// Boolean value
    Boolean(bool),
    /// Integer value
    Integer(i64),
    /// Floating point value
    Float(Number),
    /// String value
    String(String),
    /// Binary data with optional MIME type
    Binary(Vec<u8>, Option<String>),
    /// Reference to another path
    Reference(Path),
}

impl View for Value {
    type V = ValueModel;

    open spec fn view(&self) -> ValueModel {
        match self {
            Value::Null => ValueModel::Null,
            Value::Boolean(b) => ValueModel::Boolean(*b),
            Value::Integer(i) => ValueModel::Integer(*i as int),
            Value::Float(n) => ValueModel::Float(n@),
            Value::String(s) => ValueModel::String(s@),
            Value::Binary(data, mime) => ValueModel::Binary(
                data@,
                match mime {
                    Some(m) => Some(m@),
                    None => None,
                },
            ),
            Value::Reference(p) => ValueModel::Reference(p@),
        }
    }
}

impl Clone for Value {
    fn clone(&self) -> (r: Self)
        ensures
            r@ == self@,
    {
        match self {
            Value::Null => Value::Null,
            Value::Boolean(b) => Value::Boolean(*b),
            Value::Integer(i) => Value::Integer(*i),
            Value::Float(n) => Value::Float(n.clone()),
            Value::String(s) => Value::String(s.clone()),
            Value::Binary(data, mime) => {
                let m = match mime {
                    Some(m) => Some(m.clone()),
                    None => None,
                };
                Value::Binary(data.clone(), m)
            },
            Value::Reference(p) => Value::Reference(p.clone()),
        }
    }
}

/// Whether two byte vectors hold the same bytes.
pub fn same_bytes(a: &Vec<u8>, b: &Vec<u8>) -> (r: bool)
    ensures
        r == (a@ == b@),
{
    if a.len() != b.len() {
        return false;
    }
    let mut i: usize = 0;
    while i < a.len()
        invariant
            i <= a.len(),
            a.len() == b.len(),
            forall|k: int| 0 <= k < i ==> a@[k] == b@[k],
        decreases a.len() - i,
    {
        if a[i] != b[i] {
            return false;
        }
        i += 1;
    }
    assert(a@ =~= b@);
    true
}

impl Value {
    /// Check if the value is null
    pub fn is_null(&self) -> (r: bool)
        ensures
            r == (self@ is Null),
    {
        match self {
            Value::Null => true,
            _ => false,
        }
    }

    /// Check if the value is a boolean
    pub fn is_boolean(&self) -> (r: bool)
        ensures
            r == (self@ is Boolean),
    {
        match self {
            Value::Boolean(_) => true,
            _ => false,
        }
    }

    /// Check if the value is an integer
    pub fn is_integer(&self) -> (r: bool)
        ensures
            r == (self@ is Integer),
    {
        match self {
            Value::Integer(_) => true,
            _ => false,
        }
    }

    /// Check if the value is a float
    pub fn is_float(&self) -> (r: bool)
        ensures
            r == (self@ is Float),
    {
        match self {
            Value::Float(_) => true,
            _ => false,
        }
    }

    /// Check if the value is a number (integer or float)
    pub fn is_number(&self) -> (r: bool)
        ensures
            r == (self@ is Integer || self@ is Float),
    {
        self.is_integer() || self.is_float()
    }

    /// Check if the value is a string
    pub fn is_string(&self) -> (r: bool)
        ensures
            r == (self@ is String),
    {
        match self {
            Value::String(_) => true,
            _ => false,
        }
    }

    /// Check if the value is binary data
    pub fn is_binary(&self) -> (r: bool)
        ensures
            r == (self@ is Binary),
    {
        match self {
            Value::Binary(_, _) => true,
            _ => false,
        }
    }

    /// Check if the value is a reference
    pub fn is_reference(&self) -> (r: bool)
        ensures
            r == (self@ is Reference),
    {
        match self {
            Value::Reference(_) => true,
            _ => false,
        }
    }

    /// Get a string representation of the value's type
    pub fn kind_name(&self) -> (r: &'static str)
        ensures
            r@ == kind_name_of(self@),
    {
        match self {
            Value::Null => "null",
            Value::Boolean(_) => "boolean",
            Value::Integer(_) => "integer",
            Value::Float(_) => "float",
            Value::String(_) => "string",
            Value::Binary(_, _) => "binary",
            Value::Reference(_) => "reference",
        }
    }

    /// Appends the text of the value to `out`.
    pub fn push_text(&self, out: &mut Vec<char>)
        ensures
            final(out)@ == old(out)@ + value_text(self@),
    {
        match self {
            Value::Null => push_str(out, "null"),
            Value::Boolean(b) => {
                if *b {
                    push_str(out, "true")
                } else {
                    push_str(out, "false")
                }
            },
            Value::Integer(i) => push_int(out, *i),
            Value::Float(n) => n.push_text(out),
            Value::String(s) => push_quoted(out, s.as_str()),
            Value::Binary(_, mime) => {
                match mime {
                    Some(m) => {
                        push_str(out, "[binary data: ");
                        push_str(out, m.as_str());
                        push_str(out, "]");
                        assert(out@ == old(out)@ + ("[binary data: "@ + m@ + "]"@));
                    },
                    None => push_str(out, "[binary data]"),
                }
            },
            Value::Reference(p) => {
                push_str(out, "@");
                let text = p.to_string();
                push_str(out, text.as_str());
                assert(out@ == old(out)@ + ("@"@ + path_text(p@)));
            },
        }
    }

    /// Format the value as text
    pub fn to_string(&self) -> (r: String)
        ensures
            r@ == value_text(self@),
    {
        let mut out: Vec<char> = Vec::new();
        self.push_text(&mut out);
        assert(Seq::<char>::empty() + value_text(self@) == value_text(self@));
        string_of(&out)
    }

    /// Whether two values are equal.
    pub fn same_as(&self, other: &Value) -> (r: bool)
        ensures
            r == values_equal(self@, other@),
    {
        match (self, other) {
            (Value::Null, Value::Null) => true,
            (Value::Boolean(a), Value::Boolean(b)) => *a == *b,
            (Value::Integer(a), Value::Integer(b)) => *a == *b,
            (Value::Float(a), Value::Float(b)) => {
                match a.order(b) {
                    Some(Order::Equal) => true,
                    _ => false,
                }
            },
            (Value::String(a), Value::String(b)) => *a == *b,
            (Value::Binary(a, ma), Value::Binary(b, mb)) => {
                let same_mime = match (ma, mb) {
                    (Some(x), Some(y)) => *x == *y,
                    (None, None) => true,
                    _ => false,
                };
                same_mime && same_bytes(a, b)
            },
            (Value::Reference(a), Value::Reference(b)) => a.same_as(b),
            _ => false,
        }
    }
}

impl From<i32> for Value {
    fn from(i: i32) -> (r: Self) {
        Value::Integer(i as i64)
    }
}

impl vstd::std_specs::convert::FromSpecImpl<i32> for Value {
    open spec fn obeys_from_spec() -> bool {
        true
    }

    open spec fn from_spec(i: i32) -> Self {
        Value::Integer(i as i64)
    }
}

impl From<i64> for Value {
    fn from(i: i64) -> (r: Self) {
        Value::Integer(i)
    }
}

impl vstd::std_specs::convert::FromSpecImpl<i64> for Value {
    open spec fn obeys_from_spec() -> bool {
        true
    }

    open spec fn from_spec(i: i64) -> Self {
        Value::Integer(i)
    }
}

impl From<bool> for Value {
    fn from(b: bool) -> (r: Self) {
        Value::Boolean(b)
    }
}

impl vstd::std_specs::convert::FromSpecImpl<bool> for Value {
    open spec fn obeys_from_spec() -> bool {
        true
    }

    open spec fn from_spec(b: bool) -> Self {
        Value::Boolean(b)
    }
}

impl From<String> for Value {
    fn from(s: String) -> (r: Self) {
        Value::String(s)
    }
}

impl vstd::std_specs::convert::FromSpecImpl<String> for Value {
    open spec fn obeys_from_spec() -> bool {
        true
    }

    open spec fn from_spec(s: String) -> Self {
        Value::String(s)
    }
}

impl<'a> From<&'a str> for Value {
    fn from(s: &'a str) -> (r: Self) {
        Value::String(text_of(s))
    }
}

impl<'a> vstd::std_specs::convert::FromSpecImpl<&'a str> for Value {
    open spec fn obeys_from_spec() -> bool {
        false
    }

    open spec fn from_spec(s: &'a str) -> Self {
        arbitrary()
    }
}

impl From<Number> for Value {
    fn from(n: Number) -> (r: Self) {
        Value::Float(n)
    }
}

impl vstd::std_specs::convert::FromSpecImpl<Number> for Value {
    open spec fn obeys_from_spec() -> bool {
        true
    }

    open spec fn from_spec(n: Number) -> Self {
        Value::Float(n)
    }
}

/// The string value with the text `s`.
pub fn string_value(s: &str) -> (r: Value)
    ensures
        r@ == ValueModel::String(s@),
{
    Value::String(text_of(s))
}

} // verus!
