use vstd::prelude::*;

verus! {

/// Whether two strings hold the same text.
pub fn string_eq(a: &String, b: &String) -> (r: bool)
    ensures
        r == (a@ == b@),
{
    *a == *b
}

/// A JSON number, kept exactly as the JSON layer reports it: a non-negative
/// integer, a negative integer, or a floating-point number held as the text
/// that the JSON layer prints for it.
#[derive(Debug, Clone, PartialEq, Eq)]
pub enum JsonNumber {
    PosInt(u64),
    NegInt(i64),
    Float(String),
}

/// Mathematical view of a [`JsonNumber`].
pub enum JsonNumberView {
    PosInt(u64),
    NegInt(i64),
    Float(Seq<char>),
}

impl View for JsonNumber {
    type V = JsonNumberView;

    open spec fn view(&self) -> JsonNumberView {
        match self {
            JsonNumber::PosInt(n) => JsonNumberView::PosInt(*n),
            JsonNumber::NegInt(n) => JsonNumberView::NegInt(*n),
            JsonNumber::Float(s) => JsonNumberView::Float(s@),
        }
    }
}

/// A JSON value as the world logic reads it. Scalars are held as such; an
/// array or an object is held as its canonical JSON text (objects with their
/// keys in ascending order), so that two composite values are equal exactly
/// when their texts are.
#[derive(Debug, Clone, PartialEq, Eq)]
pub enum JsonValue {
    Null,
    Bool(bool),
    Number(JsonNumber),
    String(String),
    Composite(String),
}

/// Mathematical view of a [`JsonValue`].
pub enum JsonView {
    Null,
    Bool(bool),
    Number(JsonNumberView),
    String(Seq<char>),
    Composite(Seq<char>),
}

impl View for JsonValue {
    type V = JsonView;

    open spec fn view(&self) -> JsonView {
        match self {
            JsonValue::Null => JsonView::Null,
            JsonValue::Bool(b) => JsonView::Bool(*b),
            JsonValue::Number(n) => JsonView::Number(n@),
            JsonValue::String(s) => JsonView::String(s@),
            JsonValue::Composite(s) => JsonView::Composite(s@),
        }
    }
}

impl JsonNumber {
    /// Whether two numbers are the same JSON number.
    pub fn same_as(&self, other: &JsonNumber) -> (r: bool)
        ensures
            r == (self@ == other@),
    {
        match (self, other) {
            (JsonNumber::PosInt(a), JsonNumber::PosInt(b)) => *a == *b,
            (JsonNumber::NegInt(a), JsonNumber::NegInt(b)) => *a == *b,
            (JsonNumber::Float(a), JsonNumber::Float(b)) => string_eq(a, b),
            _ => false,
        }
    }

    /// A copy of this number.
    pub fn duplicate(&self) -> (r: JsonNumber)
        ensures
            r == *self,
    {
        match self {
            JsonNumber::PosInt(n) => JsonNumber::PosInt(*n),
            JsonNumber::NegInt(n) => JsonNumber::NegInt(*n),
            JsonNumber::Float(s) => JsonNumber::Float(s.clone()),
        }
    }
}

impl JsonValue {
    /// A JSON string.
    pub fn string(s: &str) -> (r: JsonValue)
        ensures
            r@ == JsonView::String(s@),
    {
        JsonValue::String(s.to_string())
    }

    /// Whether two values are the same JSON value.
    pub fn same_as(&self, other: &JsonValue) -> (r: bool)
        ensures
            r == (self@ == other@),
    {
        match (self, other) {
            (JsonValue::Null, JsonValue::Null) => true,
            (JsonValue::Bool(a), JsonValue::Bool(b)) => *a == *b,
            (JsonValue::Number(a), JsonValue::Number(b)) => a.same_as(b),
            (JsonValue::String(a), JsonValue::String(b)) => string_eq(a, b),
            (JsonValue::Composite(a), JsonValue::Composite(b)) => string_eq(a, b),
            _ => false,
        }
    }

    /// Whether this value is the JSON `true`.
    pub fn is_true(&self) -> (r: bool)
        ensures
            r == (self@ == JsonView::Bool(true)),
    {
        match self {
            JsonValue::Bool(b) => *b,
            _ => false,
        }
    }

    /// The text of a JSON string, or `None` for any other value.
    pub fn as_str(&self) -> (r: Option<&str>)
        ensures
            match self@ {
                JsonView::String(s) => r is Some && r->0@ == s,
                _ => r is None,
            },
    {
        match self {
            JsonValue::String(s) => Some(s.as_str()),
            _ => None,
        }
    }

    /// A copy of this value.
    pub fn duplicate(&self) -> (r: JsonValue)
        ensures
            r == *self,
    {
        match self {
            JsonValue::Null => JsonValue::Null,
            JsonValue::Bool(b) => JsonValue::Bool(*b),
            JsonValue::Number(n) => JsonValue::Number(n.duplicate()),
            JsonValue::String(s) => JsonValue::String(s.clone()),
            JsonValue::Composite(s) => JsonValue::Composite(s.clone()),
        }
    }
}

} // verus!
