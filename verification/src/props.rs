//! Property values of features.

use vstd::prelude::*;

verus! {

/// A JSON value. Floating-point numbers are given as bit patterns, arrays and
/// objects as their JSON text.
#[derive(Clone, Debug)]
pub enum PropValue {
    Null,
    Bool(bool),
    Int(i64),
    Float(u64),
    Text(String),
    Array(String),
    Object(String),
}

/// A JSON value with its text as a sequence of characters.
pub enum PropView {
    Null,
    Bool(bool),
    Int(i64),
    Float(u64),
    Text(Seq<char>),
    Array(Seq<char>),
    Object(Seq<char>),
}

impl View for PropValue {
    type V = PropView;

    open spec fn view(&self) -> PropView {
        match *self {
            PropValue::Null => PropView::Null,
            PropValue::Bool(b) => PropView::Bool(b),
            PropValue::Int(i) => PropView::Int(i),
            PropValue::Float(d) => PropView::Float(d),
            PropValue::Text(s) => PropView::Text(s@),
            PropValue::Array(s) => PropView::Array(s@),
            PropValue::Object(s) => PropView::Object(s@),
        }
    }
}

/// The type of a value in the metadata.
pub open spec fn type_label(v: PropView) -> Seq<char> {
    match v {
        PropView::Null => "Null"@,
        PropView::Bool(_) => "Boolean"@,
        PropView::Int(_) => "Number"@,
        PropView::Float(_) => "Number"@,
        PropView::Text(_) => "String"@,
        PropView::Array(_) => "mixed"@,
        PropView::Object(_) => "mixed"@,
    }
}

/// The kind of a value in estimates.
pub open spec fn kind_label(v: PropView) -> Seq<char> {
    match v {
        PropView::Null => "null"@,
        PropView::Bool(_) => "bool"@,
        PropView::Int(_) => "number"@,
        PropView::Float(_) => "number"@,
        PropView::Text(_) => "string"@,
        PropView::Array(_) => "array"@,
        PropView::Object(_) => "object"@,
    }
}

/// The type of a value in the metadata.
pub fn json_type_name(v: &PropValue) -> (r: &'static str)
    ensures
        r@ == type_label(v@),
{
    match v {
        PropValue::Null => "Null",
        PropValue::Bool(_) => "Boolean",
        PropValue::Int(_) => "Number",
        PropValue::Float(_) => "Number",
        PropValue::Text(_) => "String",
        PropValue::Array(_) => "mixed",
        PropValue::Object(_) => "mixed",
    }
}

/// The kind of a value in estimates.
pub fn json_kind(v: &PropValue) -> (r: &'static str)
    ensures
        r@ == kind_label(v@),
{
    match v {
        PropValue::Null => "null",
        PropValue::Bool(_) => "bool",
        PropValue::Int(_) => "number",
        PropValue::Float(_) => "number",
        PropValue::Text(_) => "string",
        PropValue::Array(_) => "array",
        PropValue::Object(_) => "object",
    }
}

/// Values are told by their JSON type: numbers are one type, whole or not, and what is
/// made up of other values is mixed in the metadata.
pub proof fn values_are_told_by_their_type(v: PropView)
    ensures
        type_label(v) == (if v is Null {
            "Null"@
        } else if v is Bool {
            "Boolean"@
        } else if v is Int || v is Float {
            "Number"@
        } else if v is Text {
            "String"@
        } else {
            "mixed"@
        }),
        kind_label(v) == (if v is Null {
            "null"@
        } else if v is Bool {
            "bool"@
        } else if v is Int || v is Float {
            "number"@
        } else if v is Text {
            "string"@
        } else if v is Array {
            "array"@
        } else {
            "object"@
        }),
{
}

} // verus!
