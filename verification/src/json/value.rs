//! A parsed JSON value. Objects keep their members in document order, and
//! duplicate keys are kept: a tree row is addressed by position, not by key.
use vstd::prelude::*;

use crate::source::jsonrow::Shape;

verus! {

/// A JSON value. A number keeps the text it was written as, so that a row
/// shows exactly what the document says.
pub enum Value {
    Null,
    Bool(bool),
    Number(String),
    Str(String),
    Array(Vec<Value>),
    Object(Vec<Member>),
}

/// One member of an object: its key and its value.
pub struct Member {
    pub key: String,
    pub value: Value,
}

impl Value {
    /// What the value is, as a tree row needs to know.
    pub open spec fn spec_shape(&self) -> Shape {
        match self {
            Value::Null => Shape::Null,
            Value::Bool(_) => Shape::Bool,
            Value::Number(_) => Shape::Number,
            Value::Str(_) => Shape::Str,
            Value::Array(_) => Shape::Array,
            Value::Object(_) => Shape::Object,
        }
    }

    /// An object or an array.
    pub open spec fn spec_is_container(&self) -> bool {
        self is Array || self is Object
    }

    /// Members of a container; nothing for a scalar.
    pub open spec fn spec_len(&self) -> nat {
        match self {
            Value::Array(items) => items@.len(),
            Value::Object(ms) => ms@.len(),
            _ => 0,
        }
    }

    /// What the value is, as a tree row needs to know.
    pub fn shape(&self) -> (s: Shape)
        ensures
            s == self.spec_shape(),
    {
        match self {
            Value::Null => Shape::Null,
            Value::Bool(_) => Shape::Bool,
            Value::Number(_) => Shape::Number,
            Value::Str(_) => Shape::Str,
            Value::Array(_) => Shape::Array,
            Value::Object(_) => Shape::Object,
        }
    }

    /// An object or an array.
    pub fn is_container(&self) -> (b: bool)
        ensures
            b == self.spec_is_container(),
    {
        match self {
            Value::Array(_) | Value::Object(_) => true,
            _ => false,
        }
    }

    /// Members of a container; zero for a scalar.
    pub fn len(&self) -> (n: usize)
        ensures
            n == self.spec_len(),
    {
        match self {
            Value::Array(items) => items.len(),
            Value::Object(ms) => ms.len(),
            _ => 0,
        }
    }
}

/// A member of a container is smaller than the container.
pub proof fn lemma_member_decreases(v: Value, i: int)
    ensures
        v is Array && 0 <= i < v->Array_0@.len() ==> decreases_to!(v => v->Array_0@[i]),
        v is Object && 0 <= i < v->Object_0@.len() ==> decreases_to!(v => v->Object_0@[i].value),
{
    match v {
        Value::Array(items) => {
            if 0 <= i < items@.len() {
                assert(decreases_to!(items => items@));
                assert(decreases_to!(items@ => items@[i]));
            }
        },
        Value::Object(ms) => {
            if 0 <= i < ms@.len() {
                assert(decreases_to!(ms => ms@));
                assert(decreases_to!(ms@ => ms@[i]));
                assert(decreases_to!(ms@[i] => ms@[i].value));
            }
        },
        _ => {},
    }
}

} // verus!
