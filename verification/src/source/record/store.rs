//! Where records come from: a record is read from the file and parsed when
//! it is shown, and what that came to is kept in hand.
use vstd::prelude::*;

use crate::json::value::Value;

verus! {

/// A record, as far as the reader got with it.
pub enum Record {
    /// Valid JSON.
    Value(Value),
    /// Not JSON, or too big to parse, and why: shown as an error row rather
    /// than stopping the file.
    Bad(String),
}

impl Record {
    /// The value, for a record that parsed.
    pub fn value(&self) -> (v: Option<&Value>)
        ensures
            match self {
                Record::Value(x) => v == Some(x),
                Record::Bad(_) => v is None,
            },
    {
        match self {
            Record::Value(v) => Some(v),
            Record::Bad(_) => None,
        }
    }
}

} // verus!
