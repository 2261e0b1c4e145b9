//! The open level of a record: one row per part, and which part a row
//! belongs to, so that `Enter` on a call's row opens that call.
use vstd::prelude::*;

use super::super::jsonrow::{decimal, push_decimal, size, spec_size};
use super::body::Body;

verus! {

/// How much a call returned: `empty`, its size when it is one line, and its
/// own lines otherwise: the words the row above it uses, so the two agree.
pub open spec fn spec_size_of(body: Body) -> Seq<char> {
    if body.bytes == 0 {
        "empty"@
    } else if body.lines <= 1 {
        spec_size(body.bytes as nat)
    } else {
        decimal(body.lines as nat) + " lines"@
    }
}

/// How much a call returned, in the words of [`spec_size_of`].
pub fn size_of(body: &Body) -> (s: String)
    ensures
        s@ == spec_size_of(*body),
{
    proof {
        reveal_strlit("empty");
        reveal_strlit(" lines");
        reveal_strlit("");
    }
    if body.bytes == 0 {
        return String::from_str("empty");
    }
    if body.lines <= 1 {
        return size(body.bytes as u64);
    }
    let mut t = String::from_str("");
    push_decimal(&mut t, body.lines);
    t.append(" lines");
    t
}

/// The rows of a record's parts, and which part each row belongs to.
pub struct Laid {
    /// The painted rows.
    pub rows: Vec<String>,
    /// `owner[i]` is the part that row `i` came from: what `Enter` on that row
    /// acts on.
    pub owner: Vec<usize>,
    /// Whether part `p` has anything under it to open. A call does; a named
    /// stretch of text already shows what it has.
    pub opens: Vec<bool>,
}

impl Laid {
    /// Nothing at all: a record with no parts, or one that was not read.
    pub fn empty() -> (l: Laid)
        ensures
            l.rows@.len() == 0,
            l.owner@.len() == 0,
            l.opens@.len() == 0,
    {
        Laid { rows: Vec::new(), owner: Vec::new(), opens: Vec::new() }
    }

    /// The part that row `line` belongs to, where that part is one that
    /// `Enter` opens.
    pub fn call_at(&self, line: usize) -> (r: Option<usize>)
        ensures
            r == (if line < self.owner@.len() && self.owner@[line as int] < self.opens@.len()
                && self.opens@[self.owner@[line as int] as int] {
                Some(self.owner@[line as int])
            } else {
                None
            }),
    {
        if line >= self.owner.len() {
            return None;
        }
        let part = self.owner[line];
        if part < self.opens.len() && self.opens[part] {
            Some(part)
        } else {
            None
        }
    }
}

} // verus!
