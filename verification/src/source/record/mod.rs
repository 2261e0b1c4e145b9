//! Records in general, above any one record format: which rows an open record
//! owns, what a lens does to the shape of a record document, and what the
//! fold keys do to it.
pub mod body;
pub mod cache;
pub mod lensrow;
pub mod ops;
pub mod parts;
pub mod plan;
pub mod rowmap;
pub mod source;
pub mod store;

use vstd::prelude::*;

use super::jsonrow::{child_id, decimal};

verus! {

/// The fold id of record `record`: a record document's root is the implicit
/// list of records, so record 4 is `/4`, the twin of a group's `g4`.
pub fn fold_id(record: usize) -> (id: String)
    ensures
        id@ == seq!['/'] + decimal(record as nat),
{
    proof {
        reveal_strlit("");
    }
    child_id("", record)
}

} // verus!
