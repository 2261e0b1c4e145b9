//! JSON values as the record sources hold them.
pub mod value;

pub use value::{Member, Value};
