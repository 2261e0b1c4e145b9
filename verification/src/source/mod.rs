//! Documents behind the format seam: the handles every source hands back,
//! search, and the record machinery a lens reshapes.
pub mod jsonl;
pub mod jsonrow;
pub mod record;
pub mod search;
pub mod text;
pub mod types;

pub use types::{Anchor, Detail, End, Entry, FoldState, Hit, LinkSite, Mark, MatchSpan};
