//! A terminal reader's platform seam and record-layout arithmetic.
pub mod json;
pub mod source;
pub mod sys;
pub mod url;
