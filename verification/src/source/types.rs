//! The seam's vocabulary: the handles, the state and the small records every
//! source hands back. None of it is a format and none of it has behaviour.
use vstd::prelude::*;

verus! {

/// A place in the document that survives folding but not re-layout. Anchors
/// order the way the document reads, and the pager only ever compares them
/// and hands them back to the source it got them from.
#[derive(Clone, Copy, Debug, PartialEq, Eq, PartialOrd, Ord)]
pub struct Anchor(pub usize);

/// A place in the content that survives re-layout, so a resize can put the
/// cursor back where it was.
#[derive(Clone, Copy, Debug, PartialEq, Eq, PartialOrd, Ord)]
pub struct Mark(pub usize);

/// Format-defined fold state: the ids whose state differs from the default.
pub type FoldState = Vec<String>;

/// One entry of the document outline.
#[derive(Clone, Debug, PartialEq, Eq)]
pub struct Entry {
    /// Nesting depth, 1 = outermost.
    pub level: u8,
    /// Stable id for this section: the key its fold state is stored under.
    pub id: String,
    /// Text shown in the outline.
    pub text: String,
    /// Where the section starts.
    pub anchor: Anchor,
    /// True when this section is currently folded shut.
    pub folded: bool,
}

/// One link occurrence in the document, in reading order.
#[derive(Clone, Debug, PartialEq, Eq)]
pub struct LinkSite {
    /// The row the link sits on, as an anchor (it may be folded away).
    pub anchor: Anchor,
    /// Display column the link starts at, within its row.
    pub col: usize,
    pub url: String,
}

/// One search match on a row, in display columns of that row.
#[derive(Clone, Copy, Debug, PartialEq, Eq)]
pub struct MatchSpan {
    pub start: usize,
    pub end: usize,
    /// True for the match the cursor is currently sitting on.
    pub current: bool,
}

/// Where jumping to the end lands, and whether the format still has work to
/// do to know: a format that discovers its document lazily does not know
/// where the end is until it has scanned there, and says so.
#[derive(Clone, Copy, Debug, PartialEq, Eq)]
pub enum End {
    /// The last row the cursor should land on.
    At(usize),
    /// The end is not known yet; `0..=100` of the way there.
    Scanning(u8),
}

/// Where a search landed, and whether it wrapped around the document.
#[derive(Clone, Copy, Debug, PartialEq, Eq)]
pub struct Hit {
    pub anchor: Anchor,
    pub wrapped: bool,
}

/// One row expanded into labelled fields, one per line, nothing hidden.
#[derive(Clone, Debug, PartialEq, Eq)]
pub struct Detail {
    /// What the overlay is titled, e.g. `Row 41`.
    pub title: String,
    /// `(label, value)`, in the format's own order; values are the raw text
    /// the document holds.
    pub fields: Vec<(String, String)>,
}

/// What a yank puts on the clipboard, and what the status bar says it was.
#[derive(Clone, Debug, PartialEq, Eq)]
pub struct Yank {
    /// The text copied.
    pub text: String,
    /// What it was, for the reader: `record 4`, `3 values`.
    pub what: String,
}

} // verus!
