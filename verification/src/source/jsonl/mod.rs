//! Records of a `.jsonl` file: one JSON value per line, each laid out as the
//! rows of its tree when it is opened.
//!
//! Without a lens a record is one summary row until the reader opens it, and
//! then its tree rows follow that row. [`JsonlSource`] holds the records the
//! index has read, which of them are open, and the outline over the rows the
//! last frame painted; the row arithmetic is [`RowMap`]'s and the rows are
//! [`tree`]'s. Reading the file is the caller's: it hands the parsed records
//! over, and a record that did not parse stays in the list as an error row.
pub mod tree;

use vstd::prelude::*;

use crate::json::value::Value;
use crate::source::jsonrow::{spec_json, to_json};
use crate::source::jsonrow::{
    decimal, lemma_top_index_round_trip, parse_decimal, parse_usize, push_decimal, spec_summary_text, top_index,
    ALL_OPEN,
};
use crate::source::record::body::views;
use crate::source::record::fold_id;
use crate::source::record::rowmap::{
    layout_rows, lemma_entries, lemma_extra_before_mono, lemma_rows_unique, lemma_wf_view, sorted_positive,
    total, RowMap,
};
use crate::source::record::source::{entry_with, spec_fold_ids, spec_top_index};
use crate::source::record::store::Record;
use crate::source::types::{Anchor, Entry, Yank};
use tree::{
    node_at, record_spans, row_count, row_value, rows, spec_record_text, spec_rows, spec_segs, spec_tree_texts,
    summary_text,
};

verus! {

/// Rows record `rec`'s tree occupies below its summary row; none for a record
/// that did not parse.
pub open spec fn spec_tree_len(rec: Record) -> nat {
    match rec {
        Record::Value(v) => (spec_rows(v).len() - 1) as nat,
        Record::Bad(_) => 0,
    }
}

/// Rows the first `n` records' trees occupy, every one of them open.
pub open spec fn trees_before(records: Seq<Record>, n: int) -> nat
    decreases n,
{
    if n <= 0 {
        0
    } else {
        trees_before(records, n - 1) + spec_tree_len(records[n - 1])
    }
}

/// A record's own row: the fold marker for a record that opens, a blank
/// gutter for one that does not, then the record's collapsed value; a record
/// that did not parse says so, with its line number.
pub open spec fn spec_record_row(rec: Record, record: nat) -> Seq<char> {
    match rec {
        Record::Value(v) => (if spec_rows(v).len() > 1 {
            "\u{25be} "@
        } else {
            "  "@
        }) + spec_record_text(v),
        Record::Bad(why) => "  line "@ + decimal(record + 1) + ": "@ + why@,
    }
}

/// The text of row `sub` of record `record`: its own row, then its tree's.
pub open spec fn spec_line(records: Seq<Record>, record: int, sub: int) -> Seq<char> {
    if sub == 0 {
        spec_record_row(records[record], record as nat)
    } else {
        match records[record] {
            Record::Value(v) => spec_tree_texts(v)[sub - 1],
            Record::Bad(_) => Seq::empty(),
        }
    }
}

/// The record and the row within it that screen row `row` falls on.
pub open spec fn spec_at(map: RowMap, row: int) -> (int, int) {
    choose|p: (int, int)| 0 <= p.1 <= map.spec_extra_of(p.0) && map.spec_row_of(p.0) + p.1 == row
}

/// A `.jsonl` document without a lens: its records, which of them are open,
/// and the outline over the rows the last frame painted.
pub struct JsonlSource {
    /// The records read so far, in file order.
    pub records: Vec<Record>,
    /// Which records are open, and what that does to the row numbering.
    pub map: RowMap,
    /// One entry per record that can be opened among the painted rows.
    pub outline: Vec<Entry>,
    /// `zR` is in force: records are opened as the viewport reaches them.
    pub expand_all: bool,
    /// Records `expand_all` has already considered.
    pub filled: usize,
}

impl JsonlSource {
    /// The document is consistent: an open record is a record the list holds,
    /// open to exactly the rows of its tree, and the rows of the document with
    /// every record open can be counted.
    pub open spec fn wf(&self) -> bool {
        &&& self.map.wf()
        &&& forall|r: int|
            #[trigger] self.map.spec_is_open(r) ==> 0 <= r < self.records@.len()
                && self.map.spec_extra_of(r) == spec_tree_len(self.records@[r])
        &&& self.records@.len() + trees_before(self.records@, self.records@.len() as int) <= usize::MAX
    }

    /// A document over `records`, every record shut, with no outline yet.
    pub fn new(records: Vec<Record>) -> (s: JsonlSource)
        requires
            records@.len() + trees_before(records@, records@.len() as int) <= usize::MAX,
        ensures
            s.wf(),
            s.records@ == records@,
            s.map@.len() == 0,
            s.outline@.len() == 0,
            !s.expand_all,
            s.filled == 0,
    {
        JsonlSource { records, map: RowMap::new(), outline: Vec::new(), expand_all: false, filled: 0 }
    }

    /// Records read so far.
    pub fn known(&self) -> (n: usize)
        ensures
            n == self.records@.len(),
    {
        self.records.len()
    }

    /// Rows record `record`'s tree occupies; none past the last record.
    pub fn tree_len(&self, record: usize) -> (n: usize)
        requires
            self.wf(),
        ensures
            n == if record < self.records@.len() {
                spec_tree_len(self.records@[record as int])
            } else {
                0
            },
    {
        if record >= self.records.len() {
            return 0;
        }
        proof {
            lemma_tree_len_fits(self.records@, record as int, self.records@.len() as int);
        }
        match &self.records[record] {
            Record::Value(v) => row_count(v),
            Record::Bad(_) => 0,
        }
    }

    /// A record's own row: [`spec_record_row`].
    pub fn record_row(&self, record: usize) -> (s: String)
        requires
            self.wf(),
            record < self.records@.len(),
        ensures
            s@ == spec_record_row(self.records@[record as int], record as nat),
    {
        proof {
            lemma_tree_len_fits(self.records@, record as int, self.records@.len() as int);
            reveal_strlit("\u{25be} ");
            reveal_strlit("  ");
            reveal_strlit("  line ");
            reveal_strlit(": ");
        }
        match &self.records[record] {
            Record::Value(v) => {
                let n = row_count(v);
                let mut s = if n > 0 {
                    String::from_str("\u{25be} ")
                } else {
                    String::from_str("  ")
                };
                let rest = record_spans(v);
                s.append(rest.as_str());
                s
            },
            Record::Bad(why) => {
                let mut s = String::from_str("  line ");
                push_decimal(&mut s, record + 1);
                s.append(": ");
                s.append(why.as_str());
                s
            },
        }
    }
}

/// A record's tree is no taller than every tree before it and its own
/// together, and a record's row count can be counted.
proof fn lemma_tree_len_fits(records: Seq<Record>, r: int, n: int)
    requires
        0 <= r < n <= records.len(),
        records.len() + trees_before(records, records.len() as int) <= usize::MAX,
    ensures
        spec_tree_len(records[r]) <= trees_before(records, n),
        records[r] matches Record::Value(v) ==> spec_rows(v).len() <= usize::MAX,
        r + 1 <= usize::MAX,
    decreases n,
{
    lemma_trees_before_mono(records, n, records.len() as int);
    if r < n - 1 {
        lemma_tree_len_fits(records, r, n - 1);
    }
}

/// Rows of the first trees only grow with how many are counted.
proof fn lemma_trees_before_mono(records: Seq<Record>, i: int, j: int)
    requires
        0 <= i <= j,
    ensures
        trees_before(records, i) <= trees_before(records, j),
    decreases j - i,
{
    if i < j {
        lemma_trees_before_mono(records, i, j - 1);
    }
}

/// The open records' trees are no more rows than every tree of the records
/// below the last of them.
proof fn lemma_total_le_trees(v: Seq<(usize, usize)>, records: Seq<Record>, n: int)
    requires
        sorted_positive(v),
        n <= records.len(),
        forall|i: int| 0 <= i < v.len() ==> (#[trigger] v[i]).0 < n,
        forall|i: int| 0 <= i < v.len() ==> (#[trigger] v[i]).1 == spec_tree_len(records[v[i].0 as int]),
    ensures
        total(v) <= trees_before(records, n),
    decreases v.len(),
{
    if v.len() > 0 {
        let (rl, el) = v.last();
        let w = v.drop_last();
        assert forall|i: int| 0 <= i < w.len() implies (#[trigger] w[i]).0 < rl by {
            assert(w[i] == v[i]);
            assert(v[i].0 < v[v.len() - 1].0);
        }
        assert forall|i: int| 0 <= i < w.len() implies (#[trigger] w[i]).1 == spec_tree_len(records[w[i].0 as int]) by {
            assert(w[i] == v[i]);
        }
        assert(v[v.len() - 1].0 < n);
        lemma_total_le_trees(w, records, rl as int);
        lemma_trees_before_mono(records, rl + 1, n);
    }
}

impl JsonlSource {
    /// The open trees, and so every row of the document, can be counted.
    proof fn lemma_rows_fit(&self)
        requires
            self.wf(),
        ensures
            self.records@.len() + total(self.map@) <= usize::MAX,
            total(self.map@) <= trees_before(self.records@, self.records@.len() as int),
    {
        lemma_wf_view(&self.map);
        lemma_entries(&self.map);
        let v = self.map@;
        assert forall|i: int| 0 <= i < v.len() implies (#[trigger] v[i]).0 < self.records@.len() by {
            assert(self.map.spec_is_open(v[i].0 as int));
        }
        assert forall|i: int| 0 <= i < v.len() implies (#[trigger] v[i]).1 == spec_tree_len(
            self.records@[v[i].0 as int],
        ) by {
            assert(self.map.spec_is_open(v[i].0 as int));
        }
        lemma_total_le_trees(v, self.records@, self.records@.len() as int);
    }
}

/// A row that lies within a record's rows is that record's, at that place.
proof fn lemma_spec_at(map: RowMap, r: int, sub: int)
    requires
        0 <= sub <= map.spec_extra_of(r),
    ensures
        spec_at(map, map.spec_row_of(r) + sub) == (r, sub),
{
    let row = map.spec_row_of(r) + sub;
    assert(0 <= (r, sub).1 <= map.spec_extra_of((r, sub).0) && map.spec_row_of((r, sub).0) + (r, sub).1 == row);
    let q = spec_at(map, row);
    lemma_rows_unique(&map, q.0, q.1, r, sub);
}

impl JsonlSource {
    /// The text of row `sub` of record `record`: [`spec_line`].
    fn line_of(&self, record: usize, sub: usize, laid: &mut Option<(usize, Vec<String>)>) -> (s: String)
        requires
            self.wf(),
            record < self.records@.len(),
            sub <= self.map.spec_extra_of(record as int),
            *old(laid) matches Some(l) ==> l.0 < self.records@.len() && (self.records@[l.0 as int] matches Record::Value(v)
                && views(l.1@) == spec_tree_texts(v)),
        ensures
            s@ == spec_line(self.records@, record as int, sub as int),
            *final(laid) matches Some(l) ==> l.0 < self.records@.len() && (self.records@[l.0 as int] matches Record::Value(v)
                && views(l.1@) == spec_tree_texts(v)),
    {
        if sub == 0 {
            return self.record_row(record);
        }
        proof {
            lemma_entries(&self.map);
            assert(self.map.spec_is_open(record as int));
        }
        match &self.records[record] {
            Record::Value(v) => {
                let cached = match laid {
                    Some(l) => l.0 == record,
                    None => false,
                };
                if !cached {
                    *laid = Some((record, rows(v)));
                }
                match laid {
                    Some(l) => {
                        proof {
                            assert(views(l.1@).len() == spec_rows(*v).len() - 1);
                            assert(views(l.1@)[sub - 1] == l.1@[sub - 1]@);
                        }
                        l.1[sub - 1].clone()
                    },
                    None => String::new(),
                }
            },
            Record::Bad(_) => String::new(),
        }
    }

    /// Up to `count` rows from row `start`, laid out record by record, so a
    /// record's tree is walked once per frame rather than once per row of
    /// it: each row is the text [`spec_line`] gives for the record and place
    /// the row falls on. Fewer than `count` come back only when the last
    /// record's rows run out first.
    pub fn collect(&self, start: usize, count: usize) -> (out: Vec<String>)
        requires
            self.wf(),
        ensures
            out@.len() <= count,
            forall|i: int| 0 <= i < out@.len() ==> (#[trigger] spec_at(self.map, start + i)).0 < self.records@.len(),
            forall|i: int|
                0 <= i < out@.len() ==> (#[trigger] out@[i])@ == spec_line(
                    self.records@,
                    spec_at(self.map, start + i).0,
                    spec_at(self.map, start + i).1,
                ),
            out@.len() < count ==> forall|r: int|
                #[trigger] self.map.spec_row_of(r) <= start + out@.len() <= self.map.spec_row_of(r)
                    + self.map.spec_extra_of(r) ==> r >= self.records@.len(),
    {
        let known = self.records.len();
        let at = layout_rows(&self.map, known, start, count);
        let mut out: Vec<String> = Vec::new();
        let mut laid: Option<(usize, Vec<String>)> = None;
        let mut k: usize = 0;
        while k < at.len()
            invariant
                self.wf(),
                known == self.records@.len(),
                k <= at@.len(),
                out@.len() == k,
                at@.len() <= count,
                forall|i: int|
                    0 <= i < at@.len() ==> (#[trigger] at@[i]).0 < known && self.map.spec_row_of(at@[i].0 as int)
                        + at@[i].1 == start + i && at@[i].1 <= self.map.spec_extra_of(at@[i].0 as int),
                forall|i: int|
                    0 <= i < k ==> spec_at(self.map, start + i) == ((#[trigger] at@[i]).0 as int, at@[i].1 as int),
                forall|i: int|
                    0 <= i < k ==> (#[trigger] out@[i])@ == spec_line(
                        self.records@,
                        spec_at(self.map, start + i).0,
                        spec_at(self.map, start + i).1,
                    ),
                laid matches Some(l) ==> l.0 < self.records@.len() && (self.records@[l.0 as int] matches Record::Value(v)
                    && views(l.1@) == spec_tree_texts(v)),
            decreases at@.len() - k,
        {
            let (r, sub) = at[k];
            proof {
                assert(at@[k as int] == (r, sub));
                lemma_spec_at(self.map, r as int, sub as int);
            }
            let t = self.line_of(r, sub, &mut laid);
            let ghost before = out@;
            out.push(t);
            proof {
                assert forall|i: int|
                    0 <= i < k + 1 implies (#[trigger] out@[i])@ == spec_line(
                    self.records@,
                    spec_at(self.map, start + i).0,
                    spec_at(self.map, start + i).1,
                ) by {
                    if i < k {
                        assert(out@[i] == before[i]);
                    }
                }
            }
            k = k + 1;
        }
        proof {
            assert forall|i: int| 0 <= i < out@.len() implies (#[trigger] spec_at(self.map, start + i)).0
                < self.records@.len() by {
                assert(spec_at(self.map, start + i) == (at@[i].0 as int, at@[i].1 as int));
            }
        }
        out
    }
}

/// The records from `lo` up to `hi` that can be opened, in order.
pub open spec fn openable(records: Seq<Record>, lo: int, hi: int) -> Seq<usize>
    decreases hi - lo,
{
    if lo >= hi {
        Seq::empty()
    } else {
        openable(records, lo, hi - 1) + if spec_tree_len(records[hi - 1]) > 0 {
            seq![(hi - 1) as usize]
        } else {
            Seq::empty()
        }
    }
}

/// The collapsed summary of a record that can be opened.
pub open spec fn record_summary(rec: Record) -> Seq<char> {
    match rec {
        Record::Value(v) => spec_summary_text(v.spec_shape(), v.spec_len(), true),
        Record::Bad(_) => Seq::empty(),
    }
}

/// The outline entry of record `r`: level 1, the record's fold id, its line
/// number and its collapsed summary, anchored at its summary row, folded
/// while it is shut.
pub open spec fn record_entry(e: Entry, records: Seq<Record>, map: RowMap, r: usize) -> bool {
    &&& e.level == 1
    &&& e.id@ == seq!['/'] + decimal(r as nat)
    &&& e.text@ == "line "@ + decimal((r + 1) as nat) + "  "@ + record_summary(records[r as int])
    &&& e.anchor == Anchor(map.spec_row_of(r as int) as usize)
    &&& e.folded == !map.spec_is_open(r as int)
}

/// The records an outline over rows `start..end` lists: those that can be
/// opened, from the record of the first row to that of the last, within the
/// records read.
pub open spec fn outline_records(records: Seq<Record>, map: RowMap, start: int, end: int) -> Seq<usize> {
    if start >= end || records.len() == 0 {
        Seq::empty()
    } else {
        let first = spec_at(map, start).0;
        let last = spec_at(map, end - 1).0;
        let hi = if last < records.len() - 1 {
            last + 1
        } else {
            records.len() as int
        };
        openable(records, first, hi)
    }
}

/// Record `r` can be opened and is not open yet, so opening it adds its
/// tree's rows, and the document still counts.
proof fn lemma_total_plus(v: Seq<(usize, usize)>, records: Seq<Record>, n: int, r: int)
    requires
        sorted_positive(v),
        0 <= r < n <= records.len(),
        forall|i: int| 0 <= i < v.len() ==> (#[trigger] v[i]).0 < n && v[i].0 != r,
        forall|i: int| 0 <= i < v.len() ==> (#[trigger] v[i]).1 == spec_tree_len(records[v[i].0 as int]),
    ensures
        total(v) + spec_tree_len(records[r]) <= trees_before(records, n),
    decreases v.len(),
{
    if v.len() == 0 {
        lemma_trees_before_mono(records, r + 1, n);
        lemma_trees_before_mono(records, 0, r);
    } else {
        let (rl, el) = v.last();
        let w = v.drop_last();
        assert forall|i: int| 0 <= i < w.len() implies (#[trigger] w[i]).0 < rl by {
            assert(w[i] == v[i]);
            assert(v[i].0 < v[v.len() - 1].0);
        }
        assert forall|i: int| 0 <= i < w.len() implies (#[trigger] w[i]).1 == spec_tree_len(records[w[i].0 as int]) by {
            assert(w[i] == v[i]);
        }
        assert(v[v.len() - 1].0 < n && v[v.len() - 1].0 != r);
        if r < rl {
            assert forall|i: int| 0 <= i < w.len() implies (#[trigger] w[i]).0 < rl && w[i].0 != r by {
                assert(w[i] == v[i]);
            }
            lemma_total_plus(w, records, rl as int, r);
            lemma_trees_before_mono(records, rl + 1, n);
        } else {
            assert forall|i: int| 0 <= i < v.len() implies (#[trigger] v[i]).0 < r by {}
            lemma_total_le_trees(v, records, r);
            lemma_trees_before_mono(records, r + 1, n);
        }
    }
}

impl JsonlSource {
    /// Open `record` to its tree's rows; false past the last record, for one
    /// with nothing to open, and for one already open.
    pub fn open_record(&mut self, record: usize) -> (changed: bool)
        requires
            old(self).wf(),
        ensures
            final(self).wf(),
            final(self).records@ == old(self).records@,
            final(self).outline@ == old(self).outline@,
            final(self).expand_all == old(self).expand_all,
            final(self).filled == old(self).filled,
            changed == (record < old(self).records@.len() && spec_tree_len(old(self).records@[record as int]) > 0
                && !old(self).map.spec_is_open(record as int)),
            !changed ==> final(self).map@ == old(self).map@,
            forall|r: int|
                #[trigger] final(self).map.spec_extra_of(r) == if changed && r == record {
                    spec_tree_len(old(self).records@[record as int])
                } else {
                    old(self).map.spec_extra_of(r)
                },
            forall|r: int|
                #[trigger] final(self).map.spec_extra_before(r) == old(self).map.spec_extra_before(r) + if changed
                    && record < r {
                    spec_tree_len(old(self).records@[record as int])
                } else {
                    0
                },
    {
        if record >= self.records.len() {
            return false;
        }
        let extra = self.tree_len(record);
        proof {
            lemma_wf_view(&self.map);
            lemma_entries(&self.map);
            if !self.map.spec_is_open(record as int) {
                let v = self.map@;
                assert forall|i: int| 0 <= i < v.len() implies (#[trigger] v[i]).0 < self.records@.len()
                    && v[i].0 != record by {
                    assert(self.map.spec_is_open(v[i].0 as int));
                }
                assert forall|i: int| 0 <= i < v.len() implies (#[trigger] v[i]).1 == spec_tree_len(
                    self.records@[v[i].0 as int],
                ) by {
                    assert(self.map.spec_is_open(v[i].0 as int));
                }
                lemma_total_plus(v, self.records@, self.records@.len() as int, record as int);
            } else {
                self.lemma_rows_fit();
            }
        }
        let ghost before = *self;
        if self.map.is_open(record) {
            return false;
        }
        let changed = self.map.open(record, extra);
        proof {
            lemma_entries(&self.map);
            lemma_entries(&before.map);
            assert forall|r: int| #[trigger] self.map.spec_is_open(r) implies 0 <= r < self.records@.len()
                && self.map.spec_extra_of(r) == spec_tree_len(self.records@[r]) by {
                if r != record {
                    assert(before.map.spec_is_open(r));
                }
            }
        }
        changed
    }

    /// Rebuild the outline over rows `start..end`, the rows the last frame
    /// painted: one entry per record there that can be opened
    /// ([`outline_records`], each as [`record_entry`] says). A window rather
    /// than the document, because an entry carries its record's summary and
    /// a million-record file must not be read whole for it.
    pub fn rebuild_outline(&mut self, start: usize, end: usize)
        requires
            old(self).wf(),
        ensures
            final(self).wf(),
            final(self).records@ == old(self).records@,
            final(self).map == old(self).map,
            final(self).expand_all == old(self).expand_all,
            final(self).filled == old(self).filled,
            final(self).outline@.len() == outline_records(old(self).records@, old(self).map, start as int, end as int).len(),
            forall|k: int|
                0 <= k < final(self).outline@.len() ==> record_entry(
                    #[trigger] final(self).outline@[k],
                    old(self).records@,
                    old(self).map,
                    outline_records(old(self).records@, old(self).map, start as int, end as int)[k],
                ),
    {
        self.outline = Vec::new();
        let known = self.records.len();
        if start >= end || known == 0 {
            return;
        }
        let (first, s0) = self.map.at(start);
        let (last, s1) = self.map.at(end - 1);
        proof {
            lemma_spec_at(self.map, first as int, s0 as int);
            lemma_spec_at(self.map, last as int, s1 as int);
            self.lemma_rows_fit();
        }
        let hi: usize = if last < known - 1 {
            last + 1
        } else {
            known
        };
        let ghost want = openable(self.records@, first as int, hi as int);
        let mut entries: Vec<Entry> = Vec::new();
        let mut r: usize = first;
        proof {
            if first < hi {
                assert(openable(self.records@, first as int, first as int) =~= Seq::<usize>::empty());
            }
        }
        while r < hi
            invariant
                self.wf(),
                known == self.records@.len(),
                hi <= known,
                first <= r <= hi || (first > hi && r == first),
                first > hi ==> entries@.len() == 0,
                want == openable(self.records@, first as int, hi as int),
                r <= hi ==> entries@.len() == openable(self.records@, first as int, r as int).len(),
                r <= hi ==> forall|k: int|
                    0 <= k < entries@.len() ==> record_entry(
                        #[trigger] entries@[k],
                        self.records@,
                        self.map,
                        openable(self.records@, first as int, r as int)[k],
                    ),
            decreases hi - r,
        {
            let n = self.tree_len(r);
            let ghost before = openable(self.records@, first as int, r as int);
            proof {
                self.lemma_rows_fit();
                assert(openable(self.records@, first as int, r + 1) == before + if spec_tree_len(
                    self.records@[r as int],
                ) > 0 {
                    seq![r]
                } else {
                    Seq::empty()
                });
            }
            if n > 0 {
                let summary = match &self.records[r] {
                    Record::Value(v) => summary_text(v),
                    Record::Bad(_) => String::new(),
                };
                proof {
                    reveal_strlit("line ");
                    reveal_strlit("  ");
                    match self.records@[r as int] {
                        Record::Value(v) => {
                            assert(spec_rows(v).len() > 1);
                            assert(v.spec_is_container()) by {
                                if !v.spec_is_container() {
                                    assert(spec_rows(v) =~= seq![spec_rows(v)[0]]);
                                }
                            }
                        },
                        Record::Bad(_) => {},
                    }
                }
                let mut text = String::from_str("line ");
                push_decimal(&mut text, r + 1);
                text.append("  ");
                text.append(summary.as_str());
                let row = self.map.row_of(r);
                let open = self.map.is_open(r);
                let e = Entry { level: 1, id: fold_id(r), text, anchor: Anchor(row), folded: !open };
                let ghost old_entries = entries@;
                entries.push(e);
                proof {
                    assert forall|k: int| 0 <= k < entries@.len() implies record_entry(
                        #[trigger] entries@[k],
                        self.records@,
                        self.map,
                        openable(self.records@, first as int, r + 1)[k],
                    ) by {
                        if k < old_entries.len() {
                            assert(entries@[k] == old_entries[k]);
                        }
                    }
                }
            }
            r = r + 1;
        }
        proof {
            if first > hi {
                assert(want =~= Seq::<usize>::empty());
            }
            assert(spec_at(self.map, start as int) == (first as int, s0 as int));
            assert(spec_at(self.map, end - 1) == (last as int, s1 as int));
            assert(want == outline_records(self.records@, self.map, start as int, end as int));
        }
        self.outline = entries;
    }
}

/// The record an outline entry names, when it names one.
pub open spec fn entry_record(outline: Seq<Entry>, entry: int) -> Option<usize> {
    if 0 <= entry < outline.len() {
        spec_top_index(outline[entry].id@)
    } else {
        None
    }
}

impl JsonlSource {
    /// Open or shut the record outline entry `entry` names: shutting a record
    /// that is open, or opening one that is shut and has a tree, changes it
    /// and marks the entry; an entry that is not there, names no record, or
    /// asks for what already holds changes nothing.
    pub fn set_fold(&mut self, entry: usize, closed: bool) -> (changed: bool)
        requires
            old(self).wf(),
        ensures
            final(self).wf(),
            final(self).records@ == old(self).records@,
            final(self).expand_all == old(self).expand_all,
            final(self).filled == old(self).filled,
            changed == (entry_record(old(self).outline@, entry as int) matches Some(r) && if closed {
                old(self).map.spec_is_open(r as int)
            } else {
                r < old(self).records@.len() && spec_tree_len(old(self).records@[r as int]) > 0
                    && !old(self).map.spec_is_open(r as int)
            }),
            !changed ==> final(self).map@ == old(self).map@ && final(self).outline@ == old(self).outline@,
            changed ==> forall|x: int|
                #[trigger] final(self).map.spec_extra_of(x) == if x == entry_record(old(self).outline@, entry as int)->0 {
                    if closed {
                        0
                    } else {
                        spec_tree_len(old(self).records@[x])
                    }
                } else {
                    old(self).map.spec_extra_of(x)
                },
            final(self).outline@.len() == old(self).outline@.len(),
            forall|j: int|
                0 <= j < old(self).outline@.len() ==> #[trigger] final(self).outline@[j] == if changed && j
                    == entry {
                    Entry { folded: closed, ..old(self).outline@[j] }
                } else {
                    old(self).outline@[j]
                },
    {
        if entry >= self.outline.len() {
            return false;
        }
        let record = match top_index(self.outline[entry].id.as_str()) {
            Some(r) => r,
            None => {
                return false;
            },
        };
        let ghost before = *self;
        let changed = if closed {
            let c = self.map.close(record);
            proof {
                lemma_entries(&self.map);
                lemma_entries(&before.map);
                assert forall|r: int| #[trigger] self.map.spec_is_open(r) implies 0 <= r < self.records@.len()
                    && self.map.spec_extra_of(r) == spec_tree_len(self.records@[r]) by {
                    assert(before.map.spec_is_open(r));
                }
            }
            c
        } else {
            self.open_record(record)
        };
        if changed {
            self.outline[entry].folded = closed;
        }
        proof {
            assert forall|j: int| 0 <= j < before.outline@.len() implies #[trigger] self.outline@[j] == if changed
                && j == entry {
                Entry { folded: closed, ..before.outline@[j] }
            } else {
                before.outline@[j]
            } by {}
            if !changed {
                assert(self.outline@ =~= before.outline@);
            }
        }
        changed
    }
}

/// One `--toc` line of a record read without a lens: its line number, a
/// tab, and its summary row's text, or why it did not parse.
pub open spec fn spec_summary_line(rec: Record, record: nat) -> Seq<char> {
    decimal(record + 1) + "\t"@ + match rec {
        Record::Value(v) => spec_record_text(v),
        Record::Bad(why) => why@,
    }
}

impl JsonlSource {
    /// The first `n` records as one summary line each: `--toc`
    /// ([`spec_summary_line`]).
    pub fn summaries(&self, n: usize) -> (out: Vec<String>)
        requires
            self.wf(),
        ensures
            out@.len() == if n < self.records@.len() {
                n as int
            } else {
                self.records@.len() as int
            },
            forall|i: int| 0 <= i < out@.len() ==> (#[trigger] out@[i])@ == spec_summary_line(self.records@[i], i as nat),
    {
        let take = if n < self.records.len() {
            n
        } else {
            self.records.len()
        };
        let mut out: Vec<String> = Vec::new();
        let mut r: usize = 0;
        while r < take
            invariant
                take <= self.records@.len(),
                take == if n < self.records@.len() {
                    n as int
                } else {
                    self.records@.len() as int
                },
                r <= take,
                out@.len() == r,
                forall|i: int| 0 <= i < r ==> (#[trigger] out@[i])@ == spec_summary_line(self.records@[i], i as nat),
            decreases take - r,
        {
            proof {
                reveal_strlit("\t");
                reveal_strlit("");
            }
            let mut line = String::from_str("");
            push_decimal(&mut line, r + 1);
            line.append("\t");
            match &self.records[r] {
                Record::Value(v) => {
                    let body = record_spans(v);
                    line.append(body.as_str());
                },
                Record::Bad(why) => line.append(why.as_str()),
            }
            let ghost before = out@;
            out.push(line);
            proof {
                assert forall|i: int| 0 <= i < r + 1 implies (#[trigger] out@[i])@ == spec_summary_line(
                    self.records@[i],
                    i as nat,
                ) by {
                    if i < r {
                        assert(out@[i] == before[i]);
                    }
                }
            }
            r = r + 1;
        }
        out
    }

    /// Rows the row at `row` hides: a shut record's tree under its summary
    /// row, and nothing anywhere else (an open record, a row inside a tree,
    /// a record with no tree, a row past the last record).
    pub fn hidden_at(&self, row: usize) -> (r: Option<usize>)
        requires
            self.wf(),
        ensures
            r == ({
                let p = spec_at(self.map, row as int);
                if p.1 != 0 || self.map.spec_is_open(p.0) || p.0 >= self.records@.len() || spec_tree_len(
                    self.records@[p.0],
                ) == 0 {
                    None
                } else {
                    Some(spec_tree_len(self.records@[p.0]) as usize)
                }
            }),
    {
        let (record, sub) = self.map.at(row);
        proof {
            lemma_spec_at(self.map, record as int, sub as int);
        }
        if sub != 0 || self.map.is_open(record) || record >= self.records.len() {
            return None;
        }
        let n = self.tree_len(record);
        if n == 0 {
            None
        } else {
            Some(n)
        }
    }

    /// `Tab` / `S-Tab`: the next record, which is the only landmark a log
    /// has. Forward to the next record's row, none from the last; back to
    /// the record's own row from inside its tree, else to the record before.
    pub fn next_landmark(&self, row: usize, forward: bool) -> (r: Option<usize>)
        requires
            self.wf(),
        ensures
            r == ({
                let p = spec_at(self.map, row as int);
                if forward {
                    if p.0 + 1 < self.records@.len() {
                        Some(self.map.spec_row_of(p.0 + 1) as usize)
                    } else {
                        None
                    }
                } else if p.1 > 0 {
                    Some(self.map.spec_row_of(p.0) as usize)
                } else if p.0 > 0 {
                    Some(self.map.spec_row_of(p.0 - 1) as usize)
                } else {
                    None
                }
            }),
    {
        let (record, sub) = self.map.at(row);
        proof {
            lemma_spec_at(self.map, record as int, sub as int);
            self.lemma_rows_fit();
        }
        if forward {
            if record < self.records.len() && record + 1 < self.records.len() {
                return Some(self.map.row_of(record + 1));
            }
            return None;
        }
        if sub > 0 {
            proof {
                lemma_extra_before_mono(&self.map, record as int, record as int);
            }
            return Some(record + self.map.extra_before(record));
        }
        if record > 0 {
            proof {
                lemma_extra_before_mono(&self.map, record - 1, record as int);
            }
            return Some(record - 1 + self.map.extra_before(record - 1));
        }
        None
    }
}

/// Some id of `folds` names record `r`.
pub open spec fn names_record(folds: Seq<String>, r: int) -> bool {
    exists|k: int| 0 <= k < folds.len() && spec_top_index((#[trigger] folds[k])@) == Some(r as usize)
}

impl JsonlSource {
    /// The fold state: `*` while `zR` is in force, then the open records'
    /// ids, in order. The default is shut, so a million shut records cost
    /// nothing to save.
    pub fn folds(&self) -> (out: Vec<String>)
        requires
            self.wf(),
        ensures
            views(out@) == spec_fold_ids(self.expand_all, Seq::empty(), self.map@),
    {
        let mut out: Vec<String> = Vec::new();
        if self.expand_all {
            out.push(String::from_str(ALL_OPEN));
            proof {
                reveal_strlit("*");
                assert(out@[0]@ =~= seq!['*']);
                assert(views(out@) =~= seq![seq!['*']]);
            }
        }
        proof {
            if !self.expand_all {
                assert(views(out@) =~= Seq::<Seq<char>>::empty());
            }
        }
        let ghost head = views(out@);
        let recs = self.map.records();
        let mut k: usize = 0;
        while k < recs.len()
            invariant
                k <= recs@.len(),
                recs@.len() == self.map@.len(),
                forall|i: int| 0 <= i < recs@.len() ==> recs@[i] == (#[trigger] self.map@[i]).0,
                head == (if self.expand_all {
                    seq![seq!['*']]
                } else {
                    Seq::<Seq<char>>::empty()
                }),
                views(out@) == head + self.map@.take(k as int).map_values(
                    |e: (usize, usize)| seq!['/'] + decimal(e.0 as nat),
                ),
            decreases recs@.len() - k,
        {
            let ghost before = views(out@);
            let id = fold_id(recs[k]);
            out.push(id);
            proof {
                assert(recs@[k as int] == self.map@[k as int].0);
                assert(views(out@) =~= before.push(id@));
                assert(self.map@.take(k + 1).map_values(|e: (usize, usize)| seq!['/'] + decimal(e.0 as nat))
                    =~= self.map@.take(k as int).map_values(|e: (usize, usize)| seq!['/'] + decimal(e.0 as nat)).push(
                    id@,
                ));
            }
            k = k + 1;
        }
        proof {
            assert(self.map@.take(k as int) =~= self.map@);
            assert(views(out@) =~= spec_fold_ids(self.expand_all, Seq::empty(), self.map@));
        }
        out
    }

    /// Read a fold state back: `zR` when it holds `*`, and exactly the
    /// records it names open (those that are records of this document with a
    /// tree to open); everything else shut.
    pub fn set_folds(&mut self, folds: &[String])
        requires
            old(self).wf(),
        ensures
            final(self).wf(),
            final(self).records@ == old(self).records@,
            final(self).outline@ == old(self).outline@,
            final(self).filled == 0,
            final(self).expand_all == exists|k: int| 0 <= k < folds@.len() && (#[trigger] folds@[k])@ == "*"@,
            forall|r: int|
                #[trigger] final(self).map.spec_is_open(r) == (0 <= r < old(self).records@.len() && spec_tree_len(
                    old(self).records@[r],
                ) > 0 && names_record(folds@, r)),
    {
        self.map.clear();
        self.filled = 0;
        proof {
            reveal_strlit("*");
            lemma_entries(&self.map);
        }
        let mut star = false;
        let mut k: usize = 0;
        while k < folds.len()
            invariant
                k <= folds@.len(),
                star == exists|j: int| 0 <= j < k && (#[trigger] folds@[j])@ == "*"@,
            decreases folds@.len() - k,
        {
            proof {
                reveal_strlit("*");
            }
            let id = folds[k].as_str();
            if id.unicode_len() == 1 && id.get_char(0) == '*' {
                proof {
                    assert(folds@[k as int]@ =~= "*"@);
                }
                star = true;
            }
            k = k + 1;
        }
        let mut k: usize = 0;
        while k < folds.len()
            invariant
                self.wf(),
                self.records@ == old(self).records@,
                self.outline@ == old(self).outline@,
                self.filled == 0,
                k <= folds@.len(),
                forall|r: int|
                    #[trigger] self.map.spec_is_open(r) == (0 <= r < self.records@.len() && spec_tree_len(
                        self.records@[r],
                    ) > 0 && exists|j: int|
                        0 <= j < k && spec_top_index((#[trigger] folds@[j])@) == Some(r as usize)),
            decreases folds@.len() - k,
        {
            let ghost before = self.map;
            match top_index(folds[k].as_str()) {
                Some(record) => {
                    self.open_record(record);
                },
                None => {},
            }
            proof {
                lemma_entries(&self.map);
                lemma_entries(&before);
                assert forall|r: int|
                    #[trigger] self.map.spec_is_open(r) == (0 <= r < self.records@.len() && spec_tree_len(
                        self.records@[r],
                    ) > 0 && exists|j: int|
                        0 <= j < k + 1 && spec_top_index((#[trigger] folds@[j])@) == Some(r as usize)) by {
                    assert(self.map.spec_extra_of(r) > 0 <==> self.map.spec_is_open(r));
                    assert(before.spec_extra_of(r) > 0 <==> before.spec_is_open(r));
                    if (exists|j: int| 0 <= j < k + 1 && spec_top_index((#[trigger] folds@[j])@) == Some(r as usize)) {
                        let j = choose|j: int| 0 <= j < k + 1 && spec_top_index((#[trigger] folds@[j])@) == Some(r as usize);
                        if j < k {
                            assert(0 <= j < k && spec_top_index(folds@[j]@) == Some(r as usize));
                        }
                    }
                    if (exists|j: int| 0 <= j < k && spec_top_index((#[trigger] folds@[j])@) == Some(r as usize)) {
                        let j = choose|j: int| 0 <= j < k && spec_top_index((#[trigger] folds@[j])@) == Some(r as usize);
                        assert(0 <= j < k + 1 && spec_top_index(folds@[j]@) == Some(r as usize));
                    }
                }
            }
            k = k + 1;
        }
        self.expand_all = star;
        proof {
            assert forall|r: int|
                #[trigger] self.map.spec_is_open(r) == (0 <= r < self.records@.len() && spec_tree_len(
                    self.records@[r],
                ) > 0 && names_record(folds@, r)) by {
                assert(k == folds@.len());
            }
        }
    }
}

/// **A saved fold state reads back as what it saved.** The ids
/// [`JsonlSource::folds`] writes, read by [`JsonlSource::set_folds`], put
/// `zR` back as it was and open exactly the records that were open.
pub proof fn lemma_folds_round_trip(s: &JsonlSource, folds: Seq<String>)
    requires
        s.wf(),
        views(folds) == spec_fold_ids(s.expand_all, Seq::empty(), s.map@),
    ensures
        (exists|k: int| 0 <= k < folds.len() && (#[trigger] folds[k])@ == "*"@) == s.expand_all,
        forall|r: int|
            #[trigger] s.map.spec_is_open(r) == (0 <= r < s.records@.len() && spec_tree_len(s.records@[r]) > 0
                && names_record(folds, r)),
{
    reveal_strlit("*");
    lemma_entries(&s.map);
    let m = s.map@;
    let head: Seq<Seq<char>> = if s.expand_all {
        seq![seq!['*']]
    } else {
        Seq::empty()
    };
    let recs = m.map_values(|e: (usize, usize)| seq!['/'] + decimal(e.0 as nat));
    let ids = views(folds);
    assert(ids =~= head + recs);
    assert(folds.len() == ids.len());
    assert forall|k: int| 0 <= k < folds.len() implies (#[trigger] folds[k])@ == ids[k] by {}
    if s.expand_all {
        assert(folds[0]@ == "*"@);
    } else {
        assert forall|k: int| 0 <= k < folds.len() implies (#[trigger] folds[k])@ != "*"@ by {
            assert(ids[k] == recs[k]);
            assert(recs[k][0] == '/');
        }
    }
    assert forall|r: int|
        #[trigger] s.map.spec_is_open(r) == (0 <= r < s.records@.len() && spec_tree_len(s.records@[r]) > 0
            && names_record(folds, r)) by {
        if s.map.spec_is_open(r) {
            let i = choose|i: int| 0 <= i < m.len() && m[i].0 == r;
            let k = head.len() + i;
            assert(ids[k] == recs[i]);
            lemma_top_index_round_trip(m[i].0, Seq::empty());
            assert(spec_top_index(folds[k]@) == Some(r as usize));
            assert(s.map.spec_extra_of(r) > 0);
        }
        if names_record(folds, r) && 0 <= r < s.records@.len() {
            let k = choose|k: int| 0 <= k < folds.len() && spec_top_index((#[trigger] folds[k])@) == Some(r as usize);
            if k < head.len() {
                assert(ids[k] == seq!['*']);
            } else {
                let i = k - head.len();
                assert(ids[k] == recs[i]);
                lemma_top_index_round_trip(m[i].0, Seq::empty());
                assert(m[i].0 == r as usize);
                assert(s.map.spec_is_open(m[i].0 as int));
            }
        }
    }
}

/// `s` without the `#` signs it starts with.
pub open spec fn without_hashes(s: Seq<char>) -> Seq<char>
    decreases s.len(),
{
    if s.len() > 0 && s[0] == '#' {
        without_hashes(s.drop_first())
    } else {
        s
    }
}

impl JsonlSource {
    /// The outline entry of the record row `row` falls on: the first entry
    /// carrying that record's fold id.
    pub fn section_at(&self, row: usize) -> (r: Option<usize>)
        requires
            self.wf(),
        ensures
            r == entry_with(self.outline@, seq!['/'] + decimal(spec_at(self.map, row as int).0 as nat)),
    {
        let (record, sub) = self.map.at(row);
        proof {
            lemma_spec_at(self.map, record as int, sub as int);
        }
        let id = fold_id(record);
        let mut i: usize = 0;
        while i < self.outline.len()
            invariant
                i <= self.outline@.len(),
                id@ == seq!['/'] + decimal(spec_at(self.map, row as int).0 as nat),
                forall|j: int| 0 <= j < i ==> (#[trigger] self.outline@[j]).id@ != id@,
            decreases self.outline@.len() - i,
        {
            if self.outline[i].id == id {
                proof {
                    let c = choose|c: int|
                        0 <= c < self.outline@.len() && self.outline@[c].id@ == id@ && forall|j: int|
                            0 <= j < c ==> (#[trigger] self.outline@[j]).id@ != id@;
                    assert(c == i) by {
                        if c > i {
                            assert(self.outline@[i as int].id@ != id@);
                        }
                    }
                }
                return Some(i);
            }
            i = i + 1;
        }
        None
    }

    /// A record number as an anchor id, so `#41` jumps to the row of record
    /// 41 (line 42): `None` for an id that is not a number or names no record
    /// read.
    pub fn goto_id(&self, id: &str) -> (r: Option<usize>)
        requires
            self.wf(),
        ensures
            r == match parse_usize(without_hashes(id@)) {
                Some(record) => if record < self.records@.len() {
                    Some(self.map.spec_row_of(record as int) as usize)
                } else {
                    None
                },
                None => None,
            },
    {
        let n = id.unicode_len();
        let mut k: usize = 0;
        proof {
            assert(id@.skip(0) =~= id@);
        }
        while k < n && id.get_char(k) == '#'
            invariant
                k <= n,
                n == id@.len(),
                without_hashes(id@.skip(k as int)) == without_hashes(id@),
            decreases n - k,
        {
            proof {
                assert(id@.skip(k as int).drop_first() =~= id@.skip(k + 1));
            }
            k = k + 1;
        }
        let rest = id.substring_char(k, n);
        proof {
            assert(rest@ =~= id@.skip(k as int));
            if k < n {
                assert(id@.skip(k as int)[0] != '#');
            }
        }
        let record = match parse_decimal(rest) {
            Some(r) => r,
            None => {
                return None;
            },
        };
        if record >= self.records.len() {
            return None;
        }
        proof {
            self.lemma_rows_fit();
        }
        Some(self.map.row_of(record))
    }
}

/// Records `zR` opens at most, as the viewport reaches them: opening a
/// million records would mean parsing a million records.
pub const EXPAND_CAP: usize = 50_000;

impl JsonlSource {
    /// Under `zR`, open the records the viewport has reached, up to row
    /// `upto_row`, from the first one not yet considered and at most
    /// [`EXPAND_CAP`] of them in all: each record whose summary row is at or
    /// above that row is opened where it has a tree, and the first one below
    /// it, past the last record read, or past the cap, is where it stops.
    pub fn fill_expansion(&mut self, upto_row: usize)
        requires
            old(self).wf(),
        ensures
            final(self).wf(),
            final(self).records@ == old(self).records@,
            final(self).outline@ == old(self).outline@,
            final(self).expand_all == old(self).expand_all,
            !old(self).expand_all ==> *final(self) == *old(self),
            old(self).expand_all ==> {
                &&& old(self).filled <= final(self).filled
                &&& (final(self).filled > old(self).filled ==> final(self).filled <= EXPAND_CAP
                    && final(self).filled <= final(self).records@.len())
                &&& (final(self).filled >= final(self).records@.len() || final(self).filled >= EXPAND_CAP
                    || final(self).map.spec_row_of(final(self).filled as int) > upto_row)
                &&& forall|r: int|
                    old(self).filled <= r < final(self).filled ==> #[trigger] final(self).map.spec_row_of(r) <= upto_row
                        && final(self).map.spec_is_open(r) == (spec_tree_len(old(self).records@[r]) > 0
                        || old(self).map.spec_is_open(r))
                &&& forall|r: int|
                    !(old(self).filled <= r < final(self).filled) ==> #[trigger] final(self).map.spec_extra_of(r)
                        == old(self).map.spec_extra_of(r)
            },
    {
        if !self.expand_all {
            return;
        }
        let ghost start = *self;
        let known = self.records.len();
        loop
            invariant
                self.wf(),
                start.wf(),
                self.expand_all,
                self.records@ == start.records@,
                self.outline@ == start.outline@,
                known == self.records@.len(),
                start.filled <= self.filled,
                self.filled > start.filled ==> self.filled <= EXPAND_CAP && self.filled <= known,
                forall|r: int|
                    start.filled <= r < self.filled ==> #[trigger] self.map.spec_row_of(r) <= upto_row
                        && self.map.spec_is_open(r) == (spec_tree_len(start.records@[r]) > 0 || start.map.spec_is_open(r)),
                forall|r: int|
                    !(start.filled <= r < self.filled) ==> #[trigger] self.map.spec_extra_of(r)
                        == start.map.spec_extra_of(r),
            ensures
                self.filled >= known || self.filled >= EXPAND_CAP || self.map.spec_row_of(self.filled as int) > upto_row,
            decreases known - self.filled,
        {
            if self.filled >= known || self.filled >= EXPAND_CAP {
                break;
            }
            let f = self.filled;
            proof {
                self.lemma_rows_fit();
            }
            if self.map.row_of(f) > upto_row {
                break;
            }
            let ghost before = self.map;
            proof {
                assert(before.spec_extra_of(f as int) == start.map.spec_extra_of(f as int));
                assert forall|r: int| start.filled <= r < f implies #[trigger] before.spec_row_of(r) <= upto_row by {}
            }
            self.open_record(f);
            proof {
                lemma_entries(&self.map);
                lemma_entries(&before);
                lemma_entries(&start.map);
                assert forall|r: int|
                    start.filled <= r < f + 1 implies #[trigger] self.map.spec_row_of(r) <= upto_row
                        && self.map.spec_is_open(r) == (spec_tree_len(start.records@[r]) > 0 || start.map.spec_is_open(r)) by {
                    assert(self.map.spec_extra_before(r) == before.spec_extra_before(r));
                    assert(self.map.spec_row_of(r) == before.spec_row_of(r));
                    assert(self.map.spec_extra_of(r) > 0 <==> self.map.spec_is_open(r));
                    assert(before.spec_extra_of(r) > 0 <==> before.spec_is_open(r));
                    assert(start.map.spec_extra_of(r) > 0 <==> start.map.spec_is_open(r));
                    if r < f {
                        assert(before.spec_row_of(r) <= upto_row);
                        assert(self.map.spec_extra_of(r) == before.spec_extra_of(r));
                    }
                }
            }
            self.filled = f + 1;
        }
    }

    /// `zM` shuts every record; `zR` opens them as the viewport reaches
    /// them, up to row `upto_row` now ([`JsonlSource::fill_expansion`]).
    pub fn fold_all(&mut self, closed: bool, upto_row: usize)
        requires
            old(self).wf(),
        ensures
            final(self).wf(),
            final(self).records@ == old(self).records@,
            final(self).outline@ == old(self).outline@,
            final(self).expand_all == !closed,
            closed ==> final(self).map@.len() == 0 && final(self).filled == 0,
            !closed ==> {
                &&& final(self).filled <= EXPAND_CAP && final(self).filled <= final(self).records@.len()
                &&& (final(self).filled >= final(self).records@.len() || final(self).filled >= EXPAND_CAP
                    || final(self).map.spec_row_of(final(self).filled as int) > upto_row)
                &&& forall|r: int|
                    #[trigger] final(self).map.spec_is_open(r) == (0 <= r < final(self).filled && spec_tree_len(
                        old(self).records@[r],
                    ) > 0)
                &&& forall|r: int|
                    0 <= r < final(self).filled ==> #[trigger] final(self).map.spec_row_of(r) <= upto_row
            },
    {
        self.expand_all = !closed;
        self.filled = 0;
        self.map.clear();
        proof {
            lemma_entries(&self.map);
        }
        if !closed {
            let ghost cleared = *self;
            self.fill_expansion(upto_row);
            proof {
                lemma_entries(&self.map);
                lemma_entries(&cleared.map);
                assert(cleared.expand_all);
                assert forall|r: int|
                    #[trigger] self.map.spec_is_open(r) == (0 <= r < self.filled && spec_tree_len(
                        old(self).records@[r],
                    ) > 0) by {
                    assert(!cleared.map.spec_is_open(r)) by {
                        if cleared.map.spec_is_open(r) {
                            let i = choose|i: int| 0 <= i < cleared.map@.len() && cleared.map@[i].0 == r;
                        }
                    }
                    if 0 <= r < self.filled {
                        assert(self.map.spec_row_of(r) <= upto_row);
                    }
                    if !(0 <= r < self.filled) {
                        assert(self.map.spec_extra_of(r) == cleared.map.spec_extra_of(r));
                        assert(cleared.map.spec_extra_of(r) == 0);
                    }
                }
            }
        }
    }
}


impl JsonlSource {
    /// Rows of the document: each record's own row and the rows of every open
    /// tree.
    pub fn len_rows(&self) -> (n: usize)
        requires
            self.wf(),
        ensures
            n == if self.records@.len() == 0 {
                0
            } else {
                self.records@.len() + total(self.map@)
            },
    {
        let known = self.records.len();
        if known == 0 {
            return 0;
        }
        proof {
            self.lemma_rows_fit();
        }
        known + self.map.extra_total()
    }
}

/// The path of the value on row `row`: empty on a record's own row, which
/// is the record rather than a place in it, and `None` there, on a record
/// that did not parse, and past the last record.
pub open spec fn spec_path_of(records: Seq<Record>, map: RowMap, row: int) -> Option<Seq<char>> {
    let p = spec_at(map, row);
    if p.0 < 0 || p.0 >= records.len() || p.1 == 0 {
        None
    } else {
        match records[p.0] {
            Record::Value(v) => if p.1 < spec_rows(v).len() && spec_segs(v)[p.1].flatten().len() > 0 {
                Some(spec_segs(v)[p.1].flatten())
            } else {
                None
            },
            Record::Bad(_) => None,
        }
    }
}

/// How many records there are, as the status bar says it: the count once
/// the index has read the whole file, and a floor with how far it got
/// while it is still reading.
pub open spec fn spec_total(known: nat, complete: bool, percent: u8) -> Seq<char> {
    if complete {
        decimal(known)
    } else {
        "\u{2265}"@ + decimal(known) + " (indexing "@ + decimal(percent as nat) + "%)"@
    }
}

/// The status bar's position: `record N/M`, and inside an open record the
/// path of the value under the cursor after a dot.
pub open spec fn spec_position(records: Seq<Record>, map: RowMap, row: int, complete: bool, percent: u8) -> Seq<char> {
    let p = spec_at(map, row);
    let n: nat = if p.0 + 1 > usize::MAX {
        usize::MAX as nat
    } else {
        (p.0 + 1) as nat
    };
    let head = "record "@ + decimal(n) + "/"@ + spec_total(records.len(), complete, percent);
    match spec_path_of(records, map, row) {
        Some(path) => head + "  \u{b7}  "@ + path,
        None => head,
    }
}

impl JsonlSource {
    /// The path of the row under the cursor: [`spec_path_of`].
    pub fn path_of(&self, row: usize) -> (r: Option<String>)
        requires
            self.wf(),
        ensures
            match r {
                Some(t) => spec_path_of(self.records@, self.map, row as int) == Some(t@),
                None => spec_path_of(self.records@, self.map, row as int) is None,
            },
    {
        let (record, sub) = self.map.at(row);
        proof {
            lemma_spec_at(self.map, record as int, sub as int);
        }
        if record >= self.records.len() || sub == 0 {
            return None;
        }
        proof {
            lemma_tree_len_fits(self.records@, record as int, self.records@.len() as int);
        }
        match &self.records[record] {
            Record::Value(v) => match node_at(v, sub - 1) {
                Some((path, _)) => {
                    if path.unicode_len() == 0 {
                        None
                    } else {
                        Some(path)
                    }
                },
                None => None,
            },
            Record::Bad(_) => None,
        }
    }

    /// The status bar's position for row `row`: [`spec_position`].
    /// `complete` and `percent` are the index's: whether it has read the
    /// whole file, and how far it got.
    pub fn position_text(&self, row: usize, complete: bool, percent: u8) -> (s: String)
        requires
            self.wf(),
        ensures
            s@ == spec_position(self.records@, self.map, row as int, complete, percent),
    {
        let (record, sub) = self.map.at(row);
        proof {
            lemma_spec_at(self.map, record as int, sub as int);
            reveal_strlit("record ");
            reveal_strlit("/");
            reveal_strlit("\u{2265}");
            reveal_strlit(" (indexing ");
            reveal_strlit("%)");
            reveal_strlit("  \u{b7}  ");
        }
        let n: usize = if record == usize::MAX {
            usize::MAX
        } else {
            record + 1
        };
        let mut s = String::from_str("record ");
        push_decimal(&mut s, n);
        s.append("/");
        if complete {
            push_decimal(&mut s, self.records.len());
        } else {
            s.append("\u{2265}");
            push_decimal(&mut s, self.records.len());
            s.append(" (indexing ");
            push_decimal(&mut s, percent as usize);
            s.append("%)");
        }
        match self.path_of(row) {
            Some(p) => {
                s.append("  \u{b7}  ");
                s.append(p.as_str());
            },
            None => {},
        }
        s
    }
}

/// The value on row `row`: the whole record on its own row, the value or
/// container on a row of its tree; none on a record that did not parse or
/// past the last record.
pub open spec fn spec_value_at(records: Seq<Record>, map: RowMap, row: int) -> Option<Value> {
    let p = spec_at(map, row);
    if p.0 < 0 || p.0 >= records.len() {
        None
    } else {
        match records[p.0] {
            Record::Value(v) => if p.1 == 0 {
                Some(v)
            } else if p.1 < spec_rows(v).len() {
                Some(row_value(spec_rows(v)[p.1]))
            } else {
                None
            },
            Record::Bad(_) => None,
        }
    }
}

/// A value as text to copy: a string's own characters, anything else as
/// compact JSON. A string is what a reader wants to paste; re-quoting it
/// would be exporting rather than copying.
pub open spec fn spec_copy_text(v: Value) -> Seq<char> {
    match v {
        Value::Str(s) => s@,
        _ => spec_json(v),
    }
}

/// The text `y` copies from rows `lo..hi`, one line per row that has a value,
/// and how many rows had one.
pub open spec fn rows_text(records: Seq<Record>, map: RowMap, lo: int, hi: int) -> (Seq<char>, nat)
    decreases hi - lo,
{
    if lo >= hi {
        (Seq::empty(), 0)
    } else {
        let before = rows_text(records, map, lo, hi - 1);
        match spec_value_at(records, map, hi - 1) {
            Some(v) => (before.0 + spec_copy_text(v) + seq!['\n'], before.1 + 1),
            None => before,
        }
    }
}

impl JsonlSource {
    /// The value on row `row` as text to copy: [`spec_copy_text`] of
    /// [`spec_value_at`].
    pub fn row_json(&self, row: usize) -> (r: Option<String>)
        requires
            self.wf(),
        ensures
            match spec_value_at(self.records@, self.map, row as int) {
                Some(v) => r matches Some(t) && t@ == spec_copy_text(v),
                None => r is None,
            },
    {
        let (record, sub) = self.map.at(row);
        proof {
            lemma_spec_at(self.map, record as int, sub as int);
        }
        if record >= self.records.len() {
            return None;
        }
        proof {
            lemma_tree_len_fits(self.records@, record as int, self.records@.len() as int);
        }
        match &self.records[record] {
            Record::Value(v) => {
                let node: &Value = if sub == 0 {
                    v
                } else {
                    match node_at(v, sub - 1) {
                        Some((_, n)) => n,
                        None => {
                            return None;
                        },
                    }
                };
                match node {
                    Value::Str(t) => Some(t.clone()),
                    _ => Some(to_json(node)),
                }
            },
            Record::Bad(_) => None,
        }
    }

    /// `y` on one row: its value as text to copy, on a line of its own, and
    /// `record N`, or the value's path and the record inside a tree; none
    /// where the row has no value.
    pub fn yank_point(&self, row: usize) -> (r: Option<Yank>)
        requires
            self.wf(),
        ensures
            match spec_value_at(self.records@, self.map, row as int) {
                Some(v) => r matches Some(y) && y.text@ == spec_copy_text(v).push('\n') && y.what@ == ({
                    let p = spec_at(self.map, row as int);
                    let head = "record "@ + decimal((p.0 + 1) as nat);
                    match spec_path_of(self.records@, self.map, row as int) {
                        Some(path) => path + " \u{b7} "@ + head,
                        None => head,
                    }
                }),
                None => r is None,
            },
    {
        let text = match self.row_json(row) {
            Some(t) => t,
            None => {
                return None;
            },
        };
        let (record, sub) = self.map.at(row);
        proof {
            lemma_spec_at(self.map, record as int, sub as int);
            reveal_strlit("record ");
            reveal_strlit(" \u{b7} ");
            reveal_strlit("\n");
            reveal_strlit("");
        }
        let mut head = String::from_str("record ");
        push_decimal(&mut head, record + 1);
        let what = match self.path_of(row) {
            Some(p) => {
                let mut w = String::from_str("");
                w.append(p.as_str());
                w.append(" \u{b7} ");
                w.append(head.as_str());
                w
            },
            None => head,
        };
        let mut t = text;
        t.append("\n");
        Some(Yank { text: t, what })
    }

    /// `y` over rows `start..end`, clamped to the document: each row's value
    /// on a line of its own ([`rows_text`]), and how many values that was;
    /// none when no row had one.
    pub fn yank_rows(&self, start: usize, end: usize) -> (r: Option<Yank>)
        requires
            self.wf(),
        ensures
            ({
                let len = if self.records@.len() == 0 {
                    0
                } else {
                    self.records@.len() + total(self.map@)
                };
                let hi = if end < len {
                    end as int
                } else {
                    len as int
                };
                let lo = if start < hi {
                    start as int
                } else {
                    hi
                };
                let got = rows_text(self.records@, self.map, lo, hi);
                if got.0.len() == 0 {
                    r is None
                } else {
                    r matches Some(y) && y.text@ == got.0 && y.what@ == if got.1 == 1 {
                        "1 value"@
                    } else {
                        decimal(got.1) + " values"@
                    }
                }
            }),
    {
        let len = self.len_rows();
        let hi = if end < len {
            end
        } else {
            len
        };
        let lo = if start < hi {
            start
        } else {
            hi
        };
        let mut out = String::new();
        let mut n: usize = 0;
        let mut row: usize = lo;
        proof {
            reveal_strlit("\n");
            assert(out@ =~= rows_text(self.records@, self.map, lo as int, lo as int).0);
        }
        while row < hi
            invariant
                self.wf(),
                lo <= row <= hi,
                out@ == rows_text(self.records@, self.map, lo as int, row as int).0,
                n == rows_text(self.records@, self.map, lo as int, row as int).1,
                n <= row - lo,
            decreases hi - row,
        {
            proof {
                reveal_strlit("\n");
            }
            match self.row_json(row) {
                Some(t) => {
                    out.append(t.as_str());
                    out.append("\n");
                    n = n + 1;
                },
                None => {},
            }
            row = row + 1;
        }
        if out.unicode_len() == 0 {
            return None;
        }
        proof {
            reveal_strlit("1 value");
            reveal_strlit(" values");
            reveal_strlit("");
        }
        let what = if n == 1 {
            String::from_str("1 value")
        } else {
            let mut w = String::from_str("");
            push_decimal(&mut w, n);
            w.append(" values");
            w
        };
        Some(Yank { text: out, what })
    }

    /// `Y`: the whole record the row is in as one line of compact JSON,
    /// wherever in it the cursor is; none for a record that did not parse or
    /// past the last record.
    pub fn yank_section(&self, row: usize) -> (r: Option<Yank>)
        requires
            self.wf(),
        ensures
            ({
                let p = spec_at(self.map, row as int);
                if 0 <= p.0 < self.records@.len() && self.records@[p.0] is Value {
                    r matches Some(y) && y.text@ == spec_json(self.records@[p.0]->Value_0).push('\n') && y.what@
                        == "record "@ + decimal((p.0 + 1) as nat)
                } else {
                    r is None
                }
            }),
    {
        let (record, sub) = self.map.at(row);
        proof {
            lemma_spec_at(self.map, record as int, sub as int);
            reveal_strlit("record ");
            reveal_strlit("\n");
        }
        if record >= self.records.len() {
            return None;
        }
        proof {
            lemma_tree_len_fits(self.records@, record as int, self.records@.len() as int);
        }
        match &self.records[record] {
            Record::Value(v) => {
                let mut t = to_json(v);
                t.append("\n");
                let mut what = String::from_str("record ");
                push_decimal(&mut what, record + 1);
                Some(Yank { text: t, what })
            },
            Record::Bad(_) => None,
        }
    }
}

/// Rows the records are read, and opened under `zR`, ahead of the window.
pub const LOOKAHEAD: usize = 1024;

impl JsonlSource {
    /// The rows `start..end` of the window the frame paints, clamped to the
    /// document: `zR` first opens what the window and [`LOOKAHEAD`] rows past
    /// it reach ([`JsonlSource::fill_expansion`]), then the outline is rebuilt
    /// over the window and its rows are laid out record by record
    /// ([`JsonlSource::rebuild_outline`], [`JsonlSource::collect`]).
    pub fn lines(&mut self, start: usize, end: usize) -> (out: Vec<String>)
        requires
            old(self).wf(),
        ensures
            final(self).wf(),
            final(self).records@ == old(self).records@,
            final(self).expand_all == old(self).expand_all,
            !old(self).expand_all ==> final(self).map == old(self).map,
            ({
                let len = if final(self).records@.len() == 0 {
                    0
                } else {
                    final(self).records@.len() + total(final(self).map@)
                };
                let hi: int = if end < len {
                    end as int
                } else {
                    len as int
                };
                let lo: int = if start < hi {
                    start as int
                } else {
                    hi
                };
                &&& out@.len() <= hi - lo
                &&& forall|i: int|
                    0 <= i < out@.len() ==> (#[trigger] out@[i])@ == spec_line(
                        final(self).records@,
                        spec_at(final(self).map, lo + i).0,
                        spec_at(final(self).map, lo + i).1,
                    )
                &&& final(self).outline@.len() == outline_records(final(self).records@, final(self).map, lo, hi).len()
                &&& forall|k: int|
                    0 <= k < final(self).outline@.len() ==> record_entry(
                        #[trigger] final(self).outline@[k],
                        final(self).records@,
                        final(self).map,
                        outline_records(final(self).records@, final(self).map, lo, hi)[k],
                    )
            }),
    {
        let reach = end.saturating_add(LOOKAHEAD);
        self.fill_expansion(reach);
        let len = self.len_rows();
        let hi = if end < len {
            end
        } else {
            len
        };
        let lo = if start < hi {
            start
        } else {
            hi
        };
        self.rebuild_outline(lo, hi);
        self.collect(lo, hi - lo)
    }
}

} // verus!
