//! The state of a record document that is not its records: which records are
//! open, the lens's plan, whether `zR` is in force, and the outline last
//! painted. Reading a record is a file read and stays with the format's store;
//! what the store knows (how many records are indexed, whether the index is
//! complete) is handed in.
//!
//! Every lens question here forwards to [`lensrow`] and [`ops`], which own the
//! decisions; this holds the state they act on, and the fold vocabulary a
//! saved session speaks: `*` for "everything open", `g4` for an open group and
//! `/4` for an open record.
use vstd::prelude::*;

use super::super::jsonrow::{
    decimal, lemma_decimal_round_trip, parse_usize, push_decimal, top_index, ALL_OPEN,
};
use super::super::types::{Anchor, Entry};
use super::body::views;
use super::fold_id;
use super::lensrow::{self, spec_record_at};
use super::ops::{self, named, names_group, open_group_ids, set_holding};
use super::plan::{Item, Plan, Spot};
use super::rowmap::{total, RowMap};

verus! {

/// The plan and the row map can answer row questions.
pub open spec fn ready(plan: Option<Plan>, map: &RowMap) -> bool {
    &&& map.wf()
    &&& plan matches Some(p) ==> p.wf() && p.synced() && p.fits(map)
}

/// The plan and the row map can take a fold: every row the plan could come to
/// own can be counted.
pub open spec fn roomy(plan: Option<Plan>, map: &RowMap) -> bool {
    &&& map.wf()
    &&& plan matches Some(p) ==> p.wf() && p.own_all_open() <= usize::MAX
}

/// The fold state a record document saves: `*` when `zR` is in force, the open
/// groups, then the open records.
pub open spec fn spec_fold_ids(expand_all: bool, groups: Seq<Seq<char>>, records: Seq<(usize, usize)>) -> Seq<Seq<char>> {
    (if expand_all {
        seq![seq!['*']]
    } else {
        Seq::empty()
    }) + groups + records.map_values(|e: (usize, usize)| seq!['/'] + decimal(e.0 as nat))
}

/// The first outline entry whose id is `id`.
pub open spec fn entry_with(outline: Seq<Entry>, id: Seq<char>) -> Option<usize> {
    if exists|i: int| 0 <= i < outline.len() && (#[trigger] outline[i]).id@ == id {
        Some(
            (choose|i: int|
                0 <= i < outline.len() && outline[i].id@ == id && forall|j: int|
                    0 <= j < i ==> (#[trigger] outline[j]).id@ != id) as usize,
        )
    } else {
        None
    }
}

/// The status bar's block clause: `  ·  block 2/23`, with `≥` before a total
/// the lens has not finished reading.
pub open spec fn spec_block_text(b: Option<(usize, usize)>, settled: bool) -> Seq<char> {
    match b {
        None => Seq::empty(),
        Some((i, n)) => "  \u{b7}  block "@ + decimal((i + 1) as nat) + seq!['/'] + (if settled {
            Seq::empty()
        } else {
            seq!['\u{2265}']
        }) + decimal(n as nat),
    }
}

/// The record a top-level fold id names.
pub open spec fn spec_top_index(id: Seq<char>) -> Option<usize> {
    if id.len() > 0 && id[0] == '/' {
        parse_usize(id.subrange(1, id.len() as int))
    } else {
        None
    }
}

/// The records a saved fold state names, in the order it names them.
pub open spec fn named_records(folds: Seq<String>) -> Seq<usize>
    decreases folds.len(),
{
    if folds.len() == 0 {
        Seq::empty()
    } else {
        let rest = named_records(folds.drop_last());
        match spec_top_index(folds.last()@) {
            Some(r) => rest.push(r),
            None => rest,
        }
    }
}

/// What a row hides, for the gutter.
#[derive(Clone, Copy, PartialEq, Eq, Debug, Structural)]
pub enum Hidden {
    /// Nothing: a row of text or calls, an open or unindexed record, a row
    /// inside a record's tree, or a group that is open.
    Nothing,
    /// A closed group's rows: one per record it holds.
    Rows(usize),
    /// The tree of this shut record, which the format counts.
    TreeOf(usize),
}

/// What folding an outline entry came to.
#[derive(Clone, Copy, PartialEq, Eq, Debug, Structural)]
pub enum EntryFold {
    /// Done here: whether anything changed.
    Done(bool),
    /// The entry names this shut record, and opening it reads it: the format
    /// opens it, and marks the entry when it did.
    OpenRecord(usize),
}

/// `q` is `p` with `record` put at the open level (`full`) or back to its
/// clip, and `r` says whether it was open, or is `None` where `record` is
/// not classified or was already there, and nothing changed.
pub open spec fn level_moved(p: Plan, q: Plan, record: usize, full: bool, r: Option<bool>) -> bool {
    &&& q.wf()
    &&& q.spec_items() == p.spec_items()
    &&& q.spec_seen() == p.spec_seen()
    &&& (r is Some <==> (record < p.spec_classified() && p.spec_full_at(record as int) != full))
    &&& (r matches Some(was) ==> was == p.spec_full_at(record as int))
    &&& q.spec_full_at(record as int) == (if r is Some {
        full
    } else {
        p.spec_full_at(record as int)
    })
}

/// `q` is `p` with call `part` of `record` opened, or shut where it was the
/// open one; `r` says whether it was open, and names the record whose call
/// this shut, where that was another.
pub open spec fn part_moved(p: Plan, q: Plan, record: usize, part: usize, r: (Option<bool>, Option<usize>)) -> bool {
    &&& q.wf()
    &&& q.spec_items() == p.spec_items()
    &&& q.spec_seen() == p.spec_seen()
    &&& r.0 == Some(p.spec_open_parts().contains((record, part)))
    &&& q.spec_open_parts() == (if p.spec_open_parts().contains((record, part)) {
        Seq::<(usize, usize)>::empty()
    } else {
        seq![(record, part)]
    })
    &&& r.1 == (if p.spec_open_parts().len() > 0 && p.spec_open_parts()[0].0 != record {
        Some(p.spec_open_parts()[0].0)
    } else {
        None
    })
}

/// What `Enter` acts on at a spot: call `part` of a record on a call row
/// that opens (`call`), the record's own level on its summary row, a row of
/// its text or another row of its calls, and nothing elsewhere.
pub open spec fn descend_target(at: Spot, call: Option<usize>) -> Option<(usize, Option<usize>)> {
    match at {
        Spot::Part { record, line } => Some((record, call)),
        Spot::Body { record, line } => Some((record, None)),
        Spot::Record { record, sub } => if sub == 0 {
            Some((record, None))
        } else {
            None
        },
        Spot::Group { item } => None,
    }
}

/// A record document's state apart from its records.
pub struct RecordSource {
    /// Which records are open, and what that does to the row numbering.
    pub map: RowMap,
    /// The lens's reading of the file, when one was asked for.
    pub plan: Option<Plan>,
    /// `zR` is in force: records are opened as the viewport reaches them.
    pub expand_all: bool,
    /// Records `expand_all` has already considered.
    pub filled: usize,
    /// Outline entries for the records last painted.
    pub outline: Vec<Entry>,
}

impl RecordSource {
    /// Everything but the plan and the row map is as it was.
    pub open spec fn same_rest(&self, o: &RecordSource) -> bool {
        self.expand_all == o.expand_all && self.filled == o.filled && self.outline@ == o.outline@
    }

    /// A document with nothing open and no lens.
    pub fn new() -> (s: RecordSource)
        ensures
            s.map.wf(),
            s.map@.len() == 0,
            s.plan is None,
            !s.expand_all,
            s.filled == 0,
            s.outline@.len() == 0,
    {
        RecordSource {
            map: RowMap::new(),
            plan: None,
            expand_all: false,
            filled: 0,
            outline: Vec::new(),
        }
    }

    /// Read this file through the lens `lens`: a new plan, nothing read yet.
    pub fn set_lens(&mut self, lens: &'static str)
        ensures
            final(self).map@ == old(self).map@,
            final(self).map == old(self).map,
            final(self).same_rest(old(self)),
            final(self).plan matches Some(p) && p.wf() && p.synced() && p.spec_lens() == lens
                && p.spec_items().len() == 0 && p.spec_classified() == 0,
    {
        self.plan = Some(Plan::new(lens));
    }

    /// The lens in force, for the status bar.
    pub fn lens_name(&self) -> (r: Option<&'static str>)
        ensures
            r == match self.plan {
                Some(p) => Some(p.spec_lens()),
                None => None::<&'static str>,
            },
    {
        match &self.plan {
            Some(p) => Some(p.lens_name()),
            None => None,
        }
    }

    /// Where a screen row falls, with `known` records indexed.
    pub fn spot(&self, known: usize, row: usize) -> (s: Spot)
        requires
            ready(self.plan, &self.map),
        ensures
            self.plan matches Some(p) ==> s == p.spec_at(row as int, known as int, &self.map),
            self.plan is None ==> (s matches Spot::Record { record, sub } && row
                == self.map.spec_row_of(record as int) + sub && sub <= self.map.spec_extra_of(
                record as int,
            )),
    {
        lensrow::spot(self.plan.as_ref(), &self.map, known, row)
    }

    /// The row a record's summary sits on.
    pub fn row_of_record(&self, record: usize) -> (row: usize)
        requires
            ready(self.plan, &self.map),
            self.plan matches Some(p) ==> (record >= p.spec_classified() ==> p.spec_prefix(&self.map)
                + (record - p.spec_classified()) <= usize::MAX),
            self.plan is None ==> record + total(self.map@) <= usize::MAX,
        ensures
            self.plan matches Some(p) ==> row == p.spec_row_of_record(record as int, &self.map),
            self.plan is None ==> row == self.map.spec_row_of(record as int),
    {
        lensrow::row_of_record(self.plan.as_ref(), &self.map, record)
    }

    /// Is `record` a row of its own, not hidden inside a closed group?
    pub fn record_visible(&self, record: usize) -> (b: bool)
        requires
            self.plan matches Some(p) ==> p.wf(),
        ensures
            b == match self.plan {
                Some(p) => !exists|i: int|
                    #[trigger] p.holds(i, record as int) && p.spec_items()[i].spec_is_group()
                        && !p.spec_items()[i].open,
                None => true,
            },
    {
        lensrow::record_visible(self.plan.as_ref(), record)
    }

    /// The record a row belongs to.
    pub fn record_at(&self, known: usize, row: usize) -> (r: usize)
        requires
            ready(self.plan, &self.map),
        ensures
            self.plan matches Some(p) ==> r == spec_record_at(
                &p,
                &self.map,
                known as int,
                row as int,
            ),
            self.plan is None ==> self.map.spec_row_of(r as int) <= row <= self.map.spec_row_of(
                r as int,
            ) + self.map.spec_extra_of(r as int),
    {
        lensrow::record_at(self.plan.as_ref(), &self.map, known, row)
    }

    /// The first record of a plan item; `0` with no lens or no such item.
    pub fn item_first(&self, item: usize) -> (r: usize)
        ensures
            r == match self.plan {
                Some(p) => if item < p.spec_items().len() {
                    p.spec_items()[item as int].first
                } else {
                    0
                },
                None => 0,
            },
    {
        lensrow::item_first(self.plan.as_ref(), item)
    }

    /// Is this record inside a group that is open? Its row is inset if so.
    pub fn in_open_group(&self, record: usize) -> (b: bool)
        requires
            self.plan matches Some(p) ==> p.wf(),
        ensures
            b == match self.plan {
                Some(p) => p.is_member(record as int),
                None => false,
            },
    {
        lensrow::in_open_group(self.plan.as_ref(), record)
    }

    /// `zR` under a lens: open the groups the viewport has reached.
    pub fn open_groups(&mut self, upto_row: usize)
        requires
            old(self).map.wf(),
            old(self).plan matches Some(p) ==> p.wf() && p.bounded(&old(self).map),
        ensures
            final(self).same_rest(old(self)),
            final(self).map.wf(),
            final(self).map@ == old(self).map@,
            old(self).plan is None <==> final(self).plan is None,
            old(self).plan matches Some(p) ==> (final(self).plan matches Some(q) && q.wf()
                && q.synced() && q.spec_items().len() == p.spec_items().len() && (forall|i: int|
                0 <= i < p.spec_items().len() ==> #[trigger] q.spec_items()[i] == (Item {
                    open: p.spec_items()[i].open || (p.spec_items()[i].spec_is_group()
                        && q.row_start(&final(self).map, i) <= upto_row),
                    ..p.spec_items()[i]
                }))),
    {
        ops::open_upto(&mut self.plan, &mut self.map, upto_row);
    }

    /// `zM` under a lens: shut every group.
    pub fn close_groups(&mut self)
        requires
            roomy(old(self).plan, &old(self).map),
        ensures
            final(self).same_rest(old(self)),
            final(self).map.wf(),
            old(self).plan is None <==> final(self).plan is None,
            old(self).plan is None ==> final(self).map@ == old(self).map@,
            old(self).plan matches Some(p) ==> (final(self).plan matches Some(q) && q.wf()
                && q.synced() && q.spec_items().len() == p.spec_items().len() && (forall|i: int|
                0 <= i < p.spec_items().len() ==> #[trigger] q.spec_items()[i]
                    == if p.spec_items()[i].spec_is_group() {
                    Item { open: false, ..p.spec_items()[i] }
                } else {
                    p.spec_items()[i]
                }) && q.own_all_open() == p.own_all_open() && q.spec_all_full() == p.spec_all_full()),
    {
        ops::close_all(&mut self.plan, &mut self.map);
    }

    /// Open the group holding `record`, so a search hit is never left folded.
    pub fn reveal_record(&mut self, record: usize)
        requires
            roomy(old(self).plan, &old(self).map),
        ensures
            final(self).same_rest(old(self)),
            final(self).map.wf(),
            final(self).map@ == old(self).map@,
            old(self).plan is None <==> final(self).plan is None,
            old(self).plan matches Some(p) ==> (final(self).plan matches Some(q) && q.wf()
                && q.synced() && q.spec_items() == set_holding(&p, record as int, true)),
    {
        ops::reveal_record(&mut self.plan, &mut self.map, record);
    }

    /// The fold id of whatever sits on `at`: a group's `g4` or a record's `/4`.
    pub fn fold_id_at(&self, at: Spot) -> (id: String)
        ensures
            id@ == match at {
                Spot::Group { item } => seq!['g'] + decimal(
                    match self.plan {
                        Some(p) => if item < p.spec_items().len() {
                            p.spec_items()[item as int].first as nat
                        } else {
                            0
                        },
                        None => 0,
                    },
                ),
                Spot::Record { record, .. } => seq!['/'] + decimal(record as nat),
                Spot::Body { record, .. } => seq!['/'] + decimal(record as nat),
                Spot::Part { record, .. } => seq!['/'] + decimal(record as nat),
            },
    {
        ops::id_at(self.plan.as_ref(), at)
    }

    /// Apply a fold id that may name a group; `None` is an id that names no
    /// group, which is the record half's to read.
    pub fn set_group_by_id(&mut self, id: &str, open: bool) -> (r: Option<bool>)
        requires
            roomy(old(self).plan, &old(self).map),
        ensures
            final(self).same_rest(old(self)),
            final(self).map.wf(),
            old(self).plan is None <==> final(self).plan is None,
            r is None <==> !(id@.len() > 0 && id@[0] == 'g' && super::super::jsonrow::parse_usize(
                id@.subrange(1, id@.len() as int),
            ) is Some),
            r is None ==> final(self).plan == old(self).plan && final(self).map@ == old(self).map@,
            old(self).plan is None ==> final(self).map@ == old(self).map@ && r != Some(true),
            r matches Some(changed) ==> (old(self).plan matches Some(p) ==> (final(self).plan matches Some(q) && q.wf() && q.synced() && q.spec_items() == set_holding(
                &p,
                super::super::jsonrow::parse_usize(id@.subrange(1, id@.len() as int))->0 as int,
                open,
            ) && changed == (exists|i: int|
                #[trigger] p.holds(
                    i,
                    super::super::jsonrow::parse_usize(id@.subrange(1, id@.len() as int))->0 as int,
                ) && p.toggles(i, open)))),
    {
        ops::set_by_id(&mut self.plan, &mut self.map, id, open)
    }

    /// The open groups, as fold ids.
    pub fn group_folds(&self) -> (ids: Vec<String>)
        ensures
            ids@.len() == match self.plan {
                Some(p) => open_group_ids(p.spec_items()).len(),
                None => 0,
            },
            self.plan matches Some(p) ==> forall|k: int|
                0 <= k < ids@.len() ==> (#[trigger] ids@[k])@ == open_group_ids(p.spec_items())[k],
    {
        ops::open_ids(self.plan.as_ref())
    }

    /// Shut every group, then reopen the ones a saved fold state names.
    pub fn restore_groups(&mut self, folds: &[String])
        requires
            roomy(old(self).plan, &old(self).map),
        ensures
            final(self).same_rest(old(self)),
            final(self).map.wf(),
            old(self).plan is None <==> final(self).plan is None,
            old(self).plan is None ==> final(self).map@ == old(self).map@,
            old(self).plan matches Some(p) ==> (final(self).plan matches Some(q) && q.wf()
                && q.synced() && q.spec_items().len() == p.spec_items().len() && (forall|i: int|
                0 <= i < p.spec_items().len() ==> #[trigger] q.spec_items()[i] == (Item {
                    open: if p.spec_items()[i].spec_is_group() {
                        named(&p, folds@, folds@.len() as int, i)
                    } else {
                        p.spec_items()[i].open
                    },
                    ..p.spec_items()[i]
                }))),
    {
        ops::restore(&mut self.plan, &mut self.map, folds);
    }

    /// `Tab` / `S-Tab` under a lens: the next block boundary.
    pub fn next_block_row(&self, row: usize, forward: bool) -> (r: Option<usize>)
        requires
            ready(self.plan, &self.map),
        ensures
            r == match self.plan {
                Some(p) => p.spec_next_block(&self.map, row as int, forward),
                None => None,
            },
    {
        ops::next_block(self.plan.as_ref(), &self.map, row, forward)
    }

    /// The rows of the block a row falls in.
    pub fn block_rows(&self, row: usize) -> (r: Option<std::ops::Range<usize>>)
        requires
            ready(self.plan, &self.map),
        ensures
            self.plan is None ==> r is None,
            self.plan matches Some(p) ==> (r is Some <==> row < p.spec_prefix(&self.map)) && (r matches Some(rg)
                ==> rg.start == p.block_start(&self.map, p.block_index(&self.map, row as int))
                && rg.end == p.block_start(&self.map, p.block_index(&self.map, row as int) + 1)),
    {
        ops::block_at(self.plan.as_ref(), &self.map, row)
    }

    /// `(index, count)` of the block a row is on, for the status bar.
    pub fn block_of_row(&self, row: usize) -> (r: Option<(usize, usize)>)
        requires
            ready(self.plan, &self.map),
        ensures
            self.plan is None ==> r is None,
            self.plan matches Some(p) ==> (r is Some <==> row < p.spec_prefix(&self.map)) && (r matches Some(b)
                ==> b.0 == p.block_index(&self.map, row as int) && b.1 == p.spec_blocks() && b.0 < b.1),
    {
        ops::block_of_row(self.plan.as_ref(), &self.map, row)
    }

    /// The status bar's block clause, `  ·  block 2/23`, or nothing: nothing
    /// with no lens and past the classified prefix, and a `≥` before the total
    /// until the index is `complete` and the lens has read all `known` records.
    pub fn block_text(&self, row: usize, complete: bool, known: usize) -> (s: String)
        requires
            ready(self.plan, &self.map),
        ensures
            s@ == spec_block_text(
                match self.plan {
                    Some(p) => if row < p.spec_prefix(&self.map) {
                        Some((p.block_index(&self.map, row as int) as usize, p.spec_blocks() as usize))
                    } else {
                        None
                    },
                    None => None,
                },
                complete && match self.plan {
                    Some(p) => p.spec_classified() >= known,
                    None => 0 >= known,
                },
            ),
    {
        proof {
            reveal_strlit("");
            reveal_strlit("  \u{b7}  block ");
            reveal_strlit("/");
            reveal_strlit("\u{2265}");
        }
        let (i, n) = match self.block_of_row(row) {
            Some(b) => b,
            None => {
                return String::from_str("");
            },
        };
        let classified = match &self.plan {
            Some(p) => p.classified(),
            None => 0,
        };
        let mut s = String::from_str("  \u{b7}  block ");
        push_decimal(&mut s, i + 1);
        s.append("/");
        if !(complete && classified >= known) {
            s.append("\u{2265}");
        }
        push_decimal(&mut s, n);
        s
    }

    /// The fold state this document saves: `*` when `zR` is in force, the
    /// open groups, then the open records. The default is shut, so a
    /// million-record file saves only what was opened.
    pub fn fold_ids(&self) -> (out: Vec<String>)
        requires
            self.map.wf(),
        ensures
            out@.len() == spec_fold_ids(
                self.expand_all,
                match self.plan {
                    Some(p) => open_group_ids(p.spec_items()),
                    None => Seq::empty(),
                },
                self.map@,
            ).len(),
            forall|k: int|
                0 <= k < out@.len() ==> (#[trigger] out@[k])@ == spec_fold_ids(
                    self.expand_all,
                    match self.plan {
                        Some(p) => open_group_ids(p.spec_items()),
                        None => Seq::empty(),
                    },
                    self.map@,
                )[k],
    {
        let ghost groups = match &self.plan {
            Some(p) => open_group_ids(p.spec_items()),
            None => Seq::<Seq<char>>::empty(),
        };
        let mut out: Vec<String> = Vec::new();
        if self.expand_all {
            out.push(String::from_str(ALL_OPEN));
            proof {
                reveal_strlit("*");
            }
        }
        let ghost head = out@.len();
        let g = self.group_folds();
        let mut k: usize = 0;
        while k < g.len()
            invariant
                k <= g@.len(),
                g@.len() == groups.len(),
                forall|j: int| 0 <= j < g@.len() ==> (#[trigger] g@[j])@ == groups[j],
                head == if self.expand_all { 1nat } else { 0nat },
                out@.len() == head + k,
                forall|j: int|
                    0 <= j < out@.len() ==> (#[trigger] out@[j])@ == spec_fold_ids(
                        self.expand_all,
                        groups,
                        self.map@,
                    )[j],
            decreases g@.len() - k,
        {
            out.push(g[k].clone());
            k = k + 1;
        }
        let recs = self.map.records();
        let mut r: usize = 0;
        while r < recs.len()
            invariant
                r <= recs@.len(),
                recs@.len() == self.map@.len(),
                forall|j: int| 0 <= j < recs@.len() ==> recs@[j] == (#[trigger] self.map@[j]).0,
                head == if self.expand_all { 1nat } else { 0nat },
                out@.len() == head + groups.len() + r,
                forall|j: int|
                    0 <= j < out@.len() ==> (#[trigger] out@[j])@ == spec_fold_ids(
                        self.expand_all,
                        groups,
                        self.map@,
                    )[j],
            decreases recs@.len() - r,
        {
            out.push(fold_id(recs[r]));
            r = r + 1;
        }
        out
    }

    /// `at` is what sits on `row` with `known` records indexed.
    pub open spec fn spot_is(&self, known: usize, row: usize, at: Spot) -> bool {
        match self.plan {
            Some(p) => at == p.spec_at(row as int, known as int, &self.map),
            None => at matches Spot::Record { record, sub } && row == self.map.spec_row_of(
                record as int,
            ) + sub && sub <= self.map.spec_extra_of(record as int),
        }
    }

    /// The fold id of `at`, as [`Self::fold_id_at`] writes it.
    pub open spec fn id_of(&self, at: Spot) -> Seq<char> {
        match at {
            Spot::Group { item } => seq!['g'] + decimal(
                match self.plan {
                    Some(p) => if item < p.spec_items().len() {
                        p.spec_items()[item as int].first as nat
                    } else {
                        0
                    },
                    None => 0,
                },
            ),
            Spot::Record { record, .. } => seq!['/'] + decimal(record as nat),
            Spot::Body { record, .. } => seq!['/'] + decimal(record as nat),
            Spot::Part { record, .. } => seq!['/'] + decimal(record as nat),
        }
    }

    /// The outline entry the row under the cursor belongs to: the first entry
    /// carrying the fold id of what sits on that row.
    pub fn section_of(&self, known: usize, row: usize) -> (r: Option<usize>)
        requires
            ready(self.plan, &self.map),
        ensures
            exists|at: Spot| #[trigger] self.spot_is(known, row, at) && r == entry_with(self.outline@, self.id_of(at)),
    {
        let at = self.spot(known, row);
        let id = self.fold_id_at(at);
        let mut i: usize = 0;
        while i < self.outline.len()
            invariant
                i <= self.outline@.len(),
                id@ == self.id_of(at),
                self.spot_is(known, row, at),
                forall|j: int| 0 <= j < i ==> (#[trigger] self.outline@[j]).id@ != id@,
            decreases self.outline@.len() - i,
        {
            if self.outline[i].id == id {
                proof {
                    assert(self.outline@[i as int].id@ == id@);
                    let c = choose|c: int|
                        0 <= c < self.outline@.len() && self.outline@[c].id@ == id@ && forall|j: int|
                            0 <= j < c ==> (#[trigger] self.outline@[j]).id@ != id@;
                    assert(c == i) by {
                        if c > i {
                            assert(self.outline@[i as int].id@ != id@);
                        }
                    }
                    assert(self.spot_is(known, row, at));
                }
                return Some(i);
            }
            i = i + 1;
        }
        proof {
            assert(self.spot_is(known, row, at));
        }
        None
    }

    /// The outline entry for the row at `at` (row `row`), built over the rows
    /// the last frame painted: a group's row is an entry, and so is the
    /// summary row of a record that can be opened (`foldable`: its tree has
    /// rows); nothing else is. `text` is what the row says: under a lens the
    /// painted row, and without one the record's collapsed summary, which the
    /// entry then puts after the record's line number. A member of an open
    /// run sits one level down.
    pub fn outline_entry(&self, at: Spot, row: usize, foldable: bool, text: &str) -> (e: Option<Entry>)
        requires
            self.map.wf(),
            self.plan matches Some(p) ==> p.wf(),
            at matches Spot::Record { record, .. } ==> record < usize::MAX,
        ensures
            match at {
                Spot::Group { item } => e matches Some(en) && en.level == 1 && en.id@ == seq!['g']
                    + decimal(
                    match self.plan {
                        Some(p) => if item < p.spec_items().len() {
                            p.spec_items()[item as int].first as nat
                        } else {
                            0
                        },
                        None => 0,
                    },
                ) && en.text@ == text@ && en.anchor == Anchor(row) && en.folded == !match self.plan {
                    Some(p) => item < p.spec_items().len() && p.spec_items()[item as int].open,
                    None => false,
                },
                Spot::Record { record, sub } => if sub == 0 && foldable {
                    e matches Some(en) && en.level == (if self.plan matches Some(p) && p.is_member(
                        record as int,
                    ) {
                        2u8
                    } else {
                        1u8
                    }) && en.id@ == seq!['/'] + decimal(record as nat) && en.text@ == (if self.plan is Some {
                        text@
                    } else {
                        "line "@ + decimal((record + 1) as nat) + "  "@ + text@
                    }) && en.anchor == Anchor(row) && en.folded == !self.map.spec_is_open(record as int)
                } else {
                    e is None
                },
                _ => e is None,
            },
    {
        match at {
            Spot::Group { item } => {
                let id = self.fold_id_at(at);
                let open = lensrow::item_open(self.plan.as_ref(), item);
                Some(Entry { level: 1, id, text: text.to_string(), anchor: Anchor(row), folded: !open })
            },
            Spot::Record { record, sub } => {
                if sub != 0 || !foldable {
                    return None;
                }
                let level: u8 = if self.in_open_group(record) {
                    2
                } else {
                    1
                };
                let id = fold_id(record);
                let shown = if self.plan.is_some() {
                    text.to_string()
                } else {
                    proof {
                        reveal_strlit("line ");
                        reveal_strlit("  ");
                    }
                    let mut t = String::from_str("line ");
                    push_decimal(&mut t, record + 1);
                    t.append("  ");
                    t.append(text);
                    t
                };
                Some(
                    Entry {
                        level,
                        id,
                        text: shown,
                        anchor: Anchor(row),
                        folded: !self.map.is_open(record),
                    },
                )
            },
            _ => None,
        }
    }

    /// Mark an outline entry folded or not. The outline is what the last
    /// frame painted, so an entry that has since scrolled away is not there
    /// to update.
    pub fn mark_entry(&mut self, entry: usize, closed: bool)
        ensures
            final(self).map == old(self).map,
            final(self).plan == old(self).plan,
            final(self).expand_all == old(self).expand_all,
            final(self).filled == old(self).filled,
            final(self).outline@.len() == old(self).outline@.len(),
            forall|j: int|
                0 <= j < old(self).outline@.len() ==> #[trigger] final(self).outline@[j] == if j
                    == entry {
                    Entry { folded: closed, ..old(self).outline@[j] }
                } else {
                    old(self).outline@[j]
                },
    {
        if entry < self.outline.len() {
            self.outline[entry].folded = closed;
        }
    }

    /// Row `row` is row `sub` of record `record`, counting its summary row as
    /// row 0.
    pub open spec fn on_row(&self, row: usize, record: usize, sub: usize) -> bool {
        row == self.map.spec_row_of(record as int) + sub && sub <= self.map.spec_extra_of(
            record as int,
        )
    }

    /// Block boundaries for `Tab` / `S-Tab`. Under a lens, the plan's blocks;
    /// without one a record is its own block, and the rows under an open one
    /// are inside it: forward to the next record's row, back to the start of
    /// this record, or to the previous record from its own row.
    pub fn landmark(&self, known: usize, row: usize, forward: bool) -> (r: Option<usize>)
        requires
            ready(self.plan, &self.map),
            self.plan is None ==> known + total(self.map@) <= usize::MAX && row + total(self.map@)
                <= usize::MAX,
        ensures
            self.plan matches Some(p) ==> r == p.spec_next_block(&self.map, row as int, forward),
            self.plan is None ==> exists|record: usize, sub: usize|
                #[trigger] self.on_row(row, record, sub) && r == if forward {
                    if record + 1 < known {
                        Some(self.map.spec_row_of(record + 1) as usize)
                    } else {
                        None
                    }
                } else if sub > 0 {
                    Some(self.map.spec_row_of(record as int) as usize)
                } else if record > 0 {
                    Some(self.map.spec_row_of(record - 1) as usize)
                } else {
                    None
                },
    {
        if self.plan.is_some() {
            return self.next_block_row(row, forward);
        }
        let (record, sub) = self.map.at(row);
        proof {
            assert(self.on_row(row, record, sub));
        }
        let r = if forward {
            if known > 0 && record < known - 1 {
                Some(self.map.row_of(record + 1))
            } else {
                None
            }
        } else if sub > 0 {
            Some(self.map.row_of(record))
        } else if record > 0 {
            Some(self.map.row_of(record - 1))
        } else {
            None
        };
        r
    }

    /// Read a saved fold state back: everything shut, `zR` in force when the
    /// state says `*`, the groups it names opened, and the records it names
    /// returned in order for the format to open, since opening a record reads
    /// it.
    pub fn restore_folds(&mut self, folds: &[String]) -> (records: Vec<usize>)
        requires
            old(self).plan matches Some(p) ==> p.wf() && p.own_all_open() <= usize::MAX,
        ensures
            final(self).map.wf(),
            final(self).expand_all == exists|k: int| 0 <= k < folds@.len() && (#[trigger] folds@[k])@ == "*"@,
            final(self).filled == 0,
            final(self).outline@ == old(self).outline@,
            old(self).plan is None ==> final(self).plan is None && final(self).map@.len() == 0,
            old(self).plan matches Some(p) ==> (final(self).plan matches Some(q) && q.wf()
                && q.synced() && q.spec_items().len() == p.spec_items().len() && (forall|i: int|
                0 <= i < p.spec_items().len() ==> #[trigger] q.spec_items()[i] == (Item {
                    open: if p.spec_items()[i].spec_is_group() {
                        named(&p, folds@, folds@.len() as int, i)
                    } else {
                        p.spec_items()[i].open
                    },
                    ..p.spec_items()[i]
                }))),
            records@ == named_records(folds@),
    {
        self.map.clear();
        let mut all = false;
        let mut k: usize = 0;
        while k < folds.len()
            invariant
                k <= folds@.len(),
                all == exists|j: int| 0 <= j < k && (#[trigger] folds@[j])@ == "*"@,
            decreases folds@.len() - k,
        {
            proof {
                reveal_strlit("*");
            }
            let id = folds[k].as_str();
            if id.unicode_len() == 1 && id.get_char(0) == '*' {
                proof {
                    assert(folds@[k as int]@ =~= "*"@);
                }
                all = true;
            }
            k = k + 1;
        }
        self.expand_all = all;
        self.filled = 0;
        self.restore_groups(folds);
        let mut out: Vec<usize> = Vec::new();
        let mut k: usize = 0;
        proof {
            assert(folds@.take(0) =~= Seq::<String>::empty());
        }
        while k < folds.len()
            invariant
                k <= folds@.len(),
                out@ == named_records(folds@.take(k as int)),
            decreases folds@.len() - k,
        {
            proof {
                assert(folds@.take(k + 1).drop_last() =~= folds@.take(k as int));
                assert(folds@.take(k + 1).last() == folds@[k as int]);
            }
            match top_index(folds[k].as_str()) {
                Some(r) => out.push(r),
                None => {},
            }
            k = k + 1;
        }
        proof {
            assert(folds@.take(folds@.len() as int) =~= folds@);
        }
        out
    }

    /// What the row hides, for the gutter: a closed group its records, a shut
    /// record's summary row its tree, and nothing else anything.
    pub fn hidden_under(&self, known: usize, row: usize) -> (h: Hidden)
        requires
            ready(self.plan, &self.map),
        ensures
            exists|at: Spot| #[trigger] self.spot_is(known, row, at) && h == match at {
                Spot::Body { .. } => Hidden::Nothing,
                Spot::Part { .. } => Hidden::Nothing,
                Spot::Group { item } => {
                    let n = match self.plan {
                        Some(p) => if item < p.spec_items().len() && p.spec_items()[item as int].spec_is_group()
                            && !p.spec_items()[item as int].open {
                            p.spec_items()[item as int].count
                        } else {
                            0
                        },
                        None => 0,
                    };
                    if n > 0 {
                        Hidden::Rows(n)
                    } else {
                        Hidden::Nothing
                    }
                },
                Spot::Record { record, sub } => if sub != 0 || self.map.spec_is_open(record as int)
                    || record >= known {
                    Hidden::Nothing
                } else {
                    Hidden::TreeOf(record)
                },
            },
    {
        let at = self.spot(known, row);
        proof {
            assert(self.spot_is(known, row, at));
        }
        match at {
            Spot::Body { .. } => Hidden::Nothing,
            Spot::Part { .. } => Hidden::Nothing,
            Spot::Group { item } => {
                let n = match &self.plan {
                    Some(p) => p.hidden(item),
                    None => 0,
                };
                if n > 0 {
                    Hidden::Rows(n)
                } else {
                    Hidden::Nothing
                }
            },
            Spot::Record { record, sub } => {
                if sub != 0 || self.map.is_open(record) || record >= known {
                    Hidden::Nothing
                } else {
                    Hidden::TreeOf(record)
                }
            },
        }
    }

    /// Put `record` at the open level or back to its clip. `None` when it
    /// was already there (or there is no lens), so the caller can fall
    /// through; otherwise whether it was open, and the caller re-measures the
    /// record, which reads it.
    pub fn set_level(&mut self, record: usize, full: bool) -> (r: Option<bool>)
        requires
            old(self).plan matches Some(p) ==> p.wf(),
        ensures
            final(self).map == old(self).map,
            final(self).same_rest(old(self)),
            old(self).plan is None ==> r is None && final(self).plan is None,
            old(self).plan matches Some(p) ==> final(self).plan matches Some(q) && level_moved(
                p,
                q,
                record,
                full,
                r,
            ),
    {
        match &mut self.plan {
            None => None,
            Some(plan) => {
                let was = plan.full_at(record);
                if !plan.set_full(record, full) {
                    return None;
                }
                Some(was)
            },
        }
    }

    /// `Enter` on a call row: its arguments and its output, or neither. One
    /// call opens at a time, so opening this one may shut a call on another
    /// record: that record comes back beside whether this call was open, for
    /// the caller to re-measure along with `record`.
    pub fn toggle_part(&mut self, record: usize, part: usize) -> (r: (Option<bool>, Option<usize>))
        requires
            old(self).plan matches Some(p) ==> p.wf(),
        ensures
            final(self).map == old(self).map,
            final(self).same_rest(old(self)),
            old(self).plan is None ==> r == (None::<bool>, None::<usize>) && final(self).plan is None,
            old(self).plan matches Some(p) ==> final(self).plan matches Some(q) && part_moved(
                p,
                q,
                record,
                part,
                r,
            ),
    {
        match &mut self.plan {
            None => (None, None),
            Some(plan) => {
                let was = plan.part_open(record, part);
                let other = match plan.open_part_record() {
                    Some(o) => if o != record {
                        Some(o)
                    } else {
                        None
                    },
                    None => None,
                };
                let changed = plan.set_part_open(record, part, !was);
                proof {
                    assert(changed);
                }
                (Some(was), other)
            },
        }
    }

    /// `Enter` on the row at `at`: on a call row whose call opens (`call`,
    /// which the caller reads from the record's laid-out parts) the call opens
    /// or shuts, as [`RecordSource::toggle_part`]; on a record's summary row, a
    /// row of its text or another row of its calls the record climbs to its
    /// open level or goes back to its clip, as [`RecordSource::set_level`],
    /// where there is anything further to show (`further`, which the caller
    /// measures). `None` elsewhere, without a lens, and where nothing changed.
    pub fn descend(&mut self, at: Spot, call: Option<usize>, further: bool) -> (r: (Option<bool>, Option<usize>))
        requires
            old(self).plan matches Some(p) ==> p.wf(),
        ensures
            final(self).map == old(self).map,
            final(self).same_rest(old(self)),
            old(self).plan is None ==> r == (None::<bool>, None::<usize>) && final(self).plan is None,
            old(self).plan matches Some(p) ==> final(self).plan matches Some(q) && match descend_target(
                at,
                call,
            ) {
                Some((record, Some(part))) => part_moved(p, q, record, part, r),
                Some((record, None)) => if further {
                    r.1 is None && level_moved(p, q, record, !p.spec_full_at(record as int), r.0)
                } else {
                    r == (None::<bool>, None::<usize>) && q == p
                },
                None => r == (None::<bool>, None::<usize>) && q == p,
            },
    {
        let record = match at {
            Spot::Part { record, line } => match call {
                Some(part) => {
                    return self.toggle_part(record, part);
                },
                None => record,
            },
            Spot::Body { record, line } => record,
            Spot::Record { record, sub } => {
                if sub != 0 {
                    return (None, None);
                }
                record
            },
            Spot::Group { item } => {
                return (None, None);
            },
        };
        if !further {
            return (None, None);
        }
        let full = match &self.plan {
            None => {
                return (None, None);
            },
            Some(plan) => plan.full_at(record),
        };
        (self.set_level(record, !full), None)
    }

    /// `Enter` on a row, where a lens reads the file: what
    /// [`RecordSource::descend`] does, and where that does nothing the key is
    /// still claimed (`Some(false)`: nothing moved) on every row but a
    /// group's, which opens through the outline. Without a lens the key
    /// belongs to the outline: `None`.
    pub fn fold_at_row(&mut self, at: Spot, call: Option<usize>, further: bool) -> (r: (Option<bool>, Option<usize>))
        requires
            old(self).plan matches Some(p) ==> p.wf(),
        ensures
            final(self).map == old(self).map,
            final(self).same_rest(old(self)),
            old(self).plan is None ==> r == (None::<bool>, None::<usize>) && final(self).plan is None,
            old(self).plan matches Some(p) ==> final(self).plan matches Some(q) && match descend_target(
                at,
                call,
            ) {
                Some((record, Some(part))) => part_moved(p, q, record, part, r),
                Some((record, None)) => if further {
                    r.1 is None && level_moved(
                        p,
                        q,
                        record,
                        !p.spec_full_at(record as int),
                        if record < p.spec_classified() {
                            r.0
                        } else {
                            None
                        },
                    ) && (record >= p.spec_classified() ==> r.0 == Some(false))
                } else {
                    r == (Some(false), None::<usize>) && q == p
                },
                None => r == (if at is Group {
                    None::<bool>
                } else {
                    Some(false)
                }, None::<usize>) && q == p,
            },
    {
        let (was, other) = self.descend(at, call, further);
        if was.is_some() {
            return (was, other);
        }
        if self.plan.is_none() {
            return (None, None);
        }
        match at {
            Spot::Group { item } => (None, None),
            _ => (Some(false), None),
        }
    }

    /// An outline entry opened or shut by name: a group's id folds the group,
    /// a record's id shuts the record here or asks the format to open it, and
    /// an entry that is not there, or names neither, changes nothing. A
    /// change is marked on the entry.
    #[verifier::spinoff_prover]
    pub fn fold_entry(&mut self, entry: usize, closed: bool) -> (r: EntryFold)
        requires
            roomy(old(self).plan, &old(self).map),
        ensures
            final(self).map.wf(),
            final(self).expand_all == old(self).expand_all,
            final(self).filled == old(self).filled,
            final(self).outline@.len() == old(self).outline@.len(),
            entry >= old(self).outline@.len() ==> r == EntryFold::Done(false) && final(self).plan
                == old(self).plan && final(self).map@ == old(self).map@,
            entry < old(self).outline@.len() ==> ({
                let id = old(self).outline@[entry as int].id@;
                let changed = match r {
                    EntryFold::Done(c) => c,
                    EntryFold::OpenRecord(_) => false,
                };
                &&& (names_group(id) is Some ==> (r matches EntryFold::Done(_)))
                &&& (names_group(id) is Some && old(self).plan is None ==> r == EntryFold::Done(false)
                    && final(self).plan is None && final(self).map@ == old(self).map@)
                &&& (names_group(id) is None && spec_top_index(id) is None ==> r == EntryFold::Done(
                    false,
                ) && final(self).plan == old(self).plan && final(self).map@ == old(self).map@)
                &&& (names_group(id) is None && spec_top_index(id) is Some ==> final(self).plan == old(
                    self,
                ).plan && if closed {
                    r == EntryFold::Done(old(self).map.spec_is_open(spec_top_index(id)->0 as int))
                } else {
                    r == EntryFold::OpenRecord(spec_top_index(id)->0) && final(self).map@ == old(
                        self,
                    ).map@
                })
                &&& (forall|j: int|
                    0 <= j < old(self).outline@.len() ==> #[trigger] final(self).outline@[j] == if j
                        == entry && changed {
                        Entry { folded: closed, ..old(self).outline@[j] }
                    } else {
                        old(self).outline@[j]
                    })
            }),
    {
        if entry >= self.outline.len() {
            return EntryFold::Done(false);
        }
        let id = self.outline[entry].id.clone();
        let ghost s0 = *self;
        match self.set_group_by_id(id.as_str(), !closed) {
            Some(changed) => {
                if changed {
                    self.mark_entry(entry, closed);
                }
                return EntryFold::Done(changed);
            },
            None => {},
        }
        let record = match top_index(id.as_str()) {
            Some(r) => r,
            None => {
                return EntryFold::Done(false);
            },
        };
        if !closed {
            return EntryFold::OpenRecord(record);
        }
        let changed = self.map.close(record);
        if changed {
            self.mark_entry(entry, closed);
        }
        EntryFold::Done(changed)
    }

    /// `zM` shuts every record and every group and puts every message back to
    /// its clip; `zR` puts every message at its open level and leaves the
    /// records to be opened as the viewport reaches them (`expand_all`), which
    /// the format does, since opening a record reads it.
    pub fn fold_every(&mut self, closed: bool)
        requires
            old(self).plan matches Some(p) ==> p.wf() && p.own_all_open() <= usize::MAX,
        ensures
            final(self).map.wf(),
            final(self).expand_all == !closed,
            final(self).filled == 0,
            final(self).outline@ == old(self).outline@,
            old(self).plan is None ==> final(self).plan is None && final(self).map@.len() == 0,
            old(self).plan matches Some(p) ==> (final(self).plan matches Some(q) && q.wf()
                && q.spec_all_full() == !closed && q.spec_items().len() == p.spec_items().len() && (
                forall|i: int|
                    0 <= i < p.spec_items().len() ==> #[trigger] q.spec_items()[i] == if closed
                        && p.spec_items()[i].spec_is_group() {
                        Item { open: false, ..p.spec_items()[i] }
                    } else {
                        p.spec_items()[i]
                    })),
            !closed ==> final(self).map@.len() == 0,
    {
        self.expand_all = !closed;
        self.filled = 0;
        self.map.clear();
        match &mut self.plan {
            Some(p) => p.set_all_full(!closed),
            None => {},
        }
        if closed {
            self.close_groups();
        }
    }
}

/// The records a run of fold ids names, in order.
pub open spec fn named_in(ids: Seq<Seq<char>>) -> Seq<usize>
    decreases ids.len(),
{
    if ids.len() == 0 {
        Seq::empty()
    } else {
        let rest = named_in(ids.drop_last());
        match spec_top_index(ids.last()) {
            Some(r) => rest.push(r),
            None => rest,
        }
    }
}

/// What a saved fold state names depends only on the text of its ids.
proof fn lemma_named_views(folds: Seq<String>)
    ensures
        named_records(folds) == named_in(views(folds)),
    decreases folds.len(),
{
    if folds.len() > 0 {
        lemma_named_views(folds.drop_last());
        assert(views(folds.drop_last()) =~= views(folds).drop_last());
    }
}

/// The records named by ids one after the other are those named by each.
proof fn lemma_named_concat(a: Seq<Seq<char>>, b: Seq<Seq<char>>)
    ensures
        named_in(a + b) == named_in(a) + named_in(b),
    decreases b.len(),
{
    if b.len() == 0 {
        assert(a + b =~= a);
        assert(named_in(a) + named_in(b) =~= named_in(a));
    } else {
        lemma_named_concat(a, b.drop_last());
        assert((a + b).drop_last() =~= a + b.drop_last());
        assert((a + b).last() == b.last());
        match spec_top_index(b.last()) {
            Some(r) => {
                assert(named_in(a) + named_in(b) =~= (named_in(a) + named_in(b.drop_last())).push(r));
            },
            None => {},
        }
    }
}

/// Ids that start with anything but `/` name no record.
proof fn lemma_named_none(ids: Seq<Seq<char>>)
    requires
        forall|k: int| 0 <= k < ids.len() ==> (#[trigger] ids[k]).len() > 0 && ids[k][0] != '/',
    ensures
        named_in(ids) == Seq::<usize>::empty(),
    decreases ids.len(),
{
    if ids.len() > 0 {
        lemma_named_none(ids.drop_last());
        assert(ids.last() == ids[ids.len() - 1]);
    }
}

/// The ids of open records name those records, in order.
proof fn lemma_named_records(m: Seq<(usize, usize)>)
    ensures
        named_in(m.map_values(|e: (usize, usize)| seq!['/'] + decimal(e.0 as nat)))
            == m.map_values(|e: (usize, usize)| e.0),
    decreases m.len(),
{
    let ids = m.map_values(|e: (usize, usize)| seq!['/'] + decimal(e.0 as nat));
    if m.len() > 0 {
        lemma_named_records(m.drop_last());
        assert(ids.drop_last() =~= m.drop_last().map_values(
            |e: (usize, usize)| seq!['/'] + decimal(e.0 as nat),
        ));
        let r = m.last().0;
        let id = seq!['/'] + decimal(r as nat);
        assert(ids.last() == id);
        lemma_decimal_round_trip(r);
        assert(id.subrange(1, id.len() as int) =~= decimal(r as nat));
        assert(m.map_values(|e: (usize, usize)| e.0) =~= m.drop_last().map_values(
            |e: (usize, usize)| e.0,
        ).push(r));
    } else {
        assert(ids =~= Seq::<Seq<char>>::empty());
        assert(m.map_values(|e: (usize, usize)| e.0) =~= Seq::<usize>::empty());
    }
}

/// Id `k` of the open groups is `g` and the first record of an open group.
proof fn lemma_open_group_id_at(items: Seq<Item>, k: int) -> (m: int)
    requires
        0 <= k < open_group_ids(items).len(),
    ensures
        0 <= m < items.len(),
        items[m].spec_is_group() && items[m].open,
        open_group_ids(items)[k] == seq!['g'] + decimal(items[m].first as nat),
    decreases items.len(),
{
    let init = items.drop_last();
    let rest = open_group_ids(init);
    if k < rest.len() {
        let m = lemma_open_group_id_at(init, k);
        assert(items[m] == init[m]);
        m
    } else {
        (items.len() - 1) as int
    }
}

/// Every open group has its id among the ids of the open groups.
proof fn lemma_open_group_has_id(items: Seq<Item>, m: int) -> (k: int)
    requires
        0 <= m < items.len(),
        items[m].spec_is_group() && items[m].open,
    ensures
        0 <= k < open_group_ids(items).len(),
        open_group_ids(items)[k] == seq!['g'] + decimal(items[m].first as nat),
    decreases items.len(),
{
    let init = items.drop_last();
    let rest = open_group_ids(init);
    if m < init.len() {
        assert(init[m] == items[m]);
        lemma_open_group_has_id(init, m)
    } else {
        rest.len() as int
    }
}

/// `id` is the id of an open group among `items`.
spec fn names_open_group(items: Seq<Item>, id: Seq<char>) -> bool {
    exists|m: int|
        0 <= m < items.len() && (#[trigger] items[m]).spec_is_group() && items[m].open
            && id == seq!['g'] + decimal(items[m].first as nat)
}

/// Each id of an open group names an open group.
proof fn lemma_open_group_ids_sound(items: Seq<Item>)
    ensures
        forall|k: int|
            0 <= k < open_group_ids(items).len() ==> names_open_group(items, #[trigger] open_group_ids(items)[k]),
{
    assert forall|k: int|
        0 <= k < open_group_ids(items).len() implies names_open_group(items, #[trigger] open_group_ids(items)[k]) by {
        let m = lemma_open_group_id_at(items, k);
        assert(0 <= m < items.len() && items[m].spec_is_group() && items[m].open
            && open_group_ids(items)[k] == seq!['g'] + decimal(items[m].first as nat));
    }
}

/// The ids of the open groups are `g` and the first record of each open group.
proof fn lemma_open_group_ids(items: Seq<Item>)
    ensures
        forall|k: int|
            0 <= k < open_group_ids(items).len() ==> names_open_group(items, #[trigger] open_group_ids(items)[k]),
        forall|m: int|
            0 <= m < items.len() && (#[trigger] items[m]).spec_is_group() && items[m].open
                ==> exists|k: int|
                #![trigger open_group_ids(items)[k]]
                0 <= k < open_group_ids(items).len() && open_group_ids(items)[k] == seq!['g']
                    + decimal(items[m].first as nat),
{
    lemma_open_group_ids_sound(items);
    assert forall|m: int|
        0 <= m < items.len() && (#[trigger] items[m]).spec_is_group() && items[m].open implies exists|k: int|
        #![trigger open_group_ids(items)[k]]
        0 <= k < open_group_ids(items).len() && open_group_ids(items)[k] == seq!['g'] + decimal(
            items[m].first as nat,
        ) by {
        let k = lemma_open_group_has_id(items, m);
        assert(open_group_ids(items)[k] == seq!['g'] + decimal(items[m].first as nat));
    }
}

/// The ids of open groups all start with `g`.
proof fn lemma_group_ids_start(items: Seq<Item>)
    ensures
        forall|k: int|
            0 <= k < open_group_ids(items).len() ==> (#[trigger] open_group_ids(items)[k]).len() > 0
                && open_group_ids(items)[k][0] == 'g',
{
    lemma_open_group_ids(items);
    assert forall|k: int| 0 <= k < open_group_ids(items).len() implies (#[trigger] open_group_ids(
        items,
    )[k]).len() > 0 && open_group_ids(items)[k][0] == 'g' by {
        let m = choose|m: int|
            0 <= m < items.len() && (#[trigger] items[m]).spec_is_group() && items[m].open
                && open_group_ids(items)[k] == seq!['g'] + decimal(items[m].first as nat);
    }
}

/// `zR`'s mark is in the saved state exactly when `zR` was in force.
#[verifier::spinoff_prover]
proof fn lemma_star_round_trip(expand_all: bool, groups: Seq<Seq<char>>, m: Seq<(usize, usize)>, folds: Seq<String>)
    requires
        forall|k: int| 0 <= k < groups.len() ==> (#[trigger] groups[k]).len() > 0 && groups[k][0] == 'g',
        views(folds) == spec_fold_ids(expand_all, groups, m),
    ensures
        (exists|k: int| 0 <= k < folds.len() && (#[trigger] folds[k])@ == "*"@) == expand_all,
{
    reveal_strlit("*");
    let ids = views(folds);
    let head: Seq<Seq<char>> = if expand_all {
        seq![seq!['*']]
    } else {
        Seq::empty()
    };
    let recs = m.map_values(|e: (usize, usize)| seq!['/'] + decimal(e.0 as nat));
    assert(ids =~= head + groups + recs);
    assert(folds.len() == ids.len());
    if expand_all {
        assert(folds[0]@ == ids[0]);
        assert(folds[0]@ == "*"@);
    } else {
        assert forall|k: int| 0 <= k < folds.len() implies (#[trigger] folds[k])@ != "*"@ by {
            assert(folds[k]@ == ids[k]);
            if k < groups.len() {
                assert(ids[k] == groups[k]);
            } else {
                assert(ids[k] == recs[k - groups.len()]);
            }
        }
    }
}

/// The records a saved state names are the records that were open.
#[verifier::spinoff_prover]
proof fn lemma_records_round_trip(expand_all: bool, groups: Seq<Seq<char>>, m: Seq<(usize, usize)>, folds: Seq<String>)
    requires
        forall|k: int| 0 <= k < groups.len() ==> (#[trigger] groups[k]).len() > 0 && groups[k][0] == 'g',
        views(folds) == spec_fold_ids(expand_all, groups, m),
    ensures
        named_records(folds) == m.map_values(|e: (usize, usize)| e.0),
{
    let head: Seq<Seq<char>> = if expand_all {
        seq![seq!['*']]
    } else {
        Seq::empty()
    };
    let recs = m.map_values(|e: (usize, usize)| seq!['/'] + decimal(e.0 as nat));
    assert(views(folds) =~= head + groups + recs);
    lemma_named_views(folds);
    lemma_named_concat(head + groups, recs);
    lemma_named_concat(head, groups);
    lemma_named_none(head);
    lemma_named_none(groups);
    lemma_named_records(m);
    assert(named_in(head) + named_in(groups) =~= Seq::<usize>::empty());
    assert(named_in(head + groups) + named_in(recs) =~= named_in(recs));
}

/// `g` and a record's number name that record.
proof fn lemma_names_g(id: Seq<char>, first: usize)
    requires
        id == seq!['g'] + decimal(first as nat),
    ensures
        names_group(id) == Some(first),
{
    lemma_decimal_round_trip(first);
    assert(id.subrange(1, id.len() as int) =~= decimal(first as nat));
}

/// Every open group's id names its first record, which the group holds.
#[verifier::spinoff_prover]
proof fn lemma_group_names(p: Plan)
    requires
        p.wf(),
    ensures
        forall|k: int|
            #![trigger open_group_ids(p.spec_items())[k]]
            0 <= k < open_group_ids(p.spec_items()).len() ==> exists|g: int|
                0 <= g < p.spec_items().len() && (#[trigger] p.spec_items()[g]).spec_is_group()
                    && p.spec_items()[g].open && names_group(open_group_ids(p.spec_items())[k])
                    == Some(p.spec_items()[g].first) && p.holds(g, p.spec_items()[g].first as int),
        forall|g: int|
            0 <= g < p.spec_items().len() && (#[trigger] p.spec_items()[g]).spec_is_group()
                && p.spec_items()[g].open ==> exists|k: int|
                #![trigger open_group_ids(p.spec_items())[k]]
                0 <= k < open_group_ids(p.spec_items()).len() && names_group(
                    open_group_ids(p.spec_items())[k],
                ) == Some(p.spec_items()[g].first),
{
    let items = p.spec_items();
    let groups = open_group_ids(items);
    lemma_open_group_ids(items);
    assert forall|k: int| #![trigger groups[k]] 0 <= k < groups.len() implies exists|g: int|
        0 <= g < items.len() && (#[trigger] items[g]).spec_is_group() && items[g].open
            && names_group(groups[k]) == Some(items[g].first) && p.holds(g, items[g].first as int) by {
        let g = choose|g: int|
            0 <= g < items.len() && (#[trigger] items[g]).spec_is_group() && items[g].open
                && groups[k] == seq!['g'] + decimal(items[g].first as nat);
        lemma_names_g(groups[k], items[g].first);
        p.lemma_item_fits(g);
    }
    assert forall|g: int|
        0 <= g < items.len() && (#[trigger] items[g]).spec_is_group() && items[g].open implies exists|k: int|
        #![trigger groups[k]]
        0 <= k < groups.len() && names_group(groups[k]) == Some(items[g].first) by {
        let k = choose|k: int|
            #![trigger groups[k]]
            0 <= k < groups.len() && groups[k] == seq!['g'] + decimal(items[g].first as nat);
        lemma_names_g(groups[k], items[g].first);
    }
}

/// The groups a saved state names are the groups that were open.
#[verifier::spinoff_prover]
proof fn lemma_groups_round_trip(p: Plan, expand_all: bool, m: Seq<(usize, usize)>, folds: Seq<String>)
    requires
        p.wf(),
        views(folds) == spec_fold_ids(expand_all, open_group_ids(p.spec_items()), m),
    ensures
        forall|i: int|
            0 <= i < p.spec_items().len() && (#[trigger] p.spec_items()[i]).spec_is_group() ==> (
            named(&p, folds, folds.len() as int, i) == p.spec_items()[i].open),
{
    let items = p.spec_items();
    let groups = open_group_ids(items);
    let head: Seq<Seq<char>> = if expand_all {
        seq![seq!['*']]
    } else {
        Seq::empty()
    };
    let recs = m.map_values(|e: (usize, usize)| seq!['/'] + decimal(e.0 as nat));
    let ids = views(folds);
    assert(ids =~= head + groups + recs);
    assert(folds.len() == ids.len());
    lemma_group_names(p);
    // What each id names, by where it stands.
    assert forall|j: int| 0 <= j < folds.len() implies (#[trigger] folds[j])@ == if j < head.len() {
        seq!['*']
    } else if j < head.len() + groups.len() {
        groups[j - head.len()]
    } else {
        recs[j - head.len() - groups.len()]
    } by {
        assert(folds[j]@ == ids[j]);
    }
    assert forall|i: int|
        0 <= i < items.len() && (#[trigger] items[i]).spec_is_group() implies named(
        &p,
        folds,
        folds.len() as int,
        i,
    ) == items[i].open by {
        if items[i].open {
            let k = choose|k: int|
                #![trigger groups[k]]
                0 <= k < groups.len() && names_group(groups[k]) == Some(items[i].first);
            let j = head.len() + k;
            assert(folds[j]@ == groups[k]);
            p.lemma_item_fits(i);
            assert(p.holds(i, items[i].first as int));
            assert(names_group(folds[j]@) is Some);
        } else {
            assert forall|j: int|
                0 <= j < folds.len() && #[trigger] names_group(folds[j]@) is Some implies !p.holds(
                i,
                names_group(folds[j]@)->0 as int,
            ) by {
                if j >= head.len() && j < head.len() + groups.len() {
                    let k = j - head.len();
                    assert(folds[j]@ == groups[k]);
                    let g = choose|g: int|
                        0 <= g < items.len() && (#[trigger] items[g]).spec_is_group() && items[g].open
                            && names_group(groups[k]) == Some(items[g].first) && p.holds(
                            g,
                            items[g].first as int,
                        );
                    if p.holds(i, items[g].first as int) {
                        p.lemma_one_item(items[g].first as int, g);
                    }
                } else if j >= head.len() {
                    assert(folds[j]@ == recs[j - head.len() - groups.len()]);
                }
            }
        }
    }
}

/// **A saved fold state reads back as what it saved.** The ids
/// [`RecordSource::fold_ids`] writes, read by [`RecordSource::restore_folds`]
/// over the same plan, put `zR` back as it was, open exactly the groups that
/// were open, and name exactly the records that were open, in order.
pub proof fn lemma_fold_state_round_trip(s: &RecordSource, folds: Seq<String>)
    requires
        s.map.wf(),
        s.plan matches Some(p) ==> p.wf(),
        views(folds) == spec_fold_ids(
            s.expand_all,
            match s.plan {
                Some(p) => open_group_ids(p.spec_items()),
                None => Seq::empty(),
            },
            s.map@,
        ),
    ensures
        (exists|k: int| 0 <= k < folds.len() && (#[trigger] folds[k])@ == "*"@) == s.expand_all,
        named_records(folds) == s.map@.map_values(|e: (usize, usize)| e.0),
        s.plan matches Some(p) ==> forall|i: int|
            0 <= i < p.spec_items().len() && (#[trigger] p.spec_items()[i]).spec_is_group() ==> (
            named(&p, folds, folds.len() as int, i) == p.spec_items()[i].open),
{
    let groups = match s.plan {
        Some(p) => open_group_ids(p.spec_items()),
        None => Seq::<Seq<char>>::empty(),
    };
    match s.plan {
        Some(p) => {
            lemma_group_ids_start(p.spec_items());
            lemma_groups_round_trip(p, s.expand_all, s.map@, folds);
        },
        None => {},
    }
    lemma_star_round_trip(s.expand_all, groups, s.map@, folds);
    lemma_records_round_trip(s.expand_all, groups, s.map@, folds);
}

} // verus!
