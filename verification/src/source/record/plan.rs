//! What a lens does to the shape of a record document: which records share a
//! row, and the row arithmetic that follows from it.
//!
//! Without a lens a record document is one row per record. With one, a run of
//! mechanical records (tool calls, their results, thoughts) collapses into a
//! single row that opens, so the document becomes a list of **items**: a
//! message is an item of one record, a run of steps is an item of many. An item
//! is what the rest of the program calls a block's owner; everything above
//! this module keeps speaking records, and this is the only place that
//! translates between the two.
//!
//! Classification runs over a prefix that grows as the viewport moves: records
//! past the classified prefix are one row each until they are reached.
//!
//! # The rows under a record
//!
//! A record shows, under its summary row, the text it said (`body`) and the
//! calls it made (`parts`); the caller measures both at the current width and
//! hands the heights in ([`Plan::set_under`]). A record can also be opened into
//! its generic tree, whose rows belong to the caller's [`RowMap`]. The rows of
//! an item are therefore its own rows (summary, what is under it, one per
//! member of an open run), plus the tree rows of its records, plus, for the
//! members of an open run, what each member shows under its own row. The last
//! of these is held in a second [`RowMap`] inside the plan, so both prefix
//! sums are the same structure.
use vstd::prelude::*;

use super::super::jsonrow::{
    decimal, lemma_decimal_round_trip, parse_decimal, parse_usize, push_decimal,
};
use super::rowmap::{
    lemma_extra_before_mono, lemma_extra_before_step, lemma_extra_before_zero, total, RowMap,
};

verus! {

/// What a lens made of one record.
#[derive(Clone, Copy, Debug, PartialEq, Eq, Structural)]
pub enum Class {
    /// Something someone said.
    Message,
    /// Mechanics: a tool call, its result, a thought.
    Step,
}

/// A lens's reading of one record: what it is, what it spent, and the text it
/// shows under its row.
#[derive(Clone, Debug)]
pub struct Summary {
    pub class: Class,
    /// Who the record is from, as its row names them.
    pub actor: String,
    /// The record's clock, when it has one.
    pub time: Option<String>,
    /// What the record's row says it did.
    pub what: String,
    /// Tool calls the record made.
    pub calls: usize,
    /// Tokens the record claims to have spent.
    pub tokens: u64,
    /// The text under the record's row, when it said something.
    pub body: Option<String>,
}

/// One item: a run of records that share a row.
#[derive(Clone, Copy, Debug, PartialEq, Eq, Structural)]
pub struct Item {
    /// First record of the run.
    pub first: usize,
    /// Records in the run. Only a run of steps is ever longer than one.
    pub count: usize,
    /// Mechanics rather than conversation.
    pub step: bool,
    /// Open, when this is a group. Meaningless on an item of one.
    pub open: bool,
}

impl Item {
    pub open spec fn spec_is_group(&self) -> bool {
        self.step && self.count > 1
    }

    /// A run of steps long enough to be worth folding: a single step is more
    /// useful shown than hidden behind a one-step group row.
    #[verifier::when_used_as_spec(spec_is_group)]
    pub fn is_group(&self) -> (b: bool)
        ensures
            b == self.spec_is_group(),
    {
        self.step && self.count > 1
    }
}

/// Rows a record shows under its own summary row, by kind.
#[derive(Clone, Copy, Debug, Default, PartialEq, Eq, Structural)]
pub struct Under {
    /// Rows of the text the record said.
    pub body: usize,
    /// Rows of the calls it made.
    pub parts: usize,
}

impl Under {
    pub open spec fn spec_rows(&self) -> nat {
        (self.body + self.parts) as nat
    }

    /// Rows in total.
    pub fn rows(&self) -> (n: usize)
        requires
            self.body + self.parts <= usize::MAX,
        ensures
            n == self.spec_rows(),
    {
        self.body + self.parts
    }
}

/// Where a screen row falls, in the vocabulary the source already speaks.
#[derive(Clone, Copy, Debug, PartialEq, Eq, Structural)]
pub enum Spot {
    /// A record's summary row (`sub == 0`), or row `sub - 1` of its tree.
    Record { record: usize, sub: usize },
    /// Row `line` of the text under a record's summary row.
    Body { record: usize, line: usize },
    /// Row `line` of the calls under a record's text.
    Part { record: usize, line: usize },
    /// A group's own row.
    Group { item: usize },
}

/// The records of a document, grouped into items, with the row arithmetic.
pub struct Plan {
    /// Name of the lens that reads the records.
    lens: &'static str,
    /// One entry per classified record, in order. `None` is a record the lens
    /// did not recognise: it keeps its own row.
    seen: Vec<Option<Summary>>,
    items: Vec<Item>,
    /// Rows each classified record shows under its own row.
    under: Vec<Under>,
    /// Records whose level disagrees with `all_full`.
    exc: Vec<bool>,
    /// The call showing its arguments and output, as `(record, part)`.
    open_parts: Vec<(usize, usize)>,
    /// Groups opened since the caller last asked, for it to measure.
    pending: Vec<usize>,
    /// What the members of open groups show under their own rows.
    extra: RowMap,
    /// Own rows of every item before this one, valid below `dirty`.
    starts: Vec<usize>,
    /// Blocks before this item, valid below `dirty`.
    bstarts: Vec<usize>,
    /// First index of `starts` that may be out of date.
    dirty: usize,
    /// Columns the text under rows is laid out for.
    width: usize,
    /// Every record at the open level, but for the exceptions.
    all_full: bool,
}

/// Records in the first `k` items.
pub open spec fn count_before(items: Seq<Item>, k: int) -> nat
    decreases k,
{
    if k <= 0 {
        0
    } else {
        count_before(items, k - 1) + items[k - 1].count as nat
    }
}

/// Own rows of one item: its summary row, what its record shows under it, and
/// one per member when it is an open group.
pub open spec fn own_of(it: Item, u: Under) -> nat {
    if it.spec_is_group() {
        if it.open {
            (1 + it.count) as nat
        } else {
            1
        }
    } else {
        (1 + u.body + u.parts) as nat
    }
}

/// Own rows of the first `k` items.
pub open spec fn own_before(items: Seq<Item>, under: Seq<Under>, k: int) -> nat
    decreases k,
{
    if k <= 0 {
        0
    } else {
        own_before(items, under, k - 1) + own_of(items[k - 1], under[items[k - 1].first as int])
    }
}

/// Own rows of one item were it open.
pub open spec fn own_open_of(it: Item, u: Under) -> nat {
    if it.spec_is_group() {
        (1 + it.count) as nat
    } else {
        (1 + u.body + u.parts) as nat
    }
}

/// Own rows of the first `k` items were every group open.
pub open spec fn own_open_before(items: Seq<Item>, under: Seq<Under>, k: int) -> nat
    decreases k,
{
    if k <= 0 {
        0
    } else {
        own_open_before(items, under, k - 1) + own_open_of(items[k - 1], under[items[k - 1].first as int])
    }
}

/// Blocks one item splits into: an open group is its own row and then one
/// block per member; anything else is one block.
pub open spec fn blocks_of(it: Item) -> nat {
    if it.spec_is_group() && it.open {
        (1 + it.count) as nat
    } else {
        1
    }
}

/// Blocks of the first `k` items.
pub open spec fn blocks_before(items: Seq<Item>, k: int) -> nat
    decreases k,
{
    if k <= 0 {
        0
    } else {
        blocks_before(items, k - 1) + blocks_of(items[k - 1])
    }
}

/// Is the summary a step?
pub open spec fn is_step(s: Option<Summary>) -> bool {
    s matches Some(x) && x.class == Class::Step
}

/// The summary as kept: mechanics stay one line, whatever text they had.
pub open spec fn kept(s: Option<Summary>) -> Option<Summary> {
    match s {
        Some(x) => if x.class == Class::Step {
            Some(Summary { body: None, ..x })
        } else {
            Some(x)
        },
        None => None,
    }
}

proof fn lemma_count_before_mono(items: Seq<Item>, i: int, j: int)
    requires
        0 <= i <= j <= items.len(),
        forall|k: int| 0 <= k < items.len() ==> #[trigger] items[k].count >= 1,
    ensures
        count_before(items, i) + (j - i) <= count_before(items, j),
    decreases j - i,
{
    if i < j {
        lemma_count_before_mono(items, i, j - 1);
    }
}

/// Sums over a prefix of items depend on that prefix only.
proof fn lemma_before_frame(a: Seq<Item>, ua: Seq<Under>, b: Seq<Item>, ub: Seq<Under>, k: int)
    requires
        0 <= k <= a.len(),
        k <= b.len(),
        forall|j: int| 0 <= j < k ==> #[trigger] a[j] == b[j],
        forall|j: int| 0 <= j < k ==> ua[#[trigger] a[j].first as int] == ub[a[j].first as int],
    ensures
        count_before(a, k) == count_before(b, k),
        own_before(a, ua, k) == own_before(b, ub, k),
        own_open_before(a, ua, k) == own_open_before(b, ub, k),
        blocks_before(a, k) == blocks_before(b, k),
    decreases k,
{
    if k > 0 {
        lemma_before_frame(a, ua, b, ub, k - 1);
        assert(a[k - 1] == b[k - 1]);
    }
}

/// Blocks never outnumber own rows, and own rows never pass the all-open total.
proof fn lemma_own_bounds(items: Seq<Item>, under: Seq<Under>, j: int)
    requires
        0 <= j <= items.len(),
    ensures
        blocks_before(items, j) <= own_before(items, under, j),
        own_before(items, under, j) <= own_open_before(items, under, j),
    decreases j,
{
    if j > 0 {
        lemma_own_bounds(items, under, j - 1);
    }
}

/// Own rows and blocks only grow along the items.
proof fn lemma_own_mono(items: Seq<Item>, under: Seq<Under>, i: int, j: int)
    requires
        0 <= i <= j <= items.len(),
    ensures
        own_before(items, under, i) + (j - i) <= own_before(items, under, j),
        blocks_before(items, i) + (j - i) <= blocks_before(items, j),
        own_open_before(items, under, i) <= own_open_before(items, under, j),
        blocks_before(items, j) <= own_before(items, under, j),
        own_before(items, under, j) <= own_open_before(items, under, j),
    decreases j - i,
{
    lemma_own_bounds(items, under, j);
    if i < j {
        lemma_own_mono(items, under, i, j - 1);
    }
}

/// The items cover records `0..n` in order, each run has a record, and only
/// steps run longer than one record.
#[verifier::opaque]
spec fn partitioned(items: Seq<Item>, n: nat) -> bool {
    &&& count_before(items, items.len() as int) == n
    &&& forall|i: int|
        #![trigger items[i]]
        0 <= i < items.len() ==> items[i].first == count_before(items, i) && items[i].count >= 1
            && (!items[i].step ==> items[i].count == 1)
}

/// The running totals below `dirty` are right.
#[verifier::opaque]
spec fn totals_ok(
    starts: Seq<usize>,
    bstarts: Seq<usize>,
    dirty: int,
    items: Seq<Item>,
    under: Seq<Under>,
) -> bool {
    forall|i: int|
        #![trigger starts[i]]
        0 <= i < dirty ==> starts[i] == own_before(items, under, i) && bstarts[i] == blocks_before(
            items,
            i,
        )
}

/// Every record's under-rows can be added up in a `usize`.
#[verifier::opaque]
spec fn unders_fit(under: Seq<Under>) -> bool {
    forall|r: int| 0 <= r < under.len() ==> (#[trigger] under[r]).body + under[r].parts <= usize::MAX
}

/// Record `r` is a member of an open group of `items`.
pub open spec fn member_of(items: Seq<Item>, r: int) -> bool {
    exists|i: int|
        0 <= i < items.len() && (#[trigger] items[i]).spec_is_group() && items[i].open
            && items[i].first <= r < items[i].first + items[i].count
}

/// Only members of open groups have rows in `extra`.
#[verifier::opaque]
spec fn members_only(extra: RowMap, items: Seq<Item>) -> bool {
    forall|r: int| #[trigger] extra.spec_extra_of(r) > 0 ==> member_of(items, r)
}

/// Every record a closed group of `items` hides owns no rows of `map`.
pub open spec fn hides(items: Seq<Item>, map: &RowMap) -> bool {
    forall|i: int, r: int|
        #![trigger items[i], map.spec_extra_of(r)]
        0 <= i < items.len() && items[i].spec_is_group() && !items[i].open && items[i].first <= r
            < items[i].first + items[i].count ==> map.spec_extra_of(r) == 0
}

proof fn lemma_partition_facts(items: Seq<Item>, n: nat)
    requires
        partitioned(items, n),
    ensures
        forall|i: int|
            #![trigger items[i]]
            0 <= i < items.len() ==> items[i].first == count_before(items, i) && items[i].first
                + items[i].count == count_before(items, i + 1) && count_before(items, i + 1) <= n
                && items[i].count >= 1 && (!items[i].step ==> items[i].count == 1),
        count_before(items, items.len() as int) == n,
{
    reveal(partitioned);
    assert forall|i: int| #![trigger items[i]] 0 <= i < items.len() implies count_before(
        items,
        i + 1,
    ) <= n by {
        lemma_count_before_mono(items, i + 1, items.len() as int);
    }
}

/// Every item's records are among the first `n`, and every item has one.
proof fn lemma_items_fit(items: Seq<Item>, n: nat)
    requires
        partitioned(items, n),
    ensures
        forall|k: int|
            #![trigger items[k]]
            0 <= k < items.len() ==> items[k].first + items[k].count <= n && items[k].count >= 1,
{
    lemma_partition_facts(items, n);
}

/// A new item of one record after the last.
proof fn lemma_partition_push(items: Seq<Item>, n: nat, step: bool)
    requires
        partitioned(items, n),
        n < usize::MAX,
        !(items.len() > 0 && items.last().step && step),
    ensures
        partitioned(items.push(Item { first: n as usize, count: 1, step, open: false }), n + 1),
{
    reveal(partitioned);
    let b = items.push(Item { first: n as usize, count: 1, step, open: false });
    lemma_before_frame(items, Seq::empty(), b, Seq::empty(), items.len() as int);
    assert forall|i: int| #![trigger b[i]] 0 <= i < b.len() implies b[i].first == count_before(
        b,
        i,
    ) && b[i].count >= 1 && (!b[i].step ==> b[i].count == 1) by {
        if i < items.len() {
            assert(items[i] == b[i]);
            lemma_before_frame(items, Seq::empty(), b, Seq::empty(), i);
        }
    }
}

/// The last item, a run of steps, one record longer.
proof fn lemma_partition_grow(items: Seq<Item>, n: nat)
    requires
        partitioned(items, n),
        items.len() > 0,
        items.last().step,
        n < usize::MAX,
    ensures
        items.last().count + 1 <= usize::MAX,
        partitioned(
            items.update(
                items.len() - 1,
                Item {
                    first: items.last().first,
                    count: (items.last().count + 1) as usize,
                    step: items.last().step,
                    open: items.last().open,
                },
            ),
            n + 1,
        ),
{
    lemma_partition_facts(items, n);
    reveal(partitioned);
    let k = items.len() - 1;
    let b = items.update(
        k,
        Item {
            first: items.last().first,
            count: (items.last().count + 1) as usize,
            step: items.last().step,
            open: items.last().open,
        },
    );
    assert(items[k].first + items[k].count == n);
    assert forall|j: int| 0 <= j < k implies #[trigger] items[j] == b[j] by {}
    lemma_before_frame(items, Seq::empty(), b, Seq::empty(), k);
    assert forall|i: int| #![trigger b[i]] 0 <= i < b.len() implies b[i].first == count_before(
        b,
        i,
    ) && b[i].count >= 1 && (!b[i].step ==> b[i].count == 1) by {
        if i < k {
            assert(items[i] == b[i]);
            lemma_before_frame(items, Seq::empty(), b, Seq::empty(), i);
        }
    }
}

proof fn lemma_totals_at(starts: Seq<usize>, bstarts: Seq<usize>, dirty: int, a: Seq<Item>, ua: Seq<Under>, i: int)
    requires
        totals_ok(starts, bstarts, dirty, a, ua),
        0 <= i < dirty,
    ensures
        starts[i] == own_before(a, ua, i),
        bstarts[i] == blocks_before(a, i),
{
    reveal(totals_ok);
    assert(starts[i] == own_before(a, ua, i));
}

/// Records in the first `k` items depend on the items' counts only.
proof fn lemma_count_frame(a: Seq<Item>, b: Seq<Item>, k: int)
    requires
        0 <= k <= a.len(),
        k <= b.len(),
        forall|j: int| 0 <= j < k ==> (#[trigger] a[j]).count == b[j].count,
    ensures
        count_before(a, k) == count_before(b, k),
    decreases k,
{
    if k > 0 {
        lemma_count_frame(a, b, k - 1);
    }
}

/// The partition is a matter of where items start, how long they run and
/// whether they are steps: folding one changes none of that.
proof fn lemma_partition_shape(a: Seq<Item>, b: Seq<Item>, n: nat)
    requires
        partitioned(a, n),
        a.len() == b.len(),
        forall|i: int|
            0 <= i < a.len() ==> (#[trigger] b[i]).first == a[i].first && b[i].count == a[i].count
                && b[i].step == a[i].step,
    ensures
        partitioned(b, n),
{
    reveal(partitioned);
    lemma_count_frame(a, b, a.len() as int);
    assert forall|i: int| #![trigger b[i]] 0 <= i < b.len() implies b[i].first == count_before(
        b,
        i,
    ) && b[i].count >= 1 && (!b[i].step ==> b[i].count == 1) by {
        assert(a[i].first == count_before(a, i));
        lemma_count_frame(a, b, i);
    }
}

/// The all-open total does not depend on which groups are open.
proof fn lemma_open_frame(a: Seq<Item>, b: Seq<Item>, u: Seq<Under>, k: int)
    requires
        0 <= k <= a.len(),
        k <= b.len(),
        forall|j: int|
            0 <= j < k ==> (#[trigger] b[j]).first == a[j].first && b[j].count == a[j].count
                && b[j].step == a[j].step,
    ensures
        own_open_before(a, u, k) == own_open_before(b, u, k),
    decreases k,
{
    if k > 0 {
        lemma_open_frame(a, b, u, k - 1);
        assert(b[k - 1].first == a[k - 1].first);
    }
}

/// The groups a walk over the first `i` items opens: those that were shut.
pub open spec fn opened(a: Seq<Item>, i: int) -> Seq<usize>
    decreases i,
{
    if i <= 0 {
        Seq::empty()
    } else {
        opened(a, i - 1) + if a[i - 1].spec_is_group() && !a[i - 1].open {
            seq![(i - 1) as usize]
        } else {
            Seq::empty()
        }
    }
}

/// Running totals survive any change at or after the new, lower `d2`.
proof fn lemma_totals_frame(
    starts: Seq<usize>,
    bstarts: Seq<usize>,
    d: int,
    d2: int,
    a: Seq<Item>,
    ua: Seq<Under>,
    b: Seq<Item>,
    ub: Seq<Under>,
)
    requires
        totals_ok(starts, bstarts, d, a, ua),
        0 <= d2 <= d <= a.len(),
        d2 <= b.len(),
        forall|j: int| 0 <= j < d2 ==> #[trigger] a[j] == b[j],
        forall|j: int| 0 <= j < d2 ==> ua[#[trigger] a[j].first as int] == ub[a[j].first as int],
    ensures
        totals_ok(starts, bstarts, d2, b, ub),
{
    assert forall|i: int| #![trigger starts[i]] 0 <= i < d2 implies starts[i] == own_before(
        b,
        ub,
        i,
    ) && bstarts[i] == blocks_before(b, i) by {
        lemma_totals_at(starts, bstarts, d, a, ua, i);
        assert forall|j: int| 0 <= j < i implies #[trigger] a[j] == b[j] by {}
        assert forall|j: int| 0 <= j < i implies ua[#[trigger] a[j].first as int] == ub[a[j].first as int] by {}
        lemma_before_frame(a, ua, b, ub, i);
    }
    reveal(totals_ok);
}

/// An empty under keeps every record's under-rows addable.
proof fn lemma_unders_push(under: Seq<Under>)
    requires
        unders_fit(under),
    ensures
        unders_fit(under.push(Under { body: 0, parts: 0 })),
{
    reveal(unders_fit);
    let b = under.push(Under { body: 0, parts: 0 });
    assert forall|r: int| 0 <= r < b.len() implies (#[trigger] b[r]).body + b[r].parts
        <= usize::MAX by {
        if r < under.len() {
            assert(b[r] == under[r]);
        }
    }
}

/// A fitting under in place of another keeps every record's under-rows addable.
proof fn lemma_unders_update(under: Seq<Under>, r: int, u: Under)
    requires
        unders_fit(under),
        0 <= r < under.len(),
        u.body + u.parts <= usize::MAX,
    ensures
        unders_fit(under.update(r, u)),
        under[r].body + under[r].parts <= usize::MAX,
{
    reveal(unders_fit);
}

/// Members stay members when their groups keep their records and their state.
proof fn lemma_members_keep(extra: RowMap, a: Seq<Item>, b: Seq<Item>)
    requires
        members_only(extra, a),
        a.len() <= b.len(),
        forall|i: int|
            0 <= i < a.len() ==> (#[trigger] b[i]).first == a[i].first && b[i].count >= a[i].count
                && b[i].step == a[i].step && (a[i].open ==> b[i].open),
    ensures
        members_only(extra, b),
{
    reveal(members_only);
    assert forall|r: int| #[trigger] extra.spec_extra_of(r) > 0 implies member_of(b, r) by {
        let i = choose|i: int|
            0 <= i < a.len() && (#[trigger] a[i]).spec_is_group() && a[i].open && a[i].first <= r
                < a[i].first + a[i].count;
        assert(b[i].spec_is_group() && b[i].open && b[i].first <= r < b[i].first + b[i].count);
    }
}

/// One step of the running totals, and the bounds it stays within.
proof fn lemma_own_step(items: Seq<Item>, under: Seq<Under>, i: int, n: int)
    requires
        0 <= i < n <= items.len(),
    ensures
        own_before(items, under, i + 1) == own_before(items, under, i) + own_of(
            items[i],
            under[items[i].first as int],
        ),
        blocks_before(items, i + 1) == blocks_before(items, i) + blocks_of(items[i]),
        own_before(items, under, i + 1) <= own_before(items, under, n),
        blocks_before(items, i + 1) <= own_before(items, under, i + 1),
{
    lemma_own_mono(items, under, i + 1, n);
    lemma_own_bounds(items, under, i + 1);
}

/// Totals that are right everywhere below `n` are right.
proof fn lemma_totals_full(starts: Seq<usize>, bstarts: Seq<usize>, n: int, items: Seq<Item>, under: Seq<Under>)
    requires
        forall|j: int|
            #![trigger starts[j]]
            0 <= j < n ==> starts[j] == own_before(items, under, j) && bstarts[j] == blocks_before(
                items,
                j,
            ),
    ensures
        totals_ok(starts, bstarts, n, items, under),
{
    reveal(totals_ok);
}

/// Extend the running totals from where they stop to every item.
#[verifier::spinoff_prover]
fn fill_totals(
    items: &Vec<Item>,
    under: &Vec<Under>,
    starts: &mut Vec<usize>,
    bstarts: &mut Vec<usize>,
    run: usize,
    brun: usize,
)
    requires
        old(starts)@.len() == old(bstarts)@.len(),
        old(starts)@.len() <= items@.len(),
        forall|k: int|
            #![trigger items@[k]]
            0 <= k < items@.len() ==> items@[k].first + items@[k].count <= under@.len()
                && items@[k].count >= 1,
        own_before(items@, under@, items@.len() as int) <= usize::MAX,
        run == own_before(items@, under@, old(starts)@.len() as int),
        brun == blocks_before(items@, old(starts)@.len() as int),
        forall|j: int|
            #![trigger old(starts)@[j]]
            0 <= j < old(starts)@.len() ==> old(starts)@[j] == own_before(items@, under@, j)
                && old(bstarts)@[j] == blocks_before(items@, j),
    ensures
        final(starts)@.len() == items@.len(),
        final(bstarts)@.len() == items@.len(),
        forall|j: int|
            #![trigger final(starts)@[j]]
            0 <= j < items@.len() ==> final(starts)@[j] == own_before(items@, under@, j)
                && final(bstarts)@[j] == blocks_before(items@, j),
{
    let n = items.len();
    let mut i = starts.len();
    let mut run = run;
    let mut brun = brun;
    while i < n
        invariant
            i <= n,
            n == items@.len(),
            starts@.len() == i,
            bstarts@.len() == i,
            forall|k: int|
                #![trigger items@[k]]
                0 <= k < items@.len() ==> items@[k].first + items@[k].count <= under@.len()
                    && items@[k].count >= 1,
            own_before(items@, under@, n as int) <= usize::MAX,
            run == own_before(items@, under@, i as int),
            brun == blocks_before(items@, i as int),
            forall|j: int|
                #![trigger starts@[j]]
                0 <= j < i ==> starts@[j] == own_before(items@, under@, j) && bstarts@[j]
                    == blocks_before(items@, j),
        decreases n - i,
    {
        starts.push(run);
        bstarts.push(brun);
        let it = items[i];
        proof {
            lemma_own_step(items@, under@, i as int, n as int);
        }
        let own: usize = if it.is_group() {
            if it.open {
                1 + it.count
            } else {
                1
            }
        } else {
            let u = under[it.first];
            1 + u.body + u.parts
        };
        let blocks: usize = if it.is_group() && it.open {
            1 + it.count
        } else {
            1
        };
        run = run + own;
        brun = brun + blocks;
        i = i + 1;
    }
}

impl Plan {
    pub closed spec fn spec_items(&self) -> Seq<Item> {
        self.items@
    }

    pub closed spec fn spec_under(&self) -> Seq<Under> {
        self.under@
    }

    pub closed spec fn spec_seen(&self) -> Seq<Option<Summary>> {
        self.seen@
    }

    pub closed spec fn spec_classified(&self) -> nat {
        self.seen@.len()
    }

    pub closed spec fn spec_exc(&self) -> Seq<bool> {
        self.exc@
    }

    pub closed spec fn spec_all_full(&self) -> bool {
        self.all_full
    }

    pub closed spec fn spec_open_parts(&self) -> Seq<(usize, usize)> {
        self.open_parts@
    }

    pub closed spec fn spec_pending(&self) -> Seq<usize> {
        self.pending@
    }

    pub closed spec fn spec_width(&self) -> usize {
        self.width
    }

    pub closed spec fn spec_lens(&self) -> &'static str {
        self.lens
    }

    /// What the members of open groups show under their own rows.
    pub closed spec fn spec_extra(&self) -> RowMap {
        self.extra
    }

    /// The running totals are up to date: every row question may be asked.
    pub closed spec fn synced(&self) -> bool {
        self.dirty == self.items@.len() && self.starts@.len() == self.items@.len()
    }

    /// The same document, folds and levels: everything but the running totals.
    pub open spec fn same_model(&self, o: &Plan) -> bool {
        &&& self.spec_items() == o.spec_items()
        &&& self.spec_under() == o.spec_under()
        &&& self.spec_seen() == o.spec_seen()
        &&& self.spec_exc() == o.spec_exc()
        &&& self.spec_all_full() == o.spec_all_full()
        &&& self.spec_open_parts() == o.spec_open_parts()
        &&& self.spec_pending() == o.spec_pending()
        &&& self.spec_width() == o.spec_width()
        &&& self.spec_lens() == o.spec_lens()
        &&& self.spec_extra()@ == o.spec_extra()@
    }

    /// First record of item `i`; for `i` one past the last item, the number of
    /// classified records.
    pub open spec fn first_of(&self, i: int) -> int {
        count_before(self.spec_items(), i) as int
    }

    /// Own rows of item `i`.
    pub open spec fn own_at(&self, i: int) -> nat {
        own_of(self.spec_items()[i], self.spec_under()[self.spec_items()[i].first as int])
    }

    /// Own rows of the first `k` items.
    pub open spec fn own_upto(&self, k: int) -> nat {
        own_before(self.spec_items(), self.spec_under(), k)
    }

    /// Own rows of every item were every group open.
    pub open spec fn own_all_open(&self) -> nat {
        own_open_before(self.spec_items(), self.spec_under(), self.spec_items().len() as int)
    }

    /// Blocks of the first `k` items.
    pub open spec fn blocks_upto(&self, k: int) -> nat {
        blocks_before(self.spec_items(), k)
    }

    /// Record `r` is a member of a group that is open.
    pub open spec fn is_member(&self, r: int) -> bool {
        member_of(self.spec_items(), r)
    }

    /// A record hidden by a closed group owns no tree rows in `map`.
    pub open spec fn hides_nothing(&self, map: &RowMap) -> bool {
        hides(self.spec_items(), map)
    }

    /// The plan is internally consistent.
    pub closed spec fn wf(&self) -> bool {
        &&& self.seen@.len() <= usize::MAX
        &&& self.under@.len() == self.seen@.len()
        &&& unders_fit(self.under@)
        &&& self.exc@.len() == self.seen@.len()
        &&& partitioned(self.items@, self.seen@.len())
        &&& self.extra.wf()
        &&& members_only(self.extra, self.items@)
        &&& self.open_parts@.len() <= 1
        &&& self.dirty <= self.starts@.len() <= self.items@.len()
        &&& self.bstarts@.len() == self.starts@.len()
        &&& totals_ok(self.starts@, self.bstarts@, self.dirty as int, self.items@, self.under@)
        &&& self.width >= 1
    }

    /// **The items partition the classified records**: the first item starts
    /// at record 0, each item starts where the one before it ends, the last
    /// ends at the classified count, every item holds at least one record,
    /// and only a run of steps holds more than one. The classified records
    /// are the summaries the lens gave.
    pub proof fn lemma_items_partition(&self)
        requires
            self.wf(),
        ensures
            self.spec_classified() == self.spec_seen().len(),
            self.spec_items().len() == 0 <==> self.spec_classified() == 0,
            self.spec_items().len() > 0 ==> self.spec_items()[0].first == 0,
            self.spec_items().len() > 0 ==> self.spec_items().last().first + self.spec_items().last().count
                == self.spec_classified(),
            forall|k: int|
                0 <= k < self.spec_items().len() - 1 ==> #[trigger] self.spec_items()[k + 1].first
                    == self.spec_items()[k].first + self.spec_items()[k].count,
            forall|k: int|
                0 <= k < self.spec_items().len() ==> (#[trigger] self.spec_items()[k]).count >= 1 && (
                self.spec_items()[k].count > 1 ==> self.spec_items()[k].step),
    {
        self.lemma_items();
        let items = self.spec_items();
        let n = items.len() as int;
        if n > 0 {
            assert(items[0].first == self.first_of(0));
            assert(items[n - 1].first + items[n - 1].count == self.first_of(n));
        } else {
            assert(self.first_of(0) == 0);
        }
        assert forall|k: int| 0 <= k < n - 1 implies #[trigger] items[k + 1].first == items[k].first
            + items[k].count by {
            assert(items[k].first == self.first_of(k));
            assert(items[k + 1].first == self.first_of(k + 1));
        }
    }

    /// Facts about the item list that hold whenever the plan is consistent.
    proof fn lemma_items(&self)
        requires
            self.wf(),
        ensures
            forall|i: int|
                #![trigger self.spec_items()[i]]
                0 <= i < self.spec_items().len() ==> self.spec_items()[i].first == self.first_of(i)
                    && self.first_of(i) + self.spec_items()[i].count == self.first_of(i + 1)
                    && self.first_of(i + 1) <= self.spec_classified() && self.spec_items()[i].count
                    >= 1 && (!self.spec_items()[i].step ==> self.spec_items()[i].count == 1),
            self.first_of(self.spec_items().len() as int) == self.spec_classified(),
    {
        lemma_partition_facts(self.items@, self.seen@.len());
    }

    /// Items start at strictly increasing records.
    proof fn lemma_first_mono(&self, i: int, j: int)
        requires
            self.wf(),
            0 <= i <= j <= self.spec_items().len(),
        ensures
            self.first_of(i) + (j - i) <= self.first_of(j),
    {
        lemma_partition_facts(self.items@, self.seen@.len());
        lemma_count_before_mono(self.items@, i, j);
    }

    /// Record `r` has rows in `extra` only as a member of an open group.
    proof fn lemma_members(&self, r: int)
        requires
            self.wf(),
            self.spec_extra().spec_extra_of(r) > 0,
        ensures
            self.is_member(r),
    {
        reveal(members_only);
    }

    /// The running totals below `dirty` are right.
    proof fn lemma_totals(&self, i: int)
        requires
            self.wf(),
            0 <= i < self.dirty,
        ensures
            self.starts@[i] == self.own_upto(i),
            self.bstarts@[i] == self.blocks_upto(i),
    {
        reveal(totals_ok);
        assert(self.starts@[i] == own_before(self.items@, self.under@, i));
    }
}

/// The row arithmetic, stated over the two prefix sums.
impl Plan {
    /// The row item `i`'s summary sits on; for `i` one past the last item, the
    /// first row after the classified prefix.
    pub open spec fn row_start(&self, map: &RowMap, i: int) -> nat {
        self.own_upto(i) + map.spec_extra_before(self.first_of(i)) + self.spec_extra().spec_extra_before(
            self.first_of(i),
        )
    }

    /// Rows the classified prefix occupies, tree rows included.
    pub open spec fn spec_prefix(&self, map: &RowMap) -> nat {
        self.row_start(map, self.spec_items().len() as int)
    }

    /// Rows in the document: the classified prefix, and one per record the
    /// lens has not reached yet.
    pub open spec fn spec_rows(&self, known: int, map: &RowMap) -> nat {
        self.spec_prefix(map) + if known > self.spec_classified() {
            (known - self.spec_classified()) as nat
        } else {
            0nat
        }
    }

    /// Rows, after an open group's own row, that its first `k` members take.
    pub open spec fn member_start(&self, map: &RowMap, i: int, k: int) -> int {
        let f = self.first_of(i);
        k + (map.spec_extra_before(f + k) - map.spec_extra_before(f)) + (
        self.spec_extra().spec_extra_before(f + k) - self.spec_extra().spec_extra_before(f))
    }

    /// The classified prefix's rows can be counted in a `usize`.
    pub open spec fn fits(&self, map: &RowMap) -> bool {
        self.spec_prefix(map) <= usize::MAX
    }

    /// Every row the plan could come to have, with every group open, can be
    /// counted in a `usize`.
    pub open spec fn bounded(&self, map: &RowMap) -> bool {
        self.own_all_open() + total(map@) + total(self.spec_extra()@) <= usize::MAX
    }

    /// One item further along: its own rows, and the tree and member rows of
    /// its records.
    proof fn lemma_row_start_step(&self, map: &RowMap, i: int)
        requires
            self.wf(),
            0 <= i < self.spec_items().len(),
        ensures
            self.first_of(i + 1) == self.first_of(i) + self.spec_items()[i].count,
            map.spec_extra_before(self.first_of(i)) <= map.spec_extra_before(self.first_of(i + 1)),
            self.spec_extra().spec_extra_before(self.first_of(i))
                <= self.spec_extra().spec_extra_before(self.first_of(i + 1)),
            self.row_start(map, i + 1) == self.row_start(map, i) + self.own_at(i) + (
            map.spec_extra_before(self.first_of(i + 1)) - map.spec_extra_before(self.first_of(i)))
                + (self.spec_extra().spec_extra_before(self.first_of(i + 1))
                - self.spec_extra().spec_extra_before(self.first_of(i))),
            self.own_at(i) >= 1,
    {
        self.lemma_items();
        let f0 = self.first_of(i);
        let f1 = self.first_of(i + 1);
        lemma_extra_before_mono(map, f0, f1);
        lemma_extra_before_mono(&self.extra, f0, f1);
        assert(self.spec_items()[i].first == f0);
    }

    /// Rows of items only grow, by at least one per item.
    proof fn lemma_row_start_mono(&self, map: &RowMap, i: int, j: int)
        requires
            self.wf(),
            0 <= i <= j <= self.spec_items().len(),
        ensures
            self.row_start(map, i) + (j - i) <= self.row_start(map, j),
        decreases j - i,
    {
        if i < j {
            self.lemma_row_start_mono(map, i, j - 1);
            self.lemma_row_start_step(map, j - 1);
        }
    }

    /// The prefix bounds every item's row, and is itself bounded by the
    /// all-open totals.
    proof fn lemma_prefix_bounds(&self, map: &RowMap)
        requires
            self.wf(),
        ensures
            forall|i: int|
                0 <= i <= self.spec_items().len() ==> #[trigger] self.row_start(map, i)
                    <= self.spec_prefix(map),
            self.own_upto(self.spec_items().len() as int) <= self.spec_prefix(map),
            self.blocks_upto(self.spec_items().len() as int) <= self.own_upto(
                self.spec_items().len() as int,
            ),
            self.spec_prefix(map) <= self.own_all_open() + total(map@) + total(self.spec_extra()@),
    {
        let n = self.spec_items().len() as int;
        assert forall|i: int| 0 <= i <= n implies #[trigger] self.row_start(map, i)
            <= self.spec_prefix(map) by {
            self.lemma_row_start_mono(map, i, n);
        }
        lemma_own_mono(self.spec_items(), self.spec_under(), n, n);
        lemma_extra_before_mono(map, self.first_of(n), self.first_of(n));
        lemma_extra_before_mono(&self.extra, self.first_of(n), self.first_of(n));
    }

    /// One member further along inside an open group.
    proof fn lemma_member_step(&self, map: &RowMap, i: int, k: int)
        ensures
            self.member_start(map, i, k + 1) == self.member_start(map, i, k) + 1
                + map.spec_extra_of(self.first_of(i) + k) + self.spec_extra().spec_extra_of(
                self.first_of(i) + k,
            ),
    {
        lemma_extra_before_step(map, self.first_of(i) + k);
        lemma_extra_before_step(&self.extra, self.first_of(i) + k);
    }

    /// Members only move down, by at least one row each.
    proof fn lemma_member_mono(&self, map: &RowMap, i: int, k1: int, k2: int)
        requires
            k1 <= k2,
        ensures
            self.member_start(map, i, k1) + (k2 - k1) <= self.member_start(map, i, k2),
        decreases k2 - k1,
    {
        if k1 < k2 {
            self.lemma_member_mono(map, i, k1, k2 - 1);
            self.lemma_member_step(map, i, k2 - 1);
        }
    }

    /// An open group's rows are its own row and then its members'.
    proof fn lemma_open_group_rows(&self, map: &RowMap, i: int)
        requires
            self.wf(),
            0 <= i < self.spec_items().len(),
            self.spec_items()[i].spec_is_group(),
            self.spec_items()[i].open,
        ensures
            self.row_start(map, i + 1) == self.row_start(map, i) + 1 + self.member_start(
                map,
                i,
                self.spec_items()[i].count as int,
            ),
            self.member_start(map, i, 0) == 0,
    {
        self.lemma_row_start_step(map, i);
    }
}


/// Building the plan, one record at a time.
impl Plan {
    /// An empty plan for the lens named `lens`, laid out 80 columns wide.
    pub fn new(lens: &'static str) -> (p: Plan)
        ensures
            p.wf(),
            p.synced(),
            p.spec_lens() == lens,
            p.spec_items().len() == 0,
            p.spec_classified() == 0,
            p.spec_width() == 80,
            !p.spec_all_full(),
            p.spec_open_parts().len() == 0,
            p.spec_pending().len() == 0,
            p.spec_extra()@.len() == 0,
    {
        let p = Plan {
            lens,
            seen: Vec::new(),
            items: Vec::new(),
            under: Vec::new(),
            exc: Vec::new(),
            open_parts: Vec::new(),
            pending: Vec::new(),
            extra: RowMap::new(),
            starts: Vec::new(),
            bstarts: Vec::new(),
            dirty: 0,
            width: 80,
            all_full: false,
        };
        proof {
            reveal(partitioned);
            reveal(members_only);
            reveal(totals_ok);
            reveal(unders_fit);
            assert(count_before(p.items@, 0) == 0);
        }
        p
    }

    /// The name of the lens reading the records.
    pub fn lens_name(&self) -> (s: &'static str)
        ensures
            s == self.spec_lens(),
    {
        self.lens
    }

    /// Records classified so far.
    pub fn classified(&self) -> (n: usize)
        ensures
            n == self.spec_classified(),
    {
        self.seen.len()
    }

    /// The items, in document order.
    pub fn items(&self) -> (r: &[Item])
        ensures
            r@ == self.spec_items(),
    {
        self.items.as_slice()
    }

    /// Item `i`, when there is one.
    pub fn item(&self, i: usize) -> (r: Option<&Item>)
        ensures
            r == (if i < self.spec_items().len() {
                Some(&self.spec_items()[i as int])
            } else {
                None
            }),
    {
        if i < self.items.len() {
            Some(&self.items[i])
        } else {
            None
        }
    }

    /// The lens's reading of a record, when it had one.
    pub fn summary(&self, record: usize) -> (r: Option<&Summary>)
        ensures
            r == (if record < self.spec_classified() {
                match self.spec_seen()[record as int] {
                    Some(s) => Some(&s),
                    None => None,
                }
            } else {
                None
            }),
    {
        if record < self.seen.len() {
            match &self.seen[record] {
                Some(s) => Some(s),
                None => None,
            }
        } else {
            None
        }
    }

    /// A new item of one record keeps the plan consistent.
    proof fn lemma_classify_push(p: Plan, q: Plan, step: bool)
        requires
            p.wf(),
            p.seen@.len() < usize::MAX,
            !(p.items@.len() > 0 && p.items@.last().step && step),
            q.seen@.len() == p.seen@.len() + 1,
            q.under@ == p.under@.push(Under { body: 0, parts: 0 }),
            q.exc@ == p.exc@.push(false),
            q.items@ == p.items@.push(
                Item { first: p.seen@.len() as usize, count: 1, step, open: false },
            ),
            q.extra == p.extra,
            q.open_parts == p.open_parts,
            q.starts == p.starts,
            q.bstarts == p.bstarts,
            q.dirty == p.dirty,
            q.width == p.width,
        ensures
            q.wf(),
            forall|map: &RowMap| p.hides_nothing(map) ==> q.hides_nothing(map),
    {
        p.lemma_items();
        let a = p.items@;
        let b = q.items@;
        lemma_partition_push(a, p.seen@.len(), step);
        assert forall|j: int| 0 <= j < a.len() implies #[trigger] a[j] == b[j] by {}
        assert forall|j: int| 0 <= j < a.len() implies p.under@[#[trigger] a[j].first as int]
            == q.under@[a[j].first as int] by {}
        lemma_totals_frame(p.starts@, p.bstarts@, p.dirty as int, p.dirty as int, a, p.under@, b, q.under@);
        lemma_members_keep(p.extra, a, b);
        lemma_unders_push(p.under@);
        assert forall|map: &RowMap| p.hides_nothing(map) implies q.hides_nothing(map) by {
            assert forall|i: int, r: int|
                #![trigger b[i], map.spec_extra_of(r)]
                0 <= i < b.len() && b[i].spec_is_group() && !b[i].open && b[i].first <= r < b[i].first
                    + b[i].count implies map.spec_extra_of(r) == 0 by {
                assert(a[i] == b[i]);
            }
        }
    }

    /// A run of steps growing by one record keeps the plan consistent.
    proof fn lemma_classify_grow(p: Plan, q: Plan)
        requires
            p.wf(),
            p.seen@.len() < usize::MAX,
            p.items@.len() > 0,
            p.items@.last().step,
            q.seen@.len() == p.seen@.len() + 1,
            q.under@ == p.under@.push(Under { body: 0, parts: 0 }),
            q.exc@ == p.exc@.push(false),
            q.items@ == p.items@.update(
                p.items@.len() - 1,
                Item {
                    first: p.items@.last().first,
                    count: (p.items@.last().count + 1) as usize,
                    step: p.items@.last().step,
                    open: p.items@.last().open,
                },
            ),
            q.extra == p.extra,
            q.open_parts == p.open_parts,
            q.starts == p.starts,
            q.bstarts == p.bstarts,
            q.dirty == if p.items@.len() - 1 < p.dirty {
                (p.items@.len() - 1) as usize
            } else {
                p.dirty
            },
            q.width == p.width,
        ensures
            q.wf(),
    {
        p.lemma_items();
        let a = p.items@;
        let b = q.items@;
        lemma_partition_grow(a, p.seen@.len());
        assert forall|j: int| 0 <= j < q.dirty implies #[trigger] a[j] == b[j] by {}
        assert forall|j: int| 0 <= j < q.dirty implies p.under@[#[trigger] a[j].first as int]
            == q.under@[a[j].first as int] by {}
        reveal(totals_ok);
        lemma_totals_frame(p.starts@, p.bstarts@, p.dirty as int, q.dirty as int, a, p.under@, b, q.under@);
        lemma_members_keep(p.extra, a, b);
        lemma_unders_push(p.under@);
    }

    /// Would classifying a record with this summary extend the last item?
    pub open spec fn classify_extends(&self, sum: Option<Summary>) -> bool {
        self.spec_items().len() > 0 && self.spec_items().last().step && is_step(sum)
    }

    /// The items after classifying the next record as `sum`.
    pub open spec fn items_after(&self, sum: Option<Summary>) -> Seq<Item> {
        let items = self.spec_items();
        if self.classify_extends(sum) {
            let last = items.last();
            items.update(
                items.len() - 1,
                Item { first: last.first, count: (last.count + 1) as usize, step: last.step, open: last.open },
            )
        } else {
            items.push(
                Item {
                    first: self.spec_classified() as usize,
                    count: 1,
                    step: is_step(sum),
                    open: false,
                },
            )
        }
    }

    /// Does classifying the next record as `sum` close record `r`'s tree? It
    /// does when the record joins a closed group, and the group's first record
    /// too when the run has just become a group: a hidden record owns no rows.
    pub open spec fn swallows(&self, sum: Option<Summary>, r: int) -> bool {
        let last = self.spec_items().last();
        &&& self.classify_extends(sum)
        &&& !last.open
        &&& (r == self.spec_classified() || (r == last.first && last.count == 1))
    }

    /// Read the next record, which must be record [`Plan::classified`], and
    /// fold it into the item list; a record out of order is ignored.
    ///
    /// `map` is touched only to keep hidden records from owning tree rows.
    pub fn classify(&mut self, record: usize, sum: Option<Summary>, map: &mut RowMap)
        requires
            old(self).wf(),
            old(map).wf(),
            record < usize::MAX,
        ensures
            final(self).wf(),
            final(map).wf(),
            record != old(self).spec_classified() ==> *final(self) == *old(self) && final(map)@
                == old(map)@,
            record == old(self).spec_classified() ==> {
                &&& final(self).spec_seen() == old(self).spec_seen().push(kept(sum))
                &&& final(self).spec_items() == old(self).items_after(sum)
                &&& final(self).spec_under() == old(self).spec_under().push(
                    Under { body: 0, parts: 0 },
                )
                &&& final(self).spec_exc() == old(self).spec_exc().push(false)
                &&& final(self).spec_all_full() == old(self).spec_all_full()
                &&& final(self).spec_open_parts() == old(self).spec_open_parts()
                &&& final(self).spec_pending() == old(self).spec_pending()
                &&& final(self).spec_width() == old(self).spec_width()
                &&& final(self).spec_lens() == old(self).spec_lens()
                &&& final(self).spec_extra()@ == old(self).spec_extra()@
                &&& forall|r: int|
                    #![trigger final(map).spec_extra_of(r)]
                    final(map).spec_extra_of(r) == if old(self).swallows(sum, r) {
                        0
                    } else {
                        old(map).spec_extra_of(r)
                    }
                &&& forall|r: int|
                    #![trigger final(map).spec_is_open(r)]
                    final(map).spec_is_open(r) == (old(map).spec_is_open(r) && !old(self).swallows(
                        sum,
                        r,
                    ))
            },
            old(self).hides_nothing(old(map)) ==> final(self).hides_nothing(final(map)),
    {
        if record != self.seen.len() {
            return ;
        }
        proof {
            self.lemma_items();
        }
        let ghost old_self = *self;
        let ghost sum0 = sum;
        let step = match &sum {
            Some(s) => s.class == Class::Step,
            None => false,
        };
        let sum = match sum {
            Some(s) => if step {
                Some(Summary { body: None, ..s })
            } else {
                Some(s)
            },
            None => None,
        };
        assert(sum == kept(sum0));
        self.seen.push(sum);
        self.under.push(Under { body: 0, parts: 0 });
        self.exc.push(false);
        let n = self.items.len();
        let extends = n > 0 && self.items[n - 1].step && step;
        assert(extends == old_self.classify_extends(sum0));
        if !extends {
            self.items.push(Item { first: record, count: 1, step, open: false });
            proof {
                Plan::lemma_classify_push(old_self, *self, step);
                assert(self.items@ == old_self.items_after(sum0));
                assert(forall|r: int| !old_self.swallows(sum0, r));
            }
            return ;
        }
        let last = self.items[n - 1];
        let grown = Item { first: last.first, count: last.count + 1, step: last.step, open: last.open };
        self.items.set(n - 1, grown);
        if n - 1 < self.dirty {
            self.dirty = n - 1;
        }
        proof {
            Plan::lemma_classify_grow(old_self, *self);
            assert(self.items@ == old_self.items_after(sum0));
        }
        let ghost map0 = *map;
        if !last.open {
            map.close(record);
            if last.count == 1 {
                map.close(last.first);
            }
        }
        proof {
            let a = old_self.items@;
            let b = self.items@;
            assert forall|r: int| #![trigger map.spec_extra_of(r)] map.spec_extra_of(r) == if old_self.swallows(
                sum0,
                r,
            ) {
                0
            } else {
                map0.spec_extra_of(r)
            } by {}
            assert forall|r: int| #![trigger map.spec_is_open(r)] map.spec_is_open(r) == (
            map0.spec_is_open(r) && !old_self.swallows(sum0, r)) by {}
            if old_self.hides_nothing(&map0) {
                assert forall|i: int, r: int|
                    #![trigger b[i], map.spec_extra_of(r)]
                    0 <= i < b.len() && b[i].spec_is_group() && !b[i].open && b[i].first <= r
                        < b[i].first + b[i].count implies map.spec_extra_of(r) == 0 by {
                    if i < n - 1 {
                        assert(a[i] == b[i]);
                    } else if r < last.first + last.count {
                        assert(a[i] == last);
                    }
                }
            }
        }
    }
}


/// Bringing the running totals up to date.
impl Plan {
    /// Own rows of item `i`.
    fn own(&self, i: usize) -> (n: usize)
        requires
            i < self.spec_items().len(),
            self.spec_items()[i as int].first < self.spec_under().len(),
            self.own_at(i as int) <= usize::MAX,
        ensures
            n == self.own_at(i as int),
    {
        let it = self.items[i];
        if it.is_group() {
            if it.open {
                1 + it.count
            } else {
                1
            }
        } else {
            let u = self.under[it.first];
            1 + u.body + u.parts
        }
    }

    /// Blocks item `i` splits into.
    fn blocks_in(&self, i: usize) -> (n: usize)
        requires
            i < self.spec_items().len(),
            blocks_of(self.spec_items()[i as int]) <= usize::MAX,
        ensures
            n == blocks_of(self.spec_items()[i as int]),
    {
        let it = self.items[i];
        if it.is_group() && it.open {
            1 + it.count
        } else {
            1
        }
    }

    /// Bring the running totals up to date. Every row question asks for this
    /// first, and it is cheap when nothing changed: a change late in a long log
    /// touches only what follows it.
    pub fn sync(&mut self)
        requires
            old(self).wf(),
            old(self).own_upto(old(self).spec_items().len() as int) <= usize::MAX,
        ensures
            final(self).wf(),
            final(self).synced(),
            final(self).same_model(old(self)),
    {
        let n = self.items.len();
        if self.dirty == n && self.starts.len() == n {
            return ;
        }
        let d = self.dirty;
        let ghost items = self.items@;
        let ghost under = self.under@;
        proof {
            lemma_items_fit(items, self.seen@.len());
        }
        let mut run: usize = 0;
        let mut brun: usize = 0;
        if d > 0 {
            proof {
                self.lemma_totals(d - 1);
                lemma_own_step(items, under, d - 1, n as int);
            }
            run = self.starts[d - 1] + self.own(d - 1);
            brun = self.bstarts[d - 1] + self.blocks_in(d - 1);
        }
        let mut starts: Vec<usize> = Vec::new();
        let mut bstarts: Vec<usize> = Vec::new();
        std::mem::swap(&mut starts, &mut self.starts);
        std::mem::swap(&mut bstarts, &mut self.bstarts);
        starts.truncate(d);
        bstarts.truncate(d);
        proof {
            assert forall|j: int| #![trigger starts@[j]] 0 <= j < d implies starts@[j] == own_before(
                items,
                under,
                j,
            ) && bstarts@[j] == blocks_before(items, j) by {
                lemma_totals_at(old(self).starts@, old(self).bstarts@, d as int, items, under, j);
            }
        }
        fill_totals(&self.items, &self.under, &mut starts, &mut bstarts, run, brun);
        proof {
            lemma_totals_full(starts@, bstarts@, n as int, items, under);
        }
        self.starts = starts;
        self.bstarts = bstarts;
        self.dirty = n;
    }

    /// Rows of the items' own, and of the trees and member rows of their
    /// records, before item `i`'s summary row.
    fn start_of(&self, i: usize, map: &RowMap) -> (n: usize)
        requires
            self.wf(),
            self.synced(),
            map.wf(),
            self.fits(map),
            i < self.spec_items().len(),
        ensures
            n == self.row_start(map, i as int),
    {
        proof {
            self.lemma_items();
            self.lemma_totals(i as int);
            self.lemma_prefix_bounds(map);
            assert(self.row_start(map, i as int) <= self.spec_prefix(map));
        }
        let first = self.items[i].first;
        self.starts[i] + map.extra_before(first) + self.extra.extra_before(first)
    }

    /// Rows the classified prefix occupies, tree rows included.
    fn prefix_rows(&self, map: &RowMap) -> (n: usize)
        requires
            self.wf(),
            self.synced(),
            map.wf(),
            self.fits(map),
        ensures
            n == self.spec_prefix(map),
    {
        proof {
            self.lemma_items();
            self.lemma_prefix_bounds(map);
        }
        let n = self.items.len();
        let seen = self.seen.len();
        let own: usize = if n == 0 {
            0
        } else {
            proof {
                self.lemma_totals(n - 1);
                assert(self.own_upto(n as int) == self.own_upto(n - 1) + self.own_at(n - 1));
            }
            self.starts[n - 1] + self.own(n - 1)
        };
        own + map.extra_before(seen) + self.extra.extra_before(seen)
    }

    /// Rows in the document: the classified prefix, plus one per record the
    /// lens has not reached yet.
    pub fn rows(&self, known: usize, map: &RowMap) -> (n: usize)
        requires
            self.wf(),
            self.synced(),
            map.wf(),
            self.spec_rows(known as int, map) <= usize::MAX,
        ensures
            n == self.spec_rows(known as int, map),
    {
        let prefix = self.prefix_rows(map);
        let seen = self.seen.len();
        if known > seen {
            prefix + (known - seen)
        } else {
            prefix
        }
    }

    /// The row item `i`'s own summary sits on; `0` for an item there is not.
    pub fn row_of_item(&self, i: usize, map: &RowMap) -> (n: usize)
        requires
            self.wf(),
            self.synced(),
            map.wf(),
            self.fits(map),
        ensures
            n == if i < self.spec_items().len() {
                self.row_start(map, i as int)
            } else {
                0
            },
    {
        if i < self.items.len() {
            self.start_of(i, map)
        } else {
            0
        }
    }

    /// The item a record belongs to: `None` past the classified prefix.
    pub fn item_of_record(&self, record: usize) -> (r: Option<usize>)
        requires
            self.wf(),
        ensures
            r is Some <==> record < self.spec_classified(),
            r matches Some(i) ==> i < self.spec_items().len() && self.spec_items()[i as int].first
                <= record < self.spec_items()[i as int].first + self.spec_items()[i as int].count,
    {
        let ghost items = self.items@;
        let n = self.items.len();
        let mut lo: usize = 0;
        let mut hi: usize = n;
        while lo < hi
            invariant
                items == self.items@,
                n == items.len(),
                lo <= hi <= n,
                lo == 0 || items[lo - 1].first <= record,
                hi == n || items[hi as int].first > record,
            decreases hi - lo,
        {
            let mid = lo + (hi - lo) / 2;
            if self.items[mid].first <= record {
                lo = mid + 1;
            } else {
                hi = mid;
            }
        }
        proof {
            self.lemma_items();
        }
        if lo == 0 {
            proof {
                if n > 0 {
                    assert(items[0].first == self.first_of(0));
                }
            }
            return None;
        }
        let i = lo - 1;
        let it = self.items[i];
        let seen = self.seen.len();
        assert(items[i as int] == it);
        assert(it.first + it.count <= seen);
        if record < it.first + it.count {
            Some(i)
        } else {
            proof {
                if lo < n {
                    assert(items[lo as int].first == self.first_of(lo as int));
                }
            }
            None
        }
    }

    /// Rows a closed group hides: one per record it holds.
    pub fn hidden(&self, item: usize) -> (n: usize)
        ensures
            n == if item < self.spec_items().len() && self.spec_items()[item as int].spec_is_group()
                && !self.spec_items()[item as int].open {
                self.spec_items()[item as int].count
            } else {
                0
            },
    {
        if item < self.items.len() {
            let it = self.items[item];
            if it.is_group() && !it.open {
                return it.count;
            }
        }
        0
    }
}


/// Where a row falls, stated directly: the item whose rows contain it, and
/// inside an open group, the member whose rows contain it.
impl Plan {
    /// Row `row` is one of item `i`'s rows.
    pub open spec fn in_item(&self, map: &RowMap, row: int, i: int) -> bool {
        0 <= i < self.spec_items().len() && self.row_start(map, i) <= row < self.row_start(
            map,
            i + 1,
        )
    }

    /// The item whose rows contain `row`, for a row inside the classified prefix.
    pub open spec fn item_at(&self, map: &RowMap, row: int) -> int {
        choose|i: int| #[trigger] self.in_item(map, row, i)
    }

    /// Offset `off` after open group `i`'s own row is one of member `k`'s rows.
    pub open spec fn in_member(&self, map: &RowMap, i: int, off: int, k: int) -> bool {
        0 <= k < self.spec_items()[i].count && self.member_start(map, i, k) <= off
            < self.member_start(map, i, k + 1)
    }

    /// The member of open group `i` whose rows contain `off`, counted from the
    /// row after the group's own.
    pub open spec fn member_at(&self, map: &RowMap, i: int, off: int) -> int {
        choose|k: int| #[trigger] self.in_member(map, i, off, k)
    }

    /// The item a classified record belongs to.
    pub open spec fn item_of(&self, r: int) -> int {
        choose|i: int|
            0 <= i < self.spec_items().len() && (#[trigger] self.spec_items()[i]).first <= r
                < self.spec_items()[i].first + self.spec_items()[i].count
    }

    /// Row `s` of member `r`'s rows: its summary row, the text it said, its
    /// calls, then its tree.
    #[verifier::opaque]
    pub open spec fn member_spot(&self, r: int, s: int) -> Spot {
        let e = self.spec_extra().spec_extra_of(r) as int;
        let u = self.spec_under()[r];
        let b = if u.body <= e {
            u.body as int
        } else {
            e
        };
        if s == 0 {
            Spot::Record { record: r as usize, sub: 0 }
        } else if s <= b {
            Spot::Body { record: r as usize, line: (s - 1) as usize }
        } else if s <= e {
            Spot::Part { record: r as usize, line: (s - 1 - b) as usize }
        } else {
            Spot::Record { record: r as usize, sub: (s - e) as usize }
        }
    }

    /// Row `off` of item `i`'s rows.
    #[verifier::opaque]
    pub open spec fn item_spot(&self, map: &RowMap, i: int, off: int) -> Spot {
        let it = self.spec_items()[i];
        if !it.spec_is_group() {
            let u = self.spec_under()[it.first as int];
            if off == 0 {
                Spot::Record { record: it.first, sub: 0 }
            } else if off <= u.body {
                Spot::Body { record: it.first, line: (off - 1) as usize }
            } else if off <= u.body + u.parts {
                Spot::Part { record: it.first, line: (off - 1 - u.body) as usize }
            } else {
                Spot::Record { record: it.first, sub: (off - u.body - u.parts) as usize }
            }
        } else if !it.open || off == 0 {
            Spot::Group { item: i as usize }
        } else {
            let k = self.member_at(map, i, off - 1);
            self.member_spot(it.first + k, off - 1 - self.member_start(map, i, k))
        }
    }

    /// Where screen row `row` falls. Past the classified prefix each record is
    /// one row; a row past the last record answers the last record.
    #[verifier::opaque]
    pub open spec fn spec_at(&self, row: int, known: int, map: &RowMap) -> Spot {
        let prefix = self.spec_prefix(map) as int;
        if row >= prefix {
            let last = if known > 0 {
                known - 1
            } else {
                0
            };
            let r = self.spec_classified() + (row - prefix);
            Spot::Record {
                record: (if r < last {
                    r
                } else {
                    last
                }) as usize,
                sub: 0,
            }
        } else {
            let i = self.item_at(map, row);
            self.item_spot(map, i, row - self.row_start(map, i))
        }
    }

    /// The row record `r`'s summary sits on. A record inside a closed group
    /// has no row of its own: the group's row stands for it.
    #[verifier::opaque]
    pub open spec fn spec_row_of_record(&self, r: int, map: &RowMap) -> int {
        if r >= self.spec_classified() {
            self.spec_prefix(map) + (r - self.spec_classified())
        } else {
            let i = self.item_of(r);
            let it = self.spec_items()[i];
            if it.spec_is_group() && it.open {
                self.row_start(map, i) + 1 + self.member_start(map, i, r - it.first)
            } else {
                self.row_start(map, i) as int
            }
        }
    }

    /// The item containing a row is the one `item_at` names.
    proof fn lemma_item_at(&self, map: &RowMap, row: int, i: int)
        requires
            self.wf(),
            0 <= i < self.spec_items().len(),
            self.row_start(map, i) <= row < self.row_start(map, i + 1),
        ensures
            self.item_at(map, row) == i,
    {
        assert(self.in_item(map, row, i));
        let j = self.item_at(map, row);
        assert(self.in_item(map, row, j));
        if j < i {
            self.lemma_row_start_mono(map, j + 1, i);
        } else if i < j {
            self.lemma_row_start_mono(map, i + 1, j);
        }
    }

    /// The member containing an offset is the one `member_at` names.
    proof fn lemma_member_at(&self, map: &RowMap, i: int, off: int, k: int)
        requires
            0 <= k < self.spec_items()[i].count,
            self.member_start(map, i, k) <= off < self.member_start(map, i, k + 1),
        ensures
            self.member_at(map, i, off) == k,
    {
        assert(self.in_member(map, i, off, k));
        let j = self.member_at(map, i, off);
        assert(self.in_member(map, i, off, j));
        if j < k {
            self.lemma_member_mono(map, i, j + 1, k);
        } else if k < j {
            self.lemma_member_mono(map, i, k + 1, j);
        }
    }

    /// The item a record lies in is the one `item_of` names.
    proof fn lemma_item_of(&self, r: int, i: int)
        requires
            self.wf(),
            0 <= i < self.spec_items().len(),
            self.spec_items()[i].first <= r < self.spec_items()[i].first + self.spec_items()[i].count,
        ensures
            self.item_of(r) == i,
    {
        self.lemma_items();
        let j = self.item_of(r);
        assert(0 <= j < self.spec_items().len() && self.spec_items()[j].first <= r
            < self.spec_items()[j].first + self.spec_items()[j].count);
        if j < i {
            self.lemma_first_mono(j + 1, i);
        } else if i < j {
            self.lemma_first_mono(i + 1, j);
        }
    }
}


/// Every record's row leads back to it.
impl Plan {
    /// Every classified record lies in an item.
    proof fn lemma_record_in_item(&self, r: int, k: int)
        requires
            self.wf(),
            0 <= k <= self.spec_items().len(),
            0 <= r < self.first_of(k),
        ensures
            exists|i: int|
                0 <= i < k && (#[trigger] self.spec_items()[i]).first <= r < self.spec_items()[i].first
                    + self.spec_items()[i].count,
        decreases k,
    {
        self.lemma_items();
        if r < self.first_of(k - 1) {
            self.lemma_record_in_item(r, k - 1);
        } else {
            assert(self.spec_items()[k - 1].first <= r);
        }
    }

    /// The first item starts on row 0.
    proof fn lemma_row_start_zero(&self, map: &RowMap)
        ensures
            self.row_start(map, 0) == 0,
    {
        lemma_extra_before_zero(map);
        lemma_extra_before_zero(&self.extra);
    }
}

/// Whether `spot` is record `r`'s own summary row, or the row of the closed
/// group that hides it.
pub open spec fn leads_back(plan: &Plan, spot: Spot, r: int) -> bool {
    match spot {
        Spot::Record { record, sub } => record == r && sub == 0,
        Spot::Group { item } => item < plan.spec_items().len() && plan.spec_items()[item as int].spec_is_group()
            && !plan.spec_items()[item as int].open && plan.spec_items()[item as int].first <= r
            < plan.spec_items()[item as int].first + plan.spec_items()[item as int].count,
        _ => false,
    }
}

impl Plan {
    /// Looking up a row inside the classified prefix reads it off the item
    /// whose rows contain it.
    proof fn lemma_at_in_item(&self, map: &RowMap, row: int, known: int, i: int)
        requires
            self.wf(),
            self.in_item(map, row, i),
        ensures
            self.spec_at(row, known, map) == self.item_spot(map, i, row - self.row_start(map, i)),
    {
        self.lemma_row_start_mono(map, i + 1, self.spec_items().len() as int);
        self.lemma_item_at(map, row, i);
        reveal(Plan::spec_at);
    }

    /// A record inside the classified prefix: its row is in its item's rows,
    /// and the lookup comes back to it.
    proof fn lemma_round_trip_item(&self, map: &RowMap, known: int, r: int, i: int)
        requires
            self.wf(),
            0 <= i < self.spec_items().len(),
            self.spec_items()[i].first <= r < self.spec_items()[i].first + self.spec_items()[i].count,
        ensures
            self.spec_row_of_record(r, map) < self.spec_prefix(map),
            leads_back(self, self.spec_at(self.spec_row_of_record(r, map), known, map), r),
    {
        lemma_partition_facts(self.items@, self.seen@.len());
        assert(self.spec_items()[i].first + self.spec_items()[i].count <= self.spec_classified());
        self.lemma_item_of(r, i);
        self.lemma_row_start_step(map, i);
        self.lemma_row_start_mono(map, i + 1, self.spec_items().len() as int);
        let it = self.spec_items()[i];
        if it.spec_is_group() && it.open {
            self.lemma_round_trip_member(map, known, r, i);
        } else {
            self.lemma_first_mono(0, i);
            self.lemma_round_trip_single(map, known, r, i);
        }
    }

    proof fn lemma_round_trip_member(&self, map: &RowMap, known: int, r: int, i: int)
        requires
            self.wf(),
            0 <= i < self.spec_items().len(),
            self.spec_items()[i].first <= r < self.spec_items()[i].first + self.spec_items()[i].count,
            self.spec_items()[i].first == self.first_of(i),
            r < self.spec_classified(),
            self.item_of(r) == i,
            self.spec_items()[i].spec_is_group() && self.spec_items()[i].open,
            self.row_start(map, i + 1) <= self.spec_prefix(map),
        ensures
            self.spec_row_of_record(r, map) < self.spec_prefix(map),
            leads_back(self, self.spec_at(self.spec_row_of_record(r, map), known, map), r),
    {
        let it = self.spec_items()[i];
        let k = r - it.first;
        self.lemma_open_group_rows(map, i);
        self.lemma_member_step(map, i, k);
        self.lemma_member_mono(map, i, k + 1, it.count as int);
        self.lemma_member_mono(map, i, 0, k);
        let row = self.row_start(map, i) + 1 + self.member_start(map, i, k);
        assert(self.spec_row_of_record(r, map) == row) by {
            reveal(Plan::spec_row_of_record);
        }
        assert(self.in_item(map, row, i));
        self.lemma_at_in_item(map, row, known, i);
        self.lemma_member_at(map, i, self.member_start(map, i, k), k);
        assert(self.item_spot(map, i, row - self.row_start(map, i)) == self.member_spot(r, 0)) by {
            reveal(Plan::item_spot);
        }
        assert(self.member_spot(r, 0) == Spot::Record { record: r as usize, sub: 0 }) by {
            reveal(Plan::member_spot);
        }
    }

    proof fn lemma_round_trip_single(&self, map: &RowMap, known: int, r: int, i: int)
        requires
            self.wf(),
            0 <= i < self.spec_items().len(),
            self.spec_items()[i].first <= r < self.spec_items()[i].first + self.spec_items()[i].count,
            r < self.spec_classified(),
            self.item_of(r) == i,
            !(self.spec_items()[i].spec_is_group() && self.spec_items()[i].open),
            !self.spec_items()[i].step ==> self.spec_items()[i].count == 1,
            self.spec_items()[i].count >= 1,
            i < usize::MAX,
            self.row_start(map, i + 1) <= self.spec_prefix(map),
            self.row_start(map, i) < self.row_start(map, i + 1),
        ensures
            self.spec_row_of_record(r, map) < self.spec_prefix(map),
            leads_back(self, self.spec_at(self.spec_row_of_record(r, map), known, map), r),
    {
        let row = self.row_start(map, i) as int;
        assert(self.spec_row_of_record(r, map) == row) by {
            reveal(Plan::spec_row_of_record);
        }
        assert(self.in_item(map, row, i));
        self.lemma_at_in_item(map, row, known, i);
        assert(leads_back(self, self.item_spot(map, i, 0), r)) by {
            reveal(Plan::item_spot);
        }
    }
}

/// **Every record is reachable.** The row a record's summary sits on is a row
/// of the document, and looking that row up gives the record back: its own
/// summary row, or, for a record a closed group hides, the group's row.
pub proof fn lemma_rows_round_trip(plan: &Plan, map: &RowMap, known: usize, r: int)
    requires
        plan.wf(),
        0 <= r < known,
    ensures
        plan.spec_row_of_record(r, map) < plan.spec_rows(known as int, map),
        leads_back(plan, plan.spec_at(plan.spec_row_of_record(r, map), known as int, map), r),
{
    plan.lemma_items();
    let c = plan.spec_classified() as int;
    if r >= c {
        let row = plan.spec_prefix(map) + (r - c);
        assert(plan.spec_row_of_record(r, map) == row) by {
            reveal(Plan::spec_row_of_record);
        }
        assert(plan.spec_at(row, known as int, map) == Spot::Record { record: r as usize, sub: 0 }) by {
            reveal(Plan::spec_at);
        }
    } else {
        let n = plan.spec_items().len() as int;
        plan.lemma_record_in_item(r, n);
        let i = choose|i: int|
            0 <= i < n && (#[trigger] plan.spec_items()[i]).first <= r < plan.spec_items()[i].first
                + plan.spec_items()[i].count;
        plan.lemma_round_trip_item(map, known as int, r, i);
    }
}


/// Looking rows up.
impl Plan {
    /// The last item whose row is at or before `row`.
    fn item_at_row(&self, row: usize, map: &RowMap) -> (i: usize)
        requires
            self.wf(),
            self.synced(),
            map.wf(),
            self.fits(map),
            row < self.spec_prefix(map),
            self.spec_items().len() > 0,
        ensures
            self.in_item(map, row as int, i as int),
    {
        let n = self.items.len();
        let mut lo: usize = 0;
        let mut hi: usize = n - 1;
        proof {
            self.lemma_row_start_zero(map);
        }
        while lo < hi
            invariant
                self.wf(),
                self.synced(),
                map.wf(),
                self.fits(map),
                n == self.spec_items().len(),
                lo <= hi < n,
                self.row_start(map, lo as int) <= row,
                row < self.row_start(map, hi + 1),
            decreases hi - lo,
        {
            let mid = lo + (hi - lo + 1) / 2;
            if self.start_of(mid, map) <= row {
                lo = mid;
            } else {
                hi = mid - 1;
            }
        }
        lo
    }

    /// Rows, after open group `i`'s own row, that its first `k` members take.
    fn member_offset(&self, i: usize, k: usize, map: &RowMap) -> (n: usize)
        requires
            self.wf(),
            map.wf(),
            self.fits(map),
            i < self.spec_items().len(),
            self.spec_items()[i as int].spec_is_group(),
            self.spec_items()[i as int].open,
            k <= self.spec_items()[i as int].count,
        ensures
            n == self.member_start(map, i as int, k as int),
    {
        proof {
            lemma_partition_facts(self.items@, self.seen@.len());
            self.lemma_open_group_rows(map, i as int);
            self.lemma_member_mono(map, i as int, k as int, self.spec_items()[i as int].count as int);
            self.lemma_member_mono(map, i as int, 0, k as int);
            self.lemma_row_start_mono(map, i + 1, self.spec_items().len() as int);
            lemma_extra_before_mono(map, self.first_of(i as int), self.first_of(i as int) + k);
            lemma_extra_before_mono(&self.extra, self.first_of(i as int), self.first_of(i as int) + k);
        }
        let f = self.items[i].first;
        let a = map.extra_before(f);
        let b = map.extra_before(f + k);
        let c = self.extra.extra_before(f);
        let d = self.extra.extra_before(f + k);
        k + (b - a) + (d - c)
    }

    /// The member of open group `i` whose rows contain `off`.
    fn member_index(&self, i: usize, off: usize, map: &RowMap) -> (k: usize)
        requires
            self.wf(),
            map.wf(),
            self.fits(map),
            i < self.spec_items().len(),
            self.spec_items()[i as int].spec_is_group(),
            self.spec_items()[i as int].open,
            off < self.member_start(map, i as int, self.spec_items()[i as int].count as int),
        ensures
            self.in_member(map, i as int, off as int, k as int),
    {
        let it = self.items[i];
        let mut lo: usize = 0;
        let mut hi: usize = it.count - 1;
        proof {
            lemma_partition_facts(self.items@, self.seen@.len());
            self.lemma_open_group_rows(map, i as int);
        }
        while lo < hi
            invariant
                self.wf(),
                map.wf(),
                self.fits(map),
                i < self.spec_items().len(),
                it == self.spec_items()[i as int],
                it.spec_is_group(),
                it.open,
                lo <= hi < it.count,
                self.member_start(map, i as int, lo as int) <= off,
                off < self.member_start(map, i as int, hi + 1),
            decreases hi - lo,
        {
            let mid = lo + (hi - lo + 1) / 2;
            if self.member_offset(i, mid, map) <= off {
                lo = mid;
            } else {
                hi = mid - 1;
            }
        }
        lo
    }

    /// A row inside open group `i`, `off` rows after the group's own: which
    /// member, and where in its rows.
    fn inside(&self, i: usize, off: usize, map: &RowMap) -> (s: Spot)
        requires
            self.wf(),
            map.wf(),
            self.fits(map),
            i < self.spec_items().len(),
            self.spec_items()[i as int].spec_is_group(),
            self.spec_items()[i as int].open,
            off < self.member_start(map, i as int, self.spec_items()[i as int].count as int),
        ensures
            s == self.member_spot(
                self.spec_items()[i as int].first + self.member_at(map, i as int, off as int),
                off - self.member_start(map, i as int, self.member_at(map, i as int, off as int)),
            ),
    {
        let it = self.items[i];
        let lo = self.member_index(i, off, map);
        proof {
            lemma_partition_facts(self.items@, self.seen@.len());
            self.lemma_member_at(map, i as int, off as int, lo as int);
            self.lemma_member_step(map, i as int, lo as int);
        }
        let used = self.member_offset(i, lo, map);
        let r = it.first + lo;
        let s = off - used;
        let e = self.extra.extra_of(r);
        let u = self.under[r];
        let b = if u.body <= e {
            u.body
        } else {
            e
        };
        proof {
            reveal(Plan::member_spot);
        }
        if s == 0 {
            Spot::Record { record: r, sub: 0 }
        } else if s <= b {
            Spot::Body { record: r, line: s - 1 }
        } else if s <= e {
            Spot::Part { record: r, line: s - 1 - b }
        } else {
            Spot::Record { record: r, sub: s - e }
        }
    }

    /// Where a screen row falls.
    pub fn at(&self, row: usize, known: usize, map: &RowMap) -> (s: Spot)
        requires
            self.wf(),
            self.synced(),
            map.wf(),
            self.fits(map),
        ensures
            s == self.spec_at(row as int, known as int, map),
    {
        let prefix = self.prefix_rows(map);
        if row >= prefix {
            let past = row - prefix;
            let seen = self.seen.len();
            let last = if known > 0 {
                known - 1
            } else {
                0
            };
            let record = if seen <= last && past <= last - seen {
                seen + past
            } else {
                last
            };
            proof {
                reveal(Plan::spec_at);
            }
            return Spot::Record { record, sub: 0 };
        }
        proof {
            self.lemma_row_start_zero(map);
        }
        let i = self.item_at_row(row, map);
        let base = self.start_of(i, map);
        let off = row - base;
        proof {
            self.lemma_at_in_item(map, row as int, known as int, i as int);
            lemma_partition_facts(self.items@, self.seen@.len());
        }
        let it = self.items[i];
        if !it.is_group() {
            let u = self.under[it.first];
            proof {
                reveal(Plan::item_spot);
            }
            if off == 0 {
                return Spot::Record { record: it.first, sub: 0 };
            }
            if off <= u.body {
                return Spot::Body { record: it.first, line: off - 1 };
            }
            if off - u.body <= u.parts {
                return Spot::Part { record: it.first, line: off - 1 - u.body };
            }
            return Spot::Record { record: it.first, sub: off - u.body - u.parts };
        }
        if !it.open || off == 0 {
            proof {
                reveal(Plan::item_spot);
            }
            return Spot::Group { item: i };
        }
        proof {
            self.lemma_open_group_rows(map, i as int);
        }
        let s = self.inside(i, off - 1, map);
        proof {
            reveal(Plan::item_spot);
        }
        s
    }

    /// The row a record's summary sits on. A record inside a closed group has
    /// no row of its own: the group's row stands for it.
    pub fn row_of_record(&self, record: usize, map: &RowMap) -> (n: usize)
        requires
            self.wf(),
            self.synced(),
            map.wf(),
            self.fits(map),
            record >= self.spec_classified() ==> self.spec_prefix(map) + (record
                - self.spec_classified()) <= usize::MAX,
        ensures
            n == self.spec_row_of_record(record as int, map),
    {
        let seen = self.seen.len();
        if record >= seen {
            let p = self.prefix_rows(map);
            proof {
                reveal(Plan::spec_row_of_record);
            }
            return p + (record - seen);
        }
        let i = match self.item_of_record(record) {
            Some(i) => i,
            None => {
                return 0;
            },
        };
        proof {
            self.lemma_item_of(record as int, i as int);
            lemma_partition_facts(self.items@, self.seen@.len());
            self.lemma_row_start_step(map, i as int);
            self.lemma_row_start_mono(map, i + 1, self.spec_items().len() as int);
            reveal(Plan::spec_row_of_record);
        }
        let base = self.start_of(i, map);
        let it = self.items[i];
        if it.is_group() && it.open {
            let k = record - it.first;
            proof {
                self.lemma_open_group_rows(map, i as int);
                self.lemma_member_step(map, i as int, k as int);
                self.lemma_member_mono(map, i as int, k + 1, it.count as int);
            }
            base + 1 + self.member_offset(i, k, map)
        } else {
            base
        }
    }
}


/// A closed group whose records gave up their trees hides nothing, and
/// opening one puts nothing in hiding.
proof fn lemma_set_open_hides(a: Seq<Item>, item: int, open: bool, m0: &RowMap, m1: &RowMap)
    requires
        0 <= item < a.len(),
        forall|r: int|
            #![trigger m1.spec_extra_of(r)]
            m1.spec_extra_of(r) == if !open && a[item].first <= r < a[item].first + a[item].count {
                0
            } else {
                m0.spec_extra_of(r)
            },
    ensures
        hides(a, m0) ==> hides(
            a.update(item, Item { first: a[item].first, count: a[item].count, step: a[item].step, open }),
            m1,
        ),
{
    let b = a.update(item, Item { first: a[item].first, count: a[item].count, step: a[item].step, open });
    if hides(a, m0) {
        assert forall|i: int, r: int|
            #![trigger b[i], m1.spec_extra_of(r)]
            0 <= i < b.len() && b[i].spec_is_group() && !b[i].open && b[i].first <= r < b[i].first
                + b[i].count implies m1.spec_extra_of(r) == 0 by {
            if i != item {
                assert(a[i] == b[i]);
            }
        }
    }
}

/// Folding: opening and closing groups.
impl Plan {
    /// Does opening or closing item `item` change it?
    pub open spec fn toggles(&self, item: int, open: bool) -> bool {
        0 <= item < self.spec_items().len() && self.spec_items()[item].spec_is_group()
            && self.spec_items()[item].open != open
    }

    /// Record `r` lies in item `item`.
    pub open spec fn holds(&self, item: int, r: int) -> bool {
        0 <= item < self.spec_items().len() && self.spec_items()[item].first <= r
            < self.spec_items()[item].first + self.spec_items()[item].count
    }

    /// Item `i` with its open flag set.
    pub open spec fn with_open(&self, i: int, open: bool) -> Seq<Item> {
        let it = self.spec_items()[i];
        self.spec_items().update(i, Item { first: it.first, count: it.count, step: it.step, open })
    }

    /// Opening or closing group `item` keeps the plan consistent, once the
    /// members of a group being closed have given up their rows.
    proof fn lemma_set_open(p: Plan, q: Plan, item: int, open: bool)
        requires
            p.wf(),
            p.toggles(item, open),
            q.items@ == p.with_open(item, open),
            q.extra.wf(),
            !open ==> forall|r: int|
                #![trigger q.extra.spec_extra_of(r)]
                q.extra.spec_extra_of(r) == if p.holds(item, r) {
                    0
                } else {
                    p.extra.spec_extra_of(r)
                },
            open ==> q.extra == p.extra,
            q.seen == p.seen,
            q.under == p.under,
            q.exc == p.exc,
            q.open_parts == p.open_parts,
            q.starts == p.starts,
            q.bstarts == p.bstarts,
            q.dirty == if item < p.dirty {
                item as usize
            } else {
                p.dirty
            },
            q.width == p.width,
        ensures
            q.wf(),
            q.own_all_open() == p.own_all_open(),
    {
        let a = p.items@;
        let b = q.items@;
        lemma_open_frame(a, b, p.under@, a.len() as int);
        lemma_partition_shape(a, b, p.seen@.len());
        assert forall|j: int| 0 <= j < q.dirty implies #[trigger] a[j] == b[j] by {}
        assert forall|j: int| 0 <= j < q.dirty implies p.under@[#[trigger] a[j].first as int]
            == q.under@[a[j].first as int] by {}
        lemma_totals_frame(p.starts@, p.bstarts@, p.dirty as int, q.dirty as int, a, p.under@, b, q.under@);
        if open {
            lemma_members_keep(p.extra, a, b);
        } else {
            assert(members_only(q.extra, b)) by {
                reveal(members_only);
                assert forall|r: int| #[trigger] q.extra.spec_extra_of(r) > 0 implies member_of(b, r) by {
                    assert(p.extra.spec_extra_of(r) > 0);
                    let i = choose|i: int|
                        0 <= i < a.len() && (#[trigger] a[i]).spec_is_group() && a[i].open
                            && a[i].first <= r < a[i].first + a[i].count;
                    assert(i != item);
                    assert(b[i] == a[i]);
                }
            }
        }
    }

    /// Open or close a group; true when it changed. Closing closes the trees
    /// of the records it hides, and the rows they showed under their own rows.
    /// Opening leaves the group for the caller to measure ([`Plan::take_pending`]).
    #[verifier::spinoff_prover]
    #[verifier::rlimit(30)]
    pub fn set_open(&mut self, item: usize, open: bool, map: &mut RowMap) -> (b: bool)
        requires
            old(self).wf(),
            old(map).wf(),
        ensures
            final(self).wf(),
            final(map).wf(),
            b == old(self).toggles(item as int, open),
            final(self).spec_items() == if b {
                old(self).with_open(item as int, open)
            } else {
                old(self).spec_items()
            },
            final(self).spec_pending() == if b && open {
                old(self).spec_pending().push(item)
            } else {
                old(self).spec_pending()
            },
            final(self).spec_seen() == old(self).spec_seen(),
            final(self).spec_under() == old(self).spec_under(),
            final(self).spec_exc() == old(self).spec_exc(),
            final(self).spec_all_full() == old(self).spec_all_full(),
            final(self).spec_open_parts() == old(self).spec_open_parts(),
            final(self).spec_width() == old(self).spec_width(),
            final(self).spec_lens() == old(self).spec_lens(),
            forall|r: int|
                #![trigger final(self).spec_extra().spec_extra_of(r)]
                final(self).spec_extra().spec_extra_of(r) == if b && !open && old(self).holds(
                    item as int,
                    r,
                ) {
                    0
                } else {
                    old(self).spec_extra().spec_extra_of(r)
                },
            forall|r: int|
                #![trigger final(map).spec_extra_of(r)]
                final(map).spec_extra_of(r) == if b && !open && old(self).holds(item as int, r) {
                    0
                } else {
                    old(map).spec_extra_of(r)
                },
            forall|r: int|
                #![trigger final(map).spec_is_open(r)]
                final(map).spec_is_open(r) == (old(map).spec_is_open(r) && !(b && !open
                    && old(self).holds(item as int, r))),
            old(self).hides_nothing(old(map)) ==> final(self).hides_nothing(final(map)),
            open ==> final(map)@ == old(map)@ && final(self).spec_extra()@ == old(self).spec_extra()@,
            final(self).own_all_open() == old(self).own_all_open(),
    {
        if item >= self.items.len() {
            return false;
        }
        let it = self.items[item];
        if !it.is_group() || it.open == open {
            return false;
        }
        proof {
            lemma_partition_facts(self.items@, self.seen@.len());
        }
        let ghost old_self = *self;
        let ghost map0 = *map;
        if !open {
            let mut extra = RowMap::new();
            std::mem::swap(&mut extra, &mut self.extra);
            let mut r = it.first;
            let end = it.first + it.count;
            while r < end
                invariant
                    it.first <= r <= end,
                    end == it.first + it.count,
                    extra.wf(),
                    map.wf(),
                    forall|x: int|
                        #![trigger extra.spec_extra_of(x)]
                        extra.spec_extra_of(x) == if it.first <= x < r {
                            0
                        } else {
                            old_self.extra.spec_extra_of(x)
                        },
                    forall|x: int|
                        #![trigger map.spec_extra_of(x)]
                        map.spec_extra_of(x) == if it.first <= x < r {
                            0
                        } else {
                            map0.spec_extra_of(x)
                        },
                    forall|x: int|
                        #![trigger map.spec_is_open(x)]
                        map.spec_is_open(x) == (map0.spec_is_open(x) && !(it.first <= x < r)),
                decreases end - r,
            {
                map.close(r);
                extra.close(r);
                r = r + 1;
            }
            std::mem::swap(&mut extra, &mut self.extra);
        } else {
            self.pending.push(item);
        }
        self.items.set(item, Item { first: it.first, count: it.count, step: it.step, open });
        if item < self.dirty {
            self.dirty = item;
        }
        proof {
            Plan::lemma_set_open(old_self, *self, item as int, open);
            lemma_set_open_hides(old_self.items@, item as int, open, &map0, map);
        }
        true
    }
}


/// Folding every group at once.
impl Plan {
    /// No item holds a record past the classified prefix.
    pub proof fn lemma_within(&self, r: int)
        requires
            self.wf(),
            r >= self.spec_classified(),
        ensures
            forall|i: int|
                #![trigger self.spec_items()[i]]
                0 <= i < self.spec_items().len() ==> !(self.spec_items()[i].first <= r
                    < self.spec_items()[i].first + self.spec_items()[i].count),
            forall|i: int| !#[trigger] self.holds(i, r),
    {
        lemma_items_fit(self.items@, self.seen@.len());
    }

    /// Every item lies inside the classified prefix and holds a record.
    pub proof fn lemma_item_fits(&self, i: int)
        requires
            self.wf(),
            0 <= i < self.spec_items().len(),
        ensures
            self.spec_items()[i].count >= 1,
            self.spec_items()[i].first + self.spec_items()[i].count <= self.spec_classified(),
            self.spec_classified() == self.spec_seen().len(),
            self.spec_classified() <= usize::MAX,
    {
        lemma_items_fit(self.items@, self.seen@.len());
    }

    /// Only one item holds a record.
    pub proof fn lemma_one_item(&self, r: int, i: int)
        requires
            self.wf(),
            self.holds(i, r),
        ensures
            forall|j: int| #[trigger] self.holds(j, r) ==> j == i,
            self.item_of(r) == i,
    {
        self.lemma_item_of(r, i);
        assert forall|j: int| #[trigger] self.holds(j, r) implies j == i by {
            self.lemma_item_of(r, j);
        }
    }

    /// Own rows never pass what they would be with every group open.
    pub proof fn lemma_own_fits(&self)
        requires
            self.wf(),
        ensures
            self.own_upto(self.spec_items().len() as int) <= self.own_all_open(),
    {
        lemma_own_mono(self.spec_items(), self.spec_under(), 0, self.spec_items().len() as int);
    }

    /// The plan's bounds keep every row question answerable.
    pub proof fn lemma_bounded(&self, map: &RowMap)
        requires
            self.wf(),
            self.bounded(map),
        ensures
            self.fits(map),
            self.own_upto(self.spec_items().len() as int) <= usize::MAX,
    {
        self.lemma_prefix_bounds(map);
        lemma_own_mono(self.spec_items(), self.spec_under(), 0, self.spec_items().len() as int);
    }

    /// Close every group.
    pub fn close_all(&mut self, map: &mut RowMap)
        requires
            old(self).wf(),
            old(map).wf(),
        ensures
            final(self).wf(),
            final(map).wf(),
            final(self).spec_items().len() == old(self).spec_items().len(),
            forall|i: int|
                0 <= i < old(self).spec_items().len() ==> #[trigger] final(self).spec_items()[i]
                    == if old(self).spec_items()[i].spec_is_group() {
                    Item { open: false, ..old(self).spec_items()[i] }
                } else {
                    old(self).spec_items()[i]
                },
            final(self).spec_seen() == old(self).spec_seen(),
            final(self).spec_under() == old(self).spec_under(),
            final(self).spec_exc() == old(self).spec_exc(),
            final(self).spec_all_full() == old(self).spec_all_full(),
            final(self).spec_open_parts() == old(self).spec_open_parts(),
            final(self).spec_pending() == old(self).spec_pending(),
            final(self).spec_width() == old(self).spec_width(),
            final(self).spec_lens() == old(self).spec_lens(),
            forall|r: int| #[trigger] final(self).spec_extra().spec_extra_of(r) == 0,
            forall|r: int|
                #![trigger final(map).spec_extra_of(r)]
                final(map).spec_extra_of(r) == if old(self).is_member(r) {
                    0
                } else {
                    old(map).spec_extra_of(r)
                },
            old(self).hides_nothing(old(map)) ==> final(self).hides_nothing(final(map)),
            final(self).own_all_open() == old(self).own_all_open(),
    {
        let ghost a = self.items@;
        let ghost p0 = *self;
        let ghost m0 = *map;
        let n = self.items.len();
        let mut i: usize = 0;
        while i < n
            invariant
                0 <= i <= n,
                n == a.len(),
                self.wf(),
                map.wf(),
                self.spec_items().len() == n,
                forall|j: int|
                    0 <= j < n ==> #[trigger] self.spec_items()[j] == if j < i
                        && a[j].spec_is_group() {
                        Item { open: false, ..a[j] }
                    } else {
                        a[j]
                    },
                self.spec_seen() == p0.spec_seen(),
                self.spec_under() == p0.spec_under(),
                self.spec_exc() == p0.spec_exc(),
                self.spec_all_full() == p0.spec_all_full(),
                self.spec_open_parts() == p0.spec_open_parts(),
                self.spec_pending() == p0.spec_pending(),
                self.spec_width() == p0.spec_width(),
                self.spec_lens() == p0.spec_lens(),
                forall|r: int|
                    #![trigger self.spec_extra().spec_extra_of(r)]
                    self.spec_extra().spec_extra_of(r) == if member_of(a.take(i as int), r) {
                        0
                    } else {
                        p0.spec_extra().spec_extra_of(r)
                    },
                forall|r: int|
                    #![trigger map.spec_extra_of(r)]
                    map.spec_extra_of(r) == if member_of(a.take(i as int), r) {
                        0
                    } else {
                        m0.spec_extra_of(r)
                    },
                p0.hides_nothing(&m0) ==> self.hides_nothing(map),
                self.own_all_open() == p0.own_all_open(),
            decreases n - i,
        {
            let ghost before = *self;
            let ghost mb = *map;
            assert(self.spec_items()[i as int] == a[i as int]);
            self.set_open(i, false, map);
            proof {
                assert forall|r: int| #[trigger] member_of(a.take(i + 1), r) == (member_of(
                    a.take(i as int),
                    r,
                ) || before.holds(i as int, r) && a[i as int].spec_is_group() && a[i as int].open) by {
                    if member_of(a.take(i + 1), r) {
                        let j = choose|j: int|
                            0 <= j < a.take(i + 1).len() && (#[trigger] a.take(i + 1)[j]).spec_is_group()
                                && a.take(i + 1)[j].open && a.take(i + 1)[j].first <= r
                                < a.take(i + 1)[j].first + a.take(i + 1)[j].count;
                        if j < i {
                            assert(a.take(i as int)[j] == a.take(i + 1)[j]);
                        }
                    }
                    if member_of(a.take(i as int), r) {
                        let j = choose|j: int|
                            0 <= j < a.take(i as int).len() && (#[trigger] a.take(
                                i as int,
                            )[j]).spec_is_group() && a.take(i as int)[j].open && a.take(
                                i as int,
                            )[j].first <= r < a.take(i as int)[j].first + a.take(i as int)[j].count;
                        assert(a.take(i + 1)[j] == a.take(i as int)[j]);
                    }
                    if before.holds(i as int, r) && a[i as int].spec_is_group() && a[i as int].open {
                        assert(a.take(i + 1)[i as int] == a[i as int]);
                    }
                }
                assert forall|j: int| 0 <= j < n implies #[trigger] self.spec_items()[j] == if j < i
                    + 1 && a[j].spec_is_group() {
                    Item { open: false, ..a[j] }
                } else {
                    a[j]
                } by {
                    if j == i {
                        assert(before.spec_items()[j] == a[j]);
                    }
                }
            }
            i = i + 1;
        }
        proof {
            assert(a.take(n as int) =~= a);
            assert forall|r: int| #[trigger] self.spec_extra().spec_extra_of(r) == 0 by {
                if p0.spec_extra().spec_extra_of(r) > 0 {
                    p0.lemma_members(r);
                }
            }
        }
    }
}


/// Opening as far as the reader has got.
impl Plan {
    /// Row questions about item `j` depend only on the items before it.
    proof fn lemma_row_start_frame(p: &Plan, q: &Plan, map: &RowMap, j: int)
        requires
            0 <= j <= p.spec_items().len(),
            j <= q.spec_items().len(),
            forall|k: int| 0 <= k < j ==> #[trigger] p.spec_items()[k] == q.spec_items()[k],
            p.spec_under() == q.spec_under(),
            p.spec_extra()@ == q.spec_extra()@,
        ensures
            p.row_start(map, j) == q.row_start(map, j),
    {
        let a = p.spec_items();
        let b = q.spec_items();
        assert forall|k: int| 0 <= k < j implies #[trigger] a[k] == b[k] by {}
        assert forall|k: int| 0 <= k < j implies p.spec_under()[#[trigger] a[k].first as int]
            == q.spec_under()[a[k].first as int] by {}
        lemma_before_frame(a, p.spec_under(), b, q.spec_under(), j);
    }

    /// The first `k` items start at or before `upto`, and no other does.
    pub open spec fn reaches(&self, map: &RowMap, upto: int, k: int) -> bool {
        &&& forall|j: int| 0 <= j < k ==> #[trigger] self.row_start(map, j) <= upto
        &&& k < self.spec_items().len() ==> self.row_start(map, k) > upto
    }

    /// Open every group up to and including the one on `upto_row`, so opening
    /// everything opens what the reader can see rather than the whole file.
    pub fn open_upto(&mut self, upto_row: usize, map: &mut RowMap)
        requires
            old(self).wf(),
            old(map).wf(),
            old(self).bounded(old(map)),
        ensures
            final(self).wf(),
            final(self).synced(),
            final(map).wf(),
            final(map)@ == old(map)@,
            final(self).spec_items().len() == old(self).spec_items().len(),
            forall|i: int|
                0 <= i < old(self).spec_items().len() ==> #[trigger] final(self).spec_items()[i]
                    == (Item {
                    open: old(self).spec_items()[i].open || (
                    old(self).spec_items()[i].spec_is_group() && final(self).row_start(final(map), i)
                        <= upto_row),
                    ..old(self).spec_items()[i]
                }),
            exists|k: int|
                0 <= k <= old(self).spec_items().len() && #[trigger] final(self).reaches(
                    final(map),
                    upto_row as int,
                    k,
                ) && final(self).spec_pending() == old(self).spec_pending() + opened(
                    old(self).spec_items(),
                    k,
                ),
            final(self).spec_seen() == old(self).spec_seen(),
            final(self).spec_under() == old(self).spec_under(),
            final(self).spec_exc() == old(self).spec_exc(),
            final(self).spec_all_full() == old(self).spec_all_full(),
            final(self).spec_open_parts() == old(self).spec_open_parts(),
            final(self).spec_width() == old(self).spec_width(),
            final(self).spec_lens() == old(self).spec_lens(),
            final(self).spec_extra()@ == old(self).spec_extra()@,
    {
        let ghost a = self.items@;
        let ghost p0 = *self;
        let ghost m0 = *map;
        let n = self.items.len();
        let mut i: usize = 0;
        while i < n
            invariant
                0 <= i <= n,
                n == a.len(),
                a == old(self).spec_items(),
                p0 == *old(self),
                self.wf(),
                map.wf(),
                map@ == old(map)@,
                self.bounded(map),
                self.spec_items().len() == n,
                forall|j: int|
                    0 <= j < n ==> #[trigger] self.spec_items()[j] == (if j < i {
                        Item { open: a[j].open || a[j].spec_is_group(), ..a[j] }
                    } else {
                        a[j]
                    }),
                forall|j: int| 0 <= j < i ==> #[trigger] self.row_start(map, j) <= upto_row,
                self.spec_pending() == p0.spec_pending() + opened(a, i as int),
                self.spec_seen() == p0.spec_seen(),
                self.spec_under() == p0.spec_under(),
                self.spec_exc() == p0.spec_exc(),
                self.spec_all_full() == p0.spec_all_full(),
                self.spec_open_parts() == p0.spec_open_parts(),
                self.spec_width() == p0.spec_width(),
                self.spec_lens() == p0.spec_lens(),
                self.spec_extra()@ == p0.spec_extra()@,
            decreases n - i,
        {
            proof {
                self.lemma_bounded(map);
            }
            let ghost unsynced = *self;
            self.sync();
            proof {
                self.lemma_bounded(map);
                assert forall|j: int| 0 <= j < i implies #[trigger] self.row_start(map, j)
                    <= upto_row by {
                    assert(unsynced.row_start(map, j) <= upto_row);
                    Plan::lemma_row_start_frame(&unsynced, self, map, j);
                }
            }
            let at = self.row_of_item(i, map);
            if at > upto_row {
                proof {
                    assert forall|j: int| i <= j < n implies #[trigger] self.row_start(map, j)
                        > upto_row by {
                        self.lemma_row_start_mono(map, i as int, j);
                    }
                    assert forall|j: int| 0 <= j < n implies #[trigger] self.spec_items()[j]
                        == Item {
                        open: a[j].open || (a[j].spec_is_group() && self.row_start(map, j)
                            <= upto_row),
                        ..a[j]
                    } by {
                        if j < i {
                            assert(self.row_start(map, j) <= upto_row);
                        } else {
                            assert(self.row_start(map, j) > upto_row);
                        }
                    }
                    assert(self.reaches(map, upto_row as int, i as int));
                }
                return ;
            }
            let ghost before = *self;
            let ghost mb = *map;
            assert(forall|j: int| 0 <= j < i ==> #[trigger] before.row_start(&mb, j) <= upto_row);
            assert(before.row_start(&mb, i as int) <= upto_row);
            assert(self.spec_items()[i as int] == a[i as int]);
            self.set_open(i, true, map);
            proof {
                assert forall|j: int| 0 <= j < i + 1 implies #[trigger] self.row_start(map, j)
                    <= upto_row by {
                    assert(before.row_start(&mb, j) <= upto_row);
                    assert(before.row_start(&mb, j) == before.row_start(map, j));
                    assert forall|k: int| 0 <= k < j implies #[trigger] before.spec_items()[k]
                        == self.spec_items()[k] by {}
                    Plan::lemma_row_start_frame(&before, self, map, j);
                }
                assert(opened(a, i + 1) == opened(a, i as int) + if a[i as int].spec_is_group()
                    && !a[i as int].open {
                    seq![i]
                } else {
                    Seq::<usize>::empty()
                });
                assert(self.spec_pending() =~= p0.spec_pending() + opened(a, i + 1));
                assert forall|j: int| 0 <= j < n implies #[trigger] self.spec_items()[j] == if j < i
                    + 1 {
                    Item { open: a[j].open || a[j].spec_is_group(), ..a[j] }
                } else {
                    a[j]
                } by {}
                lemma_open_frame(before.spec_items(), self.spec_items(), self.spec_under(), n as int);
            }
            i = i + 1;
        }
        proof {
            self.lemma_bounded(map);
        }
        let ghost unsynced = *self;
        self.sync();
        proof {
            assert forall|j: int| 0 <= j < n implies #[trigger] self.row_start(map, j) <= upto_row by {
                assert(unsynced.row_start(map, j) <= upto_row);
                Plan::lemma_row_start_frame(&unsynced, self, map, j);
            }
            assert forall|j: int| 0 <= j < n implies #[trigger] self.spec_items()[j] == Item {
                open: a[j].open || (a[j].spec_is_group() && self.row_start(map, j) <= upto_row),
                ..a[j]
            } by {
                assert(self.row_start(map, j) <= upto_row);
            }
            assert(self.reaches(map, upto_row as int, n as int));
        }
    }
}


/// What a record shows under its own row: the level it is at, the call that is
/// open, and the heights the caller measured.
impl Plan {
    /// Everything after item `i` may have moved.
    fn mark(&mut self, i: usize)
        requires
            old(self).wf(),
        ensures
            final(self).wf(),
            final(self).same_model(old(self)),
            final(self).dirty == if i < old(self).dirty {
                i
            } else {
                old(self).dirty
            },
    {
        if i < self.dirty {
            proof {
                lemma_totals_frame(
                    self.starts@,
                    self.bstarts@,
                    self.dirty as int,
                    i as int,
                    self.items@,
                    self.under@,
                    self.items@,
                    self.under@,
                );
            }
            self.dirty = i;
        }
    }

    /// Everything after `record`'s item may have moved.
    fn mark_record(&mut self, record: usize)
        requires
            old(self).wf(),
        ensures
            final(self).wf(),
            final(self).same_model(old(self)),
            record >= old(self).spec_classified() ==> final(self).dirty == old(self).dirty,
            forall|i: int|
                #[trigger] old(self).holds(i, record as int) ==> final(self).dirty == if i < old(self).dirty {
                    i as usize
                } else {
                    old(self).dirty
                },
    {
        let ghost before = *self;
        if let Some(i) = self.item_of_record(record) {
            proof {
                before.lemma_one_item(record as int, i as int);
            }
            self.mark(i);
        } else {
            proof {
                before.lemma_within(record as int);
            }
        }
    }

    /// Columns the text under rows is laid out for.
    pub fn width(&self) -> (w: usize)
        ensures
            w == self.spec_width(),
    {
        self.width
    }

    /// A new layout width, never less than one column. True when it changed:
    /// the caller's cue to measure every record again before asking a row
    /// question, since text is wrapped and a resize moves rows as no fold does.
    pub fn set_width(&mut self, cols: usize) -> (b: bool)
        requires
            old(self).wf(),
        ensures
            final(self).wf(),
            b == (old(self).spec_width() != if cols == 0 {
                1
            } else {
                cols
            }),
            final(self).spec_width() == if cols == 0 {
                1
            } else {
                cols
            },
            final(self).spec_items() == old(self).spec_items(),
            final(self).spec_under() == old(self).spec_under(),
            final(self).spec_seen() == old(self).spec_seen(),
            final(self).spec_classified() == old(self).spec_classified(),
            final(self).spec_exc() == old(self).spec_exc(),
            final(self).spec_all_full() == old(self).spec_all_full(),
            final(self).spec_open_parts() == old(self).spec_open_parts(),
            final(self).spec_pending() == old(self).spec_pending(),
            final(self).spec_lens() == old(self).spec_lens(),
            final(self).spec_extra()@ == old(self).spec_extra()@,
    {
        let cols = if cols == 0 {
            1
        } else {
            cols
        };
        if self.width == cols {
            return false;
        }
        self.width = cols;
        self.mark(0);
        true
    }

    /// Record `r` is at the open level: its text whole, its calls listed.
    pub open spec fn spec_full_at(&self, r: int) -> bool {
        (0 <= r < self.spec_exc().len() && self.spec_exc()[r]) != self.spec_all_full()
    }

    /// Is `record` at the **open** level? An exception to the document-wide
    /// default rather than a state of its own, so that "everything, now" and
    /// one record clipping again afterwards never disagree.
    pub fn full_at(&self, record: usize) -> (b: bool)
        requires
            self.wf(),
        ensures
            b == self.spec_full_at(record as int),
    {
        let e = if record < self.exc.len() {
            self.exc[record]
        } else {
            false
        };
        e != self.all_full
    }

    /// `parts` without the call of `record`: a record leaving the open level
    /// takes its open call with it.
    pub open spec fn parts_without(parts: Seq<(usize, usize)>, record: int) -> Seq<(usize, usize)> {
        if parts.len() == 1 && parts[0].0 == record {
            Seq::empty()
        } else {
            parts
        }
    }

    /// Put `record` at the open level, or back to its clip; true when it moved.
    pub fn set_full(&mut self, record: usize, full: bool) -> (b: bool)
        requires
            old(self).wf(),
        ensures
            final(self).wf(),
            b == (record < old(self).spec_classified() && old(self).spec_full_at(record as int)
                != full),
            final(self).spec_full_at(record as int) == (if b {
                full
            } else {
                old(self).spec_full_at(record as int)
            }),
            final(self).spec_exc() == if b {
                old(self).spec_exc().update(record as int, !old(self).spec_exc()[record as int])
            } else {
                old(self).spec_exc()
            },
            final(self).spec_open_parts() == if b && !full {
                Plan::parts_without(old(self).spec_open_parts(), record as int)
            } else {
                old(self).spec_open_parts()
            },
            final(self).spec_items() == old(self).spec_items(),
            final(self).spec_under() == old(self).spec_under(),
            final(self).spec_seen() == old(self).spec_seen(),
            final(self).spec_all_full() == old(self).spec_all_full(),
            final(self).spec_pending() == old(self).spec_pending(),
            final(self).spec_width() == old(self).spec_width(),
            final(self).spec_lens() == old(self).spec_lens(),
            final(self).spec_extra()@ == old(self).spec_extra()@,
    {
        if record >= self.exc.len() || self.full_at(record) == full {
            return false;
        }
        let e = self.exc[record];
        self.exc.set(record, !e);
        if !full && self.open_parts.len() == 1 && self.open_parts[0].0 == record {
            self.open_parts.clear();
        }
        proof {
            assert(self.open_parts@ =~= Plan::parts_without(old(self).open_parts@, record as int)
                || full);
        }
        self.mark_record(record);
        true
    }

    /// Every record at the open level, or every record back to its clip. The
    /// exceptions go either way, and so does an open call: this is
    /// "everything, now", and every call is still one row that opens.
    pub fn set_all_full(&mut self, full: bool)
        requires
            old(self).wf(),
        ensures
            final(self).wf(),
            final(self).spec_all_full() == full,
            final(self).spec_exc() == Seq::new(old(self).spec_exc().len(), |i: int| false),
            final(self).spec_open_parts().len() == 0,
            final(self).spec_items() == old(self).spec_items(),
            final(self).spec_under() == old(self).spec_under(),
            final(self).spec_seen() == old(self).spec_seen(),
            final(self).spec_pending() == old(self).spec_pending(),
            final(self).spec_width() == old(self).spec_width(),
            final(self).spec_lens() == old(self).spec_lens(),
            final(self).spec_extra()@ == old(self).spec_extra()@,
    {
        self.all_full = full;
        let mut exc: Vec<bool> = Vec::new();
        std::mem::swap(&mut exc, &mut self.exc);
        let n = exc.len();
        let mut i: usize = 0;
        while i < n
            invariant
                0 <= i <= n,
                n == exc@.len(),
                forall|j: int| 0 <= j < i ==> !(#[trigger] exc@[j]),
            decreases n - i,
        {
            exc.set(i, false);
            i = i + 1;
        }
        std::mem::swap(&mut exc, &mut self.exc);
        self.open_parts.clear();
        proof {
            assert(self.exc@ =~= Seq::new(n as nat, |i: int| false));
        }
        self.mark(0);
    }

    /// Is call `part` of `record` showing its arguments and its output?
    pub fn part_open(&self, record: usize, part: usize) -> (b: bool)
        ensures
            b == self.spec_open_parts().contains((record, part)),
    {
        let mut i: usize = 0;
        while i < self.open_parts.len()
            invariant
                0 <= i <= self.open_parts@.len(),
                forall|j: int| 0 <= j < i ==> self.open_parts@[j] != (record, part),
            decreases self.open_parts@.len() - i,
        {
            if self.open_parts[i].0 == record && self.open_parts[i].1 == part {
                return true;
            }
            i = i + 1;
        }
        false
    }

    /// The record whose call is open, if any: one at a time, so at most one.
    pub fn open_part_record(&self) -> (r: Option<usize>)
        ensures
            r == if self.spec_open_parts().len() == 0 {
                None
            } else {
                Some(self.spec_open_parts()[0].0)
            },
    {
        if self.open_parts.len() == 0 {
            None
        } else {
            Some(self.open_parts[0].0)
        }
    }

    /// Open or shut one call; true when it changed. **One call opens at a
    /// time**: opening one shuts whichever was open, wherever it was.
    pub fn set_part_open(&mut self, record: usize, part: usize, open: bool) -> (b: bool)
        requires
            old(self).wf(),
        ensures
            final(self).wf(),
            b == (old(self).spec_open_parts().contains((record, part)) != open),
            final(self).spec_open_parts() == if !b {
                old(self).spec_open_parts()
            } else if open {
                seq![(record, part)]
            } else {
                Seq::<(usize, usize)>::empty()
            },
            final(self).spec_items() == old(self).spec_items(),
            final(self).spec_under() == old(self).spec_under(),
            final(self).spec_seen() == old(self).spec_seen(),
            final(self).spec_exc() == old(self).spec_exc(),
            final(self).spec_all_full() == old(self).spec_all_full(),
            final(self).spec_pending() == old(self).spec_pending(),
            final(self).spec_width() == old(self).spec_width(),
            final(self).spec_lens() == old(self).spec_lens(),
            final(self).spec_extra()@ == old(self).spec_extra()@,
    {
        let is_open = self.part_open(record, part);
        if is_open == open {
            return false;
        }
        if !open {
            proof {
                assert(self.open_parts@.len() == 1);
            }
            self.open_parts.clear();
            self.mark_record(record);
            return true;
        }
        if self.open_parts.len() == 1 {
            let shut = self.open_parts[0].0;
            self.mark_record(shut);
        }
        self.open_parts.clear();
        self.open_parts.push((record, part));
        proof {
            assert(self.open_parts@ =~= seq![(record, part)]);
        }
        self.mark_record(record);
        true
    }

    /// The text under `record`'s row, and whether it is shown whole. `None`
    /// for a record the lens did not read and one with nothing to say.
    pub fn body_of(&self, record: usize) -> (r: Option<(&String, bool)>)
        requires
            self.wf(),
        ensures
            r == if record < self.spec_classified() {
                match self.spec_seen()[record as int] {
                    Some(s) => match s.body {
                        Some(b) => Some((&b, self.spec_full_at(record as int))),
                        None => None,
                    },
                    None => None,
                }
            } else {
                None
            },
    {
        if record >= self.seen.len() {
            return None;
        }
        match &self.seen[record] {
            Some(s) => match &s.body {
                Some(b) => Some((b, self.full_at(record))),
                None => None,
            },
            None => None,
        }
    }

    /// Rows `record` shows under its own row, by kind.
    pub fn under_of(&self, record: usize) -> (u: Under)
        ensures
            u == if record < self.spec_under().len() {
                self.spec_under()[record as int]
            } else {
                Under { body: 0, parts: 0 }
            },
    {
        if record < self.under.len() {
            self.under[record]
        } else {
            Under { body: 0, parts: 0 }
        }
    }

    /// Rows `record` shows under its own row, in total.
    pub fn under_rows(&self, record: usize) -> (n: usize)
        requires
            self.wf(),
        ensures
            n == if record < self.spec_under().len() {
                self.spec_under()[record as int].spec_rows()
            } else {
                0
            },
    {
        let u = self.under_of(record);
        proof {
            if record < self.under@.len() {
                lemma_unders_update(self.under@, record as int, Under { body: 0, parts: 0 });
            }
        }
        u.rows()
    }

    /// Groups opened since this was last asked, for the caller to measure the
    /// members of. Draining, because measuring is the answer to it.
    pub fn take_pending(&mut self) -> (v: Vec<usize>)
        requires
            old(self).wf(),
        ensures
            final(self).wf(),
            v@ == old(self).spec_pending(),
            final(self).spec_pending().len() == 0,
            final(self).spec_items() == old(self).spec_items(),
            final(self).spec_under() == old(self).spec_under(),
            final(self).spec_seen() == old(self).spec_seen(),
            final(self).spec_exc() == old(self).spec_exc(),
            final(self).spec_all_full() == old(self).spec_all_full(),
            final(self).spec_open_parts() == old(self).spec_open_parts(),
            final(self).spec_width() == old(self).spec_width(),
            final(self).spec_lens() == old(self).spec_lens(),
            final(self).spec_extra()@ == old(self).spec_extra()@,
    {
        let mut v: Vec<usize> = Vec::new();
        std::mem::swap(&mut v, &mut self.pending);
        v
    }
}


/// The heights a caller measures, and the text an item shows.
impl Plan {
    /// Is `record` a member of a group that is open?
    pub fn in_open_group(&self, record: usize) -> (b: bool)
        requires
            self.wf(),
        ensures
            b == self.is_member(record as int),
    {
        match self.item_of_record(record) {
            Some(i) => {
                let it = self.items[i];
                proof {
                    if self.is_member(record as int) {
                        let j = choose|j: int|
                            0 <= j < self.spec_items().len() && (#[trigger] self.spec_items()[j]).spec_is_group()
                                && self.spec_items()[j].open && self.spec_items()[j].first <= record
                                < self.spec_items()[j].first + self.spec_items()[j].count;
                        self.lemma_item_of(record as int, j);
                        self.lemma_item_of(record as int, i as int);
                    }
                }
                it.is_group() && it.open
            },
            None => {
                proof {
                    lemma_partition_facts(self.items@, self.seen@.len());
                }
                false
            },
        }
    }

    /// Tell the plan how tall `record`'s text and calls are at the current
    /// width; the measuring is the caller's, which can read the record.
    /// `member` says the record sits inside a group the reader has opened, in
    /// which case its rows go into the second prefix sum rather than into its
    /// item's own; a record that is not in fact such a member keeps its rows
    /// in its item's own.
    pub fn set_under(&mut self, record: usize, under: Under, member: bool)
        requires
            old(self).wf(),
            under.body + under.parts <= usize::MAX,
            member ==> total(old(self).spec_extra()@) + under.body + under.parts <= usize::MAX,
        ensures
            final(self).wf(),
            final(self).spec_under() == if record < old(self).spec_classified() {
                old(self).spec_under().update(record as int, under)
            } else {
                old(self).spec_under()
            },
            forall|r: int|
                #![trigger final(self).spec_extra().spec_extra_of(r)]
                final(self).spec_extra().spec_extra_of(r) == if r == record && member
                    && old(self).is_member(r) {
                    under.spec_rows()
                } else {
                    old(self).spec_extra().spec_extra_of(r)
                },
            final(self).spec_items() == old(self).spec_items(),
            final(self).spec_seen() == old(self).spec_seen(),
            final(self).spec_exc() == old(self).spec_exc(),
            final(self).spec_all_full() == old(self).spec_all_full(),
            final(self).spec_open_parts() == old(self).spec_open_parts(),
            final(self).spec_pending() == old(self).spec_pending(),
            final(self).spec_width() == old(self).spec_width(),
            final(self).spec_lens() == old(self).spec_lens(),
    {
        let i = match self.item_of_record(record) {
            Some(i) => i,
            None => {
                proof {
                    lemma_partition_facts(self.items@, self.seen@.len());
                    if self.is_member(record as int) {
                        let j = choose|j: int|
                            0 <= j < self.spec_items().len() && (#[trigger] self.spec_items()[j]).spec_is_group()
                                && self.spec_items()[j].open && self.spec_items()[j].first <= record
                                < self.spec_items()[j].first + self.spec_items()[j].count;
                        assert(self.spec_items()[j].first + self.spec_items()[j].count <= self.spec_classified());
                    }
                }
                return ;
            },
        };
        let joined = member && self.in_open_group(record);
        self.mark(i);
        let ghost p = *self;
        proof {
            lemma_partition_facts(self.items@, self.seen@.len());
            assert forall|j: int| 0 <= j < self.dirty implies self.under@[#[trigger] self.items@[j].first as int]
                == self.under@.update(record as int, under)[self.items@[j].first as int] by {
                assert(self.spec_items()[j].first + self.spec_items()[j].count == self.first_of(j + 1));
                self.lemma_first_mono(j + 1, i as int);
            }
            lemma_totals_frame(
                self.starts@,
                self.bstarts@,
                self.dirty as int,
                self.dirty as int,
                self.items@,
                self.under@,
                self.items@,
                self.under@.update(record as int, under),
            );
            lemma_unders_update(self.under@, record as int, under);
        }
        self.under.set(record, under);
        if joined {
            let ghost e0 = self.extra;
            self.extra.close(record);
            self.extra.open(record, under.rows());
            proof {
                reveal(members_only);
                assert forall|r: int| #[trigger] self.extra.spec_extra_of(r) > 0 implies member_of(
                    self.items@,
                    r,
                ) by {
                    if r != record {
                        assert(e0.spec_extra_of(r) > 0);
                        p.lemma_members(r);
                    }
                }
            }
        }
    }

    /// The text under item `item`'s row, and whether it is shown whole:
    /// `None` for a group, and for a record with nothing to say.
    pub fn body_at(&self, item: usize) -> (r: Option<(&String, bool)>)
        requires
            self.wf(),
        ensures
            r == if item < self.spec_items().len() && !self.spec_items()[item as int].spec_is_group() {
                match self.spec_seen()[self.spec_items()[item as int].first as int] {
                    Some(s) => match s.body {
                        Some(b) => Some((&b, self.spec_full_at(self.spec_items()[item as int].first as int))),
                        None => None,
                    },
                    None => None,
                }
            } else {
                None
            },
    {
        if item >= self.items.len() {
            return None;
        }
        let it = self.items[item];
        if it.is_group() {
            return None;
        }
        proof {
            lemma_partition_facts(self.items@, self.seen@.len());
        }
        self.body_of(it.first)
    }

    /// Rows the text under item `item` occupies at the current width: `0` for
    /// a group, whose members' text is their own.
    pub fn body_rows(&self, item: usize) -> (n: usize)
        requires
            self.wf(),
        ensures
            n == if item < self.spec_items().len() && !self.spec_items()[item as int].spec_is_group() {
                self.spec_under()[self.spec_items()[item as int].first as int].body as int
            } else {
                0
            },
    {
        if item >= self.items.len() {
            return 0;
        }
        let it = self.items[item];
        if it.is_group() {
            return 0;
        }
        proof {
            lemma_partition_facts(self.items@, self.seen@.len());
        }
        self.under[it.first].body
    }

    /// Tell the plan how tall item `item`'s message is: the body rows under
    /// the record a plain item stands for. A group has no message of its own
    /// and is left alone, as is an item the plan does not have.
    pub fn set_body(&mut self, item: usize, rows: usize)
        requires
            old(self).wf(),
            item < old(self).spec_items().len() && !old(self).spec_items()[item as int].spec_is_group()
                ==> rows + old(self).spec_under()[old(self).spec_items()[item as int].first as int].parts
                <= usize::MAX,
        ensures
            final(self).wf(),
            final(self).spec_items() == old(self).spec_items(),
            final(self).spec_seen() == old(self).spec_seen(),
            final(self).spec_under() == if item < old(self).spec_items().len()
                && !old(self).spec_items()[item as int].spec_is_group() {
                old(self).spec_under().update(
                    old(self).spec_items()[item as int].first as int,
                    Under {
                        body: rows,
                        ..old(self).spec_under()[old(self).spec_items()[item as int].first as int]
                    },
                )
            } else {
                old(self).spec_under()
            },
    {
        if item >= self.items.len() {
            return ;
        }
        let it = self.items[item];
        if it.is_group() {
            return ;
        }
        proof {
            lemma_partition_facts(self.items@, self.seen@.len());
        }
        let parts = self.under[it.first].parts;
        self.set_under(it.first, Under { body: rows, parts }, false);
    }
}


/// Blocks: the units the reader steps by. An item is one block, but an open
/// group is its own row and then one block per member, each member's block
/// being its summary row and everything under it.
impl Plan {
    /// Block `b` is one of item `i`'s blocks.
    pub open spec fn in_blocks(&self, b: int, i: int) -> bool {
        0 <= i < self.spec_items().len() && self.blocks_upto(i) <= b < self.blocks_upto(i + 1)
    }

    /// The item block `b` belongs to.
    pub open spec fn item_of_block(&self, b: int) -> int {
        choose|i: int| #[trigger] self.in_blocks(b, i)
    }

    /// Blocks in the classified prefix.
    pub open spec fn spec_blocks(&self) -> nat {
        self.blocks_upto(self.spec_items().len() as int)
    }

    /// The first row of block `b`; for `b` one past the last block, the first
    /// row after the classified prefix.
    pub open spec fn block_start(&self, map: &RowMap, b: int) -> int {
        if b >= self.spec_blocks() {
            self.spec_prefix(map) as int
        } else {
            let i = self.item_of_block(b);
            let j = b - self.blocks_upto(i);
            if j == 0 {
                self.row_start(map, i) as int
            } else {
                self.row_start(map, i) + 1 + self.member_start(map, i, j - 1)
            }
        }
    }

    /// Row `row` is one of block `b`'s rows.
    pub open spec fn in_block(&self, map: &RowMap, row: int, b: int) -> bool {
        0 <= b < self.spec_blocks() && self.block_start(map, b) <= row < self.block_start(map, b + 1)
    }

    /// The block whose rows contain `row`.
    pub open spec fn block_index(&self, map: &RowMap, row: int) -> int {
        choose|b: int| #[trigger] self.in_block(map, row, b)
    }

    /// The item a block lies in is the one `item_of_block` names.
    proof fn lemma_item_of_block(&self, b: int, i: int)
        requires
            self.in_blocks(b, i),
        ensures
            self.item_of_block(b) == i,
    {
        let k = self.item_of_block(b);
        assert(self.in_blocks(b, k));
        if k < i {
            lemma_own_mono(self.spec_items(), self.spec_under(), k + 1, i);
        } else if i < k {
            lemma_own_mono(self.spec_items(), self.spec_under(), i + 1, k);
        }
    }

    /// Where block `j` of item `i` starts, and where the next block starts.
    proof fn lemma_block_start_in(&self, map: &RowMap, i: int, j: int)
        requires
            self.wf(),
            0 <= i < self.spec_items().len(),
            0 <= j < blocks_of(self.spec_items()[i]),
        ensures
            self.block_start(map, self.blocks_upto(i) + j) == if j == 0 {
                self.row_start(map, i) as int
            } else {
                self.row_start(map, i) + 1 + self.member_start(map, i, j - 1)
            },
            self.block_start(map, self.blocks_upto(i) + j + 1) == if j + 1 == blocks_of(
                self.spec_items()[i],
            ) {
                self.row_start(map, i + 1) as int
            } else {
                self.row_start(map, i) + 1 + self.member_start(map, i, j)
            },
            self.block_start(map, self.blocks_upto(i) + j) < self.block_start(
                map,
                self.blocks_upto(i) + j + 1,
            ),
    {
        let n = self.spec_items().len() as int;
        let b = self.blocks_upto(i) + j;
        lemma_own_mono(self.spec_items(), self.spec_under(), i + 1, n);
        assert(self.in_blocks(b, i));
        self.lemma_item_of_block(b, i);
        self.lemma_row_start_step(map, i);
        let it = self.spec_items()[i];
        if it.spec_is_group() && it.open {
            self.lemma_open_group_rows(map, i);
            self.lemma_member_step(map, i, j);
            if j > 0 {
                self.lemma_member_step(map, i, j - 1);
            }
            self.lemma_member_mono(map, i, j, it.count as int);
        }
        if j + 1 < blocks_of(it) {
            assert(self.in_blocks(b + 1, i));
            self.lemma_item_of_block(b + 1, i);
        } else if i + 1 < n {
            lemma_own_mono(self.spec_items(), self.spec_under(), i + 2, n);
            assert(self.in_blocks(b + 1, i + 1));
            self.lemma_item_of_block(b + 1, i + 1);
        }
    }

    /// Every block lies in an item.
    proof fn lemma_block_in_item(&self, b: int, k: int)
        requires
            self.wf(),
            0 <= k <= self.spec_items().len(),
            0 <= b < self.blocks_upto(k),
        ensures
            exists|i: int| 0 <= i < k && #[trigger] self.in_blocks(b, i),
        decreases k,
    {
        if b < self.blocks_upto(k - 1) {
            self.lemma_block_in_item(b, k - 1);
        } else {
            assert(self.in_blocks(b, k - 1));
        }
    }

    /// Blocks start on strictly increasing rows.
    proof fn lemma_block_start_mono(&self, map: &RowMap, b1: int, b2: int)
        requires
            self.wf(),
            0 <= b1 <= b2 <= self.spec_blocks(),
        ensures
            self.block_start(map, b1) + (b2 - b1) <= self.block_start(map, b2),
        decreases b2 - b1,
    {
        if b1 < b2 {
            self.lemma_block_start_mono(map, b1 + 1, b2);
            self.lemma_block_in_item(b1, self.spec_items().len() as int);
            let i = choose|i: int| 0 <= i < self.spec_items().len() && #[trigger] self.in_blocks(b1, i);
            self.lemma_block_start_in(map, i, b1 - self.blocks_upto(i));
        }
    }

    /// The block containing a row is the one `block_index` names.
    proof fn lemma_block_index(&self, map: &RowMap, row: int, b: int)
        requires
            self.wf(),
            self.in_block(map, row, b),
        ensures
            self.block_index(map, row) == b,
    {
        let c = self.block_index(map, row);
        assert(self.in_block(map, row, c));
        if c < b {
            self.lemma_block_start_mono(map, c + 1, b);
        } else if b < c {
            self.lemma_block_start_mono(map, b + 1, c);
        }
    }
}


/// Answering block questions.
impl Plan {
    /// Blocks in the classified prefix.
    pub fn blocks(&self, map: &RowMap) -> (n: usize)
        requires
            self.wf(),
            self.synced(),
            map.wf(),
            self.fits(map),
        ensures
            n == self.spec_blocks(),
    {
        let n = self.items.len();
        if n == 0 {
            return 0;
        }
        proof {
            self.lemma_totals(n - 1);
            self.lemma_prefix_bounds(map);
            lemma_own_mono(self.spec_items(), self.spec_under(), n as int, n as int);
        }
        self.bstarts[n - 1] + self.blocks_in(n - 1)
    }

    /// The first row of block `b`; one past the last block, the first row after
    /// the classified prefix.
    fn block_first_row(&self, b: usize, map: &RowMap) -> (row: usize)
        requires
            self.wf(),
            self.synced(),
            map.wf(),
            self.fits(map),
            b <= self.spec_blocks(),
        ensures
            row == self.block_start(map, b as int),
    {
        let total = self.blocks(map);
        if b >= total {
            return self.prefix_rows(map);
        }
        let n = self.items.len();
        let mut lo: usize = 0;
        let mut hi: usize = n - 1;
        proof {
            self.lemma_totals(0);
        }
        while lo < hi
            invariant
                self.wf(),
                self.synced(),
                n == self.spec_items().len(),
                lo <= hi < n,
                self.blocks_upto(lo as int) <= b,
                b < self.blocks_upto(hi + 1),
            decreases hi - lo,
        {
            let mid = lo + (hi - lo + 1) / 2;
            proof {
                self.lemma_totals(mid as int);
            }
            if self.bstarts[mid] <= b {
                lo = mid;
            } else {
                hi = mid - 1;
            }
        }
        proof {
            self.lemma_totals(lo as int);
            self.lemma_block_first_row(map, lo as int, b as int);
        }
        let j = b - self.bstarts[lo];
        assert(j as int == b - self.blocks_upto(lo as int));
        let base = self.start_of(lo, map);
        if j == 0 {
            base
        } else {
            let m = self.member_offset(lo, j - 1, map);
            assert(base + 1 + m == self.block_start(map, b as int));
            base + 1 + m
        }
    }

    /// What finding block `b` in item `i` needs to know.
    proof fn lemma_block_first_row(&self, map: &RowMap, i: int, b: int)
        requires
            self.wf(),
            self.fits(map),
            0 <= i < self.spec_items().len(),
            self.blocks_upto(i) <= b < self.blocks_upto(i + 1),
        ensures
            b - self.blocks_upto(i) > 0 ==> self.spec_items()[i].spec_is_group()
                && self.spec_items()[i].open && b - self.blocks_upto(i) - 1
                < self.spec_items()[i].count,
            self.block_start(map, b) == if b == self.blocks_upto(i) {
                self.row_start(map, i) as int
            } else {
                self.row_start(map, i) + 1 + self.member_start(map, i, b - self.blocks_upto(i) - 1)
            },
            self.block_start(map, b) <= usize::MAX,
    {
        let n = self.spec_items().len() as int;
        lemma_own_mono(self.spec_items(), self.spec_under(), i + 1, n);
        self.lemma_block_start_in(map, i, b - self.blocks_upto(i));
        self.lemma_block_start_mono(map, b, self.spec_blocks() as int);
        self.lemma_prefix_bounds(map);
    }

    /// The index of the block `row` falls in; `None` past the classified
    /// prefix, where the block a record will end up in is not decided.
    pub fn block_index_at(&self, row: usize, map: &RowMap) -> (r: Option<usize>)
        requires
            self.wf(),
            self.synced(),
            map.wf(),
            self.fits(map),
        ensures
            r is Some <==> row < self.spec_prefix(map),
            r matches Some(b) ==> self.in_block(map, row as int, b as int),
    {
        let prefix = self.prefix_rows(map);
        if row >= prefix {
            return None;
        }
        proof {
            self.lemma_row_start_zero(map);
        }
        let i = self.item_at_row(row, map);
        let base = self.start_of(i, map);
        let off = row - base;
        let it = self.items[i];
        proof {
            self.lemma_totals(i as int);
            self.lemma_block_index_item(map, row as int, i as int);
        }
        if it.is_group() && it.open && off > 0 {
            let k = self.member_index(i, off - 1, map);
            proof {
                self.lemma_block_index_member(map, row as int, i as int, k as int);
            }
            Some(self.bstarts[i] + 1 + k)
        } else {
            Some(self.bstarts[i])
        }
    }

    /// A row of item `i`: the item's first block holds it unless it is past
    /// an open group's own row.
    proof fn lemma_block_index_item(&self, map: &RowMap, row: int, i: int)
        requires
            self.wf(),
            self.fits(map),
            self.in_item(map, row, i),
        ensures
            self.spec_items()[i].spec_is_group() && self.spec_items()[i].open && row > self.row_start(
                map,
                i,
            ) ==> row - self.row_start(map, i) - 1 < self.member_start(
                map,
                i,
                self.spec_items()[i].count as int,
            ) && self.blocks_upto(i) + 1 + self.spec_items()[i].count <= usize::MAX,
            !(self.spec_items()[i].spec_is_group() && self.spec_items()[i].open && row > self.row_start(
                map,
                i,
            )) ==> self.in_block(map, row, self.blocks_upto(i) as int),
    {
        let n = self.spec_items().len() as int;
        lemma_own_mono(self.spec_items(), self.spec_under(), i + 1, n);
        self.lemma_prefix_bounds(map);
        self.lemma_block_start_in(map, i, 0);
        let it = self.spec_items()[i];
        if it.spec_is_group() && it.open {
            self.lemma_open_group_rows(map, i);
        }
    }

    /// A row past an open group's own row lies in its member's block.
    proof fn lemma_block_index_member(&self, map: &RowMap, row: int, i: int, k: int)
        requires
            self.wf(),
            self.in_item(map, row, i),
            self.spec_items()[i].spec_is_group(),
            self.spec_items()[i].open,
            row > self.row_start(map, i),
            self.in_member(map, i, row - self.row_start(map, i) - 1, k),
        ensures
            self.in_block(map, row, self.blocks_upto(i) + 1 + k),
    {
        let n = self.spec_items().len() as int;
        lemma_own_mono(self.spec_items(), self.spec_under(), i + 1, n);
        self.lemma_block_start_in(map, i, k + 1);
    }

    /// The rows of the block `row` falls in; `None` past the classified prefix.
    pub fn block_at(&self, row: usize, map: &RowMap) -> (r: Option<std::ops::Range<usize>>)
        requires
            self.wf(),
            self.synced(),
            map.wf(),
            self.fits(map),
        ensures
            r is Some <==> row < self.spec_prefix(map),
            r matches Some(rg) ==> rg.start == self.block_start(map, self.block_index(map, row as int))
                && rg.end == self.block_start(map, self.block_index(map, row as int) + 1),
    {
        let b = match self.block_index_at(row, map) {
            Some(b) => b,
            None => {
                return None;
            },
        };
        proof {
            self.lemma_block_index(map, row as int, b as int);
            self.lemma_prefix_bounds(map);
        }
        let start = self.block_first_row(b, map);
        let end = self.block_first_row(b + 1, map);
        Some(start..end)
    }

    /// The index of the block `row` is on and how many blocks are classified,
    /// for the status bar; `None` past the classified prefix.
    pub fn block_of_row(&self, row: usize, map: &RowMap) -> (r: Option<(usize, usize)>)
        requires
            self.wf(),
            self.synced(),
            map.wf(),
            self.fits(map),
        ensures
            r is Some <==> row < self.spec_prefix(map),
            r matches Some(p) ==> p.0 == self.block_index(map, row as int) && p.1
                == self.spec_blocks() && p.0 < p.1,
    {
        let b = match self.block_index_at(row, map) {
            Some(b) => b,
            None => {
                return None;
            },
        };
        proof {
            self.lemma_block_index(map, row as int, b as int);
        }
        Some((b, self.blocks(map)))
    }

    /// Where stepping by blocks from `row` lands.
    pub open spec fn spec_next_block(&self, map: &RowMap, row: int, forward: bool) -> Option<usize> {
        if row >= self.spec_prefix(map) {
            None
        } else {
            let b = self.block_index(map, row);
            if forward {
                if b + 1 < self.spec_blocks() {
                    Some(self.block_start(map, b + 1) as usize)
                } else {
                    None
                }
            } else if row > self.block_start(map, b) {
                Some(self.block_start(map, b) as usize)
            } else if b > 0 {
                Some(self.block_start(map, b - 1) as usize)
            } else {
                None
            }
        }
    }

    /// Where the next block starts (`forward`), or going back, where the block
    /// `row` is in starts, or the one before it when `row` is already its
    /// first row. `None` past the classified prefix and at either end.
    pub fn next_block(&self, row: usize, map: &RowMap, forward: bool) -> (r: Option<usize>)
        requires
            self.wf(),
            self.synced(),
            map.wf(),
            self.fits(map),
        ensures
            r == self.spec_next_block(map, row as int, forward),
    {
        let b = match self.block_index_at(row, map) {
            Some(b) => b,
            None => {
                return None;
            },
        };
        proof {
            self.lemma_block_index(map, row as int, b as int);
        }
        let total = self.blocks(map);
        if forward {
            if b + 1 < total {
                return Some(self.block_first_row(b + 1, map));
            }
            return None;
        }
        let start = self.block_first_row(b, map);
        if row > start {
            Some(start)
        } else if b > 0 {
            Some(self.block_first_row(b - 1, map))
        } else {
            None
        }
    }

    /// The rows item `i` occupies: its own rows and the tree and member rows
    /// of every record in it.
    pub fn rows_of_item(&self, i: usize, map: &RowMap) -> (r: Option<std::ops::Range<usize>>)
        requires
            self.wf(),
            self.synced(),
            map.wf(),
            self.fits(map),
        ensures
            r is Some <==> i < self.spec_items().len(),
            r matches Some(rg) ==> rg.start == self.row_start(map, i as int) && rg.end
                == self.row_start(map, i + 1),
    {
        let n = self.items.len();
        if i >= n {
            return None;
        }
        let start = self.start_of(i, map);
        let end = if i + 1 < n {
            self.start_of(i + 1, map)
        } else {
            self.prefix_rows(map)
        };
        Some(start..end)
    }
}


/// The blocks tile the classified prefix.
impl Plan {
    /// Every row before item `k`'s lies in an item before it.
    proof fn lemma_row_in_item(&self, map: &RowMap, row: int, k: int)
        requires
            self.wf(),
            0 <= k <= self.spec_items().len(),
            0 <= row < self.row_start(map, k),
        ensures
            exists|i: int| 0 <= i < k && #[trigger] self.in_item(map, row, i),
        decreases k,
    {
        if k == 0 {
            self.lemma_row_start_zero(map);
        } else if row < self.row_start(map, k - 1) {
            self.lemma_row_in_item(map, row, k - 1);
        } else {
            assert(self.in_item(map, row, k - 1));
        }
    }

    /// Every offset before member `k`'s lies in a member before it.
    proof fn lemma_off_in_member(&self, map: &RowMap, i: int, off: int, k: int)
        requires
            0 <= k <= self.spec_items()[i].count,
            0 <= off < self.member_start(map, i, k),
        ensures
            exists|m: int| 0 <= m < k && #[trigger] self.in_member(map, i, off, m),
        decreases k,
    {
        if k == 0 {
        } else if off < self.member_start(map, i, k - 1) {
            self.lemma_off_in_member(map, i, off, k - 1);
        } else {
            assert(self.in_member(map, i, off, k - 1));
        }
    }
}

/// **Every row of the classified prefix is in exactly one block**, and the
/// blocks run from the first row to the end of the prefix in order: what the
/// reader steps by covers the document, with no gaps and no overlaps.
pub proof fn lemma_blocks_tile(plan: &Plan, map: &RowMap, row: int)
    requires
        plan.wf(),
        plan.fits(map),
        0 <= row < plan.spec_prefix(map),
    ensures
        plan.in_block(map, row, plan.block_index(map, row)),
        forall|b: int| #[trigger] plan.in_block(map, row, b) ==> b == plan.block_index(map, row),
        plan.block_start(map, 0) == 0,
        plan.block_start(map, plan.spec_blocks() as int) == plan.spec_prefix(map),
        forall|b1: int, b2: int|
            0 <= b1 < b2 <= plan.spec_blocks() ==> plan.block_start(map, b1) < plan.block_start(
                map,
                b2,
            ),
{
    let n = plan.spec_items().len() as int;
    plan.lemma_row_in_item(map, row, n);
    let i = choose|i: int| 0 <= i < n && #[trigger] plan.in_item(map, row, i);
    plan.lemma_block_index_item(map, row, i);
    let it = plan.spec_items()[i];
    let b = if it.spec_is_group() && it.open && row > plan.row_start(map, i) {
        let off = row - plan.row_start(map, i) - 1;
        plan.lemma_off_in_member(map, i, off, it.count as int);
        let k = choose|k: int| 0 <= k < it.count && #[trigger] plan.in_member(map, i, off, k);
        plan.lemma_block_index_member(map, row, i, k);
        plan.blocks_upto(i) + 1 + k
    } else {
        plan.blocks_upto(i) as int
    };
    assert(plan.in_block(map, row, b));
    plan.lemma_block_index(map, row, b);
    assert forall|c: int| #[trigger] plan.in_block(map, row, c) implies c == plan.block_index(
        map,
        row,
    ) by {
        plan.lemma_block_index(map, row, c);
    }
    assert forall|b1: int, b2: int| 0 <= b1 < b2 <= plan.spec_blocks() implies plan.block_start(
        map,
        b1,
    ) < plan.block_start(map, b2) by {
        plan.lemma_block_start_mono(map, b1, b2);
    }
    lemma_own_mono(plan.spec_items(), plan.spec_under(), 0, n);
    plan.lemma_block_start_in(map, 0, 0);
    plan.lemma_row_start_zero(map);
}

/// **Stepping by blocks always moves**: forward lands on a later row, back on
/// an earlier one, and back from inside a block lands on the block's own
/// first row.
pub proof fn lemma_next_block_moves(plan: &Plan, map: &RowMap, row: int, forward: bool)
    requires
        plan.wf(),
        plan.fits(map),
        0 <= row,
    ensures
        plan.spec_next_block(map, row, forward) matches Some(x) ==> if forward {
            x > row
        } else {
            x < row
        },
        !forward && row < plan.spec_prefix(map) && row > plan.block_start(
            map,
            plan.block_index(map, row),
        ) ==> plan.spec_next_block(map, row, forward) == Some(
            plan.block_start(map, plan.block_index(map, row)) as usize,
        ),
{
    if row < plan.spec_prefix(map) {
        lemma_blocks_tile(plan, map, row);
        let b = plan.block_index(map, row);
        plan.lemma_prefix_bounds(map);
        if b + 1 < plan.spec_blocks() {
            plan.lemma_block_start_mono(map, b + 1, plan.spec_blocks() as int);
        }
        if b > 0 {
            plan.lemma_block_start_mono(map, b - 1, plan.spec_blocks() as int);
        }
        plan.lemma_block_start_mono(map, b, plan.spec_blocks() as int);
    }
}

/// **One call opens at a time**: however the calls were opened and shut,
/// there is never more than one showing its arguments and output.
pub proof fn lemma_one_call_open(plan: &Plan)
    requires
        plan.wf(),
    ensures
        plan.spec_open_parts().len() <= 1,
{
}


/// The fold id of a group, in a vocabulary that cannot collide with a record's
/// (`/4`): a group is `g4`, named by its first record so the id survives the
/// run growing as classification catches up.
pub fn group_id(first: usize) -> (id: String)
    ensures
        id@ == seq!['g'] + decimal(first as nat),
{
    let mut id = String::from_str("g");
    proof {
        reveal_strlit("g");
    }
    push_decimal(&mut id, first);
    id
}

/// The first record a group id names, or `None` when it names no group.
pub fn group_first(id: &str) -> (r: Option<usize>)
    ensures
        r == if id@.len() > 0 && id@[0] == 'g' {
            parse_usize(id@.subrange(1, id@.len() as int))
        } else {
            None
        },
{
    let n = id.unicode_len();
    if n == 0 || id.get_char(0) != 'g' {
        return None;
    }
    parse_decimal(id.substring_char(1, n))
}


/// **Group ids and record ids never collide**: a group's id reads back as the
/// group's first record, a record's id (`/4`) names no group, and a group's id
/// (`g4`) names no record.
pub proof fn lemma_group_ids(first: usize, record: usize)
    ensures
        ({
            let g = seq!['g'] + decimal(first as nat);
            parse_usize(g.subrange(1, g.len() as int)) == Some(first)
        }),
        (seq!['/'] + decimal(record as nat))[0] != 'g',
        (seq!['g'] + decimal(first as nat))[0] != '/',
        seq!['g'] + decimal(first as nat) != seq!['/'] + decimal(record as nat),
{
    let g = seq!['g'] + decimal(first as nat);
    assert(g.subrange(1, g.len() as int) =~= decimal(first as nat));
    lemma_decimal_round_trip(first);
    assert((seq!['/'] + decimal(record as nat))[0] == '/');
    assert(g[0] == 'g');
}

} // verus!
