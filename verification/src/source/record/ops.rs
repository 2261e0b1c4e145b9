//! What the fold keys do to a plan: opening everything the reader has
//! reached, closing everything, a fold id off the outline, stepping by
//! message, and revealing a search hit.
//!
//! A document read without a lens has no plan, and "no lens" is the answer
//! these give: nothing to open, nothing to close, no group ids in the fold
//! state. The `None` arm lives here so that no format gets it wrong.
use vstd::prelude::*;

use super::super::jsonrow::{decimal, parse_usize};
use super::fold_id;
use super::lensrow::{item_first, record_at, spec_record_at};
use super::plan::{group_first, group_id, Item, Plan, Spot};
use super::rowmap::RowMap;

verus! {

/// The items after setting the group that holds record `r` open or shut.
pub open spec fn set_holding(p: &Plan, r: int, open: bool) -> Seq<Item> {
    Seq::new(
        p.spec_items().len(),
        |i: int|
            if p.holds(i, r) && p.spec_items()[i].spec_is_group() {
                Item { open, ..p.spec_items()[i] }
            } else {
                p.spec_items()[i]
            },
    )
}

/// Open every group the viewport has reached, the same bounded way a format
/// opens records: opening every group of a huge log would mean classifying
/// all of it.
pub fn open_upto(plan: &mut Option<Plan>, map: &mut RowMap, upto_row: usize)
    requires
        old(map).wf(),
        *old(plan) matches Some(p) ==> p.wf() && p.bounded(old(map)),
    ensures
        final(map).wf(),
        final(map)@ == old(map)@,
        *old(plan) is None <==> *final(plan) is None,
        *old(plan) matches Some(p) ==> (*final(plan) matches Some(q) && q.wf() && q.synced()
            && q.spec_items().len() == p.spec_items().len() && (forall|i: int|
            0 <= i < p.spec_items().len() ==> #[trigger] q.spec_items()[i] == (Item {
                open: p.spec_items()[i].open || (p.spec_items()[i].spec_is_group() && q.row_start(
                    final(map),
                    i,
                ) <= upto_row),
                ..p.spec_items()[i]
            }))),
{
    match plan {
        Some(p) => p.open_upto(upto_row, map),
        None => {},
    }
}

/// Shut every group, which is free: nothing is parsed to close one.
pub fn close_all(plan: &mut Option<Plan>, map: &mut RowMap)
    requires
        old(map).wf(),
        *old(plan) matches Some(p) ==> p.wf() && p.own_all_open() <= usize::MAX,
    ensures
        final(map).wf(),
        *old(plan) is None <==> *final(plan) is None,
        *old(plan) is None ==> final(map)@ == old(map)@,
        *old(plan) matches Some(p) ==> (*final(plan) matches Some(q) && q.wf() && q.synced()
            && q.spec_items().len() == p.spec_items().len() && (forall|i: int|
            0 <= i < p.spec_items().len() ==> #[trigger] q.spec_items()[i] == if p.spec_items()[i].spec_is_group() {
                Item { open: false, ..p.spec_items()[i] }
            } else {
                p.spec_items()[i]
            }) && q.own_all_open() == p.own_all_open() && q.spec_all_full() == p.spec_all_full()),
{
    match plan {
        Some(p) => {
            p.close_all(map);
            proof {
                p.lemma_own_fits();
            }
            p.sync();
        },
        None => {},
    }
}

/// Open or close the group holding record `first`, and bring the totals up to
/// date. True when a group changed; false with no lens.
pub fn set_group(plan: &mut Option<Plan>, map: &mut RowMap, first: usize, open: bool) -> (changed:
    bool)
    requires
        old(map).wf(),
        *old(plan) matches Some(p) ==> p.wf() && p.own_all_open() <= usize::MAX,
    ensures
        final(map).wf(),
        *old(plan) is None <==> *final(plan) is None,
        *old(plan) is None ==> !changed && final(map)@ == old(map)@,
        open ==> final(map)@ == old(map)@,
        *old(plan) matches Some(p) ==> (*final(plan) matches Some(q) && q.wf() && q.synced()
            && q.spec_items() == set_holding(&p, first as int, open) && q.own_all_open()
            == p.own_all_open() && changed == (exists|i: int|
            #[trigger] p.holds(i, first as int) && p.toggles(i, open))),
{
    match plan {
        Some(p) => {
            let ghost p0 = *p;
            let changed = match p.item_of_record(first) {
                Some(item) => {
                    proof {
                        p.lemma_one_item(first as int, item as int);
                        assert(p.holds(item as int, first as int));
                    }
                    p.set_open(item, open, map)
                },
                None => {
                    proof {
                        p.lemma_within(first as int);
                    }
                    false
                },
            };
            proof {
                assert(p.spec_items() =~= set_holding(&p0, first as int, open));
                p.lemma_own_fits();
            }
            p.sync();
            changed
        },
        None => false,
    }
}

/// Open the group holding `record`, so a search hit is never left behind a
/// fold: a lens may fold, but it may never lose a record.
pub fn reveal_record(plan: &mut Option<Plan>, map: &mut RowMap, record: usize)
    requires
        old(map).wf(),
        *old(plan) matches Some(p) ==> p.wf() && p.own_all_open() <= usize::MAX,
    ensures
        final(map).wf(),
        final(map)@ == old(map)@,
        *old(plan) is None <==> *final(plan) is None,
        *old(plan) matches Some(p) ==> (*final(plan) matches Some(q) && q.wf() && q.synced()
            && q.spec_items() == set_holding(&p, record as int, true)),
{
    set_group(plan, map, record, true);
}

/// The fold id of whatever sits on `at`: a group's `g4`, or a record's `/4`.
/// A row of text or calls answers with its record's id, so folding from it
/// and from the row above it are the same fold.
pub fn id_at(plan: Option<&Plan>, at: Spot) -> (id: String)
    ensures
        id@ == match at {
            Spot::Group { item } => seq!['g'] + decimal(
                match plan {
                    Some(p) => if item < p.spec_items().len() {
                        p.spec_items()[item as int].first as nat
                    } else {
                        0
                    },
                    None => 0,
                },
            ),
            Spot::Record { record, .. } => seq!['/'] + decimal(record as nat),
            Spot::Body { record, .. } => seq!['/'] + decimal(record as nat),
            Spot::Part { record, .. } => seq!['/'] + decimal(record as nat),
        },
{
    match at {
        Spot::Group { item } => group_id(item_first(plan, item)),
        Spot::Record { record, .. } => fold_id(record),
        Spot::Body { record, .. } => fold_id(record),
        Spot::Part { record, .. } => fold_id(record),
    }
}

/// Apply a fold id that may name a group: `None` is an id that names no
/// group, which the format then reads as one of its own records.
pub fn set_by_id(plan: &mut Option<Plan>, map: &mut RowMap, id: &str, open: bool) -> (r: Option<
    bool,
>)
    requires
        old(map).wf(),
        *old(plan) matches Some(p) ==> p.wf() && p.own_all_open() <= usize::MAX,
    ensures
        final(map).wf(),
        *old(plan) is None <==> *final(plan) is None,
        r is None <==> !(id@.len() > 0 && id@[0] == 'g' && parse_usize(
            id@.subrange(1, id@.len() as int),
        ) is Some),
        r is None ==> *final(plan) == *old(plan) && final(map)@ == old(map)@,
        *old(plan) is None ==> final(map)@ == old(map)@ && r != Some(true),
        r matches Some(changed) ==> (*old(plan) matches Some(p) ==> (*final(plan) matches Some(q)
            && q.wf() && q.synced() && q.spec_items() == set_holding(
            &p,
            parse_usize(id@.subrange(1, id@.len() as int))->0 as int,
            open,
        ) && changed == (exists|i: int|
            #[trigger] p.holds(i, parse_usize(id@.subrange(1, id@.len() as int))->0 as int)
                && p.toggles(i, open)))),
{
    match group_first(id) {
        Some(first) => Some(set_group(plan, map, first, open)),
        None => None,
    }
}

/// The ids of the groups that are open, in document order: the exceptions a
/// saved fold state carries, since a group starts shut.
pub open spec fn open_group_ids(items: Seq<Item>) -> Seq<Seq<char>>
    decreases items.len(),
{
    if items.len() == 0 {
        Seq::empty()
    } else {
        let rest = open_group_ids(items.drop_last());
        if items.last().spec_is_group() && items.last().open {
            rest.push(seq!['g'] + decimal(items.last().first as nat))
        } else {
            rest
        }
    }
}

/// The ids of the groups that are open; none without a lens.
pub fn open_ids(plan: Option<&Plan>) -> (ids: Vec<String>)
    ensures
        ids@.len() == match plan {
            Some(p) => open_group_ids(p.spec_items()).len(),
            None => 0,
        },
        plan matches Some(p) ==> forall|k: int|
            0 <= k < ids@.len() ==> (#[trigger] ids@[k])@ == open_group_ids(p.spec_items())[k],
{
    let mut ids: Vec<String> = Vec::new();
    let p = match plan {
        Some(p) => p,
        None => {
            return ids;
        },
    };
    let items = p.items();
    let n = items.len();
    let mut i: usize = 0;
    proof {
        assert(items@.take(0) =~= Seq::<Item>::empty());
    }
    while i < n
        invariant
            i <= n,
            n == items@.len(),
            items@ == p.spec_items(),
            ids@.len() == open_group_ids(items@.take(i as int)).len(),
            forall|k: int|
                0 <= k < ids@.len() ==> (#[trigger] ids@[k])@ == open_group_ids(
                    items@.take(i as int),
                )[k],
        decreases n - i,
    {
        let it = items[i];
        proof {
            assert(items@.take(i + 1).drop_last() =~= items@.take(i as int));
            assert(items@.take(i + 1).last() == it);
        }
        if it.is_group() && it.open {
            ids.push(group_id(it.first));
        }
        i = i + 1;
    }
    proof {
        assert(items@.take(n as int) =~= items@);
    }
    ids
}

/// Where the next block starts, or the previous one; none without a lens.
pub fn next_block(plan: Option<&Plan>, map: &RowMap, row: usize, forward: bool) -> (r: Option<
    usize,
>)
    requires
        map.wf(),
        plan matches Some(p) ==> p.wf() && p.synced() && p.fits(map),
    ensures
        r == match plan {
            Some(p) => p.spec_next_block(map, row as int, forward),
            None => None,
        },
{
    match plan {
        Some(p) => p.next_block(row, map, forward),
        None => None,
    }
}

/// The rows of the block `row` falls in; none without a lens, and none past
/// the classified prefix.
pub fn block_at(plan: Option<&Plan>, map: &RowMap, row: usize) -> (r: Option<
    std::ops::Range<usize>,
>)
    requires
        map.wf(),
        plan matches Some(p) ==> p.wf() && p.synced() && p.fits(map),
    ensures
        plan is None ==> r is None,
        plan matches Some(p) ==> (r is Some <==> row < p.spec_prefix(map)) && (r matches Some(rg)
            ==> rg.start == p.block_start(map, p.block_index(map, row as int)) && rg.end
            == p.block_start(map, p.block_index(map, row as int) + 1)),
{
    match plan {
        Some(p) => p.block_at(row, map),
        None => None,
    }
}

/// The index of the block `row` is on, and how many blocks are classified,
/// for the status bar; none without a lens.
pub fn block_of_row(plan: Option<&Plan>, map: &RowMap, row: usize) -> (r: Option<(usize, usize)>)
    requires
        map.wf(),
        plan matches Some(p) ==> p.wf() && p.synced() && p.fits(map),
    ensures
        plan is None ==> r is None,
        plan matches Some(p) ==> (r is Some <==> row < p.spec_prefix(map)) && (r matches Some(b)
            ==> b.0 == p.block_index(map, row as int) && b.1 == p.spec_blocks() && b.0 < b.1),
{
    match plan {
        Some(p) => p.block_of_row(row, map),
        None => None,
    }
}

/// The first item after item `cur` that is not mechanics.
pub open spec fn message_after(p: &Plan, cur: int, i: int) -> bool {
    &&& cur < i < p.spec_items().len()
    &&& !p.spec_items()[i].step
    &&& forall|j: int| cur < j < i ==> #[trigger] p.spec_items()[j].step
}

/// The last item before item `cur` that is not mechanics.
pub open spec fn message_before(p: &Plan, cur: int, i: int) -> bool {
    &&& 0 <= i < cur
    &&& !p.spec_items()[i].step
    &&& forall|j: int| i < j < cur ==> #[trigger] p.spec_items()[j].step
}

/// Step to the next message, the conversation turn, rather than the next
/// block. It does not descend into an open run: every member of one is
/// mechanics. Going back from inside a message first returns to its own row.
/// `None` when there is no further message, or no lens.
pub fn next_message(plan: Option<&Plan>, map: &RowMap, known: usize, row: usize, forward: bool) -> (r:
    Option<usize>)
    requires
        map.wf(),
        plan matches Some(p) ==> p.wf() && p.synced() && p.fits(map),
    ensures
        plan is None ==> r is None,
        plan matches Some(p) ==> {
            let rec = spec_record_at(p, map, known as int, row as int);
            &&& rec >= p.spec_classified() ==> r is None
            &&& rec < p.spec_classified() ==> {
                let cur = p.item_of(rec);
                &&& forward ==> (r matches Some(x) ==> exists|i: int|
                    #[trigger] message_after(p, cur, i) && x == p.row_start(map, i))
                &&& forward ==> (r is None ==> forall|i: int| !#[trigger] message_after(p, cur, i))
                &&& !forward && row > p.row_start(map, cur) && !p.spec_items()[cur].step ==> r
                    == Some(p.row_start(map, cur) as usize)
                &&& !forward && !(row > p.row_start(map, cur) && !p.spec_items()[cur].step) ==> (
                r matches Some(x) ==> exists|i: int|
                    #[trigger] message_before(p, cur, i) && x == p.row_start(map, i))
                &&& !forward && !(row > p.row_start(map, cur) && !p.spec_items()[cur].step) ==> (r
                    is None ==> forall|i: int| !#[trigger] message_before(p, cur, i))
            }
        },
{
    let p = match plan {
        Some(p) => p,
        None => {
            return None;
        },
    };
    let record = record_at(plan, map, known, row);
    let cur = match p.item_of_record(record) {
        Some(i) => i,
        None => {
            return None;
        },
    };
    proof {
        p.lemma_one_item(record as int, cur as int);
    }
    let items = p.items();
    let n = items.len();
    if forward {
        let mut i = cur + 1;
        while i < n
            invariant
                forward,
                cur < i <= n,
                n == p.spec_items().len(),
                p.wf(),
                p.synced(),
                map.wf(),
                p.fits(map),
                plan == Some(p),
                record as int == spec_record_at(p, map, known as int, row as int),
                record < p.spec_classified(),
                p.item_of(record as int) == cur,
                items@ == p.spec_items(),
                forall|j: int| cur < j < i ==> #[trigger] p.spec_items()[j].step,
            decreases n - i,
        {
            if !items[i].step {
                proof {
                    assert(message_after(p, cur as int, i as int));
                }
                return Some(p.row_of_item(i, map));
            }
            i = i + 1;
        }
        proof {
            assert forall|k: int| !#[trigger] message_after(p, cur as int, k) by {
                if message_after(p, cur as int, k) {
                    assert(p.spec_items()[k].step);
                }
            }
        }
        return None;
    }
    let at = p.row_of_item(cur, map);
    if row > at && !items[cur].step {
        return Some(at);
    }
    let mut i = cur;
    while i > 0
        invariant
            !forward,
            !(row > p.row_start(map, cur as int) && !p.spec_items()[cur as int].step),
            i <= cur,
            cur < p.spec_items().len(),
            p.wf(),
            p.synced(),
            map.wf(),
            p.fits(map),
            plan == Some(p),
            record as int == spec_record_at(p, map, known as int, row as int),
            record < p.spec_classified(),
            p.item_of(record as int) == cur,
            items@ == p.spec_items(),
            forall|j: int| i <= j < cur ==> #[trigger] p.spec_items()[j].step,
        decreases i,
    {
        if !items[i - 1].step {
            proof {
                assert(message_before(p, cur as int, i - 1));
            }
            return Some(p.row_of_item(i - 1, map));
        }
        i = i - 1;
    }
    proof {
        assert forall|k: int| !#[trigger] message_before(p, cur as int, k) by {
            if message_before(p, cur as int, k) {
                assert(p.spec_items()[k].step);
            }
        }
    }
    None
}


/// The group a fold id names: `g4` names the group whose first record is 4.
pub open spec fn names_group(id: Seq<char>) -> Option<usize> {
    if id.len() > 0 && id[0] == 'g' {
        parse_usize(id.subrange(1, id.len() as int))
    } else {
        None
    }
}

/// One of the first `k` ids names a record of item `i`.
pub open spec fn named(p: &Plan, folds: Seq<String>, k: int, i: int) -> bool {
    exists|j: int|
        0 <= j < k && #[trigger] names_group(folds[j]@) is Some && p.holds(
            i,
            names_group(folds[j]@)->0 as int,
        )
}

/// Restore group folds from a saved fold state: every group shut, then the
/// groups the ids name opened. Ids naming no group are left for the format.
pub fn restore(plan: &mut Option<Plan>, map: &mut RowMap, folds: &[String])
    requires
        old(map).wf(),
        *old(plan) matches Some(p) ==> p.wf() && p.own_all_open() <= usize::MAX,
    ensures
        final(map).wf(),
        *old(plan) is None <==> *final(plan) is None,
        *old(plan) is None ==> final(map)@ == old(map)@,
        *old(plan) matches Some(p) ==> (*final(plan) matches Some(q) && q.wf() && q.synced()
            && q.spec_items().len() == p.spec_items().len() && (forall|i: int|
            0 <= i < p.spec_items().len() ==> #[trigger] q.spec_items()[i] == (Item {
                open: if p.spec_items()[i].spec_is_group() {
                    named(&p, folds@, folds@.len() as int, i)
                } else {
                    p.spec_items()[i].open
                },
                ..p.spec_items()[i]
            }))),
{
    if plan.is_none() {
        return ;
    }
    let ghost p0 = plan->0;
    close_all(plan, map);
    let n = folds.len();
    let mut k: usize = 0;
    while k < n
        invariant
            k <= n,
            n == folds@.len(),
            map.wf(),
            *plan matches Some(q) && q.wf() && q.synced() && q.spec_items().len()
                == p0.spec_items().len() && q.own_all_open() == p0.own_all_open() && (forall|i: int|
                0 <= i < p0.spec_items().len() ==> #[trigger] q.spec_items()[i] == (Item {
                    open: if p0.spec_items()[i].spec_is_group() {
                        named(&p0, folds@, k as int, i)
                    } else {
                        p0.spec_items()[i].open
                    },
                    ..p0.spec_items()[i]
                })),
            p0.own_all_open() <= usize::MAX,
        decreases n - k,
    {
        let id = folds[k].as_str();
        let ghost before = plan->0;
        match group_first(id) {
            Some(first) => {
                set_group(plan, map, first, true);
            },
            None => {},
        }
        proof {
            let q = plan->0;
            assert forall|i: int| 0 <= i < p0.spec_items().len() implies #[trigger] q.spec_items()[i]
                == (Item {
                open: if p0.spec_items()[i].spec_is_group() {
                    named(&p0, folds@, k + 1, i)
                } else {
                    p0.spec_items()[i].open
                },
                ..p0.spec_items()[i]
            }) by {
                assert(before.spec_items()[i].first == p0.spec_items()[i].first);
                assert(before.spec_items()[i].count == p0.spec_items()[i].count);
                if named(&p0, folds@, k + 1, i) && !named(&p0, folds@, k as int, i) {
                    assert(names_group(folds@[k as int]@) is Some);
                }
                if named(&p0, folds@, k as int, i) {
                    let j = choose|j: int|
                        0 <= j < k && #[trigger] names_group(folds@[j]@) is Some && p0.holds(
                            i,
                            names_group(folds@[j]@)->0 as int,
                        );
                    assert(names_group(folds@[j]@) is Some);
                }
            }
        }
        k = k + 1;
    }
}

} // verus!
