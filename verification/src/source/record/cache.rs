//! Parsed records kept in hand. Small on purpose: a record can be megabytes,
//! and the viewport only ever asks about a screenful plus whatever the cursor
//! just left.
use vstd::prelude::*;

verus! {

/// Records the cache holds at most.
pub const CACHE: usize = 64;

/// The parsed-record cache: most recently used first, [`CACHE`] deep.
pub struct Cache<T> {
    pub items: Vec<(usize, T)>,
}

/// The first place `record` is held at, if any.
pub open spec fn spec_position<T>(items: Seq<(usize, T)>, record: usize) -> Option<usize> {
    if exists|i: int| 0 <= i < items.len() && items[i].0 == record {
        let i = choose|i: int|
            0 <= i < items.len() && items[i].0 == record && forall|j: int| 0 <= j < i ==> items[j].0 != record;
        Some(i as usize)
    } else {
        None
    }
}

/// The first place `record` is held at is its position.
proof fn lemma_first_is_position<T>(items: Seq<(usize, T)>, record: usize, i: int)
    requires
        0 <= i < items.len(),
        items[i].0 == record,
        forall|j: int| 0 <= j < i ==> items[j].0 != record,
    ensures
        spec_position(items, record) == Some(i as usize),
{
    let c = choose|c: int|
        0 <= c < items.len() && items[c].0 == record && forall|j: int| 0 <= j < c ==> items[j].0 != record;
    assert(c == i) by {
        if c < i {
            assert(items[c].0 != record);
        } else if c > i {
            assert(items[i].0 != record);
        }
    }
}

impl<T> Cache<T> {
    /// No more than [`CACHE`] records are held.
    pub open spec fn wf(&self) -> bool {
        self.items@.len() <= CACHE
    }

    /// An empty cache.
    pub fn new() -> (c: Cache<T>)
        ensures
            c.wf(),
            c.items@.len() == 0,
    {
        Cache { items: Vec::new() }
    }

    /// Where `record` is held: the first place, most recent first.
    pub fn position(&self, record: usize) -> (r: Option<usize>)
        ensures
            r == spec_position(self.items@, record),
    {
        let mut i: usize = 0;
        while i < self.items.len()
            invariant
                i <= self.items@.len(),
                forall|j: int| 0 <= j < i ==> self.items@[j].0 != record,
            decreases self.items@.len() - i,
        {
            if self.items[i].0 == record {
                proof {
                    lemma_first_is_position(self.items@, record, i as int);
                }
                return Some(i);
            }
            i = i + 1;
        }
        None
    }

    /// Put `record` in front, dropping the oldest when the cache is full.
    pub fn push(&mut self, record: usize, rec: T)
        requires
            old(self).wf(),
        ensures
            final(self).wf(),
            final(self).items@ == seq![(record, rec)] + if old(self).items@.len() >= CACHE {
                old(self).items@.drop_last()
            } else {
                old(self).items@
            },
    {
        let ghost before = self.items@;
        if self.items.len() >= CACHE {
            self.items.pop();
        }
        let ghost kept = self.items@;
        self.items.insert(0, (record, rec));
        proof {
            assert(self.items@ =~= seq![(record, rec)] + kept);
        }
    }
}

/// What was put in last is found first, and the cache never grows past
/// [`CACHE`].
pub proof fn lemma_push_then_found<T>(items: Seq<(usize, T)>, record: usize, rec: T, after: Seq<(usize, T)>)
    requires
        items.len() <= CACHE,
        after == seq![(record, rec)] + if items.len() >= CACHE {
            items.drop_last()
        } else {
            items
        },
    ensures
        after.len() <= CACHE,
        after[0] == (record, rec),
        spec_position(after, record) == Some(0usize),
{
    lemma_first_is_position(after, record, 0);
}

} // verus!
