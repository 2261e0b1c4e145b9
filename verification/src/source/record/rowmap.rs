//! Which record a screen row belongs to, when some records are expanded.
//!
//! A record document is one row per record until the reader opens one, at
//! which point that record's tree rows are spliced in under it. The mapping
//! works both ways in O(log n): [`RowMap::row_of`] turns a record into the row
//! its summary sits on, and [`RowMap::at`] turns a row back into a record and
//! how far into its tree the row is.
//!
//! Expanding a record only adds rows *after* its own summary row, and the
//! expansions are kept sorted by record with a running total, so "how many
//! extra rows come before record `r`" is one binary search.
use vstd::prelude::*;

verus! {

/// One expanded record.
#[derive(Clone, Copy, Debug, PartialEq, Eq)]
struct Exp {
    /// Record index, 0-based.
    record: usize,
    /// Rows its tree occupies, not counting the summary row.
    extra: usize,
    /// Extra rows contributed by every expansion *before* this one.
    before: usize,
}

/// The expansions, sorted by record.
pub struct RowMap {
    items: Vec<Exp>,
}

/// Total extra rows of a list of expansions `(record, extra)`.
pub open spec fn total(v: Seq<(usize, usize)>) -> nat
    decreases v.len(),
{
    if v.len() == 0 {
        0
    } else {
        total(v.drop_last()) + v.last().1 as nat
    }
}

/// Extra rows contributed by the expansions of records strictly before `r`.
pub open spec fn extra_before_in(v: Seq<(usize, usize)>, r: int) -> nat
    decreases v.len(),
{
    if v.len() == 0 {
        0
    } else {
        extra_before_in(v.drop_last(), r) + (if v.last().0 < r {
            v.last().1 as nat
        } else {
            0nat
        })
    }
}

/// Rows record `r`'s tree occupies, `0` when it is closed.
pub open spec fn extra_of_in(v: Seq<(usize, usize)>, r: int) -> nat
    decreases v.len(),
{
    if v.len() == 0 {
        0
    } else {
        extra_of_in(v.drop_last(), r) + (if v.last().0 == r {
            v.last().1 as nat
        } else {
            0nat
        })
    }
}

/// Record `r` has an expansion in `v`.
pub open spec fn has_record(v: Seq<(usize, usize)>, r: int) -> bool {
    exists|i: int| 0 <= i < v.len() && v[i].0 == r
}

/// Expansions sorted strictly by record, each at least one row.
pub open spec fn sorted_positive(v: Seq<(usize, usize)>) -> bool {
    &&& forall|i: int, j: int| 0 <= i < j < v.len() ==> v[i].0 < v[j].0
    &&& forall|i: int| 0 <= i < v.len() ==> v[i].1 > 0
}

/// The screen row record `r`'s summary sits on, under expansions `v`.
pub open spec fn row_of_in(v: Seq<(usize, usize)>, r: int) -> int {
    r + extra_before_in(v, r)
}

impl View for RowMap {
    /// The open records and their tree heights, `(record, extra)`, in order.
    type V = Seq<(usize, usize)>;

    closed spec fn view(&self) -> Seq<(usize, usize)> {
        Seq::new(self.items@.len(), |i: int| (self.items@[i].record, self.items@[i].extra))
    }
}

proof fn lemma_total_push(v: Seq<(usize, usize)>, i: int)
    requires
        0 <= i < v.len(),
    ensures
        total(v.subrange(0, i + 1)) == total(v.subrange(0, i)) + v[i].1,
{
    assert(v.subrange(0, i + 1).drop_last() =~= v.subrange(0, i));
}

proof fn lemma_total_mono(v: Seq<(usize, usize)>, i: int, j: int)
    requires
        0 <= i <= j <= v.len(),
    ensures
        total(v.subrange(0, i)) <= total(v.subrange(0, j)),
    decreases j - i,
{
    if i < j {
        lemma_total_push(v, j - 1);
        lemma_total_mono(v, i, j - 1);
    }
}

/// Under sorted expansions, the extra rows before `r` are the running total up
/// to the first expansion at or after `r`.
proof fn lemma_extra_before_prefix(v: Seq<(usize, usize)>, r: int, k: int)
    requires
        sorted_positive(v),
        0 <= k <= v.len(),
        forall|j: int| 0 <= j < k ==> v[j].0 < r,
        forall|j: int| k <= j < v.len() ==> v[j].0 >= r,
    ensures
        extra_before_in(v, r) == total(v.subrange(0, k)),
    decreases v.len(),
{
    if v.len() == 0 {
        assert(v.subrange(0, k) =~= v);
    } else if k == v.len() {
        lemma_extra_before_prefix(v.drop_last(), r, k - 1);
        assert(v.subrange(0, k) =~= v);
        assert(v.drop_last().subrange(0, k - 1) =~= v.subrange(0, k - 1));
        lemma_total_push(v, k - 1);
    } else {
        lemma_extra_before_prefix(v.drop_last(), r, k);
        assert(v.drop_last().subrange(0, k) =~= v.subrange(0, k));
    }
}

/// The tree height of `r` is the height of its expansion, or 0 when none.
proof fn lemma_extra_of(v: Seq<(usize, usize)>, r: int)
    requires
        sorted_positive(v),
    ensures
        forall|i: int| 0 <= i < v.len() && v[i].0 == r ==> extra_of_in(v, r) == v[i].1,
        (forall|i: int| 0 <= i < v.len() ==> v[i].0 != r) ==> extra_of_in(v, r) == 0,
    decreases v.len(),
{
    if v.len() > 0 {
        lemma_extra_of(v.drop_last(), r);
        assert forall|i: int| 0 <= i < v.len() && v[i].0 == r implies extra_of_in(v, r)
            == v[i].1 by {
            if i < v.len() - 1 {
                assert(v.drop_last()[i] == v[i]);
            } else {
                assert forall|j: int| 0 <= j < v.drop_last().len() implies v.drop_last()[j].0
                    != r by {
                    assert(v.drop_last()[j] == v[j]);
                }
            }
        }
        if forall|i: int| 0 <= i < v.len() ==> v[i].0 != r {
            assert forall|j: int| 0 <= j < v.drop_last().len() implies v.drop_last()[j].0
                != r by {
                assert(v.drop_last()[j] == v[j]);
            }
        }
    }
}

/// Extra rows before `r` never exceed the total.
proof fn lemma_extra_before_le_total(v: Seq<(usize, usize)>, r: int)
    ensures
        extra_before_in(v, r) <= total(v),
    decreases v.len(),
{
    if v.len() > 0 {
        lemma_extra_before_le_total(v.drop_last(), r);
    }
}

impl RowMap {
    /// The map is internally consistent: sorted, no empty expansion, running
    /// totals up to date, and the grand total within `usize`.
    pub closed spec fn wf(&self) -> bool {
        &&& sorted_positive(self@)
        &&& forall|i: int|
            0 <= i < self.items@.len() ==> #[trigger] self.items@[i].before == total(
                self@.subrange(0, i),
            )
        &&& total(self@) <= usize::MAX
    }

    /// Extra rows before record `r`.
    pub open spec fn spec_extra_before(&self, r: int) -> nat {
        extra_before_in(self@, r)
    }

    /// Rows record `r`'s tree occupies.
    pub open spec fn spec_extra_of(&self, r: int) -> nat {
        extra_of_in(self@, r)
    }

    /// The row record `r`'s summary sits on.
    pub open spec fn spec_row_of(&self, r: int) -> int {
        row_of_in(self@, r)
    }

    /// Is record `r` open?
    pub open spec fn spec_is_open(&self, r: int) -> bool {
        has_record(self@, r)
    }

    proof fn lemma_view(&self)
        ensures
            self@.len() == self.items@.len(),
            forall|i: int|
                0 <= i < self@.len() ==> (#[trigger] self@[i]).0 == self.items@[i].record
                    && self@[i].1 == self.items@[i].extra,
    {
    }

    /// An empty map: every record closed.
    pub fn new() -> (m: RowMap)
        ensures
            m.wf(),
            m@ == Seq::<(usize, usize)>::empty(),
    {
        let m = RowMap { items: Vec::new() };
        assert(m@ =~= Seq::<(usize, usize)>::empty());
        m
    }

    /// Rows added to the document by every expansion.
    pub fn extra_total(&self) -> (n: usize)
        requires
            self.wf(),
        ensures
            n == total(self@),
    {
        proof {
            self.lemma_view();
        }
        let len = self.items.len();
        if len == 0 {
            assert(self@ =~= Seq::<(usize, usize)>::empty());
            0
        } else {
            let e = self.items[len - 1];
            proof {
                lemma_total_push(self@, len - 1);
                assert(self@.subrange(0, len as int) =~= self@);
            }
            e.before + e.extra
        }
    }

    /// How many records are open.
    pub fn open_count(&self) -> (n: usize)
        ensures
            n == self@.len(),
    {
        self.items.len()
    }

    /// The open records, in order.
    pub fn records(&self) -> (r: Vec<usize>)
        ensures
            r@.len() == self@.len(),
            forall|i: int| 0 <= i < r@.len() ==> r@[i] == (#[trigger] self@[i]).0,
            self.wf() ==> forall|i: int, j: int| 0 <= i < j < r@.len() ==> r@[i] < r@[j],
    {
        let mut out: Vec<usize> = Vec::new();
        let mut i: usize = 0;
        while i < self.items.len()
            invariant
                i <= self.items@.len(),
                out@.len() == i,
                forall|j: int| 0 <= j < i ==> out@[j] == self.items@[j].record,
            decreases self.items@.len() - i,
        {
            out.push(self.items[i].record);
            i = i + 1;
        }
        proof {
            if self.wf() {
                self.lemma_view();
                assert forall|i: int, j: int| 0 <= i < j < out@.len() implies out@[i] < out@[j] by {
                    assert(self@[i].0 < self@[j].0);
                }
            }
        }
        out
    }

    /// Where `record` is, or where it would go: `Ok(i)` when item `i` is it,
    /// `Err(i)` for the first item after it.
    fn find(&self, record: usize) -> (r: Result<usize, usize>)
        requires
            self.wf(),
        ensures
            r matches Ok(i) ==> i < self@.len() && self@[i as int].0 == record,
            r matches Err(i) ==> i <= self@.len() && (forall|j: int|
                0 <= j < i ==> self@[j].0 < record) && (forall|j: int|
                i <= j < self@.len() ==> self@[j].0 > record),
    {
        proof {
            self.lemma_view();
        }
        let i = self.lower(record);
        if i < self.items.len() && self.items[i].record == record {
            Ok(i)
        } else {
            proof {
                if i < self@.len() {
                    assert(self@[i as int].0 > record);
                    assert forall|j: int| i <= j < self@.len() implies self@[j].0 > record by {
                        if j > i {
                            assert(self@[i as int].0 < self@[j].0);
                        }
                    }
                }
            }
            Err(i)
        }
    }

    /// The first item whose record is at or after `record`.
    fn lower(&self, record: usize) -> (i: usize)
        requires
            self.wf(),
        ensures
            i <= self@.len(),
            forall|j: int| 0 <= j < i ==> self@[j].0 < record,
            forall|j: int| i <= j < self@.len() ==> self@[j].0 >= record,
    {
        proof {
            self.lemma_view();
        }
        let ghost v = self@;
        let mut lo: usize = 0;
        let mut hi: usize = self.items.len();
        while lo < hi
            invariant
                lo <= hi <= self.items@.len(),
                v == self@,
                v.len() == self.items@.len(),
                sorted_positive(v),
                forall|i: int| 0 <= i < v.len() ==> (#[trigger] v[i]).0 == self.items@[i].record,
                forall|j: int| 0 <= j < lo ==> v[j].0 < record,
                forall|j: int| hi <= j < v.len() ==> v[j].0 >= record,
            decreases hi - lo,
        {
            let mid = lo + (hi - lo) / 2;
            assert(v[mid as int].0 == self.items@[mid as int].record);
            if self.items[mid].record < record {
                assert forall|j: int| 0 <= j < mid + 1 implies v[j].0 < record by {
                    if j < mid {
                        assert(v[j].0 < v[mid as int].0);
                    }
                }
                lo = mid + 1;
            } else {
                assert forall|j: int| mid <= j < v.len() implies v[j].0 >= record by {
                    if j > mid {
                        assert(v[mid as int].0 < v[j].0);
                    }
                }
                hi = mid;
            }
        }
        lo
    }

    /// Is `record` open?
    pub fn is_open(&self, record: usize) -> (b: bool)
        requires
            self.wf(),
        ensures
            b == self.spec_is_open(record as int),
    {
        match self.find(record) {
            Ok(_) => true,
            Err(i) => {
                assert forall|j: int| 0 <= j < self@.len() implies self@[j].0 != record by {
                    if j < i {
                    } else {
                    }
                }
                false
            },
        }
    }

    /// Rows `record`'s tree occupies, `0` when it is closed.
    pub fn extra_of(&self, record: usize) -> (n: usize)
        requires
            self.wf(),
        ensures
            n == self.spec_extra_of(record as int),
    {
        proof {
            self.lemma_view();
            lemma_extra_of(self@, record as int);
        }
        match self.find(record) {
            Ok(i) => self.items[i].extra,
            Err(i) => {
                assert forall|j: int| 0 <= j < self@.len() implies self@[j].0 != record by {
                    if j < i {
                    } else {
                    }
                }
                0
            },
        }
    }

    /// Extra rows contributed by every expansion strictly before `record`.
    pub fn extra_before(&self, record: usize) -> (n: usize)
        requires
            self.wf(),
        ensures
            n == self.spec_extra_before(record as int),
    {
        proof {
            self.lemma_view();
        }
        let i = self.lower(record);
        proof {
            lemma_extra_before_prefix(self@, record as int, i as int);
        }
        if i == 0 {
            assert(self@.subrange(0, 0) =~= Seq::<(usize, usize)>::empty());
            0
        } else {
            let e = self.items[i - 1];
            proof {
                lemma_total_push(self@, i - 1);
                lemma_total_mono(self@, i as int, self@.len() as int);
                assert(self@.subrange(0, self@.len() as int) =~= self@);
            }
            e.before + e.extra
        }
    }

    /// The screen row `record`'s summary sits on.
    pub fn row_of(&self, record: usize) -> (row: usize)
        requires
            self.wf(),
            record + total(self@) <= usize::MAX,
        ensures
            row == self.spec_row_of(record as int),
    {
        proof {
            lemma_extra_before_le_total(self@, record as int);
        }
        record + self.extra_before(record)
    }

    /// Summary rows are strictly increasing along the items.
    proof fn lemma_starts(&self, i: int, j: int)
        requires
            self.wf(),
            0 <= i < j < self.items@.len(),
        ensures
            self.items@[i].record + self.items@[i].before < self.items@[j].record
                + self.items@[j].before,
            self.items@[i].before + self.items@[i].extra <= self.items@[j].before,
    {
        self.lemma_view();
        lemma_total_push(self@, i);
        lemma_total_mono(self@, i + 1, j);
        assert(self@[i].0 < self@[j].0);
    }

    /// Every running total, plus its own expansion, stays within the total.
    proof fn lemma_bounded(&self, i: int)
        requires
            self.wf(),
            0 <= i < self.items@.len(),
        ensures
            self.items@[i].before + self.items@[i].extra == total(self@.subrange(0, i + 1)),
            total(self@.subrange(0, i + 1)) <= total(self@),
    {
        self.lemma_view();
        lemma_total_push(self@, i);
        lemma_total_mono(self@, i + 1, self@.len() as int);
        assert(self@.subrange(0, self@.len() as int) =~= self@);
    }

    /// The first item whose summary row is past `row`.
    fn first_past(&self, row: usize) -> (i: usize)
        requires
            self.wf(),
        ensures
            i <= self.items@.len(),
            forall|j: int| 0 <= j < i ==> self.items@[j].record + self.items@[j].before <= row,
            forall|j: int|
                i <= j < self.items@.len() ==> self.items@[j].record + self.items@[j].before > row,
    {
        let mut lo: usize = 0;
        let mut hi: usize = self.items.len();
        while lo < hi
            invariant
                lo <= hi <= self.items@.len(),
                self.wf(),
                forall|j: int| 0 <= j < lo ==> self.items@[j].record + self.items@[j].before <= row,
                forall|j: int|
                    hi <= j < self.items@.len() ==> self.items@[j].record + self.items@[j].before
                        > row,
            decreases hi - lo,
        {
            let mid = lo + (hi - lo) / 2;
            let e = self.items[mid];
            if e.record <= row && e.before <= row - e.record {
                proof {
                    assert forall|j: int| 0 <= j < mid + 1 implies self.items@[j].record
                        + self.items@[j].before <= row by {
                        if j < mid {
                            self.lemma_starts(j, mid as int);
                        }
                    }
                }
                lo = mid + 1;
            } else {
                proof {
                    assert forall|j: int| mid <= j < self.items@.len() implies self.items@[j].record
                        + self.items@[j].before > row by {
                        if j > mid {
                            self.lemma_starts(mid as int, j);
                        }
                    }
                }
                hi = mid;
            }
        }
        lo
    }

    /// A row before every item's summary row is a closed record's own row.
    proof fn lemma_at_before_all(&self, row: int)
        requires
            self.wf(),
            forall|j: int|
                0 <= j < self.items@.len() ==> self.items@[j].record + self.items@[j].before > row,
        ensures
            self.spec_extra_before(row) == 0,
            self.spec_extra_of(row) == 0,
    {
        self.lemma_view();
        let v = self@;
        if v.len() > 0 {
            assert(self.items@[0].before == total(v.subrange(0, 0)));
            assert(v.subrange(0, 0) =~= Seq::<(usize, usize)>::empty());
            assert forall|j: int| 0 <= j < v.len() implies v[j].0 > row by {
                if j > 0 {
                    assert(v[0].0 < v[j].0);
                }
            }
        }
        lemma_extra_before_prefix(v, row, 0);
        lemma_extra_of(v, row);
        assert(v.subrange(0, 0) =~= Seq::<(usize, usize)>::empty());
    }

    /// Item `k`'s record has the running total of the items before it above it.
    proof fn lemma_at_item(&self, k: int)
        requires
            self.wf(),
            0 <= k < self.items@.len(),
        ensures
            self.spec_extra_before(self.items@[k].record as int) == self.items@[k].before,
            self.spec_extra_of(self.items@[k].record as int) == self.items@[k].extra,
    {
        self.lemma_view();
        let v = self@;
        let rec = self.items@[k].record as int;
        assert forall|j: int| 0 <= j < k implies v[j].0 < rec by {
            assert(v[j].0 < v[k].0);
        }
        assert forall|j: int| k <= j < v.len() implies v[j].0 >= rec by {
            if j > k {
                assert(v[k].0 < v[j].0);
            }
        }
        lemma_extra_before_prefix(v, rec, k);
        lemma_extra_of(v, rec);
    }

    /// A row between item `k`'s tree and item `k + 1`'s summary is a closed
    /// record's own row.
    proof fn lemma_at_gap(&self, k: int, r: int)
        requires
            self.wf(),
            0 <= k < self.items@.len(),
            r > self.items@[k].record,
            k + 1 < self.items@.len() ==> r < self.items@[k + 1].record,
        ensures
            self.spec_extra_before(r) == self.items@[k].before + self.items@[k].extra,
            self.spec_extra_of(r) == 0,
    {
        self.lemma_view();
        self.lemma_bounded(k);
        let v = self@;
        assert forall|j: int| k + 1 <= j < v.len() implies v[j].0 > r by {
            if j > k + 1 {
                assert(v[k + 1].0 < v[j].0);
            }
        }
        assert forall|j: int| 0 <= j < k + 1 implies v[j].0 < r by {
            if j < k {
                assert(v[j].0 < v[k].0);
            }
        }
        lemma_extra_before_prefix(v, r, k + 1);
        lemma_extra_of(v, r);
    }

    /// `(record, sub)` for a screen row: `sub` is `0` on the summary row and
    /// `1..=extra` inside the tree. The row is exactly `sub` rows below the
    /// record's summary row, and never past the end of its tree.
    pub fn at(&self, row: usize) -> (r: (usize, usize))
        requires
            self.wf(),
        ensures
            row == self.spec_row_of(r.0 as int) + r.1,
            r.1 <= self.spec_extra_of(r.0 as int),
    {
        let i = self.first_past(row);
        if i == 0 {
            proof {
                self.lemma_at_before_all(row as int);
            }
            return (row, 0);
        }
        let e = self.items[i - 1];
        proof {
            self.lemma_bounded(i - 1);
        }
        let base = e.record + e.before;
        if row - base <= e.extra {
            proof {
                self.lemma_at_item(i - 1);
            }
            (e.record, row - base)
        } else {
            let r = row - (e.before + e.extra);
            proof {
                if i < self.items@.len() {
                    self.lemma_starts(i - 1, i as int);
                    self.lemma_bounded(i as int);
                    self.lemma_view();
                    assert(self.items@[i as int].before == total(self@.subrange(0, i as int)));
                }
                self.lemma_at_gap(i - 1, r as int);
            }
            (r, 0)
        }
    }
}

/// Summing over a list of expansions does not depend on where one of them
/// sits: inserting an expansion adds exactly its own contribution.
proof fn lemma_insert_sums(v: Seq<(usize, usize)>, k: int, x: (usize, usize), r: int)
    requires
        0 <= k <= v.len(),
    ensures
        total(v.insert(k, x)) == total(v) + x.1,
        extra_before_in(v.insert(k, x), r) == extra_before_in(v, r) + (if x.0 < r {
            x.1 as nat
        } else {
            0nat
        }),
        extra_of_in(v.insert(k, x), r) == extra_of_in(v, r) + (if x.0 == r {
            x.1 as nat
        } else {
            0nat
        }),
    decreases v.len(),
{
    let w = v.insert(k, x);
    if k == v.len() {
        assert(w.drop_last() =~= v);
    } else {
        lemma_insert_sums(v.drop_last(), k, x, r);
        assert(w.drop_last() =~= v.drop_last().insert(k, x));
        assert(w.last() == v.last());
    }
}

/// Rows strictly between two records' summary rows: record `r2`'s row lies
/// past the whole tree of any earlier record `r1`.
proof fn lemma_extra_before_gap(v: Seq<(usize, usize)>, r1: int, r2: int)
    requires
        r1 < r2,
    ensures
        extra_before_in(v, r2) >= extra_before_in(v, r1) + extra_of_in(v, r1),
    decreases v.len(),
{
    if v.len() > 0 {
        lemma_extra_before_gap(v.drop_last(), r1, r2);
    }
}

proof fn lemma_insert_sorted(v: Seq<(usize, usize)>, at: int, x: (usize, usize))
    requires
        sorted_positive(v),
        x.1 > 0,
        0 <= at <= v.len(),
        forall|j: int| 0 <= j < at ==> v[j].0 < x.0,
        forall|j: int| at <= j < v.len() ==> v[j].0 > x.0,
    ensures
        sorted_positive(v.insert(at, x)),
        forall|r: int| #[trigger] has_record(v.insert(at, x), r) == (has_record(v, r) || r == x.0),
{
    let w = v.insert(at, x);
    assert forall|i: int, j: int| 0 <= i < j < w.len() implies w[i].0 < w[j].0 by {
        if j < at {
        } else if j == at {
        } else if i < at {
            assert(w[j] == v[j - 1]);
        } else if i == at {
            assert(w[j] == v[j - 1]);
        } else {
            assert(w[i] == v[i - 1] && w[j] == v[j - 1]);
        }
    }
    assert forall|i: int| 0 <= i < w.len() implies w[i].1 > 0 by {
        if i > at {
            assert(w[i] == v[i - 1]);
        }
    }
    assert forall|r: int| #[trigger] has_record(w, r) == (has_record(v, r) || r == x.0) by {
        if exists|i: int| 0 <= i < w.len() && w[i].0 == r {
            let i = choose|i: int| 0 <= i < w.len() && w[i].0 == r;
            if i < at {
                assert(v[i].0 == r);
            } else if i > at {
                assert(v[i - 1].0 == r);
            }
        }
        if exists|i: int| 0 <= i < v.len() && v[i].0 == r {
            let i = choose|i: int| 0 <= i < v.len() && v[i].0 == r;
            if i < at {
                assert(w[i].0 == r);
            } else {
                assert(w[i + 1].0 == r);
            }
        }
        if r == x.0 {
            assert(w[at].0 == r);
        }
    }
}

proof fn lemma_remove_sorted(v: Seq<(usize, usize)>, at: int)
    requires
        sorted_positive(v),
        0 <= at < v.len(),
    ensures
        sorted_positive(v.remove(at)),
        forall|r: int| #[trigger] has_record(v.remove(at), r) == (has_record(v, r) && r != v[at].0),
        forall|j: int| 0 <= j < v.remove(at).len() ==> v.remove(at)[j].0 != v[at].0,
{
    let w = v.remove(at);
    assert forall|i: int, j: int| 0 <= i < j < w.len() implies w[i].0 < w[j].0 by {
        if i < at && j >= at {
            assert(w[j] == v[j + 1]);
        } else if i >= at {
            assert(w[i] == v[i + 1] && w[j] == v[j + 1]);
        }
    }
    assert forall|i: int| 0 <= i < w.len() implies w[i].1 > 0 by {
        if i >= at {
            assert(w[i] == v[i + 1]);
        }
    }
    assert forall|j: int| 0 <= j < w.len() implies w[j].0 != v[at].0 by {
        if j < at {
            assert(v[j].0 < v[at].0);
        } else {
            assert(w[j] == v[j + 1]);
            assert(v[at].0 < v[j + 1].0);
        }
    }
    assert forall|r: int| #[trigger] has_record(w, r) == (has_record(v, r) && r != v[at].0) by {
        if exists|i: int| 0 <= i < w.len() && w[i].0 == r {
            let i = choose|i: int| 0 <= i < w.len() && w[i].0 == r;
            if i < at {
                assert(v[i].0 == r);
            } else {
                assert(v[i + 1].0 == r);
            }
        }
        if (exists|i: int| 0 <= i < v.len() && v[i].0 == r) && r != v[at].0 {
            let i = choose|i: int| 0 <= i < v.len() && v[i].0 == r;
            if i < at {
                assert(w[i].0 == r);
            } else {
                assert(i != at);
                assert(w[i - 1].0 == r);
            }
        }
    }
}

impl RowMap {
    /// The map that opens record `record` with `extra` rows on top of `self`.
    proof fn lemma_view_insert(&self, k: int, e: Exp)
        requires
            0 <= k <= self.items@.len(),
        ensures
            self.items@.insert(k, e).len() == self@.insert(k, (e.record, e.extra)).len(),
            Seq::new(
                self.items@.insert(k, e).len(),
                |i: int| (self.items@.insert(k, e)[i].record, self.items@.insert(k, e)[i].extra),
            ) =~= self@.insert(k, (e.record, e.extra)),
    {
    }

    /// Recompute the running totals from item `at` on.
    fn restate(&mut self, at: usize)
        requires
            at <= old(self).items@.len(),
            sorted_positive(old(self)@),
            total(old(self)@) <= usize::MAX,
            forall|i: int|
                0 <= i < at ==> #[trigger] old(self).items@[i].before == total(
                    old(self)@.subrange(0, i),
                ),
        ensures
            final(self).wf(),
            final(self)@ == old(self)@,
    {
        proof {
            self.lemma_view();
        }
        let ghost v = self@;
        let mut run: usize = if at == 0 {
            0
        } else {
            let e = self.items[at - 1];
            proof {
                lemma_total_push(v, at - 1);
                lemma_total_mono(v, at as int, v.len() as int);
                assert(v.subrange(0, v.len() as int) =~= v);
            }
            e.before + e.extra
        };
        proof {
            if at == 0 {
                assert(v.subrange(0, 0) =~= Seq::<(usize, usize)>::empty());
            } else {
                lemma_total_push(v, at - 1);
            }
        }
        let mut j: usize = at;
        let len = self.items.len();
        while j < len
            invariant
                at <= j <= len,
                len == self.items@.len(),
                self@ == v,
                sorted_positive(v),
                total(v) <= usize::MAX,
                run == total(v.subrange(0, j as int)),
                forall|i: int|
                    0 <= i < j ==> #[trigger] self.items@[i].before == total(v.subrange(0, i)),
            decreases len - j,
        {
            let mut e = self.items[j];
            e.before = run;
            proof {
                self.lemma_view();
                lemma_total_push(v, j as int);
                lemma_total_mono(v, j + 1, v.len() as int);
                assert(v.subrange(0, v.len() as int) =~= v);
            }
            self.items.set(j, e);
            assert(self@ =~= v);
            run = run + e.extra;
            j = j + 1;
        }
    }

    /// Open `record` with a tree of `extra` rows. False, with nothing changed,
    /// when it was already open or the tree is empty: a record with nothing
    /// under it is a leaf, not a closed container.
    pub fn open(&mut self, record: usize, extra: usize) -> (b: bool)
        requires
            old(self).wf(),
            total(old(self)@) + extra <= usize::MAX,
        ensures
            final(self).wf(),
            b == (extra > 0 && !old(self).spec_is_open(record as int)),
            !b ==> final(self)@ == old(self)@,
            b ==> total(final(self)@) == total(old(self)@) + extra,
            forall|r: int|
                #![trigger final(self).spec_is_open(r)]
                final(self).spec_is_open(r) == (old(self).spec_is_open(r) || (b && r == record)),
            forall|r: int|
                #![trigger final(self).spec_extra_of(r)]
                final(self).spec_extra_of(r) == old(self).spec_extra_of(r) + (if b && r == record {
                    extra as nat
                } else {
                    0nat
                }),
            forall|r: int|
                #![trigger final(self).spec_extra_before(r)]
                final(self).spec_extra_before(r) == old(self).spec_extra_before(r) + (if b && record
                    < r {
                    extra as nat
                } else {
                    0nat
                }),
    {
        if extra == 0 {
            return false;
        }
        let at = match self.find(record) {
            Ok(_) => return false,
            Err(i) => i,
        };
        proof {
            self.lemma_view();
        }
        let ghost v = self@;
        let before = self.extra_before(record);
        proof {
            lemma_extra_before_prefix(v, record as int, at as int);
        }
        let e = Exp { record, extra, before };
        proof {
            self.lemma_view_insert(at as int, e);
        }
        self.items.insert(at, e);
        let ghost w = v.insert(at as int, (record, extra));
        assert(self@ =~= w);
        proof {
            lemma_insert_sums(v, at as int, (record, extra), 0);
            assert forall|r: int| true implies extra_before_in(w, r) == extra_before_in(v, r) + (
            if record < r {
                extra as nat
            } else {
                0nat
            }) && extra_of_in(w, r) == extra_of_in(v, r) + (if record == r {
                extra as nat
            } else {
                0nat
            }) by {
                lemma_insert_sums(v, at as int, (record, extra), r);
            }
            lemma_insert_sorted(v, at as int, (record, extra));
            assert forall|i: int| 0 <= i <= at implies #[trigger] self.items@[i].before == total(
                w.subrange(0, i),
            ) by {
                assert(w.subrange(0, i) =~= v.subrange(0, i));
            }
            assert(at < self.items@.len());
        }
        let n = self.items.len();
        assert(at < n);
        self.restate(at + 1);
        true
    }

    /// Close `record`. False, with nothing changed, when it was not open.
    pub fn close(&mut self, record: usize) -> (b: bool)
        requires
            old(self).wf(),
        ensures
            final(self).wf(),
            b == old(self).spec_is_open(record as int),
            !b ==> final(self)@ == old(self)@,
            total(final(self)@) == total(old(self)@) - old(self).spec_extra_of(record as int),
            forall|r: int|
                #![trigger final(self).spec_is_open(r)]
                final(self).spec_is_open(r) == (old(self).spec_is_open(r) && r != record),
            forall|r: int|
                #![trigger final(self).spec_extra_of(r)]
                final(self).spec_extra_of(r) == if r == record {
                    0
                } else {
                    old(self).spec_extra_of(r)
                },
            forall|r: int|
                #![trigger final(self).spec_extra_before(r)]
                final(self).spec_extra_before(r) == old(self).spec_extra_before(r) - (if record < r {
                    old(self).spec_extra_of(record as int)
                } else {
                    0nat
                }),
    {
        proof {
            self.lemma_view();
            lemma_extra_of(self@, record as int);
        }
        let at = match self.find(record) {
            Ok(i) => i,
            Err(i) => {
                proof {
                    assert forall|j: int| 0 <= j < self@.len() implies self@[j].0 != record by {
                        if j < i {
                        } else {
                        }
                    }
                }
                return false;
            },
        };
        let ghost v = self@;
        let ghost x = v[at as int];
        let ghost w = v.remove(at as int);
        self.items.remove(at);
        assert(self@ =~= w);
        proof {
            assert(w.insert(at as int, x) =~= v);
            lemma_insert_sums(w, at as int, x, 0);
            assert forall|r: int| true implies extra_before_in(v, r) == extra_before_in(w, r) + (
            if x.0 < r {
                x.1 as nat
            } else {
                0nat
            }) && extra_of_in(v, r) == extra_of_in(w, r) + (if x.0 == r {
                x.1 as nat
            } else {
                0nat
            }) by {
                lemma_insert_sums(w, at as int, x, r);
            }
            lemma_remove_sorted(v, at as int);
            lemma_extra_of(w, record as int);
            assert forall|i: int| 0 <= i < at implies #[trigger] self.items@[i].before == total(
                w.subrange(0, i),
            ) by {
                assert(w.subrange(0, i) =~= v.subrange(0, i));
            }
        }
        self.restate(at);
        true
    }

    /// Close everything.
    pub fn clear(&mut self)
        ensures
            final(self).wf(),
            final(self)@ == Seq::<(usize, usize)>::empty(),
    {
        self.items.clear();
        assert(self@ =~= Seq::<(usize, usize)>::empty());
    }
}

/// A consistent map lists its open records in strictly increasing order, each
/// with a tree of at least one row, and its total fits in a `usize`.
pub proof fn lemma_wf_view(m: &RowMap)
    requires
        m.wf(),
    ensures
        sorted_positive(m@),
        total(m@) <= usize::MAX,
{
}

/// Each expansion in a consistent map is an open record, with its height.
pub proof fn lemma_entries(m: &RowMap)
    requires
        m.wf(),
    ensures
        forall|i: int|
            0 <= i < m@.len() ==> m.spec_is_open(#[trigger] m@[i].0 as int) && m.spec_extra_of(
                m@[i].0 as int,
            ) == m@[i].1,
        forall|r: int| #[trigger] m.spec_extra_of(r) > 0 <==> m.spec_is_open(r),
{
    lemma_extra_of_all(m@);
    assert forall|i: int| 0 <= i < m@.len() implies m.spec_is_open(#[trigger] m@[i].0 as int) by {
        assert(has_record(m@, m@[i].0 as int));
    }
}

/// Two sorted lists of expansions that agree on every record's height are
/// the same list.
proof fn lemma_sorted_determined(a: Seq<(usize, usize)>, b: Seq<(usize, usize)>)
    requires
        sorted_positive(a),
        sorted_positive(b),
        forall|r: int| extra_of_in(a, r) == extra_of_in(b, r),
    ensures
        a == b,
    decreases a.len() + b.len(),
{
    lemma_extra_of_all(a);
    lemma_extra_of_all(b);
    if a.len() == 0 && b.len() == 0 {
        assert(a =~= b);
    } else if a.len() == 0 {
        assert(extra_of_in(b, b[0].0 as int) == b[0].1);
        assert(extra_of_in(a, b[0].0 as int) == 0);
    } else if b.len() == 0 {
        assert(extra_of_in(a, a[0].0 as int) == a[0].1);
        assert(extra_of_in(b, a[0].0 as int) == 0);
    } else {
        let (ra, ea) = a.last();
        let (rb, eb) = b.last();
        // The last record of each is open in the other, so neither is past the other.
        assert(extra_of_in(a, ra as int) == ea);
        assert(extra_of_in(b, rb as int) == eb);
        let ib = choose|i: int| 0 <= i < b.len() && b[i].0 == ra;
        let ia = choose|i: int| 0 <= i < a.len() && a[i].0 == rb;
        assert(ra == rb) by {
            if ra < rb {
                assert(forall|i: int| 0 <= i < a.len() ==> a[i].0 <= ra);
                assert(extra_of_in(a, rb as int) == 0) by {
                    lemma_extra_of(a, rb as int);
                    assert forall|i: int| 0 <= i < a.len() implies a[i].0 != rb by {
                        if i < a.len() - 1 {
                            assert(a[i].0 < ra);
                        }
                    }
                }
            } else if rb < ra {
                assert(extra_of_in(b, ra as int) == 0) by {
                    lemma_extra_of(b, ra as int);
                    assert forall|i: int| 0 <= i < b.len() implies b[i].0 != ra by {
                        if i < b.len() - 1 {
                            assert(b[i].0 < rb);
                        }
                    }
                }
            }
        }
        let a2 = a.drop_last();
        let b2 = b.drop_last();
        assert(sorted_positive(a2));
        assert(sorted_positive(b2));
        assert forall|r: int| extra_of_in(a2, r) == extra_of_in(b2, r) by {
            assert(extra_of_in(a, r) == extra_of_in(a2, r) + (if ra == r {
                ea as nat
            } else {
                0nat
            }));
            assert(extra_of_in(b, r) == extra_of_in(b2, r) + (if rb == r {
                eb as nat
            } else {
                0nat
            }));
        }
        lemma_sorted_determined(a2, b2);
        assert(a =~= a2.push((ra, ea)));
        assert(b =~= b2.push((rb, eb)));
    }
}

/// Every expansion's record has that expansion's height.
proof fn lemma_extra_of_all(v: Seq<(usize, usize)>)
    requires
        sorted_positive(v),
    ensures
        forall|i: int| 0 <= i < v.len() ==> extra_of_in(v, #[trigger] v[i].0 as int) == v[i].1,
        forall|r: int| extra_of_in(v, r) > 0 <==> has_record(v, r),
{
    assert forall|i: int| 0 <= i < v.len() implies extra_of_in(v, #[trigger] v[i].0 as int) == v[i].1 by {
        lemma_extra_of(v, v[i].0 as int);
    }
    assert forall|r: int| extra_of_in(v, r) > 0 <==> has_record(v, r) by {
        lemma_extra_of(v, r);
        if has_record(v, r) {
            let i = choose|i: int| 0 <= i < v.len() && v[i].0 == r;
            lemma_extra_of(v, v[i].0 as int);
        }
    }
}

/// **A map is what is open in it**: two consistent maps that give every
/// record the same tree height are the same map, so they agree on every
/// row question.
pub proof fn lemma_same_heights_same_map(a: &RowMap, b: &RowMap)
    requires
        a.wf(),
        b.wf(),
        forall|r: int| a.spec_extra_of(r) == b.spec_extra_of(r),
    ensures
        a@ == b@,
        forall|r: int| a.spec_row_of(r) == b.spec_row_of(r),
        forall|r: int| a.spec_is_open(r) == b.spec_is_open(r),
{
    assert forall|r: int| extra_of_in(a@, r) == extra_of_in(b@, r) by {
        assert(a.spec_extra_of(r) == b.spec_extra_of(r));
    }
    lemma_sorted_determined(a@, b@);
}

/// **Opening a record and shutting it again restores the map**: after
/// `open(r, e)` on a closed record with `e > 0` (`mid`) and then `close(r)`
/// (`after`), the open records, their heights and every row are as they
/// were.
pub proof fn lemma_open_close_round_trip(before: &RowMap, mid: &RowMap, after: &RowMap, r: int, e: nat)
    requires
        before.wf(),
        mid.wf(),
        after.wf(),
        !before.spec_is_open(r),
        e > 0,
        forall|x: int| mid.spec_extra_of(x) == before.spec_extra_of(x) + if x == r {
            e
        } else {
            0nat
        },
        forall|x: int| after.spec_extra_of(x) == if x == r {
            0
        } else {
            mid.spec_extra_of(x)
        },
    ensures
        after@ == before@,
        forall|x: int| after.spec_row_of(x) == before.spec_row_of(x),
{
    lemma_extra_of_all(before@);
    assert forall|x: int| after.spec_extra_of(x) == before.spec_extra_of(x) by {
        if x == r {
            assert(!has_record(before@, r));
        }
    }
    lemma_same_heights_same_map(after, before);
}

/// **The rows before a record are the sum of the trees before it**: the
/// open records before `r` are a prefix of the list, and the rows they add
/// are that prefix's total.
pub proof fn lemma_extra_before_is_prefix_sum(m: &RowMap, r: int)
    requires
        m.wf(),
    ensures
        exists|k: int|
            0 <= k <= m@.len() && (forall|j: int| 0 <= j < k ==> m@[j].0 < r) && (forall|j: int|
                k <= j < m@.len() ==> m@[j].0 >= r) && m.spec_extra_before(r) == total(
                #[trigger] m@.subrange(0, k),
            ),
{
    let v = m@;
    let k = choose_split(v, r);
    lemma_extra_before_prefix(v, r, k);
}

/// Where the records before `r` end in a sorted list.
proof fn choose_split(v: Seq<(usize, usize)>, r: int) -> (k: int)
    requires
        sorted_positive(v),
    ensures
        0 <= k <= v.len(),
        forall|j: int| 0 <= j < k ==> v[j].0 < r,
        forall|j: int| k <= j < v.len() ==> v[j].0 >= r,
    decreases v.len(),
{
    if v.len() == 0 {
        0
    } else if v.last().0 < r {
        v.len() as int
    } else {
        let k = choose_split(v.drop_last(), r);
        assert forall|j: int| 0 <= j < k implies v[j].0 < r by {
            assert(v[j] == v.drop_last()[j]);
        }
        assert forall|j: int| k <= j < v.len() implies v[j].0 >= r by {
            if j < v.len() - 1 {
                assert(v[j] == v.drop_last()[j]);
            }
        }
        k
    }
}

/// The row arithmetic is a bijection: each row below a record's summary row,
/// up to the end of that record's tree, belongs to that record and no other.
/// Together with [`RowMap::at`]'s contract this is "every row maps back to the
/// record it came from": `at(row_of(r) + sub) == (r, sub)` for `sub <= extra_of(r)`.
pub proof fn lemma_rows_unique(m: &RowMap, r1: int, s1: int, r2: int, s2: int)
    requires
        0 <= s1 <= m.spec_extra_of(r1),
        0 <= s2 <= m.spec_extra_of(r2),
        m.spec_row_of(r1) + s1 == m.spec_row_of(r2) + s2,
    ensures
        r1 == r2 && s1 == s2,
{
    if r1 < r2 {
        lemma_extra_before_gap(m@, r1, r2);
    } else if r2 < r1 {
        lemma_extra_before_gap(m@, r2, r1);
    }
}

/// A record's summary row moves down past every earlier record's whole tree:
/// summary rows are strictly increasing in the record.
pub proof fn lemma_row_of_increasing(m: &RowMap, r1: int, r2: int)
    requires
        r1 < r2,
    ensures
        m.spec_row_of(r1) + m.spec_extra_of(r1) < m.spec_row_of(r2),
{
    lemma_extra_before_gap(m@, r1, r2);
}

/// The rows before `r + 1` are the rows before `r` plus `r`'s own tree.
pub proof fn lemma_extra_before_step(m: &RowMap, r: int)
    ensures
        m.spec_extra_before(r + 1) == m.spec_extra_before(r) + m.spec_extra_of(r),
{
    lemma_extra_before_step_in(m@, r);
}

proof fn lemma_extra_before_step_in(v: Seq<(usize, usize)>, r: int)
    ensures
        extra_before_in(v, r + 1) == extra_before_in(v, r) + extra_of_in(v, r),
    decreases v.len(),
{
    if v.len() > 0 {
        lemma_extra_before_step_in(v.drop_last(), r);
    }
}

/// No rows come before record 0.
pub proof fn lemma_extra_before_zero(m: &RowMap)
    ensures
        m.spec_extra_before(0) == 0,
{
    lemma_extra_before_zero_in(m@);
}

proof fn lemma_extra_before_zero_in(v: Seq<(usize, usize)>)
    ensures
        extra_before_in(v, 0) == 0,
    decreases v.len(),
{
    if v.len() > 0 {
        lemma_extra_before_zero_in(v.drop_last());
    }
}

/// The rows before a record only grow with the record, and never pass the
/// map's total.
pub proof fn lemma_extra_before_mono(m: &RowMap, r1: int, r2: int)
    requires
        r1 <= r2,
    ensures
        m.spec_extra_before(r1) <= m.spec_extra_before(r2),
        m.spec_extra_before(r2) <= total(m@),
{
    if r1 < r2 {
        lemma_extra_before_gap(m@, r1, r2);
    }
    lemma_extra_before_le_total(m@, r2);
}

impl Default for RowMap {
    /// An empty map.
    fn default() -> (m: RowMap)
        ensures
            m.wf(),
            m@ == Seq::<(usize, usize)>::empty(),
    {
        RowMap::new()
    }
}

/// Up to `count` screen rows from row `start`, as `(record, sub)`, laid out
/// record by record: each record's summary row, then the rows of its tree
/// when it is open, stopping at the last of the `known` records. Each row is
/// where [`RowMap::at`] puts it; fewer than `count` come back only when the
/// document ends first.
pub fn layout_rows(map: &RowMap, known: usize, start: usize, count: usize) -> (out: Vec<(usize, usize)>)
    requires
        map.wf(),
    ensures
        out@.len() <= count,
        forall|i: int|
            0 <= i < out@.len() ==> (#[trigger] out@[i]).0 < known && map.spec_row_of(out@[i].0 as int)
                + out@[i].1 == start + i && out@[i].1 <= map.spec_extra_of(out@[i].0 as int),
        out@.len() < count ==> forall|r: int|
            #[trigger] map.spec_row_of(r) <= start + out@.len() <= map.spec_row_of(r) + map.spec_extra_of(r)
                ==> r >= known,
{
    let mut out: Vec<(usize, usize)> = Vec::new();
    let (mut record, mut sub) = map.at(start);
    while out.len() < count && record < known
        invariant
            map.wf(),
            out@.len() <= count,
            map.spec_row_of(record as int) + sub == start + out@.len(),
            sub <= map.spec_extra_of(record as int),
            forall|i: int|
                0 <= i < out@.len() ==> (#[trigger] out@[i]).0 < known && map.spec_row_of(out@[i].0 as int)
                    + out@[i].1 == start + i && out@[i].1 <= map.spec_extra_of(out@[i].0 as int),
        decreases count - out@.len(),
    {
        out.push((record, sub));
        let e = map.extra_of(record);
        if sub < e {
            sub = sub + 1;
        } else {
            proof {
                lemma_extra_before_step(map, record as int);
            }
            record = record + 1;
            sub = 0;
        }
    }
    proof {
        if out@.len() < count {
            assert forall|r: int|
                #[trigger] map.spec_row_of(r) <= start + out@.len() <= map.spec_row_of(r) + map.spec_extra_of(r)
                    implies r >= known by {
                lemma_rows_unique(map, r, start + out@.len() - map.spec_row_of(r), record as int, sub as int);
            }
        }
    }
    out
}

} // verus!
