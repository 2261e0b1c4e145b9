//! The translation between rows and records, with or without a lens, and the
//! text of a folded run's row.
//!
//! A document with no lens has no plan: every question is then the row map's
//! alone. The `None` arm lives here so that no caller gets it wrong.
use vstd::prelude::*;

use super::super::jsonrow::{decimal, push_decimal, push_decimal64};
use super::super::search::{column, str_width, width_upto};
use super::super::text::{push_spaces, spaces, spec_visible, visible};
use super::body::{first_line, layable, spec_lay, Body};
use super::plan::{Class, Item, Plan, Spot, Summary};
use super::rowmap::{total, RowMap};

verus! {

/// Where a screen row falls: the plan's answer under a lens, the row map's
/// without one.
pub fn spot(plan: Option<&Plan>, map: &RowMap, known: usize, row: usize) -> (s: Spot)
    requires
        map.wf(),
        plan matches Some(p) ==> p.wf() && p.synced() && p.fits(map),
    ensures
        plan matches Some(p) ==> s == p.spec_at(row as int, known as int, map),
        plan is None ==> (s matches Spot::Record { record, sub } && row == map.spec_row_of(
            record as int,
        ) + sub && sub <= map.spec_extra_of(record as int)),
{
    match plan {
        Some(p) => p.at(row, known, map),
        None => {
            let (record, sub) = map.at(row);
            Spot::Record { record, sub }
        },
    }
}

/// The row a record's summary sits on: the group's row when a lens has
/// folded it away.
pub fn row_of_record(plan: Option<&Plan>, map: &RowMap, record: usize) -> (row: usize)
    requires
        map.wf(),
        plan matches Some(p) ==> p.wf() && p.synced() && p.fits(map) && (record
            >= p.spec_classified() ==> p.spec_prefix(map) + (record - p.spec_classified())
            <= usize::MAX),
        plan is None ==> record + total(map@) <= usize::MAX,
    ensures
        plan matches Some(p) ==> row == p.spec_row_of_record(record as int, map),
        plan is None ==> row == map.spec_row_of(record as int),
{
    match plan {
        Some(p) => p.row_of_record(record, map),
        None => map.row_of(record),
    }
}

/// The first record of item `item`; `0` with no lens or no such item.
pub fn item_first(plan: Option<&Plan>, item: usize) -> (r: usize)
    ensures
        r == match plan {
            Some(p) => if item < p.spec_items().len() {
                p.spec_items()[item as int].first
            } else {
                0
            },
            None => 0,
        },
{
    match plan {
        Some(p) => match p.item(item) {
            Some(it) => it.first,
            None => 0,
        },
        None => 0,
    }
}

/// Is item `item` an open group? What the outline reports as unfolded.
pub fn item_open(plan: Option<&Plan>, item: usize) -> (b: bool)
    ensures
        b == match plan {
            Some(p) => item < p.spec_items().len() && p.spec_items()[item as int].open,
            None => false,
        },
{
    match plan {
        Some(p) => match p.item(item) {
            Some(it) => it.open,
            None => false,
        },
        None => false,
    }
}

/// The record row `row` belongs to under a lens.
pub open spec fn spec_record_at(p: &Plan, map: &RowMap, known: int, row: int) -> int {
    match p.spec_at(row, known, map) {
        Spot::Record { record, .. } => record as int,
        Spot::Body { record, .. } => record as int,
        Spot::Part { record, .. } => record as int,
        Spot::Group { item } => if item < p.spec_items().len() {
            p.spec_items()[item as int].first as int
        } else {
            0
        },
    }
}

/// The record a row belongs to. A group's row stands for its first record,
/// and a row of text or calls under a record belongs to that record.
pub fn record_at(plan: Option<&Plan>, map: &RowMap, known: usize, row: usize) -> (r: usize)
    requires
        map.wf(),
        plan matches Some(p) ==> p.wf() && p.synced() && p.fits(map),
    ensures
        plan matches Some(p) ==> r == spec_record_at(p, map, known as int, row as int),
        plan is None ==> map.spec_row_of(r as int) <= row <= map.spec_row_of(r as int)
            + map.spec_extra_of(r as int),
{
    match spot(plan, map, known, row) {
        Spot::Record { record, .. } => record,
        Spot::Body { record, .. } => record,
        Spot::Part { record, .. } => record,
        Spot::Group { item } => item_first(plan, item),
    }
}

/// Is `record` a member of a group that is currently open? Its row is then
/// indented under the group's.
pub fn in_open_group(plan: Option<&Plan>, record: usize) -> (b: bool)
    requires
        plan matches Some(p) ==> p.wf(),
    ensures
        b == match plan {
            Some(p) => p.is_member(record as int),
            None => false,
        },
{
    match plan {
        Some(p) => p.in_open_group(record),
        None => false,
    }
}

/// Is `record` a row of its own: not hidden inside a closed group?
pub fn record_visible(plan: Option<&Plan>, record: usize) -> (b: bool)
    requires
        plan matches Some(p) ==> p.wf(),
    ensures
        b == match plan {
            Some(p) => !exists|i: int|
                #[trigger] p.holds(i, record as int) && p.spec_items()[i].spec_is_group()
                    && !p.spec_items()[i].open,
            None => true,
        },
{
    match plan {
        None => true,
        Some(p) => match p.item_of_record(record) {
            None => {
                proof {
                    p.lemma_within(record as int);
                }
                true
            },
            Some(i) => {
                let it = p.items()[i];
                proof {
                    assert(p.holds(i as int, record as int));
                    p.lemma_one_item(record as int, i as int);
                }
                !it.is_group() || it.open
            },
        },
    }
}

/// A token count as a row spells it: the number itself below a thousand, and
/// thousands to one decimal place, cut rather than rounded, above: `380`,
/// `1.9k`, `128k`.
pub open spec fn spec_tokens(n: nat) -> Seq<char> {
    if n < 1000 {
        decimal(n)
    } else {
        let t = n / 100;
        if t % 10 == 0 {
            decimal(t / 10) + seq!['k']
        } else {
            decimal(t / 10) + seq!['.'] + decimal(t % 10) + seq!['k']
        }
    }
}

/// Append a token count, spelled as a row spells it.
pub fn push_tokens(s: &mut String, n: u64)
    ensures
        final(s)@ == old(s)@ + spec_tokens(n as nat),
{
    proof {
        reveal_strlit("k");
        reveal_strlit(".");
    }
    if n < 1000 {
        push_decimal64(s, n);
        return ;
    }
    let t = n / 100;
    push_decimal64(s, t / 10);
    if t % 10 != 0 {
        s.append(".");
        push_decimal64(s, t % 10);
    }
    s.append("k");
}

/// The text of a folded run's row: `⟨6 steps · 4 tool calls · 128k tokens⟩`,
/// the singulars, and no clause for a count of nothing.
pub open spec fn spec_group_text(steps: nat, calls: nat, tokens: nat) -> Seq<char> {
    seq!['\u{27e8}'] + (if steps == 1 {
        "1 step"@
    } else {
        decimal(steps) + " steps"@
    }) + (if calls == 0 {
        Seq::empty()
    } else if calls == 1 {
        " \u{b7} 1 tool call"@
    } else {
        " \u{b7} "@ + decimal(calls) + " tool calls"@
    }) + (if tokens == 0 {
        Seq::empty()
    } else if tokens == 1 {
        " \u{b7} 1 token"@
    } else {
        " \u{b7} "@ + spec_tokens(tokens) + " tokens"@
    }) + seq!['\u{27e9}']
}

/// The text of a folded run's row.
#[verifier::spinoff_prover]
#[verifier::rlimit(40)]
pub fn group_text(steps: usize, calls: usize, tokens: u64) -> (s: String)
    ensures
        s@ == spec_group_text(steps as nat, calls as nat, tokens as nat),
{
    proof {
        reveal_strlit("\u{27e8}");
        reveal_strlit("\u{27e9}");
    }
    let mut s = String::from_str("\u{27e8}");
    if steps == 1 {
        s.append("1 step");
    } else {
        push_decimal(&mut s, steps);
        s.append(" steps");
    }
    if calls == 1 {
        s.append(" \u{b7} 1 tool call");
    } else if calls > 1 {
        s.append(" \u{b7} ");
        push_decimal(&mut s, calls);
        s.append(" tool calls");
    }
    if tokens == 1 {
        s.append(" \u{b7} 1 token");
    } else if tokens > 1 {
        s.append(" \u{b7} ");
        push_tokens(&mut s, tokens);
        s.append(" tokens");
    }
    s.append("\u{27e9}");
    s
}

/// The tool calls the summaries of records `lo .. hi` claim, in all.
pub open spec fn calls_in(seen: Seq<Option<Summary>>, lo: int, hi: int) -> nat
    decreases hi - lo,
{
    if hi <= lo {
        0
    } else {
        calls_in(seen, lo, hi - 1) + match seen[hi - 1] {
            Some(s) => s.calls as nat,
            None => 0,
        }
    }
}

/// Counting calls over a longer run never gives fewer.
pub proof fn lemma_calls_mono(seen: Seq<Option<Summary>>, lo: int, mid: int, hi: int)
    requires
        lo <= mid <= hi,
    ensures
        calls_in(seen, lo, mid) <= calls_in(seen, lo, hi),
    decreases hi - mid,
{
    if mid < hi {
        lemma_calls_mono(seen, lo, mid, hi - 1);
    }
}

/// `(first record, records, tool calls)` of item `item`: the numbers a folded
/// run's row shows. Zeros with no lens or no such item.
pub fn group_counts(plan: Option<&Plan>, item: usize) -> (r: (usize, usize, usize))
    requires
        plan matches Some(p) ==> p.wf() && (item < p.spec_items().len() ==> calls_in(
            p.spec_seen(),
            p.spec_items()[item as int].first as int,
            p.spec_items()[item as int].first + p.spec_items()[item as int].count,
        ) <= usize::MAX),
    ensures
        r == match plan {
            Some(p) => if item < p.spec_items().len() {
                let it = p.spec_items()[item as int];
                (
                    it.first,
                    it.count,
                    calls_in(p.spec_seen(), it.first as int, it.first + it.count) as usize,
                )
            } else {
                (0usize, 0usize, 0usize)
            },
            None => (0usize, 0usize, 0usize),
        },
{
    let p = match plan {
        Some(p) => p,
        None => {
            return (0, 0, 0);
        },
    };
    let it = match p.item(item) {
        Some(it) => *it,
        None => {
            return (0, 0, 0);
        },
    };
    proof {
        p.lemma_item_fits(item as int);
    }
    let end = it.first + it.count;
    let mut calls: usize = 0;
    let mut r = it.first;
    while r < end
        invariant
            it.first <= r <= end,
            end == it.first + it.count,
            end <= p.spec_classified(),
            p.spec_classified() == p.spec_seen().len(),
            calls == calls_in(p.spec_seen(), it.first as int, r as int),
            calls_in(p.spec_seen(), it.first as int, end as int) <= usize::MAX,
        decreases end - r,
    {
        proof {
            lemma_calls_mono(p.spec_seen(), it.first as int, r + 1, end as int);
        }
        match p.summary(r) {
            Some(s) => {
                calls = calls + s.calls;
            },
            None => {},
        }
        r = r + 1;
    }
    (it.first, it.count, calls)
}

/// Columns a record's under-rows are pushed right by: two for a member of an
/// open run, whose own row is inset, and none for anything else.
pub fn inset_of(plan: &Plan, record: usize) -> (n: usize)
    requires
        plan.wf(),
    ensures
        n == if plan.is_member(record as int) {
            2usize
        } else {
            0usize
        },
{
    match in_open_group(Some(plan), record) {
        true => 2,
        false => 0,
    }
}

/// `text` through the sanitiser, padded to `cols` display columns (display
/// columns, not bytes: an actor may be `↳ assistant`), and one space.
pub open spec fn spec_pad(text: Seq<char>, cols: nat) -> Seq<char> {
    let v = spec_visible(text);
    let w = column(v, v.len() as int);
    v + spaces(if w < cols {
        (cols - w) as nat
    } else {
        0
    }) + " "@
}

/// A column of a summary row: [`spec_pad`].
pub fn pad(text: &str, cols: usize) -> (s: String)
    ensures
        s@ == spec_pad(text@, cols as nat),
{
    let mut s = visible(text);
    let w = width_upto(s.as_str(), cols);
    let fill: usize = if w < cols {
        cols - w
    } else {
        0
    };
    push_spaces(&mut s, fill);
    proof {
        reveal_strlit(" ");
    }
    s.append(" ");
    s
}

/// One `--toc` line for a record the lens read: the painted row's three
/// columns, tab-separated for a shell, the record's line number first, and
/// the actor and what it did through the sanitiser.
pub open spec fn spec_toc_line(sum: Summary, record: nat) -> Seq<char> {
    decimal(record + 1) + "\t"@ + spec_visible(sum.actor@) + "\t"@ + match sum.time {
        Some(t) => t@,
        None => Seq::empty(),
    } + "\t"@ + spec_visible(sum.what@)
}

/// The `--toc` line of `record`: [`spec_toc_line`] of its summary, and
/// `None` for a record the lens did not read, which the caller prints as it
/// would without a lens.
pub fn toc_line(plan: Option<&Plan>, record: usize) -> (r: Option<String>)
    ensures
        r is Some <==> (plan matches Some(p) && record < p.spec_classified()
            && p.spec_seen()[record as int] is Some),
        r matches Some(t) ==> t@ == spec_toc_line(plan->0.spec_seen()[record as int]->0, record as nat),
{
    let p = match plan {
        Some(p) => p,
        None => {
            return None;
        },
    };
    let sum = match p.summary(record) {
        Some(s) => s,
        None => {
            return None;
        },
    };
    let n = p.classified();
    proof {
        assert(record < n);
        reveal_strlit("\t");
        reveal_strlit("");
    }
    let mut t = String::from_str("");
    push_decimal(&mut t, record + 1);
    t.append("\t");
    let actor = visible(sum.actor.as_str());
    t.append(actor.as_str());
    t.append("\t");
    match &sum.time {
        Some(c) => t.append(c.as_str()),
        None => {},
    }
    t.append("\t");
    let what = visible(sum.what.as_str());
    t.append(what.as_str());
    proof {
        assert(t@ =~= spec_toc_line(*sum, record as nat));
    }
    Some(t)
}

/// What the `what` column of a record's row paints: for a record that said
/// something, the first wrapped row of its message, at the width its body is
/// laid out for (the rows under it continue that wrap, so the opening words
/// are painted once); for a step, or a record with no text, what it did,
/// through the sanitiser.
pub open spec fn spec_headline(sum: Summary, body: Body, text: Seq<char>, width: nat) -> Seq<char> {
    if sum.body is None || sum.class != Class::Message {
        spec_visible(sum.what@)
    } else {
        let laid = spec_lay(body, text, width, false).0;
        if laid.len() > 0 {
            laid[0]
        } else {
            Seq::empty()
        }
    }
}

/// The `what` column of a record's row: [`spec_headline`]. `text` is the
/// message as far as the caller read it: what the lens kept, or the record's
/// own text where the message is open and the lens kept only its head.
pub fn headline(sum: &Summary, body: Body, text: &str, width: usize) -> (r: String)
    requires
        layable(text@, width as nat, false),
    ensures
        r@ == spec_headline(*sum, body, text@, width as nat),
{
    if sum.body.is_none() || !matches!(sum.class, Class::Message) {
        return visible(sum.what.as_str());
    }
    match first_line(body, text, width) {
        Some(t) => t,
        None => {
            proof {
                reveal_strlit("");
            }
            String::from_str("")
        },
    }
}

/// The records whose rows measuring item `item` re-lays, each with whether
/// it is a member of an open run: every member of an open run, nothing of a
/// shut one (a hidden record owns no rows), and a lone record itself.
pub open spec fn spec_measured(items: Seq<Item>, item: int) -> Seq<(usize, bool)> {
    if 0 <= item < items.len() {
        let it = items[item];
        if it.spec_is_group() {
            if it.open {
                Seq::new(it.count as nat, |k: int| ((it.first + k) as usize, true))
            } else {
                Seq::empty()
            }
        } else {
            seq![(it.first, false)]
        }
    } else {
        Seq::empty()
    }
}

/// What measuring item `item` comes to: [`spec_measured`]. The caller lays
/// out each record so named and hands its height to [`Plan::set_under`],
/// which is where a record may have to be read.
pub fn measured(plan: &Plan, item: usize) -> (r: Vec<(usize, bool)>)
    requires
        plan.wf(),
    ensures
        r@ == spec_measured(plan.spec_items(), item as int),
{
    let it = match plan.item(item) {
        Some(it) => *it,
        None => {
            return Vec::new();
        },
    };
    proof {
        plan.lemma_item_fits(item as int);
    }
    let mut out: Vec<(usize, bool)> = Vec::new();
    if it.is_group() {
        if it.open {
            let mut k: usize = 0;
            while k < it.count
                invariant
                    k <= it.count,
                    it.first + it.count <= usize::MAX,
                    out@ == Seq::new(k as nat, |j: int| ((it.first + j) as usize, true)),
                decreases it.count - k,
            {
                out.push((it.first + k, true));
                proof {
                    assert(out@ =~= Seq::new((k + 1) as nat, |j: int| ((it.first + j) as usize, true)));
                }
                k = k + 1;
            }
        }
        proof {
            assert(out@ =~= spec_measured(plan.spec_items(), item as int));
        }
        return out;
    }
    out.push((it.first, false));
    proof {
        assert(out@ =~= spec_measured(plan.spec_items(), item as int));
    }
    out
}

/// Columns the speaker's name gets before the clock.
pub const ACTOR: usize = 10;

/// Columns the clock gets: `HH:MM`.
pub const TIME: usize = 5;

/// A record's row under a lens: the fold marker for a record that opens and
/// a blank gutter otherwise, two more columns for a member of an open run
/// (after the gutter, so the painter still finds the marker first), then who,
/// when and what, the first two padded to their columns.
pub open spec fn spec_lens_text(sum: Summary, what: Seq<char>, foldable: bool, inset: bool) -> Seq<char> {
    (if foldable {
        "\u{25be} "@
    } else {
        "  "@
    }) + (if inset {
        "  "@
    } else {
        Seq::empty()
    }) + spec_pad(sum.actor@, ACTOR as nat) + spec_pad(
        match sum.time {
            Some(t) => t@,
            None => Seq::empty(),
        },
        TIME as nat,
    ) + "  "@ + what
}

/// `who · when · what` on a record's row: [`spec_lens_text`]. `what` is the
/// headline, already through the sanitiser.
pub fn lens_spans(sum: &Summary, what: &str, foldable: bool, inset: bool) -> (s: String)
    ensures
        s@ == spec_lens_text(*sum, what@, foldable, inset),
{
    proof {
        reveal_strlit("\u{25be} ");
        reveal_strlit("  ");
        reveal_strlit("");
    }
    let mut s = if foldable {
        String::from_str("\u{25be} ")
    } else {
        String::from_str("  ")
    };
    if inset {
        s.append("  ");
    }
    let actor = pad(sum.actor.as_str(), ACTOR);
    s.append(actor.as_str());
    let time = match &sum.time {
        Some(t) => pad(t.as_str(), TIME),
        None => pad("", TIME),
    };
    s.append(time.as_str());
    s.append("  ");
    s.append(what);
    proof {
        assert(s@ =~= spec_lens_text(*sum, what@, foldable, inset));
    }
    s
}

} // verus!
