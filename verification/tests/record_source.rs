//! A record document's state apart from its records: the lens forwarders,
//! the fold vocabulary a session saves, and what a row hides.

use lib::source::record::lensrow::{group_counts, inset_of, item_open, measured};
use lib::source::record::ops::{block_at, next_message};
use lib::source::record::body::Body;
use lib::source::record::parts::{size_of, Laid};
use lib::source::record::plan::{Class, Plan, Spot, Summary};
use lib::source::record::rowmap::RowMap;
use lib::source::record::source::{EntryFold, Hidden, RecordSource};
use lib::source::types::{Anchor, Entry};

fn read(kind: char, calls: usize) -> Option<Summary> {
    let class = match kind {
        'm' => Class::Message,
        's' => Class::Step,
        _ => return None,
    };
    Some(Summary { class, actor: "x".to_string(), time: None, what: String::new(), calls, tokens: 0, body: None })
}

/// A document read through a lens, one record per kind.
fn lensed(kinds: &str) -> RecordSource {
    let mut s = RecordSource::new();
    s.set_lens("fake");
    let plan = s.plan.as_mut().expect("a lens");
    for (i, ch) in kinds.chars().enumerate() {
        plan.classify(i, read(ch, 2), &mut s.map);
    }
    plan.sync();
    s
}

fn entry(id: &str) -> Entry {
    Entry { level: 1, id: id.to_string(), text: id.to_string(), anchor: Anchor(0), folded: false }
}

#[test]
fn no_lens_is_no_plan_and_no_name() {
    let s = RecordSource::new();
    assert_eq!(s.lens_name(), None);
    assert_eq!(s.block_of_row(0), None);
    assert_eq!(s.block_text(0, true, 3), "");
    assert_eq!(s.group_folds(), Vec::<String>::new());
    assert_eq!(s.spot(3, 1), Spot::Record { record: 1, sub: 0 });
}

#[test]
fn a_lens_names_itself_and_groups_the_steps() {
    let s = lensed("mssm");
    assert_eq!(s.lens_name(), Some("fake"));
    assert_eq!(s.item_first(1), 1);
    assert!(!s.record_visible(2), "a shut run hides its records");
    assert!(s.record_visible(3));
    assert_eq!(s.spot(4, 1), Spot::Group { item: 1 });
    assert_eq!(s.record_at(4, 1), 1);
    assert_eq!(s.row_of_record(3), 2);
    assert_eq!(s.fold_id_at(Spot::Group { item: 1 }), "g1");
    assert_eq!(s.fold_id_at(Spot::Record { record: 3, sub: 0 }), "/3");
}

#[test]
fn a_run_counts_its_records_and_their_calls() {
    let s = lensed("msssm");
    assert_eq!(group_counts(s.plan.as_ref(), 1), (1, 3, 6));
    assert_eq!(group_counts(s.plan.as_ref(), 9), (0, 0, 0));
    assert_eq!(group_counts(None, 0), (0, 0, 0));
    let mut s = s;
    s.open_groups(usize::MAX);
    assert!(s.in_open_group(2));
    assert_eq!(inset_of(s.plan.as_ref().unwrap(), 2), 2);
    assert_eq!(inset_of(s.plan.as_ref().unwrap(), 0), 0);
}

#[test]
fn opening_revealing_and_shutting_runs() {
    let mut s = lensed("mssmss");
    s.reveal_record(2);
    assert!(s.in_open_group(2));
    assert!(!s.in_open_group(4), "only the run holding the record opens");
    assert_eq!(s.group_folds(), vec!["g1".to_string()]);
    s.close_groups();
    assert_eq!(s.group_folds(), Vec::<String>::new());
    assert_eq!(s.set_group_by_id("g4", true), Some(true));
    assert_eq!(s.set_group_by_id("g4", true), Some(false), "already open");
    assert_eq!(s.set_group_by_id("/4", true), None, "a record id is not a group's");
    assert_eq!(s.group_folds(), vec!["g4".to_string()]);
}

#[test]
fn the_fold_state_names_zr_the_open_runs_and_the_open_records() {
    let mut s = lensed("mssm");
    assert_eq!(s.fold_ids(), Vec::<String>::new());
    s.expand_all = true;
    s.set_group_by_id("g1", true);
    assert!(s.map.open(3, 2));
    assert!(s.map.open(0, 1));
    let ids = s.fold_ids();
    assert_eq!(ids, vec!["*".to_string(), "g1".to_string(), "/0".to_string(), "/3".to_string()]);
    // Read back into a fresh state, the same document comes out.
    let mut t = lensed("mssm");
    let records = t.restore_folds(&ids);
    assert!(t.expand_all);
    assert_eq!(t.group_folds(), vec!["g1".to_string()]);
    assert_eq!(records, vec![0, 3], "the records for the format to open");
    assert_eq!(t.filled, 0);
}

#[test]
fn zm_shuts_everything_and_zr_opens_every_message() {
    let mut s = lensed("mssm");
    s.set_group_by_id("g1", true);
    assert!(s.map.open(0, 3));
    s.fold_every(false);
    assert!(s.expand_all);
    assert_eq!(s.map.open_count(), 0);
    assert!(s.plan.as_ref().unwrap().full_at(0), "every message at its open level");
    s.fold_every(true);
    assert!(!s.expand_all);
    assert_eq!(s.group_folds(), Vec::<String>::new());
    assert!(!s.plan.as_ref().unwrap().full_at(0));
}

#[test]
fn the_outline_entry_of_a_row_is_found_by_its_id() {
    let mut s = lensed("mssm");
    s.outline = vec![entry("/0"), entry("g1"), entry("/3")];
    assert_eq!(s.section_of(4, 0), Some(0));
    assert_eq!(s.section_of(4, 1), Some(1));
    assert_eq!(s.section_of(4, 2), Some(2));
    s.mark_entry(1, true);
    assert!(s.outline[1].folded);
    s.mark_entry(7, true);
    assert_eq!(s.outline.len(), 3, "an entry that is not there is not made");
}

#[test]
fn a_row_says_what_it_hides() {
    let s = lensed("mssm");
    assert_eq!(s.hidden_under(4, 1), Hidden::Rows(2), "a shut run hides its records");
    assert_eq!(s.hidden_under(4, 0), Hidden::TreeOf(0), "a shut record its tree");
    let mut open = lensed("mssm");
    assert!(open.map.open(0, 2));
    open.plan.as_mut().unwrap().sync();
    assert_eq!(open.hidden_under(4, 0), Hidden::Nothing, "an open record hides nothing");
    let plain = RecordSource::new();
    assert_eq!(plain.hidden_under(3, 5), Hidden::Nothing, "past the records indexed");
}

#[test]
fn blocks_step_by_item_and_say_where_they_are() {
    let s = lensed("mssm");
    assert_eq!(s.block_of_row(0), Some((0, 3)));
    assert_eq!(s.next_block_row(0, true), Some(1));
    assert_eq!(s.next_block_row(2, false), Some(1));
    assert_eq!(s.block_rows(1), Some(1..2));
    assert_eq!(block_at(s.plan.as_ref(), &s.map, 9), None);
    assert_eq!(s.block_text(1, true, 4), "  \u{b7}  block 2/3");
    assert_eq!(s.block_text(1, false, 4), "  \u{b7}  block 2/\u{2265}3");
    assert_eq!(s.block_text(1, true, 9), "  \u{b7}  block 2/\u{2265}3", "the lens has not read them all");
}

#[test]
fn without_a_lens_a_record_is_its_own_block() {
    let mut s = RecordSource::new();
    assert!(s.map.open(1, 2));
    // Rows: 0 | 1 1.1 1.2 | 2 | 3
    assert_eq!(s.landmark(4, 0, true), Some(1));
    assert_eq!(s.landmark(4, 2, true), Some(4));
    assert_eq!(s.landmark(4, 3, false), Some(1), "back to the start of the record");
    assert_eq!(s.landmark(4, 1, false), Some(0));
    assert_eq!(s.landmark(4, 0, false), None);
    assert_eq!(s.landmark(4, 5, true), None, "the last record has no next");
}

#[test]
fn a_message_height_can_be_set_by_item() {
    let (mut plan, mut map) = (Plan::new("fake"), RowMap::new());
    plan.classify(0, read('m', 0), &mut map);
    plan.classify(1, read('s', 0), &mut map);
    plan.classify(2, read('s', 0), &mut map);
    plan.sync();
    plan.set_body(0, 4);
    plan.set_body(1, 9);
    plan.sync();
    assert_eq!(plan.body_rows(0), 4);
    assert_eq!(plan.body_rows(1), 0, "a run has no message of its own");
    assert_eq!(plan.rows(3, &map), 1 + 4 + 1);
}

#[test]
fn a_record_climbs_to_its_open_level_and_back() {
    let mut s = lensed("mm");
    assert_eq!(s.set_level(0, true), Some(false), "it was clipped");
    assert_eq!(s.set_level(0, true), None, "already open: the key falls through");
    assert!(s.plan.as_ref().unwrap().full_at(0));
    assert_eq!(s.set_level(0, false), Some(true));
    assert_eq!(s.set_level(9, true), None, "a record the lens has not read");
    assert_eq!(RecordSource::new().set_level(0, true), None, "no lens, no levels");
}

#[test]
fn opening_a_call_shuts_the_one_open_elsewhere_and_says_which() {
    let mut s = lensed("mm");
    s.set_level(0, true);
    s.set_level(1, true);
    assert_eq!(s.toggle_part(0, 2), (Some(false), None));
    assert!(s.plan.as_ref().unwrap().part_open(0, 2));
    // A call on the other record: the first one shuts, and is named.
    assert_eq!(s.toggle_part(1, 0), (Some(false), Some(0)));
    assert!(!s.plan.as_ref().unwrap().part_open(0, 2));
    assert_eq!(s.toggle_part(1, 0), (Some(true), None), "and it shuts again");
    assert_eq!(s.plan.as_ref().unwrap().open_part_record(), None);
    assert_eq!(RecordSource::new().toggle_part(0, 0), (None, None));
}

#[test]
fn an_outline_entry_folds_the_group_or_record_it_names() {
    let mut s = lensed("mssm");
    s.outline = vec![entry("g1"), entry("/3"), entry("/9"), entry("x")];
    assert_eq!(s.fold_entry(0, false), EntryFold::Done(true), "the run opens");
    assert!(s.in_open_group(2));
    assert!(!s.outline[0].folded);
    assert_eq!(s.fold_entry(0, true), EntryFold::Done(true), "and shuts again");
    assert!(s.outline[0].folded);
    assert_eq!(s.fold_entry(0, true), EntryFold::Done(false), "already shut");
    assert_eq!(s.fold_entry(1, false), EntryFold::OpenRecord(3), "opening reads the record");
    assert!(s.map.open(3, 2));
    assert_eq!(s.fold_entry(1, true), EntryFold::Done(true));
    assert!(s.outline[1].folded);
    assert_eq!(s.map.open_count(), 0);
    assert_eq!(s.fold_entry(2, true), EntryFold::Done(false), "a record that is not open");
    assert_eq!(s.fold_entry(3, true), EntryFold::Done(false), "an id that names nothing");
    assert_eq!(s.fold_entry(4, true), EntryFold::Done(false), "no such entry");
}

#[test]
fn enter_on_a_part_row_opens_only_a_call() {
    let mut laid = Laid::empty();
    assert_eq!(laid.call_at(0), None, "no rows, no call");
    laid.rows = vec!["thinking".to_string(), "bash".to_string(), "  command".to_string()];
    laid.owner = vec![0, 1, 1, 5];
    laid.opens = vec![false, true];
    assert_eq!(laid.call_at(0), None, "text does not open");
    assert_eq!(laid.call_at(1), Some(1));
    assert_eq!(laid.call_at(2), Some(1), "a call's own rows act on the call");
    assert_eq!(laid.call_at(3), None, "a part that says nothing of opening");
    assert_eq!(laid.call_at(4), None);
}

#[test]
fn enter_climbs_a_record_or_opens_the_call_under_it() {
    let mut s = lensed("mm");
    let summary = Spot::Record { record: 0, sub: 0 };
    assert_eq!(s.descend(summary, None, true), (Some(false), None), "up to the open level");
    assert!(s.plan.as_ref().unwrap().full_at(0));
    assert_eq!(s.descend(Spot::Body { record: 0, line: 2 }, None, true), (Some(true), None), "and back");
    assert_eq!(s.descend(summary, None, false), (None, None), "nothing further to show");
    assert_eq!(s.descend(Spot::Record { record: 0, sub: 3 }, None, true), (None, None), "a tree row");
    assert_eq!(s.descend(Spot::Part { record: 1, line: 0 }, Some(2), true), (Some(false), None));
    assert!(s.plan.as_ref().unwrap().part_open(1, 2));
    assert_eq!(s.descend(Spot::Group { item: 0 }, None, true), (None, None));
    assert_eq!(RecordSource::new().descend(summary, None, true), (None, None), "no lens, no ladder");
}

#[test]
fn enter_is_claimed_on_every_lens_row_but_a_groups() {
    let mut s = lensed("mssm");
    let summary = Spot::Record { record: 0, sub: 0 };
    assert_eq!(s.fold_at_row(summary, None, true), (Some(false), None));
    assert_eq!(s.fold_at_row(summary, None, false), (Some(false), None), "claimed, nothing moved");
    assert_eq!(s.fold_at_row(Spot::Group { item: 1 }, None, true), (None, None));
    assert_eq!(s.fold_at_row(Spot::Record { record: 9, sub: 0 }, None, true), (Some(false), None));
    assert_eq!(RecordSource::new().fold_at_row(summary, None, true), (None, None));
}

#[test]
fn a_call_says_how_much_it_returned() {
    assert_eq!(size_of(&Body { bytes: 0, lines: 1 }), "empty", "no bytes is empty, whatever the lines say");
    assert_eq!(size_of(&Body { bytes: 1536, lines: 1 }), "1.5 KB", "one line: its size");
    assert_eq!(size_of(&Body { bytes: 12, lines: 0 }), "12 bytes");
    assert_eq!(size_of(&Body { bytes: 400, lines: 32 }), "32 lines");
}

#[test]
fn measuring_an_item_relays_what_it_shows() {
    let mut s = lensed("mssm");
    assert_eq!(measured(s.plan.as_ref().unwrap(), 0), vec![(0, false)]);
    assert_eq!(measured(s.plan.as_ref().unwrap(), 1), Vec::new(), "a shut run hides its members");
    s.set_group_by_id("g1", true);
    assert_eq!(measured(s.plan.as_ref().unwrap(), 1), vec![(1, true), (2, true)]);
    assert_eq!(measured(s.plan.as_ref().unwrap(), 2), vec![(3, false)]);
    assert_eq!(measured(s.plan.as_ref().unwrap(), 9), Vec::new());
}

#[test]
fn messages_are_found_past_the_runs_between_them() {
    let mut s = lensed("mssm");
    let plan = s.plan.as_ref().unwrap();
    assert_eq!(next_message(Some(plan), &s.map, 4, 0, true), Some(2), "over the shut run");
    assert_eq!(next_message(Some(plan), &s.map, 4, 2, false), Some(0));
    assert_eq!(next_message(Some(plan), &s.map, 4, 2, true), None, "the last message");
    assert_eq!(next_message(None, &s.map, 4, 0, true), None, "no lens, no messages");
    assert_eq!(plan.rows_of_item(1, &s.map), Some(1..2), "a shut run is one row");
    assert_eq!(plan.rows_of_item(3, &s.map), None);
    assert_eq!(plan.under_rows(0), 0, "nothing measured under it yet");
    assert_eq!(plan.body_at(0), None, "a record with nothing to say");
    assert!(!item_open(Some(plan), 1));
    s.set_group_by_id("g1", true);
    assert!(item_open(s.plan.as_ref(), 1));
    assert!(!item_open(s.plan.as_ref(), 9));
    assert!(!item_open(None, 1));
}

#[test]
fn the_outline_lists_groups_and_records_that_open() {
    let mut s = lensed("mssm");
    let g = s.outline_entry(Spot::Group { item: 1 }, 1, false, "\u{27e8}2 steps\u{27e9}").expect("a group");
    assert_eq!((g.level, g.id.as_str(), g.anchor, g.folded), (1, "g1", Anchor(1), true));
    assert_eq!(g.text, "\u{27e8}2 steps\u{27e9}");
    let r = s.outline_entry(Spot::Record { record: 3, sub: 0 }, 2, true, "assistant").expect("a record");
    assert_eq!((r.level, r.id.as_str(), r.text.as_str(), r.anchor, r.folded), (1, "/3", "assistant", Anchor(2), true));
    assert!(s.outline_entry(Spot::Record { record: 3, sub: 0 }, 2, false, "x").is_none(), "nothing to open");
    assert!(s.outline_entry(Spot::Record { record: 3, sub: 1 }, 3, true, "x").is_none(), "a tree row");
    s.set_group_by_id("g1", true);
    let m = s.outline_entry(Spot::Record { record: 2, sub: 0 }, 3, true, "step").expect("a member");
    assert_eq!(m.level, 2, "a member of an open run sits one level down");
    let plain = RecordSource::new();
    let e = plain.outline_entry(Spot::Record { record: 1, sub: 0 }, 1, true, "{\u{2026}2 keys}").expect("a record");
    assert_eq!(e.text, "line 2  {\u{2026}2 keys}");
    assert_eq!((e.level, e.id.as_str(), e.folded), (1, "/1", true));
}
