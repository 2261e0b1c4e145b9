//! What a record file does without a lens: the list view, a bad line not
//! stopping the file, expansion, the outline, the fold state and the `Tab`
//! landmarks. The records are built as a parser would hand them over.

use lib::json::value::{Member, Value};
use lib::source::jsonl::JsonlSource;
use lib::source::record::store::Record;

fn num(n: &str) -> Value {
    Value::Number(n.to_string())
}

fn text(s: &str) -> Value {
    Value::Str(s.to_string())
}

fn obj(members: Vec<(&str, Value)>) -> Value {
    Value::Object(members.into_iter().map(|(k, v)| Member { key: k.to_string(), value: v }).collect())
}

/// `{"type":"user","n":1}`, `{"type":"assistant","n":2,"items":[10,20]}`,
/// `{"type":"system","n":3}`.
fn three() -> Vec<Record> {
    vec![
        Record::Value(obj(vec![("type", text("user")), ("n", num("1"))])),
        Record::Value(obj(vec![
            ("type", text("assistant")),
            ("n", num("2")),
            ("items", Value::Array(vec![num("10"), num("20")])),
        ])),
        Record::Value(obj(vec![("type", text("system")), ("n", num("3"))])),
    ]
}

/// A source over `records`, with the outline over its first rows built as
/// the first frame would.
fn src(records: Vec<Record>) -> JsonlSource {
    let mut s = JsonlSource::new(records);
    let n = s.len_rows();
    s.rebuild_outline(0, n);
    s
}

/// The whole document as plain text rows.
fn rows(s: &JsonlSource) -> Vec<String> {
    s.collect(0, s.len_rows())
}

#[test]
fn the_default_view_is_one_row_per_record() {
    let s = src(three());
    let got = rows(&s);
    assert_eq!(got.len(), 3, "{got:?}");
    assert_eq!(got[0], "\u{25be} {\u{2026}2 keys}  \u{b7} type: \"user\"  \u{b7} n: 1");
    assert!(got[1].starts_with("\u{25be} {\u{2026}3 keys}  \u{b7} type: \"assistant\""));
    assert_eq!(got[2], "\u{25be} {\u{2026}2 keys}  \u{b7} type: \"system\"  \u{b7} n: 3");
}

#[test]
fn a_summary_counts_and_previews_but_never_lies_about_the_count() {
    let s = src(vec![
        Record::Value(obj(vec![("a", num("1")), ("b", num("2")), ("c", num("3")), ("d", num("4")), ("e", num("5"))])),
        Record::Value(Value::Array(vec![num("1"), num("2"), num("3")])),
        Record::Value(text("bare")),
        Record::Value(obj(vec![])),
    ]);
    let got = rows(&s);
    assert_eq!(got[0], "\u{25be} {\u{2026}5 keys}  \u{b7} a: 1  \u{b7} b: 2  \u{b7} c: 3");
    assert_eq!(got[1], "\u{25be} [\u{2026}3 items]  \u{b7} 1  \u{b7} 2  \u{b7} 3");
    assert_eq!(got[2], "  \"bare\"");
    assert_eq!(got[3], "\u{25be} {}");
}

#[test]
fn a_long_scalar_is_not_previewed_beside_the_count() {
    let long = "x".repeat(200);
    let s = src(vec![Record::Value(obj(vec![("big", text(&long)), ("small", num("7"))]))]);
    let got = rows(&s);
    assert_eq!(got[0], "\u{25be} {\u{2026}2 keys}  \u{b7} small: 7");
}

#[test]
fn a_null_is_counted_but_never_previewed() {
    let mut s = src(vec![Record::Value(obj(vec![("parentUuid", Value::Null), ("type", text("user"))]))]);
    let got = rows(&s);
    assert_eq!(got[0], "\u{25be} {\u{2026}2 keys}  \u{b7} type: \"user\"");
    let entry = s.section_at(0).unwrap();
    s.set_fold(entry, false);
    let all = rows(&s);
    assert_eq!(all[1], "    \"parentUuid\": null", "open, the null is there");
}

#[test]
fn a_bad_line_is_an_error_row_and_the_file_keeps_going() {
    let s = src(vec![
        Record::Value(obj(vec![("a", num("1"))])),
        Record::Bad("expected a value at column 1".to_string()),
        Record::Value(obj(vec![("b", num("2"))])),
        Record::Bad("blank line".to_string()),
        Record::Value(obj(vec![("c", num("3"))])),
    ]);
    let got = rows(&s);
    assert_eq!(got.len(), 5, "{got:?}");
    assert!(got[1].starts_with("  line 2: "), "{:?}", got[1]);
    assert!(got[3].contains("line 4: blank line"), "{:?}", got[3]);
    assert!(got[4].contains("c: 3"), "{:?}", got[4]);
    assert_eq!(s.hidden_at(1), None);
    assert_eq!(s.section_at(1), None);
}

#[test]
fn enter_expands_a_record_into_its_tree() {
    let mut s = src(three());
    assert_eq!(s.len_rows(), 3);
    assert_eq!(s.hidden_at(1), Some(7));
    let entry = s.section_at(1).expect("record 1 is a section");
    assert!(s.set_fold(entry, false));
    assert_eq!(s.len_rows(), 3 + 7);
    let got = rows(&s);
    assert_eq!(
        &got[1..9],
        &[
            "\u{25be} {\u{2026}3 keys}  \u{b7} type: \"assistant\"  \u{b7} n: 2".to_string(),
            "    \"type\": \"assistant\"".to_string(),
            "    \"n\": 2".to_string(),
            "  \u{25be} \"items\": [".to_string(),
            "      10".to_string(),
            "      20".to_string(),
            "    ]".to_string(),
            "  }".to_string(),
        ]
    );
    assert_eq!(s.hidden_at(1), None);
    let entry = s.section_at(1).expect("still a section");
    assert!(s.set_fold(entry, true));
    assert_eq!(s.len_rows(), 3);
}

#[test]
fn fold_state_is_the_open_records_and_survives_a_round_trip() {
    let mut s = src(three());
    let entry = s.section_at(1).unwrap();
    s.set_fold(entry, false);
    let state = s.folds();
    assert_eq!(state, vec!["/1".to_string()]);
    let mut other = src(three());
    other.set_folds(&state);
    assert_eq!(other.len_rows(), 3 + 7);
    other.set_folds(&["/9999".to_string(), "nonsense".to_string()]);
    assert_eq!(other.len_rows(), 3, "ids that do not exist are ignored");
}

#[test]
fn zm_shuts_everything_and_zr_opens_what_the_viewport_reaches() {
    let mut s = src(three());
    s.fold_all(false, 1024);
    let opened = s.len_rows();
    assert!(opened > 3, "zR opened nothing");
    assert_eq!(s.folds()[0], "*");
    s.fold_all(true, 1024);
    assert_eq!(s.len_rows(), 3);
}

#[test]
fn zr_stops_where_the_viewport_does() {
    let mut s = src(three());
    s.fold_all(false, 4);
    assert_eq!(s.folds(), vec!["*".to_string(), "/0".to_string(), "/1".to_string()]);
    assert_eq!(s.filled, 2, "record 2's row, 12 once the two above it open, is past row 4");
    s.fold_all(false, 3);
    assert_eq!(s.folds(), vec!["*".to_string(), "/0".to_string()], "record 1's row moved to 4");
    s.fill_expansion(100);
    assert_eq!(s.filled, 3);
    assert_eq!(s.folds().len(), 4);
    assert_eq!(s.len_rows(), 3 + 3 + 7 + 3);
}

#[test]
fn tab_steps_by_record_even_inside_an_open_one() {
    let mut s = src(three());
    let entry = s.section_at(1).unwrap();
    s.set_fold(entry, false);
    assert_eq!(s.next_landmark(0, true), Some(1));
    assert_eq!(s.next_landmark(3, false), Some(1));
    assert_eq!(s.next_landmark(1, false), Some(0));
    assert_eq!(s.next_landmark(1, true), Some(9));
    assert_eq!(s.next_landmark(9, true), None);
}

#[test]
fn a_record_number_is_an_anchor_id() {
    let s = src(three());
    assert_eq!(s.goto_id("2"), Some(2));
    assert_eq!(s.goto_id("#0"), Some(0));
    assert_eq!(s.goto_id("99"), None);
    assert_eq!(s.goto_id("not a number"), None);
}

#[test]
fn numbers_keep_their_source_text_and_duplicate_keys_are_kept() {
    let mut s = src(vec![Record::Value(obj(vec![
        ("a", num("1e999")),
        ("b", num("0.10")),
        ("a", num("123456789012345678901234567890")),
    ]))]);
    let entry = s.section_at(0).unwrap();
    s.set_fold(entry, false);
    let got = rows(&s);
    assert_eq!(
        &got[1..],
        &[
            "    \"a\": 1e999".to_string(),
            "    \"b\": 0.10".to_string(),
            "    \"a\": 123456789012345678901234567890".to_string(),
            "  }".to_string(),
        ]
    );
}

#[test]
fn control_characters_in_a_string_are_neutralised_on_screen() {
    let s = src(vec![Record::Value(obj(vec![("s", text("a\u{7}b\tc"))]))]);
    let got = rows(&s);
    assert!(!got[0].contains('\u{7}'), "{:?}", got[0]);
    assert!(!got[0].contains('\t'), "{:?}", got[0]);
}

#[test]
fn the_outline_lists_the_records_that_open_with_their_line_numbers() {
    let mut s = src(three());
    assert_eq!(s.outline.len(), 3);
    assert_eq!(s.outline[1].id, "/1");
    assert_eq!(s.outline[1].text, "line 2  {\u{2026}3 keys}");
    assert!(s.outline[1].folded);
    s.set_fold(1, false);
    assert!(!s.outline[1].folded, "the entry is marked");
    s.rebuild_outline(2, 5);
    assert_eq!(s.outline.len(), 1, "only record 1's rows were painted");
    assert_eq!(s.outline[0].anchor.0, 1);
    s.rebuild_outline(4, 4);
    assert!(s.outline.is_empty());
}

#[test]
fn a_window_of_rows_starts_anywhere_and_stops_at_the_end() {
    let mut s = src(three());
    let entry = s.section_at(1).unwrap();
    s.set_fold(entry, false);
    assert_eq!(s.collect(3, 2), vec!["    \"n\": 2".to_string(), "  \u{25be} \"items\": [".to_string()]);
    assert_eq!(s.collect(9, 5).len(), 1, "the last record's row and nothing after");
    assert!(s.collect(10, 5).is_empty());
}

#[test]
fn the_table_of_contents_is_one_line_per_record() {
    let s = src(vec![Record::Value(obj(vec![("type", text("user"))])), Record::Bad("not JSON".to_string())]);
    assert_eq!(
        s.summaries(9),
        vec!["1\t{\u{2026}1 key}  \u{b7} type: \"user\"".to_string(), "2\tnot JSON".to_string()]
    );
    assert_eq!(s.summaries(1).len(), 1);
}

#[test]
fn the_status_bar_names_the_record_and_the_path_under_the_cursor() {
    let mut s = src(three());
    assert_eq!(s.position_text(0, true, 100), "record 1/3");
    assert_eq!(s.position_text(0, false, 40), "record 1/\u{2265}3 (indexing 40%)");
    let entry = s.section_at(1).unwrap();
    s.set_fold(entry, false);
    assert_eq!(s.path_of(1), None, "a record's own row is the record");
    assert_eq!(s.path_of(2), Some(".type".to_string()));
    assert_eq!(s.position_text(5, true, 100), "record 2/3  \u{b7}  .items[0]");
    assert_eq!(s.position_text(8, true, 100), "record 2/3", "the record's closing brace is the record");
    assert_eq!(s.position_text(9, true, 100), "record 3/3");
}

#[test]
fn a_yank_copies_the_value_under_the_cursor_or_the_whole_record() {
    let mut s = src(three());
    let entry = s.section_at(1).unwrap();
    s.set_fold(entry, false);
    let y = s.yank_point(0).unwrap();
    assert_eq!(y.text, "{\"type\":\"user\",\"n\":1}\n");
    assert_eq!(y.what, "record 1");
    let y = s.yank_point(2).unwrap();
    assert_eq!(y.text, "assistant\n", "a string is copied as its own characters");
    assert_eq!(y.what, ".type \u{b7} record 2");
    let y = s.yank_point(4).unwrap();
    assert_eq!(y.text, "[10,20]\n");
    let y = s.yank_section(5).unwrap();
    assert_eq!(y.text, "{\"type\":\"assistant\",\"n\":2,\"items\":[10,20]}\n");
    assert_eq!(y.what, "record 2");
    let y = s.yank_rows(5, 7).unwrap();
    assert_eq!(y.text, "10\n20\n");
    assert_eq!(y.what, "2 values");
    assert_eq!(s.yank_rows(6, 7).unwrap().what, "1 value");
    assert!(s.yank_rows(40, 50).is_none(), "past the end there is nothing to copy");
}

#[test]
fn a_line_that_did_not_parse_has_no_value_to_copy() {
    let s = src(vec![Record::Bad("not JSON".to_string()), Record::Value(Value::Bool(true))]);
    assert!(s.yank_point(0).is_none());
    assert!(s.yank_section(0).is_none());
    assert_eq!(s.row_json(1), Some("true".to_string()));
    assert_eq!(s.yank_rows(0, 2).unwrap().text, "true\n");
}

#[test]
fn a_frame_lays_out_its_window_and_builds_the_outline_over_it() {
    let mut s = JsonlSource::new(three());
    let got = s.lines(1, 99);
    assert_eq!(got.len(), 2, "clamped to the document");
    assert!(got[0].contains("assistant"));
    assert_eq!(s.outline.len(), 2, "records 1 and 2 were painted");
    assert_eq!(s.outline[0].id, "/1");
    s.fold_all(false, 0);
    let all = s.lines(0, 100);
    assert_eq!(all.len(), 3 + 3 + 7 + 3, "zR opened everything the window reached");
    assert_eq!(s.filled, 3);
}
