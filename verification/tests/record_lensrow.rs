//! The group row's text: what a folded run says it swallowed.

use lib::source::record::body::Body;
use lib::source::record::lensrow::{group_text, headline, lens_spans, pad, toc_line};
use lib::source::record::plan::{Class, Plan, Summary};
use lib::source::record::rowmap::RowMap;

/// A run that recorded no tokens reads exactly as it always has. This pins that
/// adding the clause moved no shipped row: `agent` and `atif` both leave
/// `Summary::tokens` at 0, so every one of their group rows is byte-identical.
#[test]
fn a_run_that_counted_nothing_says_nothing_about_tokens() {
    assert_eq!(group_text(6, 4, 0), "\u{27e8}6 steps \u{b7} 4 tool calls\u{27e9}");
    assert_eq!(group_text(1, 0, 0), "\u{27e8}1 step\u{27e9}");
    assert_eq!(group_text(1, 1, 0), "\u{27e8}1 step \u{b7} 1 tool call\u{27e9}");
    assert_eq!(group_text(3, 0, 0), "\u{27e8}3 steps\u{27e9}");
}

/// The third clause, with the singular and plural the other two already have.
#[test]
fn a_run_that_counted_tokens_totals_them() {
    assert_eq!(
        group_text(15, 3, 128_000),
        "\u{27e8}15 steps \u{b7} 3 tool calls \u{b7} 128k tokens\u{27e9}"
    );
    assert_eq!(group_text(1, 0, 1), "\u{27e8}1 step \u{b7} 1 token\u{27e9}");
    assert_eq!(group_text(2, 0, 380), "\u{27e8}2 steps \u{b7} 380 tokens\u{27e9}");
    // Spelled by the one spelling there is, so the group row and a record row
    // cannot disagree about what `1.9k` means.
    assert_eq!(group_text(2, 0, 1_999), "\u{27e8}2 steps \u{b7} 1.9k tokens\u{27e9}");
}

#[test]
fn a_column_is_padded_in_display_columns_and_sanitised() {
    assert_eq!(pad("ab", 4), "ab   ");
    assert_eq!(pad("user", 2), "user ", "wider than the column: only the space");
    assert_eq!(pad("\u{4e2d}", 4), "\u{4e2d}   ", "a wide character takes two columns");
    assert_eq!(pad("a\u{7}", 3), "a\u{b7}  ", "a control character is shown, not sent");
    assert_eq!(pad("", 0), " ");
}

#[test]
fn a_toc_line_is_the_rows_columns_tab_separated_and_sanitised() {
    let mut plan = Plan::new("fake");
    let mut map = RowMap::new();
    let said = Summary {
        class: Class::Message,
        actor: "user".to_string(),
        time: Some("10:55".to_string()),
        what: "fix \u{1b}[2Jit".to_string(),
        calls: 0,
        tokens: 0,
        body: None,
    };
    plan.classify(0, Some(said), &mut map);
    plan.classify(1, None, &mut map);
    let bare = Summary {
        class: Class::Step,
        actor: "tool".to_string(),
        time: None,
        what: "ran".to_string(),
        calls: 1,
        tokens: 0,
        body: None,
    };
    plan.classify(2, Some(bare), &mut map);
    plan.sync();
    assert_eq!(toc_line(Some(&plan), 0), Some("1\tuser\t10:55\tfix \u{b7}[2Jit".to_string()));
    assert_eq!(toc_line(Some(&plan), 1), None, "a record the lens did not read");
    assert_eq!(toc_line(Some(&plan), 2), Some("3\ttool\t\tran".to_string()), "no clock, an empty column");
    assert_eq!(toc_line(Some(&plan), 9), None);
    assert_eq!(toc_line(None, 0), None);
}

fn said(class: Class, what: &str, body: Option<&str>) -> Summary {
    Summary {
        class,
        actor: "user".to_string(),
        time: None,
        what: what.to_string(),
        calls: 0,
        tokens: 0,
        body: body.map(|b| b.to_string()),
    }
}

#[test]
fn a_message_row_shows_its_first_wrapped_line_and_a_step_what_it_did() {
    let text = "hello world";
    let body = Body { bytes: 11, lines: 1 };
    let msg = said(Class::Message, "hello world", Some(text));
    assert_eq!(headline(&msg, body, text, 80), "hello world");
    assert_eq!(headline(&msg, body, text, 29), "hello", "eight columns: the first row of the wrap");
    let step = said(Class::Step, "ran \u{7}ls", Some(text));
    assert_eq!(headline(&step, body, text, 80), "ran \u{b7}ls", "a step keeps what it did");
    let quiet = said(Class::Message, "nothing", None);
    assert_eq!(headline(&quiet, body, "", 80), "nothing");
    let blank = said(Class::Message, "x", Some("\n\n"));
    assert_eq!(headline(&blank, Body { bytes: 2, lines: 3 }, "\n\n", 80), "");
}

#[test]
fn a_lens_row_is_who_when_and_what_in_their_columns() {
    let mut sum = said(Class::Message, "hello", None);
    sum.time = Some("10:55".to_string());
    assert_eq!(lens_spans(&sum, "hello", true, false), "\u{25be} user       10:55   hello");
    assert_eq!(lens_spans(&sum, "hello", false, true), "    user       10:55   hello", "a member sits two columns in");
    sum.time = None;
    sum.actor = "\u{21b3} assistant".to_string();
    assert_eq!(lens_spans(&sum, "x", false, false), "  \u{21b3} assistant         x", "columns, not bytes");
}
