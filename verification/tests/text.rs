//! How a line of a plain text file is painted.

use lib::source::search::str_width;
use lib::source::search::Dir;
use lib::source::text::{
    display, end, is_control, line_hits, needle_of, position_text, sweep_lines, utf8_len, visible,
};
use lib::source::types::End;

#[test]
fn tabs_expand_to_a_tab_stop_and_other_controls_are_dotted() {
    assert_eq!(display("\tif x:"), "        if x:");
    assert_eq!(display("a\tb"), "a       b");
    assert_eq!(display("abcdefg\tx"), "abcdefg x", "one column to the stop");
    assert_eq!(display("abcdefgh\tx"), "abcdefgh        x", "a full stop");
    assert_eq!(display("\t\tdeep"), "                deep");
    // A wide character costs two columns, so the next stop accounts for it.
    assert_eq!(display("\u{4e2d}\tx"), "\u{4e2d}      x");
    assert_eq!(str_width(&display("\u{4e2d}\tx")), 9);

    assert_eq!(display("esc\u{1b}[31m"), "esc\u{b7}[31m");
    assert_eq!(display("nul\0"), "nul\u{b7}");
    assert_eq!(display("plain"), "plain");

    // A file's rows are its lines, each painted the same way.
    let painted: Vec<String> = "\tindented\n\u{1b}[2J\n".lines().map(display).collect();
    assert_eq!(painted[0], "        indented");
    assert!(!painted[1].contains('\u{1b}'), "{:?}", painted[1]);
    assert_eq!(painted[1], "\u{b7}[2J");
}

#[test]
fn a_line_with_no_control_character_is_painted_as_it_is() {
    for line in ["", "plain", "\u{4e2d}\u{6587}", "a b  c", "x\u{7e}y"] {
        assert_eq!(display(line), line);
    }
}

#[test]
fn the_c1_controls_are_dotted_too() {
    assert_eq!(display("a\u{7f}b\u{85}c\u{9f}d\u{a0}e"), "a\u{b7}b\u{b7}c\u{b7}d\u{a0}e");
}

#[test]
fn the_sanitiser_dots_every_control_character_and_keeps_the_rest() {
    assert_eq!(visible("before\u{7}after"), "before\u{b7}after");
    assert_eq!(visible("a\tb\u{1b}[0m"), "a\u{b7}b\u{b7}[0m");
    assert_eq!(visible("\u{4e2d} plain"), "\u{4e2d} plain");
    assert_eq!(visible(""), "");
    assert!(is_control('\0') && is_control('\u{9f}') && !is_control(' ') && !is_control('\u{a0}'));
}

#[test]
fn a_character_takes_one_to_four_bytes() {
    for c in ['a', '\u{e9}', '\u{4e2d}', '\u{1f600}'] {
        assert_eq!(utf8_len(c), c.len_utf8());
    }
}

#[test]
fn the_status_bar_counts_lines_and_says_when_it_is_still_counting() {
    assert_eq!(position_text(0, 4, true, 100), "0%  \u{b7}  line 1/4");
    assert_eq!(position_text(3, 4, true, 100), "100%  \u{b7}  line 4/4");
    assert_eq!(end(4, true, 100), End::At(3));
    let text = position_text(0, 2048, false, 12);
    assert!(text.contains('\u{2265}') && text.contains("indexing"), "{text}");
    assert_eq!(text, "line 1/\u{2265}2048 (indexing 12%)");
    assert_eq!(end(2048, false, 12), End::Scanning(12));
    assert_eq!(end(100_000, true, 100), End::At(99_999));
    assert_eq!(position_text(99_999, 100_000, true, 100), "100%  \u{b7}  line 100000/100000");
}

#[test]
fn a_position_past_the_end_or_in_an_empty_file_never_panics() {
    assert_eq!(position_text(7, 4, true, 100), "100%  \u{b7}  line 4/4");
    assert_eq!(position_text(0, 0, true, 100), "100%  \u{b7}  line 0/0");
    assert_eq!(position_text(1, 3, true, 100), "50%  \u{b7}  line 2/3");
    assert_eq!(end(0, true, 100), End::At(0));
}

fn lines() -> Vec<String> {
    vec!["alpha".to_string(), "beta".to_string(), "gamma".to_string(), "beta again".to_string()]
}

#[test]
fn search_walks_the_file_and_wraps() {
    let ls = lines();
    let (needle, sensitive) = needle_of("beta");
    let hits = |i: usize| line_hits(&ls[i], &needle, sensitive);
    assert_eq!(sweep_lines("beta", 4, 0, Dir::Forward, true, hits), Some((1, false)));
    assert_eq!(sweep_lines("beta", 4, 1, Dir::Forward, false, hits), Some((3, false)));
    assert_eq!(sweep_lines("beta", 4, 3, Dir::Forward, false, hits), Some((1, true)), "the sweep came round again");
    assert_eq!(sweep_lines("beta", 4, 1, Dir::Backward, false, hits), Some((3, true)));
    assert_eq!(sweep_lines("beta", 4, 99, Dir::Backward, true, hits), Some((3, false)), "from past the end: the last line");
    let (nowhere, s2) = needle_of("nowhere");
    assert_eq!(sweep_lines("nowhere", 4, 0, Dir::Forward, true, |i: usize| line_hits(&ls[i], &nowhere, s2)), None);
    assert_eq!(sweep_lines("", 4, 0, Dir::Forward, true, hits), None, "an empty query finds nothing");
    assert_eq!(sweep_lines("beta", 0, 0, Dir::Forward, true, |_| true), None, "nor does an empty file");
}

#[test]
fn case_folding_is_the_shared_rule() {
    let (n, sensitive) = needle_of("alpha");
    assert!(!sensitive);
    assert!(line_hits("Alpha", &n, sensitive));
    assert!(line_hits("alpha", &n, sensitive));
    let (n, sensitive) = needle_of("Alpha");
    assert!(sensitive);
    assert!(line_hits("Alpha", &n, sensitive));
    assert!(!line_hits("alpha", &n, sensitive));
    assert!(line_hits("a\tb", "\tb", true), "a tab in the file matches a tab in the query");
    assert!(line_hits("x", "", true), "the empty needle is everywhere");
}
