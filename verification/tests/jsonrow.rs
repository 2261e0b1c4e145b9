//! The vocabulary both JSON sources speak about tree rows.

use lib::source::jsonrow::{
    child_id, cut, cut_literal, oversize, path_step, size, summary_text, top_index, too_deep, Mark,
    Shape, ALL_OPEN, MAX_VALUE,
};

#[test]
fn a_collapsed_container_counts_itself_and_an_empty_one_says_so() {
    assert_eq!(summary_text(Shape::Object, 5, true), "{\u{2026}5 keys}");
    assert_eq!(summary_text(Shape::Object, 1, true), "{\u{2026}1 key}");
    assert_eq!(summary_text(Shape::Array, 120, true), "[\u{2026}120 items]");
    assert_eq!(summary_text(Shape::Array, 1, true), "[\u{2026}1 item]");
    // "0 keys" is a number where a shape would do.
    assert_eq!(summary_text(Shape::Object, 0, true), "{}");
    assert_eq!(summary_text(Shape::Array, 0, true), "[]");
    // A count still being walked says so rather than showing a number that
    // will change under the reader.
    assert_eq!(summary_text(Shape::Array, 7, false), "[\u{2026}\u{2265}7 items]");
    assert_eq!(summary_text(Shape::Object, 0, false), "{\u{2026}\u{2265}0 keys}");
}

#[test]
fn a_path_step_is_a_dot_a_quoted_key_or_an_index() {
    assert_eq!(path_step(Some("name"), 0), ".name");
    assert_eq!(path_step(Some("a_b-c9"), 0), ".a_b-c9");
    assert_eq!(path_step(Some("odd key"), 0), "[\"odd key\"]");
    assert_eq!(path_step(Some(""), 0), "[\"\"]");
    assert_eq!(path_step(Some("9lives"), 0), "[\"9lives\"]");
    assert_eq!(path_step(None, 3), "[3]");
}

#[test]
fn a_fold_id_is_a_member_index_path_from_the_root() {
    assert_eq!(child_id("", 4), "/4");
    assert_eq!(child_id("/0", 3), "/0/3");
    assert_eq!(child_id("/0/3", 7), "/0/3/7");
    assert_eq!(top_index("/4"), Some(4));
    assert_eq!(top_index(&child_id("", 41)), Some(41));
    // Not a top-level id, and not an id at all.
    assert_eq!(top_index("/0/3"), None);
    assert_eq!(top_index(ALL_OPEN), None);
    assert_eq!(top_index("nonsense"), None);
    assert_eq!(top_index(""), None);
    // The root is the empty string, so it can never be mistaken for a member.
    assert_ne!(child_id("", 0), "");
}

#[test]
fn only_a_container_gets_a_fold_marker() {
    assert_eq!(Mark::of(Shape::Object, true), Mark::Open);
    assert_eq!(Mark::of(Shape::Array, false), Mark::Closed);
    for s in [Shape::Str, Shape::Number, Shape::Bool, Shape::Null] {
        assert_eq!(Mark::of(s, true), Mark::Leaf);
        assert_eq!(Mark::of(s, false), Mark::Leaf);
    }
}

#[test]
fn a_key_that_needs_escaping_is_escaped_in_its_step() {
    assert_eq!(path_step(Some("a\"b"), 0), "[\"a\\\"b\"]");
    assert_eq!(path_step(Some("tab\there"), 0), "[\"tab\\there\"]");
    assert_eq!(path_step(Some("\u{1}"), 0), "[\"\\u0001\"]");
    assert_eq!(path_step(None, 1234567), "[1234567]");
}

#[test]
fn a_size_reads_as_a_person_would_say_it() {
    assert_eq!(size(512), "512 bytes");
    assert_eq!(size(1536), "1.5 KB");
    assert_eq!(size(3 << 20), "3.0 MB");
    assert_eq!(size(2 << 30), "2.0 GB");
    assert!(oversize(5 << 20, 1 << 20).contains("5.0 MB"));
    assert!(oversize(5 << 20, 1 << 20).contains("1.0 MB"));
}

#[test]
fn a_size_is_rounded_to_the_nearest_tenth_and_a_tie_to_the_even_one() {
    assert_eq!(size(0), "0 bytes");
    assert_eq!(size(1023), "1023 bytes");
    assert_eq!(size(1024), "1.0 KB");
    // 1280 bytes is exactly 1.25 KB.
    assert_eq!(size(1280), "1.2 KB");
    // 1331 bytes is 1.2998 KB.
    assert_eq!(size(1331), "1.3 KB");
    assert_eq!(size(1_048_575), "1024.0 KB");
    assert_eq!(size(u64::MAX), "17179869184.0 GB");
    assert_eq!(
        oversize(5 << 20, 1 << 20),
        "\u{27e8}5.0 MB \u{2014} over the 1.0 MB display limit\u{27e9}"
    );
}

#[test]
fn a_note_names_the_depth_it_stopped_at() {
    assert_eq!(too_deep(256), "\u{27e8}nested deeper than 256 levels \u{2014} not opened\u{27e9}");
}

#[test]
fn a_scalar_too_wide_for_its_row_is_cut_with_an_ellipsis() {
    assert_eq!(cut("short"), "short");
    let fits = "a".repeat(MAX_VALUE);
    assert_eq!(cut(&fits), fits, "exactly the limit is not cut");
    let long = "a".repeat(MAX_VALUE + 10);
    assert_eq!(cut(&long), format!("{}\u{2026}", "a".repeat(MAX_VALUE - 1)));
    let wide = "\u{4e2d}".repeat(MAX_VALUE);
    assert_eq!(cut(&wide), format!("{}\u{2026}", "\u{4e2d}".repeat((MAX_VALUE - 1) / 2)));
}

#[test]
fn a_cut_literal_keeps_its_closing_quote_and_no_lone_backslash() {
    assert_eq!(cut_literal("\"ok\""), "\"ok\"");
    let long = format!("\"{}\"", "a".repeat(MAX_VALUE + 10));
    assert_eq!(cut_literal(&long), format!("\"{}\u{2026}\"", "a".repeat(MAX_VALUE - 3)));
    let escaped = format!("\"{}\\\\n{}\"", "a".repeat(MAX_VALUE - 5), "b".repeat(20));
    assert_eq!(
        cut_literal(&escaped),
        format!("\"{}\u{2026}\"", "a".repeat(MAX_VALUE - 5)),
        "the cut would end inside an escape"
    );
}
