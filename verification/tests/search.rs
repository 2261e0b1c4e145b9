//! Smartcase search over display columns, and stepping between its matches.

use lib::source::search::{
    case_sensitive, find_all, find_in, on_line, seek, sweep, truncate_width, Dir, Match,
};

#[test]
fn smartcase_rules() {
    assert!(!case_sensitive("model"));
    assert!(case_sensitive("Model"));
    assert!(!case_sensitive("dns-1"));
}

#[test]
fn lowercase_query_matches_any_case() {
    assert_eq!(find_in("Alpha alpha", "alpha", false), vec![(0, 5), (6, 11)]);
    assert_eq!(find_in("Alpha alpha", "Alpha", true), vec![(0, 5)]);
}

#[test]
fn matches_are_reported_in_display_columns() {
    // Wide CJK chars are two columns each.
    assert_eq!(find_in("\u{4e2d}\u{6587}ab", "ab", false), vec![(4, 6)]);
    assert_eq!(find_in("ab\u{4e2d}", "\u{4e2d}", false), vec![(2, 4)]);
}

#[test]
fn overlapping_occurrences_do_not_double_count() {
    assert_eq!(find_in("aaaa", "aa", false), vec![(0, 2), (2, 4)]);
    assert!(find_in("abc", "", false).is_empty());
    assert!(find_in("a", "abc", false).is_empty());
}



fn m(line: usize, start: usize) -> Match {
    Match { line, start, end: start + 1 }
}

#[test]
fn forward_seek_wraps_at_the_end() {
    let ms = vec![m(1, 0), m(4, 2), m(4, 8)];
    assert_eq!(seek(&ms, 0, 0, Dir::Forward, false), Some((0, false)));
    assert_eq!(seek(&ms, 1, 0, Dir::Forward, false), Some((1, false)));
    assert_eq!(seek(&ms, 4, 2, Dir::Forward, false), Some((2, false)));
    assert_eq!(seek(&ms, 4, 8, Dir::Forward, false), Some((0, true)));
}

#[test]
fn backward_seek_wraps_at_the_start() {
    let ms = vec![m(1, 0), m(4, 2), m(4, 8)];
    assert_eq!(seek(&ms, 4, 8, Dir::Backward, false), Some((1, false)));
    assert_eq!(seek(&ms, 1, 0, Dir::Backward, false), Some((2, true)));
    assert_eq!(seek(&ms, 0, 0, Dir::Backward, false), Some((2, true)));
}

#[test]
fn inclusive_seek_keeps_a_match_on_the_current_line() {
    let ms = vec![m(3, 5)];
    assert_eq!(seek(&ms, 3, 5, Dir::Forward, true), Some((0, false)));
    assert_eq!(seek(&ms, 3, 5, Dir::Forward, false), Some((0, true)));
    assert_eq!(seek(&[], 0, 0, Dir::Forward, true), None);
}

#[test]
fn per_line_highlight_ranges() {
    let ms = vec![m(2, 1), m(2, 7), m(5, 0)];
    assert_eq!(on_line(&ms, 2), vec![(1, 2), (7, 8)]);
    assert!(on_line(&ms, 9).is_empty());
}

#[test]
fn a_sweep_wraps_round_the_end_and_says_so() {
    assert_eq!(sweep(5, 3, Dir::Forward, false, 100, |i| i == 1), Some((1, true)));
    assert_eq!(sweep(5, 3, Dir::Forward, false, 100, |i| i == 4), Some((4, false)));
    assert_eq!(sweep(5, 1, Dir::Backward, false, 100, |i| i == 3), Some((3, true)));
    assert_eq!(sweep(5, 1, Dir::Backward, true, 100, |i| i == 1), Some((1, false)));
}

#[test]
fn a_sweep_comes_back_to_its_start_once() {
    assert_eq!(sweep(3, 2, Dir::Forward, false, 100, |i| i == 2), Some((2, true)));
    assert_eq!(sweep(3, 0, Dir::Backward, false, 100, |i| i == 0), Some((0, true)));
    assert_eq!(sweep(3, 2, Dir::Forward, true, 100, |_| false), None);
}

#[test]
fn a_sweep_gives_up_past_its_limit() {
    assert_eq!(sweep(5, 3, Dir::Forward, false, 1, |i| i == 1), None, "4 and 0 are all it reads");
    assert_eq!(sweep(5, 3, Dir::Forward, false, 2, |i| i == 1), Some((1, true)));
}

#[test]
fn truncation_keeps_the_widest_prefix_that_fits() {
    assert_eq!(truncate_width("hello", 3), "hel");
    assert_eq!(truncate_width("hello", 9), "hello");
    assert_eq!(truncate_width("\u{4e2d}\u{6587}", 3), "\u{4e2d}", "half a wide character does not fit");
    assert_eq!(truncate_width("abc", 0), "");
}

#[test]
fn a_direction_flips_to_the_other() {
    assert_eq!(Dir::Forward.flip(), Dir::Backward);
    assert_eq!(Dir::Backward.flip(), Dir::Forward);
}

/// The rendered lines of a short document, as plain text.
fn lines(text: &str) -> Vec<String> {
    text.lines().map(|l| l.trim_start_matches('#').trim_start().to_string()).collect()
}

#[test]
fn document_matches_are_ordered() {
    let ls = lines("# One\n\nneedle here\n\n## Two\n\nanother needle\n");
    let ms = find_all(&ls, "needle");
    assert_eq!(ms.len(), 2);
    assert!(ms[0].line < ms[1].line);
    assert!(ms.windows(2).all(|w| (w[0].line, w[0].start) < (w[1].line, w[1].start)));
}

#[test]
fn a_lowercase_ascii_query_matches_any_case_and_an_uppercase_one_only_itself() {
    assert!(!case_sensitive("model"));
    assert!(case_sensitive("Model"));
    assert_eq!(find_in("Model model MODEL", "model", false), vec![(0, 5), (6, 11), (12, 17)]);
    assert_eq!(find_in("Model model MODEL", "Model", true), vec![(0, 5)]);
}

#[test]
fn search_finds_text_that_a_fold_would_hide() {
    // Every line is searched, whatever a fold shows: the pager expands the
    // fold to reveal the hit.
    let ls = lines("## A\n\nhidden needle\n\n## B\n");
    let ms = find_all(&ls, "needle");
    assert_eq!(ms.len(), 1);
    assert_eq!(ms[0].line, 2);
}
