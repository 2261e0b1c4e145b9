//! The row arithmetic on its own: which record a screen row belongs to when
//! some records are expanded.

use lib::source::record::rowmap::{layout_rows, RowMap};

#[test]
fn a_closed_document_is_one_row_per_record() {
    let m = RowMap::new();
    assert_eq!(m.extra_total(), 0);
    for r in 0..5 {
        assert_eq!(m.row_of(r), r);
        assert_eq!(m.at(r), (r, 0));
    }
}

#[test]
fn opening_a_record_splices_its_rows_under_it() {
    let mut m = RowMap::new();
    assert!(m.open(1, 3));
    // Record 1's own row does not move; records after it do.
    assert_eq!(m.row_of(0), 0);
    assert_eq!(m.row_of(1), 1);
    assert_eq!(m.row_of(2), 5);
    assert_eq!(m.extra_total(), 3);
    assert_eq!(m.at(0), (0, 0));
    for sub in 0..=3 {
        assert_eq!(m.at(1 + sub), (1, sub));
    }
    assert_eq!(m.at(5), (2, 0));
    assert_eq!(m.at(6), (3, 0));
}

#[test]
fn several_open_records_stay_in_order_and_close_cleanly() {
    let mut m = RowMap::new();
    assert!(m.open(4, 2));
    assert!(m.open(1, 3));
    assert!(m.open(7, 1));
    assert!(!m.open(4, 9), "already open");
    assert_eq!(m.open_count(), 3);
    assert_eq!(m.records(), vec![1, 4, 7]);
    assert_eq!(m.row_of(1), 1);
    assert_eq!(m.row_of(4), 4 + 3);
    assert_eq!(m.row_of(7), 7 + 3 + 2);
    assert_eq!(m.extra_total(), 6);
    // Every row maps back to the record it came from.
    for record in 0..10 {
        let base = m.row_of(record);
        assert_eq!(m.at(base), (record, 0), "record {record}");
        for sub in 1..=m.extra_of(record) {
            assert_eq!(m.at(base + sub), (record, sub));
        }
    }
    assert!(m.close(4));
    assert!(!m.close(4));
    assert_eq!(m.row_of(7), 7 + 3);
    assert_eq!(m.extra_total(), 4);
    m.clear();
    assert_eq!(m.extra_total(), 0);
}

#[test]
fn a_record_with_nothing_under_it_does_not_open() {
    let mut m = RowMap::new();
    assert!(!m.open(2, 0), "a leaf has no rows to splice");
    assert!(!m.is_open(2));
}

#[test]
fn opening_a_record_and_shutting_it_again_restores_every_row() {
    let mut m = RowMap::new();
    assert!(m.open(4, 2));
    assert!(m.open(9, 5));
    let rows: Vec<usize> = (0..12).map(|r| m.row_of(r)).collect();
    assert!(m.open(6, 3));
    assert_eq!(m.records(), vec![4, 6, 9]);
    assert!(m.close(6));
    assert_eq!(m.records(), vec![4, 9]);
    assert_eq!((0..12).map(|r| m.row_of(r)).collect::<Vec<_>>(), rows);
    assert_eq!(m.extra_total(), 7);
    assert_eq!(m.extra_before(9), 2, "the trees before record 9");
}

#[test]
fn a_window_of_rows_is_laid_out_record_by_record() {
    let mut m = RowMap::new();
    assert!(m.open(1, 2));
    let all = vec![(0, 0), (1, 0), (1, 1), (1, 2), (2, 0)];
    assert_eq!(layout_rows(&m, 3, 0, 10), all, "the document ends first");
    assert_eq!(layout_rows(&m, 3, 2, 2), vec![(1, 1), (1, 2)], "starting inside a tree");
    assert_eq!(layout_rows(&m, 3, 4, 1), vec![(2, 0)]);
    assert_eq!(layout_rows(&m, 3, 5, 4), Vec::new(), "past the last record");
    assert_eq!(layout_rows(&m, 0, 0, 4), Vec::new(), "no records yet");
}
