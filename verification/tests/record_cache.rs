//! The parsed-record cache: most recently used first, and never deeper than
//! its limit.

use lib::json::value::Value;
use lib::source::record::cache::{Cache, CACHE};
use lib::source::record::store::Record;

#[test]
fn the_last_record_put_in_is_found_first() {
    let mut c: Cache<String> = Cache::new();
    assert_eq!(c.position(3), None);
    c.push(3, "three".to_string());
    c.push(5, "five".to_string());
    assert_eq!(c.position(5), Some(0));
    assert_eq!(c.position(3), Some(1));
    c.push(3, "again".to_string());
    assert_eq!(c.position(3), Some(0), "the newer copy is found first");
    assert_eq!(c.items[0].1, "again");
}

#[test]
fn a_full_cache_drops_its_oldest_record() {
    let mut c: Cache<usize> = Cache::new();
    for r in 0..CACHE {
        c.push(r, r * 10);
    }
    assert_eq!(c.items.len(), CACHE);
    assert_eq!(c.position(0), Some(CACHE - 1));
    c.push(1000, 7);
    assert_eq!(c.items.len(), CACHE, "never deeper than the limit");
    assert_eq!(c.position(0), None, "the oldest went");
    assert_eq!(c.position(1000), Some(0));
    assert_eq!(c.position(1), Some(CACHE - 1));
}

#[test]
fn a_cached_record_that_did_not_parse_has_no_value() {
    let mut c: Cache<Record> = Cache::new();
    c.push(0, Record::Value(Value::Bool(true)));
    c.push(1, Record::Bad("line 2: not JSON".to_string()));
    let at = c.position(0).expect("cached");
    assert!(matches!(c.items[at].1.value(), Some(Value::Bool(true))));
    let at = c.position(1).expect("cached");
    assert!(c.items[at].1.value().is_none());
}
