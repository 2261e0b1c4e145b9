//! One record laid out as tree rows: the count, the path of each row and the
//! preview beside a collapsed record all come from one walk.

use lib::json::value::{Member, Value};
use lib::source::jsonrow::{shape_of, Shape};
use lib::source::jsonl::tree::{
    node_at, previews, row_count, short_scalar, summary_text, walk, Label, Step,
};

fn num(n: &str) -> Value {
    Value::Number(n.to_string())
}

fn text(s: &str) -> Value {
    Value::Str(s.to_string())
}

fn obj(members: Vec<(&str, Value)>) -> Value {
    Value::Object(members.into_iter().map(|(k, v)| Member { key: k.to_string(), value: v }).collect())
}

/// `{"type":"assistant","n":2,"items":[10,20]}`
fn assistant() -> Value {
    obj(vec![
        ("type", text("assistant")),
        ("n", num("2")),
        ("items", Value::Array(vec![num("10"), num("20")])),
    ])
}

#[test]
fn a_record_expands_into_the_tree_the_document_source_draws() {
    // Two scalars and an array of two: both brackets, and no index label.
    assert_eq!(row_count(&assistant()), 7);
    assert_eq!(row_count(&text("bare")), 0, "a scalar has nothing under it");
    assert_eq!(row_count(&obj(vec![])), 1, "an empty container still closes");
}

#[test]
fn each_row_is_named_by_its_path() {
    let v = assistant();
    assert_eq!(node_at(&v, 0).map(|(p, _)| p), Some(".type".to_string()));
    let (p, items) = node_at(&v, 2).expect("the array's row");
    assert_eq!(p, ".items");
    assert!(matches!(items, Value::Array(_)));
    let (p, first) = node_at(&v, 3).expect("its first element");
    assert_eq!(p, ".items[0]");
    assert!(matches!(first, Value::Number(n) if n == "10"));
    let (p, closed) = node_at(&v, 5).expect("the array's closing bracket");
    assert_eq!(p, ".items", "a bracket names the container it closes");
    assert!(matches!(closed, Value::Array(_)));
    let (p, root) = node_at(&v, 6).expect("the record's closing brace");
    assert_eq!(p, "");
    assert!(matches!(root, Value::Object(_)));
    assert!(node_at(&v, 7).is_none(), "one past the last row");
}

#[test]
fn an_odd_key_is_quoted_in_the_path() {
    let v = obj(vec![("a b", obj(vec![("c", Value::Null)]))]);
    assert_eq!(node_at(&v, 1).map(|(p, _)| p), Some("[\"a b\"].c".to_string()));
}

#[test]
fn the_walk_hands_out_every_row_once_in_reading_order() {
    let v = assistant();
    let mut w = walk(&v);
    let mut depths = Vec::new();
    let mut closes = 0;
    while let Some(step) = w.next() {
        depths.push(step.depth());
        if let Step::Close { .. } = step {
            closes += 1;
        }
    }
    assert_eq!(depths, vec![0, 1, 1, 1, 2, 2, 1, 0]);
    assert_eq!(closes, 2);
    assert!(w.next().is_none(), "and stays done");
}

#[test]
fn a_container_past_the_depth_limit_is_one_row() {
    let mut v = Value::Array(vec![]);
    for _ in 0..300 {
        v = Value::Array(vec![v]);
    }
    // Opened down to the limit: 257 containers with both brackets, then the
    // one nested past it is a single row, and the record's own row is not
    // counted.
    assert_eq!(row_count(&v), 257 * 2 + 1 - 1);
}

#[test]
fn a_summary_counts_its_members() {
    assert_eq!(summary_text(&assistant()), "{\u{2026}3 keys}");
    assert_eq!(summary_text(&Value::Array(vec![num("1")])), "[\u{2026}1 item]");
    assert_eq!(summary_text(&obj(vec![])), "{}");
    assert_eq!(summary_text(&text("x")), "");
}

#[test]
fn a_preview_is_the_first_three_short_scalars() {
    let v = obj(vec![("a", num("1")), ("b", num("2")), ("c", num("3")), ("d", num("4")), ("e", num("5"))]);
    assert_eq!(
        previews(&v),
        vec![(Some("a".to_string()), 0), (Some("b".to_string()), 1), (Some("c".to_string()), 2)]
    );
    let list = Value::Array(vec![num("1"), num("2"), num("3")]);
    assert_eq!(previews(&list), vec![(None, 0), (None, 1), (None, 2)]);
}

#[test]
fn a_long_scalar_or_a_null_is_not_previewed() {
    let long = "x".repeat(200);
    let v = obj(vec![("big", text(&long)), ("small", num("7"))]);
    assert_eq!(previews(&v), vec![(Some("small".to_string()), 1)]);
    let v = obj(vec![("parentUuid", Value::Null), ("type", text("user"))]);
    assert_eq!(previews(&v), vec![(Some("type".to_string()), 1)]);
    assert!(!short_scalar(&text("two\nlines")));
    assert!(short_scalar(&Value::Bool(false)));
    assert!(!short_scalar(&num(&"9".repeat(41))));
    assert!(short_scalar(&text(&"\u{4e2d}".repeat(20))), "forty columns is still short");
    assert!(!short_scalar(&text(&"\u{4e2d}".repeat(21))));
}

#[test]
fn a_label_spells_its_step() {
    assert_eq!(Label::Key("name").path_step(), ".name");
    assert_eq!(Label::Index(3).path_step(), "[3]");
    assert_eq!(Label::Key("k").key(), Some("k"));
    assert_eq!(Label::Index(0).key(), None);
}

#[test]
fn a_value_is_shaped_as_the_rows_need() {
    assert_eq!(shape_of(&assistant()), Shape::Object);
    assert_eq!(shape_of(&Value::Array(vec![])), Shape::Array);
    assert_eq!(shape_of(&text("x")), Shape::Str);
    assert_eq!(shape_of(&num("1")), Shape::Number);
    assert_eq!(shape_of(&Value::Bool(true)), Shape::Bool);
    assert_eq!(shape_of(&Value::Null), Shape::Null);
    assert!(Value::Null.len() == 0 && assistant().len() == 3);
    assert!(assistant().is_container() && !text("x").is_container());
}
