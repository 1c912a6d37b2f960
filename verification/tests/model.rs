use celkit::{Entries, Error, Number, Value};

fn small(n: i8) -> Value {
    Value::Number(Number::I8(n))
}

#[test]
fn error_new_has_no_place() {
    let e = Error::new("wrong shape");
    assert_eq!(e.message, "wrong shape");
    assert!(e.context.is_none());
    assert!(e.line.is_none());
    assert!(e.column.is_none());
    assert_eq!(e.to_string(), "Error: wrong shape");
}

#[test]
fn error_with_position() {
    let e = Error::with_position("unexpected token", 3, 14);
    assert_eq!(e.message, "unexpected token");
    assert!(e.context.is_none());
    assert_eq!(e.line, Some(3));
    assert_eq!(e.column, Some(14));
    assert_eq!(e.to_string(), "Parse error at line 3, column 14: unexpected token");
}

#[test]
fn error_with_context() {
    let e = Error::with_context("unexpected token", "[1, 2", 1, 6);
    assert_eq!(e.context.as_deref(), Some("[1, 2"));
    assert_eq!(
        e.to_string(),
        "Parse error at line 1, column 6: unexpected token\nContext: [1, 2"
    );
}

#[test]
fn error_with_only_a_line_shows_no_place() {
    let e = Error { message: "m".to_string(), context: Some("c".to_string()), line: Some(1), column: None };
    assert_eq!(e.to_string(), "Error: m");
}

#[test]
fn error_shows_large_positions() {
    let e = Error::with_position("m", usize::MAX, 1000000);
    assert_eq!(
        e.to_string(),
        format!("Parse error at line {}, column 1000000: m", usize::MAX)
    );
}

#[test]
fn entries_keep_the_order_of_their_keys() {
    let mut e = Entries::new();
    assert!(e.is_empty());
    assert_eq!(e.insert("m", small(1)), None);
    assert_eq!(e.insert("a", small(2)), None);
    assert_eq!(e.insert("z", small(3)), None);
    assert_eq!(e.insert("ab", small(4)), None);
    assert_eq!(e.insert("", small(5)), None);
    assert_eq!(e.len(), 5);
    let keys: Vec<String> = (0..e.len()).map(|i| e.key_at(i)).collect();
    assert_eq!(keys, vec!["", "a", "ab", "m", "z"]);
    assert_eq!(e.value_at(2), &small(4));
}

#[test]
fn entries_order_is_by_code_point() {
    let mut e = Entries::new();
    for k in ["b", "B", "é", "a", "😀", "aa", "Z", "\u{ffff}"] {
        e.insert(k, Value::Null);
    }
    let keys: Vec<String> = (0..e.len()).map(|i| e.key_at(i)).collect();
    let mut sorted = vec!["b", "B", "é", "a", "😀", "aa", "Z", "\u{ffff}"];
    sorted.sort();
    assert_eq!(keys, sorted);
}

#[test]
fn entries_insert_replaces_and_returns_the_old_value() {
    let mut e = Entries::new();
    e.insert("k", small(1));
    e.insert("j", small(0));
    assert_eq!(e.insert("k", small(2)), Some(small(1)));
    assert_eq!(e.len(), 2);
    assert_eq!(e.get("k"), Some(&small(2)));
    assert_eq!(e.get("j"), Some(&small(0)));
}

#[test]
fn entries_get_and_contains() {
    let mut e = Entries::new();
    e.insert("a", small(1));
    e.insert("c", small(3));
    assert_eq!(e.get("a"), Some(&small(1)));
    assert_eq!(e.get("b"), None);
    assert_eq!(e.get("d"), None);
    assert_eq!(e.get(""), None);
    assert!(e.contains_key("c"));
    assert!(!e.contains_key("cc"));
}

#[test]
fn value_clone_is_equal() {
    let mut e = Entries::new();
    e.insert("list", Value::Array(vec![small(1), Value::Text("t".to_string())]));
    e.insert("unit", Value::Tuple(vec![]));
    let v = Value::Struct("S".to_string(), e);
    assert_eq!(v.clone(), v);
    assert_eq!(v.duplicate(), v);
}
