use rjson::path::{parse_index, split_index};
use rjson::value::Value;
use rjson::RJson;

fn strings(v: &[&str]) -> Vec<String> {
    v.iter().map(|s| s.to_string()).collect()
}

#[test]
fn split_on_dots() {
    assert_eq!(split_index("phones.1"), strings(&["phones", "1"]));
    assert_eq!(split_index("age"), strings(&["age"]));
    assert_eq!(split_index("a.b.c"), strings(&["a", "b", "c"]));
}

#[test]
fn split_keeps_empty_pieces() {
    assert_eq!(split_index(""), strings(&[""]));
    assert_eq!(split_index("a..b"), strings(&["a", "", "b"]));
    assert_eq!(split_index(".a."), strings(&["", "a", ""]));
}

#[test]
fn split_keeps_other_characters() {
    assert_eq!(split_index("省份.名"), strings(&["省份", "名"]));
}

#[test]
fn parse_index_values() {
    assert_eq!(parse_index("0"), Some(0));
    assert_eq!(parse_index("42"), Some(42));
    assert_eq!(parse_index("007"), Some(7));
    assert_eq!(parse_index("+7"), Some(7));
    assert_eq!(parse_index(&usize::MAX.to_string()), Some(usize::MAX));
}

#[test]
fn parse_index_rejects() {
    assert_eq!(parse_index(""), None);
    assert_eq!(parse_index("+"), None);
    assert_eq!(parse_index("4a"), None);
    assert_eq!(parse_index("-1"), None);
    assert_eq!(parse_index(" 1"), None);
    assert_eq!(parse_index("٣"), None);
    assert_eq!(parse_index("18446744073709551616999"), None);
}

#[test]
fn parse_index_agrees_with_std() {
    for s in ["0", "12", "+3", "", "+", "x", "99999999999999999999999", "1_0"] {
        assert_eq!(parse_index(s), s.parse::<usize>().ok(), "{}", s);
    }
}

#[test]
fn array_positions_follow_the_digit_pattern() {
    let a = Value::Array(vec![Value::Bool(true), Value::Bool(false)]);
    assert_eq!(a.pget("1"), &Value::Bool(false));
    assert_eq!(a.pget("01"), &Value::Bool(false));
    assert_eq!(a.pget("+1"), &Value::Null);
    assert_eq!(a.pget("a1"), &Value::Null);
    assert_eq!(a.pget(""), &Value::Null);
    assert!(a.readable("1"));
    assert!(a.readable("x"));
    // A Unicode digit matches the pattern but does not parse.
    assert!(!a.readable("٣"));
    assert!(!a.writable("x"));
    assert!(a.writable("0"));
}
