use rjson::value::Value;
use rjson::RJson;

fn s(x: &str) -> Value {
    Value::String(x.to_string())
}

fn n(x: u64) -> Value {
    Value::Number(serde_json::Number::from(x))
}

fn obj(members: Vec<(&str, Value)>) -> Value {
    Value::Object(members.into_iter().map(|(k, v)| (k.to_string(), v)).collect())
}

fn person() -> Value {
    obj(vec![
        ("address", obj(vec![("province", s("山东"))])),
        ("age", n(43)),
        ("name", s("John Doe")),
        ("phones", Value::Array(vec![s("+44 1234567"), s("+44 2345678")])),
    ])
}

#[test]
fn pget_reads_keys_and_positions() {
    let p = person();
    assert_eq!(p.pget("age"), &n(43));
    assert_eq!(p.pget("name"), &s("John Doe"));
    assert_eq!(p.pget("phones.0"), &s("+44 1234567"));
    assert_eq!(p.pget("phones.1"), &s("+44 2345678"));
    assert_eq!(p.pget("address.province"), &s("山东"));
    assert_eq!(p.g("phones.1"), &s("+44 2345678"));
}

#[test]
fn pget_missing_is_null() {
    let p = person();
    assert_eq!(p.pget("missing"), &Value::Null);
    assert_eq!(p.pget("phones.5"), &Value::Null);
    assert_eq!(p.pget("phones.x"), &Value::Null);
    assert_eq!(p.pget("name.x"), &Value::Null);
    assert_eq!(p.pget("missing.deeper.still"), &Value::Null);
    assert_eq!(p.pget("age."), &Value::Null);
}

#[test]
fn pget_numeric_key_of_object() {
    let v = obj(vec![("0", s("zero"))]);
    assert_eq!(v.pget("0"), &s("zero"));
}

#[test]
fn pset_replaces_in_place() {
    let mut p = person();
    p.pset("name", s("zhangsan"));
    p.pset("age", n(18));
    p.pset("age", n(19));
    assert_eq!(p.pget("name"), &s("zhangsan"));
    assert_eq!(p.pget("age"), &n(19));
    match &p {
        Value::Object(m) => {
            assert_eq!(m.len(), 4);
            assert_eq!(m[1].0, "age");
        }
        _ => panic!("not an object"),
    }
}

#[test]
fn pset_adds_a_missing_key_in_order() {
    let mut p = person();
    p.pset("age2", Value::Null);
    p.pset("zz", Value::Null);
    p.pset("a", Value::Null);
    match &p {
        Value::Object(m) => {
            let keys: Vec<&str> = m.iter().map(|(k, _)| k.as_str()).collect();
            assert_eq!(keys, vec!["a", "address", "age", "age2", "name", "phones", "zz"]);
            assert_eq!(m[3].1, Value::Null);
        }
        _ => panic!("not an object"),
    }
}

#[test]
fn key_order_is_the_order_of_strings() {
    let mut v = Value::Null;
    for k in ["b", "ab", "a", "é", "z", "", "aa"] {
        v.pset(k, Value::Null);
    }
    let mut expected = vec!["b", "ab", "a", "é", "z", "", "aa"];
    expected.sort();
    match &v {
        Value::Object(m) => {
            let keys: Vec<&str> = m.iter().map(|(k, _)| k.as_str()).collect();
            assert_eq!(keys, expected);
        }
        _ => panic!("not an object"),
    }
}

#[test]
fn same_members_written_in_any_order_are_equal() {
    let mut a = Value::Null;
    a.pset("x", n(1));
    a.pset("y", n(2));
    let mut b = Value::Null;
    b.pset("y", n(2));
    b.pset("x", n(1));
    assert_eq!(a, b);
}

#[test]
fn pset_array_element() {
    let mut p = person();
    p.pset("phones.1", s("0539"));
    assert_eq!(p.pget("phones"), &Value::Array(vec![s("+44 1234567"), s("0539")]));
}

#[test]
fn pset_makes_missing_objects() {
    let mut p = person();
    p.pset("a.b.c", n(1));
    assert_eq!(p.pget("a"), &obj(vec![("b", obj(vec![("c", n(1))]))]));
    let mut root = Value::Null;
    root.s("x.y", Value::Bool(true));
    assert_eq!(root, obj(vec![("x", obj(vec![("y", Value::Bool(true))]))]));
}

#[test]
fn pget_mut_writes_through() {
    let mut p = person();
    *p.pget_mut("address.province") = s("浙江");
    assert_eq!(p.pget("address.province"), &s("浙江"));
    *p.g_mut("address.city") = s("杭州");
    assert_eq!(p.pget("address"), &obj(vec![("city", s("杭州")), ("province", s("浙江"))]));
}

#[test]
fn pget_mut_makes_the_missing_slot() {
    let mut v = Value::Null;
    let slot = v.pget_mut("k");
    assert_eq!(slot, &mut Value::Null);
    assert_eq!(v, obj(vec![("k", Value::Null)]));
}

#[test]
fn read_after_write_scenarios() {
    let mut p = person();
    for (path, val) in [("age", n(7)), ("phones.0", s("1")), ("x.y.z", Value::Bool(false)), ("address", Value::Null)] {
        p.pset(path, val);
        let mut expected = Value::Null;
        expected.pset("v", match path {
            "age" => n(7),
            "phones.0" => s("1"),
            "x.y.z" => Value::Bool(false),
            _ => Value::Null,
        });
        assert_eq!(p.pget(path), expected.pget("v"));
    }
}

#[test]
fn write_twice_keeps_last() {
    let mut a = person();
    a.pset("q.r", n(1));
    a.pset("q.r", n(2));
    let mut b = person();
    b.pset("q.r", n(2));
    assert_eq!(a, b);
}

#[test]
fn write_keeps_other_keys() {
    let mut p = person();
    p.pset("address.city", s("x"));
    assert_eq!(p.pget("name"), &s("John Doe"));
    assert_eq!(p.pget("address.province"), &s("山东"));
}

#[test]
fn step_and_child() {
    let mut p = person();
    assert_eq!(p.step_ref("age"), &n(43));
    assert_eq!(p.step_ref("nope"), &Value::Null);
    *p.child_mut("nope") = n(5);
    assert_eq!(p.step_ref("nope"), &n(5));
}

#[test]
fn readable_paths() {
    let p = person();
    assert!(p.readable("age"));
    assert!(p.readable("phones.x"));
    assert!(p.readable("missing.a.b"));
    assert!(!p.readable("phones.99999999999999999999999"));
    assert!(!p.readable("phones.٣"));
}

#[test]
fn writable_paths() {
    let p = person();
    assert!(p.writable("age"));
    assert!(p.writable("address.city"));
    assert!(p.writable("new.key.deep"));
    assert!(p.writable("phones.1"));
    assert!(!p.writable("phones.2"));
    assert!(!p.writable("phones.x"));
    assert!(!p.writable("name.x"));
    assert!(!p.writable("age.x"));
    assert!(Value::Null.writable("a.b.c"));
}

#[test]
fn try_pget_and_try_pset() {
    let mut p = person();
    assert_eq!(p.try_pget("age"), Some(&n(43)));
    assert_eq!(p.try_pget("phones.99999999999999999999999"), None);
    assert!(!p.try_pset("name.x", n(1)));
    assert_eq!(p, person());
    assert!(p.try_pset("phones.0", n(1)));
    assert_eq!(p.pget("phones.0"), &n(1));
}

#[test]
fn write_keeps_other_array_elements() {
    let mut p = person();
    p.pset("phones.0", s("0"));
    assert_eq!(p.pget("phones.1"), &s("+44 2345678"));
    assert_eq!(p.pget("address.province"), &s("山东"));
}

#[test]
fn walk_along_existing_path_changes_nothing() {
    let mut p = person();
    let got = format!("{:?}", p.pget_mut("address.province"));
    assert_eq!(got, format!("{:?}", s("山东")));
    assert_eq!(p, person());
}
