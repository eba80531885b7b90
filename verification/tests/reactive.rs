use std::collections::BTreeSet;

use rjson::value::Value;
use rjson::{effect, reactive, Reactive, Runtime};

fn s(x: &str) -> Value {
    Value::String(x.to_string())
}

fn n(x: u64) -> Value {
    Value::Number(serde_json::Number::from(x))
}

fn obj(members: Vec<(&str, Value)>) -> Value {
    Value::Object(members.into_iter().map(|(k, v)| (k.to_string(), v)).collect())
}

fn person() -> Value {
    obj(vec![
        ("address", obj(vec![("province", s("山东"))])),
        ("age", n(43)),
        ("name", s("John Doe")),
        ("phones", Value::Array(vec![s("+44 1234567"), s("+44 2345678")])),
    ])
}

#[test]
fn main_test() {
    let mut rt = Runtime::new();
    let mut state = reactive(&mut rt, person());
    let mut effect_run_times = 0;
    let eff = effect(&mut rt, |rt| {
        println!("-- hello effect, age: {:?}", state.pget(rt, "age"));
        effect_run_times += 1;
    });
    assert_eq!(effect_run_times, 1);
    assert_eq!(rt.bucket.active(), None);

    let mut pending: BTreeSet<usize> = BTreeSet::new();
    pending.extend(state.pset(&mut rt, "name", s("zhangsan")));
    pending.extend(state.pset(&mut rt, "age", n(18)));
    pending.extend(state.pset(&mut rt, "age", n(19)));
    pending.extend(state.pset(&mut rt, "age2", Value::Null));
    pending.extend(state.pset(&mut rt, "phones.1", s("0539")));
    for id in pending {
        assert_eq!(id, eff.id());
        println!("-- hello effect, age: {:?}", state.pget(&mut rt, "age"));
        effect_run_times += 1;
    }
    assert_eq!(effect_run_times, 2);
}

#[test]
fn write_reruns_reader() {
    let mut rt = Runtime::new();
    let mut st = reactive(&mut rt, person());
    let e = effect(&mut rt, |rt| {
        assert_eq!(st.pget(rt, "phones.1"), &s("+44 2345678"));
    });
    assert_eq!(st.pset(&mut rt, "phones.1", s("x")), vec![e.id()]);
    assert_eq!(st.pset(&mut rt, "phones", Value::Array(vec![])), vec![e.id()]);
    assert!(st.pset(&mut rt, "name", s("y")).is_empty());
}

#[test]
fn reads_outside_an_effect_record_nothing() {
    let mut rt = Runtime::new();
    let mut st = reactive(&mut rt, person());
    assert_eq!(st.pget(&mut rt, "age"), &n(43));
    assert!(st.pset(&mut rt, "age", n(1)).is_empty());
}

#[test]
fn other_state_is_not_rerun() {
    let mut rt = Runtime::new();
    let mut a = reactive(&mut rt, person());
    let mut b = reactive(&mut rt, person());
    let e = effect(&mut rt, |rt| {
        a.pget(rt, "age");
    });
    assert!(b.pset(&mut rt, "age", n(1)).is_empty());
    assert_eq!(a.pset(&mut rt, "age", n(1)), vec![e.id()]);
}

#[test]
fn dropped_effect_is_not_rerun() {
    let mut rt = Runtime::new();
    let mut st = reactive(&mut rt, person());
    let e = effect(&mut rt, |rt| {
        st.pget(rt, "age");
    });
    e.cleanup(&mut rt.bucket);
    assert!(st.pset(&mut rt, "age", n(1)).is_empty());
}

#[test]
fn released_state_forgets_its_nodes() {
    let mut rt = Runtime::new();
    let mut st = reactive(&mut rt, person());
    let e = effect(&mut rt, |rt| {
        st.pget(rt, "age");
    });
    let before = rt.addrs.len();
    st.lock_mut(|v| v);
    assert_eq!(st.pset(&mut rt, "age", n(2)), vec![e.id()]);
    st.release(&mut rt);
    assert_eq!(rt.addrs.len(), before);
}

#[test]
fn writes_read_back() {
    let mut rt = Runtime::new();
    let mut st = Reactive::new(&mut rt, Value::Null);
    st.pset(&mut rt, "a.b", n(3));
    assert_eq!(st.pget(&mut rt, "a.b"), &n(3));
    let mut seen = None;
    st.lock(|v| seen = Some(format!("{:?}", v)));
    assert!(seen.unwrap().contains("Object"));
}

#[test]
fn lock_mut_replaces_the_value() {
    let mut rt = Runtime::new();
    let mut st = reactive(&mut rt, person());
    st.lock_mut(|_| n(1));
    assert_eq!(st.pget(&mut rt, "x"), &Value::Null);
    let mut got = None;
    st.lock(|v| got = Some(v == &n(1)));
    assert_eq!(got, Some(true));
}

#[test]
fn try_forms_refuse_undefined_paths() {
    let mut rt = Runtime::new();
    let mut st = reactive(&mut rt, person());
    let e = effect(&mut rt, |rt| {
        let before = rt.addrs.len();
        assert_eq!(st.try_pget(rt, "phones.99999999999999999999999"), None);
        assert_eq!(rt.addrs.len(), before);
        assert_eq!(st.try_pget(rt, "age"), Some(&n(43)));
    });
    assert_eq!(st.try_pset(&mut rt, "name.x", n(1)), None);
    assert_eq!(st.try_pset(&mut rt, "age", n(1)), Some(vec![e.id()]));
}

#[test]
fn effect_is_not_active_after_it_is_made() {
    let mut rt = Runtime::new();
    let mut st = reactive(&mut rt, person());
    let e = effect(&mut rt, |rt| {
        assert!(rt.bucket.active().is_some());
        st.pget(rt, "age");
    });
    assert_eq!(rt.bucket.active(), None);
    st.pget(&mut rt, "name");
    assert!(st.pset(&mut rt, "name", n(1)).is_empty());
    assert_eq!(st.pset(&mut rt, "age", n(1)), vec![e.id()]);
}

#[test]
fn effect_dropped_while_active_is_never_handed_back() {
    let mut rt = Runtime::new();
    let mut st = reactive(&mut rt, person());
    let e = rjson::Effect::start(&mut rt.bucket);
    e.cleanup(&mut rt.bucket);
    assert_eq!(rt.bucket.active(), None);
    st.pget(&mut rt, "age");
    assert!(st.pset(&mut rt, "age", n(1)).is_empty());
}

#[test]
fn every_step_of_a_read_is_recorded() {
    let mut rt = Runtime::new();
    let mut st = reactive(&mut rt, person());
    let e = effect(&mut rt, |rt| {
        st.pget(rt, "address.province");
    });
    assert_eq!(st.pset(&mut rt, "address", obj(vec![])), vec![e.id()]);
    assert!(st.pset(&mut rt, "address.city", s("x")).is_empty());
}

#[test]
fn tracked_pget_mut() {
    let mut rt = Runtime::new();
    let mut st = reactive(&mut rt, person());
    let e = effect(&mut rt, |rt| {
        let _ = rt;
    });
    *st.pget_mut(&mut rt, "address.city") = s("杭州");
    assert_eq!(st.pget(&mut rt, "address.city"), &s("杭州"));
    assert!(st.pset(&mut rt, "address.city", s("x")).is_empty());
    let e2 = effect(&mut rt, |rt| {
        *st.pget_mut(rt, "age") = n(5);
    });
    assert_ne!(e, e2);
    assert_eq!(st.pset(&mut rt, "age", n(6)), vec![e2.id()]);
}
