use rjson::addr::{drop_json_addr, update_json_addr, AddrMap};
use rjson::effect::{Bucket, Effect};

#[test]
fn handles_are_stable_and_distinct() {
    let mut a = AddrMap::new();
    let root = a.new_root();
    assert_eq!(root, 0);
    let h1 = update_json_addr(&mut a, root, "age");
    let h2 = update_json_addr(&mut a, root, "name");
    assert_ne!(h1, h2);
    assert_eq!(update_json_addr(&mut a, root, "age"), h1);
    let deeper = update_json_addr(&mut a, h1, "age");
    assert_ne!(deeper, h1);
    assert_eq!(a.len(), 4);
}

#[test]
fn other_root_gets_other_handles() {
    let mut a = AddrMap::new();
    let r1 = a.new_root();
    let r2 = a.new_root();
    let h1 = update_json_addr(&mut a, r1, "k");
    let h2 = update_json_addr(&mut a, r2, "k");
    assert_ne!(h1, h2);
}

#[test]
fn dropping_a_tree_forgets_its_nodes() {
    let mut a = AddrMap::new();
    let r1 = a.new_root();
    let r2 = a.new_root();
    let x = update_json_addr(&mut a, r1, "x");
    let xy = update_json_addr(&mut a, x, "y");
    let other = update_json_addr(&mut a, r2, "x");
    drop_json_addr(&mut a, r1);
    assert_eq!(update_json_addr(&mut a, r2, "x"), other);
    let fresh = update_json_addr(&mut a, r1, "x");
    assert_ne!(fresh, x);
    assert_ne!(update_json_addr(&mut a, x, "y"), xy);
}

#[test]
fn track_without_active_records_nothing() {
    let mut b = Bucket::new();
    Effect::track(&mut b, 3, "age");
    assert!(Effect::trigger(&b, 3, "age").is_empty());
}

#[test]
fn track_with_active_records_it() {
    let mut b = Bucket::new();
    let e = Effect::start(&mut b);
    assert_eq!(b.active(), Some(e.id()));
    Effect::track(&mut b, 3, "age");
    Effect::track(&mut b, 3, "age");
    e.finish(&mut b);
    assert_eq!(b.active(), None);
    assert_eq!(Effect::trigger(&b, 3, "age"), vec![e.id()]);
    assert!(Effect::trigger(&b, 3, "name").is_empty());
    assert!(Effect::trigger(&b, 4, "age").is_empty());
}

#[test]
fn two_effects_on_one_key() {
    let mut b = Bucket::new();
    let e1 = Effect::start(&mut b);
    Effect::track(&mut b, 1, "k");
    e1.finish(&mut b);
    let e2 = Effect::start(&mut b);
    Effect::track(&mut b, 1, "k");
    Effect::track(&mut b, 2, "j");
    e2.finish(&mut b);
    assert_ne!(e1, e2);
    let mut got = Effect::trigger(&b, 1, "k");
    got.sort();
    assert_eq!(got, vec![e1.id(), e2.id()]);
    assert_eq!(Effect::trigger(&b, 2, "j"), vec![e2.id()]);
}

#[test]
fn cleanup_forgets_the_effect() {
    let mut b = Bucket::new();
    let e1 = Effect::start(&mut b);
    Effect::track(&mut b, 1, "k");
    e1.finish(&mut b);
    let e2 = Effect::start(&mut b);
    Effect::track(&mut b, 1, "k");
    e2.finish(&mut b);
    e1.cleanup(&mut b);
    assert_eq!(Effect::trigger(&b, 1, "k"), vec![e2.id()]);
    e2.cleanup(&mut b);
    assert!(Effect::trigger(&b, 1, "k").is_empty());
}

#[test]
fn effect_new_runs_setup_once_and_ends_inactive() {
    let mut rt = rjson::Runtime::new();
    let mut runs = 0;
    let e = Effect::new(&mut rt, |rt| {
        runs += 1;
        assert_eq!(rt.bucket.active(), Some(0));
    });
    assert_eq!(runs, 1);
    assert_eq!(e.id(), 0);
    assert_eq!(rt.bucket.active(), None);
}

#[test]
fn new_effect_depends_on_nothing() {
    let mut b = Bucket::new();
    let e1 = Effect::start(&mut b);
    Effect::track(&mut b, 1, "k");
    e1.finish(&mut b);
    let e2 = Effect::start(&mut b);
    e2.finish(&mut b);
    assert_eq!(Effect::trigger(&b, 1, "k"), vec![e1.id()]);
}
