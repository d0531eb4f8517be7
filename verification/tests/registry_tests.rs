use billion_record_challenge::registry::{merge, Registry};
use billion_record_challenge::stats::Stats;

#[test]
fn stats_seed_from_first_observation() {
    let s = Stats::new(42);
    assert_eq!(s.min, 42);
    assert_eq!(s.max, 42);
    assert_eq!(s.sum, 42);
    assert_eq!(s.count, 1);
}

#[test]
fn stats_observe_updates_all_fields() {
    let mut s = Stats::new(10);
    s.observe(-25);
    s.observe(30);
    assert_eq!(s.min, -25);
    assert_eq!(s.max, 30);
    assert_eq!(s.sum, 15);
    assert_eq!(s.count, 3);
}

#[test]
fn empty_registry_has_no_keys() {
    let r = Registry::new();
    assert_eq!(r.len(), 0);
    assert!(r.get(b"A").is_none());
    assert!(r.key_list().is_empty());
}

#[test]
fn update_inserts_then_accumulates() {
    let mut r = Registry::new();
    r.update(b"A", 10);
    let first = r.get(b"A").unwrap();
    assert_eq!((first.min, first.max, first.sum, first.count), (10, 10, 10, 1));
    r.update(b"A", -25);
    r.update(b"B", 999);
    let a = r.get(b"A").unwrap();
    assert_eq!((a.min, a.max, a.sum, a.count), (-25, 10, -15, 2));
    let b = r.get(b"B").unwrap();
    assert_eq!((b.min, b.max, b.sum, b.count), (999, 999, 999, 1));
    assert_eq!(r.len(), 2);
    assert!(r.get(b"C").is_none());
}

#[test]
fn key_list_holds_every_key() {
    let mut r = Registry::new();
    r.update(b"one", 1);
    r.update(b"two", 2);
    r.update(b"one", 3);
    let keys = r.key_list();
    assert_eq!(keys.len(), 2);
    assert!(keys.contains(&b"one".to_vec()));
    assert!(keys.contains(&b"two".to_vec()));
}

fn registry_of(entries: &[(&[u8], i32)]) -> Registry {
    let mut r = Registry::new();
    for (k, v) in entries {
        r.update(k, *v);
    }
    r
}

#[test]
fn merge_combines_per_key() {
    let r1 = registry_of(&[(b"A", 10), (b"B", -25)]);
    let r2 = registry_of(&[(b"A", 30), (b"C", 5)]);
    let m = merge(vec![r1, r2]);
    let a = m.get(b"A").unwrap();
    assert_eq!((a.min, a.max, a.sum, a.count), (10, 30, 40, 2));
    let b = m.get(b"B").unwrap();
    assert_eq!((b.min, b.max, b.sum, b.count), (-25, -25, -25, 1));
    let c = m.get(b"C").unwrap();
    assert_eq!((c.min, c.max, c.sum, c.count), (5, 5, 5, 1));
    assert_eq!(m.len(), 3);
}

#[test]
fn merge_order_does_not_matter() {
    let forwards = merge(vec![
        registry_of(&[(b"A", 10), (b"B", -25)]),
        registry_of(&[(b"A", 30)]),
    ]);
    let backwards = merge(vec![
        registry_of(&[(b"A", 30)]),
        registry_of(&[(b"A", 10), (b"B", -25)]),
    ]);
    for key in [b"A".as_slice(), b"B".as_slice()] {
        let f = forwards.get(key).unwrap();
        let g = backwards.get(key).unwrap();
        assert_eq!((f.min, f.max, f.sum, f.count), (g.min, g.max, g.sum, g.count));
    }
}

#[test]
fn merge_of_empty_registries_is_empty() {
    let m = merge(vec![Registry::new(), Registry::new()]);
    assert_eq!(m.len(), 0);
    let m2 = merge(Vec::new());
    assert_eq!(m2.len(), 0);
}
