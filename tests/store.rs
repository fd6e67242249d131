use nimbus::database::{Database, DEFAULT_TTL_SECS, NANOS_PER_SEC};

fn s(x: &str) -> String {
    x.to_string()
}

#[test]
fn store_set_then_get() {
    let mut db = Database::new();
    db.set_at(s("k"), s("v"), None, 100);
    assert_eq!(db.get_at("k", 100), Some(s("v")));
    assert_eq!(db.len(), 1);
}

#[test]
fn store_set_then_get_with_clock() {
    let mut db = Database::new();
    db.set(s("k"), s("v"), None);
    assert_eq!(db.get("k"), Some(s("v")));
}

#[test]
fn store_get_missing() {
    let mut db = Database::new();
    assert_eq!(db.get_at("nope", 0), None);
    assert!(db.is_empty());
}

#[test]
fn store_overwrite_keeps_one_entry() {
    let mut db = Database::new();
    db.set_at(s("k"), s("v1"), None, 0);
    db.set_at(s("k"), s("v2"), None, 0);
    assert_eq!(db.len(), 1);
    assert_eq!(db.get_at("k", 0), Some(s("v2")));
}

#[test]
fn store_zero_ttl_expires_after_delay() {
    let mut db = Database::new();
    db.set_at(s("k"), s("v"), Some(0), 50);
    assert_eq!(db.get_at("k", 50), Some(s("v")));
    assert_eq!(db.get_at("k", 51), None);
    // the expired read removed the entry
    assert_eq!(db.len(), 0);
}

#[test]
fn store_ttl_boundary() {
    let mut db = Database::new();
    db.set_at(s("k"), s("v"), Some(10), 0);
    assert_eq!(db.get_at("k", 10 * NANOS_PER_SEC), Some(s("v")));
    assert_eq!(db.get_at("k", 10 * NANOS_PER_SEC + 1), None);
}

#[test]
fn store_default_ttl_is_seven_days() {
    assert_eq!(DEFAULT_TTL_SECS, 7 * 24 * 60 * 60);
    let mut db = Database::new();
    db.set_at(s("k"), s("v"), None, 0);
    let week = DEFAULT_TTL_SECS * NANOS_PER_SEC;
    assert_eq!(db.get_at("k", week), Some(s("v")));
    assert_eq!(db.get_at("k", week + 1), None);
}

#[test]
fn store_huge_ttl_saturates() {
    let mut db = Database::new();
    db.set_at(s("k"), s("v"), Some(u64::MAX), 5);
    assert_eq!(db.get_at("k", u64::MAX), Some(s("v")));
}

#[test]
fn store_del_then_get() {
    let mut db = Database::new();
    db.set_at(s("a"), s("1"), None, 0);
    db.set_at(s("b"), s("2"), None, 0);
    db.del(&[s("a"), s("missing")]);
    assert_eq!(db.get_at("a", 0), None);
    assert_eq!(db.get_at("b", 0), Some(s("2")));
    assert_eq!(db.len(), 1);
}

#[test]
fn store_sweep_removes_only_expired() {
    let mut db = Database::new();
    db.set_at(s("short"), s("1"), Some(1), 0);
    db.set_at(s("long"), s("2"), Some(100), 0);
    db.set_at(s("edge"), s("3"), Some(5), 0);
    assert_eq!(db.garbage_collect_at(5 * NANOS_PER_SEC), 1);
    assert_eq!(db.len(), 2);
    assert_eq!(db.get_at("edge", 5 * NANOS_PER_SEC), Some(s("3")));
    assert_eq!(db.get_at("long", 5 * NANOS_PER_SEC), Some(s("2")));
    assert_eq!(db.get_at("short", 0), None);
}

#[test]
fn store_sweep_on_empty_store() {
    let mut db = Database::new();
    assert_eq!(db.garbage_collect(), 0);
    assert_eq!(db.garbage_collect_at(u64::MAX), 0);
}

#[test]
fn store_sweep_with_clock_keeps_fresh_entries() {
    let mut db = Database::new();
    db.set(s("k"), s("v"), None);
    assert_eq!(db.garbage_collect(), 0);
    assert_eq!(db.get("k"), Some(s("v")));
}

#[test]
fn store_disjoint_writers_all_retrievable() {
    let mut db = Database::new();
    for i in 0..50u64 {
        db.set_at(format!("key{}", i), format!("val{}", i), None, i);
    }
    assert_eq!(db.len(), 50);
    for i in 0..50u64 {
        assert_eq!(db.get_at(&format!("key{}", i), 50), Some(format!("val{}", i)));
    }
}

#[test]
fn store_write_then_sweep_keeps_fresh_key() {
    let mut db = Database::new();
    db.set_at(s("old"), s("x"), Some(0), 0);
    db.set_at(s("fresh"), s("y"), Some(0), 10);
    assert_eq!(db.garbage_collect_at(10), 1);
    assert_eq!(db.get_at("fresh", 10), Some(s("y")));
}

#[test]
fn store_clock_never_goes_back() {
    let mut db = Database::new();
    let a = db.now();
    let b = db.now();
    assert!(b >= a);
}

#[test]
fn store_entry_survives_unrelated_operations() {
    let mut db = Database::new();
    db.set_at(s("k"), s("v"), None, 0);
    db.set_at(s("other"), s("x"), Some(0), 1);
    db.get_at("other", 2);
    db.del(&[s("other"), s("nothing")]);
    assert_eq!(db.garbage_collect_at(3), 0);
    let week = DEFAULT_TTL_SECS * NANOS_PER_SEC;
    assert_eq!(db.get_at("k", week), Some(s("v")));
}

#[test]
fn store_zero_ttl_gone_after_unrelated_operations() {
    let mut db = Database::new();
    db.set_at(s("k"), s("v"), Some(0), 10);
    db.set_at(s("other"), s("x"), None, 10);
    assert_eq!(db.get_at("other", 11), Some(s("x")));
    assert_eq!(db.get_at("k", 12), None);
    assert_eq!(db.len(), 1);
}

#[test]
fn store_deleted_key_stays_absent() {
    let mut db = Database::new();
    db.set_at(s("k"), s("v"), None, 0);
    db.del(&[s("k")]);
    db.set_at(s("other"), s("x"), None, 1);
    assert_eq!(db.garbage_collect_at(2), 0);
    assert_eq!(db.get_at("k", 3), None);
}
