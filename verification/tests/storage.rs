use sqldb::error::Error;
use sqldb::storage::engine::Engine;
use sqldb::storage::keycode::{get_u64, put_u64};
use sqldb::storage::memory::MemoryEngine;
use sqldb::storage::mvcc::Mvcc;
use sqldb::storage::order::{clone_bytes, compare, starts_with, Order};

fn b(s: &str) -> Vec<u8> {
    s.as_bytes().to_vec()
}

#[test]
fn keys_compare_byte_by_byte() {
    assert_eq!(compare(&b("abc"), &b("abd")), Order::Less);
    assert_eq!(compare(&b("abd"), &b("abc")), Order::Greater);
    assert_eq!(compare(&b("abc"), &b("abc")), Order::Equal);
    assert_eq!(compare(&b("ab"), &b("abc")), Order::Less);
    assert_eq!(compare(&b("abc"), &b("ab")), Order::Greater);
    assert_eq!(compare(&b(""), &b("")), Order::Equal);
    assert_eq!(compare(&vec![0u8, 255], &vec![1u8]), Order::Less);
}

#[test]
fn prefixes_are_recognised() {
    assert!(starts_with(&b("table"), &b("tab")));
    assert!(starts_with(&b("table"), &b("")));
    assert!(starts_with(&b("table"), &b("table")));
    assert!(!starts_with(&b("tab"), &b("table")));
    assert!(!starts_with(&b("table"), &b("tax")));
    assert_eq!(clone_bytes(&b("xyz")), b("xyz"));
}

#[test]
fn numbers_are_written_highest_byte_first() {
    let mut out = vec![7u8];
    put_u64(&mut out, 0x0102030405060708);
    assert_eq!(out, vec![7, 1, 2, 3, 4, 5, 6, 7, 8]);
    assert_eq!(get_u64(&out, 1), 0x0102030405060708);
    let mut max = Vec::new();
    put_u64(&mut max, u64::MAX);
    assert_eq!(max, vec![255u8; 8]);
    assert_eq!(get_u64(&max, 0), u64::MAX);
    let mut zero = Vec::new();
    put_u64(&mut zero, 0);
    assert_eq!(get_u64(&zero, 0), 0);
    // numbers compare as their bytes do
    let mut small = Vec::new();
    put_u64(&mut small, 255);
    let mut large = Vec::new();
    put_u64(&mut large, 256);
    assert_eq!(compare(&small, &large), Order::Less);
}

#[test]
fn memory_engine_holds_one_value_per_key() {
    let mut e = MemoryEngine::new();
    assert_eq!(e.get(&b("a")), None);
    e.set(b("b"), b("2"));
    e.set(b("a"), b("1"));
    e.set(b("c"), b("3"));
    assert_eq!(e.get(&b("a")), Some(b("1")));
    assert_eq!(e.get(&b("b")), Some(b("2")));
    e.set(b("b"), b("22"));
    assert_eq!(e.get(&b("b")), Some(b("22")));
    e.delete(&b("a"));
    assert_eq!(e.get(&b("a")), None);
    e.delete(&b("zz"));
    assert_eq!(e.get(&b("c")), Some(b("3")));
}

#[test]
fn memory_engine_scans_in_key_order() {
    let mut e = MemoryEngine::new();
    e.set(b("bb"), b("4"));
    e.set(b("ab"), b("2"));
    e.set(b("b"), b("3"));
    e.set(b("a"), b("1"));
    e.set(b("ba"), b("5"));
    assert_eq!(
        e.scan_prefix(&b("")),
        vec![
            (b("a"), b("1")),
            (b("ab"), b("2")),
            (b("b"), b("3")),
            (b("ba"), b("5")),
            (b("bb"), b("4")),
        ]
    );
    assert_eq!(
        e.scan_prefix(&b("b")),
        vec![(b("b"), b("3")), (b("ba"), b("5")), (b("bb"), b("4"))]
    );
    assert_eq!(e.scan_prefix(&b("c")), vec![]);
}

#[test]
fn a_transaction_reads_its_own_writes() {
    let mut m = Mvcc::new(MemoryEngine::new());
    let t = m.begin().unwrap();
    assert_eq!(t.version(), 1);
    assert_eq!(m.get(&t, &b("k")), None);
    m.set(&t, &b("k"), &b("v1")).unwrap();
    assert_eq!(m.get(&t, &b("k")), Some(b("v1")));
    m.set(&t, &b("k"), &b("v2")).unwrap();
    assert_eq!(m.get(&t, &b("k")), Some(b("v2")));
    m.delete(&t, &b("k")).unwrap();
    assert_eq!(m.get(&t, &b("k")), None);
    m.commit(t);
}

#[test]
fn identifiers_ascend() {
    let mut m = Mvcc::new(MemoryEngine::new());
    let a = m.begin().unwrap();
    let b2 = m.begin().unwrap();
    m.commit(a);
    let c = m.begin().unwrap();
    assert_eq!(b2.version(), 2);
    assert_eq!(c.version(), 3);
    assert!(c.sees(1));
    assert!(!c.sees(2));
    assert!(c.sees(3));
    assert!(!c.sees(4));
    assert!(!b2.sees(1));
}

#[test]
fn uncommitted_writes_are_not_seen() {
    let mut m = Mvcc::new(MemoryEngine::new());
    let setup = m.begin().unwrap();
    m.set(&setup, &b("k"), &b("old")).unwrap();
    m.commit(setup);

    let a = m.begin().unwrap();
    m.set(&a, &b("k"), &b("new")).unwrap();
    m.set(&a, &b("k2"), &b("fresh")).unwrap();
    let bt = m.begin().unwrap();
    assert_eq!(m.get(&bt, &b("k")), Some(b("old")));
    assert_eq!(m.get(&bt, &b("k2")), None);
    assert_eq!(m.scan_prefix(&bt, &b("k")), vec![(b("k"), b("old"))]);
    m.commit(a);
    // a transaction keeps the view it began with
    assert_eq!(m.get(&bt, &b("k")), Some(b("old")));
    assert_eq!(m.get(&bt, &b("k2")), None);
    // one that begins after the commit sees what was committed
    let c = m.begin().unwrap();
    assert_eq!(m.get(&c, &b("k")), Some(b("new")));
    assert_eq!(
        m.scan_prefix(&c, &b("k")),
        vec![(b("k"), b("new")), (b("k2"), b("fresh"))]
    );
}

#[test]
fn the_later_writer_fails() {
    let mut m = Mvcc::new(MemoryEngine::new());
    let a = m.begin().unwrap();
    let bt = m.begin().unwrap();
    m.set(&a, &b("k"), &b("a")).unwrap();
    assert_eq!(m.set(&bt, &b("k"), &b("b")), Err(Error::Conflict));
    assert_eq!(m.delete(&bt, &b("k")), Err(Error::Conflict));
    // also after the first writer committed
    m.commit(a);
    assert_eq!(m.set(&bt, &b("k"), &b("b")), Err(Error::Conflict));
    // and the other way round: a later transaction wrote first
    let c = m.begin().unwrap();
    let d = m.begin().unwrap();
    m.set(&d, &b("x"), &b("d")).unwrap();
    assert_eq!(m.set(&c, &b("x"), &b("c")), Err(Error::Conflict));
    // other keys are free
    m.set(&c, &b("y"), &b("c")).unwrap();
}

#[test]
fn rollback_discards_what_was_written() {
    let mut m = Mvcc::new(MemoryEngine::new());
    let setup = m.begin().unwrap();
    m.set(&setup, &b("k"), &b("old")).unwrap();
    m.commit(setup);

    let a = m.begin().unwrap();
    m.set(&a, &b("k"), &b("new")).unwrap();
    m.set(&a, &b("other"), &b("x")).unwrap();
    m.delete(&a, &b("k")).unwrap();
    m.rollback(a);

    let c = m.begin().unwrap();
    assert_eq!(m.get(&c, &b("k")), Some(b("old")));
    assert_eq!(m.get(&c, &b("other")), None);
    assert_eq!(m.scan_prefix(&c, &b("")), vec![(b("k"), b("old"))]);
    // after a rollback the key is free again
    m.set(&c, &b("k"), &b("c")).unwrap();
}

#[test]
fn a_deletion_hides_the_older_value() {
    let mut m = Mvcc::new(MemoryEngine::new());
    let a = m.begin().unwrap();
    m.set(&a, &b("k"), &b("v")).unwrap();
    m.set(&a, &b("l"), &b("w")).unwrap();
    m.commit(a);
    let d = m.begin().unwrap();
    m.delete(&d, &b("k")).unwrap();
    m.commit(d);
    let r = m.begin().unwrap();
    assert_eq!(m.get(&r, &b("k")), None);
    assert_eq!(m.scan_prefix(&r, &b("")), vec![(b("l"), b("w"))]);
}

#[test]
fn scans_return_keys_that_begin_with_the_prefix() {
    let mut m = Mvcc::new(MemoryEngine::new());
    let a = m.begin().unwrap();
    m.set(&a, &b("ab"), &b("1")).unwrap();
    m.set(&a, &b("a"), &b("2")).unwrap();
    m.set(&a, &b("b"), &b("3")).unwrap();
    m.set(&a, &b(""), &b("4")).unwrap();
    let found = m.scan_prefix(&a, &b("a"));
    assert_eq!(found.len(), 2);
    assert!(found.contains(&(b("a"), b("2"))));
    assert!(found.contains(&(b("ab"), b("1"))));
    assert_eq!(m.scan_prefix(&a, &b("abc")), vec![]);
    assert_eq!(m.scan_prefix(&a, &b("")).len(), 4);
}

#[test]
fn identifiers_run_out() {
    let mut store = MemoryEngine::new();
    // the counter stands one before the last identifier
    store.set(vec![0u8], vec![255, 255, 255, 255, 255, 255, 255, 254]);
    let mut m = Mvcc::new(store);
    let last = m.begin().unwrap();
    assert_eq!(last.version(), u64::MAX - 1);
    assert_eq!(
        m.begin().map(|t| t.version()),
        Err(Error::Internal(sqldb::error::Mismatch::Exhausted))
    );
    // the transaction that got the last identifier goes on
    m.set(&last, &b("k"), &b("v")).unwrap();
    assert_eq!(m.get(&last, &b("k")), Some(b("v")));
    m.commit(last);
    assert_eq!(
        m.begin().map(|t| t.version()),
        Err(Error::Internal(sqldb::error::Mismatch::Exhausted))
    );
}
