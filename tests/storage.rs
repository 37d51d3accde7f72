use sled_store::key::{data_key, data_prefix, id_bytes, key_id, schema_key};
use sled_store::storage::{MutResult, SledStorage, StoreError};

fn open() -> SledStorage {
    let tree = sled::Config::new().temporary(true).open().expect("temporary database");
    SledStorage { tree }
}

fn done<U>(r: MutResult<SledStorage, U>) -> (SledStorage, U) {
    match r {
        Ok(pair) => pair,
        Err(_) => panic!("the storage reported a failure"),
    }
}

fn rows(s: &SledStorage, table: &str) -> Vec<(Vec<u8>, Vec<u8>)> {
    s.scan_data(table)
        .into_iter()
        .map(|e| match e {
            Ok(pair) => pair,
            Err(StoreError::Storage(_)) => panic!("the scan reported a failure"),
        })
        .collect()
}

fn schema(s: &SledStorage, table: &str) -> Option<Vec<u8>> {
    match s.fetch_schema(table) {
        Ok(v) => v,
        Err(_) => panic!("the lookup reported a failure"),
    }
}

#[test]
fn key_layout() {
    assert_eq!(data_prefix("users"), b"data/users/".to_vec());
    assert_eq!(schema_key("users"), b"schema/users".to_vec());
    let mut expected = b"data/users/".to_vec();
    expected.extend_from_slice(&[0, 0, 0, 0, 0, 0, 0, 1]);
    assert_eq!(data_key("users", 1), expected);
    assert_eq!(id_bytes(0x0102030405060708), vec![1, 2, 3, 4, 5, 6, 7, 8]);
    assert_eq!(id_bytes(u64::MAX), vec![255; 8]);
}

#[test]
fn key_id_reads_the_identifier_back() {
    assert_eq!(key_id(&data_key("t", 0)), Some(0));
    assert_eq!(key_id(&data_key("t", 258)), Some(258));
    assert_eq!(key_id(&data_key("t", u64::MAX)), Some(u64::MAX));
    assert_eq!(key_id(b"short"), None);
}

#[test]
fn byte_order_follows_numeric_order() {
    let ids = [0u64, 1, 255, 256, 65_535, 1 << 32, u64::MAX - 1, u64::MAX];
    for w in ids.windows(2) {
        assert!(data_key("t", w[0]) < data_key("t", w[1]));
    }
}

#[test]
fn users_example_flow() {
    let s = open();
    let (s, key) = done(s.generate_id("users"));
    let id = key_id(&key).expect("a row key ends in an identifier");
    assert_eq!(key, data_key("users", id));
    let row = vec![7u8, 8, 9];
    let (s, ()) = done(s.insert_data(&key, &row));
    assert_eq!(rows(&s, "users"), vec![(key.clone(), row)]);
    let (s, ()) = done(s.delete_schema("users"));
    assert!(rows(&s, "users").is_empty());
    assert_eq!(schema(&s, "users"), None);
}

#[test]
fn schema_round_trip() {
    let s = open();
    assert_eq!(schema(&s, "items"), None);
    let (s, ()) = done(s.insert_schema("items", b"first"));
    assert_eq!(schema(&s, "items"), Some(b"first".to_vec()));
    let (s, ()) = done(s.insert_schema("items", b"second"));
    assert_eq!(schema(&s, "items"), Some(b"second".to_vec()));
    assert_eq!(schema(&s, "other"), None);
}

#[test]
fn scans_stay_within_their_table() {
    let s = open();
    let (s, a) = done(s.generate_id("users"));
    let (s, b) = done(s.generate_id("orders"));
    let (s, c) = done(s.generate_id("users"));
    let (s, ()) = done(s.insert_data(&a, b"a"));
    let (s, ()) = done(s.insert_data(&b, b"b"));
    let (s, ()) = done(s.insert_data(&c, b"c"));
    let (s, ()) = done(s.insert_schema("users", b"schema"));
    assert_eq!(rows(&s, "users"), vec![(a, b"a".to_vec()), (c, b"c".to_vec())]);
    assert_eq!(rows(&s, "orders"), vec![(b, b"b".to_vec())]);
    assert!(rows(&s, "user").is_empty());
}

#[test]
fn generated_ids_increase_and_scan_in_order() {
    let mut s = open();
    let mut keys = Vec::new();
    for _ in 0..20 {
        let (next, key) = done(s.generate_id("t"));
        keys.push(key);
        s = next;
    }
    let ids: Vec<u64> = keys.iter().map(|k| key_id(k).unwrap()).collect();
    for w in ids.windows(2) {
        assert!(w[0] < w[1]);
    }
    for (i, k) in keys.iter().enumerate().rev() {
        let (next, ()) = done(s.insert_data(k, &[i as u8]));
        s = next;
    }
    let scanned: Vec<Vec<u8>> = rows(&s, "t").into_iter().map(|(k, _)| k).collect();
    assert_eq!(scanned, keys);
}

#[test]
fn delete_schema_removes_rows_and_schema() {
    let mut s = open();
    let (next, ()) = done(s.insert_schema("t", b"schema"));
    s = next;
    for i in 0..5u8 {
        let (next, key) = done(s.generate_id("t"));
        let (next, ()) = done(next.insert_data(&key, &[i]));
        s = next;
    }
    let (next, key) = done(s.generate_id("keep"));
    let (next, ()) = done(next.insert_data(&key, b"kept"));
    let (next, ()) = done(next.insert_schema("keep", b"kept schema"));
    s = next;
    assert_eq!(rows(&s, "t").len(), 5);
    let (s, ()) = done(s.delete_schema("t"));
    assert!(rows(&s, "t").is_empty());
    assert_eq!(schema(&s, "t"), None);
    assert_eq!(rows(&s, "keep"), vec![(key, b"kept".to_vec())]);
    assert_eq!(schema(&s, "keep"), Some(b"kept schema".to_vec()));
}

#[test]
fn deleting_what_is_absent_succeeds() {
    let s = open();
    let (s, key) = done(s.generate_id("t"));
    let (s, ()) = done(s.insert_data(&key, b"row"));
    let (s, ()) = done(s.delete_data(&data_key("t", u64::MAX)));
    assert_eq!(rows(&s, "t"), vec![(key.clone(), b"row".to_vec())]);
    let (s, ()) = done(s.delete_data(&key));
    assert!(rows(&s, "t").is_empty());
    let (s, ()) = done(s.delete_data(&key));
    assert!(rows(&s, "t").is_empty());
    let (s, ()) = done(s.delete_schema("never"));
    assert_eq!(schema(&s, "never"), None);
}

#[test]
fn empty_table_name() {
    let s = open();
    let (s, key) = done(s.generate_id(""));
    assert!(key.starts_with(b"data//"));
    let (s, ()) = done(s.insert_data(&key, b"x"));
    let (s, ()) = done(s.insert_schema("", b"s"));
    assert_eq!(rows(&s, ""), vec![(key, b"x".to_vec())]);
    assert_eq!(schema(&s, ""), Some(b"s".to_vec()));
}
