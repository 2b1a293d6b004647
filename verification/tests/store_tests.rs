use flux::errors::ServerError;
use flux::store::CacheStore;

#[test]
fn put_then_get() {
    let mut store = CacheStore::new();
    store.put("alpha".to_string(), &b"first value".to_vec()).unwrap();
    let got = store.get(&"alpha".to_string()).unwrap();
    assert_eq!(got, b"first value".to_vec());
}

#[test]
fn put_overwrites() {
    let mut store = CacheStore::new();
    store.put("k".to_string(), &b"old".to_vec()).unwrap();
    store.put("k".to_string(), &b"new".to_vec()).unwrap();
    assert_eq!(store.get(&"k".to_string()).unwrap(), b"new".to_vec());
}

#[test]
fn get_missing_key() {
    let store = CacheStore::new();
    match store.get(&"missing".to_string()) {
        Err(ServerError::KeyNotFound(k)) => assert_eq!(k, "missing"),
        other => panic!("expected KeyNotFound, got {:?}", other),
    }
}

#[test]
fn contains_key_reports_membership() {
    let mut store = CacheStore::new();
    assert!(!store.contains_key(&"a".to_string()));
    store.put("a".to_string(), &b"x".to_vec()).unwrap();
    assert!(store.contains_key(&"a".to_string()));
    assert!(!store.contains_key(&"b".to_string()));
}

#[test]
fn delete_with_one_existing_key_succeeds() {
    let mut store = CacheStore::new();
    store.put("k1".to_string(), &b"v1".to_vec()).unwrap();
    let keys = vec!["k1".to_string(), "k2".to_string()];
    assert!(store.delete(&keys).is_ok());
    assert!(!store.contains_key(&"k1".to_string()));
}

#[test]
fn delete_with_no_existing_key_fails() {
    let mut store = CacheStore::new();
    let keys = vec!["k1".to_string()];
    match store.delete(&keys) {
        Err(ServerError::KeyNotFound(m)) => assert_eq!(m, "None of the keys found"),
        other => panic!("expected KeyNotFound, got {:?}", other),
    }
}

#[test]
fn delete_removes_all_listed_keys() {
    let mut store = CacheStore::new();
    store.put("a".to_string(), &b"1".to_vec()).unwrap();
    store.put("b".to_string(), &b"2".to_vec()).unwrap();
    store.put("c".to_string(), &b"3".to_vec()).unwrap();
    store.delete(&vec!["a".to_string(), "c".to_string()]).unwrap();
    assert!(!store.contains_key(&"a".to_string()));
    assert!(store.contains_key(&"b".to_string()));
    assert!(!store.contains_key(&"c".to_string()));
}

#[test]
fn error_messages() {
    let e = ServerError::KeyNotFound("missing".to_string());
    assert_eq!(e.message(), "Key not found: missing");
    let c = ServerError::Compression("bad frame".to_string());
    assert_eq!(c.message(), "Compression error: bad frame");
}
