use hsrv::store::Store;

#[test]
fn store_insert_then_lookup() {
    let mut s = Store::new();
    s.insert("k".to_string(), "v".to_string());
    assert_eq!(s.lookup(&"k".to_string()), Some("v".to_string()));
}

#[test]
fn store_lookup_missing() {
    let s = Store::new();
    assert_eq!(s.lookup(&"nope".to_string()), None);
}

#[test]
fn store_insert_overwrites() {
    let mut s = Store::new();
    s.insert("k".to_string(), "v1".to_string());
    s.insert("k".to_string(), "v2".to_string());
    assert_eq!(s.lookup(&"k".to_string()), Some("v2".to_string()));
}

#[test]
fn store_two_keys_independent() {
    let mut s = Store::new();
    s.insert("a".to_string(), "1".to_string());
    s.insert("b".to_string(), "2".to_string());
    assert_eq!(s.lookup(&"a".to_string()), Some("1".to_string()));
    assert_eq!(s.lookup(&"b".to_string()), Some("2".to_string()));
}

#[test]
fn store_delete_present() {
    let mut s = Store::new();
    s.insert("k".to_string(), "v".to_string());
    s.delete(&"k".to_string());
    assert_eq!(s.lookup(&"k".to_string()), None);
}

#[test]
fn store_delete_absent_is_noop() {
    let mut s = Store::new();
    s.insert("other".to_string(), "v".to_string());
    s.delete(&"k".to_string());
    assert_eq!(s.lookup(&"other".to_string()), Some("v".to_string()));
    assert_eq!(s.lookup(&"k".to_string()), None);
}

#[test]
fn store_empty_value_allowed() {
    let mut s = Store::new();
    s.insert("k".to_string(), "".to_string());
    assert_eq!(s.lookup(&"k".to_string()), Some("".to_string()));
}
