use dht::store::KvStore;

#[test]
fn insert_then_get_returns_value() {
    let mut s = KvStore::new();
    assert_eq!(s.insert("foo".to_string(), "bar".to_string()), None);
    assert_eq!(s.get("foo"), Some("bar".to_string()));
}

#[test]
fn never_inserted_key_is_absent() {
    let mut s = KvStore::new();
    assert_eq!(s.get("missing"), None);
    s.insert("other".to_string(), "value".to_string());
    s.remove("missing");
    assert_eq!(s.get("missing"), None);
}

#[test]
fn remove_absent_returns_absent_and_changes_nothing() {
    let mut s = KvStore::new();
    s.insert("keep".to_string(), "kept".to_string());
    assert_eq!(s.remove("gone"), None);
    assert_eq!(s.get("keep"), Some("kept".to_string()));
    assert_eq!(s.get("gone"), None);
}

#[test]
fn remove_present_returns_prior_value_then_absent() {
    let mut s = KvStore::new();
    s.insert("k".to_string(), "v".to_string());
    assert_eq!(s.remove("k"), Some("v".to_string()));
    assert_eq!(s.get("k"), None);
}

#[test]
fn second_insert_returns_first_value_and_get_sees_second() {
    let mut s = KvStore::new();
    assert_eq!(s.insert("k".to_string(), "v1".to_string()), None);
    assert_eq!(s.insert("k".to_string(), "v2".to_string()), Some("v1".to_string()));
    assert_eq!(s.get("k"), Some("v2".to_string()));
}

#[test]
fn distinct_keys_all_retrievable() {
    let mut s = KvStore::new();
    let pairs = [("a", "1"), ("b", "2"), ("c", "3"), ("d", "4"), ("e", "5")];
    for (k, v) in pairs {
        assert_eq!(s.insert(k.to_string(), v.to_string()), None);
    }
    for (k, v) in pairs {
        assert_eq!(s.get(k), Some(v.to_string()));
    }
}

#[test]
fn same_key_inserts_return_chained_previous_values() {
    let mut s = KvStore::new();
    assert_eq!(s.insert("k".to_string(), "v1".to_string()), None);
    assert_eq!(s.insert("k".to_string(), "v2".to_string()), Some("v1".to_string()));
    assert_eq!(s.insert("k".to_string(), "v3".to_string()), Some("v2".to_string()));
    assert_eq!(s.get("k"), Some("v3".to_string()));
}

#[test]
fn empty_key_and_empty_value_are_ordinary() {
    let mut s = KvStore::new();
    assert_eq!(s.insert(String::new(), "empty-key".to_string()), None);
    assert_eq!(s.get(""), Some("empty-key".to_string()));
    assert_eq!(s.insert("k".to_string(), String::new()), None);
    assert_eq!(s.get("k"), Some(String::new()));
    assert_eq!(s.remove(""), Some("empty-key".to_string()));
    assert_eq!(s.get(""), None);
}
