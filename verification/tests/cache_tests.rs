use de_reports::cache::str_starts_with;
use de_reports::cache::CacheStore;

#[test]
fn empty_store_misses() {
    let c = CacheStore::new();
    assert!(c.get("report:1").is_none());
}

#[test]
fn set_then_get_returns_the_value() {
    let mut c = CacheStore::new();
    c.set(String::from("report:1"), String::from("payload"));
    assert_eq!(c.get("report:1"), Some(String::from("payload")));
    assert!(c.get("report:2").is_none());
}

#[test]
fn set_overwrites_and_update_overwrites() {
    let mut c = CacheStore::new();
    c.set(String::from("k"), String::from("one"));
    c.set(String::from("k"), String::from("two"));
    assert_eq!(c.get("k"), Some(String::from("two")));
    c.update(String::from("k"), String::from("three"));
    assert_eq!(c.get("k"), Some(String::from("three")));
}

#[test]
fn remove_starting_with_drops_exactly_the_prefixed_keys() {
    let mut c = CacheStore::new();
    c.set(String::from("reports:offset0"), String::from("w0"));
    c.set(String::from("reports:offset50"), String::from("w50"));
    c.set(String::from("report:1"), String::from("r1"));
    c.remove_starting_with("reports:offset");
    assert!(c.get("reports:offset0").is_none());
    assert!(c.get("reports:offset50").is_none());
    assert_eq!(c.get("report:1"), Some(String::from("r1")));
}

#[test]
fn prefix_test_matches_prefixes_only() {
    assert!(str_starts_with("reports:offset0", "reports:offset"));
    assert!(str_starts_with("abc", ""));
    assert!(str_starts_with("abc", "abc"));
    assert!(!str_starts_with("report:1", "reports:offset"));
    assert!(!str_starts_with("ab", "abc"));
}
