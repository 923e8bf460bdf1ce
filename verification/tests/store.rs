use resp_replica::protocol::r_object::RObject;
use resp_replica::store::Store;

fn bulk(text: &str) -> RObject {
    RObject::BulkString(text.to_string())
}

#[test]
fn get_of_a_key_never_written_is_absent() {
    let store = Store::new();
    assert_eq!(store.get("k"), None);
}

#[test]
fn get_sees_the_last_write() {
    let mut store = Store::new();
    store.set("k".to_string(), bulk("v1"));
    assert_eq!(store.get("k"), Some(bulk("v1")));
    store.set("k".to_string(), bulk("v2"));
    assert_eq!(store.get("k"), Some(bulk("v2")));
    assert_eq!(store.get("other"), None);
}

#[test]
fn writes_are_numbered_one_after_the_other() {
    let mut store = Store::new();
    assert_eq!(store.set("a".to_string(), bulk("1")), 0);
    assert_eq!(store.set("b".to_string(), bulk("2")), 1);
    assert_eq!(store.set("a".to_string(), bulk("3")), 2);
    assert_eq!(store.version(), 3);
}

#[test]
fn delete_removes_the_entry() {
    let mut store = Store::new();
    store.set("k".to_string(), bulk("v"));
    store.delete("k");
    assert_eq!(store.get("k"), None);
    store.delete("k");
    assert_eq!(store.get("k"), None);
}

#[test]
fn expiry_removes_the_write_it_was_scheduled_for() {
    let mut store = Store::new();
    let expiry = store.set_with_expiry("k".to_string(), bulk("v"), 100);
    assert_eq!(expiry.key, "k");
    assert_eq!(expiry.millis, 100);
    assert_eq!(store.get("k"), Some(bulk("v")));
    assert!(store.expire(&expiry));
    assert_eq!(store.get("k"), None);
    assert!(!store.expire(&expiry));
}

#[test]
fn expiry_leaves_a_later_write_in_place() {
    let mut store = Store::new();
    let expiry = store.set_with_expiry("k".to_string(), bulk("v1"), 100);
    store.set("k".to_string(), bulk("v2"));
    assert!(!store.expire(&expiry));
    assert_eq!(store.get("k"), Some(bulk("v2")));
}

#[test]
fn expiry_leaves_a_later_write_of_the_same_value_in_place() {
    let mut store = Store::new();
    let expiry = store.set_with_expiry("k".to_string(), bulk("v"), 100);
    store.set("k".to_string(), bulk("v"));
    assert!(!store.expire(&expiry));
    assert_eq!(store.get("k"), Some(bulk("v")));
}

#[test]
fn expiry_after_delete_and_rewrite_leaves_the_rewrite() {
    let mut store = Store::new();
    let expiry = store.set_with_expiry("k".to_string(), bulk("v1"), 100);
    store.delete("k");
    store.set("k".to_string(), bulk("v2"));
    assert!(!store.expire(&expiry));
    assert_eq!(store.get("k"), Some(bulk("v2")));
}

#[test]
fn a_later_expiry_replaces_an_earlier_one() {
    let mut store = Store::new();
    let first = store.set_with_expiry("k".to_string(), bulk("v1"), 100);
    let second = store.set_with_expiry("k".to_string(), bulk("v2"), 500);
    assert!(!store.expire(&first));
    assert_eq!(store.get("k"), Some(bulk("v2")));
    assert!(store.expire(&second));
    assert_eq!(store.get("k"), None);
}
