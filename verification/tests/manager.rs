use keyden::{KeyManager, KeyStore, MemKeyStore};

fn manager_from(text: &str, now: u64) -> KeyManager<MemKeyStore> {
    KeyManager::builder(MemKeyStore::from_text(text.to_string()))
        .build(now)
        .unwrap()
}

#[test]
fn test_build_reads_store_in_order() {
    let m = manager_from("a:s1:1\nb:s2:2\nc:s3:3\n", 0);
    let keys = m.list_keys();
    assert_eq!(keys.len(), 3);
    assert_eq!(keys[0].kid, "a");
    assert_eq!(keys[1].kid, "b");
    assert_eq!(keys[2].kid, "c");
    assert_eq!(m.current_key().unwrap().kid, "c");
}

#[test]
fn test_build_replaces_duplicate_kid() {
    // the later record wins and becomes the current one
    let m = manager_from("a:old:1\nb:s:2\na:new:3\n", 0);
    let keys = m.list_keys();
    assert_eq!(keys.len(), 2);
    assert_eq!(keys[0].kid, "b");
    assert_eq!(keys[1].kid, "a");
    assert_eq!(keys[1].secret, "new");
    assert_eq!(m.current_key().unwrap().kid, "a");
}

#[test]
fn test_build_fails_on_bad_store() {
    let r = KeyManager::builder(MemKeyStore::from_text("oops\n".to_string())).build(0);
    assert!(r.is_err());
}

#[test]
fn test_get_key() {
    let m = manager_from("a:s1:1\nb:s2:2\n", 0);
    assert_eq!(m.get_key("a").unwrap().secret, "s1");
    assert_eq!(m.get_key("b").unwrap().secret, "s2");
    assert!(m.get_key("missing").is_none());
}

#[test]
fn test_generate_key_becomes_current() {
    let mut m = manager_from("", 0);
    assert!(m.current_key().is_none());
    let rec = m.generate_key("k1".to_string()).unwrap();
    assert_eq!(rec.kid, "k1");
    assert_eq!(m.current_key().unwrap().kid, "k1");
    assert_eq!(m.current_key().unwrap().secret, rec.secret);
}

#[test]
fn test_generate_key_uniqueness() {
    let mut m = manager_from("", 0);
    m.generate_key("a".to_string()).unwrap();
    assert_eq!(m.list_keys().len(), 1);
    m.generate_key("b".to_string()).unwrap();
    assert_eq!(m.list_keys().len(), 2);
    // the same id again: replaced, not added, and current again
    let second_a = m.generate_key("a".to_string()).unwrap();
    let keys = m.list_keys();
    assert_eq!(keys.len(), 2);
    assert_eq!(keys[0].kid, "b");
    assert_eq!(keys[1].kid, "a");
    assert_eq!(keys[1].secret, second_a.secret);
    assert_eq!(m.current_key().unwrap().kid, "a");
}

#[test]
fn test_generate_key_uses_configured_size() {
    let mut m = KeyManager::builder(MemKeyStore::new())
        .size(16)
        .build(0)
        .unwrap();
    let rec = m.generate_key("k".to_string()).unwrap();
    assert_eq!(rec.secret.chars().count(), 16);
}

#[test]
fn test_save_keys_persists_registry() {
    let mut m = manager_from("a:s:1\n", 0);
    m.generate_key("b".to_string()).unwrap();
    m.save_keys().unwrap();
    let text = m.store().text().clone();
    let back = keyden::parse_keys(&text).unwrap();
    assert_eq!(back.len(), 2);
    assert_eq!(back[0].kid, "a");
    assert_eq!(back[1].kid, "b");
}

#[test]
fn test_can_reload_obeys_interval() {
    let m = KeyManager::builder(MemKeyStore::new())
        .reload_interval(30000)
        .build(1000)
        .unwrap();
    assert!(!m.can_reload(1000));
    assert!(!m.can_reload(30999));
    assert!(m.can_reload(31000));
    assert!(m.can_reload(1000000));
    // a clock that went backwards is never due
    assert!(!m.can_reload(0));
}

#[test]
fn test_reload_throttling() {
    // two reloads within the interval: the second performs no store read,
    // so a key that only lives in memory survives it
    let mut m = KeyManager::builder(MemKeyStore::from_text("a:s:1\n".to_string()))
        .reload_interval(1000)
        .build(0)
        .unwrap();
    m.generate_key("memory-only".to_string()).unwrap();
    assert_eq!(m.list_keys().len(), 2);

    m.reload(500).unwrap(); // not due: nothing read, nothing replaced
    assert_eq!(m.list_keys().len(), 2);
    assert!(m.get_key("memory-only").is_some());

    m.reload(2000).unwrap(); // due: replaced from the store
    assert_eq!(m.list_keys().len(), 1);
    assert!(m.get_key("memory-only").is_none());
    assert_eq!(m.current_key().unwrap().kid, "a");
}

#[test]
fn test_reload_failure_leaves_state_unchanged() {
    // a kid holding the separator persists as text that cannot be read back
    let mut m = KeyManager::builder(MemKeyStore::new())
        .reload_interval(1000)
        .build(0)
        .unwrap();
    m.generate_key("bad:kid".to_string()).unwrap();
    m.save_keys().unwrap();
    m.generate_key("good".to_string()).unwrap();
    assert_eq!(m.list_keys().len(), 2);

    let r = m.reload(5000);
    assert!(r.is_err());
    // the registry and the throttle clock are exactly as before the call
    assert_eq!(m.list_keys().len(), 2);
    assert_eq!(m.current_key().unwrap().kid, "good");
    assert!(m.can_reload(5000));
}

#[test]
fn test_rotate_keys_on_deficit() {
    let mut m = KeyManager::builder(MemKeyStore::from_text("a:s:1\n".to_string()))
        .count(3)
        .build(0)
        .unwrap();

    // one key, three wanted: rotation mints and persists exactly one
    assert!(m.rotate_keys(0).unwrap());
    let keys = m.list_keys();
    assert_eq!(keys.len(), 2);
    assert_eq!(keys[0].kid, "a");
    assert!(keys[1].kid.starts_with("key-"));
    let persisted = keyden::parse_keys(m.store().text()).unwrap();
    assert_eq!(persisted.len(), 2);

    // still one short
    assert!(m.rotate_keys(0).unwrap());
    assert_eq!(m.list_keys().len(), 3);

    // no deficit left: no rotation and no write
    let before = m.store().text().clone();
    assert!(!m.rotate_keys(0).unwrap());
    assert_eq!(m.list_keys().len(), 3);
    assert_eq!(m.store().text(), &before);
}

#[test]
fn test_generate_temp_key_is_independent() {
    let rec = KeyManager::<MemKeyStore>::generate_temp_key(16);
    assert!(rec.kid.starts_with("temp-"));
    assert_eq!(rec.kid, format!("temp-{}", rec.created_at_unix));
    assert_eq!(rec.secret.chars().count(), 16);

    // a temporary key never lands in a registry or a store
    let mut m = manager_from("a:s:1\n", 0);
    let before = m.list_keys().len();
    let _ = KeyManager::<MemKeyStore>::generate_temp_key(8);
    assert_eq!(m.list_keys().len(), before);
    assert_eq!(m.store().text(), "a:s:1\n");

    // and its prefix is distinct from rotated ids
    m = KeyManager::builder(MemKeyStore::new()).count(1).build(0).unwrap();
    assert!(m.rotate_keys(0).unwrap());
    let rotated = m.current_key().unwrap();
    assert!(rotated.kid.starts_with("key-"));
    assert!(!rotated.kid.starts_with("temp-"));
    assert_ne!(rotated.kid, rec.kid);
}
