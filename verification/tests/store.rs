use keyden::{format_keys, parse_keys, KeyMaterial, KeyStore, KeyStoreError, MemKeyStore};

fn key(kid: &str, secret: &str, created_at_unix: i64) -> KeyMaterial {
    KeyMaterial { kid: kid.to_string(), secret: secret.to_string(), created_at_unix }
}

#[test]
fn test_write_and_read_keys() {
    let mut store = MemKeyStore::new();

    let key = KeyMaterial {
        kid: "test-kid".to_string(),
        secret: "supersecret".to_string(),
        created_at_unix: 1234567890,
    };

    store.write_keys(&[key.clone()]).unwrap();

    let keys = store.read_keys().unwrap();
    assert_eq!(keys.len(), 1);
    assert_eq!(keys[0].kid, key.kid);
    assert_eq!(keys[0].secret, key.secret);
    assert_eq!(keys[0].created_at_unix, key.created_at_unix);
}

#[test]
fn test_invalid_format_fails() {
    let store = MemKeyStore::from_text("badly:formatted:line:extra\n".to_string());

    let result = store.read_keys();
    assert!(result.is_err());
}

#[test]
fn test_invalid_format_is_format_error() {
    let store = MemKeyStore::from_text("badly:formatted:line:extra\n".to_string());
    match store.read_keys() {
        Err(KeyStoreError::InvalidFormat(msg)) => {
            assert!(msg.contains("invalid line 1"));
        }
        other => panic!("expected a format failure, got {:?}", other),
    }
}

#[test]
fn test_round_trip_many_records() {
    let mut store = MemKeyStore::new();
    let keys = vec![
        key("first", "s3cr3t!", 0),
        key("second key", "an0ther=secret", 9223372036854775807),
        key("third", "x", 42),
    ];
    store.write_keys(&keys).unwrap();
    let back = store.read_keys().unwrap();
    assert_eq!(back.len(), 3);
    for (a, b) in keys.iter().zip(back.iter()) {
        assert_eq!(a.kid, b.kid);
        assert_eq!(a.secret, b.secret);
        assert_eq!(a.created_at_unix, b.created_at_unix);
    }
}

#[test]
fn test_format_keys_exact_text() {
    let text = format_keys(&[key("kid", "secret", 123), key("k2", "s2", 0)]);
    assert_eq!(text, "kid:secret:123\nk2:s2:0\n");
}

#[test]
fn test_parse_ignores_blank_lines() {
    let keys = parse_keys("\n   \na:b:1\n\t\n\r\n").unwrap();
    assert_eq!(keys.len(), 1);
    assert_eq!(keys[0].kid, "a");
    assert_eq!(keys[0].secret, "b");
    assert_eq!(keys[0].created_at_unix, 1);
}

#[test]
fn test_parse_accepts_crlf_and_final_line() {
    let keys = parse_keys("a:b:1\r\nc:d:2").unwrap();
    assert_eq!(keys.len(), 2);
    assert_eq!(keys[1].kid, "c");
    assert_eq!(keys[1].created_at_unix, 2);
}

#[test]
fn test_parse_rejects_missing_fields() {
    assert!(parse_keys("nocolonhere\n").is_err());
    assert!(parse_keys(":emptykid:1\n").is_err());
    assert!(parse_keys("kid::1\n").is_err());
    assert!(parse_keys("kid:secret:\n").is_err());
    assert!(parse_keys("kid:secret:12x\n").is_err());
    assert!(parse_keys("kid:secret:-5\n").is_err());
}

#[test]
fn test_parse_reports_first_bad_line() {
    match parse_keys("a:b:1\nbroken\nc:d:2\n") {
        Err(KeyStoreError::InvalidFormat(msg)) => {
            assert!(msg.contains("invalid line 2"));
            assert!(msg.contains("broken"));
        }
        other => panic!("expected a format failure, got {:?}", other),
    }
}

#[test]
fn test_parse_huge_timestamp_is_parse_error() {
    // one more than i64::MAX
    match parse_keys("a:b:9223372036854775808\n") {
        Err(KeyStoreError::Parse(_)) => {}
        other => panic!("expected a parse failure, got {:?}", other),
    }
    // i64::MAX itself is fine
    let keys = parse_keys("a:b:9223372036854775807\n").unwrap();
    assert_eq!(keys[0].created_at_unix, i64::MAX);
}

#[test]
fn test_error_messages() {
    assert_eq!(KeyStoreError::Io("gone".to_string()).message(), "IO error: gone");
    assert_eq!(KeyStoreError::Parse("p".to_string()).message(), "Parse error: p");
    assert_eq!(
        KeyStoreError::InvalidFormat("f".to_string()).message(),
        "Format error: f"
    );
    assert_eq!(KeyStoreError::Other("o".to_string()).message(), "Other error: o");
}
