use keyden::{generate_secret, recommended_rotation_interval};

const CHARSET: &[u8] =
    b"abcdefghijklmnopqrstuvwxyzABCDEFGHIJKLMNOPQRSTUVWXYZ0123456789!@#$%^&*(-_=+)";

#[test]
fn test_generate_secret() {
    let secret = generate_secret(32);
    assert_eq!(secret.len(), 32);
    assert!(secret.chars().all(|c| CHARSET.contains(&(c as u8))));
}

#[test]
fn test_generate_secret_lengths() {
    assert_eq!(generate_secret(0), "");
    assert_eq!(generate_secret(1).len(), 1);
    assert_eq!(generate_secret(128).len(), 128);
}

#[test]
fn test_recommended_rotation_interval() {
    let interval = recommended_rotation_interval(60, 5);
    assert_eq!(interval, 24);
}
