use clpd::crypto::{decrypt, derive_key, encrypt, encrypt_with_nonce, generate_salt, password_long_enough, MasterKey};
use clpd::error::ClipError;

#[test]
fn test_encrypt_decrypt() {
    let password = "test_password_123";
    let salt = generate_salt();
    let key = derive_key(password, &salt).unwrap();

    let plaintext = b"Hello, World! This is a test message.";
    let encrypted = encrypt(&key, plaintext).unwrap();
    let decrypted = decrypt(&key, &encrypted).unwrap();

    assert_eq!(plaintext, decrypted.as_slice());
}

#[test]
fn test_wrong_password() {
    let salt = generate_salt();
    let key1 = derive_key("password1", &salt).unwrap();
    let key2 = derive_key("password2", &salt).unwrap();

    let plaintext = b"Secret data";
    let encrypted = encrypt(&key1, plaintext).unwrap();

    assert!(decrypt(&key2, &encrypted).is_err());
}

#[test]
fn test_nonce_uniqueness() {
    let password = "test_password";
    let salt = generate_salt();
    let key = derive_key(password, &salt).unwrap();

    let plaintext = b"Same message";
    let encrypted1 = encrypt(&key, plaintext).unwrap();
    let encrypted2 = encrypt(&key, plaintext).unwrap();

    assert_ne!(encrypted1, encrypted2);
}

#[test]
fn envelope_layout_is_nonce_then_sealed_text_with_tag() {
    let key = MasterKey::from_bytes([7u8; 32]);
    let plaintext = b"layout";
    let sealed = encrypt(&key, plaintext).unwrap();
    assert_eq!(sealed.len(), 24 + plaintext.len() + 16);
    assert_ne!(&sealed[24..24 + plaintext.len()], &plaintext[..]);
}

#[test]
fn encrypt_with_fixed_nonce_is_deterministic_and_opens() {
    let key = MasterKey::from_bytes([1u8; 32]);
    let nonce = [9u8; 24];
    let a = encrypt_with_nonce(&key, &nonce, b"abc").unwrap();
    let b = encrypt_with_nonce(&key, &nonce, b"abc").unwrap();
    assert_eq!(a, b);
    assert_eq!(&a[..24], &nonce[..]);
    assert_eq!(decrypt(&key, &a).unwrap(), b"abc".to_vec());
}

#[test]
fn round_trip_of_empty_plaintext() {
    let key = MasterKey::from_bytes([3u8; 32]);
    let sealed = encrypt(&key, b"").unwrap();
    assert_eq!(sealed.len(), 40);
    assert_eq!(decrypt(&key, &sealed).unwrap(), Vec::<u8>::new());
}

#[test]
fn decrypt_rejects_short_input() {
    let key = MasterKey::from_bytes([0u8; 32]);
    assert_eq!(decrypt(&key, &[0u8; 23]), Err(ClipError::Decryption));
    assert_eq!(decrypt(&key, &[]), Err(ClipError::Decryption));
}

#[test]
fn decrypt_rejects_tampered_envelope() {
    let key = MasterKey::from_bytes([5u8; 32]);
    let mut sealed = encrypt(&key, b"payload").unwrap();
    let last = sealed.len() - 1;
    sealed[last] ^= 1;
    assert_eq!(decrypt(&key, &sealed), Err(ClipError::Decryption));
}

#[test]
fn wrong_key_rejected_with_raw_keys() {
    let k1 = MasterKey::from_bytes([1u8; 32]);
    let k2 = MasterKey::from_bytes([2u8; 32]);
    let sealed = encrypt(&k1, b"P").unwrap();
    assert_eq!(decrypt(&k2, &sealed), Err(ClipError::Decryption));
}

#[test]
fn derive_key_is_deterministic_and_input_sensitive() {
    let salt = [42u8; 16];
    let a = derive_key("pw", &salt).unwrap();
    let b = derive_key("pw", &salt).unwrap();
    assert_eq!(a.as_bytes(), b.as_bytes());
    let c = derive_key("pw2", &salt).unwrap();
    assert_ne!(a.as_bytes(), c.as_bytes());
    let d = derive_key("pw", &[43u8; 16]).unwrap();
    assert_ne!(a.as_bytes(), d.as_bytes());
}

#[test]
fn derive_key_rejects_too_short_salt() {
    assert_eq!(derive_key("pw", &[1u8; 2]).err(), Some(ClipError::KeyDerivation));
}

#[test]
fn master_key_bytes_round_trip() {
    let bytes = [11u8; 32];
    let key = MasterKey::from_bytes(bytes);
    assert_eq!(key.as_bytes(), &bytes);
}

#[test]
fn generated_salts_differ() {
    let a = generate_salt();
    let b = generate_salt();
    assert_eq!(a.len(), 16);
    assert_ne!(a, b);
}

#[test]
fn password_length_rule() {
    assert!(password_long_enough("12345678"));
    assert!(!password_long_enough("1234567"));
    assert!(!password_long_enough(""));
}
