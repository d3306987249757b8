use vigenere::cipher::{
    decrypt_message, encrypt_message, transform, CipherError, Direction,
};

#[test]
fn round_trip_letters() {
    let message = b"AttackAtDawn".to_vec();
    let key = b"LemonKey".to_vec();
    let ciphertext = encrypt_message(&message, &key);
    let plaintext = decrypt_message(&ciphertext, &key);
    assert_eq!(plaintext, message);
}

#[test]
fn round_trip_arbitrary_bytes() {
    let message: Vec<u8> = (0u8..=255).collect();
    let key = b"key".to_vec();
    let ciphertext = encrypt_message(&message, &key);
    let plaintext = decrypt_message(&ciphertext, &key);
    assert_eq!(plaintext, message);
}

#[test]
fn hello_world_fixture() {
    // The locked regression fixture for message "Hello, World!" under "key".
    let ciphertext = encrypt_message(b"Hello, World!", b"key");
    assert_eq!(ciphertext, b"Rijvs, Uyvjn!".to_vec());
    let plaintext = decrypt_message(b"Rijvs, Uyvjn!", b"key");
    assert_eq!(plaintext, b"Hello, World!".to_vec());
}

#[test]
fn non_alpha_passthrough() {
    // A one-letter key shifts every letter by the same amount, however many
    // non-letters stand before it, and non-letters come through unchanged.
    let ciphertext = encrypt_message(b"a1! \ta...a", b"b");
    assert_eq!(ciphertext, b"b1! \tb...b".to_vec());
}

#[test]
fn case_preservation() {
    let ciphertext = encrypt_message(b"aA zZ", b"KeY");
    assert!(ciphertext[0].is_ascii_lowercase());
    assert!(ciphertext[1].is_ascii_uppercase());
    assert_eq!(ciphertext[2], b' ');
    assert!(ciphertext[3].is_ascii_lowercase());
    assert!(ciphertext[4].is_ascii_uppercase());
}

#[test]
fn key_case_is_irrelevant() {
    let lower = encrypt_message(b"Hello, World!", b"key");
    let mixed = encrypt_message(b"Hello, World!", b"KeY");
    assert_eq!(lower, mixed);
}

#[test]
fn non_alpha_key_byte_shifts_by_zero() {
    // The '1' contributes no shift but still occupies its cursor position.
    let ciphertext = encrypt_message(b"abc", b"a1c");
    assert_eq!(ciphertext, b"abe".to_vec());
}

#[test]
fn empty_key_rejected() {
    let r = transform(b"abc", b"", Direction::Encrypt);
    assert_eq!(r, Err(CipherError::EmptyKey));
    let r = transform(b"", b"", Direction::Decrypt);
    assert_eq!(r, Err(CipherError::EmptyKey));
}

#[test]
fn transform_matches_directed_functions() {
    let enc = transform(b"Attack at dawn", b"key", Direction::Encrypt).unwrap();
    assert_eq!(enc, encrypt_message(b"Attack at dawn", b"key"));
    let dec = transform(&enc, b"key", Direction::Decrypt).unwrap();
    assert_eq!(dec, b"Attack at dawn".to_vec());
}

#[test]
fn empty_message_encrypts_to_empty() {
    assert_eq!(encrypt_message(b"", b"key"), Vec::<u8>::new());
}
