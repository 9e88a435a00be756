//! Encryption of pages and bytes.

use boogy_db::crypto::{Cipher, ENCRYPTED_PAYLOAD_SIZE, NONCE_SIZE};

fn test_key() -> [u8; 32] {
    let mut key = [0u8; 32];
    rand::fill(&mut key);
    key
}

#[test]
fn roundtrip_encrypt_decrypt() {
    let key = test_key();
    let cipher = Cipher::new(&key);

    let mut plaintext = [0u8; ENCRYPTED_PAYLOAD_SIZE];
    rand::fill(&mut plaintext);

    let encrypted = cipher.encrypt_page(&plaintext).unwrap();
    let decrypted = cipher.decrypt_page(&encrypted).unwrap();

    assert_eq!(&plaintext[..], &decrypted[..]);
}

#[test]
fn wrong_key_fails() {
    let key1 = test_key();
    let key2 = test_key();
    let cipher1 = Cipher::new(&key1);
    let cipher2 = Cipher::new(&key2);

    let plaintext = [42u8; ENCRYPTED_PAYLOAD_SIZE];
    let encrypted = cipher1.encrypt_page(&plaintext).unwrap();

    let result = cipher2.decrypt_page(&encrypted);
    assert!(result.is_err());
}

#[test]
fn tampered_ciphertext_fails() {
    let key = test_key();
    let cipher = Cipher::new(&key);

    let plaintext = [7u8; ENCRYPTED_PAYLOAD_SIZE];
    let mut encrypted = cipher.encrypt_page(&plaintext).unwrap();

    // Flip a byte in the ciphertext region (after the nonce).
    encrypted[NONCE_SIZE + 10] ^= 0xFF;

    let result = cipher.decrypt_page(&encrypted);
    assert!(result.is_err());
}

#[test]
fn unique_nonces_produce_different_ciphertext() {
    let key = test_key();
    let cipher = Cipher::new(&key);

    let plaintext = [0xAB; ENCRYPTED_PAYLOAD_SIZE];
    let enc1 = cipher.encrypt_page(&plaintext).unwrap();
    let enc2 = cipher.encrypt_page(&plaintext).unwrap();

    // Nonces (first 12 bytes) should differ.
    assert_ne!(&enc1[..NONCE_SIZE], &enc2[..NONCE_SIZE]);
    // Full pages should differ.
    assert_ne!(&enc1[..], &enc2[..]);
}

#[test]
fn debug_does_not_leak_key() {
    let key = test_key();
    let cipher = Cipher::new(&key);
    let debug = cipher.describe();
    assert_eq!(debug, "Cipher(***)");
}
