//! AES-256-GCM encryption of pages and byte strings.

use crate::bytes::append;
use crate::error::{owned, BoogyError, Result};
use crate::page::PAGE_SIZE;
use aes_gcm::aead::Aead;
use aes_gcm::{Aes256Gcm, KeyInit, Nonce};
use vstd::prelude::*;

verus! {

/// Nonce size for AES-GCM (96 bits).
pub const NONCE_SIZE: usize = 12;

/// Authentication tag size for AES-GCM (128 bits).
pub const TAG_SIZE: usize = 16;

/// Maximum plaintext payload that fits in a single encrypted page.
pub const ENCRYPTED_PAYLOAD_SIZE: usize = 4068;

/// The longest plaintext that AES-GCM takes.
pub const MAX_PLAINTEXT: u64 = 0x10_0000_0000;

/// The error of the `aes-gcm` crate, which carries nothing.
#[verifier::external_type_specification]
#[verifier::external_body]
pub struct ExGcmError(aes_gcm::Error);

/// The ciphertext and tag that `Aes256Gcm::encrypt` produces from a key, a
/// nonce and a plaintext.
pub uninterp spec fn gcm_seal(key: Seq<u8>, nonce: Seq<u8>, plaintext: Seq<u8>) -> Seq<u8>;

/// The plaintext that `Aes256Gcm::decrypt` recovers from a key, a nonce and a
/// ciphertext with its tag; `None` if the tag does not match.
pub uninterp spec fn gcm_open(key: Seq<u8>, nonce: Seq<u8>, sealed: Seq<u8>) -> Option<Seq<u8>>;

/// `Aes256Gcm::encrypt` without associated data. It fails on plaintexts of more
/// than 2^36 bytes only. Its result is a function of key, nonce and plaintext,
/// 16 bytes longer than the plaintext, and `Aes256Gcm::decrypt` under the same
/// key and nonce gives the plaintext back.
#[verifier::external_body]
fn seal(key: &[u8; 32], nonce: &[u8; 12], plaintext: &[u8]) -> (r: std::result::Result<
    Vec<u8>,
    aes_gcm::Error,
>)
    ensures
        r is Ok <==> plaintext@.len() <= MAX_PLAINTEXT,
        r matches Ok(c) ==> c@ == gcm_seal(key@, nonce@, plaintext@),
        r matches Ok(c) ==> c@.len() == plaintext@.len() + 16,
        r matches Ok(c) ==> gcm_open(key@, nonce@, c@) == Some(plaintext@),
{
    let cipher = Aes256Gcm::new_from_slice(key).expect("32-byte key is always valid");
    cipher.encrypt(Nonce::from_slice(nonce), plaintext)
}

/// `Aes256Gcm::decrypt` without associated data. Its result is a function of
/// key, nonce and ciphertext, and 16 bytes shorter than the ciphertext.
#[verifier::external_body]
fn unseal(key: &[u8; 32], nonce: &[u8; 12], sealed: &[u8]) -> (r: std::result::Result<
    Vec<u8>,
    aes_gcm::Error,
>)
    ensures
        r matches Ok(p) ==> gcm_open(key@, nonce@, sealed@) == Some(p@) && p@.len() + 16
            == sealed@.len(),
        r is Err ==> gcm_open(key@, nonce@, sealed@) is None,
{
    let cipher = Aes256Gcm::new_from_slice(key).expect("32-byte key is always valid");
    cipher.decrypt(Nonce::from_slice(nonce), sealed)
}

/// `rand::fill` on twelve bytes: any nonce may come back.
#[verifier::external_body]
fn random_nonce() -> [u8; 12] {
    let mut nonce = [0u8; 12];
    rand::fill(&mut nonce);
    nonce
}

/// What a nonce with a ciphertext behind it decrypts to.
pub open spec fn opened(key: Seq<u8>, sealed: Seq<u8>) -> Option<Seq<u8>> {
    if sealed.len() < 12 {
        None
    } else {
        gcm_open(key, sealed.subrange(0, 12), sealed.subrange(12, sealed.len() as int))
    }
}

/// The nonce and the ciphertext with its tag behind it.
pub open spec fn sealed_with(key: Seq<u8>, nonce: Seq<u8>, plaintext: Seq<u8>) -> Seq<u8> {
    nonce + gcm_seal(key, nonce, plaintext)
}

/// AES-256-GCM cipher for page-level encryption.
///
/// Each encrypted page is laid out as `[nonce:12][ciphertext+tag]` and fits
/// exactly in `PAGE_SIZE` bytes.
pub struct Cipher {
    key: [u8; 32],
}

impl Cipher {
    /// The key.
    pub closed spec fn secret(&self) -> Seq<u8> {
        self.key@
    }

    /// A cipher from a raw 256-bit key.
    pub fn new(key: &[u8; 32]) -> (c: Cipher)
        ensures
            c.secret() == key@,
    {
        Cipher { key: *key }
    }

    /// The text shown for a cipher; the key does not appear in it.
    pub fn describe(&self) -> (s: String)
        ensures
            s@ == "Cipher(***)"@,
    {
        owned("Cipher(***)")
    }

    /// Encrypts `plaintext` under a given nonce.
    pub fn encrypt_bytes_with(&self, nonce: &[u8; 12], plaintext: &[u8]) -> (r: Result<Vec<u8>>)
        ensures
            r is Ok <==> plaintext@.len() <= MAX_PLAINTEXT,
            r matches Ok(v) ==> {
                &&& v@ == sealed_with(self.secret(), nonce@, plaintext@)
                &&& v@.len() == plaintext@.len() + 28
                &&& opened(self.secret(), v@) == Some(plaintext@)
            },
            r matches Err(e) ==> e is DecryptionFailed,
    {
        match seal(&self.key, nonce, plaintext) {
            Err(_) => Err(BoogyError::DecryptionFailed(owned("encryption failed: aead::Error"))),
            Ok(c) => {
                let mut out: Vec<u8> = Vec::new();
                append(&mut out, nonce.as_slice());
                append(&mut out, c.as_slice());
                assert(out@ =~= sealed_with(self.secret(), nonce@, plaintext@));
                assert(out@.subrange(0, 12) =~= nonce@);
                assert(out@.subrange(12, out@.len() as int) =~= c@);
                Ok(out)
            },
        }
    }

    /// Encrypts `plaintext` under a fresh random nonce, which is put in front.
    pub fn encrypt_bytes(&self, plaintext: &[u8]) -> (r: Result<Vec<u8>>)
        ensures
            r is Ok <==> plaintext@.len() <= MAX_PLAINTEXT,
            r matches Ok(v) ==> v@.len() == plaintext@.len() + 28 && opened(self.secret(), v@) == Some(
                plaintext@,
            ),
            r matches Err(e) ==> e is DecryptionFailed,
    {
        let nonce: [u8; 12] = random_nonce();
        self.encrypt_bytes_with(&nonce, plaintext)
    }

    /// Decrypts a nonce with a ciphertext behind it.
    pub fn decrypt_bytes(&self, sealed: &[u8]) -> (r: Result<Vec<u8>>)
        ensures
            r is Ok <==> opened(self.secret(), sealed@) is Some,
            r matches Ok(p) ==> opened(self.secret(), sealed@) == Some(p@) && p@.len() + 28
                == sealed@.len(),
            r matches Err(e) ==> e is DecryptionFailed,
    {
        let n: usize = sealed.len();
        if n < NONCE_SIZE {
            return Err(BoogyError::DecryptionFailed(owned("ciphertext too short")));
        }
        let mut nonce: [u8; 12] = [0; 12];
        let mut i: usize = 0;
        while i < 12
            invariant
                i <= 12 <= sealed@.len(),
                forall|j: int| 0 <= j < i ==> nonce@[j] == sealed@[j],
            decreases 12 - i,
        {
            nonce[i] = sealed[i];
            i += 1;
        }
        assert(nonce@ =~= sealed@.subrange(0, 12));
        match unseal(&self.key, &nonce, &sealed[12..n]) {
            Ok(p) => Ok(p),
            Err(_) => Err(BoogyError::DecryptionFailed(owned("decryption failed: aead::Error"))),
        }
    }

    /// Encrypts `plaintext` (exactly `ENCRYPTED_PAYLOAD_SIZE` bytes) under a
    /// given nonce into a full page: `[nonce:12][ciphertext+tag]`.
    pub fn encrypt_page_with(&self, nonce: &[u8; 12], plaintext: &[u8]) -> (r: Result<
        [u8; PAGE_SIZE],
    >)
        ensures
            r is Ok <==> plaintext@.len() == ENCRYPTED_PAYLOAD_SIZE,
            r matches Ok(p) ==> {
                &&& p@ == sealed_with(self.secret(), nonce@, plaintext@)
                &&& opened(self.secret(), p@) == Some(plaintext@)
            },
            r matches Err(e) ==> e is InvalidKey,
    {
        if plaintext.len() != ENCRYPTED_PAYLOAD_SIZE {
            return Err(BoogyError::InvalidKey(owned("plaintext must be 4068 bytes")));
        }
        match self.encrypt_bytes_with(nonce, plaintext) {
            Err(e) => Err(e),
            Ok(v) => {
                let page: [u8; PAGE_SIZE] = page_image(v.as_slice());
                Ok(page)
            },
        }
    }

    /// Encrypts `plaintext` (exactly `ENCRYPTED_PAYLOAD_SIZE` bytes) under a
    /// fresh random nonce into a full page.
    pub fn encrypt_page(&self, plaintext: &[u8]) -> (r: Result<[u8; PAGE_SIZE]>)
        ensures
            r is Ok <==> plaintext@.len() == ENCRYPTED_PAYLOAD_SIZE,
            r matches Ok(p) ==> opened(self.secret(), p@) == Some(plaintext@),
            r matches Err(e) ==> e is InvalidKey,
    {
        let nonce: [u8; 12] = random_nonce();
        self.encrypt_page_with(&nonce, plaintext)
    }

    /// Decrypts a full encrypted page back to the original plaintext.
    pub fn decrypt_page(&self, encrypted: &[u8; PAGE_SIZE]) -> (r: Result<
        [u8; ENCRYPTED_PAYLOAD_SIZE],
    >)
        ensures
            r is Ok <==> opened(self.secret(), encrypted@) is Some,
            r matches Ok(p) ==> opened(self.secret(), encrypted@) == Some(p@),
            r matches Err(e) ==> e is DecryptionFailed,
    {
        match self.decrypt_bytes(encrypted.as_slice()) {
            Err(e) => Err(e),
            Ok(v) => {
                let mut out: [u8; ENCRYPTED_PAYLOAD_SIZE] = [0; ENCRYPTED_PAYLOAD_SIZE];
                let mut i: usize = 0;
                while i < ENCRYPTED_PAYLOAD_SIZE
                    invariant
                        i <= 4068,
                        v@.len() == 4068,
                        forall|j: int| 0 <= j < i ==> out@[j] == v@[j],
                    decreases 4068 - i,
                {
                    out[i] = v[i];
                    i += 1;
                }
                assert(out@ =~= v@);
                Ok(out)
            },
        }
    }
}

impl Clone for Cipher {
    fn clone(&self) -> (c: Cipher)
        ensures
            c.secret() == self.secret(),
    {
        Cipher { key: self.key }
    }
}

/// The bytes of a page as an array.
pub fn page_image(v: &[u8]) -> (a: [u8; PAGE_SIZE])
    requires
        v@.len() == 4096,
    ensures
        a@ == v@,
{
    let mut a: [u8; PAGE_SIZE] = [0; PAGE_SIZE];
    let mut i: usize = 0;
    while i < PAGE_SIZE
        invariant
            i <= 4096,
            v@.len() == 4096,
            forall|j: int| 0 <= j < i ==> a@[j] == v@[j],
        decreases 4096 - i,
    {
        a[i] = v[i];
        i += 1;
    }
    assert(a@ =~= v@);
    a
}

}
