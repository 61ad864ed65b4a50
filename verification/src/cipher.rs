//! AES-256-GCM, as the `aes-gcm` crate provides it.

use aes_gcm::aead::{Aead, KeyInit, OsRng};
use aes_gcm::{AeadCore, Aes256Gcm, Error as AeadError, Key, Nonce};
use vstd::prelude::*;

verus! {

pub const NONCE_LEN: usize = 12;

/// The tag that encryption appends.
pub const TAG_LEN: usize = 16;

/// The longest plaintext that the cipher takes, in bytes.
pub const PLAINTEXT_MAX: u64 = 0x10_0000_0000;

/// What the cipher reports when it fails. It holds nothing.
#[verifier::external_type_specification]
#[verifier::external_body]
pub struct ExAeadError(AeadError);

/// What `Aes256Gcm` encrypts `plaintext` to, tag included.
pub uninterp spec fn encrypted(key: Seq<u8>, nonce: Seq<u8>, plaintext: Seq<u8>) -> Seq<u8>;

/// What `Aes256Gcm` decrypts `ciphertext` to; `None` where the tag does not fit.
pub uninterp spec fn decrypted(key: Seq<u8>, nonce: Seq<u8>, ciphertext: Seq<u8>) -> Option<
    Seq<u8>,
>;

/// `Aes256Gcm::encrypt`, with no associated data. It fails on a plaintext longer
/// than the cipher takes and on no other; what it returns is longer than the
/// plaintext by the tag and decrypts to it under the same key and nonce.
#[verifier::external_body]
pub(crate) fn encrypt(key: &[u8; 32], nonce: &[u8], plaintext: &[u8]) -> (r: Result<
    Vec<u8>,
    AeadError,
>)
    requires
        nonce@.len() == NONCE_LEN,
        plaintext@.len() + TAG_LEN <= isize::MAX,
    ensures
        r is Ok <==> plaintext@.len() <= PLAINTEXT_MAX,
        r matches Ok(c) ==> c@ == encrypted(key@, nonce@, plaintext@),
        r matches Ok(c) ==> c@.len() == plaintext@.len() + TAG_LEN,
        r matches Ok(c) ==> decrypted(key@, nonce@, c@) == Some(plaintext@),
{
    Aes256Gcm::new(Key::<Aes256Gcm>::from_slice(key)).encrypt(Nonce::from_slice(nonce), plaintext)
}

/// `Aes256Gcm::decrypt`, with no associated data. It succeeds where the tag at
/// the end of the ciphertext fits, and returns the rest decrypted: what
/// encrypts, under the same key and nonce, to that very ciphertext.
#[verifier::external_body]
pub(crate) fn decrypt(key: &[u8; 32], nonce: &[u8], ciphertext: &[u8]) -> (r: Result<
    Vec<u8>,
    AeadError,
>)
    requires
        nonce@.len() == NONCE_LEN,
    ensures
        match r {
            Ok(p) => decrypted(key@, nonce@, ciphertext@) == Some(p@),
            Err(_) => decrypted(key@, nonce@, ciphertext@) is None,
        },
        r matches Ok(p) ==> p@.len() + TAG_LEN == ciphertext@.len(),
        r matches Ok(p) ==> p@.len() <= PLAINTEXT_MAX ==> encrypted(key@, nonce@, p@)
            == ciphertext@,
{
    Aes256Gcm::new(Key::<Aes256Gcm>::from_slice(key)).decrypt(Nonce::from_slice(nonce), ciphertext)
}

/// `Aes256Gcm::generate_nonce`, fed by the operating system's random numbers.
/// Nothing is promised of the bytes but how many there are. It does not return
/// where the operating system has no random numbers to give.
#[verifier::external_body]
pub(crate) fn fresh_nonce() -> (nonce: Vec<u8>)
    ensures
        nonce@.len() == NONCE_LEN,
{
    Aes256Gcm::generate_nonce(&mut OsRng).to_vec()
}

} // verus!
