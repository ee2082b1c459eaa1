use vstd::prelude::*;
use aes_gcm_siv::aead::{Aead, KeyInit};

verus! {

/// What AES-256-GCM-SIV decryption of `ciphertext` (with its tag) under
/// `key` and `nonce` yields: the plaintext, or `None` when the tag does not
/// verify.
pub uninterp spec fn spec_aes256_gcm_siv_open(key: Seq<u8>, nonce: Seq<u8>, ciphertext: Seq<u8>) -> Option<Seq<u8>>;

/// `aes_gcm_siv::Aes256GcmSiv` built from `key` (`KeyInit::new`), then
/// `Aead::decrypt` of `ciphertext` under `nonce`. Claimed: the result is
/// the named function of the three byte strings, with a decryption error
/// given as `None`.
#[verifier::external_body]
pub(crate) fn aes256_gcm_siv_open(key: &[u8; 32], nonce: &[u8; 12], ciphertext: &[u8]) -> (r: Option<Vec<u8>>)
    ensures
        match r {
            Some(plain) => spec_aes256_gcm_siv_open(key@, nonce@, ciphertext@) == Some(plain@),
            None => spec_aes256_gcm_siv_open(key@, nonce@, ciphertext@) is None,
        },
{
    let cipher = aes_gcm_siv::Aes256GcmSiv::new(key.into());
    match cipher.decrypt(nonce.into(), ciphertext) {
        Ok(plain) => Some(plain),
        Err(_) => None,
    }
}

/// The longest plaintext AES-256-GCM-SIV seals (`aes_gcm_siv::P_MAX`).
pub const MAX_PLAINTEXT: u64 = 68719476736;

/// What AES-256-GCM-SIV encryption of `plaintext` under `key` and `nonce`
/// yields: the ciphertext followed by the tag.
pub uninterp spec fn spec_aes256_gcm_siv_seal(key: Seq<u8>, nonce: Seq<u8>, plaintext: Seq<u8>) -> Seq<u8>;

/// `aes_gcm_siv::Aes256GcmSiv` built from `key` (`KeyInit::new`), then
/// `Aead::encrypt` of `plaintext` under `nonce`, which fails only for a
/// plaintext longer than `P_MAX`. Claimed: the result is the named function
/// of the three byte strings, and decrypting it under the same key and nonce
/// gives the plaintext back (the round trip the crate's documentation
/// shows).
#[verifier::external_body]
pub(crate) fn aes256_gcm_siv_seal(key: &[u8; 32], nonce: &[u8; 12], plaintext: &[u8]) -> (r: Vec<u8>)
    requires
        plaintext@.len() <= MAX_PLAINTEXT,
    ensures
        r@ == spec_aes256_gcm_siv_seal(key@, nonce@, plaintext@),
        spec_aes256_gcm_siv_open(key@, nonce@, r@) == Some(plaintext@),
{
    let cipher = aes_gcm_siv::Aes256GcmSiv::new(key.into());
    match cipher.encrypt(nonce.into(), plaintext) {
        Ok(sealed) => sealed,
        Err(_) => Vec::new(),
    }
}

/// `uuid::Uuid::new_v4`, as the UUID's 128-bit value: a fresh random session
/// id. Nothing is promised of the value, which is random.
#[verifier::external_body]
pub(crate) fn new_session_id() -> (r: u128) {
    uuid::Uuid::new_v4().as_u128()
}

} // verus!
