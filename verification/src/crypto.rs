//! Trusted boundary around the cryptographic primitives: SHA-256 and
//! HKDF-SHA256 from `ring`, HMAC-SHA256 from `hmac`/`sha2`, AES-128-GCM from
//! `aes-gcm`, and entropy from `rand`.
//!
//! Each deterministic primitive's result is given a name (an uninterpreted
//! specification function of the arguments alone); the wrappers' contracts
//! speak of those names and of nothing the crates' sources do not show.

use vstd::prelude::*;

use aes_gcm::aead::AeadInPlace;
use aes_gcm::aead::KeyInit;
use aes_gcm::Aes128Gcm;
use aes_gcm::Nonce;
use hmac::Mac;
use rand::Rng;
use rand::RngCore;

verus! {

/// The SHA-256 digest of `data`: 32 bytes, a function of the input alone.
pub uninterp spec fn sha256_of(data: Seq<u8>) -> Seq<u8>;

/// The HMAC-SHA256 tag over `msg` under `key`: 32 bytes, a function of the
/// two inputs alone.
pub uninterp spec fn hmac_sha256_of(key: Seq<u8>, msg: Seq<u8>) -> Seq<u8>;

/// The 16-byte HKDF-SHA256 output for `salt`, keying material `ikm` and
/// context `info`: a function of the three inputs alone.
pub uninterp spec fn hkdf16_of(salt: Seq<u8>, ikm: Seq<u8>, info: Seq<u8>) -> Seq<u8>;

/// What AES-128-GCM opening of `blob` (a 12-byte nonce, then ciphertext,
/// then a 16-byte tag) under `key` yields: the plaintext where the tag
/// authenticates, nothing otherwise. A function of key and blob alone.
pub uninterp spec fn aead_open(key: Seq<u8>, blob: Seq<u8>) -> Option<Seq<u8>>;

/// Relies on `ring::digest::digest` with SHA-256: a 32-byte digest computed
/// from the input bytes alone. The length bound keeps clear of the hash's
/// maximum input size.
#[verifier::external_body]
pub(crate) fn sha256(data: &Vec<u8>) -> (r: Vec<u8>)
    requires
        data@.len() < 0x1000000000000000,
    ensures
        r@ == sha256_of(data@),
        r@.len() == 32,
{
    ring::digest::digest(&ring::digest::SHA256, data.as_slice()).as_ref().to_vec()
}

/// Relies on the `hmac` crate's `Hmac<Sha256>` (`new_from_slice`, `update`,
/// `finalize`): a 32-byte tag computed from key and message alone.
/// `new_from_slice` accepts a key of any length (long keys are hashed,
/// short ones padded), so the construction cannot fail. The length bound
/// keeps clear of the hash's maximum input size.
#[verifier::external_body]
pub(crate) fn hmac_sha256(key: &[u8], msg: &Vec<u8>) -> (r: Vec<u8>)
    requires
        msg@.len() < 0x1000000000000000,
    ensures
        r@ == hmac_sha256_of(key@, msg@),
        r@.len() == 32,
{
    let mut mac = <hmac::Hmac<sha2::Sha256> as Mac>::new_from_slice(key)
        .expect("HMAC accepts a key of any length");
    mac.update(msg.as_slice());
    mac.finalize().into_bytes().to_vec()
}

/// Relies on `ring::hkdf` with HKDF-SHA256 (`Salt::new`, `extract`,
/// `expand`, `Okm::fill`): 16 derived bytes computed from salt, keying
/// material and info alone. HKDF's output stream is prefix-stable, so the
/// first 16 of 32 expanded bytes are the 16-byte-output derivation; 32 bytes
/// are within the HKDF expansion bound, so the expansion cannot fail. The
/// length bounds keep clear of the hash's maximum input size.
#[verifier::external_body]
pub(crate) fn hkdf_sha256_16(salt: &Vec<u8>, ikm: &Vec<u8>, info: &Vec<u8>) -> (r: Vec<u8>)
    requires
        salt@.len() < 0x1000000000000000,
        ikm@.len() < 0x1000000000000000,
        info@.len() < 0x1000000000000000,
    ensures
        r@ == hkdf16_of(salt@, ikm@, info@),
        r@.len() == 16,
{
    let prk = ring::hkdf::Salt::new(ring::hkdf::HKDF_SHA256, salt.as_slice())
        .extract(ikm.as_slice());
    let info_parts = [info.as_slice()];
    let okm = prk.expand(&info_parts, ring::hkdf::HKDF_SHA256)
        .expect("32 bytes are within the HKDF bound");
    let mut buf = [0u8; 32];
    okm.fill(&mut buf).expect("the buffer length matches the requested length");
    buf[..16].to_vec()
}

/// Relies on `aes_gcm::Aes128Gcm` (`new_from_slice`, `encrypt_in_place`):
/// seals `plain` under `key` with a fresh random 12-byte nonce from
/// `rand::thread_rng` and returns nonce, ciphertext and tag concatenated.
/// Whatever nonce was drawn, opening the result under the same key yields
/// `plain` again, and the length bound is well inside the GCM plaintext
/// limit, so sealing cannot fail.
#[verifier::external_body]
pub(crate) fn aead_seal(key: &Vec<u8>, plain: &Vec<u8>) -> (r: Vec<u8>)
    requires
        key@.len() == 16,
        plain@.len() < 0x100000000,
    ensures
        r@.len() == plain@.len() + 28,
        aead_open(key@, r@) == Some(plain@),
{
    let cipher = Aes128Gcm::new_from_slice(key.as_slice()).expect("the key is 16 bytes");
    let nonce_bytes: [u8; 12] = rand::thread_rng().gen();
    let nonce = Nonce::from_slice(&nonce_bytes);
    let mut buffer = plain.clone();
    cipher.encrypt_in_place(nonce, b"", &mut buffer)
        .expect("the length is within the GCM bound");
    let mut out = nonce_bytes.to_vec();
    out.extend_from_slice(&buffer);
    out
}

/// Relies on `aes_gcm::Aes128Gcm` (`new_from_slice`, `decrypt_in_place`):
/// splits off the leading 12-byte nonce, authenticates and decrypts the
/// remainder. The outcome is a function of key and input alone; it is the
/// named `aead_open`.
#[verifier::external_body]
pub(crate) fn aead_open_exec(key: &Vec<u8>, blob: &Vec<u8>) -> (r: Option<Vec<u8>>)
    requires
        key@.len() == 16,
        12 <= blob@.len() < 0x100000000,
    ensures
        match r {
            Some(v) => aead_open(key@, blob@) == Some(v@) && v@.len() + 28 == blob@.len(),
            None => aead_open(key@, blob@) is None,
        },
{
    let cipher = match Aes128Gcm::new_from_slice(key.as_slice()) {
        Ok(c) => c,
        Err(_) => return None,
    };
    let (nonce, ct) = blob.as_slice().split_at(12);
    let mut buffer = ct.to_vec();
    match cipher.decrypt_in_place(Nonce::from_slice(nonce), b"", &mut buffer) {
        Ok(()) => Some(buffer),
        Err(_) => None,
    }
}

/// Relies on `rand::thread_rng` and `RngCore::fill_bytes`: `n` bytes of
/// entropy. Nothing is promised of their values.
#[verifier::external_body]
pub(crate) fn random_bytes(n: usize) -> (r: Vec<u8>)
    ensures
        r@.len() == n,
{
    let mut buf = vec![0u8; n];
    rand::thread_rng().fill_bytes(&mut buf);
    buf
}

/// Relies on `rand::thread_rng` and `Rng::gen`: a 64-bit value of which
/// nothing is promised.
#[verifier::external_body]
pub(crate) fn random_u64() -> (r: u64) {
    rand::thread_rng().gen::<u64>()
}

} // verus!
