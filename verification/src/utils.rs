//! Key material and the key-derivation / encryption / decryption functions
//! built on the trusted primitives.

use vstd::prelude::*;

use crate::bytes::zero_bytes;
use crate::crypto::aead_open;
use crate::crypto::aead_open_exec;
use crate::crypto::aead_seal;
use crate::crypto::hkdf16_of;
use crate::crypto::hkdf_sha256_16;
use crate::crypto::random_bytes;
use crate::crypto::sha256;
use crate::crypto::sha256_of;
use crate::error::CryptoError;
use vstd::string::StringSliceAdditionalSpecFns;

verus! {

/// Hash and HKDF inputs must stay below this length; the underlying hash
/// rejects longer messages.
pub open spec fn max_hash_input() -> int {
    0x1000000000000000
}

/// Sealed blobs and plaintexts must stay below this length; it is well
/// inside the GCM limits.
pub open spec fn max_aead_input() -> int {
    0x100000000
}

/// A key: an owned byte string, 16 bytes wherever the derivation functions
/// accept it.
#[derive(Debug, Clone, PartialEq, Eq)]
pub struct Key(pub(crate) Vec<u8>);

impl View for Key {
    type V = Seq<u8>;

    closed spec fn view(&self) -> Seq<u8> {
        self.0@
    }
}

impl Key {
    /// A fresh 16-byte key drawn from the system's entropy source.
    pub fn new_random() -> (r: Key)
        ensures
            r@.len() == 16,
    {
        Key(random_bytes(16))
    }

    /// The key holding exactly `bytes`.
    pub fn from_bytes(bytes: Vec<u8>) -> (r: Key)
        ensures
            r@ == bytes@,
    {
        Key(bytes)
    }

    /// A copy of the key bytes.
    pub fn to_vec(&self) -> (r: Vec<u8>)
        ensures
            r@ == self@,
    {
        crate::bytes::copy_bytes(&self.0)
    }

    /// The key bytes, borrowed.
    pub fn as_slice(&self) -> (r: &[u8])
        ensures
            r@ == self@,
    {
        self.0.as_slice()
    }
}

/// The ASCII bytes of the fixed derivation label `MC-OSAM-Salt`.
pub open spec fn salt_label() -> Seq<u8> {
    seq![77u8, 67u8, 45u8, 79u8, 83u8, 65u8, 77u8, 45u8, 83u8, 97u8, 108u8, 116u8]
}

/// The fixed KDF salt: the SHA-256 digest of the derivation label.
pub open spec fn kdf_salt() -> Seq<u8> {
    sha256_of(salt_label())
}

/// What the key-derivation function yields for keying material `key` and
/// context `info`.
pub open spec fn kdf_spec(key: Seq<u8>, info: Seq<u8>) -> Seq<u8> {
    hkdf16_of(kdf_salt(), key, info)
}

/// `msg` right-padded with zero bytes to `target` (left as it is when it is
/// already that long).
pub open spec fn pad_spec(msg: Seq<u8>, target: int) -> Seq<u8> {
    if msg.len() >= target {
        msg
    } else {
        msg + zero_bytes((target - msg.len()) as nat)
    }
}

/// What decryption of `blob` under `key` yields: the opened plaintext when
/// the key has the right length, the blob carries at least a nonce and is
/// within the accepted size, and the tag authenticates; nothing otherwise.
pub open spec fn open_blob(key: Seq<u8>, blob: Seq<u8>) -> Option<Seq<u8>> {
    if key.len() == 16 && 12 <= blob.len() < max_aead_input() {
        aead_open(key, blob)
    } else {
        None
    }
}

/// Derives a 16-byte subkey from a 16-byte key and a context string, by
/// HKDF-SHA256 under the fixed salt.
pub fn kdf(key: &Key, input: &str) -> (r: Result<Key, CryptoError>)
    ensures
        key@.len() != 16 ==> r == Err::<Key, CryptoError>(CryptoError::InvalidKeyLength),
        key@.len() == 16 && input.spec_bytes().len() < max_hash_input() ==> (r matches Ok(k)
            && k@ == kdf_spec(key@, input.spec_bytes()) && k@.len() == 16),
        key@.len() == 16 && input.spec_bytes().len() >= max_hash_input() ==> r == Err::<
            Key,
            CryptoError,
        >(CryptoError::HkdfExpansionFailed),
{
    if key.0.len() != 16 {
        return Err(CryptoError::InvalidKeyLength);
    }
    let info = vstd::slice::slice_to_vec(input.as_bytes());
    if info.len() as u64 >= 0x1000000000000000u64 {
        return Err(CryptoError::HkdfExpansionFailed);
    }
    let mut label: Vec<u8> = Vec::new();
    label.push(77u8);
    label.push(67u8);
    label.push(45u8);
    label.push(79u8);
    label.push(83u8);
    label.push(65u8);
    label.push(77u8);
    label.push(45u8);
    label.push(83u8);
    label.push(97u8);
    label.push(108u8);
    label.push(116u8);
    proof {
        assert(label@ =~= salt_label());
    }
    let salt = sha256(&label);
    let okm = hkdf_sha256_16(&salt, &key.0, &info);
    Ok(Key(okm))
}

/// `message` right-padded with zero bytes to `target_length`; a message that
/// is already long enough comes back unchanged.
pub fn pad_message(message: &[u8], target_length: usize) -> (r: Vec<u8>)
    ensures
        r@ == pad_spec(message@, target_length as int),
{
    let mut padded = vstd::slice::slice_to_vec(message);
    while padded.len() < target_length
        invariant
            message@.len() >= target_length ==> padded@ == message@,
            message@.len() < target_length ==> message@.len() <= padded@.len()
                <= target_length && padded@ == message@ + zero_bytes(
                (padded@.len() - message@.len()) as nat,
            ),
        decreases target_length - padded@.len(),
    {
        padded.push(0u8);
        proof {
            assert(padded@ =~= message@ + zero_bytes((padded@.len() - message@.len()) as nat));
        }
    }
    proof {
        assert(padded@ =~= pad_spec(message@, target_length as int));
    }
    padded
}

/// Encrypts `message` under `key`, padding it to `padding_size` first, and
/// returns nonce, ciphertext and tag concatenated. Succeeds exactly when the
/// key is 16 bytes and the padded message is within the accepted size; the
/// result always opens back to the padded message under the same key.
pub fn encrypt(key: &Key, message: &[u8], padding_size: usize) -> (r: Result<Vec<u8>, CryptoError>)
    ensures
        key@.len() == 16 && pad_spec(message@, padding_size as int).len() < max_aead_input()
            ==> (r matches Ok(c) && c@.len() == pad_spec(message@, padding_size as int).len() + 28
            && aead_open(key@, c@) == Some(pad_spec(message@, padding_size as int))),
        key@.len() != 16 || pad_spec(message@, padding_size as int).len() >= max_aead_input()
            ==> r == Err::<Vec<u8>, CryptoError>(CryptoError::EncryptionFailed),
{
    if key.0.len() != 16 {
        return Err(CryptoError::EncryptionFailed);
    }
    let padded = pad_message(message, padding_size);
    if padded.len() as u64 >= 0x100000000u64 {
        return Err(CryptoError::EncryptionFailed);
    }
    Ok(aead_seal(&key.0, &padded))
}

/// Decrypts a nonce-prefixed ciphertext under `key`. Succeeds exactly when
/// the tag authenticates, and then returns the padded plaintext bit-exactly.
pub fn decrypt(key: &Key, ciphertext: &[u8]) -> (r: Result<Vec<u8>, CryptoError>)
    ensures
        match r {
            Ok(v) => open_blob(key@, ciphertext@) == Some(v@),
            Err(e) => e == CryptoError::DecryptionFailed && open_blob(key@, ciphertext@) is None,
        },
{
    if ciphertext.len() < 12 {
        return Err(CryptoError::DecryptionFailed);
    }
    if key.0.len() != 16 {
        return Err(CryptoError::DecryptionFailed);
    }
    if ciphertext.len() as u64 >= 0x100000000u64 {
        return Err(CryptoError::DecryptionFailed);
    }
    let blob = vstd::slice::slice_to_vec(ciphertext);
    match aead_open_exec(&key.0, &blob) {
        Some(v) => Ok(v),
        None => Err(CryptoError::DecryptionFailed),
    }
}

/// Law: sealing then opening is the identity on the padded message. A blob
/// that `encrypt` produced under a 16-byte key opens, by `decrypt`'s
/// contract, to exactly the padded plaintext that went in.
pub proof fn lemma_seal_then_open(key: Seq<u8>, blob: Seq<u8>, padded: Seq<u8>)
    requires
        key.len() == 16,
        blob.len() == padded.len() + 28,
        blob.len() < max_aead_input(),
        aead_open(key, blob) == Some(padded),
    ensures
        open_blob(key, blob) == Some(padded),
{
}

} // verus!
