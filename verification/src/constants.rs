use vstd::prelude::*;

verus! {

/// Slots per bucket of the cuckoo table.
pub const BUCKET_DEPTH: usize = 4;

/// Seed of the eviction random stream; replicas must agree on it.
pub const RANDOM_SEED: u64 = 12345;

/// Length of the nonce that prefixes every ciphertext.
pub const NONCE_SIZE: usize = 12;

/// Length of the authentication tag that ends every ciphertext.
pub const TAG_SIZE: usize = 16;

/// Every plaintext is zero-padded to this length before encryption, so that
/// all ciphertexts in the system have one uniform length.
pub const PADDING_SIZE: usize = 48;

/// Byte width of one stored payload: nonce, padded message, tag.
pub const ITEM_SIZE: usize = NONCE_SIZE + PADDING_SIZE + TAG_SIZE;

} // verus!
