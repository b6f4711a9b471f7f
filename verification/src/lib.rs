//! Data plane of a two-server private message board: a keyed cuckoo table,
//! the PRF / KDF / AEAD primitives around it, a two-server distributed point
//! function for private reads, and the client and server cores that tie them
//! together.

pub mod bytes;
pub mod client;
pub mod constants;
pub mod crypto;
pub mod cuckoo;
pub mod dpf;
pub mod error;
pub mod laws;
pub mod rng;
pub mod server;
pub mod types;
pub mod utils;
