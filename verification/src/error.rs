use vstd::prelude::*;

verus! {

/// Status codes of the request-handling surface, mirrored on both endpoints.
#[derive(Debug, Clone, Copy, PartialEq, Eq, Structural)]
pub enum PirStatus {
    Success,
    ErrorInvalidArgument,
    ErrorMemory,
    ErrorProcessing,
}

/// Failures of the cryptographic primitives.
#[derive(Debug, Clone, Copy, PartialEq, Eq, Structural)]
pub enum CryptoError {
    InvalidKeyLength,
    HkdfExpansionFailed,
    HkdfFillFailed,
    EncryptionFailed,
    DecryptionFailed,
}

/// Failures of the client/server read and write paths.
#[derive(Debug, Clone, Copy, PartialEq, Eq, Structural)]
pub enum PirError {
    InvalidArgument,
    Memory,
    Processing,
    Utf8Error,
    FfiError,
    TableFull,
    IndexOutOfBounds,
    Crypto(CryptoError),
}

} // verus!
