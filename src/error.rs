use vstd::prelude::*;

verus! {

/// The ways an operation of the library can fail.
#[derive(Debug, Clone, Copy, PartialEq, Eq, Structural)]
pub enum ClipError {
    /// The password and salt could not be turned into a key.
    KeyDerivation,
    /// The plaintext is too long for the cipher.
    Encryption,
    /// Authentication of an envelope failed: wrong key, or damaged data.
    Decryption,
    /// The backing store reported an I/O failure.
    Store,
    /// A stored record could not be decoded.
    Corrupt,
    /// The store holds no salt yet.
    NotInitialized,
    /// A metadata record that should be present is missing.
    NotFound,
    /// The remote peer answered with a failure status.
    Transport,
}

} // verus!
