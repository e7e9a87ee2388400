use vstd::prelude::*;

verus! {

/// Why the textual form of a keypair could not be read back.
#[derive(Debug, Clone, Copy, PartialEq, Eq, Structural)]
pub enum DecodeError {
    /// A field is not a decimal byte value, or the input is not text of that shape.
    Malformed,
    /// The fields parse, but there are not exactly 64 of them.
    WrongLength,
}

/// The failures that the vault surfaces to its callers.
#[derive(Debug, Clone, Copy, PartialEq, Eq, Structural)]
pub enum VaultError {
    /// The recovery phrase fails the wordlist or checksum validation.
    InvalidPhrase,
    /// Hierarchical derivation of the account key failed.
    DerivationError,
    /// The decrypted payload (or the file itself) has the wrong shape.
    Decode(DecodeError),
    /// The password or salt was refused by the key-derivation function.
    KdfError,
    /// A chunk failed verification: wrong password, corruption or tampering.
    AuthenticationFailure,
    /// The vault file could not be read or written.
    IoError,
}

} // verus!
