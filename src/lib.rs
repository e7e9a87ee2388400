//! A local wallet vault: a recovery phrase becomes an Ed25519 keypair, and the
//! keypair is kept on disk sealed under a password with a chunked AEAD format.
pub mod error;
pub mod cipher;
pub mod codec;
pub mod wallet;
