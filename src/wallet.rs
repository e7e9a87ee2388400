use vstd::prelude::*;
use crate::cipher::{decrypt, encrypt, is_vault_of, opened_vault, password_accepted};
use crate::codec::{decode, decoded, encode, encoded, lemma_codec_round_trip, Keypair, KEYPAIR_LEN};
use crate::error::{DecodeError, VaultError};
use bip39::{Language, Mnemonic, MnemonicType, Seed};
#[allow(deprecated)]
use solana_sdk::signer::keypair::keypair_from_seed_and_derivation_path;
use solana_sdk::derivation_path::DerivationPath;
use solana_sdk::pubkey::Pubkey;

verus! {

/// Length of a secret seed, and of a public key.
pub const KEY_HALF_LEN: usize = 32;

/// The 64-byte BIP39 seed of a phrase (empty passphrase), when the phrase passes
/// the English wordlist and checksum validation.
pub uninterp spec fn bip39_seed(phrase: Seq<char>) -> Option<Seq<u8>>;

/// The keypair bytes that SLIP-0010 Ed25519 derivation along m/44'/501'/account'/0'
/// gives from a seed, when the derivation succeeds. That path (Solana's BIP44 layout) is
/// this library's choice: vaults made with another account-to-path mapping hold other
/// keys, so it should be confirmed against existing vaults before claiming compatibility.
pub uninterp spec fn hd_keypair(seed: Seq<u8>, account: u32) -> Option<Seq<u8>>;

/// The Ed25519 public key of a 32-byte secret seed.
pub uninterp spec fn ed25519_public(secret: Seq<u8>) -> Seq<u8>;

/// The base58 text of a 32-byte public key.
pub uninterp spec fn base58_text(pubkey: Seq<u8>) -> Seq<char>;

/// The phrase passes the wordlist and checksum validation.
pub open spec fn is_valid_phrase(phrase: Seq<char>) -> bool {
    bip39_seed(phrase) is Some
}

/// 64 bytes whose second half is the public key of their first half.
pub open spec fn is_consistent_keypair(bytes: Seq<u8>) -> bool {
    bytes.len() == KEYPAIR_LEN && bytes.skip(KEY_HALF_LEN as int) == ed25519_public(bytes.take(KEY_HALF_LEN as int))
}

/// The words joined by single spaces.
pub open spec fn phrase_of(words: Seq<String>) -> Seq<char>
    decreases words.len(),
{
    if words.len() == 0 {
        Seq::empty()
    } else if words.len() == 1 {
        words[0]@
    } else {
        phrase_of(words.drop_last()) + seq![' '] + words.last()@
    }
}

/// The keypair that a phrase yields at an account index.
pub open spec fn derived_keypair(phrase: Seq<char>, account_index: u32) -> Result<Seq<u8>, VaultError> {
    match bip39_seed(phrase) {
        None => Err(VaultError::InvalidPhrase),
        Some(seed) => match hd_keypair(seed, account_index) {
            None => Err(VaultError::DerivationError),
            Some(k) => Ok(k),
        },
    }
}

/// Relies on `[String]::join`: the words with one separator between each two.
#[verifier::external_body]
fn join_words(words: &Vec<String>) -> (r: String)
    ensures
        r@ == phrase_of(words@),
{
    words.join(" ")
}

/// Relies on tiny-bip39's `Mnemonic::from_phrase` (English wordlist and checksum
/// validation) and `Seed::new` with an empty passphrase (PBKDF2 over the phrase).
#[verifier::external_body]
fn phrase_seed(phrase: &str) -> (r: Option<Vec<u8>>)
    ensures
        r is Some <==> bip39_seed(phrase@) is Some,
        r matches Some(s) ==> bip39_seed(phrase@) == Some(s@) && s@.len() == 64,
{
    match Mnemonic::from_phrase(phrase, Language::English) {
        Ok(mnemonic) => Some(Seed::new(&mnemonic, "").as_bytes().to_vec()),
        Err(_) => None,
    }
}

/// Relies on solana-sdk's `keypair_from_seed_and_derivation_path` with the path
/// `DerivationPath::new_bip44(Some(account), Some(0))`: the keypair holds the derived
/// secret and the public key computed from it.
#[verifier::external_body]
#[allow(deprecated)]
fn derive_account(seed: &Vec<u8>, account: u32) -> (r: Option<Vec<u8>>)
    ensures
        r is Some <==> hd_keypair(seed@, account) is Some,
        r matches Some(k) ==> hd_keypair(seed@, account) == Some(k@) && k@.len() == KEYPAIR_LEN,
        r matches Some(k) ==> k@.skip(KEY_HALF_LEN as int) == ed25519_public(k@.take(KEY_HALF_LEN as int)),
{
    let path = DerivationPath::new_bip44(Some(account), Some(0));
    match keypair_from_seed_and_derivation_path(seed, Some(path)) {
        Ok(keypair) => Some(keypair.to_bytes().to_vec()),
        Err(_) => None,
    }
}

/// Relies on solana-sdk's `Keypair::try_from(&[u8])`: it accepts exactly 64 bytes whose
/// second half is the public key of their first half.
#[verifier::external_body]
#[allow(deprecated)]
fn keypair_accepted(bytes: &Vec<u8>) -> (r: bool)
    ensures
        r == (bytes@.len() == KEYPAIR_LEN && bytes@.skip(KEY_HALF_LEN as int) == ed25519_public(bytes@.take(KEY_HALF_LEN as int))),
{
    solana_sdk::signer::keypair::Keypair::try_from(bytes.as_slice()).is_ok()
}

/// Relies on solana-sdk's `Pubkey::try_from(&[u8])` (32 bytes) and its `Display`,
/// which writes the key in base58.
#[verifier::external_body]
fn pubkey_text(pubkey: &Vec<u8>) -> (r: Option<String>)
    requires
        pubkey@.len() == KEY_HALF_LEN,
    ensures
        r is Some,
        r matches Some(t) ==> t@ == base58_text(pubkey@),
{
    match Pubkey::try_from(pubkey.as_slice()) {
        Ok(key) => Some(key.to_string()),
        Err(_) => None,
    }
}

/// A fresh random 12-word English recovery phrase.
/// Relies on tiny-bip39's `Mnemonic::new` with `MnemonicType::Words12`: random entropy
/// with its checksum, written with the English wordlist.
#[verifier::external_body]
pub fn generate_mnemonic() -> (r: String)
    ensures
        is_valid_phrase(r@),
{
    Mnemonic::new(MnemonicType::Words12, Language::English).to_string()
}

/// Derives the signing keypair of a recovery phrase at an account index: validates the
/// phrase, computes its BIP39 seed, then derives the Ed25519 keypair hierarchically.
pub fn derive_keypair(phrase: &str, account_index: u32) -> (r: Result<Keypair, VaultError>)
    ensures
        match derived_keypair(phrase@, account_index) {
            Ok(k) => r matches Ok(kp) && kp.bytes@ == k,
            Err(e) => r == Err::<Keypair, VaultError>(e),
        },
        r matches Ok(kp) ==> is_consistent_keypair(kp.bytes@),
{
    let seed = match phrase_seed(phrase) {
        Some(seed) => seed,
        None => return Err(VaultError::InvalidPhrase),
    };
    match derive_account(&seed, account_index) {
        Some(bytes) => Ok(Keypair { bytes }),
        None => Err(VaultError::DerivationError),
    }
}

/// A new wallet: the public key in base58 and the bytes of its vault file.
pub struct GeneratedWallet {
    pub public_key: String,
    pub vault: Vec<u8>,
}

/// Creates a wallet from the words of a recovery phrase: derives the keypair of account 0,
/// writes it in its canonical text and seals that text under the password.
pub fn generate_wallet(words: &Vec<String>, password: String) -> (r: Result<GeneratedWallet, VaultError>)
    ensures
        ({
            let phrase = phrase_of(words@);
            match derived_keypair(phrase, 0) {
                Err(e) => r == Err::<GeneratedWallet, VaultError>(e),
                Ok(k) => {
                    &&& r is Ok <==> password_accepted(password@)
                    &&& r is Err ==> r == Err::<GeneratedWallet, VaultError>(VaultError::KdfError)
                    &&& r matches Ok(g) ==> {
                        &&& is_consistent_keypair(k)
                        &&& g.public_key@ == base58_text(k.skip(KEY_HALF_LEN as int))
                        &&& is_vault_of(password@, encoded(k), g.vault@)
                    }
                },
            }
        }),
{
    let phrase = join_words(words);
    let keypair = derive_keypair(phrase.as_str(), 0)?;
    let mut public_bytes: Vec<u8> = Vec::new();
    let mut i: usize = KEY_HALF_LEN;
    while i < KEYPAIR_LEN
        invariant
            KEY_HALF_LEN <= i <= KEYPAIR_LEN,
            keypair.bytes@.len() == KEYPAIR_LEN,
            public_bytes@ == keypair.bytes@.subrange(KEY_HALF_LEN as int, i as int),
        decreases KEYPAIR_LEN - i,
    {
        public_bytes.push(keypair.bytes[i]);
        i = i + 1;
        assert(public_bytes@ =~= keypair.bytes@.subrange(KEY_HALF_LEN as int, i as int));
    }
    assert(public_bytes@ =~= keypair.bytes@.skip(KEY_HALF_LEN as int));
    let public_key = match pubkey_text(&public_bytes) {
        Some(text) => text,
        None => return Err(VaultError::DerivationError),
    };
    let data = encode(&keypair);
    let vault = encrypt(&data, password)?;
    Ok(GeneratedWallet { public_key, vault })
}

/// What unlocking a vault file with a password yields.
pub open spec fn loaded_keypair(password: Seq<char>, file: Seq<u8>) -> Result<Seq<u8>, VaultError> {
    match opened_vault(password, file) {
        Err(e) => Err(e),
        Ok(text) => match decoded(text) {
            Err(e) => Err(VaultError::Decode(e)),
            Ok(b) => if is_consistent_keypair(b) {
                Ok(b)
            } else {
                Err(VaultError::Decode(DecodeError::Malformed))
            },
        },
    }
}

/// The bytes of a keypair result, as a sequence.
pub open spec fn keypair_result(r: Result<Keypair, VaultError>) -> Result<Seq<u8>, VaultError> {
    match r {
        Ok(k) => Ok(k.bytes@),
        Err(e) => Err(e),
    }
}

/// Unlocks a vault file's bytes with a password: decrypts, decodes the keypair text, and
/// accepts the bytes only when they form a keypair (`Malformed` otherwise).
pub fn load_wallet(vault: &Vec<u8>, password: String) -> (r: Result<Keypair, VaultError>)
    ensures
        keypair_result(r) == loaded_keypair(password@, vault@),
        forall|k: Seq<u8>|
            password_accepted(password@) && is_consistent_keypair(k) && #[trigger] is_vault_of(password@, encoded(k), vault@)
                ==> keypair_result(r) == Ok::<Seq<u8>, VaultError>(k),
{
    let data = decrypt(vault, password)?;
    proof {
        assert forall|k: Seq<u8>|
            password_accepted(password@) && is_consistent_keypair(k) && #[trigger] is_vault_of(password@, encoded(k), vault@)
                implies data@ == encoded(k) && decoded(data@) == Ok::<Seq<u8>, DecodeError>(k) by {
            lemma_codec_round_trip(k);
        }
    }
    let keypair = match decode(&data) {
        Ok(k) => k,
        Err(e) => return Err(VaultError::Decode(e)),
    };
    if !keypair_accepted(&keypair.bytes) {
        return Err(VaultError::Decode(DecodeError::Malformed));
    }
    Ok(keypair)
}

/// Marker for SPL token transfers. It holds nothing and has no methods here: sending
/// tokens is network work that the surrounding application does.
pub struct SolanaSplToken {}

} // verus!
