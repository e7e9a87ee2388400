use solana_sdk::pubkey::Pubkey;
use wallet_vault::cipher::encrypt;
use wallet_vault::codec::{encode, Keypair};
use wallet_vault::error::{DecodeError, VaultError};
use wallet_vault::wallet::{derive_keypair, generate_mnemonic, generate_wallet, load_wallet};

const PHRASE: &str = "abandon abandon abandon abandon abandon abandon abandon abandon abandon abandon abandon about";

fn words() -> Vec<String> {
    PHRASE.split(' ').map(|w| w.to_string()).collect()
}

#[test]
fn generate_then_unlock_gives_the_same_key() {
    let generated = generate_wallet(&words(), "correct-horse".to_string()).unwrap();
    let keypair = load_wallet(&generated.vault, "correct-horse".to_string()).unwrap();
    let public = Pubkey::try_from(&keypair.bytes[32..]).unwrap().to_string();
    assert_eq!(public, generated.public_key);
    assert_eq!(
        load_wallet(&generated.vault, "wrong-password".to_string()).err(),
        Some(VaultError::AuthenticationFailure)
    );
}

#[test]
fn derivation_is_deterministic() {
    let a = derive_keypair(PHRASE, 0).unwrap();
    let b = derive_keypair(PHRASE, 0).unwrap();
    assert_eq!(a.bytes, b.bytes);
    assert_eq!(a.bytes.len(), 64);
    let other = derive_keypair(PHRASE, 1).unwrap();
    assert_ne!(a.bytes, other.bytes);
}

#[test]
fn invalid_phrase_is_rejected() {
    let bad = "abandon abandon abandon abandon abandon abandon abandon abandon abandon abandon abandon abandon";
    assert_eq!(derive_keypair(bad, 0).err(), Some(VaultError::InvalidPhrase));
    let mut w = words();
    w[3] = "notaword".to_string();
    assert_eq!(generate_wallet(&w, "pw".to_string()).err(), Some(VaultError::InvalidPhrase));
}

#[test]
fn generated_mnemonic_has_twelve_valid_words() {
    let phrase = generate_mnemonic();
    assert_eq!(phrase.split(' ').count(), 12);
    assert!(derive_keypair(&phrase, 0).is_ok());
}

#[test]
fn unlock_rejects_payloads_that_are_not_keypairs() {
    let garbage = encrypt(&b"hello".to_vec(), "pw".to_string()).unwrap();
    assert_eq!(load_wallet(&garbage, "pw".to_string()).err(), Some(VaultError::Decode(DecodeError::Malformed)));
    let short = encode(&Keypair { bytes: vec![1u8; 63] });
    let vault = encrypt(&short, "pw".to_string()).unwrap();
    assert_eq!(load_wallet(&vault, "pw".to_string()).err(), Some(VaultError::Decode(DecodeError::WrongLength)));
    let mut bytes = derive_keypair(PHRASE, 0).unwrap().bytes;
    bytes[40] ^= 1;
    let vault = encrypt(&encode(&Keypair { bytes }), "pw".to_string()).unwrap();
    assert_eq!(load_wallet(&vault, "pw".to_string()).err(), Some(VaultError::Decode(DecodeError::Malformed)));
}

#[test]
fn public_key_does_not_depend_on_the_password() {
    let a = generate_wallet(&words(), String::new()).unwrap();
    let b = generate_wallet(&words(), "correct-horse".to_string()).unwrap();
    assert_eq!(a.public_key, b.public_key);
    let keypair = load_wallet(&a.vault, String::new()).unwrap();
    assert_eq!(keypair.bytes, derive_keypair(PHRASE, 0).unwrap().bytes);
}
