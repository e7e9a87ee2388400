use wallet_vault::cipher::{auth_tag, create_key, decrypt, encrypt, nonce};
use wallet_vault::error::{DecodeError, VaultError};

fn sample(len: usize) -> Vec<u8> {
    (0..len).map(|i| (i * 7 + 3) as u8).collect()
}

fn round_trip(len: usize) {
    let plain = sample(len);
    let file = encrypt(&plain, "hunter2".to_string()).unwrap();
    let chunks = (len + 127) / 128;
    assert_eq!(file.len(), 24 + len + 48 * chunks);
    assert_eq!(decrypt(&file, "hunter2".to_string()).unwrap(), plain);
}

#[test]
fn round_trip_small_sizes() {
    round_trip(1);
    round_trip(127);
}

#[test]
fn round_trip_chunk_boundaries() {
    round_trip(128);
    round_trip(129);
}

#[test]
fn round_trip_several_kilobytes() {
    round_trip(5000);
}

#[test]
fn empty_plaintext_gives_nonce_only() {
    let file = encrypt(&Vec::new(), "pw".to_string()).unwrap();
    assert_eq!(file.len(), 24);
    assert_eq!(decrypt(&file, "pw".to_string()).unwrap(), Vec::<u8>::new());
}

#[test]
fn wrong_password_fails_authentication() {
    let file = encrypt(&sample(200), "password-a".to_string()).unwrap();
    assert_eq!(decrypt(&file, "password-b".to_string()), Err(VaultError::AuthenticationFailure));
}

#[test]
fn flipped_bits_fail_authentication() {
    let file = encrypt(&sample(150), "pw".to_string()).unwrap();
    // chunk tag of the first chunk, its ciphertext, its tag, and the second chunk's ciphertext
    for pos in [24 + 5, 24 + 32 + 10, 24 + 176 - 1, 24 + 176 + 32 + 3] {
        let mut bad = file.clone();
        bad[pos] ^= 0x01;
        assert_eq!(decrypt(&bad, "pw".to_string()), Err(VaultError::AuthenticationFailure));
    }
}

#[test]
fn truncated_chunk_fails_authentication() {
    let file = encrypt(&sample(10), "pw".to_string()).unwrap();
    let cut = file[..24 + 40].to_vec();
    assert_eq!(decrypt(&cut, "pw".to_string()), Err(VaultError::AuthenticationFailure));
}

#[test]
fn short_file_is_malformed() {
    let file = vec![0u8; 23];
    assert_eq!(decrypt(&file, "pw".to_string()), Err(VaultError::Decode(DecodeError::Malformed)));
}

#[test]
fn empty_password_is_accepted() {
    let plain = sample(40);
    let file = encrypt(&plain, String::new()).unwrap();
    assert_eq!(file.len(), 24 + 40 + 48);
    assert_eq!(decrypt(&file, String::new()).unwrap(), plain);
    assert_eq!(decrypt(&file, "x".to_string()), Err(VaultError::AuthenticationFailure));
}

#[test]
fn create_key_needs_a_nonce_sized_salt() {
    let key = create_key("", &vec![7u8; 24]).unwrap();
    assert_eq!(key.len(), 32);
    assert_eq!(create_key("", &vec![7u8; 24]).unwrap(), key);
    assert_ne!(create_key("a", &vec![7u8; 24]).unwrap(), key);
    assert_eq!(create_key("pw", &vec![7u8; 16]), Err(VaultError::KdfError));
    assert_eq!(create_key("pw", &vec![7u8; 25]), Err(VaultError::KdfError));
}

#[test]
fn ciphertext_differs_from_plaintext() {
    let plain = sample(64);
    let file = encrypt(&plain, "pw".to_string()).unwrap();
    assert_ne!(file[24 + 32..24 + 32 + 64].to_vec(), plain);
}

#[test]
fn two_encryptions_differ() {
    let plain = sample(20);
    let a = encrypt(&plain, "pw".to_string()).unwrap();
    let b = encrypt(&plain, "pw".to_string()).unwrap();
    assert_ne!(a, b);
}

#[test]
fn random_values_have_their_lengths() {
    let n = nonce();
    let t = auth_tag();
    assert_eq!(n.len(), 24);
    assert_eq!(t.len(), 32);
    assert_ne!(nonce(), n);
    assert_ne!(auth_tag(), t);
}
