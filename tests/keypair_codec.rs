use wallet_vault::codec::{decode, encode, Keypair};
use wallet_vault::error::DecodeError;

fn text_of(values: &[u32]) -> Vec<u8> {
    let parts: Vec<String> = values.iter().map(|v| v.to_string()).collect();
    format!("[{}]", parts.join(",")).into_bytes()
}

#[test]
fn encode_writes_bracketed_decimals() {
    let mut bytes = vec![0u8; 64];
    bytes[0] = 12;
    bytes[1] = 4;
    bytes[63] = 255;
    let text = String::from_utf8(encode(&Keypair { bytes })).unwrap();
    let mut expected = String::from("[12,4");
    for _ in 2..63 {
        expected.push_str(",0");
    }
    expected.push_str(",255]");
    assert_eq!(text, expected);
}

#[test]
fn decode_of_encode_is_identity() {
    let bytes: Vec<u8> = (0..64).map(|i| (i * 37 + 11) as u8).collect();
    let text = encode(&Keypair { bytes: bytes.clone() });
    assert_eq!(decode(&text).unwrap().bytes, bytes);
}

#[test]
fn decode_rejects_wrong_count() {
    let values: Vec<u32> = (0..63).collect();
    assert_eq!(decode(&text_of(&values)).err(), Some(DecodeError::WrongLength));
    let values: Vec<u32> = (0..65).map(|i| i % 256).collect();
    assert_eq!(decode(&text_of(&values)).err(), Some(DecodeError::WrongLength));
}

#[test]
fn decode_rejects_non_numeric_field() {
    let mut text = text_of(&(0..64).collect::<Vec<u32>>());
    text[3] = b'x';
    assert_eq!(decode(&text).err(), Some(DecodeError::Malformed));
}

#[test]
fn decode_rejects_out_of_range_field() {
    let mut values: Vec<u32> = (0..64).collect();
    values[10] = 256;
    assert_eq!(decode(&text_of(&values)).err(), Some(DecodeError::Malformed));
}

#[test]
fn decode_rejects_empty_text() {
    assert_eq!(decode(&b"[]".to_vec()).err(), Some(DecodeError::Malformed));
    assert_eq!(decode(&Vec::new()).err(), Some(DecodeError::Malformed));
}

#[test]
fn decode_accepts_spaces_plus_signs_and_leading_zeros() {
    let values: Vec<u32> = (0..64).collect();
    let mut text = String::from(" \n[ +0");
    for v in &values[1..] {
        text.push_str(&format!(", 00{} ", v));
    }
    text.push_str("]\n");
    let expected: Vec<u8> = (0..64).collect();
    assert_eq!(decode(&text.into_bytes()).unwrap().bytes, expected);
}

#[test]
fn decode_trims_unicode_whitespace() {
    let mut text = vec![b'['];
    text.extend_from_slice("\u{a0}".as_bytes());
    text.extend_from_slice(b"1]");
    assert_eq!(decode(&text).err(), Some(DecodeError::WrongLength));

    let mut text = String::from("\u{3000}[\u{2009}");
    for v in 0..64u32 {
        if v > 0 {
            text.push(',');
        }
        text.push_str(&format!("\u{85}{}\u{202f}", v));
    }
    text.push_str("]\u{a0}\u{1680}");
    let expected: Vec<u8> = (0..64).collect();
    assert_eq!(decode(&text.into_bytes()).unwrap().bytes, expected);
}

#[test]
fn decode_rejects_non_whitespace_unicode() {
    let mut text = text_of(&(0..64).collect::<Vec<u32>>());
    text.splice(1..1, "\u{e9}".bytes());
    assert_eq!(decode(&text).err(), Some(DecodeError::Malformed));
}
