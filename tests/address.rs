use libzeropool_wasm::address::{
    address_buffer, address_payload, check_address, encode_address, parse_address_bytes,
    with_checksum, AddressError, ADDR_LEN,
};
use sha2::{Digest, Sha256};

fn diversifier() -> Vec<u8> {
    (1..=10u8).collect()
}

fn key() -> Vec<u8> {
    (100..132u8).collect()
}

#[test]
fn address_round_trip() {
    let text = encode_address(&diversifier(), &key());
    let (d, k) = parse_address_bytes(&text).unwrap();
    assert_eq!(d, diversifier());
    assert_eq!(k, key());
}

#[test]
fn address_uses_first_ten_bytes_of_diversifier() {
    let mut long = diversifier();
    long.extend_from_slice(&[7u8; 22]);
    assert_eq!(encode_address(&long, &key()), encode_address(&diversifier(), &key()));
}

#[test]
fn address_text_is_base58_of_payload_and_checksum() {
    let mut payload = diversifier();
    payload.extend_from_slice(&key());
    let digest = Sha256::digest(&payload).to_vec();
    let mut bytes = payload.clone();
    bytes.extend_from_slice(&digest[0..4]);
    assert_eq!(encode_address(&diversifier(), &key()), bs58::encode(&bytes).into_string());
    assert_eq!(address_payload(&diversifier(), &key()), payload);
    assert_eq!(with_checksum(&payload, &digest), bytes);
}

#[test]
fn address_with_invalid_character_is_refused() {
    assert_eq!(parse_address_bytes("0OIl"), Err(AddressError::InvalidBase58));
}

#[test]
fn address_too_long_is_refused() {
    let text = bs58::encode(vec![1u8; ADDR_LEN + 1]).into_string();
    assert_eq!(parse_address_bytes(&text), Err(AddressError::TooLong));
}

#[test]
fn address_with_wrong_checksum_is_refused() {
    let mut payload = diversifier();
    payload.extend_from_slice(&key());
    let digest = Sha256::digest(&payload).to_vec();
    let mut bytes = payload.clone();
    bytes.extend_from_slice(&digest[0..4]);
    bytes[45] ^= 1;
    let text = bs58::encode(&bytes).into_string();
    assert_eq!(parse_address_bytes(&text), Err(AddressError::IncorrectHash));
}

#[test]
fn short_address_is_padded_with_zeros() {
    let buf = address_buffer(&vec![9u8, 8, 7]).unwrap();
    assert_eq!(buf.len(), ADDR_LEN);
    assert_eq!(&buf[0..3], &[9u8, 8, 7]);
    assert!(buf[3..].iter().all(|b| *b == 0));
    assert_eq!(address_buffer(&vec![0u8; ADDR_LEN + 1]), None);
    // an all-zero payload is refused unless its digest starts with four zeros
    assert_eq!(parse_address_bytes("1"), Err(AddressError::IncorrectHash));
}

#[test]
fn check_address_splits_buffer() {
    let mut buf: Vec<u8> = (0..ADDR_LEN as u8).collect();
    let digest = vec![1u8, 2, 3, 4, 0, 0];
    assert_eq!(check_address(&buf, &digest), Err(AddressError::IncorrectHash));
    buf[42..46].copy_from_slice(&[1, 2, 3, 4]);
    let (d, k) = check_address(&buf, &digest).unwrap();
    assert_eq!(d, (0..10u8).collect::<Vec<u8>>());
    assert_eq!(k, (10..42u8).collect::<Vec<u8>>());
}
