use des_usage::crydec::{decrypt, encrypt};
use des_usage::helper::iter::exact_blocks;

const KEY: [u8; 8] = [0x13, 0x34, 0x57, 0x79, 0x9B, 0xBC, 0xDF, 0xF1];

#[test]
fn encrypt_matches_the_classic_des_vector() {
    let plaintext: [u8; 8] = [0x01, 0x23, 0x45, 0x67, 0x89, 0xAB, 0xCD, 0xEF];
    let expected: [u8; 8] = [0x85, 0xE8, 0x13, 0x54, 0x0F, 0x0A, 0xB4, 0x05];
    assert_eq!(expected.to_vec(), encrypt(&plaintext, &KEY));
}

#[test]
fn decrypt_matches_the_classic_des_vector() {
    let ciphertext: [u8; 8] = [0x85, 0xE8, 0x13, 0x54, 0x0F, 0x0A, 0xB4, 0x05];
    let expected: [u8; 8] = [0x01, 0x23, 0x45, 0x67, 0x89, 0xAB, 0xCD, 0xEF];
    assert_eq!(expected.to_vec(), decrypt(&ciphertext, &KEY));
}

#[test]
fn hellohellox_chunks_pads_and_round_trips() {
    let data = b"HELLOHELLOX";
    let key = b"ABCDEFGH";

    let blocks = exact_blocks(data, 8);
    assert_eq!(2, blocks.len());
    assert_eq!(b"HELLOHEL".to_vec(), blocks[0]);
    assert_eq!(b"LOX\x00\x00\x00\x00\x00".to_vec(), blocks[1]);

    let encrypted = encrypt(data, key);
    assert_eq!(16, encrypted.len());
    assert_ne!(data.to_vec(), encrypted[0..11].to_vec());
    assert_eq!(data.to_vec(), decrypt(&encrypted, key));
}

#[test]
fn encrypted_length_is_the_padded_block_count() {
    let key = b"01234567";
    for (input_len, expected_len) in
        [(0usize, 0usize), (1, 8), (7, 8), (8, 8), (9, 16), (16, 16), (17, 24)]
    {
        let data = vec![0xA5u8; input_len];
        assert_eq!(expected_len, encrypt(&data, key).len());
    }
}

#[test]
fn a_genuine_trailing_zero_byte_is_lost() {
    let data = b"ABC\x00";
    let key = b"ABCDEFGH";
    let encrypted = encrypt(data, key);
    assert_eq!(8, encrypted.len());
    assert_eq!(b"ABC".to_vec(), decrypt(&encrypted, key));
}

#[test]
fn misaligned_ciphertext_is_padded_not_rejected() {
    let key = b"ABCDEFGH";
    let garbled: [u8; 3] = [0x10, 0x20, 0x30];
    let out = decrypt(&garbled, key);
    assert!(out.len() <= 8);
}
