use des_usage::signature::sign;

#[test]
fn signing_empty_input_gives_the_all_ones_block_unencrypted() {
    assert_eq!(vec![1u8; 8], sign(b"", b"ABCDEFGH"));
    assert_eq!(vec![1u8; 8], sign(b"", b"12345678"));
}

#[test]
fn signing_is_repeatable() {
    let data = b"some data worth signing";
    let key = b"ABCDEFGH";
    assert_eq!(sign(data, key), sign(data, key));
}

#[test]
fn signature_is_one_block_long() {
    let key = b"ABCDEFGH";
    assert_eq!(8, sign(b"x", key).len());
    assert_eq!(8, sign(b"a longer input spanning several blocks", key).len());
}

#[test]
fn distinct_buffers_of_equal_length_sign_differently() {
    let key = b"ABCDEFGH";
    assert_ne!(sign(b"AAAAAAAA", key), sign(b"AAAAAAAB", key));
    assert_ne!(sign(b"first message!", key), sign(b"second message", key));
}

#[test]
fn the_chain_feeds_every_block_into_the_signature() {
    let key = b"ABCDEFGH";
    assert_ne!(sign(b"AAAAAAAAX", key), sign(b"AAAAAAAAY", key));
    assert_ne!(sign(b"AAAAAAAA", key), sign(b"AAAAAAAAAAAAAAAA", key));
}
