//! The single-block DES primitive, taken as an opaque external collaborator:
//! the pipeline only assumes a fixed block size, a fixed key size, and that
//! decryption inverts encryption under the same key.

use vstd::prelude::*;

use crate::{CIPHER_BLOCK_SIZE, CIPHER_KEY_SIZE};

verus! {

/// What one DES block encryption returns: a pure function of the 8-byte block
/// and the 8-byte key alone, with no other dependency.
pub uninterp spec fn des_encrypt(block: Seq<u8>, key: Seq<u8>) -> Seq<u8>;

/// What one DES block decryption returns: a pure function of the 8-byte block
/// and the 8-byte key alone, with no other dependency.
pub uninterp spec fn des_decrypt(block: Seq<u8>, key: Seq<u8>) -> Seq<u8>;

/// The single-block contract the pipeline is built over: under a fixed key the
/// block encryption maps blocks of `CIPHER_BLOCK_SIZE` bytes to blocks of the
/// same size, and the block decryption inverts it.
pub open spec fn block_cipher_inverts(key: Seq<u8>) -> bool {
    forall|block: Seq<u8>|
        block.len() == CIPHER_BLOCK_SIZE ==> (#[trigger] des_encrypt(block, key)).len()
            == CIPHER_BLOCK_SIZE && des_decrypt(des_encrypt(block, key), key) == block
}

/// Relies on `des::Des` through `cipher::BlockEncrypt::encrypt_block_b2b`: one
/// DES block encryption, an 8-byte ciphertext block computed from an 8-byte
/// plaintext block and an 8-byte key alone; `cipher::BlockDecrypt` under the
/// same key undoes it, as the two run the same Feistel rounds with the key
/// schedule reversed.
#[verifier::external_body]
pub(crate) fn encrypt_block(block: &[u8], key: &[u8]) -> (out: Vec<u8>)
    requires
        block@.len() == CIPHER_BLOCK_SIZE,
        key@.len() == CIPHER_KEY_SIZE,
    ensures
        out@ == des_encrypt(block@, key@),
        out@.len() == CIPHER_BLOCK_SIZE,
        des_decrypt(out@, key@) == block@,
{
    let des = <des::Des as cipher::KeyInit>::new(cipher::Key::<des::Des>::from_slice(key));
    let mut out = cipher::Block::<des::Des>::default();
    cipher::BlockEncrypt::encrypt_block_b2b(
        &des,
        cipher::Block::<des::Des>::from_slice(block),
        &mut out,
    );
    out.to_vec()
}

/// Relies on `des::Des` through `cipher::BlockDecrypt::decrypt_block_b2b`: one
/// DES block decryption, an 8-byte block computed from an 8-byte input block
/// and an 8-byte key alone.
#[verifier::external_body]
pub(crate) fn decrypt_block(block: &[u8], key: &[u8]) -> (out: Vec<u8>)
    requires
        block@.len() == CIPHER_BLOCK_SIZE,
        key@.len() == CIPHER_KEY_SIZE,
    ensures
        out@ == des_decrypt(block@, key@),
        out@.len() == CIPHER_BLOCK_SIZE,
{
    let des = <des::Des as cipher::KeyInit>::new(cipher::Key::<des::Des>::from_slice(key));
    let mut out = cipher::Block::<des::Des>::default();
    cipher::BlockDecrypt::decrypt_block_b2b(
        &des,
        cipher::Block::<des::Des>::from_slice(block),
        &mut out,
    );
    out.to_vec()
}

} // verus!
