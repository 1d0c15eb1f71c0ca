//! The cipher pipeline: whole-buffer encryption and decryption in
//! independent-block mode over the DES single-block primitive, with zero-byte
//! padding of the final partial block and trailing-zero stripping on decrypt.

use vstd::prelude::*;

use crate::helper::iter::{
    byte_repeat, exact_blocks, lemma_chunk_block_len, lemma_chunk_count, lemma_chunk_flatten,
    lemma_chunk_of_flatten, lemma_trim_repeat_suffix, pad_len, spec_chunk, spec_trim, trim_suffix,
};
use crate::primitive::{
    block_cipher_inverts, decrypt_block, des_decrypt, des_encrypt, encrypt_block,
};
use crate::{CIPHER_BLOCK_SIZE, CIPHER_KEY_SIZE};

verus! {

/// The encryption of `data` under `key`: each zero-padded block transformed in
/// isolation by the block primitive, results concatenated in order.
pub open spec fn spec_encrypt(data: Seq<u8>, key: Seq<u8>) -> Seq<u8> {
    spec_chunk(data, CIPHER_BLOCK_SIZE as nat).map_values(
        |block: Seq<u8>| des_encrypt(block, key),
    ).flatten()
}

/// The decryption of `encrypted` under `key`: each zero-padded block
/// transformed in isolation by the block primitive, results concatenated, and
/// every trailing zero byte stripped.
pub open spec fn spec_decrypt(encrypted: Seq<u8>, key: Seq<u8>) -> Seq<u8> {
    spec_trim(
        spec_chunk(encrypted, CIPHER_BLOCK_SIZE as nat).map_values(
            |block: Seq<u8>| des_decrypt(block, key),
        ).flatten(),
        0,
    )
}

/// Encrypt `data` under `key`, block by block, zero-padding the final partial
/// block. The output always holds a whole number of blocks:
/// `CIPHER_BLOCK_SIZE * ceil(len / CIPHER_BLOCK_SIZE)` bytes, zero for empty
/// input.
#[verifier::loop_isolation(false)]
pub fn encrypt(data: &[u8], key: &[u8]) -> (encrypted: Vec<u8>)
    requires
        key@.len() == CIPHER_KEY_SIZE,
    ensures
        encrypted@ == spec_encrypt(data@, key@),
        encrypted@.len() == CIPHER_BLOCK_SIZE * ((data@.len() + CIPHER_BLOCK_SIZE - 1) as int / (
        CIPHER_BLOCK_SIZE as int)),
        data@.len() == 0 ==> encrypted@.len() == 0,
{
    let blocks = exact_blocks(data, CIPHER_BLOCK_SIZE);
    let ghost bv = blocks.deep_view();
    let ghost enc = bv.map_values(|block: Seq<u8>| des_encrypt(block, key@));
    proof {
        lemma_chunk_count(data@, CIPHER_BLOCK_SIZE as nat);
        lemma_chunk_block_len(data@, CIPHER_BLOCK_SIZE as nat);
        assert(enc.take(0) =~= Seq::<Seq<u8>>::empty());
        assert(Seq::<Seq<u8>>::empty().flatten() == Seq::<u8>::empty());
    }
    let mut out: Vec<u8> = Vec::new();
    let mut idx: usize = 0;
    while idx < blocks.len()
        invariant
            idx <= bv.len(),
            out@ == enc.take(idx as int).flatten(),
            out@.len() == idx * CIPHER_BLOCK_SIZE,
        decreases bv.len() - idx,
    {
        proof {
            assert(bv[idx as int] =~= blocks@[idx as int]@);
            assert(spec_chunk(data@, CIPHER_BLOCK_SIZE as nat)[idx as int].len()
                == CIPHER_BLOCK_SIZE);
        }
        let mut cipher_block = encrypt_block(blocks[idx].as_slice(), key);
        proof {
            assert(cipher_block@ == enc[idx as int]);
            enc.take(idx as int).lemma_flatten_push(enc[idx as int]);
            assert(enc.take(idx as int).push(enc[idx as int]) =~= enc.take(idx as int + 1));
        }
        out.append(&mut cipher_block);
        idx = idx + 1;
    }
    proof {
        assert(enc.take(bv.len() as int) =~= enc);
    }
    out
}

/// Decrypt `encrypted` under `key`, block by block, then strip every trailing
/// zero byte to undo the padding. An input whose length is not a whole number
/// of blocks is not rejected: its final short block is zero-padded before
/// decryption, as a defensive fallback. Whenever `encrypted` is the encryption
/// of a buffer with no trailing zero bytes, that buffer comes back exactly,
/// provided the block primitive inverts as `block_cipher_inverts` states.
#[verifier::loop_isolation(false)]
pub fn decrypt(encrypted: &[u8], key: &[u8]) -> (decrypted: Vec<u8>)
    requires
        key@.len() == CIPHER_KEY_SIZE,
    ensures
        decrypted@ == spec_decrypt(encrypted@, key@),
        forall|data: Seq<u8>|
            block_cipher_inverts(key@) && (data.len() == 0 || data.last() != 0) && encrypted@
                == spec_encrypt(data, key@) ==> decrypted@ == data,
{
    let blocks = exact_blocks(encrypted, CIPHER_BLOCK_SIZE);
    let ghost bv = blocks.deep_view();
    let ghost dec = bv.map_values(|block: Seq<u8>| des_decrypt(block, key@));
    proof {
        lemma_chunk_block_len(encrypted@, CIPHER_BLOCK_SIZE as nat);
        assert(dec.take(0) =~= Seq::<Seq<u8>>::empty());
        assert(Seq::<Seq<u8>>::empty().flatten() == Seq::<u8>::empty());
    }
    let mut out: Vec<u8> = Vec::new();
    let mut idx: usize = 0;
    while idx < blocks.len()
        invariant
            idx <= bv.len(),
            out@ == dec.take(idx as int).flatten(),
        decreases bv.len() - idx,
    {
        proof {
            assert(bv[idx as int] =~= blocks@[idx as int]@);
            assert(spec_chunk(encrypted@, CIPHER_BLOCK_SIZE as nat)[idx as int].len()
                == CIPHER_BLOCK_SIZE);
        }
        let mut plain_block = decrypt_block(blocks[idx].as_slice(), key);
        proof {
            assert(plain_block@ == dec[idx as int]);
            dec.take(idx as int).lemma_flatten_push(dec[idx as int]);
            assert(dec.take(idx as int).push(dec[idx as int]) =~= dec.take(idx as int + 1));
        }
        out.append(&mut plain_block);
        idx = idx + 1;
    }
    proof {
        assert(dec.take(bv.len() as int) =~= dec);
    }
    let trimmed = trim_suffix(out, &0);
    proof {
        assert forall|data: Seq<u8>|
            block_cipher_inverts(key@) && (data.len() == 0 || data.last() != 0) && encrypted@
                == spec_encrypt(data, key@) implies trimmed@ == data by {
            lemma_round_trip(data, key@);
        }
    }
    trimmed
}

/// Decryption inverts encryption. For every buffer `data` whose trailing bytes
/// (if any) are non-zero, an encrypt/decrypt round trip under one key returns
/// `data` unchanged, provided the single-block primitive meets its contract
/// (`block_cipher_inverts`): size-preserving encryption that its decryption
/// undoes under the same key. A buffer that does end in zero bytes loses them
/// to the padding, which is indistinguishable from genuine trailing zeros.
pub proof fn lemma_round_trip(data: Seq<u8>, key: Seq<u8>)
    requires
        block_cipher_inverts(key),
        data.len() > 0 ==> data.last() != 0,
    ensures
        spec_decrypt(spec_encrypt(data, key), key) == data,
{
    let bs = CIPHER_BLOCK_SIZE as nat;
    let blocks = spec_chunk(data, bs);
    lemma_chunk_block_len(data, bs);
    let enc = blocks.map_values(|block: Seq<u8>| des_encrypt(block, key));
    assert forall|i: int| 0 <= i < enc.len() implies (#[trigger] enc[i]).len() == bs by {
        assert(enc[i] == des_encrypt(blocks[i], key));
    }
    lemma_chunk_of_flatten(enc, bs);
    assert(spec_chunk(spec_encrypt(data, key), bs) == enc);
    let dec = enc.map_values(|block: Seq<u8>| des_decrypt(block, key));
    assert forall|i: int| 0 <= i < dec.len() implies dec[i] == blocks[i] by {
        assert(des_encrypt(blocks[i], key).len() == bs);
        assert(dec[i] == des_decrypt(des_encrypt(blocks[i], key), key));
    }
    assert(dec =~~= blocks);
    lemma_chunk_flatten(data, bs);
    assert(blocks.flatten() == data + byte_repeat(0, pad_len(data.len(), bs)));
    lemma_trim_repeat_suffix(data, 0, pad_len(data.len(), bs));
    assert(spec_trim(data, 0) == data);
}

} // verus!
