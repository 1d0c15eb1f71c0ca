//! The digest engine: a fixed-size authentication value ("signature") over an
//! arbitrary-length buffer, computed as a running-XOR chain of zero-padded
//! blocks through the block primitive, with one extra final encryption.
//!
//! The construction is CBC-MAC-like with an all-ones initialization vector; it
//! is reproduced faithfully and is not a general-purpose secure MAC.

use vstd::prelude::*;

use crate::helper::iter::{
    byte_repeat, exact_blocks, lemma_chunk_block_len, repeat_byte, spec_chunk,
};
use crate::primitive::{des_encrypt, encrypt_block};
use crate::{CIPHER_BLOCK_SIZE, CIPHER_KEY_SIZE};

verus! {

/// The byte-wise exclusive-or of two equal-length byte sequences.
pub open spec fn xor_bytes(a: Seq<u8>, b: Seq<u8>) -> Seq<u8>
    recommends
        a.len() == b.len(),
{
    Seq::new(a.len(), |i: int| a[i] ^ b[i])
}

/// The all-ones block: `0x01` repeated `CIPHER_BLOCK_SIZE` times, the chaining
/// value every digest starts from.
pub open spec fn all_ones_block() -> Seq<u8> {
    byte_repeat(1, CIPHER_BLOCK_SIZE as nat)
}

/// The running-XOR chain: each block is XORed into the accumulator and the
/// result encrypted, block after block in order.
pub open spec fn spec_convolution(blocks: Seq<Seq<u8>>, key: Seq<u8>, acc: Seq<u8>) -> Seq<u8>
    decreases blocks.len(),
{
    if blocks.len() == 0 {
        acc
    } else {
        spec_convolution(
            blocks.drop_first(),
            key,
            des_encrypt(xor_bytes(blocks.first(), acc), key),
        )
    }
}

/// The signature of `data` under `key`: the chained accumulator encrypted one
/// extra time, except that empty input yields the all-ones block unencrypted.
pub open spec fn spec_sign(data: Seq<u8>, key: Seq<u8>) -> Seq<u8> {
    if data.len() == 0 {
        all_ones_block()
    } else {
        des_encrypt(
            spec_convolution(
                spec_chunk(data, CIPHER_BLOCK_SIZE as nat),
                key,
                all_ones_block(),
            ),
            key,
        )
    }
}

/// XOR two blocks of equal length, byte by byte.
#[verifier::loop_isolation(false)]
fn xor_block(a: &[u8], b: &[u8]) -> (out: Vec<u8>)
    requires
        a@.len() == b@.len(),
    ensures
        out@ == xor_bytes(a@, b@),
{
    let mut out: Vec<u8> = Vec::new();
    let mut i: usize = 0;
    while i < a.len()
        invariant
            i <= a@.len(),
            out@.len() == i,
            forall|k: int| 0 <= k < i ==> out@[k] == (a@[k] ^ b@[k]),
        decreases a@.len() - i,
    {
        out.push(a[i] ^ b[i]);
        i = i + 1;
    }
    proof {
        assert(out@ =~= xor_bytes(a@, b@));
    }
    out
}

/// Fold the whole block sequence into one block: start from the all-ones
/// chaining value, XOR each block in and encrypt, in order.
#[verifier::loop_isolation(false)]
fn convolution(blocks: &Vec<Vec<u8>>, key: &[u8]) -> (out: Vec<u8>)
    requires
        key@.len() == CIPHER_KEY_SIZE,
        forall|i: int|
            0 <= i < blocks.deep_view().len() ==> (#[trigger] blocks.deep_view()[i]).len()
                == CIPHER_BLOCK_SIZE,
    ensures
        out@ == spec_convolution(blocks.deep_view(), key@, all_ones_block()),
        out@.len() == CIPHER_BLOCK_SIZE,
{
    let ghost bv = blocks.deep_view();
    let mut acc = repeat_byte(1, CIPHER_BLOCK_SIZE);
    let mut idx: usize = 0;
    proof {
        assert(bv.skip(0) =~= bv);
    }
    while idx < blocks.len()
        invariant
            idx <= bv.len(),
            acc@.len() == CIPHER_BLOCK_SIZE,
            spec_convolution(bv, key@, all_ones_block()) == spec_convolution(
                bv.skip(idx as int),
                key@,
                acc@,
            ),
        decreases bv.len() - idx,
    {
        proof {
            assert(bv[idx as int] =~= blocks@[idx as int]@);
        }
        let mixed = xor_block(blocks[idx].as_slice(), acc.as_slice());
        let ghost pre_acc = acc@;
        acc = encrypt_block(mixed.as_slice(), key);
        proof {
            let rest = bv.skip(idx as int);
            assert(rest.first() == bv[idx as int]);
            assert(rest.drop_first() =~= bv.skip(idx as int + 1));
            assert(spec_convolution(rest, key@, pre_acc) == spec_convolution(
                bv.skip(idx as int + 1),
                key@,
                des_encrypt(xor_bytes(bv[idx as int], pre_acc), key@),
            ));
        }
        idx = idx + 1;
    }
    proof {
        assert(bv.skip(bv.len() as int) =~= Seq::<Seq<u8>>::empty());
    }
    acc
}

/// Sign `data` under `key`: chunk it into zero-padded blocks, fold them
/// through the running-XOR chain, and encrypt the accumulator once more. Empty
/// input returns the all-ones block unencrypted, as a special-cased terminal
/// value. The signature is deterministic: it depends on `(data, key)` alone.
#[verifier::loop_isolation(false)]
pub fn sign(data: &[u8], key: &[u8]) -> (signature: Vec<u8>)
    requires
        key@.len() == CIPHER_KEY_SIZE,
    ensures
        signature@ == spec_sign(data@, key@),
        signature@.len() == CIPHER_BLOCK_SIZE,
        data@.len() == 0 ==> signature@ == all_ones_block(),
{
    let blocks = exact_blocks(data, CIPHER_BLOCK_SIZE);
    proof {
        lemma_chunk_block_len(data@, CIPHER_BLOCK_SIZE as nat);
    }
    if blocks.len() == 0 {
        return repeat_byte(1, CIPHER_BLOCK_SIZE);
    }
    let folded = convolution(&blocks, key);
    encrypt_block(folded.as_slice(), key)
}

} // verus!
