//! The block chunker and the trailing-byte trimmer, with their mathematical
//! models: `spec_chunk` describes the decomposition of a buffer into
//! fixed-size zero-padded blocks, `spec_trim` the removal of a trailing byte.

use vstd::arithmetic::div_mod::{
    lemma_basic_div, lemma_div_plus_one, lemma_mod_sub_multiples_vanish, lemma_small_mod,
};
use vstd::prelude::*;

verus! {

/// `count` copies of `value`, as a mathematical sequence.
pub open spec fn byte_repeat(value: u8, count: nat) -> Seq<u8> {
    Seq::new(count, |i: int| value)
}

/// How many zero bytes the chunker appends to bring `len` bytes up to a whole
/// number of blocks of `block_size` bytes.
pub open spec fn pad_len(len: nat, block_size: nat) -> nat
    recommends
        block_size >= 1,
{
    if len % block_size == 0 {
        0
    } else {
        (block_size - len % block_size) as nat
    }
}

/// The block decomposition of `data`: `floor(len / block_size)` full blocks
/// taken verbatim and in order, then, if bytes remain, one final block of the
/// remainder zero-padded out to `block_size`. A length that is an exact
/// multiple of `block_size` (zero included) gets no padding block.
pub open spec fn spec_chunk(data: Seq<u8>, block_size: nat) -> Seq<Seq<u8>>
    recommends
        block_size >= 1,
    decreases data.len(),
{
    if block_size == 0 || data.len() == 0 {
        Seq::empty()
    } else if data.len() < block_size {
        seq![data + byte_repeat(0, (block_size - data.len()) as nat)]
    } else {
        seq![data.subrange(0, block_size as int)]
            + spec_chunk(data.skip(block_size as int), block_size)
    }
}

/// `data` with every trailing byte equal to `value` removed.
pub open spec fn spec_trim(data: Seq<u8>, value: u8) -> Seq<u8>
    decreases data.len(),
{
    if data.len() > 0 && data.last() == value {
        spec_trim(data.drop_last(), value)
    } else {
        data
    }
}

/// Split `values` into blocks of `block_size` bytes: full blocks are taken
/// verbatim, and a final partial block, if any, is zero-padded to full size.
#[verifier::loop_isolation(false)]
pub fn exact_blocks(values: &[u8], block_size: usize) -> (blocks: Vec<Vec<u8>>)
    requires
        block_size >= 1,
    ensures
        blocks.deep_view() == spec_chunk(values@, block_size as nat),
{
    let ghost bs = block_size as nat;
    let mut blocks: Vec<Vec<u8>> = Vec::new();
    let mut i: usize = 0;
    proof {
        assert(values@.skip(0) =~= values@);
    }
    while values.len() - i >= block_size
        invariant
            i <= values@.len(),
            spec_chunk(values@, bs) == blocks.deep_view() + spec_chunk(
                values@.skip(i as int),
                bs,
            ),
        decreases values@.len() - i,
    {
        let mut block: Vec<u8> = Vec::new();
        let mut j: usize = 0;
        while j < block_size
            invariant
                j <= block_size,
                i + block_size <= values@.len(),
                block@ == values@.subrange(i as int, i as int + j as int),
            decreases block_size - j,
        {
            block.push(values[i + j]);
            proof {
                assert(block@ =~= values@.subrange(i as int, i as int + j as int + 1));
            }
            j += 1;
        }
        let ghost pre = blocks.deep_view();
        let ghost rest = values@.skip(i as int);
        blocks.push(block);
        proof {
            assert(blocks.deep_view() =~~= pre.push(block@));
            assert(rest.subrange(0, block_size as int) =~= block@);
            assert(rest.skip(block_size as int) =~= values@.skip(i as int + block_size));
            assert(spec_chunk(rest, bs) == seq![block@] + spec_chunk(
                values@.skip(i as int + block_size),
                bs,
            ));
            assert(pre.push(block@) + spec_chunk(values@.skip(i as int + block_size), bs) =~~= pre
                + spec_chunk(rest, bs));
        }
        i += block_size;
    }
    if i < values.len() {
        let mut block: Vec<u8> = Vec::new();
        let mut j: usize = i;
        while j < values.len()
            invariant
                i <= j <= values@.len(),
                block@ == values@.subrange(i as int, j as int),
            decreases values@.len() - j,
        {
            block.push(values[j]);
            proof {
                assert(block@ =~= values@.subrange(i as int, j as int + 1));
            }
            j += 1;
        }
        let ghost tail_len = (values@.len() - i) as nat;
        while block.len() < block_size
            invariant
                tail_len <= block@.len() <= block_size,
                block@ == values@.subrange(i as int, values@.len() as int) + byte_repeat(
                    0,
                    (block@.len() - tail_len) as nat,
                ),
            decreases block_size - block@.len(),
        {
            block.push(0);
            proof {
                assert(block@ =~= values@.subrange(i as int, values@.len() as int) + byte_repeat(
                    0,
                    (block@.len() - tail_len) as nat,
                ));
            }
        }
        let ghost pre = blocks.deep_view();
        let ghost rest = values@.skip(i as int);
        blocks.push(block);
        proof {
            assert(blocks.deep_view() =~~= pre.push(block@));
            assert(rest =~= values@.subrange(i as int, values@.len() as int));
            assert(block@ =~= rest + byte_repeat(0, (bs - rest.len()) as nat));
            assert(spec_chunk(rest, bs) == seq![block@]);
            assert(pre.push(block@) =~~= pre + seq![block@]);
        }
    } else {
        proof {
            assert(values@.skip(i as int) =~= Seq::<u8>::empty());
            assert(blocks.deep_view() + spec_chunk(Seq::<u8>::empty(), bs)
                =~~= blocks.deep_view());
        }
    }
    blocks
}

/// Remove every trailing byte of `values` equal to `*suffix`, stopping at the
/// first byte from the end that differs.
#[verifier::loop_isolation(false)]
pub fn trim_suffix(values: Vec<u8>, suffix: &u8) -> (trimmed: Vec<u8>)
    ensures
        trimmed@ == spec_trim(values@, *suffix),
{
    let mut out = values;
    let ghost orig: Seq<u8> = out@;
    let mut len: usize = out.len();
    proof {
        assert(orig.take(orig.len() as int) =~= orig);
    }
    while len > 0 && out[len - 1] == *suffix
        invariant
            len <= out@.len(),
            out@ == orig,
            spec_trim(orig, *suffix) == spec_trim(orig.take(len as int), *suffix),
        decreases len,
    {
        proof {
            assert(orig.take(len as int).last() == *suffix);
            assert(orig.take(len as int).drop_last() =~= orig.take(len as int - 1));
        }
        len = len - 1;
    }
    proof {
        assert(spec_trim(orig.take(len as int), *suffix) == orig.take(len as int));
    }
    while out.len() > len
        invariant
            len <= out@.len() <= orig.len(),
            out@ == orig.take(out@.len() as int),
        decreases out@.len(),
    {
        out.pop();
        proof {
            assert(orig.take(out@.len() as int + 1).drop_last() =~= orig.take(out@.len() as int));
        }
    }
    out
}

/// Build a vector of `count` copies of `value`.
#[verifier::loop_isolation(false)]
pub(crate) fn repeat_byte(value: u8, count: usize) -> (out: Vec<u8>)
    ensures
        out@ == byte_repeat(value, count as nat),
{
    let mut out: Vec<u8> = Vec::new();
    let mut i: usize = 0;
    while i < count
        invariant
            i <= count,
            out@.len() == i,
            forall|k: int| 0 <= k < i ==> out@[k] == value,
        decreases count - i,
    {
        out.push(value);
        i = i + 1;
    }
    proof {
        assert(out@ =~= byte_repeat(value, count as nat));
    }
    out
}

/// Trimming never leaves a trailing byte equal to the one trimmed.
pub proof fn lemma_trim_no_trailing(data: Seq<u8>, value: u8)
    ensures
        spec_trim(data, value).len() > 0 ==> spec_trim(data, value).last() != value,
    decreases data.len(),
{
    if data.len() > 0 && data.last() == value {
        lemma_trim_no_trailing(data.drop_last(), value);
    }
}

/// Trimming is idempotent: a second trim with the same byte changes nothing.
pub proof fn lemma_trim_idempotent(data: Seq<u8>, value: u8)
    ensures
        spec_trim(spec_trim(data, value), value) == spec_trim(data, value),
{
    lemma_trim_no_trailing(data, value);
}

/// Appending any number of copies of `value` does not change what trimming
/// that byte returns: the appended copies are exactly what it removes.
pub proof fn lemma_trim_repeat_suffix(data: Seq<u8>, value: u8, count: nat)
    ensures
        spec_trim(data + byte_repeat(value, count), value) == spec_trim(data, value),
    decreases count,
{
    if count == 0 {
        assert(data + byte_repeat(value, 0) =~= data);
    } else {
        let ext = data + byte_repeat(value, count);
        assert(ext.last() == value);
        assert(ext.drop_last() =~= data + byte_repeat(value, (count - 1) as nat));
        lemma_trim_repeat_suffix(data, value, (count - 1) as nat);
    }
}

/// Every block the chunker produces has exactly `block_size` bytes.
pub proof fn lemma_chunk_block_len(data: Seq<u8>, block_size: nat)
    requires
        block_size >= 1,
    ensures
        forall|i: int|
            0 <= i < spec_chunk(data, block_size).len() ==> (#[trigger] spec_chunk(
                data,
                block_size,
            )[i]).len() == block_size,
    decreases data.len(),
{
    if data.len() == 0 || data.len() < block_size {
    } else {
        let rest = spec_chunk(data.skip(block_size as int), block_size);
        lemma_chunk_block_len(data.skip(block_size as int), block_size);
        assert forall|i: int| 0 <= i < spec_chunk(data, block_size).len() implies (
        #[trigger] spec_chunk(data, block_size)[i]).len() == block_size by {
            if i == 0 {
                assert(spec_chunk(data, block_size)[0] == data.subrange(0, block_size as int));
            } else {
                assert(spec_chunk(data, block_size)[i] == rest[i - 1]);
            }
        }
    }
}

/// The chunker produces exactly `ceil(len / block_size)` blocks.
pub proof fn lemma_chunk_count(data: Seq<u8>, block_size: nat)
    requires
        block_size >= 1,
    ensures
        spec_chunk(data, block_size).len() == (data.len() + block_size - 1) as int / (
        block_size as int),
    decreases data.len(),
{
    let bs = block_size as int;
    if data.len() == 0 {
        lemma_basic_div(bs - 1, bs);
    } else if data.len() < block_size {
        lemma_basic_div(data.len() - 1, bs);
        lemma_div_plus_one(data.len() - 1, bs);
    } else {
        lemma_chunk_count(data.skip(bs), block_size);
        lemma_div_plus_one(data.len() - 1, bs);
    }
}

/// Concatenating the chunker's blocks gives back the input, zero-padded out to
/// a whole number of blocks.
pub proof fn lemma_chunk_flatten(data: Seq<u8>, block_size: nat)
    requires
        block_size >= 1,
    ensures
        spec_chunk(data, block_size).flatten() == data + byte_repeat(
            0,
            pad_len(data.len(), block_size),
        ),
    decreases data.len(),
{
    let bs = block_size as int;
    if data.len() == 0 {
        lemma_small_mod(0, block_size);
        assert(spec_chunk(data, block_size).flatten() =~= data + byte_repeat(0, 0));
    } else if data.len() < block_size {
        lemma_small_mod(data.len(), block_size);
        let padded = data + byte_repeat(0, (block_size - data.len()) as nat);
        let chunks = spec_chunk(data, block_size);
        assert(chunks.first() == padded);
        assert(chunks.drop_first() =~= Seq::<Seq<u8>>::empty());
        assert(Seq::<Seq<u8>>::empty().flatten() == Seq::<u8>::empty());
        assert(chunks.flatten() == padded + Seq::<u8>::empty());
        assert(padded + Seq::<u8>::empty() =~= padded);
    } else {
        let rest = data.skip(bs);
        lemma_chunk_flatten(rest, block_size);
        lemma_mod_sub_multiples_vanish(data.len() as int, bs);
        assert(rest.len() % block_size == data.len() % block_size);
        assert(spec_chunk(data, block_size).drop_first() =~= spec_chunk(rest, block_size));
        assert(spec_chunk(data, block_size).flatten() == data.subrange(0, bs) + spec_chunk(
            rest,
            block_size,
        ).flatten());
        assert(data.subrange(0, bs) + (rest + byte_repeat(0, pad_len(rest.len(), block_size)))
            =~= data + byte_repeat(0, pad_len(data.len(), block_size)));
    }
}

/// The concatenation of uniformly `block_size`-sized blocks has their total
/// length.
pub proof fn lemma_flatten_len_uniform(s: Seq<Seq<u8>>, block_size: nat)
    requires
        forall|i: int| 0 <= i < s.len() ==> (#[trigger] s[i]).len() == block_size,
    ensures
        s.flatten().len() == s.len() * block_size,
    decreases s.len(),
{
    if s.len() == 0 {
    } else {
        lemma_flatten_len_uniform(s.drop_first(), block_size);
        assert((s.len() - 1) * block_size + block_size == s.len() * block_size)
            by (nonlinear_arith);
    }
}

/// Chunking the concatenation of `block_size`-sized blocks recovers exactly
/// those blocks.
pub proof fn lemma_chunk_of_flatten(s: Seq<Seq<u8>>, block_size: nat)
    requires
        block_size >= 1,
        forall|i: int| 0 <= i < s.len() ==> (#[trigger] s[i]).len() == block_size,
    ensures
        spec_chunk(s.flatten(), block_size) == s,
    decreases s.len(),
{
    let bs = block_size as int;
    if s.len() == 0 {
        assert(spec_chunk(s.flatten(), block_size) =~= s);
    } else {
        let f = s.flatten();
        lemma_flatten_len_uniform(s.drop_first(), block_size);
        assert(f == s.first() + s.drop_first().flatten());
        assert(f.len() >= block_size);
        assert(f.subrange(0, bs) =~= s.first());
        assert(f.skip(bs) =~= s.drop_first().flatten());
        lemma_chunk_of_flatten(s.drop_first(), block_size);
        assert(spec_chunk(f, block_size) =~= seq![s.first()] + s.drop_first());
        assert(seq![s.first()] + s.drop_first() =~= s);
    }
}

/// A buffer of exactly two blocks' length chunks into its two full blocks,
/// with no padding block added.
pub proof fn lemma_chunk_exact_two_blocks(data: Seq<u8>, block_size: nat)
    requires
        block_size >= 1,
        data.len() == 2 * block_size,
    ensures
        spec_chunk(data, block_size).len() == 2,
        spec_chunk(data, block_size)[0] == data.subrange(0, block_size as int),
        spec_chunk(data, block_size)[1] == data.subrange(
            block_size as int,
            (2 * block_size) as int,
        ),
{
    let bs = block_size as int;
    let rest = data.skip(bs);
    assert(rest.len() == block_size);
    assert(rest.skip(bs) =~= Seq::<u8>::empty());
    assert(spec_chunk(rest, block_size) == seq![rest.subrange(0, bs)] + spec_chunk(
        Seq::<u8>::empty(),
        block_size,
    ));
    assert(spec_chunk(data, block_size) == seq![data.subrange(0, bs)] + spec_chunk(
        rest,
        block_size,
    ));
    assert(rest.subrange(0, bs) =~= rest);
    assert(rest =~= data.subrange(bs, 2 * bs));
    assert(spec_chunk(data, block_size)[1] == spec_chunk(rest, block_size)[0]);
}

/// One byte past two blocks' length chunks into two full blocks plus one
/// padded block: the extra byte followed by `block_size - 1` zero bytes.
pub proof fn lemma_chunk_two_blocks_one_over(data: Seq<u8>, block_size: nat)
    requires
        block_size >= 1,
        data.len() == 2 * block_size + 1,
    ensures
        spec_chunk(data, block_size).len() == 3,
        spec_chunk(data, block_size)[0] == data.subrange(0, block_size as int),
        spec_chunk(data, block_size)[1] == data.subrange(
            block_size as int,
            (2 * block_size) as int,
        ),
        spec_chunk(data, block_size)[2] == data.subrange(
            (2 * block_size) as int,
            (2 * block_size + 1) as int,
        ) + byte_repeat(0, (block_size - 1) as nat),
{
    let bs = block_size as int;
    let rest = data.skip(bs);
    let rest2 = rest.skip(bs);
    assert(rest.len() == block_size + 1);
    assert(rest2.len() == 1);
    assert(rest2 =~= data.subrange(2 * bs, 2 * bs + 1));
    if block_size == 1 {
        assert(rest2.skip(bs) =~= Seq::<u8>::empty());
        assert(spec_chunk(rest2, block_size) == seq![rest2.subrange(0, bs)] + spec_chunk(
            Seq::<u8>::empty(),
            block_size,
        ));
        assert(rest2.subrange(0, bs) =~= rest2 + byte_repeat(0, 0));
    } else {
        assert(spec_chunk(rest2, block_size) == seq![rest2 + byte_repeat(
            0,
            (block_size - 1) as nat,
        )]);
    }
    assert(spec_chunk(rest, block_size) == seq![rest.subrange(0, bs)] + spec_chunk(
        rest2,
        block_size,
    ));
    assert(spec_chunk(data, block_size) == seq![data.subrange(0, bs)] + spec_chunk(
        rest,
        block_size,
    ));
    assert(rest.subrange(0, bs) =~= data.subrange(bs, 2 * bs));
    assert(spec_chunk(data, block_size)[1] == spec_chunk(rest, block_size)[0]);
    assert(spec_chunk(data, block_size)[2] == spec_chunk(rest, block_size)[1]);
    assert(spec_chunk(rest, block_size)[1] == spec_chunk(rest2, block_size)[0]);
}

} // verus!

