//! Block-level primitives shared by the mode engines.
//!
//! `group`/`un_group` convert between a block-aligned byte sequence and an
//! ordered sequence of 16-byte blocks without losing or duplicating a byte.
//! `xor` combines two blocks byte-wise; `increment_counter` treats a block
//! as a big-endian unsigned integer and adds one, carrying toward the most
//! significant byte and discarding overflow (full wraparound).

use vstd::prelude::*;

verus! {

broadcast use vstd::array::group_array_axioms;

/// The views of a sequence of 16-byte blocks, one byte sequence per block.
pub open spec fn blocks_view(blocks: Seq<[u8; 16]>) -> Seq<Seq<u8>> {
    blocks.map_values(|b: [u8; 16]| b@)
}

/// `data` cut into consecutive non-overlapping 16-byte pieces, in order
/// (any trailing fragment shorter than a block is not represented).
pub open spec fn group_spec(data: Seq<u8>) -> Seq<Seq<u8>> {
    Seq::new(data.len() / 16, |i: int| data.subrange(16 * i, 16 * i + 16))
}

/// The blocks concatenated back into one byte sequence, in order.
pub open spec fn ungroup_spec(blocks: Seq<Seq<u8>>) -> Seq<u8>
    decreases blocks.len(),
{
    if blocks.len() == 0 {
        Seq::empty()
    } else {
        blocks.first() + ungroup_spec(blocks.drop_first())
    }
}

/// Byte-wise exclusive-or; the result has the length of the first operand.
pub open spec fn xor_spec(a: Seq<u8>, b: Seq<u8>) -> Seq<u8> {
    Seq::new(a.len(), |i: int| a[i] ^ b[i])
}

/// The all-zero 16-byte block (the fixed CBC initialization vector).
pub open spec fn zero_block() -> Seq<u8> {
    Seq::new(16, |i: int| 0u8)
}

/// The counter after adding one, big-endian: a trailing run of 0xFF bytes
/// rolls over to 0x00 and the carry lands on the byte before the run;
/// a carry out of the first byte is discarded.
pub open spec fn inc_spec(c: Seq<u8>) -> Seq<u8>
    decreases c.len(),
{
    if c.len() == 0 {
        c
    } else if c.last() == 255 {
        inc_spec(c.drop_last()).push(0u8)
    } else {
        c.update(c.len() - 1, (c.last() + 1) as u8)
    }
}

/// Concatenation appends block by block.
pub proof fn lemma_ungroup_push(blocks: Seq<Seq<u8>>, b: Seq<u8>)
    ensures
        ungroup_spec(blocks.push(b)) == ungroup_spec(blocks) + b,
    decreases blocks.len(),
{
    if blocks.len() == 0 {
        assert(ungroup_spec(blocks) == Seq::<u8>::empty());
        assert(blocks.push(b).first() == b);
        assert(blocks.push(b).drop_first() =~= Seq::<Seq<u8>>::empty());
        assert(ungroup_spec(blocks.push(b).drop_first()) == Seq::<u8>::empty());
        assert(ungroup_spec(blocks.push(b)) =~= ungroup_spec(blocks) + b);
    } else {
        let rest = blocks.drop_first();
        assert(blocks.push(b).drop_first() =~= rest.push(b));
        assert(blocks.push(b).first() == blocks.first());
        lemma_ungroup_push(rest, b);
        assert(ungroup_spec(blocks.push(b)) == blocks.first() + (ungroup_spec(rest) + b));
        assert(ungroup_spec(blocks) == blocks.first() + ungroup_spec(rest));
        assert(blocks.first() + (ungroup_spec(rest) + b) =~= (blocks.first() + ungroup_spec(rest))
            + b);
    }
}

/// Concatenating blocks of 16 bytes each yields 16 bytes per block.
pub proof fn lemma_ungroup_len(blocks: Seq<Seq<u8>>)
    requires
        forall|i: int| 0 <= i < blocks.len() ==> (#[trigger] blocks[i]).len() == 16,
    ensures
        ungroup_spec(blocks).len() == 16 * blocks.len(),
    decreases blocks.len(),
{
    if blocks.len() > 0 {
        lemma_ungroup_len(blocks.drop_first());
    }
}

/// Grouping then concatenating restores any block-aligned byte sequence.
pub proof fn lemma_ungroup_group(data: Seq<u8>)
    requires
        data.len() % 16 == 0,
    ensures
        ungroup_spec(group_spec(data)) == data,
    decreases data.len(),
{
    if data.len() == 0 {
        assert(ungroup_spec(group_spec(data)) =~= data);
    } else {
        let rest = data.skip(16);
        assert(group_spec(data).drop_first() =~~= group_spec(rest));
        lemma_ungroup_group(rest);
        assert(group_spec(data).first() == data.subrange(0, 16));
        assert(ungroup_spec(group_spec(data)) =~= data);
    }
}

/// Concatenating 16-byte blocks then grouping restores the blocks.
pub proof fn lemma_group_ungroup(blocks: Seq<Seq<u8>>)
    requires
        forall|i: int| 0 <= i < blocks.len() ==> (#[trigger] blocks[i]).len() == 16,
    ensures
        group_spec(ungroup_spec(blocks)) == blocks,
    decreases blocks.len(),
{
    lemma_ungroup_len(blocks);
    if blocks.len() == 0 {
        assert(group_spec(ungroup_spec(blocks)) =~= blocks);
    } else {
        let data = ungroup_spec(blocks);
        let rest = blocks.drop_first();
        lemma_group_ungroup(rest);
        lemma_ungroup_len(rest);
        assert(data =~= blocks.first() + ungroup_spec(rest));
        assert(data.skip(16) =~= ungroup_spec(rest));
        assert forall|i: int| 0 <= i < blocks.len() implies #[trigger] group_spec(data)[i]
            == blocks[i] by {
            if i == 0 {
                assert(data.subrange(0, 16) =~= blocks.first());
            } else {
                assert(group_spec(data.skip(16))[i - 1] == blocks[i]);
                assert(data.subrange(16 * i, 16 * i + 16) =~= data.skip(16).subrange(
                    16 * (i - 1),
                    16 * (i - 1) + 16,
                ));
            }
        };
        assert(group_spec(ungroup_spec(blocks)) =~= blocks);
    }
}

/// XOR undoes itself: masking with the same block twice gives the original,
/// and a block XORed with itself is all zero.
pub proof fn lemma_xor_involution(a: Seq<u8>, b: Seq<u8>)
    ensures
        xor_spec(xor_spec(a, b), b) == a,
        xor_spec(a, a) == Seq::new(a.len(), |i: int| 0u8),
{
    assert forall|i: int| 0 <= i < a.len() implies xor_spec(xor_spec(a, b), b)[i] == a[i] by {
        let x = a[i];
        let y = b[i];
        assert((x ^ y) ^ y == x) by (bit_vector);
    };
    assert(xor_spec(xor_spec(a, b), b) =~= a);
    assert forall|i: int| 0 <= i < a.len() implies xor_spec(a, a)[i] == 0u8 by {
        let x = a[i];
        assert(x ^ x == 0u8) by (bit_vector);
    };
    assert(xor_spec(a, a) =~= Seq::new(a.len(), |i: int| 0u8));
}

/// XOR against a common mask is injective in the other operand.
pub proof fn lemma_xor_cancel(p: Seq<u8>, a: Seq<u8>, b: Seq<u8>)
    requires
        a.len() == p.len(),
        b.len() == p.len(),
        xor_spec(p, a) == xor_spec(p, b),
    ensures
        a == b,
{
    assert forall|i: int| 0 <= i < a.len() implies a[i] == b[i] by {
        assert(xor_spec(p, a)[i] == xor_spec(p, b)[i]);
        assert(xor_spec(p, a)[i] == p[i] ^ a[i]);
        assert(xor_spec(p, b)[i] == p[i] ^ b[i]);
        let x = p[i];
        let y = a[i];
        let z = b[i];
        assert(y == z) by (bit_vector)
            requires
                x ^ y == x ^ z,
        ;
    };
    assert(a =~= b);
}

/// A counter whose bytes from position `i` on are all 0xFF rolls those
/// bytes over to zero; the remaining carry falls on the prefix.
proof fn lemma_inc_ff_suffix(c: Seq<u8>, i: int)
    requires
        0 <= i <= c.len(),
        forall|k: int| i <= k < c.len() ==> c[k] == 255,
    ensures
        inc_spec(c) == inc_spec(c.take(i)) + Seq::new((c.len() - i) as nat, |j: int| 0u8),
    decreases c.len() - i,
{
    if i == c.len() {
        assert(c.take(i) =~= c);
        assert(inc_spec(c) =~= inc_spec(c.take(i)) + Seq::new((c.len() - i) as nat, |j: int| 0u8));
    } else {
        let d = c.drop_last();
        assert(c.last() == 255);
        lemma_inc_ff_suffix(d, i);
        assert(d.take(i) =~= c.take(i));
        assert(inc_spec(c) =~= inc_spec(c.take(i)) + Seq::new((c.len() - i) as nat, |j: int| 0u8));
    }
}

/// Incrementing the all-0xFF counter overflows completely: the carry out of
/// the most significant byte is dropped and the all-zero counter remains.
pub proof fn lemma_increment_wraps(c: Seq<u8>)
    requires
        forall|k: int| 0 <= k < c.len() ==> c[k] == 255,
    ensures
        inc_spec(c) == Seq::new(c.len(), |j: int| 0u8),
{
    lemma_inc_ff_suffix(c, 0);
    assert(c.take(0) =~= Seq::<u8>::empty());
    assert(inc_spec(c) =~= Seq::new(c.len(), |j: int| 0u8));
}

/// A counter ending in a non-0xFF byte followed by a single 0xFF byte gains
/// one carry: the last byte rolls to 0x00 and the byte before it steps up.
pub proof fn lemma_increment_carry_once(c: Seq<u8>)
    requires
        c.len() >= 2,
        c.last() == 255,
        c[c.len() - 2] != 255,
    ensures
        inc_spec(c) == c.update(c.len() - 2, (c[c.len() - 2] + 1) as u8).update(c.len() - 1, 0u8),
{
    let d = c.drop_last();
    assert(d.last() == c[c.len() - 2]);
    assert(inc_spec(d) == d.update(d.len() - 1, (d.last() + 1) as u8));
    assert(inc_spec(c) =~= c.update(c.len() - 2, (c[c.len() - 2] + 1) as u8).update(
        c.len() - 1,
        0u8,
    ));
}

/// Appends one block's bytes, in order, to the end of `data`.
pub fn append_block(data: &mut Vec<u8>, block: &[u8; 16])
    ensures
        final(data)@ == old(data)@ + block@,
{
    let ghost orig = data@;
    let mut j: usize = 0;
    while j < 16
        invariant
            j <= 16,
            data@ == orig + block@.take(j as int),
        decreases 16 - j,
    {
        data.push(block[j]);
        j = j + 1;
        assert(data@ =~= orig + block@.take(j as int));
    }
    assert(data@ =~= orig + block@);
}

/// Cuts a block-aligned byte vector into its consecutive 16-byte blocks.
pub fn group(data: Vec<u8>) -> (blocks: Vec<[u8; 16]>)
    requires
        data@.len() % 16 == 0,
    ensures
        blocks_view(blocks@) == group_spec(data@),
        blocks@.len() == data@.len() / 16,
{
    let mut blocks: Vec<[u8; 16]> = Vec::new();
    let mut i: usize = 0;
    while i < data.len()
        invariant
            data@.len() % 16 == 0,
            i % 16 == 0,
            i <= data@.len(),
            blocks@.len() == i / 16,
            forall|k: int|
                0 <= k < blocks@.len() ==> (#[trigger] blocks@[k])@ == data@.subrange(
                    16 * k,
                    16 * k + 16,
                ),
        decreases data@.len() - i,
    {
        assert(i + 16 <= data@.len());
        let mut block = [0u8; 16];
        let mut j: usize = 0;
        while j < 16
            invariant
                j <= 16,
                i + 16 <= data@.len(),
                data@.len() <= usize::MAX,
                forall|k: int| 0 <= k < j ==> block@[k] == data@[i + k],
            decreases 16 - j,
        {
            block[j] = data[i + j];
            j = j + 1;
        }
        assert(block@ =~= data@.subrange(i as int, i as int + 16));
        blocks.push(block);
        i = i + 16;
    }
    assert forall|k: int| 0 <= k < blocks@.len() implies #[trigger] blocks_view(blocks@)[k]
        == group_spec(data@)[k] by {
        assert(blocks_view(blocks@)[k] == blocks@[k]@);
        assert(group_spec(data@)[k] == data@.subrange(16 * k, 16 * k + 16));
    };
    assert(blocks_view(blocks@) =~~= group_spec(data@));
    blocks
}

/// Concatenates blocks back into one byte vector, in order.
pub fn un_group(blocks: Vec<[u8; 16]>) -> (data: Vec<u8>)
    ensures
        data@ == ungroup_spec(blocks_view(blocks@)),
        data@.len() == 16 * blocks@.len(),
{
    let mut data: Vec<u8> = Vec::new();
    let mut i: usize = 0;
    assert(blocks_view(blocks@).take(0) =~= Seq::<Seq<u8>>::empty());
    while i < blocks.len()
        invariant
            i <= blocks@.len(),
            data@ == ungroup_spec(blocks_view(blocks@).take(i as int)),
            data@.len() == 16 * i,
        decreases blocks@.len() - i,
    {
        append_block(&mut data, &blocks[i]);
        i = i + 1;
        proof {
            lemma_ungroup_push(blocks_view(blocks@).take(i - 1), blocks@[i - 1]@);
            assert(blocks_view(blocks@).take(i as int) =~= blocks_view(blocks@).take(i - 1).push(
                blocks@[i - 1]@,
            ));
        }
    }
    assert(blocks_view(blocks@).take(blocks@.len() as int) =~= blocks_view(blocks@));
    data
}

/// Combines two blocks byte by byte with exclusive-or.
pub fn xor(block1: [u8; 16], block2: [u8; 16]) -> (result: [u8; 16])
    ensures
        result@ == xor_spec(block1@, block2@),
{
    let mut result = [0u8; 16];
    let mut i: usize = 0;
    while i < 16
        invariant
            i <= 16,
            forall|k: int| 0 <= k < i ==> result@[k] == (block1@[k] ^ block2@[k]),
        decreases 16 - i,
    {
        result[i] = block1[i] ^ block2[i];
        i = i + 1;
    }
    assert(result@ =~= xor_spec(block1@, block2@));
    result
}

/// Adds one to the counter in place, big-endian, with carry propagation;
/// overflow out of the most significant byte is dropped.
pub fn increment_counter(counter: &mut [u8; 16])
    ensures
        final(counter)@ == inc_spec(old(counter)@),
{
    let ghost orig = old(counter)@;
    let mut i: usize = 16;
    assert(counter@ =~= orig.take(16) + Seq::new(0, |j: int| 0u8));
    while i > 0
        invariant
            i <= 16,
            orig == old(counter)@,
            orig.len() == 16,
            counter@ == orig.take(i as int) + Seq::new((16 - i) as nat, |j: int| 0u8),
            forall|k: int| i <= k < 16 ==> orig[k] == 255,
        decreases i,
    {
        i = i - 1;
        let b = counter[i];
        assert(counter@[i as int] == orig.take(i + 1)[i as int]);
        assert(b == orig[i as int]);
        if b == 255 {
            counter[i] = 0;
            assert(counter@ =~= orig.take(i as int) + Seq::new((16 - i) as nat, |j: int| 0u8));
        } else {
            counter[i] = b + 1;
            proof {
                lemma_inc_ff_suffix(orig, i + 1);
                assert(orig.take(i + 1).last() == orig[i as int]);
                assert(inc_spec(orig.take(i + 1)) == orig.take(i + 1).update(
                    i as int,
                    (b + 1) as u8,
                ));
                assert(counter@ =~= inc_spec(orig));
            }
            return ;
        }
    }
    proof {
        lemma_increment_wraps(orig);
        assert(counter@ =~= inc_spec(orig));
    }
}

} // verus!
