//! Cipher Block Chaining mode: each plaintext block is XORed with the
//! previous ciphertext block (the all-zero initialization vector before the
//! first block) and the combination is encrypted.
//!
//! Encryption is strictly sequential — ciphertext block `i` is an input to
//! block `i+1` — while decryption only needs the ciphertext itself and the
//! same zero IV. The IV is fixed all-zero here, a deliberate
//! simplification; both sides must use the same value.

use crate::blocks::blocks_view;
use crate::blocks::group;
use crate::blocks::group_spec;
use crate::blocks::lemma_group_ungroup;
use crate::blocks::lemma_ungroup_group;
use crate::blocks::lemma_xor_cancel;
use crate::blocks::lemma_xor_involution;
use crate::blocks::un_group;
use crate::blocks::ungroup_spec;
use crate::blocks::xor;
use crate::blocks::xor_spec;
use crate::blocks::zero_block;
use crate::cipher::aes_dec_of;
use crate::cipher::aes_decrypt;
use crate::cipher::aes_enc_of;
use crate::cipher::aes_encrypt;
use crate::padding::lemma_un_pad_pad;
use crate::padding::pad;
use crate::padding::pad_spec;
use crate::padding::un_pad;
use crate::padding::un_pad_spec;
use vstd::prelude::*;

verus! {

broadcast use vstd::array::group_array_axioms;

/// The last block of `s`, or `d` when `s` is empty: the chaining value
/// after the blocks of `s` have been produced or consumed.
pub open spec fn last_or(s: Seq<Seq<u8>>, d: Seq<u8>) -> Seq<u8> {
    if s.len() == 0 {
        d
    } else {
        s.last()
    }
}

/// The CBC ciphertext blocks of `pblocks` with chaining value `prev`: each
/// block is XORed with the previous ciphertext block, then encrypted, and
/// the result becomes the next chaining value.
pub open spec fn cbc_encrypt_blocks(pblocks: Seq<Seq<u8>>, key: Seq<u8>, prev: Seq<u8>) -> Seq<
    Seq<u8>,
>
    decreases pblocks.len(),
{
    if pblocks.len() == 0 {
        Seq::empty()
    } else {
        let c = aes_enc_of(key, xor_spec(pblocks.first(), prev));
        seq![c] + cbc_encrypt_blocks(pblocks.drop_first(), key, c)
    }
}

/// The CBC plaintext blocks of `cblocks` with chaining value `prev`: each
/// ciphertext block is decrypted and XORed with the previous ciphertext
/// block; the consumed ciphertext block becomes the next chaining value.
pub open spec fn cbc_decrypt_blocks(cblocks: Seq<Seq<u8>>, key: Seq<u8>, prev: Seq<u8>) -> Seq<
    Seq<u8>,
>
    decreases cblocks.len(),
{
    if cblocks.len() == 0 {
        Seq::empty()
    } else {
        seq![xor_spec(aes_dec_of(key, cblocks.first()), prev)] + cbc_decrypt_blocks(
            cblocks.drop_first(),
            key,
            cblocks.first(),
        )
    }
}

/// The CBC ciphertext of `plain` under `key`, chained from the zero IV.
pub open spec fn cbc_encrypt_spec(plain: Seq<u8>, key: Seq<u8>) -> Seq<u8> {
    ungroup_spec(cbc_encrypt_blocks(group_spec(pad_spec(plain)), key, zero_block()))
}

/// The CBC decryption of `cipher` under `key`, chained from the zero IV,
/// with the padding trailer stripped at the end.
pub open spec fn cbc_decrypt_spec(cipher: Seq<u8>, key: Seq<u8>) -> Seq<u8> {
    un_pad_spec(ungroup_spec(cbc_decrypt_blocks(group_spec(cipher), key, zero_block())))
}

/// The chaining value in force when ciphertext block `i` is produced: the
/// zero IV before the first block, the previous ciphertext block after.
pub open spec fn cbc_prev_spec(cblocks: Seq<Seq<u8>>, i: int) -> Seq<u8> {
    if i == 0 {
        zero_block()
    } else {
        cblocks[i - 1]
    }
}

/// The diffusion CBC adds over ECB: equal adjacent padded-plaintext blocks
/// give distinct ciphertext blocks, except in the one degenerate case where
/// a ciphertext block happens to equal its own chaining value.
pub open spec fn cbc_diffusion_spec(plain: Seq<u8>, cipher: Seq<u8>) -> bool {
    forall|i: int|
        #![trigger group_spec(cipher)[i]]
        0 <= i && i + 1 < group_spec(cipher).len() && i + 1 < group_spec(pad_spec(plain)).len()
            && group_spec(pad_spec(plain))[i] == group_spec(pad_spec(plain))[i + 1] && group_spec(
            cipher,
        )[i] != cbc_prev_spec(group_spec(cipher), i) ==> group_spec(cipher)[i] != group_spec(
            cipher,
        )[i + 1]
}

/// Appending a plaintext block appends one ciphertext block, encrypted
/// against the chain's current last ciphertext block.
proof fn lemma_cbc_enc_snoc(pblocks: Seq<Seq<u8>>, key: Seq<u8>, prev: Seq<u8>, b: Seq<u8>)
    ensures
        cbc_encrypt_blocks(pblocks.push(b), key, prev) == cbc_encrypt_blocks(
            pblocks,
            key,
            prev,
        ).push(
            aes_enc_of(
                key,
                xor_spec(b, last_or(cbc_encrypt_blocks(pblocks, key, prev), prev)),
            ),
        ),
    decreases pblocks.len(),
{
    if pblocks.len() == 0 {
        let c = aes_enc_of(key, xor_spec(b, prev));
        assert(pblocks.push(b).first() == b);
        assert(pblocks.push(b).drop_first() =~= Seq::<Seq<u8>>::empty());
        assert(cbc_encrypt_blocks(pblocks.push(b).drop_first(), key, c) == Seq::<Seq<u8>>::empty());
        assert(cbc_encrypt_blocks(pblocks, key, prev) == Seq::<Seq<u8>>::empty());
        assert(cbc_encrypt_blocks(pblocks.push(b), key, prev) =~= Seq::<Seq<u8>>::empty().push(c));
    } else {
        let rest = pblocks.drop_first();
        let c0 = aes_enc_of(key, xor_spec(pblocks.first(), prev));
        assert(pblocks.push(b).first() == pblocks.first());
        assert(pblocks.push(b).drop_first() =~= rest.push(b));
        lemma_cbc_enc_snoc(rest, key, c0, b);
        let tail = cbc_encrypt_blocks(rest, key, c0);
        let e = aes_enc_of(key, xor_spec(b, last_or(tail, c0)));
        assert(cbc_encrypt_blocks(pblocks.push(b), key, prev) == seq![c0] + tail.push(e));
        assert(cbc_encrypt_blocks(pblocks, key, prev) == seq![c0] + tail);
        assert(last_or(seq![c0] + tail, prev) == last_or(tail, c0));
        assert(seq![c0] + tail.push(e) =~= (seq![c0] + tail).push(e));
    }
}

/// Appending a ciphertext block appends one plaintext block, decrypted and
/// unmasked with the chain's current last ciphertext block.
proof fn lemma_cbc_dec_snoc(cblocks: Seq<Seq<u8>>, key: Seq<u8>, prev: Seq<u8>, c: Seq<u8>)
    ensures
        cbc_decrypt_blocks(cblocks.push(c), key, prev) == cbc_decrypt_blocks(
            cblocks,
            key,
            prev,
        ).push(xor_spec(aes_dec_of(key, c), last_or(cblocks, prev))),
    decreases cblocks.len(),
{
    if cblocks.len() == 0 {
        let p = xor_spec(aes_dec_of(key, c), prev);
        assert(cblocks.push(c).first() == c);
        assert(cblocks.push(c).drop_first() =~= Seq::<Seq<u8>>::empty());
        assert(cbc_decrypt_blocks(cblocks.push(c).drop_first(), key, c) == Seq::<Seq<u8>>::empty());
        assert(cbc_decrypt_blocks(cblocks, key, prev) == Seq::<Seq<u8>>::empty());
        assert(cbc_decrypt_blocks(cblocks.push(c), key, prev) =~= Seq::<Seq<u8>>::empty().push(p));
    } else {
        let rest = cblocks.drop_first();
        let p0 = xor_spec(aes_dec_of(key, cblocks.first()), prev);
        assert(cblocks.push(c).first() == cblocks.first());
        assert(cblocks.push(c).drop_first() =~= rest.push(c));
        lemma_cbc_dec_snoc(rest, key, cblocks.first(), c);
        let tail = cbc_decrypt_blocks(rest, key, cblocks.first());
        let p = xor_spec(aes_dec_of(key, c), last_or(rest, cblocks.first()));
        assert(cbc_decrypt_blocks(cblocks.push(c), key, prev) == seq![p0] + tail.push(p));
        assert(cbc_decrypt_blocks(cblocks, key, prev) == seq![p0] + tail);
        assert(last_or(rest, cblocks.first()) == last_or(cblocks, prev));
        assert(seq![p0] + tail.push(p) =~= (seq![p0] + tail).push(p));
    }
}

/// Pads the message, then chains: every block is XORed with the previous
/// ciphertext block (zero IV first) and encrypted under `key`.
///
/// The contract also carries the round trip (decrypting the result with the
/// same zero-IV convention recovers the message) and the diffusion CBC
/// provides where ECB leaks.
pub fn cbc_encrypt(plain_text: Vec<u8>, key: [u8; 16]) -> (cipher_text: Vec<u8>)
    ensures
        cipher_text@ == cbc_encrypt_spec(plain_text@, key@),
        cipher_text@.len() % 16 == 0,
        cipher_text@.len() > 0,
        cbc_decrypt_spec(cipher_text@, key@) == plain_text@,
        cbc_diffusion_spec(plain_text@, cipher_text@),
{
    let ghost plain = plain_text@;
    let init_vector = [0u8; 16];
    let padded_data = pad(plain_text);
    let block_data = group(padded_data);
    let ghost pb = blocks_view(block_data@);
    let mut cipher_blocks: Vec<[u8; 16]> = Vec::new();
    let mut prev_block = init_vector;
    let mut i: usize = 0;
    proof {
        assert(init_vector@ =~= zero_block());
        assert(blocks_view(cipher_blocks@) =~= Seq::<Seq<u8>>::empty());
        assert(pb.take(0) =~= Seq::<Seq<u8>>::empty());
    }
    while i < block_data.len()
        invariant
            i <= block_data@.len(),
            cipher_blocks@.len() == i,
            pb == blocks_view(block_data@),
            blocks_view(cipher_blocks@) == cbc_encrypt_blocks(pb.take(i as int), key@, zero_block()),
            prev_block@ == last_or(blocks_view(cipher_blocks@), zero_block()),
            cbc_decrypt_blocks(blocks_view(cipher_blocks@), key@, zero_block()) == pb.take(i as int),
            forall|j: int|
                0 <= j < i ==> aes_dec_of(key@, (#[trigger] cipher_blocks@[j])@) == xor_spec(
                    pb[j],
                    cbc_prev_spec(blocks_view(cipher_blocks@), j),
                ),
        decreases block_data@.len() - i,
    {
        let ghost cv = blocks_view(cipher_blocks@);
        let xored_block = xor(block_data[i], prev_block);
        let encrypted_block = aes_encrypt(xored_block, &key);
        cipher_blocks.push(encrypted_block);
        proof {
            lemma_cbc_enc_snoc(pb.take(i as int), key@, zero_block(), pb[i as int]);
            assert(pb.take(i + 1) =~= pb.take(i as int).push(pb[i as int]));
            assert(blocks_view(cipher_blocks@) =~= cv.push(encrypted_block@));
            lemma_cbc_dec_snoc(cv, key@, zero_block(), encrypted_block@);
            lemma_xor_involution(pb[i as int], prev_block@);
            assert(cbc_decrypt_blocks(blocks_view(cipher_blocks@), key@, zero_block()) =~~= pb.take(
                i + 1,
            ));
            assert(cbc_prev_spec(blocks_view(cipher_blocks@), i as int) == last_or(
                cv,
                zero_block(),
            ));
            assert forall|j: int| 0 <= j < i + 1 implies aes_dec_of(
                key@,
                (#[trigger] cipher_blocks@[j])@,
            ) == xor_spec(pb[j], cbc_prev_spec(blocks_view(cipher_blocks@), j)) by {
                if j < i {
                    assert(cipher_blocks@[j]@ == cv[j]);
                    assert(cbc_prev_spec(blocks_view(cipher_blocks@), j) == cbc_prev_spec(cv, j));
                }
            };
        }
        prev_block = encrypted_block;
        i = i + 1;
    }
    let cipher_text = un_group(cipher_blocks);
    proof {
        let cb = blocks_view(cipher_blocks@);
        assert(pb.take(pb.len() as int) =~= pb);
        assert forall|j: int| 0 <= j < cb.len() implies (#[trigger] cb[j]).len() == 16 by {
            assert(cb[j] == cipher_blocks@[j]@);
        };
        lemma_group_ungroup(cb);
        lemma_ungroup_group(pad_spec(plain));
        lemma_un_pad_pad(plain);
        assert(cbc_decrypt_spec(cipher_text@, key@) == plain);
        assert forall|bi: int|
            #![trigger group_spec(cipher_text@)[bi]]
            0 <= bi && bi + 1 < group_spec(cipher_text@).len() && bi + 1 < group_spec(
                pad_spec(plain),
            ).len() && group_spec(pad_spec(plain))[bi] == group_spec(pad_spec(plain))[bi + 1]
            && group_spec(cipher_text@)[bi] != cbc_prev_spec(group_spec(cipher_text@), bi) implies
            group_spec(cipher_text@)[bi] != group_spec(cipher_text@)[bi + 1] by {
            assert(group_spec(cipher_text@) == cb);
            if cb[bi] == cb[bi + 1] {
                assert(aes_dec_of(key@, cb[bi]) == xor_spec(pb[bi], cbc_prev_spec(cb, bi)));
                assert(aes_dec_of(key@, cb[bi + 1]) == xor_spec(pb[bi + 1], cb[bi]));
                assert(xor_spec(pb[bi], cbc_prev_spec(cb, bi)) == xor_spec(pb[bi], cb[bi]));
                assert(pb[bi].len() == 16) by {
                    assert(pb[bi] == block_data@[bi]@);
                };
                assert(cbc_prev_spec(cb, bi).len() == 16) by {
                    if bi > 0 {
                        assert(cb[bi - 1] == cipher_blocks@[bi - 1]@);
                    }
                };
                assert(cb[bi].len() == 16) by {
                    assert(cb[bi] == cipher_blocks@[bi]@);
                };
                lemma_xor_cancel(pb[bi], cbc_prev_spec(cb, bi), cb[bi]);
                assert(false);
            }
        };
    }
    cipher_text
}

/// Cuts the ciphertext into blocks and unchains: every block is decrypted
/// under `key` and XORed with the previous ciphertext block (zero IV
/// first); the padding trailer is stripped at the end.
pub fn cbc_decrypt(cipher_text: Vec<u8>, key: [u8; 16]) -> (plain_text: Vec<u8>)
    requires
        cipher_text@.len() % 16 == 0,
        cipher_text@.len() > 0,
    ensures
        plain_text@ == cbc_decrypt_spec(cipher_text@, key@),
{
    let ghost cipher = cipher_text@;
    let init_vector = [0u8; 16];
    let block_data = group(cipher_text);
    let ghost cb = blocks_view(block_data@);
    let mut plain_blocks: Vec<[u8; 16]> = Vec::new();
    let mut prev_block = init_vector;
    let mut i: usize = 0;
    proof {
        assert(init_vector@ =~= zero_block());
        assert(blocks_view(plain_blocks@) =~= Seq::<Seq<u8>>::empty());
        assert(cb.take(0) =~= Seq::<Seq<u8>>::empty());
    }
    while i < block_data.len()
        invariant
            i <= block_data@.len(),
            plain_blocks@.len() == i,
            cb == blocks_view(block_data@),
            blocks_view(plain_blocks@) == cbc_decrypt_blocks(cb.take(i as int), key@, zero_block()),
            prev_block@ == last_or(cb.take(i as int), zero_block()),
        decreases block_data@.len() - i,
    {
        let decrypted_block = aes_decrypt(block_data[i], &key);
        let xored_block = xor(decrypted_block, prev_block);
        plain_blocks.push(xored_block);
        prev_block = block_data[i];
        proof {
            lemma_cbc_dec_snoc(cb.take(i as int), key@, zero_block(), cb[i as int]);
            assert(cb.take(i + 1) =~= cb.take(i as int).push(cb[i as int]));
            assert(blocks_view(plain_blocks@) =~= cbc_decrypt_blocks(
                cb.take(i + 1),
                key@,
                zero_block(),
            ));
            assert(last_or(cb.take(i + 1), zero_block()) == cb[i as int]);
        }
        i = i + 1;
    }
    let decrypted = un_group(plain_blocks);
    proof {
        assert(cb.take(cb.len() as int) =~= cb);
        assert(decrypted@.len() > 0);
    }
    un_pad(decrypted)
}

} // verus!
