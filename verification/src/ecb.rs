//! Electronic Code Book mode: pad, group, and encrypt every block
//! independently under the same key.
//!
//! ECB is insecure and kept as a negative example: because blocks are
//! independent, equal plaintext blocks always give equal ciphertext blocks,
//! and that leak is stated here as a proved property (`ecb_leak_spec`), not
//! hidden.

use crate::blocks::blocks_view;
use crate::blocks::group;
use crate::blocks::group_spec;
use crate::blocks::lemma_group_ungroup;
use crate::blocks::lemma_ungroup_group;
use crate::blocks::un_group;
use crate::blocks::ungroup_spec;
use crate::cipher::aes_dec_of;
use crate::cipher::aes_decrypt;
use crate::cipher::aes_enc_of;
use crate::cipher::aes_encrypt;
use crate::padding::lemma_un_pad_pad;
use crate::padding::pad;
use crate::padding::pad_spec;
use crate::padding::un_pad;
use crate::padding::un_pad_spec;
use vstd::prelude::*;

verus! {

broadcast use vstd::array::group_array_axioms;

/// The ECB ciphertext of `plain` under `key`: each block of the padded
/// message encrypted on its own, results concatenated in order.
pub open spec fn ecb_encrypt_spec(plain: Seq<u8>, key: Seq<u8>) -> Seq<u8> {
    ungroup_spec(group_spec(pad_spec(plain)).map_values(|b: Seq<u8>| aes_enc_of(key, b)))
}

/// The ECB decryption of `cipher` under `key`: each block decrypted on its
/// own, results concatenated, then the padding trailer stripped.
pub open spec fn ecb_decrypt_spec(cipher: Seq<u8>, key: Seq<u8>) -> Seq<u8> {
    un_pad_spec(ungroup_spec(group_spec(cipher).map_values(|b: Seq<u8>| aes_dec_of(key, b))))
}

/// The structure ECB leaks, by design: wherever two blocks of the padded
/// plaintext are equal, the corresponding ciphertext blocks are equal too.
pub open spec fn ecb_leak_spec(plain: Seq<u8>, cipher: Seq<u8>) -> bool {
    forall|i: int, j: int|
        #![trigger cipher.subrange(16 * i, 16 * i + 16), cipher.subrange(16 * j, 16 * j + 16)]
        0 <= i && 0 <= j && 16 * i + 16 <= pad_spec(plain).len() && 16 * j + 16 <= pad_spec(
            plain,
        ).len() && pad_spec(plain).subrange(16 * i, 16 * i + 16) == pad_spec(plain).subrange(
            16 * j,
            16 * j + 16,
        ) ==> cipher.subrange(16 * i, 16 * i + 16) == cipher.subrange(16 * j, 16 * j + 16)
}

/// Pads the message, cuts it into blocks, encrypts each block independently
/// under `key`, and concatenates the encrypted blocks in order.
///
/// Besides pinning the result to `ecb_encrypt_spec`, the contract carries
/// the round trip (decrypting the result recovers the message exactly) and
/// the documented ECB determinism leak.
pub fn ecb_encrypt(plain_text: Vec<u8>, key: [u8; 16]) -> (cipher_text: Vec<u8>)
    ensures
        cipher_text@ == ecb_encrypt_spec(plain_text@, key@),
        cipher_text@.len() % 16 == 0,
        cipher_text@.len() > 0,
        ecb_decrypt_spec(cipher_text@, key@) == plain_text@,
        ecb_leak_spec(plain_text@, cipher_text@),
{
    let ghost plain = plain_text@;
    let padded_data = pad(plain_text);
    let block_data = group(padded_data);
    let ghost pb = blocks_view(block_data@);
    let mut cipher_blocks: Vec<[u8; 16]> = Vec::new();
    let mut i: usize = 0;
    while i < block_data.len()
        invariant
            i <= block_data@.len(),
            cipher_blocks@.len() == i,
            pb == blocks_view(block_data@),
            forall|j: int|
                0 <= j < i ==> (#[trigger] cipher_blocks@[j])@ == aes_enc_of(key@, pb[j]),
            forall|j: int| 0 <= j < i ==> aes_dec_of(key@, (#[trigger] cipher_blocks@[j])@) == pb[j],
        decreases block_data@.len() - i,
    {
        let encrypted_block = aes_encrypt(block_data[i], &key);
        cipher_blocks.push(encrypted_block);
        i = i + 1;
    }
    let cipher_text = un_group(cipher_blocks);
    proof {
        let cb = blocks_view(cipher_blocks@);
        assert(cb =~~= group_spec(pad_spec(plain)).map_values(|b: Seq<u8>| aes_enc_of(key@, b)));
        assert forall|j: int| 0 <= j < cb.len() implies (#[trigger] cb[j]).len() == 16 by {
            assert(cb[j] == cipher_blocks@[j]@);
        };
        lemma_group_ungroup(cb);
        assert(cb.map_values(|b: Seq<u8>| aes_dec_of(key@, b)) =~~= pb);
        lemma_ungroup_group(pad_spec(plain));
        lemma_un_pad_pad(plain);
        assert(ecb_decrypt_spec(cipher_text@, key@) == plain);
        assert forall|bi: int, bj: int|
            #![trigger cipher_text@.subrange(16 * bi, 16 * bi + 16), cipher_text@.subrange(16 * bj, 16 * bj + 16)]
            0 <= bi && 0 <= bj && 16 * bi + 16 <= pad_spec(plain).len() && 16 * bj + 16
                <= pad_spec(plain).len() && pad_spec(plain).subrange(16 * bi, 16 * bi + 16)
                == pad_spec(plain).subrange(16 * bj, 16 * bj + 16) implies cipher_text@.subrange(
            16 * bi,
            16 * bi + 16,
        ) == cipher_text@.subrange(16 * bj, 16 * bj + 16) by {
            assert(pb[bi] == pad_spec(plain).subrange(16 * bi, 16 * bi + 16));
            assert(pb[bj] == pad_spec(plain).subrange(16 * bj, 16 * bj + 16));
            assert(cipher_text@.subrange(16 * bi, 16 * bi + 16) == group_spec(cipher_text@)[bi]);
            assert(cipher_text@.subrange(16 * bj, 16 * bj + 16) == group_spec(cipher_text@)[bj]);
            assert(cb[bi] == aes_enc_of(key@, pb[bi]));
            assert(cb[bj] == aes_enc_of(key@, pb[bj]));
        };
    }
    cipher_text
}

/// Cuts the block-aligned ciphertext into blocks, decrypts each block
/// independently under `key`, concatenates the results in order, and strips
/// the padding trailer.
pub fn ecb_decrypt(cipher_text: Vec<u8>, key: [u8; 16]) -> (plain_text: Vec<u8>)
    requires
        cipher_text@.len() % 16 == 0,
        cipher_text@.len() > 0,
    ensures
        plain_text@ == ecb_decrypt_spec(cipher_text@, key@),
{
    let ghost cipher = cipher_text@;
    let block_data = group(cipher_text);
    let ghost cb = blocks_view(block_data@);
    let mut plain_blocks: Vec<[u8; 16]> = Vec::new();
    let mut i: usize = 0;
    while i < block_data.len()
        invariant
            i <= block_data@.len(),
            plain_blocks@.len() == i,
            cb == blocks_view(block_data@),
            forall|j: int| 0 <= j < i ==> (#[trigger] plain_blocks@[j])@ == aes_dec_of(key@, cb[j]),
        decreases block_data@.len() - i,
    {
        let decrypted_block = aes_decrypt(block_data[i], &key);
        plain_blocks.push(decrypted_block);
        i = i + 1;
    }
    let decrypted = un_group(plain_blocks);
    proof {
        assert(blocks_view(plain_blocks@) =~~= group_spec(cipher).map_values(
            |b: Seq<u8>| aes_dec_of(key@, b),
        ));
        assert(decrypted@.len() > 0);
    }
    un_pad(decrypted)
}

} // verus!
