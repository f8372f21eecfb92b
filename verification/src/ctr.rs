//! Counter mode: a fresh random 16-byte nonce seeds a counter; encrypting
//! the counter under the key yields a keystream block that is XORed with
//! each message block, and the counter is incremented between blocks. The
//! nonce travels as the trailing block of the ciphertext.
//!
//! Both directions run the cipher forward only, so encrypting and
//! decrypting are the same transform. The whole 16-byte value is
//! incremented between blocks; no fixed nonce segment is kept aside, a
//! deliberate simplification of the classical nonce-and-counter split.

use crate::blocks::blocks_view;
use crate::blocks::group;
use crate::blocks::group_spec;
use crate::blocks::inc_spec;
use crate::blocks::increment_counter;
use crate::blocks::lemma_group_ungroup;
use crate::blocks::lemma_ungroup_group;
use crate::blocks::lemma_ungroup_len;
use crate::blocks::lemma_xor_involution;
use crate::blocks::un_group;
use crate::blocks::ungroup_spec;
use crate::blocks::xor;
use crate::blocks::xor_spec;
use crate::cipher::aes_enc_of;
use crate::cipher::aes_encrypt;
use crate::padding::lemma_un_pad_pad;
use crate::padding::pad;
use crate::padding::pad_spec;
use crate::padding::un_pad;
use crate::padding::un_pad_spec;
use rand::Rng;
use vstd::prelude::*;

verus! {

broadcast use vstd::array::group_array_axioms;

/// The counter after `n` increments.
pub open spec fn inc_n_spec(v: Seq<u8>, n: nat) -> Seq<u8>
    decreases n,
{
    if n == 0 {
        v
    } else {
        inc_n_spec(inc_spec(v), (n - 1) as nat)
    }
}

/// The CTR transform of `blocks` with counter `v`: block `i` XORed with the
/// encryption of the counter after `i` increments. Applying it twice with
/// the same key and starting counter gives the blocks back, which is why
/// encryption and decryption share it.
pub open spec fn ctr_blocks_spec(blocks: Seq<Seq<u8>>, key: Seq<u8>, v: Seq<u8>) -> Seq<Seq<u8>>
    decreases blocks.len(),
{
    if blocks.len() == 0 {
        Seq::empty()
    } else {
        seq![xor_spec(blocks.first(), aes_enc_of(key, v))] + ctr_blocks_spec(
            blocks.drop_first(),
            key,
            inc_spec(v),
        )
    }
}

/// The CTR ciphertext of `plain` under `key` with starting counter `nonce`:
/// the transformed padded blocks, then the nonce as the trailing block.
pub open spec fn ctr_encrypt_spec(plain: Seq<u8>, key: Seq<u8>, nonce: Seq<u8>) -> Seq<u8> {
    ungroup_spec(ctr_blocks_spec(group_spec(pad_spec(plain)), key, nonce)) + nonce
}

/// The CTR decryption of `cipher` under `key`: the trailing 16 bytes are
/// the nonce, the prefix is transformed with it, and the padding trailer is
/// stripped.
pub open spec fn ctr_decrypt_spec(cipher: Seq<u8>, key: Seq<u8>) -> Seq<u8>
    recommends
        cipher.len() >= 16,
{
    let nonce = cipher.skip(cipher.len() - 16);
    let body = cipher.take(cipher.len() - 16);
    un_pad_spec(ungroup_spec(ctr_blocks_spec(group_spec(body), key, nonce)))
}

/// One more increment extends the counter iteration by one step.
proof fn lemma_inc_n_snoc(v: Seq<u8>, n: nat)
    ensures
        inc_n_spec(v, n + 1) == inc_spec(inc_n_spec(v, n)),
    decreases n,
{
    if n == 0 {
        assert(inc_n_spec(v, 1) == inc_n_spec(inc_spec(v), 0));
        assert(inc_n_spec(inc_spec(v), 0) == inc_spec(v));
        assert(inc_n_spec(v, 0) == v);
    } else {
        lemma_inc_n_snoc(inc_spec(v), (n - 1) as nat);
        assert(inc_n_spec(v, n + 1) == inc_n_spec(inc_spec(v), n));
        assert(inc_n_spec(v, n) == inc_n_spec(inc_spec(v), (n - 1) as nat));
    }
}

/// Appending a block appends one transformed block, masked with the
/// keystream for the counter after as many increments as blocks before it.
proof fn lemma_ctr_snoc(blocks: Seq<Seq<u8>>, key: Seq<u8>, v: Seq<u8>, b: Seq<u8>)
    ensures
        ctr_blocks_spec(blocks.push(b), key, v) == ctr_blocks_spec(blocks, key, v).push(
            xor_spec(b, aes_enc_of(key, inc_n_spec(v, blocks.len()))),
        ),
    decreases blocks.len(),
{
    if blocks.len() == 0 {
        let e = xor_spec(b, aes_enc_of(key, v));
        assert(blocks.push(b).first() == b);
        assert(blocks.push(b).drop_first() =~= Seq::<Seq<u8>>::empty());
        assert(ctr_blocks_spec(blocks.push(b).drop_first(), key, inc_spec(v)) == Seq::<
            Seq<u8>,
        >::empty());
        assert(ctr_blocks_spec(blocks, key, v) == Seq::<Seq<u8>>::empty());
        assert(inc_n_spec(v, 0) == v);
        assert(ctr_blocks_spec(blocks.push(b), key, v) =~= Seq::<Seq<u8>>::empty().push(e));
    } else {
        let rest = blocks.drop_first();
        let c0 = xor_spec(blocks.first(), aes_enc_of(key, v));
        assert(blocks.push(b).first() == blocks.first());
        assert(blocks.push(b).drop_first() =~= rest.push(b));
        lemma_ctr_snoc(rest, key, inc_spec(v), b);
        let tail = ctr_blocks_spec(rest, key, inc_spec(v));
        let e = xor_spec(b, aes_enc_of(key, inc_n_spec(inc_spec(v), rest.len())));
        assert(ctr_blocks_spec(blocks.push(b), key, v) == seq![c0] + tail.push(e));
        assert(ctr_blocks_spec(blocks, key, v) == seq![c0] + tail);
        assert(inc_n_spec(v, blocks.len()) == inc_n_spec(inc_spec(v), rest.len()));
        assert(seq![c0] + tail.push(e) =~= (seq![c0] + tail).push(e));
    }
}

/// The transform keeps the count and the length of every block.
proof fn lemma_ctr_blocks_shape(blocks: Seq<Seq<u8>>, key: Seq<u8>, v: Seq<u8>)
    ensures
        ctr_blocks_spec(blocks, key, v).len() == blocks.len(),
        forall|i: int|
            0 <= i < blocks.len() ==> (#[trigger] ctr_blocks_spec(blocks, key, v)[i]).len()
                == blocks[i].len(),
    decreases blocks.len(),
{
    if blocks.len() > 0 {
        lemma_ctr_blocks_shape(blocks.drop_first(), key, inc_spec(v));
    }
}

/// The CTR transform undoes itself: applied twice with the same key and
/// starting counter it restores the original blocks, because each block is
/// XORed with the same keystream block both times.
pub proof fn lemma_ctr_involution(blocks: Seq<Seq<u8>>, key: Seq<u8>, v: Seq<u8>)
    ensures
        ctr_blocks_spec(ctr_blocks_spec(blocks, key, v), key, v) == blocks,
    decreases blocks.len(),
{
    let cb = ctr_blocks_spec(blocks, key, v);
    lemma_ctr_blocks_shape(blocks, key, v);
    if blocks.len() == 0 {
        assert(ctr_blocks_spec(cb, key, v) =~= blocks);
    } else {
        let ks = aes_enc_of(key, v);
        let c0 = xor_spec(blocks.first(), ks);
        assert(cb.first() == c0);
        assert(cb.drop_first() =~= ctr_blocks_spec(blocks.drop_first(), key, inc_spec(v)));
        lemma_ctr_involution(blocks.drop_first(), key, inc_spec(v));
        lemma_xor_involution(blocks.first(), ks);
        assert(xor_spec(cb.first(), ks) == blocks.first());
        assert(ctr_blocks_spec(cb, key, v) =~= blocks);
    }
}

/// Transforming then transforming again round-trips a whole message: the
/// decryption of the encryption of `plain` under the same key and nonce is
/// `plain` itself, whatever the nonce's value.
pub proof fn lemma_ctr_round_trip(plain: Seq<u8>, key: Seq<u8>, nonce: Seq<u8>)
    requires
        nonce.len() == 16,
    ensures
        ctr_decrypt_spec(ctr_encrypt_spec(plain, key, nonce), key) == plain,
{
    let pb = group_spec(pad_spec(plain));
    let cb = ctr_blocks_spec(pb, key, nonce);
    lemma_ctr_blocks_shape(pb, key, nonce);
    assert(pad_spec(plain).len() % 16 == 0);
    assert forall|i: int| 0 <= i < cb.len() implies (#[trigger] cb[i]).len() == 16 by {
        assert(cb[i].len() == pb[i].len());
    };
    lemma_ungroup_len(cb);
    let body = ungroup_spec(cb);
    let cipher = ctr_encrypt_spec(plain, key, nonce);
    assert(cipher.skip(cipher.len() - 16) =~= nonce);
    assert(cipher.take(cipher.len() - 16) =~= body);
    lemma_group_ungroup(cb);
    lemma_ctr_involution(pb, key, nonce);
    lemma_ungroup_group(pad_spec(plain));
    lemma_un_pad_pad(plain);
}

/// Relies on rand::thread_rng and rand::Rng::fill: fills the block with
/// bytes from the thread-local generator; nothing is promised of the
/// values, and two calls may differ.
#[verifier::external_body]
fn random_block() -> (r: [u8; 16]) {
    let mut nonce = [0u8; 16];
    rand::thread_rng().fill(&mut nonce[0..16]);
    nonce
}

/// Pads the message and applies the CTR transform under `key`, counting up
/// from the caller's `nonce`, then appends the nonce as the trailing block.
///
/// The contract also carries the round trip: decrypting the result recovers
/// the message exactly.
pub fn ctr_encrypt_with_nonce(plain_text: Vec<u8>, key: [u8; 16], nonce: [u8; 16]) -> (cipher_text:
    Vec<u8>)
    ensures
        cipher_text@ == ctr_encrypt_spec(plain_text@, key@, nonce@),
        cipher_text@.len() % 16 == 0,
        cipher_text@.len() >= 32,
        ctr_decrypt_spec(cipher_text@, key@) == plain_text@,
{
    let ghost plain = plain_text@;
    let padded_data = pad(plain_text);
    let block_data = group(padded_data);
    let ghost pb = blocks_view(block_data@);
    let mut cipher_blocks: Vec<[u8; 16]> = Vec::new();
    let mut v = nonce;
    let mut i: usize = 0;
    proof {
        assert(blocks_view(cipher_blocks@) =~= Seq::<Seq<u8>>::empty());
        assert(pb.take(0) =~= Seq::<Seq<u8>>::empty());
        assert(ctr_blocks_spec(pb.take(0), key@, nonce@) == Seq::<Seq<u8>>::empty());
        assert(inc_n_spec(nonce@, 0) == nonce@);
    }
    while i < block_data.len()
        invariant
            i <= block_data@.len(),
            cipher_blocks@.len() == i,
            pb == blocks_view(block_data@),
            blocks_view(cipher_blocks@) == ctr_blocks_spec(pb.take(i as int), key@, nonce@),
            v@ == inc_n_spec(nonce@, i as nat),
        decreases block_data@.len() - i,
    {
        let encrypted_v = aes_encrypt(v, &key);
        let xored_block = xor(block_data[i], encrypted_v);
        cipher_blocks.push(xored_block);
        increment_counter(&mut v);
        proof {
            lemma_ctr_snoc(pb.take(i as int), key@, nonce@, pb[i as int]);
            assert(pb.take(i + 1) =~= pb.take(i as int).push(pb[i as int]));
            assert(blocks_view(cipher_blocks@) =~= ctr_blocks_spec(pb.take(i + 1), key@, nonce@));
            lemma_inc_n_snoc(nonce@, i as nat);
        }
        i = i + 1;
    }
    let mut cipher_text = un_group(cipher_blocks);
    crate::blocks::append_block(&mut cipher_text, &nonce);
    proof {
        assert(pb.take(pb.len() as int) =~= pb);
        lemma_ctr_round_trip(plain, key@, nonce@);
    }
    cipher_text
}

/// Pads the message and applies the CTR transform under `key`, counting up
/// from a fresh random nonce, then appends that nonce as the trailing
/// block. The nonce is drawn from the external randomness source, so only
/// its existence is stated; decrypting the result recovers the message.
pub fn ctr_encrypt(plain_text: Vec<u8>, key: [u8; 16]) -> (cipher_text: Vec<u8>)
    ensures
        exists|nonce: Seq<u8>|
            nonce.len() == 16 && cipher_text@ == ctr_encrypt_spec(plain_text@, key@, nonce),
        cipher_text@.len() % 16 == 0,
        cipher_text@.len() >= 32,
        ctr_decrypt_spec(cipher_text@, key@) == plain_text@,
{
    let nonce = random_block();
    let cipher_text = ctr_encrypt_with_nonce(plain_text, key, nonce);
    proof {
        assert(nonce@.len() == 16 && cipher_text@ == ctr_encrypt_spec(
            plain_text@,
            key@,
            nonce@,
        ));
    }
    cipher_text
}

/// Splits off the trailing nonce block, applies the CTR transform to the
/// remaining blocks under `key` counting up from that nonce, and strips the
/// padding trailer.
pub fn ctr_decrypt(cipher_text: Vec<u8>, key: [u8; 16]) -> (plain_text: Vec<u8>)
    requires
        cipher_text@.len() % 16 == 0,
        cipher_text@.len() >= 32,
    ensures
        plain_text@ == ctr_decrypt_spec(cipher_text@, key@),
{
    let ghost cipher = cipher_text@;
    let mut nonce = [0u8; 16];
    let body_len = cipher_text.len() - 16;
    let mut j: usize = 0;
    while j < 16
        invariant
            j <= 16,
            body_len + 16 == cipher.len(),
            cipher.len() <= usize::MAX,
            cipher_text@ == cipher,
            forall|k: int| 0 <= k < j ==> nonce@[k] == cipher[body_len + k],
        decreases 16 - j,
    {
        nonce[j] = cipher_text[body_len + j];
        j = j + 1;
    }
    assert(nonce@ =~= cipher.skip(cipher.len() - 16));
    let mut cipher_text = cipher_text;
    cipher_text.truncate(body_len);
    assert(cipher_text@ == cipher.take(cipher.len() - 16));
    let block_data = group(cipher_text);
    let ghost cb = blocks_view(block_data@);
    let mut plain_blocks: Vec<[u8; 16]> = Vec::new();
    let mut v = nonce;
    let mut i: usize = 0;
    proof {
        assert(blocks_view(plain_blocks@) =~= Seq::<Seq<u8>>::empty());
        assert(cb.take(0) =~= Seq::<Seq<u8>>::empty());
        assert(ctr_blocks_spec(cb.take(0), key@, nonce@) == Seq::<Seq<u8>>::empty());
        assert(inc_n_spec(nonce@, 0) == nonce@);
    }
    while i < block_data.len()
        invariant
            i <= block_data@.len(),
            plain_blocks@.len() == i,
            cb == blocks_view(block_data@),
            blocks_view(plain_blocks@) == ctr_blocks_spec(cb.take(i as int), key@, nonce@),
            v@ == inc_n_spec(nonce@, i as nat),
        decreases block_data@.len() - i,
    {
        let encrypted_v = aes_encrypt(v, &key);
        let xored_block = xor(block_data[i], encrypted_v);
        plain_blocks.push(xored_block);
        increment_counter(&mut v);
        proof {
            lemma_ctr_snoc(cb.take(i as int), key@, nonce@, cb[i as int]);
            assert(cb.take(i + 1) =~= cb.take(i as int).push(cb[i as int]));
            assert(blocks_view(plain_blocks@) =~= ctr_blocks_spec(cb.take(i + 1), key@, nonce@));
            lemma_inc_n_snoc(nonce@, i as nat);
        }
        i = i + 1;
    }
    let decrypted = un_group(plain_blocks);
    proof {
        assert(cb.take(cb.len() as int) =~= cb);
        assert(decrypted@.len() > 0);
    }
    un_pad(decrypted)
}

} // verus!
