//! The single-block cipher primitive, consumed as an opaque external
//! collaborator: AES-128 encrypts or decrypts exactly one 16-byte block
//! under a 16-byte key. This crate does not implement or verify the cipher
//! itself; it names its two results and trusts that decryption inverts
//! encryption, which is what defines a block cipher.

use aes::Aes128;
use aes::cipher::BlockDecrypt;
use aes::cipher::BlockEncrypt;
use aes::cipher::KeyInit;
use aes::cipher::generic_array::GenericArray;
use vstd::prelude::*;

verus! {

/// The block that AES-128 encryption produces for a given key and input
/// block: a fixed function of the two arguments alone, left undefined here.
pub uninterp spec fn aes_enc_of(key: Seq<u8>, block: Seq<u8>) -> Seq<u8>;

/// The block that AES-128 decryption produces for a given key and input
/// block: a fixed function of the two arguments alone, left undefined here.
pub uninterp spec fn aes_dec_of(key: Seq<u8>, block: Seq<u8>) -> Seq<u8>;

/// Relies on aes::Aes128 (cipher::BlockEncrypt::encrypt_block): a
/// deterministic keyed permutation of 16-byte blocks whose inverse under
/// the same key is cipher::BlockDecrypt::decrypt_block, so decrypting the
/// returned block gives back the input block.
#[verifier::external_body]
pub fn aes_encrypt(data: [u8; 16], key: &[u8; 16]) -> (r: [u8; 16])
    ensures
        r@ == aes_enc_of(key@, data@),
        aes_dec_of(key@, r@) == data@,
{
    let mut block = GenericArray::from(data);
    let key = GenericArray::from(*key);
    let cipher = Aes128::new(&key);
    cipher.encrypt_block(&mut block);
    block.into()
}

/// Relies on aes::Aes128 (cipher::BlockDecrypt::decrypt_block): the inverse
/// permutation of encrypt_block under the same key, so encrypting the
/// returned block gives back the input block.
#[verifier::external_body]
pub fn aes_decrypt(data: [u8; 16], key: &[u8; 16]) -> (r: [u8; 16])
    ensures
        r@ == aes_dec_of(key@, data@),
        aes_enc_of(key@, r@) == data@,
{
    let mut block = GenericArray::from(data);
    let key = GenericArray::from(*key);
    let cipher = Aes128::new(&key);
    cipher.decrypt_block(&mut block);
    block.into()
}

} // verus!
