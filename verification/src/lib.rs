//! Block-cipher modes of operation over a 16-byte block cipher.
//!
//! A fixed-block cipher encrypts exactly one block at a time; this crate
//! extends it to arbitrary-length messages. It provides a reversible,
//! length-indicating padding codec, a grouper that splits a byte sequence
//! into blocks, a byte-wise block XOR, a big-endian counter incrementer,
//! and three mode engines built from those pieces: ECB (each block encrypted
//! independently; insecure, kept as a negative example), CBC (each plaintext
//! block XORed with the previous ciphertext block before encryption), and
//! CTR (an incrementing counter is encrypted to form a keystream).

use vstd::prelude::*;

pub mod blocks;
pub mod cbc;
pub mod cipher;
pub mod ctr;
pub mod ecb;
pub mod padding;

pub use blocks::group;
pub use blocks::increment_counter;
pub use blocks::un_group;
pub use blocks::xor;
pub use cbc::cbc_decrypt;
pub use cbc::cbc_encrypt;
pub use ctr::ctr_decrypt;
pub use ctr::ctr_encrypt;
pub use ctr::ctr_encrypt_with_nonce;
pub use ecb::ecb_decrypt;
pub use ecb::ecb_encrypt;
pub use padding::pad;
pub use padding::un_pad;

verus! {

/// The cipher's block width in bytes (AES-128: 128-bit blocks).
pub const BLOCK_SIZE: usize = 16;

} // verus!
