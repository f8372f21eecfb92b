//! Reversible, length-indicating padding.
//!
//! `pad` appends `r = BLOCK_SIZE - len % BLOCK_SIZE` bytes, each of value
//! `r`, so the result is block-aligned and the trailer always names its own
//! length (`r` is never 0: an already-aligned message gains a full block).
//! `un_pad` reads the last byte and strips that many bytes; a trailer whose
//! count is 0 or larger than the buffer is left in place unchanged.

use vstd::prelude::*;

verus! {

/// The padded form of `data`: `data` followed by `r` copies of the byte `r`,
/// where `r` is the distance (in 1..=16) to the next block boundary.
pub open spec fn pad_spec(data: Seq<u8>) -> Seq<u8> {
    let r = 16 - data.len() % 16;
    data + Seq::new(r as nat, |i: int| r as u8)
}

/// The unpadded form of `data`: if the last byte `n` is a plausible trailer
/// length (`1 <= n <= len`), the last `n` bytes are removed; otherwise
/// `data` is returned unchanged.
pub open spec fn un_pad_spec(data: Seq<u8>) -> Seq<u8>
    recommends
        data.len() > 0,
{
    let n = data.last() as int;
    if 1 <= n <= data.len() {
        data.take(data.len() - n)
    } else {
        data
    }
}

/// Padding always lands on a block boundary and always adds between 1 and
/// 16 bytes, so there is always a trailer to strip.
pub proof fn lemma_pad_len(data: Seq<u8>)
    ensures
        pad_spec(data).len() % 16 == 0,
        pad_spec(data).len() > data.len(),
        pad_spec(data).len() <= data.len() + 16,
{
}

/// On a block-aligned message (the empty message included) `pad` appends one
/// whole block of bytes each equal to the block size.
pub proof fn lemma_pad_full_block(data: Seq<u8>)
    requires
        data.len() % 16 == 0,
    ensures
        pad_spec(data) == data + Seq::new(16, |i: int| 16u8),
{
    assert(pad_spec(data) =~= data + Seq::new(16, |i: int| 16u8));
}

/// Stripping immediately after padding recovers the original message
/// exactly, whatever its length.
pub proof fn lemma_un_pad_pad(data: Seq<u8>)
    ensures
        un_pad_spec(pad_spec(data)) == data,
{
    let r = 16 - data.len() % 16;
    let padded = pad_spec(data);
    assert(padded.last() == r as u8);
    assert(un_pad_spec(padded) =~= data);
}

/// Appends `r = 16 - len % 16` bytes of value `r`; the result is the
/// block-aligned `pad_spec` image of the input.
pub fn pad(data: Vec<u8>) -> (padded: Vec<u8>)
    ensures
        padded@ == pad_spec(data@),
        padded@.len() % 16 == 0,
        data@.len() < padded@.len() <= data@.len() + 16,
{
    let mut data = data;
    let number_pad_bytes = crate::BLOCK_SIZE - data.len() % crate::BLOCK_SIZE;
    let ghost orig = data@;
    let mut k: usize = 0;
    while k < number_pad_bytes
        invariant
            1 <= number_pad_bytes <= 16,
            number_pad_bytes == 16 - orig.len() % 16,
            k <= number_pad_bytes,
            data@ == orig + Seq::new(k as nat, |i: int| number_pad_bytes as u8),
        decreases number_pad_bytes - k,
    {
        data.push(number_pad_bytes as u8);
        k = k + 1;
        assert(data@ =~= orig + Seq::new(k as nat, |i: int| number_pad_bytes as u8));
    }
    assert(data@ =~= pad_spec(orig));
    data
}

/// Reads the trailer length from the last byte and strips that many bytes;
/// an implausible trailer (0, or longer than the data) is left untouched.
pub fn un_pad(data: Vec<u8>) -> (unpadded: Vec<u8>)
    requires
        data@.len() > 0,
    ensures
        unpadded@ == un_pad_spec(data@),
{
    let ghost orig = data@;
    let number_pad_bytes = data[data.len() - 1] as usize;
    let mut data = data;
    if number_pad_bytes <= data.len() && number_pad_bytes > 0 {
        let new_len = data.len() - number_pad_bytes;
        data.truncate(new_len);
        assert(data@ =~= un_pad_spec(orig));
    }
    data
}

} // verus!
