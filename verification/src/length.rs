//! Exact length arithmetic for the 5-byte to 8-symbol block ratio.

use vstd::prelude::*;

verus! {

/// Number of symbols that the final, partial group of `rem` bytes contributes.
pub open spec fn tail_symbols(rem: nat) -> nat {
    if rem == 0 {
        0
    } else if rem == 1 {
        2
    } else if rem == 2 {
        4
    } else if rem == 3 {
        5
    } else {
        7
    }
}

/// Exact number of symbols that encode `n` bytes.
pub open spec fn spec_encoded_len(n: nat) -> nat {
    8 * (n / 5) + tail_symbols(n % 5)
}

/// Number of symbols in the whole blocks that hold the encoding of `n` bytes.
pub open spec fn spec_buffer_len(n: nat) -> nat {
    8 * ((n + 4) / 5)
}

/// Exact number of symbols that encode `len` bytes.
pub fn encoded_len(len: usize) -> (r: usize)
    requires
        spec_encoded_len(len as nat) <= usize::MAX,
    ensures
        r == spec_encoded_len(len as nat),
        len % 5 == 0 ==> r == 8 * (len / 5),
{
    let rem: usize = len % 5;
    let last_chunk: usize = if rem == 0 {
        0
    } else if rem == 1 {
        2
    } else if rem == 2 {
        4
    } else if rem == 3 {
        5
    } else {
        7
    };
    (len / 5) * 8 + last_chunk
}

/// Length of the buffer that holds the encoding of `len` bytes: whole blocks
/// of eight symbols.
pub fn encoded_buffer_len(len: usize) -> (r: usize)
    requires
        spec_buffer_len(len as nat) <= usize::MAX,
    ensures
        r == spec_buffer_len(len as nat),
        r % 8 == 0,
        r >= spec_encoded_len(len as nat),
{
    let blocks: usize = if len % 5 == 0 {
        len / 5
    } else {
        len / 5 + 1
    };
    blocks * 8
}

/// The buffer is made of whole blocks, and is the least number of whole
/// blocks that hold the encoding.
pub proof fn lemma_buffer_len(n: nat)
    ensures
        spec_buffer_len(n) % 8 == 0,
        spec_buffer_len(n) >= spec_encoded_len(n),
        spec_buffer_len(n) - spec_encoded_len(n) < 8,
{
}

/// Whole groups of five bytes take eight symbols each, and nothing more.
pub proof fn lemma_encoded_len_of_groups(k: nat)
    ensures
        spec_encoded_len(5 * k) == 8 * k,
        spec_buffer_len(5 * k) == 8 * k,
{
}

/// One more byte never takes fewer symbols.
pub proof fn lemma_encoded_len_monotonic(n: nat)
    ensures
        spec_encoded_len(n) <= spec_encoded_len(n + 1),
        spec_buffer_len(n) <= spec_buffer_len(n + 1),
{
}

} // verus!
