//! Encoding: bytes to symbols, five bytes to a block of eight.

use vstd::prelude::*;
use crate::alphabet::{
    alphabet, is_symbol, lemma_alphabet_bijective, symbol, symbol_value, ZERO_SYMBOL,
};
use crate::length::{encoded_buffer_len, spec_buffer_len, spec_encoded_len};
use crate::regroup::{
    block_word, byte_at, digit_of, group_value, lemma_digit_bound, lemma_padding_digits,
    lemma_word_fields, pack_bytes, to_digits, word_field,
};

verus! {

/// The symbols that encode `data`, in whole blocks: one symbol for each
/// digit of `to_digits(data)`. Where the last group of `data` is partial,
/// the symbols past `spec_encoded_len(data.len())` come from its zero
/// padding and are the symbol for zero.
pub open spec fn encoding(data: Seq<u8>) -> Seq<u8> {
    Seq::new(spec_buffer_len(data.len()), |k: int| symbol(to_digits(data)[k]))
}

/// The eight symbols for the five bytes of `block`.
pub open spec fn block_symbols(block: Seq<u8>) -> Seq<u8> {
    Seq::new(
        8,
        |p: int|
            symbol(
                digit_of(
                    pack_bytes(
                        block[0] as nat,
                        block[1] as nat,
                        block[2] as nat,
                        block[3] as nat,
                        block[4] as nat,
                    ),
                    p,
                ),
            ),
    )
}

/// The five bytes of group `g` of `data`, zero where `data` has ended.
pub open spec fn padded_group(data: Seq<u8>, g: int) -> Seq<u8> {
    Seq::new(5, |j: int| byte_at(data, 5 * g + j) as u8)
}

/// What encoding `data` into a buffer does to it: the buffer held `before`
/// and holds `after`. Each place gets the symbol for the digit of `data`
/// at that place; what the place held before plays no part.
pub open spec fn encoded_into(before: Seq<u8>, data: Seq<u8>, after: Seq<u8>) -> bool {
    &&& after.len() == before.len()
    &&& forall|k: int| 0 <= k < after.len() ==> #[trigger] after[k] == symbol(to_digits(data)[k])
}

/// Every digit of `data` is below 32.
pub proof fn lemma_digits_in_range(data: Seq<u8>)
    ensures
        to_digits(data).len() == spec_buffer_len(data.len()),
        forall|k: int| 0 <= k < to_digits(data).len() ==> #[trigger] to_digits(data)[k] < 32,
{
    assert forall|k: int| 0 <= k < to_digits(data).len() implies #[trigger] to_digits(data)[k]
        < 32 by {
        lemma_digit_bound(group_value(data, k / 8), k % 8);
    }
}

/// Every symbol of an encoding belongs to the alphabet, and stands for the
/// digit at its place.
pub proof fn lemma_encoding_in_alphabet(data: Seq<u8>)
    ensures
        encoding(data).len() == spec_buffer_len(data.len()),
        forall|k: int| 0 <= k < encoding(data).len() ==> is_symbol(#[trigger] encoding(data)[k]),
        forall|k: int|
            0 <= k < encoding(data).len() ==> symbol_value(#[trigger] encoding(data)[k]) == Some(
                to_digits(data)[k],
            ),
{
    lemma_alphabet_bijective();
    lemma_digits_in_range(data);
    assert forall|k: int| 0 <= k < encoding(data).len() implies symbol_value(
        #[trigger] encoding(data)[k],
    ) == Some(to_digits(data)[k]) by {
        assert(to_digits(data)[k] < 32);
        assert(encoding(data)[k] == symbol(to_digits(data)[k]));
    }
}

/// Past the canonical encoding, an encoding holds the symbol for zero and
/// nothing else.
pub proof fn lemma_encoding_padding(data: Seq<u8>)
    ensures
        spec_encoded_len(data.len()) <= encoding(data).len(),
        forall|k: int|
            spec_encoded_len(data.len()) <= k < encoding(data).len() ==> #[trigger] encoding(
                data,
            )[k] == ZERO_SYMBOL,
{
    assert forall|k: int|
        spec_encoded_len(data.len()) <= k < encoding(data).len() implies #[trigger] encoding(
        data,
    )[k] == ZERO_SYMBOL by {
        lemma_padding_digits(data, k);
    }
}

/// Encoding into a buffer gives what `encode` returns, whether the buffer
/// held zeros or anything else.
pub proof fn lemma_encode_into_matches_encode(data: Seq<u8>, before: Seq<u8>, after: Seq<u8>)
    requires
        before.len() == spec_buffer_len(data.len()),
        encoded_into(before, data, after),
    ensures
        after == encoding(data),
{
    assert(after =~= encoding(data));
}

/// The symbols of a block are those of the encoding at the block's place.
proof fn lemma_block_of_encoding(data: Seq<u8>, g: int, p: int)
    requires
        0 <= g,
        5 * g < data.len(),
        0 <= p < 8,
    ensures
        8 * g + p < spec_buffer_len(data.len()),
        encoding(data)[8 * g + p] == block_symbols(padded_group(data, g))[p],
{
    let k = 8 * g + p;
    assert(k / 8 == g && k % 8 == p);
    let block = padded_group(data, g);
    assert(group_value(data, g) == pack_bytes(
        block[0] as nat,
        block[1] as nat,
        block[2] as nat,
        block[3] as nat,
        block[4] as nat,
    ));
}

/// The eight symbols for `block`. The five bytes are held in the 40 high
/// bits of a word, and each symbol stands for the next five bits from the
/// top.
fn symbols_of_block(block: &[u8; 5]) -> (symbols: [u8; 8])
    ensures
        symbols@ == block_symbols(block@),
{
    let bits: u64 = (block[0] as u64) << 56 | (block[1] as u64) << 48 | (block[2] as u64) << 40
        | (block[3] as u64) << 32 | (block[4] as u64) << 24;
    proof {
        lemma_word_fields(block[0], block[1], block[2], block[3], block[4]);
        assert(bits == block_word(block[0], block[1], block[2], block[3], block[4]));
    }
    assert(word_field(bits, 0) < 32);
    let s0: u8 = alphabet(((bits >> 59) & 0x1F) as u8);
    assert(word_field(bits, 1) < 32);
    let s1: u8 = alphabet(((bits >> 54) & 0x1F) as u8);
    assert(word_field(bits, 2) < 32);
    let s2: u8 = alphabet(((bits >> 49) & 0x1F) as u8);
    assert(word_field(bits, 3) < 32);
    let s3: u8 = alphabet(((bits >> 44) & 0x1F) as u8);
    assert(word_field(bits, 4) < 32);
    let s4: u8 = alphabet(((bits >> 39) & 0x1F) as u8);
    assert(word_field(bits, 5) < 32);
    let s5: u8 = alphabet(((bits >> 34) & 0x1F) as u8);
    assert(word_field(bits, 6) < 32);
    let s6: u8 = alphabet(((bits >> 29) & 0x1F) as u8);
    assert(word_field(bits, 7) < 32);
    let s7: u8 = alphabet(((bits >> 24) & 0x1F) as u8);
    let symbols: [u8; 8] = [s0, s1, s2, s3, s4, s5, s6, s7];
    assert(symbols@ =~= block_symbols(block@));
    symbols
}

/// Writes the eight symbols for `block` into `out`, from `at` on, and
/// leaves the rest of `out` as it was.
pub fn encode_block(block: &[u8; 5], out: &mut [u8], at: usize)
    requires
        at + 8 <= old(out)@.len(),
    ensures
        final(out)@.len() == old(out)@.len(),
        forall|k: int| 0 <= k < at ==> final(out)@[k] == old(out)@[k],
        forall|k: int| at + 8 <= k < old(out)@.len() ==> final(out)@[k] == old(out)@[k],
        forall|p: int| 0 <= p < 8 ==> final(out)@[at + p] == block_symbols(block@)[p],
{
    let symbols = symbols_of_block(block);
    let mut p: usize = 0;
    while p < 8
        invariant
            p <= 8,
            at + 8 <= out.len(),
            out@.len() == old(out)@.len(),
            symbols@ == block_symbols(block@),
            forall|k: int| 0 <= k < at ==> out@[k] == old(out)@[k],
            forall|k: int| at + p <= k < out@.len() ==> out@[k] == old(out)@[k],
            forall|q: int| 0 <= q < p ==> out@[at + q] == symbols@[q],
        decreases 8 - p,
    {
        out[at + p] = symbols[p];
        p += 1;
    }
}

/// Reads group `g` of `data` into a block, with zeros for the bytes that a
/// last partial group lacks.
fn read_group(data: &[u8], g: usize) -> (block: [u8; 5])
    requires
        5 * g < data.len(),
    ensures
        block@ == padded_group(data@, g as int),
{
    let mut block: [u8; 5] = [0u8; 5];
    let start: usize = 5 * g;
    let mut j: usize = 0;
    while j < 5 && j < data.len() - start
        invariant
            start == 5 * g,
            start < data.len(),
            j <= 5,
            j <= data.len() - start,
            block@.len() == 5,
            forall|i: int| 0 <= i < j ==> block@[i] == data@[start + i],
            forall|i: int| j <= i < 5 ==> block@[i] == 0,
        decreases 5 - j,
    {
        block[j] = data[start + j];
        j += 1;
    }
    assert(block@ =~= padded_group(data@, g as int));
    block
}

/// Writes the encoding of `data` into `out`, which must hold exactly
/// `encoded_buffer_len(data.len())` bytes. What they were before plays no
/// part. Afterwards the first `encoded_len(data.len())` of them are the
/// canonical encoding, and the rest is padding with the symbol for zero.
pub fn encode_into(out: &mut [u8], data: &[u8])
    requires
        old(out)@.len() == spec_buffer_len(data@.len()),
    ensures
        final(out)@ == encoding(data@),
        encoded_into(old(out)@, data@, final(out)@),
        forall|k: int| 0 <= k < final(out)@.len() ==> is_symbol(#[trigger] final(out)@[k]),
        forall|k: int|
            spec_encoded_len(data@.len()) <= k < final(out)@.len() ==> #[trigger] final(out)@[k]
                == ZERO_SYMBOL,
{
    let blocks: usize = out.len() / 8;
    let mut g: usize = 0;
    while g < blocks
        invariant
            out@.len() == spec_buffer_len(data@.len()),
            out@.len() <= usize::MAX,
            8 * blocks == out@.len(),
            g <= blocks,
            forall|k: int| 0 <= k < 8 * g ==> out@[k] == encoding(data@)[k],
        decreases blocks - g,
    {
        let block = read_group(data, g);
        let ghost before = out@;
        encode_block(&block, out, 8 * g);
        proof {
            assert forall|k: int| 0 <= k < 8 * (g + 1) implies out@[k] == encoding(data@)[k] by {
                if k >= 8 * g {
                    let p = k - 8 * g;
                    lemma_block_of_encoding(data@, g as int, p);
                    assert(out@[8 * g + p] == block_symbols(block@)[p]);
                } else {
                    assert(out@[k] == before[k]);
                }
            }
        }
        g += 1;
    }
    proof {
        assert(out@ =~= encoding(data@));
        lemma_encoding_in_alphabet(data@);
        lemma_encoding_padding(data@);
    }
}

/// The encoding of `data`, in whole blocks: `encoded_buffer_len(data.len())`
/// symbols, of which the first `encoded_len(data.len())` are the canonical
/// encoding. The rest is padding: the symbol for zero, not a mark of its
/// own. A caller who wants the canonical encoding truncates.
///
/// The result is what `encode_into` leaves in a buffer of zeros.
pub fn encode(data: &[u8]) -> (r: Vec<u8>)
    requires
        spec_buffer_len(data@.len()) <= usize::MAX,
    ensures
        r@ == encoding(data@),
        r@.len() == spec_buffer_len(data@.len()),
        forall|k: int| 0 <= k < r@.len() ==> is_symbol(#[trigger] r@[k]),
        forall|k: int| spec_encoded_len(data@.len()) <= k < r@.len() ==> #[trigger] r@[k] == ZERO_SYMBOL,
{
    let mut output: Vec<u8> = vec![0u8; encoded_buffer_len(data.len())];
    encode_into(output.as_mut_slice(), data);
    output
}

} // verus!
