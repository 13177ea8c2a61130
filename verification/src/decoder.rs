//! Decoding: symbols to bytes, a block of eight to five bytes, with the
//! first character that is no symbol reported where it stands.

use vstd::prelude::*;
use vstd::utf8::encode_utf8;
use crate::alphabet::{is_symbol, lemma_alphabet_bijective, symbol_value, value_of, ZERO_SYMBOL};
use crate::error::InvalidBase32Error;
use crate::regroup::{
    byte_of, digit_at, digits_byte, lemma_digits_bytes, octet_value, pack_digits,
    spec_decoded_len, to_bytes,
};
use crate::text::{
    char_value, is_first_invalid, is_valid_text, lemma_symbol_prefix, text_digits,
};

verus! {

/// The bytes that `text` decodes to, where it holds symbols only: the whole
/// bytes among the bits of its digits.
pub open spec fn decoding(text: Seq<char>) -> Seq<u8> {
    to_bytes(text_digits(text))
}

/// The digit that `byte` stands for, zero where it is no symbol.
pub open spec fn byte_digit(byte: u8) -> nat {
    match symbol_value(byte) {
        Some(v) => v,
        None => 0,
    }
}

/// The five bytes that the eight symbols of `chunk` hold.
pub open spec fn block_bytes(chunk: Seq<u8>) -> Seq<u8> {
    Seq::new(
        5,
        |j: int|
            byte_of(
                pack_digits(
                    byte_digit(chunk[0]),
                    byte_digit(chunk[1]),
                    byte_digit(chunk[2]),
                    byte_digit(chunk[3]),
                    byte_digit(chunk[4]),
                    byte_digit(chunk[5]),
                    byte_digit(chunk[6]),
                    byte_digit(chunk[7]),
                ),
                j,
            ) as u8,
    )
}

/// The digits that the symbols among `bytes` stand for.
pub open spec fn bytes_digits(bytes: Seq<u8>) -> Seq<nat> {
    Seq::new(bytes.len(), |i: int| byte_digit(bytes[i]))
}

/// The eight bytes of chunk `g` of `bytes`, with the symbol for zero where
/// `bytes` has ended.
pub open spec fn padded_chunk(bytes: Seq<u8>, g: int) -> Seq<u8> {
    Seq::new(
        8,
        |p: int|
            if 8 * g + p < bytes.len() {
                bytes[8 * g + p]
            } else {
                ZERO_SYMBOL
            },
    )
}

/// Whether the first `m` of `bytes`, or all of them if they are fewer, are
/// symbols.
pub open spec fn symbols_up_to(bytes: Seq<u8>, m: int) -> bool {
    forall|j: int| 0 <= j < m && j < bytes.len() ==> is_symbol(#[trigger] bytes[j])
}

/// Whether `out` holds what the first `g` chunks of `bytes` decode to.
pub open spec fn decoded_chunks(bytes: Seq<u8>, g: int, out: Seq<u8>) -> bool {
    &&& out.len() == 5 * g
    &&& forall|k: int|
        0 <= k < 5 * g ==> (#[trigger] out[k]) == byte_of(
            octet_value(bytes_digits(bytes), k / 5),
            k % 5,
        ) as u8
}

/// The bytes of a padded chunk are those of the digits at the chunk's
/// place.
proof fn lemma_chunk_of_digits(bytes: Seq<u8>, g: int, j: int)
    requires
        0 <= g,
        0 <= j < 5,
    ensures
        block_bytes(padded_chunk(bytes, g))[j] == byte_of(
            octet_value(bytes_digits(bytes), g),
            j,
        ) as u8,
{
    lemma_alphabet_bijective();
    let chunk = padded_chunk(bytes, g);
    let digits = bytes_digits(bytes);
    assert forall|p: int| 0 <= p < 8 implies byte_digit(#[trigger] chunk[p]) == digit_at(
        digits,
        8 * g + p,
    ) by {}
    assert(byte_digit(chunk[0]) == digit_at(digits, 8 * g));
}

/// One more chunk of symbols decoded: what was appended is what the chunk
/// decodes to.
proof fn lemma_chunk_decoded(bytes: Seq<u8>, g: int, before: Seq<u8>, after: Seq<u8>)
    requires
        0 <= g,
        symbols_up_to(bytes, 8 * g),
        decoded_chunks(bytes, g, before),
        forall|p: int| 0 <= p < 8 ==> is_symbol(#[trigger] padded_chunk(bytes, g)[p]),
        after == before + block_bytes(padded_chunk(bytes, g)),
    ensures
        symbols_up_to(bytes, 8 * (g + 1)),
        decoded_chunks(bytes, g + 1, after),
{
    let chunk = padded_chunk(bytes, g);
    assert forall|j: int| 0 <= j < 8 * (g + 1) && j < bytes.len() implies is_symbol(
        #[trigger] bytes[j],
    ) by {
        if j >= 8 * g {
            assert(chunk[j - 8 * g] == bytes[j]);
        }
    }
    assert forall|k: int| 0 <= k < 5 * (g + 1) implies (#[trigger] after[k]) == byte_of(
        octet_value(bytes_digits(bytes), k / 5),
        k % 5,
    ) as u8 by {
        if k >= 5 * g {
            let j = k - 5 * g;
            assert(k / 5 == g && k % 5 == j);
            lemma_chunk_of_digits(bytes, g, j);
            assert(after[k] == block_bytes(chunk)[j]);
        } else {
            assert(after[k] == before[k]);
        }
    }
}

/// A chunk with a byte that is no symbol: the first such byte begins the
/// first character of the text that is no symbol, and stands where that
/// character stands.
proof fn lemma_chunk_invalid(text: Seq<char>, g: int, p: int)
    requires
        0 <= g,
        symbols_up_to(encode_utf8(text), 8 * g),
        0 <= p < 8,
        !is_symbol(padded_chunk(encode_utf8(text), g)[p]),
        forall|q: int| 0 <= q < p ==> is_symbol(#[trigger] padded_chunk(encode_utf8(text), g)[q]),
    ensures
        8 * g + p < encode_utf8(text).len(),
        is_first_invalid(text, 8 * g + p),
        !is_valid_text(text),
{
    let bytes = encode_utf8(text);
    let chunk = padded_chunk(bytes, g);
    let position = 8 * g + p;
    lemma_alphabet_bijective();
    assert(position < bytes.len());
    assert(chunk[p] == bytes[position]);
    assert forall|j: int| 0 <= j < position implies symbol_value(#[trigger] bytes[j]) is Some by {
        if j >= 8 * g {
            assert(chunk[j - 8 * g] == bytes[j]);
            assert(is_symbol(chunk[j - 8 * g]));
        } else {
            assert(is_symbol(bytes[j]));
        }
    }
    lemma_symbol_prefix(text, position);
}

/// All chunks decoded: the text is valid, and the bytes that hold whole
/// bytes of it are what it decodes to.
proof fn lemma_all_decoded(text: Seq<char>, chunks: int, out: Seq<u8>)
    requires
        chunks == (encode_utf8(text).len() + 7) / 8,
        symbols_up_to(encode_utf8(text), 8 * chunks),
        decoded_chunks(encode_utf8(text), chunks, out),
    ensures
        is_valid_text(text),
        text.len() == encode_utf8(text).len(),
        spec_decoded_len(text.len()) <= out.len(),
        out.subrange(0, spec_decoded_len(text.len()) as int) == decoding(text),
{
    let bytes = encode_utf8(text);
    assert forall|j: int| 0 <= j < bytes.len() implies symbol_value(#[trigger] bytes[j]) is Some by {
        assert(is_symbol(bytes[j]));
    }
    lemma_symbol_prefix(text, bytes.len() as int);
    assert forall|i: int| 0 <= i < text.len() implies (#[trigger] char_value(text[i])) is Some by {
        assert(char_value(text[i]) == symbol_value(bytes[i]));
    }
    assert(text_digits(text) =~= bytes_digits(bytes)) by {
        assert forall|i: int| 0 <= i < text.len() implies text_digits(text)[i] == bytes_digits(
            bytes,
        )[i] by {
            assert(char_value(text[i]) == symbol_value(bytes[i]));
        }
    }
    assert(out.subrange(0, spec_decoded_len(text.len()) as int) =~= decoding(text));
}

/// Decodes one block. Where all eight bytes of `chunk` are symbols, the
/// five bytes they hold are appended to `out`. Otherwise `out` stays as it
/// was, and the error is the place in `chunk` of the first byte that is no
/// symbol.
pub fn decode_block(chunk: &[u8; 8], out: &mut Vec<u8>) -> (r: Result<(), usize>)
    ensures
        match r {
            Ok(()) => {
                &&& forall|p: int| 0 <= p < 8 ==> is_symbol(#[trigger] chunk@[p])
                &&& final(out)@ == old(out)@ + block_bytes(chunk@)
            },
            Err(p) => {
                &&& p < 8
                &&& !is_symbol(chunk@[p as int])
                &&& forall|q: int| 0 <= q < p ==> is_symbol(#[trigger] chunk@[q])
                &&& final(out)@ == old(out)@
            },
        },
{
    let mut indices: [u8; 8] = [0u8; 8];
    let mut i: usize = 0;
    while i < 8
        invariant
            i <= 8,
            indices@.len() == 8,
            forall|q: int| 0 <= q < i ==> is_symbol(#[trigger] chunk@[q]),
            forall|q: int|
                0 <= q < i ==> indices@[q] < 32 && (#[trigger] indices@[q]) as nat == byte_digit(
                    chunk@[q],
                ),
        decreases 8 - i,
    {
        match value_of(chunk[i]) {
            Some(index) => {
                indices[i] = index;
            },
            None => {
                return Err(i);
            },
        }
        i += 1;
    }
    proof {
        lemma_digits_bytes(
            indices[0],
            indices[1],
            indices[2],
            indices[3],
            indices[4],
            indices[5],
            indices[6],
            indices[7],
        );
    }
    let ghost before = out@;
    let ghost d = indices@;
    assert(digits_byte(d[0], d[1], d[2], d[3], d[4], d[5], d[6], d[7], 0) == block_bytes(
        chunk@,
    )[0]);
    assert(digits_byte(d[0], d[1], d[2], d[3], d[4], d[5], d[6], d[7], 1) == block_bytes(
        chunk@,
    )[1]);
    assert(digits_byte(d[0], d[1], d[2], d[3], d[4], d[5], d[6], d[7], 2) == block_bytes(
        chunk@,
    )[2]);
    assert(digits_byte(d[0], d[1], d[2], d[3], d[4], d[5], d[6], d[7], 3) == block_bytes(
        chunk@,
    )[3]);
    assert(digits_byte(d[0], d[1], d[2], d[3], d[4], d[5], d[6], d[7], 4) == block_bytes(
        chunk@,
    )[4]);
    out.push((indices[0] << 3) | (indices[1] >> 2));
    out.push((indices[1] << 6) | (indices[2] << 1) | (indices[3] >> 4));
    out.push((indices[3] << 4) | (indices[4] >> 1));
    out.push((indices[4] << 7) | (indices[5] << 2) | (indices[6] >> 3));
    out.push((indices[6] << 5) | indices[7]);
    assert(out@ =~= before + block_bytes(chunk@));
    Ok(())
}

/// Reads chunk `g` of `bytes`, filling what a last partial chunk lacks
/// with the symbol for zero.
fn read_chunk(bytes: &[u8], g: usize) -> (chunk: [u8; 8])
    requires
        8 * g < bytes.len(),
    ensures
        chunk@ == padded_chunk(bytes@, g as int),
{
    let mut chunk: [u8; 8] = [ZERO_SYMBOL; 8];
    let start: usize = 8 * g;
    let mut p: usize = 0;
    while p < 8 && p < bytes.len() - start
        invariant
            start == 8 * g,
            start < bytes.len(),
            p <= 8,
            p <= bytes.len() - start,
            chunk@.len() == 8,
            forall|i: int| 0 <= i < p ==> chunk@[i] == bytes@[start + i],
            forall|i: int| p <= i < 8 ==> chunk@[i] == ZERO_SYMBOL,
        decreases 8 - p,
    {
        chunk[p] = bytes[start + p];
        p += 1;
    }
    assert(chunk@ =~= padded_chunk(bytes@, g as int));
    chunk
}

/// The error for the character of `data` at `position`.
fn invalid_input(data: &str, position: usize) -> (e: InvalidBase32Error)
    requires
        position < data@.len(),
    ensures
        e.character == data@[position as int],
        e.position == position,
        e.string@ == data@,
{
    InvalidBase32Error {
        character: data.get_char(position),
        position,
        string: data.to_owned(),
    }
}

/// Decodes `data`. Where it holds symbols only, the result is the whole
/// bytes among the bits of its digits: `data.len() * 5 / 8` of them. What a
/// last partial block lacks counts as zero and decodes to nothing.
/// Otherwise the error names the first character that is no symbol, where
/// it stands, counted in characters, and the whole input.
pub fn decode(data: &str) -> (r: Result<Vec<u8>, InvalidBase32Error>)
    ensures
        match r {
            Ok(bytes) => {
                &&& is_valid_text(data@)
                &&& bytes@ == decoding(data@)
                &&& bytes@.len() == spec_decoded_len(data@.len())
            },
            Err(e) => {
                &&& !is_valid_text(data@)
                &&& is_first_invalid(data@, e.position as int)
                &&& e.character == data@[e.position as int]
                &&& e.string@ == data@
            },
        },
{
    let data_bytes = data.as_bytes();
    let n: usize = data_bytes.len();
    let out_length: usize = (n / 8) * 5 + (n % 8) * 5 / 8;
    let chunks: usize = if n % 8 == 0 {
        n / 8
    } else {
        n / 8 + 1
    };
    let mut out: Vec<u8> = Vec::with_capacity(out_length);
    let mut g: usize = 0;
    while g < chunks
        invariant
            data_bytes@ == encode_utf8(data@),
            n == data_bytes@.len(),
            chunks == (n + 7) / 8,
            g <= chunks,
            symbols_up_to(data_bytes@, 8 * g),
            decoded_chunks(data_bytes@, g as int, out@),
        decreases chunks - g,
    {
        let chunk = read_chunk(data_bytes, g);
        let ghost before = out@;
        match decode_block(&chunk, &mut out) {
            Ok(()) => {
                proof {
                    lemma_chunk_decoded(data_bytes@, g as int, before, out@);
                }
            },
            Err(p) => {
                proof {
                    lemma_chunk_invalid(data@, g as int, p as int);
                }
                return Err(invalid_input(data, 8 * g + p));
            },
        }
        g += 1;
    }
    proof {
        lemma_all_decoded(data@, chunks as int, out@);
        assert(out_length == spec_decoded_len(n as nat));
    }
    out.truncate(out_length);
    Ok(out)
}

} // verus!
