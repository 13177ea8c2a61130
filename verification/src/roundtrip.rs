//! Decoding inverts encoding.
//!
//! The encoder hands out symbols as bytes and the decoder takes text. The
//! two meet in the text whose UTF-8 bytes are those symbols: the string
//! that the symbols spell.

use vstd::prelude::*;
use vstd::utf8::encode_utf8;
use crate::alphabet::symbol_value;
use crate::decoder::decoding;
use crate::encoder::{encoding, lemma_encoding_in_alphabet};
use crate::length::spec_encoded_len;
use crate::regroup::{
    canonical_digits, lemma_bytes_of_canonical_digits, lemma_bytes_of_digits, to_digits,
    zero_padded,
};
use crate::text::{char_value, is_valid_text, lemma_symbol_prefix, text_digits};

verus! {

/// A text whose bytes are symbols holds just those symbols, and its digits
/// are their values.
pub proof fn lemma_text_of_symbols(text: Seq<char>, digits: Seq<nat>)
    requires
        encode_utf8(text).len() == digits.len(),
        forall|k: int|
            0 <= k < digits.len() ==> symbol_value(#[trigger] encode_utf8(text)[k]) == Some(
                digits[k],
            ),
    ensures
        is_valid_text(text),
        text_digits(text) == digits,
{
    let bytes = encode_utf8(text);
    lemma_symbol_prefix(text, bytes.len() as int);
    assert forall|i: int| 0 <= i < text.len() implies (#[trigger] char_value(text[i])) is Some by {
        assert(char_value(text[i]) == symbol_value(bytes[i]));
    }
    assert forall|i: int| 0 <= i < text.len() implies (#[trigger] text_digits(text)[i])
        == digits[i] by {
        assert(char_value(text[i]) == symbol_value(bytes[i]));
    }
    assert(text_digits(text) =~= digits);
}

/// Decoding inverts encoding: the text that the encoding of `data` spells
/// is valid, and decodes to `data` followed by the zeros that filled its
/// last group. So the first `data.len()` bytes of the result are `data`.
pub proof fn lemma_decode_inverts_encode(data: Seq<u8>, text: Seq<char>)
    requires
        encode_utf8(text) == encoding(data),
    ensures
        is_valid_text(text),
        decoding(text) == zero_padded(data),
        decoding(text).len() >= data.len(),
        decoding(text).subrange(0, data.len() as int) == data,
{
    lemma_encoding_in_alphabet(data);
    lemma_text_of_symbols(text, to_digits(data));
    lemma_bytes_of_digits(data);
}

/// Decoding inverts canonical encoding exactly: the text that the first
/// `spec_encoded_len(data.len())` symbols of the encoding spell is valid
/// and decodes to `data`.
pub proof fn lemma_decode_inverts_canonical(data: Seq<u8>, text: Seq<char>)
    requires
        encode_utf8(text) == encoding(data).subrange(0, spec_encoded_len(data.len()) as int),
    ensures
        is_valid_text(text),
        decoding(text) == data,
{
    lemma_encoding_in_alphabet(data);
    lemma_bytes_of_canonical_digits(data);
    let canonical = encoding(data).subrange(0, spec_encoded_len(data.len()) as int);
    assert forall|k: int| 0 <= k < canonical_digits(data).len() implies symbol_value(
        #[trigger] encode_utf8(text)[k],
    ) == Some(canonical_digits(data)[k]) by {
        assert(canonical[k] == encoding(data)[k]);
    }
    lemma_text_of_symbols(text, canonical_digits(data));
}

} // verus!
