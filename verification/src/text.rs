//! Text as the decoder sees it: characters on the outside, their UTF-8
//! bytes on the inside.
//!
//! Every symbol is an ASCII character and takes one byte. So as long as a
//! text holds symbols only, its bytes and its characters stand at the same
//! places, and the first byte that is no symbol begins the first character
//! that is none.

use vstd::prelude::*;
use vstd::utf8::{
    char_is_scalar, encode_scalar, encode_utf8, has_width_1_encoding, has_width_2_encoding,
    has_width_3_encoding,
};
use crate::alphabet::{lemma_alphabet_bijective, symbol_value};

verus! {

/// The value that `c` stands for, if it is a symbol.
pub open spec fn char_value(c: char) -> Option<nat> {
    if (c as u32) < 0x80 {
        symbol_value(c as u8)
    } else {
        None
    }
}

/// Whether `text` holds symbols only.
pub open spec fn is_valid_text(text: Seq<char>) -> bool {
    forall|i: int| 0 <= i < text.len() ==> (#[trigger] char_value(text[i])) is Some
}

/// Whether `position` is where the first character of `text` stands that
/// is no symbol.
pub open spec fn is_first_invalid(text: Seq<char>, position: int) -> bool {
    &&& 0 <= position < text.len()
    &&& char_value(text[position]) is None
    &&& forall|i: int| 0 <= i < position ==> (#[trigger] char_value(text[i])) is Some
}

/// The digits that the symbols of `text` stand for, zero where a character
/// is no symbol.
pub open spec fn text_digits(text: Seq<char>) -> Seq<nat> {
    Seq::new(
        text.len(),
        |i: int|
            match char_value(text[i]) {
                Some(v) => v,
                None => 0,
            },
    )
}

/// A text is valid or has a first character that is no symbol, not both,
/// and that character stands at one place only.
pub proof fn lemma_first_invalid(text: Seq<char>)
    ensures
        is_valid_text(text) <==> !exists|p: int| is_first_invalid(text, p),
        forall|p: int, q: int|
            is_first_invalid(text, p) && is_first_invalid(text, q) ==> p == q,
{
    if !is_valid_text(text) {
        let i = choose|i: int| 0 <= i < text.len() && char_value(text[i]) is None;
        lemma_first_invalid_before(text, i);
    }
}

/// Where some character up to the place `i` is no symbol, there is a first
/// such character.
proof fn lemma_first_invalid_before(text: Seq<char>, i: int)
    requires
        0 <= i < text.len(),
        char_value(text[i]) is None,
    ensures
        exists|p: int| is_first_invalid(text, p),
    decreases i,
{
    if exists|j: int| 0 <= j < i && char_value(text[j]) is None {
        let j = choose|j: int| 0 <= j < i && char_value(text[j]) is None;
        lemma_first_invalid_before(text, j);
    } else {
        assert(is_first_invalid(text, i));
    }
}

/// The first byte of a character's UTF-8 form: the character itself if it
/// is ASCII, and no ASCII byte otherwise.
proof fn lemma_first_byte(c: char)
    ensures
        encode_scalar(c as u32).len() >= 1,
        (c as u32) < 0x80 ==> encode_scalar(c as u32) == seq![c as u8],
        (c as u32) >= 0x80 ==> encode_scalar(c as u32)[0] >= 0x80,
{
    let s: u32 = c as u32;
    char_is_scalar(c);
    if has_width_1_encoding(s) {
        assert((s & 0x7F) as u8 == s as u8) by (bit_vector)
            requires
                s <= 0x7F,
        ;
        assert(s as u8 == c as u8);
    } else if has_width_2_encoding(s) {
        assert(0xC0u8 | ((s >> 6) & 0x1F) as u8 >= 0x80) by (bit_vector);
    } else if has_width_3_encoding(s) {
        assert(0xE0u8 | ((s >> 12) & 0x0F) as u8 >= 0x80) by (bit_vector);
    } else {
        assert(0xF0u8 | ((s >> 18) & 0x7) as u8 >= 0x80) by (bit_vector);
    }
}

/// Every symbol is an ASCII byte.
pub proof fn lemma_symbols_are_ascii(byte: u8)
    requires
        symbol_value(byte) is Some,
    ensures
        byte < 0x80,
{
    lemma_alphabet_bijective();
}

/// Where the first `m` bytes of a text are symbols, its first `m`
/// characters are those symbols, and the byte after them, if there is one,
/// tells whether the character after them is a symbol.
pub proof fn lemma_symbol_prefix(text: Seq<char>, m: int)
    requires
        0 <= m <= encode_utf8(text).len(),
        forall|j: int| 0 <= j < m ==> symbol_value(#[trigger] encode_utf8(text)[j]) is Some,
    ensures
        m <= text.len(),
        forall|j: int|
            0 <= j < m ==> char_value(#[trigger] text[j]) == symbol_value(encode_utf8(text)[j]),
        m == encode_utf8(text).len() ==> text.len() == m,
        m < encode_utf8(text).len() ==> m < text.len() && char_value(text[m]) == symbol_value(
            encode_utf8(text)[m],
        ),
    decreases text.len(),
{
    let bytes = encode_utf8(text);
    if text.len() == 0 {
    } else {
        let rest = text.drop_first();
        let head = encode_scalar(text[0] as u32);
        assert(bytes == head + encode_utf8(rest));
        lemma_first_byte(text[0]);
        assert(bytes[0] == head[0]);
        if (text[0] as u32) >= 0x80 {
            if symbol_value(bytes[0]) is Some {
                lemma_symbols_are_ascii(bytes[0]);
            }
        }
        if m > 0 {
            assert(symbol_value(bytes[0]) is Some);
            assert(head == seq![text[0] as u8]);
            assert forall|j: int| 0 <= j < m - 1 implies symbol_value(
                #[trigger] encode_utf8(rest)[j],
            ) is Some by {
                assert(encode_utf8(rest)[j] == bytes[j + 1]);
            }
            lemma_symbol_prefix(rest, m - 1);
            assert forall|j: int| 0 <= j < m implies char_value(#[trigger] text[j])
                == symbol_value(bytes[j]) by {
                if j > 0 {
                    assert(text[j] == rest[j - 1]);
                    assert(bytes[j] == encode_utf8(rest)[j - 1]);
                }
            }
            if m < bytes.len() {
                assert(text[m] == rest[m - 1]);
                assert(bytes[m] == encode_utf8(rest)[m - 1]);
            }
        }
    }
}

} // verus!
