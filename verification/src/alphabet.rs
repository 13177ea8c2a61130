//! The alphabet: digits and lowercase letters without `i`, `l`, `o` and `u`.
//!
//! Thirty-two distinct ASCII symbols stand for the values 0 to 31. The table
//! that inverts the alphabet covers every byte value, and marks the bytes
//! that are no symbol.

use vstd::prelude::*;

verus! {

/// The symbols in the order of their values: `0123456789abcdefghjkmnpqrstvwxyz`.
pub const ALPHABET: [u8; 32] = [
    0x30, 0x31, 0x32, 0x33, 0x34, 0x35, 0x36, 0x37,
    0x38, 0x39, 0x61, 0x62, 0x63, 0x64, 0x65, 0x66,
    0x67, 0x68, 0x6A, 0x6B, 0x6D, 0x6E, 0x70, 0x71,
    0x72, 0x73, 0x74, 0x76, 0x77, 0x78, 0x79, 0x7A,
];

/// The symbol for zero, `0`. It fills what a last partial block lacks.
pub const ZERO_SYMBOL: u8 = 0x30;

/// What `DECODE_TABLE` holds for a byte that is no symbol.
pub const INVALID: u8 = 0xFF;

/// For each byte value, the value of the symbol it is, or `INVALID`.
pub const DECODE_TABLE: [u8; 256] = [
    0xFF, 0xFF, 0xFF, 0xFF, 0xFF, 0xFF, 0xFF, 0xFF, 0xFF, 0xFF, 0xFF, 0xFF, 0xFF, 0xFF, 0xFF, 0xFF,
    0xFF, 0xFF, 0xFF, 0xFF, 0xFF, 0xFF, 0xFF, 0xFF, 0xFF, 0xFF, 0xFF, 0xFF, 0xFF, 0xFF, 0xFF, 0xFF,
    0xFF, 0xFF, 0xFF, 0xFF, 0xFF, 0xFF, 0xFF, 0xFF, 0xFF, 0xFF, 0xFF, 0xFF, 0xFF, 0xFF, 0xFF, 0xFF,
    0x00, 0x01, 0x02, 0x03, 0x04, 0x05, 0x06, 0x07, 0x08, 0x09, 0xFF, 0xFF, 0xFF, 0xFF, 0xFF, 0xFF,
    0xFF, 0xFF, 0xFF, 0xFF, 0xFF, 0xFF, 0xFF, 0xFF, 0xFF, 0xFF, 0xFF, 0xFF, 0xFF, 0xFF, 0xFF, 0xFF,
    0xFF, 0xFF, 0xFF, 0xFF, 0xFF, 0xFF, 0xFF, 0xFF, 0xFF, 0xFF, 0xFF, 0xFF, 0xFF, 0xFF, 0xFF, 0xFF,
    0xFF, 0x0A, 0x0B, 0x0C, 0x0D, 0x0E, 0x0F, 0x10, 0x11, 0xFF, 0x12, 0x13, 0xFF, 0x14, 0x15, 0xFF,
    0x16, 0x17, 0x18, 0x19, 0x1A, 0xFF, 0x1B, 0x1C, 0x1D, 0x1E, 0x1F, 0xFF, 0xFF, 0xFF, 0xFF, 0xFF,
    0xFF, 0xFF, 0xFF, 0xFF, 0xFF, 0xFF, 0xFF, 0xFF, 0xFF, 0xFF, 0xFF, 0xFF, 0xFF, 0xFF, 0xFF, 0xFF,
    0xFF, 0xFF, 0xFF, 0xFF, 0xFF, 0xFF, 0xFF, 0xFF, 0xFF, 0xFF, 0xFF, 0xFF, 0xFF, 0xFF, 0xFF, 0xFF,
    0xFF, 0xFF, 0xFF, 0xFF, 0xFF, 0xFF, 0xFF, 0xFF, 0xFF, 0xFF, 0xFF, 0xFF, 0xFF, 0xFF, 0xFF, 0xFF,
    0xFF, 0xFF, 0xFF, 0xFF, 0xFF, 0xFF, 0xFF, 0xFF, 0xFF, 0xFF, 0xFF, 0xFF, 0xFF, 0xFF, 0xFF, 0xFF,
    0xFF, 0xFF, 0xFF, 0xFF, 0xFF, 0xFF, 0xFF, 0xFF, 0xFF, 0xFF, 0xFF, 0xFF, 0xFF, 0xFF, 0xFF, 0xFF,
    0xFF, 0xFF, 0xFF, 0xFF, 0xFF, 0xFF, 0xFF, 0xFF, 0xFF, 0xFF, 0xFF, 0xFF, 0xFF, 0xFF, 0xFF, 0xFF,
    0xFF, 0xFF, 0xFF, 0xFF, 0xFF, 0xFF, 0xFF, 0xFF, 0xFF, 0xFF, 0xFF, 0xFF, 0xFF, 0xFF, 0xFF, 0xFF,
    0xFF, 0xFF, 0xFF, 0xFF, 0xFF, 0xFF, 0xFF, 0xFF, 0xFF, 0xFF, 0xFF, 0xFF, 0xFF, 0xFF, 0xFF, 0xFF,
];

/// The symbol that stands for `value`.
pub open spec fn symbol(value: nat) -> u8
    recommends
        value < 32,
{
    ALPHABET[value as int]
}

/// The value that `byte` stands for, if it is a symbol.
pub open spec fn symbol_value(byte: u8) -> Option<nat> {
    if exists|v: nat| v < 32 && symbol(v) == byte {
        Some(choose|v: nat| v < 32 && symbol(v) == byte)
    } else {
        None
    }
}

/// Whether `byte` is one of the thirty-two symbols.
pub open spec fn is_symbol(byte: u8) -> bool {
    symbol_value(byte) is Some
}

/// The table inverts the alphabet: it sends each symbol to its value.
pub proof fn lemma_table_inverts_alphabet(value: nat)
    requires
        value < 32,
    ensures
        DECODE_TABLE[symbol(value) as int] == value,
{
}

/// The table holds nothing but the inverse: an entry other than `INVALID`
/// is the value of the symbol at that place.
pub proof fn lemma_table_entry(byte: u8)
    ensures
        DECODE_TABLE[byte as int] != INVALID ==> DECODE_TABLE[byte as int] < 32 && symbol(
            DECODE_TABLE[byte as int] as nat,
        ) == byte,
{
}

/// The alphabet is a bijection between the values below 32 and the symbols:
/// no symbol occurs twice, and `symbol_value` is read off the table.
pub proof fn lemma_alphabet_bijective()
    ensures
        forall|v: nat, w: nat|
            v < 32 && w < 32 && #[trigger] symbol(v) == #[trigger] symbol(w) ==> v == w,
        forall|v: nat| v < 32 ==> #[trigger] symbol_value(symbol(v)) == Some(v),
        forall|b: u8| #[trigger] symbol_value(b) matches Some(v) ==> v < 32 && symbol(v) == b,
        forall|b: u8|
            #[trigger] symbol_value(b) == (if DECODE_TABLE[b as int] == INVALID {
                None
            } else {
                Some(DECODE_TABLE[b as int] as nat)
            }),
        symbol_value(ZERO_SYMBOL) == Some(0nat),
{
    assert forall|v: nat, w: nat|
        v < 32 && w < 32 && #[trigger] symbol(v) == #[trigger] symbol(w) implies v == w by {
        lemma_table_inverts_alphabet(v);
        lemma_table_inverts_alphabet(w);
    }
    assert forall|b: u8|
        #[trigger] symbol_value(b) == (if DECODE_TABLE[b as int] == INVALID {
            None::<nat>
        } else {
            Some(DECODE_TABLE[b as int] as nat)
        }) by {
        lemma_table_entry(b);
        if exists|v: nat| v < 32 && symbol(v) == b {
            let v = choose|v: nat| v < 32 && symbol(v) == b;
            lemma_table_inverts_alphabet(v);
        }
    }
    assert forall|v: nat| v < 32 implies #[trigger] symbol_value(symbol(v)) == Some(v) by {
        lemma_table_inverts_alphabet(v);
    }
}

/// The symbols are the digits and the lowercase letters but `i`, `l`, `o`
/// and `u`.
pub proof fn lemma_symbol_characters(byte: u8)
    ensures
        is_symbol(byte) <==> (0x30 <= byte <= 0x39 || 0x61 <= byte <= 0x7A) && byte != 0x69
            && byte != 0x6C && byte != 0x6F && byte != 0x75,
{
    lemma_alphabet_bijective();
}

/// The symbol that stands for `value`.
pub fn alphabet(value: u8) -> (r: u8)
    requires
        value < 32,
    ensures
        r == symbol(value as nat),
        symbol_value(r) == Some(value as nat),
        r < 0x80,
{
    proof {
        lemma_alphabet_bijective();
    }
    ALPHABET[value as usize]
}

/// The value that `byte` stands for, or `None` if it is no symbol.
pub fn value_of(byte: u8) -> (r: Option<u8>)
    ensures
        match r {
            Some(v) => symbol_value(byte) == Some(v as nat) && v < 32,
            None => symbol_value(byte) is None,
        },
{
    proof {
        lemma_alphabet_bijective();
    }
    let entry: u8 = DECODE_TABLE[byte as usize];
    if entry == INVALID {
        None
    } else {
        Some(entry)
    }
}

} // verus!
