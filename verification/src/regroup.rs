//! Regrouping bits: five bytes and eight 5-bit digits are two ways to write
//! one 40-bit number, most significant part first.

use vstd::prelude::*;
use crate::length::{spec_buffer_len, spec_encoded_len, tail_symbols};

verus! {

/// The 40-bit number whose big-endian bytes are `b0` to `b4`.
pub open spec fn pack_bytes(b0: nat, b1: nat, b2: nat, b3: nat, b4: nat) -> nat {
    b0 * 0x1_0000_0000 + b1 * 0x100_0000 + b2 * 0x1_0000 + b3 * 0x100 + b4
}

/// The 40-bit number whose base-32 digits are `d0` to `d7`, `d0` the most
/// significant.
pub open spec fn pack_digits(
    d0: nat,
    d1: nat,
    d2: nat,
    d3: nat,
    d4: nat,
    d5: nat,
    d6: nat,
    d7: nat,
) -> nat {
    d0 * 0x8_0000_0000 + d1 * 0x4000_0000 + d2 * 0x200_0000 + d3 * 0x10_0000 + d4 * 0x8000
        + d5 * 0x400 + d6 * 0x20 + d7
}

/// Weight of the base-32 digit at place `p` of a 40-bit number: 32^(7-p).
pub open spec fn digit_weight(p: int) -> nat {
    if p == 0 {
        0x8_0000_0000
    } else if p == 1 {
        0x4000_0000
    } else if p == 2 {
        0x200_0000
    } else if p == 3 {
        0x10_0000
    } else if p == 4 {
        0x8000
    } else if p == 5 {
        0x400
    } else if p == 6 {
        0x20
    } else {
        1
    }
}

/// Weight of the byte at place `j` of a 40-bit number: 256^(4-j).
pub open spec fn byte_weight(j: int) -> nat {
    if j == 0 {
        0x1_0000_0000
    } else if j == 1 {
        0x100_0000
    } else if j == 2 {
        0x1_0000
    } else if j == 3 {
        0x100
    } else {
        1
    }
}

/// The base-32 digit at place `p` (0 to 7) of `value`.
#[verifier::opaque]
pub open spec fn digit_of(value: nat, p: int) -> nat {
    (value / digit_weight(p)) % 32
}

/// The byte at place `j` (0 to 4) of `value`.
#[verifier::opaque]
pub open spec fn byte_of(value: nat, j: int) -> nat {
    (value / byte_weight(j)) % 256
}

/// The byte of `data` at `i`, or zero past its end.
pub open spec fn byte_at(data: Seq<u8>, i: int) -> nat {
    if 0 <= i < data.len() {
        data[i] as nat
    } else {
        0
    }
}

/// The number that group `g` of `data` holds: its five bytes, the missing
/// ones of a last partial group taken as zero.
pub open spec fn group_value(data: Seq<u8>, g: int) -> nat {
    pack_bytes(
        byte_at(data, 5 * g),
        byte_at(data, 5 * g + 1),
        byte_at(data, 5 * g + 2),
        byte_at(data, 5 * g + 3),
        byte_at(data, 5 * g + 4),
    )
}

/// The base-32 digits of `data`, eight for each group of five bytes, a last
/// partial group included.
pub open spec fn to_digits(data: Seq<u8>) -> Seq<nat> {
    Seq::new(spec_buffer_len(data.len()), |k: int| digit_of(group_value(data, k / 8), k % 8))
}

/// The digit of `digits` at `i`, or zero past its end.
pub open spec fn digit_at(digits: Seq<nat>, i: int) -> nat {
    if 0 <= i < digits.len() {
        digits[i]
    } else {
        0
    }
}

/// The number that group `g` of `digits` holds: its eight digits, the
/// missing ones of a last partial group taken as zero.
pub open spec fn octet_value(digits: Seq<nat>, g: int) -> nat {
    pack_digits(
        digit_at(digits, 8 * g),
        digit_at(digits, 8 * g + 1),
        digit_at(digits, 8 * g + 2),
        digit_at(digits, 8 * g + 3),
        digit_at(digits, 8 * g + 4),
        digit_at(digits, 8 * g + 5),
        digit_at(digits, 8 * g + 6),
        digit_at(digits, 8 * g + 7),
    )
}

/// Number of whole bytes that `n` digits hold.
pub open spec fn spec_decoded_len(n: nat) -> nat {
    n * 5 / 8
}

/// The bytes that `digits` hold: the whole bytes among their bits.
pub open spec fn to_bytes(digits: Seq<nat>) -> Seq<u8> {
    Seq::new(
        spec_decoded_len(digits.len()),
        |k: int| byte_of(octet_value(digits, k / 5), k % 5) as u8,
    )
}

/// The word that holds five bytes in its 40 high bits.
pub open spec fn block_word(b0: u8, b1: u8, b2: u8, b3: u8, b4: u8) -> u64 {
    (b0 as u64) << 56 | (b1 as u64) << 48 | (b2 as u64) << 40 | (b3 as u64) << 32 | (b4 as u64)
        << 24
}

/// The 5-bit field of `word` that starts `5 * p` bits below its top.
pub open spec fn word_field(word: u64, p: int) -> u64 {
    if p == 0 {
        (word >> 59) & 0x1F
    } else if p == 1 {
        (word >> 54) & 0x1F
    } else if p == 2 {
        (word >> 49) & 0x1F
    } else if p == 3 {
        (word >> 44) & 0x1F
    } else if p == 4 {
        (word >> 39) & 0x1F
    } else if p == 5 {
        (word >> 34) & 0x1F
    } else if p == 6 {
        (word >> 29) & 0x1F
    } else {
        (word >> 24) & 0x1F
    }
}

/// The fields of the word are the base-32 digits of the five bytes.
pub proof fn lemma_word_fields(b0: u8, b1: u8, b2: u8, b3: u8, b4: u8)
    ensures
        forall|p: int|
            0 <= p < 8 ==> #[trigger] word_field(block_word(b0, b1, b2, b3, b4), p) == digit_of(
                pack_bytes(b0 as nat, b1 as nat, b2 as nat, b3 as nat, b4 as nat),
                p,
            ),
        forall|p: int| 0 <= p < 8 ==> #[trigger] word_field(block_word(b0, b1, b2, b3, b4), p) < 32,
{
    reveal(digit_of);
    let w = block_word(b0, b1, b2, b3, b4);
    let v: u64 = (b0 as u64 * 0x1_0000_0000 + b1 as u64 * 0x100_0000 + b2 as u64 * 0x1_0000
        + b3 as u64 * 0x100 + b4 as u64) as u64;
    assert(v == pack_bytes(b0 as nat, b1 as nat, b2 as nat, b3 as nat, b4 as nat));
    assert(w == ((b0 as u64) << 56 | (b1 as u64) << 48 | (b2 as u64) << 40 | (b3 as u64) << 32
        | (b4 as u64) << 24));
    assert({
        &&& (w >> 59) & 0x1F == (v / 0x8_0000_0000) % 32
        &&& (w >> 54) & 0x1F == (v / 0x4000_0000) % 32
        &&& (w >> 49) & 0x1F == (v / 0x200_0000) % 32
        &&& (w >> 44) & 0x1F == (v / 0x10_0000) % 32
        &&& (w >> 39) & 0x1F == (v / 0x8000) % 32
        &&& (w >> 34) & 0x1F == (v / 0x400) % 32
        &&& (w >> 29) & 0x1F == (v / 0x20) % 32
        &&& (w >> 24) & 0x1F == v % 32
    }) by (bit_vector)
        requires
            w == ((b0 as u64) << 56 | (b1 as u64) << 48 | (b2 as u64) << 40 | (b3 as u64) << 32
                | (b4 as u64) << 24),
            v == (b0 as u64 * 0x1_0000_0000 + b1 as u64 * 0x100_0000 + b2 as u64 * 0x1_0000
                + b3 as u64 * 0x100 + b4 as u64) as u64,
    ;
    let n = pack_bytes(b0 as nat, b1 as nat, b2 as nat, b3 as nat, b4 as nat);
    assert(word_field(w, 0) == digit_of(n, 0));
    assert(word_field(w, 1) == digit_of(n, 1));
    assert(word_field(w, 2) == digit_of(n, 2));
    assert(word_field(w, 3) == digit_of(n, 3));
    assert(word_field(w, 4) == digit_of(n, 4));
    assert(word_field(w, 5) == digit_of(n, 5));
    assert(word_field(w, 6) == digit_of(n, 6));
    assert(word_field(w, 7) == digit_of(n, 7));
}

/// Byte `j` of the five that eight 5-bit digits hold, by shifts.
pub open spec fn digits_byte(
    d0: u8,
    d1: u8,
    d2: u8,
    d3: u8,
    d4: u8,
    d5: u8,
    d6: u8,
    d7: u8,
    j: int,
) -> u8 {
    if j == 0 {
        (d0 << 3) | (d1 >> 2)
    } else if j == 1 {
        (d1 << 6) | (d2 << 1) | (d3 >> 4)
    } else if j == 2 {
        (d3 << 4) | (d4 >> 1)
    } else if j == 3 {
        (d4 << 7) | (d5 << 2) | (d6 >> 3)
    } else {
        (d6 << 5) | d7
    }
}

/// The shifted digits are the bytes of the number that the digits write.
pub proof fn lemma_digits_bytes(d0: u8, d1: u8, d2: u8, d3: u8, d4: u8, d5: u8, d6: u8, d7: u8)
    requires
        d0 < 32,
        d1 < 32,
        d2 < 32,
        d3 < 32,
        d4 < 32,
        d5 < 32,
        d6 < 32,
        d7 < 32,
    ensures
        forall|j: int|
            0 <= j < 5 ==> #[trigger] digits_byte(d0, d1, d2, d3, d4, d5, d6, d7, j) == byte_of(
                pack_digits(
                    d0 as nat,
                    d1 as nat,
                    d2 as nat,
                    d3 as nat,
                    d4 as nat,
                    d5 as nat,
                    d6 as nat,
                    d7 as nat,
                ),
                j,
            ),
{
    reveal(byte_of);
    let v: u64 = (d0 as u64 * 0x8_0000_0000 + d1 as u64 * 0x4000_0000 + d2 as u64 * 0x200_0000
        + d3 as u64 * 0x10_0000 + d4 as u64 * 0x8000 + d5 as u64 * 0x400 + d6 as u64 * 0x20
        + d7 as u64) as u64;
    let n = pack_digits(
        d0 as nat,
        d1 as nat,
        d2 as nat,
        d3 as nat,
        d4 as nat,
        d5 as nat,
        d6 as nat,
        d7 as nat,
    );
    assert(v == n);
    assert({
        &&& ((d0 << 3) | (d1 >> 2)) == (v / 0x1_0000_0000) % 256
        &&& ((d1 << 6) | (d2 << 1) | (d3 >> 4)) == (v / 0x100_0000) % 256
        &&& ((d3 << 4) | (d4 >> 1)) == (v / 0x1_0000) % 256
        &&& ((d4 << 7) | (d5 << 2) | (d6 >> 3)) == (v / 0x100) % 256
        &&& ((d6 << 5) | d7) == v % 256
    }) by (bit_vector)
        requires
            d0 < 32,
            d1 < 32,
            d2 < 32,
            d3 < 32,
            d4 < 32,
            d5 < 32,
            d6 < 32,
            d7 < 32,
            v == (d0 as u64 * 0x8_0000_0000 + d1 as u64 * 0x4000_0000 + d2 as u64 * 0x200_0000
                + d3 as u64 * 0x10_0000 + d4 as u64 * 0x8000 + d5 as u64 * 0x400 + d6 as u64
                * 0x20 + d7 as u64) as u64,
    ;
    assert(digits_byte(d0, d1, d2, d3, d4, d5, d6, d7, 0) == byte_of(n, 0));
    assert(digits_byte(d0, d1, d2, d3, d4, d5, d6, d7, 1) == byte_of(n, 1));
    assert(digits_byte(d0, d1, d2, d3, d4, d5, d6, d7, 2) == byte_of(n, 2));
    assert(digits_byte(d0, d1, d2, d3, d4, d5, d6, d7, 3) == byte_of(n, 3));
    assert(digits_byte(d0, d1, d2, d3, d4, d5, d6, d7, 4) == byte_of(n, 4));
}

/// Taking a 40-bit number apart into digits and writing them again gives
/// the number back.
pub proof fn lemma_digits_of_value(value: nat)
    requires
        value < 0x100_0000_0000,
    ensures
        pack_digits(
            digit_of(value, 0),
            digit_of(value, 1),
            digit_of(value, 2),
            digit_of(value, 3),
            digit_of(value, 4),
            digit_of(value, 5),
            digit_of(value, 6),
            digit_of(value, 7),
        ) == value,
{
    reveal(digit_of);
    let v: u64 = value as u64;
    assert(((v / 0x8_0000_0000) % 32) * 0x8_0000_0000 + ((v / 0x4000_0000) % 32) * 0x4000_0000
        + ((v / 0x200_0000) % 32) * 0x200_0000 + ((v / 0x10_0000) % 32) * 0x10_0000
        + ((v / 0x8000) % 32) * 0x8000 + ((v / 0x400) % 32) * 0x400 + ((v / 0x20) % 32) * 0x20
        + (v % 32) == v) by (bit_vector)
        requires
            v < 0x100_0000_0000,
    ;
    assert(digit_of(value, 0) == (v / 0x8_0000_0000) % 32);
    assert(digit_of(value, 1) == (v / 0x4000_0000) % 32);
    assert(digit_of(value, 2) == (v / 0x200_0000) % 32);
    assert(digit_of(value, 3) == (v / 0x10_0000) % 32);
    assert(digit_of(value, 4) == (v / 0x8000) % 32);
    assert(digit_of(value, 5) == (v / 0x400) % 32);
    assert(digit_of(value, 6) == (v / 0x20) % 32);
    assert(digit_of(value, 7) == v % 32);
}

/// The bytes of the number that five bytes write are those five bytes.
pub proof fn lemma_bytes_of_value(b0: u8, b1: u8, b2: u8, b3: u8, b4: u8)
    ensures
        pack_bytes(b0 as nat, b1 as nat, b2 as nat, b3 as nat, b4 as nat) < 0x100_0000_0000,
        byte_of(pack_bytes(b0 as nat, b1 as nat, b2 as nat, b3 as nat, b4 as nat), 0) == b0,
        byte_of(pack_bytes(b0 as nat, b1 as nat, b2 as nat, b3 as nat, b4 as nat), 1) == b1,
        byte_of(pack_bytes(b0 as nat, b1 as nat, b2 as nat, b3 as nat, b4 as nat), 2) == b2,
        byte_of(pack_bytes(b0 as nat, b1 as nat, b2 as nat, b3 as nat, b4 as nat), 3) == b3,
        byte_of(pack_bytes(b0 as nat, b1 as nat, b2 as nat, b3 as nat, b4 as nat), 4) == b4,
{
    reveal(byte_of);
    let v: u64 = (b0 as u64 * 0x1_0000_0000 + b1 as u64 * 0x100_0000 + b2 as u64 * 0x1_0000
        + b3 as u64 * 0x100 + b4 as u64) as u64;
    assert(v == pack_bytes(b0 as nat, b1 as nat, b2 as nat, b3 as nat, b4 as nat));
    assert({
        &&& v < 0x100_0000_0000
        &&& (v / 0x1_0000_0000) % 256 == b0
        &&& (v / 0x100_0000) % 256 == b1
        &&& (v / 0x1_0000) % 256 == b2
        &&& (v / 0x100) % 256 == b3
        &&& v % 256 == b4
    }) by (bit_vector)
        requires
            v == (b0 as u64 * 0x1_0000_0000 + b1 as u64 * 0x100_0000 + b2 as u64 * 0x1_0000
                + b3 as u64 * 0x100 + b4 as u64) as u64,
    ;
}

/// A group holds a 40-bit number.
pub proof fn lemma_group_value_bound(data: Seq<u8>, g: int)
    ensures
        group_value(data, g) < 0x100_0000_0000,
{
}

/// Every digit is below 32.
pub proof fn lemma_digit_bound(value: nat, p: int)
    ensures
        digit_of(value, p) < 32,
{
    reveal(digit_of);
}

/// The digit of `data` at place `p` of group `g`.
pub proof fn lemma_digit_place(data: Seq<u8>, g: int, p: int)
    requires
        0 <= g,
        5 * g < data.len(),
        0 <= p < 8,
    ensures
        8 * g + p < to_digits(data).len(),
        to_digits(data)[8 * g + p] == digit_of(group_value(data, g), p),
        digit_at(to_digits(data), 8 * g + p) == digit_of(group_value(data, g), p),
{
    let k = 8 * g + p;
    assert(k / 8 == g && k % 8 == p);
    assert(8 * g + 8 <= spec_buffer_len(data.len()));
}

/// The eight digits of a group of `data` write the number that the group
/// holds.
pub proof fn lemma_digits_of_group(data: Seq<u8>, g: int)
    requires
        0 <= g,
        5 * g < data.len(),
    ensures
        8 * g + 8 <= to_digits(data).len(),
        group_value(data, g) < 0x100_0000_0000,
        forall|p: int|
            0 <= p < 8 ==> (#[trigger] to_digits(data)[8 * g + p]) == digit_of(
                group_value(data, g),
                p,
            ),
        octet_value(to_digits(data), g) == group_value(data, g),
{
    let value = group_value(data, g);
    lemma_group_value_bound(data, g);
    lemma_digit_place(data, g, 0);
    lemma_digit_place(data, g, 1);
    lemma_digit_place(data, g, 2);
    lemma_digit_place(data, g, 3);
    lemma_digit_place(data, g, 4);
    lemma_digit_place(data, g, 5);
    lemma_digit_place(data, g, 6);
    lemma_digit_place(data, g, 7);
    assert forall|p: int| 0 <= p < 8 implies (#[trigger] to_digits(data)[8 * g + p]) == digit_of(
        value,
        p,
    ) by {
        lemma_digit_place(data, g, p);
    }
    lemma_digits_of_value(value);
}

/// `data` followed by the zeros that fill its last group.
pub open spec fn zero_padded(data: Seq<u8>) -> Seq<u8> {
    Seq::new(5 * ((data.len() + 4) / 5), |k: int| byte_at(data, k) as u8)
}

/// Regrouping there and back: the bytes of the digits of `data` are `data`,
/// followed by the zeros that filled its last group.
pub proof fn lemma_bytes_of_digits(data: Seq<u8>)
    ensures
        to_bytes(to_digits(data)) == zero_padded(data),
        to_bytes(to_digits(data)).len() >= data.len(),
        to_bytes(to_digits(data)).subrange(0, data.len() as int) == data,
{
    let digits = to_digits(data);
    let bytes = to_bytes(digits);
    assert(bytes.len() == 5 * ((data.len() + 4) / 5));
    assert forall|k: int| 0 <= k < bytes.len() implies bytes[k] == byte_at(data, k) as u8 by {
        let g = k / 5;
        let j = k % 5;
        lemma_digits_of_group(data, g);
        lemma_bytes_of_value(
            byte_at(data, 5 * g) as u8,
            byte_at(data, 5 * g + 1) as u8,
            byte_at(data, 5 * g + 2) as u8,
            byte_at(data, 5 * g + 3) as u8,
            byte_at(data, 5 * g + 4) as u8,
        );
        assert(k == 5 * g + j);
    }
    assert(bytes =~= zero_padded(data));
    assert(bytes.subrange(0, data.len() as int) =~= data);
}

/// The leading digits of a 40-bit number hold its leading bytes: two
/// digits the first byte, four the first two, five the first three and
/// seven the first four.
pub proof fn lemma_leading_digits(value: nat)
    requires
        value < 0x100_0000_0000,
    ensures
        ({
            let d0 = digit_of(value, 0);
            let d1 = digit_of(value, 1);
            let d2 = digit_of(value, 2);
            let d3 = digit_of(value, 3);
            let d4 = digit_of(value, 4);
            let d5 = digit_of(value, 5);
            let d6 = digit_of(value, 6);
            let two = pack_digits(d0, d1, 0, 0, 0, 0, 0, 0);
            let four = pack_digits(d0, d1, d2, d3, 0, 0, 0, 0);
            let five = pack_digits(d0, d1, d2, d3, d4, 0, 0, 0);
            let seven = pack_digits(d0, d1, d2, d3, d4, d5, d6, 0);
            &&& byte_of(two, 0) == byte_of(value, 0)
            &&& byte_of(four, 0) == byte_of(value, 0)
            &&& byte_of(four, 1) == byte_of(value, 1)
            &&& byte_of(five, 0) == byte_of(value, 0)
            &&& byte_of(five, 1) == byte_of(value, 1)
            &&& byte_of(five, 2) == byte_of(value, 2)
            &&& byte_of(seven, 0) == byte_of(value, 0)
            &&& byte_of(seven, 1) == byte_of(value, 1)
            &&& byte_of(seven, 2) == byte_of(value, 2)
            &&& byte_of(seven, 3) == byte_of(value, 3)
        }),
{
    reveal(digit_of);
    reveal(byte_of);
    let v: u64 = value as u64;
    let two: u64 = (((v / 0x8_0000_0000) % 32) * 0x8_0000_0000 + ((v / 0x4000_0000) % 32)
        * 0x4000_0000) as u64;
    let four: u64 = (two + ((v / 0x200_0000) % 32) * 0x200_0000 + ((v / 0x10_0000) % 32)
        * 0x10_0000) as u64;
    let five: u64 = (four + ((v / 0x8000) % 32) * 0x8000) as u64;
    let seven: u64 = (five + ((v / 0x400) % 32) * 0x400 + ((v / 0x20) % 32) * 0x20) as u64;
    assert({
        &&& two == v / 0x4000_0000 * 0x4000_0000
        &&& four == v / 0x10_0000 * 0x10_0000
        &&& five == v / 0x8000 * 0x8000
        &&& seven == v / 0x20 * 0x20
    }) by (bit_vector)
        requires
            v < 0x100_0000_0000,
            two == (((v / 0x8_0000_0000) % 32) * 0x8_0000_0000 + ((v / 0x4000_0000) % 32)
                * 0x4000_0000) as u64,
            four == (two + ((v / 0x200_0000) % 32) * 0x200_0000 + ((v / 0x10_0000) % 32)
                * 0x10_0000) as u64,
            five == (four + ((v / 0x8000) % 32) * 0x8000) as u64,
            seven == (five + ((v / 0x400) % 32) * 0x400 + ((v / 0x20) % 32) * 0x20) as u64,
    ;
    assert({
        &&& (v / 0x4000_0000 * 0x4000_0000) / 0x1_0000_0000 % 256 == (v / 0x1_0000_0000) % 256
        &&& (v / 0x10_0000 * 0x10_0000) / 0x1_0000_0000 % 256 == (v / 0x1_0000_0000) % 256
        &&& (v / 0x10_0000 * 0x10_0000) / 0x100_0000 % 256 == (v / 0x100_0000) % 256
        &&& (v / 0x8000 * 0x8000) / 0x1_0000_0000 % 256 == (v / 0x1_0000_0000) % 256
        &&& (v / 0x8000 * 0x8000) / 0x100_0000 % 256 == (v / 0x100_0000) % 256
        &&& (v / 0x8000 * 0x8000) / 0x1_0000 % 256 == (v / 0x1_0000) % 256
        &&& (v / 0x20 * 0x20) / 0x1_0000_0000 % 256 == (v / 0x1_0000_0000) % 256
        &&& (v / 0x20 * 0x20) / 0x100_0000 % 256 == (v / 0x100_0000) % 256
        &&& (v / 0x20 * 0x20) / 0x1_0000 % 256 == (v / 0x1_0000) % 256
        &&& (v / 0x20 * 0x20) / 0x100 % 256 == (v / 0x100) % 256
    }) by (bit_vector)
        requires
            v < 0x100_0000_0000,
    ;
    assert(two == pack_digits(digit_of(value, 0), digit_of(value, 1), 0, 0, 0, 0, 0, 0));
    assert(four == pack_digits(
        digit_of(value, 0),
        digit_of(value, 1),
        digit_of(value, 2),
        digit_of(value, 3),
        0,
        0,
        0,
        0,
    ));
    assert(five == pack_digits(
        digit_of(value, 0),
        digit_of(value, 1),
        digit_of(value, 2),
        digit_of(value, 3),
        digit_of(value, 4),
        0,
        0,
        0,
    ));
    assert(seven == pack_digits(
        digit_of(value, 0),
        digit_of(value, 1),
        digit_of(value, 2),
        digit_of(value, 3),
        digit_of(value, 4),
        digit_of(value, 5),
        digit_of(value, 6),
        0,
    ));
}

/// Where the trailing bytes of a 40-bit number are zero, so are the digits
/// that hold bits of those bytes only: the last six where one byte is
/// left, the last four for two, the last three for three and the last one
/// for four.
pub proof fn lemma_trailing_digits(b0: u8, b1: u8, b2: u8, b3: u8)
    ensures
        forall|p: int| 2 <= p < 8 ==> #[trigger] digit_of(pack_bytes(b0 as nat, 0, 0, 0, 0), p) == 0,
        forall|p: int|
            4 <= p < 8 ==> #[trigger] digit_of(pack_bytes(b0 as nat, b1 as nat, 0, 0, 0), p) == 0,
        forall|p: int|
            5 <= p < 8 ==> #[trigger] digit_of(pack_bytes(b0 as nat, b1 as nat, b2 as nat, 0, 0), p)
                == 0,
        digit_of(pack_bytes(b0 as nat, b1 as nat, b2 as nat, b3 as nat, 0), 7) == 0,
{
    reveal(digit_of);
    let one: u64 = (b0 as u64 * 0x1_0000_0000) as u64;
    let two: u64 = (one + b1 as u64 * 0x100_0000) as u64;
    let three: u64 = (two + b2 as u64 * 0x1_0000) as u64;
    let four: u64 = (three + b3 as u64 * 0x100) as u64;
    assert({
        &&& (one / 0x200_0000) % 32 == 0
        &&& (one / 0x10_0000) % 32 == 0
        &&& (one / 0x8000) % 32 == 0
        &&& (one / 0x400) % 32 == 0
        &&& (one / 0x20) % 32 == 0
        &&& one % 32 == 0
        &&& (two / 0x8000) % 32 == 0
        &&& (two / 0x400) % 32 == 0
        &&& (two / 0x20) % 32 == 0
        &&& two % 32 == 0
        &&& (three / 0x400) % 32 == 0
        &&& (three / 0x20) % 32 == 0
        &&& three % 32 == 0
        &&& four % 32 == 0
    }) by (bit_vector)
        requires
            one == (b0 as u64 * 0x1_0000_0000) as u64,
            two == (one + b1 as u64 * 0x100_0000) as u64,
            three == (two + b2 as u64 * 0x1_0000) as u64,
            four == (three + b3 as u64 * 0x100) as u64,
    ;
    assert(one == pack_bytes(b0 as nat, 0, 0, 0, 0));
    assert(two == pack_bytes(b0 as nat, b1 as nat, 0, 0, 0));
    assert(three == pack_bytes(b0 as nat, b1 as nat, b2 as nat, 0, 0));
    assert(four == pack_bytes(b0 as nat, b1 as nat, b2 as nat, b3 as nat, 0));
    assert forall|p: int| 2 <= p < 8 implies #[trigger] digit_of(one as nat, p) == 0 by {
        assert(p == 2 || p == 3 || p == 4 || p == 5 || p == 6 || p == 7);
    }
    assert forall|p: int| 4 <= p < 8 implies #[trigger] digit_of(two as nat, p) == 0 by {
        assert(p == 4 || p == 5 || p == 6 || p == 7);
    }
    assert forall|p: int| 5 <= p < 8 implies #[trigger] digit_of(three as nat, p) == 0 by {
        assert(p == 5 || p == 6 || p == 7);
    }
}

/// The digits of `data` past the canonical ones are zero: they hold
/// nothing but the zeros that fill the last group.
pub proof fn lemma_padding_digits(data: Seq<u8>, k: int)
    requires
        spec_encoded_len(data.len()) <= k < spec_buffer_len(data.len()),
    ensures
        to_digits(data)[k] == 0,
{
    let n = data.len();
    let g = k / 8;
    let p = k % 8;
    assert(n % 5 != 0);
    assert(g == n / 5);
    assert(p >= tail_symbols(n % 5));
    lemma_trailing_digits(
        byte_at(data, 5 * g) as u8,
        byte_at(data, 5 * g + 1) as u8,
        byte_at(data, 5 * g + 2) as u8,
        byte_at(data, 5 * g + 3) as u8,
    );
}

/// The canonical digits of `data`: those that hold bits of `data`.
pub open spec fn canonical_digits(data: Seq<u8>) -> Seq<nat> {
    to_digits(data).subrange(0, spec_encoded_len(data.len()) as int)
}

/// The byte of `data` at `k`, with the five bytes of its group.
proof fn lemma_byte_of_group(data: Seq<u8>, k: int)
    requires
        0 <= k < data.len(),
    ensures
        byte_of(group_value(data, k / 5), k % 5) == data[k],
{
    let g = k / 5;
    lemma_bytes_of_value(
        byte_at(data, 5 * g) as u8,
        byte_at(data, 5 * g + 1) as u8,
        byte_at(data, 5 * g + 2) as u8,
        byte_at(data, 5 * g + 3) as u8,
        byte_at(data, 5 * g + 4) as u8,
    );
}

/// The canonical digits at a place of group `g`: the digit of the group
/// where the place is canonical, and nothing past that.
proof fn lemma_canonical_digit_place(data: Seq<u8>, g: int, p: int)
    requires
        0 <= g,
        5 * g < data.len(),
        0 <= p < 8,
    ensures
        canonical_digits(data).len() == spec_encoded_len(data.len()),
        digit_at(canonical_digits(data), 8 * g + p) == (if 8 * g + p < spec_encoded_len(
            data.len(),
        ) {
            digit_of(group_value(data, g), p)
        } else {
            0
        }),
{
    lemma_digit_place(data, g, p);
}

/// The canonical digits of a group hold the bytes that `data` has in it.
proof fn lemma_canonical_byte(data: Seq<u8>, k: int)
    requires
        0 <= k < data.len(),
    ensures
        byte_of(octet_value(canonical_digits(data), k / 5), k % 5) == data[k],
{
    let n = data.len();
    let g = k / 5;
    let j = k % 5;
    let value = group_value(data, g);
    let digits = canonical_digits(data);
    lemma_byte_of_group(data, k);
    lemma_group_value_bound(data, g);
    lemma_canonical_digit_place(data, g, 0);
    lemma_canonical_digit_place(data, g, 1);
    lemma_canonical_digit_place(data, g, 2);
    lemma_canonical_digit_place(data, g, 3);
    lemma_canonical_digit_place(data, g, 4);
    lemma_canonical_digit_place(data, g, 5);
    lemma_canonical_digit_place(data, g, 6);
    lemma_canonical_digit_place(data, g, 7);
    if g < n / 5 {
        lemma_digits_of_value(value);
        assert(octet_value(digits, g) == value);
    } else {
        lemma_leading_digits(value);
        assert(g == n / 5);
        assert(digits.len() == 8 * g + tail_symbols(n % 5));
        assert(j < n % 5);
    }
}

/// Regrouping there and back without the padding: the bytes of the
/// canonical digits of `data` are `data`.
pub proof fn lemma_bytes_of_canonical_digits(data: Seq<u8>)
    ensures
        spec_encoded_len(data.len()) <= to_digits(data).len(),
        spec_decoded_len(spec_encoded_len(data.len())) == data.len(),
        to_bytes(canonical_digits(data)) == data,
{
    let bytes = to_bytes(canonical_digits(data));
    assert(bytes.len() == data.len());
    assert forall|k: int| 0 <= k < data.len() implies bytes[k] == data[k] by {
        lemma_canonical_byte(data, k);
    }
    assert(bytes =~= data);
}

} // verus!
