use base32::alphabet::{alphabet, value_of, ALPHABET, DECODE_TABLE, INVALID, ZERO_SYMBOL};
use base32::decoder::decode_block;
use base32::encoder::encode_block;

#[test]
fn alphabet_in_order() {
    let expected = b"0123456789abcdefghjkmnpqrstvwxyz";
    assert_eq!(ZERO_SYMBOL, b'0');
    assert_eq!(alphabet(0), ZERO_SYMBOL);
    assert_eq!(&ALPHABET, expected);
    for value in 0..32u8 {
        assert_eq!(alphabet(value), expected[value as usize]);
    }
}

#[test]
fn alphabet_has_no_symbol_twice() {
    for v in 0..32u8 {
        for w in 0..32u8 {
            if v != w {
                assert_ne!(alphabet(v), alphabet(w));
            }
        }
    }
}

#[test]
fn value_of_inverts_alphabet() {
    for value in 0..32u8 {
        assert_eq!(value_of(alphabet(value)), Some(value));
    }
    let mut symbols = 0;
    for byte in 0..=255u8 {
        match value_of(byte) {
            Some(value) => {
                symbols += 1;
                assert!(value < 32);
                assert_eq!(alphabet(value), byte);
            }
            None => assert_eq!(DECODE_TABLE[byte as usize], INVALID),
        }
    }
    assert_eq!(symbols, 32);
}

#[test]
fn value_of_known_symbols() {
    assert_eq!(value_of(b'0'), Some(0));
    assert_eq!(value_of(b'9'), Some(9));
    assert_eq!(value_of(b'a'), Some(10));
    assert_eq!(value_of(b'h'), Some(17));
    assert_eq!(value_of(b'j'), Some(18));
    assert_eq!(value_of(b'k'), Some(19));
    assert_eq!(value_of(b'm'), Some(20));
    assert_eq!(value_of(b'n'), Some(21));
    assert_eq!(value_of(b'p'), Some(22));
    assert_eq!(value_of(b't'), Some(26));
    assert_eq!(value_of(b'v'), Some(27));
    assert_eq!(value_of(b'z'), Some(31));
    assert_eq!(value_of(b'i'), None);
    assert_eq!(value_of(b'l'), None);
    assert_eq!(value_of(b'o'), None);
    assert_eq!(value_of(b'u'), None);
    assert_eq!(value_of(b'A'), None);
    assert_eq!(value_of(0xC3), None);
}

#[test]
fn encode_block_writes_eight_symbols_in_place() {
    let mut out = *b"################";
    encode_block(b"fooba", &mut out, 8);
    assert_eq!(&out, b"########csqpyrk1");
    encode_block(&[0xFF, 0, 0, 0, 0], &mut out, 0);
    assert_eq!(&out, b"zw000000csqpyrk1");
}

#[test]
fn encode_block_takes_fields_from_the_top() {
    let mut out = [0u8; 8];
    encode_block(&[0b00001_000, 0b10_00011_0, 0b0100_0010, 0b1_00110_00, 0b111_01000], &mut out, 0);
    assert_eq!(&out, b"12345678");
}

#[test]
fn decode_block_appends_five_bytes() {
    let mut out = vec![1u8, 2];
    assert_eq!(decode_block(b"csqpyrk1", &mut out), Ok(()));
    assert_eq!(out, b"\x01\x02fooba".to_vec());
    assert_eq!(decode_block(b"12345678", &mut out), Ok(()));
    assert_eq!(
        &out[7..],
        &[0b00001_000, 0b10_00011_0, 0b0100_0010, 0b1_00110_00, 0b111_01000]
    );
}

#[test]
fn decode_block_reports_first_invalid_place() {
    let mut out = vec![9u8];
    assert_eq!(decode_block(b"abc!ef?h", &mut out), Err(3));
    assert_eq!(out, vec![9u8]);
    assert_eq!(decode_block(b"abcdefgI", &mut out), Err(7));
    assert_eq!(decode_block(b"\xC3\xABcdefgh", &mut out), Err(0));
    assert_eq!(out, vec![9u8]);
}
