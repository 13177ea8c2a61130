use base32::{decode, encode, encode_into, encoded_buffer_len, encoded_len};

fn sample(len: usize, seed: u32) -> Vec<u8> {
    let mut state: u32 = seed;
    let mut data = Vec::with_capacity(len);
    for _ in 0..len {
        state = state.wrapping_mul(1664525).wrapping_add(1013904223);
        data.push((state >> 24) as u8);
    }
    data
}

fn canonical(data: &[u8]) -> String {
    let mut symbols = encode(data);
    symbols.truncate(encoded_len(data.len()));
    String::from_utf8(symbols).unwrap()
}

#[test]
fn test_base32_roundtrips() {
    let data = b"hello world";
    let encoded = canonical(data);
    let decoded = decode(&encoded).unwrap();
    assert_eq!(decoded, data);
}

#[test]
fn lib_test_base32_roundtrips() {
    let data = b"hello world";
    let encoded = encode(data);
    let encoded_str = String::from_utf8(encoded).unwrap();
    let decoded = decode(&encoded_str).unwrap();
    assert_eq!(&decoded[..data.len()], data);
}

#[test]
fn hello_world_symbols() {
    let data = b"hello world";
    assert_eq!(encoded_len(11), 18);
    assert_eq!(encode(data), b"d1jprv3f41vpywkccg000000".to_vec());
    assert_eq!(canonical(data), "d1jprv3f41vpywkccg");
    assert_eq!(decode("d1jprv3f41vpywkccg").unwrap(), b"hello world".to_vec());
}

#[test]
fn known_encodings() {
    assert_eq!(encode(b"f"), b"cr000000".to_vec());
    assert_eq!(encode(b"fo"), b"csqg0000".to_vec());
    assert_eq!(encode(b"foo"), b"csqpy000".to_vec());
    assert_eq!(encode(b"foob"), b"csqpyrg0".to_vec());
    assert_eq!(encode(b"fooba"), b"csqpyrk1".to_vec());
    assert_eq!(encode(b"foobar"), b"csqpyrk1e8000000".to_vec());
    assert_eq!(encode(&[0xFF; 5]), b"zzzzzzzz".to_vec());
    assert_eq!(encode(&[0, 0, 0, 0, 1]), b"00000001".to_vec());
    assert_eq!(
        encode(&[0, 1, 2, 3, 4, 5, 6, 7, 8, 9]),
        b"000g40r40m30e209".to_vec()
    );
}

#[test]
fn known_canonical_encodings() {
    assert_eq!(canonical(b""), "");
    assert_eq!(canonical(b"f"), "cr");
    assert_eq!(canonical(b"fo"), "csqg");
    assert_eq!(canonical(b"foo"), "csqpy");
    assert_eq!(canonical(b"foob"), "csqpyrg");
    assert_eq!(canonical(b"fooba"), "csqpyrk1");
    assert_eq!(canonical(b"foobar"), "csqpyrk1e8");
}

#[test]
fn known_decodings() {
    assert_eq!(decode("cr").unwrap(), b"f".to_vec());
    assert_eq!(decode("csqg").unwrap(), b"fo".to_vec());
    assert_eq!(decode("csqpy").unwrap(), b"foo".to_vec());
    assert_eq!(decode("csqpyrg").unwrap(), b"foob".to_vec());
    assert_eq!(decode("csqpyrk1").unwrap(), b"fooba".to_vec());
    assert_eq!(decode("csqpyrk1e8").unwrap(), b"foobar".to_vec());
    assert_eq!(decode("zzzzzzzz").unwrap(), vec![0xFF; 5]);
    assert_eq!(decode("00000001").unwrap(), vec![0, 0, 0, 0, 1]);
    assert_eq!(
        decode("0123456789abcdefghjkmnpqrstvwxyz").unwrap(),
        vec![0, 68, 50, 20, 199, 66, 84, 182, 53, 207, 132, 101, 58, 86, 215, 198, 117, 190, 119, 223]
    );
}

#[test]
fn decoded_length_is_five_eighths_rounded_down() {
    assert_eq!(decode("z").unwrap(), Vec::<u8>::new());
    assert_eq!(decode("zz").unwrap(), vec![0xFF]);
    assert_eq!(decode("zzz").unwrap(), vec![0xFF]);
    assert_eq!(decode("zzzz").unwrap(), vec![0xFF, 0xFF]);
    assert_eq!(decode("00").unwrap(), vec![0]);
    for n in 0..100usize {
        let text = "7".repeat(n);
        assert_eq!(decode(&text).unwrap().len(), n * 5 / 8);
    }
}

#[test]
fn padded_encoding_decodes_to_data_and_zeros() {
    assert_eq!(
        decode("csqpyrk1e8000000").unwrap(),
        b"foobar\0\0\0\0".to_vec()
    );
    assert_eq!(decode("cr000000").unwrap(), b"f\0\0\0\0".to_vec());
}

#[test]
fn empty_input() {
    assert_eq!(encoded_len(0), 0);
    assert_eq!(encoded_buffer_len(0), 0);
    assert_eq!(encode(b""), Vec::<u8>::new());
    assert_eq!(decode("").unwrap(), Vec::<u8>::new());
    let mut nothing: [u8; 0] = [];
    encode_into(&mut nothing, b"");
}

#[test]
fn roundtrip_of_every_length() {
    for len in 0..200usize {
        let data = sample(len, 17 + len as u32);
        let padded = String::from_utf8(encode(&data)).unwrap();
        let decoded = decode(&padded).unwrap();
        assert_eq!(decoded.len(), (len + 4) / 5 * 5);
        assert_eq!(&decoded[..len], &data[..]);
        assert!(decoded[len..].iter().all(|b| *b == 0));
        assert_eq!(decode(&canonical(&data)).unwrap(), data);
    }
}

#[test]
fn roundtrip_of_every_byte_value() {
    let data: Vec<u8> = (0..=255u8).collect();
    assert_eq!(decode(&canonical(&data)).unwrap(), data);
    for b in 0..=255u8 {
        assert_eq!(decode(&canonical(&[b])).unwrap(), vec![b]);
    }
}

#[test]
fn encoding_has_buffer_length() {
    for len in 0..100usize {
        let data = sample(len, 5);
        assert_eq!(encode(&data).len(), encoded_buffer_len(len));
    }
}

#[test]
fn padding_is_the_zero_symbol() {
    for len in 0..50usize {
        let data = sample(len, 99);
        let symbols = encode(&data);
        assert!(symbols[encoded_len(len)..].iter().all(|s| *s == b'0'));
    }
}

#[test]
fn encoding_stays_in_alphabet() {
    for len in 1..200usize {
        let data = sample(len, 1000 + len as u32);
        for symbol in encode(&data) {
            let ch = symbol as char;
            assert!(('0'..='9').contains(&ch) || ('a'..='z').contains(&ch));
            assert!(ch != 'i' && ch != 'l' && ch != 'o' && ch != 'u');
        }
    }
}

#[test]
fn encode_into_zeroed_buffer_matches_encode() {
    for len in 0..100usize {
        let data = sample(len, 7 * len as u32 + 3);
        let mut buffer = vec![0u8; encoded_buffer_len(len)];
        encode_into(&mut buffer, &data);
        assert_eq!(buffer, encode(&data));
    }
}

#[test]
fn encode_into_overwrites_whatever_was_there() {
    let data = b"foobar";
    let mut buffer = vec![b'!'; encoded_buffer_len(data.len())];
    encode_into(&mut buffer, data);
    assert_eq!(buffer, b"csqpyrk1e8000000".to_vec());
}
