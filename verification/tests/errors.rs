use base32::{decode, InvalidBase32Error};

#[test]
fn test_invalid_base32_error() {
    assert_eq!(
        decode("01234567ë").unwrap_err(),
        InvalidBase32Error {
            character: 'ë',
            position: 8,
            string: "01234567ë".into()
        }
    );
}

#[test]
fn lib_test_invalid_base32_error() {
    assert_eq!(
        decode("01234567ë").unwrap_err(),
        InvalidBase32Error {
            character: 'ë',
            position: 8,
            string: "01234567ë".into()
        }
    );
}

fn expect_error(text: &str, character: char, position: usize) {
    assert_eq!(
        decode(text).unwrap_err(),
        InvalidBase32Error {
            character,
            position,
            string: text.to_string()
        }
    );
}

#[test]
fn excluded_letters_are_rejected() {
    expect_error("i", 'i', 0);
    expect_error("0l", 'l', 1);
    expect_error("abcdefgho", 'o', 8);
    expect_error("zzzu", 'u', 3);
}

#[test]
fn uppercase_is_rejected() {
    expect_error("A", 'A', 0);
    expect_error("abcDef", 'D', 3);
    expect_error("0123456789abcdefZ", 'Z', 16);
}

#[test]
fn punctuation_and_space_are_rejected() {
    expect_error("ab cd", ' ', 2);
    expect_error("abcd=", '=', 4);
    expect_error("-", '-', 0);
    expect_error("0000000\n", '\n', 7);
    expect_error("/0", '/', 0);
    expect_error("9:", ':', 1);
    expect_error("`", '`', 0);
    expect_error("z{", '{', 1);
    expect_error("\u{0}", '\u{0}', 0);
    expect_error("\u{7f}", '\u{7f}', 0);
}

#[test]
fn multibyte_characters_are_reported_whole() {
    expect_error("ë", 'ë', 0);
    expect_error("abc€", '€', 3);
    expect_error("0123456789😀", '😀', 10);
    expect_error("ëë", 'ë', 0);
    expect_error("0ë1€", 'ë', 1);
}

#[test]
fn first_invalid_character_wins() {
    expect_error("ab!cd?ef", '!', 2);
    expect_error("0123456789abcdef#ghjk$", '#', 16);
    expect_error("IL", 'I', 0);
}

#[test]
fn error_in_each_place_of_a_block() {
    for place in 0..24usize {
        let mut text = String::new();
        for i in 0..24usize {
            text.push(if i == place { '*' } else { 'a' });
        }
        expect_error(&text, '*', place);
    }
}

#[test]
fn error_in_last_partial_block() {
    expect_error("00000000*", '*', 8);
    expect_error("00000000ab*", '*', 10);
    expect_error("00000000abcdef*", '*', 14);
}

#[test]
fn errors_compare_by_their_fields() {
    let e = decode("ab!").unwrap_err();
    assert_eq!(e.character, '!');
    assert_eq!(e.position, 2);
    assert_eq!(e.string, "ab!");
    assert!(e == InvalidBase32Error { character: '!', position: 2, string: "ab!".into() });
    assert!(e != InvalidBase32Error { character: '?', position: 2, string: "ab!".into() });
    assert!(e != InvalidBase32Error { character: '!', position: 1, string: "ab!".into() });
    assert!(e != InvalidBase32Error { character: '!', position: 2, string: "ab".into() });
}

#[test]
fn valid_text_has_no_error() {
    assert!(decode("0123456789abcdefghjkmnpqrstvwxyz").is_ok());
    assert!(decode("").is_ok());
    assert!(decode("z").is_ok());
}
