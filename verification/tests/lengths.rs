use base32::{encoded_buffer_len, encoded_len};

#[test]
fn encoded_len_table() {
    let expected = [0usize, 2, 4, 5, 7, 8, 10, 12, 13, 15, 16];
    for (n, want) in expected.iter().enumerate() {
        assert_eq!(encoded_len(n), *want);
    }
}

#[test]
fn length_vectors() {
    assert_eq!(encoded_len(0), 0);
    assert_eq!(encoded_len(1), 2);
    assert_eq!(encoded_len(5), 8);
    assert_eq!(encoded_buffer_len(1), 8);
    assert_eq!(encoded_buffer_len(6), 16);
}

#[test]
fn encoded_buffer_len_table() {
    let expected = [0usize, 8, 8, 8, 8, 8, 16, 16, 16, 16, 16, 24];
    for (n, want) in expected.iter().enumerate() {
        assert_eq!(encoded_buffer_len(n), *want);
    }
}

#[test]
fn buffer_is_whole_blocks_and_holds_the_encoding() {
    for n in 0..10000usize {
        let buffer = encoded_buffer_len(n);
        assert_eq!(buffer % 8, 0);
        assert!(buffer >= encoded_len(n));
        assert!(buffer - encoded_len(n) < 8);
    }
}

#[test]
fn whole_groups_take_eight_symbols_each() {
    for k in 0..2000usize {
        assert_eq!(encoded_len(5 * k), 8 * k);
        assert_eq!(encoded_buffer_len(5 * k), 8 * k);
    }
}

#[test]
fn encoded_len_never_decreases() {
    for n in 0..10000usize {
        assert!(encoded_len(n) <= encoded_len(n + 1));
    }
}

#[test]
fn encoded_len_holds_all_the_bits() {
    for n in 0..10000usize {
        let symbols = encoded_len(n);
        assert!(symbols * 5 >= n * 8);
        assert_eq!(symbols * 5 / 8, n);
    }
}

#[test]
fn large_lengths() {
    assert_eq!(encoded_len(1_000_000_003), 1_600_000_005);
    assert_eq!(encoded_buffer_len(1_000_000_003), 1_600_000_008);
}
