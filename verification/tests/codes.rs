//! Huffman codes and tables.
use fdeflate::huffman::compute_codes;
use fdeflate::tables::{
    fixed_code_lengths, DIST_SYM_TO_DIST_BASE, DIST_SYM_TO_DIST_EXTRA, LENGTH_TO_LEN_EXTRA,
    LENGTH_TO_SYMBOL, LEN_SYM_TO_LEN_BASE, LEN_SYM_TO_LEN_EXTRA,
};

/// The `length` low bits of `code` in reverse order.
fn reversed(code: u16, length: u8) -> u16 {
    code.reverse_bits() >> (16 - length)
}

#[test]
fn small_code() {
    // A: 10, B: 0, C: 110, D: 111.
    let codes = compute_codes(&[2, 1, 3, 3]).unwrap();
    assert_eq!(codes, vec![0b01, 0b0, 0b011, 0b111]);
    // Symbols without a code word do not count.
    let codes = compute_codes(&[0, 1, 0, 1]).unwrap();
    assert_eq!((codes[1], codes[3]), (0, 1));
}

#[test]
fn incomplete_code() {
    assert_eq!(compute_codes(&[2, 1, 3]), None);
    assert_eq!(compute_codes(&[1]), None);
    assert_eq!(compute_codes(&[0, 0]), None);
}

#[test]
fn oversubscribed_code() {
    assert_eq!(compute_codes(&[1, 1, 1]), None);
    assert_eq!(compute_codes(&[2, 1, 3, 3, 15]), None);
}

#[test]
fn fixed_codes() {
    let lengths = fixed_code_lengths();
    let codes = compute_codes(&lengths[..288]).unwrap();
    for (symbol, length, code) in [
        (0, 8, 0b0011_0000),
        (143, 8, 0b1011_1111),
        (144, 9, 0b1_1001_0000),
        (255, 9, 0b1_1111_1111),
        (256, 7, 0b000_0000),
        (279, 7, 0b001_0111),
        (280, 8, 0b1100_0000),
        (287, 8, 0b1100_0111),
    ] {
        assert_eq!(lengths[symbol], length);
        assert_eq!(reversed(codes[symbol], length), code);
    }
    let codes = compute_codes(&lengths[288..]).unwrap();
    for symbol in 0..32 {
        assert_eq!(lengths[288 + symbol], 5);
        assert_eq!(reversed(codes[symbol], 5), symbol as u16);
    }
}

/// No code word is the beginning of another, and together they take up all 15-bit patterns.
#[test]
fn prefix_free_and_complete() {
    let mut lengths: Vec<u8> = (1..15).collect();
    lengths.extend_from_slice(&[15, 15]);
    for lengths in [lengths, fixed_code_lengths()[..288].to_vec()] {
        let codes = compute_codes(&lengths).unwrap();
        for pattern in 0..0x8000u32 {
            let found = (0..lengths.len())
                .filter(|&i| pattern & ((1 << lengths[i]) - 1) == codes[i] as u32)
                .count();
            assert_eq!(found, 1);
        }
    }
}

#[test]
fn lengths_are_found() {
    for length in 3..=258 {
        let i = LENGTH_TO_SYMBOL[length - 3] as usize - 257;
        assert_eq!(LENGTH_TO_LEN_EXTRA[length - 3], LEN_SYM_TO_LEN_EXTRA[i]);
        assert!(LEN_SYM_TO_LEN_BASE[i] <= length);
        assert!(length < LEN_SYM_TO_LEN_BASE[i] + (1 << LEN_SYM_TO_LEN_EXTRA[i]));
    }
    assert_eq!(LENGTH_TO_SYMBOL[0], 257);
    assert_eq!(LENGTH_TO_SYMBOL[257 - 3], 284);
    assert_eq!(LENGTH_TO_SYMBOL[258 - 3], 285);
}

#[test]
fn distances_are_contiguous() {
    let mut next = 1;
    for i in 0..30 {
        assert_eq!(DIST_SYM_TO_DIST_BASE[i] as u32, next);
        next += 1 << DIST_SYM_TO_DIST_EXTRA[i];
    }
    assert_eq!(next, 32769);
}
