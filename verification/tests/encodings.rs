//! What compressors may write.
use fdeflate::tables::{
    DIST_SYM_TO_DIST_BASE, DIST_SYM_TO_DIST_EXTRA, LENGTH_TO_LEN_EXTRA, LENGTH_TO_SYMBOL,
    LEN_SYM_TO_LEN_BASE,
};
use fdeflate::{decompress_to_vec, DecompressionError, Decompressor};

fn field(bits: &mut Vec<bool>, value: usize, count: u32) {
    for i in 0..count {
        bits.push((value >> i) & 1 == 1);
    }
}

fn code(bits: &mut Vec<bool>, code: usize, count: u32) {
    for i in (0..count).rev() {
        bits.push((code >> i) & 1 == 1);
    }
}

fn adler32(data: &[u8]) -> u32 {
    let mut a: u32 = 1;
    let mut b: u32 = 0;
    for &byte in data {
        a = (a + byte as u32) % 65521;
        b = (b + a) % 65521;
    }
    (b << 16) | a
}

/// Pads with the given bit to a byte boundary.
fn pad(bits: &mut Vec<bool>, bit: bool) {
    while bits.len() % 8 != 0 {
        bits.push(bit);
    }
}

/// The stream with the given bits after its header, whole bytes, and the checksum of `data`.
fn finish(bits: &[bool], data: &[u8]) -> Vec<u8> {
    let mut stream = vec![0x78, 0x01];
    for chunk in bits.chunks(8) {
        let mut byte = 0u8;
        for (i, &bit) in chunk.iter().enumerate() {
            byte |= (bit as u8) << i;
        }
        stream.push(byte);
    }
    stream.extend_from_slice(&adler32(data).to_be_bytes());
    stream
}

/// A literal in the fixed code.
fn literal(bits: &mut Vec<bool>, byte: u8) {
    if byte < 144 {
        code(bits, 0x30 + byte as usize, 8);
    } else {
        code(bits, 0x190 + byte as usize - 144, 9);
    }
}

/// A length symbol in the fixed code.
fn length_symbol(bits: &mut Vec<bool>, symbol: usize) {
    if symbol < 280 {
        code(bits, symbol - 256, 7);
    } else {
        code(bits, 0xc0 + symbol - 280, 8);
    }
}

#[test]
fn every_length_is_read_back() {
    for length in 3..=258 {
        let symbol = LENGTH_TO_SYMBOL[length - 3] as usize;
        let mut bits = Vec::new();
        field(&mut bits, 1, 1);
        field(&mut bits, 1, 2);
        literal(&mut bits, b'a');
        literal(&mut bits, 200);
        length_symbol(&mut bits, symbol);
        field(
            &mut bits,
            length - LEN_SYM_TO_LEN_BASE[symbol - 257],
            LENGTH_TO_LEN_EXTRA[length - 3] as u32,
        );
        // Distance 2.
        code(&mut bits, 1, 5);
        code(&mut bits, 0, 7);
        pad(&mut bits, false);
        let data: Vec<u8> = (0..length + 2)
            .map(|i| if i % 2 == 0 { b'a' } else { 200 })
            .collect();
        assert_eq!(decompress_to_vec(&finish(&bits, &data)).unwrap(), data);
    }
}

#[test]
fn every_distance_symbol_is_read_back() {
    for symbol in 0..30 {
        let extra = DIST_SYM_TO_DIST_EXTRA[symbol] as u32;
        for offset in [0, (1 << extra) - 1] {
            let distance = DIST_SYM_TO_DIST_BASE[symbol] as usize + offset;
            let mut data: Vec<u8> = (0..distance).map(|i| (i * i / 7) as u8).collect();
            let mut bits = Vec::new();
            field(&mut bits, 1, 1);
            field(&mut bits, 1, 2);
            for &byte in &data {
                literal(&mut bits, byte);
            }
            length_symbol(&mut bits, 257);
            code(&mut bits, symbol, 5);
            field(&mut bits, offset, extra);
            code(&mut bits, 0, 7);
            pad(&mut bits, false);
            for i in 0..3 {
                data.push(data[i % distance]);
            }
            assert_eq!(decompress_to_vec(&finish(&bits, &data)).unwrap(), data);
        }
    }
}

/// A stored block after a fixed one, so that both it and the checksum are padded.
fn padded_stream(bit: bool, data: &[u8]) -> Vec<u8> {
    let mut bits = Vec::new();
    field(&mut bits, 0, 1);
    field(&mut bits, 1, 2);
    code(&mut bits, 0, 7);
    field(&mut bits, 0, 1);
    field(&mut bits, 0, 2);
    pad(&mut bits, bit);
    field(&mut bits, data.len(), 16);
    field(&mut bits, 0xffff - data.len(), 16);
    for &byte in data {
        field(&mut bits, byte as usize, 8);
    }
    field(&mut bits, 1, 1);
    field(&mut bits, 1, 2);
    code(&mut bits, 0, 7);
    pad(&mut bits, bit);
    finish(&bits, data)
}

#[test]
fn padding_is_ignored() {
    let zeros = padded_stream(false, b"data");
    let ones = padded_stream(true, b"data");
    assert_ne!(zeros, ones);
    assert_eq!(decompress_to_vec(&zeros).unwrap(), b"data");
    assert_eq!(decompress_to_vec(&ones).unwrap(), b"data");
}

/// The header of a stored block, cut at every place, gives what it gives as a whole.
#[test]
fn block_header_in_two_calls() {
    let stream = padded_stream(false, b"data");
    for cut in 2..stream.len() {
        let mut decoder = Decompressor::new();
        let mut output = vec![0; 16];
        let (consumed, first) = decoder.read(&stream[..cut], &mut output, 0, false).unwrap();
        let (_, second) = decoder
            .read(&stream[consumed..], &mut output, first, true)
            .unwrap();
        assert!(decoder.done());
        assert_eq!(first + second, 4);
        assert_eq!(&output[..4], b"data");
    }
}

/// The output may start anywhere in the buffer, with other bytes before it to refer to.
#[test]
fn start_above_zero() {
    let mut bits = Vec::new();
    field(&mut bits, 1, 1);
    field(&mut bits, 1, 2);
    // Length 3, distance 4.
    code(&mut bits, 1, 7);
    code(&mut bits, 3, 5);
    code(&mut bits, 0, 7);
    pad(&mut bits, false);
    let stream = finish(&bits, b"abc");
    let mut decoder = Decompressor::new();
    let mut output = *b"abcd\0\0\0\0\0";
    assert_eq!(decoder.read(&stream, &mut output, 4, true).unwrap().1, 3);
    assert!(decoder.done());
    assert_eq!(&output, b"abcdabc\0\0");
}

/// The header of a last block with the given literal/length code lengths up to 14 and no distance
/// code. The code lengths are written in a code of four bits for each.
fn dynamic_header(lengths: &[u8]) -> Vec<bool> {
    let mut bits = Vec::new();
    field(&mut bits, 1, 1);
    field(&mut bits, 2, 2);
    field(&mut bits, lengths.len() - 257, 5);
    field(&mut bits, 0, 5);
    field(&mut bits, 18 - 4, 4);
    // The symbols 18 and 0 to 14 have code words.
    for length in [0, 0, 4, 4, 4, 4, 4, 4, 4, 4, 4, 4, 4, 4, 4, 4, 4, 4] {
        field(&mut bits, length, 3);
    }
    for &length in lengths {
        code(&mut bits, length as usize, 4);
    }
    code(&mut bits, 0, 4);
    bits
}

/// A symbol in the code with the given lengths.
fn symbol_word(bits: &mut Vec<bool>, lengths: &[u8], symbol: usize) {
    let mut next = 0;
    for length in 1..=lengths[symbol] {
        next *= 2;
        for (i, &other) in lengths.iter().enumerate() {
            if other == length && (other < lengths[symbol] || i < symbol) {
                next += 1;
            }
        }
    }
    code(bits, next, lengths[symbol] as u32);
}

/// A stream with a block of these literals.
fn literals_stream(lengths: &[u8], data: &[u8]) -> Vec<u8> {
    let mut bits = dynamic_header(lengths);
    for &byte in data {
        symbol_word(&mut bits, lengths, byte as usize);
    }
    symbol_word(&mut bits, lengths, 256);
    finish(&bits, data)
}

/// Lengths of a code with these code words.
fn lengths_of(words: &[(usize, u8)]) -> Vec<u8> {
    let mut lengths = vec![0; 257];
    for &(symbol, length) in words {
        lengths[symbol] = length;
    }
    lengths
}

/// Reading goes on when literals fill the buffer to its last byte. Two literals are looked up at a
/// time; with one byte left, one literal is taken and then nothing more, and two are not taken.
#[test]
fn literals_that_fill_the_buffer() {
    let lengths = lengths_of(&[(b'a' as usize, 1), (256, 1)]);
    for (count, space, expected, done) in [
        (1, 2, 1, true),
        (2, 2, 2, true),
        (3, 2, 2, false),
        (3, 3, 3, false),
        (4, 3, 2, false),
        (4, 4, 4, true),
        (5, 4, 4, false),
        (5, 5, 5, false),
        (6, 5, 4, false),
    ] {
        let data = vec![b'a'; count];
        let stream = literals_stream(&lengths, &data);
        assert_eq!(decompress_to_vec(&stream).unwrap(), data);
        let mut decoder = Decompressor::new();
        let mut output = vec![0; space];
        let (consumed, produced) = decoder.read(&stream, &mut output, 0, true).unwrap();
        assert_eq!(produced, expected);
        assert_eq!(output[..produced], data[..produced]);
        assert_eq!(decoder.done(), done);
        if done {
            assert_eq!(consumed, stream.len());
        } else {
            output.resize(count + 2, 0);
            let (_, rest) = decoder
                .read(&stream[consumed..], &mut output, produced, true)
                .unwrap();
            assert_eq!(produced + rest, count);
            assert_eq!(output[..count], data[..]);
            assert!(decoder.done());
        }
    }
}

/// The checksum is read, and found to be wrong, in the same call that fills the buffer.
#[test]
fn wrong_checksum_after_full_buffer() {
    let lengths = lengths_of(&[(b'a' as usize, 1), (256, 1)]);
    let mut stream = literals_stream(&lengths, b"aa");
    let last = stream.len() - 1;
    stream[last] ^= 1;
    let mut output = [0; 2];
    let mut decoder = Decompressor::new();
    assert!(matches!(
        decoder.read(&stream, &mut output, 0, true),
        Err(DecompressionError::WrongChecksum)
    ));
    assert_eq!(&output, b"aa");
}

/// Literals with more than 12 bits are taken one by one, up to the last byte.
#[test]
fn long_literals_that_fill_the_buffer() {
    let mut words = vec![(256, 1), (12, 13), (13, 13)];
    for i in 1..12 {
        words.push((i, i as u8 + 1));
    }
    let lengths = lengths_of(&words);
    for data in [vec![12, 13], vec![13, 13, 12], vec![11, 13], vec![10, 12, 11, 13]] {
        let stream = literals_stream(&lengths, &data);
        let mut decoder = Decompressor::new();
        let mut output = vec![0; data.len()];
        let (consumed, produced) = decoder.read(&stream, &mut output, 0, true).unwrap();
        assert_eq!((consumed, produced), (stream.len(), data.len()));
        assert_eq!(output, data);
        assert!(decoder.done());
    }
}

/// Twelve zeros come from one lookup. What does not fit is written by the next calls, as far as
/// there is space, before they read on.
#[test]
fn waiting_zeros_are_written_first() {
    let lengths = lengths_of(&[(0, 1), (7, 2), (256, 2)]);
    let mut data = vec![0; 12];
    data.push(7);
    let stream = literals_stream(&lengths, &data);
    let mut decoder = Decompressor::new();
    let mut output = vec![0; 5];
    let (consumed, produced) = decoder.read(&stream, &mut output, 0, true).unwrap();
    assert_eq!(produced, 5);
    assert!(!decoder.done());
    let mut input_index = consumed;
    output.resize(8, 0);
    let (consumed, produced) = decoder
        .read(&stream[input_index..], &mut output, 5, true)
        .unwrap();
    assert_eq!((consumed, produced), (0, 3));
    input_index += consumed;
    // With space for one more byte than those that wait.
    output.resize(13, 0);
    let (consumed, produced) = decoder
        .read(&stream[input_index..], &mut output, 8, true)
        .unwrap();
    assert_eq!(produced, 5);
    assert_eq!(output, data);
    assert!(!decoder.done());
    input_index += consumed;
    output.resize(15, 0);
    let (_, produced) = decoder
        .read(&stream[input_index..], &mut output, 13, true)
        .unwrap();
    assert_eq!(produced, 0);
    assert!(decoder.done());
}
