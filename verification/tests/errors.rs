//! Streams that are not valid.
use fdeflate::{decompress_to_vec, DecompressionError, Decompressor};

/// Writes a stream bit by bit.
struct BitWriter {
    bits: Vec<bool>,
}

impl BitWriter {
    /// Starts a stream with a zlib header.
    fn new() -> Self {
        let mut writer = BitWriter { bits: Vec::new() };
        writer.field(0x78, 8);
        writer.field(0x01, 8);
        writer
    }

    /// Appends a number, the least significant bit first.
    fn field(&mut self, value: u32, count: u32) {
        for i in 0..count {
            self.bits.push((value >> i) & 1 == 1);
        }
    }

    /// Appends a code word, the most significant bit first.
    fn code(&mut self, code: u32, count: u32) {
        for i in (0..count).rev() {
            self.bits.push((code >> i) & 1 == 1);
        }
    }

    /// The stream, followed by `extra` zero bytes.
    fn finish(&self, extra: usize) -> Vec<u8> {
        let mut bytes = Vec::new();
        for chunk in self.bits.chunks(8) {
            let mut byte = 0u8;
            for (i, &bit) in chunk.iter().enumerate() {
                byte |= (bit as u8) << i;
            }
            bytes.push(byte);
        }
        bytes.extend_from_slice(&vec![0; extra]);
        bytes
    }
}

/// Starts a last block with its own codes, whose code lengths are written in a code with the words
/// 00 (0), 01 (1), 10 (2), 110 (16) and 111 (18).
fn start_dynamic(hlit: u32, hdist: u32) -> BitWriter {
    let mut writer = BitWriter::new();
    writer.field(1, 1);
    writer.field(2, 2);
    writer.field(hlit - 257, 5);
    writer.field(hdist - 1, 5);
    writer.field(18 - 4, 4);
    for length in [3, 0, 3, 2, 0, 0, 0, 0, 0, 0, 0, 0, 0, 0, 0, 2, 0, 2] {
        writer.field(length, 3);
    }
    writer
}

/// Appends `count` code lengths of zero.
fn zeros(writer: &mut BitWriter, count: u32) {
    writer.code(0b111, 3);
    writer.field(count - 11, 7);
}

fn error_of(stream: &[u8]) -> DecompressionError {
    match decompress_to_vec(stream) {
        Ok(output) => panic!("decoded to {:?}", output),
        Err(error) => error,
    }
}

#[test]
fn bad_zlib_header() {
    // Compression method, window size, preset dictionary, check bits.
    for (cmf, flg) in [(0x77, 0x09), (0x88, 0x1c), (0x78, 0x20), (0x78, 0x02)] {
        let stream = [cmf, flg, 3, 0, 0, 0, 0, 1];
        assert!(matches!(error_of(&stream), DecompressionError::BadZlibHeader));
    }
    // The usual headers are fine.
    for (cmf, flg) in [(0x78, 0x01), (0x78, 0x5e), (0x78, 0x9c), (0x78, 0xda), (0x08, 0x1d)] {
        let stream = [cmf, flg, 3, 0, 0, 0, 0, 1];
        assert_eq!(decompress_to_vec(&stream).unwrap(), Vec::<u8>::new());
    }
}

#[test]
fn insufficient_input() {
    let stream = [0x78, 0x01, 3, 0, 0, 0, 0, 1];
    for n in 0..stream.len() {
        assert!(matches!(
            error_of(&stream[..n]),
            DecompressionError::InsufficientInput
        ));
    }
    assert_eq!(decompress_to_vec(&stream).unwrap(), Vec::<u8>::new());
}

#[test]
fn invalid_block_type() {
    let mut writer = BitWriter::new();
    writer.field(1, 1);
    writer.field(3, 2);
    assert!(matches!(
        error_of(&writer.finish(8)),
        DecompressionError::InvalidBlockType
    ));
}

#[test]
fn invalid_uncompressed_block_length() {
    let stream = [0x78, 0x01, 1, 2, 0, 0xfd, 0xfe, 65, 66, 0, 0, 0, 0];
    assert!(matches!(
        error_of(&stream),
        DecompressionError::InvalidUncompressedBlockLength
    ));
}

#[test]
fn invalid_hlit() {
    let mut writer = BitWriter::new();
    writer.field(1, 1);
    writer.field(2, 2);
    writer.field(287 - 257, 5);
    assert!(matches!(
        error_of(&writer.finish(8)),
        DecompressionError::InvalidHlit
    ));
}

#[test]
fn invalid_hdist() {
    let mut writer = BitWriter::new();
    writer.field(1, 1);
    writer.field(2, 2);
    writer.field(286 - 257, 5);
    writer.field(31 - 1, 5);
    assert!(matches!(
        error_of(&writer.finish(8)),
        DecompressionError::InvalidHdist
    ));
}

#[test]
fn bad_code_length_tree() {
    // No code words at all.
    let mut writer = BitWriter::new();
    writer.field(1, 1);
    writer.field(2, 2);
    assert!(matches!(
        error_of(&writer.finish(8)),
        DecompressionError::BadCodeLengthHuffmanTree
    ));
    // Three code words of one bit.
    let mut writer = BitWriter::new();
    writer.field(1, 1);
    writer.field(2, 2);
    writer.field(0, 14);
    for length in [1, 1, 1, 0] {
        writer.field(length, 3);
    }
    assert!(matches!(
        error_of(&writer.finish(8)),
        DecompressionError::BadCodeLengthHuffmanTree
    ));
}

#[test]
fn invalid_code_length_repeat() {
    // Nothing to repeat.
    let mut writer = start_dynamic(257, 1);
    writer.code(0b110, 3);
    assert!(matches!(
        error_of(&writer.finish(8)),
        DecompressionError::InvalidCodeLengthRepeat
    ));
    // More code lengths than symbols.
    let mut writer = start_dynamic(257, 1);
    zeros(&mut writer, 138);
    zeros(&mut writer, 121);
    assert!(matches!(
        error_of(&writer.finish(8)),
        DecompressionError::InvalidCodeLengthRepeat
    ));
}

#[test]
fn bad_literal_length_tree() {
    let mut writer = start_dynamic(257, 1);
    zeros(&mut writer, 138);
    zeros(&mut writer, 120);
    assert!(matches!(
        error_of(&writer.finish(8)),
        DecompressionError::BadLiteralLengthHuffmanTree
    ));
}

/// Appends the lengths of a code with the words 0 (literal 65), 10 (end of block) and 11 (length
/// symbol 257).
fn three_symbols(writer: &mut BitWriter) {
    zeros(writer, 65);
    writer.code(0b01, 2);
    zeros(writer, 138);
    zeros(writer, 52);
    writer.code(0b10, 2);
    writer.code(0b10, 2);
}

#[test]
fn bad_distance_tree() {
    let mut writer = start_dynamic(258, 3);
    three_symbols(&mut writer);
    for _ in 0..3 {
        writer.code(0b01, 2);
    }
    assert!(matches!(
        error_of(&writer.finish(8)),
        DecompressionError::BadDistanceHuffmanTree
    ));
    // Two code words of two bits leave half of the code unused.
    let mut writer = start_dynamic(258, 2);
    three_symbols(&mut writer);
    for _ in 0..2 {
        writer.code(0b10, 2);
    }
    assert!(matches!(
        error_of(&writer.finish(8)),
        DecompressionError::BadDistanceHuffmanTree
    ));
}

#[test]
fn single_distance_code() {
    // "A", then three more from one byte back. The only distance code word is 0.
    let mut writer = start_dynamic(258, 1);
    three_symbols(&mut writer);
    writer.code(0b01, 2);
    writer.code(0b0, 1);
    writer.code(0b11, 2);
    writer.code(0b0, 1);
    writer.code(0b10, 2);
    let mut stream = writer.finish(0);
    // Adler-32 of "AAAA".
    stream.extend_from_slice(&[0x02, 0x8e, 0x01, 0x05]);
    assert_eq!(decompress_to_vec(&stream).unwrap(), b"AAAA");
    // The code word 1 is no distance.
    let mut writer = start_dynamic(258, 1);
    three_symbols(&mut writer);
    writer.code(0b01, 2);
    writer.code(0b0, 1);
    writer.code(0b11, 2);
    writer.code(0b1, 1);
    assert!(matches!(
        error_of(&writer.finish(8)),
        DecompressionError::InvalidDistanceCode
    ));
}

#[test]
fn no_distance_code() {
    let mut writer = start_dynamic(258, 1);
    three_symbols(&mut writer);
    writer.code(0b00, 2);
    writer.code(0b0, 1);
    writer.code(0b11, 2);
    assert!(matches!(
        error_of(&writer.finish(8)),
        DecompressionError::InvalidDistanceCode
    ));
}

#[test]
fn invalid_literal_length_code() {
    // Symbols 286 and 287 have code words in the fixed code but no meaning.
    for symbol in [286, 287] {
        let mut writer = BitWriter::new();
        writer.field(1, 1);
        writer.field(1, 2);
        writer.code(0b1100_0000 + symbol - 280, 8);
        assert!(matches!(
            error_of(&writer.finish(8)),
            DecompressionError::InvalidLiteralLengthCode
        ));
    }
}

#[test]
fn invalid_distance_code() {
    for symbol in [30, 31] {
        let mut writer = BitWriter::new();
        writer.field(1, 1);
        writer.field(1, 2);
        writer.code(0x30 + 65, 8);
        writer.code(1, 7);
        writer.code(symbol, 5);
        assert!(matches!(
            error_of(&writer.finish(8)),
            DecompressionError::InvalidDistanceCode
        ));
    }
}

#[test]
fn distance_too_far_back() {
    let mut writer = BitWriter::new();
    writer.field(1, 1);
    writer.field(1, 2);
    writer.code(0x30 + 65, 8);
    writer.code(1, 7);
    writer.code(1, 5);
    assert!(matches!(
        error_of(&writer.finish(8)),
        DecompressionError::DistanceTooFarBack
    ));
}

#[test]
fn wrong_checksum() {
    // "AB" in a stored block; its Adler-32 is 0x00c60084.
    let good = [0x78, 0x01, 1, 2, 0, 0xfd, 0xff, 65, 66, 0x00, 0xc6, 0x00, 0x84];
    assert_eq!(decompress_to_vec(&good).unwrap(), b"AB");
    for i in 9..13 {
        let mut bad = good;
        bad[i] ^= 1;
        assert!(matches!(error_of(&bad), DecompressionError::WrongChecksum));
    }
}

#[test]
fn errors_do_not_depend_on_what_follows() {
    let mut writer = BitWriter::new();
    writer.field(1, 1);
    writer.field(1, 2);
    writer.code(0x30 + 65, 8);
    writer.code(1, 7);
    writer.code(1, 5);
    let mut stream = writer.finish(8);
    for byte in 0..=255 {
        stream.push(byte);
        assert!(matches!(
            error_of(&stream),
            DecompressionError::DistanceTooFarBack
        ));
    }
}

#[test]
fn input_starts_with_run() {
    // The first symbol is a back reference of length 3 and distance 1.
    let stream = [0x78, 0x01, 0x03, 0x02, 0, 0, 0, 0, 0];
    assert!(matches!(
        error_of(&stream),
        DecompressionError::InputStartsWithRun
    ));
    // No distance makes a difference.
    for symbol in 0..30 {
        let mut writer = BitWriter::new();
        writer.field(1, 1);
        writer.field(1, 2);
        writer.code(1, 7);
        writer.code(symbol, 5);
        assert!(matches!(
            error_of(&writer.finish(8)),
            DecompressionError::InputStartsWithRun
        ));
    }
    // Nothing is written.
    let mut decoder = Decompressor::new();
    let mut output = [0; 8];
    assert!(matches!(
        decoder.read(&stream, &mut output, 0, true),
        Err(DecompressionError::InputStartsWithRun)
    ));
    assert_eq!(output, [0; 8]);
    assert!(!decoder.done());
}

#[test]
fn not_done_after_an_error() {
    // "Hello world!" with a checksum that is off by one.
    let stream = [
        0x78, 0x9c, 0xf3, 0x48, 0xcd, 0xc9, 0xc9, 0x57, 0x28, 0xcf, 0x2f, 0xca, 0x49, 0x51, 0x04,
        0x00, 0x1d, 0x09, 0x04, 0x5f,
    ];
    let mut decoder = Decompressor::new();
    let mut output = [0; 64];
    assert!(matches!(
        decoder.read(&stream, &mut output, 0, true),
        Err(DecompressionError::WrongChecksum)
    ));
    assert!(!decoder.done());
    // All output was written before the error.
    assert_eq!(&output[..12], b"Hello world!");
    assert!(output[12..].iter().all(|&b| b == 0));
    let mut stream = stream;
    stream[19] = 0x5e;
    assert_eq!(decompress_to_vec(&stream).unwrap(), b"Hello world!");
}

/// A full buffer is handed back before an error that comes after it.
#[test]
fn output_comes_before_an_error() {
    let stream = [
        0x78, 0x9c, 0xf3, 0x48, 0xcd, 0xc9, 0xc9, 0x57, 0x28, 0xcf, 0x2f, 0xca, 0x49, 0x51,
    ];
    let mut decoder = Decompressor::new();
    let mut output = [0; 5];
    let (consumed, produced) = decoder.read(&stream, &mut output, 0, true).unwrap();
    assert_eq!(produced, 5);
    assert_eq!(&output, b"Hello");
    let mut output = vec![0; 64];
    output[..5].copy_from_slice(b"Hello");
    assert!(matches!(
        decoder.read(&stream[consumed..], &mut output, 5, true),
        Err(DecompressionError::InsufficientInput)
    ));
    assert!(!decoder.done());
    assert_eq!(&output[..9], b"Hello wor");
}
