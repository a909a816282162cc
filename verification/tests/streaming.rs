//! Decompression in chunks.
use fdeflate::{decompress_to_vec, DecompressionError, Decompressor};
use rand::{Rng, SeedableRng};

/// Data with many back references, literal runs and runs of zeros.
fn sample(seed: u64, len: usize) -> Vec<u8> {
    let mut rng = rand::rngs::StdRng::seed_from_u64(seed);
    let mut data: Vec<u8> = Vec::new();
    while data.len() < len {
        match rng.gen_range(0..4) {
            0 => {
                let n = rng.gen_range(1..300);
                data.extend_from_slice(&vec![0; n]);
            }
            1 => {
                for _ in 0..rng.gen_range(1..200) {
                    data.push(rng.gen::<u8>() % 7);
                }
            }
            2 => {
                for _ in 0..rng.gen_range(1..50) {
                    data.push(rng.gen());
                }
            }
            _ => {
                let n = rng.gen_range(0..data.len().min(40000) + 1);
                let start = data.len() - n;
                for i in 0..rng.gen_range(1..600) {
                    if n == 0 {
                        break;
                    }
                    let byte = data[start + i % n];
                    data.push(byte);
                }
            }
        }
    }
    data.truncate(len);
    data
}

/// Decompresses with `input_step` bytes of input and `output_step` bytes of space at a time. Where
/// these are too few to make headway, more input is added to them.
fn decompress_in_steps(stream: &[u8], input_step: usize, output_step: usize) -> Vec<u8> {
    let mut decoder = Decompressor::new();
    let mut output: Vec<u8> = Vec::new();
    let mut input_index = 0;
    let mut output_index = 0;
    let mut added = 0;
    while !decoder.done() {
        output.resize(output_index + output_step, 0);
        let end = (input_index + input_step + added).min(stream.len());
        let (consumed, produced) = decoder
            .read(
                &stream[input_index..end],
                &mut output,
                output_index,
                end == stream.len(),
            )
            .unwrap();
        assert!(consumed <= end - input_index);
        assert!(produced <= output_step);
        assert!(output[output_index + produced..].iter().all(|&b| b == 0));
        if consumed == 0 && produced == 0 {
            added += 1;
        } else {
            added = 0;
        }
        // Not even the longest header needs this much input at once.
        assert!(added <= 10);
        input_index += consumed;
        output_index += produced;
    }
    output.truncate(output_index);
    output
}

#[test]
fn steps_make_no_difference() {
    for seed in 0..4 {
        let data = sample(seed, 20000);
        for level in [0, 1, 3, 6, 9] {
            let stream = miniz_oxide::deflate::compress_to_vec_zlib(&data, level);
            assert_eq!(decompress_to_vec(&stream).unwrap(), data);
            for (input_step, output_step) in
                [(1, 1024), (2, 2), (3, 7), (1000, 2), (100000, 3), (100000, 259), (7, 100000)]
            {
                assert_eq!(decompress_in_steps(&stream, input_step, output_step), data);
            }
        }
    }
}

#[test]
fn long_data() {
    let data = sample(99, 300_000);
    for level in [1, 9] {
        let stream = miniz_oxide::deflate::compress_to_vec_zlib(&data, level);
        assert_eq!(decompress_to_vec(&stream).unwrap(), data);
    }
}

/// A back reference of 258 bytes with two bytes of space at a time: each byte is written once.
#[test]
fn queued_back_reference() {
    let mut data = b"abc".to_vec();
    for i in 0..257 {
        data.push(data[i]);
    }
    let stream = miniz_oxide::deflate::compress_to_vec_zlib(&data, 9);
    assert_eq!(decompress_in_steps(&stream, 1000, 2), data);
}

/// Runs of zeros that end beyond the space.
#[test]
fn queued_zeros() {
    let mut data = vec![0; 11];
    data.push(9);
    data.extend_from_slice(&[0; 30]);
    data.push(9);
    for level in [1, 9] {
        let stream = miniz_oxide::deflate::compress_to_vec_zlib(&data, level);
        for step in 2..20 {
            assert_eq!(decompress_in_steps(&stream, 1000, step), data);
        }
    }
}

fn adler32(data: &[u8]) -> u32 {
    let mut a: u32 = 1;
    let mut b: u32 = 0;
    for &byte in data {
        a = (a + byte as u32) % 65521;
        b = (b + a) % 65521;
    }
    (b << 16) | a
}

/// A stream of stored blocks.
fn stored(chunks: &[&[u8]]) -> Vec<u8> {
    let mut stream = vec![0x78, 0x01];
    let mut data = Vec::new();
    for (i, chunk) in chunks.iter().enumerate() {
        stream.push((i + 1 == chunks.len()) as u8);
        stream.extend_from_slice(&(chunk.len() as u16).to_le_bytes());
        stream.extend_from_slice(&(!(chunk.len() as u16)).to_le_bytes());
        stream.extend_from_slice(chunk);
        data.extend_from_slice(chunk);
    }
    stream.extend_from_slice(&adler32(&data).to_be_bytes());
    stream
}

#[test]
fn stored_blocks() {
    let data = sample(5, 65535);
    let streams = [
        (stored(&[&[]]), Vec::new()),
        (stored(&[b"a"]), b"a".to_vec()),
        (stored(&[b"a", b"", b"bc", b"defghijklmnop"]), b"abcdefghijklmnop".to_vec()),
        (stored(&[&data]), data.clone()),
        (stored(&[&data[..3], &data[3..]]), data.clone()),
    ];
    for (stream, expected) in &streams {
        assert_eq!(&decompress_to_vec(stream).unwrap(), expected);
        for (input_step, output_step) in [(1, 300), (100000, 2), (3, 5), (100000, 100000)] {
            assert_eq!(&decompress_in_steps(stream, input_step, output_step), expected);
        }
    }
}

/// Several blocks with their own codes, each with other code lengths than the one before.
#[test]
fn several_dynamic_blocks() {
    let mut data = sample(11, 100_000);
    for (i, byte) in data.iter_mut().enumerate() {
        if i / 25_000 % 2 == 1 {
            *byte = byte.wrapping_mul(37) ^ 0xa5;
        }
    }
    let stream = miniz_oxide::deflate::compress_to_vec_zlib(&data, 9);
    assert_eq!(decompress_to_vec(&stream).unwrap(), data);
}

#[test]
fn finished() {
    let stream = stored(&[b"abc"]);
    let mut decoder = Decompressor::new();
    assert!(!decoder.done());
    let mut output = vec![0; 10];
    let (consumed, produced) = decoder.read(&stream, &mut output, 0, true).unwrap();
    assert!(decoder.done());
    assert_eq!(consumed, stream.len());
    assert_eq!(produced, 3);
    assert_eq!(&output[..3], b"abc");
    // From now on nothing is read or written.
    let (consumed, produced) = decoder.read(&stream, &mut output, 10, true).unwrap();
    assert_eq!((consumed, produced), (0, 0));
    assert_eq!(&output[..], b"abc\0\0\0\0\0\0\0");
}

#[test]
fn trailing_data() {
    let data = sample(3, 1000);
    let mut stream = miniz_oxide::deflate::compress_to_vec_zlib(&data, 6);
    for byte in 0..40 {
        stream.push(byte);
        assert_eq!(decompress_to_vec(&stream).unwrap(), data);
    }
}

#[test]
fn header_in_parts() {
    let stream = stored(&[b"abc"]);
    let mut decoder = Decompressor::new();
    let mut output = vec![0; 10];
    assert_eq!(decoder.read(&[], &mut output, 0, false).unwrap(), (0, 0));
    // The two bytes of the header are taken together.
    assert_eq!(decoder.read(&stream[..1], &mut output, 0, false).unwrap(), (0, 0));
    let (consumed, produced) = decoder.read(&stream[..2], &mut output, 0, false).unwrap();
    assert_eq!((consumed, produced), (2, 0));
    let (_, produced) = decoder.read(&stream[2..], &mut output, 0, true).unwrap();
    assert_eq!(produced, 3);
    assert!(decoder.done());
}

#[test]
fn end_of_input() {
    let stream = stored(&[b"abc"]);
    let mut decoder = Decompressor::new();
    let mut output = vec![0; 10];
    let (consumed, produced) = decoder.read(&stream[..9], &mut output, 0, false).unwrap();
    assert_eq!((consumed, produced), (9, 2));
    assert!(matches!(
        decoder.read(&[], &mut output, 2, true),
        Err(DecompressionError::InsufficientInput)
    ));
}

/// A decoder that keeps only the last 32 KiB of its output.
#[test]
fn sliding_window() {
    let data = sample(21, 200_000);
    let stream = miniz_oxide::deflate::compress_to_vec_zlib(&data, 9);
    let mut decoder = Decompressor::new();
    let mut window = vec![0; 32768 + 5000];
    let mut output = Vec::new();
    let mut input_index = 0;
    let mut position = 0;
    while !decoder.done() {
        let (consumed, produced) = decoder
            .read(&stream[input_index..], &mut window, position, true)
            .unwrap();
        input_index += consumed;
        output.extend_from_slice(&window[position..position + produced]);
        position += produced;
        if position > 32768 {
            let start = position - 32768;
            window.copy_within(start..position, 0);
            position = 32768;
            for byte in &mut window[position..] {
                *byte = 0;
            }
        }
    }
    assert_eq!(output, data);
}

/// The output is at most 1032 times as long as the input, and gets near that.
#[test]
fn expansion() {
    let data = vec![0; 2_000_000];
    let stream = miniz_oxide::deflate::compress_to_vec_zlib(&data, 9);
    assert_eq!(decompress_to_vec(&stream).unwrap(), data);
    assert!(data.len() <= 1032 * stream.len());
    assert!(data.len() >= 900 * stream.len());
}
