//! Round trips through compressors.
use fdeflate::tables::{
    LENGTH_TO_LEN_EXTRA, LENGTH_TO_SYMBOL, LEN_SYM_TO_LEN_BASE, LEN_SYM_TO_LEN_EXTRA,
};
use fdeflate::{decompress_to_vec, DecompressionError};
use rand::Rng;

/// Appends `count` bits, the least significant one first.
fn push_bits(bits: &mut Vec<bool>, field: u32, count: u32) {
    for i in 0..count {
        bits.push((field >> i) & 1 == 1);
    }
}

/// Appends a code word of `count` bits, the most significant one first.
fn push_code(bits: &mut Vec<bool>, code: u32, count: u32) {
    for i in (0..count).rev() {
        bits.push((code >> i) & 1 == 1);
    }
}

fn adler32(data: &[u8]) -> u32 {
    let mut a: u32 = 1;
    let mut b: u32 = 0;
    for &byte in data {
        a = (a + byte as u32) % 65521;
        b = (b + a) % 65521;
    }
    (b << 16) | a
}

/// A zlib stream with one block in the fixed code, all literals.
fn compress_to_vec(data: &[u8]) -> Vec<u8> {
    let mut bits = Vec::new();
    push_bits(&mut bits, 1, 1);
    push_bits(&mut bits, 1, 2);
    for &byte in data {
        if byte < 144 {
            push_code(&mut bits, 0x30 + byte as u32, 8);
        } else {
            push_code(&mut bits, 0x190 + byte as u32 - 144, 9);
        }
    }
    push_code(&mut bits, 0, 7);
    let mut stream = vec![0x78, 0x01];
    for chunk in bits.chunks(8) {
        let mut byte = 0u8;
        for (i, &bit) in chunk.iter().enumerate() {
            byte |= (bit as u8) << i;
        }
        stream.push(byte);
    }
    stream.extend_from_slice(&adler32(data).to_be_bytes());
    stream
}

fn roundtrip(data: &[u8]) {
    let compressed = compress_to_vec(data);
    let decompressed = decompress_to_vec(&compressed).unwrap();
    assert_eq!(&decompressed, data);
}

fn roundtrip_miniz_oxide(data: &[u8]) {
    let compressed = miniz_oxide::deflate::compress_to_vec_zlib(data, 3);
    let decompressed = decompress_to_vec(&compressed).unwrap();
    assert_eq!(decompressed.len(), data.len());
    for (i, (a, b)) in decompressed.chunks(1).zip(data.chunks(1)).enumerate() {
        assert_eq!(a, b, "chunk {}..{}", i * 1, i * 1 + 1);
    }
    assert_eq!(&decompressed, data);
}

fn compare_decompression(data: &[u8]) {
    let decompressed = decompress_to_vec(&data).unwrap();
    let decompressed2 = miniz_oxide::inflate::decompress_to_vec_zlib(&data).unwrap();
    for (i, (a, b)) in decompressed
        .chunks(1)
        .zip(decompressed2.chunks(1))
        .enumerate()
    {
        assert_eq!(a, b, "index {i}");
    }
    if decompressed != decompressed2 {
        panic!(
            "length mismatch {} {} {:x?}",
            decompressed.len(),
            decompressed2.len(),
            &decompressed2[decompressed.len()..][..16]
        );
    }
}

#[test]
fn tables() {
    for (i, &bits) in LEN_SYM_TO_LEN_EXTRA.iter().enumerate() {
        let len_base = LEN_SYM_TO_LEN_BASE[i];
        for j in 0..(1 << bits) {
            if i == 27 && j == 31 {
                continue;
            }
            assert_eq!(LENGTH_TO_LEN_EXTRA[len_base + j - 3], bits, "{} {}", i, j);
            assert_eq!(
                LENGTH_TO_SYMBOL[len_base + j - 3],
                i as u16 + 257,
                "{} {}",
                i,
                j
            );
        }
    }
}

#[test]
fn it_works() {
    roundtrip(b"Hello world!");
}

#[test]
fn constant() {
    roundtrip_miniz_oxide(&vec![0; 50]);
    roundtrip_miniz_oxide(&vec![5; 2048]);
    roundtrip_miniz_oxide(&vec![128; 2048]);
    roundtrip_miniz_oxide(&vec![254; 2048]);
}

#[test]
fn random() {
    let mut rng = rand::thread_rng();
    let mut data = vec![0; 50000];
    for _ in 0..10 {
        for byte in &mut data {
            *byte = rng.gen::<u8>() % 5;
        }
        println!("Random data: {:?}", data);
        roundtrip_miniz_oxide(&data);
    }
}

#[test]
fn simple() {
    let mut data = [
        120, 1, 154, 41, 120, 1, 0, 255, 0, 0, 255, 1, 0, 0, 41, 41, 169, 93, 41, 255, 0, 0, 0,
        13, 120, 1, 237, 224, 1, 144, 36, 73, 146, 36, 73, 18, 139, 0, 0, 0, 16, 0, 0, 0, 0, 0,
        0, 0, 0, 204, 204, 0, 0, 0, 0, 0, 0, 8, 0, 0, 0, 0, 0, 0, 0, 0, 0, 0, 0, 0, 0, 10, 0,
        0, 0, 0, 0, 0, 0, 0, 0, 0, 0, 0, 0, 0, 0, 0, 0, 0, 0, 249, 0, 0, 0, 0, 0, 0, 0, 0, 0,
        0, 0, 0, 0, 0, 0, 0, 0, 0, 0, 0, 0, 0, 0, 0, 0, 0, 0, 0, 0, 0, 0, 0, 0, 0, 0, 0, 0, 0,
        0, 0, 0, 0, 0, 0, 170, 153, 187, 71, 68, 68, 102, 102, 102, 86, 117, 7, 7, 7, 7, 7, 7,
        7, 7, 7, 7, 7, 7, 7, 7, 7, 7, 7, 7, 7, 7, 7, 7, 7, 7, 7, 7, 7, 7, 7, 7, 7, 7, 7, 7, 7,
        7, 78, 85, 85, 119, 119, 119, 119, 119, 247, 204, 204, 204, 204, 204, 204, 204, 204,
        204, 204, 204, 204, 255, 255, 255, 255, 255, 255, 0, 108, 204, 204, 204, 204, 204, 204,
        204, 204, 204, 204, 204, 204, 204, 204, 204, 204, 204, 204, 204, 204, 203, 204, 204,
        204, 204, 204, 204, 204, 204, 204, 204, 204, 204, 204, 204, 204, 204, 204, 204, 204,
        204, 120, 1, 5, 224, 1, 144, 36, 73, 146, 36, 73, 18, 139, 170, 153, 187, 71, 68, 68,
        154, 41, 120, 1, 0, 255, 0, 0, 255, 1, 0, 0, 40, 41, 41, 41, 169, 255, 0, 0, 0, 13,
        120, 1, 237, 224, 1, 144, 32, 146, 36, 73, 18, 139, 0, 0, 0, 16, 0, 255, 255, 255, 255,
        255, 255, 255, 255, 255, 255, 255, 255, 255, 255, 255, 255, 255, 255, 255, 255, 255,
        255, 255, 255, 255, 255, 255, 255, 255, 255, 255, 255, 255, 255, 255, 255, 255, 255,
        255, 255, 255, 255, 255, 255, 255, 255, 255, 255, 255, 255, 255, 255, 255, 255, 255,
        255, 255, 255, 255, 255, 255, 255, 255, 255, 255, 255, 255, 255, 255, 255, 255, 255,
        255, 255, 255, 255, 255, 255, 255, 255, 255, 255, 0, 0, 0, 0, 0, 0, 0, 0, 0, 0, 0, 0,
        68, 102, 102, 102, 86, 117, 7, 7, 7, 7, 7, 7, 7, 7, 7, 7, 7, 7, 7, 7, 7, 7, 7, 7, 7, 7,
        7, 7, 7, 7, 7, 7, 7, 7, 7, 7, 7, 7, 7, 7, 7, 7, 78, 85, 85, 119, 119, 119, 119, 119,
        247, 204, 204, 204, 204, 204, 204, 204, 204, 204, 204, 204, 204, 255, 255, 255, 255,
        255, 255, 0, 108, 204, 204, 204, 204, 204, 204, 204, 204, 204, 204, 204, 204, 204, 204,
        204, 204, 204, 204, 204, 204, 204, 204, 204, 204, 204, 204, 204, 204, 204, 204, 204,
        204, 204, 204, 204, 204, 204, 204, 204, 204, 204, 120, 1, 5, 224, 1, 144, 36, 73, 146,
        36, 73, 18, 139, 170, 153, 187, 71, 68, 68, 154, 41, 120, 1, 0, 255, 0, 0, 255, 1, 0,
        0, 93, 41, 41, 41, 169, 255, 0, 0, 0, 13, 239, 239, 239, 239, 239, 239, 239, 239, 239,
        239, 239, 239, 239, 239, 239, 239, 239, 239, 239, 239, 239, 239, 239, 239, 239, 239,
        239, 239, 239, 239, 239, 239, 239, 239, 239, 239, 239, 239, 239, 239, 239, 239, 239,
        239, 239, 239, 239, 239, 239, 239, 239, 239, 239, 239, 239, 239, 239, 239, 239, 239,
        239, 239, 239, 239, 239, 239, 239, 239, 239, 239, 239, 239, 239, 239, 239, 239, 239,
        239, 239, 239, 239, 239, 239, 239, 239, 239, 239, 239, 239, 239, 239, 239, 239, 239,
        239, 0, 0, 0, 0, 0, 0, 0, 0, 0, 0, 0, 0, 0, 0, 0, 0, 0, 0, 0, 0, 0, 0, 170, 153, 187,
        71, 68, 68, 102, 102, 102, 86, 117, 7, 7, 7, 7, 7, 7, 7, 7, 7, 7, 7, 7, 7, 7, 7, 7, 7,
        7, 7, 7, 7, 7, 7, 7, 7, 7, 7, 7, 7, 7, 7, 7, 7, 7, 7, 7, 78, 85, 85, 119, 119, 119,
        119, 119, 247, 204, 204, 204, 204, 204, 204, 204, 204, 204, 204, 204, 204, 255, 255,
        255, 255, 255, 255, 0, 108, 204, 204, 204, 204, 204, 204, 204, 204, 204, 204, 204, 204,
        204, 204, 204, 204, 204, 204, 204, 204, 203, 204, 204, 204, 204, 204, 204, 204, 204,
        204, 204, 204, 204, 204, 204, 204, 204, 204, 204, 204, 204, 120, 1, 5, 224, 1, 144, 36,
        73, 146, 36, 73, 18, 139, 170, 153, 187, 71, 68, 68, 154, 41, 120, 1, 0, 255, 0, 0,
        255, 1, 0, 0, 40, 41, 41, 41, 169, 255, 0, 0, 0, 13, 120, 1, 237, 224, 1, 144, 32, 146,
        36, 73, 18, 139, 0, 0, 0, 16, 0, 255, 255, 255, 255, 255, 255, 255, 255, 255, 255, 255,
        255, 255, 255, 255, 255, 255, 255, 255, 255, 255, 255, 255, 255, 255, 255, 255, 255,
        255, 255, 255, 255, 255, 255, 255, 255, 255, 255, 255, 255, 255, 63, 255, 255, 255,
        255, 255, 255, 255, 255, 255, 255, 255, 255, 255, 255, 255, 255, 255, 255, 255, 255,
        255, 255, 255, 255, 255, 255, 255, 255, 255, 255, 255, 255, 255, 255, 255, 255, 255,
        255, 255, 255, 0, 0, 0, 0, 0, 0, 0, 0, 0, 0, 0, 0, 68, 102, 102, 102, 86, 117, 7, 7, 7,
        7, 7, 7, 7, 7, 7, 7, 7, 7, 7, 7, 7, 7, 7, 7, 7, 7, 7, 7, 7, 7, 7, 7, 7, 7, 7, 7, 7, 7,
        7, 7, 7, 7, 78, 85, 85, 119, 119, 119, 119, 119, 247, 204, 204, 204, 204, 204, 204,
        204, 204, 204, 204, 204, 204, 255, 255, 255, 255, 255, 255, 0, 108, 204, 204, 204, 204,
        204, 204, 204, 204, 204, 204, 204, 204, 204, 204, 204, 204, 204, 204, 204, 204, 204,
        204, 204, 204, 204, 204, 204, 204, 204, 204, 204, 204, 204, 204, 204, 204, 204, 204,
        204, 204, 204, 120, 1, 5, 224, 1, 144, 36, 73, 146, 36, 73, 18, 139, 170, 153, 187, 71,
        68, 68, 154, 41, 120, 1, 0, 255, 0, 0, 255, 1, 0, 0, 93, 41, 41, 41, 169, 255, 0, 0, 0,
        13, 239, 239, 239, 239, 239, 239, 239, 239, 239, 239, 239, 239, 239, 239, 239, 239,
        239, 239, 239, 239, 239, 239, 239, 239, 239, 239, 239, 239, 239, 239, 239, 239, 239,
        239, 239, 239, 239, 239, 239, 239, 239, 239, 239, 239, 239, 239, 239, 239, 239, 239,
        239, 239, 239, 239, 239, 239, 239, 239, 239, 239, 239, 239, 239, 239, 239, 239, 239,
        239, 239, 239, 239, 239, 239, 239, 239, 239, 239, 239, 239, 239, 239, 239, 239, 239,
        239, 239, 239, 239, 239, 239, 239, 239, 239, 239, 239, 239, 239, 239, 239, 239, 239,
        239, 239, 239, 239, 239, 239, 239, 239, 239, 239, 239, 239, 239, 239, 255, 255, 255,
        255, 255, 255, 0, 108, 144, 32, 146, 36, 73, 147, 147, 147, 147, 147, 147, 147, 147,
        147, 147, 147, 147, 147, 147, 147, 147, 147, 147, 147, 147, 147, 147, 147, 147, 147,
        147, 147, 147, 147, 147, 147, 147, 147, 147, 147, 147, 147, 147, 147, 147, 147, 147,
        147, 147, 147, 147, 147, 147, 147, 147, 147, 147, 147, 147, 147, 147, 147, 147, 147,
        147, 147, 147, 147, 147, 147, 147, 147, 147, 147, 147, 147, 147, 147, 147, 147, 147,
        147, 147, 147, 147, 147, 147, 147, 147, 147, 147, 147, 147, 147, 147, 147, 147, 147,
        147, 147, 147, 147, 147, 147, 147, 147, 147, 147, 147, 147, 147, 147, 147, 147, 147,
        147, 147, 147, 147, 147, 147, 147, 147, 147, 147, 147, 147, 147, 147, 147, 147, 147,
        18, 139, 0, 0, 0, 16, 0, 0, 0, 0, 0, 0, 0, 0, 0, 0, 0, 0, 0, 0, 0, 0, 0, 0, 0, 0, 0, 0,
        0, 0, 0, 0, 0, 0, 1, 5, 224, 1, 144, 36, 73, 146, 36, 73, 18, 139, 170, 153, 187, 71,
        68, 68, 154, 41, 120, 1, 0, 255, 0, 0, 255, 1, 0, 0, 93, 41, 41, 41, 169, 255, 0, 0, 0,
        13, 120, 1, 237, 224, 1, 144, 32, 146, 36, 73, 18, 139, 0, 0, 0, 16, 0, 0, 0, 0, 0, 0,
        0, 0, 0, 0, 0, 0, 0, 0, 0, 0, 0, 1, 5, 224, 1, 144, 36, 73, 146, 36, 73, 18, 139, 187,
        71, 68, 68, 154, 41, 120, 1, 0, 255, 0, 0, 255, 1, 0, 0, 93, 41, 41, 41, 169, 255, 0,
        0, 0, 13, 120, 1, 237, 224, 1, 144, 0, 68, 102, 230, 102, 86, 85, 85, 85, 85, 119, 119,
        119, 119, 119, 247, 204, 204, 204, 204, 204, 0, 0, 204, 204,
    ];
    // The deflate data is followed by four bytes that are not its checksum, and then by more
    // bytes, which are ignored.
    let end = 1356;
    assert!(matches!(
        decompress_to_vec(&data),
        Err(DecompressionError::WrongChecksum)
    ));
    assert!(miniz_oxide::inflate::decompress_to_vec_zlib(&data).is_err());
    let raw = miniz_oxide::inflate::decompress_to_vec(&data[2..]).unwrap();
    assert_eq!(raw.len(), 1607);
    data[end..end + 4].copy_from_slice(&adler32(&raw).to_be_bytes());
    compare_decompression(&data);
}
