use lz78::error::Error;
use lz78::{LZ78Compressor, LZ78Decompressor};
use lz78::code::Code;

#[test]
fn zero() {
    assert_eq!(0, Code(0).min_bits());
}

#[test]
fn one() {
    assert_eq!(1, Code(1).min_bits());
}

#[test]
fn eight_bits() {
    assert_eq!(8, Code(255).min_bits());
    assert_eq!(8, Code(128).min_bits());
    assert_eq!(8, Code(192).min_bits());
}

#[test]
fn seven_to_eight_bits() {
    assert_eq!(7, Code(127).min_bits());
    assert_eq!(8, Code(128).min_bits());
    assert_eq!(16, Code(65535).min_bits());
}

#[test]
fn compress_one_byte() {
    let mut c = LZ78Compressor::new();
    let data = b"a";
    assert_eq!(c.write(&data[..]).unwrap(), 0);
    let (_, compressed) = c.finalize().unwrap();
    let expected = b"a";
    assert_eq!(compressed, expected);
}

#[test]
fn compress_two_equal_bytes() {
    let mut c = LZ78Compressor::new();
    let data = b"aa";
    assert_eq!(c.write(&data[..]).unwrap(), 0);
    let (_, compressed) = c.finalize().unwrap();
    let expected = vec![0b0110_0001, 0b1000_0000];
    assert_eq!(compressed, expected);
}

#[test]
fn compress_three_equal_bytes() {
    let mut c = LZ78Compressor::new();
    let data = b"aaa";
    assert_eq!(c.write(&data[..]).unwrap(), 0);
    let (_, compressed) = c.finalize().unwrap();
    let expected = vec![0b0110_0001, 0b1011_0000, 0b1000_0000];
    assert_eq!(compressed, expected);
}

#[test]
fn four_equal_bytes() {
    let mut c = LZ78Compressor::new();
    let data = b"aaaa";
    assert_eq!(c.write(&data[..]).unwrap(), 0);
    let (n, compressed) = c.finalize().unwrap();
    assert_eq!(n, 3);
    let expected = vec![0b0110_0001, 0b1011_0000, 0b1010_0000];
    assert_eq!(compressed, expected);
}

#[test]
fn compress_zero_through_six() {
    let mut c = LZ78Compressor::new();
    let data = [0, 1, 2, 3, 4, 5, 6];
    assert_eq!(c.write(&data[..]).unwrap(), 8);
    let (n, compressed) = c.finalize().unwrap();
    assert_eq!(n, 1);
    let expected = vec![
        0b00000000,
        0b0_0000000,
        0b1_00_00000,
        0b010_00_000,
        0b00011_000,
        0b00000100,
        0b000_00000,
        0b101_000_00,
        0b000110_00,
    ];
    assert_eq!(compressed, expected);
}

#[test]
fn compress_zero_forty_forty() {
    let mut c = LZ78Compressor::new();
    let data = [0, 40, 40];
    assert_eq!(c.write(&data[..]).unwrap(), 0);
    let (n, compressed) = c.finalize().unwrap();
    assert_eq!(n, 3);
    let expected = vec![0b00000000, 0b0_0010100, 0b0_10_00000];
    assert_eq!(compressed, expected);
}

#[test]
fn decompress_one_byte() {
    let mut d = LZ78Decompressor::new();
    let data = b"a";
    assert_eq!(d.read(&data[..]).unwrap(), 1);
    let (_, uncompressed) = d.finalize().unwrap();
    let expected = b"a";
    assert_eq!(uncompressed, expected);
}

#[test]
fn decompress_two_equal_bytes() {
    let mut d = LZ78Decompressor::new();
    let data = vec![0b0110_0001, 0b1000_0000];
    let expected = b"aa";
    assert_eq!(d.read(&data[..]).unwrap(), 2);
    let (_, uncompressed) = d.finalize().unwrap();
    assert_eq!(uncompressed, expected);
}

#[test]
fn decompress_three_equal_bytes() {
    let mut d = LZ78Decompressor::new();
    let data = vec![0b0110_0001, 0b1011_0000, 0b1000_0000];
    let expected = b"aaa";
    assert_eq!(d.read(&data[..]).unwrap(), 3);
    let (_, uncompressed) = d.finalize().unwrap();
    assert_eq!(uncompressed, expected);
}

#[test]
fn decompress_zero_through_six() {
    let mut d = LZ78Decompressor::new();
    let data = vec![
        0b00000000,
        0b0_0000000,
        0b1_00_00000,
        0b010_00_000,
        0b00011_000,
        0b00000100,
        0b000_00000,
        0b101_000_00,
        0b000110_00,
    ];
    let expected = [0, 1, 2, 3, 4, 5, 6];
    assert_eq!(d.read(&data[..]).unwrap(), 7);
    let (n, uncompressed) = d.finalize().unwrap();
    assert_eq!(n, 0);
    assert_eq!(uncompressed, expected);
}

#[test]
fn decompress_zero_forty_forty() {
    let mut d = LZ78Decompressor::new();
    let data = vec![0b00000000, 0b0_0010100, 0b0_10_00000];
    let expected = [0, 40, 40];
    assert_eq!(d.read(&data[..]).unwrap(), 3);
    let (n, uncompressed) = d.finalize().unwrap();
    assert_eq!(n, 0);
    assert_eq!(uncompressed, expected);
}

fn roundtrip(data: &[u8]) {
    let mut c = LZ78Compressor::new();
    c.write(data).unwrap();
    let (_, compressed) = c.finalize().unwrap();
    let mut d = LZ78Decompressor::new();
    d.read(&compressed).unwrap();
    let (_, uncompressed) = d.finalize().unwrap();
    assert_eq!(data, &uncompressed[..]);
}

#[test]
fn roundtrip_empty() {
    roundtrip(b"");
}

#[test]
fn roundtrip_simple() {
    roundtrip(b"a");
    roundtrip(b"aa");
    roundtrip(b"abcabcabcabc");
    roundtrip(b"to be or not to be, that is the question");
    roundtrip(&[0, 1, 2, 3, 4, 5, 6]);
    roundtrip(&[0, 40, 40]);
}

#[test]
fn roundtrip_many_codes() {
    let mut data = Vec::new();
    for i in 0..2000u32 {
        data.push((i % 251) as u8);
        data.push((i / 7 % 256) as u8);
    }
    roundtrip(&data);
}

#[test]
fn chunked_write_matches_whole() {
    let data = b"abcabcabcdabcdeabcdef";
    let mut c1 = LZ78Compressor::new();
    assert!(c1.write(&data[..]).is_ok());
    let (_, whole) = c1.finalize().unwrap();
    let mut c2 = LZ78Compressor::new();
    c2.write(&data[..1]).unwrap();
    c2.write(&data[1..6]).unwrap();
    c2.write(&data[6..6]).unwrap();
    c2.write(&data[6..]).unwrap();
    let (_, chunked) = c2.finalize().unwrap();
    assert_eq!(whole, chunked);
}

#[test]
fn chunked_read_matches_whole() {
    let data = b"abcabcabcdabcdeabcdef";
    let mut c = LZ78Compressor::new();
    c.write(&data[..]).unwrap();
    let (_, compressed) = c.finalize().unwrap();

    let mut d1 = LZ78Decompressor::new();
    d1.read(&compressed).unwrap();
    let (_, whole) = d1.finalize().unwrap();

    let mut d2 = LZ78Decompressor::new();
    let mut total: usize = 0;
    for chunk in compressed.chunks(2) {
        total += d2.read(chunk).unwrap();
    }
    let (_, chunked) = d2.finalize().unwrap();
    assert_eq!(whole, chunked);
    assert_eq!(total, data.len());
}

#[test]
fn bad_code_is_fatal() {
    // Two valid transactions put "a" and "ab" in the dictionary; the next
    // code field is two bits wide and holds 3, which no entry answers to.
    let mut d = LZ78Decompressor::new();
    let data = vec![0b0110_0001, 0b1011_0001, 0b0110_0000];
    let r = d.read(&data);
    assert!(matches!(r, Err(Error::BadCode(3))));
}

#[test]
fn wait_for_more_input_is_internal() {
    // A half-read transaction is not an error: the call decodes what it
    // can and buffers the leftover bits for the next call.
    let mut d = LZ78Decompressor::new();
    // One whole transaction (code 0, literal 'a') then a 1-bit code for
    // "a"; the follow-up literal never arrives.
    let data = vec![0b0110_0001, 0b1011_0001];
    let n = d.read(&data[..1]).unwrap();
    assert_eq!(n, 1);
    let n2 = d.read(&data[1..]).unwrap();
    assert_eq!(n2, 1);
    let (_, out) = d.finalize().unwrap();
    assert_eq!(out, b"aa");
}
