use cryptoxide::blake2b::Blake2b;
use cryptoxide::digest::Digest;
use cryptoxide::model::{IV, SIGMA};

/// `n` bytes that do not repeat with the length of a block.
fn pattern(n: usize) -> Vec<u8> {
    (0..n).map(|i| ((i * 7 + 3) % 251) as u8).collect()
}

fn key_of(n: usize) -> Vec<u8> {
    (0..n).map(|i| i as u8).collect()
}

fn hash(outlen: usize, input: &[u8], key: &[u8]) -> Vec<u8> {
    let mut out = vec![0u8; outlen];
    Blake2b::blake2b(&mut out, input, key);
    out
}

#[test]
fn digest_of_nothing() {
    let expected = [
        0x78, 0x6a, 0x02, 0xf7, 0x42, 0x01, 0x59, 0x03, 0xc6, 0xc6, 0xfd, 0x85,
        0x25, 0x52, 0xd2, 0x72, 0x91, 0x2f, 0x47, 0x40, 0xe1, 0x58, 0x47, 0x61,
        0x8a, 0x86, 0xe2, 0x17, 0xf7, 0x1f, 0x54, 0x19, 0xd2, 0x5e, 0x10, 0x31,
        0xaf, 0xee, 0x58, 0x53, 0x13, 0x89, 0x64, 0x44, 0x93, 0x4e, 0xb0, 0x4b,
        0x90, 0x3a, 0x68, 0x5b, 0x14, 0x48, 0xb7, 0x55, 0xd5, 0x6f, 0x70, 0x1a,
        0xfe, 0x9b, 0xe2, 0xce,
    ];
    assert_eq!(hash(64, b"", b""), expected.to_vec());
}

#[test]
fn digest_of_abc() {
    let expected = [
        0xba, 0x80, 0xa5, 0x3f, 0x98, 0x1c, 0x4d, 0x0d, 0x6a, 0x27, 0x97, 0xb6,
        0x9f, 0x12, 0xf6, 0xe9, 0x4c, 0x21, 0x2f, 0x14, 0x68, 0x5a, 0xc4, 0xb7,
        0x4b, 0x12, 0xbb, 0x6f, 0xdb, 0xff, 0xa2, 0xd1, 0x7d, 0x87, 0xc5, 0x39,
        0x2a, 0xab, 0x79, 0x2d, 0xc2, 0x52, 0xd5, 0xde, 0x45, 0x33, 0xcc, 0x95,
        0x18, 0xd3, 0x8a, 0xa8, 0xdb, 0xf1, 0x92, 0x5a, 0xb9, 0x23, 0x86, 0xed,
        0xd4, 0x00, 0x99, 0x23,
    ];
    assert_eq!(hash(64, b"abc", b""), expected.to_vec());
}

#[test]
fn shortest_digest_and_key() {
    assert_eq!(hash(1, b"abc", b""), vec![0x6b]);
    assert_eq!(hash(1, b"abc", &[9]), vec![0x04]);
}

#[test]
fn digests_around_block_boundaries() {
    let cases: Vec<(usize, [u8; 16])> = vec![
        (0, [
            0xca, 0xe6, 0x69, 0x41, 0xd9, 0xef, 0xbd, 0x40, 0x4e, 0x4d, 0x88, 0x75,
            0x8e, 0xa6, 0x76, 0x70,
        ]),
        (1, [
            0x71, 0xb1, 0x86, 0xb8, 0x51, 0xe8, 0x66, 0xe7, 0x1b, 0xe2, 0x37, 0x34,
            0x29, 0x76, 0x04, 0x9a,
        ]),
        (127, [
            0x61, 0x7d, 0xce, 0x9b, 0x2c, 0x7c, 0x19, 0xb5, 0xf6, 0xc5, 0x50, 0xff,
            0x58, 0x4a, 0x92, 0xca,
        ]),
        (128, [
            0x12, 0x0a, 0xf2, 0xbd, 0x1e, 0xd9, 0x79, 0x28, 0x44, 0x99, 0x07, 0x29,
            0x4e, 0x27, 0xfb, 0xf5,
        ]),
        (129, [
            0x88, 0xf8, 0x7d, 0x5e, 0xce, 0x4a, 0x91, 0x73, 0xc1, 0x74, 0xa8, 0xd9,
            0x94, 0x1e, 0x9c, 0xc7,
        ]),
        (255, [
            0x68, 0x30, 0x14, 0x62, 0xa1, 0xd5, 0xe7, 0xeb, 0xf6, 0xa9, 0x47, 0x0e,
            0xf1, 0xe5, 0x8e, 0x1b,
        ]),
        (256, [
            0x1c, 0x82, 0x8f, 0xcd, 0xa9, 0x94, 0xe8, 0x98, 0x32, 0xba, 0x3f, 0xaf,
            0x8c, 0x2f, 0x3e, 0xd2,
        ]),
        (257, [
            0x56, 0x9e, 0x7e, 0x91, 0x35, 0x53, 0xb1, 0x33, 0x7d, 0x69, 0x9c, 0x2e,
            0xbf, 0x30, 0xa5, 0xa7,
        ]),
        (383, [
            0x70, 0xfa, 0x07, 0x31, 0xa5, 0x7b, 0xbd, 0x37, 0x16, 0x6c, 0xa4, 0xb1,
            0xd5, 0x0d, 0x40, 0xf3,
        ]),
        (384, [
            0xa5, 0xd4, 0x47, 0xc3, 0xb6, 0x4f, 0x23, 0xce, 0x01, 0xcc, 0x15, 0x17,
            0xd0, 0x04, 0x05, 0x8c,
        ]),
        (385, [
            0x61, 0x83, 0x0f, 0x22, 0xd3, 0x11, 0x9c, 0xa8, 0x8d, 0x21, 0xce, 0x5e,
            0x67, 0x6e, 0x8e, 0xb7,
        ]),
        (1000, [
            0x2b, 0xb8, 0xac, 0x8d, 0xc4, 0x7e, 0xbb, 0xe1, 0x77, 0x96, 0x78, 0xbc,
            0x19, 0x71, 0x91, 0x20,
        ]),
    ];
    for (n, expected) in cases {
        assert_eq!(hash(16, &pattern(n), b""), expected.to_vec());
    }
}

#[test]
fn keyed_digests_around_block_boundaries() {
    let cases: Vec<(usize, [u8; 16])> = vec![
        (0, [
            0x33, 0xc0, 0x62, 0x18, 0x83, 0xfa, 0x29, 0x24, 0xb4, 0xbd, 0xb7, 0xcc,
            0x5d, 0x1d, 0x9b, 0x39,
        ]),
        (1, [
            0xa8, 0xb7, 0x5b, 0x2d, 0xd5, 0x42, 0x48, 0x38, 0xf9, 0xbb, 0xcf, 0xd0,
            0x1f, 0xac, 0x2a, 0xdc,
        ]),
        (127, [
            0x20, 0x49, 0x37, 0x02, 0xd0, 0xe7, 0x72, 0x25, 0xa6, 0xd5, 0xc0, 0xbc,
            0xa5, 0x3a, 0xb2, 0x9c,
        ]),
        (128, [
            0xe7, 0x9a, 0xe3, 0x03, 0xc8, 0x89, 0x09, 0xd5, 0x78, 0x7c, 0x20, 0xf0,
            0xf9, 0x3e, 0x75, 0x04,
        ]),
        (129, [
            0x9f, 0x47, 0xb0, 0x44, 0x22, 0x4e, 0xcd, 0x9b, 0x34, 0x1a, 0x61, 0x9a,
            0x0d, 0xe0, 0xd9, 0x3f,
        ]),
        (256, [
            0x5b, 0x93, 0xcd, 0xb5, 0xce, 0xd0, 0xec, 0x23, 0x94, 0x1a, 0x53, 0x7a,
            0xa0, 0xfb, 0x77, 0x5e,
        ]),
        (300, [
            0xf8, 0xb0, 0x8e, 0x23, 0x85, 0x04, 0x66, 0xc8, 0x07, 0xdc, 0xa9, 0xd0,
            0x87, 0xed, 0xde, 0x12,
        ]),
    ];
    for (n, expected) in cases {
        assert_eq!(hash(16, &pattern(n), &key_of(17)), expected.to_vec());
    }
}

#[test]
fn input_may_be_split_anywhere() {
    let data = pattern(400);
    let expected = hash(48, &data, b"");
    for at in 0..401 {
        let mut b = Blake2b::new(48);
        b.input(&data[..at]);
        b.input(&data[at..]);
        let mut out = vec![0u8; 48];
        b.result(&mut out);
        assert_eq!(out, expected);
    }
}

#[test]
fn input_may_come_in_many_pieces() {
    let data = pattern(1000);
    let expected = hash(64, &data, &key_of(5));
    for size in [1, 3, 64, 127, 128, 129, 255, 256, 257] {
        let mut b = Blake2b::new_keyed(64, &key_of(5));
        for piece in data.chunks(size) {
            b.input(piece);
        }
        let mut out = vec![0u8; 64];
        b.result(&mut out);
        assert_eq!(out, expected);
    }
}

#[test]
fn empty_input_changes_nothing() {
    let mut b = Blake2b::new(64);
    b.input(b"abc");
    b.input(b"");
    let mut out = vec![0u8; 64];
    b.result(&mut out);
    assert_eq!(out, hash(64, b"abc", b""));
}

#[test]
fn reset_forgets_the_input() {
    let mut b = Blake2b::new(64);
    b.input(&pattern(300));
    b.reset();
    b.input(b"abc");
    let mut out = vec![0u8; 64];
    b.result(&mut out);
    assert_eq!(out, hash(64, b"abc", b""));
    Digest::reset(&mut b);
    b.result(&mut out);
    assert_eq!(out, hash(64, b"", b""));
}

#[test]
fn reset_keeps_key_and_length() {
    let key = key_of(64);
    let mut b = Blake2b::new_keyed(24, &key);
    b.input(&pattern(129));
    let mut out = vec![0u8; 24];
    b.result(&mut out);
    b.reset();
    b.input(b"abc");
    b.result(&mut out);
    assert_eq!(out, hash(24, b"abc", &key));
}

#[test]
fn result_may_be_asked_for_again() {
    let mut b = Blake2b::new(32);
    b.input(&pattern(200));
    let mut first = vec![0u8; 32];
    let mut second = vec![0u8; 32];
    b.result(&mut first);
    b.result(&mut second);
    assert_eq!(first, hash(32, &pattern(200), b""));
    assert_eq!(second, first);
}

#[test]
fn input_after_the_result_goes_to_the_buffer() {
    let mut b = Blake2b::new(64);
    let mut out = vec![0u8; 64];
    b.result(&mut out);
    b.input(b"abc");
    b.result(&mut out);
    let mut expected = hash(64, b"", b"");
    expected[..3].copy_from_slice(b"abc");
    assert_eq!(out, expected);
}

#[test]
fn a_clone_goes_its_own_way() {
    let mut a = Blake2b::new(64);
    a.input(b"a");
    let mut b = a.clone();
    a.input(b"bc");
    b.input(b"xy");
    let mut out = vec![0u8; 64];
    a.result(&mut out);
    assert_eq!(out, hash(64, b"abc", b""));
    b.result(&mut out);
    assert_eq!(out, hash(64, b"axy", b""));
}

#[test]
fn lengths_in_bits() {
    let b = Blake2b::new(20);
    assert_eq!(b.output_bits(), 160);
    assert_eq!(b.block_size(), 1024);
}

#[test]
fn key_and_length_enter_the_digest() {
    assert_ne!(hash(32, b"abc", b""), hash(64, b"abc", b"")[..32].to_vec());
    assert_ne!(hash(32, b"abc", &[0]), hash(32, b"abc", b""));
    assert_ne!(hash(32, b"abc", &[0]), hash(32, b"abc", &[0, 0]));
}

#[test]
fn every_round_takes_every_word_once() {
    for row in SIGMA {
        let mut sorted = row.to_vec();
        sorted.sort();
        assert_eq!(sorted, (0..16).collect::<Vec<usize>>());
    }
    assert_eq!(SIGMA[10], SIGMA[0]);
    assert_eq!(SIGMA[11], SIGMA[1]);
    assert_eq!(IV[0], 0x6a09e667f3bcc908);
}

#[test]
fn input_behind_the_digest_does_not_show() {
    let mut b = Blake2b::new(64);
    b.input(&pattern(100));
    let mut first = vec![0u8; 64];
    b.result(&mut first);
    b.input(&[5; 28]);
    let mut out = vec![0u8; 64];
    b.result(&mut out);
    assert_eq!(out, first);
}

#[test]
fn what_came_before_a_reset_does_not_matter() {
    let key = key_of(7);
    let mut b = Blake2b::new_keyed(40, &key);
    let mut out = vec![0u8; 40];
    b.input(&pattern(129));
    b.result(&mut out);
    b.input(&pattern(500));
    b.result(&mut out);
    b.reset();
    b.reset();
    b.input(b"some ");
    b.input(b"message");
    b.result(&mut out);
    assert_eq!(out, hash(40, b"some message", &key));
}

#[test]
fn bytes_of_an_earlier_block_do_not_show() {
    let data = pattern(260);
    let mut b = Blake2b::new(64);
    b.input(&data[..256]);
    b.input(&data[256..]);
    let mut out = vec![0u8; 64];
    b.result(&mut out);
    assert_eq!(out, hash(64, &data, b""));
}
