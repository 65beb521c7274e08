use cryptoxide::blake2b::Blake2b;
use cryptoxide::mac::Mac;

#[test]
fn test_blake2b_mac() {
    let key: Vec<u8> = (0..64).map(|i| i).collect();
    let mut m = Blake2b::new_keyed(64, &key[..]);
    m.input(&[1, 2, 4, 8]);
    let expected = [
        0x8e, 0xc6, 0xcb, 0x71, 0xc4, 0x5c, 0x3c, 0x90, 0x91, 0xd0, 0x8a, 0x37,
        0x1e, 0xa8, 0x5d, 0xc1, 0x22, 0xb5, 0xc8, 0xe2, 0xd9, 0xe5, 0x71, 0x42,
        0xbf, 0xef, 0xce, 0x42, 0xd7, 0xbc, 0xf8, 0x8b, 0xb0, 0x31, 0x27, 0x88,
        0x2e, 0x51, 0xa9, 0x21, 0x44, 0x62, 0x08, 0xf6, 0xa3, 0x58, 0xa9, 0xe0,
        0x7d, 0x35, 0x3b, 0xd3, 0x1c, 0x41, 0x70, 0x15, 0x62, 0xac, 0xd5, 0x39,
        0x4e, 0xee, 0x73, 0xae,
    ];
    assert_eq!(m.result().code().to_vec(), expected.to_vec());
}

fn key_of(n: usize) -> Vec<u8> {
    (0..n).map(|i| i as u8).collect()
}

#[test]
fn mac_raw_result_is_the_code() {
    let mut m = Blake2b::new_keyed(20, &key_of(33));
    m.input(b"authenticated");
    let code = m.clone().result().code().to_vec();
    let mut raw = [0u8; 20];
    m.raw_result(&mut raw);
    assert_eq!(raw.to_vec(), code);
    let expected = [
        0x0a, 0xa7, 0x7f, 0xe0, 0x96, 0x9d, 0x73, 0xab, 0x15, 0x4e, 0x59, 0x5d,
        0xb1, 0x60, 0x23, 0x68, 0xf9, 0xd3, 0x98, 0xc7,
    ];
    assert_eq!(raw, expected);
}

#[test]
fn mac_output_bytes_is_the_length_of_the_code() {
    let mut m = Blake2b::new_keyed(20, &key_of(1));
    assert_eq!(m.output_bytes(), 20);
    assert_eq!(m.result().code().len(), 20);
    assert_eq!(m.output_bytes(), 20);
}

#[test]
fn mac_reset_keeps_the_key() {
    let mut m = Blake2b::new_keyed(32, &key_of(64));
    m.input(b"first stream");
    let first = m.result().code().to_vec();
    Mac::reset(&mut m);
    m.input(b"second stream");
    let second = m.result().code().to_vec();
    Mac::reset(&mut m);
    m.input(b"first stream");
    assert_eq!(m.result().code().to_vec(), first);
    let expected = [
        0x12, 0xeb, 0x63, 0x01, 0x95, 0x11, 0x68, 0x0a, 0xd4, 0x50, 0x11, 0x29,
        0x7c, 0x3b, 0x82, 0x3c, 0x14, 0x57, 0x39, 0x6d, 0x40, 0x53, 0xbc, 0x48,
        0xcd, 0xc3, 0x30, 0x2a, 0x49, 0x29, 0xbe, 0xf3,
    ];
    assert_eq!(second, expected.to_vec());
}
