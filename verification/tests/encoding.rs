use cryptoxide::cryptoutil::{
    copy_memory, read_u64v_le, write_all, write_u32_le, write_u64_le, write_u64v_le, write_u8,
};
use cryptoxide::mac::MacResult;
use cryptoxide::util::secure_memset;

#[test]
fn words_are_read_least_significant_byte_first() {
    let mut words = [0u64; 2];
    read_u64v_le(&mut words, &[1, 2, 3, 4, 5, 6, 7, 8, 0xff, 0, 0, 0, 0, 0, 0, 0x80]);
    assert_eq!(words, [0x0807060504030201, 0x80000000000000ff]);
}

#[test]
fn words_are_written_least_significant_byte_first() {
    let mut bytes = [0u8; 16];
    write_u64v_le(&mut bytes, &[0x0807060504030201, 0x80000000000000ff]);
    assert_eq!(bytes, [1, 2, 3, 4, 5, 6, 7, 8, 0xff, 0, 0, 0, 0, 0, 0, 0x80]);
}

#[test]
fn written_words_are_read_back() {
    let words = [0u64, 1, u64::MAX, 0x0123456789abcdef];
    let mut bytes = [0u8; 32];
    write_u64v_le(&mut bytes, &words);
    let mut back = [7u64; 4];
    read_u64v_le(&mut back, &bytes);
    assert_eq!(back, words);
    let mut again = [0u8; 32];
    write_u64v_le(&mut again, &back);
    assert_eq!(again, bytes);
}

#[test]
fn single_values_go_where_they_are_sent() {
    let mut bytes = [0xeeu8; 16];
    write_u8(&mut bytes, 0, 0x11);
    write_u32_le(&mut bytes, 2, 0x0a0b0c0d);
    write_u64_le(&mut bytes, 7, 0x0102030405060708);
    assert_eq!(bytes, [0x11, 0xee, 0x0d, 0x0c, 0x0b, 0x0a, 0xee, 8, 7, 6, 5, 4, 3, 2, 1, 0xee]);
}

#[test]
fn copies_leave_the_rest_alone() {
    let mut bytes = [9u8; 5];
    copy_memory(&[1, 2], &mut bytes);
    assert_eq!(bytes, [1, 2, 9, 9, 9]);
    write_all(&mut bytes, 3, &[4, 5]);
    assert_eq!(bytes, [1, 2, 9, 4, 5]);
    write_all(&mut bytes, 5, &[]);
    assert_eq!(bytes, [1, 2, 9, 4, 5]);
}

#[test]
fn a_wiped_slice_holds_one_value() {
    let mut bytes = [1u8, 2, 3, 4];
    secure_memset(&mut bytes[1..3], 0);
    assert_eq!(bytes, [1, 0, 0, 4]);
    secure_memset(&mut bytes, 7);
    assert_eq!(bytes, [7, 7, 7, 7]);
}

#[test]
fn a_mac_result_holds_its_code() {
    let result = MacResult::new_from_owned(vec![1, 2, 3]);
    assert_eq!(result.code().to_vec(), vec![1, 2, 3]);
}
