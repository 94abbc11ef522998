use dex_access_modifier::uleb128::{read_uleb128, write_uleb128};
use dex_access_modifier::flags::update_access_flags;

fn round_trip(v: u32, expected_len: usize) {
    let encoded = write_uleb128(v);
    assert_eq!(encoded.len(), expected_len);
    let decoded = read_uleb128(&encoded, 0).expect("canonical encoding must decode");
    assert_eq!(decoded.value, v);
    assert_eq!(decoded.length as usize, encoded.len());
}

#[test]
fn uleb128_round_trip_small_values() {
    round_trip(0, 1);
    round_trip(1, 1);
    round_trip(0x7f, 1);
    round_trip(0x80, 2);
    round_trip(300, 2);
    round_trip(0x3fff, 2);
    round_trip(0x4000, 3);
}

#[test]
fn uleb128_round_trip_large_values() {
    round_trip(0x1fffff, 3);
    round_trip(0x200000, 4);
    round_trip(0xfffffff, 4);
    round_trip(0x10000000, 5);
    round_trip(u32::MAX, 5);
}

#[test]
fn uleb128_encoding_bytes_are_canonical() {
    assert_eq!(write_uleb128(0), vec![0x00]);
    assert_eq!(write_uleb128(2), vec![0x02]);
    assert_eq!(write_uleb128(0x80), vec![0x80, 0x01]);
    assert_eq!(write_uleb128(300), vec![0xac, 0x02]);
}

#[test]
fn uleb128_read_at_offset() {
    let data = vec![0xff, 0xff, 0xac, 0x02, 0x05];
    let read = read_uleb128(&data, 2).unwrap();
    assert_eq!(read.value, 300);
    assert_eq!(read.length, 2);
    let read = read_uleb128(&data, 4).unwrap();
    assert_eq!(read.value, 5);
    assert_eq!(read.length, 1);
}

#[test]
fn uleb128_truncated_input_fails() {
    let data = vec![0x80];
    assert!(read_uleb128(&data, 0).is_none());
    let data = vec![0x80, 0x80, 0x80];
    assert!(read_uleb128(&data, 0).is_none());
    assert!(read_uleb128(&data, 3).is_none());
}

#[test]
fn uleb128_ten_byte_guard() {
    // nine continuation bytes followed by a tenth that is neither 0 nor 1
    let bad = vec![0x80, 0x80, 0x80, 0x80, 0x80, 0x80, 0x80, 0x80, 0x80, 0x05];
    assert!(read_uleb128(&bad, 0).is_none());
    // a tenth byte of 1 terminates; its weight lies beyond 32 bits
    let long = vec![0x80, 0x80, 0x80, 0x80, 0x80, 0x80, 0x80, 0x80, 0x80, 0x01];
    let read = read_uleb128(&long, 0).unwrap();
    assert_eq!(read.length, 10);
    assert_eq!(read.value, 0);
}

#[test]
fn uleb128_non_canonical_decodes() {
    // 2 with a padding byte still decodes to 2, in two bytes
    let data = vec![0x82, 0x00];
    let read = read_uleb128(&data, 0).unwrap();
    assert_eq!(read.value, 2);
    assert_eq!(read.length, 2);
}

#[test]
fn update_access_flags_widens() {
    // PRIVATE becomes PUBLIC
    assert_eq!(update_access_flags(0x2), 0x1);
    // PROTECTED | STATIC keeps STATIC and becomes PUBLIC
    assert_eq!(update_access_flags(0xc), 0x9);
    // PUBLIC stays PUBLIC
    assert_eq!(update_access_flags(0x1), 0x1);
    // other bits are kept
    assert_eq!(update_access_flags(0x10002), 0x10001);
    assert_eq!(update_access_flags(0x412), 0x411);
}
