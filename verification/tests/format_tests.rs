use bitcask::models::crc::calculate_crc32;
use bitcask::models::disk_row::{BitCaskDiskRow, DataHintEntry};
use bitcask::models::encoding::{get_u128, get_u32, get_u64, put_slice, put_u128, put_u32, put_u64};

#[test]
fn crc_of_empty_input_is_zero() {
    assert_eq!(calculate_crc32(&[]), 0);
}

#[test]
fn crc_exact_values() {
    assert_eq!(calculate_crc32(b"a"), 0xE8B7BE43);
    assert_eq!(calculate_crc32(b"hello"), 0x3610A686);
    assert_eq!(calculate_crc32(&[0u8]), 0xD202EF8D);
    assert_eq!(calculate_crc32(b"123456789"), 0xCBF43926);
}

#[test]
fn crc_detects_one_byte_change() {
    assert_ne!(calculate_crc32(&[0u8]), calculate_crc32(&[1u8]));
    assert_ne!(calculate_crc32(b"mundo"), calculate_crc32(b"mundx"));
}

#[test]
fn big_endian_encoding_exact() {
    let mut buf = vec![9u8];
    put_u32(&mut buf, 0x01020304);
    put_u64(&mut buf, 0x0506070809101112);
    put_u128(&mut buf, 1);
    put_slice(&mut buf, b"xy");
    let mut expected = vec![9u8, 1, 2, 3, 4, 5, 6, 7, 8, 9, 0x10, 0x11, 0x12];
    expected.extend_from_slice(&[0u8; 15]);
    expected.push(1);
    expected.extend_from_slice(b"xy");
    assert_eq!(buf, expected);
    assert_eq!(get_u32(&buf, 1), 0x01020304);
    assert_eq!(get_u64(&buf, 5), 0x0506070809101112);
    assert_eq!(get_u128(&buf, 13), 1);
}

#[test]
fn big_endian_roundtrip_extremes() {
    let mut buf = Vec::new();
    put_u128(&mut buf, u128::MAX);
    put_u64(&mut buf, u64::MAX);
    put_u32(&mut buf, 0);
    assert_eq!(get_u128(&buf, 0), u128::MAX);
    assert_eq!(get_u64(&buf, 16), u64::MAX);
    assert_eq!(get_u32(&buf, 24), 0);
}

#[test]
fn fresh_row_fields_and_checksum() {
    let row = BitCaskDiskRow::new(b"key", b"value", 42);
    assert_eq!(row.crc, 0x5fd5f4c3);
    assert_eq!(row.timestamp, 42);
    assert_eq!(row.key_size, 3);
    assert_eq!(row.value_size, 5);
    assert_eq!(&row.key[..], b"key");
    assert_eq!(&row.value[..], b"value");
}

#[test]
fn row_to_bytes_exact() {
    let row = BitCaskDiskRow::new(b"key", b"value", 42);
    let expected: Vec<u8> = vec![
        95, 213, 244, 195, 0, 0, 0, 0, 0, 0, 0, 0, 0, 0, 0, 0, 0, 0, 0, 42, 0, 0, 0, 0, 0, 0, 0,
        3, 0, 0, 0, 0, 0, 0, 0, 5, 107, 101, 121, 118, 97, 108, 117, 101,
    ];
    assert_eq!(row.to_bytes().to_vec(), expected);
}

#[test]
fn row_checksum_covers_timestamp() {
    let row = BitCaskDiskRow::new(b"hola", b"mundo", 1700000000000);
    assert_eq!(row.crc, 0x9f1ad83f);
    assert_eq!(row.to_bytes().len(), 45);
}

#[test]
fn row_roundtrip_with_trailing_bytes() {
    let row = BitCaskDiskRow::new(b"hola", b"mundo", 7);
    let mut buf = row.to_bytes().to_vec();
    buf.extend_from_slice(b"trailing garbage");
    let (back, n) = BitCaskDiskRow::try_from(&buf).unwrap();
    assert_eq!(n, 45);
    assert_eq!(back.crc, row.crc);
    assert_eq!(back.timestamp, 7);
    assert_eq!(back.key_size, 4);
    assert_eq!(back.value_size, 5);
    assert_eq!(&back.key[..], b"hola");
    assert_eq!(&back.value[..], b"mundo");
}

#[test]
fn row_with_empty_key_and_value() {
    let row = BitCaskDiskRow::new(b"", b"", 1);
    let bytes = row.to_bytes();
    assert_eq!(bytes.len(), 36);
    let (back, n) = BitCaskDiskRow::try_from(&bytes).unwrap();
    assert_eq!(n, 36);
    assert!(back.key.is_empty());
    assert!(back.value.is_empty());
}

#[test]
fn rows_at_different_times_differ_only_in_stamp_and_checksum() {
    let a = BitCaskDiskRow::new(b"k", b"v", 1).to_bytes().to_vec();
    let b = BitCaskDiskRow::new(b"k", b"v", 2).to_bytes().to_vec();
    assert_eq!(a.len(), b.len());
    assert_eq!(&a[20..], &b[20..]);
    assert_eq!(a[19], 1);
    assert_eq!(b[19], 2);
}

#[test]
fn hint_entry_from_row_and_bytes() {
    let row = BitCaskDiskRow::new(b"key", b"value", 42);
    let hint = DataHintEntry::from_disk_entry(&row, 1000);
    assert_eq!(hint.timestamp, 42);
    assert_eq!(hint.key_size, 3);
    assert_eq!(hint.value_size, 5);
    assert_eq!(hint.value_offset, 1000);
    assert_eq!(&hint.key[..], b"key");
    let mut expected = vec![0u8; 15];
    expected.push(42);
    expected.extend_from_slice(&[0, 0, 0, 0, 0, 0, 0, 3]);
    expected.extend_from_slice(&[0, 0, 0, 0, 0, 0, 0, 5]);
    expected.extend_from_slice(&[0, 0, 0, 0, 0, 0, 3, 232]);
    expected.extend_from_slice(b"key");
    assert_eq!(hint.to_bytes().to_vec(), expected);
}

#[test]
fn hint_entry_roundtrip() {
    let row = BitCaskDiskRow::new(b"abc", b"defg", 99);
    let hint = DataHintEntry::from_disk_entry(&row, 17);
    let mut buf = hint.to_bytes().to_vec();
    buf.push(0xAA);
    let (back, n) = DataHintEntry::try_from(&buf).unwrap();
    assert_eq!(n, 43);
    assert_eq!(back.timestamp, 99);
    assert_eq!(back.key_size, 3);
    assert_eq!(back.value_size, 4);
    assert_eq!(back.value_offset, 17);
    assert_eq!(&back.key[..], b"abc");
}

#[test]
fn hint_entry_to_in_memory_entry() {
    let row = BitCaskDiskRow::new(b"abc", b"defg", 99);
    let hint = DataHintEntry::from_disk_entry(&row, 17);
    let v = hint.to_in_memory_entry(b"/data/1.bc.data");
    assert_eq!(v.file_id, b"/data/1.bc.data".to_vec());
    assert_eq!(v.value_size, 4);
    assert_eq!(v.value_offset, 17);
    assert_eq!(v.timestamp, 99);
}
