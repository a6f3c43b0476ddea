//! Tests for the snapshot decoder and the decimal codec.

use resp_kv::decimal::{i64_to_dec, parse_i64, parse_u64, u64_to_dec};
use resp_kv::keyspace::Rdb;
use resp_kv::rdb::{decode_rdb, extract_datatype, RdbError};
use resp_kv::resp::RESPValue;

fn header() -> Vec<u8> {
    b"REDIS0011".to_vec()
}

fn eof_with_checksum(checksum: [u8; 8]) -> Vec<u8> {
    let mut v = vec![0xFFu8];
    v.extend_from_slice(&checksum);
    v
}

#[test]
fn decode_empty_snapshot() {
    let mut bytes = header();
    bytes.extend_from_slice(&eof_with_checksum([1, 1, 1, 1, 1, 1, 1, 1]));
    let rdb = decode_rdb(&bytes).unwrap();
    assert_eq!(rdb.version(), "0011");
    assert_eq!(rdb.original_checksum(), 0x0101010101010101);
}

#[test]
fn decode_snapshot_with_entries() {
    let mut bytes = header();
    // Metadata: "redis-ver" -> "6.0.16".
    bytes.push(0xFA);
    bytes.push(9);
    bytes.extend_from_slice(b"redis-ver");
    bytes.push(6);
    bytes.extend_from_slice(b"6.0.16");
    // Database selector: an 8-bit-integer encoding of 5.
    bytes.push(0xFE);
    bytes.push(0xC0);
    bytes.push(5);
    // Resize hint: 2 keys, 1 expiry.
    bytes.push(0xFB);
    bytes.push(2);
    bytes.push(1);
    // Entry without expiry: foo -> bar.
    bytes.push(0);
    bytes.push(3);
    bytes.extend_from_slice(b"foo");
    bytes.push(3);
    bytes.extend_from_slice(b"bar");
    // Entry with a millisecond expiry at 1500: k2 -> "123" (8-bit integer).
    bytes.push(0xFC);
    bytes.extend_from_slice(&[0xDC, 0x05, 0, 0, 0, 0, 0, 0]);
    bytes.push(0);
    bytes.push(2);
    bytes.extend_from_slice(b"k2");
    bytes.push(0xC0);
    bytes.push(123);
    // Entry with a 14-bit length-encoded value: v3 -> "val".
    bytes.push(0);
    bytes.push(2);
    bytes.extend_from_slice(b"v3");
    bytes.push(0x43);
    bytes.push(0x00);
    bytes.extend_from_slice(b"val");
    bytes.extend_from_slice(&eof_with_checksum([0; 8]));

    let mut rdb = decode_rdb(&bytes).unwrap();
    assert_eq!(rdb.version(), "0011");
    assert_eq!(
        rdb.metadata_get(&String::from("redis-ver")),
        Some(&String::from("6.0.16"))
    );
    assert_eq!(rdb.selected_db(), 5);
    assert_eq!(rdb.db_hash_table_size(), 2);
    assert_eq!(rdb.expiry_hash_table_size(), 1);
    assert_eq!(
        rdb.db_get(&String::from("foo"), 0),
        Some(RESPValue::SimpleString(String::from("bar")))
    );
    assert_eq!(
        rdb.db_get(&String::from("v3"), 0),
        Some(RESPValue::SimpleString(String::from("val")))
    );
    // The expiring entry is live before its deadline and gone after it.
    assert_eq!(
        rdb.db_get(&String::from("k2"), 1400),
        Some(RESPValue::SimpleString(String::from("123")))
    );
    assert_eq!(rdb.db_get(&String::from("k2"), 1501), None);
}

#[test]
fn decode_second_expiry() {
    let mut bytes = header();
    // A two-second expiry: deadline at 2000 ms.
    bytes.push(0xFD);
    bytes.extend_from_slice(&[2, 0, 0, 0]);
    bytes.push(0);
    bytes.push(1);
    bytes.push(b'k');
    bytes.push(1);
    bytes.push(b'v');
    bytes.extend_from_slice(&eof_with_checksum([0; 8]));
    let mut rdb = decode_rdb(&bytes).unwrap();
    assert_eq!(
        rdb.db_get(&String::from("k"), 1999),
        Some(RESPValue::SimpleString(String::from("v")))
    );
    assert_eq!(rdb.db_get(&String::from("k"), 2001), None);
}

#[test]
fn decode_zero_expiry_still_loads_entry() {
    let mut bytes = header();
    bytes.push(0xFC);
    bytes.extend_from_slice(&[0; 8]);
    bytes.push(0);
    bytes.push(1);
    bytes.push(b'k');
    bytes.push(1);
    bytes.push(b'v');
    bytes.extend_from_slice(&eof_with_checksum([0; 8]));
    let mut rdb = decode_rdb(&bytes).unwrap();
    // Zero means no expiry: the entry never dies.
    assert_eq!(
        rdb.db_get(&String::from("k"), u64::MAX),
        Some(RESPValue::SimpleString(String::from("v")))
    );
}

#[test]
fn decode_non_ascii_value() {
    let mut bytes = header();
    bytes.push(0);
    bytes.push(1);
    bytes.push(b'u');
    bytes.push(2);
    bytes.extend_from_slice(&[0xC3, 0xA9]);
    bytes.extend_from_slice(&eof_with_checksum([0; 8]));
    let mut rdb = decode_rdb(&bytes).unwrap();
    assert_eq!(
        rdb.db_get(&String::from("u"), 0),
        Some(RESPValue::SimpleString(String::from("\u{e9}")))
    );
}

#[test]
fn decode_rejects_bad_magic() {
    let mut bytes = b"RADIO0011".to_vec();
    bytes.extend_from_slice(&eof_with_checksum([0; 8]));
    assert!(matches!(decode_rdb(&bytes), Err(RdbError::InvalidMagic)));
}

#[test]
fn decode_rejects_truncated_file() {
    assert!(matches!(decode_rdb(b"REDIS"), Err(RdbError::Truncated)));
    // A file that ends before the end-of-file opcode.
    let mut bytes = header();
    bytes.push(0);
    bytes.push(3);
    bytes.extend_from_slice(b"fo");
    assert!(matches!(decode_rdb(&bytes), Err(RdbError::Truncated)));
}

#[test]
fn decode_refuses_compressed_string() {
    let mut bytes = header();
    bytes.push(0);
    bytes.push(1);
    bytes.push(b'k');
    bytes.push(0xC3);
    assert!(matches!(decode_rdb(&bytes), Err(RdbError::LzfDecompressFailure)));
}

#[test]
fn decode_rejects_unknown_length_encoding() {
    let mut bytes = header();
    bytes.push(0);
    bytes.push(1);
    bytes.push(b'k');
    bytes.push(0xC4);
    assert!(matches!(decode_rdb(&bytes), Err(RdbError::BadLengthEncoding)));
}

#[test]
fn decode_rejects_bad_string_payload() {
    // Key of length 1 whose byte is not valid UTF-8.
    let mut bytes = header();
    bytes.push(0);
    bytes.push(1);
    bytes.push(0xFE);
    assert!(matches!(decode_rdb(&bytes), Err(RdbError::BadStringPayload)));
}

#[test]
fn datatype_names() {
    assert_eq!(extract_datatype(0), "String Encoding");
    assert_eq!(extract_datatype(4), "Hash Encoding");
    assert_eq!(extract_datatype(77), "Unknown");
}

#[test]
fn default_keyspace_is_empty() {
    let mut rdb = Rdb::default();
    assert_eq!(rdb.db_get(&String::from("anything"), 0), None);
    assert_eq!(rdb.version(), "");
}

#[test]
fn decimal_formats_exactly() {
    assert_eq!(u64_to_dec(0), "0");
    assert_eq!(u64_to_dec(18446744073709551615), "18446744073709551615");
    assert_eq!(i64_to_dec(-9223372036854775808), "-9223372036854775808");
    assert_eq!(i64_to_dec(42), "42");
}

#[test]
fn decimal_parses_exactly() {
    assert_eq!(parse_u64("007"), Some(7));
    assert_eq!(parse_u64("18446744073709551615"), Some(u64::MAX));
    assert_eq!(parse_u64("18446744073709551616"), None);
    assert_eq!(parse_u64(""), None);
    assert_eq!(parse_u64("1x"), None);
    assert_eq!(parse_i64("-9223372036854775808"), Some(i64::MIN));
    assert_eq!(parse_i64("-9223372036854775809"), None);
    assert_eq!(parse_i64("+5"), Some(5));
    assert_eq!(parse_i64("-"), None);
}
