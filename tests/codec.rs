use opal::codec::{decode_at, encode_record, Decode};

#[test]
fn encode_layout_and_checksum() {
    let bytes = encode_record(0x0102030405060708, b"ab", Some(b"xyz"));
    assert_eq!(bytes.len(), 20 + 2 + 3);
    assert_eq!(&bytes[4..12], &[1, 2, 3, 4, 5, 6, 7, 8]);
    assert_eq!(&bytes[12..16], &[0, 0, 0, 2]);
    assert_eq!(&bytes[16..20], &[0, 0, 0, 3]);
    assert_eq!(&bytes[20..], b"abxyz");
    let crc = crc32fast::hash(&bytes[4..]);
    assert_eq!(&bytes[0..4], &crc.to_be_bytes());
    assert_ne!(crc, 0);
}

#[test]
fn tombstone_encoding() {
    let bytes = encode_record(9, b"k", None);
    assert_eq!(bytes.len(), 21);
    assert_eq!(&bytes[16..20], &[0xFF, 0xFF, 0xFF, 0xFF]);
    match decode_at(&bytes, 0) {
        Decode::Record { timestamp, key, value, len } => {
            assert_eq!(timestamp, 9);
            assert_eq!(key, b"k".to_vec());
            assert_eq!(value, None);
            assert_eq!(len, 21);
        }
        _ => panic!("expected a record"),
    }
}

#[test]
fn decode_round_trip_with_trailing_bytes() {
    let mut bytes = encode_record(42, b"key", Some(b"value"));
    let n = bytes.len();
    bytes.extend_from_slice(&[1, 2, 3]);
    match decode_at(&bytes, 0) {
        Decode::Record { timestamp, key, value, len } => {
            assert_eq!(timestamp, 42);
            assert_eq!(key, b"key".to_vec());
            assert_eq!(value, Some(b"value".to_vec()));
            assert_eq!(len, n);
        }
        _ => panic!("expected a record"),
    }
    assert!(matches!(decode_at(&bytes, n), Decode::Corrupt));
    assert!(matches!(decode_at(&bytes, bytes.len()), Decode::EndOfFile));
}

#[test]
fn checksum_mismatch_is_corrupt() {
    let mut bytes = encode_record(1, b"k", Some(b"v"));
    let last = bytes.len() - 1;
    bytes[last] ^= 1;
    assert!(matches!(decode_at(&bytes, 0), Decode::Corrupt));
}
