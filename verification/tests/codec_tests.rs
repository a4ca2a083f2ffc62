use libbase_kv::codec::decode;
use libbase_kv::codec::encode;
use libbase_kv::StoreError;

#[test]
fn round_trip_basic() {
    let frame = encode(b"key", b"value");
    assert_eq!(frame.len(), 12 + 3 + 5);
    let kv = decode(&frame, 0).unwrap();
    assert_eq!(kv.key, b"key".to_vec());
    assert_eq!(kv.value, b"value".to_vec());
}

#[test]
fn round_trip_empty_value() {
    let frame = encode(b"tombstone", b"");
    let kv = decode(&frame, 0).unwrap();
    assert_eq!(kv.key, b"tombstone".to_vec());
    assert_eq!(kv.value, Vec::<u8>::new());
}

#[test]
fn round_trip_empty_key() {
    let frame = encode(b"", b"just a value");
    let kv = decode(&frame, 0).unwrap();
    assert_eq!(kv.key, Vec::<u8>::new());
    assert_eq!(kv.value, b"just a value".to_vec());
}

#[test]
fn round_trip_both_empty() {
    let frame = encode(b"", b"");
    assert_eq!(frame.len(), 12);
    let kv = decode(&frame, 0).unwrap();
    assert_eq!(kv.key, Vec::<u8>::new());
    assert_eq!(kv.value, Vec::<u8>::new());
}

#[test]
fn round_trip_arbitrary_bytes() {
    let key: Vec<u8> = vec![0x00, 0xff, 0x80, 0x01];
    let value: Vec<u8> = (0u8..=255u8).collect();
    let frame = encode(&key, &value);
    let kv = decode(&frame, 0).unwrap();
    assert_eq!(kv.key, key);
    assert_eq!(kv.value, value);
}

// CRC-32 (IEEE polynomial) of "123456789" is the well-known check
// value 0xCBF43926; the frame must store it little-endian.
#[test]
fn known_checksum_value() {
    let frame = encode(b"1234", b"56789");
    assert_eq!(&frame[0..4], &[0x26, 0x39, 0xf4, 0xcb]);
    assert_eq!(&frame[4..8], &[4, 0, 0, 0]);
    assert_eq!(&frame[8..12], &[5, 0, 0, 0]);
    assert_eq!(&frame[12..16], b"1234");
    assert_eq!(&frame[16..21], b"56789");
}

#[test]
fn checksum_matches_crc_crate() {
    let frame = encode(b"abc", b"defg");
    let expected = crc::Crc::<u32>::new(&crc::CRC_32_ISO_HDLC).checksum(b"abcdefg");
    let stored = u32::from_le_bytes([frame[0], frame[1], frame[2], frame[3]]);
    assert_eq!(stored, expected);
}

// Flipping any single bit of the payload must be caught as a
// checksum mismatch.
#[test]
fn flip_each_payload_bit() {
    let frame = encode(b"ab", b"cd");
    for byte in 12..frame.len() {
        for bit in 0..8 {
            let mut tampered = frame.clone();
            tampered[byte] ^= 1u8 << bit;
            let r = decode(&tampered, 0);
            assert_eq!(r.unwrap_err(), StoreError::ChecksumMismatch);
        }
    }
}

#[test]
fn flipped_checksum_field_is_caught() {
    let frame = encode(b"k", b"v");
    for bit in 0..8 {
        let mut tampered = frame.clone();
        tampered[0] ^= 1u8 << bit;
        let r = decode(&tampered, 0);
        assert_eq!(r.unwrap_err(), StoreError::ChecksumMismatch);
    }
}

#[test]
fn end_of_log_at_exact_end() {
    let frame = encode(b"k", b"v");
    let r = decode(&frame, frame.len());
    assert_eq!(r.unwrap_err(), StoreError::EndOfLog);
    let r2 = decode(&[], 0);
    assert_eq!(r2.unwrap_err(), StoreError::EndOfLog);
    let r3 = decode(&frame, frame.len() + 100);
    assert_eq!(r3.unwrap_err(), StoreError::EndOfLog);
}

#[test]
fn truncated_header_is_caught() {
    let frame = encode(b"key", b"value");
    for keep in 1..12 {
        let r = decode(&frame[0..keep], 0);
        assert_eq!(r.unwrap_err(), StoreError::TruncatedRecord);
    }
}

#[test]
fn truncated_payload_is_caught() {
    let frame = encode(b"key", b"value");
    for cut in 1..=3 {
        let r = decode(&frame[0..frame.len() - cut], 0);
        assert_eq!(r.unwrap_err(), StoreError::TruncatedRecord);
    }
}

#[test]
fn decode_second_record_at_its_offset() {
    let mut log = encode(b"first", b"1");
    let second = encode(b"second", b"2");
    let offset = log.len();
    log.extend_from_slice(&second);
    let kv = decode(&log, offset).unwrap();
    assert_eq!(kv.key, b"second".to_vec());
    assert_eq!(kv.value, b"2".to_vec());
}
