use pebble_engine::format::{
    OP_DELETE, OP_PUT, WAL_HEADER_SIZE, accept_wal_record, decode_u32, decode_u64,
    decode_wal_record, encode_index_entry, encode_len, encode_sstable_record, encode_u32,
    encode_u64, encode_wal_record, frame_wal_record, wal_record_span,
};

const PUT_RECORD: [u8; 21] = [
    165, 53, 45, 36, 3, 0, 0, 0, 5, 0, 0, 0, 0, 107, 101, 121, 118, 97, 108, 117, 101,
];

const DELETE_RECORD: [u8; 16] = [65, 1, 38, 193, 3, 0, 0, 0, 0, 0, 0, 0, 1, 107, 101, 121];

#[test]
fn integers_are_little_endian() {
    assert_eq!(encode_u32(0x0403_0201), [1, 2, 3, 4]);
    assert_eq!(encode_u64(0x0807_0605_0403_0201), [1, 2, 3, 4, 5, 6, 7, 8]);
    assert_eq!(decode_u32(&[1, 2, 3, 4, 99]), 0x0403_0201);
    assert_eq!(decode_u64(&[1, 2, 3, 4, 5, 6, 7, 8, 99]), 0x0807_0605_0403_0201);
}

#[test]
fn integers_survive_encoding() {
    for n in [0u32, 1, 255, 256, 65_536, u32::MAX] {
        assert_eq!(decode_u32(&encode_u32(n)), n);
        assert_eq!(encode_len(n as usize), encode_u32(n));
    }
    for n in [0u64, 1, 255, 1 << 40, u64::MAX] {
        assert_eq!(decode_u64(&encode_u64(n)), n);
    }
}

#[test]
fn put_record_has_its_checksum_in_front() {
    assert_eq!(encode_wal_record(b"key", b"value", OP_PUT), PUT_RECORD.to_vec());
    assert_eq!(PUT_RECORD.len(), WAL_HEADER_SIZE + 3 + 5);
}

#[test]
fn delete_record_has_no_value() {
    assert_eq!(encode_wal_record(b"key", b"", OP_DELETE), DELETE_RECORD.to_vec());
}

#[test]
fn framing_puts_the_checksum_before_the_payload() {
    assert_eq!(frame_wal_record(0x242d_35a5, &PUT_RECORD[4..]), PUT_RECORD.to_vec());
}

#[test]
fn record_decodes_whatever_follows_it() {
    let mut data = PUT_RECORD.to_vec();
    data.extend_from_slice(&[7, 7, 7]);
    let (key, value, op, consumed) = decode_wal_record(&data).unwrap();
    assert_eq!(key, b"key".to_vec());
    assert_eq!(value, b"value".to_vec());
    assert_eq!(op, OP_PUT);
    assert_eq!(consumed, 21);
    assert_eq!(wal_record_span(&data), Some(21));
}

#[test]
fn empty_key_and_value_can_be_recorded() {
    let data = encode_wal_record(b"", b"", OP_PUT);
    assert_eq!(data.len(), 13);
    assert_eq!(decode_wal_record(&data), Some((vec![], vec![], OP_PUT, 13)));
}

#[test]
fn torn_record_is_rejected_at_every_cut() {
    for cut in 0..PUT_RECORD.len() {
        assert!(decode_wal_record(&PUT_RECORD[..cut]).is_none());
        assert!(wal_record_span(&PUT_RECORD[..cut]).is_none());
    }
}

#[test]
fn corrupt_record_is_rejected_at_every_byte() {
    for at in 0..PUT_RECORD.len() {
        let mut data = PUT_RECORD.to_vec();
        data[at] ^= 0x40;
        assert!(decode_wal_record(&data).is_none());
    }
}

#[test]
fn record_is_accepted_for_the_stored_checksum_only() {
    assert!(accept_wal_record(&PUT_RECORD, 0x242d_35a5).is_some());
    assert!(accept_wal_record(&PUT_RECORD, 0x242d_35a4).is_none());
    assert!(accept_wal_record(&PUT_RECORD[..20], 0x242d_35a5).is_none());
}

#[test]
fn table_record_is_a_log_record_without_checksum() {
    assert_eq!(encode_sstable_record(b"key", b"value", OP_PUT), PUT_RECORD[4..].to_vec());
    assert_eq!(encode_sstable_record(b"key", b"", OP_DELETE), DELETE_RECORD[4..].to_vec());
}

#[test]
fn index_entry_holds_key_and_offset() {
    assert_eq!(
        encode_index_entry(b"ab", 258),
        vec![2, 0, 0, 0, 97, 98, 2, 1, 0, 0, 0, 0, 0, 0]
    );
}
