use task_pool::foundations::endianness::{
    deserialize_record, serialize_record, u16_from_be_bytes, u16_from_le_bytes, u16_to_be_bytes,
    u16_to_le_bytes, u32_from_be_bytes, u32_from_le_bytes, u32_to_be_bytes, u32_to_le_bytes,
    Record,
};

#[test]
fn u16_bytes_in_both_orders() {
    assert_eq!(u16_to_le_bytes(0x1234), [0x34, 0x12]);
    assert_eq!(u16_to_be_bytes(0x1234), [0x12, 0x34]);
    assert_eq!(u16_from_le_bytes(&[0x34, 0x12]), Some(0x1234));
    assert_eq!(u16_from_be_bytes(&[0x12, 0x34]), Some(0x1234));
}

#[test]
fn u32_bytes_in_both_orders() {
    assert_eq!(u32_to_le_bytes(0x1234_5678), [0x78, 0x56, 0x34, 0x12]);
    assert_eq!(u32_to_be_bytes(0x1234_5678), [0x12, 0x34, 0x56, 0x78]);
    assert_eq!(u32_from_le_bytes(&[0x78, 0x56, 0x34, 0x12]), Some(0x1234_5678));
    assert_eq!(u32_from_be_bytes(&[0x12, 0x34, 0x56, 0x78]), Some(0x1234_5678));
}

#[test]
fn short_inputs_decode_to_none() {
    assert_eq!(u16_from_le_bytes(&[0x01]), None);
    assert_eq!(u16_from_be_bytes(&[]), None);
    assert_eq!(u32_from_le_bytes(&[1, 2, 3]), None);
    assert_eq!(u32_from_be_bytes(&[1, 2, 3]), None);
    assert_eq!(deserialize_record(&[1, 2, 3, 4, 5, 6]), None);
}

#[test]
fn longer_inputs_use_their_first_bytes() {
    assert_eq!(u16_from_le_bytes(&[0x01, 0x02, 0xff]), Some(0x0201));
    assert_eq!(u32_from_be_bytes(&[0, 0, 1, 0, 9]), Some(256));
}

#[test]
fn integer_round_trips() {
    for v in [0u16, 1, 0x00ff, 0xff00, 0xabcd, u16::MAX] {
        assert_eq!(u16_from_le_bytes(&u16_to_le_bytes(v)), Some(v));
        assert_eq!(u16_from_be_bytes(&u16_to_be_bytes(v)), Some(v));
    }
    for v in [0u32, 1, 0xdead_beef, u32::MAX] {
        assert_eq!(u32_from_le_bytes(&u32_to_le_bytes(v)), Some(v));
        assert_eq!(u32_from_be_bytes(&u32_to_be_bytes(v)), Some(v));
    }
}

#[test]
fn record_serializes_little_endian() {
    let record = Record { id: 0x1234_5678, flags: 0xABCD, kind: 7 };
    let bytes = serialize_record(&record);
    assert_eq!(bytes, vec![0x78, 0x56, 0x34, 0x12, 0xCD, 0xAB, 7]);
    assert_eq!(deserialize_record(&bytes), Some(record));
}

#[test]
fn record_decodes_from_longer_input() {
    let decoded = deserialize_record(&[1, 0, 0, 0, 2, 0, 3, 99, 98]);
    assert_eq!(decoded, Some(Record { id: 1, flags: 2, kind: 3 }));
}
