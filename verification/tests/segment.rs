use metrics_log::{decode_segment, encode_segment, encode_sparse_index, Record};

#[test]
fn segment_round_trips_records() {
    let encoded =
        encode_segment(42, &[Record::new("a", "first"), Record::new("b", "second")]).unwrap();

    let decoded = decode_segment(&encoded).unwrap();

    assert_eq!(decoded.len(), 2);
    assert_eq!(decoded[0].offset, 42);
    assert_eq!(decoded[0].key, b"a");
    assert_eq!(decoded[0].value, b"first");
    assert_eq!(decoded[1].offset, 43);
    assert_eq!(decoded[1].key, b"b");
    assert_eq!(decoded[1].value, b"second");
}

use metrics_log::LogError;

fn corrupt_message(result: metrics_log::Result<Vec<metrics_log::FetchedRecord>>) -> String {
    match result {
        Err(LogError::CorruptSegment(message)) => message,
        other => panic!("expected a corrupt segment error, got {:?}", other),
    }
}

#[test]
fn encoded_segment_has_the_documented_layout() {
    let encoded = encode_segment(42, &[Record::new("a", "first")]).unwrap();
    let mut expected: Vec<u8> = b"mlogseg1".to_vec();
    expected.extend_from_slice(&42u64.to_le_bytes());
    expected.extend_from_slice(&1u32.to_le_bytes());
    expected.extend_from_slice(&1u32.to_le_bytes());
    expected.extend_from_slice(&5u32.to_le_bytes());
    expected.extend_from_slice(b"a");
    expected.extend_from_slice(b"first");
    assert_eq!(encoded, expected);
}

#[test]
fn empty_batch_is_not_encoded() {
    match encode_segment(0, &[]) {
        Err(LogError::InvalidArgument(message)) => {
            assert_eq!(message, "cannot encode an empty segment")
        }
        other => panic!("unexpected {:?}", other),
    }
}

#[test]
fn empty_key_and_value_round_trip() {
    let encoded = encode_segment(7, &[Record::new("", ""), Record::new("k", "")]).unwrap();
    let decoded = decode_segment(&encoded).unwrap();
    assert_eq!(decoded.len(), 2);
    assert_eq!(decoded[0].offset, 7);
    assert!(decoded[0].key.is_empty());
    assert!(decoded[0].value.is_empty());
    assert_eq!(decoded[1].offset, 8);
    assert_eq!(decoded[1].key, b"k");
}

#[test]
fn bad_magic_is_reported() {
    let mut encoded = encode_segment(1, &[Record::new("a", "b")]).unwrap();
    encoded[7] = b'2';
    assert_eq!(corrupt_message(decode_segment(&encoded)), "bad segment magic");
}

#[test]
fn short_segment_is_reported() {
    assert_eq!(corrupt_message(decode_segment(b"mlog")), "segment ended unexpectedly");
    assert_eq!(corrupt_message(decode_segment(b"")), "segment ended unexpectedly");
    let encoded = encode_segment(1, &[Record::new("key", "value")]).unwrap();
    let cut = &encoded[..encoded.len() - 1];
    assert_eq!(corrupt_message(decode_segment(cut)), "segment ended unexpectedly");
}

#[test]
fn trailing_bytes_are_reported() {
    let mut encoded = encode_segment(1, &[Record::new("a", "b")]).unwrap();
    encoded.push(0);
    assert_eq!(corrupt_message(decode_segment(&encoded)), "segment has trailing bytes");
}

#[test]
fn offsets_past_u64_are_reported() {
    let encoded =
        encode_segment(u64::MAX, &[Record::new("a", "b"), Record::new("c", "d")]).unwrap();
    assert_eq!(corrupt_message(decode_segment(&encoded)), "record offset overflowed");
    let single = encode_segment(u64::MAX, &[Record::new("a", "b")]).unwrap();
    assert_eq!(decode_segment(&single).unwrap()[0].offset, u64::MAX);
}

#[test]
fn sparse_index_has_the_documented_layout() {
    let index = encode_sparse_index(42, 7);
    let mut expected: Vec<u8> = b"mlogidx1".to_vec();
    expected.extend_from_slice(&42u64.to_le_bytes());
    expected.extend_from_slice(&7u64.to_le_bytes());
    assert_eq!(index, expected);
}

#[test]
fn empty_segment_bytes_decode_to_no_records() {
    let mut bytes: Vec<u8> = b"mlogseg1".to_vec();
    bytes.extend_from_slice(&5u64.to_le_bytes());
    bytes.extend_from_slice(&0u32.to_le_bytes());
    assert!(decode_segment(&bytes).unwrap().is_empty());
}

#[test]
fn decoding_then_encoding_gives_the_bytes_back() {
    let encoded = encode_segment(
        9,
        &[Record::new("k1", "v1"), Record::new("", "x"), Record::new("key", "")],
    )
    .unwrap();
    let decoded = decode_segment(&encoded).unwrap();
    let records: Vec<Record> = decoded
        .iter()
        .map(|r| Record { key: r.key.clone(), value: r.value.clone() })
        .collect();
    assert_eq!(encode_segment(decoded[0].offset, &records).unwrap(), encoded);
}

#[test]
fn no_proper_prefix_of_a_segment_decodes() {
    let encoded = encode_segment(3, &[Record::new("ab", "cd"), Record::new("e", "f")]).unwrap();
    for k in 0..encoded.len() {
        assert!(matches!(decode_segment(&encoded[..k]), Err(LogError::CorruptSegment(_))));
    }
    for extra in [vec![0u8], vec![1, 2, 3]] {
        let mut longer = encoded.clone();
        longer.extend_from_slice(&extra);
        assert_eq!(corrupt_message(decode_segment(&longer)), "segment has trailing bytes");
    }
}
