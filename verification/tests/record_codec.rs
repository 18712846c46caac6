//! Tests of the record wire format: round trips, exact byte layouts,
//! agreement with the bincode encoding the log format matches, and the
//! decode errors.

use rustmap_db::record::{decode_record, encode_record, DBEntry, DecodeError};

// Helper function to serialize a DBEntry
fn serialize_entry(entry: &DBEntry) -> Vec<u8> {
    encode_record(entry)
}

// Helper function to deserialize a DBEntry
fn deserialize_entry(data: &Vec<u8>) -> DBEntry {
    let (entry, used) = decode_record(data, 0).expect("Deserialization should succeed");
    assert_eq!(used, data.len());
    entry
}

#[test]
fn test_serialize_deserialize_hashmap_entry() {
    let entry = DBEntry::HashMapEntry(vec![1], vec![2], vec![3]);
    let serialized = serialize_entry(&entry);
    let deserialized = deserialize_entry(&serialized);
    assert_eq!(entry, deserialized);
}

#[test]
fn test_serialize_deserialize_remove_hashmap_entry() {
    let entry = DBEntry::RemoveHashMapEntry(vec![1], vec![2]);
    let serialized = serialize_entry(&entry);
    let deserialized = deserialize_entry(&serialized);
    assert_eq!(entry, deserialized);
}

#[test]
#[should_panic(expected = "Deserialization should succeed")]
fn test_deserialization_failure() {
    // Create a byte array that does not correspond to any valid DBEntry
    let data = vec![255, 255, 255];
    let _entry: DBEntry = deserialize_entry(&data);
}

#[test]
fn test_incorrect_format_deserialization() {
    // Create a byte array with an incorrect format
    let data = vec![10, 20, 30]; // Intentionally incorrect format
    let result = decode_record(&data, 0);
    assert!(
        result.is_err(),
        "Deserialization should fail due to incorrect format"
    );
}

#[test]
fn test_large_data_serialization_deserialization() {
    let large_vec = vec![0u8; 10000]; // A large data vector
    let entry = DBEntry::HashMapEntry(large_vec.clone(), large_vec.clone(), large_vec.clone());

    let serialized = serialize_entry(&entry);
    let deserialized = deserialize_entry(&serialized);

    match deserialized {
        DBEntry::HashMapEntry(id, key, value) => {
            assert_eq!(id, large_vec);
            assert_eq!(key, large_vec);
            assert_eq!(value, large_vec);
        }
        _ => panic!("Deserialized to incorrect entry type"),
    }
}

#[test]
fn test_exact_wire_layout_all_variants() {
    // tag byte, then each field as an eight-byte little-endian length
    // prefix followed by its raw bytes
    let map_insert = DBEntry::HashMapEntry(vec![7], vec![8, 9], vec![10]);
    let mut expected = vec![0u8];
    expected.extend_from_slice(&1u64.to_le_bytes());
    expected.push(7);
    expected.extend_from_slice(&2u64.to_le_bytes());
    expected.extend_from_slice(&[8, 9]);
    expected.extend_from_slice(&1u64.to_le_bytes());
    expected.push(10);
    assert_eq!(encode_record(&map_insert), expected);

    let map_remove = DBEntry::RemoveHashMapEntry(vec![7], vec![8]);
    let mut expected = vec![1u8];
    expected.extend_from_slice(&1u64.to_le_bytes());
    expected.push(7);
    expected.extend_from_slice(&1u64.to_le_bytes());
    expected.push(8);
    assert_eq!(encode_record(&map_remove), expected);

    let set_insert = DBEntry::HashSetEntry(vec![7], vec![8]);
    let mut expected = vec![2u8];
    expected.extend_from_slice(&1u64.to_le_bytes());
    expected.push(7);
    expected.extend_from_slice(&1u64.to_le_bytes());
    expected.push(8);
    assert_eq!(encode_record(&set_insert), expected);

    let set_remove = DBEntry::RemoveHashSetEntry(vec![7], vec![8]);
    let mut expected = vec![3u8];
    expected.extend_from_slice(&1u64.to_le_bytes());
    expected.push(7);
    expected.extend_from_slice(&1u64.to_le_bytes());
    expected.push(8);
    assert_eq!(encode_record(&set_remove), expected);
}

#[test]
fn test_wire_format_matches_bincode() {
    // the log format is the bincode image of the tagged tuple the
    // original records travel as: fixed-width little-endian integers,
    // length-prefixed byte arrays
    let entry = DBEntry::HashMapEntry(vec![1, 2], vec![3], vec![4, 5, 6]);
    let ours = encode_record(&entry);
    let tuple: (u8, Vec<u8>, Vec<u8>, Vec<u8>) = (0u8, vec![1, 2], vec![3], vec![4, 5, 6]);
    let theirs = bincode::serialize(&tuple).expect("bincode serialization should succeed");
    assert_eq!(ours, theirs);

    let entry = DBEntry::RemoveHashSetEntry(vec![9], vec![8, 7]);
    let ours = encode_record(&entry);
    let tuple: (u8, Vec<u8>, Vec<u8>) = (3u8, vec![9], vec![8, 7]);
    let theirs = bincode::serialize(&tuple).expect("bincode serialization should succeed");
    assert_eq!(ours, theirs);
}

#[test]
fn test_round_trip_all_variants_arbitrary_payloads() {
    let payloads: Vec<Vec<u8>> = vec![vec![], vec![0], vec![255, 0, 128], (0..200).collect()];
    for id in &payloads {
        for key in &payloads {
            for value in &payloads {
                let entries = vec![
                    DBEntry::HashMapEntry(id.clone(), key.clone(), value.clone()),
                    DBEntry::RemoveHashMapEntry(id.clone(), key.clone()),
                    DBEntry::HashSetEntry(id.clone(), key.clone()),
                    DBEntry::RemoveHashSetEntry(id.clone(), key.clone()),
                ];
                for entry in entries {
                    let serialized = serialize_entry(&entry);
                    let deserialized = deserialize_entry(&serialized);
                    assert_eq!(entry, deserialized);
                }
            }
        }
    }
}

#[test]
fn test_truncated_record_is_unexpected_eof() {
    let entry = DBEntry::HashMapEntry(vec![1, 2], vec![3, 4], vec![5, 6]);
    let serialized = serialize_entry(&entry);
    for cut in 0..serialized.len() {
        let truncated: Vec<u8> = serialized[..cut].to_vec();
        let result = decode_record(&truncated, 0);
        assert_eq!(result, Err(DecodeError::UnexpectedEof));
    }
}

#[test]
fn test_unknown_tag_is_invalid_tag() {
    for tag in 4u8..=255 {
        let data = vec![tag, 0, 0, 0, 0, 0, 0, 0, 0];
        assert_eq!(decode_record(&data, 0), Err(DecodeError::InvalidTag(tag)));
    }
}

#[test]
fn test_decode_consumes_one_record_and_leaves_the_rest() {
    let first = DBEntry::HashSetEntry(vec![1], vec![2]);
    let second = DBEntry::RemoveHashMapEntry(vec![3], vec![4]);
    let mut log = encode_record(&first);
    let first_len = log.len();
    log.extend_from_slice(&encode_record(&second));
    let (decoded, next) = decode_record(&log, 0).expect("first record should decode");
    assert_eq!(decoded, first);
    assert_eq!(next, first_len);
    let (decoded, next) = decode_record(&log, next).expect("second record should decode");
    assert_eq!(decoded, second);
    assert_eq!(next, log.len());
}
