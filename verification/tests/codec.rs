//! Tests of the binary diff codec: encode, decode, and the patcher.

use bpx::diff::DiffError;
use bpx::diff::binary::BinaryDiffCodec;
use bpx::diff::binary::DiffOperation;

fn message_of(e: DiffError) -> String {
    e.message()
}

#[test]
fn test_encode_decode_copy_operation() {
    let operations = vec![DiffOperation::Copy { offset: 0, length: 5 }];

    let encoded = BinaryDiffCodec::encode_diff(&operations).unwrap();
    let decoded = BinaryDiffCodec::decode_diff(&encoded).unwrap();

    assert_eq!(operations, decoded);

    // Wire format: [COPY(1B), length(3B), END(1B)]
    assert_eq!(encoded.len(), 5);
    assert_eq!(encoded[0], 0x01);
    assert_eq!(encoded[4], 0x04);
}

#[test]
fn test_encode_decode_insert_operation() {
    let data = b"hello world".to_vec();
    let operations = vec![DiffOperation::Insert(data.clone())];

    let encoded = BinaryDiffCodec::encode_diff(&operations).unwrap();
    let decoded = BinaryDiffCodec::decode_diff(&encoded).unwrap();

    assert_eq!(operations, decoded);

    // Wire format: [INSERT(1B), length(3B), data(11B), END(1B)]
    assert_eq!(encoded.len(), 1 + 3 + 11 + 1);
    assert_eq!(encoded[0], 0x02);
    assert_eq!(encoded[15], 0x04);

    let encoded_data = &encoded[4..15];
    assert_eq!(encoded_data, data.as_slice());
}

#[test]
fn test_encode_decode_delete_operation() {
    let operations = vec![DiffOperation::Delete { length: 3 }];

    let encoded = BinaryDiffCodec::encode_diff(&operations).unwrap();
    let decoded = BinaryDiffCodec::decode_diff(&encoded).unwrap();

    assert_eq!(operations, decoded);

    // Wire format: [DELETE(1B), length(3B), END(1B)]
    assert_eq!(encoded.len(), 5);
    assert_eq!(encoded[0], 0x03);
    assert_eq!(encoded[4], 0x04);
}

#[test]
fn test_encode_decode_complex_sequence() {
    let operations = vec![
        DiffOperation::Copy { offset: 0, length: 7 },
        DiffOperation::Delete { length: 3 },
        DiffOperation::Insert(b"Robert".to_vec()),
        DiffOperation::Copy { offset: 0, length: 2 },
    ];

    let encoded = BinaryDiffCodec::encode_diff(&operations).unwrap();
    let decoded = BinaryDiffCodec::decode_diff(&encoded).unwrap();

    assert_eq!(operations, decoded);
}

#[test]
fn test_apply_operations_copy() {
    let base = b"Hello, World!";
    let operations = vec![DiffOperation::Copy { offset: 0, length: 5 }];

    let result = BinaryDiffCodec::apply_operations(base, &operations).unwrap();
    assert_eq!(result.as_slice(), b"Hello");
}

#[test]
fn test_apply_operations_insert() {
    let base = b"Hello";
    let operations = vec![
        DiffOperation::Copy { offset: 0, length: 5 },
        DiffOperation::Insert(b", World!".to_vec()),
    ];

    let result = BinaryDiffCodec::apply_operations(base, &operations).unwrap();
    assert_eq!(result.as_slice(), b"Hello, World!");
}

#[test]
fn test_apply_operations_delete() {
    let base = b"Hello, cruel World!";
    let operations = vec![
        DiffOperation::Copy { offset: 0, length: 7 }, // "Hello, "
        DiffOperation::Delete { length: 6 },          // skip "cruel "
        DiffOperation::Copy { offset: 0, length: 6 }, // "World!"
    ];

    let result = BinaryDiffCodec::apply_operations(base, &operations).unwrap();
    assert_eq!(result.as_slice(), b"Hello, World!");
}

#[test]
fn test_json_name_change_example() {
    // {"name":"Bob"} -> {"name":"Robert"}
    let base = br#"{"name":"Bob"}"#;
    let operations = vec![
        DiffOperation::Copy { offset: 0, length: 9 }, // `{"name":"`
        DiffOperation::Delete { length: 3 },          // delete "Bob"
        DiffOperation::Insert(b"Robert".to_vec()),    // insert "Robert"
        DiffOperation::Copy { offset: 0, length: 2 }, // `"}`
    ];

    let result = BinaryDiffCodec::apply_operations(base, &operations).unwrap();
    assert_eq!(result.as_slice(), br#"{"name":"Robert"}"#);
}

#[test]
fn test_roundtrip_encode_apply_diff() {
    let base = b"The quick brown fox";
    let operations = vec![
        DiffOperation::Copy { offset: 0, length: 10 }, // "The quick "
        DiffOperation::Delete { length: 5 },           // delete "brown"
        DiffOperation::Insert(b"red".to_vec()),        // insert "red"
        DiffOperation::Copy { offset: 0, length: 4 },  // " fox"
    ];

    let encoded = BinaryDiffCodec::encode_diff(&operations).unwrap();
    let result = BinaryDiffCodec::apply_diff(base, &encoded).unwrap();

    assert_eq!(result.as_slice(), b"The quick red fox");
}

#[test]
fn test_empty_operations() {
    let operations = vec![];
    let encoded = BinaryDiffCodec::encode_diff(&operations).unwrap();
    let decoded = BinaryDiffCodec::decode_diff(&encoded).unwrap();

    assert_eq!(operations, decoded);
    assert_eq!(encoded.len(), 1);
    assert_eq!(encoded[0], 0x04);
}

#[test]
fn test_apply_empty_diff() {
    let base = b"unchanged";
    let operations = vec![];
    let result = BinaryDiffCodec::apply_operations(base, &operations).unwrap();

    assert_eq!(result.len(), 0); // Empty result since no operations
}

#[test]
fn test_large_length_error() {
    // Lengths above 24 bits are rejected
    let operations = vec![DiffOperation::Copy { offset: 0, length: 0x1000000 }];

    let result = BinaryDiffCodec::encode_diff(&operations);
    assert!(result.is_err());
    assert!(message_of(result.unwrap_err()).contains("Copy length too large"));
}

#[test]
fn test_large_insert_data_error() {
    // Insert data above a 24-bit length is rejected
    let large_data = vec![0u8; 0x1000000];
    let operations = vec![DiffOperation::Insert(large_data)];

    let result = BinaryDiffCodec::encode_diff(&operations);
    assert!(result.is_err());
    assert!(message_of(result.unwrap_err()).contains("Insert data too large"));
}

#[test]
fn test_decode_invalid_operation() {
    let invalid_data = vec![0xFF, 0x00, 0x00, 0x01]; // Invalid op code

    let result = BinaryDiffCodec::decode_diff(&invalid_data);
    assert!(result.is_err());
    assert!(message_of(result.unwrap_err()).contains("Unknown operation: 0xff"));
}

#[test]
fn test_decode_truncated_data() {
    let truncated_data = vec![0x01, 0x00]; // Copy opcode, missing length bytes

    let result = BinaryDiffCodec::decode_diff(&truncated_data);
    assert!(result.is_err());
    assert!(message_of(result.unwrap_err()).contains("Insufficient data"));
}

#[test]
fn test_apply_copy_beyond_base() {
    let base = b"short";
    let operations = vec![DiffOperation::Copy { offset: 0, length: 100 }];

    let result = BinaryDiffCodec::apply_operations(base, &operations);
    assert!(result.is_err());
    assert!(message_of(result.unwrap_err()).contains("exceeds base content length"));
}

#[test]
fn test_apply_delete_beyond_base() {
    let base = b"short";
    let operations = vec![DiffOperation::Delete { length: 100 }];

    let result = BinaryDiffCodec::apply_operations(base, &operations);
    assert!(result.is_err());
    assert!(message_of(result.unwrap_err()).contains("exceeds base content length"));
}

#[test]
fn test_wire_format_compliance() {
    let operations = vec![DiffOperation::Insert(b"test".to_vec())];
    let encoded = BinaryDiffCodec::encode_diff(&operations).unwrap();

    // Expected format: [INSERT(0x02), length(0x000004), data("test"), END(0x04)]
    let expected = vec![
        0x02, // INSERT
        0x00, 0x00, 0x04, // length = 4 (24-bit big-endian)
        b't', b'e', b's', b't', // data
        0x04, // END
    ];

    assert_eq!(encoded.as_slice(), expected.as_slice());
}

#[test]
fn test_max_24bit_values() {
    let max_24bit = 0xFFFFFF;
    let operations = vec![
        DiffOperation::Copy { offset: 0, length: max_24bit },
        DiffOperation::Delete { length: max_24bit },
    ];

    let encoded = BinaryDiffCodec::encode_diff(&operations).unwrap();
    let decoded = BinaryDiffCodec::decode_diff(&encoded).unwrap();

    assert_eq!(operations, decoded);
}

#[test]
fn test_surplus_after_end_ignored() {
    // Bytes after the End opcode are not part of the stream
    let data = vec![0x01, 0x00, 0x00, 0x02, 0x04, 0xAA, 0xBB];
    let decoded = BinaryDiffCodec::decode_diff(&data).unwrap();
    assert_eq!(decoded, vec![DiffOperation::Copy { offset: 0, length: 2 }]);
}

#[test]
fn test_diff_error_messages() {
    assert_eq!(
        DiffError::InvalidFormat("bad".to_string()).message(),
        "Invalid diff format: bad"
    );
    assert_eq!(
        DiffError::ComputationFailed("boom".to_string()).message(),
        "Diff computation failed: boom"
    );
    assert_eq!(
        DiffError::PatchFailed("oops".to_string()).message(),
        "Patch application failed: oops"
    );
}

#[test]
fn test_decode_truncated_insert_payload() {
    // Insert announces 4 bytes but only 2 follow
    let data = vec![0x02, 0x00, 0x00, 0x04, b'a', b'b'];
    let result = BinaryDiffCodec::decode_diff(&data);
    assert!(message_of(result.unwrap_err()).contains("Insufficient data for Insert operation payload"));
}
