//! Tests of the wire opcode vocabulary.

use bpx::protocol::wire::DiffOp;

#[test]
fn test_diff_op_values() {
    assert_eq!(DiffOp::Copy.as_u8(), 0x01);
    assert_eq!(DiffOp::Insert.as_u8(), 0x02);
    assert_eq!(DiffOp::Delete.as_u8(), 0x03);
    assert_eq!(DiffOp::End.as_u8(), 0x04);
}

#[test]
fn test_diff_op_from_u8() {
    // Valid operations
    assert_eq!(DiffOp::from_u8(0x01), Some(DiffOp::Copy));
    assert_eq!(DiffOp::from_u8(0x02), Some(DiffOp::Insert));
    assert_eq!(DiffOp::from_u8(0x03), Some(DiffOp::Delete));
    assert_eq!(DiffOp::from_u8(0x04), Some(DiffOp::End));

    // Invalid operations
    assert_eq!(DiffOp::from_u8(0x00), None);
    assert_eq!(DiffOp::from_u8(0x05), None);
    assert_eq!(DiffOp::from_u8(0xFF), None);
}

#[test]
fn test_diff_op_as_u8() {
    assert_eq!(DiffOp::Copy.as_u8(), 0x01);
    assert_eq!(DiffOp::Insert.as_u8(), 0x02);
    assert_eq!(DiffOp::Delete.as_u8(), 0x03);
    assert_eq!(DiffOp::End.as_u8(), 0x04);
}

#[test]
fn test_diff_op_round_trip() {
    for op in DiffOp::all() {
        let byte = op.as_u8();
        let recovered = DiffOp::from_u8(byte);
        assert_eq!(recovered, Some(op));
    }
}

#[test]
fn test_all_operations() {
    let all_ops = DiffOp::all();
    assert_eq!(all_ops.len(), 4);
    assert!(all_ops.contains(&DiffOp::Copy));
    assert!(all_ops.contains(&DiffOp::Insert));
    assert!(all_ops.contains(&DiffOp::Delete));
    assert!(all_ops.contains(&DiffOp::End));
}

#[test]
fn test_requires_length() {
    assert!(DiffOp::Copy.requires_length());
    assert!(DiffOp::Insert.requires_length());
    assert!(DiffOp::Delete.requires_length());
    assert!(!DiffOp::End.requires_length());
}

#[test]
fn test_requires_data() {
    assert!(!DiffOp::Copy.requires_data());
    assert!(DiffOp::Insert.requires_data());
    assert!(!DiffOp::Delete.requires_data());
    assert!(!DiffOp::End.requires_data());
}

#[test]
fn test_wire_format_constants() {
    const EXPECTED_COPY: u8 = 0x01;
    const EXPECTED_INSERT: u8 = 0x02;
    const EXPECTED_DELETE: u8 = 0x03;
    const EXPECTED_END: u8 = 0x04;

    assert_eq!(DiffOp::Copy.as_u8(), EXPECTED_COPY);
    assert_eq!(DiffOp::Insert.as_u8(), EXPECTED_INSERT);
    assert_eq!(DiffOp::Delete.as_u8(), EXPECTED_DELETE);
    assert_eq!(DiffOp::End.as_u8(), EXPECTED_END);
}

#[test]
fn test_operation_semantics() {
    assert_eq!(DiffOp::Copy.requires_length() && !DiffOp::Copy.requires_data(), true);
    assert_eq!(DiffOp::Insert.requires_length() && DiffOp::Insert.requires_data(), true);
    assert_eq!(DiffOp::Delete.requires_length() && !DiffOp::Delete.requires_data(), true);
    assert_eq!(!DiffOp::End.requires_length() && !DiffOp::End.requires_data(), true);
}
