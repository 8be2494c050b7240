//! BPX wire format definitions.

use vstd::prelude::*;

verus! {

/// Single-byte operation codes of the binary diff wire format.
#[derive(Debug, Clone, Copy, PartialEq, Eq, Structural)]
pub enum DiffOp {
    /// Copy bytes from the base content.
    Copy,
    /// Insert new data.
    Insert,
    /// Skip bytes of the base content.
    Delete,
    /// End of the diff stream.
    End,
}

/// The wire byte of each operation code.
pub open spec fn spec_op_code(op: DiffOp) -> u8 {
    match op {
        DiffOp::Copy => 0x01,
        DiffOp::Insert => 0x02,
        DiffOp::Delete => 0x03,
        DiffOp::End => 0x04,
    }
}

/// The operation code a wire byte stands for, if any.
pub open spec fn spec_op_from_u8(value: u8) -> Option<DiffOp> {
    if value == 0x01 {
        Some(DiffOp::Copy)
    } else if value == 0x02 {
        Some(DiffOp::Insert)
    } else if value == 0x03 {
        Some(DiffOp::Delete)
    } else if value == 0x04 {
        Some(DiffOp::End)
    } else {
        None
    }
}

impl DiffOp {
    /// Convert from a wire byte.
    pub fn from_u8(value: u8) -> (r: Option<DiffOp>)
        ensures
            r == spec_op_from_u8(value),
    {
        match value {
            0x01 => Some(DiffOp::Copy),
            0x02 => Some(DiffOp::Insert),
            0x03 => Some(DiffOp::Delete),
            0x04 => Some(DiffOp::End),
            _ => None,
        }
    }

    /// Convert to the wire byte.
    pub fn as_u8(self) -> (r: u8)
        ensures
            r == spec_op_code(self),
            spec_op_from_u8(r) == Some(self),
    {
        match self {
            DiffOp::Copy => 0x01,
            DiffOp::Insert => 0x02,
            DiffOp::Delete => 0x03,
            DiffOp::End => 0x04,
        }
    }

    /// All valid operation codes.
    pub fn all() -> (r: Vec<DiffOp>)
        ensures
            r@ == seq![DiffOp::Copy, DiffOp::Insert, DiffOp::Delete, DiffOp::End],
    {
        let mut v: Vec<DiffOp> = Vec::new();
        v.push(DiffOp::Copy);
        v.push(DiffOp::Insert);
        v.push(DiffOp::Delete);
        v.push(DiffOp::End);
        proof {
            assert(v@ =~= seq![DiffOp::Copy, DiffOp::Insert, DiffOp::Delete, DiffOp::End]);
        }
        v
    }

    /// Whether the operation carries a length field on the wire.
    pub fn requires_length(self) -> (r: bool)
        ensures
            r == matches!(self, DiffOp::Copy | DiffOp::Insert | DiffOp::Delete),
    {
        matches!(self, DiffOp::Copy | DiffOp::Insert | DiffOp::Delete)
    }

    /// Whether the operation carries a data payload on the wire.
    pub fn requires_data(self) -> (r: bool)
        ensures
            r == matches!(self, DiffOp::Insert),
    {
        matches!(self, DiffOp::Insert)
    }
}

} // verus!
