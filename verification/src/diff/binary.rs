//! Binary diff wire format: encoder, decoder and patcher.
//!
//! Wire grammar (all lengths 24-bit big-endian):
//!
//! ```text
//! stream  := op* End
//! Copy    := 0x01  length:u24
//! Insert  := 0x02  length:u24  data:length bytes
//! Delete  := 0x03  length:u24
//! End     := 0x04
//! ```
//!
//! Copy is strictly sequential against an implicit base cursor; the in-memory
//! `offset` field of [`DiffOperation::Copy`] is never emitted on the wire.

use crate::diff::DiffError;
use crate::textfmt::spec_hex_byte;
use crate::textfmt::hex_byte;
use vstd::prelude::*;
use vstd::slice::slice_index_get;
use vstd::slice::slice_subrange;
use vstd::slice::slice_to_vec;

verus! {

/// Diff operation with data.
#[derive(Debug, Clone, PartialEq, Eq)]
pub enum DiffOperation {
    /// Copy bytes from the base content. The base cursor advances; `offset`
    /// is retained for future random-access copies but is not emitted.
    Copy {
        /// Offset in the original content (unused on the wire).
        offset: u32,
        /// Number of bytes to copy.
        length: u32,
    },
    /// Insert new data; the base cursor does not advance.
    Insert(Vec<u8>),
    /// Skip bytes of the base content without emitting them.
    Delete {
        /// Number of bytes to skip.
        length: u32,
    },
}

/// The mathematical shape of a [`DiffOperation`]: the same three cases with
/// the insert payload as a sequence.
pub enum OpView {
    /// Copy `length` bytes from the base at the cursor.
    Copy {
        /// Offset in the original content (unused on the wire).
        offset: u32,
        /// Number of bytes to copy.
        length: u32,
    },
    /// Emit the given bytes.
    Insert(Seq<u8>),
    /// Advance the base cursor by `length` bytes.
    Delete {
        /// Number of bytes to skip.
        length: u32,
    },
}

impl View for DiffOperation {
    type V = OpView;

    open spec fn view(&self) -> OpView {
        match self {
            DiffOperation::Copy { offset, length } => OpView::Copy {
                offset: *offset,
                length: *length,
            },
            DiffOperation::Insert(data) => OpView::Insert(data@),
            DiffOperation::Delete { length } => OpView::Delete { length: *length },
        }
    }
}

/// The views of a sequence of operations.
pub open spec fn views_of(ops: Seq<DiffOperation>) -> Seq<OpView> {
    Seq::new(ops.len(), |i: int| ops[i]@)
}

/// Whether the operation's length fits the 24-bit wire field.
pub open spec fn spec_op_len_ok(op: OpView) -> bool {
    match op {
        OpView::Copy { length, .. } => length <= 0xFFFFFF,
        OpView::Insert(data) => data.len() <= 0xFFFFFF,
        OpView::Delete { length } => length <= 0xFFFFFF,
    }
}

/// Whether every operation's length fits the 24-bit wire field.
pub open spec fn spec_ops_ok(ops: Seq<OpView>) -> bool {
    forall|i: int| 0 <= i < ops.len() ==> spec_op_len_ok(#[trigger] ops[i])
}

/// A 24-bit length as three big-endian bytes.
pub open spec fn spec_be24(n: u32) -> Seq<u8> {
    seq![(n >> 16u32) as u8, (n >> 8u32) as u8, n as u8]
}

/// A 24-bit length read back from three big-endian bytes.
pub open spec fn spec_u24(b0: u8, b1: u8, b2: u8) -> u32 {
    ((b0 as u32) << 16u32) | ((b1 as u32) << 8u32) | (b2 as u32)
}

/// The wire bytes of a single operation.
pub open spec fn spec_encode_op(op: OpView) -> Seq<u8> {
    match op {
        OpView::Copy { length, .. } => seq![0x01u8] + spec_be24(length),
        OpView::Insert(data) => seq![0x02u8] + spec_be24(data.len() as u32) + data,
        OpView::Delete { length } => seq![0x03u8] + spec_be24(length),
    }
}

/// The error message the encoder reports for an oversized operation.
pub open spec fn spec_oversize_msg(op: OpView) -> Seq<char> {
    match op {
        OpView::Copy { .. } => "Copy length too large (max 24-bit)"@,
        OpView::Insert(..) => "Insert data too large (max 24-bit length)"@,
        OpView::Delete { .. } => "Delete length too large (max 24-bit)"@,
    }
}

/// What encoding a list of operations yields: the wire stream, always closed
/// by the End byte, or the error message for the first oversized operation.
pub open spec fn spec_encode(ops: Seq<OpView>) -> Result<Seq<u8>, Seq<char>>
    decreases ops.len(),
{
    if ops.len() == 0 {
        Ok(seq![0x04u8])
    } else if !spec_op_len_ok(ops[0]) {
        Err(spec_oversize_msg(ops[0]))
    } else {
        match spec_encode(ops.drop_first()) {
            Ok(rest) => Ok(spec_encode_op(ops[0]) + rest),
            Err(m) => Err(m),
        }
    }
}

/// Encoding succeeds exactly when every length fits in 24 bits.
pub proof fn lemma_encode_ok_iff(ops: Seq<OpView>)
    ensures
        spec_encode(ops) is Ok <==> spec_ops_ok(ops),
    decreases ops.len(),
{
    if ops.len() != 0 {
        lemma_encode_ok_iff(ops.drop_first());
        if spec_ops_ok(ops.drop_first()) && spec_op_len_ok(ops[0]) {
            assert forall|i: int| 0 <= i < ops.len() implies spec_op_len_ok(#[trigger] ops[i]) by {
                if i > 0 {
                    assert(ops[i] == ops.drop_first()[i - 1]);
                }
            }
        }
        if spec_ops_ok(ops) {
            assert forall|i: int| 0 <= i < ops.drop_first().len() implies spec_op_len_ok(
                #[trigger] ops.drop_first()[i],
            ) by {
                assert(ops.drop_first()[i] == ops[i + 1]);
            }
        }
    }
}

/// What decoding a wire stream yields: the operations up to the End byte or
/// the end of the buffer, or the error message for the first malformed spot.
/// Decoded Copy operations carry offset zero. Bytes after End are ignored.
pub open spec fn spec_decode(data: Seq<u8>) -> Result<Seq<OpView>, Seq<char>>
    decreases data.len(),
{
    if data.len() == 0 {
        Ok(Seq::empty())
    } else if data[0] == 0x04 {
        Ok(Seq::empty())
    } else if data[0] == 0x01 {
        if data.len() < 4 {
            Err("Insufficient data for Copy operation length"@)
        } else {
            match spec_decode(data.skip(4)) {
                Ok(rest) => Ok(
                    seq![OpView::Copy { offset: 0, length: spec_u24(data[1], data[2], data[3]) }]
                        + rest,
                ),
                Err(m) => Err(m),
            }
        }
    } else if data[0] == 0x02 {
        if data.len() < 4 {
            Err("Insufficient data for Insert operation length"@)
        } else {
            let l = spec_u24(data[1], data[2], data[3]) as int;
            if data.len() < 4 + l {
                Err("Insufficient data for Insert operation payload"@)
            } else {
                match spec_decode(data.skip(4 + l)) {
                    Ok(rest) => Ok(seq![OpView::Insert(data.subrange(4, 4 + l))] + rest),
                    Err(m) => Err(m),
                }
            }
        }
    } else if data[0] == 0x03 {
        if data.len() < 4 {
            Err("Insufficient data for Delete operation length"@)
        } else {
            match spec_decode(data.skip(4)) {
                Ok(rest) => Ok(
                    seq![OpView::Delete { length: spec_u24(data[1], data[2], data[3]) }] + rest,
                ),
                Err(m) => Err(m),
            }
        }
    } else {
        Err("Unknown operation: 0x"@ + spec_hex_byte(data[0]))
    }
}

/// What applying operations to `base`, starting with the cursor at `pos`,
/// yields: the reconstructed bytes, or the error message for the first Copy
/// or Delete that would run past the end of the base.
pub open spec fn spec_apply_from(base: Seq<u8>, ops: Seq<OpView>, pos: int) -> Result<
    Seq<u8>,
    Seq<char>,
>
    decreases ops.len(),
{
    if ops.len() == 0 {
        Ok(Seq::empty())
    } else {
        match ops[0] {
            OpView::Copy { length, .. } => if pos + length > base.len() {
                Err("Copy operation exceeds base content length"@)
            } else {
                match spec_apply_from(base, ops.drop_first(), pos + length) {
                    Ok(rest) => Ok(base.subrange(pos, pos + length) + rest),
                    Err(m) => Err(m),
                }
            },
            OpView::Insert(data) => match spec_apply_from(base, ops.drop_first(), pos) {
                Ok(rest) => Ok(data + rest),
                Err(m) => Err(m),
            },
            OpView::Delete { length } => if pos + length > base.len() {
                Err("Delete operation exceeds base content length"@)
            } else {
                spec_apply_from(base, ops.drop_first(), pos + length)
            },
        }
    }
}

/// What applying operations to `base` with the cursor at the start yields.
pub open spec fn spec_apply(base: Seq<u8>, ops: Seq<OpView>) -> Result<Seq<u8>, Seq<char>> {
    spec_apply_from(base, ops, 0)
}

/// Binary diff encoder/decoder.
pub struct BinaryDiffCodec;

impl BinaryDiffCodec {
    /// Encode diff operations to the binary wire format, closing the stream
    /// with the End byte. Fails with [`DiffError::InvalidFormat`] on the
    /// first operation whose length does not fit in 24 bits.
    pub fn encode_diff(operations: &[DiffOperation]) -> (r: Result<Vec<u8>, DiffError>)
        ensures
            ({
                let ops = views_of(operations@);
                &&& (r matches Ok(d) ==> spec_encode(ops) == Ok::<Seq<u8>, Seq<char>>(d@))
                &&& (r matches Err(e) ==> {
                    &&& e matches DiffError::InvalidFormat(m)
                    &&& spec_encode(ops) == Err::<Seq<u8>, Seq<char>>(m@)
                })
            }),
    {
        let ghost ops = views_of(operations@);
        let mut buf: Vec<u8> = Vec::new();
        let mut i: usize = 0;
        proof {
            assert(ops.skip(0) =~= ops);
        }
        while i < operations.len()
            invariant
                i <= operations@.len(),
                ops == views_of(operations@),
                match spec_encode(ops.skip(i as int)) {
                    Ok(rest) => spec_encode(ops) == Ok::<Seq<u8>, Seq<char>>(buf@ + rest),
                    Err(m) => spec_encode(ops) == Err::<Seq<u8>, Seq<char>>(m),
                },
            decreases operations@.len() - i,
        {
            let op = slice_index_get(operations, i);
            proof {
                assert(ops.skip(i as int)[0] == ops[i as int]);
                assert(ops.skip(i as int).drop_first() =~= ops.skip(i as int + 1));
            }
            let ghost buf0 = buf@;
            match op {
                DiffOperation::Copy { offset: _, length } => {
                    if *length > 0xFFFFFF {
                        return Err(
                            DiffError::InvalidFormat(
                                "Copy length too large (max 24-bit)".to_owned(),
                            ),
                        );
                    }
                    buf.push(0x01);
                    buf.push(#[verifier::truncate] ((*length >> 16u32) as u8));
                    buf.push(#[verifier::truncate] ((*length >> 8u32) as u8));
                    buf.push(#[verifier::truncate] (*length as u8));
                    proof {
                        assert(buf@ =~= buf0 + spec_encode_op(ops[i as int]));
                    }
                },
                DiffOperation::Insert(data) => {
                    if data.len() > 0xFFFFFF {
                        return Err(
                            DiffError::InvalidFormat(
                                "Insert data too large (max 24-bit length)".to_owned(),
                            ),
                        );
                    }
                    let dlen: u32 = data.len() as u32;
                    buf.push(0x02);
                    buf.push(#[verifier::truncate] ((dlen >> 16u32) as u8));
                    buf.push(#[verifier::truncate] ((dlen >> 8u32) as u8));
                    buf.push(#[verifier::truncate] (dlen as u8));
                    buf.extend_from_slice(data.as_slice());
                    proof {
                        assert(buf@ =~= buf0 + spec_encode_op(ops[i as int]));
                    }
                },
                DiffOperation::Delete { length } => {
                    if *length > 0xFFFFFF {
                        return Err(
                            DiffError::InvalidFormat(
                                "Delete length too large (max 24-bit)".to_owned(),
                            ),
                        );
                    }
                    buf.push(0x03);
                    buf.push(#[verifier::truncate] ((*length >> 16u32) as u8));
                    buf.push(#[verifier::truncate] ((*length >> 8u32) as u8));
                    buf.push(#[verifier::truncate] (*length as u8));
                    proof {
                        assert(buf@ =~= buf0 + spec_encode_op(ops[i as int]));
                    }
                },
            }
            i = i + 1;
            proof {
                if spec_encode(ops.skip(i as int)) is Ok {
                    let rest = spec_encode(ops.skip(i as int))->Ok_0;
                    assert(buf0 + (spec_encode_op(ops[i - 1]) + rest) =~= buf@ + rest);
                }
            }
        }
        proof {
            assert(ops.skip(operations@.len() as int) =~= Seq::<OpView>::empty());
        }
        let ghost buf0 = buf@;
        buf.push(0x04);
        proof {
            assert(buf@ =~= buf0 + seq![0x04u8]);
        }
        Ok(buf)
    }

    /// Decode a binary wire stream into diff operations. Stops at the End
    /// byte or at the end of the buffer; fails with
    /// [`DiffError::InvalidFormat`] on an unknown opcode or a truncated
    /// length or payload.
    pub fn decode_diff(diff_data: &[u8]) -> (r: Result<Vec<DiffOperation>, DiffError>)
        ensures
            r matches Ok(v) ==> spec_decode(diff_data@) == Ok::<Seq<OpView>, Seq<char>>(
                views_of(v@),
            ),
            r matches Err(e) ==> {
                &&& e matches DiffError::InvalidFormat(m)
                &&& spec_decode(diff_data@) == Err::<Seq<OpView>, Seq<char>>(m@)
            },
    {
        let mut ops: Vec<DiffOperation> = Vec::new();
        let mut i: usize = 0;
        proof {
            assert(diff_data@.skip(0) =~= diff_data@);
        }
        while i < diff_data.len()
            invariant
                i <= diff_data@.len(),
                match spec_decode(diff_data@.skip(i as int)) {
                    Ok(rest) => spec_decode(diff_data@) == Ok::<Seq<OpView>, Seq<char>>(
                        views_of(ops@) + rest,
                    ),
                    Err(m) => spec_decode(diff_data@) == Err::<Seq<OpView>, Seq<char>>(m),
                },
            decreases diff_data@.len() - i,
        {
            let ghost tail = diff_data@.skip(i as int);
            proof {
                assert(tail[0] == diff_data@[i as int]);
            }
            let op_byte = *slice_index_get(diff_data, i);
            if op_byte == 0x04 {
                proof {
                    assert(views_of(ops@) + Seq::<OpView>::empty() =~= views_of(ops@));
                }
                return Ok(ops);
            } else if op_byte == 0x01 {
                if diff_data.len() - i < 4 {
                    return Err(
                        DiffError::InvalidFormat(
                            "Insufficient data for Copy operation length".to_owned(),
                        ),
                    );
                }
                proof {
                    assert(tail[1] == diff_data@[i + 1]);
                    assert(tail[2] == diff_data@[i + 2]);
                    assert(tail[3] == diff_data@[i + 3]);
                    assert(tail.skip(4) =~= diff_data@.skip(i as int + 4));
                }
                let b0 = *slice_index_get(diff_data, i + 1);
                let b1 = *slice_index_get(diff_data, i + 2);
                let b2 = *slice_index_get(diff_data, i + 3);
                let length: u32 = ((b0 as u32) << 16u32) | ((b1 as u32) << 8u32) | (b2 as u32);
                let ghost ops0 = ops@;
                ops.push(DiffOperation::Copy { offset: 0, length });
                i = i + 4;
                proof {
                    let opv = OpView::Copy { offset: 0, length: spec_u24(tail[1], tail[2], tail[3]) };
                    if spec_decode(diff_data@.skip(i as int)) is Ok {
                        let rest = spec_decode(diff_data@.skip(i as int))->Ok_0;
                        assert(views_of(ops0) + (seq![opv] + rest) =~= views_of(ops@) + rest);
                    }
                }
            } else if op_byte == 0x02 {
                if diff_data.len() - i < 4 {
                    return Err(
                        DiffError::InvalidFormat(
                            "Insufficient data for Insert operation length".to_owned(),
                        ),
                    );
                }
                proof {
                    assert(tail[1] == diff_data@[i + 1]);
                    assert(tail[2] == diff_data@[i + 2]);
                    assert(tail[3] == diff_data@[i + 3]);
                }
                let b0 = *slice_index_get(diff_data, i + 1);
                let b1 = *slice_index_get(diff_data, i + 2);
                let b2 = *slice_index_get(diff_data, i + 3);
                let length: u32 = ((b0 as u32) << 16u32) | ((b1 as u32) << 8u32) | (b2 as u32);
                let llen: usize = length as usize;
                if diff_data.len() - (i + 4) < llen {
                    return Err(
                        DiffError::InvalidFormat(
                            "Insufficient data for Insert operation payload".to_owned(),
                        ),
                    );
                }
                proof {
                    assert(tail.subrange(4, 4 + llen as int) =~= diff_data@.subrange(
                        i as int + 4,
                        i as int + 4 + llen as int,
                    ));
                    assert(tail.skip(4 + llen as int) =~= diff_data@.skip(
                        i as int + 4 + llen as int,
                    ));
                }
                let payload = slice_to_vec(slice_subrange(diff_data, i + 4, i + 4 + llen));
                let ghost ops0 = ops@;
                ops.push(DiffOperation::Insert(payload));
                i = i + 4 + llen;
                proof {
                    let opv = OpView::Insert(
                        tail.subrange(4, 4 + spec_u24(tail[1], tail[2], tail[3]) as int),
                    );
                    if spec_decode(diff_data@.skip(i as int)) is Ok {
                        let rest = spec_decode(diff_data@.skip(i as int))->Ok_0;
                        assert(views_of(ops0) + (seq![opv] + rest) =~= views_of(ops@) + rest);
                    }
                }
            } else if op_byte == 0x03 {
                if diff_data.len() - i < 4 {
                    return Err(
                        DiffError::InvalidFormat(
                            "Insufficient data for Delete operation length".to_owned(),
                        ),
                    );
                }
                proof {
                    assert(tail[1] == diff_data@[i + 1]);
                    assert(tail[2] == diff_data@[i + 2]);
                    assert(tail[3] == diff_data@[i + 3]);
                    assert(tail.skip(4) =~= diff_data@.skip(i as int + 4));
                }
                let b0 = *slice_index_get(diff_data, i + 1);
                let b1 = *slice_index_get(diff_data, i + 2);
                let b2 = *slice_index_get(diff_data, i + 3);
                let length: u32 = ((b0 as u32) << 16u32) | ((b1 as u32) << 8u32) | (b2 as u32);
                let ghost ops0 = ops@;
                ops.push(DiffOperation::Delete { length });
                i = i + 4;
                proof {
                    let opv = OpView::Delete { length: spec_u24(tail[1], tail[2], tail[3]) };
                    if spec_decode(diff_data@.skip(i as int)) is Ok {
                        let rest = spec_decode(diff_data@.skip(i as int))->Ok_0;
                        assert(views_of(ops0) + (seq![opv] + rest) =~= views_of(ops@) + rest);
                    }
                }
            } else {
                return Err(
                    DiffError::InvalidFormat(
                        "Unknown operation: 0x".to_owned().concat(hex_byte(op_byte).as_str()),
                    ),
                );
            }
        }
        proof {
            assert(diff_data@.skip(diff_data@.len() as int) =~= Seq::<u8>::empty());
            assert(views_of(ops@) + Seq::<OpView>::empty() =~= views_of(ops@));
        }
        Ok(ops)
    }

    /// Apply diff operations to base content, maintaining a sequential base
    /// cursor. Fails with [`DiffError::PatchFailed`] on the first Copy or
    /// Delete that would run past the end of the base.
    pub fn apply_operations(base: &[u8], operations: &[DiffOperation]) -> (r: Result<
        Vec<u8>,
        DiffError,
    >)
        ensures
            ({
                let ops = views_of(operations@);
                &&& (r matches Ok(v) ==> spec_apply(base@, ops) == Ok::<Seq<u8>, Seq<char>>(v@))
                &&& (r matches Err(e) ==> {
                    &&& e matches DiffError::PatchFailed(m)
                    &&& spec_apply(base@, ops) == Err::<Seq<u8>, Seq<char>>(m@)
                })
            }),
    {
        let ghost ops = views_of(operations@);
        let mut out: Vec<u8> = Vec::new();
        let mut pos: usize = 0;
        let mut i: usize = 0;
        proof {
            assert(ops.skip(0) =~= ops);
        }
        while i < operations.len()
            invariant
                i <= operations@.len(),
                pos <= base@.len(),
                ops == views_of(operations@),
                match spec_apply_from(base@, ops.skip(i as int), pos as int) {
                    Ok(rest) => spec_apply(base@, ops) == Ok::<Seq<u8>, Seq<char>>(out@ + rest),
                    Err(m) => spec_apply(base@, ops) == Err::<Seq<u8>, Seq<char>>(m),
                },
            decreases operations@.len() - i,
        {
            let op = slice_index_get(operations, i);
            proof {
                assert(ops.skip(i as int)[0] == ops[i as int]);
                assert(ops.skip(i as int).drop_first() =~= ops.skip(i as int + 1));
            }
            let ghost out0 = out@;
            let ghost pos0 = pos as int;
            match op {
                DiffOperation::Copy { offset: _, length } => {
                    let l = *length as usize;
                    if l > base.len() - pos {
                        return Err(
                            DiffError::PatchFailed(
                                "Copy operation exceeds base content length".to_owned(),
                            ),
                        );
                    }
                    out.extend_from_slice(slice_subrange(base, pos, pos + l));
                    pos = pos + l;
                    i = i + 1;
                    proof {
                        if spec_apply_from(base@, ops.skip(i as int), pos as int) is Ok {
                            let rest = spec_apply_from(base@, ops.skip(i as int), pos as int)->Ok_0;
                            assert(out0 + (base@.subrange(pos0, pos0 + *length) + rest) =~= out@
                                + rest);
                        }
                    }
                },
                DiffOperation::Insert(data) => {
                    out.extend_from_slice(data.as_slice());
                    i = i + 1;
                    proof {
                        if spec_apply_from(base@, ops.skip(i as int), pos as int) is Ok {
                            let rest = spec_apply_from(base@, ops.skip(i as int), pos as int)->Ok_0;
                            assert(out0 + (data@ + rest) =~= out@ + rest);
                        }
                    }
                },
                DiffOperation::Delete { length } => {
                    let l = *length as usize;
                    if l > base.len() - pos {
                        return Err(
                            DiffError::PatchFailed(
                                "Delete operation exceeds base content length".to_owned(),
                            ),
                        );
                    }
                    pos = pos + l;
                    i = i + 1;
                },
            }
        }
        proof {
            assert(ops.skip(operations@.len() as int) =~= Seq::<OpView>::empty());
            assert(out@ + Seq::<u8>::empty() =~= out@);
        }
        Ok(out)
    }

    /// Decode a binary diff and apply it to base content.
    pub fn apply_diff(base: &[u8], diff_data: &[u8]) -> (r: Result<Vec<u8>, DiffError>)
        ensures
            r matches Ok(v) ==> {
                &&& spec_decode(diff_data@) matches Ok(ops)
                &&& spec_apply(base@, ops) == Ok::<Seq<u8>, Seq<char>>(v@)
            },
            r matches Err(e) ==> match spec_decode(diff_data@) {
                Ok(ops) => {
                    &&& e matches DiffError::PatchFailed(m)
                    &&& spec_apply(base@, ops) == Err::<Seq<u8>, Seq<char>>(m@)
                },
                Err(dm) => {
                    &&& e matches DiffError::InvalidFormat(m)
                    &&& m@ == dm
                },
            },
    {
        let operations = match Self::decode_diff(diff_data) {
            Ok(v) => v,
            Err(e) => {
                return Err(e);
            },
        };
        Self::apply_operations(base, operations.as_slice())
    }
}

/// A 24-bit length survives the trip through three big-endian bytes.
pub proof fn lemma_be24_roundtrip(n: u32)
    requires
        n <= 0xFFFFFF,
    ensures
        spec_u24((n >> 16u32) as u8, (n >> 8u32) as u8, n as u8) == n,
{
    assert((((n >> 16u32) as u8) as u32) << 16u32 | (((n >> 8u32) as u8) as u32) << 8u32 | ((
    n as u8) as u32) == n) by (bit_vector)
        requires
            n <= 0xFFFFFF,
    ;
}

/// Whether every operation moves at least one byte: no zero-length Copy or
/// Delete and no empty Insert.
pub open spec fn spec_ops_positive(ops: Seq<OpView>) -> bool {
    forall|i: int|
        0 <= i < ops.len() ==> match #[trigger] ops[i] {
            OpView::Copy { length, .. } => length > 0,
            OpView::Insert(data) => data.len() > 0,
            OpView::Delete { length } => length > 0,
        }
}

/// An encoded stream is never empty and always ends in the End byte.
pub proof fn lemma_encode_ends_with_end(ops: Seq<OpView>)
    ensures
        spec_encode(ops) matches Ok(d) ==> d.len() >= 1 && d.last() == 0x04,
    decreases ops.len(),
{
    if ops.len() > 0 {
        lemma_encode_ends_with_end(ops.drop_first());
        if spec_encode(ops.drop_first()) is Ok {
            let rest = spec_encode(ops.drop_first())->Ok_0;
            assert((spec_encode_op(ops[0]) + rest).last() == rest.last());
        }
    }
}

/// Empty-list canonical form: encoding no operations yields exactly the
/// single End byte, one byte long.
pub proof fn lemma_encode_empty()
    ensures
        spec_encode(Seq::<OpView>::empty()) == Ok::<Seq<u8>, Seq<char>>(seq![0x04u8]),
        spec_encode(Seq::<OpView>::empty())->Ok_0.len() == 1,
{
}

/// Whether every Copy operation carries offset zero, as decoded operations
/// always do: the wire format has no offset field.
pub open spec fn spec_copies_sequential(ops: Seq<OpView>) -> bool {
    forall|i: int|
        0 <= i < ops.len() ==> ((#[trigger] ops[i]) matches OpView::Copy { offset, .. } ==> offset
            == 0)
}

/// Round-trip law: decoding an encoded stream yields the original operation
/// list, for every list whose lengths fit in 24 bits and whose Copy offsets
/// are zero (the wire format does not carry offsets).
pub proof fn lemma_decode_encode(ops: Seq<OpView>)
    requires
        spec_ops_ok(ops),
        spec_copies_sequential(ops),
    ensures
        spec_encode(ops) matches Ok(d) && spec_decode(d) == Ok::<Seq<OpView>, Seq<char>>(ops),
    decreases ops.len(),
{
    lemma_encode_ok_iff(ops);
    if ops.len() == 0 {
        assert(ops =~= Seq::<OpView>::empty());
        assert(spec_encode(ops) == Ok::<Seq<u8>, Seq<char>>(seq![0x04u8]));
        let d = seq![0x04u8];
        assert(spec_decode(d) == Ok::<Seq<OpView>, Seq<char>>(ops));
    } else {
        let rest_ops = ops.drop_first();
        assert forall|i: int| 0 <= i < rest_ops.len() implies spec_op_len_ok(
            #[trigger] rest_ops[i],
        ) && (rest_ops[i] matches OpView::Copy { offset, .. } ==> offset == 0) by {
            assert(rest_ops[i] == ops[i + 1]);
        }
        lemma_decode_encode(rest_ops);
        let rest_d = spec_encode(rest_ops)->Ok_0;
        let head = spec_encode_op(ops[0]);
        let d = head + rest_d;
        assert(spec_encode(ops) == Ok::<Seq<u8>, Seq<char>>(d));
        match ops[0] {
            OpView::Copy { offset, length } => {
                assert(d[0] == 0x01);
                assert(d.len() >= 4);
                assert(d[1] == (length >> 16u32) as u8);
                assert(d[2] == (length >> 8u32) as u8);
                assert(d[3] == length as u8);
                lemma_be24_roundtrip(length);
                assert(offset == 0);
                assert(d.skip(4) =~= rest_d);
                assert(seq![ops[0]] + rest_ops =~= ops);
                assert(spec_decode(d) == Ok::<Seq<OpView>, Seq<char>>(ops));
            },
            OpView::Insert(data) => {
                let n = data.len() as u32;
                assert(d[0] == 0x02);
                assert(d.len() >= 4);
                assert(d[1] == (n >> 16u32) as u8);
                assert(d[2] == (n >> 8u32) as u8);
                assert(d[3] == n as u8);
                lemma_be24_roundtrip(n);
                assert(d.len() >= 4 + n);
                assert(d.subrange(4, 4 + n as int) =~= data);
                assert(d.skip(4 + n as int) =~= rest_d);
                assert(seq![ops[0]] + rest_ops =~= ops);
                assert(spec_decode(d) == Ok::<Seq<OpView>, Seq<char>>(ops));
            },
            OpView::Delete { length } => {
                assert(d[0] == 0x03);
                assert(d.len() >= 4);
                assert(d[1] == (length >> 16u32) as u8);
                assert(d[2] == (length >> 8u32) as u8);
                assert(d[3] == length as u8);
                lemma_be24_roundtrip(length);
                assert(d.skip(4) =~= rest_d);
                assert(seq![ops[0]] + rest_ops =~= ops);
                assert(spec_decode(d) == Ok::<Seq<OpView>, Seq<char>>(ops));
            },
        }
    }
}

} // verus!
