//! Diff engine built on the `similar` crate's line-based Myers diff, with
//! the binary codec as the wire format.

use crate::diff::DiffEngine;
use crate::diff::DiffError;
use crate::diff::binary::BinaryDiffCodec;
use crate::diff::binary::DiffOperation;
use crate::diff::binary::OpView;
use crate::diff::binary::lemma_decode_encode;
use crate::diff::binary::lemma_encode_ends_with_end;
use crate::diff::binary::lemma_encode_ok_iff;
use crate::diff::binary::spec_apply;
use crate::diff::binary::spec_apply_from;
use crate::diff::binary::spec_copies_sequential;
use crate::diff::binary::spec_decode;
use crate::diff::binary::spec_encode;
use crate::diff::binary::spec_op_len_ok;
use crate::diff::binary::spec_ops_ok;
use crate::diff::binary::spec_ops_positive;
use crate::diff::binary::views_of;
use vstd::prelude::*;
use vstd::slice::slice_index_get;
use vstd::slice::slice_to_vec;

verus! {

/// The bytes of `String::from_utf8_lossy` on the given bytes: the input
/// itself when it is valid UTF-8, else the input with each invalid sequence
/// replaced by U+FFFD. The result depends on the input bytes alone.
pub uninterp spec fn lossy_of(b: Seq<u8>) -> Seq<u8>;

/// One run of a line diff: the bytes of one line of the old side, of the new
/// side, or of both.
enum DiffRun {
    /// The line occurs in both sides.
    Equal(Vec<u8>),
    /// The line occurs only in the old side.
    Delete(Vec<u8>),
    /// The line occurs only in the new side.
    Insert(Vec<u8>),
}

/// The payload bytes of a run.
spec fn run_bytes(r: DiffRun) -> Seq<u8> {
    match r {
        DiffRun::Equal(d) => d@,
        DiffRun::Delete(d) => d@,
        DiffRun::Insert(d) => d@,
    }
}

/// The old side of a line diff: Equal and Delete runs concatenated.
spec fn runs_base_side(runs: Seq<DiffRun>) -> Seq<u8>
    decreases runs.len(),
{
    if runs.len() == 0 {
        Seq::empty()
    } else {
        (match runs[0] {
            DiffRun::Equal(d) => d@,
            DiffRun::Delete(d) => d@,
            DiffRun::Insert(_) => Seq::<u8>::empty(),
        }) + runs_base_side(runs.drop_first())
    }
}

/// The new side of a line diff: Equal and Insert runs concatenated.
spec fn runs_target_side(runs: Seq<DiffRun>) -> Seq<u8>
    decreases runs.len(),
{
    if runs.len() == 0 {
        Seq::empty()
    } else {
        (match runs[0] {
            DiffRun::Equal(d) => d@,
            DiffRun::Insert(d) => d@,
            DiffRun::Delete(_) => Seq::<u8>::empty(),
        }) + runs_target_side(runs.drop_first())
    }
}

/// Whether every run payload fits the 24-bit wire length field.
spec fn spec_runs_ok(runs: Seq<DiffRun>) -> bool {
    forall|i: int| 0 <= i < runs.len() ==> run_bytes(#[trigger] runs[i]).len() <= 0xFFFFFF
}

/// The operation a run maps to; empty runs are omitted.
spec fn op_of_run(r: DiffRun) -> Seq<OpView> {
    match r {
        DiffRun::Equal(d) => if d@.len() == 0 {
            Seq::empty()
        } else {
            seq![OpView::Copy { offset: 0, length: d@.len() as u32 }]
        },
        DiffRun::Delete(d) => if d@.len() == 0 {
            Seq::empty()
        } else {
            seq![OpView::Delete { length: d@.len() as u32 }]
        },
        DiffRun::Insert(d) => if d@.len() == 0 {
            Seq::empty()
        } else {
            seq![OpView::Insert(d@)]
        },
    }
}

/// The operations a whole line diff maps to.
spec fn ops_of_runs(runs: Seq<DiffRun>) -> Seq<OpView>
    decreases runs.len(),
{
    if runs.len() == 0 {
        Seq::empty()
    } else {
        op_of_run(runs[0]) + ops_of_runs(runs.drop_first())
    }
}

proof fn lemma_ops_of_runs_snoc(s: Seq<DiffRun>, r: DiffRun)
    ensures
        ops_of_runs(s.push(r)) == ops_of_runs(s) + op_of_run(r),
    decreases s.len(),
{
    if s.len() == 0 {
        assert(s.push(r)[0] == r);
        assert(s.push(r).drop_first() =~= Seq::<DiffRun>::empty());
        assert(ops_of_runs(s.push(r).drop_first()) == Seq::<OpView>::empty());
        assert(ops_of_runs(s.push(r)) == op_of_run(r) + Seq::<OpView>::empty());
        assert(ops_of_runs(s.push(r)) =~= ops_of_runs(s) + op_of_run(r));
    } else {
        assert(s.push(r)[0] == s[0]);
        assert(s.push(r).drop_first() =~= s.drop_first().push(r));
        lemma_ops_of_runs_snoc(s.drop_first(), r);
        assert(ops_of_runs(s.push(r)) == op_of_run(s[0]) + (ops_of_runs(s.drop_first())
            + op_of_run(r)));
        assert(ops_of_runs(s.push(r)) =~= (op_of_run(s[0]) + ops_of_runs(s.drop_first()))
            + op_of_run(r));
        assert(ops_of_runs(s.push(r)) =~= ops_of_runs(s) + op_of_run(r));
    }
}

/// Each run's payload is no longer than the side of the diff it belongs to.
proof fn lemma_run_bound(runs: Seq<DiffRun>, i: int)
    requires
        0 <= i < runs.len(),
    ensures
        runs[i] matches DiffRun::Equal(d) ==> d@.len() <= runs_base_side(runs).len(),
        runs[i] matches DiffRun::Delete(d) ==> d@.len() <= runs_base_side(runs).len(),
        runs[i] matches DiffRun::Insert(d) ==> d@.len() <= runs_target_side(runs).len(),
    decreases i,
{
    if i > 0 {
        lemma_run_bound(runs.drop_first(), i - 1);
        assert(runs.drop_first()[i - 1] == runs[i]);
    }
}

/// Runs whose payloads fit the wire map to well-formed sequential
/// operations, none of them empty: empty runs are omitted.
proof fn lemma_ops_of_runs_wf(runs: Seq<DiffRun>)
    requires
        spec_runs_ok(runs),
    ensures
        spec_ops_ok(ops_of_runs(runs)),
        spec_copies_sequential(ops_of_runs(runs)),
        spec_ops_positive(ops_of_runs(runs)),
    decreases runs.len(),
{
    if runs.len() > 0 {
        let rest = runs.drop_first();
        assert forall|i: int| 0 <= i < rest.len() implies run_bytes(#[trigger] rest[i]).len()
            <= 0xFFFFFF by {
            assert(rest[i] == runs[i + 1]);
        }
        lemma_ops_of_runs_wf(rest);
        let head = op_of_run(runs[0]);
        let ops = ops_of_runs(runs);
        assert(run_bytes(runs[0]).len() <= 0xFFFFFF);
        assert forall|i: int| 0 <= i < ops.len() implies spec_op_len_ok(#[trigger] ops[i]) && (
        ops[i] matches OpView::Copy { offset, .. } ==> offset == 0) && (match ops[i] {
            OpView::Copy { length, .. } => length > 0,
            OpView::Insert(data) => data.len() > 0,
            OpView::Delete { length } => length > 0,
        }) by {
            if i < head.len() {
                assert(ops[i] == head[0]);
            } else {
                assert(ops[i] == ops_of_runs(rest)[i - head.len()]);
            }
        }
    }
}

/// A diff that maps to no operations has empty sides.
proof fn lemma_empty_ops_empty_sides(runs: Seq<DiffRun>)
    requires
        ops_of_runs(runs) == Seq::<OpView>::empty(),
    ensures
        runs_base_side(runs) == Seq::<u8>::empty(),
        runs_target_side(runs) == Seq::<u8>::empty(),
    decreases runs.len(),
{
    if runs.len() > 0 {
        assert(op_of_run(runs[0]).len() == 0);
        assert(run_bytes(runs[0]).len() == 0);
        lemma_empty_ops_empty_sides(runs.drop_first());
        assert(runs_base_side(runs) =~= Seq::<u8>::empty());
        assert(runs_target_side(runs) =~= Seq::<u8>::empty());
    }
}

/// An encoded stream is never empty, and holds more than the End byte as
/// soon as there is at least one operation.
proof fn lemma_encode_min_len(ops: Seq<OpView>)
    ensures
        spec_encode(ops) matches Ok(d) ==> d.len() >= 1 && (ops.len() > 0 ==> d.len() >= 5),
    decreases ops.len(),
{
    if ops.len() > 0 {
        lemma_encode_min_len(ops.drop_first());
    }
}

/// Applying the operations of a line diff to the base reconstructs the new
/// side, provided the remaining base equals the remaining old side.
proof fn lemma_runs_apply(base: Seq<u8>, runs: Seq<DiffRun>, pos: int)
    requires
        0 <= pos <= base.len(),
        spec_runs_ok(runs),
        runs_base_side(runs) == base.skip(pos),
    ensures
        spec_apply_from(base, ops_of_runs(runs), pos) == Ok::<Seq<u8>, Seq<char>>(
            runs_target_side(runs),
        ),
    decreases runs.len(),
{
    if runs.len() == 0 {
    } else {
        let rest = runs.drop_first();
        assert forall|i: int| 0 <= i < rest.len() implies run_bytes(#[trigger] rest[i]).len()
            <= 0xFFFFFF by {
            assert(rest[i] == runs[i + 1]);
        }
        assert(run_bytes(runs[0]).len() <= 0xFFFFFF);
        let ops = ops_of_runs(runs);
        match runs[0] {
            DiffRun::Equal(d) => {
                let l = d@.len() as int;
                assert(base.skip(pos).len() == base.len() - pos);
                assert(l + runs_base_side(rest).len() == base.len() - pos);
                assert(base.skip(pos + l) =~= runs_base_side(rest)) by {
                    assert forall|k: int| 0 <= k < base.len() - pos - l implies base[pos + l + k]
                        == runs_base_side(rest)[k] by {
                        assert(base.skip(pos)[l + k] == base[pos + l + k]);
                        assert((d@ + runs_base_side(rest))[l + k] == runs_base_side(rest)[k]);
                    }
                }
                lemma_runs_apply(base, rest, pos + l);
                if l == 0 {
                    assert(ops =~= ops_of_runs(rest));
                    assert(d@ + runs_target_side(rest) =~= runs_target_side(rest));
                } else {
                    assert(base.subrange(pos, pos + l) =~= d@) by {
                        assert forall|k: int| 0 <= k < l implies base[pos + k] == d@[k] by {
                            assert(base.skip(pos)[k] == base[pos + k]);
                            assert((d@ + runs_base_side(rest))[k] == d@[k]);
                        }
                    }
                    assert(ops[0] == OpView::Copy { offset: 0, length: d@.len() as u32 });
                    assert(ops.drop_first() =~= ops_of_runs(rest));
                }
            },
            DiffRun::Delete(d) => {
                let l = d@.len() as int;
                assert(base.skip(pos).len() == base.len() - pos);
                assert(l + runs_base_side(rest).len() == base.len() - pos);
                assert(base.skip(pos + l) =~= runs_base_side(rest)) by {
                    assert forall|k: int| 0 <= k < base.len() - pos - l implies base[pos + l + k]
                        == runs_base_side(rest)[k] by {
                        assert(base.skip(pos)[l + k] == base[pos + l + k]);
                        assert((d@ + runs_base_side(rest))[l + k] == runs_base_side(rest)[k]);
                    }
                }
                lemma_runs_apply(base, rest, pos + l);
                if l == 0 {
                    assert(ops =~= ops_of_runs(rest));
                } else {
                    assert(ops[0] == OpView::Delete { length: d@.len() as u32 });
                    assert(ops.drop_first() =~= ops_of_runs(rest));
                }
                assert(runs_target_side(runs) =~= runs_target_side(rest));
            },
            DiffRun::Insert(d) => {
                assert(base.skip(pos) =~= Seq::<u8>::empty() + runs_base_side(rest));
                assert(Seq::<u8>::empty() + runs_base_side(rest) =~= runs_base_side(rest));
                lemma_runs_apply(base, rest, pos);
                if d@.len() == 0 {
                    assert(ops =~= ops_of_runs(rest));
                    assert(d@ + runs_target_side(rest) =~= runs_target_side(rest));
                } else {
                    assert(ops[0] == OpView::Insert(d@));
                    assert(ops.drop_first() =~= ops_of_runs(rest));
                }
            },
        }
    }
}

/// Relies on `String::from_utf8_lossy` and on the `similar` crate's
/// `TextDiff` (Myers algorithm, line tokens): the changes of a line diff
/// list every line of the old side exactly once, tagged Equal or Delete, and
/// every line of the new side exactly once, tagged Equal or Insert, in
/// order, with line terminators kept, so that each side's concatenation is
/// the (lossily decoded) input.
#[verifier::external_body]
fn diff_line_runs(old: &[u8], new: &[u8]) -> (runs: Vec<DiffRun>)
    ensures
        runs_base_side(runs@) == lossy_of(old@),
        runs_target_side(runs@) == lossy_of(new@),
{
    let old_str = String::from_utf8_lossy(old);
    let new_str = String::from_utf8_lossy(new);
    let diff = ::similar::TextDiff::configure().algorithm(::similar::Algorithm::Myers).diff_lines(
        old_str.as_ref(),
        new_str.as_ref(),
    );
    diff.iter_all_changes().map(|c| {
        let bytes = c.value().as_bytes().to_vec();
        match c.tag() {
            ::similar::ChangeTag::Equal => DiffRun::Equal(bytes),
            ::similar::ChangeTag::Delete => DiffRun::Delete(bytes),
            ::similar::ChangeTag::Insert => DiffRun::Insert(bytes),
        }
    }).collect()
}

/// Byte-wise equality of two slices.
fn bytes_eq(a: &[u8], b: &[u8]) -> (r: bool)
    ensures
        r == (a@ == b@),
{
    if a.len() != b.len() {
        return false;
    }
    let mut i: usize = 0;
    while i < a.len()
        invariant
            i <= a@.len(),
            a@.len() == b@.len(),
            forall|k: int| 0 <= k < i ==> a@[k] == b@[k],
        decreases a@.len() - i,
    {
        if *slice_index_get(a, i) != *slice_index_get(b, i) {
            return false;
        }
        i = i + 1;
    }
    proof {
        assert(a@ =~= b@);
    }
    true
}

/// What applying a diff under [`SimilarDiffEngine`] yields: an empty buffer
/// is rejected, the single End byte returns the base unchanged, and any
/// other stream is decoded and applied by the codec.
pub open spec fn spec_engine_apply(base: Seq<u8>, diff: Seq<u8>) -> Option<Seq<u8>> {
    if diff.len() == 0 {
        None
    } else if diff == seq![0x04u8] {
        Some(base)
    } else {
        match spec_decode(diff) {
            Ok(ops) => match spec_apply(base, ops) {
                Ok(v) => Some(v),
                Err(_) => None,
            },
            Err(_) => None,
        }
    }
}

/// Diff engine using the `similar` crate with line-based diffing.
#[derive(Debug, Clone, Copy)]
pub struct SimilarDiffEngine {
    /// Required compression in percent: a diff is worthwhile only if its
    /// size is at most this much below the full content's size. Values
    /// above 100 count as 100.
    pub min_compression_percent: u32,
}

impl SimilarDiffEngine {
    /// Create a new diff engine requiring 20% savings.
    pub fn new() -> (r: SimilarDiffEngine)
        ensures
            r.min_compression_percent == 20,
    {
        SimilarDiffEngine { min_compression_percent: 20 }
    }

    /// Create a new diff engine with a custom required compression, in
    /// percent; values above 100 are clamped to 100.
    pub fn with_compression_ratio(min_compression_percent: u32) -> (r: SimilarDiffEngine)
        ensures
            r.min_compression_percent == if min_compression_percent > 100 {
                100u32
            } else {
                min_compression_percent
            },
    {
        let p: u32 = if min_compression_percent > 100 {
            100
        } else {
            min_compression_percent
        };
        SimilarDiffEngine { min_compression_percent: p }
    }

    /// The share of the original size, in percent, that a diff may use at
    /// most and still be worthwhile.
    pub open spec fn spec_keep_percent(&self) -> int {
        if self.min_compression_percent > 100 {
            0
        } else {
            100 - self.min_compression_percent
        }
    }
}

impl Default for SimilarDiffEngine {
    /// The default engine requires 20% savings.
    fn default() -> (r: SimilarDiffEngine)
        ensures
            r.min_compression_percent == 20,
    {
        SimilarDiffEngine::new()
    }
}

impl DiffEngine for SimilarDiffEngine {
    /// The engine carries exactly the buffers that lossy UTF-8 decoding
    /// leaves unchanged.
    open spec fn exact(&self, b: Seq<u8>) -> bool {
        lossy_of(b) == b
    }

    open spec fn diff_ok(&self, old: Seq<u8>, new: Seq<u8>, d: Seq<u8>) -> bool {
        spec_engine_apply(lossy_of(old), d) == Some(lossy_of(new))
    }

    /// Success is owed whenever both lossily decoded sides fit the 24-bit
    /// wire length field.
    open spec fn compute_ok(&self, old: Seq<u8>, new: Seq<u8>) -> bool {
        lossy_of(old).len() <= 0xFFFFFF && lossy_of(new).len() <= 0xFFFFFF
    }

    open spec fn apply_spec(&self, base: Seq<u8>, diff: Seq<u8>) -> Option<Seq<u8>> {
        spec_engine_apply(base, diff)
    }

    /// A diff is worthwhile iff the original is non-empty and the diff uses
    /// at most `100 - min_compression_percent` percent of its size.
    open spec fn worthwhile_spec(&self, original_size: int, diff_size: int) -> bool {
        original_size > 0 && diff_size * 100 <= original_size * self.spec_keep_percent()
    }

    fn compute_diff(&self, old: &[u8], new: &[u8]) -> (r: Result<Vec<u8>, DiffError>) {
        if bytes_eq(old, new) {
            let no_ops: Vec<DiffOperation> = Vec::new();
            let r = BinaryDiffCodec::encode_diff(no_ops.as_slice());
            proof {
                assert(views_of(no_ops@) =~= Seq::<OpView>::empty());
                assert(spec_encode(views_of(no_ops@)) == Ok::<Seq<u8>, Seq<char>>(seq![0x04u8]));
                assert(seq![0x04u8].last() == 0x04u8);
                assert(spec_decode(seq![0x04u8]) == Ok::<Seq<OpView>, Seq<char>>(
                    Seq::<OpView>::empty(),
                ));
                assert(spec_ops_positive(Seq::<OpView>::empty()));
            }
            return r;
        }
        let runs = diff_line_runs(old, new);
        let mut ops: Vec<DiffOperation> = Vec::new();
        let mut j: usize = 0;
        proof {
            assert(runs@.take(0) =~= Seq::<DiffRun>::empty());
        }
        while j < runs.len()
            invariant
                j <= runs@.len(),
                runs_base_side(runs@) == lossy_of(old@),
                runs_target_side(runs@) == lossy_of(new@),
                old@ != new@,
                views_of(ops@) == ops_of_runs(runs@.take(j as int)),
                spec_runs_ok(runs@.take(j as int)),
            decreases runs@.len() - j,
        {
            proof {
                lemma_ops_of_runs_snoc(runs@.take(j as int), runs@[j as int]);
                assert(runs@.take(j as int).push(runs@[j as int]) =~= runs@.take(j as int + 1));
            }
            let ghost ops0 = ops@;
            let run = &runs[j];
            match run {
                DiffRun::Equal(d) => {
                    if d.len() > 0xFFFFFF {
                        proof {
                            lemma_run_bound(runs@, j as int);
                        }
                        return Err(
                            DiffError::InvalidFormat(
                                "Copy length too large (max 24-bit)".to_owned(),
                            ),
                        );
                    }
                    if d.len() > 0 {
                        ops.push(DiffOperation::Copy { offset: 0, length: d.len() as u32 });
                        proof {
                            assert(op_of_run(runs@[j as int]) =~= seq![
                                OpView::Copy { offset: 0, length: d@.len() as u32 },
                            ]);
                            assert(views_of(ops@) =~= views_of(ops0) + op_of_run(
                                runs@[j as int],
                            ));
                        }
                    } else {
                        proof {
                            assert(views_of(ops@) =~= views_of(ops0) + op_of_run(
                                runs@[j as int],
                            ));
                        }
                    }
                },
                DiffRun::Delete(d) => {
                    if d.len() > 0xFFFFFF {
                        proof {
                            lemma_run_bound(runs@, j as int);
                        }
                        return Err(
                            DiffError::InvalidFormat(
                                "Delete length too large (max 24-bit)".to_owned(),
                            ),
                        );
                    }
                    if d.len() > 0 {
                        ops.push(DiffOperation::Delete { length: d.len() as u32 });
                        proof {
                            assert(op_of_run(runs@[j as int]) =~= seq![
                                OpView::Delete { length: d@.len() as u32 },
                            ]);
                            assert(views_of(ops@) =~= views_of(ops0) + op_of_run(
                                runs@[j as int],
                            ));
                        }
                    } else {
                        proof {
                            assert(views_of(ops@) =~= views_of(ops0) + op_of_run(
                                runs@[j as int],
                            ));
                        }
                    }
                },
                DiffRun::Insert(d) => {
                    if d.len() > 0xFFFFFF {
                        proof {
                            lemma_run_bound(runs@, j as int);
                        }
                        return Err(
                            DiffError::InvalidFormat(
                                "Insert data too large (max 24-bit length)".to_owned(),
                            ),
                        );
                    }
                    if d.len() > 0 {
                        ops.push(DiffOperation::Insert(slice_to_vec(d.as_slice())));
                        proof {
                            assert(op_of_run(runs@[j as int]) =~= seq![OpView::Insert(d@)]);
                            assert(views_of(ops@) =~= views_of(ops0) + op_of_run(
                                runs@[j as int],
                            ));
                        }
                    } else {
                        proof {
                            assert(views_of(ops@) =~= views_of(ops0) + op_of_run(
                                runs@[j as int],
                            ));
                        }
                    }
                },
            }
            proof {
                assert(views_of(ops@) == ops_of_runs(runs@.take(j as int + 1)));
                assert forall|k: int| 0 <= k < j + 1 implies run_bytes(
                    #[trigger] runs@.take(j as int + 1)[k],
                ).len() <= 0xFFFFFF by {
                    assert(runs@.take(j as int + 1)[k] == runs@[k]);
                    if k < j {
                        assert(runs@.take(j as int)[k] == runs@[k]);
                    }
                }
            }
            j = j + 1;
        }
        proof {
            assert(runs@.take(runs@.len() as int) =~= runs@);
        }
        let r = BinaryDiffCodec::encode_diff(ops.as_slice());
        proof {
            let opsv = views_of(ops@);
            lemma_ops_of_runs_wf(runs@);
            lemma_encode_ok_iff(opsv);
            lemma_encode_min_len(opsv);
            lemma_encode_ends_with_end(opsv);
            let d = spec_encode(opsv)->Ok_0;
            if opsv.len() == 0 {
                lemma_empty_ops_empty_sides(runs@);
                assert(d == seq![0x04u8]);
                assert(opsv =~= Seq::<OpView>::empty());
                assert(spec_decode(d) == Ok::<Seq<OpView>, Seq<char>>(opsv));
                assert(spec_engine_apply(lossy_of(old@), d) == Some(lossy_of(old@)));
                assert(lossy_of(old@) =~= lossy_of(new@));
            } else {
                lemma_decode_encode(opsv);
                assert(lossy_of(old@).skip(0) =~= lossy_of(old@));
                lemma_runs_apply(lossy_of(old@), runs@, 0);
                assert(d.len() >= 5);
                assert(d != seq![0x04u8]);
                assert(spec_apply(lossy_of(old@), opsv) == Ok::<Seq<u8>, Seq<char>>(
                    lossy_of(new@),
                ));
            }
        }
        r
    }

    fn apply_diff(&self, base: &[u8], diff: &[u8]) -> (r: Result<Vec<u8>, DiffError>) {
        if diff.len() == 0 {
            return Err(DiffError::PatchFailed("Empty diff".to_owned()));
        }
        if diff.len() == 1 && *slice_index_get(diff, 0) == 0x04 {
            proof {
                assert(diff@ =~= seq![0x04u8]);
            }
            return Ok(slice_to_vec(base));
        }
        proof {
            assert(diff@ != seq![0x04u8]) by {
                if diff@ == seq![0x04u8] {
                    assert(diff@.len() == 1);
                    assert(diff@[0] == 0x04u8);
                }
            }
        }
        BinaryDiffCodec::apply_diff(base, diff)
    }

    fn is_diff_worthwhile(&self, original_size: usize, diff_size: usize) -> (r: bool) {
        if original_size == 0 {
            return false;
        }
        let pct: u32 = if self.min_compression_percent > 100 {
            100
        } else {
            self.min_compression_percent
        };
        let diff: u128 = diff_size as u128;
        let orig: u128 = original_size as u128;
        let keep: u128 = (100 - pct) as u128;
        proof {
            assert(diff * 100 <= 0xFFFFFFFFFFFFFFFFu128 * 100) by (nonlinear_arith)
                requires
                    diff <= 0xFFFFFFFFFFFFFFFFu128,
            ;
            assert(orig * keep <= 0xFFFFFFFFFFFFFFFFu128 * 100) by (nonlinear_arith)
                requires
                    orig <= 0xFFFFFFFFFFFFFFFFu128 && keep <= 100,
            ;
        }
        diff * 100 <= orig * keep
    }

    proof fn lemma_diff_reconstructs(&self, old: Seq<u8>, new: Seq<u8>, d: Seq<u8>) {
    }
}

/// Worthwhileness is monotone in the diff size: if a diff is worthwhile
/// against an original, so is any smaller diff against the same original.
pub proof fn lemma_worthwhile_monotonic(
    engine: &SimilarDiffEngine,
    original_size: int,
    smaller: int,
    larger: int,
)
    requires
        smaller <= larger,
    ensures
        engine.worthwhile_spec(original_size, larger) ==> engine.worthwhile_spec(
            original_size,
            smaller,
        ),
{
}

} // verus!
