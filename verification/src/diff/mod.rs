//! Binary diff computation and application.

use vstd::prelude::*;

pub mod binary;
pub mod similar;

use crate::diff::binary::OpView;
use crate::diff::binary::spec_decode;
use crate::diff::binary::spec_encode;
use crate::diff::binary::spec_ops_positive;

verus! {

/// Errors that can occur during diff operations.
#[derive(Debug)]
pub enum DiffError {
    /// Invalid diff format.
    InvalidFormat(String),
    /// Diff computation failed.
    ComputationFailed(String),
    /// Patch application failed.
    PatchFailed(String),
}

impl DiffError {
    /// A human-readable description of the error.
    pub fn message(&self) -> (r: String)
        ensures
            r@ == self.spec_message(),
    {
        match self {
            DiffError::InvalidFormat(m) => "Invalid diff format: ".to_owned().concat(m.as_str()),
            DiffError::ComputationFailed(m) => "Diff computation failed: ".to_owned().concat(
                m.as_str(),
            ),
            DiffError::PatchFailed(m) => "Patch application failed: ".to_owned().concat(m.as_str()),
        }
    }

    /// The description returned by [`DiffError::message`].
    pub open spec fn spec_message(&self) -> Seq<char> {
        match self {
            DiffError::InvalidFormat(m) => "Invalid diff format: "@ + m@,
            DiffError::ComputationFailed(m) => "Diff computation failed: "@ + m@,
            DiffError::PatchFailed(m) => "Patch application failed: "@ + m@,
        }
    }
}

/// A diff engine computes a binary diff between two byte buffers, applies a
/// diff to a base buffer, and judges whether a computed diff is small enough
/// to be worth sending.
pub trait DiffEngine {
    /// Which byte buffers the engine carries through a diff without loss.
    /// For buffers outside this set the engine may substitute a canonical
    /// representative (such as a lossy text decoding).
    spec fn exact(&self, b: Seq<u8>) -> bool;

    /// What the engine guarantees of every diff it hands out: applying `d`
    /// to `old` under this engine reconstructs `new`, up to the engine's own
    /// representation of the buffers.
    spec fn diff_ok(&self, old: Seq<u8>, new: Seq<u8>, d: Seq<u8>) -> bool;

    /// The inputs on which [`DiffEngine::compute_diff`] owes success.
    spec fn compute_ok(&self, old: Seq<u8>, new: Seq<u8>) -> bool;

    /// The exact result of [`DiffEngine::apply_diff`]: the reconstructed
    /// bytes, or `None` where application fails.
    spec fn apply_spec(&self, base: Seq<u8>, diff: Seq<u8>) -> Option<Seq<u8>>;

    /// The exact judgement [`DiffEngine::is_diff_worthwhile`] computes.
    spec fn worthwhile_spec(&self, original_size: int, diff_size: int) -> bool;

    /// Compute a binary diff that transforms `old` into `new`. When the two
    /// buffers are equal the result is the single End byte. Every stream
    /// handed out is canonical: closed by the End byte, and exactly the
    /// encoding of its own decoded operations, none of which is empty.
    fn compute_diff(&self, old: &[u8], new: &[u8]) -> (r: Result<Vec<u8>, DiffError>)
        ensures
            r matches Ok(d) ==> self.diff_ok(old@, new@, d@),
            r matches Ok(d) ==> d@.len() >= 1 && d@.last() == 0x04,
            r matches Ok(d) ==> exists|ops: Seq<OpView>|
                {
                    &&& spec_decode(d@) == Ok::<Seq<OpView>, Seq<char>>(ops)
                    &&& #[trigger] spec_encode(ops) == Ok::<Seq<u8>, Seq<char>>(d@)
                    &&& spec_ops_positive(ops)
                },
            old@ == new@ ==> (r matches Ok(d) && d@ == seq![0x04u8]),
            self.compute_ok(old@, new@) ==> r is Ok,
    ;

    /// Apply a binary diff to base content. An empty buffer is rejected
    /// with a patch failure; the single End byte returns the base
    /// unchanged.
    fn apply_diff(&self, base: &[u8], diff: &[u8]) -> (r: Result<Vec<u8>, DiffError>)
        ensures
            r matches Ok(v) ==> self.apply_spec(base@, diff@) == Some(v@),
            r is Ok <==> self.apply_spec(base@, diff@) is Some,
            diff@.len() == 0 ==> (r matches Err(e) && e matches DiffError::PatchFailed(m) && m@
                == "Empty diff"@),
            diff@ == seq![0x04u8] ==> (r matches Ok(v) && v@ == base@),
    ;

    /// Check whether a diff provides sufficient compression to be sent in
    /// place of the full content.
    fn is_diff_worthwhile(&self, original_size: usize, diff_size: usize) -> (r: bool)
        ensures
            r == self.worthwhile_spec(original_size as int, diff_size as int),
    ;

    /// Round-trip law: a diff the engine computed for `old` and `new`
    /// reconstructs `new` when applied to `old`, for buffers the engine
    /// carries without loss.
    proof fn lemma_diff_reconstructs(&self, old: Seq<u8>, new: Seq<u8>, d: Seq<u8>)
        requires
            self.diff_ok(old, new, d),
            self.exact(old),
            self.exact(new),
        ensures
            self.apply_spec(old, d) == Some(new),
    ;
}

} // verus!
