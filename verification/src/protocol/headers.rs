//! BPX HTTP header vocabulary.

use vstd::prelude::*;

verus! {

/// BPX header constants.
pub struct BpxHeaders;

impl BpxHeaders {
    /// Client session identifier.
    pub const SESSION: &'static str = "X-BPX-Session";

    /// Version the client currently has.
    pub const BASE_VERSION: &'static str = "X-Base-Version";

    /// Comma-separated diff formats the client supports.
    pub const ACCEPT_DIFF: &'static str = "Accept-Diff";

    /// Current version identifier.
    pub const RESOURCE_VERSION: &'static str = "X-Resource-Version";

    /// Format of the diff in the body.
    pub const DIFF_TYPE: &'static str = "X-Diff-Type";

    /// Size of the full resource in bytes.
    pub const ORIGINAL_SIZE: &'static str = "X-Original-Size";

    /// Size of the diff in bytes.
    pub const DIFF_SIZE: &'static str = "X-Diff-Size";

    /// How long the client should cache this version, in seconds.
    pub const CACHE_TTL: &'static str = "X-BPX-Cache-TTL";

    /// All BPX header names.
    pub fn all() -> (r: Vec<&'static str>)
        ensures
            r@.len() == 8,
            r@[0]@ == "X-BPX-Session"@,
            r@[1]@ == "X-Base-Version"@,
            r@[2]@ == "Accept-Diff"@,
            r@[3]@ == "X-Resource-Version"@,
            r@[4]@ == "X-Diff-Type"@,
            r@[5]@ == "X-Original-Size"@,
            r@[6]@ == "X-Diff-Size"@,
            r@[7]@ == "X-BPX-Cache-TTL"@,
    {
        let mut v: Vec<&'static str> = Vec::new();
        v.push(Self::SESSION);
        v.push(Self::BASE_VERSION);
        v.push(Self::ACCEPT_DIFF);
        v.push(Self::RESOURCE_VERSION);
        v.push(Self::DIFF_TYPE);
        v.push(Self::ORIGINAL_SIZE);
        v.push(Self::DIFF_SIZE);
        v.push(Self::CACHE_TTL);
        v
    }

    /// Whether a header name, byte-exact, is one of the BPX headers.
    pub fn is_bpx_header(name: &str) -> (r: bool)
        ensures
            r == spec_is_bpx_header(name@),
    {
        let n = name.to_owned();
        n == Self::SESSION.to_owned() || n == Self::BASE_VERSION.to_owned() || n
            == Self::ACCEPT_DIFF.to_owned() || n == Self::RESOURCE_VERSION.to_owned() || n
            == Self::DIFF_TYPE.to_owned() || n == Self::ORIGINAL_SIZE.to_owned() || n
            == Self::DIFF_SIZE.to_owned() || n == Self::CACHE_TTL.to_owned()
    }
}

/// Whether a header name is one of the eight BPX headers.
pub open spec fn spec_is_bpx_header(s: Seq<char>) -> bool {
    ||| s == "X-BPX-Session"@
    ||| s == "X-Base-Version"@
    ||| s == "Accept-Diff"@
    ||| s == "X-Resource-Version"@
    ||| s == "X-Diff-Type"@
    ||| s == "X-Original-Size"@
    ||| s == "X-Diff-Size"@
    ||| s == "X-BPX-Cache-TTL"@
}

} // verus!
