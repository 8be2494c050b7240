//! BPX protocol types: parsed requests, constructed responses, and the
//! Accept-Diff header grammar.

use crate::DiffFormat;
use crate::ResourcePath;
use crate::SessionId;
use crate::Version;
use crate::lower_of;
use crate::spec_format_token;
use vstd::prelude::*;

pub mod headers;
pub mod wire;

verus! {

/// Whether a character is whitespace for token trimming: the Unicode
/// White_Space set, as `str::trim` uses it.
pub open spec fn spec_ws(c: char) -> bool {
    ||| c as u32 == 0x9
    ||| c as u32 == 0xA
    ||| c as u32 == 0xB
    ||| c as u32 == 0xC
    ||| c as u32 == 0xD
    ||| c as u32 == 0x20
    ||| c as u32 == 0x85
    ||| c as u32 == 0xA0
    ||| c as u32 == 0x1680
    ||| (0x2000 <= c as u32 && c as u32 <= 0x200A)
    ||| c as u32 == 0x2028
    ||| c as u32 == 0x2029
    ||| c as u32 == 0x202F
    ||| c as u32 == 0x205F
    ||| c as u32 == 0x3000
}

/// The token with its leading whitespace dropped.
pub open spec fn spec_trim_front(t: Seq<char>) -> Seq<char>
    decreases t.len(),
{
    if t.len() > 0 && spec_ws(t[0]) {
        spec_trim_front(t.drop_first())
    } else {
        t
    }
}

/// The token with its trailing whitespace dropped.
pub open spec fn spec_trim_back(t: Seq<char>) -> Seq<char>
    decreases t.len(),
{
    if t.len() > 0 && spec_ws(t.last()) {
        spec_trim_back(t.drop_last())
    } else {
        t
    }
}

/// The token with surrounding whitespace dropped.
pub open spec fn spec_trim(t: Seq<char>) -> Seq<char> {
    spec_trim_back(spec_trim_front(t))
}

/// The formats one comma-separated token contributes: the format its
/// trimmed, lowercased text names, or nothing.
pub open spec fn spec_token_formats(t: Seq<char>) -> Seq<DiffFormat> {
    match spec_format_token(lower_of(spec_trim(t))) {
        Some(f) => seq![f],
        None => Seq::empty(),
    }
}

/// Left-to-right scan of an Accept-Diff header: `cur` holds the token read
/// so far; a comma closes it.
pub open spec fn spec_accept_scan(s: Seq<char>, cur: Seq<char>) -> Seq<DiffFormat>
    decreases s.len(),
{
    if s.len() == 0 {
        spec_token_formats(cur)
    } else if s[0] == ',' {
        spec_token_formats(cur) + spec_accept_scan(s.drop_first(), Seq::empty())
    } else {
        spec_accept_scan(s.drop_first(), cur.push(s[0]))
    }
}

/// The formats an Accept-Diff header names: its comma-separated tokens,
/// trimmed and lowercased, with unknown tokens dropped.
pub open spec fn spec_parse_accept(s: Seq<char>) -> Seq<DiffFormat> {
    spec_accept_scan(s, Seq::empty())
}

proof fn lemma_trim_front_skip(t: Seq<char>, a: int)
    requires
        0 <= a <= t.len(),
        forall|j: int| 0 <= j < a ==> spec_ws(#[trigger] t[j]),
        a < t.len() ==> !spec_ws(t[a]),
    ensures
        spec_trim_front(t) == t.skip(a),
    decreases a,
{
    if a == 0 {
        assert(t.skip(0) =~= t);
    } else {
        assert(spec_ws(t[0]));
        let u = t.drop_first();
        assert forall|j: int| 0 <= j < a - 1 implies spec_ws(#[trigger] u[j]) by {
            assert(u[j] == t[j + 1]);
        }
        lemma_trim_front_skip(u, a - 1);
        assert(u.skip(a - 1) =~= t.skip(a));
    }
}

proof fn lemma_trim_back_take(t: Seq<char>, b: int)
    requires
        0 <= b <= t.len(),
        forall|j: int| b <= j < t.len() ==> spec_ws(#[trigger] t[j]),
        b > 0 ==> !spec_ws(t[b - 1]),
    ensures
        spec_trim_back(t) == t.take(b),
    decreases t.len() - b,
{
    if b == t.len() {
        assert(t.take(b) =~= t);
    } else {
        assert(spec_ws(t.last()));
        let u = t.drop_last();
        assert forall|j: int| b <= j < u.len() implies spec_ws(#[trigger] u[j]) by {
            assert(u[j] == t[j]);
        }
        lemma_trim_back_take(u, b);
        assert(u.take(b) =~= t.take(b));
    }
}

/// Trimming a token keeps exactly its non-whitespace core `[a, b)`.
proof fn lemma_trim_subrange(t: Seq<char>, a: int, b: int)
    requires
        0 <= a <= b <= t.len(),
        forall|j: int| 0 <= j < a ==> spec_ws(#[trigger] t[j]),
        forall|j: int| b <= j < t.len() ==> spec_ws(#[trigger] t[j]),
        b > a ==> !spec_ws(t[a]) && !spec_ws(t[b - 1]),
    ensures
        spec_trim(t) == t.subrange(a, b),
    decreases t.len(),
{
    if a == b {
        if a < t.len() && !spec_ws(t[a]) {
            assert(false);
        }
        assert forall|j: int| 0 <= j < t.len() implies spec_ws(#[trigger] t[j]) by {}
        lemma_trim_front_skip(t, t.len() as int);
        assert(t.skip(t.len() as int) =~= Seq::<char>::empty());
        assert(spec_trim_back(Seq::<char>::empty()) == Seq::<char>::empty());
        assert(t.subrange(a, b) =~= Seq::<char>::empty());
    } else {
        lemma_trim_front_skip(t, a);
        let u = t.skip(a);
        assert forall|j: int| b - a <= j < u.len() implies spec_ws(#[trigger] u[j]) by {
            assert(u[j] == t[a + j]);
        }
        assert(u[b - a - 1] == t[b - 1]);
        lemma_trim_back_take(u, b - a);
        assert(u.take(b - a) =~= t.subrange(a, b));
    }
}

/// Whether a character is whitespace (the Unicode White_Space set).
fn is_ws_char(c: char) -> (r: bool)
    ensures
        r == spec_ws(c),
{
    let u = c as u32;
    u == 0x9 || u == 0xA || u == 0xB || u == 0xC || u == 0xD || u == 0x20 || u == 0x85 || u == 0xA0
        || u == 0x1680 || (0x2000 <= u && u <= 0x200A) || u == 0x2028 || u == 0x2029 || u == 0x202F
        || u == 0x205F || u == 0x3000
}

/// The format one token of an Accept-Diff header names, if any: the token
/// is trimmed of surrounding whitespace and parsed case-insensitively.
fn token_format(header: &str, ts: usize, te: usize) -> (r: Option<DiffFormat>)
    requires
        ts <= te <= header@.len(),
    ensures
        r == spec_format_token(lower_of(spec_trim(header@.subrange(ts as int, te as int)))),
{
    let ghost t = header@.subrange(ts as int, te as int);
    let mut a = ts;
    let mut b = te;
    while a < b && is_ws_char(header.get_char(a))
        invariant
            ts <= a <= b,
            b == te <= header@.len(),
            t == header@.subrange(ts as int, te as int),
            forall|j: int| 0 <= j < a - ts ==> spec_ws(#[trigger] t[j]),
        decreases b - a,
    {
        proof {
            assert(t[a - ts] == header@[a as int]);
        }
        a = a + 1;
    }
    while b > a && is_ws_char(header.get_char(b - 1))
        invariant
            ts <= a <= b <= te <= header@.len(),
            t == header@.subrange(ts as int, te as int),
            forall|j: int| 0 <= j < a - ts ==> spec_ws(#[trigger] t[j]),
            a < b <= te ==> !spec_ws(t[a - ts]),
            forall|j: int| b - ts <= j < t.len() ==> spec_ws(#[trigger] t[j]),
        decreases b - a,
    {
        proof {
            assert(t[b - 1 - ts] == header@[b - 1]);
        }
        b = b - 1;
    }
    proof {
        lemma_trim_subrange(t, a - ts, b - ts);
        assert(t.subrange(a - ts, b - ts) =~= header@.subrange(a as int, b as int));
    }
    let tok = header.substring_char(a, b);
    DiffFormat::from_str(tok)
}

/// Parse the comma-separated diff-format tokens of an Accept-Diff header.
/// Tokens are trimmed of whitespace and matched case-insensitively;
/// unknown tokens are dropped.
pub fn parse_accept_diff(header: &str) -> (r: Vec<DiffFormat>)
    ensures
        r@ == spec_parse_accept(header@),
{
    let n = header.unicode_len();
    let mut out: Vec<DiffFormat> = Vec::new();
    let mut ts: usize = 0;
    let mut i: usize = 0;
    proof {
        assert(header@.skip(0) =~= header@);
        assert(header@.subrange(0, 0) =~= Seq::<char>::empty());
    }
    while i < n
        invariant
            ts <= i <= n,
            n == header@.len(),
            spec_parse_accept(header@) == out@ + spec_accept_scan(
                header@.skip(i as int),
                header@.subrange(ts as int, i as int),
            ),
        decreases n - i,
    {
        let ghost tail = header@.skip(i as int);
        let ghost cur = header@.subrange(ts as int, i as int);
        proof {
            assert(tail[0] == header@[i as int]);
            assert(tail.drop_first() =~= header@.skip(i as int + 1));
        }
        let c = header.get_char(i);
        if c == ',' {
            match token_format(header, ts, i) {
                Some(f) => {
                    out.push(f);
                },
                None => {},
            }
            proof {
                assert(spec_accept_scan(tail, cur) == spec_token_formats(cur)
                    + spec_accept_scan(header@.skip(i as int + 1), Seq::empty()));
                assert(header@.subrange(i as int + 1, i as int + 1) =~= Seq::<char>::empty());
                assert(out@ + spec_accept_scan(header@.skip(i as int + 1), Seq::empty())
                    =~= spec_parse_accept(header@)) by {
                    match spec_format_token(lower_of(spec_trim(cur))) {
                        Some(f) => {
                            assert(spec_token_formats(cur) =~= seq![f]);
                        },
                        None => {
                            assert(spec_token_formats(cur) =~= Seq::<DiffFormat>::empty());
                        },
                    }
                }
            }
            ts = i + 1;
        } else {
            proof {
                assert(header@.subrange(ts as int, i as int + 1) =~= cur.push(header@[i as int]));
            }
        }
        i = i + 1;
    }
    match token_format(header, ts, n) {
        Some(f) => {
            out.push(f);
        },
        None => {},
    }
    proof {
        let cur = header@.subrange(ts as int, n as int);
        assert(header@.skip(n as int) =~= Seq::<char>::empty());
        assert(spec_accept_scan(Seq::<char>::empty(), cur) == spec_token_formats(cur));
        match spec_format_token(lower_of(spec_trim(cur))) {
            Some(f) => {
                assert(out@ =~= spec_parse_accept(header@));
            },
            None => {
                assert(out@ =~= spec_parse_accept(header@));
            },
        }
    }
    out
}

/// BPX request: the client's path, state and format preferences.
#[derive(Debug, Clone)]
pub struct BpxRequest {
    /// Resource path being requested.
    pub path: ResourcePath,
    /// Client session ID (absent on a first request).
    pub session_id: Option<SessionId>,
    /// Version the client currently has.
    pub base_version: Option<Version>,
    /// Diff formats the client supports.
    pub accepted_formats: Vec<DiffFormat>,
}

impl BpxRequest {
    /// Create a new BPX request; with no Accept-Diff header the client is
    /// assumed to understand the binary delta format.
    pub fn new(path: ResourcePath) -> (r: BpxRequest)
        ensures
            r.path@ == path@,
            r.session_id is None,
            r.base_version is None,
            r.accepted_formats@ == seq![DiffFormat::BinaryDelta],
    {
        let mut formats: Vec<DiffFormat> = Vec::new();
        formats.push(DiffFormat::BinaryDelta);
        proof {
            assert(formats@ =~= seq![DiffFormat::BinaryDelta]);
        }
        BpxRequest { path, session_id: None, base_version: None, accepted_formats: formats }
    }

    /// Set the session ID.
    pub fn with_session(self, session_id: SessionId) -> (r: BpxRequest)
        ensures
            r.path == self.path,
            r.session_id matches Some(s) && s@ == session_id@,
            r.base_version == self.base_version,
            r.accepted_formats == self.accepted_formats,
    {
        BpxRequest { session_id: Some(session_id), ..self }
    }

    /// Set the base version.
    pub fn with_base_version(self, version: Version) -> (r: BpxRequest)
        ensures
            r.path == self.path,
            r.session_id == self.session_id,
            r.base_version matches Some(v) && v@ == version@,
            r.accepted_formats == self.accepted_formats,
    {
        BpxRequest { base_version: Some(version), ..self }
    }

    /// Set the accepted diff formats.
    pub fn with_formats(self, formats: Vec<DiffFormat>) -> (r: BpxRequest)
        ensures
            r.path == self.path,
            r.session_id == self.session_id,
            r.base_version == self.base_version,
            r.accepted_formats == formats,
    {
        BpxRequest { accepted_formats: formats, ..self }
    }

    /// Apply an Accept-Diff header: its valid tokens replace the accepted
    /// formats, unless every token is invalid, in which case the current
    /// formats are retained. Tokens are trimmed of Unicode whitespace.
    pub fn with_accept_header(self, header: &str) -> (r: BpxRequest)
        ensures
            r.path == self.path,
            r.session_id == self.session_id,
            r.base_version == self.base_version,
            r.accepted_formats@ == if spec_parse_accept(header@).len() == 0 {
                self.accepted_formats@
            } else {
                spec_parse_accept(header@)
            },
    {
        let formats = parse_accept_diff(header);
        if formats.len() > 0 {
            BpxRequest { accepted_formats: formats, ..self }
        } else {
            self
        }
    }

    /// Whether the client has state: both a session and a base version.
    pub fn has_client_state(&self) -> (r: bool)
        ensures
            r == (self.session_id is Some && self.base_version is Some),
    {
        self.session_id.is_some() && self.base_version.is_some()
    }

    /// The client's preferred diff format: the first accepted one.
    pub fn preferred_format(&self) -> (r: Option<DiffFormat>)
        ensures
            r == if self.accepted_formats@.len() == 0 {
                None::<DiffFormat>
            } else {
                Some(self.accepted_formats@[0])
            },
    {
        if self.accepted_formats.len() == 0 {
            None
        } else {
            Some(self.accepted_formats[0])
        }
    }

    /// Whether the client accepts the given format.
    pub fn accepts(&self, format: DiffFormat) -> (r: bool)
        ensures
            r == self.accepted_formats@.contains(format),
    {
        let mut i: usize = 0;
        while i < self.accepted_formats.len()
            invariant
                i <= self.accepted_formats@.len(),
                forall|k: int| 0 <= k < i ==> self.accepted_formats@[k] != format,
            decreases self.accepted_formats@.len() - i,
        {
            if self.accepted_formats[i] == format {
                return true;
            }
            i = i + 1;
        }
        false
    }
}

/// Response body variants.
#[derive(Debug, Clone)]
pub enum ResponseBody {
    /// Complete resource content.
    Full(Vec<u8>),
    /// Binary diff with its format.
    Diff {
        /// Diff format used.
        format: DiffFormat,
        /// Diff data.
        data: Vec<u8>,
    },
}

impl ResponseBody {
    /// The raw bytes of the body.
    pub fn as_bytes(&self) -> (r: &Vec<u8>)
        ensures
            r@ == self.spec_bytes(),
    {
        match self {
            ResponseBody::Full(data) => data,
            ResponseBody::Diff { data, .. } => data,
        }
    }

    /// The bytes carried by the body.
    pub open spec fn spec_bytes(&self) -> Seq<u8> {
        match self {
            ResponseBody::Full(data) => data@,
            ResponseBody::Diff { data, .. } => data@,
        }
    }

    /// The diff format, if this is a diff body.
    pub fn diff_format(&self) -> (r: Option<DiffFormat>)
        ensures
            match self {
                ResponseBody::Diff { format, .. } => r == Some(*format),
                ResponseBody::Full(..) => r is None,
            },
    {
        match self {
            ResponseBody::Diff { format, .. } => Some(*format),
            ResponseBody::Full(_) => None,
        }
    }
}

/// BPX response: the current version and either the full resource bytes or
/// a diff against the client's base version.
#[derive(Debug, Clone)]
pub struct BpxResponse {
    /// Current resource version.
    pub version: Version,
    /// Response body (full or diff).
    pub body: ResponseBody,
    /// Cache TTL hint for the client, in seconds.
    pub cache_ttl_secs: Option<u64>,
    /// Session ID for client state tracking.
    pub session_id: Option<SessionId>,
}

impl BpxResponse {
    /// Create a response with full resource content.
    pub fn full(version: Version, content: Vec<u8>) -> (r: BpxResponse)
        ensures
            r.version@ == version@,
            r.body matches ResponseBody::Full(c) && c@ == content@,
            r.cache_ttl_secs is None,
            r.session_id is None,
    {
        BpxResponse { version, body: ResponseBody::Full(content), cache_ttl_secs: None, session_id: None }
    }

    /// Create a response with diff content.
    pub fn diff(version: Version, format: DiffFormat, diff_data: Vec<u8>) -> (r: BpxResponse)
        ensures
            r.version@ == version@,
            r.body matches ResponseBody::Diff { format: f, data } && f == format && data@
                == diff_data@,
            r.cache_ttl_secs is None,
            r.session_id is None,
    {
        BpxResponse {
            version,
            body: ResponseBody::Diff { format, data: diff_data },
            cache_ttl_secs: None,
            session_id: None,
        }
    }

    /// Set the session ID to echo to the client.
    pub fn with_session(self, session_id: SessionId) -> (r: BpxResponse)
        ensures
            r.version == self.version,
            r.body == self.body,
            r.cache_ttl_secs == self.cache_ttl_secs,
            r.session_id matches Some(s) && s@ == session_id@,
    {
        BpxResponse { session_id: Some(session_id), ..self }
    }

    /// Set the cache TTL hint, in seconds.
    pub fn with_cache_ttl(self, ttl_secs: u64) -> (r: BpxResponse)
        ensures
            r.version == self.version,
            r.body == self.body,
            r.cache_ttl_secs == Some(ttl_secs),
            r.session_id == self.session_id,
    {
        BpxResponse { cache_ttl_secs: Some(ttl_secs), ..self }
    }

    /// The size of the response body in bytes.
    pub fn body_size(&self) -> (r: usize)
        ensures
            r == self.body.spec_bytes().len(),
    {
        match &self.body {
            ResponseBody::Full(data) => data.len(),
            ResponseBody::Diff { data, .. } => data.len(),
        }
    }

    /// Whether the response carries a diff.
    pub fn is_diff(&self) -> (r: bool)
        ensures
            r == (self.body matches ResponseBody::Diff { .. }),
    {
        matches!(self.body, ResponseBody::Diff { .. })
    }
}

} // verus!
