//! Binary Patch Exchange (BPX): a bandwidth-optimized HTTP protocol extension
//! that tracks client state server-side and transmits compact binary diffs
//! instead of full payloads for frequently-polled resources.
//!
//! The library holds the protocol's verified core: the binary diff codec,
//! the diff engine, the session and resource stores, and the request
//! pipeline. Transport plumbing (HTTP, async tasks) lives outside.

pub mod assoc;
pub mod diff;
pub mod protocol;
pub mod server;
pub mod state;
pub mod textfmt;

pub use crate::diff::DiffEngine;
pub use crate::protocol::BpxRequest;
pub use crate::protocol::BpxResponse;
pub use crate::protocol::ResponseBody;
pub use crate::server::InMemoryResourceStore;
pub use crate::server::ResourceStore;
pub use crate::state::StateManager;

use crate::assoc::assoc_map;
use crate::assoc::assoc_unique;
use crate::assoc::lemma_assoc_dom_len;
use crate::assoc::lemma_assoc_push;
use crate::assoc::lemma_assoc_update;
use crate::assoc::lemma_assoc_value;
use crate::textfmt::dec_u64;
use crate::textfmt::hex_u64;
use crate::textfmt::lemma_spec_hex_len;
use crate::textfmt::spec_dec;
use crate::textfmt::spec_hex;
use std::collections::hash_map::DefaultHasher;
use std::hash::Hasher;
use vstd::prelude::*;
use vstd::std_specs::hash::DefaultHasherAdditionalSpecFns;

verus! {

/// Session identifier for tracking client state.
#[derive(Debug, Eq, Hash)]
pub struct SessionId(String);

impl Clone for SessionId {
    fn clone(&self) -> (r: SessionId)
        ensures
            r@ == self@,
    {
        SessionId(self.0.clone())
    }
}

impl View for SessionId {
    type V = Seq<char>;

    closed spec fn view(&self) -> Seq<char> {
        self.0@
    }
}

impl PartialEq for SessionId {
    fn eq(&self, other: &SessionId) -> bool {
        self.0 == other.0
    }
}

impl vstd::std_specs::cmp::PartialEqSpecImpl for SessionId {
    open spec fn obeys_eq_spec() -> bool {
        true
    }

    open spec fn eq_spec(&self, other: &SessionId) -> bool {
        self@ == other@
    }
}

/// Relies on `std::time::SystemTime::now`, hashed through `DefaultHasher`,
/// as a per-call source of varying bits; nothing is promised of the result.
#[verifier::external_body]
fn clock_entropy() -> u64 {
    let mut hasher = DefaultHasher::new();
    std::hash::Hash::hash(&std::time::SystemTime::now(), &mut hasher);
    hasher.finish()
}

impl SessionId {
    /// Create a session ID from a client-supplied string, verbatim.
    pub fn new(id: String) -> (r: SessionId)
        ensures
            r@ == id@,
    {
        SessionId(id)
    }

    /// Mint a fresh session ID: `sess_` followed by the hex rendering of a
    /// time-seeded hash.
    pub fn generate() -> (r: SessionId)
        ensures
            exists|e: u64| r@ == "sess_"@ + #[trigger] spec_hex(e),
            r@.len() > 5,
            r@.subrange(0, 5) == "sess_"@,
    {
        let e = clock_entropy();
        let s = "sess_".to_owned().concat(hex_u64(e).as_str());
        proof {
            reveal_strlit("sess_");
            lemma_spec_hex_len(e);
            assert(s@.subrange(0, 5) =~= "sess_"@);
        }
        SessionId(s)
    }

    /// The identifier as a string slice.
    pub fn as_str(&self) -> (r: &str)
        ensures
            r@ == self@,
    {
        self.0.as_str()
    }
}

/// Resource path identifying a resource; equal to the HTTP request path,
/// byte-exact, with no normalization.
#[derive(Debug, Eq, Hash)]
pub struct ResourcePath(String);

impl Clone for ResourcePath {
    fn clone(&self) -> (r: ResourcePath)
        ensures
            r@ == self@,
    {
        ResourcePath(self.0.clone())
    }
}

impl View for ResourcePath {
    type V = Seq<char>;

    closed spec fn view(&self) -> Seq<char> {
        self.0@
    }
}

impl PartialEq for ResourcePath {
    fn eq(&self, other: &ResourcePath) -> bool {
        self.0 == other.0
    }
}

impl vstd::std_specs::cmp::PartialEqSpecImpl for ResourcePath {
    open spec fn obeys_eq_spec() -> bool {
        true
    }

    open spec fn eq_spec(&self, other: &ResourcePath) -> bool {
        self@ == other@
    }
}

impl ResourcePath {
    /// Create a new resource path.
    pub fn new(path: String) -> (r: ResourcePath)
        ensures
            r@ == path@,
    {
        ResourcePath(path)
    }

    /// The path as a string slice.
    pub fn as_str(&self) -> (r: &str)
        ensures
            r@ == self@,
    {
        self.0.as_str()
    }
}

/// The version string minted for the given content: `v:` followed by the
/// lowercase hex of the content's 64-bit hash. The hash, and with it the
/// version, is a function of the bytes alone.
pub open spec fn spec_version_of(content: Seq<u8>) -> Seq<char> {
    "v:"@ + spec_hex(DefaultHasher::spec_finish(seq![content]))
}

/// Version identifier for tracking resource versions; an opaque string,
/// byte-exact equality.
#[derive(Debug, Eq)]
pub struct Version(String);

impl Clone for Version {
    fn clone(&self) -> (r: Version)
        ensures
            r@ == self@,
    {
        Version(self.0.clone())
    }
}

impl View for Version {
    type V = Seq<char>;

    closed spec fn view(&self) -> Seq<char> {
        self.0@
    }
}

impl PartialEq for Version {
    fn eq(&self, other: &Version) -> bool {
        self.0 == other.0
    }
}

impl vstd::std_specs::cmp::PartialEqSpecImpl for Version {
    open spec fn obeys_eq_spec() -> bool {
        true
    }

    open spec fn eq_spec(&self, other: &Version) -> bool {
        self@ == other@
    }
}

/// Relies on `std::time::SystemTime::now` and `duration_since(UNIX_EPOCH)`:
/// the wall clock in whole seconds (zero on a clock before the epoch);
/// nothing is promised of the result.
#[verifier::external_body]
fn unix_seconds() -> u64 {
    match std::time::SystemTime::now().duration_since(std::time::UNIX_EPOCH) {
        Ok(d) => d.as_secs(),
        Err(_) => 0,
    }
}

impl Version {
    /// Create a version from a string, verbatim.
    pub fn new(version: String) -> (r: Version)
        ensures
            r@ == version@,
    {
        Version(version)
    }

    /// Mint the version of the given content: a hash-of-content string.
    /// Equal content always yields the equal version.
    pub fn from_content(content: &[u8]) -> (r: Version)
        ensures
            r@ == spec_version_of(content@),
    {
        let mut hasher = DefaultHasher::new();
        hasher.write(content);
        let h = hasher.finish();
        proof {
            assert(Seq::<Seq<u8>>::empty().push(content@) =~= seq![content@]);
        }
        Version("v:".to_owned().concat(hex_u64(h).as_str()))
    }

    /// Mint a version from the current wall-clock time in seconds.
    pub fn from_timestamp() -> (r: Version)
        ensures
            exists|secs: u64| r@ == "v:"@ + #[trigger] spec_dec(secs),
            r@.len() > 2,
            r@.subrange(0, 2) == "v:"@,
    {
        let secs = unix_seconds();
        let s = "v:".to_owned().concat(dec_u64(secs).as_str());
        proof {
            reveal_strlit("v:");
            crate::textfmt::lemma_spec_dec_len(secs);
            assert(s@.subrange(0, 2) =~= "v:"@);
        }
        Version(s)
    }

    /// The version as a string slice.
    pub fn as_str(&self) -> (r: &str)
        ensures
            r@ == self@,
    {
        self.0.as_str()
    }
}

/// Version determinism: the version minted from content is a function of
/// the bytes alone, so equal content yields equal versions and distinct
/// versions imply distinct content. The converse — distinct content always
/// yielding distinct versions — holds only up to the quality of the 64-bit
/// hash and is not claimed; a collision merely degrades a later diff to a
/// full response.
pub proof fn lemma_version_deterministic(b1: Seq<u8>, b2: Seq<u8>)
    ensures
        b1 == b2 ==> spec_version_of(b1) == spec_version_of(b2),
        spec_version_of(b1) != spec_version_of(b2) ==> b1 != b2,
{
}

/// The bytes of `str::to_lowercase` on the given characters: the result
/// depends on the characters alone.
pub uninterp spec fn lower_of(s: Seq<char>) -> Seq<char>;

/// Relies on `str::to_lowercase`: the result depends on the characters
/// alone.
#[verifier::external_body]
fn lowercase(s: &str) -> (r: String)
    ensures
        r@ == lower_of(s@),
{
    s.to_lowercase()
}

/// Supported diff formats.
#[derive(Debug, Clone, Copy, PartialEq, Eq, Structural)]
pub enum DiffFormat {
    /// Binary delta format (the implemented one).
    BinaryDelta,
    /// JSON patch format (RFC 6902); a reserved negotiation token.
    JsonPatch,
    /// BSD diff format; a reserved negotiation token.
    BsdDiff,
}

/// The format a lowercased token names, if any.
pub open spec fn spec_format_token(s: Seq<char>) -> Option<DiffFormat> {
    if s == "binary-delta"@ {
        Some(DiffFormat::BinaryDelta)
    } else if s == "json-patch"@ {
        Some(DiffFormat::JsonPatch)
    } else if s == "bsdiff"@ {
        Some(DiffFormat::BsdDiff)
    } else {
        None
    }
}

impl DiffFormat {
    /// Parse a diff format token, case-insensitively.
    pub fn from_str(s: &str) -> (r: Option<DiffFormat>)
        ensures
            r == spec_format_token(lower_of(s@)),
    {
        let lower = lowercase(s);
        if lower == "binary-delta".to_owned() {
            Some(DiffFormat::BinaryDelta)
        } else if lower == "json-patch".to_owned() {
            Some(DiffFormat::JsonPatch)
        } else if lower == "bsdiff".to_owned() {
            Some(DiffFormat::BsdDiff)
        } else {
            None
        }
    }

    /// The wire token of this format.
    pub open spec fn spec_token(self) -> Seq<char> {
        match self {
            DiffFormat::BinaryDelta => "binary-delta"@,
            DiffFormat::JsonPatch => "json-patch"@,
            DiffFormat::BsdDiff => "bsdiff"@,
        }
    }

    /// Convert to the wire token string.
    pub fn as_str(&self) -> (r: &'static str)
        ensures
            r@ == self.spec_token(),
    {
        match self {
            DiffFormat::BinaryDelta => "binary-delta",
            DiffFormat::JsonPatch => "json-patch",
            DiffFormat::BsdDiff => "bsdiff",
        }
    }
}

/// Whether a session last touched at `last_ms` has sat unused longer than
/// `ttl_ms` by time `now_ms`.
pub open spec fn spec_expired(last_ms: u64, ttl_ms: u64, now_ms: u64) -> bool {
    last_ms + ttl_ms < now_ms
}

/// Client session: the versions a client has seen for each path, and the
/// last access time for TTL enforcement. Times are in milliseconds from an
/// arbitrary origin fixed by the caller.
#[derive(Debug)]
pub struct BpxSession {
    /// Unique session identifier.
    pub id: SessionId,
    /// Tracked path/version pairs; [`BpxSession::wf`] keeps the paths
    /// pairwise distinct. Use [`BpxSession::set_resource`] to modify.
    pub resources: Vec<(ResourcePath, Version)>,
    /// Last access time in milliseconds.
    pub last_accessed: u64,
    /// Current memory usage in bytes.
    pub memory_usage: usize,
}

impl Clone for BpxSession {
    /// A deep copy with the same identifier, records and times.
    fn clone(&self) -> (r: BpxSession)
        ensures
            r.id@ == self.id@,
            r.resource_pairs() == self.resource_pairs(),
            r.last_accessed == self.last_accessed,
            r.memory_usage == self.memory_usage,
    {
        let mut rs: Vec<(ResourcePath, Version)> = Vec::new();
        let mut i: usize = 0;
        while i < self.resources.len()
            invariant
                i <= self.resources@.len(),
                rs@.len() == i,
                forall|k: int|
                    0 <= k < i ==> (#[trigger] rs@[k]).0@ == self.resources@[k].0@ && rs@[k].1@
                        == self.resources@[k].1@,
            decreases self.resources@.len() - i,
        {
            rs.push((self.resources[i].0.clone(), self.resources[i].1.clone()));
            i = i + 1;
        }
        let r = BpxSession {
            id: self.id.clone(),
            resources: rs,
            last_accessed: self.last_accessed,
            memory_usage: self.memory_usage,
        };
        proof {
            assert(r.resource_pairs() =~= self.resource_pairs());
        }
        r
    }
}

impl BpxSession {
    /// The pairs of tracked paths and versions, as sequences.
    pub open spec fn resource_pairs(&self) -> Seq<(Seq<char>, Seq<char>)> {
        Seq::new(self.resources@.len(), |i: int| (self.resources@[i].0@, self.resources@[i].1@))
    }

    /// The tracked path-to-version mapping.
    pub open spec fn resources_map(&self) -> Map<Seq<char>, Seq<char>> {
        assoc_map(self.resource_pairs())
    }

    /// Internal invariant: tracked paths are pairwise distinct.
    pub open spec fn wf(&self) -> bool {
        assoc_unique(self.resource_pairs())
    }

    /// Create a new session, last accessed now.
    pub fn new(id: SessionId, now_ms: u64) -> (r: BpxSession)
        ensures
            r.wf(),
            r.id@ == id@,
            r.resources_map() == Map::<Seq<char>, Seq<char>>::empty(),
            r.last_accessed == now_ms,
            r.memory_usage == 0,
    {
        let r = BpxSession { id, resources: Vec::new(), last_accessed: now_ms, memory_usage: 0 };
        proof {
            assert(r.resource_pairs() =~= Seq::<(Seq<char>, Seq<char>)>::empty());
        }
        r
    }

    /// Update the last accessed time.
    pub fn touch(&mut self, now_ms: u64)
        ensures
            final(self).last_accessed == now_ms,
            final(self).id == old(self).id,
            final(self).resources == old(self).resources,
            final(self).memory_usage == old(self).memory_usage,
            final(self).wf() == old(self).wf(),
            final(self).resources_map() == old(self).resources_map(),
    {
        self.last_accessed = now_ms;
    }

    /// Check whether the session has expired: more than `ttl_ms` of
    /// inactivity at time `now_ms`.
    pub fn is_expired(&self, ttl_ms: u64, now_ms: u64) -> (r: bool)
        ensures
            r == spec_expired(self.last_accessed, ttl_ms, now_ms),
    {
        now_ms > ttl_ms && now_ms - ttl_ms > self.last_accessed
    }

    /// Record the version the session now holds for a path, replacing any
    /// earlier record for the same path.
    pub fn set_resource(&mut self, path: ResourcePath, version: Version)
        requires
            old(self).wf(),
        ensures
            final(self).wf(),
            final(self).id == old(self).id,
            final(self).last_accessed == old(self).last_accessed,
            final(self).memory_usage == old(self).memory_usage,
            final(self).resources_map() == old(self).resources_map().insert(path@, version@),
    {
        let ghost pairs0 = self.resource_pairs();
        let mut i: usize = 0;
        while i < self.resources.len()
            invariant
                i <= self.resources@.len(),
                pairs0 == old(self).resource_pairs(),
                self.resource_pairs() == pairs0,
                self.id == old(self).id,
                self.last_accessed == old(self).last_accessed,
                self.memory_usage == old(self).memory_usage,
                assoc_unique(pairs0),
                forall|k: int| 0 <= k < i ==> (#[trigger] pairs0[k]).0 != path@,
            decreases self.resources@.len() - i,
        {
            if self.resources[i].0 == path {
                proof {
                    assert(pairs0[i as int].0 == path@);
                }
                self.resources[i] = (path, version);
                proof {
                    let e = (path@, version@);
                    assert(self.resource_pairs() =~= pairs0.update(i as int, e));
                    lemma_assoc_update(pairs0, i as int, e);
                    assert forall|a: int, b: int|
                        0 <= a < b < self.resource_pairs().len() implies (
                    #[trigger] self.resource_pairs()[a]).0 != (
                    #[trigger] self.resource_pairs()[b]).0 by {
                        assert(self.resource_pairs()[a].0 == pairs0[a].0);
                        assert(self.resource_pairs()[b].0 == pairs0[b].0);
                    }
                }
                return ;
            }
            i = i + 1;
        }
        proof {
            assert(forall|k: int|
                0 <= k < pairs0.len() ==> (#[trigger] pairs0[k]).0 != path@);
        }
        self.resources.push((path, version));
        proof {
            let e = (path@, version@);
            assert(self.resource_pairs() =~= pairs0.push(e));
            lemma_assoc_push(pairs0, e);
            assert forall|a: int, b: int|
                0 <= a < b < self.resource_pairs().len() implies (
            #[trigger] self.resource_pairs()[a]).0 != (#[trigger] self.resource_pairs()[b]).0 by {
                assert(a < pairs0.len());
                if b < pairs0.len() {
                } else {
                    assert(self.resource_pairs()[b] == e);
                    assert(pairs0[a].0 != path@);
                }
            }
        }
    }

    /// The version the session holds for a path, if any.
    pub fn resource_version(&self, path: &ResourcePath) -> (r: Option<&Version>)
        requires
            self.wf(),
        ensures
            match r {
                Some(v) => self.resources_map().contains_key(path@) && self.resources_map()[path@]
                    == v@,
                None => !self.resources_map().contains_key(path@),
            },
    {
        let mut i: usize = 0;
        while i < self.resources.len()
            invariant
                self.wf(),
                i <= self.resources@.len(),
                forall|k: int| 0 <= k < i ==> (#[trigger] self.resource_pairs()[k]).0 != path@,
            decreases self.resources@.len() - i,
        {
            if self.resources[i].0 == *path {
                proof {
                    lemma_assoc_value(self.resource_pairs(), i as int);
                }
                return Some(&self.resources[i].1);
            }
            i = i + 1;
        }
        proof {
            crate::assoc::lemma_assoc_contains(self.resource_pairs(), path@);
        }
        None
    }

    /// The number of tracked paths.
    pub fn resource_count(&self) -> (r: usize)
        requires
            self.wf(),
        ensures
            r == self.resources_map().dom().len(),
    {
        proof {
            lemma_assoc_dom_len(self.resource_pairs());
        }
        self.resources.len()
    }
}

/// Configuration for a BPX server. Durations are in milliseconds.
#[derive(Debug, Clone)]
pub struct BpxConfig {
    /// Planning bound on concurrent sessions.
    pub max_sessions: usize,
    /// Planning bound on resources tracked per session.
    pub max_resources_per_session: usize,
    /// Inactivity after which a session is eligible for eviction, in
    /// milliseconds.
    pub session_ttl_ms: u64,
    /// If either side of a diff exceeds this many bytes, the full content is
    /// sent instead.
    pub max_diff_size: usize,
    /// Required compression in percent for a diff to be worth sending.
    pub min_compression_percent: u32,
    /// Period between TTL sweeps, in milliseconds.
    pub cleanup_interval_ms: u64,
}

impl Default for BpxConfig {
    /// The default configuration: 100 000 sessions, 1 000 resources per
    /// session, a 24-hour TTL, a 10 MiB diff ceiling, 20% required savings,
    /// and a 5-minute cleanup interval.
    fn default() -> (r: BpxConfig)
        ensures
            r == spec_default_config(),
            r.max_sessions == 100000,
            r.max_resources_per_session == 1000,
            r.session_ttl_ms == 86400000,
            r.max_diff_size == 10485760,
            r.min_compression_percent == 20,
            r.cleanup_interval_ms == 300000,
    {
        BpxConfig {
            max_sessions: 100000,
            max_resources_per_session: 1000,
            session_ttl_ms: 86400000,
            max_diff_size: 10485760,
            min_compression_percent: 20,
            cleanup_interval_ms: 300000,
        }
    }
}

/// Main BPX errors.
#[derive(Debug)]
pub enum BpxError {
    /// Client state not found.
    ClientStateNotFound {
        /// Client identifier.
        client_id: SessionId,
    },
    /// Diff computation failed.
    DiffComputationFailed {
        /// Failure reason.
        reason: String,
    },
    /// Resource too large for diffing.
    ResourceTooLarge {
        /// Actual size.
        size: usize,
        /// Maximum allowed size.
        max_size: usize,
    },
    /// Invalid diff format.
    InvalidDiffFormat {
        /// Requested format.
        format: String,
    },
    /// Session capacity exceeded.
    SessionCapacityExceeded {
        /// Current session count.
        current: usize,
        /// Maximum allowed.
        max: usize,
    },
}

impl BpxError {
    /// The description returned by [`BpxError::message`].
    pub open spec fn spec_message(&self) -> Seq<char> {
        match self {
            BpxError::ClientStateNotFound { client_id } => "Client state not found: "@
                + client_id@,
            BpxError::DiffComputationFailed { reason } => "Diff computation failed: "@ + reason@,
            BpxError::ResourceTooLarge { size, max_size } => "Resource too large: "@ + spec_dec(
                *size as u64,
            ) + " bytes (max: "@ + spec_dec(*max_size as u64) + ")"@,
            BpxError::InvalidDiffFormat { format } => "Invalid diff format: "@ + format@,
            BpxError::SessionCapacityExceeded { current, max } => "Session capacity exceeded: "@
                + spec_dec(*current as u64) + " sessions (max: "@ + spec_dec(*max as u64) + ")"@,
        }
    }

    /// A human-readable description of the error.
    pub fn message(&self) -> (r: String)
        ensures
            r@ == self.spec_message(),
    {
        match self {
            BpxError::ClientStateNotFound { client_id } => "Client state not found: "
                .to_owned()
                .concat(client_id.as_str()),
            BpxError::DiffComputationFailed { reason } => "Diff computation failed: "
                .to_owned()
                .concat(reason.as_str()),
            BpxError::ResourceTooLarge { size, max_size } => "Resource too large: "
                .to_owned()
                .concat(dec_u64(*size as u64).as_str())
                .concat(" bytes (max: ")
                .concat(dec_u64(*max_size as u64).as_str())
                .concat(")"),
            BpxError::InvalidDiffFormat { format } => "Invalid diff format: ".to_owned().concat(
                format.as_str(),
            ),
            BpxError::SessionCapacityExceeded { current, max } => "Session capacity exceeded: "
                .to_owned()
                .concat(dec_u64(*current as u64).as_str())
                .concat(" sessions (max: ")
                .concat(dec_u64(*max as u64).as_str())
                .concat(")"),
        }
    }
}

/// The configuration [`BpxConfig::default`] returns.
pub open spec fn spec_default_config() -> BpxConfig {
    BpxConfig {
        max_sessions: 100000,
        max_resources_per_session: 1000,
        session_ttl_ms: 86400000,
        max_diff_size: 10485760,
        min_compression_percent: 20,
        cleanup_interval_ms: 300000,
    }
}

/// BPX server: configuration, session store and diff engine behind one
/// request-handling entry point.
pub struct BpxServer<S, D> {
    /// Server configuration.
    pub config: BpxConfig,
    /// Session store.
    pub state_manager: S,
    /// Diff engine.
    pub diff_engine: D,
}

impl<S: crate::state::StateManager, D: crate::diff::DiffEngine> BpxServer<S, D> {
    /// Create a new BPX server builder.
    pub fn builder() -> (r: BpxServerBuilder<S, D>)
        ensures
            r.config is None,
            r.state_manager is None,
            r.diff_engine is None,
    {
        BpxServerBuilder { config: None, state_manager: None, diff_engine: None }
    }

    /// Handle a BPX request against the given resource store; see
    /// [`crate::server::handle_bpx_request`].
    pub fn handle_request<R: crate::server::ResourceStore>(
        &mut self,
        req: &crate::protocol::BpxRequest,
        resource_store: &mut R,
        now_ms: u64,
    ) -> (r: Result<crate::protocol::BpxResponse, BpxError>)
        requires
            old(self).state_manager.wf(),
            old(resource_store).wf(),
        ensures
            final(self).config == old(self).config,
            final(self).diff_engine == old(self).diff_engine,
            final(self).state_manager.wf(),
            final(resource_store).wf(),
            r is Ok <==> old(resource_store).currents().contains_key(req.path@),
            r matches Err(e) ==> {
                &&& e matches BpxError::ClientStateNotFound { .. }
                &&& final(self).state_manager.sessions() == old(self).state_manager.sessions()
                &&& final(resource_store).currents() == old(resource_store).currents()
                &&& final(resource_store).history() == old(resource_store).history()
            },
            r matches Ok(resp) ==> crate::server::spec_pipeline_ok(
                *req,
                old(self).config,
                old(self).diff_engine,
                old(self).state_manager,
                final(self).state_manager,
                *old(resource_store),
                *final(resource_store),
                resp,
                now_ms,
            ),
    {
        crate::server::handle_bpx_request(
            req,
            &self.config,
            &mut self.state_manager,
            &self.diff_engine,
            resource_store,
            now_ms,
        )
    }

    /// Get the server configuration.
    pub fn config(&self) -> (r: &BpxConfig)
        ensures
            *r == self.config,
    {
        &self.config
    }

    /// Get the state manager.
    pub fn state_manager(&self) -> (r: &S)
        ensures
            *r == self.state_manager,
    {
        &self.state_manager
    }

    /// Get the diff engine.
    pub fn diff_engine(&self) -> (r: &D)
        ensures
            *r == self.diff_engine,
    {
        &self.diff_engine
    }

    /// Remove every session whose inactivity exceeds the TTL at `now_ms`.
    pub fn cleanup_expired_sessions(&mut self, now_ms: u64)
        requires
            old(self).state_manager.wf(),
        ensures
            final(self).config == old(self).config,
            final(self).diff_engine == old(self).diff_engine,
            final(self).state_manager.wf(),
            final(self).state_manager.ttl_ms() == old(self).state_manager.ttl_ms(),
            forall|k: Seq<char>|
                final(self).state_manager.sessions().contains_key(k) <==> (#[trigger] old(self).state_manager.sessions().contains_key(k) && !spec_expired(
                    old(self).state_manager.sessions()[k].last_accessed,
                    old(self).state_manager.ttl_ms(),
                    now_ms,
                )),
            forall|k: Seq<char>| #[trigger]
                final(self).state_manager.sessions().contains_key(k) ==> final(self).state_manager.sessions()[k] == old(self).state_manager.sessions()[k],
    {
        self.state_manager.cleanup_expired(now_ms);
    }
}

/// Builder for configuring a BPX server.
pub struct BpxServerBuilder<S, D> {
    /// The configuration to use; the default when absent.
    pub config: Option<BpxConfig>,
    /// The session store; required.
    pub state_manager: Option<S>,
    /// The diff engine; required.
    pub diff_engine: Option<D>,
}

impl<S: crate::state::StateManager, D: crate::diff::DiffEngine> BpxServerBuilder<S, D> {
    /// Set the server configuration.
    pub fn config(self, config: BpxConfig) -> (r: BpxServerBuilder<S, D>)
        ensures
            r.config == Some(config),
            r.state_manager == self.state_manager,
            r.diff_engine == self.diff_engine,
    {
        BpxServerBuilder { config: Some(config), ..self }
    }

    /// Set the state manager.
    pub fn state_manager(self, state_manager: S) -> (r: BpxServerBuilder<S, D>)
        ensures
            r.config == self.config,
            r.state_manager == Some(state_manager),
            r.diff_engine == self.diff_engine,
    {
        BpxServerBuilder { state_manager: Some(state_manager), ..self }
    }

    /// Set the diff engine.
    pub fn diff_engine(self, diff_engine: D) -> (r: BpxServerBuilder<S, D>)
        ensures
            r.config == self.config,
            r.state_manager == self.state_manager,
            r.diff_engine == Some(diff_engine),
    {
        BpxServerBuilder { diff_engine: Some(diff_engine), ..self }
    }

    /// Build the BPX server. The state manager and diff engine are
    /// required; a missing configuration falls back to the default.
    pub fn build(self) -> (r: Result<BpxServer<S, D>, BpxError>)
        ensures
            self.state_manager is None ==> (r matches Err(e) && e
                matches BpxError::DiffComputationFailed { reason } && reason@
                == "State manager not provided"@),
            (self.state_manager is Some && self.diff_engine is None) ==> (r matches Err(e) && e
                matches BpxError::DiffComputationFailed { reason } && reason@
                == "Diff engine not provided"@),
            self.state_manager matches Some(sm) ==> (self.diff_engine matches Some(de) ==> (r
                matches Ok(srv) && srv.state_manager == sm && srv.diff_engine == de && srv.config
                == (match self.config {
                Some(c) => c,
                None => spec_default_config(),
            }))),
    {
        let config = match self.config {
            Some(c) => c,
            None => BpxConfig::default(),
        };
        let state_manager = match self.state_manager {
            Some(s) => s,
            None => {
                return Err(
                    BpxError::DiffComputationFailed {
                        reason: "State manager not provided".to_owned(),
                    },
                );
            },
        };
        let diff_engine = match self.diff_engine {
            Some(d) => d,
            None => {
                return Err(
                    BpxError::DiffComputationFailed { reason: "Diff engine not provided".to_owned() },
                );
            },
        };
        Ok(BpxServer { config, state_manager, diff_engine })
    }
}

} // verus!
