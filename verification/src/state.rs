//! Client state management: the session store with TTL eviction.

use crate::BpxConfig;
use crate::BpxSession;
use crate::ResourcePath;
use crate::SessionId;
use crate::Version;
use crate::assoc::assoc_map;
use crate::assoc::assoc_unique;
use crate::assoc::lemma_assoc_contains;
use crate::assoc::lemma_assoc_push;
use crate::assoc::lemma_assoc_update;
use crate::assoc::lemma_assoc_value;
use crate::spec_expired;
use crate::textfmt::spec_hex;
use vstd::prelude::*;

verus! {

/// The mathematical shape of a session: the versions it tracks per path
/// and its last access time in milliseconds.
pub struct SessionModel {
    /// Tracked path-to-version mapping.
    pub resources: Map<Seq<char>, Seq<char>>,
    /// Last access time in milliseconds.
    pub last_accessed: u64,
}

/// Manages client sessions: resolution, per-path version records, and TTL
/// eviction. Times are in milliseconds from an origin the caller fixes.
pub trait StateManager {
    /// The store's internal invariant; constructors establish it and every
    /// operation preserves it.
    spec fn wf(&self) -> bool;

    /// The live sessions, by identifier.
    spec fn sessions(&self) -> Map<Seq<char>, SessionModel>;

    /// The configured session TTL in milliseconds.
    spec fn ttl_ms(&self) -> u64;

    /// Get an existing session — touching it — or mint and install a fresh
    /// one. A supplied identifier that is not live is *not* preserved: a
    /// fresh identifier of the shape `sess_<hex>` is minted in its place
    /// (so a dead identifier of any other shape is never echoed back), and
    /// clients must read the echoed identifier back.
    fn get_or_create_session(&mut self, id: Option<SessionId>, now_ms: u64) -> (r: SessionId)
        requires
            old(self).wf(),
        ensures
            final(self).wf(),
            final(self).ttl_ms() == old(self).ttl_ms(),
            (match id {
                Some(s) => old(self).sessions().contains_key(s@) ==> r@ == s@ && final(self).sessions() == old(self).sessions().insert(
                    s@,
                    SessionModel {
                        resources: old(self).sessions()[s@].resources,
                        last_accessed: now_ms,
                    },
                ),
                None => true,
            }),
            (match id {
                Some(s) => !old(self).sessions().contains_key(s@),
                None => true,
            }) ==> ({
                &&& final(self).sessions() == old(self).sessions().insert(
                    r@,
                    SessionModel { resources: Map::empty(), last_accessed: now_ms },
                )
                &&& r@.len() > 5
                &&& r@.subrange(0, 5) == "sess_"@
                &&& exists|e: u64| r@ == "sess_"@ + #[trigger] spec_hex(e)
            }),
            final(self).sessions().contains_key(r@),
            final(self).sessions()[r@].last_accessed == now_ms,
    ;

    /// The version recorded for a resource in a session, or nothing when
    /// the session is unknown or the path unrecorded.
    fn get_version(&self, session: &SessionId, path: &ResourcePath) -> (r: Option<Version>)
        requires
            self.wf(),
        ensures
            match r {
                Some(v) => self.sessions().contains_key(session@) && self.sessions()[session@]
                    .resources.contains_key(path@) && v@ == self.sessions()[session@]
                    .resources[path@],
                None => !(self.sessions().contains_key(session@)
                    && self.sessions()[session@].resources.contains_key(path@)),
            },
    ;

    /// Record the version a session now holds for a path. A no-op when the
    /// session is unknown: sessions are never created here.
    fn set_version(&mut self, session: &SessionId, path: &ResourcePath, version: Version)
        requires
            old(self).wf(),
        ensures
            final(self).wf(),
            final(self).ttl_ms() == old(self).ttl_ms(),
            old(self).sessions().contains_key(session@) ==> final(self).sessions() == old(self).sessions().insert(
                session@,
                SessionModel {
                    resources: old(self).sessions()[session@].resources.insert(path@, version@),
                    last_accessed: old(self).sessions()[session@].last_accessed,
                },
            ),
            !old(self).sessions().contains_key(session@) ==> final(self).sessions() == old(self).sessions(),
    ;

    /// Remove every session whose inactivity exceeds the TTL at `now_ms`;
    /// all others are kept untouched.
    fn cleanup_expired(&mut self, now_ms: u64)
        requires
            old(self).wf(),
        ensures
            final(self).wf(),
            final(self).ttl_ms() == old(self).ttl_ms(),
            forall|k: Seq<char>|
                final(self).sessions().contains_key(k) <==> (#[trigger] old(self).sessions().contains_key(k) && !spec_expired(
                    old(self).sessions()[k].last_accessed,
                    old(self).ttl_ms(),
                    now_ms,
                )),
            forall|k: Seq<char>| #[trigger]
                final(self).sessions().contains_key(k) ==> final(self).sessions()[k] == old(self).sessions()[k],
    ;
}

/// The identifier/model pairs of a sequence of sessions.
pub open spec fn pairs_of(sessions: Seq<BpxSession>) -> Seq<(Seq<char>, SessionModel)> {
    Seq::new(
        sessions.len(),
        |i: int|
            (
                sessions[i].id@,
                SessionModel {
                    resources: sessions[i].resources_map(),
                    last_accessed: sessions[i].last_accessed,
                },
            ),
    )
}

/// Survivors of a sweep denote the original map restricted to its live
/// keys. The survivor list `new_p` picks out, via the strictly increasing
/// index list `src`, exactly the live entries of `old_p`.
proof fn lemma_cleanup_relates(
    old_p: Seq<(Seq<char>, SessionModel)>,
    new_p: Seq<(Seq<char>, SessionModel)>,
    src: Seq<int>,
    ttl: u64,
    now: u64,
)
    requires
        assoc_unique(old_p),
        src.len() == new_p.len(),
        forall|l: int|
            0 <= l < src.len() ==> 0 <= #[trigger] src[l] < old_p.len() && new_p[l]
                == old_p[src[l]] && !spec_expired(old_p[src[l]].1.last_accessed, ttl, now),
        forall|l1: int, l2: int| 0 <= l1 < l2 < src.len() ==> #[trigger] src[l1] < #[trigger] src[l2],
        forall|k: int|
            0 <= k < old_p.len() && !spec_expired((#[trigger] old_p[k]).1.last_accessed, ttl, now)
                ==> exists|l: int| 0 <= l < src.len() && #[trigger] src[l] == k,
    ensures
        assoc_unique(new_p),
        forall|key: Seq<char>|
            assoc_map(new_p).contains_key(key) <==> (#[trigger] assoc_map(old_p).contains_key(key)
                && !spec_expired(assoc_map(old_p)[key].last_accessed, ttl, now)),
        forall|key: Seq<char>| #[trigger]
            assoc_map(new_p).contains_key(key) ==> assoc_map(new_p)[key] == assoc_map(old_p)[key],
{
    assert forall|a: int, b: int| 0 <= a < b < new_p.len() implies (#[trigger] new_p[a]).0 != (
    #[trigger] new_p[b]).0 by {
        assert(src[a] < src[b]);
        assert(new_p[a] == old_p[src[a]]);
        assert(new_p[b] == old_p[src[b]]);
    }
    assert forall|key: Seq<char>|
        assoc_map(new_p).contains_key(key) <==> (#[trigger] assoc_map(old_p).contains_key(key)
            && !spec_expired(assoc_map(old_p)[key].last_accessed, ttl, now)) by {
        cleanup_key_case(old_p, new_p, src, ttl, now, key);
    }
    assert forall|key: Seq<char>| #[trigger] assoc_map(new_p).contains_key(key) implies assoc_map(
        new_p,
    )[key] == assoc_map(old_p)[key] by {
        cleanup_key_case(old_p, new_p, src, ttl, now, key);
    }
}

/// One key's worth of [`lemma_cleanup_relates`].
proof fn cleanup_key_case(
    old_p: Seq<(Seq<char>, SessionModel)>,
    new_p: Seq<(Seq<char>, SessionModel)>,
    src: Seq<int>,
    ttl: u64,
    now: u64,
    key: Seq<char>,
)
    requires
        assoc_unique(old_p),
        assoc_unique(new_p),
        src.len() == new_p.len(),
        forall|l: int|
            0 <= l < src.len() ==> 0 <= #[trigger] src[l] < old_p.len() && new_p[l]
                == old_p[src[l]] && !spec_expired(old_p[src[l]].1.last_accessed, ttl, now),
        forall|k: int|
            0 <= k < old_p.len() && !spec_expired((#[trigger] old_p[k]).1.last_accessed, ttl, now)
                ==> exists|l: int| 0 <= l < src.len() && #[trigger] src[l] == k,
    ensures
        assoc_map(new_p).contains_key(key) <==> (assoc_map(old_p).contains_key(key)
            && !spec_expired(assoc_map(old_p)[key].last_accessed, ttl, now)),
        assoc_map(new_p).contains_key(key) ==> assoc_map(new_p)[key] == assoc_map(old_p)[key],
{
    lemma_assoc_contains(new_p, key);
    lemma_assoc_contains(old_p, key);
    if assoc_map(new_p).contains_key(key) {
        let l = choose|l: int| 0 <= l < new_p.len() && (#[trigger] new_p[l]).0 == key;
        assert(new_p[l] == old_p[src[l]]);
        lemma_assoc_value(new_p, l);
        lemma_assoc_value(old_p, src[l]);
    } else {
        if assoc_map(old_p).contains_key(key) && !spec_expired(
            assoc_map(old_p)[key].last_accessed,
            ttl,
            now,
        ) {
            let k = choose|k: int| 0 <= k < old_p.len() && (#[trigger] old_p[k]).0 == key;
            lemma_assoc_value(old_p, k);
            let l = choose|l: int| 0 <= l < src.len() && #[trigger] src[l] == k;
            assert(new_p[l].0 == key);
        }
    }
}

/// In-memory state manager: sessions in a vector, unique by identifier.
pub struct InMemoryStateManager {
    sessions: Vec<BpxSession>,
    config: BpxConfig,
}

impl InMemoryStateManager {
    /// The session entries as identifier/model pairs.
    pub closed spec fn session_pairs(&self) -> Seq<(Seq<char>, SessionModel)> {
        pairs_of(self.sessions@)
    }

    /// Create a new in-memory state manager with no sessions.
    pub fn new(config: BpxConfig) -> (r: InMemoryStateManager)
        ensures
            r.wf(),
            r.sessions() == Map::<Seq<char>, SessionModel>::empty(),
            r.ttl_ms() == config.session_ttl_ms,
    {
        let r = InMemoryStateManager { sessions: Vec::new(), config };
        proof {
            assert(r.session_pairs() =~= Seq::<(Seq<char>, SessionModel)>::empty());
        }
        r
    }

    /// The number of live sessions.
    pub fn session_count(&self) -> (r: usize)
        requires
            self.wf(),
        ensures
            r == self.sessions().dom().len(),
    {
        proof {
            crate::assoc::lemma_assoc_dom_len(self.session_pairs());
        }
        self.sessions.len()
    }

    /// The index of the session with the given identifier, if any.
    fn find_session(&self, id: &SessionId) -> (r: Option<usize>)
        ensures
            match r {
                Some(i) => i < self.session_pairs().len() && self.session_pairs()[i as int].0
                    == id@,
                None => forall|k: int|
                    0 <= k < self.session_pairs().len() ==> (#[trigger] self.session_pairs()[k]).0
                        != id@,
            },
    {
        let mut i: usize = 0;
        while i < self.sessions.len()
            invariant
                i <= self.sessions@.len(),
                forall|k: int| 0 <= k < i ==> (#[trigger] self.session_pairs()[k]).0 != id@,
            decreases self.sessions@.len() - i,
        {
            if self.sessions[i].id == *id {
                return Some(i);
            }
            i = i + 1;
        }
        None
    }

    /// Replace the session at a live index with a same-identifier session,
    /// given the entry it should denote.
    fn replace_at(&mut self, i: usize, s: BpxSession)
        requires
            old(self).wf(),
            i < old(self).sessions@.len(),
            s.wf(),
            s.id@ == old(self).session_pairs()[i as int].0,
        ensures
            final(self).wf(),
            final(self).config == old(self).config,
            final(self).session_pairs() == old(self).session_pairs().update(
                i as int,
                (
                    s.id@,
                    SessionModel {
                        resources: s.resources_map(),
                        last_accessed: s.last_accessed,
                    },
                ),
            ),
    {
        let ghost pairs0 = self.session_pairs();
        let ghost e = (
            s.id@,
            SessionModel { resources: s.resources_map(), last_accessed: s.last_accessed },
        );
        self.sessions.remove(i);
        self.sessions.insert(i, s);
        proof {
            assert(self.sessions@ =~= old(self).sessions@.update(i as int, s));
            assert(self.session_pairs() =~= pairs0.update(i as int, e));
            assert forall|a: int, b: int|
                0 <= a < b < self.session_pairs().len() implies (
            #[trigger] self.session_pairs()[a]).0 != (#[trigger] self.session_pairs()[b]).0 by {
                assert(self.session_pairs()[a].0 == pairs0[a].0);
                assert(self.session_pairs()[b].0 == pairs0[b].0);
            }
            assert forall|l: int| 0 <= l < self.sessions@.len() implies (
            #[trigger] self.sessions@[l]).wf() by {
                if l != i {
                    assert(self.sessions@[l] == old(self).sessions@[l]);
                }
            }
        }
    }

    /// Mint a fresh identifier and install an empty session under it,
    /// replacing any session the fresh identifier happens to collide with,
    /// as a map insert would.
    fn install_fresh(&mut self, now_ms: u64) -> (r: SessionId)
        requires
            old(self).wf(),
        ensures
            final(self).wf(),
            final(self).config == old(self).config,
            assoc_map(final(self).session_pairs()) == assoc_map(old(self).session_pairs()).insert(
                r@,
                SessionModel { resources: Map::empty(), last_accessed: now_ms },
            ),
            r@.len() > 5,
            r@.subrange(0, 5) == "sess_"@,
            exists|e: u64| r@ == "sess_"@ + #[trigger] spec_hex(e),
    {
        let ghost pairs0 = self.session_pairs();
        let sid = SessionId::generate();
        let sid_out = SessionId::new(sid.as_str().to_owned());
        let sess = BpxSession::new(sid, now_ms);
        let ghost e = (sid_out@, SessionModel { resources: Map::empty(), last_accessed: now_ms });
        match self.find_session(&sess.id) {
            Some(i) => {
                proof {
                    lemma_assoc_value(pairs0, i as int);
                }
                self.replace_at(i, sess);
                proof {
                    lemma_assoc_update(pairs0, i as int, e);
                }
            },
            None => {
                self.sessions.push(sess);
                proof {
                    assert(self.session_pairs() =~= pairs0.push(e));
                    lemma_assoc_push(pairs0, e);
                    assert forall|a: int, b: int|
                        0 <= a < b < self.session_pairs().len() implies (
                    #[trigger] self.session_pairs()[a]).0 != (
                    #[trigger] self.session_pairs()[b]).0 by {
                        assert(a < pairs0.len());
                        assert(self.session_pairs()[a].0 == pairs0[a].0);
                        if b < pairs0.len() {
                            assert(self.session_pairs()[b].0 == pairs0[b].0);
                        } else {
                            assert(self.session_pairs()[b] == e);
                        }
                    }
                    assert forall|l: int| 0 <= l < self.sessions@.len() implies (
                    #[trigger] self.sessions@[l]).wf() by {
                        if l < old(self).sessions@.len() {
                            assert(self.sessions@[l] == old(self).sessions@[l]);
                        }
                    }
                }
            },
        }
        sid_out
    }
}

impl StateManager for InMemoryStateManager {
    /// Identifiers are pairwise distinct and each session is well-formed.
    closed spec fn wf(&self) -> bool {
        &&& assoc_unique(self.session_pairs())
        &&& forall|i: int| 0 <= i < self.sessions@.len() ==> (#[trigger] self.sessions@[i]).wf()
    }

    closed spec fn sessions(&self) -> Map<Seq<char>, SessionModel> {
        assoc_map(self.session_pairs())
    }

    closed spec fn ttl_ms(&self) -> u64 {
        self.config.session_ttl_ms
    }

    fn get_or_create_session(&mut self, id: Option<SessionId>, now_ms: u64) -> (r: SessionId) {
        let ghost pairs0 = self.session_pairs();
        match id {
            Some(sid_in) => {
                match self.find_session(&sid_in) {
                    Some(i) => {
                        proof {
                            lemma_assoc_value(pairs0, i as int);
                        }
                        let mut s = self.sessions.remove(i);
                        s.touch(now_ms);
                        let sid = s.id.clone();
                        self.sessions.insert(i, s);
                        proof {
                            let e = (
                                pairs0[i as int].0,
                                SessionModel {
                                    resources: pairs0[i as int].1.resources,
                                    last_accessed: now_ms,
                                },
                            );
                            assert(self.sessions@ =~= old(self).sessions@.update(
                                i as int,
                                self.sessions@[i as int],
                            ));
                            assert(self.session_pairs() =~= pairs0.update(i as int, e));
                            lemma_assoc_update(pairs0, i as int, e);
                            assert forall|a: int, b: int|
                                0 <= a < b < self.session_pairs().len() implies (
                            #[trigger] self.session_pairs()[a]).0 != (
                            #[trigger] self.session_pairs()[b]).0 by {
                                assert(self.session_pairs()[a].0 == pairs0[a].0);
                                assert(self.session_pairs()[b].0 == pairs0[b].0);
                            }
                            assert forall|l: int| 0 <= l < self.sessions@.len() implies (
                            #[trigger] self.sessions@[l]).wf() by {
                                if l != i {
                                    assert(self.sessions@[l] == old(self).sessions@[l]);
                                }
                            }
                        }
                        sid
                    },
                    None => {
                        proof {
                            lemma_assoc_contains(pairs0, sid_in@);
                        }
                        self.install_fresh(now_ms)
                    },
                }
            },
            None => self.install_fresh(now_ms),
        }
    }

    fn get_version(&self, session: &SessionId, path: &ResourcePath) -> (r: Option<Version>) {
        match self.find_session(session) {
            Some(i) => {
                proof {
                    lemma_assoc_value(self.session_pairs(), i as int);
                }
                match self.sessions[i].resource_version(path) {
                    Some(v) => Some(v.clone()),
                    None => None,
                }
            },
            None => {
                proof {
                    lemma_assoc_contains(self.session_pairs(), session@);
                }
                None
            },
        }
    }

    fn set_version(&mut self, session: &SessionId, path: &ResourcePath, version: Version) {
        let ghost pairs0 = self.session_pairs();
        match self.find_session(session) {
            Some(i) => {
                proof {
                    lemma_assoc_value(pairs0, i as int);
                }
                let mut s = self.sessions.remove(i);
                s.set_resource(path.clone(), version);
                let ghost e = (
                    s.id@,
                    SessionModel {
                        resources: s.resources_map(),
                        last_accessed: s.last_accessed,
                    },
                );
                self.sessions.insert(i, s);
                proof {
                    assert(self.sessions@ =~= old(self).sessions@.update(
                        i as int,
                        self.sessions@[i as int],
                    ));
                    assert(self.session_pairs() =~= pairs0.update(i as int, e));
                    lemma_assoc_update(pairs0, i as int, e);
                    assert forall|a: int, b: int|
                        0 <= a < b < self.session_pairs().len() implies (
                    #[trigger] self.session_pairs()[a]).0 != (
                    #[trigger] self.session_pairs()[b]).0 by {
                        assert(self.session_pairs()[a].0 == pairs0[a].0);
                        assert(self.session_pairs()[b].0 == pairs0[b].0);
                    }
                    assert forall|l: int| 0 <= l < self.sessions@.len() implies (
                    #[trigger] self.sessions@[l]).wf() by {
                        if l != i {
                            assert(self.sessions@[l] == old(self).sessions@[l]);
                        }
                    }
                }
            },
            None => {
                proof {
                    lemma_assoc_contains(pairs0, session@);
                }
            },
        }
    }

    fn cleanup_expired(&mut self, now_ms: u64) {
        let ghost pairs0 = self.session_pairs();
        let ttl = self.config.session_ttl_ms;
        let mut kept: Vec<BpxSession> = Vec::new();
        let ghost mut src: Seq<int> = Seq::empty();
        let mut i: usize = 0;
        while i < self.sessions.len()
            invariant
                i <= self.sessions@.len(),
                self.session_pairs() == pairs0,
                self.config.session_ttl_ms == ttl,
                assoc_unique(pairs0),
                forall|l: int|
                    0 <= l < self.sessions@.len() ==> (#[trigger] self.sessions@[l]).wf(),
                forall|l: int| 0 <= l < kept@.len() ==> (#[trigger] kept@[l]).wf(),
                src.len() == kept@.len(),
                forall|l: int|
                    0 <= l < src.len() ==> 0 <= #[trigger] src[l] < i && pairs_of(kept@)[l]
                        == pairs0[src[l]] && !spec_expired(
                        pairs0[src[l]].1.last_accessed,
                        ttl,
                        now_ms,
                    ),
                forall|l1: int, l2: int| 0 <= l1 < l2 < src.len() ==> #[trigger] src[l1] < #[trigger] src[l2],
                forall|k: int|
                    0 <= k < i && !spec_expired(
                        (#[trigger] pairs0[k]).1.last_accessed,
                        ttl,
                        now_ms,
                    ) ==> exists|l: int| 0 <= l < src.len() && #[trigger] src[l] == k,
            decreases self.sessions@.len() - i,
        {
            let expired = self.sessions[i].is_expired(ttl, now_ms);
            let ghost src0 = src;
            if !expired {
                let ghost kept0 = kept@;
                let keep = self.sessions[i].clone();
                kept.push(keep);
                proof {
                    src = src.push(i as int);
                    assert(pairs_of(kept@)[kept0.len() as int] == pairs0[i as int]);
                    assert forall|l: int| 0 <= l < kept0.len() implies pairs_of(kept@)[l]
                        == pairs_of(kept0)[l] by {
                        assert(kept@[l] == kept0[l]);
                    }
                }
            }
            proof {
                assert forall|k: int|
                    0 <= k < i + 1 && !spec_expired(
                        (#[trigger] pairs0[k]).1.last_accessed,
                        ttl,
                        now_ms,
                    ) implies exists|l: int| 0 <= l < src.len() && #[trigger] src[l] == k by {
                    if k == i {
                        assert(src[src.len() - 1] == k);
                    } else {
                        let l0 = choose|l: int| 0 <= l < src0.len() && #[trigger] src0[l] == k;
                        assert(src[l0] == k);
                    }
                }
            }
            i = i + 1;
        }
        self.sessions = kept;
        proof {
            lemma_cleanup_relates(pairs0, self.session_pairs(), src, ttl, now_ms);
        }
    }
}

} // verus!
