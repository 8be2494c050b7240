//! The request pipeline and the resource store it draws from.

use crate::BpxConfig;
use crate::BpxError;
use crate::DiffFormat;
use crate::ResourcePath;
use crate::SessionId;
use crate::Version;
use crate::assoc::assoc_map;
use crate::assoc::assoc_unique;
use crate::assoc::lemma_assoc_contains;
use crate::assoc::lemma_assoc_dom_len;
use crate::assoc::lemma_assoc_filter;
use crate::assoc::lemma_assoc_push;
use crate::assoc::lemma_assoc_update;
use crate::assoc::lemma_assoc_value;
use crate::diff::DiffEngine;
use crate::protocol::BpxRequest;
use crate::protocol::BpxResponse;
use crate::protocol::ResponseBody;
use crate::spec_version_of;
use crate::state::SessionModel;
use crate::state::StateManager;
use crate::textfmt::dec_u64;
use crate::textfmt::spec_dec;
use crate::textfmt::spec_hex;
use vstd::prelude::*;
use vstd::slice::slice_to_vec;

verus! {

/// Read access to the current bytes of each resource and to the versions
/// the pipeline has served before, plus idempotent version storage.
pub trait ResourceStore {
    /// The store's internal invariant; constructors establish it and every
    /// operation preserves it.
    spec fn wf(&self) -> bool;

    /// The current content of each resource, by path.
    spec fn currents(&self) -> Map<Seq<char>, Seq<u8>>;

    /// The historical content of each (path, version) the pipeline stored.
    spec fn history(&self) -> Map<(Seq<char>, Seq<char>), Seq<u8>>;

    /// The current content of a resource, or a not-found error.
    fn get_resource(&self, path: &ResourcePath) -> (r: Result<Vec<u8>, BpxError>)
        requires
            self.wf(),
        ensures
            self.currents().contains_key(path@) ==> (r matches Ok(c) && c@
                == self.currents()[path@]),
            !self.currents().contains_key(path@) ==> (r matches Err(e) && e
                matches BpxError::ClientStateNotFound { .. }),
    ;

    /// The stored content of an exact historical version, or a not-found
    /// error.
    fn get_resource_version(&self, path: &ResourcePath, version: &Version) -> (r: Result<
        Vec<u8>,
        BpxError,
    >)
        requires
            self.wf(),
        ensures
            self.history().contains_key((path@, version@)) ==> (r matches Ok(c) && c@
                == self.history()[(path@, version@)]),
            !self.history().contains_key((path@, version@)) ==> (r matches Err(e) && e
                matches BpxError::ClientStateNotFound { .. }),
    ;

    /// Store a specific version of a resource; an idempotent insert keyed
    /// on (path, version).
    fn store_version(&mut self, path: ResourcePath, version: Version, content: Vec<u8>)
        requires
            old(self).wf(),
        ensures
            final(self).wf(),
            final(self).currents() == old(self).currents(),
            final(self).history() == old(self).history().insert((path@, version@), content@),
    ;
}


/// The second map is the first with the entry at `path` (if any) dropped
/// and nothing else changed.
pub open spec fn spec_drops_current(
    m0: Map<Seq<char>, Seq<u8>>,
    m1: Map<Seq<char>, Seq<u8>>,
    path: Seq<char>,
) -> bool {
    &&& forall|k: Seq<char>|
        m1.contains_key(k) <==> (#[trigger] m0.contains_key(k) && k != path)
    &&& forall|k: Seq<char>| #[trigger] m1.contains_key(k) ==> m1[k] == m0[k]
}

/// The second history is the first with every version of `path` dropped
/// and nothing else changed.
pub open spec fn spec_drops_history(
    h0: Map<(Seq<char>, Seq<char>), Seq<u8>>,
    h1: Map<(Seq<char>, Seq<char>), Seq<u8>>,
    path: Seq<char>,
) -> bool {
    &&& forall|key: (Seq<char>, Seq<char>)|
        h1.contains_key(key) <==> (#[trigger] h0.contains_key(key) && key.0 != path)
    &&& forall|key: (Seq<char>, Seq<char>)| #[trigger] h1.contains_key(key) ==> h1[key] == h0[key]
}


/// Survivors of a current-content sweep denote the original map with the
/// given path dropped.
proof fn lemma_drops_current(
    old_p: Seq<(Seq<char>, Seq<u8>)>,
    new_p: Seq<(Seq<char>, Seq<u8>)>,
    src: Seq<int>,
    path: Seq<char>,
)
    requires
        assoc_unique(old_p),
        src.len() == new_p.len(),
        forall|l: int|
            0 <= l < src.len() ==> 0 <= #[trigger] src[l] < old_p.len() && new_p[l]
                == old_p[src[l]] && old_p[src[l]].0 != path,
        forall|l1: int, l2: int| 0 <= l1 < l2 < src.len() ==> #[trigger] src[l1] < #[trigger] src[l2],
        forall|k: int|
            0 <= k < old_p.len() && (#[trigger] old_p[k]).0 != path ==> exists|l: int|
                0 <= l < src.len() && #[trigger] src[l] == k,
    ensures
        assoc_unique(new_p),
        spec_drops_current(assoc_map(old_p), assoc_map(new_p), path),
{
    let keep = |e: (Seq<char>, Seq<u8>)| e.0 != path;
    lemma_assoc_filter(old_p, new_p, src, keep);
    assert forall|k: Seq<char>|
        assoc_map(new_p).contains_key(k) <==> (#[trigger] assoc_map(old_p).contains_key(k) && k
            != path) by {
        if assoc_map(old_p).contains_key(k) {
            assert(keep((k, assoc_map(old_p)[k])) == (k != path));
        }
    }
}

/// Survivors of a history sweep denote the original map with every version
/// of the given path dropped.
proof fn lemma_drops_history(
    old_p: Seq<((Seq<char>, Seq<char>), Seq<u8>)>,
    new_p: Seq<((Seq<char>, Seq<char>), Seq<u8>)>,
    src: Seq<int>,
    path: Seq<char>,
)
    requires
        assoc_unique(old_p),
        src.len() == new_p.len(),
        forall|l: int|
            0 <= l < src.len() ==> 0 <= #[trigger] src[l] < old_p.len() && new_p[l]
                == old_p[src[l]] && old_p[src[l]].0.0 != path,
        forall|l1: int, l2: int| 0 <= l1 < l2 < src.len() ==> #[trigger] src[l1] < #[trigger] src[l2],
        forall|k: int|
            0 <= k < old_p.len() && (#[trigger] old_p[k]).0.0 != path ==> exists|l: int|
                0 <= l < src.len() && #[trigger] src[l] == k,
    ensures
        assoc_unique(new_p),
        spec_drops_history(assoc_map(old_p), assoc_map(new_p), path),
{
    let keep = |e: ((Seq<char>, Seq<char>), Seq<u8>)| e.0.0 != path;
    lemma_assoc_filter(old_p, new_p, src, keep);
    assert forall|key: (Seq<char>, Seq<char>)|
        assoc_map(new_p).contains_key(key) <==> (#[trigger] assoc_map(old_p).contains_key(key)
            && key.0 != path) by {
        if assoc_map(old_p).contains_key(key) {
            assert(keep((key, assoc_map(old_p)[key])) == (key.0 != path));
        }
    }
}

/// In-memory resource store: current content and stored versions in
/// vectors, unique by key.
pub struct InMemoryResourceStore {
    resources: Vec<(ResourcePath, Vec<u8>)>,
    versions: Vec<(ResourcePath, Version, Vec<u8>)>,
}

impl InMemoryResourceStore {
    /// The current-content entries as path/content pairs.
    pub closed spec fn current_pairs(&self) -> Seq<(Seq<char>, Seq<u8>)> {
        Seq::new(self.resources@.len(), |i: int| (self.resources@[i].0@, self.resources@[i].1@))
    }

    /// The history entries as (path, version)/content pairs.
    pub closed spec fn history_pairs(&self) -> Seq<((Seq<char>, Seq<char>), Seq<u8>)> {
        Seq::new(
            self.versions@.len(),
            |i: int| ((self.versions@[i].0@, self.versions@[i].1@), self.versions@[i].2@),
        )
    }

    /// Create a new, empty in-memory resource store.
    pub fn new() -> (r: InMemoryResourceStore)
        ensures
            r.wf(),
            r.currents() == Map::<Seq<char>, Seq<u8>>::empty(),
            r.history() == Map::<(Seq<char>, Seq<char>), Seq<u8>>::empty(),
    {
        let r = InMemoryResourceStore { resources: Vec::new(), versions: Vec::new() };
        proof {
            assert(r.current_pairs() =~= Seq::<(Seq<char>, Seq<u8>)>::empty());
            assert(r.history_pairs() =~= Seq::<((Seq<char>, Seq<char>), Seq<u8>)>::empty());
        }
        r
    }

    fn find_current(&self, path: &ResourcePath) -> (r: Option<usize>)
        ensures
            match r {
                Some(i) => i < self.current_pairs().len() && self.current_pairs()[i as int].0
                    == path@,
                None => forall|k: int|
                    0 <= k < self.current_pairs().len() ==> (#[trigger] self.current_pairs()[k]).0
                        != path@,
            },
    {
        let mut i: usize = 0;
        while i < self.resources.len()
            invariant
                i <= self.resources@.len(),
                forall|k: int| 0 <= k < i ==> (#[trigger] self.current_pairs()[k]).0 != path@,
            decreases self.resources@.len() - i,
        {
            if self.resources[i].0 == *path {
                return Some(i);
            }
            i = i + 1;
        }
        None
    }

    fn find_version(&self, path: &ResourcePath, version: &Version) -> (r: Option<usize>)
        ensures
            match r {
                Some(i) => i < self.history_pairs().len() && self.history_pairs()[i as int].0 == (
                    path@,
                    version@,
                ),
                None => forall|k: int|
                    0 <= k < self.history_pairs().len() ==> (#[trigger] self.history_pairs()[k]).0
                        != (path@, version@),
            },
    {
        let mut i: usize = 0;
        while i < self.versions.len()
            invariant
                i <= self.versions@.len(),
                forall|k: int|
                    0 <= k < i ==> (#[trigger] self.history_pairs()[k]).0 != (path@, version@),
            decreases self.versions@.len() - i,
        {
            if self.versions[i].0 == *path && self.versions[i].1 == *version {
                return Some(i);
            }
            proof {
                assert(self.history_pairs()[i as int].0.0 == self.versions@[i as int].0@);
                assert(self.history_pairs()[i as int].0.1 == self.versions@[i as int].1@);
            }
            i = i + 1;
        }
        None
    }

    /// Set a resource's current content, replacing any earlier content.
    pub fn set_resource(&mut self, path: ResourcePath, content: Vec<u8>)
        requires
            old(self).wf(),
        ensures
            final(self).wf(),
            final(self).currents() == old(self).currents().insert(path@, content@),
            final(self).history() == old(self).history(),
    {
        let ghost pairs0 = self.current_pairs();
        match self.find_current(&path) {
            Some(i) => {
                self.resources.remove(i);
                self.resources.insert(i, (path, content));
                proof {
                    let e = (self.resources@[i as int].0@, self.resources@[i as int].1@);
                    assert(self.resources@ =~= old(self).resources@.update(
                        i as int,
                        self.resources@[i as int],
                    ));
                    assert(self.current_pairs() =~= pairs0.update(i as int, e));
                    assert(self.history_pairs() =~= old(self).history_pairs());
                    lemma_assoc_update(pairs0, i as int, e);
                    assert forall|a: int, b: int|
                        0 <= a < b < self.current_pairs().len() implies (
                    #[trigger] self.current_pairs()[a]).0 != (
                    #[trigger] self.current_pairs()[b]).0 by {
                        assert(self.current_pairs()[a].0 == pairs0[a].0);
                        assert(self.current_pairs()[b].0 == pairs0[b].0);
                    }
                }
            },
            None => {
                self.resources.push((path, content));
                proof {
                    let e = (self.resources@.last().0@, self.resources@.last().1@);
                    assert(self.current_pairs() =~= pairs0.push(e));
                    assert(self.history_pairs() =~= old(self).history_pairs());
                    lemma_assoc_push(pairs0, e);
                    assert forall|a: int, b: int|
                        0 <= a < b < self.current_pairs().len() implies (
                    #[trigger] self.current_pairs()[a]).0 != (
                    #[trigger] self.current_pairs()[b]).0 by {
                        assert(a < pairs0.len());
                        assert(self.current_pairs()[a].0 == pairs0[a].0);
                        if b < pairs0.len() {
                            assert(self.current_pairs()[b].0 == pairs0[b].0);
                        }
                    }
                }
            },
        }
    }

    /// Store a specific version of a resource; an idempotent insert keyed
    /// on (path, version).
    pub fn store_version(&mut self, path: ResourcePath, version: Version, content: Vec<u8>)
        requires
            old(self).wf(),
        ensures
            final(self).wf(),
            final(self).currents() == old(self).currents(),
            final(self).history() == old(self).history().insert((path@, version@), content@),
    {
        let ghost pairs0 = self.history_pairs();
        match self.find_version(&path, &version) {
            Some(i) => {
                self.versions.remove(i);
                self.versions.insert(i, (path, version, content));
                proof {
                    let t = self.versions@[i as int];
                    let e = ((t.0@, t.1@), t.2@);
                    assert(self.versions@ =~= old(self).versions@.update(i as int, t));
                    assert(self.history_pairs() =~= pairs0.update(i as int, e));
                    assert(self.current_pairs() =~= old(self).current_pairs());
                    lemma_assoc_update(pairs0, i as int, e);
                    assert forall|a: int, b: int|
                        0 <= a < b < self.history_pairs().len() implies (
                    #[trigger] self.history_pairs()[a]).0 != (
                    #[trigger] self.history_pairs()[b]).0 by {
                        assert(self.history_pairs()[a].0 == pairs0[a].0);
                        assert(self.history_pairs()[b].0 == pairs0[b].0);
                    }
                }
            },
            None => {
                self.versions.push((path, version, content));
                proof {
                    let t = self.versions@.last();
                    let e = ((t.0@, t.1@), t.2@);
                    assert(self.history_pairs() =~= pairs0.push(e));
                    assert(self.current_pairs() =~= old(self).current_pairs());
                    lemma_assoc_push(pairs0, e);
                    assert forall|a: int, b: int|
                        0 <= a < b < self.history_pairs().len() implies (
                    #[trigger] self.history_pairs()[a]).0 != (
                    #[trigger] self.history_pairs()[b]).0 by {
                        assert(a < pairs0.len());
                        assert(self.history_pairs()[a].0 == pairs0[a].0);
                        if b < pairs0.len() {
                            assert(self.history_pairs()[b].0 == pairs0[b].0);
                        }
                    }
                }
            },
        }
    }

    /// All stored versions of a resource, each exactly once.
    pub fn get_versions(&self, path: &ResourcePath) -> (r: Vec<Version>)
        requires
            self.wf(),
        ensures
            forall|l: int|
                0 <= l < r@.len() ==> self.history().contains_key(
                    (path@, (#[trigger] r@[l])@),
                ),
            forall|ver: Seq<char>| #[trigger]
                self.history().contains_key((path@, ver)) ==> exists|l: int|
                    0 <= l < r@.len() && (#[trigger] r@[l])@ == ver,
            forall|l1: int, l2: int|
                0 <= l1 < l2 < r@.len() ==> (#[trigger] r@[l1])@ != (#[trigger] r@[l2])@,
    {
        let mut out: Vec<Version> = Vec::new();
        let ghost mut src: Seq<int> = Seq::empty();
        let mut j: usize = 0;
        while j < self.versions.len()
            invariant
                j <= self.versions@.len(),
                assoc_unique(self.history_pairs()),
                src.len() == out@.len(),
                forall|l: int|
                    0 <= l < src.len() ==> 0 <= #[trigger] src[l] < j && self.history_pairs()[src[l]].0
                        == (path@, out@[l]@),
                forall|l1: int, l2: int|
                    0 <= l1 < l2 < src.len() ==> #[trigger] src[l1] < #[trigger] src[l2],
                forall|k: int|
                    0 <= k < j && (#[trigger] self.history_pairs()[k]).0.0 == path@ ==> exists|
                        l: int,
                    | 0 <= l < out@.len() && (#[trigger] out@[l])@ == self.history_pairs()[k].0.1,
            decreases self.versions@.len() - j,
        {
            proof {
                assert(self.history_pairs()[j as int].0.0 == self.versions@[j as int].0@);
                assert(self.history_pairs()[j as int].0.1 == self.versions@[j as int].1@);
            }
            let ghost out0 = out@;
            if self.versions[j].0 == *path {
                out.push(self.versions[j].1.clone());
                proof {
                    src = src.push(j as int);
                    assert(self.history_pairs()[j as int].0 == (path@, out@[out@.len() - 1]@));
                }
            }
            proof {
                assert forall|k: int|
                    0 <= k < j + 1 && (#[trigger] self.history_pairs()[k]).0.0 == path@ implies
                    exists|l: int|
                    0 <= l < out@.len() && (#[trigger] out@[l])@ == self.history_pairs()[k].0.1 by {
                    if k == j {
                        assert(out@[out@.len() - 1]@ == self.history_pairs()[k].0.1);
                    } else {
                        let l0 = choose|l: int|
                            0 <= l < out0.len() && (#[trigger] out0[l])@
                                == self.history_pairs()[k].0.1;
                        assert(out@[l0]@ == self.history_pairs()[k].0.1);
                    }
                }
            }
            j = j + 1;
        }
        proof {
            assert forall|l: int| 0 <= l < out@.len() implies self.history().contains_key(
                (path@, (#[trigger] out@[l])@),
            ) by {
                assert(self.history_pairs()[src[l]].0 == (path@, out@[l]@));
                lemma_assoc_contains(self.history_pairs(), (path@, out@[l]@));
            }
            assert forall|ver: Seq<char>| #[trigger]
                self.history().contains_key((path@, ver)) implies exists|l: int|
                0 <= l < out@.len() && (#[trigger] out@[l])@ == ver by {
                lemma_assoc_contains(self.history_pairs(), (path@, ver));
                let k = choose|k: int|
                    0 <= k < self.history_pairs().len() && (#[trigger] self.history_pairs()[k]).0
                        == (path@, ver);
                assert(self.history_pairs()[k].0.0 == path@);
            }
            assert forall|l1: int, l2: int| 0 <= l1 < l2 < out@.len() implies (
            #[trigger] out@[l1])@ != (#[trigger] out@[l2])@ by {
                assert(src[l1] < src[l2]);
                assert(self.history_pairs()[src[l1]].0 == (path@, out@[l1]@));
                assert(self.history_pairs()[src[l2]].0 == (path@, out@[l2]@));
            }
        }
        out
    }

    /// Remove a resource's current content and all its stored versions.
    pub fn remove_resource(&mut self, path: &ResourcePath)
        requires
            old(self).wf(),
        ensures
            final(self).wf(),
            spec_drops_current(old(self).currents(), final(self).currents(), path@),
            spec_drops_history(old(self).history(), final(self).history(), path@),
    {
        self.retain_currents(path);
        self.retain_versions(path);
    }

    /// Drop the current content recorded under `path`, keeping the rest.
    #[verifier::spinoff_prover]
    fn retain_currents(&mut self, path: &ResourcePath)
        requires
            old(self).wf(),
        ensures
            final(self).wf(),
            final(self).history() == old(self).history(),
            spec_drops_current(old(self).currents(), final(self).currents(), path@),
    {
        let ghost cpairs0 = self.current_pairs();
        let mut kept_res: Vec<(ResourcePath, Vec<u8>)> = Vec::new();
        let ghost mut rsrc: Seq<int> = Seq::empty();
        let mut i: usize = 0;
        while i < self.resources.len()
            invariant
                i <= self.resources@.len(),
                cpairs0 == old(self).current_pairs(),
                self.current_pairs() == cpairs0,
                self.history_pairs() == old(self).history_pairs(),
                assoc_unique(cpairs0),
                assoc_unique(self.history_pairs()),
                rsrc.len() == kept_res@.len(),
                forall|l: int|
                    0 <= l < rsrc.len() ==> 0 <= #[trigger] rsrc[l] < i && pairs_view(kept_res@)[l]
                        == cpairs0[rsrc[l]] && cpairs0[rsrc[l]].0 != path@,
                forall|l1: int, l2: int|
                    0 <= l1 < l2 < rsrc.len() ==> #[trigger] rsrc[l1] < #[trigger] rsrc[l2],
                forall|k: int|
                    0 <= k < i && (#[trigger] cpairs0[k]).0 != path@ ==> exists|l: int|
                        0 <= l < rsrc.len() && #[trigger] rsrc[l] == k,
            decreases self.resources@.len() - i,
        {
            let ghost rsrc0 = rsrc;
            if !(self.resources[i].0 == *path) {
                let ghost kept0 = kept_res@;
                let entry = (self.resources[i].0.clone(), slice_to_vec(
                    self.resources[i].1.as_slice(),
                ));
                kept_res.push(entry);
                proof {
                    rsrc = rsrc.push(i as int);
                    assert(pairs_view(kept_res@)[kept0.len() as int] == cpairs0[i as int]);
                    assert forall|l: int| 0 <= l < kept0.len() implies pairs_view(kept_res@)[l]
                        == pairs_view(kept0)[l] by {
                        assert(kept_res@[l] == kept0[l]);
                    }
                }
            }
            proof {
                assert forall|k: int|
                    0 <= k < i + 1 && (#[trigger] cpairs0[k]).0 != path@ implies exists|l: int|
                    0 <= l < rsrc.len() && #[trigger] rsrc[l] == k by {
                    if k == i {
                        assert(rsrc[rsrc.len() - 1] == k);
                    } else {
                        let l0 = choose|l: int| 0 <= l < rsrc0.len() && #[trigger] rsrc0[l] == k;
                        assert(rsrc[l0] == k);
                    }
                }
            }
            i = i + 1;
        }
        self.resources = kept_res;
        proof {
            assert(self.history_pairs() =~= old(self).history_pairs());
            lemma_drops_current(cpairs0, self.current_pairs(), rsrc, path@);
        }
    }

    /// Drop every stored version recorded under `path`, keeping the rest.
    #[verifier::spinoff_prover]
    fn retain_versions(&mut self, path: &ResourcePath)
        requires
            old(self).wf(),
        ensures
            final(self).wf(),
            final(self).currents() == old(self).currents(),
            spec_drops_history(old(self).history(), final(self).history(), path@),
    {
        let ghost hpairs0 = self.history_pairs();
        let mut kept_ver: Vec<(ResourcePath, Version, Vec<u8>)> = Vec::new();
        let ghost mut vsrc: Seq<int> = Seq::empty();
        let mut j: usize = 0;
        while j < self.versions.len()
            invariant
                j <= self.versions@.len(),
                hpairs0 == old(self).history_pairs(),
                self.history_pairs() == hpairs0,
                self.current_pairs() == old(self).current_pairs(),
                assoc_unique(hpairs0),
                assoc_unique(self.current_pairs()),
                vsrc.len() == kept_ver@.len(),
                forall|l: int|
                    0 <= l < vsrc.len() ==> 0 <= #[trigger] vsrc[l] < j && triple_view(
                        kept_ver@,
                    )[l] == hpairs0[vsrc[l]] && hpairs0[vsrc[l]].0.0 != path@,
                forall|l1: int, l2: int|
                    0 <= l1 < l2 < vsrc.len() ==> #[trigger] vsrc[l1] < #[trigger] vsrc[l2],
                forall|k: int|
                    0 <= k < j && (#[trigger] hpairs0[k]).0.0 != path@ ==> exists|l: int|
                        0 <= l < vsrc.len() && #[trigger] vsrc[l] == k,
            decreases self.versions@.len() - j,
        {
            let ghost vsrc0 = vsrc;
            proof {
                assert(hpairs0[j as int].0.0 == self.versions@[j as int].0@);
            }
            if !(self.versions[j].0 == *path) {
                let ghost kept0 = kept_ver@;
                let entry = (
                    self.versions[j].0.clone(),
                    self.versions[j].1.clone(),
                    slice_to_vec(self.versions[j].2.as_slice()),
                );
                kept_ver.push(entry);
                proof {
                    vsrc = vsrc.push(j as int);
                    assert(triple_view(kept_ver@)[kept0.len() as int] == hpairs0[j as int]);
                    assert forall|l: int| 0 <= l < kept0.len() implies triple_view(kept_ver@)[l]
                        == triple_view(kept0)[l] by {
                        assert(kept_ver@[l] == kept0[l]);
                    }
                }
            }
            proof {
                assert forall|k: int|
                    0 <= k < j + 1 && (#[trigger] hpairs0[k]).0.0 != path@ implies exists|l: int|
                    0 <= l < vsrc.len() && #[trigger] vsrc[l] == k by {
                    if k == j {
                        assert(vsrc[vsrc.len() - 1] == k);
                    } else {
                        let l0 = choose|l: int| 0 <= l < vsrc0.len() && #[trigger] vsrc0[l] == k;
                        assert(vsrc[l0] == k);
                    }
                }
            }
            j = j + 1;
        }
        self.versions = kept_ver;
        proof {
            assert(self.current_pairs() =~= old(self).current_pairs());
            lemma_drops_history(hpairs0, self.history_pairs(), vsrc, path@);
        }
    }

    /// The number of resources with current content.
    pub fn resource_count(&self) -> (r: usize)
        requires
            self.wf(),
        ensures
            r == self.currents().dom().len(),
    {
        proof {
            lemma_assoc_dom_len(self.current_pairs());
        }
        self.resources.len()
    }

    /// The total number of stored versions across all resources.
    pub fn version_count(&self) -> (r: usize)
        requires
            self.wf(),
        ensures
            r == self.history().dom().len(),
    {
        proof {
            lemma_assoc_dom_len(self.history_pairs());
        }
        self.versions.len()
    }

    /// The current content of a resource, if any.
    pub fn get_current_resource(&self, path: &ResourcePath) -> (r: Option<Vec<u8>>)
        requires
            self.wf(),
        ensures
            match r {
                Some(c) => self.currents().contains_key(path@) && c@ == self.currents()[path@],
                None => !self.currents().contains_key(path@),
            },
    {
        match self.find_current(path) {
            Some(i) => {
                proof {
                    lemma_assoc_value(self.current_pairs(), i as int);
                }
                Some(slice_to_vec(self.resources[i].1.as_slice()))
            },
            None => {
                proof {
                    lemma_assoc_contains(self.current_pairs(), path@);
                }
                None
            },
        }
    }
}

/// The path/content pairs a current-content vector denotes.
pub open spec fn pairs_view(s: Seq<(ResourcePath, Vec<u8>)>) -> Seq<(Seq<char>, Seq<u8>)> {
    Seq::new(s.len(), |i: int| (s[i].0@, s[i].1@))
}

/// The (path, version)/content pairs a history vector denotes.
pub open spec fn triple_view(s: Seq<(ResourcePath, Version, Vec<u8>)>) -> Seq<
    ((Seq<char>, Seq<char>), Seq<u8>),
> {
    Seq::new(s.len(), |i: int| ((s[i].0@, s[i].1@), s[i].2@))
}

impl Default for InMemoryResourceStore {
    /// An empty store.
    fn default() -> (r: InMemoryResourceStore)
        ensures
            r.wf(),
            r.currents() == Map::<Seq<char>, Seq<u8>>::empty(),
            r.history() == Map::<(Seq<char>, Seq<char>), Seq<u8>>::empty(),
    {
        InMemoryResourceStore::new()
    }
}

impl ResourceStore for InMemoryResourceStore {
    /// Paths, and (path, version) keys, are pairwise distinct.
    closed spec fn wf(&self) -> bool {
        &&& assoc_unique(self.current_pairs())
        &&& assoc_unique(self.history_pairs())
    }

    closed spec fn currents(&self) -> Map<Seq<char>, Seq<u8>> {
        assoc_map(self.current_pairs())
    }

    closed spec fn history(&self) -> Map<(Seq<char>, Seq<char>), Seq<u8>> {
        assoc_map(self.history_pairs())
    }

    fn get_resource(&self, path: &ResourcePath) -> (r: Result<Vec<u8>, BpxError>) {
        match self.find_current(path) {
            Some(i) => {
                proof {
                    lemma_assoc_value(self.current_pairs(), i as int);
                }
                Ok(slice_to_vec(self.resources[i].1.as_slice()))
            },
            None => {
                proof {
                    lemma_assoc_contains(self.current_pairs(), path@);
                }
                Err(
                    BpxError::ClientStateNotFound {
                        client_id: SessionId::new("resource:".to_owned().concat(path.as_str())),
                    },
                )
            },
        }
    }

    fn get_resource_version(&self, path: &ResourcePath, version: &Version) -> (r: Result<
        Vec<u8>,
        BpxError,
    >) {
        match self.find_version(path, version) {
            Some(i) => {
                proof {
                    lemma_assoc_value(self.history_pairs(), i as int);
                }
                Ok(slice_to_vec(self.versions[i].2.as_slice()))
            },
            None => {
                proof {
                    lemma_assoc_contains(self.history_pairs(), (path@, version@));
                }
                Err(
                    BpxError::ClientStateNotFound {
                        client_id: SessionId::new(
                            path.as_str().to_owned().concat("@").concat(version.as_str()),
                        ),
                    },
                )
            },
        }
    }

    fn store_version(&mut self, path: ResourcePath, version: Version, content: Vec<u8>) {
        InMemoryResourceStore::store_version(self, path, version, content)
    }
}

/// What the pipeline promises of the state stores after a served request:
/// the session — echoed or, where the supplied identifier was absent or
/// dead, a freshly minted `sess_<hex>` one — now records the current
/// version for the requested path, and is freshly touched.
pub open spec fn spec_state_update_ok<S: StateManager>(
    req: BpxRequest,
    state0: S,
    state1: S,
    sid: Seq<char>,
    cur: Seq<char>,
    now_ms: u64,
) -> bool {
    &&& state1.ttl_ms() == state0.ttl_ms()
    &&& state1.sessions().contains_key(sid)
    &&& (req.session_id matches Some(s) ==> (state0.sessions().contains_key(s@) ==> sid == s@
        && state1.sessions() == state0.sessions().insert(
        s@,
        SessionModel {
            resources: state0.sessions()[s@].resources.insert(req.path@, cur),
            last_accessed: now_ms,
        },
    )))
    &&& ((match req.session_id {
        Some(s) => !state0.sessions().contains_key(s@),
        None => true,
    }) ==> ({
        &&& state1.sessions() == state0.sessions().insert(
            sid,
            SessionModel {
                resources: Map::<Seq<char>, Seq<char>>::empty().insert(req.path@, cur),
                last_accessed: now_ms,
            },
        )
        &&& sid.len() > 5
        &&& sid.subrange(0, 5) == "sess_"@
        &&& exists|e: u64| sid == "sess_"@ + #[trigger] spec_hex(e)
    }))
}

/// The conditions under which the pipeline may answer with a diff, and
/// what then holds of the diff: the client supplied a matching, recorded,
/// non-current base version; it accepts the binary delta format; both
/// sides fit the size ceiling; and the diff is worthwhile and reconstructs
/// the current content from the stored base under the engine.
pub open spec fn spec_diff_mode_ok<S: StateManager, D: DiffEngine, R: ResourceStore>(
    req: BpxRequest,
    config: BpxConfig,
    engine: D,
    state0: S,
    store0: R,
    format: DiffFormat,
    data: Seq<u8>,
) -> bool {
    let content = store0.currents()[req.path@];
    &&& format == DiffFormat::BinaryDelta
    &&& req.accepted_formats@.contains(DiffFormat::BinaryDelta)
    &&& (req.base_version matches Some(bv) && {
        let base = store0.history()[(req.path@, bv@)];
        &&& bv@ != spec_version_of(content)
        &&& store0.history().contains_key((req.path@, bv@))
        &&& (req.session_id matches Some(s) && state0.sessions().contains_key(s@)
            && state0.sessions()[s@].resources.contains_key(req.path@)
            && state0.sessions()[s@].resources[req.path@] == bv@)
        &&& base.len() <= config.max_diff_size
        &&& content.len() <= config.max_diff_size
        &&& engine.diff_ok(base, content, data)
        &&& engine.worthwhile_spec(content.len() as int, data.len() as int)
    })
}

/// Everything the pipeline promises of a served response and the stores it
/// updated.
pub open spec fn spec_pipeline_ok<S: StateManager, D: DiffEngine, R: ResourceStore>(
    req: BpxRequest,
    config: BpxConfig,
    engine: D,
    state0: S,
    state1: S,
    store0: R,
    store1: R,
    resp: BpxResponse,
    now_ms: u64,
) -> bool {
    let content = store0.currents()[req.path@];
    let cur = spec_version_of(content);
    &&& resp.version@ == cur
    &&& resp.cache_ttl_secs is None
    &&& resp.session_id is Some
    &&& store1.currents() == store0.currents()
    &&& store1.history() == store0.history().insert((req.path@, cur), content)
    &&& (resp.body matches ResponseBody::Full(c) ==> c@ == content)
    &&& (resp.body matches ResponseBody::Diff { format, data } ==> spec_diff_mode_ok(
        req,
        config,
        engine,
        state0,
        store0,
        format,
        data@,
    ))
    &&& (resp.session_id matches Some(sid) ==> spec_state_update_ok(
        req,
        state0,
        state1,
        sid@,
        cur,
        now_ms,
    ))
}

/// A full-content response carrying the given version and session.
fn full_response(version: &Version, content: &[u8], session_id: &SessionId) -> (r: BpxResponse)
    ensures
        r.version@ == version@,
        r.body matches ResponseBody::Full(c) && c@ == content@,
        r.cache_ttl_secs is None,
        r.session_id matches Some(s) && s@ == session_id@,
{
    BpxResponse::full(version.clone(), slice_to_vec(content)).with_session(session_id.clone())
}

/// Handle one BPX request against the given stores.
///
/// The current content is fetched (a missing resource is the only
/// request-level failure), the session is resolved, a diff is sent exactly
/// when the client's recorded base version matches, differs from the
/// current version, is still stored, fits the size ceiling, and yields a
/// worthwhile diff; otherwise the full content is sent. The session record
/// and the version history are then updated.
pub fn handle_bpx_request<S: StateManager, D: DiffEngine, R: ResourceStore>(
    req: &BpxRequest,
    config: &BpxConfig,
    state_mgr: &mut S,
    diff_engine: &D,
    resource_store: &mut R,
    now_ms: u64,
) -> (r: Result<BpxResponse, BpxError>)
    requires
        old(state_mgr).wf(),
        old(resource_store).wf(),
    ensures
        final(state_mgr).wf(),
        final(resource_store).wf(),
        r is Ok <==> old(resource_store).currents().contains_key(req.path@),
        r matches Err(e) ==> {
            &&& e matches BpxError::ClientStateNotFound { .. }
            &&& final(state_mgr).sessions() == old(state_mgr).sessions()
            &&& final(state_mgr).ttl_ms() == old(state_mgr).ttl_ms()
            &&& final(resource_store).currents() == old(resource_store).currents()
            &&& final(resource_store).history() == old(resource_store).history()
        },
        r matches Ok(resp) ==> spec_pipeline_ok(
            *req,
            *config,
            *diff_engine,
            *old(state_mgr),
            *final(state_mgr),
            *old(resource_store),
            *final(resource_store),
            resp,
            now_ms,
        ),
{
    let current_content = match resource_store.get_resource(&req.path) {
        Ok(c) => c,
        Err(e) => {
            return Err(e);
        },
    };
    let current_version = Version::from_content(current_content.as_slice());
    let supplied: Option<SessionId> = match &req.session_id {
        Some(s) => Some(s.clone()),
        None => None,
    };
    let session_id = state_mgr.get_or_create_session(supplied, now_ms);
    let ghost state1 = *state_mgr;
    let client_accepts_binary = req.accepts(DiffFormat::BinaryDelta);
    let response: BpxResponse = match &req.base_version {
        Some(base_version) => {
            match state_mgr.get_version(&session_id, &req.path) {
                Some(stored_version) => {
                    let versions_match = stored_version == *base_version;
                    let content_changed = !(stored_version == current_version);
                    if versions_match && content_changed && client_accepts_binary {
                        proof {
                            // A fresh session has no recorded versions, so a
                            // recorded version means the supplied session was
                            // live and its records are the old ones.
                            if !(&req.session_id matches Some(s)
                                && old(state_mgr).sessions().contains_key(s@)) {
                                assert(state1.sessions()[session_id@].resources
                                    =~= Map::<Seq<char>, Seq<char>>::empty());
                                assert(false);
                            }
                        }
                        match resource_store.get_resource_version(&req.path, base_version) {
                            Ok(base_content) => {
                                if base_content.len() > config.max_diff_size
                                    || current_content.len() > config.max_diff_size {
                                    full_response(
                                        &current_version,
                                        current_content.as_slice(),
                                        &session_id,
                                    )
                                } else {
                                    match diff_engine.compute_diff(
                                        base_content.as_slice(),
                                        current_content.as_slice(),
                                    ) {
                                        Ok(diff_data) => {
                                            if diff_engine.is_diff_worthwhile(
                                                current_content.len(),
                                                diff_data.len(),
                                            ) {
                                                BpxResponse::diff(
                                                    current_version.clone(),
                                                    DiffFormat::BinaryDelta,
                                                    diff_data,
                                                ).with_session(session_id.clone())
                                            } else {
                                                full_response(
                                                    &current_version,
                                                    current_content.as_slice(),
                                                    &session_id,
                                                )
                                            }
                                        },
                                        Err(_) => full_response(
                                            &current_version,
                                            current_content.as_slice(),
                                            &session_id,
                                        ),
                                    }
                                }
                            },
                            Err(_) => full_response(
                                &current_version,
                                current_content.as_slice(),
                                &session_id,
                            ),
                        }
                    } else {
                        full_response(&current_version, current_content.as_slice(), &session_id)
                    }
                },
                None => full_response(&current_version, current_content.as_slice(), &session_id),
            }
        },
        None => full_response(&current_version, current_content.as_slice(), &session_id),
    };
    state_mgr.set_version(&session_id, &req.path, current_version.clone());
    resource_store.store_version(
        req.path.clone(),
        current_version.clone(),
        slice_to_vec(current_content.as_slice()),
    );
    proof {
        let cur = spec_version_of(old(resource_store).currents()[req.path@]);
        match &req.session_id {
            Some(s) => {
                if old(state_mgr).sessions().contains_key(s@) {
                    assert(final(state_mgr).sessions() =~= old(state_mgr).sessions().insert(
                        s@,
                        SessionModel {
                            resources: old(state_mgr).sessions()[s@].resources.insert(
                                req.path@,
                                cur,
                            ),
                            last_accessed: now_ms,
                        },
                    ));
                } else {
                    assert(final(state_mgr).sessions() =~= old(state_mgr).sessions().insert(
                        session_id@,
                        SessionModel {
                            resources: Map::<Seq<char>, Seq<char>>::empty().insert(req.path@, cur),
                            last_accessed: now_ms,
                        },
                    ));
                }
            },
            None => {
                assert(final(state_mgr).sessions() =~= old(state_mgr).sessions().insert(
                    session_id@,
                    SessionModel {
                        resources: Map::<Seq<char>, Seq<char>>::empty().insert(req.path@, cur),
                        last_accessed: now_ms,
                    },
                ));
            },
        }
    }
    Ok(response)
}

/// The response headers the pipeline emits, in order: the current version,
/// the session to echo, the diff type with size metadata, and an optional
/// cache TTL.
pub open spec fn spec_response_headers(resp: BpxResponse, original_size: int) -> Seq<
    (Seq<char>, Seq<char>),
> {
    seq![("X-Resource-Version"@, resp.version@)] + (match resp.session_id {
        Some(s) => seq![("X-BPX-Session"@, s@)],
        None => Seq::empty(),
    }) + (match resp.body {
        ResponseBody::Full(c) => seq![
            ("X-Diff-Type"@, "full"@),
            ("X-Original-Size"@, spec_dec(c@.len() as u64)),
        ],
        ResponseBody::Diff { format, data } => seq![
            ("X-Diff-Type"@, format.spec_token()),
            ("X-Original-Size"@, spec_dec(original_size as u64)),
            ("X-Diff-Size"@, spec_dec(data@.len() as u64)),
        ],
    }) + (match resp.cache_ttl_secs {
        Some(t) => seq![("X-BPX-Cache-TTL"@, spec_dec(t))],
        None => Seq::empty(),
    })
}

/// The name/value views of a header list.
pub open spec fn header_views(hs: Seq<(String, String)>) -> Seq<(Seq<char>, Seq<char>)> {
    Seq::new(hs.len(), |i: int| (hs[i].0@, hs[i].1@))
}

/// Render the response headers for a BPX response, given the byte length
/// of the full current resource.
pub fn response_header_fields(response: &BpxResponse, original_size: usize) -> (hs: Vec<
    (String, String),
>)
    ensures
        header_views(hs@) == spec_response_headers(*response, original_size as int),
{
    let mut hs: Vec<(String, String)> = Vec::new();
    hs.push(("X-Resource-Version".to_owned(), response.version.as_str().to_owned()));
    match &response.session_id {
        Some(s) => {
            hs.push(("X-BPX-Session".to_owned(), s.as_str().to_owned()));
        },
        None => {},
    }
    match &response.body {
        ResponseBody::Full(content) => {
            hs.push(("X-Diff-Type".to_owned(), "full".to_owned()));
            hs.push(("X-Original-Size".to_owned(), dec_u64(content.len() as u64)));
        },
        ResponseBody::Diff { format, data } => {
            hs.push(("X-Diff-Type".to_owned(), format.as_str().to_owned()));
            hs.push(("X-Original-Size".to_owned(), dec_u64(original_size as u64)));
            hs.push(("X-Diff-Size".to_owned(), dec_u64(data.len() as u64)));
        },
    }
    match &response.cache_ttl_secs {
        Some(t) => {
            hs.push(("X-BPX-Cache-TTL".to_owned(), dec_u64(*t)));
        },
        None => {},
    }
    proof {
        assert(header_views(hs@) =~= spec_response_headers(*response, original_size as int));
    }
    hs
}

} // verus!
