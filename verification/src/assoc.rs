//! Association lists and the mapping they denote.
//!
//! The in-memory stores keep their entries in vectors of key/value pairs
//! with pairwise-distinct keys; contracts speak of the [`Map`] those pairs
//! denote.

use vstd::prelude::*;

verus! {

/// The mapping an association list denotes; later entries win.
pub open spec fn assoc_map<K, V>(s: Seq<(K, V)>) -> Map<K, V>
    decreases s.len(),
{
    if s.len() == 0 {
        Map::empty()
    } else {
        assoc_map(s.drop_last()).insert(s.last().0, s.last().1)
    }
}

/// Whether the keys of an association list are pairwise distinct.
pub open spec fn assoc_unique<K, V>(s: Seq<(K, V)>) -> bool {
    forall|i: int, j: int| 0 <= i < j < s.len() ==> (#[trigger] s[i]).0 != (#[trigger] s[j]).0
}

/// A key is in the denoted map exactly when some entry carries it.
pub proof fn lemma_assoc_contains<K, V>(s: Seq<(K, V)>, k: K)
    ensures
        assoc_map(s).contains_key(k) <==> exists|i: int|
            0 <= i < s.len() && (#[trigger] s[i]).0 == k,
    decreases s.len(),
{
    if s.len() > 0 {
        lemma_assoc_contains(s.drop_last(), k);
        if s.last().0 == k {
            assert(s[s.len() - 1].0 == k);
        } else {
            if exists|i: int| 0 <= i < s.len() && (#[trigger] s[i]).0 == k {
                let i = choose|i: int| 0 <= i < s.len() && (#[trigger] s[i]).0 == k;
                assert(i < s.len() - 1);
                assert(s.drop_last()[i] == s[i]);
            }
            if exists|i: int| 0 <= i < s.drop_last().len() && (#[trigger] s.drop_last()[i]).0
                == k {
                let i = choose|i: int|
                    0 <= i < s.drop_last().len() && (#[trigger] s.drop_last()[i]).0 == k;
                assert(s[i] == s.drop_last()[i]);
            }
        }
    }
}

/// With distinct keys, the denoted map sends each entry's key to its value.
pub proof fn lemma_assoc_value<K, V>(s: Seq<(K, V)>, i: int)
    requires
        assoc_unique(s),
        0 <= i < s.len(),
    ensures
        assoc_map(s).contains_key(s[i].0),
        assoc_map(s)[s[i].0] == s[i].1,
    decreases s.len(),
{
    if i == s.len() - 1 {
        assert(s.last() == s[i]);
    } else {
        assert forall|a: int, b: int| 0 <= a < b < s.drop_last().len() implies (#[trigger] s
            .drop_last()[a]).0 != (#[trigger] s.drop_last()[b]).0 by {
            assert(s.drop_last()[a] == s[a]);
            assert(s.drop_last()[b] == s[b]);
        }
        assert(s.drop_last()[i] == s[i]);
        lemma_assoc_value(s.drop_last(), i);
        assert(s[i].0 != s[s.len() - 1].0);
        assert(s.last() == s[s.len() - 1]);
    }
}

/// Appending a pair denotes inserting it into the map.
pub proof fn lemma_assoc_push<K, V>(s: Seq<(K, V)>, e: (K, V))
    ensures
        assoc_map(s.push(e)) == assoc_map(s).insert(e.0, e.1),
{
    assert(s.push(e).drop_last() =~= s);
    assert(s.push(e).last() == e);
}

/// Replacing an entry in place, keeping its key, denotes inserting the new
/// value at that key.
pub proof fn lemma_assoc_update<K, V>(s: Seq<(K, V)>, i: int, e: (K, V))
    requires
        assoc_unique(s),
        0 <= i < s.len(),
        e.0 == s[i].0,
    ensures
        assoc_map(s.update(i, e)) == assoc_map(s).insert(e.0, e.1),
    decreases s.len(),
{
    let t = s.update(i, e);
    if i == s.len() - 1 {
        assert(t.drop_last() =~= s.drop_last());
        assert(t.last() == e);
        assert(assoc_map(s.drop_last()).insert(s.last().0, s.last().1).insert(e.0, e.1)
            =~= assoc_map(s.drop_last()).insert(e.0, e.1));
    } else {
        assert forall|a: int, b: int| 0 <= a < b < s.drop_last().len() implies (#[trigger] s
            .drop_last()[a]).0 != (#[trigger] s.drop_last()[b]).0 by {
            assert(s.drop_last()[a] == s[a]);
            assert(s.drop_last()[b] == s[b]);
        }
        assert(s.drop_last()[i] == s[i]);
        lemma_assoc_update(s.drop_last(), i, e);
        assert(t.drop_last() =~= s.drop_last().update(i, e));
        assert(t.last() == s.last());
        assert(s[i].0 != s[s.len() - 1].0);
        assert(s.last() == s[s.len() - 1]);
        assert(assoc_map(s.drop_last()).insert(e.0, e.1).insert(s.last().0, s.last().1)
            =~= assoc_map(s.drop_last()).insert(s.last().0, s.last().1).insert(e.0, e.1));
    }
}

/// With distinct keys, the denoted map has exactly one key per entry.
pub proof fn lemma_assoc_dom_len<K, V>(s: Seq<(K, V)>)
    requires
        assoc_unique(s),
    ensures
        assoc_map(s).dom().finite(),
        assoc_map(s).dom().len() == s.len(),
    decreases s.len(),
{
    if s.len() == 0 {
        assert(assoc_map(s).dom() =~= Set::<K>::empty());
    } else {
        assert forall|a: int, b: int| 0 <= a < b < s.drop_last().len() implies (#[trigger] s
            .drop_last()[a]).0 != (#[trigger] s.drop_last()[b]).0 by {
            assert(s.drop_last()[a] == s[a]);
            assert(s.drop_last()[b] == s[b]);
        }
        lemma_assoc_dom_len(s.drop_last());
        lemma_assoc_contains(s.drop_last(), s.last().0);
        assert forall|i: int| 0 <= i < s.drop_last().len() implies (#[trigger] s.drop_last()[i]).0
            != s.last().0 by {
            assert(s.drop_last()[i] == s[i]);
            assert(s.last() == s[s.len() - 1]);
        }
        assert(!assoc_map(s.drop_last()).contains_key(s.last().0));
        assert(assoc_map(s).dom() =~= assoc_map(s.drop_last()).dom().insert(s.last().0));
    }
}

/// A sublist that picks out, through the strictly increasing index list
/// `src`, exactly the entries satisfying `keep` denotes the original map
/// restricted to the kept keys.
pub proof fn lemma_assoc_filter<K, V>(
    old_p: Seq<(K, V)>,
    new_p: Seq<(K, V)>,
    src: Seq<int>,
    keep: spec_fn((K, V)) -> bool,
)
    requires
        assoc_unique(old_p),
        src.len() == new_p.len(),
        forall|l: int|
            0 <= l < src.len() ==> 0 <= #[trigger] src[l] < old_p.len() && new_p[l]
                == old_p[src[l]] && keep(old_p[src[l]]),
        forall|l1: int, l2: int| 0 <= l1 < l2 < src.len() ==> #[trigger] src[l1] < #[trigger] src[l2],
        forall|k: int|
            0 <= k < old_p.len() && keep(#[trigger] old_p[k]) ==> exists|l: int|
                0 <= l < src.len() && #[trigger] src[l] == k,
    ensures
        assoc_unique(new_p),
        forall|key: K|
            assoc_map(new_p).contains_key(key) <==> (#[trigger] assoc_map(old_p).contains_key(key)
                && keep((key, assoc_map(old_p)[key]))),
        forall|key: K| #[trigger]
            assoc_map(new_p).contains_key(key) ==> assoc_map(new_p)[key] == assoc_map(old_p)[key],
{
    assert forall|a: int, b: int| 0 <= a < b < new_p.len() implies (#[trigger] new_p[a]).0 != (
    #[trigger] new_p[b]).0 by {
        assert(src[a] < src[b]);
        assert(new_p[a] == old_p[src[a]]);
        assert(new_p[b] == old_p[src[b]]);
    }
    assert forall|key: K|
        assoc_map(new_p).contains_key(key) <==> (#[trigger] assoc_map(old_p).contains_key(key)
            && keep((key, assoc_map(old_p)[key]))) by {
        assoc_filter_key_case(old_p, new_p, src, keep, key);
    }
    assert forall|key: K| #[trigger] assoc_map(new_p).contains_key(key) implies assoc_map(
        new_p,
    )[key] == assoc_map(old_p)[key] by {
        assoc_filter_key_case(old_p, new_p, src, keep, key);
    }
}

/// One key's worth of [`lemma_assoc_filter`].
proof fn assoc_filter_key_case<K, V>(
    old_p: Seq<(K, V)>,
    new_p: Seq<(K, V)>,
    src: Seq<int>,
    keep: spec_fn((K, V)) -> bool,
    key: K,
)
    requires
        assoc_unique(old_p),
        assoc_unique(new_p),
        src.len() == new_p.len(),
        forall|l: int|
            0 <= l < src.len() ==> 0 <= #[trigger] src[l] < old_p.len() && new_p[l]
                == old_p[src[l]] && keep(old_p[src[l]]),
        forall|k: int|
            0 <= k < old_p.len() && keep(#[trigger] old_p[k]) ==> exists|l: int|
                0 <= l < src.len() && #[trigger] src[l] == k,
    ensures
        assoc_map(new_p).contains_key(key) <==> (assoc_map(old_p).contains_key(key) && keep(
            (key, assoc_map(old_p)[key]),
        )),
        assoc_map(new_p).contains_key(key) ==> assoc_map(new_p)[key] == assoc_map(old_p)[key],
{
    lemma_assoc_contains(new_p, key);
    lemma_assoc_contains(old_p, key);
    if assoc_map(new_p).contains_key(key) {
        let l = choose|l: int| 0 <= l < new_p.len() && (#[trigger] new_p[l]).0 == key;
        assert(new_p[l] == old_p[src[l]]);
        lemma_assoc_value(new_p, l);
        lemma_assoc_value(old_p, src[l]);
        assert((key, assoc_map(old_p)[key]) == old_p[src[l]]);
    } else {
        if assoc_map(old_p).contains_key(key) && keep((key, assoc_map(old_p)[key])) {
            let k = choose|k: int| 0 <= k < old_p.len() && (#[trigger] old_p[k]).0 == key;
            lemma_assoc_value(old_p, k);
            assert(old_p[k] == (key, assoc_map(old_p)[key]));
            let l = choose|l: int| 0 <= l < src.len() && #[trigger] src[l] == k;
            assert(new_p[l].0 == key);
        }
    }
}

} // verus!
