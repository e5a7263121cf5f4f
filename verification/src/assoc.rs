//! Association lists with unique 64-bit keys, viewed as maps.
//!
//! Several components keep small keyed tables (pending requests, the
//! per-client sequence table); this module gives them one verified shape.

use vstd::prelude::*;

verus! {

/// The map a list of pairs denotes; a later pair would win, though every
/// user keeps keys unique.
pub open spec fn assoc_map<V>(s: Seq<(u64, V)>) -> Map<u64, V>
    decreases s.len(),
{
    if s.len() == 0 {
        Map::empty()
    } else {
        assoc_map(s.drop_last()).insert(s.last().0, s.last().1)
    }
}

/// No two pairs hold the same key.
pub open spec fn assoc_unique<V>(s: Seq<(u64, V)>) -> bool {
    forall|i: int, j: int| 0 <= i < j < s.len() ==> s[i].0 != s[j].0
}

/// With unique keys the denoted map is exactly: one binding per pair.
pub proof fn lemma_assoc_map_index<V>(s: Seq<(u64, V)>)
    requires
        assoc_unique(s),
    ensures
        forall|k: u64| assoc_map(s).dom().contains(k) <==> exists|i: int| 0 <= i < s.len() && s[i].0 == k,
        forall|i: int|
            0 <= i < s.len() ==> assoc_map(s).dom().contains(#[trigger] s[i].0) && assoc_map(s)[s[i].0]
                == s[i].1,
    decreases s.len(),
{
    if s.len() > 0 {
        let s0 = s.drop_last();
        assert(assoc_unique(s0)) by {
            assert(forall|i: int| 0 <= i < s0.len() ==> s0[i] == s[i]);
        }
        lemma_assoc_map_index(s0);
        assert forall|i: int| 0 <= i < s.len() implies assoc_map(s).dom().contains(
            #[trigger] s[i].0,
        ) && assoc_map(s)[s[i].0] == s[i].1 by {
            if i < s.len() - 1 {
                assert(s0[i] == s[i]);
                assert(s[i].0 != s.last().0);
            }
        }
        assert forall|k: u64| assoc_map(s).dom().contains(k) implies exists|i: int|
            0 <= i < s.len() && s[i].0 == k by {
            if k != s.last().0 {
                assert(assoc_map(s0).dom().contains(k));
                let i = choose|i: int| 0 <= i < s0.len() && s0[i].0 == k;
                assert(s0[i] == s[i]);
                assert(s[i].0 == k);
            } else {
                assert(s[s.len() - 1].0 == k);
            }
        }
    }
}

/// Removing the pair at `i` removes exactly its key from the map.
pub proof fn lemma_assoc_map_remove<V>(s: Seq<(u64, V)>, i: int)
    requires
        assoc_unique(s),
        0 <= i < s.len(),
    ensures
        assoc_map(s.remove(i)) == assoc_map(s).remove(s[i].0),
        assoc_unique(s.remove(i)),
    decreases s.len(),
{
    let t = s.remove(i);
    assert(assoc_unique(t)) by {
        assert forall|a: int, b: int| 0 <= a < b < t.len() implies t[a].0 != t[b].0 by {
            let a2 = if a < i {
                a
            } else {
                a + 1
            };
            let b2 = if b < i {
                b
            } else {
                b + 1
            };
            assert(t[a] == s[a2] && t[b] == s[b2]);
        }
    }
    if i == s.len() - 1 {
        assert(t =~= s.drop_last());
        lemma_assoc_map_index(s);
        lemma_assoc_map_index(t);
        assert forall|k: u64| true implies #[trigger] assoc_map(t).contains_key(k) == assoc_map(
            s,
        ).remove(s[i].0).contains_key(k) && (assoc_map(t).contains_key(k) ==> assoc_map(t)[k]
            == assoc_map(s).remove(s[i].0)[k]) by {
            if k == s[i].0 {
                if assoc_map(t).contains_key(k) {
                    let j = choose|j: int| 0 <= j < t.len() && t[j].0 == k;
                    assert(s[j].0 == k);
                    assert(false);
                }
            } else {
                if assoc_map(t).contains_key(k) {
                    let j = choose|j: int| 0 <= j < t.len() && t[j].0 == k;
                    assert(s[j].0 == k);
                    assert(assoc_map(s)[k] == s[j].1 && assoc_map(t)[k] == t[j].1);
                } else {
                    if assoc_map(s).contains_key(k) {
                        let j = choose|j: int| 0 <= j < s.len() && s[j].0 == k;
                        assert(j < s.len() - 1);
                        assert(t[j].0 == k);
                        assert(false);
                    }
                }
            }
        }
        assert(assoc_map(t) =~= assoc_map(s).remove(s[i].0));
    } else {
        let s0 = s.drop_last();
        assert(assoc_unique(s0)) by {
            assert(forall|a: int| 0 <= a < s0.len() ==> s0[a] == s[a]);
        }
        lemma_assoc_map_remove(s0, i);
        assert(t.drop_last() =~= s0.remove(i));
        assert(t.last() == s.last());
        assert(assoc_map(t) == assoc_map(s0.remove(i)).insert(s.last().0, s.last().1));
        assert(assoc_map(s0.remove(i)) == assoc_map(s0).remove(s[i].0));
        assert(assoc_map(s) == assoc_map(s0).insert(s.last().0, s.last().1));
        assert(s.last().0 != s[i].0);
        assert(assoc_map(s0).remove(s[i].0).insert(s.last().0, s.last().1) =~= assoc_map(
            s0,
        ).insert(s.last().0, s.last().1).remove(s[i].0));
    }
}

/// The position of the pair that holds `k`, if any.
pub fn assoc_find<V>(v: &Vec<(u64, V)>, k: u64) -> (r: Option<usize>)
    ensures
        match r {
            Some(i) => i < v@.len() && v@[i as int].0 == k,
            None => forall|j: int| 0 <= j < v@.len() ==> v@[j].0 != k,
        },
{
    let n = v.len();
    let mut i: usize = 0;
    while i < n
        invariant
            n == v@.len(),
            i <= n,
            forall|j: int| 0 <= j < i ==> v@[j].0 != k,
        decreases n - i,
    {
        if v[i].0 == k {
            return Some(i);
        }
        i = i + 1;
    }
    None
}

} // verus!
