//! Association lists with unique keys, the executable backing of the
//! library's maps, together with the lemmas that connect an entry list to
//! the mathematical `Map` it denotes.
use vstd::prelude::*;

verus! {

/// True when no key appears twice in the entry list.
pub open spec fn keys_unique<K, V>(s: Seq<(K, V)>) -> bool {
    forall|i: int, j: int|
        #![trigger s[i], s[j]]
        0 <= i < j < s.len() ==> s[i].0 != s[j].0
}

/// True when some entry of the list carries the key `k`.
pub open spec fn has_key<K, V>(s: Seq<(K, V)>, k: K) -> bool {
    exists|i: int| 0 <= i < s.len() && (#[trigger] s[i]).0 == k
}

pub open spec fn key_index<K, V>(s: Seq<(K, V)>, k: K) -> int {
    choose|i: int| 0 <= i < s.len() && (#[trigger] s[i]).0 == k
}

/// The mapping an entry list denotes (well defined when keys are unique).
pub open spec fn map_of<K, V>(s: Seq<(K, V)>) -> Map<K, V> {
    Map::new(|k: K| has_key(s, k), |k: K| s[key_index(s, k)].1)
}

/// Pushing an element onto a list inserts it into the list's element set.
pub proof fn lemma_push_to_set<A>(s: Seq<A>, x: A)
    ensures
        s.push(x).to_set() == s.to_set().insert(x),
{
    let s2 = s.push(x);
    assert forall|y: A| s2.to_set().contains(y) implies s.to_set().insert(x).contains(y) by {
        let w = choose|w: int| 0 <= w < s2.len() && s2[w] == y;
        if w < s.len() {
            assert(s[w] == y);
        }
    }
    assert forall|y: A| s.to_set().insert(x).contains(y) implies s2.to_set().contains(y) by {
        if y == x {
            assert(s2[s.len() as int] == y);
        } else {
            let w = choose|w: int| 0 <= w < s.len() && s[w] == y;
            assert(s2[w] == y);
        }
    }
    assert(s2.to_set() =~= s.to_set().insert(x));
}

pub proof fn lemma_map_of_at<K, V>(s: Seq<(K, V)>, i: int)
    requires
        keys_unique(s),
        0 <= i < s.len(),
    ensures
        map_of(s).contains_key(s[i].0),
        map_of(s)[s[i].0] == s[i].1,
{
    let k = s[i].0;
    assert(has_key(s, k));
    let j = key_index(s, k);
    assert(0 <= j < s.len() && s[j].0 == k);
    if i != j {
        assert(s[i].0 != s[j].0);
    }
}

pub proof fn lemma_map_of_update<K, V>(s: Seq<(K, V)>, i: int, k: K, v: V)
    requires
        keys_unique(s),
        0 <= i < s.len(),
        s[i].0 == k,
    ensures
        keys_unique(s.update(i, (k, v))),
        map_of(s.update(i, (k, v))) == map_of(s).insert(k, v),
{
    let s2 = s.update(i, (k, v));
    assert forall|a: int, b: int|
        #![trigger s2[a], s2[b]]
        0 <= a < b < s2.len() implies s2[a].0 != s2[b].0 by {
        assert(s[a].0 != s[b].0);
        assert(s2[a].0 == s[a].0 && s2[b].0 == s[b].0);
    }
    let m1 = map_of(s2);
    let m2 = map_of(s).insert(k, v);
    assert forall|k2: K| m1.contains_key(k2) implies m2.contains_key(k2) by {
        let w = choose|w: int| 0 <= w < s2.len() && (#[trigger] s2[w]).0 == k2;
        if k2 != k {
            assert(s[w].0 == k2);
            assert(has_key(s, k2));
        }
    }
    assert forall|k2: K| m2.contains_key(k2) implies m1.contains_key(k2) by {
        if k2 == k {
            assert(s2[i].0 == k2);
        } else {
            let w = choose|w: int| 0 <= w < s.len() && (#[trigger] s[w]).0 == k2;
            assert(s2[w].0 == k2);
        }
        assert(has_key(s2, k2));
    }
    assert forall|k2: K| m1.contains_key(k2) implies m1[k2] == m2[k2] by {
        if k2 == k {
            lemma_map_of_at(s2, i);
        } else {
            let w = key_index(s2, k2);
            assert(0 <= w < s2.len() && s2[w].0 == k2);
            assert(w != i);
            assert(s[w] == s2[w]);
            lemma_map_of_at(s, w);
            lemma_map_of_at(s2, w);
        }
    }
    assert(m1 =~= m2);
}

pub proof fn lemma_map_of_push<K, V>(s: Seq<(K, V)>, k: K, v: V)
    requires
        keys_unique(s),
        !has_key(s, k),
    ensures
        keys_unique(s.push((k, v))),
        map_of(s.push((k, v))) == map_of(s).insert(k, v),
{
    let s2 = s.push((k, v));
    assert forall|a: int, b: int|
        #![trigger s2[a], s2[b]]
        0 <= a < b < s2.len() implies s2[a].0 != s2[b].0 by {
        if b == s.len() {
            assert(s2[a] == s[a]);
            if s[a].0 == k {
                assert(has_key(s, k));
            }
        } else {
            assert(s2[a] == s[a] && s2[b] == s[b]);
        }
    }
    let m1 = map_of(s2);
    let m2 = map_of(s).insert(k, v);
    assert forall|k2: K| m1.contains_key(k2) implies m2.contains_key(k2) by {
        let w = choose|w: int| 0 <= w < s2.len() && (#[trigger] s2[w]).0 == k2;
        if k2 != k {
            assert(w < s.len());
            assert(s[w].0 == k2);
            assert(has_key(s, k2));
        }
    }
    assert forall|k2: K| m2.contains_key(k2) implies m1.contains_key(k2) by {
        if k2 == k {
            assert(s2[s.len() as int].0 == k2);
        } else {
            let w = choose|w: int| 0 <= w < s.len() && (#[trigger] s[w]).0 == k2;
            assert(s2[w].0 == k2);
        }
        assert(has_key(s2, k2));
    }
    assert forall|k2: K| m1.contains_key(k2) implies m1[k2] == m2[k2] by {
        if k2 == k {
            lemma_map_of_at(s2, s.len() as int);
        } else {
            let w = key_index(s2, k2);
            assert(0 <= w < s2.len() && s2[w].0 == k2);
            assert(w != s.len());
            assert(s[w] == s2[w]);
            lemma_map_of_at(s, w);
            lemma_map_of_at(s2, w);
        }
    }
    assert(m1 =~= m2);
}

pub proof fn lemma_key_set_card<K, V>(s: Seq<(K, V)>)
    requires
        keys_unique(s),
    ensures
        map_of(s).dom().finite(),
        map_of(s).dom().len() == s.len(),
    decreases s.len(),
{
    if s.len() == 0 {
        assert(map_of(s).dom() =~= Set::<K>::empty());
    } else {
        let t = s.drop_last();
        let last = s.last();
        assert(keys_unique(t)) by {
            assert forall|a: int, b: int|
                #![trigger t[a], t[b]]
                0 <= a < b < t.len() implies t[a].0 != t[b].0 by {
                assert(t[a] == s[a] && t[b] == s[b]);
            }
        }
        lemma_key_set_card(t);
        assert(!has_key(t, last.0)) by {
            if has_key(t, last.0) {
                let w = choose|w: int| 0 <= w < t.len() && (#[trigger] t[w]).0 == last.0;
                assert(s[w] == t[w]);
                assert(s[w].0 == s[s.len() - 1].0);
            }
        }
        assert(map_of(s).dom() =~= map_of(t).dom().insert(last.0)) by {
            assert forall|k: K| has_key(s, k) implies has_key(t, k) || k == last.0 by {
                let w = choose|w: int| 0 <= w < s.len() && (#[trigger] s[w]).0 == k;
                if w < s.len() - 1 {
                    assert(t[w] == s[w]);
                }
            }
            assert forall|k: K| has_key(t, k) implies has_key(s, k) by {
                let w = choose|w: int| 0 <= w < t.len() && (#[trigger] t[w]).0 == k;
                assert(s[w] == t[w]);
            }
            assert(s[s.len() - 1].0 == last.0);
        }
    }
}

} // verus!
