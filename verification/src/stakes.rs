//! The shared stake map: peer to non-negative integer weight, built once
//! at startup from directory data and read-only for the length of a run.
use vstd::prelude::*;

use crate::ids::PeerId;

verus! {

use crate::assoc::{
    keys_unique,
    has_key,
    map_of,
    lemma_map_of_at,
    lemma_map_of_push,
    lemma_map_of_update,
    lemma_key_set_card,
};

/// The stake a map assigns a peer; unknown peers count as zero.
pub open spec fn stake_of(m: Map<PeerId, u64>, p: PeerId) -> u64 {
    if m.contains_key(p) {
        m[p]
    } else {
        0u64
    }
}

/// The summed stake a pair list assigns a peer.
pub open spec fn sum_for(s: Seq<(PeerId, u64)>, p: PeerId) -> int
    decreases s.len(),
{
    if s.len() == 0 {
        0int
    } else {
        sum_for(s.drop_last(), p) + if s.last().0 == p {
            s.last().1 as int
        } else {
            0int
        }
    }
}

proof fn lemma_sum_for_take(s: Seq<(PeerId, u64)>, i: int, p: PeerId)
    requires
        0 <= i <= s.len(),
    ensures
        sum_for(s.take(i), p) <= sum_for(s, p),
        sum_for(s.take(i), p) >= 0,
    decreases s.len() - i,
{
    lemma_sum_for_nonneg(s.take(i), p);
    if i == s.len() {
        assert(s.take(i) =~= s);
    } else {
        assert(s.take(i + 1).drop_last() =~= s.take(i));
        assert(s.take(i + 1).last() == s[i]);
        lemma_sum_for_take(s, i + 1, p);
    }
}

proof fn lemma_sum_for_nonneg(s: Seq<(PeerId, u64)>, p: PeerId)
    ensures
        sum_for(s, p) >= 0,
    decreases s.len(),
{
    if s.len() > 0 {
        lemma_sum_for_nonneg(s.drop_last(), p);
    }
}

/// Read-only mapping from peer to stake.
pub struct Stakes {
    entries: Vec<(PeerId, u64)>,
}

impl View for Stakes {
    type V = Map<PeerId, u64>;

    closed spec fn view(&self) -> Map<PeerId, u64> {
        map_of(self.entries@)
    }
}

impl Stakes {
    /// Well-formedness: no peer is listed twice.
    pub closed spec fn wf(&self) -> bool {
        keys_unique(self.entries@)
    }

    /// Groups a list of (peer, stake) pairs into the stake map, summing
    /// the stakes that the list assigns to the same peer.
    pub fn aggregate(pairs: &Vec<(PeerId, u64)>) -> (r: Stakes)
        requires
            forall|p: PeerId| sum_for(pairs@, p) <= u64::MAX,
        ensures
            r.wf(),
            forall|p: PeerId| stake_of(r@, p) == sum_for(pairs@, p),
            forall|p: PeerId| #[trigger] r@.contains_key(p) <==> has_key(pairs@, p),
    {
        let n = pairs.len();
        let mut r = Stakes { entries: Vec::new() };
        let mut i: usize = 0;
        proof {
            assert(r@ =~= Map::<PeerId, u64>::empty());
        }
        while i < n
            invariant
                n == pairs@.len(),
                i <= n,
                r.wf(),
                forall|p: PeerId| sum_for(pairs@, p) <= u64::MAX,
                forall|p: PeerId| stake_of(r@, p) == sum_for(pairs@.take(i as int), p),
                forall|p: PeerId| #[trigger]
                    r@.contains_key(p) <==> has_key(pairs@.take(i as int), p),
            decreases n - i,
        {
            let (peer, stake) = pairs[i];
            let ghost pre = r@;
            let ghost prefix = pairs@.take(i as int);
            proof {
                assert(pairs@.take(i + 1).drop_last() =~= prefix);
                assert(pairs@.take(i + 1).last() == pairs@[i as int]);
                lemma_sum_for_take(pairs@, i + 1, peer);
            }
            // find the peer among the entries built so far
            let m = r.entries.len();
            let mut j: usize = 0;
            let mut found = false;
            while j < m
                invariant_except_break
                    m == r.entries@.len(),
                    j <= m,
                    !found,
                    forall|w: int| 0 <= w < j ==> (#[trigger] r.entries@[w]).0 != peer,
                ensures
                    (found ==> j < m && r.entries@[j as int].0 == peer),
                    (!found ==> !has_key(r.entries@, peer)),
                decreases m - j,
            {
                if r.entries[j].0 == peer {
                    found = true;
                    break ;
                }
                j += 1;
            }
            if found {
                proof {
                    lemma_map_of_at(r.entries@, j as int);
                    assert(stake_of(pre, peer) == r.entries@[j as int].1);
                }
                let updated = r.entries[j].1 + stake;
                proof {
                    lemma_map_of_update(r.entries@, j as int, peer, updated);
                }
                r.entries[j] = (peer, updated);
            } else {
                proof {
                    lemma_map_of_push(r.entries@, peer, stake);
                    assert(stake_of(pre, peer) == 0);
                    assert(sum_for(prefix, peer) == 0);
                }
                r.entries.push((peer, stake));
            }
            proof {
                assert forall|p: PeerId| stake_of(r@, p) == sum_for(
                    pairs@.take(i + 1),
                    p,
                ) by {
                    if p != peer {
                        assert(stake_of(r@, p) == stake_of(pre, p));
                        assert(sum_for(pairs@.take(i + 1), p) == sum_for(prefix, p));
                    }
                }
                assert forall|p: PeerId| #[trigger] r@.contains_key(p) <==> has_key(
                    pairs@.take(i + 1),
                    p,
                ) by {
                    if r@.contains_key(p) {
                        if p != peer {
                            assert(pre.contains_key(p));
                            let w = choose|w: int|
                                0 <= w < prefix.len() && (#[trigger] prefix[w]).0 == p;
                            assert(pairs@.take(i + 1)[w].0 == p);
                        } else {
                            assert(pairs@.take(i + 1)[i as int].0 == p);
                        }
                    }
                    if has_key(pairs@.take(i + 1), p) && p != peer {
                        let w = choose|w: int|
                            0 <= w < pairs@.take(i + 1).len() && (#[trigger] pairs@.take(
                                i + 1,
                            )[w]).0 == p;
                        assert(prefix[w].0 == p);
                        assert(pre.contains_key(p));
                    }
                }
            }
            i += 1;
        }
        proof {
            assert(pairs@.take(n as int) =~= pairs@);
        }
        r
    }

    /// The stake of a peer; zero for a peer the map does not list.
    pub fn get(&self, peer: &PeerId) -> (r: u64)
        requires
            self.wf(),
        ensures
            r == stake_of(self@, *peer),
    {
        let n = self.entries.len();
        let mut i: usize = 0;
        while i < n
            invariant
                n == self.entries@.len(),
                i <= n,
                self.wf(),
                forall|j: int| 0 <= j < i ==> (#[trigger] self.entries@[j]).0 != *peer,
            decreases n - i,
        {
            if self.entries[i].0 == *peer {
                proof {
                    lemma_map_of_at(self.entries@, i as int);
                }
                return self.entries[i].1;
            }
            i += 1;
        }
        proof {
            assert(!has_key(self.entries@, *peer));
        }
        0
    }

    /// How many peers the map lists.
    pub fn len(&self) -> (n: usize)
        requires
            self.wf(),
        ensures
            n == self@.dom().len(),
    {
        proof {
            lemma_key_set_card(self.entries@);
        }
        self.entries.len()
    }

    /// Every listed peer, each exactly once.
    pub fn peers(&self) -> (r: Vec<PeerId>)
        requires
            self.wf(),
        ensures
            r@.no_duplicates(),
            r@.len() == self@.dom().len(),
            forall|i: int| 0 <= i < r@.len() ==> self@.contains_key(#[trigger] r@[i]),
            forall|p: PeerId| #[trigger] self@.contains_key(p) ==> r@.contains(p),
    {
        proof {
            lemma_key_set_card(self.entries@);
        }
        let n = self.entries.len();
        let mut r: Vec<PeerId> = Vec::new();
        let mut i: usize = 0;
        while i < n
            invariant
                n == self.entries@.len(),
                i <= n,
                self.wf(),
                r@.len() == i,
                forall|j: int| 0 <= j < i ==> r@[j] == (#[trigger] self.entries@[j]).0,
            decreases n - i,
        {
            let (peer, _) = self.entries[i];
            r.push(peer);
            i += 1;
        }
        proof {
            assert forall|a: int, b: int| 0 <= a < b < r@.len() implies r@[a] != r@[b] by {
                assert(self.entries@[a].0 != self.entries@[b].0);
            }
            assert forall|i2: int| 0 <= i2 < r@.len() implies self@.contains_key(
                #[trigger] r@[i2],
            ) by {
                lemma_map_of_at(self.entries@, i2);
            }
            assert forall|p: PeerId| #[trigger] self@.contains_key(p) implies r@.contains(p) by {
                let w = choose|w: int|
                    0 <= w < self.entries@.len() && (#[trigger] self.entries@[w]).0 == p;
                assert(r@[w] == p);
            }
        }
        r
    }
}

} // verus!
