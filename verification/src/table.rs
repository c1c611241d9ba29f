//! The per-node versioned record table and its merge rule.
//!
//! The table maps a record key to the highest version seen so far.  The
//! merge rule keeps only the highest version per key, which makes it
//! monotone, commutative and idempotent: the final table depends only on
//! the set of (key, version) pairs merged, not on their order.
use vstd::prelude::*;

use crate::ids::CrdsKey;
use crate::ids::Packet;

verus! {

use vstd::seq_lib::group_to_multiset_ensures;
use crate::assoc::{keys_unique, has_key, map_of, lemma_map_of_at, lemma_map_of_push, lemma_map_of_update, lemma_key_set_card};

/// What a single `merge` call did to the table.
#[derive(Clone, Copy, Debug, PartialEq, Eq, Structural)]
pub enum MergeOutcome {
    /// The key was absent and is now present: fresh information.
    Inserted,
    /// The key was present with a strictly lower version: fresh information.
    Updated,
    /// The stored version was already at least as high: duplicate traffic.
    Outdated,
}

/// One application of the merge rule to the mathematical table.
pub open spec fn merge_step(m: Map<CrdsKey, u64>, k: CrdsKey, v: u64) -> Map<CrdsKey, u64> {
    if !m.contains_key(k) || m[k] < v {
        m.insert(k, v)
    } else {
        m
    }
}

/// The outcome the merge rule reports for a single pair.
pub open spec fn spec_merge_outcome(m: Map<CrdsKey, u64>, k: CrdsKey, v: u64) -> MergeOutcome {
    if !m.contains_key(k) {
        MergeOutcome::Inserted
    } else if m[k] < v {
        MergeOutcome::Updated
    } else {
        MergeOutcome::Outdated
    }
}

/// The table that results from merging the pairs of `s` into `m`, in
/// order.
pub open spec fn merge_seq(m: Map<CrdsKey, u64>, s: Seq<(CrdsKey, u64)>) -> Map<CrdsKey, u64>
    decreases s.len(),
{
    if s.len() == 0 {
        m
    } else {
        merge_step(merge_seq(m, s.drop_last()), s.last().0, s.last().1)
    }
}

/// How many pairs of `s`, merged in order into `m`, were outdated
/// duplicates.
pub open spec fn outdated_count(m: Map<CrdsKey, u64>, s: Seq<(CrdsKey, u64)>) -> nat
    decreases s.len(),
{
    if s.len() == 0 {
        0
    } else {
        outdated_count(m, s.drop_last()) + (if spec_merge_outcome(
            merge_seq(m, s.drop_last()),
            s.last().0,
            s.last().1,
        ) == MergeOutcome::Outdated {
            1nat
        } else {
            0nat
        })
    }
}

/// The keys that carried fresh information (were inserted or updated) at
/// least once while merging the pairs of `s` into `m`, in order.
pub open spec fn touched_set(m: Map<CrdsKey, u64>, s: Seq<(CrdsKey, u64)>) -> Set<CrdsKey>
    decreases s.len(),
{
    if s.len() == 0 {
        Set::empty()
    } else {
        let t = touched_set(m, s.drop_last());
        if spec_merge_outcome(merge_seq(m, s.drop_last()), s.last().0, s.last().1)
            == MergeOutcome::Outdated {
            t
        } else {
            t.insert(s.last().0)
        }
    }
}

/// The (key, version) pairs a batch of packets carries.
pub open spec fn pairs_of(ps: Seq<Packet>) -> Seq<(CrdsKey, u64)> {
    ps.map(|i: int, p: Packet| (p.spec_key(), p.ordinal))
}

/// Merge monotonicity: after any sequence of merges, a key is present
/// exactly when it was present at the start or was merged at least once,
/// and its stored version is the maximum version ever merged for it (or
/// the starting version, when that is higher) — the bound holds for every
/// merged pair and the bound is attained.
pub proof fn lemma_merge_seq_max(m: Map<CrdsKey, u64>, s: Seq<(CrdsKey, u64)>)
    ensures
        forall|k: CrdsKey| #[trigger]
            merge_seq(m, s).contains_key(k) <==> (m.contains_key(k) || has_key(s, k)),
        forall|k: CrdsKey|
            m.contains_key(k) ==> #[trigger] merge_seq(m, s)[k] >= m[k],
        forall|i: int|
            0 <= i < s.len() ==> merge_seq(m, s)[(#[trigger] s[i]).0] >= s[i].1,
        forall|k: CrdsKey| #[trigger]
            merge_seq(m, s).contains_key(k) ==> (m.contains_key(k) && merge_seq(m, s)[k] == m[k])
                || exists|i: int| 0 <= i < s.len() && #[trigger] s[i] == (k, merge_seq(m, s)[k]),
    decreases s.len(),
{
    if s.len() > 0 {
        let t = s.drop_last();
        let last = s.last();
        lemma_merge_seq_max(m, t);
        let mm = merge_seq(m, t);
        let fin = merge_seq(m, s);
        assert(forall|i: int| 0 <= i < t.len() ==> t[i] == s[i]);
        assert(s[s.len() - 1] == last);
        assert forall|k: CrdsKey| #[trigger] fin.contains_key(k) implies (m.contains_key(k)
            || has_key(s, k)) by {
            if k == last.0 {
                assert(s[s.len() - 1].0 == k);
            } else {
                assert(mm.contains_key(k));
                if has_key(t, k) {
                    let w = choose|w: int| 0 <= w < t.len() && (#[trigger] t[w]).0 == k;
                    assert(s[w].0 == k);
                }
            }
        }
        assert forall|k: CrdsKey| (m.contains_key(k) || has_key(s, k)) implies #[trigger]
            fin.contains_key(k) by {
            if m.contains_key(k) {
                assert(mm.contains_key(k));
            } else {
                let w = choose|w: int| 0 <= w < s.len() && (#[trigger] s[w]).0 == k;
                if w < s.len() - 1 {
                    assert(t[w].0 == k);
                    assert(has_key(t, k));
                    assert(mm.contains_key(k));
                }
            }
        }
        assert forall|i: int| 0 <= i < s.len() implies fin[(#[trigger] s[i]).0] >= s[i].1 by {
            if i < s.len() - 1 {
                assert(mm[t[i].0] >= t[i].1);
            }
        }
        assert forall|k: CrdsKey| #[trigger] fin.contains_key(k) && !(m.contains_key(k) && fin[k]
            == m[k]) implies exists|i: int|
            0 <= i < s.len() && #[trigger] s[i] == (k, fin[k]) by {
            if k == last.0 && fin[k] == last.1 {
                assert(s[s.len() - 1] == (k, fin[k]));
            } else {
                assert(fin[k] == mm[k]);
                assert(mm.contains_key(k));
                let w = choose|w: int| 0 <= w < t.len() && #[trigger] t[w] == (k, mm[k]);
                assert(s[w] == (k, fin[k]));
            }
        }
    }
}

/// Merge commutativity: two merge sequences that carry the same multiset
/// of (key, version) pairs — any permutation, duplicates included — leave
/// the table in exactly the same state.
pub proof fn lemma_merge_seq_permutation(
    m: Map<CrdsKey, u64>,
    s1: Seq<(CrdsKey, u64)>,
    s2: Seq<(CrdsKey, u64)>,
)
    requires
        s1.to_multiset() == s2.to_multiset(),
    ensures
        merge_seq(m, s1) == merge_seq(m, s2),
{
    broadcast use group_to_multiset_ensures;

    lemma_merge_seq_max(m, s1);
    lemma_merge_seq_max(m, s2);
    let m1 = merge_seq(m, s1);
    let m2 = merge_seq(m, s2);
    assert forall|p: (CrdsKey, u64)| s1.contains(p) implies s2.contains(p) by {
        assert(s1.to_multiset().count(p) > 0);
    }
    assert forall|p: (CrdsKey, u64)| s2.contains(p) implies s1.contains(p) by {
        assert(s2.to_multiset().count(p) > 0);
    }
    assert forall|k: CrdsKey| m1.contains_key(k) implies m2.contains_key(k) by {
        if has_key(s1, k) {
            let w = choose|w: int| 0 <= w < s1.len() && (#[trigger] s1[w]).0 == k;
            assert(s1.contains(s1[w]));
            assert(s2.contains(s1[w]));
            let w2 = choose|w2: int| 0 <= w2 < s2.len() && s2[w2] == s1[w];
            assert(s2[w2].0 == k);
            assert(has_key(s2, k));
        }
    }
    assert forall|k: CrdsKey| m2.contains_key(k) implies m1.contains_key(k) by {
        if has_key(s2, k) {
            let w = choose|w: int| 0 <= w < s2.len() && (#[trigger] s2[w]).0 == k;
            assert(s2.contains(s2[w]));
            assert(s1.contains(s2[w]));
            let w2 = choose|w2: int| 0 <= w2 < s1.len() && s1[w2] == s2[w];
            assert(s1[w2].0 == k);
            assert(has_key(s1, k));
        }
    }
    assert forall|k: CrdsKey| m1.contains_key(k) implies m1[k] == m2[k] by {
        assert(m1[k] <= m2[k]) by {
            if m.contains_key(k) && m1[k] == m[k] {
            } else {
                let w = choose|w: int| 0 <= w < s1.len() && #[trigger] s1[w] == (k, m1[k]);
                assert(s1.contains(s1[w]));
                assert(s2.contains(s1[w]));
                let w2 = choose|w2: int| 0 <= w2 < s2.len() && s2[w2] == s1[w];
                assert(m2[s2[w2].0] >= s2[w2].1);
            }
        }
        assert(m2[k] <= m1[k]) by {
            if m.contains_key(k) && m2[k] == m[k] {
            } else {
                let w = choose|w: int| 0 <= w < s2.len() && #[trigger] s2[w] == (k, m2[k]);
                assert(s2.contains(s2[w]));
                assert(s1.contains(s2[w]));
                let w2 = choose|w2: int| 0 <= w2 < s1.len() && s1[w2] == s2[w];
                assert(m1[s1[w2].0] >= s1[w2].1);
            }
        }
    }
    assert(m1 =~= m2);
}

/// No lost updates under reordering: two batches of merges (one worker's
/// deliveries and another's) leave the table in the same state whichever
/// is applied first — the concurrency scheme loses no information.
pub proof fn lemma_merge_seq_concat_commutes(
    m: Map<CrdsKey, u64>,
    s1: Seq<(CrdsKey, u64)>,
    s2: Seq<(CrdsKey, u64)>,
)
    ensures
        merge_seq(m, s1 + s2) == merge_seq(m, s2 + s1),
{
    vstd::seq_lib::lemma_multiset_commutative(s1, s2);
    vstd::seq_lib::lemma_multiset_commutative(s2, s1);
    assert((s1 + s2).to_multiset() =~= (s2 + s1).to_multiset());
    lemma_merge_seq_permutation(m, s1 + s2, s2 + s1);
}

/// A batch that carried nothing fresh changed nothing: when no pair was
/// inserted or updated, the table after the merges is the table before.
pub proof fn lemma_merge_seq_untouched(m: Map<CrdsKey, u64>, s: Seq<(CrdsKey, u64)>)
    requires
        touched_set(m, s) == Set::<CrdsKey>::empty(),
    ensures
        merge_seq(m, s) == m,
    decreases s.len(),
{
    if s.len() > 0 {
        let t = s.drop_last();
        let last = s.last();
        let outcome = spec_merge_outcome(merge_seq(m, t), last.0, last.1);
        if outcome != MergeOutcome::Outdated {
            assert(touched_set(m, s).contains(last.0));
        } else {
            lemma_merge_seq_untouched(m, t);
        }
    }
}

/// Merge idempotence: merging once more a pair that the sequence already
/// carries changes nothing.
pub proof fn lemma_merge_seq_idempotent(
    m: Map<CrdsKey, u64>,
    s: Seq<(CrdsKey, u64)>,
    p: (CrdsKey, u64),
)
    requires
        s.contains(p),
    ensures
        merge_seq(m, s.push(p)) == merge_seq(m, s),
{
    lemma_merge_seq_max(m, s);
    let s2 = s.push(p);
    assert(s2.drop_last() =~= s);
    assert(s2.last() == p);
    let w = choose|w: int| 0 <= w < s.len() && s[w] == p;
    assert(merge_seq(m, s)[s[w].0] >= s[w].1);
    assert(merge_seq(m, s).contains_key(p.0)) by {
        assert(has_key(s, p.0));
    }
    assert(merge_seq(m, s2) =~= merge_seq(m, s));
}

/// Mapping from record key to the highest version accepted so far;
/// owned exclusively by one node, no locking inside.
pub struct VersionedTable {
    entries: Vec<(CrdsKey, u64)>,
}

impl View for VersionedTable {
    type V = Map<CrdsKey, u64>;

    closed spec fn view(&self) -> Map<CrdsKey, u64> {
        map_of(self.entries@)
    }
}

impl VersionedTable {
    /// Well-formedness: no record key is stored twice.
    pub closed spec fn wf(&self) -> bool {
        keys_unique(self.entries@)
    }

    /// The number of entries, visible to specifications.
    pub closed spec fn spec_len(&self) -> nat {
        self.entries@.len()
    }

    /// The entry at a position, visible to specifications; together with
    /// [`Self::lemma_entries`] this lets callers enumerate the table.
    pub closed spec fn spec_entry_at(&self, i: int) -> (CrdsKey, u64) {
        self.entries@[i]
    }

    /// The entries are exactly the graph of the table's mapping: each
    /// entry is a (key, version) pair of the mapping, every key of the
    /// mapping appears at some position, and no key appears twice.
    pub proof fn lemma_entries(&self)
        requires
            self.wf(),
        ensures
            self@.dom().finite(),
            self@.dom().len() == self.spec_len(),
            forall|i: int|
                0 <= i < self.spec_len() ==> self@.contains_key(#[trigger] self.spec_entry_at(i).0)
                    && self@[self.spec_entry_at(i).0] == self.spec_entry_at(i).1,
            forall|k: CrdsKey|
                self@.contains_key(k) ==> exists|i: int|
                    0 <= i < self.spec_len() && #[trigger] self.spec_entry_at(i) == (k, self@[k]),
            forall|i: int, j: int|
                #![trigger self.spec_entry_at(i), self.spec_entry_at(j)]
                0 <= i < j < self.spec_len() ==> self.spec_entry_at(i).0 != self.spec_entry_at(j).0,
    {
        lemma_key_set_card(self.entries@);
        assert forall|i: int| 0 <= i < self.spec_len() implies self@.contains_key(
            #[trigger] self.spec_entry_at(i).0,
        ) && self@[self.spec_entry_at(i).0] == self.spec_entry_at(i).1 by {
            lemma_map_of_at(self.entries@, i);
        }
        assert forall|k: CrdsKey| self@.contains_key(k) implies exists|i: int|
            0 <= i < self.spec_len() && #[trigger] self.spec_entry_at(i) == (k, self@[k]) by {
            let w = choose|w: int|
                0 <= w < self.entries@.len() && (#[trigger] self.entries@[w]).0 == k;
            lemma_map_of_at(self.entries@, w);
            assert(self.spec_entry_at(w) == (k, self@[k]));
        }
    }

    /// A fresh, empty table.
    pub fn new() -> (t: Self)
        ensures
            t.wf(),
            t@ == Map::<CrdsKey, u64>::empty(),
            t.spec_len() == 0,
    {
        let t = VersionedTable { entries: Vec::new() };
        proof {
            assert(t@ =~= Map::<CrdsKey, u64>::empty());
        }
        t
    }

    /// How many records the table holds.
    pub fn len(&self) -> (n: usize)
        requires
            self.wf(),
        ensures
            n == self@.dom().len(),
            n == self.spec_len(),
    {
        proof {
            lemma_key_set_card(self.entries@);
        }
        self.entries.len()
    }

    /// The entry at position `i`, for iteration over the table.
    pub fn entry_at(&self, i: usize) -> (e: (CrdsKey, u64))
        requires
            self.wf(),
            i < self.spec_len(),
        ensures
            e == self.spec_entry_at(i as int),
            self@.contains_key(e.0),
            self@[e.0] == e.1,
    {
        proof {
            lemma_map_of_at(self.entries@, i as int);
        }
        self.entries[i]
    }

    /// The stored version for a key, if any.
    pub fn get(&self, key: &CrdsKey) -> (r: Option<u64>)
        requires
            self.wf(),
        ensures
            r == if self@.contains_key(*key) {
                Some(self@[*key])
            } else {
                None::<u64>
            },
    {
        let n = self.entries.len();
        let mut i: usize = 0;
        while i < n
            invariant
                n == self.entries@.len(),
                i <= n,
                self.wf(),
                forall|j: int| 0 <= j < i ==> (#[trigger] self.entries@[j]).0 != *key,
            decreases n - i,
        {
            if self.entries[i].0 == *key {
                proof {
                    lemma_map_of_at(self.entries@, i as int);
                }
                return Some(self.entries[i].1);
            }
            i += 1;
        }
        proof {
            assert(!has_key(self.entries@, *key));
        }
        None
    }

    /// Applies the merge rule for one (key, version) pair: keeps the
    /// higher version and reports whether the pair was fresh information.
    pub fn merge(&mut self, key: CrdsKey, version: u64) -> (outcome: MergeOutcome)
        requires
            old(self).wf(),
        ensures
            final(self).wf(),
            final(self)@ == merge_step(old(self)@, key, version),
            outcome == spec_merge_outcome(old(self)@, key, version),
    {
        let n = self.entries.len();
        let mut i: usize = 0;
        while i < n
            invariant
                n == self.entries@.len(),
                i <= n,
                self.wf(),
                self == old(self),
                forall|j: int| 0 <= j < i ==> (#[trigger] self.entries@[j]).0 != key,
            decreases n - i,
        {
            if self.entries[i].0 == key {
                proof {
                    lemma_map_of_at(self.entries@, i as int);
                }
                if self.entries[i].1 < version {
                    proof {
                        lemma_map_of_update(self.entries@, i as int, key, version);
                    }
                    self.entries[i] = (key, version);
                    return MergeOutcome::Updated;
                } else {
                    return MergeOutcome::Outdated;
                }
            }
            i += 1;
        }
        proof {
            assert(!has_key(self.entries@, key));
            lemma_map_of_push(self.entries@, key, version);
        }
        self.entries.push((key, version));
        MergeOutcome::Inserted
    }

    /// Bumps the stored version for a key this node originates: a fresh
    /// key starts at 0, a present one goes up by exactly 1.
    pub fn refresh(&mut self, key: CrdsKey) -> (version: u64)
        requires
            old(self).wf(),
            old(self)@.contains_key(key) ==> old(self)@[key] < u64::MAX,
        ensures
            final(self).wf(),
            version == if old(self)@.contains_key(key) {
                old(self)@[key] + 1
            } else {
                0
            },
            final(self)@ == old(self)@.insert(key, version),
    {
        let n = self.entries.len();
        let mut i: usize = 0;
        while i < n
            invariant
                n == self.entries@.len(),
                i <= n,
                self.wf(),
                self == old(self),
                old(self)@.contains_key(key) ==> old(self)@[key] < u64::MAX,
                forall|j: int| 0 <= j < i ==> (#[trigger] self.entries@[j]).0 != key,
            decreases n - i,
        {
            if self.entries[i].0 == key {
                proof {
                    lemma_map_of_at(self.entries@, i as int);
                }
                let version = self.entries[i].1 + 1;
                proof {
                    lemma_map_of_update(self.entries@, i as int, key, version);
                }
                self.entries[i] = (key, version);
                return version;
            }
            i += 1;
        }
        proof {
            assert(!has_key(self.entries@, key));
            lemma_map_of_push(self.entries@, key, 0);
        }
        self.entries.push((key, 0));
        0
    }

    /// Merges an already-drained batch of packets and reports: the keys
    /// that carried fresh information (each at most once), the number of
    /// packets consumed, and how many were outdated duplicates.
    pub fn merge_packets(&mut self, packets: &Vec<Packet>) -> (r: (Vec<CrdsKey>, usize, usize))
        requires
            old(self).wf(),
        ensures
            final(self).wf(),
            final(self)@ == merge_seq(old(self)@, pairs_of(packets@)),
            r.0@.no_duplicates(),
            r.0@.to_set() == touched_set(old(self)@, pairs_of(packets@)),
            forall|j: int| 0 <= j < r.0@.len() ==> final(self)@.contains_key(#[trigger] r.0@[j]),
            r.1 == packets@.len(),
            r.2 == outdated_count(old(self)@, pairs_of(packets@)),
    {
        let ghost m0 = self@;
        let n = packets.len();
        let mut touched: Vec<CrdsKey> = Vec::new();
        let mut num_outdated: usize = 0;
        let mut i: usize = 0;
        while i < n
            invariant
                n == packets@.len(),
                i <= n,
                self.wf(),
                self@ == merge_seq(m0, pairs_of(packets@.take(i as int))),
                num_outdated == outdated_count(m0, pairs_of(packets@.take(i as int))),
                num_outdated <= i,
                touched@.no_duplicates(),
                touched@.to_set() == touched_set(m0, pairs_of(packets@.take(i as int))),
                forall|j: int|
                    0 <= j < touched@.len() ==> self@.contains_key(#[trigger] touched@[j]),
            decreases n - i,
        {
            let p = packets[i];
            let key = p.key();
            let ghost pre = self@;
            let ghost qs = pairs_of(packets@.take(i as int));
            let outcome = self.merge(key, p.ordinal);
            proof {
                assert(pairs_of(packets@.take(i + 1)) =~= qs.push((p.spec_key(), p.ordinal)));
                assert(pairs_of(packets@.take(i + 1)).drop_last() =~= qs);
                assert(forall|k: CrdsKey|
                    pre.contains_key(k) ==> #[trigger] self@.contains_key(k));
            }
            match outcome {
                MergeOutcome::Outdated => {
                    num_outdated += 1;
                    proof {
                        assert(touched@.to_set() =~= touched_set(
                            m0,
                            pairs_of(packets@.take(i + 1)),
                        ));
                    }
                },
                _ => {
                    let ghost tsnap = touched@;
                    if !vec_contains_key(&touched, &key) {
                        touched.push(key);
                        proof {
                            crate::assoc::lemma_push_to_set(tsnap, key);
                        }
                    } else {
                        proof {
                            assert(touched@.to_set().contains(key));
                            assert(touched@.to_set().insert(key) =~= touched@.to_set());
                        }
                    }
                    proof {
                        assert(touched@.to_set() =~= touched_set(
                            m0,
                            pairs_of(packets@.take(i + 1)),
                        ));
                        assert(self@.contains_key(key));
                    }
                },
            }
            i += 1;
        }
        proof {
            assert(packets@.take(n as int) =~= packets@);
        }
        (touched, n, num_outdated)
    }

    /// True exactly when the two tables store the same mapping, whatever
    /// the internal order of their entries.
    pub fn same_view(&self, other: &VersionedTable) -> (r: bool)
        requires
            self.wf(),
            other.wf(),
        ensures
            r == (self@ == other@),
    {
        proof {
            self.lemma_entries();
            other.lemma_entries();
        }
        if self.len() != other.len() {
            proof {
                if self@ == other@ {
                    assert(self@.dom() =~= other@.dom());
                }
            }
            return false;
        }
        let n = self.entries.len();
        let mut i: usize = 0;
        while i < n
            invariant
                n == self.entries@.len(),
                i <= n,
                self.wf(),
                other.wf(),
                self@.dom().finite(),
                other@.dom().finite(),
                self@.dom().len() == other@.dom().len(),
                forall|j: int|
                    0 <= j < i ==> other@.contains_key((#[trigger] self.entries@[j]).0)
                        && other@[self.entries@[j].0] == self.entries@[j].1,
            decreases n - i,
        {
            let (key, version) = self.entries[i];
            proof {
                lemma_map_of_at(self.entries@, i as int);
            }
            match other.get(&key) {
                Some(v) => {
                    if v != version {
                        return false;
                    }
                },
                None => {
                    return false;
                },
            }
            i += 1;
        }
        proof {
            assert forall|k: CrdsKey| self@.contains_key(k) implies other@.contains_key(k)
                && other@[k] == self@[k] by {
                let w = choose|w: int|
                    0 <= w < self.entries@.len() && (#[trigger] self.entries@[w]).0 == k;
                lemma_map_of_at(self.entries@, w);
            }
            assert(self@.dom().subset_of(other@.dom()));
            assert forall|k: CrdsKey| other@.contains_key(k) implies self@.contains_key(k) by {
                if !self@.contains_key(k) {
                    self@.dom().lemma_subset_not_in_lt(other@.dom(), k);
                }
            }
            assert(self@ =~= other@);
        }
        true
    }

    /// How many of this table's records already carry the reference
    /// table's version for their key — the node's "fresh" records.
    pub fn num_hits(&self, target: &VersionedTable) -> (r: usize)
        requires
            self.wf(),
            target.wf(),
        ensures
            r == hit_set(self@, target@).len(),
            hit_set(self@, target@).finite(),
    {
        let n = self.entries.len();
        let mut count: usize = 0;
        let ghost mut hits: Set<CrdsKey> = Set::empty();
        let mut i: usize = 0;
        while i < n
            invariant
                n == self.entries@.len(),
                i <= n,
                self.wf(),
                target.wf(),
                count <= i,
                hits.finite(),
                count == hits.len(),
                hits == Set::new(
                    |k: CrdsKey|
                        hit_set(self@, target@).contains(k) && exists|j: int|
                            0 <= j < i && (#[trigger] self.entries@[j]).0 == k,
                ),
            decreases n - i,
        {
            let (key, version) = self.entries[i];
            proof {
                lemma_map_of_at(self.entries@, i as int);
            }
            let is_hit = match target.get(&key) {
                Some(v) => v == version,
                None => false,
            };
            if is_hit {
                proof {
                    assert(!hits.contains(key)) by {
                        if hits.contains(key) {
                            let w = choose|j: int|
                                0 <= j < i && (#[trigger] self.entries@[j]).0 == key;
                            assert(self.entries@[w].0 == self.entries@[i as int].0);
                        }
                    }
                    hits = hits.insert(key);
                }
                count += 1;
            }
            proof {
                assert(hits =~= Set::new(
                    |k: CrdsKey|
                        hit_set(self@, target@).contains(k) && exists|j: int|
                            0 <= j < i + 1 && (#[trigger] self.entries@[j]).0 == k,
                )) by {
                    let newer = Set::new(
                        |k: CrdsKey|
                            hit_set(self@, target@).contains(k) && exists|j: int|
                                0 <= j < i + 1 && (#[trigger] self.entries@[j]).0 == k,
                    );
                    assert forall|k: CrdsKey| newer.contains(k) implies hits.contains(k) by {
                        let w = choose|j: int|
                            0 <= j < i + 1 && (#[trigger] self.entries@[j]).0 == k;
                        if w == i {
                            lemma_map_of_at(self.entries@, i as int);
                            assert(self@[k] == self.entries@[i as int].1);
                        }
                    }
                }
            }
            i += 1;
        }
        proof {
            assert(hits =~= hit_set(self@, target@)) by {
                assert forall|k: CrdsKey| hit_set(self@, target@).contains(k) implies
                    hits.contains(k) by {
                    let w = choose|w: int|
                        0 <= w < self.entries@.len() && (#[trigger] self.entries@[w]).0 == k;
                }
            }
        }
        count
    }
}

/// The keys on which `node` already agrees with the reference table.
pub open spec fn hit_set(node: Map<CrdsKey, u64>, target: Map<CrdsKey, u64>) -> Set<CrdsKey> {
    Set::new(
        |k: CrdsKey| node.contains_key(k) && target.contains_key(k) && target[k] == node[k],
    )
}

/// Whether a list of keys already holds the given key.
pub(crate) fn vec_contains_key(v: &Vec<CrdsKey>, k: &CrdsKey) -> (r: bool)
    ensures
        r == v@.contains(*k),
{
    let n = v.len();
    let mut i: usize = 0;
    while i < n
        invariant
            n == v@.len(),
            i <= n,
            forall|j: int| 0 <= j < i ==> v@[j] != *k,
        decreases n - i,
    {
        if v[i] == *k {
            return true;
        }
        i += 1;
    }
    false
}

} // verus!
