//! Post-run convergence report: the cluster-wide maximum version per key
//! (the "ground truth" a perfectly synchronized cluster would hold), each
//! node's freshness against it, and the stake-weighted ranking.
use vstd::prelude::*;

use crate::ids::CrdsKey;
use crate::ids::PeerId;
use crate::node::Node;
use crate::table::VersionedTable;
use crate::table::hit_set;

verus! {

/// Computes the cluster-wide ceiling: for every key any node holds, the
/// maximum version stored anywhere — every node's entry is bounded by
/// it, and it is attained by some node.
pub fn get_crds_table(nodes: &Vec<Node>) -> (t: VersionedTable)
    requires
        forall|i: int| 0 <= i < nodes@.len() ==> (#[trigger] nodes@[i]).wf(),
    ensures
        t.wf(),
        forall|i: int, k: CrdsKey|
            #![trigger nodes@[i].spec_table().contains_key(k)]
            0 <= i < nodes@.len() && nodes@[i].spec_table().contains_key(k) ==> t@.contains_key(k)
                && t@[k] >= nodes@[i].spec_table()[k],
        forall|k: CrdsKey| #[trigger]
            t@.contains_key(k) ==> exists|i: int|
                0 <= i < nodes@.len() && (#[trigger] nodes@[i]).spec_table().contains_key(k)
                    && nodes@[i].spec_table()[k] == t@[k],
    {
    let n = nodes.len();
    let mut t = VersionedTable::new();
    let mut i: usize = 0;
    while i < n
        invariant
            n == nodes@.len(),
            i <= n,
            t.wf(),
            forall|i2: int| 0 <= i2 < nodes@.len() ==> (#[trigger] nodes@[i2]).wf(),
            forall|i2: int, k: CrdsKey|
                #![trigger nodes@[i2].spec_table().contains_key(k)]
                0 <= i2 < i && nodes@[i2].spec_table().contains_key(k) ==> t@.contains_key(k)
                    && t@[k] >= nodes@[i2].spec_table()[k],
            forall|k: CrdsKey| #[trigger]
                t@.contains_key(k) ==> exists|i2: int|
                    0 <= i2 < nodes@.len() && (#[trigger] nodes@[i2]).spec_table().contains_key(k)
                        && nodes@[i2].spec_table()[k] == t@[k],
        decreases n - i,
    {
        let node_table = nodes[i].table();
        let m = node_table.len();
        proof {
            node_table.lemma_entries();
        }
        let mut j: usize = 0;
        while j < m
            invariant
                n == nodes@.len(),
                i < n,
                m == node_table@.dom().len(),
                m == node_table.spec_len(),
                j <= m,
                t.wf(),
                node_table.wf(),
                node_table@ == nodes@[i as int].spec_table(),
                forall|i2: int| 0 <= i2 < nodes@.len() ==> (#[trigger] nodes@[i2]).wf(),
                forall|i2: int, k: CrdsKey|
                    #![trigger nodes@[i2].spec_table().contains_key(k)]
                    0 <= i2 < i && nodes@[i2].spec_table().contains_key(k) ==> t@.contains_key(k)
                        && t@[k] >= nodes@[i2].spec_table()[k],
                forall|w: int|
                    0 <= w < j ==> t@.contains_key((#[trigger] node_table.spec_entry_at(w)).0)
                        && t@[node_table.spec_entry_at(w).0] >= node_table.spec_entry_at(w).1,
                forall|k: CrdsKey| #[trigger]
                    t@.contains_key(k) ==> exists|i2: int|
                        0 <= i2 < nodes@.len() && (#[trigger] nodes@[i2]).spec_table()
                            .contains_key(k) && nodes@[i2].spec_table()[k] == t@[k],
            decreases m - j,
        {
            let (key, version) = node_table.entry_at(j);
            let ghost tb = t@;
            let _outcome = t.merge(key, version);
            proof {
                assert forall|i2: int, k: CrdsKey|
                    #![trigger nodes@[i2].spec_table().contains_key(k)]
                    0 <= i2 < i && nodes@[i2].spec_table().contains_key(k) implies t@.contains_key(
                    k,
                ) && t@[k] >= nodes@[i2].spec_table()[k] by {
                    if k != key {
                        assert(t@[k] == tb[k]);
                    }
                }
                assert forall|k: CrdsKey| #[trigger] t@.contains_key(k) implies exists|i2: int|
                    0 <= i2 < nodes@.len() && (#[trigger] nodes@[i2]).spec_table().contains_key(k)
                        && nodes@[i2].spec_table()[k] == t@[k] by {
                    if k == key && t@[k] == version {
                        assert(nodes@[i as int].spec_table().contains_key(k)
                            && nodes@[i as int].spec_table()[k] == t@[k]);
                    } else {
                        assert(tb.contains_key(k) && t@[k] == tb[k]);
                    }
                }
            }
            j += 1;
        }
        proof {
            node_table.lemma_entries();
            assert forall|k: CrdsKey|
                nodes@[i as int].spec_table().contains_key(k) implies t@.contains_key(k) && t@[k]
                >= nodes@[i as int].spec_table()[k] by {
                let w = choose|w: int|
                    0 <= w < node_table.spec_len() && #[trigger] node_table.spec_entry_at(w) == (
                    k,
                    node_table@[k],
                );
            }
        }
        i += 1;
    }
    t
}

/// One line of the per-node summary.
#[derive(Clone, Copy, Debug, PartialEq, Eq, Structural)]
pub struct ReportRow {
    pub pubkey: PeerId,
    pub stake: u64,
    pub rounds: u64,
    pub table_len: usize,
    pub num_hits: usize,
    pub num_buffered: usize,
}

/// The ranking order of the report: higher stake first, ties broken by
/// peer identifier.
pub open spec fn row_le(a: ReportRow, b: ReportRow) -> bool {
    a.stake > b.stake || (a.stake == b.stake && a.pubkey.0 <= b.pubkey.0)
}

/// Sorted by descending stake.
pub open spec fn rows_sorted(s: Seq<ReportRow>) -> bool {
    forall|i: int, j: int|
        #![trigger s[i], s[j]]
        0 <= i < j < s.len() ==> row_le(s[i], s[j])
}

/// One summary row per node, in node order: identity, stake, rounds run,
/// table size, and how many of the node's records carry the cluster-wide
/// maximum version.  The buffered count is a point-in-time channel
/// reading with no contract.
pub fn make_report_rows(nodes: &Vec<Node>, reference: &VersionedTable) -> (rows: Vec<ReportRow>)
    requires
        forall|i: int| 0 <= i < nodes@.len() ==> (#[trigger] nodes@[i]).wf(),
        reference.wf(),
    ensures
        rows@.len() == nodes@.len(),
        forall|i: int|
            0 <= i < rows@.len() ==> {
                &&& (#[trigger] rows@[i]).pubkey == nodes@[i].spec_pubkey()
                &&& rows@[i].stake == nodes@[i].spec_stake()
                &&& rows@[i].rounds == nodes@[i].spec_rounds()
                &&& rows@[i].table_len == nodes@[i].spec_table().dom().len()
                &&& rows@[i].num_hits == hit_set(nodes@[i].spec_table(), reference@).len()
            },
{
    let n = nodes.len();
    let mut rows: Vec<ReportRow> = Vec::new();
    let mut i: usize = 0;
    while i < n
        invariant
            n == nodes@.len(),
            i <= n,
            reference.wf(),
            forall|i2: int| 0 <= i2 < nodes@.len() ==> (#[trigger] nodes@[i2]).wf(),
            rows@.len() == i,
            forall|j: int|
                0 <= j < i ==> {
                    &&& (#[trigger] rows@[j]).pubkey == nodes@[j].spec_pubkey()
                    &&& rows@[j].stake == nodes@[j].spec_stake()
                    &&& rows@[j].rounds == nodes@[j].spec_rounds()
                    &&& rows@[j].table_len == nodes@[j].spec_table().dom().len()
                    &&& rows@[j].num_hits == hit_set(nodes@[j].spec_table(), reference@).len()
                },
        decreases n - i,
    {
        let node = &nodes[i];
        let table = node.table();
        let row = ReportRow {
            pubkey: node.pubkey(),
            stake: node.stake(),
            rounds: node.num_gossip_rounds(),
            table_len: table.len(),
            num_hits: table.num_hits(reference),
            num_buffered: node.num_buffered(),
        };
        rows.push(row);
        i += 1;
    }
    rows
}

fn swap_rows(v: &mut Vec<ReportRow>, a: usize, b: usize)
    requires
        a < old(v)@.len(),
        b < old(v)@.len(),
    ensures
        final(v)@ == old(v)@.update(a as int, old(v)@[b as int]).update(
            b as int,
            old(v)@[a as int],
        ),
        final(v)@.to_multiset() == old(v)@.to_multiset(),
        final(v)@.len() == old(v)@.len(),
{
    let x = v[a];
    let y = v[b];
    v[a] = y;
    v[b] = x;
    proof {
        broadcast use vstd::seq_lib::group_to_multiset_ensures;

        assert(v@.to_multiset() =~= old(v)@.to_multiset());
    }
}

/// Stake-weighted ranking: sorts the rows by descending stake (insertion
/// sort), keeping exactly the same rows.
pub fn sort_rows_by_stake(rows: &mut Vec<ReportRow>)
    ensures
        final(rows)@.to_multiset() == old(rows)@.to_multiset(),
        final(rows)@.len() == old(rows)@.len(),
        rows_sorted(final(rows)@),
{
    proof {
        broadcast use vstd::seq_lib::group_to_multiset_ensures;

    }
    let n = rows.len();
    if n == 0 {
        return ;
    }
    let mut i: usize = 1;
    while i < n
        invariant
            n == rows@.len(),
            1 <= i <= n,
            rows@.to_multiset() == old(rows)@.to_multiset(),
            forall|a: int, b: int|
                #![trigger rows@[a], rows@[b]]
                0 <= a < b < i ==> row_le(rows@[a], rows@[b]),
        decreases n - i,
    {
        let mut j: usize = i;
        while j > 0
            invariant_except_break
                n == rows@.len(),
                i < n,
                j <= i,
                rows@.to_multiset() == old(rows)@.to_multiset(),
                forall|a: int, b: int|
                    #![trigger rows@[a], rows@[b]]
                    0 <= a < b <= i && b != j ==> row_le(rows@[a], rows@[b]),
                forall|b: int| j < b <= i ==> row_le(rows@[j as int], #[trigger] rows@[b]),
            ensures
                n == rows@.len(),
                i < n,
                rows@.to_multiset() == old(rows)@.to_multiset(),
                forall|a: int, b: int|
                    #![trigger rows@[a], rows@[b]]
                    0 <= a < b <= i ==> row_le(rows@[a], rows@[b]),
            decreases j,
        {
            let prev = rows[j - 1];
            let cur = rows[j];
            if prev.stake > cur.stake || (prev.stake == cur.stake && prev.pubkey.0 <= cur.pubkey.0)
             {
                proof {
                    assert forall|a: int, b: int|
                        #![trigger rows@[a], rows@[b]]
                        0 <= a < b <= i implies row_le(rows@[a], rows@[b]) by {
                        if b == j && a < j - 1 {
                            assert(row_le(rows@[a], rows@[j - 1]));
                        }
                    }
                }
                break ;
            }
            swap_rows(rows, j - 1, j);
            j -= 1;
        }
        i += 1;
    }
}

} // verus!
