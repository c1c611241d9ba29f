//! The push step of a round: order the touched keys by the stake of
//! their origin, then send each to a bounded number of peers taken from
//! a shuffled peer order, never back to the key's own origin.
use vstd::prelude::*;

use crate::ids::CrdsKey;
use crate::ids::Packet;
use crate::ids::PeerId;
use crate::stakes::Stakes;
use crate::stakes::stake_of;
use crate::table::VersionedTable;

verus! {

/// The priority order of the push step: higher origin stake first, ties
/// broken by key value so the order is deterministic.
pub open spec fn key_le(stakes: Map<PeerId, u64>, a: CrdsKey, b: CrdsKey) -> bool {
    let sa = stake_of(stakes, a.from);
    let sb = stake_of(stakes, b.from);
    ||| sa > sb
    ||| (sa == sb && (a.from.0 < b.from.0 || (a.from.0 == b.from.0 && a.index <= b.index)))
}

/// Sorted by descending origin stake, ties by key value.
pub open spec fn sorted_by_stake(stakes: Map<PeerId, u64>, s: Seq<CrdsKey>) -> bool {
    forall|i: int, j: int|
        #![trigger s[i], s[j]]
        0 <= i < j < s.len() ==> key_le(stakes, s[i], s[j])
}

fn key_le_exec(stakes: &Stakes, a: &CrdsKey, b: &CrdsKey) -> (r: bool)
    requires
        stakes.wf(),
    ensures
        r == key_le(stakes@, *a, *b),
{
    let sa = stakes.get(&a.from);
    let sb = stakes.get(&b.from);
    sa > sb || (sa == sb && (a.from.0 < b.from.0 || (a.from.0 == b.from.0 && a.index <= b.index)))
}

fn swap_keys(v: &mut Vec<CrdsKey>, a: usize, b: usize)
    requires
        a < old(v)@.len(),
        b < old(v)@.len(),
    ensures
        final(v)@ == old(v)@.update(a as int, old(v)@[b as int]).update(
            b as int,
            old(v)@[a as int],
        ),
        final(v)@.to_multiset() == old(v)@.to_multiset(),
        final(v)@.len() == old(v)@.len(),
{
    let x = v[a];
    let y = v[b];
    v[a] = y;
    v[b] = x;
    proof {
        broadcast use vstd::seq_lib::group_to_multiset_ensures;

        assert(v@.to_multiset() =~= old(v)@.to_multiset());
    }
}

/// Sorts the touched keys by descending origin stake (insertion sort),
/// keeping exactly the same keys.
pub fn sort_keys_by_stake(keys: &mut Vec<CrdsKey>, stakes: &Stakes)
    requires
        stakes.wf(),
    ensures
        final(keys)@.to_multiset() == old(keys)@.to_multiset(),
        final(keys)@.len() == old(keys)@.len(),
        sorted_by_stake(stakes@, final(keys)@),
{
    proof {
        broadcast use vstd::seq_lib::group_to_multiset_ensures;

    }
    let n = keys.len();
    if n == 0 {
        return ;
    }
    let mut i: usize = 1;
    while i < n
        invariant
            stakes.wf(),
            n == keys@.len(),
            1 <= i <= n,
            keys@.to_multiset() == old(keys)@.to_multiset(),
            forall|a: int, b: int|
                #![trigger keys@[a], keys@[b]]
                0 <= a < b < i ==> key_le(stakes@, keys@[a], keys@[b]),
        decreases n - i,
    {
        let mut j: usize = i;
        while j > 0
            invariant_except_break
                stakes.wf(),
                n == keys@.len(),
                i < n,
                j <= i,
                keys@.to_multiset() == old(keys)@.to_multiset(),
                forall|a: int, b: int|
                    #![trigger keys@[a], keys@[b]]
                    0 <= a < b <= i && b != j ==> key_le(stakes@, keys@[a], keys@[b]),
                forall|b: int|
                    j < b <= i ==> key_le(stakes@, keys@[j as int], #[trigger] keys@[b]),
            ensures
                stakes.wf(),
                n == keys@.len(),
                i < n,
                keys@.to_multiset() == old(keys)@.to_multiset(),
                forall|a: int, b: int|
                    #![trigger keys@[a], keys@[b]]
                    0 <= a < b <= i ==> key_le(stakes@, keys@[a], keys@[b]),
            decreases j,
        {
            if key_le_exec(stakes, &keys[j - 1], &keys[j]) {
                proof {
                    assert forall|a: int, b: int|
                        #![trigger keys@[a], keys@[b]]
                        0 <= a < b <= i implies key_le(stakes@, keys@[a], keys@[b]) by {
                        if b == j && a < j - 1 {
                            assert(key_le(stakes@, keys@[a], keys@[j - 1]));
                        }
                    }
                }
                break ;
            }
            swap_keys(keys, j - 1, j);
            j -= 1;
        }
        i += 1;
    }
}

/// The destinations one key is pushed to: the first `fanout` peers of
/// the shuffled order, skipping the key's origin — a peer is never sent
/// its own originated record.
pub open spec fn pick_dests(peers: Seq<PeerId>, origin: PeerId, fanout: nat) -> Seq<PeerId>
    decreases peers.len(),
{
    if peers.len() == 0 || fanout == 0 {
        Seq::empty()
    } else if peers.first() == origin {
        pick_dests(peers.drop_first(), origin, fanout)
    } else {
        seq![peers.first()] + pick_dests(peers.drop_first(), origin, (fanout - 1) as nat)
    }
}

/// The messages that carry one packet to each of its destinations.
pub open spec fn to_sends(dests: Seq<PeerId>, packet: Packet) -> Seq<(PeerId, Packet)> {
    dests.map(|w: int, d: PeerId| (d, packet))
}

/// The packet a round sends for a touched key: the key with the table's
/// current version.
pub open spec fn packet_for(table: Map<CrdsKey, u64>, k: CrdsKey) -> Packet {
    Packet { from: k.from, index: k.index, ordinal: table[k] }
}

/// The send plan of a round: for each touched key in order, one packet
/// carrying the table's current version of that key, to each picked
/// destination.
pub open spec fn plan_spec(
    keys: Seq<CrdsKey>,
    table: Map<CrdsKey, u64>,
    peers: Seq<PeerId>,
    fanout: nat,
) -> Seq<(PeerId, Packet)>
    decreases keys.len(),
{
    if keys.len() == 0 {
        Seq::empty()
    } else {
        to_sends(pick_dests(peers, keys.first().from, fanout), packet_for(table, keys.first()))
            + plan_spec(keys.drop_first(), table, peers, fanout)
    }
}

/// Fanout bound, per key: at most `fanout` destinations, never the
/// origin, all drawn from the peer set; when the origin is one of the
/// peers, at most `peers.len() - 1` destinations; when the peers are
/// distinct, so are the destinations.
pub proof fn lemma_pick_dests_bound(peers: Seq<PeerId>, origin: PeerId, fanout: nat)
    ensures
        pick_dests(peers, origin, fanout).len() <= fanout,
        pick_dests(peers, origin, fanout).len() <= peers.len(),
        peers.contains(origin) ==> pick_dests(peers, origin, fanout).len() <= peers.len() - 1,
        forall|i: int|
            0 <= i < pick_dests(peers, origin, fanout).len() ==> #[trigger] pick_dests(
                peers,
                origin,
                fanout,
            )[i] != origin && peers.contains(pick_dests(peers, origin, fanout)[i]),
        peers.no_duplicates() ==> pick_dests(peers, origin, fanout).no_duplicates(),
    decreases peers.len(),
{
    if peers.len() == 0 || fanout == 0 {
    } else {
        let rest = peers.drop_first();
        let d = pick_dests(peers, origin, fanout);
        assert(forall|w: int| 0 <= w < rest.len() ==> #[trigger] rest[w] == peers[w + 1]);
        assert forall|p: PeerId| rest.contains(p) implies peers.contains(p) by {
            let w = choose|w: int| 0 <= w < rest.len() && rest[w] == p;
            assert(peers[w + 1] == p);
        }
        if peers.first() == origin {
            lemma_pick_dests_bound(rest, origin, fanout);
            assert(peers[0] == origin);
            assert(peers.contains(origin));
        } else {
            lemma_pick_dests_bound(rest, origin, (fanout - 1) as nat);
            let dr = pick_dests(rest, origin, (fanout - 1) as nat);
            assert(d == seq![peers.first()] + dr);
            assert(d[0] == peers.first());
            assert(forall|w: int| 0 <= w < dr.len() ==> d[w + 1] == #[trigger] dr[w]);
            assert(peers.contains(peers.first())) by {
                assert(peers[0] == peers.first());
            }
            if peers.contains(origin) {
                let w = choose|w: int| 0 <= w < peers.len() && peers[w] == origin;
                assert(rest[w - 1] == origin);
                assert(rest.contains(origin));
            }
            if peers.no_duplicates() {
                assert(rest.no_duplicates());
                assert forall|a: int, b: int| 0 <= a < b < d.len() implies #[trigger] d[a]
                    != #[trigger] d[b] by {
                    if a == 0 {
                        assert(d[b] == dr[b - 1]);
                        assert(rest.contains(dr[b - 1]));
                        let w = choose|w: int| 0 <= w < rest.len() && rest[w] == dr[b - 1];
                        assert(peers[w + 1] == dr[b - 1]);
                        assert(peers[0] != peers[w + 1]);
                    } else {
                        assert(d[a] == dr[a - 1] && d[b] == dr[b - 1]);
                    }
                }
            }
        }
    }
}

/// Fanout bound, per round: a node that touched `keys` sends at most
/// `keys.len() × fanout` messages, each addressed to a member of the
/// peer set.
pub proof fn lemma_plan_bound(
    keys: Seq<CrdsKey>,
    table: Map<CrdsKey, u64>,
    peers: Seq<PeerId>,
    fanout: nat,
)
    ensures
        plan_spec(keys, table, peers, fanout).len() <= keys.len() * fanout,
        forall|i: int|
            0 <= i < plan_spec(keys, table, peers, fanout).len() ==> peers.contains(
                (#[trigger] plan_spec(keys, table, peers, fanout)[i]).0,
            ),
    decreases keys.len(),
{
    if keys.len() > 0 {
        let k = keys.first();
        let d = pick_dests(peers, k.from, fanout);
        let head = to_sends(d, packet_for(table, k));
        let tail = plan_spec(keys.drop_first(), table, peers, fanout);
        lemma_pick_dests_bound(peers, k.from, fanout);
        lemma_plan_bound(keys.drop_first(), table, peers, fanout);
        assert(plan_spec(keys, table, peers, fanout) == head + tail);
        assert(head.len() <= fanout);
        assert(tail.len() <= (keys.len() - 1) * fanout);
        assert((keys.len() - 1) * fanout + fanout == keys.len() * fanout) by (nonlinear_arith);
        assert forall|i: int| 0 <= i < (head + tail).len() implies peers.contains(
            (#[trigger] (head + tail)[i]).0,
        ) by {
            if i < head.len() {
                assert((head + tail)[i] == head[i]);
                assert(head[i].0 == d[i]);
            } else {
                assert((head + tail)[i] == tail[i - head.len()]);
            }
        }
    }
}

/// Builds the send plan: walks the prioritized keys and, for each, the
/// shuffled peer order, collecting up to `fanout` destinations per key.
pub fn plan_sends(
    keys: &Vec<CrdsKey>,
    table: &VersionedTable,
    peers: &Vec<PeerId>,
    fanout: usize,
) -> (r: Vec<(PeerId, Packet)>)
    requires
        table.wf(),
        forall|i: int| 0 <= i < keys@.len() ==> table@.contains_key(#[trigger] keys@[i]),
    ensures
        r@ == plan_spec(keys@, table@, peers@, fanout as nat),
{
    let nk = keys.len();
    let mut r: Vec<(PeerId, Packet)> = Vec::new();
    proof {
        assert(keys@.skip(0) =~= keys@);
        assert(r@ + plan_spec(keys@, table@, peers@, fanout as nat) =~= plan_spec(
            keys@,
            table@,
            peers@,
            fanout as nat,
        ));
    }
    let mut i: usize = 0;
    while i < nk
        invariant
            nk == keys@.len(),
            i <= nk,
            table.wf(),
            forall|w: int| 0 <= w < keys@.len() ==> table@.contains_key(#[trigger] keys@[w]),
            plan_spec(keys@, table@, peers@, fanout as nat) == r@ + plan_spec(
                keys@.skip(i as int),
                table@,
                peers@,
                fanout as nat,
            ),
        decreases nk - i,
    {
        let key = keys[i];
        let version = match table.get(&key) {
            Some(v) => v,
            None => 0,  // unreachable: every planned key is in the table
        };
        let packet = Packet { from: key.from, index: key.index, ordinal: version };
        proof {
            assert(keys@.skip(i as int).first() == key);
            assert(keys@.skip(i as int).drop_first() =~= keys@.skip(i + 1));
            assert(packet == packet_for(table@, key));
        }
        let ghost mid = r@;
        let np = peers.len();
        proof {
            assert(peers@.skip(0) =~= peers@);
            assert(r@.skip(mid.len() as int) =~= Seq::<(PeerId, Packet)>::empty());
            assert(r@.skip(mid.len() as int) + to_sends(
                pick_dests(peers@, key.from, fanout as nat),
                packet,
            ) =~= to_sends(pick_dests(peers@, key.from, fanout as nat), packet));
        }
        let mut sent: usize = 0;
        let mut p: usize = 0;
        while p < np && sent < fanout
            invariant
                np == peers@.len(),
                p <= np,
                sent <= fanout,
                r@.len() == mid.len() + sent,
                forall|w: int| 0 <= w < mid.len() ==> r@[w] == #[trigger] mid[w],
                to_sends(pick_dests(peers@, key.from, fanout as nat), packet) == r@.skip(
                    mid.len() as int,
                ) + to_sends(
                    pick_dests(peers@.skip(p as int), key.from, (fanout - sent) as nat),
                    packet,
                ),
            decreases np - p,
        {
            let ghost sub = peers@.skip(p as int);
            proof {
                assert(sub.first() == peers@[p as int]);
                assert(sub.drop_first() =~= peers@.skip(p + 1));
            }
            let dest = peers[p];
            if !(dest == key.from) {
                let ghost rprev = r@;
                r.push((dest, packet));
                sent += 1;
                proof {
                    let rest = pick_dests(peers@.skip(p + 1), key.from, (fanout - sent) as nat);
                    assert(pick_dests(sub, key.from, (fanout - sent + 1) as nat) == seq![dest]
                        + rest);
                    assert(to_sends(seq![dest] + rest, packet) =~= seq![(dest, packet)]
                        + to_sends(rest, packet));
                    assert(r@.skip(mid.len() as int) =~= rprev.skip(mid.len() as int).push(
                        (dest, packet),
                    ));
                    assert(rprev.skip(mid.len() as int) + (seq![(dest, packet)] + to_sends(
                        rest,
                        packet,
                    )) =~= r@.skip(mid.len() as int) + to_sends(rest, packet));
                }
            } else {
                proof {
                    assert(pick_dests(sub, key.from, (fanout - sent) as nat) == pick_dests(
                        peers@.skip(p + 1),
                        key.from,
                        (fanout - sent) as nat,
                    ));
                }
            }
            p += 1;
        }
        proof {
            if sent == fanout {
                assert(pick_dests(peers@.skip(p as int), key.from, 0) =~= Seq::<PeerId>::empty());
            } else {
                assert(p == np);
                assert(peers@.skip(p as int).len() == 0);
                assert(pick_dests(peers@.skip(p as int), key.from, (fanout - sent) as nat)
                    =~= Seq::<PeerId>::empty());
            }
            assert(to_sends(Seq::<PeerId>::empty(), packet) =~= Seq::<(PeerId, Packet)>::empty());
            assert(to_sends(pick_dests(peers@, key.from, fanout as nat), packet) =~= r@.skip(
                mid.len() as int,
            ));
            assert(r@ =~= mid + r@.skip(mid.len() as int));
            assert(plan_spec(keys@.skip(i as int), table@, peers@, fanout as nat) == to_sends(
                pick_dests(peers@, key.from, fanout as nat),
                packet,
            ) + plan_spec(keys@.skip(i + 1), table@, peers@, fanout as nat));
        }
        i += 1;
    }
    proof {
        assert(keys@.skip(nk as int).len() == 0);
        assert(r@ =~= r@ + plan_spec(keys@.skip(nk as int), table@, peers@, fanout as nat));
    }
    r
}

} // verus!
