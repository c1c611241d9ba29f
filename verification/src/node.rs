//! A gossip node: identity, stake, versioned table and inbound channel,
//! and the one-round state transition it runs while a worker holds
//! exclusive access to it — drain, merge, self-refresh, prioritize,
//! fan out.
use vstd::prelude::*;

use crate::Error;
use crate::RouterError;
use crate::chan::drain_packets;
use crate::chan::inbox_len;
use crate::chan::new_channel;
use crate::fanout::lemma_plan_bound;
use crate::fanout::plan_sends;
use crate::fanout::sort_keys_by_stake;
use crate::ids::CrdsKey;
use crate::ids::Packet;
use crate::ids::PeerId;
use crate::rng::PPM_SCALE;
use crate::rng::gen_below;
use crate::rng::shuffle_peers;
use crate::router::Router;
use crate::stakes::Stakes;
use crate::stakes::stake_of;
use crate::table::VersionedTable;
use crate::table::merge_seq;
use crate::table::outdated_count;
use crate::table::pairs_of;
use crate::table::touched_set;
use crate::table::vec_contains_key;

verus! {

use vstd::seq_lib::group_to_multiset_ensures;

/// The relation between a node's table (and drain report) before and
/// after one inbox drain, as witnessed by the drained batch `ps`.
pub open spec fn consume_post(
    pre: Map<CrdsKey, u64>,
    post: Map<CrdsKey, u64>,
    touched: Seq<CrdsKey>,
    num_packets: int,
    num_outdated: int,
    ps: Seq<Packet>,
) -> bool {
    &&& post == merge_seq(pre, pairs_of(ps))
    &&& num_packets == ps.len()
    &&& num_outdated == outdated_count(pre, pairs_of(ps))
    &&& touched.to_set() == touched_set(pre, pairs_of(ps))
}

/// One self-refresh applied to the mathematical table: a fresh key
/// starts at 0, a present one goes up by exactly 1.
pub open spec fn refresh_step(m: Map<CrdsKey, u64>, k: CrdsKey) -> Map<CrdsKey, u64> {
    if m.contains_key(k) {
        m.insert(k, (m[k] + 1) as u64)
    } else {
        m.insert(k, 0)
    }
}

/// The table after a sequence of self-refreshes, in order.
pub open spec fn refresh_seq(m: Map<CrdsKey, u64>, ks: Seq<CrdsKey>) -> Map<CrdsKey, u64>
    decreases ks.len(),
{
    if ks.len() == 0 {
        m
    } else {
        refresh_step(refresh_seq(m, ks.drop_last()), ks.last())
    }
}

/// What one round did to the node, as witnessed by the batch `ps` it
/// drained and the keys `rs` it self-refreshed, in order: the new table
/// is exactly the drain merged in followed by the refreshes — also when
/// the round ends in an error, nothing is rolled back —, every refreshed
/// key lies in the node's own record space, the number of refreshes is
/// bounded by the configured rate, and the number of sends is bounded by
/// the keys that carried fresh information (drained-fresh and refreshed)
/// times the configured fanout: a round that touched nothing sent
/// nothing.
pub open spec fn round_post(
    pre: Node,
    post: Node,
    config: Config,
    ps: Seq<Packet>,
    rs: Seq<CrdsKey>,
) -> bool {
    let touched = touched_set(pre.spec_table(), pairs_of(ps)).union(rs.to_set());
    &&& post.spec_table() == refresh_seq(merge_seq(pre.spec_table(), pairs_of(ps)), rs)
    &&& forall|i: int|
        0 <= i < rs.len() ==> (#[trigger] rs[i]).from == pre.spec_pubkey() && rs[i].index
            < config.num_crds
    &&& rs.len() <= config.refresh_rate_ppm / 1_000_000 + 1
    &&& pre.spec_sent() <= post.spec_sent()
    &&& post.spec_sent() <= pre.spec_sent() + touched.len() * config.gossip_push_fanout
}

/// A legal no-op round: when the drain carried nothing fresh and nothing
/// was self-refreshed, the witnessed round relation pins the node's table
/// and its send counter unchanged — nothing was pushed.
pub proof fn lemma_round_noop(
    pre: Node,
    post: Node,
    config: Config,
    ps: Seq<Packet>,
    rs: Seq<CrdsKey>,
)
    requires
        round_post(pre, post, config, ps, rs),
        touched_set(pre.spec_table(), pairs_of(ps)).union(rs.to_set())
            == Set::<CrdsKey>::empty(),
    ensures
        post.spec_table() == pre.spec_table(),
        post.spec_sent() == pre.spec_sent(),
{
    let union = touched_set(pre.spec_table(), pairs_of(ps)).union(rs.to_set());
    assert(touched_set(pre.spec_table(), pairs_of(ps)) =~= Set::<CrdsKey>::empty()) by {
        assert forall|k: CrdsKey|
            touched_set(pre.spec_table(), pairs_of(ps)).contains(k) implies false by {
            assert(union.contains(k));
        }
    }
    crate::table::lemma_merge_seq_untouched(pre.spec_table(), pairs_of(ps));
    assert(rs.len() == 0) by {
        if rs.len() > 0 {
            assert(rs.contains(rs[0]));
            assert(rs.to_set().contains(rs[0]));
            assert(union.contains(rs[0]));
        }
    }
    assert(union.len() == 0);
    assert(union.len() * config.gossip_push_fanout == 0) by (nonlinear_arith)
        requires
            union.len() == 0,
    ;
}

/// All recognized simulation options; probabilities and rates are carried
/// in parts per million so the configuration stays in integers.
#[derive(Clone, Copy, Debug, PartialEq, Eq, Structural)]
pub struct Config {
    /// Peers contacted per touched key per round.
    pub gossip_push_fanout: usize,
    /// Recognized amplification knob for a designated seed node; the
    /// round algorithm applies the uniform fanout to every key and
    /// leaves this an unwired extension point.
    pub gossip_push_wide_fanout: usize,
    /// Probability that the router silently discards a message.
    pub packet_drop_rate_ppm: u32,
    /// Size of each node's own record-index space.
    pub num_crds: usize,
    /// Expected self-refreshes per round; the integer part always runs,
    /// the fractional part runs as a Bernoulli draw.
    pub refresh_rate_ppm: u64,
    /// Parallel scheduler workers.
    pub num_threads: usize,
    /// Wall-clock budget of a run.
    pub run_duration_millis: u64,
}

fn sat_add_u64(a: u64, b: u64) -> (r: u64)
    ensures
        a + b <= u64::MAX ==> r == a + b,
        a + b > u64::MAX ==> r == u64::MAX,
{
    if b > u64::MAX - a {
        u64::MAX
    } else {
        a + b
    }
}

/// One participant: identity, stake, owned table, inbound channel and
/// diagnostic counters; mutated only under exclusive access.
pub struct Node {
    pubkey: PeerId,
    stake: u64,
    table: VersionedTable,
    receiver: crossbeam_channel::Receiver<Packet>,
    num_gossip_rounds: u64,
    num_packets: u64,
    num_outdated: u64,
    num_sent: u64,
}

impl Node {
    /// Well-formedness: the table holds each key once.
    pub closed spec fn wf(&self) -> bool {
        self.table.wf()
    }

    pub closed spec fn spec_pubkey(&self) -> PeerId {
        self.pubkey
    }

    pub closed spec fn spec_stake(&self) -> u64 {
        self.stake
    }

    pub closed spec fn spec_table(&self) -> Map<CrdsKey, u64> {
        self.table@
    }

    pub closed spec fn spec_rounds(&self) -> u64 {
        self.num_gossip_rounds
    }

    pub closed spec fn spec_packets(&self) -> u64 {
        self.num_packets
    }

    pub closed spec fn spec_outdated(&self) -> u64 {
        self.num_outdated
    }

    pub closed spec fn spec_sent(&self) -> u64 {
        self.num_sent
    }

    /// A fresh node with an empty table and zeroed counters.
    pub fn new(pubkey: PeerId, stake: u64, receiver: crossbeam_channel::Receiver<Packet>) -> (n:
        Node)
        ensures
            n.wf(),
            n.spec_pubkey() == pubkey,
            n.spec_stake() == stake,
            n.spec_table() == Map::<CrdsKey, u64>::empty(),
            n.spec_rounds() == 0,
            n.spec_packets() == 0,
            n.spec_outdated() == 0,
            n.spec_sent() == 0,
    {
        Node {
            pubkey,
            stake,
            table: VersionedTable::new(),
            receiver,
            num_gossip_rounds: 0,
            num_packets: 0,
            num_outdated: 0,
            num_sent: 0,
        }
    }

    pub fn stake(&self) -> (r: u64)
        ensures
            r == self.spec_stake(),
    {
        self.stake
    }

    pub fn pubkey(&self) -> (r: PeerId)
        ensures
            r == self.spec_pubkey(),
    {
        self.pubkey
    }

    /// The node's versioned table, for reporting.
    pub fn table(&self) -> (r: &VersionedTable)
        requires
            self.wf(),
        ensures
            r.wf(),
            r@ == self.spec_table(),
    {
        &self.table
    }

    /// How many messages sit in the inbox right now; a point-in-time
    /// count, nothing can be promised of it.
    pub fn num_buffered(&self) -> usize {
        inbox_len(&self.receiver)
    }

    pub fn num_gossip_rounds(&self) -> (r: u64)
        ensures
            r == self.spec_rounds(),
    {
        self.num_gossip_rounds
    }

    pub fn num_packets(&self) -> (r: u64)
        ensures
            r == self.spec_packets(),
    {
        self.num_packets
    }

    pub fn num_outdated(&self) -> (r: u64)
        ensures
            r == self.spec_outdated(),
    {
        self.num_outdated
    }

    pub fn num_sent(&self) -> (r: u64)
        ensures
            r == self.spec_sent(),
    {
        self.num_sent
    }

    /// Drains the inbox without blocking and merges every buffered
    /// packet into the table.  What was buffered depends on the other
    /// workers, so the relation to the drained batch is existential; the
    /// merge itself is exact for every batch (see
    /// [`VersionedTable::merge_packets`]).
    pub fn consume_packets(&mut self) -> (r: (Vec<CrdsKey>, usize, usize))
        requires
            old(self).wf(),
        ensures
            final(self).wf(),
            final(self).spec_pubkey() == old(self).spec_pubkey(),
            final(self).spec_stake() == old(self).spec_stake(),
            final(self).spec_rounds() == old(self).spec_rounds(),
            final(self).spec_sent() == old(self).spec_sent(),
            exists|ps: Seq<Packet>|
                consume_post(
                    old(self).spec_table(),
                    final(self).spec_table(),
                    r.0@,
                    r.1 as int,
                    r.2 as int,
                    ps,
                ),
            r.0@.no_duplicates(),
            forall|j: int|
                0 <= j < r.0@.len() ==> final(self).spec_table().contains_key(
                    #[trigger] r.0@[j],
                ),
            forall|k: CrdsKey|
                old(self).spec_table().contains_key(k) ==> final(self).spec_table().contains_key(
                    k,
                ) && final(self).spec_table()[k] >= old(self).spec_table()[k],
            old(self).spec_packets() + r.1 <= u64::MAX ==> final(self).spec_packets() == old(
                self,
            ).spec_packets() + r.1,
            old(self).spec_outdated() + r.2 <= u64::MAX ==> final(self).spec_outdated() == old(
                self,
            ).spec_outdated() + r.2,
    {
        let ghost t0 = self.table@;
        let packets = drain_packets(&self.receiver);
        let (touched, np, nod) = self.table.merge_packets(&packets);
        self.num_packets = sat_add_u64(self.num_packets, np as u64);
        self.num_outdated = sat_add_u64(self.num_outdated, nod as u64);
        proof {
            crate::table::lemma_merge_seq_max(t0, pairs_of(packets@));
            assert(consume_post(
                old(self).spec_table(),
                self.spec_table(),
                touched@,
                np as int,
                nod as int,
                packets@,
            ));
        }
        (touched, np, nod)
    }

    /// One gossip round: drain and merge the inbox, refresh own records
    /// at the configured rate, prioritize the touched keys by origin
    /// stake, and push each to a bounded number of shuffled peers.  The
    /// table only ever grows monotonically, and what the round did is
    /// witnessed exactly by a drained batch and a refresh sequence (see
    /// [`round_post`]) — also when a failed send aborts the round with
    /// the router's error, nothing is rolled back.  A draw of a record
    /// already at the version type's ceiling refreshes nothing.
    pub fn run_gossip(
        &mut self,
        rng: &mut rand::rngs::StdRng,
        config: &Config,
        stakes: &Stakes,
        router: &Router,
    ) -> (res: Result<(), Error>)
        requires
            old(self).wf(),
            stakes.wf(),
            router.wf(),
            config.refresh_rate_ppm > 0 ==> config.num_crds > 0,
        ensures
            final(self).wf(),
            final(self).spec_pubkey() == old(self).spec_pubkey(),
            final(self).spec_stake() == old(self).spec_stake(),
            forall|k: CrdsKey|
                old(self).spec_table().contains_key(k) ==> final(self).spec_table().contains_key(
                    k,
                ) && final(self).spec_table()[k] >= old(self).spec_table()[k],
            old(self).spec_rounds() < u64::MAX ==> final(self).spec_rounds() == old(
                self,
            ).spec_rounds() + 1,
            exists|ps: Seq<Packet>, rs: Seq<CrdsKey>|
                round_post(*old(self), *final(self), *config, ps, rs),
            res is Err ==> res == Err::<(), Error>(Error::RouterError(RouterError::SendError))
                || exists|p: PeerId|
                res == Err::<(), Error>(Error::RouterError(RouterError::NodeNotFound(p)))
                    && stakes@.contains_key(p) && !router.spec_peers().contains(p),
            router.spec_drop_ppm() >= PPM_SCALE && (forall|p: PeerId| #[trigger]
                stakes@.contains_key(p) ==> router.spec_peers().contains(p)) ==> res is Ok,
    {
        broadcast use group_to_multiset_ensures;

        let ghost t0 = self.table@;
        // 1. drain the inbox and merge into the table
        let (mut touched, np, nod) = self.consume_packets();
        let ghost psg = choose|ps: Seq<Packet>|
            consume_post(t0, self.spec_table(), touched@, np as int, nod as int, ps);
        let ghost m1 = self.spec_table();
        self.num_gossip_rounds = sat_add_u64(self.num_gossip_rounds, 1);
        let ghost rounds1 = self.num_gossip_rounds;
        let ghost sent1 = self.num_sent;
        // 2. refresh own records: the whole part of the rate always, the
        //    fractional part as a Bernoulli draw
        let whole: u64 = config.refresh_rate_ppm / 1_000_000;
        let frac: u64 = config.refresh_rate_ppm % 1_000_000;
        let draw = gen_below(rng, 1_000_000);
        let bump: u64 = if (draw as u64) < frac {
            1
        } else {
            0
        };
        let num_refresh: u64 = whole + bump;
        let ghost mut rsg: Seq<CrdsKey> = Seq::<CrdsKey>::empty();
        proof {
            if config.refresh_rate_ppm == 0 {
                assert(whole == 0 && frac == 0 && bump == 0);
            }
            assert(refresh_seq(m1, rsg) == m1);
            assert(touched@.to_set() =~= touched_set(t0, pairs_of(psg)).union(rsg.to_set()));
        }
        let mut c: u64 = 0;
        while c < num_refresh
            invariant
                c <= num_refresh,
                num_refresh <= config.refresh_rate_ppm / 1_000_000 + 1,
                num_refresh > 0 ==> config.num_crds > 0,
                self.wf(),
                self.spec_pubkey() == old(self).spec_pubkey(),
                self.spec_stake() == old(self).spec_stake(),
                self.spec_rounds() == rounds1,
                self.spec_sent() == sent1,
                rsg.len() <= c,
                forall|i: int|
                    0 <= i < rsg.len() ==> (#[trigger] rsg[i]).from == old(self).spec_pubkey()
                        && rsg[i].index < config.num_crds,
                self.spec_table() == refresh_seq(m1, rsg),
                touched@.to_set() == touched_set(t0, pairs_of(psg)).union(rsg.to_set()),
                touched@.no_duplicates(),
                forall|j: int|
                    0 <= j < touched@.len() ==> self.spec_table().contains_key(
                        #[trigger] touched@[j],
                    ),
                forall|k: CrdsKey|
                    t0.contains_key(k) ==> self.spec_table().contains_key(k)
                        && self.spec_table()[k] >= t0[k],
            decreases num_refresh - c,
        {
            let index = gen_below(rng, config.num_crds);
            let key = CrdsKey { from: self.pubkey, index };
            let cur = self.table.get(&key);
            let can = match cur {
                Some(v) => v < u64::MAX,
                None => true,
            };
            if can {
                let ghost tb = self.spec_table();
                let _version = self.table.refresh(key);
                proof {
                    let rprev = rsg;
                    rsg = rsg.push(key);
                    assert(rsg.drop_last() =~= rprev);
                    assert(rsg.last() == key);
                    assert(self.spec_table() == refresh_step(tb, key));
                    crate::assoc::lemma_push_to_set(rprev, key);
                    assert forall|k: CrdsKey| t0.contains_key(k) implies self.spec_table()
                        .contains_key(k) && self.spec_table()[k] >= t0[k] by {
                        if k != key {
                            assert(self.table@[k] == tb[k]);
                        }
                    }
                }
                let ghost tpre = touched@;
                if !vec_contains_key(&touched, &key) {
                    touched.push(key);
                    proof {
                        crate::assoc::lemma_push_to_set(tpre, key);
                    }
                }
                proof {
                    assert(touched@.to_set() =~= touched_set(t0, pairs_of(psg)).union(
                        rsg.to_set(),
                    ));
                }
            }
            c += 1;
        }
        // 3. prioritize: touched keys by descending origin stake
        let ghost tpre = touched@;
        sort_keys_by_stake(&mut touched, stakes);
        proof {
            assert forall|j: int| 0 <= j < touched@.len() implies self.spec_table().contains_key(
                #[trigger] touched@[j],
            ) by {
                assert(touched@.contains(touched@[j]));
                assert(touched@.to_multiset().count(touched@[j]) > 0);
                assert(tpre.contains(touched@[j]));
                let w = choose|w: int| 0 <= w < tpre.len() && tpre[w] == touched@[j];
            }
            // the reordering keeps the key set and its distinctness
            tpre.lemma_multiset_has_no_duplicates();
            touched@.lemma_multiset_has_no_duplicates_conv();
            assert forall|k: CrdsKey| #[trigger]
                touched@.to_set().contains(k) <==> tpre.to_set().contains(k) by {
                if touched@.to_set().contains(k) {
                    assert(touched@.contains(k));
                    assert(touched@.to_multiset().count(k) > 0);
                    assert(tpre.contains(k));
                }
                if tpre.to_set().contains(k) {
                    assert(tpre.contains(k));
                    assert(tpre.to_multiset().count(k) > 0);
                    assert(touched@.contains(k));
                }
            }
            assert(touched@.to_set() =~= touched_set(t0, pairs_of(psg)).union(rsg.to_set()));
            touched@.unique_seq_to_set();
        }
        // 4. fan out: one shuffle of the peer set per round
        let mut peers = stakes.peers();
        let ghost peers0 = peers@;
        shuffle_peers(rng, &mut peers);
        proof {
            assert forall|w: int| 0 <= w < peers@.len() implies stakes@.contains_key(
                #[trigger] peers@[w],
            ) by {
                assert(peers@.contains(peers@[w]));
                assert(peers@.to_multiset().count(peers@[w]) > 0);
                assert(peers0.contains(peers@[w]));
                let w2 = choose|w2: int| 0 <= w2 < peers0.len() && peers0[w2] == peers@[w];
            }
        }
        let plan = plan_sends(&touched, &self.table, &peers, config.gossip_push_fanout);
        proof {
            lemma_plan_bound(touched@, self.table@, peers@, config.gossip_push_fanout as nat);
            assert forall|x: int| 0 <= x < plan@.len() implies stakes@.contains_key(
                (#[trigger] plan@[x]).0,
            ) by {
                assert(peers@.contains(plan@[x].0));
                let w2 = choose|w2: int| 0 <= w2 < peers@.len() && peers@[w2] == plan@[x].0;
            }
        }
        let nplan = plan.len();
        let mut w: usize = 0;
        while w < nplan
            invariant
                nplan == plan@.len(),
                w <= nplan,
                self.wf(),
                stakes.wf(),
                router.wf(),
                self.spec_pubkey() == old(self).spec_pubkey(),
                self.spec_stake() == old(self).spec_stake(),
                t0 == old(self).spec_table(),
                old(self).spec_rounds() < u64::MAX ==> rounds1 == old(self).spec_rounds() + 1,
                self.spec_rounds() == rounds1,
                sent1 == old(self).spec_sent(),
                sent1 <= self.spec_sent(),
                self.spec_sent() <= sent1 + w,
                nplan <= touched_set(t0, pairs_of(psg)).union(rsg.to_set()).len()
                    * config.gossip_push_fanout,
                self.spec_table() == refresh_seq(merge_seq(t0, pairs_of(psg)), rsg),
                rsg.len() <= config.refresh_rate_ppm / 1_000_000 + 1,
                forall|i: int|
                    0 <= i < rsg.len() ==> (#[trigger] rsg[i]).from == old(self).spec_pubkey()
                        && rsg[i].index < config.num_crds,
                forall|k: CrdsKey|
                    t0.contains_key(k) ==> self.spec_table().contains_key(k)
                        && self.spec_table()[k] >= t0[k],
                forall|x: int| 0 <= x < plan@.len() ==> stakes@.contains_key((#[trigger] plan@[x]).0),
            decreases nplan - w,
        {
            let (dest, packet) = plan[w];
            match router.send(rng, &dest, packet) {
                Ok(_) => {},
                Err(e) => {
                    proof {
                        assert(round_post(*old(self), *self, *config, psg, rsg));
                        if router.spec_drop_ppm() >= PPM_SCALE {
                            // a full drop rate delivers nothing, but every
                            // send to a known peer succeeds: the failed
                            // destination cannot be covered by the router
                            assert(stakes@.contains_key(dest));
                            assert(!router.spec_peers().contains(dest));
                        }
                    }
                    return Err(Error::RouterError(e));
                },
            }
            self.num_sent = sat_add_u64(self.num_sent, 1);
            w += 1;
        }
        proof {
            assert(round_post(*old(self), *self, *config, psg, rsg));
        }
        Ok(())
    }
}

/// Builds the simulated cluster from directory data: one node per listed
/// peer, with its stake from the stake map (zero when absent), an empty
/// table, and a fresh inbound channel whose sending half is returned for
/// the router.
pub fn make_gossip_cluster(peer_ids: &Vec<PeerId>, stakes: &Stakes) -> (r: Vec<
    (Node, crossbeam_channel::Sender<Packet>),
>)
    requires
        stakes.wf(),
    ensures
        r@.len() == peer_ids@.len(),
        forall|i: int|
            0 <= i < r@.len() ==> {
                &&& (#[trigger] r@[i]).0.wf()
                &&& r@[i].0.spec_pubkey() == peer_ids@[i]
                &&& r@[i].0.spec_stake() == stake_of(stakes@, peer_ids@[i])
                &&& r@[i].0.spec_table() == Map::<CrdsKey, u64>::empty()
                &&& r@[i].0.spec_rounds() == 0
            },
{
    let n = peer_ids.len();
    let mut r: Vec<(Node, crossbeam_channel::Sender<Packet>)> = Vec::new();
    let mut i: usize = 0;
    while i < n
        invariant
            n == peer_ids@.len(),
            i <= n,
            stakes.wf(),
            r@.len() == i,
            forall|j: int|
                0 <= j < i ==> {
                    &&& (#[trigger] r@[j]).0.wf()
                    &&& r@[j].0.spec_pubkey() == peer_ids@[j]
                    &&& r@[j].0.spec_stake() == stake_of(stakes@, peer_ids@[j])
                    &&& r@[j].0.spec_table() == Map::<CrdsKey, u64>::empty()
                    &&& r@[j].0.spec_rounds() == 0
                },
        decreases n - i,
    {
        let pubkey = peer_ids[i];
        let stake = stakes.get(&pubkey);
        let (sender, receiver) = new_channel();
        let node = Node::new(pubkey, stake, receiver);
        r.push((node, sender));
        i += 1;
    }
    r
}

} // verus!
