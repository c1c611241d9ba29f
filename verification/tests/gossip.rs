use cluster_mocks::Router;
use cluster_mocks::ids::CrdsKey;
use cluster_mocks::ids::Packet;
use cluster_mocks::ids::PeerId;
use cluster_mocks::node::Config;
use cluster_mocks::node::Node;
use cluster_mocks::node::make_gossip_cluster;
use cluster_mocks::report::get_crds_table;
use cluster_mocks::report::make_report_rows;
use cluster_mocks::report::sort_rows_by_stake;
use cluster_mocks::stakes::Stakes;
use cluster_mocks::table::MergeOutcome;
use rand::SeedableRng;
use rand::rngs::StdRng;

fn config(fanout: usize, drop_ppm: u32, num_crds: usize, refresh_ppm: u64) -> Config {
    Config {
        gossip_push_fanout: fanout,
        gossip_push_wide_fanout: fanout,
        packet_drop_rate_ppm: drop_ppm,
        num_crds,
        refresh_rate_ppm: refresh_ppm,
        num_threads: 1,
        run_duration_millis: 0,
    }
}

fn cluster(stake_list: &[(u64, u64)]) -> (Vec<Node>, Router, Stakes, u32) {
    build_cluster(stake_list, 0)
}

fn build_cluster(stake_list: &[(u64, u64)], drop_ppm: u32) -> (Vec<Node>, Router, Stakes, u32) {
    let pairs: Vec<(PeerId, u64)> =
        stake_list.iter().map(|&(id, stake)| (PeerId(id), stake)).collect();
    let stakes = Stakes::aggregate(&pairs);
    let peer_ids: Vec<PeerId> = stake_list.iter().map(|&(id, _)| PeerId(id)).collect();
    let mut nodes_and_senders = make_gossip_cluster(&peer_ids, &stakes);
    let mut nodes = Vec::new();
    let mut senders = Vec::new();
    for (node, sender) in nodes_and_senders.drain(..) {
        senders.push((node.pubkey(), sender));
        nodes.push(node);
    }
    let router = Router::new(drop_ppm, senders).unwrap();
    (nodes, router, stakes, drop_ppm)
}

#[test]
fn make_gossip_cluster_assigns_stakes() {
    let (nodes, _router, _stakes, _) = cluster(&[(1, 100), (2, 50), (3, 0)]);
    assert_eq!(nodes.len(), 3);
    assert_eq!(nodes[0].pubkey(), PeerId(1));
    assert_eq!(nodes[0].stake(), 100);
    assert_eq!(nodes[1].stake(), 50);
    assert_eq!(nodes[2].stake(), 0);
    for node in &nodes {
        assert_eq!(node.table().len(), 0);
        assert_eq!(node.num_gossip_rounds(), 0);
        assert_eq!(node.num_buffered(), 0);
    }
}

#[test]
fn outdated_and_waste_accounting() {
    // P8: node A refreshes a key twice before node B ever drains; B's
    // single merge of the delivered pair reports Inserted, a duplicate
    // delivery of the same pair then reports Outdated.
    let (mut nodes, router, _stakes, _) = cluster(&[(1, 10), (2, 10)]);
    let k = CrdsKey { from: PeerId(1), index: 0 };
    // A refreshes the key twice; versions 0 then 1.
    let mut a_table = cluster_mocks::table::VersionedTable::new();
    assert_eq!(a_table.refresh(k), 0);
    assert_eq!(a_table.refresh(k), 1);
    let latest = Packet { from: PeerId(1), index: 0, ordinal: a_table.get(&k).unwrap() };
    // the freshest version reaches B once
    let mut rng = StdRng::seed_from_u64(10);
    router.send(&mut rng, &PeerId(2), latest).unwrap();
    let b = &mut nodes[1];
    let (touched, num_packets, num_outdated) = b.consume_packets();
    assert_eq!(num_packets, 1);
    assert_eq!(num_outdated, 0);
    assert_eq!(touched, vec![k]);
    assert_eq!(b.table().get(&k), Some(1));
    // a duplicate delivery of the same (key, version) is outdated
    router.send(&mut rng, &PeerId(2), latest).unwrap();
    let (touched, num_packets, num_outdated) = b.consume_packets();
    assert_eq!(num_packets, 1);
    assert_eq!(num_outdated, 1);
    assert!(touched.is_empty());
    // and so says a direct merge, too
    let mut b_table = cluster_mocks::table::VersionedTable::new();
    assert_eq!(b_table.merge(k, 1), MergeOutcome::Inserted);
    assert_eq!(b_table.merge(k, 1), MergeOutcome::Outdated);
}

#[test]
fn end_to_end_four_nodes_reach_full_freshness() {
    // P7: 4 nodes, stakes [100, 50, 25, 25], fanout 2, no drops, one
    // refresh per round, 20 rounds single-threaded with a seeded random
    // source: every node ends fully fresh, and every sent packet is
    // accounted for as consumed.
    let (mut nodes, router, stakes, _) = cluster(&[(1, 100), (2, 50), (3, 25), (4, 25)]);
    let refreshing = config(2, 0, 1, 1_000_000);
    let mut rng = StdRng::seed_from_u64(7);
    for _round in 0..20 {
        for node in nodes.iter_mut() {
            node.run_gossip(&mut rng, &refreshing, &stakes, &router).unwrap();
        }
    }
    // a fanout of 2 cannot hand the very last refresh to all 3 other
    // peers in the same round: let the cluster settle (no new versions)
    // until the final versions have diffused everywhere
    let settling = config(2, 0, 1, 0);
    for _round in 0..6 {
        for node in nodes.iter_mut() {
            node.run_gossip(&mut rng, &settling, &stakes, &router).unwrap();
        }
    }
    // final single-threaded drain
    for node in nodes.iter_mut() {
        node.consume_packets();
        assert_eq!(node.num_buffered(), 0);
    }
    // ground truth: each origin refreshed its single record 20 times,
    // reaching version 19
    let reference = get_crds_table(&nodes);
    assert_eq!(reference.len(), 4);
    for id in 1..=4u64 {
        let k = CrdsKey { from: PeerId(id), index: 0 };
        assert_eq!(reference.get(&k), Some(19));
    }
    // no drops, no losses: everything sent was consumed somewhere
    let total_sent: u64 = nodes.iter().map(|n| n.num_sent()).sum();
    let total_consumed: u64 = nodes.iter().map(|n| n.num_packets()).sum();
    assert_eq!(total_sent, total_consumed);
    assert!(total_sent > 0);
    // every node's table is fully fresh
    let rows = make_report_rows(&nodes, &reference);
    for row in &rows {
        assert_eq!(row.table_len, 4);
        assert_eq!(row.num_hits, row.table_len);
        assert_eq!(row.rounds, 26);
    }
}

#[test]
fn report_rows_rank_by_stake() {
    let (mut nodes, router, stakes, _) = cluster(&[(5, 25), (6, 100), (7, 50), (8, 25)]);
    let config = config(2, 0, 1, 1_000_000);
    let mut rng = StdRng::seed_from_u64(8);
    for node in nodes.iter_mut() {
        node.run_gossip(&mut rng, &config, &stakes, &router).unwrap();
    }
    let reference = get_crds_table(&nodes);
    let mut rows = make_report_rows(&nodes, &reference);
    sort_rows_by_stake(&mut rows);
    let ranked: Vec<(u64, u64)> = rows.iter().map(|r| (r.stake, r.pubkey.0)).collect();
    assert_eq!(ranked, vec![(100, 6), (50, 7), (25, 5), (25, 8)]);
}

fn drive(nodes: &mut [Node], rounds: usize, seed: u64, config: &Config, stakes: &Stakes, router: &Router) {
    let mut rng = StdRng::seed_from_u64(seed);
    for _ in 0..rounds {
        for node in nodes.iter_mut() {
            node.run_gossip(&mut rng, config, stakes, router).unwrap();
        }
    }
}

#[test]
fn no_lost_updates_under_concurrency() {
    // P5: the same per-node round counts produce the same cluster-wide
    // maximum-version table whether the nodes are driven by one worker
    // or by two concurrent workers.
    let config = config(2, 0, 1, 1_000_000);

    let (mut solo, solo_router, solo_stakes, _) = cluster(&[(1, 100), (2, 50), (3, 25), (4, 25)]);
    drive(&mut solo, 10, 20, &config, &solo_stakes, &solo_router);
    for node in solo.iter_mut() {
        node.consume_packets();
    }
    let solo_reference = get_crds_table(&solo);

    let (mut both, both_router, both_stakes, _) = cluster(&[(1, 100), (2, 50), (3, 25), (4, 25)]);
    {
        let (left, right) = both.split_at_mut(2);
        rayon::join(
            || drive(left, 10, 21, &config, &both_stakes, &both_router),
            || drive(right, 10, 22, &config, &both_stakes, &both_router),
        );
    }
    for node in both.iter_mut() {
        node.consume_packets();
    }
    let both_reference = get_crds_table(&both);

    assert!(solo_reference.same_view(&both_reference));
    for id in 1..=4u64 {
        let k = CrdsKey { from: PeerId(id), index: 0 };
        assert_eq!(solo_reference.get(&k), Some(9));
        assert_eq!(both_reference.get(&k), Some(9));
    }
}

#[test]
fn fanout_never_exceeds_touched_times_fanout() {
    // P6, observed at run time: one round of one node sends at most
    // touched × fanout messages, and with plenty of peers exactly
    // fanout per touched key.
    let (mut nodes, router, stakes, _) = cluster(&[(1, 5), (2, 4), (3, 3), (4, 2), (5, 1)]);
    let config = config(3, 0, 1, 1_000_000);
    let mut rng = StdRng::seed_from_u64(9);
    let node = &mut nodes[0];
    node.run_gossip(&mut rng, &config, &stakes, &router).unwrap();
    // exactly one touched key (its own refresh), fanout 3
    assert_eq!(node.num_sent(), 3);
}

#[test]
fn failed_send_keeps_the_round_work() {
    // a torn-down destination channel aborts the round with the router's
    // error, but nothing is rolled back: the drained merges and the
    // self-refresh stay in the table
    let pairs = vec![(PeerId(1), 10u64), (PeerId(2), 10)];
    let stakes = Stakes::aggregate(&pairs);
    let peer_ids = vec![PeerId(1), PeerId(2)];
    let mut cluster = make_gossip_cluster(&peer_ids, &stakes);
    let (node2, sender2) = cluster.pop().unwrap();
    let (mut node1, sender1) = cluster.pop().unwrap();
    drop(node2); // its receiver goes with it
    let router = Router::new(0, vec![(PeerId(1), sender1), (PeerId(2), sender2)]).unwrap();
    let config = config(1, 0, 1, 1_000_000);
    let mut rng = StdRng::seed_from_u64(12);
    let res = node1.run_gossip(&mut rng, &config, &stakes, &router);
    assert_eq!(
        res,
        Err(cluster_mocks::Error::RouterError(cluster_mocks::RouterError::SendError))
    );
    // the self-refresh of this round survived the failed send
    let k = CrdsKey { from: PeerId(1), index: 0 };
    assert_eq!(node1.table().get(&k), Some(0));
    assert_eq!(node1.num_gossip_rounds(), 1);
}

#[test]
fn dropped_packets_are_counted_nowhere() {
    // with a full drop rate a round still succeeds, but nothing is
    // delivered to anyone
    let (mut nodes, router, stakes, _) = build_cluster(&[(1, 10), (2, 10)], 1_000_000);
    let config = config(2, 1_000_000, 1, 1_000_000);
    let mut rng = StdRng::seed_from_u64(11);
    for _ in 0..5 {
        for node in nodes.iter_mut() {
            node.run_gossip(&mut rng, &config, &stakes, &router).unwrap();
        }
    }
    for node in nodes.iter_mut() {
        let (_touched, num_packets, _outdated) = node.consume_packets();
        assert_eq!(num_packets, 0);
    }
    assert!(nodes.iter().all(|n| n.table().len() == 1));
}
