use cluster_mocks::API_MAINNET_BETA;
use cluster_mocks::API_TESTNET;
use cluster_mocks::get_json_rpc_url;
use cluster_mocks::ids::CrdsKey;
use cluster_mocks::ids::Packet;
use cluster_mocks::ids::PeerId;
use cluster_mocks::stakes::Stakes;
use cluster_mocks::table::MergeOutcome;
use cluster_mocks::table::VersionedTable;

fn key(peer: u64, index: usize) -> CrdsKey {
    CrdsKey { from: PeerId(peer), index }
}

#[test]
fn merge_reports_inserted_updated_outdated() {
    let mut t = VersionedTable::new();
    let k = key(1, 0);
    assert_eq!(t.merge(k, 3), MergeOutcome::Inserted);
    assert_eq!(t.merge(k, 7), MergeOutcome::Updated);
    assert_eq!(t.merge(k, 7), MergeOutcome::Outdated);
    assert_eq!(t.merge(k, 2), MergeOutcome::Outdated);
    assert_eq!(t.get(&k), Some(7));
    assert_eq!(t.len(), 1);
}

#[test]
fn merge_keeps_maximum_version_per_key() {
    // P1: whatever the order and repetition, the stored version per key
    // is the maximum ever merged for it.
    let mut t = VersionedTable::new();
    let pairs = [
        (key(1, 0), 5u64),
        (key(2, 1), 2),
        (key(1, 0), 3),
        (key(2, 1), 9),
        (key(1, 0), 5),
        (key(3, 7), 0),
    ];
    for (k, v) in pairs {
        t.merge(k, v);
    }
    assert_eq!(t.get(&key(1, 0)), Some(5));
    assert_eq!(t.get(&key(2, 1)), Some(9));
    assert_eq!(t.get(&key(3, 7)), Some(0));
    assert_eq!(t.get(&key(4, 0)), None);
    assert_eq!(t.len(), 3);
}

#[test]
fn merge_is_order_independent() {
    // P2: the same multiset of pairs, in any permutation and with
    // duplicates, yields an identical table.
    let forward = [
        (key(1, 0), 5u64),
        (key(2, 1), 2),
        (key(1, 0), 3),
        (key(2, 1), 9),
        (key(1, 0), 5),
    ];
    let mut shuffled = forward;
    shuffled.reverse();
    let mut a = VersionedTable::new();
    for (k, v) in forward {
        a.merge(k, v);
    }
    let mut b = VersionedTable::new();
    for (k, v) in shuffled {
        b.merge(k, v);
    }
    assert!(a.same_view(&b));
    // idempotence: merging everything once more changes nothing
    for (k, v) in forward {
        b.merge(k, v);
    }
    assert!(a.same_view(&b));
    let mut c = VersionedTable::new();
    c.merge(key(1, 0), 5);
    assert!(!a.same_view(&c));
}

#[test]
fn refresh_starts_at_zero_and_increments() {
    // P3: successive refreshes of one key go 0, 1, 2, ...
    let mut t = VersionedTable::new();
    let k = key(9, 4);
    for expected in 0..100u64 {
        assert_eq!(t.refresh(k), expected);
        assert_eq!(t.get(&k), Some(expected));
    }
    // an unrelated key starts at zero again
    assert_eq!(t.refresh(key(9, 5)), 0);
}

#[test]
fn merge_packets_counts_and_touched() {
    let mut t = VersionedTable::new();
    t.merge(key(1, 0), 4);
    let packets = vec![
        Packet { from: PeerId(1), index: 0, ordinal: 3 },  // outdated
        Packet { from: PeerId(1), index: 0, ordinal: 6 },  // updated
        Packet { from: PeerId(2), index: 5, ordinal: 0 },  // inserted
        Packet { from: PeerId(2), index: 5, ordinal: 0 },  // outdated duplicate
    ];
    let (touched, num_packets, num_outdated) = t.merge_packets(&packets);
    assert_eq!(num_packets, 4);
    assert_eq!(num_outdated, 2);
    let mut touched: Vec<(u64, usize)> = touched.iter().map(|k| (k.from.0, k.index)).collect();
    touched.sort();
    assert_eq!(touched, vec![(1, 0), (2, 5)]);
    assert_eq!(t.get(&key(1, 0)), Some(6));
    assert_eq!(t.get(&key(2, 5)), Some(0));
}

#[test]
fn num_hits_counts_fresh_records() {
    let mut reference = VersionedTable::new();
    reference.merge(key(1, 0), 5);
    reference.merge(key(2, 0), 3);
    reference.merge(key(3, 0), 1);
    let mut node = VersionedTable::new();
    node.merge(key(1, 0), 5); // hit
    node.merge(key(2, 0), 2); // stale
    node.merge(key(4, 0), 9); // unknown to the reference
    assert_eq!(node.num_hits(&reference), 1);
    assert_eq!(reference.num_hits(&reference), 3);
}

#[test]
fn stakes_aggregate_sums_per_peer() {
    let pairs = vec![
        (PeerId(1), 10u64),
        (PeerId(2), 5),
        (PeerId(1), 7),
        (PeerId(3), 0),
    ];
    let stakes = Stakes::aggregate(&pairs);
    assert_eq!(stakes.get(&PeerId(1)), 17);
    assert_eq!(stakes.get(&PeerId(2)), 5);
    assert_eq!(stakes.get(&PeerId(3)), 0);
    assert_eq!(stakes.get(&PeerId(4)), 0);
    assert_eq!(stakes.len(), 3);
    let mut peers: Vec<u64> = stakes.peers().iter().map(|p| p.0).collect();
    peers.sort();
    assert_eq!(peers, vec![1, 2, 3]);
}

#[test]
fn json_rpc_url_monikers() {
    assert_eq!(get_json_rpc_url("m"), API_MAINNET_BETA);
    assert_eq!(
        get_json_rpc_url("mainnet-beta"),
        "https://api.mainnet-beta.solana.com"
    );
    assert_eq!(get_json_rpc_url("t"), API_TESTNET);
    assert_eq!(get_json_rpc_url("testnet"), "https://api.testnet.solana.com");
    assert_eq!(get_json_rpc_url("http://localhost:8899"), "http://localhost:8899");
    assert_eq!(get_json_rpc_url(""), "");
}
