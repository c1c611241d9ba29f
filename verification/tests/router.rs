use cluster_mocks::Error;
use cluster_mocks::RouterError;
use cluster_mocks::Router;
use cluster_mocks::ids::Packet;
use cluster_mocks::ids::PeerId;
use cluster_mocks::rng::gen_below;
use cluster_mocks::rng::shuffle_peers;
use cluster_mocks::router::should_drop;
use rand::SeedableRng;
use rand::rngs::StdRng;

fn packet(from: u64, index: usize, ordinal: u64) -> Packet {
    Packet { from: PeerId(from), index, ordinal }
}

#[test]
fn router_rejects_invalid_drop_rate() {
    let r = Router::new(1_000_001, Vec::new());
    match r {
        Err(RouterError::InvalidPacketDropRate(ppm)) => assert_eq!(ppm, 1_000_001),
        _ => panic!("expected an invalid drop rate error"),
    }
}

#[test]
fn router_rejects_duplicate_peer() {
    let (s1, _r1) = crossbeam_channel::unbounded();
    let (s2, _r2) = crossbeam_channel::unbounded();
    let (s3, _r3) = crossbeam_channel::unbounded();
    let nodes = vec![(PeerId(1), s1), (PeerId(2), s2), (PeerId(1), s3)];
    match Router::new(0, nodes) {
        Err(RouterError::DuplicatePubkey(p)) => assert_eq!(p, PeerId(1)),
        _ => panic!("expected a duplicate peer error"),
    }
}

#[test]
fn router_send_unknown_peer_is_node_not_found() {
    let (s1, _r1) = crossbeam_channel::unbounded();
    let router = Router::new(0, vec![(PeerId(1), s1)]).unwrap();
    let mut rng = StdRng::seed_from_u64(1);
    match router.send(&mut rng, &PeerId(42), packet(1, 0, 0)) {
        Err(RouterError::NodeNotFound(p)) => assert_eq!(p, PeerId(42)),
        _ => panic!("expected a dispatch error"),
    }
}

#[test]
fn router_send_torn_down_channel_is_send_error() {
    let (s1, r1) = crossbeam_channel::unbounded::<Packet>();
    let router = Router::new(0, vec![(PeerId(1), s1)]).unwrap();
    drop(r1);
    let mut rng = StdRng::seed_from_u64(1);
    assert_eq!(
        router.send(&mut rng, &PeerId(1), packet(1, 0, 0)),
        Err(RouterError::SendError)
    );
}

#[test]
fn zero_drop_rate_delivers_every_send() {
    // P4, deterministic part: with a drop rate of zero every send is
    // delivered.
    let (s1, r1) = crossbeam_channel::unbounded();
    let router = Router::new(0, vec![(PeerId(1), s1)]).unwrap();
    let mut rng = StdRng::seed_from_u64(2);
    for i in 0..1000u64 {
        router.send(&mut rng, &PeerId(1), packet(2, 0, i)).unwrap();
    }
    assert_eq!(r1.len(), 1000);
}

#[test]
fn full_drop_rate_delivers_nothing() {
    // P4, deterministic part: with a drop rate of one nothing arrives,
    // yet every send reports success (silent loss).
    let (s1, r1) = crossbeam_channel::unbounded();
    let router = Router::new(1_000_000, vec![(PeerId(1), s1)]).unwrap();
    let mut rng = StdRng::seed_from_u64(3);
    for i in 0..1000u64 {
        router.send(&mut rng, &PeerId(1), packet(2, 0, i)).unwrap();
    }
    assert_eq!(r1.len(), 0);
}

#[test]
fn drop_rate_is_met_empirically() {
    // P4, statistical part: with a drop rate of 0.25 the observed
    // delivery rate over many sends converges to 0.75.
    let (s1, r1) = crossbeam_channel::unbounded();
    let router = Router::new(250_000, vec![(PeerId(1), s1)]).unwrap();
    let mut rng = StdRng::seed_from_u64(4);
    let total = 10_000u64;
    for i in 0..total {
        router.send(&mut rng, &PeerId(1), packet(2, 0, i)).unwrap();
    }
    let delivered = r1.len();
    assert!(delivered > 7200, "delivered only {delivered} of {total}");
    assert!(delivered < 7800, "delivered {delivered} of {total}");
}

#[test]
fn drop_rule_edges() {
    assert!(!should_drop(0, 0));
    assert!(!should_drop(999_999, 0));
    assert!(should_drop(0, 1_000_000));
    assert!(should_drop(999_999, 1_000_000));
    assert!(should_drop(249_999, 250_000));
    assert!(!should_drop(250_000, 250_000));
}

#[test]
fn random_draws_stay_below_bound() {
    let mut rng = StdRng::seed_from_u64(5);
    for _ in 0..1000 {
        assert!(gen_below(&mut rng, 7) < 7);
        assert_eq!(gen_below(&mut rng, 1), 0);
    }
}

#[test]
fn shuffle_keeps_the_same_peers() {
    let mut rng = StdRng::seed_from_u64(6);
    let mut peers: Vec<PeerId> = (0..50u64).map(PeerId).collect();
    shuffle_peers(&mut rng, &mut peers);
    let mut ids: Vec<u64> = peers.iter().map(|p| p.0).collect();
    ids.sort();
    let expected: Vec<u64> = (0..50).collect();
    assert_eq!(ids, expected);
}

#[test]
fn router_error_converts_into_run_error() {
    let e: Error = Error::from(RouterError::SendError);
    assert_eq!(e, Error::RouterError(RouterError::SendError));
}
