use aethel_core::IdentityError;
use aethel_core::htss::{HypercubeNetwork, NodeAddress, SecretSharer, HYPERCUBE_DIM, MODULUS_Q, THRESHOLD_K};

#[test]
fn test_htss_split_reconstruct() {
    let secret: u64 = 5234123;
    let seed: u64 = 0xdeadbeef_cafebabe;
    let shares = SecretSharer::split_secret(secret, THRESHOLD_K, HYPERCUBE_DIM, seed);
    assert_eq!(shares.len(), HYPERCUBE_DIM);
    let reconstructed = SecretSharer::reconstruct_secret(&shares[0..THRESHOLD_K]);
    assert_eq!(reconstructed, Ok(secret));
}

#[test]
fn test_hypercube_routing() {
    let network = HypercubeNetwork::new();
    let src = NodeAddress(0b00000);
    let dst = NodeAddress(0b11111);
    let seed: u64 = 0x1234567890abcdef;
    let shares = SecretSharer::split_secret(42u64, THRESHOLD_K, HYPERCUBE_DIM, seed);
    let delivered = network.route_payload_shares(src, dst, &shares);
    assert_eq!(delivered.len(), HYPERCUBE_DIM);
    for pkt in &delivered {
        assert_eq!(pkt.current_node, dst);
    }
}

#[test]
fn every_three_of_five_shares_reconstruct_the_secret() {
    let secret: u64 = 7_654_321;
    let shares = SecretSharer::split_secret(secret, 3, 5, 0x0123_4567_89ab_cdef);
    for a in 0..5 {
        for b in (a + 1)..5 {
            for c in (b + 1)..5 {
                let subset = [shares[a], shares[b], shares[c]];
                assert_eq!(SecretSharer::reconstruct_secret(&subset), Ok(secret), "shares {a},{b},{c}");
            }
        }
    }
}

#[test]
fn a_secret_above_the_modulus_reconstructs_reduced() {
    let secret: u64 = MODULUS_Q + 17;
    let shares = SecretSharer::split_secret(secret, 3, 5, 99);
    assert_eq!(SecretSharer::reconstruct_secret(&shares[1..4]), Ok(17));
}

#[test]
fn shares_are_indexed_from_one() {
    let shares = SecretSharer::split_secret(5, 3, 5, 1);
    let ids: Vec<u8> = shares.iter().map(|s| s.0).collect();
    assert_eq!(ids, vec![1, 2, 3, 4, 5]);
    assert!(shares.iter().all(|s| s.1 < MODULUS_Q));
}

#[test]
fn neighbors_and_hamming_distance() {
    let a = NodeAddress(0b00101);
    assert_eq!(a.neighbor(1), NodeAddress(0b00111));
    assert_eq!(a.neighbor(0), NodeAddress(0b00100));
    assert_eq!(a.hamming_distance(&NodeAddress(0b11010)), 5);
    assert_eq!(a.hamming_distance(&a), 0);
}

#[test]
fn the_network_has_every_node_of_the_cube() {
    let network = HypercubeNetwork::new();
    assert_eq!(network.nodes.len(), 32);
    for (i, n) in network.nodes.iter().enumerate() {
        assert_eq!(n.0 as usize, i);
    }
}

#[test]
fn routing_stops_where_the_route_reaches_the_destination() {
    let network = HypercubeNetwork::new();
    let src = NodeAddress(0);
    let dst = NodeAddress(0b00011);
    // Route 0 crosses dimensions 0 then 1; route 1 crosses 1, 2, 3, 4, 0 and
    // never has exactly bits 0 and 1 set, so only share 0 is routed.
    let shares = vec![(1u8, 10u64)];
    let delivered = network.route_payload_shares(src, dst, &shares);
    assert_eq!(delivered.len(), 1);
    assert_eq!(delivered[0].route_index, 2);
    assert_eq!(delivered[0].current_node, dst);
    assert_eq!(delivered[0].payload.share_val, 10);
}

#[test]
fn a_repeated_index_is_an_invalid_share_set() {
    let shares = [(1u8, 5u64), (1, 7), (2, 9)];
    assert_eq!(SecretSharer::reconstruct_secret(&shares), Err(IdentityError::InvalidShareSet));
    assert_eq!(SecretSharer::reconstruct_secret_checked(&shares), Err(IdentityError::InvalidShareSet));
    assert_eq!(SecretSharer::reconstruct_secret_checked(&shares[..2]), Err(IdentityError::ThresholdNotMet));
}

#[test]
fn more_than_the_threshold_of_shares_reconstruct() {
    let secret: u64 = 1_234_567;
    let shares = SecretSharer::split_secret(secret, 4, 9, 0xfeed);
    assert_eq!(SecretSharer::reconstruct_secret(&shares[2..6]), Ok(secret));
    assert_eq!(SecretSharer::reconstruct_secret(&shares[..]), Ok(secret));
    let picked = [shares[8], shares[0], shares[5], shares[3], shares[6]];
    assert_eq!(SecretSharer::reconstruct_secret(&picked), Ok(secret));
}
