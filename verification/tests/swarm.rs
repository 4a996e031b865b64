use agent_share::chunks::Coverage;
use agent_share::swarm::{plan, PeerPlan};

/// A peer holding exactly `held` of a `len`-chunk file.
fn peer(len: usize, held: &[usize]) -> Coverage {
    let mut coverage = Coverage::empty(len);
    for &position in held {
        coverage.insert(position);
    }
    coverage
}

/// Chunk 2 is held by one peer and chunk 0 by three, so 2 is requested first.
#[test]
fn the_rarest_chunk_is_asked_for_first() {
    let holders = [peer(3, &[0, 1, 2]), peer(3, &[0, 1]), peer(3, &[0])];
    let out = plan(&[0, 1, 2], &holders);
    let first = out
        .peers
        .iter()
        .find(|p| p.positions.contains(&2))
        .expect("chunk 2 is assigned");
    assert_eq!(first.peer, 0, "only peer 0 holds chunk 2");
    assert_eq!(first.positions.first(), Some(&2), "and it is asked first");
}

/// A position nobody advertised surfaces.
#[test]
fn a_chunk_no_peer_holds_is_reported_rather_than_dropped() {
    let holders = [peer(4, &[0, 1])];
    let out = plan(&[0, 1, 2, 3], &holders);
    assert_eq!(out.unheld, vec![2, 3]);
    let assigned: Vec<usize> = out.peers.iter().flat_map(|p| p.positions.clone()).collect();
    assert_eq!(assigned.len(), 2);
}

/// With no peers at all, everything falls back and nothing is lost.
#[test]
fn an_empty_swarm_plans_nothing_and_keeps_everything() {
    let out = plan(&[0, 1, 2], &[]);
    assert!(out.peers.is_empty());
    assert_eq!(out.unheld, vec![0, 1, 2]);
}

/// Work is spread rather than piled on the first capable peer.
#[test]
fn equally_rare_chunks_are_shared_between_holders() {
    let holders = [peer(4, &[0, 1, 2, 3]), peer(4, &[0, 1, 2, 3])];
    let out = plan(&[0, 1, 2, 3], &holders);
    assert_eq!(out.peers.len(), 2);
    for peer_plan in &out.peers {
        assert_eq!(peer_plan.positions.len(), 2, "an even split");
    }
    assert!(out.unheld.is_empty());
}

/// A peer that is the only holder gets all of its own chunks.
#[test]
fn a_sole_holder_takes_all_of_what_only_it_has() {
    let holders = [peer(4, &[0, 1, 2]), peer(4, &[3])];
    let out = plan(&[0, 1, 2, 3], &holders);
    let zero = out.peers.iter().find(|p| p.peer == 0).expect("peer 0");
    assert_eq!(zero.positions.len(), 3);
    let one = out.peers.iter().find(|p| p.peer == 1).expect("peer 1");
    assert_eq!(one.positions, vec![3]);
}

/// Among chunks of equal rarity the file arrives in order.
#[test]
fn equal_rarity_keeps_the_wanted_order() {
    let holders = [peer(4, &[0, 1, 2, 3])];
    let out = plan(&[0, 1, 2, 3], &holders);
    assert_eq!(out.peers[0].positions, vec![0, 1, 2, 3]);
}

/// A peer that answered for a shorter row is not asked past its end.
#[test]
fn a_short_coverage_never_claims_the_tail() {
    let holders = [peer(2, &[0, 1])];
    let out = plan(&[0, 1, 5], &holders);
    assert_eq!(out.unheld, vec![5]);
    assert_eq!(
        out.peers,
        vec![PeerPlan {
            peer: 0,
            positions: vec![0, 1]
        }]
    );
}

/// Nothing missing is nothing to do.
#[test]
fn nothing_missing_plans_nothing() {
    let out = plan(&[], &[peer(4, &[0, 1, 2, 3])]);
    assert!(out.peers.is_empty());
    assert!(out.unheld.is_empty());
}

/// What nobody holds comes back in the order in which it was wanted.
#[test]
fn unheld_positions_keep_the_wanted_order() {
    let out = plan(&[5, 2], &[]);
    assert!(out.peers.is_empty());
    assert_eq!(out.unheld, vec![5, 2]);
    let out = plan(&[3, 0, 9, 1, 4], &[peer(4, &[0, 1])]);
    assert_eq!(out.unheld, vec![3, 9, 4]);
    assert_eq!(out.peers, vec![PeerPlan { peer: 0, positions: vec![0, 1] }]);
}
