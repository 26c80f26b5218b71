use std::collections::HashSet;

use clove_core::choker::{Choker, PeerSnapshot, DEFAULT_MAX_UNCHOKED};

fn peer(id: u64, interested: bool, rate: u64, unchoked: bool) -> PeerSnapshot {
    PeerSnapshot { id, interested, rate, unchoked }
}

#[test]
fn seeder_unchokes_its_one_interested_peer() {
    let mut choker = Choker::default();
    let d = choker.plan(&[peer(1, true, 0, false)]);
    assert_eq!(d.unchoke, vec![1]);
    assert!(d.choke.is_empty());
}

#[test]
fn uninterested_peers_stay_choked() {
    let mut choker = Choker::default();
    let d = choker.plan(&[peer(1, false, 999, false), peer(2, false, 5, true)]);
    assert!(d.unchoke.is_empty());
    assert_eq!(d.choke, vec![2]); // was unchoked, now choked
}

#[test]
fn top_rated_peers_win_the_slots() {
    let mut choker = Choker::new(2);
    // Round 1 is not optimistic; pure rate ranking.
    let peers = [
        peer(1, true, 10, false),
        peer(2, true, 40, false),
        peer(3, true, 30, false),
        peer(4, true, 20, false),
    ];
    let d = choker.plan(&peers);
    let mut got = d.unchoke.clone();
    got.sort_unstable();
    assert_eq!(got, vec![2, 3]); // the two fastest
}

#[test]
fn only_reports_changes() {
    let mut choker = Choker::new(2);
    // Peer 2 already unchoked and still winning: no redundant message.
    let peers = [peer(2, true, 40, true), peer(3, true, 30, false)];
    let d = choker.plan(&peers);
    assert_eq!(d.unchoke, vec![3]);
    assert!(d.choke.is_empty());
}

#[test]
fn optimistic_round_gives_a_choked_peer_a_slot() {
    let mut choker = Choker::new(1);
    // One fast peer would monopolize the single slot; a slow choked peer
    // should get an optimistic turn by round 3.
    let mut unchoked_two = false;
    for _ in 0..3 {
        let d = choker.plan(&[peer(1, true, 100, true), peer(2, true, 1, unchoked_two)]);
        if d.unchoke.contains(&2) {
            unchoked_two = true;
        }
    }
    assert!(unchoked_two, "slow peer never got an optimistic unchoke");
}

/// The rotation must reach every candidate whatever their number.
#[test]
fn the_optimistic_slot_visits_every_candidate() {
    for candidates in 1..=12u64 {
        let mut choker = Choker::new(1);
        let mut ever = HashSet::new();
        for _ in 0..(candidates * 6) {
            // Peer 0 is the fixed regular pick; the rest are candidates.
            let peers: Vec<PeerSnapshot> = (0..=candidates)
                .map(|id| peer(id, true, u64::from(id == 0), id == 0))
                .collect();
            ever.extend(choker.plan(&peers).unchoke);
        }
        assert_eq!(
            ever.len() as u64,
            candidates,
            "{candidates} candidates: only {} were ever unchoked",
            ever.len()
        );
    }
}

#[test]
fn there_is_always_one_slot() {
    let mut choker = Choker::new(0);
    let d = choker.plan(&[peer(7, true, 1, false), peer(8, true, 2, false)]);
    assert_eq!(d.unchoke, vec![8]);
    assert_eq!(choker.rounds_planned(), 1);
    assert_eq!(Choker::default().max_unchoked, DEFAULT_MAX_UNCHOKED);
}

#[test]
fn equal_rates_go_to_the_lower_id() {
    let mut choker = Choker::new(1);
    let d = choker.plan(&[peer(9, true, 5, true), peer(4, true, 5, false)]);
    assert_eq!(d.unchoke, vec![4]);
    assert_eq!(d.choke, vec![9]);
}

/// Which peers are unchoked once a plan is applied.
fn unchoked_after(choker: &mut Choker, peers: &[PeerSnapshot]) -> HashSet<u64> {
    let d = choker.plan(peers);
    let mut up: HashSet<u64> = peers.iter().filter(|p| p.unchoked).map(|p| p.id).collect();
    up.retain(|id| !d.choke.contains(id));
    up.extend(d.unchoke);
    up
}

#[test]
fn every_slot_is_used_while_somebody_is_interested() {
    for interested in 0..7u64 {
        let peers: Vec<PeerSnapshot> =
            (0..8).map(|id| peer(id, id < interested, id, id % 2 == 0)).collect();
        let mut choker = Choker::new(3);
        for _ in 0..9 {
            let up = unchoked_after(&mut choker, &peers);
            assert_eq!(up.len() as u64, interested.min(3));
        }
    }
}

#[test]
fn every_interested_peer_has_its_turn() {
    for (slots, extra) in [(1usize, 1u64), (1, 4), (2, 3), (4, 5)] {
        let peers: Vec<PeerSnapshot> =
            (0..slots as u64 + extra).map(|id| peer(id, true, 100 - id, false)).collect();
        for start in 0..4 {
            let mut choker = Choker::new(slots);
            for _ in 0..start {
                let _ = choker.plan(&peers);
            }
            let mut ever = HashSet::new();
            for _ in 0..3 * extra {
                ever.extend(unchoked_after(&mut choker, &peers));
            }
            assert_eq!(ever.len(), peers.len(), "{slots} slots, {extra} more, from {start}");
        }
    }
}

#[test]
fn no_choked_peer_has_a_better_rate_than_an_unchoked_one() {
    let rates = [7u64, 3, 9, 9, 1, 5, 3, 0];
    let peers: Vec<PeerSnapshot> =
        (0..8u64).map(|id| peer(id, id != 2, rates[id as usize], id % 3 == 0)).collect();
    let mut choker = Choker::new(4);
    for round in 1..=6 {
        let up = unchoked_after(&mut choker, &peers);
        if round % 3 != 0 {
            // Best first: 3 (9), 0 (7), 5 (5), then 1 before 6 (3 each).
            assert_eq!(up, HashSet::from([3, 0, 5, 1]), "round {round}");
        } else {
            // The best three, and whoever's turn it is.
            assert!(up.is_superset(&HashSet::from([3, 0, 5])), "round {round}");
            assert_eq!(up.len(), 4);
        }
    }
}
