use clove_core::bitfield::Bitfield;
use clove_core::picker::{Mode, Picker};
use clove_core::wire::BLOCK_LEN;

// Torrent geometry helper: `n` pieces of one block each.
fn one_block_pieces(n: u32) -> Picker {
    // piece_length = BLOCK_LEN so each piece is exactly one block.
    Picker::new(n, BLOCK_LEN, u64::from(n) * u64::from(BLOCK_LEN), Mode::RarestFirst)
}

fn field(len: u32, present: &[u32]) -> Bitfield {
    let mut bf = Bitfield::empty(len);
    for &p in present {
        bf.set(p);
    }
    bf
}

#[test]
fn block_geometry_last_piece_short() {
    // 3 pieces, piece_length 3*BLOCK, total = 2 full pieces + 100 bytes.
    let total = 2 * u64::from(BLOCK_LEN) * 3 + 100;
    let p = Picker::new(3, 3 * BLOCK_LEN, total, Mode::RarestFirst);
    assert_eq!(p.blocks_in_piece(0), 3);
    assert_eq!(p.piece_len(2), 100);
    assert_eq!(p.blocks_in_piece(2), 1);
    assert_eq!(p.block_len(2, 0), 100);
    assert_eq!(p.block_len(0, 2), BLOCK_LEN);
}

#[test]
fn rarest_first_orders_by_availability() {
    let mut p = one_block_pieces(4);
    // Peer A has all; make piece 2 rarest, piece 0 most common.
    p.add_bitfield(&field(4, &[0, 1, 2, 3])); // all +1
    p.add_bitfield(&field(4, &[0, 1, 3])); // 2 stays rarest
    p.add_bitfield(&field(4, &[0, 3])); // 0 and 3 most common
    let peer = field(4, &[0, 1, 2, 3]);
    let picks = p.pick(&peer, 4);
    let order: Vec<u32> = picks.iter().map(|b| b.index).collect();
    assert_eq!(order, vec![2, 1, 0, 3]); // ascending availability, tie by index
}

#[test]
fn sequential_orders_by_index() {
    let mut p = Picker::new(4, BLOCK_LEN, 4 * u64::from(BLOCK_LEN), Mode::Sequential);
    p.add_bitfield(&field(4, &[0, 1, 2, 3]));
    p.add_bitfield(&field(4, &[3])); // make 3 most common; sequential ignores it
    let picks = p.pick(&field(4, &[0, 1, 2, 3]), 4);
    let order: Vec<u32> = picks.iter().map(|b| b.index).collect();
    assert_eq!(order, vec![0, 1, 2, 3]);
}

#[test]
fn switching_mode_changes_the_next_pick_only() {
    let mut p = Picker::new(4, BLOCK_LEN, 4 * u64::from(BLOCK_LEN), Mode::RarestFirst);
    // Endgame would hand the same block out twice and obscure the point.
    p.set_endgame_blocks(0);
    let peer = field(4, &[0, 1, 2, 3]);
    p.add_bitfield(&peer);
    p.add_bitfield(&field(4, &[0, 1, 2])); // piece 3 is now rarest
    assert_eq!(p.pick(&peer, 1)[0].index, 3);
    assert_eq!(p.mode(), Mode::RarestFirst);

    p.set_mode(Mode::Sequential);
    assert_eq!(p.mode(), Mode::Sequential);
    // Piece 3 stays in flight (the switch does not cancel work) and the next
    // pick walks from the front regardless of rarity.
    assert_eq!(p.pick(&peer, 1)[0].index, 0);
}

#[test]
fn does_not_double_request_outside_endgame() {
    let mut p = one_block_pieces(3);
    p.set_endgame_blocks(0); // disable endgame
    let peer = field(3, &[0, 1, 2]);
    let first = p.pick(&peer, 3);
    assert_eq!(first.len(), 3);
    // Everything is in-flight now; a second peer gets nothing new.
    assert!(p.pick(&peer, 3).is_empty());
    // Release one; it becomes available again.
    p.block_failed(1, 0);
    let again = p.pick(&peer, 3);
    assert_eq!(again.len(), 1);
    assert_eq!(again[0].index, 1);
}

#[test]
fn endgame_allows_duplicate_requests() {
    let mut p = one_block_pieces(2); // 2 blocks total <= default threshold
    assert!(p.in_endgame());
    let peer = field(2, &[0, 1]);
    let a = p.pick(&peer, 2);
    assert_eq!(a.len(), 2);
    // In endgame the same blocks can be handed to a second peer.
    let b = p.pick(&peer, 2);
    assert_eq!(b.len(), 2);
}

#[test]
fn prefers_finishing_started_pieces() {
    // Two pieces of two blocks each; start piece 1, then a fresh pick should
    // continue piece 1 before opening piece 0.
    let total = 2 * 2 * u64::from(BLOCK_LEN);
    let mut p = Picker::new(2, 2 * BLOCK_LEN, total, Mode::RarestFirst);
    p.set_endgame_blocks(0);
    p.add_bitfield(&field(2, &[0, 1]));
    let _ = p.pick(&field(2, &[1]), 1); // peer only has piece 1 -> starts it
    let picks = p.pick(&field(2, &[0, 1]), 1);
    assert_eq!(picks[0].index, 1, "should finish started piece 1 first");
}

#[test]
fn full_download_lifecycle() {
    let mut p = one_block_pieces(3);
    let peer = field(3, &[0, 1, 2]);
    let picks = p.pick(&peer, 10);
    assert_eq!(picks.len(), 3);
    for (i, b) in picks.iter().enumerate() {
        let complete = p.block_received(b.index, b.begin / BLOCK_LEN);
        assert!(complete, "one-block piece completes on its block");
        p.set_have(b.index);
        assert!(p.has(b.index), "piece {i}");
    }
    assert!(p.is_complete());
    assert!(p.have_field().is_full());
    // Nothing left to pick.
    assert!(p.pick(&peer, 10).is_empty());
}

#[test]
fn failed_verification_redownloads() {
    let mut p = one_block_pieces(1);
    let peer = field(1, &[0]);
    let b = p.pick(&peer, 1);
    assert!(p.block_received(0, 0));
    // Verification failed: reset and it must be re-pickable.
    p.reset_piece(0);
    assert!(!p.has(0));
    let again = p.pick(&peer, 1);
    assert_eq!(again.len(), 1);
    assert_eq!(again[0], b[0]);
}

#[test]
fn availability_removed_on_peer_leave() {
    let mut p = one_block_pieces(2);
    let f = field(2, &[0, 1]);
    p.add_bitfield(&f);
    assert_eq!(p.availability(0), 1);
    p.remove_bitfield(&f);
    assert_eq!(p.availability(0), 0);
    // Never underflows.
    p.remove_bitfield(&f);
    assert_eq!(p.availability(0), 0);
}

#[test]
fn priorities_come_before_rarity_and_zero_is_never_picked() {
    let mut p = one_block_pieces(4);
    p.add_bitfield(&field(4, &[0, 1, 2, 3]));
    p.add_bitfield(&field(4, &[2]));
    p.set_piece_priorities(&[1, 0, 2, 1]);
    let picks = p.pick(&field(4, &[0, 1, 2, 3]), 4);
    let order: Vec<u32> = picks.iter().map(|b| b.index).collect();
    assert_eq!(order, vec![2, 0, 3]);
    assert_eq!(p.bytes_left(), 3 * u64::from(BLOCK_LEN));
    p.set_piece_priorities(&[0, 0, 0, 0]);
    assert!(p.is_complete());
    assert_eq!(p.bytes_left(), 0);
    assert!(p.check_invariants());
}

#[test]
fn outstanding_requests_are_counted() {
    let mut p = one_block_pieces(3);
    p.set_endgame_blocks(0);
    let peer = field(3, &[0, 1, 2]);
    assert_eq!(p.pick(&peer, 2).len(), 2);
    assert_eq!(p.in_flight_total(), 2);
    p.block_failed(0, 0);
    assert_eq!(p.in_flight_total(), 1);
    assert!(p.block_received(1, 0));
    assert_eq!(p.in_flight_total(), 0);
    p.add_single(2);
    assert_eq!(p.availability(2), 1);
    assert_eq!(p.availability(9), 0);
}

#[test]
fn a_reset_piece_is_downloaded_from_scratch() {
    let total = 2 * 3 * u64::from(BLOCK_LEN) - 100;
    let mut p = Picker::new(2, 3 * BLOCK_LEN, total, Mode::RarestFirst);
    p.set_endgame_blocks(0);
    p.set_have(0);
    let peer = field(2, &[1]);
    let _ = p.pick(&peer, 2);
    assert!(!p.block_received(1, 0));
    p.reset_piece(1);
    assert!(p.has(0) && !p.has(1));
    let again = p.pick(&peer, 3);
    let asked: Vec<(u32, u32, u32)> = again.iter().map(|b| (b.index, b.begin, b.length)).collect();
    assert_eq!(
        asked,
        vec![(1, 0, BLOCK_LEN), (1, BLOCK_LEN, BLOCK_LEN), (1, 2 * BLOCK_LEN, BLOCK_LEN - 100)]
    );
}

#[test]
fn a_released_block_comes_back_and_nothing_in_flight_does() {
    let mut p = one_block_pieces(4);
    p.set_endgame_blocks(0);
    let first = p.pick(&field(4, &[0, 1, 2]), 3);
    assert_eq!(first.len(), 3);
    p.block_failed(1, 0);
    let again = p.pick(&field(4, &[1, 2, 3]), usize::MAX);
    let mut order: Vec<u32> = again.iter().map(|b| b.index).collect();
    order.sort_unstable();
    assert_eq!(order, vec![1, 3]);
}
