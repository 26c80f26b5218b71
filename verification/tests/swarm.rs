use clove_core::bitfield::Bitfield;
use clove_core::dest::DestHash;
use clove_core::metainfo::{FileEntry, InfoHash, MetaInfo};
use clove_core::picker::Mode;
use clove_core::swarm::{
    announce_failed, announce_request, announce_succeeded, bytes_present, dial_workers,
    first_schedule, holds_everything, notice_completion, stopped_request, Accepted, AnnounceTarget, AnnouncerConfig, Flags, InboundDemux, Sweep,
    SwarmConfig, Wake, MAX_PENDING_HANDSHAKES,
};
use clove_core::torrent::Torrent;
use clove_core::tracker::{AnnounceResponse, AnnounceState, Event};
use clove_core::wire::{Extensions, Handshake, BLOCK_LEN};

fn dest(n: u8) -> DestHash {
    DestHash([n; 32])
}

#[test]
fn bytes_present_counts_a_short_last_piece_as_short() {
    // Four pieces of 16 KiB over a torrent whose last piece is 100 bytes.
    let piece = u64::from(BLOCK_LEN);
    let total = 3 * piece + 100;
    let field = |present: &[u32]| {
        let mut bf = Bitfield::empty(4);
        for &p in present {
            bf.set(p);
        }
        bf
    };
    assert_eq!(bytes_present(&field(&[]), piece, total), 0);
    assert_eq!(bytes_present(&field(&[0]), piece, total), piece);
    // The tail is 100 bytes, not a whole piece.
    assert_eq!(bytes_present(&field(&[3]), piece, total), 100);
    assert_eq!(bytes_present(&field(&[0, 3]), piece, total), piece + 100);
    assert_eq!(bytes_present(&field(&[0, 1, 2, 3]), piece, total), total);
    // Holding the tail while missing a middle piece must leave that piece
    // outstanding, not zero.
    let done = bytes_present(&field(&[0, 1, 3]), piece, total);
    assert_eq!(total - done, piece, "a missing whole piece went unreported");
    // A piece length of zero counts nothing, and an absurd one nothing twice.
    assert_eq!(bytes_present(&field(&[0, 1]), 0, total), 0);
    assert_eq!(bytes_present(&field(&[0, 3]), u64::MAX, total), total);
}

#[test]
fn failed_dials_retry_after_backoff() {
    let mut sweep = Sweep::new();
    let known = vec![dest(1), dest(2)];
    assert_eq!(sweep.candidates(&known, &vec![], 8, 0), known);
    sweep.failed(&vec![dest(1)], 0, 100);
    assert_eq!(sweep.candidates(&known, &vec![], 8, 50), vec![dest(2)]);
    assert_eq!(sweep.candidates(&known, &vec![], 8, 99), vec![dest(2)]);
    // Once the backoff is over it is eligible again.
    assert_eq!(sweep.candidates(&known, &vec![], 8, 100), known);
    // A second failure replaces the first.
    sweep.failed(&vec![dest(1)], 100, 100);
    sweep.failed(&vec![dest(1)], 150, 100);
    assert_eq!(sweep.candidates(&known, &vec![], 8, 200), vec![dest(2)]);
    assert_eq!(sweep.candidates(&known, &vec![], 8, 250), known);
}

#[test]
fn a_sweep_dials_in_parallel_and_stays_inside_its_budget() {
    let mut sweep = Sweep::new();
    let known: Vec<DestHash> = (1..=20).map(dest).collect();
    let connected = vec![dest(2), dest(90)];
    let wave = sweep.candidates(&known, &connected, 8, 0);
    assert_eq!(wave.len(), 6);
    assert!(!wave.contains(&dest(2)), "a connected peer was dialed again");
    assert_eq!(wave[0], dest(1));
    assert_eq!(wave[1], dest(3));
    assert!(sweep.candidates(&known, &known, 8, 0).is_empty());
    assert_eq!(dial_workers(4, wave.len()), 4);
    assert_eq!(dial_workers(0, wave.len()), 1);
    assert_eq!(dial_workers(100, wave.len()), 6);
}

fn hello(info_hash: [u8; 20]) -> Handshake {
    Handshake {
        info_hash,
        peer_id: [0; 20],
        extensions: Extensions { extended: true, fast: false },
    }
}

#[test]
fn demux_routes_two_torrents_on_one_destination() {
    let mut demux = InboundDemux::new(8);
    demux.register([0x44; 20], 1);
    demux.register([0x55; 20], 2);
    assert_eq!(demux.route(&hello([0x44; 20])), Some(1));
    assert_eq!(demux.route(&hello([0x55; 20])), Some(2));
    // Registering again replaces, unregistering drops.
    demux.register([0x44; 20], 3);
    assert_eq!(demux.route(&hello([0x44; 20])), Some(3));
    demux.unregister(&[0x44; 20]);
    assert_eq!(demux.route(&hello([0x44; 20])), None);
    assert_eq!(demux.route(&hello([0x55; 20])), Some(2));
    assert!(demux.has_room(7));
    assert!(!demux.has_room(8));
}

#[test]
fn demux_drops_unknown_info_hash() {
    let demux = InboundDemux::new(8);
    assert_eq!(demux.route(&hello([0x66; 20])), None);
}

#[test]
fn a_flood_of_silent_connections_does_not_wedge_the_demux() {
    let mut demux = InboundDemux::new(8);
    for _ in 0..MAX_PENDING_HANDSHAKES {
        assert_eq!(demux.accepted(), Accepted::Read);
    }
    assert_eq!(demux.accepted(), Accepted::Refuse);
    assert_eq!(demux.pending(), MAX_PENDING_HANDSHAKES);
    demux.finished();
    assert_eq!(demux.accepted(), Accepted::Read);
    demux.stop();
    assert!(demux.is_stopped());
    assert_eq!(demux.accepted(), Accepted::Stop);
}

#[test]
fn a_nudge_is_not_lost_and_not_repeated() {
    let mut f = Flags::default();
    assert!(f.sleeps());
    assert_eq!(f.wake(), Wake::Elapsed);
    f.nudge();
    assert!(!f.sleeps());
    assert_eq!(f.wake(), Wake::Nudged);
    assert_eq!(f.wake(), Wake::Elapsed);
    f.nudge();
    f.raise();
    assert_eq!(f.wake(), Wake::Stopped);
    assert_eq!(f.wake(), Wake::Stopped);
}

fn torrent_with(have: &Bitfield) -> (Torrent, AnnounceTarget) {
    let total = 3 * u64::from(BLOCK_LEN) + 100;
    let meta = MetaInfo {
        info_hash: InfoHash([0xAB; 20]),
        name: "t".into(),
        piece_length: BLOCK_LEN,
        pieces: vec![[0; 20]; 4],
        files: vec![FileEntry { path: vec!["t".into()], length: total }],
        total_length: total,
        private: true,
        trackers: vec![],
        skipped_trackers: 0,
        raw_info: vec![],
    };
    let torrent = Torrent::new(&meta, have, Mode::RarestFirst, *b"-CV0001-abcdefghijkl", 0);
    let target = AnnounceTarget {
        urls: vec!["http://t.i2p/a".to_owned()],
        our_dest_b64: "MYDEST".to_owned(),
        piece_length: u64::from(BLOCK_LEN),
        total_length: total,
    };
    (torrent, target)
}

#[test]
fn an_announce_reports_what_is_left() {
    let mut have = Bitfield::empty(4);
    have.set(3);
    let (torrent, target) = torrent_with(&have);
    let state = AnnounceState::new();
    let (host, request, event) =
        announce_request(&torrent, "http://t.i2p/a", &state, &target, 50).unwrap();
    assert_eq!(host, "t.i2p");
    assert_eq!(event, Event::Started);
    let text = String::from_utf8(request).unwrap();
    assert!(text.contains(&format!("&left={}&", 3 * BLOCK_LEN)), "{text}");
    assert!(text.contains("&ip=MYDEST&event=started"), "{text}");
    assert!(text.contains("&numwant=50&"), "{text}");
    assert!(announce_request(&torrent, "udp://t.i2p/a", &state, &target, 50).is_err());

    // Complete: nothing is left, and the download is reported once.
    let (torrent, target) = torrent_with(&Bitfield::full(4));
    let mut state = AnnounceState::new();
    state.on_success(0, 60, Event::Started);
    let (_, request, event) =
        announce_request(&torrent, "http://t.i2p/a", &state, &target, 50).unwrap();
    assert_eq!(event, Event::Completed);
    assert!(String::from_utf8(request).unwrap().contains("&left=0&"));
}

#[test]
fn a_goodbye_asks_for_nothing() {
    let (torrent, target) = torrent_with(&Bitfield::empty(4));
    let (_, request) =
        stopped_request(torrent.info_hash(), torrent.peer_id(), "http://t.i2p/a", &target).unwrap();
    let text = String::from_utf8(request).unwrap();
    assert!(text.contains("&numwant=0&"), "{text}");
    assert!(text.contains("&event=stopped"), "{text}");
}

#[test]
fn an_answer_feeds_the_sweep_and_a_failure_is_kept() {
    let (mut torrent, _) = torrent_with(&Bitfield::empty(4));
    let mut state = AnnounceState::new();
    let response = AnnounceResponse {
        interval: 1800,
        min_interval: None,
        peers: vec![dest(1), dest(2)],
        destinations: vec![],
    };
    announce_succeeded(&mut torrent, &mut state, &response, Event::Started, 1000);
    assert_eq!(torrent.known_peers(), vec![dest(1), dest(2)]);
    assert!(!state.due(2799));
    assert!(state.due(2800));
    announce_failed(&mut torrent, &mut state, "http://t.i2p/a", "tracker: HTTP status 503", 3000);
    assert_eq!(
        torrent.announce_status(),
        (1, 1, Some("http://t.i2p/a: tracker: HTTP status 503".to_owned()))
    );
    assert!(!state.due(3029));
    assert!(state.due(3030));
}

#[test]
fn the_defaults_lean_generous() {
    let c = SwarmConfig::default();
    assert_eq!(c.max_peers, 50);
    assert_eq!(c.dial_concurrency, 8);
    assert_eq!(c.dial_timeout, 120_000);
    assert_eq!(c.sweep_interval, 10_000);
    assert_eq!(c.retry_backoff, 30_000);
    let a = AnnouncerConfig::default();
    assert_eq!((a.poll_interval, a.dial_timeout, a.numwant), (5_000, 120_000, 50));
}

#[test]
fn a_torrent_that_starts_whole_has_no_download_to_report() {
    let (seed, _) = torrent_with(&Bitfield::full(4));
    let mut state = first_schedule(&seed);
    assert!(state.due(0));
    assert_eq!(state.next_event(true), Event::Started);
    state.on_success(0, 60, Event::Started);
    assert_eq!(state.next_event(true), Event::Periodic);
    // It was whole at the first look too, so nothing is brought forward.
    assert!(holds_everything(&seed));
    assert!(notice_completion(&seed, &mut state, true));
    assert!(notice_completion(&seed, &mut state, false));
    assert!(!state.due(59));
}

#[test]
fn a_download_that_finishes_is_announced_at_once_and_once() {
    let mut have = Bitfield::full(4);
    have.clear(2);
    let (leech, _) = torrent_with(&have);
    let mut state = first_schedule(&leech);
    // Not heard of by the tracker yet: there is nothing to bring forward.
    assert!(!notice_completion(&leech, &mut state, false));
    state.on_success(0, 1800, Event::Started);
    assert!(!notice_completion(&leech, &mut state, false));
    assert!(!state.due(10));
    let (seed, _) = torrent_with(&Bitfield::full(4));
    assert!(notice_completion(&seed, &mut state, false));
    assert!(state.due(10));
    assert_eq!(state.next_event(true), Event::Completed);
    // A failure backs off, and the next look brings nothing forward again.
    state.on_failure(10);
    assert!(notice_completion(&seed, &mut state, true));
    assert!(!state.due(11));
}

#[test]
fn what_is_left_is_what_remains_unless_pieces_are_skipped() {
    let mut have = Bitfield::empty(4);
    have.set(0);
    let (mut torrent, target) = torrent_with(&have);
    let state = AnnounceState::new();
    let left = |torrent: &Torrent| {
        let (_, request, _) =
            announce_request(torrent, "http://t.i2p/a", &state, &target, 50).unwrap();
        let text = String::from_utf8(request).unwrap();
        let (_, rest) = text.split_once("&left=").unwrap();
        rest.split_once('&').unwrap().0.parse::<u64>().unwrap()
    };
    assert_eq!(left(&torrent), 2 * u64::from(BLOCK_LEN) + 100);
    assert_eq!(left(&torrent), torrent.bytes_left());
    // A skipped piece is not downloaded, and still reported.
    torrent.set_piece_priorities(&[1, 0, 1, 1]);
    assert_eq!(left(&torrent), 2 * u64::from(BLOCK_LEN) + 100);
    assert_eq!(torrent.bytes_left(), u64::from(BLOCK_LEN) + 100);
}
