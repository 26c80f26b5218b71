use std::collections::VecDeque;

use clove_core::bencode::{encode, Dict, Value};
use clove_core::bitfield::Bitfield;
use clove_core::budget::PeerBudget;
use clove_core::dest::DestHash;
use clove_core::extension::{self, I2P_PEX, UT_METADATA};
use clove_core::fetch::{FetchError, MetadataFetch, Next};
use clove_core::metadata::{
    MetadataMessage, METADATA_REQUEST_LIMIT, METADATA_REQUEST_WINDOW,
};
use clove_core::metainfo::{FileEntry, InfoHash, MetaInfo};
use clove_core::pex::PexMessage;
use clove_core::picker::Mode;
use clove_core::reputation::{Reputation, Source, MAX_KNOWN_PEERS, SUSPICION_LIMIT};
use clove_core::storage::{verified_field, Layout};
use clove_core::torrent::{
    handshake_slice, AttachError, HandshakeEnd, Outgoing, Torrent, DEFAULT_CHOKE_INTERVAL,
    DEFAULT_IDLE_TIMEOUT, DEFAULT_KEEPALIVE_INTERVAL, DEFAULT_REQUEST_TIMEOUT, HANDSHAKE_POLL,
    MAX_CONNECTIONS_PER_DEST, OUR_METADATA_ID, OUR_PEX_ID, PIPELINE_DEPTH, REQUEST_STRIKES,
};
use clove_core::wire::{BlockRequest, Extensions, Handshake, Message, BLOCK_LEN};
use clove_core::world::Disk;
use sha1::{Digest, Sha1};

fn meta_for(files: Vec<FileEntry>, piece_length: u32, content: &[u8]) -> MetaInfo {
    let total: u64 = files.iter().map(|f| f.length).sum();
    assert_eq!(total, content.len() as u64);
    let pieces: Vec<[u8; 20]> =
        content.chunks(piece_length as usize).map(|c| Sha1::digest(c).into()).collect();
    MetaInfo {
        info_hash: InfoHash([0x33; 20]),
        name: "demo".into(),
        piece_length,
        pieces,
        files,
        total_length: total,
        private: true,
        trackers: vec![],
        skipped_trackers: 0,
        raw_info: vec![],
    }
}

/// A real single-file torrent via bencode+parse, so `raw_info` holds the
/// genuine info-dict bytes (needed to serve metadata).
fn real_meta(content: &[u8]) -> MetaInfo {
    let pieces: Vec<u8> = content
        .chunks(BLOCK_LEN as usize)
        .flat_map(|c| <[u8; 20]>::from(Sha1::digest(c)))
        .collect();
    let mut info = Dict::new();
    info.insert(b"name".to_vec(), Value::Bytes(b"demo".to_vec()));
    info.insert(b"piece length".to_vec(), Value::Int(i64::from(BLOCK_LEN)));
    info.insert(b"pieces".to_vec(), Value::Bytes(pieces));
    info.insert(b"length".to_vec(), Value::Int(i64::try_from(content.len()).unwrap()));
    let mut root = Dict::new();
    root.insert(b"info".to_vec(), Value::Dict(info));
    MetaInfo::parse(&encode(&Value::Dict(root))).unwrap()
}

fn content_of(len: u32) -> Vec<u8> {
    (0..len).map(|i| u8::try_from(i % 251).unwrap_or(0)).collect()
}

fn file(path: &[&str], length: u64) -> FileEntry {
    FileEntry { path: path.iter().map(|p| p.to_string()).collect(), length }
}

/// One piece per file, so "which file was skipped" is readable off the wire.
fn three_file_meta(content: &[u8]) -> MetaInfo {
    let each = u64::from(BLOCK_LEN);
    let files = ["a.bin", "b.bin", "c.bin"].iter().map(|n| file(&["demo", n], each)).collect();
    meta_for(files, BLOCK_LEN, content)
}

/// A torrent with its files in memory: the part a program does around it.
struct Node {
    torrent: Torrent,
    budget: PeerBudget,
    layout: Layout,
    files: Vec<Vec<u8>>,
    broken_disk: bool,
}

impl Node {
    fn new(meta: &MetaInfo, have: &Bitfield, mode: Mode, peer_id: [u8; 20]) -> Node {
        Node {
            torrent: Torrent::new(meta, have, mode, peer_id, 0),
            budget: PeerBudget::unlimited(),
            layout: Layout::new(meta),
            files: meta.files.iter().map(|f| vec![0u8; f.length as usize]).collect(),
            broken_disk: false,
        }
    }

    fn write(&mut self, index: u32, begin: u32, data: &[u8]) -> bool {
        if self.broken_disk {
            return false;
        }
        match self.layout.segments(index, begin, data.len() as u64) {
            Ok(v) => {
                for s in v {
                    let at = s.offset as usize;
                    let part = &data[s.from as usize..s.to as usize];
                    self.files[s.file][at..at + part.len()].copy_from_slice(part);
                }
                true
            }
            Err(_) => false,
        }
    }

    fn read(&self, index: u32, begin: u32, len: u32) -> Vec<u8> {
        let mut out = Vec::new();
        for s in self.layout.segments(index, begin, u64::from(len)).unwrap() {
            let at = s.offset as usize;
            out.extend_from_slice(&self.files[s.file][at..at + (s.to - s.from) as usize]);
        }
        out
    }

    fn verify(&self, index: u32) -> bool {
        let data = self.read(index, 0, self.layout.piece_len(index));
        self.layout.verify_piece(index, &data)
    }

    fn verify_all(&self) -> Bitfield {
        let v: Vec<bool> = (0..self.layout.num_pieces()).map(|p| self.verify(p)).collect();
        verified_field(&v)
    }

    /// One message, from arrival to what goes out because of it.
    fn hear(&mut self, id: u64, msg: &Message, now: u64) -> Vec<Outgoing> {
        let mut out = Vec::new();
        match self.torrent.on_message(id, msg, now, &mut out) {
            Disk::Nothing => {}
            Disk::Write { index, begin } => {
                let ok = match msg {
                    Message::Piece { block, .. } => self.write(index, begin, block),
                    _ => unreachable!(),
                };
                if let Some(p) = self.torrent.on_written(id, index, begin, ok, now, &mut out) {
                    let good = self.verify(p);
                    self.torrent.on_verified(id, p, good, now, &mut out);
                }
            }
            Disk::Read(r) => {
                let data = self.read(r.index, r.begin, r.length);
                self.torrent.on_read(id, r, data, &mut out);
            }
        }
        let evict = self.torrent.settle(now, &mut out);
        for gone in evict {
            self.torrent.remove_peer(&mut self.budget, gone);
        }
        out
    }

    fn attach(&mut self, dest: DestHash, now: u64) -> (u64, Vec<Outgoing>) {
        let mut out = Vec::new();
        let id = self
            .torrent
            .attach(&mut self.budget, dest, true, now, &mut out)
            .expect("seated");
        (id, out)
    }
}

/// Let two nodes talk until neither has anything left to say.
fn converse(a: &mut Node, b: &mut Node, a_dest: DestHash, b_dest: DestHash) {
    let (a_id, a_out) = a.attach(b_dest, 0);
    let (b_id, b_out) = b.attach(a_dest, 0);
    let mut queue: VecDeque<(bool, Message)> = VecDeque::new();
    queue.extend(a_out.into_iter().map(|o| (true, o.msg)));
    queue.extend(b_out.into_iter().map(|o| (false, o.msg)));
    let mut steps = 0;
    while let Some((to_b, msg)) = queue.pop_front() {
        steps += 1;
        assert!(steps < 10_000, "the exchange does not end");
        let out = if to_b { b.hear(b_id, &msg, 1) } else { a.hear(a_id, &msg, 1) };
        queue.extend(out.into_iter().map(|o| (!to_b, o.msg)));
    }
}

fn requests(out: &[Outgoing]) -> Vec<BlockRequest> {
    out.iter()
        .filter_map(|o| match &o.msg {
            Message::Request(r) => Some(*r),
            _ => None,
        })
        .collect()
}

/// The engine must never ask for a piece the user set to skip, and must ask for
/// a high-priority one first.
#[test]
fn priorities_decide_what_the_engine_asks_for() {
    let content = content_of(3 * BLOCK_LEN);
    let meta = three_file_meta(&content);
    let mut node =
        Node::new(&meta, &Bitfield::empty(3), Mode::Sequential, *b"-CV0001-prioprioprio");
    // Skip the middle file, raise the last: the untouched sequential order
    // would be 0, 1, 2, so both effects are visible.
    node.torrent.set_piece_priorities(&meta.piece_priorities(&[1, 0, 2]));

    let (id, _) = node.attach(DestHash([1; 32]), 0);
    let mut out = node.hear(id, &Message::Bitfield(vec![0b1110_0000]), 1);
    out.extend(node.hear(id, &Message::Unchoke, 2));
    let asked: Vec<u32> = requests(&out).iter().map(|r| r.index).collect();
    assert!(!asked.contains(&1), "the skipped file's piece was requested anyway: {asked:?}");
    assert_eq!(asked.first(), Some(&2), "the high-priority file comes first: {asked:?}");
    assert!(asked.contains(&0), "the normal file must still be downloaded: {asked:?}");
    assert_eq!(node.torrent.bytes_left(), 2 * u64::from(BLOCK_LEN));
}

/// Changing priorities on a running torrent takes effect on that torrent, not
/// merely on the next start.
#[test]
fn a_live_torrent_picks_up_a_priority_change() {
    let content = content_of(3 * BLOCK_LEN);
    let meta = three_file_meta(&content);
    let mut torrent =
        Torrent::new(&meta, &Bitfield::empty(3), Mode::Sequential, *b"-CV0001-priolivepri0", 0);

    assert_eq!(torrent.bytes_left(), 3 * u64::from(BLOCK_LEN));
    assert!(!torrent.is_complete());

    torrent.set_piece_priorities(&meta.piece_priorities(&[0, 0, 1]));
    assert_eq!(torrent.bytes_left(), u64::from(BLOCK_LEN));

    // Skipping everything finishes it: there is nothing left to wait for.
    torrent.set_piece_priorities(&meta.piece_priorities(&[0, 0, 0]));
    assert_eq!(torrent.bytes_left(), 0);
    assert!(torrent.is_complete());
}

/// Two instances negotiate extensions and one learns a third peer over peer
/// exchange.
#[test]
fn peers_exchange_via_i2p_pex() {
    let content = vec![7u8; 100];
    let meta = real_meta(&content);
    let peer_id = *b"-CV0001-pexpexpexpex";
    let mut a = Node::new(&meta, &Bitfield::empty(1), Mode::RarestFirst, peer_id);
    let mut b = Node::new(&meta, &Bitfield::empty(1), Mode::RarestFirst, peer_id);

    // A already knows a third peer X, which B has never seen.
    let x = DestHash([0xAB; 32]);
    a.torrent.add_peers(&vec![x]);
    converse(&mut a, &mut b, DestHash([1; 32]), DestHash([2; 32]));

    assert!(b.torrent.known_peers().contains(&x), "B never learned peer X via i2p_pex");
    // The counter must record only what peer exchange taught us: B also knows A
    // from the connection, and A knows B and X without either arriving that way.
    assert_eq!(b.torrent.pex_learned(), 1, "B learned exactly one peer over PEX");
    assert_eq!(a.torrent.pex_learned(), 0, "A learned nothing over PEX");
}

fn greeting_of(meta: &MetaInfo, fetch_hash: [u8; 20]) -> (MetadataFetch, Message) {
    let theirs = Handshake {
        info_hash: meta.info_hash.0,
        peer_id: *b"-CV0001-serverserver",
        extensions: Extensions { extended: true, fast: false },
    };
    let (fetch, send) = MetadataFetch::begin(fetch_hash, &theirs).unwrap();
    (fetch, Message::parse(&send[4..]).unwrap())
}

fn frames_in(bytes: &[u8]) -> Vec<Message> {
    let mut at = 0;
    let mut out = Vec::new();
    while at < bytes.len() {
        let n = u32::from_be_bytes([bytes[at], bytes[at + 1], bytes[at + 2], bytes[at + 3]]);
        out.push(Message::parse(&bytes[at + 4..at + 4 + n as usize]).unwrap());
        at += 4 + n as usize;
    }
    out
}

fn body_of(msg: &Message) -> Vec<u8> {
    msg.encode()[4..].to_vec()
}

/// A magnet client fetches and verifies the info dictionary from a peer that
/// holds it.
#[test]
fn fetches_metadata_over_bep9() {
    let content = content_of(3 * BLOCK_LEN);
    let meta = real_meta(&content);
    let info_hash = meta.info_hash.0;
    assert!(!meta.raw_info.is_empty());

    // The server holds the metadata; storage is irrelevant to serving it.
    let n = meta.pieces.len().try_into().unwrap();
    let mut server =
        Node::new(&meta, &Bitfield::empty(n), Mode::RarestFirst, *b"-CV0001-serverserver");
    let (id, opening) = server.attach(DestHash([5; 32]), 0);
    let (mut fetch, hello) = greeting_of(&meta, info_hash);

    let mut to_client: VecDeque<Message> = opening.into_iter().map(|o| o.msg).collect();
    to_client.extend(server.hear(id, &hello, 1).into_iter().map(|o| o.msg));
    let fetched = loop {
        match fetch.next(false).unwrap() {
            Next::Done(m) => break m,
            Next::Read => {
                let msg = to_client.pop_front().expect("the server has more to say");
                for request in frames_in(&fetch.take(&body_of(&msg)).unwrap()) {
                    to_client.extend(server.hear(id, &request, 2).into_iter().map(|o| o.msg));
                }
            }
        }
    };
    assert_eq!(fetched.info_hash.0, info_hash);
    assert_eq!(fetched.name, "demo");
    assert_eq!(fetched.pieces, meta.pieces);
    assert_eq!(fetched.total_length, content.len() as u64);
}

#[test]
fn a_fetch_reassembles_metadata_of_several_pieces() {
    // 900 hashes are more than one metadata piece holds.
    let content = content_of(900 * BLOCK_LEN);
    let meta = real_meta(&content);
    assert!(meta.raw_info.len() > 16 * 1024);
    let mut server =
        Node::new(&meta, &Bitfield::empty(900), Mode::RarestFirst, *b"-CV0001-serverserver");
    let (id, _) = server.attach(DestHash([5; 32]), 0);
    let (mut fetch, hello) = greeting_of(&meta, meta.info_hash.0);
    server.hear(id, &hello, 1);
    let greeting = offer(Some(meta.raw_info.len()), Some(OUR_METADATA_ID));
    assert!(matches!(fetch.next(false), Ok(Next::Read)));
    let asked = frames_in(&fetch.take(&greeting).unwrap());
    assert_eq!(asked.len(), 2);
    // Out of order, and one of them twice.
    for request in [&asked[1], &asked[1], &asked[0]] {
        assert!(matches!(fetch.next(false), Ok(Next::Read)));
        let reply = server.hear(id, request, 2);
        fetch.take(&body_of(&reply[0].msg)).unwrap();
    }
    match fetch.next(false) {
        Ok(Next::Done(m)) => {
            assert_eq!(m.raw_info, meta.raw_info);
            assert_eq!(m.pieces.len(), 900);
        }
        _ => panic!("the metadata is complete"),
    }
}

fn started_fetch() -> MetadataFetch {
    let theirs = Handshake {
        info_hash: [0x77; 20],
        peer_id: *b"-XX0000-liarliarliar",
        extensions: Extensions { extended: true, fast: false },
    };
    MetadataFetch::begin([0x77; 20], &theirs).unwrap().0
}

fn offer(size: Option<usize>, id: Option<u8>) -> Vec<u8> {
    let ids = match id {
        Some(n) => vec![(UT_METADATA.to_owned(), n)],
        None => vec![],
    };
    let hs = extension::Handshake { ids, metadata_size: size, client: None };
    body_of(&Message::Extended { id: 0, payload: hs.encode() })
}

/// A peer answering the metadata request with an endless stream of pieces it
/// knows we cannot use: a piece of the wrong length never advances the
/// assembly, so nothing but the fetch's own bound can end the exchange.
#[test]
fn metadata_fetch_gives_up_on_a_peer_that_never_finishes() {
    let mut fetch = started_fetch();
    assert!(matches!(fetch.next(false), Ok(Next::Read)));
    let asked = frames_in(&fetch.take(&offer(Some(40_000), Some(3))).unwrap());
    assert_eq!(asked.len(), 3);
    let reply = MetadataMessage::Data { piece: 0, total_size: 40_000, data: vec![0xAA; 100] };
    let body = body_of(&Message::Extended { id: OUR_METADATA_ID, payload: reply.encode() });
    let mut frames = 0;
    let err = loop {
        match fetch.next(false) {
            Ok(_) => {
                frames += 1;
                assert!(fetch.take(&body).unwrap().is_empty());
            }
            Err(e) => break e,
        }
    };
    assert_eq!(err, FetchError::NeverCompletes);
    assert_eq!(frames, 3 * 8 + 32);
}

/// The same refusal one stage earlier: a peer that completes the handshake and
/// then never sends an *extension* handshake, filling the wait with
/// individually ordinary frames.
#[test]
fn metadata_fetch_gives_up_on_a_peer_that_never_handshakes() {
    let mut fetch = started_fetch();
    let mut piece = 0u32;
    let err = loop {
        match fetch.next(false) {
            Ok(_) => {
                assert!(fetch.take(&body_of(&Message::Have(piece))).unwrap().is_empty());
                piece = piece.wrapping_add(1);
            }
            Err(e) => break e,
        }
    };
    assert_eq!(piece, 64);
    assert!(err.message().contains("handshak"), "the error names the stage: {}", err.message());
}

#[test]
fn a_fetch_is_refused_for_each_reason() {
    let theirs = |hash: u8, extended: bool| Handshake {
        info_hash: [hash; 20],
        peer_id: [0; 20],
        extensions: Extensions { extended, fast: false },
    };
    let refused = |h: &Handshake| MetadataFetch::begin([1; 20], h).err();
    assert_eq!(refused(&theirs(2, true)), Some(FetchError::WrongTorrent));
    assert_eq!(refused(&theirs(1, false)), Some(FetchError::NoExtensions));
    assert!(refused(&theirs(1, true)).is_none());

    assert_eq!(started_fetch().next(true).err(), Some(FetchError::HandshakeLate));
    let bad = body_of(&Message::Extended { id: 0, payload: b"nope".to_vec() });
    assert_eq!(started_fetch().take(&bad).err(), Some(FetchError::BadHandshake));
    assert_eq!(
        started_fetch().take(&offer(Some(100), None)).err(),
        Some(FetchError::NotServed)
    );
    assert_eq!(
        started_fetch().take(&offer(None, Some(3))).err(),
        Some(FetchError::NotServed)
    );
    assert_eq!(
        started_fetch().take(&offer(Some(0), Some(3))).err(),
        Some(FetchError::BadSize)
    );

    let mut fetch = started_fetch();
    fetch.take(&offer(Some(4), Some(3))).unwrap();
    assert_eq!(fetch.next(true).err(), Some(FetchError::Late));
    let reject = MetadataMessage::Reject { piece: 0 };
    let body = body_of(&Message::Extended { id: OUR_METADATA_ID, payload: reject.encode() });
    assert_eq!(fetch.take(&body).err(), Some(FetchError::Rejected));

    let mut fetch = started_fetch();
    fetch.take(&offer(Some(4), Some(3))).unwrap();
    let data = MetadataMessage::Data { piece: 0, total_size: 4, data: b"evil".to_vec() };
    let body = body_of(&Message::Extended { id: OUR_METADATA_ID, payload: data.encode() });
    fetch.take(&body).unwrap();
    assert_eq!(fetch.next(false).err(), Some(FetchError::Unverified));

    // The right hash over something that is no info dictionary.
    let hash: [u8; 20] = Sha1::digest(b"evil").into();
    let (mut fetch, _) = MetadataFetch::begin(
        hash,
        &Handshake {
            info_hash: hash,
            peer_id: [0; 20],
            extensions: Extensions { extended: true, fast: false },
        },
    )
    .unwrap();
    fetch.take(&offer(Some(4), Some(3))).unwrap();
    fetch.take(&body).unwrap();
    assert_eq!(fetch.next(false).err(), Some(FetchError::NotAnInfoDict));
    let ours = MetadataFetch::greeting([1; 20], [2; 20]);
    assert_eq!(ours.info_hash, [1; 20]);
}

/// A seeder and a leecher complete a multi-piece, multi-file download.
#[test]
fn two_instances_download_over_mock() {
    // ~5 pieces across two files, last piece short.
    let content = content_of(4 * BLOCK_LEN + 500);
    let split = 3 * BLOCK_LEN as usize;
    let files = vec![
        file(&["demo", "a.bin"], split as u64),
        file(&["demo", "b.bin"], content.len() as u64 - split as u64),
    ];
    let meta = meta_for(files, BLOCK_LEN, &content);
    let n: u32 = meta.pieces.len().try_into().unwrap();

    // Seeder: storage pre-filled and verified.
    let mut seeder =
        Node::new(&meta, &Bitfield::empty(n), Mode::RarestFirst, *b"-CV0001-seedseedseed");
    for p in 0..n {
        let start = p as usize * BLOCK_LEN as usize;
        let end = (start + seeder.layout.piece_len(p) as usize).min(content.len());
        assert!(seeder.write(p, 0, &content[start..end]));
    }
    let seed_have = seeder.verify_all();
    assert!(seed_have.is_full(), "seed must start complete");
    let mut seeder = Node {
        torrent: Torrent::new(&meta, &seed_have, Mode::RarestFirst, [1; 20], 0),
        ..seeder
    };
    assert!(seeder.torrent.is_complete());

    let mut leecher =
        Node::new(&meta, &Bitfield::empty(n), Mode::RarestFirst, *b"-CV0001-leechleechle");
    converse(&mut leecher, &mut seeder, DestHash([1; 32]), DestHash([2; 32]));

    assert!(leecher.torrent.is_complete(), "leecher did not complete the download");
    assert!(leecher.verify_all().is_full());
    for p in 0..n {
        let len = leecher.layout.piece_len(p);
        let start = p as usize * BLOCK_LEN as usize;
        assert_eq!(
            leecher.read(p, 0, len),
            &content[start..start + len as usize],
            "piece {p} mismatch"
        );
    }
    let total = content.len() as u64;
    assert_eq!(leecher.torrent.stats(), (0, total));
    assert_eq!(seeder.torrent.stats(), (total, 0));
    // Both now hold everything, and each counts the other once.
    assert_eq!(leecher.torrent.availability(0), 1);
}

/// Four pieces of one block, and a peer that claims them all and unchokes.
fn leech_with_peer(pieces: u32) -> (Node, u64, Vec<Outgoing>) {
    let content = content_of(pieces * BLOCK_LEN);
    let meta = meta_for(
        vec![file(&["a"], u64::from(pieces * BLOCK_LEN))],
        BLOCK_LEN,
        &content,
    );
    let mut node =
        Node::new(&meta, &Bitfield::empty(pieces), Mode::Sequential, *b"-CV0001-leechleechle");
    let (id, _) = node.attach(DestHash([9; 32]), 0);
    let mut out = node.hear(id, &Message::HaveAll, 0);
    out.extend(node.hear(id, &Message::Unchoke, 0));
    (node, id, out)
}

fn block(pieces: u32, index: u32) -> Vec<u8> {
    let all = content_of(pieces * BLOCK_LEN);
    let at = (index * BLOCK_LEN) as usize;
    all[at..at + BLOCK_LEN as usize].to_vec()
}

#[test]
fn the_pipeline_is_filled_and_bounded() {
    let (mut node, id, out) = leech_with_peer(40);
    assert!(out.iter().any(|o| o.msg == Message::Interested));
    let asked = requests(&out);
    assert_eq!(asked.len(), PIPELINE_DEPTH);
    assert_eq!(asked[0], BlockRequest { index: 0, begin: 0, length: BLOCK_LEN });
    // A block that completes a piece is announced, and one more is asked for.
    let out = node.hear(id, &Message::Piece { index: 0, begin: 0, block: block(40, 0) }, 1);
    assert!(out.iter().any(|o| o.msg == Message::Have(0)));
    assert_eq!(requests(&out).len(), 1);
    assert!(node.torrent.have().has(0));
    // Choking takes everything back, and unchoking asks for it again.
    assert!(requests(&node.hear(id, &Message::Choke, 2)).is_empty());
    let again = requests(&node.hear(id, &Message::Unchoke, 3));
    assert_eq!(again.len(), PIPELINE_DEPTH);
    assert_eq!(again[0].index, 1);
}

#[test]
fn unsolicited_and_malformed_blocks_are_not_written() {
    let (mut node, id, _) = leech_with_peer(40);
    for msg in [
        Message::Piece { index: 39, begin: 0, block: vec![0; BLOCK_LEN as usize] }, // not asked
        Message::Piece { index: 0, begin: 1, block: vec![0; BLOCK_LEN as usize] },  // misaligned
        Message::Piece { index: 0, begin: 0, block: vec![0; 7] },                   // short
        Message::Piece { index: 99, begin: 0, block: vec![] },                      // no such piece
    ] {
        let mut out = Vec::new();
        assert!(matches!(node.torrent.on_message(id, &msg, 1, &mut out), Disk::Nothing));
    }
    assert_eq!(node.torrent.stats().1, 0);
    // Reporting a write nobody asked for changes nothing.
    let mut out = Vec::new();
    assert_eq!(node.torrent.on_written(id, 39, 0, true, 1, &mut out), None);
    assert_eq!(node.torrent.stats().1, 0);
}

#[test]
fn a_block_the_disk_refused_is_offered_again() {
    let (mut node, id, _) = leech_with_peer(2);
    node.broken_disk = true;
    let out = node.hear(id, &Message::Piece { index: 0, begin: 0, block: block(2, 0) }, 1);
    assert_eq!(requests(&out).iter().map(|r| r.index).collect::<Vec<_>>(), vec![0]);
    node.broken_disk = false;
    node.hear(id, &Message::Piece { index: 0, begin: 0, block: block(2, 0) }, 2);
    assert!(node.torrent.have().has(0));
}

#[test]
fn a_sole_supplier_of_rubbish_is_banned() {
    let (mut node, id, _) = leech_with_peer(4);
    let liar = DestHash([9; 32]);
    assert!(node.torrent.known_peers().contains(&liar));
    node.hear(id, &Message::Piece { index: 0, begin: 0, block: vec![0xEE; BLOCK_LEN as usize] }, 1);
    assert!(!node.torrent.have().has(0));
    assert!(node.torrent.is_banned(liar));
    assert_eq!(node.torrent.banned_count(), 1);
    assert!(!node.torrent.known_peers().contains(&liar), "a ban forgets the destination");
    assert!(node.torrent.connected_peers().is_empty(), "its connection was dropped");
    assert_eq!(node.torrent.availability(0), 0);
    assert_eq!(node.budget.in_use(), 0);
    // Nothing puts it back.
    node.torrent.add_peers(&vec![liar]);
    assert!(!node.torrent.dial_candidates().contains(&liar));
    let mut out = Vec::new();
    assert_eq!(
        node.torrent.attach(&mut node.budget, liar, true, 2, &mut out),
        Err(AttachError::Banned)
    );
    assert!(node.torrent.greet(liar).is_err());
}

#[test]
fn several_suppliers_share_the_suspicion() {
    let a = DestHash([1; 32]);
    let b = DestHash([2; 32]);
    let mut r = Reputation::new();
    for round in 1..=SUSPICION_LIMIT {
        r.supplied(0, 0, a);
        r.supplied(0, 1, b);
        let banned = r.blame(0, 2);
        assert_eq!(banned.len(), if round < SUSPICION_LIMIT { 0 } else { 2 }, "round {round}");
    }
    assert!(r.is_banned(a) && r.is_banned(b));

    // A piece that verifies earns a failure back.
    let mut r = Reputation::new();
    for _ in 0..SUSPICION_LIMIT + 2 {
        r.supplied(0, 0, a);
        r.supplied(0, 1, b);
        assert!(r.blame(0, 2).is_empty());
        r.supplied(1, 0, a);
        r.credit(1, 1);
        r.supplied(1, 0, b);
        r.credit(1, 1);
    }
    assert_eq!(r.banned_count(), 0);
}

#[test]
fn a_stranger_cannot_fill_the_table() {
    let dest = |n: u16, tag: u8| {
        let mut h = [tag; 32];
        h[0] = (n >> 8) as u8;
        h[1] = n as u8;
        DestHash(h)
    };
    let mut r = Reputation::new();
    for n in 0..MAX_KNOWN_PEERS as u16 {
        assert!(r.remember(dest(n, 1), Source::Pex));
    }
    // Full: a stranger's word displaces nothing, a trusted one evicts hearsay.
    assert!(!r.remember(dest(0, 2), Source::Pex));
    assert!(r.remember(dest(1, 2), Source::Trusted));
    assert_eq!(r.known_peers().len(), MAX_KNOWN_PEERS);
    assert!(!r.known_peers().contains(&dest(0, 1)));
    // A trusted sighting upgrades an entry, and it is then safe.
    assert!(!r.remember(dest(1, 1), Source::Trusted));
    for n in 0..MAX_KNOWN_PEERS as u16 - 2 {
        assert!(r.remember(dest(n, 3), Source::Trusted), "entry {n}");
    }
    assert!(r.known_peers().contains(&dest(1, 1)));
    assert!(!r.remember(dest(7, 4), Source::Trusted), "every entry is trusted now");
}

#[test]
fn a_full_endgame_piece_is_not_overwritten() {
    // Two peers are asked for the same last block; the second answer is late.
    let (mut node, first, _) = leech_with_peer(1);
    let (second, _) = node.attach(DestHash([8; 32]), 0);
    node.hear(second, &Message::HaveAll, 0);
    let out = node.hear(second, &Message::Unchoke, 0);
    assert_eq!(requests(&out).len(), 1, "endgame asks twice");
    node.hear(first, &Message::Piece { index: 0, begin: 0, block: block(1, 0) }, 1);
    assert!(node.torrent.is_complete());
    let before = node.files.clone();
    let msg = Message::Piece { index: 0, begin: 0, block: vec![0; BLOCK_LEN as usize] };
    node.hear(second, &msg, 2);
    assert_eq!(node.files, before);
    assert!(!node.torrent.is_banned(DestHash([8; 32])));
}

#[test]
fn repeated_announcements_count_once() {
    let (mut node, id, _) = leech_with_peer(3);
    assert_eq!(node.torrent.availability(1), 1);
    node.hear(id, &Message::Have(1), 1);
    node.hear(id, &Message::Bitfield(vec![0b1110_0000]), 1);
    assert_eq!(node.torrent.availability(1), 1);
    node.hear(id, &Message::HaveNone, 2);
    assert_eq!(node.torrent.availability(1), 0);
    // A bitfield that does not fit the torrent is ignored.
    node.hear(id, &Message::Bitfield(vec![0xFF]), 3);
    assert_eq!(node.torrent.availability(1), 0);
    node.hear(id, &Message::Have(1), 4);
    assert_eq!(node.torrent.availability(1), 1);
    assert!(node.torrent.remove_peer(&mut node.budget, id));
    assert_eq!(node.torrent.availability(1), 0);
    assert!(!node.torrent.remove_peer(&mut node.budget, id));
}

#[test]
fn only_unchoked_peers_are_served_and_only_inside_a_piece() {
    let content = content_of(2 * BLOCK_LEN);
    let meta = meta_for(vec![file(&["a"], 2 * u64::from(BLOCK_LEN))], BLOCK_LEN, &content);
    let mut node = Node::new(&meta, &Bitfield::full(2), Mode::RarestFirst, [3; 20]);
    node.files[0] = content.clone();
    let (id, _) = node.attach(DestHash([4; 32]), 0);
    let ask = Message::Request(BlockRequest { index: 1, begin: 16, length: 8 });
    assert!(node.hear(id, &ask, 1).is_empty(), "a choked peer is not served");
    let out = node.hear(id, &Message::Interested, 1);
    assert!(out.iter().any(|o| o.to == id && o.msg == Message::Unchoke));
    let out = node.hear(id, &ask, 1);
    let at = BLOCK_LEN as usize + 16;
    assert_eq!(out.len(), 1);
    assert_eq!(
        out[0].msg,
        Message::Piece { index: 1, begin: 16, block: content[at..at + 8].to_vec() }
    );
    assert_eq!(node.torrent.stats(), (8, 0));
    for (index, begin, length) in
        [(0, BLOCK_LEN - 4, 8), (0, 0, 0), (0, 0, BLOCK_LEN + 1), (2, 0, 8), (0, u32::MAX, 8)]
    {
        let r = Message::Request(BlockRequest { index, begin, length });
        assert!(node.hear(id, &r, 1).is_empty(), "{index} {begin} {length}");
    }
}

#[test]
fn silence_is_kept_alive_and_then_dropped() {
    let (mut node, id, _) = leech_with_peer(3);
    node.torrent.set_request_timeout(u64::MAX);
    let mut out = Vec::new();
    let gone = node.torrent.maintain(DEFAULT_KEEPALIVE_INTERVAL - 1, &mut out);
    assert!(gone.is_empty());
    assert!(!out.iter().any(|o| o.msg == Message::KeepAlive));
    let mut out = Vec::new();
    node.torrent.maintain(DEFAULT_KEEPALIVE_INTERVAL, &mut out);
    assert!(out.iter().any(|o| o.to == id && o.msg == Message::KeepAlive));
    // Having been written to, it is not due another.
    let mut out = Vec::new();
    node.torrent.maintain(DEFAULT_KEEPALIVE_INTERVAL + 1, &mut out);
    assert!(!out.iter().any(|o| o.msg == Message::KeepAlive));
    let mut out = Vec::new();
    assert_eq!(node.torrent.maintain(DEFAULT_IDLE_TIMEOUT, &mut out), vec![id]);
}

#[test]
fn unanswered_requests_expire_and_cost_strikes() {
    let (mut node, id, _) = leech_with_peer(3);
    node.torrent.set_idle_timeout(u64::MAX);
    node.torrent.set_keepalive_interval(u64::MAX);
    let mut now = 0;
    for strike in 1..=REQUEST_STRIKES {
        now += DEFAULT_REQUEST_TIMEOUT;
        let mut out = Vec::new();
        let gone = node.torrent.maintain(now, &mut out);
        if strike < REQUEST_STRIKES {
            assert!(gone.is_empty(), "strike {strike}");
            assert_eq!(requests(&out).len(), 3, "the blocks are asked for again");
        } else {
            assert_eq!(gone, vec![id]);
            assert!(requests(&out).is_empty());
        }
    }
    // Another peer may now have them all.
    assert!(node.torrent.remove_peer(&mut node.budget, id));
    let (other, _) = node.attach(DestHash([7; 32]), now);
    node.hear(other, &Message::HaveAll, now);
    assert_eq!(requests(&node.hear(other, &Message::Unchoke, now)).len(), 3);
}

#[test]
fn choke_rounds_run_on_a_clock() {
    let (mut node, _, _) = leech_with_peer(3);
    let before = node.torrent.choke_rounds();
    let mut out = Vec::new();
    node.torrent.settle(DEFAULT_CHOKE_INTERVAL - 1, &mut out);
    assert_eq!(node.torrent.choke_rounds(), before);
    node.torrent.settle(DEFAULT_CHOKE_INTERVAL, &mut out);
    assert_eq!(node.torrent.choke_rounds(), before + 1);
    node.torrent.set_choke_interval(1);
    node.torrent.settle(DEFAULT_CHOKE_INTERVAL + 1, &mut out);
    assert_eq!(node.torrent.choke_rounds(), before + 2);
}

#[test]
fn one_destination_holds_few_connections() {
    let content = content_of(100);
    let meta = meta_for(vec![file(&["a"], 100)], BLOCK_LEN, &content);
    let mut node = Node::new(&meta, &Bitfield::empty(1), Mode::RarestFirst, [3; 20]);
    let dest = DestHash([6; 32]);
    let mut ids = Vec::new();
    for _ in 0..MAX_CONNECTIONS_PER_DEST {
        ids.push(node.attach(dest, 0).0);
    }
    assert_ne!(ids[0], ids[1]);
    let mut out = Vec::new();
    assert_eq!(
        node.torrent.attach(&mut node.budget, dest, true, 0, &mut out),
        Err(AttachError::DestFull)
    );
    assert!(out.is_empty());
    assert_eq!(node.budget.in_use(), 2, "a refused connection gives its slot back");
    // The budget refuses before anything else is looked at.
    let mut none = PeerBudget::new(0);
    assert_eq!(
        node.torrent.attach(&mut none, DestHash([5; 32]), true, 0, &mut out),
        Err(AttachError::NoRoom)
    );
    assert_eq!(node.torrent.disconnect_all(&mut node.budget), ids);
    assert!(node.torrent.connected_peers().is_empty());
    assert_eq!(node.budget.in_use(), 0);
}

#[test]
fn the_opening_messages_are_our_pieces_and_our_extensions() {
    let content = content_of(3 * BLOCK_LEN);
    let meta = real_meta(&content);
    let mut have = Bitfield::empty(3);
    have.set(1);
    let mut node = Node::new(&meta, &have, Mode::RarestFirst, [3; 20]);
    let (id, out) = node.attach(DestHash([1; 32]), 0);
    assert_eq!(out.len(), 2);
    assert_eq!(out[0].to, id);
    assert_eq!(out[0].msg, Message::Bitfield(vec![0b0100_0000]));
    match &out[1].msg {
        Message::Extended { id: 0, payload } => {
            let hs = extension::Handshake::parse(payload).unwrap();
            assert_eq!(hs.id_for(I2P_PEX), Some(OUR_PEX_ID));
            assert_eq!(hs.id_for(UT_METADATA), Some(OUR_METADATA_ID));
            assert_eq!(hs.metadata_size, Some(meta.raw_info.len()));
            assert_eq!(hs.client.as_deref(), Some("clove/0.1"));
        }
        other => panic!("not an extension handshake: {other:?}"),
    }
    // A peer that does not speak the protocol gets the piece set alone.
    let mut out = Vec::new();
    node.torrent.attach(&mut node.budget, DestHash([2; 32]), false, 0, &mut out).unwrap();
    assert_eq!(out.len(), 1);
}

#[test]
fn metadata_is_served_in_pieces_and_rejected_past_the_end() {
    let content = content_of(3 * BLOCK_LEN);
    let meta = real_meta(&content);
    let mut node = Node::new(&meta, &Bitfield::empty(3), Mode::RarestFirst, [3; 20]);
    let (id, _) = node.attach(DestHash([1; 32]), 0);
    let ask = |piece: u32| Message::Extended {
        id: OUR_METADATA_ID,
        payload: MetadataMessage::Request { piece }.encode(),
    };
    // Until it has told us its id there is nothing to answer on.
    assert!(node.hear(id, &ask(0), 1).is_empty());
    let hs = extension::Handshake {
        ids: vec![(UT_METADATA.to_owned(), 9)],
        metadata_size: None,
        client: None,
    };
    node.hear(id, &Message::Extended { id: 0, payload: hs.encode() }, 1);
    let reply = |out: &[Outgoing]| match &out[0].msg {
        Message::Extended { id: 9, payload } => MetadataMessage::parse(payload).unwrap(),
        other => panic!("{other:?}"),
    };
    let out = node.hear(id, &ask(0), 1);
    let total_size = u32::try_from(meta.raw_info.len()).unwrap();
    assert_eq!(
        reply(&out),
        MetadataMessage::Data { piece: 0, total_size, data: meta.raw_info.clone() }
    );
    assert_eq!(reply(&node.hear(id, &ask(1), 1)), MetadataMessage::Reject { piece: 1 });
    assert_eq!(
        reply(&node.hear(id, &ask(u32::MAX), 1)),
        MetadataMessage::Reject { piece: u32::MAX }
    );
}

#[test]
fn a_peer_is_told_of_others_but_not_of_itself() {
    let content = content_of(100);
    let meta = meta_for(vec![file(&["a"], 100)], BLOCK_LEN, &content);
    let mut node = Node::new(&meta, &Bitfield::empty(1), Mode::RarestFirst, [3; 20]);
    let others: Vec<DestHash> = (0..600u16)
        .map(|n| {
            let mut h = [0xCC; 32];
            h[0] = (n >> 8) as u8;
            h[1] = n as u8;
            DestHash(h)
        })
        .collect();
    node.torrent.add_peers(&others);
    let me = DestHash([1; 32]);
    let (id, _) = node.attach(me, 0);
    let hs = extension::Handshake {
        ids: vec![(I2P_PEX.to_owned(), 4)],
        metadata_size: None,
        client: None,
    };
    let out = node.hear(id, &Message::Extended { id: 0, payload: hs.encode() }, 1);
    match &out[0].msg {
        Message::Extended { id: 4, payload } => {
            let pex = PexMessage::parse(payload).expect("never more than our own parser takes");
            assert_eq!(pex.added.len(), 512);
            assert!(!pex.added.contains(&me));
            assert!(pex.dropped.is_empty());
        }
        other => panic!("{other:?}"),
    }
}

#[test]
fn handshakes_are_checked_at_every_door() {
    let content = content_of(100);
    let meta = meta_for(vec![file(&["a"], 100)], BLOCK_LEN, &content);
    let mut node = Node::new(&meta, &Bitfield::empty(1), Mode::RarestFirst, [3; 20]);
    let ours = node.torrent.greet(DestHash([1; 32])).unwrap();
    assert_eq!(ours.info_hash, [0x33; 20]);
    assert_eq!(ours.peer_id, [3; 20]);
    assert!(ours.extensions.extended && !ours.extensions.fast);
    assert!(node.torrent.check_reply(&ours).is_ok());
    let other = Handshake { info_hash: [0x44; 20], ..ours };
    assert_eq!(node.torrent.check_reply(&other), Err(AttachError::WrongTorrent));
    assert_eq!(
        node.torrent.answer(DestHash([1; 32]), &other),
        Err(AttachError::WrongTorrent)
    );
    assert_eq!(node.torrent.answer(DestHash([1; 32]), &ours), Ok(ours));
    assert_eq!(node.torrent.inbound_peers(), 0);
    node.torrent.note_inbound();
    assert_eq!(node.torrent.inbound_peers(), 1);
    for e in [
        AttachError::NoRoom,
        AttachError::DestFull,
        AttachError::Banned,
        AttachError::WrongTorrent,
    ] {
        assert!(!e.message().is_empty());
    }
}

#[test]
fn a_handshake_is_bounded_by_its_deadline() {
    assert_eq!(handshake_slice(60_000, 0, false), Ok(HANDSHAKE_POLL));
    assert_eq!(handshake_slice(60_000, 59_900, false), Ok(100));
    assert_eq!(handshake_slice(60_000, 60_000, false), Err(HandshakeEnd::TimedOut));
    assert_eq!(handshake_slice(60_000, 0, true), Err(HandshakeEnd::Abandoned));
    assert!(HandshakeEnd::TimedOut.message().contains("in time"));
}

#[test]
fn announces_are_accounted_for() {
    let content = content_of(100);
    let meta = meta_for(vec![file(&["a"], 100)], BLOCK_LEN, &content);
    let mut t = Torrent::new(&meta, &Bitfield::empty(1), Mode::RarestFirst, [3; 20], 0);
    t.note_announce(Err("t.i2p: refused".to_owned()));
    t.note_announce(Ok(()));
    t.note_announce(Err("t.i2p: late".to_owned()));
    assert_eq!(t.announce_status(), (1, 2, Some("t.i2p: late".to_owned())));
    t.note_announce(Ok(()));
    assert_eq!(t.announce_status(), (2, 2, None));
    assert_eq!(t.max_frame(), BLOCK_LEN + 256);
    assert!(t.can_seat());
    assert!(t.can_count(0, u64::MAX));
    t.set_mode(Mode::Sequential);
    assert_eq!(t.info_hash(), [0x33; 20]);
    assert_eq!(t.peer_id(), [3; 20]);
}

#[test]
fn a_verified_piece_earns_back_one_failure_however_many_blocks() {
    let a = DestHash([1; 32]);
    let b = DestHash([2; 32]);
    let c = DestHash([3; 32]);
    let mut r = Reputation::new();
    // Two failures each.
    for _ in 0..SUSPICION_LIMIT - 1 {
        r.supplied(0, 0, a);
        r.supplied(0, 1, b);
        r.supplied(0, 2, c);
        assert!(r.blame(0, 3).is_empty());
    }
    // `a` writes three blocks of a piece that verifies, `b` one, `c` none.
    r.supplied(1, 0, a);
    r.supplied(1, 1, b);
    r.supplied(1, 2, a);
    r.supplied(1, 3, a);
    r.credit(1, 4);
    // One more failure reaches the limit for `c` alone.
    r.supplied(2, 0, a);
    r.supplied(2, 1, b);
    r.supplied(2, 2, c);
    assert_eq!(r.blame(2, 3), vec![c]);
    // The next reaches it for the other two.
    r.supplied(2, 0, a);
    r.supplied(2, 1, b);
    assert_eq!(r.blame(2, 2), vec![a, b]);
    // The suppliers of the verified piece are forgotten.
    assert!(r.blame(1, 4).is_empty());
}

#[test]
fn a_slot_claimed_first_comes_back_when_the_peer_is_refused() {
    let content = content_of(100);
    let meta = meta_for(vec![file(&["a"], 100)], BLOCK_LEN, &content);
    let mut node = Node::new(&meta, &Bitfield::empty(1), Mode::RarestFirst, [3; 20]);
    let dest = DestHash([6; 32]);
    let mut out = Vec::new();
    for _ in 0..MAX_CONNECTIONS_PER_DEST {
        let slot = node.budget.claim().unwrap();
        assert!(node.torrent.seat(slot, dest, false, 0, &mut out).is_ok());
    }
    assert_eq!(out.len(), MAX_CONNECTIONS_PER_DEST, "a piece set each");
    let slot = node.budget.claim().unwrap();
    let (slot, e) = node.torrent.seat(slot, dest, false, 0, &mut out).unwrap_err();
    assert_eq!(e, AttachError::DestFull);
    assert_eq!(node.budget.in_use(), MAX_CONNECTIONS_PER_DEST + 1);
    node.budget.release(slot);
    assert_eq!(node.budget.in_use(), MAX_CONNECTIONS_PER_DEST);
}

#[test]
fn metadata_with_bytes_after_the_info_dict_is_refused() {
    let content = content_of(3 * BLOCK_LEN);
    let mut meta = real_meta(&content);
    meta.raw_info.extend_from_slice(b"7:comment1:x");
    meta.info_hash = InfoHash(Sha1::digest(&meta.raw_info).into());
    let mut server =
        Node::new(&meta, &Bitfield::empty(3), Mode::RarestFirst, *b"-CV0001-serverserver");
    let (id, _) = server.attach(DestHash([5; 32]), 0);
    let (mut fetch, hello) = greeting_of(&meta, meta.info_hash.0);
    server.hear(id, &hello, 1);
    assert!(matches!(fetch.next(false), Ok(Next::Read)));
    let greeting = offer(Some(meta.raw_info.len()), Some(OUR_METADATA_ID));
    for request in frames_in(&fetch.take(&greeting).unwrap()) {
        assert!(matches!(fetch.next(false), Ok(Next::Read)));
        let reply = server.hear(id, &request, 2);
        fetch.take(&body_of(&reply[0].msg)).unwrap();
    }
    assert!(matches!(fetch.next(false), Err(FetchError::NotAnInfoDict)));
}

#[test]
fn a_peer_is_served_metadata_within_its_ration() {
    let content = content_of(3 * BLOCK_LEN);
    let meta = real_meta(&content);
    let mut server =
        Node::new(&meta, &Bitfield::empty(3), Mode::RarestFirst, *b"-CV0001-serverserver");
    let (greedy, _) = server.attach(DestHash([5; 32]), 0);
    let (other, _) = server.attach(DestHash([6; 32]), 0);
    let hello = Message::parse(&offer(None, Some(9))).unwrap();
    server.hear(greedy, &hello, 1);
    server.hear(other, &hello, 1);
    let ask = Message::Extended {
        id: OUR_METADATA_ID,
        payload: MetadataMessage::Request { piece: 0 }.encode(),
    };
    let answer = |server: &mut Node, id: u64, now: u64| {
        let out = server.hear(id, &ask, now);
        assert_eq!(out.len(), 1);
        match &out[0].msg {
            Message::Extended { id: 9, payload } => MetadataMessage::parse(payload).unwrap(),
            other => panic!("not an answer: {other:?}"),
        }
    };
    let piece = MetadataMessage::Data {
        piece: 0,
        total_size: meta.raw_info.len() as u32,
        data: meta.raw_info.clone(),
    };
    for n in 0..u64::from(METADATA_REQUEST_LIMIT) {
        assert_eq!(answer(&mut server, greedy, 100 + n), piece);
    }
    // The ration is spent, and asking again does not renew it.
    let refusal = MetadataMessage::Reject { piece: 0 };
    assert_eq!(answer(&mut server, greedy, 300), refusal);
    assert_eq!(answer(&mut server, greedy, 99 + METADATA_REQUEST_WINDOW), refusal);
    // Nobody else pays for it.
    assert_eq!(answer(&mut server, other, 300), piece);
    // The window turns over.
    assert_eq!(answer(&mut server, greedy, 100 + METADATA_REQUEST_WINDOW), piece);
}
