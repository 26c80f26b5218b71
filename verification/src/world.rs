//! The model of a running torrent: what its state is, how each event changes
//! it, and what every event keeps.
use vstd::prelude::*;
#[allow(unused_imports)]
use vstd::string::*;
use crate::bencode::{decoded, encoding, Tree};
use crate::bitfield::field_in;
use crate::choker::{changes, chosen, PeerSnapshot};
use crate::dest::DestHash;
use crate::extension::{id_listed, offer_in, I2P_PEX, UT_METADATA};
use crate::metadata::{
    ascending_times, fresh_allowance, is_ration, law_first_span_serves_no_more_than_the_limit,
    law_span_serves_no_more_than_twice_the_limit, message_bytes, message_in, served, Allowance,
    MetaMsg, METADATA_PIECE_LEN, METADATA_REQUEST_LIMIT, METADATA_REQUEST_WINDOW,
};
use crate::pex::{
    acceptable, added_in, law_pex_round_trip, lemma_hashes_unique, pex_entries, MAX_PEX_PEERS,
};
use crate::picker::{
    announced, failed_block, least, lemma_blocks_bound, received_block, total, withdrawn,
    Ledger,
};
use crate::reputation::{Source, Standing};
use crate::torrent::{
    MAX_CONNECTIONS_PER_DEST, OUR_METADATA_ID, OUR_PEX_ID, PIPELINE_DEPTH, REQUEST_STRIKES,
};
use crate::wire::{BlockRequest, Msg, BLOCK_LEN};

verus! {

/// A block requested from a peer, and when.
#[derive(Clone, Copy, Debug)]
pub struct Asked {
    pub piece: u32,
    pub block: u32,
    pub at: u64,
}

/// What is known of one connected peer.
#[verifier::ext_equal]
pub struct PeerState {
    pub id: u64,
    pub dest: DestHash,
    /// Their piece set.
    pub has: Seq<bool>,
    /// They are choking us.
    pub peer_choking: bool,
    /// We are choking them.
    pub we_choke: bool,
    /// They are interested in us.
    pub they_interested: bool,
    /// We are interested in them.
    pub we_interested: bool,
    /// Blocks we have requested from them.
    pub in_flight: Seq<Asked>,
    /// Consecutive maintenance rounds in which requests expired with nothing
    /// delivered.
    pub strikes: u32,
    pub last_sent: u64,
    pub last_seen: u64,
    /// Bytes served to them.
    pub uploaded: u64,
    /// The message id they listen on for peer exchange.
    pub pex_id: Option<u8>,
    /// The message id they listen on for metadata.
    pub metadata_id: Option<u8>,
    /// What is left of their ration of metadata.
    pub allowance: Allowance,
}

/// The state of a running torrent.
#[verifier::ext_equal]
pub struct World {
    pub info_hash: Seq<u8>,
    pub peer_id: Seq<u8>,
    pub raw_info: Seq<u8>,
    pub max_frame: u32,
    pub ledger: Ledger,
    /// Peers unchoked at once.
    pub slots: nat,
    /// Choke rounds planned.
    pub rounds: nat,
    pub last_choke_round: u64,
    pub choke_interval: u64,
    pub keepalive_interval: u64,
    pub idle_timeout: u64,
    pub request_timeout: u64,
    pub peers: Seq<PeerState>,
    pub next_id: u64,
    pub standing: Standing,
    pub pex_learned: u64,
    pub announces_ok: u32,
    pub announces_failed: u32,
    pub last_announce_error: Option<Seq<char>>,
    /// Peers to remove once the event is settled.
    pub to_drop: Seq<u64>,
    pub uploaded: u64,
    pub downloaded: u64,
    pub inbound: u64,
}

/// A message queued to a peer.
#[verifier::ext_equal]
pub struct Sent {
    pub to: u64,
    pub msg: Msg,
}

/// A state, and what has been queued on the way to it.
#[verifier::ext_equal]
pub struct Turn {
    pub world: World,
    pub out: Seq<Sent>,
}

// ---------------------------------------------------------------------------
// Looking things up.

/// The first peer with an id, from the `n`th on; the length if there is none.
pub open spec fn peer_at(peers: Seq<PeerState>, id: u64, n: int) -> int
    decreases peers.len() - n,
{
    if 0 <= n < peers.len() && peers[n].id != id {
        peer_at(peers, id, n + 1)
    } else {
        n
    }
}

/// The first entry for a block, from the `n`th on; the length if there is none.
pub open spec fn asked_at(f: Seq<Asked>, piece: u32, block: u32, n: int) -> int
    decreases f.len() - n,
{
    if 0 <= n < f.len() && !(f[n].piece == piece && f[n].block == block) {
        asked_at(f, piece, block, n + 1)
    } else {
        n
    }
}

/// Whether a block is among those requested.
pub open spec fn owes(f: Seq<Asked>, piece: int, block: int) -> bool {
    exists|j: int| 0 <= j < f.len() && (#[trigger] f[j]).piece == piece && f[j].block == block
}

/// How many of the first `n` peers something holds of.
pub open spec fn tally(peers: Seq<PeerState>, n: int, f: spec_fn(PeerState) -> bool) -> nat
    decreases n,
{
    if n <= 0 {
        0
    } else {
        tally(peers, n - 1, f) + if f(peers[n - 1]) {
            1nat
        } else {
            0nat
        }
    }
}

/// That a peer holds a piece.
pub open spec fn holding(piece: int) -> spec_fn(PeerState) -> bool {
    |p: PeerState| p.has[piece]
}

/// That a peer owes us a block.
pub open spec fn owing(piece: int, block: int) -> spec_fn(PeerState) -> bool {
    |p: PeerState| owes(p.in_flight, piece, block)
}

/// That a peer is at a destination.
pub open spec fn located(dest: DestHash) -> spec_fn(PeerState) -> bool {
    |p: PeerState| p.dest == dest
}

/// How many connected peers hold a piece.
pub open spec fn holders(peers: Seq<PeerState>, piece: int) -> nat {
    tally(peers, peers.len() as int, holding(piece))
}

/// How many connected peers owe us a block.
pub open spec fn debtors(peers: Seq<PeerState>, piece: int, block: int) -> nat {
    tally(peers, peers.len() as int, owing(piece, block))
}

/// How many requests for a block the picker believes are outstanding.
pub open spec fn outstanding(l: Ledger, piece: int, block: int) -> nat {
    if 0 <= piece < l.progress.len() && l.progress[piece] is Some && 0 <= block
        < l.progress[piece]->Some_0.in_flight.len() {
        l.progress[piece]->Some_0.in_flight[block] as nat
    } else {
        0
    }
}

/// Whether a block is among some requests.
pub open spec fn wanted(reqs: Seq<BlockRequest>, piece: int, block: int) -> bool {
    exists|j: int|
        0 <= j < reqs.len() && (#[trigger] reqs[j]).index == piece && reqs[j].begin == block
            * BLOCK_LEN
}

// ---------------------------------------------------------------------------
// What every event keeps.

/// Whether a peer's requests are few, name no block twice, and name blocks
/// that the torrent has.
pub open spec fn queue_ok(l: Ledger, f: Seq<Asked>) -> bool {
    &&& f.len() <= PIPELINE_DEPTH
    &&& forall|i: int, j: int|
        0 <= i < j < f.len() ==> (#[trigger] f[i]).piece != (#[trigger] f[j]).piece || f[i].block
            != f[j].block
    &&& forall|i: int|
        0 <= i < f.len() ==> (#[trigger] f[i]).piece < l.have.len() && f[i].block < l.blocks(
            f[i].piece as int,
        )
}

/// Whether the peer table and the picker's books agree: ids are unique and
/// were issued, each piece set spans the torrent, availability counts exactly
/// the connected peers that hold a piece, no destination holds more than its
/// share of connections, and no block is believed to be owed more often than
/// peers owe it (or `extra` is about to be asked).
pub open spec fn agree(
    l: Ledger,
    peers: Seq<PeerState>,
    next_id: u64,
    extra: Seq<BlockRequest>,
) -> bool {
    &&& l.wf()
    &&& peers.len() < u32::MAX
    &&& forall|i: int, j: int|
        0 <= i < j < peers.len() ==> (#[trigger] peers[i]).id != (#[trigger] peers[j]).id
    &&& forall|i: int| 0 <= i < peers.len() ==> (#[trigger] peers[i]).id < next_id
    &&& forall|i: int|
        0 <= i < peers.len() ==> (#[trigger] peers[i]).has.len() == l.have.len() && queue_ok(
            l,
            peers[i].in_flight,
        )
    &&& forall|p: int|
        0 <= p < l.have.len() ==> #[trigger] l.availability[p] == holders(peers, p)
    &&& forall|d: DestHash|
        #[trigger] tally(peers, peers.len() as int, located(d)) <= MAX_CONNECTIONS_PER_DEST
    &&& forall|p: int, b: int|
        #![trigger outstanding(l, p, b)]
        outstanding(l, p, b) <= debtors(peers, p, b) + bit(wanted(extra, p, b))
}

impl World {
    /// Whether the books agree and the table of known peers is in order.
    pub open spec fn wf(self) -> bool {
        agree(self.ledger, self.peers, self.next_id, Seq::empty()) && self.standing.wf()
    }

    /// Where a peer stands in the table.
    pub open spec fn find(self, id: u64) -> int {
        peer_at(self.peers, id, 0)
    }

    pub open spec fn connected(self, id: u64) -> bool {
        self.find(id) < self.peers.len()
    }

    /// How many connections a destination holds.
    pub open spec fn connections(self, dest: DestHash) -> nat {
        tally(self.peers, self.peers.len() as int, located(dest))
    }

    /// The inputs to a choke round.
    pub open spec fn snapshots(self) -> Seq<PeerSnapshot> {
        self.peers.map_values(
            |p: PeerState|
                PeerSnapshot {
                    id: p.id,
                    interested: p.they_interested,
                    rate: p.uploaded,
                    unchoked: !p.we_choke,
                },
        )
    }

    /// Whether a choke round is due.
    pub open spec fn choke_due(self, now: u64) -> bool {
        since(self.last_choke_round, now) >= self.choke_interval
    }

    /// Whether a peer holds something we do not.
    pub open spec fn wants_from(self, i: int) -> bool {
        exists|p: int|
            0 <= p < self.peers[i].has.len() && #[trigger] self.peers[i].has[p] && !(p
                < self.ledger.have.len() && self.ledger.have[p])
    }
}

/// How long ago `then` was; nothing if it is still to come.
pub open spec fn since(then: u64, now: u64) -> u64 {
    if now >= then {
        (now - then) as u64
    } else {
        0
    }
}

// ---------------------------------------------------------------------------
// What each event does.

/// The ledger once the first `n` of `f` are given up.
pub open spec fn releasing(l: Ledger, f: Seq<Asked>, n: int) -> Ledger
    decreases n,
{
    if n <= 0 {
        l
    } else {
        failed_block(releasing(l, f, n - 1), f[n - 1].piece as int, f[n - 1].block as int)
    }
}

/// Those of the first `n` requests that have (or, if `live`, have not) gone
/// unanswered for `limit`.
pub open spec fn aged(f: Seq<Asked>, n: int, now: u64, limit: u64, live: bool) -> Seq<Asked>
    decreases n,
{
    if n <= 0 {
        Seq::empty()
    } else if (since(f[n - 1].at, now) < limit) == live {
        aged(f, n - 1, now, limit, live).push(f[n - 1])
    } else {
        aged(f, n - 1, now, limit, live)
    }
}

/// The known destinations but for `own`, at most as many as one message may
/// carry.
pub open spec fn shared_peers(s: Standing, own: DestHash, n: int) -> Seq<DestHash>
    decreases n,
{
    if n <= 0 {
        Seq::empty()
    } else {
        let v = shared_peers(s, own, n - 1);
        if v.len() < MAX_PEX_PEERS && s.known[n - 1].dest != own {
            v.push(s.known[n - 1].dest)
        } else {
            v
        }
    }
}

/// What a request for a metadata piece is answered.
pub open spec fn metadata_reply(raw: Seq<u8>, piece: u32) -> MetaMsg {
    let start = piece * METADATA_PIECE_LEN;
    if start >= raw.len() {
        MetaMsg::Reject { piece }
    } else {
        MetaMsg::Data {
            piece,
            total_size: if raw.len() <= u32::MAX {
                raw.len() as u32
            } else {
                u32::MAX
            },
            data: raw.subrange(start, least(start + METADATA_PIECE_LEN, raw.len() as int)),
        }
    }
}

/// What a peer's request for a metadata piece is answered: the piece while its
/// ration lasts, and a refusal after that.
pub open spec fn rationed_reply(raw: Seq<u8>, piece: u32, b: Allowance, now: u64) -> MetaMsg {
    if b.allows(now) {
        metadata_reply(raw, piece)
    } else {
        MetaMsg::Reject { piece }
    }
}

/// The metadata piece that a message of a peer asks for, if it asks for one and
/// the peer can be answered.
pub open spec fn metadata_asked(p: PeerState, msg: Msg) -> Option<u32> {
    match msg {
        Msg::Extended { id, payload } => if id == OUR_METADATA_ID && p.metadata_id is Some {
            match message_in(payload) {
                Ok(MetaMsg::Request { piece }) => Some(piece),
                _ => None,
            }
        } else {
            None
        },
        _ => None,
    }
}

/// The ids of those of the first `n` peers that have said nothing for as long
/// as the idle timeout allows.
pub open spec fn silent(w: World, n: int, now: u64) -> Seq<u64>
    decreases n,
{
    if n <= 0 {
        Seq::empty()
    } else if since(w.peers[n - 1].last_seen, now) >= w.idle_timeout {
        silent(w, n - 1, now).push(w.peers[n - 1].id)
    } else {
        silent(w, n - 1, now)
    }
}

/// A keep-alive for each of the first `n` peers that is not silent and has
/// heard nothing from us for as long as the interval allows.
pub open spec fn keepalives(w: World, n: int, now: u64) -> Seq<Sent>
    decreases n,
{
    if n <= 0 {
        Seq::empty()
    } else if since(w.peers[n - 1].last_seen, now) < w.idle_timeout && since(
        w.peers[n - 1].last_sent,
        now,
    ) >= w.keepalive_interval {
        keepalives(w, n - 1, now).push(Sent { to: w.peers[n - 1].id, msg: Msg::KeepAlive })
    } else {
        keepalives(w, n - 1, now)
    }
}

/// The ids of those of the first `n` connections that `dest` holds.
pub open spec fn held_by(peers: Seq<PeerState>, dest: DestHash, n: int) -> Seq<u64>
    decreases n,
{
    if n <= 0 {
        Seq::empty()
    } else if peers[n - 1].dest == dest {
        held_by(peers, dest, n - 1).push(peers[n - 1].id)
    } else {
        held_by(peers, dest, n - 1)
    }
}

/// The ids of the connections that the first `n` of `dests` hold.
pub open spec fn held_by_any(peers: Seq<PeerState>, dests: Seq<DestHash>, n: int) -> Seq<u64>
    decreases n,
{
    if n <= 0 {
        Seq::empty()
    } else {
        held_by_any(peers, dests, n - 1) + held_by(peers, dests[n - 1], peers.len() as int)
    }
}

/// A message for each of the first `n` peers.
pub open spec fn broadcast_to(peers: Seq<PeerState>, msg: Msg, n: int) -> Seq<Sent>
    decreases n,
{
    if n <= 0 {
        Seq::empty()
    } else {
        broadcast_to(peers, msg, n - 1).push(Sent { to: peers[n - 1].id, msg })
    }
}

/// Whether a message is queued for a peer.
pub open spec fn addressed(out: Seq<Sent>, id: u64) -> bool {
    exists|k: int| 0 <= k < out.len() && (#[trigger] out[k]).to == id
}

/// What the disk is asked to do before an event can be settled.
#[derive(Clone, Copy, Debug)]
pub enum Disk {
    /// Nothing.
    Nothing,
    /// Write the block that just arrived.
    Write {
        /// The piece.
        index: u32,
        /// Where in the piece it starts.
        begin: u32,
    },
    /// Read a block to serve.
    Read(BlockRequest),
}

impl Turn {
    pub open spec fn with_peer(self, i: int, p: PeerState) -> Turn {
        Turn { world: World { peers: self.world.peers.update(i, p), ..self.world }, ..self }
    }

    pub open spec fn booked(self, l: Ledger) -> Turn {
        Turn { world: World { ledger: l, ..self.world }, ..self }
    }

    pub open spec fn judged(self, s: Standing) -> Turn {
        Turn { world: World { standing: s, ..self.world }, ..self }
    }

    /// With a message queued to a peer.
    pub open spec fn saying(self, i: int, msg: Msg) -> Turn {
        Turn { out: self.out.push(Sent { to: self.world.peers[i].id, msg }), ..self }
    }

    /// With the first `n` requests put to peer `i`. In the endgame the picker
    /// may hand a block back to the peer that already owes it; that one is not
    /// asked again, and its count is given straight back.
    pub open spec fn asking(self, i: int, reqs: Seq<BlockRequest>, n: int, now: u64) -> Turn
        decreases n,
    {
        if n <= 0 {
            self
        } else {
            let t = self.asking(i, reqs, n - 1, now);
            let r = reqs[n - 1];
            let p = t.world.peers[i];
            let block = r.begin / BLOCK_LEN;
            let e = asked_at(p.in_flight, r.index, block, 0);
            let a = Asked { piece: r.index, block, at: now };
            if e < p.in_flight.len() {
                t.with_peer(i, PeerState { in_flight: p.in_flight.update(e, a), ..p }).booked(
                    failed_block(t.world.ledger, r.index as int, block as int),
                )
            } else {
                t.with_peer(i, PeerState { in_flight: p.in_flight.push(a), ..p }).saying(
                    i,
                    Msg::Request(r),
                )
            }
        }
    }

    /// With the pipeline of peer `i` topped up from the picker.
    pub open spec fn filled(self, i: int, now: u64) -> Turn {
        let p = self.world.peers[i];
        if p.peer_choking || !p.we_interested || p.in_flight.len() >= PIPELINE_DEPTH {
            self
        } else {
            let want = (PIPELINE_DEPTH - p.in_flight.len()) as nat;
            let reqs = self.world.ledger.picks(p.has, want);
            self.booked(self.world.ledger.after_pick(p.has, want)).asking(
                i,
                reqs,
                reqs.len() as int,
                now,
            )
        }
    }

    /// With our interest in peer `i` brought up to date.
    pub open spec fn interested(self, i: int, now: u64) -> Turn {
        let p = self.world.peers[i];
        let want = self.world.wants_from(i);
        if want && !p.we_interested {
            let t = self.with_peer(i, PeerState { we_interested: true, ..p }).saying(
                i,
                Msg::Interested,
            );
            if p.peer_choking {
                t
            } else {
                t.filled(i, now)
            }
        } else if !want && p.we_interested {
            self.with_peer(i, PeerState { we_interested: false, ..p }).saying(
                i,
                Msg::NotInterested,
            )
        } else {
            self
        }
    }

    /// With the first `n` of `ids` choked or unchoked.
    pub open spec fn choking(self, ids: Seq<u64>, choke: bool, n: int) -> Turn
        decreases n,
    {
        if n <= 0 {
            self
        } else {
            let t = self.choking(ids, choke, n - 1);
            let i = t.world.find(ids[n - 1]);
            if i < t.world.peers.len() {
                t.with_peer(i, PeerState { we_choke: choke, ..t.world.peers[i] }).saying(
                    i,
                    if choke {
                        Msg::Choke
                    } else {
                        Msg::Unchoke
                    },
                )
            } else {
                t
            }
        }
    }

    /// After a choke round.
    pub open spec fn choke_round(self) -> Turn {
        let w = self.world;
        let snaps = w.snapshots();
        let picked = chosen(snaps, w.slots, w.rounds + 1);
        let up = changes(snaps, picked, true, snaps.len() as int);
        let down = changes(snaps, picked, false, snaps.len() as int);
        Turn { world: World { rounds: w.rounds + 1, ..w }, ..self }.choking(
            up,
            false,
            up.len() as int,
        ).choking(down, true, down.len() as int)
    }

    /// After a choke round, if one is due.
    pub open spec fn choke_tick(self, now: u64) -> Turn {
        if self.world.choke_due(now) {
            Turn { world: World { last_choke_round: now, ..self.world }, ..self }.choke_round()
        } else {
            self
        }
    }

    /// With another piece set for peer `i`; what the old one contributed to
    /// availability is withdrawn first.
    pub open spec fn holding_now(self, i: int, field: Seq<bool>) -> Turn {
        let p = self.world.peers[i];
        self.with_peer(i, PeerState { has: field, ..p }).booked(
            announced(withdrawn(self.world.ledger, p.has), field),
        )
    }

    /// With one more piece held by peer `i`.
    pub open spec fn gaining(self, i: int, piece: int) -> Turn {
        let p = self.world.peers[i];
        let l = self.world.ledger;
        self.with_peer(i, PeerState { has: p.has.update(piece, true), ..p }).booked(
            Ledger {
                availability: l.availability.update(piece, (l.availability[piece] + 1) as u32),
                ..l
            },
        )
    }

    /// With what we know sent to peer `i`, if it takes peer exchange and there
    /// is anything to send.
    pub open spec fn sharing_peers(self, i: int) -> Turn {
        let p = self.world.peers[i];
        let added = shared_peers(
            self.world.standing,
            p.dest,
            self.world.standing.known.len() as int,
        );
        match p.pex_id {
            Some(id) => if added.len() > 0 {
                self.saying(
                    i,
                    Msg::Extended {
                        id,
                        payload: encoding(Tree::Dict(pex_entries(added, Seq::empty()))),
                    },
                )
            } else {
                self
            },
            None => self,
        }
    }

    /// After an extended message: the handshake, or one of the two kinds we
    /// advertise.
    pub open spec fn extended(self, i: int, ext_id: u8, payload: Seq<u8>, now: u64) -> Turn {
        let p = self.world.peers[i];
        if ext_id == 0 {
            match offer_in(payload) {
                Ok(o) => self.with_peer(
                    i,
                    PeerState {
                        pex_id: id_listed(o.ids, I2P_PEX@),
                        metadata_id: id_listed(o.ids, UT_METADATA@),
                        ..p
                    },
                ).sharing_peers(i),
                Err(_) => self,
            }
        } else if ext_id == OUR_PEX_ID {
            if acceptable(payload) {
                let added = added_in(payload);
                let n = added.len() as int;
                let s = self.world.standing;
                let news = s.news_among(added, Source::Pex, n);
                let t = self.judged(s.remembering_all(added, Source::Pex, n));
                Turn {
                    world: World {
                        pex_learned: least(t.world.pex_learned + news, u64::MAX as int) as u64,
                        ..t.world
                    },
                    ..t
                }
            } else {
                self
            }
        } else if ext_id == OUR_METADATA_ID {
            match (message_in(payload), p.metadata_id) {
                (Ok(MetaMsg::Request { piece }), Some(id)) => self.with_peer(
                    i,
                    PeerState { allowance: p.allowance.after(now), ..p },
                ).saying(
                    i,
                    Msg::Extended {
                        id,
                        payload: message_bytes(
                            rationed_reply(self.world.raw_info, piece, p.allowance, now),
                        ),
                    },
                ),
                _ => self,
            }
        } else {
            self
        }
    }

    /// Whether a block that arrived is one the torrent has, whole and at a
    /// block boundary.
    pub open spec fn well_cut(self, index: u32, begin: u32, len: nat) -> bool {
        begin % BLOCK_LEN == 0 && index < self.world.ledger.have.len() && len
            == self.world.ledger.block_len(index as int, (begin / BLOCK_LEN) as int)
    }

    /// Whether a block is one that peer `i` owes us for a piece we do not hold.
    pub open spec fn due_from(self, i: int, index: u32, begin: u32) -> bool {
        owes(self.world.peers[i].in_flight, index as int, (begin / BLOCK_LEN) as int)
            && !self.world.ledger.have[index as int]
    }

    /// With a request to peer `i` no longer outstanding on its side.
    pub open spec fn settled_by(self, i: int, index: u32, block: u32) -> Turn {
        let p = self.world.peers[i];
        let e = asked_at(p.in_flight, index, block, 0);
        if e < p.in_flight.len() {
            self.with_peer(i, PeerState { in_flight: p.in_flight.remove(e), ..p })
        } else {
            self
        }
    }

    /// After a block arrived that need not be written: it was not asked for,
    /// or the piece is held already. The pipeline is kept full all the same.
    pub open spec fn block_arrived(
        self,
        i: int,
        index: u32,
        begin: u32,
        len: nat,
        now: u64,
    ) -> Turn {
        if !self.well_cut(index, begin, len) {
            self
        } else {
            let t = self.with_peer(i, PeerState { strikes: 0, ..self.world.peers[i] });
            if self.due_from(i, index, begin) {
                t
            } else {
                t.settled_by(i, index, begin / BLOCK_LEN).filled(i, now)
            }
        }
    }

    /// Whether a request of peer `i` may be served.
    pub open spec fn may_serve(self, i: int, r: BlockRequest) -> bool {
        let l = self.world.ledger;
        &&& !self.world.peers[i].we_choke
        &&& 0 < r.length <= BLOCK_LEN
        &&& r.begin + r.length <= l.piece_len(r.index as int)
        &&& r.index < l.have.len()
        &&& l.have[r.index as int]
    }

    /// After a message of peer `i`.
    pub open spec fn handled(self, i: int, msg: Msg, now: u64) -> Turn {
        let p = self.world.peers[i];
        let l = self.world.ledger;
        match msg {
            Msg::KeepAlive | Msg::Cancel(_) | Msg::RejectRequest(_) | Msg::SuggestPiece(_)
            | Msg::AllowedFast(_) | Msg::Request(_) => self,
            Msg::Extended { id, payload } => self.extended(i, id, payload, now),
            Msg::Choke => self.with_peer(
                i,
                PeerState { peer_choking: true, in_flight: Seq::empty(), ..p },
            ).booked(releasing(l, p.in_flight, p.in_flight.len() as int)),
            Msg::Unchoke => self.with_peer(i, PeerState { peer_choking: false, ..p }).filled(
                i,
                now,
            ),
            Msg::Interested => self.with_peer(
                i,
                PeerState { they_interested: true, ..p },
            ).choke_round(),
            Msg::NotInterested => self.with_peer(
                i,
                PeerState { they_interested: false, ..p },
            ).choke_round(),
            Msg::Have(piece) => if piece < l.have.len() && !p.has[piece as int] {
                self.gaining(i, piece as int).interested(i, now)
            } else {
                self
            },
            Msg::Bitfield(bytes) => match field_in(bytes, l.have.len()) {
                Some(field) => self.holding_now(i, field).interested(i, now),
                None => self,
            },
            Msg::HaveAll => self.holding_now(
                i,
                Seq::new(l.have.len(), |k: int| true),
            ).interested(i, now),
            Msg::HaveNone => self.holding_now(
                i,
                Seq::new(l.have.len(), |k: int| false),
            ).interested(i, now),
            Msg::Piece { index, begin, block } => self.block_arrived(
                i,
                index,
                begin,
                block.len(),
                now,
            ),
        }
    }

    /// What the disk is asked for on a message of peer `i`.
    pub open spec fn errand(self, i: int, msg: Msg) -> Disk {
        match msg {
            Msg::Request(r) => if self.may_serve(i, r) {
                Disk::Read(r)
            } else {
                Disk::Nothing
            },
            Msg::Piece { index, begin, block } => if self.well_cut(index, begin, block.len())
                && self.due_from(i, index, begin) {
                Disk::Write { index, begin }
            } else {
                Disk::Nothing
            },
            _ => Disk::Nothing,
        }
    }

    /// After a message from the peer with an id, if it is connected.
    pub open spec fn heard(self, id: u64, msg: Msg, now: u64) -> Turn {
        let i = self.world.find(id);
        if i < self.world.peers.len() {
            self.with_peer(i, PeerState { last_seen: now, ..self.world.peers[i] }).handled(
                i,
                msg,
                now,
            )
        } else {
            self
        }
    }

    /// What the disk is asked for on a message from the peer with an id.
    pub open spec fn errand_for(self, id: u64, msg: Msg) -> Disk {
        if self.world.connected(id) {
            self.errand(self.world.find(id), msg)
        } else {
            Disk::Nothing
        }
    }

    /// After a block that peer `i` owed us was written, or could not be.
    pub open spec fn block_written(
        self,
        i: int,
        index: u32,
        begin: u32,
        ok: bool,
        now: u64,
    ) -> Turn {
        let block = begin / BLOCK_LEN;
        let l = self.world.ledger;
        let t = self.settled_by(i, index, block);
        if ok {
            Turn {
                world: World {
                    ledger: received_block(l, index as int, block as int),
                    standing: Standing {
                        suppliers: t.world.standing.suppliers.insert(
                            (index, block),
                            self.world.peers[i].dest,
                        ),
                        ..t.world.standing
                    },
                    downloaded: wrapping(
                        t.world.downloaded + l.block_len(index as int, block as int),
                    ),
                    ..t.world
                },
                ..t
            }
        } else {
            t.booked(failed_block(l, index as int, block as int)).filled(i, now)
        }
    }

    /// After the block that was asked of the disk for the peer with an id was
    /// written, or could not be.
    pub open spec fn written(self, id: u64, index: u32, begin: u32, ok: bool, now: u64) -> Turn {
        if self.awaits_write(id, index, begin) {
            self.block_written(self.world.find(id), index, begin, ok, now)
        } else {
            self
        }
    }

    /// Whether a block may be written: the peer with an id owes it, for a piece
    /// that we do not hold.
    pub open spec fn awaits_write(self, id: u64, index: u32, begin: u32) -> bool {
        self.world.connected(id) && begin % BLOCK_LEN == 0 && index < self.world.ledger.have.len()
            && self.due_from(self.world.find(id), index, begin)
    }

    /// Whether writing that block makes the piece whole.
    pub open spec fn completes(self, index: u32, begin: u32) -> bool {
        forall|b: int|
            0 <= b < self.world.ledger.blocks(index as int) && b != begin / BLOCK_LEN
                ==> #[trigger] self.world.ledger.account(index as int).received[b]
    }

    /// After a piece, completed by the peer with an id, verified or failed.
    pub open spec fn verified(self, id: u64, index: u32, ok: bool, now: u64) -> Turn {
        if index < self.world.ledger.have.len() {
            let t = self.piece_judged(index, ok);
            if t.world.connected(id) {
                t.filled(t.world.find(id), now)
            } else {
                t
            }
        } else {
            self
        }
    }

    /// After a piece verified or failed. If it verified, everybody is told and
    /// its suppliers are credited; if it failed, it is downloaded again, its
    /// suppliers are blamed, and the connections of whoever is banned for it
    /// are to be dropped.
    pub open spec fn piece_judged(self, index: u32, ok: bool) -> Turn {
        let w = self.world;
        let n = w.ledger.blocks(index as int) as int;
        if ok {
            Turn {
                world: World {
                    ledger: Ledger {
                        have: w.ledger.have.update(index as int, true),
                        progress: w.ledger.progress.update(index as int, None),
                        ..w.ledger
                    },
                    standing: w.standing.crediting(index, n),
                    ..w
                },
                out: self.out + broadcast_to(w.peers, Msg::Have(index), w.peers.len() as int),
            }
        } else {
            let culprits = w.standing.culprits(index, n);
            Turn {
                world: World {
                    ledger: w.ledger.with_account(index as int, None),
                    standing: w.standing.blaming(index, n),
                    to_drop: w.to_drop + held_by_any(w.peers, culprits, culprits.len() as int),
                    ..w
                },
                ..self
            }
        }
    }

    /// After a block was read for peer `i`.
    pub open spec fn block_served(self, i: int, r: BlockRequest, data: Seq<u8>) -> Turn {
        let p = self.world.peers[i];
        let t = self.with_peer(
            i,
            PeerState { uploaded: (p.uploaded + data.len()) as u64, ..p },
        ).saying(i, Msg::Piece { index: r.index, begin: r.begin, block: data });
        Turn {
            world: World { uploaded: wrapping(self.world.uploaded + data.len()), ..t.world },
            ..t
        }
    }

    /// After a block was read for the peer with an id.
    pub open spec fn served(self, id: u64, r: BlockRequest, data: Seq<u8>) -> Turn {
        if self.world.connected(id) {
            self.block_served(self.world.find(id), r, data)
        } else {
            self
        }
    }

    /// With the keep-alive clock of every peer that something is queued for
    /// started again.
    pub open spec fn recorded(self, now: u64) -> Turn {
        Turn {
            world: World {
                peers: Seq::new(
                    self.world.peers.len(),
                    |i: int|
                        if addressed(self.out, self.world.peers[i].id) {
                            PeerState { last_sent: now, ..self.world.peers[i] }
                        } else {
                            self.world.peers[i]
                        },
                ),
                ..self.world
            },
            ..self
        }
    }

    /// With an event settled: a choke round if one is due, clocks started
    /// again, and nobody left to drop.
    pub open spec fn settled(self, now: u64) -> Turn {
        let t = self.choke_tick(now).recorded(now);
        Turn { world: World { to_drop: Seq::empty(), ..t.world }, ..t }
    }

    /// With the requests that peer `i` did not answer given up, at the price of
    /// a strike, and its pipeline topped up unless it has struck out.
    pub open spec fn chased_one(self, i: int, now: u64) -> Turn {
        let p = self.world.peers[i];
        let n = p.in_flight.len() as int;
        let limit = self.world.request_timeout;
        let gone = aged(p.in_flight, n, now, limit, false);
        let kept = aged(p.in_flight, n, now, limit, true);
        let strikes = least(p.strikes + 1, u32::MAX as int) as u32;
        if gone.len() == 0 {
            self.filled(i, now)
        } else {
            let t = self.with_peer(i, PeerState { in_flight: kept, strikes, ..p }).booked(
                releasing(self.world.ledger, gone, gone.len() as int),
            );
            if strikes >= REQUEST_STRIKES {
                t
            } else {
                t.filled(i, now)
            }
        }
    }

    /// Whether peer `i` has struck out.
    pub open spec fn strikes_out(self, i: int, now: u64) -> bool {
        let p = self.world.peers[i];
        aged(p.in_flight, p.in_flight.len() as int, now, self.world.request_timeout, false).len()
            > 0 && least(p.strikes + 1, u32::MAX as int) >= REQUEST_STRIKES
    }

    /// With the requests of the first `n` peers chased.
    pub open spec fn chased(self, n: int, now: u64) -> Turn
        decreases n,
    {
        if n <= 0 {
            self
        } else {
            self.chased(n - 1, now).chased_one(n - 1, now)
        }
    }

    /// The ids of those of the first `n` peers that struck out.
    pub open spec fn struck_out(self, n: int, now: u64) -> Seq<u64>
        decreases n,
    {
        if n <= 0 {
            Seq::empty()
        } else if self.chased(n - 1, now).strikes_out(n - 1, now) {
            self.struck_out(n - 1, now).push(self.chased(n - 1, now).world.peers[n - 1].id)
        } else {
            self.struck_out(n - 1, now)
        }
    }

    /// After one tick of the periodic work.
    pub open spec fn maintained(self, now: u64) -> Turn {
        let n = self.world.peers.len() as int;
        Turn { out: self.out + keepalives(self.world, n, now), ..self }.chased(n, now).settled(now)
    }

    /// Whom one tick of the periodic work drops.
    pub open spec fn dropped_by_tick(self, now: u64) -> Seq<u64> {
        let n = self.world.peers.len() as int;
        silent(self.world, n, now) + Turn {
            out: self.out + keepalives(self.world, n, now),
            ..self
        }.struck_out(n, now) + self.world.to_drop
    }
}

/// A sum that wraps round.
pub open spec fn wrapping(n: int) -> u64 {
    (n % 0x1_0000_0000_0000_0000) as u64
}

impl World {
    /// The state without a peer: its availability withdrawn, its requests
    /// released.
    pub open spec fn without(self, i: int) -> World {
        let p = self.peers[i];
        World {
            peers: self.peers.update(i, self.peers.last()).drop_last(),
            ledger: releasing(
                withdrawn(self.ledger, p.has),
                p.in_flight,
                p.in_flight.len() as int,
            ),
            ..self
        }
    }

    /// The state once the peer with an id is removed, if it is there.
    pub open spec fn removing(self, id: u64) -> World {
        if self.connected(id) {
            self.without(self.find(id))
        } else {
            self
        }
    }

    /// The state once the peers with the first `n` of some ids are removed.
    pub open spec fn removing_all(self, ids: Seq<u64>, n: int) -> World
        decreases n,
    {
        if n <= 0 {
            self
        } else {
            self.removing_all(ids, n - 1).removing(ids[n - 1])
        }
    }

    /// The ids of the connected peers.
    pub open spec fn ids(self) -> Seq<u64> {
        self.peers.map_values(|p: PeerState| p.id)
    }

    /// The state once a peer has been seated.
    pub open spec fn seating(self, dest: DestHash, now: u64) -> World {
        World {
            next_id: (self.next_id + 1) as u64,
            standing: self.standing.remembering(dest, Source::Trusted),
            peers: self.peers.push(
                PeerState {
                    id: self.next_id,
                    dest,
                    has: Seq::new(self.ledger.have.len(), |i: int| false),
                    peer_choking: true,
                    we_choke: true,
                    they_interested: false,
                    we_interested: false,
                    in_flight: Seq::empty(),
                    strikes: 0,
                    last_sent: now,
                    last_seen: now,
                    uploaded: 0,
                    pex_id: None,
                    metadata_id: None,
                    allowance: fresh_allowance(),
                },
            ),
            ..self
        }
    }
}

// ---------------------------------------------------------------------------
// Facts about the model.

pub open spec fn bit(b: bool) -> nat {
    if b {
        1
    } else {
        0
    }
}

pub proof fn lemma_peer_at(peers: Seq<PeerState>, id: u64, n: int)
    requires
        0 <= n <= peers.len(),
    ensures
        n <= peer_at(peers, id, n) <= peers.len(),
        peer_at(peers, id, n) < peers.len() ==> peers[peer_at(peers, id, n)].id == id,
        forall|j: int| n <= j < peer_at(peers, id, n) ==> (#[trigger] peers[j]).id != id,
    decreases peers.len() - n,
{
    if n < peers.len() && peers[n].id != id {
        lemma_peer_at(peers, id, n + 1);
    }
}

pub proof fn lemma_asked_at(f: Seq<Asked>, piece: u32, block: u32, n: int)
    requires
        0 <= n <= f.len(),
    ensures
        n <= asked_at(f, piece, block, n) <= f.len(),
        asked_at(f, piece, block, n) < f.len() ==> f[asked_at(f, piece, block, n)].piece == piece
            && f[asked_at(f, piece, block, n)].block == block,
        forall|j: int|
            n <= j < asked_at(f, piece, block, n) ==> !((#[trigger] f[j]).piece == piece
                && f[j].block == block),
    decreases f.len() - n,
{
    if n < f.len() && !(f[n].piece == piece && f[n].block == block) {
        lemma_asked_at(f, piece, block, n + 1);
    }
}

pub proof fn lemma_owes(f: Seq<Asked>, piece: u32, block: u32)
    ensures
        owes(f, piece as int, block as int) <==> asked_at(f, piece, block, 0) < f.len(),
{
    lemma_asked_at(f, piece, block, 0);
}

pub proof fn lemma_tally_bound(peers: Seq<PeerState>, n: int, f: spec_fn(PeerState) -> bool)
    requires
        0 <= n,
    ensures
        tally(peers, n, f) <= n,
    decreases n,
{
    if n > 0 {
        lemma_tally_bound(peers, n - 1, f);
    }
}

pub proof fn lemma_tally_same(
    a: Seq<PeerState>,
    b: Seq<PeerState>,
    n: int,
    f: spec_fn(PeerState) -> bool,
)
    requires
        n <= a.len(),
        n <= b.len(),
        forall|i: int| 0 <= i < n ==> f(#[trigger] a[i]) == f(b[i]),
    ensures
        tally(a, n, f) == tally(b, n, f),
    decreases n,
{
    if n > 0 {
        lemma_tally_same(a, b, n - 1, f);
        assert(f(a[n - 1]) == f(b[n - 1]));
    }
}

pub proof fn lemma_tally_update(
    peers: Seq<PeerState>,
    i: int,
    x: PeerState,
    n: int,
    f: spec_fn(PeerState) -> bool,
)
    requires
        0 <= i < n <= peers.len(),
    ensures
        tally(peers.update(i, x), n, f) + bit(f(peers[i])) == tally(peers, n, f) + bit(f(x)),
    decreases n,
{
    if n - 1 > i {
        lemma_tally_update(peers, i, x, n - 1, f);
    } else {
        lemma_tally_same(peers, peers.update(i, x), n - 1, f);
    }
}

/// Somebody of whom it holds is counted.
pub proof fn lemma_tally_counts(
    peers: Seq<PeerState>,
    i: int,
    n: int,
    f: spec_fn(PeerState) -> bool,
)
    requires
        0 <= i < n <= peers.len(),
        f(peers[i]),
    ensures
        tally(peers, n, f) > 0,
    decreases n,
{
    if n - 1 > i {
        lemma_tally_counts(peers, i, n - 1, f);
    }
}

pub proof fn lemma_tally_removed(
    peers: Seq<PeerState>,
    i: int,
    f: spec_fn(PeerState) -> bool,
)
    requires
        0 <= i < peers.len(),
    ensures
        tally(
            peers.update(i, peers.last()).drop_last(),
            peers.len() - 1,
            f,
        ) + bit(f(peers[i])) == tally(peers, peers.len() as int, f),
{
    let n = peers.len() as int;
    let u = peers.update(i, peers.last());
    lemma_tally_update(peers, i, peers.last(), n, f);
    lemma_tally_same(u, u.drop_last(), n - 1, f);
    assert(u[n - 1] == peers.last());
}

/// The books still agree when one peer's requests and the picker's counts
/// change in step.
pub proof fn lemma_step(
    l: Ledger,
    peers: Seq<PeerState>,
    next_id: u64,
    extra: Seq<BlockRequest>,
    m: Ledger,
    i: int,
    x: PeerState,
    rest: Seq<BlockRequest>,
)
    requires
        agree(l, peers, next_id, extra),
        0 <= i < peers.len(),
        m.wf(),
        m.have.len() == l.have.len(),
        m.piece_length == l.piece_length,
        m.total_length == l.total_length,
        m.availability == l.availability,
        x.id == peers[i].id,
        x.dest == peers[i].dest,
        x.has == peers[i].has,
        queue_ok(m, x.in_flight),
        forall|p: int, b: int|
            #![trigger outstanding(m, p, b)]
            outstanding(m, p, b) == 0 || outstanding(m, p, b) + bit(
                owes(peers[i].in_flight, p, b),
            ) + bit(wanted(extra, p, b)) <= outstanding(l, p, b) + bit(owes(x.in_flight, p, b))
                + bit(wanted(rest, p, b)),
    ensures
        agree(m, peers.update(i, x), next_id, rest),
{
    let q = peers.update(i, x);
    let n = peers.len() as int;
    assert forall|j: int| 0 <= j < q.len() implies (#[trigger] q[j]).has.len() == m.have.len()
        && queue_ok(m, q[j].in_flight) && q[j].id < next_id && q[j].id == peers[j].id by {
        assert(peers[j].has.len() == l.have.len());
        assert(queue_ok(l, peers[j].in_flight));
        if j != i {
            let f = peers[j].in_flight;
            assert forall|k: int| 0 <= k < f.len() implies (#[trigger] f[k]).piece < m.have.len()
                && f[k].block < m.blocks(f[k].piece as int) by {}
        }
    }
    assert forall|j: int, k: int| 0 <= j < k < q.len() implies (#[trigger] q[j]).id != (
    #[trigger] q[k]).id by {
        assert(peers[j].id != peers[k].id);
    }
    assert forall|p: int| 0 <= p < m.have.len() implies #[trigger] m.availability[p] == holders(
        q,
        p,
    ) by {
        lemma_tally_update(peers, i, x, n, holding(p));
        assert(l.availability[p] == holders(peers, p));
    }
    assert forall|d: DestHash|
        #[trigger] tally(q, n, located(d)) <= MAX_CONNECTIONS_PER_DEST by {
        lemma_tally_update(peers, i, x, n, located(d));
        assert(tally(peers, n, located(d)) <= MAX_CONNECTIONS_PER_DEST);
    }
    assert forall|p: int, b: int|
        #![trigger outstanding(m, p, b)]
        outstanding(m, p, b) <= debtors(q, p, b) + bit(wanted(rest, p, b)) by {
        lemma_tally_update(peers, i, x, n, owing(p, b));
        assert(outstanding(l, p, b) <= debtors(peers, p, b) + bit(wanted(extra, p, b)));
    }
}

/// The books still agree when a peer changes in ways they do not record.
pub proof fn lemma_aside(
    l: Ledger,
    peers: Seq<PeerState>,
    next_id: u64,
    extra: Seq<BlockRequest>,
    i: int,
    x: PeerState,
)
    requires
        agree(l, peers, next_id, extra),
        0 <= i < peers.len(),
        x.id == peers[i].id,
        x.dest == peers[i].dest,
        x.has == peers[i].has,
        x.in_flight == peers[i].in_flight,
    ensures
        agree(l, peers.update(i, x), next_id, extra),
{
    assert(queue_ok(l, peers[i].in_flight));
    lemma_step(l, peers, next_id, extra, l, i, x, extra);
}

/// The books still agree when the picker forgets requests.
pub proof fn lemma_fewer(
    l: Ledger,
    peers: Seq<PeerState>,
    next_id: u64,
    m: Ledger,
)
    requires
        agree(l, peers, next_id, Seq::empty()),
        m.wf(),
        m.have.len() == l.have.len(),
        m.piece_length == l.piece_length,
        m.total_length == l.total_length,
        m.availability == l.availability,
        forall|p: int, b: int|
            #![trigger outstanding(m, p, b)]
            outstanding(m, p, b) <= outstanding(l, p, b),
    ensures
        agree(m, peers, next_id, Seq::empty()),
{
    assert forall|j: int| 0 <= j < peers.len() implies (#[trigger] peers[j]).has.len()
        == m.have.len() && queue_ok(m, peers[j].in_flight) by {
        assert(queue_ok(l, peers[j].in_flight));
        let f = peers[j].in_flight;
        assert forall|k: int| 0 <= k < f.len() implies (#[trigger] f[k]).piece < m.have.len()
            && f[k].block < m.blocks(f[k].piece as int) by {}
    }
    assert forall|p: int| 0 <= p < m.have.len() implies #[trigger] m.availability[p] == holders(
        peers,
        p,
    ) by {
        assert(l.availability[p] == holders(peers, p));
    }
    assert forall|p: int, b: int|
        #![trigger outstanding(m, p, b)]
        outstanding(m, p, b) <= debtors(peers, p, b) + bit(wanted(Seq::empty(), p, b)) by {
        assert(outstanding(l, p, b) <= debtors(peers, p, b) + bit(wanted(Seq::empty(), p, b)));
    }
}

/// What giving up one request does to the counts.
pub proof fn lemma_failed_counts(l: Ledger, piece: int, block: int, p: int, b: int)
    requires
        l.wf(),
        0 <= piece,
        0 <= block,
    ensures
        outstanding(failed_block(l, piece, block), p, b) == (if p == piece && b == block
            && outstanding(l, p, b) > 0 {
            (outstanding(l, p, b) - 1) as nat
        } else {
            outstanding(l, p, b)
        }),
        failed_block(l, piece, block).have == l.have,
        failed_block(l, piece, block).availability == l.availability,
        failed_block(l, piece, block).piece_length == l.piece_length,
        failed_block(l, piece, block).total_length == l.total_length,
        failed_block(l, piece, block).wf(),
{
    let m = failed_block(l, piece, block);
    assert forall|i: int| 0 <= i < m.progress.len() implies #[trigger] m.account_ok(i) by {
        assert(l.account_ok(i));
    }
}

/// What giving up several distinct requests does to the counts.
pub proof fn lemma_releasing(l: Ledger, f: Seq<Asked>, n: int, p: int, b: int)
    requires
        l.wf(),
        0 <= n <= f.len(),
        forall|i: int, j: int|
            0 <= i < j < f.len() ==> (#[trigger] f[i]).piece != (#[trigger] f[j]).piece
                || f[i].block != f[j].block,
    ensures
        outstanding(releasing(l, f, n), p, b) == (if owes(f.take(n), p, b) && outstanding(l, p, b)
            > 0 {
            (outstanding(l, p, b) - 1) as nat
        } else {
            outstanding(l, p, b)
        }),
        releasing(l, f, n).have == l.have,
        releasing(l, f, n).availability == l.availability,
        releasing(l, f, n).piece_length == l.piece_length,
        releasing(l, f, n).total_length == l.total_length,
        releasing(l, f, n).wf(),
    decreases n,
{
    if n > 0 {
        lemma_releasing(l, f, n - 1, p, b);
        let m = releasing(l, f, n - 1);
        let a = f[n - 1];
        lemma_failed_counts(m, a.piece as int, a.block as int, p, b);
        let s = f.take(n);
        let r = f.take(n - 1);
        assert(s =~= r.push(a));
        if owes(r, p, b) {
            let j = choose|j: int|
                0 <= j < r.len() && (#[trigger] r[j]).piece == p && r[j].block == b;
            assert(s[j] == r[j]);
            assert(f[j].piece != f[n - 1].piece || f[j].block != f[n - 1].block);
        }
        if a.piece == p && a.block == b {
            assert(s[n - 1] == a);
        }
        if owes(s, p, b) && !(a.piece == p && a.block == b) {
            let j = choose|j: int|
                0 <= j < s.len() && (#[trigger] s[j]).piece == p && s[j].block == b;
            assert(r[j] == s[j]);
        }
    }
}

/// The requests that have gone unanswered and those that have not make up all
/// of them.
pub proof fn lemma_aged(f: Seq<Asked>, n: int, now: u64, limit: u64, live: bool)
    requires
        0 <= n <= f.len(),
        forall|i: int, j: int|
            0 <= i < j < f.len() ==> (#[trigger] f[i]).piece != (#[trigger] f[j]).piece
                || f[i].block != f[j].block,
    ensures
        aged(f, n, now, limit, live).len() <= n,
        forall|k: int|
            0 <= k < aged(f, n, now, limit, live).len() ==> exists|i: int|
                0 <= i < n && #[trigger] aged(f, n, now, limit, live)[k] == f[i] && (since(
                    f[i].at,
                    now,
                ) < limit) == live,
        forall|i: int|
            0 <= i < n && (since((#[trigger] f[i]).at, now) < limit) == live ==> aged(
                f,
                n,
                now,
                limit,
                live,
            ).contains(f[i]),
        forall|i: int, j: int|
            0 <= i < j < aged(f, n, now, limit, live).len() ==> (#[trigger] aged(
                f,
                n,
                now,
                limit,
                live,
            )[i]).piece != (#[trigger] aged(f, n, now, limit, live)[j]).piece || aged(
                f,
                n,
                now,
                limit,
                live,
            )[i].block != aged(f, n, now, limit, live)[j].block,
    decreases n,
{
    if n > 0 {
        lemma_aged(f, n - 1, now, limit, live);
        let v = aged(f, n - 1, now, limit, live);
        let w = aged(f, n, now, limit, live);
        let took = (since(f[n - 1].at, now) < limit) == live;
        if took {
            assert(w == v.push(f[n - 1]));
        }
        assert forall|k: int| 0 <= k < w.len() implies exists|i: int|
            0 <= i < n && #[trigger] w[k] == f[i] && (since(f[i].at, now) < limit) == live by {
            if k < v.len() {
                assert(w[k] == v[k]);
                let i = choose|i: int|
                    0 <= i < n - 1 && v[k] == f[i] && (since(f[i].at, now) < limit) == live;
                assert(w[k] == f[i]);
            } else {
                assert(w[k] == f[n - 1]);
            }
        }
        assert forall|i: int|
            0 <= i < n && (since((#[trigger] f[i]).at, now) < limit) == live implies w.contains(
            f[i],
        ) by {
            if i < n - 1 {
                assert(v.contains(f[i]));
                let k = choose|k: int| 0 <= k < v.len() && v[k] == f[i];
                assert(w[k] == f[i]);
            } else {
                assert(w[v.len() as int] == f[i]);
            }
        }
        assert forall|i: int, j: int| 0 <= i < j < w.len() implies (#[trigger] w[i]).piece != (
        #[trigger] w[j]).piece || w[i].block != w[j].block by {
            assert(w[i] == v[i]);
            if j < v.len() {
                assert(w[j] == v[j]);
            } else {
                let a = choose|a: int| 0 <= a < n - 1 && v[i] == f[a];
                assert(f[a].piece != f[n - 1].piece || f[a].block != f[n - 1].block);
            }
        }
    }
}

/// A block is owed among the unanswered requests, or among the others, or not
/// at all.
pub proof fn lemma_aged_split(f: Seq<Asked>, now: u64, limit: u64, p: int, b: int)
    requires
        forall|i: int, j: int|
            0 <= i < j < f.len() ==> (#[trigger] f[i]).piece != (#[trigger] f[j]).piece
                || f[i].block != f[j].block,
    ensures
        bit(owes(f, p, b)) == bit(owes(aged(f, f.len() as int, now, limit, true), p, b)) + bit(
            owes(aged(f, f.len() as int, now, limit, false), p, b),
        ),
{
    let n = f.len() as int;
    let live = aged(f, n, now, limit, true);
    let gone = aged(f, n, now, limit, false);
    lemma_aged(f, n, now, limit, true);
    lemma_aged(f, n, now, limit, false);
    if owes(f, p, b) {
        let j = choose|j: int| 0 <= j < f.len() && (#[trigger] f[j]).piece == p && f[j].block == b;
        if since(f[j].at, now) < limit {
            assert(live.contains(f[j]));
            let k = choose|k: int| 0 <= k < live.len() && live[k] == f[j];
            assert(owes(live, p, b));
        } else {
            assert(gone.contains(f[j]));
            let k = choose|k: int| 0 <= k < gone.len() && gone[k] == f[j];
            assert(owes(gone, p, b));
        }
    }
    if owes(live, p, b) {
        let k = choose|k: int|
            0 <= k < live.len() && (#[trigger] live[k]).piece == p && live[k].block == b;
        let i = choose|i: int|
            0 <= i < n && live[k] == f[i] && (since(f[i].at, now) < limit) == true;
        assert(f[i].piece == p);
        if owes(gone, p, b) {
            let k2 = choose|k2: int|
                0 <= k2 < gone.len() && (#[trigger] gone[k2]).piece == p && gone[k2].block == b;
            let i2 = choose|i2: int|
                0 <= i2 < n && gone[k2] == f[i2] && (since(f[i2].at, now) < limit) == false;
            if i < i2 {
                assert(f[i].piece != f[i2].piece || f[i].block != f[i2].block);
            } else {
                assert(f[i2].piece != f[i].piece || f[i2].block != f[i].block);
            }
        }
    }
    if owes(gone, p, b) {
        let k = choose|k: int|
            0 <= k < gone.len() && (#[trigger] gone[k]).piece == p && gone[k].block == b;
        let i = choose|i: int|
            0 <= i < n && gone[k] == f[i] && (since(f[i].at, now) < limit) == false;
        assert(f[i].piece == p);
    }
}

/// What a pick does to the counts.
pub proof fn lemma_after_pick(l: Ledger, has: Seq<bool>, want: nat, p: int, b: int)
    requires
        l.wf(),
        l.countable(),
    ensures
        outstanding(l.after_pick(has, want), p, b) <= outstanding(l, p, b) + bit(
            wanted(l.picks(has, want), p, b),
        ),
{
    let m = l.after_pick(has, want);
    let reqs = l.picks(has, want);
    if outstanding(m, p, b) > 0 {
        assert(l.account_ok(p));
        assert(0 <= b < l.blocks(p));
        lemma_blocks_bound(l, p, b);
        if l.progress[p] is Some {
            assert(l.progress[p]->Some_0.in_flight[b] < u32::MAX);
        }
        if reqs.contains(l.request(p, b)) {
            let k = choose|k: int| 0 <= k < reqs.len() && reqs[k] == l.request(p, b);
            assert(reqs[k].index == p && reqs[k].begin == b * BLOCK_LEN);
        }
    }
}

/// While the books agree, another request for any block can be counted.
pub proof fn lemma_countable(l: Ledger, peers: Seq<PeerState>, next_id: u64)
    requires
        agree(l, peers, next_id, Seq::empty()),
    ensures
        l.countable(),
{
    assert forall|p: int, b: int|
        0 <= p < l.progress.len() && l.progress[p] is Some && 0 <= b
            < l.progress[p]->Some_0.in_flight.len()
            implies #[trigger] l.progress[p]->Some_0.in_flight[b] < u32::MAX by {
        assert(outstanding(l, p, b) <= debtors(peers, p, b));
        lemma_tally_bound(peers, peers.len() as int, owing(p, b));
    }
}

/// One request fewer is about to be asked.
pub proof fn lemma_wanted_skip(reqs: Seq<BlockRequest>, k: int, p: int, b: int)
    requires
        0 <= k < reqs.len(),
    ensures
        wanted(reqs.skip(k), p, b) <==> (wanted(reqs.skip(k + 1), p, b) || (reqs[k].index == p
            && reqs[k].begin == b * BLOCK_LEN)),
{
    let s = reqs.skip(k);
    let r = reqs.skip(k + 1);
    if wanted(s, p, b) {
        let j = choose|j: int|
            0 <= j < s.len() && (#[trigger] s[j]).index == p && s[j].begin == b * BLOCK_LEN;
        if j > 0 {
            assert(r[j - 1] == s[j]);
        }
    }
    if wanted(r, p, b) {
        let j = choose|j: int|
            0 <= j < r.len() && (#[trigger] r[j]).index == p && r[j].begin == b * BLOCK_LEN;
        assert(s[j + 1] == r[j]);
    }
    assert(s[0] == reqs[k]);
}

/// The books still agree when one peer's piece set and the availability change
/// in step.
pub proof fn lemma_field_changed(
    l: Ledger,
    peers: Seq<PeerState>,
    next_id: u64,
    m: Ledger,
    i: int,
    x: PeerState,
)
    requires
        agree(l, peers, next_id, Seq::empty()),
        0 <= i < peers.len(),
        m.wf(),
        m.have == l.have,
        m.piece_length == l.piece_length,
        m.total_length == l.total_length,
        m.progress == l.progress,
        x.id == peers[i].id,
        x.dest == peers[i].dest,
        x.in_flight == peers[i].in_flight,
        x.has.len() == l.have.len(),
        forall|p: int|
            0 <= p < l.have.len() ==> #[trigger] m.availability[p] + bit(peers[i].has[p])
                == l.availability[p] + bit(x.has[p]),
    ensures
        agree(m, peers.update(i, x), next_id, Seq::empty()),
{
    let q = peers.update(i, x);
    let n = peers.len() as int;
    assert forall|j: int| 0 <= j < q.len() implies (#[trigger] q[j]).has.len() == m.have.len()
        && queue_ok(m, q[j].in_flight) && q[j].id < next_id && q[j].id == peers[j].id by {
        assert(peers[j].has.len() == l.have.len());
        assert(queue_ok(l, peers[j].in_flight));
        let f = peers[j].in_flight;
        assert forall|k: int| 0 <= k < f.len() implies (#[trigger] f[k]).piece < m.have.len()
            && f[k].block < m.blocks(f[k].piece as int) by {}
    }
    assert forall|j: int, k: int| 0 <= j < k < q.len() implies (#[trigger] q[j]).id != (
    #[trigger] q[k]).id by {
        assert(peers[j].id != peers[k].id);
    }
    assert forall|p: int| 0 <= p < m.have.len() implies #[trigger] m.availability[p] == holders(
        q,
        p,
    ) by {
        lemma_tally_update(peers, i, x, n, holding(p));
        assert(l.availability[p] == holders(peers, p));
    }
    assert forall|d: DestHash|
        #[trigger] tally(q, n, located(d)) <= MAX_CONNECTIONS_PER_DEST by {
        lemma_tally_update(peers, i, x, n, located(d));
        assert(tally(peers, n, located(d)) <= MAX_CONNECTIONS_PER_DEST);
    }
    assert forall|p: int, b: int|
        #![trigger outstanding(m, p, b)]
        outstanding(m, p, b) <= debtors(q, p, b) + bit(wanted(Seq::empty(), p, b)) by {
        lemma_tally_update(peers, i, x, n, owing(p, b));
        assert(outstanding(l, p, b) <= debtors(peers, p, b) + bit(wanted(Seq::empty(), p, b)));
    }
}

/// What a peer holds is counted, and there is room to count more.
pub proof fn lemma_availability(l: Ledger, peers: Seq<PeerState>, next_id: u64, i: int, p: int)
    requires
        agree(l, peers, next_id, Seq::empty()),
        0 <= i < peers.len(),
        0 <= p < l.have.len(),
    ensures
        l.availability[p] < u32::MAX,
        peers[i].has[p] ==> l.availability[p] > 0,
{
    let n = peers.len() as int;
    assert(l.availability[p] == holders(peers, p));
    lemma_tally_bound(peers, n, holding(p));
    if peers[i].has[p] {
        lemma_tally_counts(peers, i, n, holding(p));
    }
}

/// What the arrival of a block does to the counts.
pub proof fn lemma_received_counts(l: Ledger, piece: int, block: int, p: int, b: int)
    requires
        l.wf(),
        0 <= piece < l.have.len(),
        0 <= block < l.blocks(piece),
    ensures
        outstanding(received_block(l, piece, block), p, b) == (if p == piece && b == block
            && outstanding(l, p, b) > 0 {
            (outstanding(l, p, b) - 1) as nat
        } else {
            outstanding(l, p, b)
        }),
{
    assert(l.account_ok(piece));
}

/// The books still agree once a peer is gone.
pub proof fn lemma_removed(w: World, i: int)
    requires
        agree(w.ledger, w.peers, w.next_id, Seq::empty()),
        0 <= i < w.peers.len(),
    ensures
        agree(w.without(i).ledger, w.without(i).peers, w.next_id, Seq::empty()),
{
    let l = w.ledger;
    let peers = w.peers;
    let x = peers[i];
    let f = x.in_flight;
    let k = withdrawn(l, x.has);
    let q = w.without(i).peers;
    let m = w.without(i).ledger;
    assert(queue_ok(l, f));
    assert(x.has.len() == l.have.len());
    assert(k.wf()) by {
        assert forall|j: int| 0 <= j < k.progress.len() implies #[trigger] k.account_ok(j) by {
            assert(l.account_ok(j));
        }
    }
    lemma_releasing(k, f, f.len() as int, 0, 0);
    assert forall|j: int| 0 <= j < q.len() implies (#[trigger] q[j]).has.len() == m.have.len()
        && queue_ok(m, q[j].in_flight) && q[j].id < w.next_id by {
        let j2 = if j == i {
            peers.len() - 1
        } else {
            j
        };
        assert(q[j] == peers[j2]);
        assert(queue_ok(l, peers[j2].in_flight));
        let g = peers[j2].in_flight;
        assert forall|n: int| 0 <= n < g.len() implies (#[trigger] g[n]).piece < m.have.len()
            && g[n].block < m.blocks(g[n].piece as int) by {}
    }
    assert forall|a: int, b: int| 0 <= a < b < q.len() implies (#[trigger] q[a]).id != (
    #[trigger] q[b]).id by {
        let n = peers.len() - 1;
        let a2 = if a == i {
            n
        } else {
            a
        };
        let b2 = if b == i {
            n
        } else {
            b
        };
        assert(q[a] == peers[a2] && q[b] == peers[b2]);
        if a2 < b2 {
            assert(peers[a2].id != peers[b2].id);
        } else {
            assert(peers[b2].id != peers[a2].id);
        }
    }
    assert forall|p: int| 0 <= p < m.have.len() implies #[trigger] m.availability[p] == holders(
        q,
        p,
    ) by {
        lemma_tally_removed(peers, i, holding(p));
        assert(l.availability[p] == holders(peers, p));
    }
    assert forall|d: DestHash|
        #[trigger] tally(q, q.len() as int, located(d)) <= MAX_CONNECTIONS_PER_DEST by {
        lemma_tally_removed(peers, i, located(d));
        assert(tally(peers, peers.len() as int, located(d)) <= MAX_CONNECTIONS_PER_DEST);
    }
    assert forall|p: int, b: int|
        #![trigger outstanding(m, p, b)]
        outstanding(m, p, b) <= debtors(q, p, b) + bit(wanted(Seq::empty(), p, b)) by {
        lemma_tally_removed(peers, i, owing(p, b));
        lemma_releasing(k, f, f.len() as int, p, b);
        assert(f.take(f.len() as int) =~= f);
        assert(outstanding(k, p, b) == outstanding(l, p, b));
        assert(outstanding(l, p, b) <= debtors(peers, p, b) + bit(wanted(Seq::empty(), p, b)));
    }
}

/// The books still agree once a peer is seated.
pub proof fn lemma_seated(w: World, dest: DestHash, now: u64)
    requires
        agree(w.ledger, w.peers, w.next_id, Seq::empty()),
        w.next_id < u64::MAX,
        w.peers.len() + 1 < u32::MAX,
        w.connections(dest) < MAX_CONNECTIONS_PER_DEST,
    ensures
        agree(
            w.seating(dest, now).ledger,
            w.seating(dest, now).peers,
            w.seating(dest, now).next_id,
            Seq::empty(),
        ),
{
    let l = w.ledger;
    let peers = w.peers;
    let q = w.seating(dest, now).peers;
    let n = peers.len() as int;
    assert forall|j: int| 0 <= j < q.len() implies (#[trigger] q[j]).has.len() == l.have.len()
        && queue_ok(l, q[j].in_flight) && q[j].id < w.next_id + 1 by {
        if j < n {
            assert(q[j] == peers[j]);
            assert(queue_ok(l, peers[j].in_flight));
        }
    }
    assert forall|a: int, b: int| 0 <= a < b < q.len() implies (#[trigger] q[a]).id != (
    #[trigger] q[b]).id by {
        assert(q[a] == peers[a]);
        assert(peers[a].id < w.next_id);
        if b < n {
            assert(q[b] == peers[b]);
            assert(peers[a].id != peers[b].id);
        }
    }
    assert forall|p: int| 0 <= p < l.have.len() implies #[trigger] l.availability[p] == holders(
        q,
        p,
    ) by {
        lemma_tally_same(peers, q, n, holding(p));
        assert(l.availability[p] == holders(peers, p));
        assert(!q[n].has[p]);
    }
    assert forall|d: DestHash|
        #[trigger] tally(q, n + 1, located(d)) <= MAX_CONNECTIONS_PER_DEST by {
        lemma_tally_same(peers, q, n, located(d));
        assert(tally(peers, n, located(d)) <= MAX_CONNECTIONS_PER_DEST);
    }
    assert forall|p: int, b: int|
        #![trigger outstanding(l, p, b)]
        outstanding(l, p, b) <= debtors(q, p, b) + bit(wanted(Seq::empty(), p, b)) by {
        lemma_tally_same(peers, q, n, owing(p, b));
        assert(outstanding(l, p, b) <= debtors(peers, p, b) + bit(wanted(Seq::empty(), p, b)));
    }
}

/// Removing one peer leaves the others connected.
pub proof fn lemma_removing_others(w: World, id: u64, other: u64)
    requires
        w.connected(id),
        w.connected(other),
        id != other,
    ensures
        w.removing(id).connected(other),
        w.removing(id).peers.len() == w.peers.len() - 1,
{
    lemma_peer_at(w.peers, id, 0);
    lemma_peer_at(w.peers, other, 0);
    let v = w.removing(id);
    lemma_peer_at(v.peers, other, 0);
    let i = w.find(id);
    let j = w.find(other);
    if j == w.peers.len() - 1 {
        assert(v.peers[i].id == other);
    } else {
        assert(v.peers[j].id == other);
    }
}

// ---------------------------------------------------------------------------
// What the torrent promises.

/// In every state, the books agree: each piece's availability is the number of
/// connected peers that hold it, ids are unique and were issued, no peer owes
/// more than its pipeline holds, and no destination holds more than its share
/// of connections.
pub proof fn law_books_agree(w: World, i: int, j: int, piece: int, dest: DestHash)
    requires
        w.wf(),
    ensures
        0 <= piece < w.ledger.have.len() ==> w.ledger.availability[piece] == holders(
            w.peers,
            piece,
        ),
        0 <= i < w.peers.len() ==> w.peers[i].id < w.next_id,
        0 <= i < j < w.peers.len() ==> w.peers[i].id != w.peers[j].id,
        0 <= i < w.peers.len() ==> w.peers[i].in_flight.len() <= PIPELINE_DEPTH,
        w.connections(dest) <= MAX_CONNECTIONS_PER_DEST,
{
    if 0 <= i < w.peers.len() {
        assert(queue_ok(w.ledger, w.peers[i].in_flight));
    }
    assert(tally(w.peers, w.peers.len() as int, located(dest)) <= MAX_CONNECTIONS_PER_DEST);
}

/// The sum of `h` over the first `n` blocks of a piece.
spec fn row(h: spec_fn(int, int) -> nat, p: int, n: int) -> nat
    decreases n,
{
    if n <= 0 {
        0
    } else {
        row(h, p, n - 1) + h(p, n - 1)
    }
}

/// The sum of `h` over all blocks of the first `n` pieces.
spec fn grid(h: spec_fn(int, int) -> nat, l: Ledger, n: int) -> nat
    decreases n,
{
    if n <= 0 {
        0
    } else {
        grid(h, l, n - 1) + row(h, n - 1, l.blocks(n - 1) as int)
    }
}

proof fn lemma_row_sum(
    f: spec_fn(int, int) -> nat,
    g: spec_fn(int, int) -> nat,
    h: spec_fn(int, int) -> nat,
    p: int,
    n: int,
)
    requires
        forall|b: int| 0 <= b < n ==> #[trigger] f(p, b) <= g(p, b) + h(p, b),
    ensures
        row(f, p, n) <= row(g, p, n) + row(h, p, n),
    decreases n,
{
    if n > 0 {
        lemma_row_sum(f, g, h, p, n - 1);
        assert(f(p, n - 1) <= g(p, n - 1) + h(p, n - 1));
    }
}

proof fn lemma_grid_sum(
    f: spec_fn(int, int) -> nat,
    g: spec_fn(int, int) -> nat,
    h: spec_fn(int, int) -> nat,
    l: Ledger,
    n: int,
)
    requires
        forall|p: int, b: int| #[trigger] f(p, b) <= g(p, b) + h(p, b),
    ensures
        grid(f, l, n) <= grid(g, l, n) + grid(h, l, n),
    decreases n,
{
    if n > 0 {
        lemma_grid_sum(f, g, h, l, n - 1);
        lemma_row_sum(f, g, h, n - 1, l.blocks(n - 1) as int);
    }
}

spec fn nothing() -> spec_fn(int, int) -> nat {
    |p: int, b: int| 0nat
}

spec fn at_block(piece: int, block: int) -> spec_fn(int, int) -> nat {
    |p: int, b: int| bit(p == piece && b == block)
}

spec fn owed_by(f: Seq<Asked>) -> spec_fn(int, int) -> nat {
    |p: int, b: int| bit(owes(f, p, b))
}

spec fn owed_to(peers: Seq<PeerState>, n: int) -> spec_fn(int, int) -> nat {
    |p: int, b: int| tally(peers, n, owing(p, b))
}

spec fn counted(l: Ledger) -> spec_fn(int, int) -> nat {
    |p: int, b: int| outstanding(l, p, b)
}

proof fn lemma_row_point(piece: int, block: int, p: int, n: int)
    ensures
        row(at_block(piece, block), p, n) <= bit(p == piece),
        n <= block ==> row(at_block(piece, block), p, n) == 0,
    decreases n,
{
    if n > 0 {
        lemma_row_point(piece, block, p, n - 1);
    }
}

proof fn lemma_grid_point(piece: int, block: int, l: Ledger, n: int)
    ensures
        grid(at_block(piece, block), l, n) <= 1,
        n <= piece ==> grid(at_block(piece, block), l, n) == 0,
    decreases n,
{
    if n > 0 {
        lemma_grid_point(piece, block, l, n - 1);
        lemma_row_point(piece, block, n - 1, l.blocks(n - 1) as int);
    }
}

proof fn lemma_row_nothing(p: int, n: int)
    ensures
        row(nothing(), p, n) == 0,
    decreases n,
{
    if n > 0 {
        lemma_row_nothing(p, n - 1);
    }
}

proof fn lemma_grid_nothing(l: Ledger, n: int)
    ensures
        grid(nothing(), l, n) == 0,
    decreases n,
{
    if n > 0 {
        lemma_grid_nothing(l, n - 1);
        lemma_row_nothing(n - 1, l.blocks(n - 1) as int);
    }
}

/// A peer owes no more blocks than it was asked for.
proof fn lemma_owed_by(f: Seq<Asked>, l: Ledger, n: int)
    ensures
        grid(owed_by(f), l, n) <= f.len(),
    decreases f.len(),
{
    if f.len() == 0 {
        assert forall|p: int, b: int|
            #[trigger] owed_by(f)(p, b) <= nothing()(p, b) + nothing()(p, b) by {}
        lemma_grid_sum(owed_by(f), nothing(), nothing(), l, n);
        lemma_grid_nothing(l, n);
    } else {
        let g = f.drop_last();
        let a = f.last();
        lemma_owed_by(g, l, n);
        let at = at_block(a.piece as int, a.block as int);
        assert forall|p: int, b: int| #[trigger] owed_by(f)(p, b) <= owed_by(g)(p, b) + at(
            p,
            b,
        ) by {
            if owes(f, p, b) && !(p == a.piece && b == a.block) {
                let j = choose|j: int|
                    0 <= j < f.len() && (#[trigger] f[j]).piece == p && f[j].block == b;
                assert(g[j].piece == p);
            }
        }
        lemma_grid_sum(owed_by(f), owed_by(g), at, l, n);
        lemma_grid_point(a.piece as int, a.block as int, l, n);
    }
}

/// The blocks that the first `n` peers were asked for.
pub open spec fn asked_total(peers: Seq<PeerState>, n: int) -> nat
    decreases n,
{
    if n <= 0 {
        0
    } else {
        asked_total(peers, n - 1) + peers[n - 1].in_flight.len()
    }
}

proof fn lemma_owed_to(peers: Seq<PeerState>, n: int, l: Ledger, m: int)
    requires
        0 <= n <= peers.len(),
    ensures
        grid(owed_to(peers, n), l, m) <= asked_total(peers, n),
    decreases n,
{
    if n == 0 {
        assert forall|p: int, b: int|
            #[trigger] owed_to(peers, n)(p, b) <= nothing()(p, b) + nothing()(p, b) by {}
        lemma_grid_sum(owed_to(peers, n), nothing(), nothing(), l, m);
        lemma_grid_nothing(l, m);
    } else {
        lemma_owed_to(peers, n - 1, l, m);
        let f = peers[n - 1].in_flight;
        lemma_owed_by(f, l, m);
        assert forall|p: int, b: int|
            #[trigger] owed_to(peers, n)(p, b) <= owed_to(peers, n - 1)(p, b) + owed_by(f)(
                p,
                b,
            ) by {
            assert(owing(p, b)(peers[n - 1]) == owes(f, p, b));
        }
        lemma_grid_sum(owed_to(peers, n), owed_to(peers, n - 1), owed_by(f), l, m);
    }
}

proof fn lemma_total_take(s: Seq<u32>, h: spec_fn(int, int) -> nat, p: int, n: int)
    requires
        0 <= n <= s.len(),
        forall|b: int| 0 <= b < s.len() ==> #[trigger] s[b] as nat == h(p, b),
    ensures
        total(s.take(n)) == row(h, p, n),
    decreases n,
{
    if n > 0 {
        lemma_total_take(s, h, p, n - 1);
        assert(s.take(n).drop_last() =~= s.take(n - 1));
        assert(s.take(n).last() == s[n - 1]);
        assert(s[n - 1] as nat == h(p, n - 1));
    }
}

proof fn lemma_counted(l: Ledger, n: int)
    requires
        l.wf(),
        0 <= n <= l.have.len(),
    ensures
        l.in_flight_total(n) <= grid(counted(l), l, n),
    decreases n,
{
    if n > 0 {
        lemma_counted(l, n - 1);
        assert(l.account_ok(n - 1));
        if let Some(a) = l.progress[n - 1] {
            let s = a.in_flight;
            assert forall|b: int| 0 <= b < s.len() implies #[trigger] s[b] as nat == counted(l)(
                n - 1,
                b,
            ) by {}
            lemma_total_take(s, counted(l), n - 1, s.len() as int);
            assert(s.take(s.len() as int) =~= s);
        }
    }
}

/// In every state, the picker believes no more requests to be outstanding than
/// peers owe us: a request that leaked would never be offered again.
pub proof fn law_no_request_is_leaked(w: World)
    requires
        w.wf(),
    ensures
        w.ledger.in_flight_total(w.ledger.have.len() as int) <= asked_total(
            w.peers,
            w.peers.len() as int,
        ),
{
    let l = w.ledger;
    let n = l.have.len() as int;
    let m = w.peers.len() as int;
    lemma_counted(l, n);
    lemma_owed_to(w.peers, m, l, n);
    assert forall|p: int, b: int|
        #[trigger] counted(l)(p, b) <= owed_to(w.peers, m)(p, b) + nothing()(p, b) by {
        assert(outstanding(l, p, b) <= debtors(w.peers, p, b) + bit(
            wanted(Seq::empty(), p, b),
        ));
    }
    lemma_grid_sum(counted(l), owed_to(w.peers, m), nothing(), l, n);
    lemma_grid_nothing(l, n);
}

/// Whether the same peers are in two tables, with the same rations of metadata.
pub open spec fn same_rations(a: World, b: World) -> bool {
    &&& a.peers.len() == b.peers.len()
    &&& forall|j: int|
        0 <= j < a.peers.len() ==> (#[trigger] a.peers[j]).id == b.peers[j].id
            && a.peers[j].allowance == b.peers[j].allowance
}

pub proof fn lemma_asking_keeps(t: Turn, i: int, reqs: Seq<BlockRequest>, n: int, now: u64)
    requires
        0 <= i < t.world.peers.len(),
    ensures
        ({
            let u = t.asking(i, reqs, n, now).world;
            let p = t.world.peers[i];
            &&& u.ledger.have == t.world.ledger.have
            &&& u.peers.len() == t.world.peers.len()
            &&& u.standing == t.world.standing
            &&& u == (World { ledger: u.ledger, peers: u.peers, ..t.world })
            &&& u.peers[i] == (PeerState { in_flight: u.peers[i].in_flight, ..p })
            &&& forall|j: int|
                0 <= j < u.peers.len() && j != i ==> #[trigger] u.peers[j] == t.world.peers[j]
        }),
    decreases n,
{
    if n > 0 {
        lemma_asking_keeps(t, i, reqs, n - 1, now);
    }
}

pub proof fn lemma_filled_keeps(t: Turn, i: int, now: u64)
    requires
        0 <= i < t.world.peers.len(),
    ensures
        ({
            let u = t.filled(i, now).world;
            let p = t.world.peers[i];
            &&& u.ledger.have == t.world.ledger.have
            &&& u.peers.len() == t.world.peers.len()
            &&& u.standing == t.world.standing
            &&& u == (World { ledger: u.ledger, peers: u.peers, ..t.world })
            &&& u.peers[i] == (PeerState { in_flight: u.peers[i].in_flight, ..p })
            &&& forall|j: int|
                0 <= j < u.peers.len() && j != i ==> #[trigger] u.peers[j] == t.world.peers[j]
        }),
{
    let p = t.world.peers[i];
    let want = (PIPELINE_DEPTH - p.in_flight.len()) as nat;
    let reqs = t.world.ledger.picks(p.has, want);
    lemma_asking_keeps(
        t.booked(t.world.ledger.after_pick(p.has, want)),
        i,
        reqs,
        reqs.len() as int,
        now,
    );
}

pub proof fn lemma_interested_keeps(t: Turn, i: int, now: u64)
    requires
        0 <= i < t.world.peers.len(),
    ensures
        t.interested(i, now).world.ledger.have == t.world.ledger.have,
        t.interested(i, now).world.peers.len() == t.world.peers.len(),
        t.interested(i, now).world.peers[i].has == t.world.peers[i].has,
        t.interested(i, now).world.standing == t.world.standing,
        same_rations(t.interested(i, now).world, t.world),
{
    let p = t.world.peers[i];
    let u = t.with_peer(i, PeerState { we_interested: true, ..p }).saying(i, Msg::Interested);
    lemma_filled_keeps(u, i, now);
}

pub proof fn lemma_choking_keeps(t: Turn, ids: Seq<u64>, choke: bool, n: int)
    ensures
        ({
            let u = t.choking(ids, choke, n).world;
            &&& u == (World { peers: u.peers, ..t.world })
            &&& u.peers.len() == t.world.peers.len()
            &&& forall|j: int|
                0 <= j < u.peers.len() ==> (#[trigger] u.peers[j]) == (PeerState {
                    we_choke: u.peers[j].we_choke,
                    ..t.world.peers[j]
                })
        }),
    decreases n,
{
    if n > 0 {
        lemma_choking_keeps(t, ids, choke, n - 1);
        let v = t.choking(ids, choke, n - 1);
        lemma_peer_at(v.world.peers, ids[n - 1], 0);
    }
}

pub proof fn lemma_choke_round_keeps(t: Turn)
    ensures
        ({
            let u = t.choke_round().world;
            &&& u == (World { peers: u.peers, rounds: t.world.rounds + 1, ..t.world })
            &&& u.peers.len() == t.world.peers.len()
            &&& forall|j: int|
                0 <= j < u.peers.len() ==> (#[trigger] u.peers[j]) == (PeerState {
                    we_choke: u.peers[j].we_choke,
                    ..t.world.peers[j]
                })
        }),
{
    let w = t.world;
    let snaps = w.snapshots();
    let picked = chosen(snaps, w.slots, w.rounds + 1);
    let up = changes(snaps, picked, true, snaps.len() as int);
    let down = changes(snaps, picked, false, snaps.len() as int);
    let a = Turn { world: World { rounds: w.rounds + 1, ..w }, ..t };
    lemma_choking_keeps(a, up, false, up.len() as int);
    let b = a.choking(up, false, up.len() as int);
    lemma_choking_keeps(b, down, true, down.len() as int);
}

pub proof fn lemma_releasing_have(l: Ledger, f: Seq<Asked>, n: int)
    ensures
        releasing(l, f, n).have == l.have,
    decreases n,
{
    if n > 0 {
        lemma_releasing_have(l, f, n - 1);
    }
}

pub proof fn lemma_chased_have(t: Turn, n: int, now: u64)
    requires
        0 <= n <= t.world.peers.len(),
    ensures
        t.chased(n, now).world.ledger.have == t.world.ledger.have,
        t.chased(n, now).world.peers.len() == t.world.peers.len(),
        t.chased(n, now).world.standing == t.world.standing,
        same_rations(t.chased(n, now).world, t.world),
    decreases n,
{
    if n > 0 {
        lemma_chased_have(t, n - 1, now);
        let u = t.chased(n - 1, now);
        let i = n - 1;
        let p = u.world.peers[i];
        let m = p.in_flight.len() as int;
        let limit = u.world.request_timeout;
        let gone = aged(p.in_flight, m, now, limit, false);
        let kept = aged(p.in_flight, m, now, limit, true);
        let strikes = least(p.strikes + 1, u32::MAX as int) as u32;
        lemma_filled_keeps(u, i, now);
        lemma_releasing_have(u.world.ledger, gone, gone.len() as int);
        let v = u.with_peer(i, PeerState { in_flight: kept, strikes, ..p }).booked(
            releasing(u.world.ledger, gone, gone.len() as int),
        );
        lemma_filled_keeps(v, i, now);
    }
}

/// A piece is held only once it has verified: no message, no write, no tick, no
/// departure and no failed verification adds one.
pub proof fn law_only_verification_adds_pieces(
    t: Turn,
    id: u64,
    msg: Msg,
    index: u32,
    begin: u32,
    ok: bool,
    now: u64,
)
    ensures
        t.heard(id, msg, now).world.ledger.have == t.world.ledger.have,
        t.written(id, index, begin, ok, now).world.ledger.have == t.world.ledger.have,
        t.verified(id, index, false, now).world.ledger.have == t.world.ledger.have,
        t.settled(now).world.ledger.have == t.world.ledger.have,
        t.maintained(now).world.ledger.have == t.world.ledger.have,
        t.world.removing(id).ledger.have == t.world.ledger.have,
{
    lemma_heard_have(t, id, msg, now);
    lemma_peer_at(t.world.peers, id, 0);
    let i = t.world.find(id);
    let block = begin / BLOCK_LEN;
    if t.awaits_write(id, index, begin) {
        let u = t.settled_by(i, index, block);
        let v = u.booked(failed_block(t.world.ledger, index as int, block as int));
        lemma_filled_keeps(v, i, now);
    }
    let j = t.piece_judged(index, false);
    if j.world.connected(id) {
        lemma_peer_at(j.world.peers, id, 0);
        lemma_filled_keeps(j, j.world.find(id), now);
    }
    lemma_settled_have(t, now);
    let n = t.world.peers.len() as int;
    let k = Turn { out: t.out + keepalives(t.world, n, now), ..t };
    lemma_chased_have(k, n, now);
    lemma_settled_have(k.chased(n, now), now);
    if t.world.connected(id) {
        let p = t.world.peers[i];
        lemma_releasing_have(
            withdrawn(t.world.ledger, p.has),
            p.in_flight,
            p.in_flight.len() as int,
        );
    }
}

pub proof fn lemma_settled_have(t: Turn, now: u64)
    ensures
        t.settled(now).world.ledger.have == t.world.ledger.have,
{
    let u = Turn { world: World { last_choke_round: now, ..t.world }, ..t };
    lemma_choke_round_keeps(u);
}

proof fn lemma_heard_have(t: Turn, id: u64, msg: Msg, now: u64)
    ensures
        t.heard(id, msg, now).world.ledger.have == t.world.ledger.have,
{
    lemma_peer_at(t.world.peers, id, 0);
    let i = t.world.find(id);
    if i < t.world.peers.len() {
        let u = t.with_peer(i, PeerState { last_seen: now, ..t.world.peers[i] });
        let p = u.world.peers[i];
        let l = u.world.ledger;
        match msg {
            Msg::Choke => {
                lemma_releasing_have(l, p.in_flight, p.in_flight.len() as int);
            },
            Msg::Unchoke => {
                lemma_filled_keeps(u.with_peer(i, PeerState { peer_choking: false, ..p }), i, now);
            },
            Msg::Interested => {
                lemma_choke_round_keeps(
                    u.with_peer(i, PeerState { they_interested: true, ..p }),
                );
            },
            Msg::NotInterested => {
                lemma_choke_round_keeps(
                    u.with_peer(i, PeerState { they_interested: false, ..p }),
                );
            },
            Msg::Have(piece) => {
                lemma_interested_keeps(u.gaining(i, piece as int), i, now);
            },
            Msg::Bitfield(bytes) => {
                if let Some(field) = field_in(bytes, l.have.len()) {
                    lemma_interested_keeps(u.holding_now(i, field), i, now);
                }
            },
            Msg::HaveAll => {
                lemma_interested_keeps(
                    u.holding_now(i, Seq::new(l.have.len(), |k: int| true)),
                    i,
                    now,
                );
            },
            Msg::HaveNone => {
                lemma_interested_keeps(
                    u.holding_now(i, Seq::new(l.have.len(), |k: int| false)),
                    i,
                    now,
                );
            },
            Msg::Piece { index, begin, block } => {
                let v = u.with_peer(i, PeerState { strikes: 0, ..p });
                lemma_filled_keeps(v.settled_by(i, index, begin / BLOCK_LEN), i, now);
            },
            _ => {},
        }
    }
}

/// No message judges anybody: who is banned, who is suspected and who supplied
/// what stay as they are.
pub proof fn law_messages_do_not_judge(t: Turn, id: u64, msg: Msg, now: u64)
    requires
        t.world.standing.wf(),
    ensures
        t.heard(id, msg, now).world.standing.banned == t.world.standing.banned,
        t.heard(id, msg, now).world.standing.suspicion == t.world.standing.suspicion,
        t.heard(id, msg, now).world.standing.suppliers == t.world.standing.suppliers,
{
    lemma_peer_at(t.world.peers, id, 0);
    let i = t.world.find(id);
    if i < t.world.peers.len() {
        let u = t.with_peer(i, PeerState { last_seen: now, ..t.world.peers[i] });
        let p = u.world.peers[i];
        let l = u.world.ledger;
        match msg {
            Msg::Unchoke => {
                lemma_filled_keeps(u.with_peer(i, PeerState { peer_choking: false, ..p }), i, now);
            },
            Msg::Interested => {
                lemma_choke_round_keeps(
                    u.with_peer(i, PeerState { they_interested: true, ..p }),
                );
            },
            Msg::NotInterested => {
                lemma_choke_round_keeps(
                    u.with_peer(i, PeerState { they_interested: false, ..p }),
                );
            },
            Msg::Have(piece) => {
                lemma_interested_keeps(u.gaining(i, piece as int), i, now);
            },
            Msg::Bitfield(bytes) => {
                if let Some(field) = field_in(bytes, l.have.len()) {
                    lemma_interested_keeps(u.holding_now(i, field), i, now);
                }
            },
            Msg::HaveAll => {
                lemma_interested_keeps(
                    u.holding_now(i, Seq::new(l.have.len(), |k: int| true)),
                    i,
                    now,
                );
            },
            Msg::HaveNone => {
                lemma_interested_keeps(
                    u.holding_now(i, Seq::new(l.have.len(), |k: int| false)),
                    i,
                    now,
                );
            },
            Msg::Piece { index, begin, block } => {
                let v = u.with_peer(i, PeerState { strikes: 0, ..p });
                lemma_filled_keeps(v.settled_by(i, index, begin / BLOCK_LEN), i, now);
            },
            Msg::Extended { id: ext, payload } => {
                let added = added_in(payload);
                lemma_remembering_all_keeps(
                    u.world.standing,
                    added,
                    Source::Pex,
                    added.len() as int,
                );
            },
            _ => {},
        }
    }
}

proof fn lemma_remembering_all_keeps(s: Standing, dests: Seq<DestHash>, source: Source, n: int)
    ensures
        s.remembering_all(dests, source, n).banned == s.banned,
        s.remembering_all(dests, source, n).suspicion == s.suspicion,
        s.remembering_all(dests, source, n).suppliers == s.suppliers,
    decreases n,
{
    if n > 0 {
        lemma_remembering_all_keeps(s, dests, source, n - 1);
    }
}

/// A block is written only if the peer that sent it owes it to us, for a piece
/// that is not verified yet, and if it is exactly as long as that block is.
pub proof fn law_only_solicited_blocks_are_written(t: Turn, id: u64, msg: Msg)
    ensures
        t.errand_for(id, msg) matches Disk::Write { index, begin } ==> {
            &&& t.awaits_write(id, index, begin)
            &&& msg matches Msg::Piece { index: x, begin: y, block } && x == index && y == begin
                && block.len() == t.world.ledger.block_len(
                index as int,
                (begin / BLOCK_LEN) as int,
            )
        },
{
}

/// A block is read only for a peer we are not choking, out of one piece that
/// we hold, and no more of it than one block.
pub proof fn law_only_held_pieces_are_served(t: Turn, id: u64, msg: Msg)
    ensures
        t.errand_for(id, msg) matches Disk::Read(r) ==> {
            &&& msg == Msg::Request(r)
            &&& !t.world.peers[t.world.find(id)].we_choke
            &&& r.index < t.world.ledger.have.len() && t.world.ledger.have[r.index as int]
            &&& 0 < r.length <= BLOCK_LEN
            &&& r.begin + r.length <= t.world.ledger.piece_len(r.index as int)
        },
{
}

/// Announcing a piece twice is announcing it once: a repeated `have` changes
/// nothing but the time the peer was last heard.
pub proof fn law_repeated_have_counts_once(t: Turn, i: int, piece: u32, now: u64)
    requires
        t.world.wf(),
        0 <= i < t.world.peers.len(),
    ensures
        t.handled(i, Msg::Have(piece), now).handled(i, Msg::Have(piece), now) == t.handled(
            i,
            Msg::Have(piece),
            now,
        ),
{
    assert(t.world.peers[i].has.len() == t.world.ledger.have.len());
    if piece < t.world.ledger.have.len() && !t.world.peers[i].has[piece as int] {
        lemma_interested_keeps(t.gaining(i, piece as int), i, now);
    }
}

/// A peer that comes and goes leaves the picker's books as they were, and the
/// table of peers too.
pub proof fn law_departure_undoes_arrival(w: World, dest: DestHash, now: u64)
    requires
        w.wf(),
        w.next_id < u64::MAX,
    ensures
        w.seating(dest, now).connected(w.next_id),
        w.seating(dest, now).removing(w.next_id).ledger == w.ledger,
        w.seating(dest, now).removing(w.next_id).peers == w.peers,
{
    let v = w.seating(dest, now);
    let n = w.peers.len() as int;
    lemma_peer_at(v.peers, w.next_id, 0);
    assert(v.peers[n].id == w.next_id);
    assert forall|j: int| 0 <= j < n implies (#[trigger] v.peers[j]).id != w.next_id by {
        assert(v.peers[j] == w.peers[j]);
    }
    assert(v.find(w.next_id) == n);
    let u = v.removing(w.next_id);
    assert(u.peers =~= w.peers);
    let p = v.peers[n];
    assert(p.in_flight.len() == 0);
    assert(withdrawn(v.ledger, p.has).availability =~= w.ledger.availability);
    assert(u.ledger =~= w.ledger);
}

/// Every connection of whoever is banned for a failed piece is dropped.
pub proof fn law_banned_peers_are_dropped(t: Turn, index: u32, i: int)
    requires
        0 <= i < t.world.peers.len(),
        t.world.standing.culprits(
            index,
            t.world.ledger.blocks(index as int) as int,
        ).contains(t.world.peers[i].dest),
    ensures
        t.piece_judged(index, false).world.to_drop.contains(t.world.peers[i].id),
{
    let w = t.world;
    let c = w.standing.culprits(index, w.ledger.blocks(index as int) as int);
    let k = choose|k: int| 0 <= k < c.len() && c[k] == w.peers[i].dest;
    lemma_held_by_any(w.peers, c, c.len() as int, k, i);
    let h = held_by_any(w.peers, c, c.len() as int);
    let j = choose|j: int| 0 <= j < h.len() && h[j] == w.peers[i].id;
    assert((w.to_drop + h)[w.to_drop.len() + j] == w.peers[i].id);
}

proof fn lemma_held_by(peers: Seq<PeerState>, dest: DestHash, n: int, i: int)
    requires
        0 <= i < n <= peers.len(),
        peers[i].dest == dest,
    ensures
        held_by(peers, dest, n).contains(peers[i].id),
    decreases n,
{
    let h = held_by(peers, dest, n);
    if i == n - 1 {
        assert(h.last() == peers[i].id);
    } else {
        lemma_held_by(peers, dest, n - 1, i);
        let g = held_by(peers, dest, n - 1);
        let j = choose|j: int| 0 <= j < g.len() && g[j] == peers[i].id;
        assert(h[j] == peers[i].id);
    }
}

proof fn lemma_held_by_any(
    peers: Seq<PeerState>,
    dests: Seq<DestHash>,
    n: int,
    k: int,
    i: int,
)
    requires
        0 <= k < n <= dests.len(),
        0 <= i < peers.len(),
        peers[i].dest == dests[k],
    ensures
        held_by_any(peers, dests, n).contains(peers[i].id),
    decreases n,
{
    let h = held_by_any(peers, dests, n);
    let a = held_by_any(peers, dests, n - 1);
    let b = held_by(peers, dests[n - 1], peers.len() as int);
    if k == n - 1 {
        lemma_held_by(peers, dests[k], peers.len() as int, i);
        let j = choose|j: int| 0 <= j < b.len() && b[j] == peers[i].id;
        assert(h[a.len() + j] == peers[i].id);
    } else {
        lemma_held_by_any(peers, dests, n - 1, k, i);
        let j = choose|j: int| 0 <= j < a.len() && a[j] == peers[i].id;
        assert(h[j] == peers[i].id);
    }
}

/// A peer that has been silent for as long as the idle timeout allows is
/// dropped by the next tick.
pub proof fn law_silent_peer_is_dropped(t: Turn, i: int, now: u64)
    requires
        0 <= i < t.world.peers.len(),
        since(t.world.peers[i].last_seen, now) >= t.world.idle_timeout,
    ensures
        t.dropped_by_tick(now).contains(t.world.peers[i].id),
{
    let n = t.world.peers.len() as int;
    lemma_silent(t.world, n, now, i);
    let s = silent(t.world, n, now);
    let j = choose|j: int| 0 <= j < s.len() && s[j] == t.world.peers[i].id;
    assert(t.dropped_by_tick(now)[j] == t.world.peers[i].id);
}

proof fn lemma_silent(w: World, n: int, now: u64, i: int)
    requires
        0 <= i < n <= w.peers.len(),
        since(w.peers[i].last_seen, now) >= w.idle_timeout,
    ensures
        silent(w, n, now).contains(w.peers[i].id),
    decreases n,
{
    let s = silent(w, n, now);
    if i == n - 1 {
        assert(s.last() == w.peers[i].id);
    } else {
        lemma_silent(w, n - 1, now, i);
        let r = silent(w, n - 1, now);
        let j = choose|j: int| 0 <= j < r.len() && r[j] == w.peers[i].id;
        assert(s[j] == w.peers[i].id);
    }
}

proof fn lemma_asking_fresh(t: Turn, i: int, reqs: Seq<BlockRequest>, n: int, now: u64)
    requires
        0 <= i < t.world.peers.len(),
    ensures
        forall|k: int|
            0 <= k < t.asking(i, reqs, n, now).world.peers[i].in_flight.len() ==> (#[trigger] t.asking(
                i,
                reqs,
                n,
                now,
            ).world.peers[i].in_flight[k]).at == now || t.world.peers[i].in_flight.contains(
                t.asking(i, reqs, n, now).world.peers[i].in_flight[k],
            ),
    decreases n,
{
    if n > 0 {
        lemma_asking_fresh(t, i, reqs, n - 1, now);
        lemma_asking_keeps(t, i, reqs, n - 1, now);
        let u = t.asking(i, reqs, n - 1, now);
        let f = u.world.peers[i].in_flight;
        let g = t.asking(i, reqs, n, now).world.peers[i].in_flight;
        let r = reqs[n - 1];
        let e = asked_at(f, r.index, r.begin / BLOCK_LEN, 0);
        let a = Asked { piece: r.index, block: r.begin / BLOCK_LEN, at: now };
        lemma_asked_at(f, r.index, r.begin / BLOCK_LEN, 0);
        assert(g == if e < f.len() {
            f.update(e, a)
        } else {
            f.push(a)
        });
        assert forall|k: int| 0 <= k < g.len() implies (#[trigger] g[k]).at == now
            || t.world.peers[i].in_flight.contains(g[k]) by {
            if k < f.len() && k != e {
                assert(g[k] == f[k]);
                assert(f[k].at == now || t.world.peers[i].in_flight.contains(f[k]));
            }
        }
    } else {
        let f = t.world.peers[i].in_flight;
        assert forall|k: int| 0 <= k < f.len() implies f.contains(#[trigger] f[k]) by {}
    }
}

/// After a peer is chased, what it owes was asked for recently.
proof fn lemma_chased_one_fresh(t: Turn, i: int, now: u64)
    requires
        0 <= i < t.world.peers.len(),
        t.world.request_timeout > 0,
    ensures
        forall|k: int|
            0 <= k < t.chased_one(i, now).world.peers[i].in_flight.len() ==> since(
                (#[trigger] t.chased_one(i, now).world.peers[i].in_flight[k]).at,
                now,
            ) < t.world.request_timeout,
        t.chased_one(i, now).world.request_timeout == t.world.request_timeout,
        t.chased_one(i, now).world.peers.len() == t.world.peers.len(),
        t.chased_one(i, now).world.to_drop == t.world.to_drop,
        t.chased_one(i, now).world.peers[i].id == t.world.peers[i].id,
        forall|j: int|
            0 <= j < t.world.peers.len() && j != i ==> #[trigger] t.chased_one(
                i,
                now,
            ).world.peers[j] == t.world.peers[j],
{
    let p = t.world.peers[i];
    let n = p.in_flight.len() as int;
    let limit = t.world.request_timeout;
    let gone = aged(p.in_flight, n, now, limit, false);
    let kept = aged(p.in_flight, n, now, limit, true);
    let strikes = least(p.strikes + 1, u32::MAX as int) as u32;
    lemma_aged_kept(p.in_flight, n, now, limit);
    let v = if gone.len() == 0 {
        t
    } else {
        t.with_peer(i, PeerState { in_flight: kept, strikes, ..p }).booked(
            releasing(t.world.ledger, gone, gone.len() as int),
        )
    };
    let f = v.world.peers[i].in_flight;
    assert forall|k: int| 0 <= k < f.len() implies since((#[trigger] f[k]).at, now) < limit by {
        if gone.len() == 0 {
            if since(f[k].at, now) >= limit {
                lemma_aged_gone(p.in_flight, n, now, limit, k);
            }
        }
    }
    lemma_filled_keeps(v, i, now);
    let q = v.world.peers[i];
    let want = (PIPELINE_DEPTH - q.in_flight.len()) as nat;
    let reqs = v.world.ledger.picks(q.has, want);
    let b = v.booked(v.world.ledger.after_pick(q.has, want));
    lemma_asking_fresh(b, i, reqs, reqs.len() as int, now);
    let w = v.filled(i, now);
    let g = w.world.peers[i].in_flight;
    assert forall|k: int| 0 <= k < g.len() implies since((#[trigger] g[k]).at, now) < limit by {
        if g[k].at != now && g != f {
            assert(f.contains(g[k]));
            let j = choose|j: int| 0 <= j < f.len() && f[j] == g[k];
            assert(since(f[j].at, now) < limit);
        }
    }
}

proof fn lemma_aged_kept(f: Seq<Asked>, n: int, now: u64, limit: u64)
    requires
        0 <= n <= f.len(),
    ensures
        forall|k: int|
            0 <= k < aged(f, n, now, limit, true).len() ==> since(
                (#[trigger] aged(f, n, now, limit, true)[k]).at,
                now,
            ) < limit,
    decreases n,
{
    if n > 0 {
        lemma_aged_kept(f, n - 1, now, limit);
        let v = aged(f, n - 1, now, limit, true);
        let w = aged(f, n, now, limit, true);
        assert forall|k: int| 0 <= k < w.len() implies since((#[trigger] w[k]).at, now) < limit by {
            if k < v.len() {
                assert(w[k] == v[k]);
            }
        }
    }
}

proof fn lemma_aged_gone(f: Seq<Asked>, n: int, now: u64, limit: u64, k: int)
    requires
        0 <= k < n <= f.len(),
        since(f[k].at, now) >= limit,
    ensures
        aged(f, n, now, limit, false).len() > 0,
    decreases n,
{
    if k < n - 1 {
        lemma_aged_gone(f, n - 1, now, limit, k);
    }
}

pub proof fn lemma_chased_fresh(t: Turn, n: int, now: u64, i: int)
    requires
        0 <= n <= t.world.peers.len(),
        0 <= i < t.world.peers.len(),
        t.world.request_timeout > 0,
    ensures
        i < n ==> forall|k: int|
            0 <= k < t.chased(n, now).world.peers[i].in_flight.len() ==> since(
                (#[trigger] t.chased(n, now).world.peers[i].in_flight[k]).at,
                now,
            ) < t.world.request_timeout,
        i >= n ==> t.chased(n, now).world.peers[i] == t.world.peers[i],
        t.chased(n, now).world.request_timeout == t.world.request_timeout,
        t.chased(n, now).world.peers.len() == t.world.peers.len(),
    decreases n,
{
    if n > 0 {
        lemma_chased_fresh(t, n - 1, now, i);
        let u = t.chased(n - 1, now);
        lemma_chased_one_fresh(u, n - 1, now);
        if i != n - 1 {
            assert(u.chased_one(n - 1, now).world.peers[i] == u.world.peers[i]);
        }
    }
}

/// No request is waited for forever: after a tick, whatever a peer owes was
/// asked for within the request timeout.
pub proof fn law_unanswered_requests_expire(t: Turn, i: int, k: int, now: u64)
    requires
        t.world.request_timeout > 0,
        0 <= i < t.maintained(now).world.peers.len(),
        0 <= k < t.maintained(now).world.peers[i].in_flight.len(),
    ensures
        since(t.maintained(now).world.peers[i].in_flight[k].at, now) < t.world.request_timeout,
{
    let n = t.world.peers.len() as int;
    let a = Turn { out: t.out + keepalives(t.world, n, now), ..t };
    let b = a.chased(n, now);
    lemma_chased_have(a, n, now);
    let u = Turn { world: World { last_choke_round: now, ..b.world }, ..b };
    lemma_choke_round_keeps(u);
    let c = b.choke_tick(now);
    assert(c.world.peers.len() == n);
    lemma_chased_fresh(a, n, now, i);
    assert(c.world.peers[i].in_flight == b.world.peers[i].in_flight);
    assert(t.maintained(now).world.peers[i].in_flight == c.world.peers[i].in_flight);
    assert(since(b.world.peers[i].in_flight[k].at, now) < t.world.request_timeout);
}

/// A peer that let requests expire too often in a row, with nothing delivered,
/// is dropped by the next tick in which it does so again.
pub proof fn law_unanswering_peer_is_dropped(t: Turn, i: int, now: u64)
    requires
        0 <= i < t.world.peers.len(),
        t.world.request_timeout > 0,
        t.strikes_out(i, now),
    ensures
        t.dropped_by_tick(now).contains(t.world.peers[i].id),
{
    let n = t.world.peers.len() as int;
    let a = Turn { out: t.out + keepalives(t.world, n, now), ..t };
    lemma_struck_out(a, n, now, i);
    let s = silent(t.world, n, now);
    let r = a.struck_out(n, now);
    let j = choose|j: int| 0 <= j < r.len() && r[j] == t.world.peers[i].id;
    assert(t.dropped_by_tick(now)[s.len() + j] == t.world.peers[i].id);
}

proof fn lemma_struck_out(t: Turn, n: int, now: u64, i: int)
    requires
        0 <= i < n <= t.world.peers.len(),
        t.world.request_timeout > 0,
        t.strikes_out(i, now),
    ensures
        t.struck_out(n, now).contains(t.world.peers[i].id),
    decreases n,
{
    let s = t.struck_out(n, now);
    lemma_chased_fresh(t, n - 1, now, i);
    if i == n - 1 {
        assert(t.chased(n - 1, now).strikes_out(i, now));
        assert(s.last() == t.world.peers[i].id);
    } else {
        lemma_struck_out(t, n - 1, now, i);
        let r = t.struck_out(n - 1, now);
        let j = choose|j: int| 0 <= j < r.len() && r[j] == t.world.peers[i].id;
        assert(s[j] == t.world.peers[i].id);
    }
}

proof fn lemma_shared_peers(s: Standing, own: DestHash, n: int)
    requires
        0 <= n <= s.known.len(),
    ensures
        shared_peers(s, own, n).len() <= MAX_PEX_PEERS,
        !shared_peers(s, own, n).contains(own),
    decreases n,
{
    if n > 0 {
        lemma_shared_peers(s, own, n - 1);
        let v = shared_peers(s, own, n - 1);
        let w = shared_peers(s, own, n);
        assert forall|k: int| 0 <= k < w.len() implies #[trigger] w[k] != own by {
            if k < v.len() {
                assert(w[k] == v[k]);
                assert(v.contains(v[k]));
            }
        }
    }
}

/// What we tell a peer of others is a message our own parser takes, names
/// exactly those we meant, and never the peer itself.
pub proof fn law_shared_peers_are_acceptable(s: Standing, own: DestHash)
    ensures
        ({
            let added = shared_peers(s, own, s.known.len() as int);
            let payload = encoding(Tree::Dict(pex_entries(added, Seq::empty())));
            acceptable(payload) && added_in(payload) == added && !added.contains(own)
        }),
{
    let added = shared_peers(s, own, s.known.len() as int);
    let none = Seq::<DestHash>::empty();
    let payload = encoding(Tree::Dict(pex_entries(added, none)));
    lemma_shared_peers(s, own, s.known.len() as int);
    law_pex_round_trip(added, none);
    lemma_hashes_unique(
        decoded(payload)->Ok_0.get("added".spec_bytes()),
        added,
        added_in(payload),
    );
}

// ---------------------------------------------------------------------------
// Metadata is rationed.

proof fn lemma_heard_rations(t: Turn, id: u64, msg: Msg, now: u64)
    requires
        t.world.connected(id),
    ensures
        ({
            let i = t.world.find(id);
            let u = t.heard(id, msg, now);
            let p = t.world.peers[i];
            &&& u.world.peers.len() == t.world.peers.len()
            &&& forall|j: int|
                0 <= j < u.world.peers.len() ==> (#[trigger] u.world.peers[j]).id
                    == t.world.peers[j].id && (j != i || metadata_asked(p, msg) is None
                    ==> u.world.peers[j].allowance == t.world.peers[j].allowance)
            &&& metadata_asked(p, msg) is Some ==> u.world.peers[i].allowance
                == p.allowance.after(now)
        }),
{
    lemma_peer_at(t.world.peers, id, 0);
    let i = t.world.find(id);
    let u = t.with_peer(i, PeerState { last_seen: now, ..t.world.peers[i] });
    let p = u.world.peers[i];
    let l = u.world.ledger;
    match msg {
        Msg::Unchoke => {
            lemma_filled_keeps(u.with_peer(i, PeerState { peer_choking: false, ..p }), i, now);
        },
        Msg::Interested => {
            lemma_choke_round_keeps(u.with_peer(i, PeerState { they_interested: true, ..p }));
        },
        Msg::NotInterested => {
            lemma_choke_round_keeps(u.with_peer(i, PeerState { they_interested: false, ..p }));
        },
        Msg::Have(piece) => {
            lemma_interested_keeps(u.gaining(i, piece as int), i, now);
        },
        Msg::Bitfield(bytes) => {
            if let Some(field) = field_in(bytes, l.have.len()) {
                lemma_interested_keeps(u.holding_now(i, field), i, now);
            }
        },
        Msg::HaveAll => {
            lemma_interested_keeps(
                u.holding_now(i, Seq::new(l.have.len(), |k: int| true)),
                i,
                now,
            );
        },
        Msg::HaveNone => {
            lemma_interested_keeps(
                u.holding_now(i, Seq::new(l.have.len(), |k: int| false)),
                i,
                now,
            );
        },
        Msg::Piece { index, begin, block } => {
            let v = u.with_peer(i, PeerState { strikes: 0, ..p });
            lemma_filled_keeps(v.settled_by(i, index, begin / BLOCK_LEN), i, now);
        },
        _ => {},
    }
}

/// A request for metadata is answered with the piece while the peer's ration
/// lasts, and with a refusal after that. It is charged to that ration, and
/// nothing else that a peer says touches anybody's.
pub proof fn law_metadata_is_rationed(t: Turn, id: u64, msg: Msg, now: u64)
    requires
        t.world.connected(id),
    ensures
        ({
            let i = t.world.find(id);
            let p = t.world.peers[i];
            let u = t.heard(id, msg, now);
            &&& metadata_asked(p, msg) matches Some(piece) ==> {
                &&& u.out == t.out.push(
                    Sent {
                        to: id,
                        msg: Msg::Extended {
                            id: p.metadata_id->Some_0,
                            payload: message_bytes(
                                rationed_reply(t.world.raw_info, piece, p.allowance, now),
                            ),
                        },
                    },
                )
                &&& u.world.peers[i].allowance == p.allowance.after(now)
            }
            &&& forall|j: int|
                0 <= j < t.world.peers.len() && (j != i || metadata_asked(p, msg) is None)
                    ==> u.world.peers[j].allowance == (#[trigger] t.world.peers[j]).allowance
        }),
{
    lemma_peer_at(t.world.peers, id, 0);
    lemma_heard_rations(t, id, msg, now);
    let i = t.world.find(id);
    let u = t.heard(id, msg, now);
    assert forall|j: int|
        0 <= j < t.world.peers.len() && (j != i || metadata_asked(t.world.peers[i], msg) is None)
        implies u.world.peers[j].allowance == (#[trigger] t.world.peers[j]).allowance by {
        assert(u.world.peers[j].id == t.world.peers[j].id);
    }
}

/// Nothing but a request is charged to a ration: no write, no verdict, no block
/// served, no settling and no tick.
pub proof fn law_rations_are_spent_by_requests_only(
    t: Turn,
    id: u64,
    r: BlockRequest,
    data: Seq<u8>,
    ok: bool,
    now: u64,
)
    ensures
        same_rations(t.written(id, r.index, r.begin, ok, now).world, t.world),
        same_rations(t.verified(id, r.index, ok, now).world, t.world),
        same_rations(t.served(id, r, data).world, t.world),
        same_rations(t.settled(now).world, t.world),
        same_rations(t.maintained(now).world, t.world),
{
    lemma_peer_at(t.world.peers, id, 0);
    let i = t.world.find(id);
    let block = r.begin / BLOCK_LEN;
    if t.awaits_write(id, r.index, r.begin) {
        let u = t.settled_by(i, r.index, block);
        let v = u.booked(failed_block(t.world.ledger, r.index as int, block as int));
        lemma_filled_keeps(v, i, now);
    }
    let j = t.piece_judged(r.index, ok);
    if j.world.connected(id) {
        lemma_peer_at(j.world.peers, id, 0);
        lemma_filled_keeps(j, j.world.find(id), now);
    }
    lemma_settled_rations(t, now);
    let n = t.world.peers.len() as int;
    let k = Turn { out: t.out + keepalives(t.world, n, now), ..t };
    lemma_chased_have(k, n, now);
    lemma_settled_rations(k.chased(n, now), now);
}

proof fn lemma_settled_rations(t: Turn, now: u64)
    ensures
        same_rations(t.settled(now).world, t.world),
{
    let u = Turn { world: World { last_choke_round: now, ..t.world }, ..t };
    lemma_choke_round_keeps(u);
}

/// When the requests for metadata among a peer's messages arrive, each message
/// with its time.
pub open spec fn asking_times(t: Turn, id: u64, msgs: Seq<(Msg, u64)>) -> Seq<u64>
    decreases msgs.len(),
{
    if msgs.len() == 0 {
        Seq::empty()
    } else {
        let rest = asking_times(t.heard(id, msgs[0].0, msgs[0].1), id, msgs.skip(1));
        if metadata_asked(t.world.peers[t.world.find(id)], msgs[0].0) is Some {
            seq![msgs[0].1] + rest
        } else {
            rest
        }
    }
}

/// How many of the requests for metadata among a peer's messages are not turned
/// away for its ration.
pub open spec fn metadata_granted(t: Turn, id: u64, msgs: Seq<(Msg, u64)>) -> nat
    decreases msgs.len(),
{
    if msgs.len() == 0 {
        0
    } else {
        let p = t.world.peers[t.world.find(id)];
        (if metadata_asked(p, msgs[0].0) is Some && p.allowance.allows(msgs[0].1) {
            1nat
        } else {
            0nat
        }) + metadata_granted(t.heard(id, msgs[0].0, msgs[0].1), id, msgs.skip(1))
    }
}

proof fn lemma_found_still(a: Seq<PeerState>, b: Seq<PeerState>, id: u64, n: int)
    requires
        a.len() == b.len(),
        0 <= n,
        forall|j: int| 0 <= j < a.len() ==> (#[trigger] a[j]).id == b[j].id,
    ensures
        peer_at(a, id, n) == peer_at(b, id, n),
    decreases a.len() - n,
{
    if n < a.len() && a[n].id != id {
        lemma_found_still(a, b, id, n + 1);
    }
}

/// What is granted to a peer is what its ration serves at the times it asks,
/// whatever it says in between.
pub proof fn law_ration_decides_what_is_granted(t: Turn, id: u64, msgs: Seq<(Msg, u64)>)
    requires
        t.world.connected(id),
    ensures
        metadata_granted(t, id, msgs) == served(
            t.world.peers[t.world.find(id)].allowance,
            asking_times(t, id, msgs),
        ),
    decreases msgs.len(),
{
    if msgs.len() > 0 {
        let (msg, now) = msgs[0];
        let p = t.world.peers[t.world.find(id)];
        let u = t.heard(id, msg, now);
        lemma_heard_rations(t, id, msg, now);
        lemma_found_still(u.world.peers, t.world.peers, id, 0);
        lemma_peer_at(t.world.peers, id, 0);
        law_ration_decides_what_is_granted(u, id, msgs.skip(1));
        let rest = asking_times(u, id, msgs.skip(1));
        if metadata_asked(p, msg) is Some {
            let times = seq![now] + rest;
            assert(times.skip(1) =~= rest);
            assert(times[0] == now);
        }
    }
}

proof fn lemma_asking_times(t: Turn, id: u64, msgs: Seq<(Msg, u64)>, from: u64, window: u64)
    requires
        forall|i: int, j: int|
            0 <= i < j < msgs.len() ==> (#[trigger] msgs[i]).1 <= (#[trigger] msgs[j]).1,
        forall|i: int|
            0 <= i < msgs.len() ==> from <= (#[trigger] msgs[i]).1 && msgs[i].1 - from < window,
    ensures
        ascending_times(asking_times(t, id, msgs)),
        forall|k: int|
            0 <= k < asking_times(t, id, msgs).len() ==> from <= (#[trigger] asking_times(
                t,
                id,
                msgs,
            )[k]) && asking_times(t, id, msgs)[k] - from < window,
    decreases msgs.len(),
{
    if msgs.len() > 0 {
        let (msg, now) = msgs[0];
        let u = t.heard(id, msg, now);
        let more = msgs.skip(1);
        assert forall|i: int, j: int| 0 <= i < j < more.len() implies (#[trigger] more[i]).1 <= (
        #[trigger] more[j]).1 by {
            assert(msgs[i + 1].1 <= msgs[j + 1].1);
        }
        assert forall|i: int| 0 <= i < more.len() implies now <= (#[trigger] more[i]).1
            && more[i].1 - from < window by {
            assert(msgs[0].1 <= msgs[i + 1].1);
            assert(msgs[i + 1].1 - from < window);
        }
        assert(from <= msgs[0].1);
        assert forall|i: int| 0 <= i < more.len() implies now <= (#[trigger] more[i]).1
            && more[i].1 - now < window by {
            assert(msgs[i + 1].1 - from < window);
        }
        assert forall|i: int| 0 <= i < more.len() implies from <= (#[trigger] more[i]).1
            && more[i].1 - from < window by {}
        lemma_asking_times(u, id, more, from, window);
        lemma_asking_times(u, id, more, now, window);
        let rest = asking_times(u, id, more);
        if metadata_asked(t.world.peers[t.world.find(id)], msg) is Some {
            let times = seq![now] + rest;
            assert forall|i: int, j: int| 0 <= i < j < times.len() implies times[i] <= times[j] by {
                assert(times[j] == rest[j - 1]);
                if i > 0 {
                    assert(times[i] == rest[i - 1]);
                }
            }
            assert forall|k: int| 0 <= k < times.len() implies from <= (#[trigger] times[k])
                && times[k] - from < window by {
                if k > 0 {
                    assert(times[k] == rest[k - 1]);
                }
            }
        }
    }
}

/// In any span as long as the window a peer is granted no more than twice the
/// limit, whatever it says, and no more than the limit in its first.
pub proof fn law_peer_is_served_little_metadata(
    t: Turn,
    id: u64,
    msgs: Seq<(Msg, u64)>,
    from: u64,
)
    requires
        t.world.connected(id),
        is_ration(t.world.peers[t.world.find(id)].allowance),
        forall|i: int, j: int|
            0 <= i < j < msgs.len() ==> (#[trigger] msgs[i]).1 <= (#[trigger] msgs[j]).1,
        forall|i: int|
            0 <= i < msgs.len() ==> from <= (#[trigger] msgs[i]).1 && msgs[i].1 - from
                < METADATA_REQUEST_WINDOW,
    ensures
        metadata_granted(t, id, msgs) <= 2 * METADATA_REQUEST_LIMIT,
        t.world.peers[t.world.find(id)].allowance.start is None ==> metadata_granted(t, id, msgs)
            <= METADATA_REQUEST_LIMIT,
{
    let b = t.world.peers[t.world.find(id)].allowance;
    let times = asking_times(t, id, msgs);
    law_ration_decides_what_is_granted(t, id, msgs);
    lemma_asking_times(t, id, msgs, from, METADATA_REQUEST_WINDOW);
    law_span_serves_no_more_than_twice_the_limit(b, times, from);
    if b.start is None {
        law_first_span_serves_no_more_than_the_limit(b, times, from);
    }
}

} // verus!
