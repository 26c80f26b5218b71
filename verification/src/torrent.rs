//! The torrent coordinator: peer connections wired to the picker, the choker
//! and the disk.
//!
//! A [`Torrent`] is the state shared by all connections of one torrent. Events
//! come in one at a time: a message from a peer, the outcome of a disk
//! operation, a tick of the clock. Each changes the state, queues messages for
//! peers, and may ask for a disk operation or for peers to be dropped. The
//! caller owns the connections, the clock and the disk; times are milliseconds
//! of a clock of its own.
//!
//! Peer-connection lifecycle:
//!
//! ```text
//!   Dialing/Accepting --handshake ok--> Handshaken
//!   Handshaken --exchange bitfields--> Active
//!   Active: choke/interest transitions drive request flow
//!     - peer Unchoke  => fill request pipeline (rarest-first / sequential)
//!     - Piece in      => write, verify on completion, broadcast Have, refill
//!     - peer Interested + choker grants a slot => Unchoke, serve Requests
//!   any state --read error / protocol violation--> Closed (peer removed,
//!     its availability withdrawn, its in-flight blocks released)
//! ```
use vstd::prelude::*;
#[allow(unused_imports)]
use vstd::string::*;
use crate::bencode::{decoded, encoding, Tree};
use crate::bitfield::{byte_len, bytes_for, packed_form, Bitfield};
use crate::budget::{PeerBudget, PeerSlot};
use crate::choker::{Choker, PeerSnapshot, DEFAULT_MAX_UNCHOKED};
use crate::dest::{same_dest, DestHash};
use crate::extension::{self, root_entries, Offer, I2P_PEX, UT_METADATA};
use crate::metadata::{
    message_bytes, MetadataMessage, MetadataRequestBudget, METADATA_PIECE_LEN,
};
use crate::metainfo::{Meta, MetaInfo};
use crate::pex::{added_in, lemma_hashes_unique, PexMessage, MAX_PEX_PEERS};
use crate::picker::{
    law_picks_are_fair, least, Blocks, Ledger, Mode, Picker, DEFAULT_ENDGAME_BLOCKS,
    NORMAL_PRIORITY,
};
use crate::reputation::{Known, Reputation, Source, Standing};
use crate::strings::{bytes_eq, copy_range};
use crate::wire::{BlockRequest, Extensions, Handshake, Message, Msg, BLOCK_LEN};
use crate::world::{
    Asked, Disk, PeerState, Sent, Turn, World, addressed, aged, agree, asked_at, bit,
    broadcast_to, debtors, held_by, held_by_any, holders, keepalives, lemma_after_pick,
    lemma_aged, lemma_aged_split, lemma_aside, lemma_asked_at, lemma_availability,
    lemma_countable, lemma_failed_counts, lemma_fewer, lemma_field_changed, lemma_owes,
    lemma_peer_at, lemma_received_counts, lemma_releasing, lemma_removed,
    lemma_removing_others, lemma_seated, lemma_step, lemma_wanted_skip, located,
    outstanding, owes, peer_at, queue_ok, rationed_reply, releasing, shared_peers, silent,
    since, tally, wanted, wrapping,
};

verus! {

/// Outstanding block requests a peer may have in flight before we wait for
/// data.
pub const PIPELINE_DEPTH: usize = 16;

/// The extended-message ids we advertise; peers send these back to us. A peer
/// tells us its own ids in its handshake, and we use those when sending.
pub const OUR_PEX_ID: u8 = 1;

pub const OUR_METADATA_ID: u8 = 2;

/// How often a choke round is reconsidered. Periodic, not event-driven: the
/// optimistic slot only rotates if another round is planned.
pub const DEFAULT_CHOKE_INTERVAL: u64 = 10_000;

/// How often a keep-alive goes out to a peer we have said nothing else to.
/// Clients hang up after a few silent minutes, so this is what stops *other*
/// peers dropping us.
pub const DEFAULT_KEEPALIVE_INTERVAL: u64 = 100_000;

/// How long a block may stay requested before it is offered to somebody else.
///
/// There is no acknowledgement, so a request the peer quietly dropped looks
/// exactly like one still in flight, and without a deadline it is *permanent*,
/// stalling its piece for good. Generous, since an I2P round trip is seconds
/// and re-requesting a merely slow answer wastes bandwidth.
pub const DEFAULT_REQUEST_TIMEOUT: u64 = 90_000;

/// Consecutive maintenance rounds in which a peer may let requests expire
/// while delivering nothing before it is dropped. Freeing the blocks unsticks
/// the *download*; dropping the peer unsticks the *slot*. The destination stays
/// known, so the dial sweep may pick it up again after its backoff.
pub const REQUEST_STRIKES: u32 = 3;

/// How long a peer may say nothing at all before we drop it: three missed
/// keep-alives.
pub const DEFAULT_IDLE_TIMEOUT: u64 = 300_000;

/// How long a peer has to complete the handshake, in either direction. The
/// bound is on the whole exchange, not on each read.
pub const HANDSHAKE_TIMEOUT: u64 = 60_000;

/// How long one read or write of a handshake may block before the deadline
/// and the caller's stop flag are looked at again.
pub const HANDSHAKE_POLL: u64 = 1_000;

/// How often the periodic work is done: fine enough to honour the intervals
/// above to within a tick, coarse enough to be free.
pub const DEFAULT_MAINTENANCE_INTERVAL: u64 = 5_000;

/// Concurrent connections one destination may hold on one torrent.
///
/// Nothing needs the same peer twice, and without a cap one destination can
/// take every slot. **Two, not one**, because a second connection is ordinary:
/// both sides dialling at once, or a reconnect after a teardown we have not
/// noticed. The cap need not be tight, only finite.
pub const MAX_CONNECTIONS_PER_DEST: usize = 2;

/// Outgoing message queue depth per peer. Deep enough that no honest peer
/// reaches it, so a queue this full means the peer has stopped reading and its
/// connection is treated as dead.
pub const OUTGOING_QUEUE: usize = 256;

/// The client name in our extension handshake.
pub const CLIENT_NAME: &'static str = "clove/0.1";

/// A message queued to a specific peer.
pub struct Outgoing {
    /// The peer's id.
    pub to: u64,
    /// The message.
    pub msg: Message,
}

/// One connected peer.
struct Peer {
    id: u64,
    /// This connection's slot in the client-wide budget, given back when the
    /// entry goes.
    slot: PeerSlot,
    dest: DestHash,
    has: Bitfield,
    peer_choking: bool,
    we_choke: bool,
    they_interested: bool,
    we_interested: bool,
    in_flight: Vec<Asked>,
    strikes: u32,
    last_sent: u64,
    last_seen: u64,
    uploaded: u64,
    pex_id: Option<u8>,
    metadata_id: Option<u8>,
    /// How much metadata this peer is still served.
    budget: MetadataRequestBudget,
}

/// A running torrent.
pub struct Torrent {
    info_hash: [u8; 20],
    peer_id: [u8; 20],
    /// Raw `info` dictionary bytes, for serving metadata to magnet peers. Empty
    /// if unknown.
    raw_info: Vec<u8>,
    max_frame: u32,
    picker: Picker,
    choker: Choker,
    last_choke_round: u64,
    choke_interval: u64,
    keepalive_interval: u64,
    idle_timeout: u64,
    request_timeout: u64,
    peers: Vec<Peer>,
    next_id: u64,
    reputation: Reputation,
    pex_learned: u64,
    announces_ok: u32,
    announces_failed: u32,
    last_announce_error: Option<String>,
    to_drop: Vec<u64>,
    uploaded: u64,
    downloaded: u64,
    inbound: u64,
}

impl Peer {
    spec fn state(self) -> PeerState {
        PeerState {
            id: self.id,
            dest: self.dest,
            has: self.has@,
            peer_choking: self.peer_choking,
            we_choke: self.we_choke,
            they_interested: self.they_interested,
            we_interested: self.we_interested,
            in_flight: self.in_flight@,
            strikes: self.strikes,
            last_sent: self.last_sent,
            last_seen: self.last_seen,
            uploaded: self.uploaded,
            pex_id: self.pex_id,
            metadata_id: self.metadata_id,
            allowance: self.budget@,
        }
    }
}

spec fn states(v: Seq<Peer>) -> Seq<PeerState> {
    Seq::new(v.len(), |i: int| v[i].state())
}

/// What has been queued.
pub open spec fn sent(out: Seq<Outgoing>) -> Seq<Sent> {
    Seq::new(out.len(), |i: int| Sent { to: out[i].to, msg: out[i].msg@ })
}

/// A torrent, and what has been queued.
pub open spec fn turn(t: Torrent, out: Vec<Outgoing>) -> Turn {
    Turn { world: t@, out: sent(out@) }
}

/// The text of an error, if there is one.
pub open spec fn error_view(e: Option<String>) -> Option<Seq<char>> {
    match e {
        Some(s) => Some(s@),
        None => None,
    }
}

impl View for Torrent {
    type V = World;

    closed spec fn view(&self) -> World {
        World {
            info_hash: self.info_hash@,
            peer_id: self.peer_id@,
            raw_info: self.raw_info@,
            max_frame: self.max_frame,
            ledger: self.picker@,
            slots: self.choker.slots(),
            rounds: self.choker.rounds(),
            last_choke_round: self.last_choke_round,
            choke_interval: self.choke_interval,
            keepalive_interval: self.keepalive_interval,
            idle_timeout: self.idle_timeout,
            request_timeout: self.request_timeout,
            peers: states(self.peers@),
            next_id: self.next_id,
            standing: self.reputation@,
            pex_learned: self.pex_learned,
            announces_ok: self.announces_ok,
            announces_failed: self.announces_failed,
            last_announce_error: error_view(self.last_announce_error),
            to_drop: self.to_drop@,
            uploaded: self.uploaded,
            downloaded: self.downloaded,
            inbound: self.inbound,
        }
    }
}

proof fn lemma_states_updated(a: Seq<Peer>, b: Seq<Peer>, i: int, x: PeerState)
    requires
        a.len() == b.len(),
        0 <= i < a.len(),
        b[i].state() == x,
        forall|j: int| 0 <= j < a.len() && j != i ==> #[trigger] b[j] == a[j],
    ensures
        states(b) == states(a).update(i, x),
{
    assert(states(b) =~= states(a).update(i, x));
}

proof fn lemma_sent_push(a: Seq<Outgoing>, o: Outgoing)
    ensures
        sent(a.push(o)) == sent(a).push(Sent { to: o.to, msg: o.msg@ }),
{
    assert(sent(a.push(o)) =~= sent(a).push(Sent { to: o.to, msg: o.msg@ }));
}

/// How long ago `then` was.
fn elapsed(then: u64, now: u64) -> (n: u64)
    ensures
        n == since(then, now),
{
    if now >= then {
        now - then
    } else {
        0
    }
}

/// Where a block stands among those requested.
fn find_asked(f: &Vec<Asked>, piece: u32, block: u32) -> (n: usize)
    ensures
        n == asked_at(f@, piece, block, 0),
        n <= f@.len(),
{
    let mut i: usize = 0;
    while i < f.len() && !(f[i].piece == piece && f[i].block == block)
        invariant
            i <= f@.len(),
            asked_at(f@, piece, block, 0) == asked_at(f@, piece, block, i as int),
        decreases f.len() - i,
    {
        i = i + 1;
    }
    i
}

impl Torrent {
    /// Whether the books agree.
    pub closed spec fn inv(self) -> bool {
        self@.wf() && self.reputation.inv()
    }

    /// A running torrent keeps its books: whatever events it has seen, the peer
    /// table and the picker agree, and the table of known peers is in order.
    pub proof fn law_books_are_kept(self)
        requires
            self.inv(),
        ensures
            self@.wf(),
    {
    }

    /// Where a peer stands in the table.
    fn find(&self, id: u64) -> (n: usize)
        ensures
            n == self@.find(id),
            n <= self@.peers.len(),
    {
        let mut i: usize = 0;
        while i < self.peers.len() && self.peers[i].id != id
            invariant
                i <= self.peers@.len(),
                peer_at(self@.peers, id, 0) == peer_at(self@.peers, id, i as int),
            decreases self.peers.len() - i,
        {
            i = i + 1;
        }
        i
    }

    /// Queue a message for a peer.
    fn say(&self, i: usize, msg: Message, out: &mut Vec<Outgoing>)
        requires
            i < self@.peers.len(),
        ensures
            turn(*self, *final(out)) == turn(*self, *old(out)).saying(i as int, msg@),
    {
        proof {
            lemma_sent_push(out@, Outgoing { to: self.peers@[i as int].id, msg });
        }
        out.push(Outgoing { to: self.peers[i].id, msg });
    }

    /// Put one request to a peer.
    fn ask(&mut self, i: usize, r: BlockRequest, now: u64, out: &mut Vec<Outgoing>)
        requires
            i < old(self)@.peers.len(),
            old(self)@.ledger.wf(),
        ensures
            turn(*final(self), *final(out)) == turn(*old(self), *old(out)).asking(
                i as int,
                seq![r],
                1,
                now,
            ),
            final(self).reputation == old(self).reputation,
            final(self).to_drop == old(self).to_drop,
            final(self)@.ledger.wf(),
    {
        let block: u32 = r.begin / BLOCK_LEN;
        let e: usize = find_asked(&self.peers[i].in_flight, r.index, block);
        let a = Asked { piece: r.index, block, at: now };
        let ghost t0 = turn(*self, *out);
        proof {
            assert(t0.asking(i as int, seq![r], 0, now) == t0);
        }
        if e < self.peers[i].in_flight.len() {
            self.peers[i].in_flight.set(e, a);
            self.picker.block_failed(r.index, block);
        } else {
            self.peers[i].in_flight.push(a);
            self.say(i, Message::Request(r), out);
        }
        proof {
            lemma_states_updated(
                old(self).peers@,
                self.peers@,
                i as int,
                self.peers@[i as int].state(),
            );
            assert(turn(*self, *out) =~= t0.asking(i as int, seq![r], 1, now));
        }
    }

    /// Top up a peer's request pipeline from the picker.
    fn fill_requests(&mut self, i: usize, now: u64, out: &mut Vec<Outgoing>)
        requires
            old(self).inv(),
            i < old(self)@.peers.len(),
        ensures
            final(self).inv(),
            turn(*final(self), *final(out)) == turn(*old(self), *old(out)).filled(i as int, now),
            final(self)@.peers.len() == old(self)@.peers.len(),
            final(self)@.to_drop == old(self)@.to_drop,
            final(self)@.rounds == old(self)@.rounds,
    {
        if self.peers[i].peer_choking || !self.peers[i].we_interested {
            return;
        }
        let len: usize = self.peers[i].in_flight.len();
        if len >= PIPELINE_DEPTH {
            return;
        }
        let want: usize = PIPELINE_DEPTH - len;
        let ghost w0 = self@;
        let ghost l0 = self@.ledger;
        let ghost has = self@.peers[i as int].has;
        let ghost reqs0 = l0.picks(has, want as nat);
        proof {
            lemma_countable(self@.ledger, self@.peers, self@.next_id);
        }
        let reqs = self.picker.pick(&self.peers[i].has, want);
        let ghost t1 = turn(*self, *out);
        proof {
            lemma_opened(l0, self@.ledger, w0.peers, w0.next_id, has, want as nat);
            assert(reqs@.skip(0) =~= reqs@);
            assert(t1 == turn(*old(self), *old(out)).booked(l0.after_pick(has, want as nat)));
            if reqs@.len() > 0 {
                law_picks_are_fair(l0, has, want as nat, 0);
            }
        }
        let mut k: usize = 0;
        while k < reqs.len()
            invariant
                k <= reqs@.len(),
                reqs@ == reqs0,
                reqs0 == l0.picks(has, want as nat),
                reqs@.len() <= want,
                l0.wf(),
                len + want == PIPELINE_DEPTH,
                self.reputation.inv(),
                self@.standing.wf(),
                i < self@.peers.len(),
                self@.peers.len() == w0.peers.len(),
                self@.to_drop == w0.to_drop,
                self@.rounds == w0.rounds,
                self@.peers[i as int].in_flight.len() <= len + k,
                agree(self@.ledger, self@.peers, self@.next_id, reqs@.skip(k as int)),
                self@.ledger.have == l0.have,
                self@.ledger.piece_length == l0.piece_length,
                self@.ledger.total_length == l0.total_length,
                turn(*self, *out) == t1.asking(i as int, reqs@, k as int, now),
            decreases reqs.len() - k,
        {
            let r = reqs[k];
            let ghost before = turn(*self, *out);
            proof {
                law_picks_are_fair(l0, has, want as nat, k as int);
            }
            self.ask(i, r, now, out);
            proof {
                let t = t1.asking(i as int, reqs@, k as int, now);
                assert(t.asking(i as int, seq![r], 0, now) == t);
                assert(t.asking(i as int, seq![r], 1, now) == t1.asking(
                    i as int,
                    reqs@,
                    k + 1,
                    now,
                ));
                lemma_asked(before, self@, i as int, reqs@, k as int, now, l0, has);
            }
            k = k + 1;
        }
        proof {
            assert(reqs@.skip(reqs@.len() as int) =~= Seq::empty());
        }
    }

    /// Recompute whether we are interested in a peer and send the transition if
    /// it changed.
    fn update_interest(&mut self, i: usize, now: u64, out: &mut Vec<Outgoing>)
        requires
            old(self).inv(),
            i < old(self)@.peers.len(),
        ensures
            final(self).inv(),
            turn(*final(self), *final(out)) == turn(*old(self), *old(out)).interested(
                i as int,
                now,
            ),
            final(self)@.peers.len() == old(self)@.peers.len(),
    {
        let ghost w0 = self@;
        let n: u32 = self.peers[i].has.len();
        let mut want: bool = false;
        let mut p: u32 = 0;
        while p < n && !want
            invariant
                p <= n,
                n == self@.peers[i as int].has.len(),
                i < self@.peers.len(),
                want ==> self@.wants_from(i as int),
                !want ==> forall|q: int|
                    0 <= q < p ==> !(#[trigger] self@.peers[i as int].has[q]) || (q
                        < self@.ledger.have.len() && self@.ledger.have[q]),
            decreases n - p + (if want {
                0int
            } else {
                1int
            }),
        {
            if self.peers[i].has.has(p) && !self.picker.has(p) {
                proof {
                    assert(self@.peers[i as int].has[p as int]);
                }
                want = true;
            } else {
                p = p + 1;
            }
        }
        proof {
            assert(want == w0.wants_from(i as int));
        }
        if want && !self.peers[i].we_interested {
            self.peers[i].we_interested = true;
            proof {
                let x = self.peers@[i as int].state();
                lemma_states_updated(old(self).peers@, self.peers@, i as int, x);
                lemma_aside(w0.ledger, w0.peers, w0.next_id, Seq::empty(), i as int, x);
            }
            self.say(i, Message::Interested, out);
            if !self.peers[i].peer_choking {
                self.fill_requests(i, now, out);
            }
        } else if !want && self.peers[i].we_interested {
            self.peers[i].we_interested = false;
            proof {
                let x = self.peers@[i as int].state();
                lemma_states_updated(old(self).peers@, self.peers@, i as int, x);
                lemma_aside(w0.ledger, w0.peers, w0.next_id, Seq::empty(), i as int, x);
            }
            self.say(i, Message::NotInterested, out);
        }
    }

    /// Choke or unchoke peers.
    fn apply_choke(&mut self, ids: &Vec<u64>, choke: bool, out: &mut Vec<Outgoing>)
        requires
            old(self).inv(),
        ensures
            final(self).inv(),
            turn(*final(self), *final(out)) == turn(*old(self), *old(out)).choking(
                ids@,
                choke,
                ids@.len() as int,
            ),
            final(self)@.peers.len() == old(self)@.peers.len(),
            final(self)@.to_drop == old(self)@.to_drop,
    {
        let ghost t0 = turn(*self, *out);
        let mut k: usize = 0;
        while k < ids.len()
            invariant
                k <= ids@.len(),
                self.inv(),
                self@.peers.len() == t0.world.peers.len(),
                self@.to_drop == t0.world.to_drop,
                turn(*self, *out) == t0.choking(ids@, choke, k as int),
            decreases ids.len() - k,
        {
            let i: usize = self.find(ids[k]);
            if i < self.peers.len() {
                let ghost before = *self;
                self.peers[i].we_choke = choke;
                proof {
                    let x = self.peers@[i as int].state();
                    lemma_states_updated(before.peers@, self.peers@, i as int, x);
                    lemma_aside(
                        before@.ledger,
                        before@.peers,
                        before@.next_id,
                        Seq::empty(),
                        i as int,
                        x,
                    );
                }
                self.say(
                    i,
                    if choke {
                        Message::Choke
                    } else {
                        Message::Unchoke
                    },
                    out,
                );
            }
            k = k + 1;
        }
    }

    /// Run a choke round and enqueue the resulting choke/unchoke messages.
    fn run_choker(&mut self, out: &mut Vec<Outgoing>)
        requires
            old(self).inv(),
            old(self)@.rounds < u64::MAX,
        ensures
            final(self).inv(),
            turn(*final(self), *final(out)) == turn(*old(self), *old(out)).choke_round(),
            final(self)@.peers.len() == old(self)@.peers.len(),
            final(self)@.to_drop == old(self)@.to_drop,
    {
        let mut snaps: Vec<PeerSnapshot> = Vec::new();
        let mut i: usize = 0;
        while i < self.peers.len()
            invariant
                i <= self.peers@.len(),
                snaps@.len() == i,
                forall|j: int| 0 <= j < i ==> #[trigger] snaps@[j] == self@.snapshots()[j],
            decreases self.peers.len() - i,
        {
            snaps.push(
                PeerSnapshot {
                    id: self.peers[i].id,
                    interested: self.peers[i].they_interested,
                    rate: self.peers[i].uploaded,
                    unchoked: !self.peers[i].we_choke,
                },
            );
            i = i + 1;
        }
        proof {
            assert(snaps@ =~= self@.snapshots());
        }
        let d = self.choker.plan(snaps.as_slice());
        self.apply_choke(&d.unchoke, false, out);
        self.apply_choke(&d.choke, true, out);
    }

    /// A peer stopped choking us.
    fn unchoked_by(&mut self, i: usize, now: u64, out: &mut Vec<Outgoing>)
        requires
            old(self).inv(),
            i < old(self)@.peers.len(),
        ensures
            final(self).inv(),
            turn(*final(self), *final(out)) == turn(*old(self), *old(out)).handled(
                i as int,
                Msg::Unchoke,
                now,
            ),
    {
        let ghost w0 = self@;
        self.peers[i].peer_choking = false;
        proof {
            let x = self.peers@[i as int].state();
            lemma_states_updated(old(self).peers@, self.peers@, i as int, x);
            lemma_aside(w0.ledger, w0.peers, w0.next_id, Seq::empty(), i as int, x);
        }
        self.fill_requests(i, now, out);
    }

    /// A peer became interested in us, or stopped being so.
    fn interest_of(&mut self, i: usize, yes: bool, out: &mut Vec<Outgoing>)
        requires
            old(self).inv(),
            old(self)@.rounds < u64::MAX,
            i < old(self)@.peers.len(),
        ensures
            final(self).inv(),
            turn(*final(self), *final(out)) == turn(*old(self), *old(out)).with_peer(
                i as int,
                PeerState { they_interested: yes, ..old(self)@.peers[i as int] },
            ).choke_round(),
    {
        let ghost w0 = self@;
        self.peers[i].they_interested = yes;
        proof {
            let x = self.peers@[i as int].state();
            lemma_states_updated(old(self).peers@, self.peers@, i as int, x);
            lemma_aside(w0.ledger, w0.peers, w0.next_id, Seq::empty(), i as int, x);
        }
        self.run_choker(out);
    }

    /// Swap in a peer's piece set, withdrawing what the old one contributed to
    /// availability first.
    ///
    /// Nothing stops a peer repeating its bitfield or following it with
    /// have-all/have-none, and adding without subtracting leaks the difference
    /// permanently.
    fn replace_piece_set(
        &mut self,
        i: usize,
        field: Bitfield,
        now: u64,
        out: &mut Vec<Outgoing>,
    )
        requires
            old(self).inv(),
            i < old(self)@.peers.len(),
            field@.len() == old(self)@.ledger.have.len(),
        ensures
            final(self).inv(),
            turn(*final(self), *final(out)) == turn(*old(self), *old(out)).holding_now(
                i as int,
                field@,
            ).interested(i as int, now),
            final(self)@.peers.len() == old(self)@.peers.len(),
    {
        let ghost w0 = self@;
        proof {
            assert forall|p: int| 0 <= p < w0.ledger.have.len() implies #[trigger]
                w0.ledger.availability[p] < u32::MAX && (w0.peers[i as int].has[p]
                ==> w0.ledger.availability[p] > 0) by {
                lemma_availability(w0.ledger, w0.peers, w0.next_id, i as int, p);
            }
            assert(w0.peers[i as int].has.len() == w0.ledger.have.len());
        }
        self.picker.remove_bitfield(&self.peers[i].has);
        self.picker.add_bitfield(&field);
        self.peers[i].has = field;
        proof {
            let x = self.peers@[i as int].state();
            lemma_states_updated(old(self).peers@, self.peers@, i as int, x);
            lemma_field_changed(
                w0.ledger,
                w0.peers,
                w0.next_id,
                self@.ledger,
                i as int,
                x,
            );
        }
        self.update_interest(i, now, out);
    }

    /// A peer has one more piece.
    fn gain_piece(&mut self, i: usize, piece: u32, now: u64, out: &mut Vec<Outgoing>)
        requires
            old(self).inv(),
            i < old(self)@.peers.len(),
            piece < old(self)@.ledger.have.len(),
            !old(self)@.peers[i as int].has[piece as int],
        ensures
            final(self).inv(),
            turn(*final(self), *final(out)) == turn(*old(self), *old(out)).gaining(
                i as int,
                piece as int,
            ).interested(i as int, now),
            final(self)@.peers.len() == old(self)@.peers.len(),
    {
        let ghost w0 = self@;
        proof {
            lemma_availability(w0.ledger, w0.peers, w0.next_id, i as int, piece as int);
            assert(w0.peers[i as int].has.len() == w0.ledger.have.len());
        }
        self.peers[i].has.set(piece);
        self.picker.add_single(piece);
        proof {
            let x = self.peers@[i as int].state();
            lemma_states_updated(old(self).peers@, self.peers@, i as int, x);
            lemma_field_changed(
                w0.ledger,
                w0.peers,
                w0.next_id,
                self@.ledger,
                i as int,
                x,
            );
        }
        self.update_interest(i, now, out);
    }

    /// Give up some requests.
    fn release(&mut self, f: &Vec<Asked>)
        requires
            old(self)@.ledger.wf(),
        ensures
            final(self)@ == (World {
                ledger: releasing(old(self)@.ledger, f@, f@.len() as int),
                ..old(self)@
            }),
            final(self)@.ledger.wf(),
            final(self).peers == old(self).peers,
            final(self).reputation == old(self).reputation,
    {
        let mut k: usize = 0;
        while k < f.len()
            invariant
                k <= f@.len(),
                self@.ledger.wf(),
                self@ == (World {
                    ledger: releasing(old(self)@.ledger, f@, k as int),
                    ..old(self)@
                }),
                self.peers == old(self).peers,
                self.reputation == old(self).reputation,
            decreases f.len() - k,
        {
            self.picker.block_failed(f[k].piece, f[k].block);
            k = k + 1;
        }
    }

    /// A choking peer drops outstanding requests; release them for re-picking.
    fn choked_by(&mut self, i: usize)
        requires
            old(self).inv(),
            i < old(self)@.peers.len(),
        ensures
            final(self).inv(),
            forall|o: Seq<Sent>, now: u64|
                (Turn { world: final(self)@, out: o }) == (#[trigger] Turn {
                    world: old(self)@,
                    out: o,
                }.handled(i as int, Msg::Choke, now)),
            final(self)@.peers.len() == old(self)@.peers.len(),
    {
        let ghost w0 = self@;
        let mut gone: Vec<Asked> = Vec::new();
        std::mem::swap(&mut self.peers[i].in_flight, &mut gone);
        self.peers[i].peer_choking = true;
        let ghost mid = self.peers@;
        proof {
            assert(self@.ledger == w0.ledger);
            lemma_states_updated(old(self).peers@, mid, i as int, mid[i as int].state());
        }
        self.release(&gone);
        proof {
            let x = mid[i as int].state();
            let f = w0.peers[i as int].in_flight;
            assert(queue_ok(w0.ledger, f));
            lemma_releasing(w0.ledger, f, f.len() as int, 0, 0);
            assert forall|p: int, b: int|
                #![trigger outstanding(self@.ledger, p, b)]
                outstanding(self@.ledger, p, b) == 0 || outstanding(self@.ledger, p, b) + bit(
                    owes(f, p, b),
                ) + bit(wanted(Seq::empty(), p, b)) <= outstanding(w0.ledger, p, b) + bit(
                    owes(x.in_flight, p, b),
                ) + bit(wanted(Seq::empty(), p, b)) by {
                lemma_releasing(w0.ledger, f, f.len() as int, p, b);
                assert(f.take(f.len() as int) =~= f);
            }
            lemma_step(
                w0.ledger,
                w0.peers,
                w0.next_id,
                Seq::empty(),
                self@.ledger,
                i as int,
                x,
                Seq::empty(),
            );
            assert(self@.peers == w0.peers.update(i as int, x));
            assert(x.in_flight =~= Seq::empty());
        }
    }

    /// Send a peer the destinations we know (minus its own), if it supports
    /// peer exchange: never more than one message may carry, since our own
    /// parser drops anything over that as spam.
    fn send_pex(&self, i: usize, out: &mut Vec<Outgoing>)
        requires
            i < self@.peers.len(),
        ensures
            turn(*self, *final(out)) == turn(*self, *old(out)).sharing_peers(i as int),
    {
        let pex_id: u8 = match self.peers[i].pex_id {
            Some(id) => id,
            None => return,
        };
        let own = self.peers[i].dest;
        let known = self.reputation.known_peers();
        let ghost s = self@.standing;
        let mut added: Vec<DestHash> = Vec::new();
        let mut k: usize = 0;
        while k < known.len()
            invariant
                k <= known@.len(),
                known@.len() == s.known.len(),
                forall|j: int| 0 <= j < known@.len() ==> #[trigger] known@[j] == s.known[j].dest,
                added@ == shared_peers(s, own, k as int),
            decreases known.len() - k,
        {
            if added.len() < MAX_PEX_PEERS && !same_dest(known[k], own) {
                added.push(known[k]);
            }
            k = k + 1;
        }
        let msg = PexMessage { added, dropped: Vec::new() };
        if msg.is_empty() {
            return;
        }
        proof {
            assert(msg.dropped@ =~= Seq::empty());
        }
        self.say(i, Message::Extended { id: pex_id, payload: msg.encode() }, out);
    }

    /// Serve one metadata piece (or reject it) in response to a request, within
    /// the peer's ration.
    fn serve_metadata(&mut self, i: usize, piece: u32, now: u64, out: &mut Vec<Outgoing>)
        requires
            old(self).inv(),
            i < old(self)@.peers.len(),
        ensures
            final(self).inv(),
            ({
                let w = old(self)@;
                let p = w.peers[i as int];
                turn(*final(self), *final(out)) == (match p.metadata_id {
                    Some(id) => turn(*old(self), *old(out)).with_peer(
                        i as int,
                        PeerState { allowance: p.allowance.after(now), ..p },
                    ).saying(
                        i as int,
                        Msg::Extended {
                            id,
                            payload: message_bytes(
                                rationed_reply(w.raw_info, piece, p.allowance, now),
                            ),
                        },
                    ),
                    None => turn(*old(self), *old(out)),
                })
            }),
            final(self)@.peers.len() == old(self)@.peers.len(),
    {
        let metadata_id: u8 = match self.peers[i].metadata_id {
            Some(id) => id,
            None => return,
        };
        let allowed = self.peers[i].budget.allow(now);
        proof {
            let w0 = old(self)@;
            let x = self.peers@[i as int].state();
            lemma_states_updated(old(self).peers@, self.peers@, i as int, x);
            lemma_aside(w0.ledger, w0.peers, w0.next_id, Seq::empty(), i as int, x);
        }
        let total: usize = self.raw_info.len();
        let start: u64 = piece as u64 * METADATA_PIECE_LEN as u64;
        let reply = if !allowed || start >= total as u64 {
            MetadataMessage::Reject { piece }
        } else {
            let from: usize = start as usize;
            let end: usize = if total - from < METADATA_PIECE_LEN {
                total
            } else {
                from + METADATA_PIECE_LEN
            };
            MetadataMessage::Data {
                piece,
                total_size: if total as u64 <= u32::MAX as u64 {
                    total as u32
                } else {
                    u32::MAX
                },
                data: copy_range(self.raw_info.as_slice(), from, end),
            }
        };
        self.say(i, Message::Extended { id: metadata_id, payload: reply.encode() }, out);
    }

    /// Remember what a peer told us over peer exchange.
    fn learn(&mut self, added: &Vec<DestHash>)
        requires
            old(self).inv(),
        ensures
            final(self).inv(),
            final(self)@ == (World {
                standing: old(self)@.standing.remembering_all(
                    added@,
                    Source::Pex,
                    added@.len() as int,
                ),
                pex_learned: least(
                    old(self)@.pex_learned + old(self)@.standing.news_among(
                        added@,
                        Source::Pex,
                        added@.len() as int,
                    ),
                    u64::MAX as int,
                ) as u64,
                ..old(self)@
            }),
    {
        let ghost s0 = self@.standing;
        let mut k: usize = 0;
        while k < added.len()
            invariant
                k <= added@.len(),
                self.inv(),
                s0 == old(self)@.standing,
                self@ == (World {
                    standing: s0.remembering_all(added@, Source::Pex, k as int),
                    pex_learned: least(
                        old(self)@.pex_learned + s0.news_among(added@, Source::Pex, k as int),
                        u64::MAX as int,
                    ) as u64,
                    ..old(self)@
                }),
            decreases added.len() - k,
        {
            if self.reputation.remember(added[k], Source::Pex) {
                if self.pex_learned < u64::MAX {
                    self.pex_learned = self.pex_learned + 1;
                }
            }
            k = k + 1;
        }
    }

    /// Route an extended message: id 0 is the handshake, otherwise the id is
    /// one we advertised.
    fn on_extended(
        &mut self,
        i: usize,
        ext_id: u8,
        payload: &[u8],
        now: u64,
        out: &mut Vec<Outgoing>,
    )
        requires
            old(self).inv(),
            i < old(self)@.peers.len(),
        ensures
            final(self).inv(),
            turn(*final(self), *final(out)) == turn(*old(self), *old(out)).extended(
                i as int,
                ext_id,
                payload@,
                now,
            ),
            final(self)@.peers.len() == old(self)@.peers.len(),
    {
        if ext_id == 0 {
            let hs = match extension::Handshake::parse(payload) {
                Ok(hs) => hs,
                Err(_) => return,
            };
            self.peers[i].pex_id = hs.id_for(I2P_PEX);
            self.peers[i].metadata_id = hs.id_for(UT_METADATA);
            proof {
                let w0 = old(self)@;
                let x = self.peers@[i as int].state();
                lemma_states_updated(old(self).peers@, self.peers@, i as int, x);
                lemma_aside(w0.ledger, w0.peers, w0.next_id, Seq::empty(), i as int, x);
            }
            self.send_pex(i, out);
        } else if ext_id == OUR_PEX_ID {
            if let Ok(pex) = PexMessage::parse(payload) {
                proof {
                    lemma_hashes_unique(
                        decoded(payload@)->Ok_0.get("added".spec_bytes()),
                        pex.added@,
                        added_in(payload@),
                    );
                }
                self.learn(&pex.added);
            }
        } else if ext_id == OUR_METADATA_ID {
            if let Ok(m) = MetadataMessage::parse(payload) {
                if let MetadataMessage::Request { piece } = m {
                    self.serve_metadata(i, piece, now, out);
                }
            }
        }
    }

    /// Whether a peer owes us a block.
    fn owes_block(&self, i: usize, index: u32, block: u32) -> (r: bool)
        requires
            i < self@.peers.len(),
        ensures
            r == owes(self@.peers[i as int].in_flight, index as int, block as int),
    {
        proof {
            lemma_owes(self@.peers[i as int].in_flight, index, block);
        }
        find_asked(&self.peers[i].in_flight, index, block) < self.peers[i].in_flight.len()
    }

    /// Take a block off a peer's list.
    fn settle_block(&mut self, i: usize, index: u32, block: u32)
        requires
            i < old(self)@.peers.len(),
        ensures
            forall|o: Seq<Sent>|
                (Turn { world: final(self)@, out: o }) == (#[trigger] Turn {
                    world: old(self)@,
                    out: o,
                }.settled_by(i as int, index, block)),
            final(self).reputation == old(self).reputation,
    {
        let e: usize = find_asked(&self.peers[i].in_flight, index, block);
        if e < self.peers[i].in_flight.len() {
            self.peers[i].in_flight.remove(e);
            proof {
                lemma_states_updated(
                    old(self).peers@,
                    self.peers@,
                    i as int,
                    self.peers@[i as int].state(),
                );
            }
        }
    }

    /// A peer sent us a block: validate it, and say whether it is to be
    /// written. One for a piece we already hold is an endgame duplicate:
    /// writing it would put this peer's bytes over verified ones with nothing
    /// to re-verify afterwards.
    fn on_block(
        &mut self,
        i: usize,
        index: u32,
        begin: u32,
        len: usize,
        now: u64,
        out: &mut Vec<Outgoing>,
    ) -> (d: Disk)
        requires
            old(self).inv(),
            i < old(self)@.peers.len(),
        ensures
            final(self).inv(),
            turn(*final(self), *final(out)) == turn(*old(self), *old(out)).block_arrived(
                i as int,
                index,
                begin,
                len as nat,
                now,
            ),
            d == (if turn(*old(self), *old(out)).well_cut(index, begin, len as nat) && turn(
                *old(self),
                *old(out),
            ).due_from(i as int, index, begin) {
                Disk::Write { index, begin }
            } else {
                Disk::Nothing
            }),
            final(self)@.peers.len() == old(self)@.peers.len(),
    {
        if begin % BLOCK_LEN != 0 || index >= self.picker.have_field().len() {
            return Disk::Nothing;
        }
        let block: u32 = begin / BLOCK_LEN;
        if len as u64 != self.picker.block_len(index, block) as u64 {
            return Disk::Nothing;
        }
        let ghost w0 = self@;
        self.peers[i].strikes = 0;
        proof {
            let x = self.peers@[i as int].state();
            lemma_states_updated(old(self).peers@, self.peers@, i as int, x);
            lemma_aside(w0.ledger, w0.peers, w0.next_id, Seq::empty(), i as int, x);
        }
        if self.owes_block(i, index, block) && !self.picker.has(index) {
            return Disk::Write { index, begin };
        }
        let ghost w1 = self@;
        self.settle_block(i, index, block);
        proof {
            assert(Turn { world: self@, out: Seq::empty() } == Turn {
                world: w1,
                out: Seq::empty(),
            }.settled_by(i as int, index, block));
            assert(Turn { world: self@, out: sent(out@) } == Turn {
                world: w1,
                out: sent(out@),
            }.settled_by(i as int, index, block));
            assert(w1.ledger.account_ok(index as int));
            lemma_settled(w1, self@, i as int, index, block, self@.ledger);
        }
        self.fill_requests(i, now, out);
        Disk::Nothing
    }

    /// Decide whether to serve a block: we are unchoking this peer, hold the
    /// piece, and the request lies inside the piece it names (a range running
    /// off the end of one piece would read into the next).
    fn serves(&self, i: usize, r: BlockRequest) -> (b: bool)
        requires
            i < self@.peers.len(),
        ensures
            forall|o: Seq<Sent>|
                b == #[trigger] (Turn { world: self@, out: o }).may_serve(i as int, r),
    {
        let end: u64 = r.begin as u64 + r.length as u64;
        let len: u32 = self.picker.piece_len(r.index);
        !(self.peers[i].we_choke || r.length == 0 || r.length > BLOCK_LEN || end > len as u64
            || !self.picker.has(r.index))
    }

    /// Handle one message: change the state, queue messages, and say what the
    /// disk has to do before the event can be settled. A block that is to be
    /// written is reported back with [`Torrent::on_written`], one that is to be
    /// read with [`Torrent::on_read`]; then comes [`Torrent::settle`].
    pub fn on_message(
        &mut self,
        id: u64,
        msg: &Message,
        now: u64,
        out: &mut Vec<Outgoing>,
    ) -> (d: Disk)
        requires
            old(self).inv(),
            old(self)@.rounds < u64::MAX,
        ensures
            final(self).inv(),
            turn(*final(self), *final(out)) == turn(*old(self), *old(out)).heard(id, msg@, now),
            d == turn(*old(self), *old(out)).errand_for(id, msg@),
    {
        let i: usize = self.find(id);
        if i >= self.peers.len() {
            return Disk::Nothing;
        }
        let ghost w0 = self@;
        self.peers[i].last_seen = now;
        proof {
            let x = self.peers@[i as int].state();
            lemma_states_updated(old(self).peers@, self.peers@, i as int, x);
            lemma_aside(w0.ledger, w0.peers, w0.next_id, Seq::empty(), i as int, x);
        }
        self.handle(i, msg, now, out)
    }

    /// The dispatch table for messages.
    #[verifier::rlimit(40)]
    fn handle(&mut self, i: usize, msg: &Message, now: u64, out: &mut Vec<Outgoing>) -> (d: Disk)
        requires
            old(self).inv(),
            old(self)@.rounds < u64::MAX,
            i < old(self)@.peers.len(),
        ensures
            final(self).inv(),
            turn(*final(self), *final(out)) == turn(*old(self), *old(out)).handled(
                i as int,
                msg@,
                now,
            ),
            d == turn(*old(self), *old(out)).errand(i as int, msg@),
    {
        let num_pieces: u32 = self.picker.have_field().len();
        let ghost w0 = self@;
        let ghost o0 = sent(out@);
        proof {
            assert(w0.peers[i as int].has.len() == w0.ledger.have.len());
        }
        match msg {
            Message::KeepAlive
            | Message::Cancel(_)
            | Message::RejectRequest(_)
            | Message::SuggestPiece(_)
            | Message::AllowedFast(_) => Disk::Nothing,
            Message::Extended { id, payload } => {
                self.on_extended(i, *id, payload.as_slice(), now, out);
                Disk::Nothing
            },
            Message::Choke => {
                self.choked_by(i);
                proof {
                    assert(Turn { world: self@, out: o0 } == Turn { world: w0, out: o0 }.handled(
                        i as int,
                        Msg::Choke,
                        now,
                    ));
                }
                Disk::Nothing
            },
            Message::Unchoke => {
                self.unchoked_by(i, now, out);
                Disk::Nothing
            },
            Message::Interested => {
                self.interest_of(i, true, out);
                Disk::Nothing
            },
            Message::NotInterested => {
                self.interest_of(i, false, out);
                Disk::Nothing
            },
            Message::Have(piece) => {
                // Only when the bit actually changes: leaving withdraws what
                // the bitfield says exactly once, so a repeated `have` would
                // inflate that piece's availability for good.
                if *piece < num_pieces && !self.peers[i].has.has(*piece) {
                    self.gain_piece(i, *piece, now, out);
                }
                Disk::Nothing
            },
            Message::Bitfield(bytes) => {
                if let Ok(field) = Bitfield::from_bytes(bytes.as_slice(), num_pieces) {
                    self.replace_piece_set(i, field, now, out);
                }
                Disk::Nothing
            },
            Message::HaveAll => {
                self.replace_piece_set(i, Bitfield::full(num_pieces), now, out);
                Disk::Nothing
            },
            Message::HaveNone => {
                self.replace_piece_set(i, Bitfield::empty(num_pieces), now, out);
                Disk::Nothing
            },
            Message::Request(r) => {
                let ok = self.serves(i, *r);
                proof {
                    assert(ok == Turn { world: w0, out: o0 }.may_serve(i as int, *r));
                }
                if ok {
                    Disk::Read(*r)
                } else {
                    Disk::Nothing
                }
            },
            Message::Piece { index, begin, block } => self.on_block(
                i,
                *index,
                *begin,
                block.len(),
                now,
                out,
            ),
        }
    }

    /// The block that [`Torrent::on_message`] asked to have written was written,
    /// or could not be. Returns the piece that is now complete, if one is: it is
    /// to be verified from disk before it is trusted, and the verdict reported
    /// with [`Torrent::on_verified`].
    ///
    /// The supplier is remembered by destination, not connection: the verdict
    /// may come after this connection is gone, and a ban is on the identity. A
    /// block that could not be written is offered again.
    pub fn on_written(
        &mut self,
        id: u64,
        index: u32,
        begin: u32,
        ok: bool,
        now: u64,
        out: &mut Vec<Outgoing>,
    ) -> (r: Option<u32>)
        requires
            old(self).inv(),
        ensures
            final(self).inv(),
            turn(*final(self), *final(out)) == turn(*old(self), *old(out)).written(
                id,
                index,
                begin,
                ok,
                now,
            ),
            r == (if ok && turn(*old(self), *old(out)).awaits_write(id, index, begin) && turn(
                *old(self),
                *old(out),
            ).completes(index, begin) {
                Some(index)
            } else {
                None
            }),
    {
        let i: usize = self.find(id);
        if i >= self.peers.len() || begin % BLOCK_LEN != 0 || index
            >= self.picker.have_field().len() {
            return None;
        }
        let block: u32 = begin / BLOCK_LEN;
        if !self.owes_block(i, index, block) || self.picker.has(index) {
            return None;
        }
        let ghost w0 = self@;
        let ghost f = self@.peers[i as int].in_flight;
        let dest = self.peers[i].dest;
        proof {
            assert(queue_ok(w0.ledger, f));
            assert(block < w0.ledger.blocks(index as int));
        }
        self.settle_block(i, index, block);
        let ghost w1 = self@;
        proof {
            assert(Turn { world: w1, out: Seq::empty() } == Turn {
                world: w0,
                out: Seq::empty(),
            }.settled_by(i as int, index, block));
            assert(Turn { world: w1, out: sent(out@) } == Turn {
                world: w0,
                out: sent(out@),
            }.settled_by(i as int, index, block));
            assert(w1.ledger == w0.ledger);
        }
        if ok {
            let len: u32 = self.picker.block_len(index, block);
            self.downloaded = wrapping_sum(self.downloaded, len as u64);
            self.reputation.supplied(index, block, dest);
            let complete = self.picker.block_received(index, block);
            proof {
                assert forall|p: int, b: int|
                    #![trigger outstanding(self@.ledger, p, b)]
                    outstanding(self@.ledger, p, b) <= outstanding(w0.ledger, p, b) by {
                    lemma_received_counts(w0.ledger, index as int, block as int, p, b);
                }
                lemma_received_counts(
                    w0.ledger,
                    index as int,
                    block as int,
                    index as int,
                    block as int,
                );
                lemma_settled(w0, w1, i as int, index, block, self@.ledger);
            }
            if complete {
                Some(index)
            } else {
                None
            }
        } else {
            self.picker.block_failed(index, block);
            proof {
                lemma_failed_counts(w0.ledger, index as int, block as int, 0, 0);
                assert forall|p: int, b: int|
                    #![trigger outstanding(self@.ledger, p, b)]
                    outstanding(self@.ledger, p, b) <= outstanding(w0.ledger, p, b) by {
                    lemma_failed_counts(w0.ledger, index as int, block as int, p, b);
                }
                lemma_failed_counts(
                    w0.ledger,
                    index as int,
                    block as int,
                    index as int,
                    block as int,
                );
                lemma_settled(w0, w1, i as int, index, block, self@.ledger);
            }
            self.fill_requests(i, now, out);
            None
        }
    }

    /// Queue the connections of a destination for removal.
    fn drop_all_of(&mut self, dest: DestHash)
        ensures
            final(self)@ == (World {
                to_drop: old(self)@.to_drop + held_by(
                    old(self)@.peers,
                    dest,
                    old(self)@.peers.len() as int,
                ),
                ..old(self)@
            }),
            final(self).reputation == old(self).reputation,
            final(self).peers == old(self).peers,
    {
        let ghost w0 = self@;
        let mut i: usize = 0;
        proof {
            assert(w0.to_drop + held_by(w0.peers, dest, 0) =~= w0.to_drop);
        }
        while i < self.peers.len()
            invariant
                i <= self.peers@.len(),
                self.peers == old(self).peers,
                self.reputation == old(self).reputation,
                w0 == old(self)@,
                self@ == (World {
                    to_drop: w0.to_drop + held_by(w0.peers, dest, i as int),
                    ..w0
                }),
            decreases self.peers.len() - i,
        {
            let ghost d = self.to_drop@;
            if same_dest(self.peers[i].dest, dest) {
                self.to_drop.push(self.peers[i].id);
                proof {
                    assert(self.to_drop@ =~= w0.to_drop + held_by(w0.peers, dest, i + 1));
                }
            }
            i = i + 1;
        }
    }

    /// A completed piece verified, or failed. Announce it or blame its
    /// suppliers, and refill the pipeline of the peer that completed it.
    /// Whoever is banned here is dropped when the event is settled, and its
    /// blocks go back to the picker then.
    pub fn on_verified(
        &mut self,
        id: u64,
        index: u32,
        ok: bool,
        now: u64,
        out: &mut Vec<Outgoing>,
    )
        requires
            old(self).inv(),
        ensures
            final(self).inv(),
            turn(*final(self), *final(out)) == turn(*old(self), *old(out)).verified(
                id,
                index,
                ok,
                now,
            ),
    {
        if index >= self.picker.have_field().len() {
            return;
        }
        let ghost t0 = turn(*self, *out);
        let ghost w0 = self@;
        let blocks: u32 = self.picker.blocks_in_piece(index);
        if ok {
            self.picker.set_have(index);
            self.reputation.credit(index, blocks);
            proof {
                assert(sent(out@) + broadcast_to(w0.peers, Msg::Have(index), 0) =~= sent(out@));
            }
            let mut k: usize = 0;
            while k < self.peers.len()
                invariant
                    k <= self.peers@.len(),
                    self@.peers == w0.peers,
                    sent(out@) == t0.out + broadcast_to(w0.peers, Msg::Have(index), k as int),
                decreases self.peers.len() - k,
            {
                let ghost o = out@;
                self.say(k, Message::Have(index), out);
                proof {
                    assert(turn(*self, *out).out == sent(o).push(
                        Sent { to: w0.peers[k as int].id, msg: Msg::Have(index) },
                    ));
                    assert(sent(out@) =~= t0.out + broadcast_to(
                        w0.peers,
                        Msg::Have(index),
                        k + 1,
                    ));
                }
                k = k + 1;
            }
        } else {
            self.picker.reset_piece(index);
            let culprits = self.reputation.blame(index, blocks);
            let ghost w1 = self@;
            let mut k: usize = 0;
            proof {
                assert(w0.to_drop + held_by_any(w0.peers, culprits@, 0) =~= w0.to_drop);
            }
            while k < culprits.len()
                invariant
                    k <= culprits@.len(),
                    self.reputation.inv(),
                    w1.peers == w0.peers,
                    w1.to_drop == w0.to_drop,
                    self@ == (World {
                        to_drop: w0.to_drop + held_by_any(w0.peers, culprits@, k as int),
                        ..w1
                    }),
                decreases culprits.len() - k,
            {
                self.drop_all_of(culprits[k]);
                proof {
                    assert(self@.to_drop =~= w0.to_drop + held_by_any(
                        w0.peers,
                        culprits@,
                        k + 1,
                    ));
                }
                k = k + 1;
            }
        }
        proof {
            assert forall|p: int, b: int|
                #![trigger outstanding(self@.ledger, p, b)]
                outstanding(self@.ledger, p, b) <= outstanding(w0.ledger, p, b) by {}
            lemma_fewer(w0.ledger, w0.peers, w0.next_id, self@.ledger);
            assert(turn(*self, *out) == t0.piece_judged(index, ok));
        }
        let i: usize = self.find(id);
        if i < self.peers.len() {
            self.fill_requests(i, now, out);
        }
    }

    /// The block that [`Torrent::on_message`] asked to have read was read:
    /// serve it. (A read that failed is not reported; the request goes
    /// unanswered.)
    pub fn on_read(&mut self, id: u64, r: BlockRequest, data: Vec<u8>, out: &mut Vec<Outgoing>)
        requires
            old(self).inv(),
            old(self)@.connected(id) ==> old(self)@.peers[old(self)@.find(id)].uploaded
                + data@.len() <= u64::MAX,
        ensures
            final(self).inv(),
            turn(*final(self), *final(out)) == turn(*old(self), *old(out)).served(id, r, data@),
    {
        let i: usize = self.find(id);
        if i >= self.peers.len() {
            return;
        }
        let ghost w0 = self@;
        let len: u64 = data.len() as u64;
        self.uploaded = wrapping_sum(self.uploaded, len);
        self.peers[i].uploaded = self.peers[i].uploaded + len;
        proof {
            let x = self.peers@[i as int].state();
            lemma_states_updated(old(self).peers@, self.peers@, i as int, x);
            lemma_aside(w0.ledger, w0.peers, w0.next_id, Seq::empty(), i as int, x);
        }
        self.say(i, Message::Piece { index: r.index, begin: r.begin, block: data }, out);
    }

    /// Note that each peer named in `out` has had something queued for it, so
    /// the keep-alive clock starts again for them.
    fn record_sent(&mut self, out: &Vec<Outgoing>, now: u64)
        requires
            old(self).inv(),
        ensures
            final(self).inv(),
            turn(*final(self), *out) == turn(*old(self), *out).recorded(now),
    {
        let ghost t0 = turn(*self, *out);
        let ghost r = t0.recorded(now).world.peers;
        let mut i: usize = 0;
        while i < self.peers.len()
            invariant
                i <= self.peers@.len(),
                self.inv(),
                t0 == turn(*old(self), *out),
                r == t0.recorded(now).world.peers,
                self@.peers.len() == t0.world.peers.len(),
                self@ == (World { peers: self@.peers, ..t0.world }),
                forall|j: int| 0 <= j < i ==> #[trigger] self@.peers[j] == r[j],
                forall|j: int|
                    i <= j < self@.peers.len() ==> #[trigger] self@.peers[j] == t0.world.peers[j],
            decreases self.peers.len() - i,
        {
            let ghost before = *self;
            if is_addressed(out, self.peers[i].id) {
                self.peers[i].last_sent = now;
                proof {
                    let x = self.peers@[i as int].state();
                    lemma_states_updated(before.peers@, self.peers@, i as int, x);
                    lemma_aside(
                        before@.ledger,
                        before@.peers,
                        before@.next_id,
                        Seq::empty(),
                        i as int,
                        x,
                    );
                }
            }
            proof {
                assert(self@.peers[i as int] == r[i as int]);
            }
            i = i + 1;
        }
        proof {
            assert(self@.peers =~= r);
        }
    }

    /// Settle an event: run a choke round if one is due, restart the keep-alive
    /// clocks of whoever is being written to, and say which peers are to be
    /// dropped. `out` is everything queued since the event came in.
    pub fn settle(&mut self, now: u64, out: &mut Vec<Outgoing>) -> (evict: Vec<u64>)
        requires
            old(self).inv(),
            old(self)@.rounds < u64::MAX,
        ensures
            final(self).inv(),
            turn(*final(self), *final(out)) == turn(*old(self), *old(out)).settled(now),
            evict@ == old(self)@.to_drop,
    {
        if elapsed(self.last_choke_round, now) >= self.choke_interval {
            self.last_choke_round = now;
            self.run_choker(out);
        }
        self.record_sent(out, now);
        let mut evict: Vec<u64> = Vec::new();
        std::mem::swap(&mut self.to_drop, &mut evict);
        proof {
            assert(self.to_drop@ =~= Seq::empty());
        }
        evict
    }

    /// Give up on blocks that a peer did not answer for, and top its pipeline
    /// up unless it has done so too often. Says whether it has.
    fn chase(&mut self, i: usize, now: u64, out: &mut Vec<Outgoing>) -> (struck: bool)
        requires
            old(self).inv(),
            i < old(self)@.peers.len(),
        ensures
            final(self).inv(),
            turn(*final(self), *final(out)) == turn(*old(self), *old(out)).chased_one(
                i as int,
                now,
            ),
            struck == turn(*old(self), *old(out)).strikes_out(i as int, now),
            final(self)@.peers.len() == old(self)@.peers.len(),
            final(self)@.to_drop == old(self)@.to_drop,
            final(self)@.rounds == old(self)@.rounds,
    {
        let ghost w0 = self@;
        let ghost f = self@.peers[i as int].in_flight;
        let limit: u64 = self.request_timeout;
        let mut gone: Vec<Asked> = Vec::new();
        let mut kept: Vec<Asked> = Vec::new();
        let mut k: usize = 0;
        while k < self.peers[i].in_flight.len()
            invariant
                k <= f.len(),
                i < self.peers@.len(),
                f == self.peers@[i as int].in_flight@,
                gone@ == aged(f, k as int, now, limit, false),
                kept@ == aged(f, k as int, now, limit, true),
            decreases f.len() - k,
        {
            let a = self.peers[i].in_flight[k];
            if elapsed(a.at, now) < limit {
                kept.push(a);
            } else {
                gone.push(a);
            }
            k = k + 1;
        }
        if gone.len() == 0 {
            self.fill_requests(i, now, out);
            return false;
        }
        let ghost g = gone@;
        let ghost h = kept@;
        self.peers[i].in_flight = kept;
        if self.peers[i].strikes < u32::MAX {
            self.peers[i].strikes = self.peers[i].strikes + 1;
        }
        let ghost mid = self.peers@;
        proof {
            lemma_states_updated(old(self).peers@, mid, i as int, mid[i as int].state());
        }
        self.release(&gone);
        proof {
            let x = mid[i as int].state();
            assert(queue_ok(w0.ledger, f));
            lemma_aged(f, f.len() as int, now, limit, true);
            lemma_aged(f, f.len() as int, now, limit, false);
            lemma_releasing(w0.ledger, g, g.len() as int, 0, 0);
            assert(queue_ok(self@.ledger, h)) by {
                assert forall|k: int| 0 <= k < h.len() implies (#[trigger] h[k]).piece
                    < self@.ledger.have.len() && h[k].block < self@.ledger.blocks(
                    h[k].piece as int,
                ) by {
                    let j = choose|j: int|
                        0 <= j < f.len() && h[k] == f[j] && (since(f[j].at, now) < limit) == true;
                    assert(f[j].piece < w0.ledger.have.len());
                }
            }
            assert forall|p: int, b: int|
                #![trigger outstanding(self@.ledger, p, b)]
                outstanding(self@.ledger, p, b) == 0 || outstanding(self@.ledger, p, b) + bit(
                    owes(f, p, b),
                ) + bit(wanted(Seq::empty(), p, b)) <= outstanding(w0.ledger, p, b) + bit(
                    owes(h, p, b),
                ) + bit(wanted(Seq::empty(), p, b)) by {
                lemma_releasing(w0.ledger, g, g.len() as int, p, b);
                assert(g.take(g.len() as int) =~= g);
                lemma_aged_split(f, now, limit, p, b);
            }
            lemma_step(
                w0.ledger,
                w0.peers,
                w0.next_id,
                Seq::empty(),
                self@.ledger,
                i as int,
                x,
                Seq::empty(),
            );
            assert(self@.peers == w0.peers.update(i as int, x));
        }
        if self.peers[i].strikes >= REQUEST_STRIKES {
            return true;
        }
        self.fill_requests(i, now, out);
        false
    }

    /// The periodic work, one tick's worth: drop peers that have gone silent,
    /// keep-alive the ones we have nothing else to say to, give up on blocks
    /// nobody answered and on peers that keep not answering, top every
    /// surviving pipeline back up, and run a choke round if one is due. Says
    /// which peers are to be dropped.
    ///
    /// *Every* eligible peer is refilled, not just those that timed out: a peer
    /// whose pipeline drains while the picker has nothing to offer would
    /// otherwise stay connected, interested, unchoked and permanently idle,
    /// with no event left that would wake it.
    pub fn maintain(&mut self, now: u64, out: &mut Vec<Outgoing>) -> (evict: Vec<u64>)
        requires
            old(self).inv(),
            old(self)@.rounds < u64::MAX,
        ensures
            final(self).inv(),
            turn(*final(self), *final(out)) == turn(*old(self), *old(out)).maintained(now),
            evict@ == turn(*old(self), *old(out)).dropped_by_tick(now),
    {
        let ghost t0 = turn(*self, *out);
        let ghost w0 = self@;
        let n: usize = self.peers.len();
        let mut evict: Vec<u64> = Vec::new();
        let mut i: usize = 0;
        proof {
            assert(t0.out + keepalives(w0, 0, now) =~= t0.out);
        }
        while i < n
            invariant
                i <= n,
                n == self.peers@.len(),
                self@ == w0,
                evict@ == silent(w0, i as int, now),
                sent(out@) == t0.out + keepalives(w0, i as int, now),
            decreases n - i,
        {
            let ghost o = out@;
            if elapsed(self.peers[i].last_seen, now) >= self.idle_timeout {
                evict.push(self.peers[i].id);
            } else if elapsed(self.peers[i].last_sent, now) >= self.keepalive_interval {
                self.say(i, Message::KeepAlive, out);
                proof {
                    assert(turn(*self, *out).out == sent(o).push(
                        Sent { to: w0.peers[i as int].id, msg: Msg::KeepAlive },
                    ));
                    assert(sent(out@) =~= t0.out + keepalives(w0, i + 1, now));
                }
            }
            i = i + 1;
        }
        let ghost t1 = turn(*self, *out);
        let ghost idle = evict@;
        proof {
            assert(t1 == Turn { out: t0.out + keepalives(w0, n as int, now), ..t0 });
            assert(idle + t1.struck_out(0, now) =~= idle);
        }
        let mut k: usize = 0;
        while k < n
            invariant
                k <= n,
                n == self@.peers.len(),
                self.inv(),
                self@.to_drop == w0.to_drop,
                self@.rounds == w0.rounds,
                turn(*self, *out) == t1.chased(k as int, now),
                evict@ == idle + t1.struck_out(k as int, now),
            decreases n - k,
        {
            let ghost id = self@.peers[k as int].id;
            let id0: u64 = self.peers[k].id;
            let ghost e = evict@;
            if self.chase(k, now, out) {
                evict.push(id0);
                proof {
                    assert(evict@ =~= idle + t1.struck_out(k + 1, now));
                }
            }
            k = k + 1;
        }
        let mut rest = self.settle(now, out);
        proof {
            assert(evict@ + rest@ =~= t0.dropped_by_tick(now));
        }
        evict.append(&mut rest);
        evict
    }

    /// Remove a peer: its availability is withdrawn, its in-flight blocks are
    /// released, and its slot goes back to the budget. Returns whether it was
    /// there.
    pub fn remove_peer(&mut self, budget: &mut PeerBudget, id: u64) -> (removed: bool)
        requires
            old(self).inv(),
            old(self)@.connected(id) ==> old(budget).used() > 0,
        ensures
            final(self).inv(),
            final(self)@ == old(self)@.removing(id),
            removed == old(self)@.connected(id),
            final(budget).ceiling() == old(budget).ceiling(),
            final(budget).used() == old(budget).used() - bit(removed),
    {
        let i: usize = self.find(id);
        if i >= self.peers.len() {
            return false;
        }
        let ghost w0 = self@;
        proof {
            lemma_removed(w0, i as int);
        }
        let peer = self.peers.swap_remove(i);
        let ghost p0 = self.peers@;
        self.picker.remove_bitfield(&peer.has);
        self.release(&peer.in_flight);
        budget.release(peer.slot);
        proof {
            assert(states(p0) =~= w0.peers.update(i as int, w0.peers.last()).drop_last());
            assert(self@ =~= w0.without(i as int));
        }
        true
    }

    /// Start a torrent whose currently-verified pieces are `initial_have`
    /// (empty for a fresh leech, full for a seed). `mode` selects rarest-first
    /// or sequential picking.
    pub fn new(
        meta: &MetaInfo,
        initial_have: &Bitfield,
        mode: Mode,
        peer_id: [u8; 20],
        now: u64,
    ) -> (t: Torrent)
        ensures
            t.inv(),
            t@ == started(meta@, initial_have@, mode, peer_id@, now),
    {
        let num_pieces: u32 = if meta.pieces.len() as u64 <= u32::MAX as u64 {
            meta.pieces.len() as u32
        } else {
            u32::MAX
        };
        let mut picker = Picker::new(num_pieces, meta.piece_length, meta.total_length, mode);
        let ghost l0 = picker@;
        let mut i: u32 = 0;
        proof {
            assert(l0.have =~= Seq::new(num_pieces as nat, |k: int| false));
        }
        while i < num_pieces
            invariant
                i <= num_pieces,
                picker@.wf(),
                l0.have.len() == num_pieces,
                l0.progress == Seq::new(num_pieces as nat, |k: int| None::<Blocks>),
                picker@ == (Ledger {
                    have: Seq::new(
                        num_pieces as nat,
                        |k: int| k < i && k < initial_have@.len() && initial_have@[k],
                    ),
                    ..l0
                }),
            decreases num_pieces - i,
        {
            if initial_have.has(i) {
                picker.set_have(i);
            }
            proof {
                assert(picker@.have =~= Seq::new(
                    num_pieces as nat,
                    |k: int| k < i + 1 && k < initial_have@.len() && initial_have@[k],
                ));
                assert(picker@.progress =~= l0.progress);
            }
            i = i + 1;
        }
        let t = Torrent {
            info_hash: meta.info_hash.0,
            peer_id,
            raw_info: copy_range(meta.raw_info.as_slice(), 0, meta.raw_info.len()),
            max_frame: frame_ceiling(num_pieces),
            picker,
            choker: Choker::default(),
            last_choke_round: now,
            choke_interval: DEFAULT_CHOKE_INTERVAL,
            keepalive_interval: DEFAULT_KEEPALIVE_INTERVAL,
            idle_timeout: DEFAULT_IDLE_TIMEOUT,
            request_timeout: DEFAULT_REQUEST_TIMEOUT,
            peers: Vec::new(),
            next_id: 0,
            reputation: Reputation::new(),
            pex_learned: 0,
            announces_ok: 0,
            announces_failed: 0,
            last_announce_error: None,
            to_drop: Vec::new(),
            uploaded: 0,
            downloaded: 0,
            inbound: 0,
        };
        proof {
            let s = started(meta@, initial_have@, mode, peer_id@, now);
            assert(t@.peers =~= Seq::empty());
            assert(t@.to_drop =~= Seq::empty());
            assert(t@.raw_info =~= meta@.raw_info);
            assert(t@.ledger.have =~= s.ledger.have);
            assert(t@.ledger =~= s.ledger);
            assert forall|p: int| 0 <= p < t@.ledger.have.len() implies #[trigger]
                t@.ledger.availability[p] == holders(t@.peers, p) by {}
        }
        t
    }

    /// Whether every piece that is wanted is verified.
    pub fn is_complete(&self) -> (r: bool)
        requires
            self.inv(),
        ensures
            r == self@.ledger.complete(),
    {
        self.picker.is_complete()
    }

    /// Note peers we could dial (from the tracker). They join the set
    /// advertised over peer exchange.
    pub fn add_peers(&mut self, peers: &Vec<DestHash>)
        requires
            old(self).inv(),
        ensures
            final(self).inv(),
            final(self)@ == (World {
                standing: old(self)@.standing.remembering_all(
                    peers@,
                    Source::Trusted,
                    peers@.len() as int,
                ),
                ..old(self)@
            }),
    {
        let ghost s0 = self@.standing;
        let mut k: usize = 0;
        while k < peers.len()
            invariant
                k <= peers@.len(),
                self.inv(),
                s0 == old(self)@.standing,
                self@ == (World {
                    standing: s0.remembering_all(peers@, Source::Trusted, k as int),
                    ..old(self)@
                }),
            decreases peers.len() - k,
        {
            self.reputation.remember(peers[k], Source::Trusted);
            k = k + 1;
        }
    }

    /// Set how long this torrent waits between choke rounds.
    pub fn set_choke_interval(&mut self, interval: u64)
        ensures
            final(self)@ == (World { choke_interval: interval, ..old(self)@ }),
            old(self).inv() ==> final(self).inv(),
    {
        self.choke_interval = interval;
    }

    /// Set how long a peer may go without hearing anything from us before a
    /// keep-alive is sent.
    pub fn set_keepalive_interval(&mut self, interval: u64)
        ensures
            final(self)@ == (World { keepalive_interval: interval, ..old(self)@ }),
            old(self).inv() ==> final(self).inv(),
    {
        self.keepalive_interval = interval;
    }

    /// Set how long a peer may say nothing before it is dropped.
    pub fn set_idle_timeout(&mut self, timeout: u64)
        ensures
            final(self)@ == (World { idle_timeout: timeout, ..old(self)@ }),
            old(self).inv() ==> final(self).inv(),
    {
        self.idle_timeout = timeout;
    }

    /// Set how long a requested block may go unanswered before it is offered
    /// to another peer.
    pub fn set_request_timeout(&mut self, timeout: u64)
        ensures
            final(self)@ == (World { request_timeout: timeout, ..old(self)@ }),
            old(self).inv() ==> final(self).inv(),
    {
        self.request_timeout = timeout;
    }

    /// Set what each piece is worth (`0` skip, `1` normal, `2` high). Takes
    /// effect on the next pick; dropping the only pieces a torrent was missing
    /// finishes it.
    pub fn set_piece_priorities(&mut self, per_piece: &[u8])
        requires
            old(self).inv(),
        ensures
            final(self).inv(),
            final(self)@ == (World {
                ledger: Ledger {
                    priority: Seq::new(
                        old(self)@.ledger.have.len(),
                        |i: int|
                            if i < per_piece@.len() {
                                per_piece@[i]
                            } else {
                                NORMAL_PRIORITY
                            },
                    ),
                    ..old(self)@.ledger
                },
                ..old(self)@
            }),
    {
        let ghost w0 = self@;
        self.picker.set_piece_priorities(per_piece);
        proof {
            assert forall|p: int, b: int|
                #![trigger outstanding(self@.ledger, p, b)]
                outstanding(self@.ledger, p, b) <= outstanding(w0.ledger, p, b) by {}
            lemma_fewer(w0.ledger, w0.peers, w0.next_id, self@.ledger);
        }
    }

    /// Switch piece-selection mode. Takes effect on the next pick; nothing in
    /// flight is cancelled.
    pub fn set_mode(&mut self, mode: Mode)
        requires
            old(self).inv(),
        ensures
            final(self).inv(),
            final(self)@ == (World {
                ledger: Ledger { mode, ..old(self)@.ledger },
                ..old(self)@
            }),
    {
        let ghost w0 = self@;
        self.picker.set_mode(mode);
        proof {
            assert forall|p: int, b: int|
                #![trigger outstanding(self@.ledger, p, b)]
                outstanding(self@.ledger, p, b) <= outstanding(w0.ledger, p, b) by {}
            lemma_fewer(w0.ledger, w0.peers, w0.next_id, self@.ledger);
        }
    }

    /// Bytes of the pieces we want and do not hold: an announce's `left`, as
    /// long as no piece is skipped. An announce counts those too.
    pub fn bytes_left(&self) -> (n: u64)
        requires
            self.inv(),
        ensures
            n == self@.ledger.bytes_left(self@.ledger.have.len() as int),
    {
        self.picker.bytes_left()
    }

    /// The peer destinations this torrent currently knows about.
    pub fn known_peers(&self) -> (v: Vec<DestHash>)
        ensures
            v@ == self@.standing.known.map_values(|k: Known| k.dest),
    {
        self.reputation.known_peers()
    }

    /// The known destinations the dial sweep may try: those known, none of
    /// which is banned.
    pub fn dial_candidates(&self) -> (v: Vec<DestHash>)
        requires
            self.inv(),
        ensures
            v@ == self@.standing.known.map_values(|k: Known| k.dest),
            forall|i: int| 0 <= i < v@.len() ==> !self@.standing.banned.contains(#[trigger] v@[i]),
    {
        let known = self.reputation.known_peers();
        let mut v: Vec<DestHash> = Vec::new();
        let mut k: usize = 0;
        while k < known.len()
            invariant
                k <= known@.len(),
                self.inv(),
                known@ == self@.standing.known.map_values(|k: Known| k.dest),
                v@ == known@.take(k as int),
                forall|i: int|
                    0 <= i < v@.len() ==> !self@.standing.banned.contains(#[trigger] v@[i]),
            decreases known.len() - k,
        {
            proof {
                assert(!self@.standing.banned.contains(self@.standing.known[k as int].dest));
                assert(known@.take(k + 1) =~= known@.take(k as int).push(known@[k as int]));
            }
            if !self.reputation.is_banned(known[k]) {
                v.push(known[k]);
            }
            k = k + 1;
        }
        proof {
            assert(known@.take(known@.len() as int) =~= known@);
        }
        v
    }

    /// Whether `dest` is refused for the rest of this run: it served a piece
    /// that failed its hash, alone or in enough company. Checked before a
    /// handshake is spent on it.
    pub fn is_banned(&self, dest: DestHash) -> (r: bool)
        ensures
            r == self@.standing.banned.contains(dest),
    {
        self.reputation.is_banned(dest)
    }

    /// How many destinations this run has banned.
    pub fn banned_count(&self) -> (n: usize)
        ensures
            n == self@.standing.banned.len(),
    {
        self.reputation.banned_count()
    }

    /// Record the outcome of one announce: the announcer is the only thing that
    /// knows whether a torrent's lack of peers is a tracker problem.
    pub fn note_announce(&mut self, outcome: Result<(), String>)
        ensures
            old(self).inv() ==> final(self).inv(),
            final(self)@ == (match outcome {
                Ok(()) => World {
                    announces_ok: raised(old(self)@.announces_ok),
                    last_announce_error: None,
                    ..old(self)@
                },
                Err(e) => World {
                    announces_failed: raised(old(self)@.announces_failed),
                    last_announce_error: Some(e@),
                    ..old(self)@
                },
            }),
    {
        match outcome {
            Ok(()) => {
                if self.announces_ok < u32::MAX {
                    self.announces_ok = self.announces_ok + 1;
                }
                self.last_announce_error = None;
            },
            Err(e) => {
                if self.announces_failed < u32::MAX {
                    self.announces_failed = self.announces_failed + 1;
                }
                self.last_announce_error = Some(e);
            },
        }
    }

    /// Announces that succeeded, announces that failed, and the last failure
    /// reason: the answer to "why does this torrent have no peers".
    pub fn announce_status(&self) -> (r: (u32, u32, Option<String>))
        ensures
            r.0 == self@.announces_ok,
            r.1 == self@.announces_failed,
            error_view(r.2) == self@.last_announce_error,
    {
        let reason: Option<String> = match &self.last_announce_error {
            Some(s) => Some(s.as_str().to_owned()),
            None => None,
        };
        (self.announces_ok, self.announces_failed, reason)
    }

    /// How many peers reached us inbound this run. Cumulative, not a count of
    /// live connections.
    pub fn inbound_peers(&self) -> (n: u64)
        ensures
            n == self@.inbound,
    {
        self.inbound
    }

    /// How many peer destinations we first learned over peer exchange.
    pub fn pex_learned(&self) -> (n: u64)
        ensures
            n == self@.pex_learned,
    {
        self.pex_learned
    }

    /// The peers currently attached, one entry per connection.
    pub fn connected_peers(&self) -> (v: Vec<DestHash>)
        ensures
            v@ == self@.peers.map_values(|p: PeerState| p.dest),
    {
        let mut v: Vec<DestHash> = Vec::new();
        let mut k: usize = 0;
        while k < self.peers.len()
            invariant
                k <= self.peers@.len(),
                v@.len() == k,
                forall|j: int| 0 <= j < k ==> #[trigger] v@[j] == self@.peers[j].dest,
            decreases self.peers.len() - k,
        {
            v.push(self.peers[k].dest);
            k = k + 1;
        }
        proof {
            assert(v@ =~= self@.peers.map_values(|p: PeerState| p.dest));
        }
        v
    }

    /// The ids of the peers currently attached.
    pub fn peer_ids(&self) -> (v: Vec<u64>)
        ensures
            v@ == self@.ids(),
    {
        let mut v: Vec<u64> = Vec::new();
        let mut k: usize = 0;
        while k < self.peers.len()
            invariant
                k <= self.peers@.len(),
                v@.len() == k,
                forall|j: int| 0 <= j < k ==> #[trigger] v@[j] == self@.peers[j].id,
            decreases self.peers.len() - k,
        {
            v.push(self.peers[k].id);
            k = k + 1;
        }
        proof {
            assert(v@ =~= self@.ids());
        }
        v
    }

    /// Our verified piece set, for progress display and resume persistence.
    pub fn have(&self) -> (f: &Bitfield)
        ensures
            f@ == self@.ledger.have,
    {
        self.picker.have_field()
    }

    /// How many connected peers hold piece `index`: the number rarest-first
    /// steers by.
    pub fn availability(&self, index: u32) -> (n: u32)
        requires
            self.inv(),
        ensures
            n == (if index < self@.ledger.have.len() {
                holders(self@.peers, index as int)
            } else {
                0
            }),
    {
        self.picker.availability(index)
    }

    /// Disconnect every attached peer: each is removed from the table
    /// (withdrawing its availability, releasing its in-flight blocks, giving
    /// its slot back). Returns whom.
    pub fn disconnect_all(&mut self, budget: &mut PeerBudget) -> (ids: Vec<u64>)
        requires
            old(self).inv(),
            old(budget).used() >= old(self)@.peers.len(),
        ensures
            final(self).inv(),
            ids@ == old(self)@.ids(),
            final(self)@ == old(self)@.removing_all(ids@, ids@.len() as int),
            final(self)@.peers.len() == 0,
            final(budget).ceiling() == old(budget).ceiling(),
            final(budget).used() == old(budget).used() - old(self)@.peers.len(),
    {
        let ids = self.peer_ids();
        let ghost w0 = self@;
        let mut k: usize = 0;
        proof {
            assert forall|j: int| 0 <= j < ids@.len() implies w0.connected(
                #[trigger] ids@[j],
            ) by {
                lemma_peer_at(w0.peers, ids@[j], 0);
                assert(w0.peers[j].id == ids@[j]);
            }
        }
        while k < ids.len()
            invariant
                k <= ids@.len(),
                ids@ == w0.ids(),
                w0.wf(),
                self.inv(),
                self@ == w0.removing_all(ids@, k as int),
                self@.peers.len() == ids@.len() - k,
                budget.used() == old(budget).used() - k,
                budget.ceiling() == old(budget).ceiling(),
                old(budget).used() >= w0.peers.len(),
                forall|j: int| k <= j < ids@.len() ==> self@.connected(#[trigger] ids@[j]),
            decreases ids.len() - k,
        {
            let ghost w = self@;
            proof {
                assert forall|j: int| k < j < ids@.len() implies w.removing(
                    ids@[k as int],
                ).connected(#[trigger] ids@[j]) by {
                    assert(w0.peers[k as int].id != w0.peers[j].id);
                    lemma_removing_others(w, ids@[k as int], ids@[j]);
                }
                lemma_peer_at(w.peers, ids@[k as int], 0);
            }
            self.remove_peer(budget, ids[k]);
            k = k + 1;
        }
        ids
    }

    /// This torrent's info-hash: its identity on trackers, the wire, and in
    /// the inbound demux.
    pub fn info_hash(&self) -> (h: [u8; 20])
        ensures
            h@ == self@.info_hash,
    {
        self.info_hash
    }

    /// Our peer id on the wire and in announces.
    pub fn peer_id(&self) -> (h: [u8; 20])
        ensures
            h@ == self@.peer_id,
    {
        self.peer_id
    }

    /// Bytes (uploaded, downloaded) since this torrent started.
    pub fn stats(&self) -> (r: (u64, u64))
        ensures
            r == (self@.uploaded, self@.downloaded),
    {
        (self.uploaded, self.downloaded)
    }

    /// The longest frame a peer may send: enough for the largest message.
    pub fn max_frame(&self) -> (n: u32)
        ensures
            n == self@.max_frame,
    {
        self.max_frame
    }

    /// How many choke rounds have been planned.
    pub fn choke_rounds(&self) -> (n: u64)
        ensures
            n == self@.rounds,
    {
        self.choker.rounds_planned()
    }

    /// Whether another connection can be given an id and counted.
    pub fn can_seat(&self) -> (r: bool)
        ensures
            r == (self@.next_id < u64::MAX && self@.peers.len() + 1 < u32::MAX),
    {
        self.next_id < u64::MAX && (self.peers.len() as u64) < (u32::MAX - 1) as u64
    }

    /// Whether `len` more bytes served to a peer can be counted.
    pub fn can_count(&self, id: u64, len: u64) -> (r: bool)
        ensures
            r == (self@.connected(id) ==> self@.peers[self@.find(id)].uploaded + len <= u64::MAX),
    {
        let i: usize = self.find(id);
        i >= self.peers.len() || self.peers[i].uploaded <= u64::MAX - len
    }

    /// Our side of the handshake: we speak the extension protocol.
    fn our_handshake(&self) -> (h: Handshake)
        ensures
            greets(self@, h),
    {
        Handshake {
            info_hash: self.info_hash,
            peer_id: self.peer_id,
            extensions: Extensions { extended: true, fast: false },
        }
    }

    /// What to greet a peer that was dialed with, unless it is banned.
    pub fn greet(&self, remote: DestHash) -> (r: Result<Handshake, AttachError>)
        ensures
            match r {
                Ok(h) => !self@.standing.banned.contains(remote) && greets(self@, h),
                Err(e) => e == AttachError::Banned && self@.standing.banned.contains(remote),
            },
    {
        if self.is_banned(remote) {
            return Err(AttachError::Banned);
        }
        Ok(self.our_handshake())
    }

    /// Whether the reply of a peer that was dialed is for this torrent.
    pub fn check_reply(&self, theirs: &Handshake) -> (r: Result<(), AttachError>)
        ensures
            match r {
                Ok(()) => theirs.info_hash@ == self@.info_hash,
                Err(e) => e == AttachError::WrongTorrent && theirs.info_hash@ != self@.info_hash,
            },
    {
        if bytes_eq(theirs.info_hash.as_slice(), self.info_hash.as_slice()) {
            Ok(())
        } else {
            Err(AttachError::WrongTorrent)
        }
    }

    /// What to answer an accepted peer whose handshake has been read: nothing
    /// if it is for another torrent, or if the peer is banned.
    pub fn answer(&self, remote: DestHash, theirs: &Handshake) -> (r: Result<
        Handshake,
        AttachError,
    >)
        ensures
            match r {
                Ok(h) => theirs.info_hash@ == self@.info_hash && !self@.standing.banned.contains(
                    remote,
                ) && greets(self@, h),
                Err(AttachError::WrongTorrent) => theirs.info_hash@ != self@.info_hash,
                Err(e) => e == AttachError::Banned && theirs.info_hash@ == self@.info_hash
                    && self@.standing.banned.contains(remote),
            },
    {
        match self.check_reply(theirs) {
            Ok(()) => self.greet(remote),
            Err(e) => Err(e),
        }
    }

    /// Count a peer that reached us and has been answered.
    pub fn note_inbound(&mut self)
        ensures
            old(self).inv() ==> final(self).inv(),
            final(self)@ == (World { inbound: wrapping(old(self)@.inbound + 1), ..old(self)@ }),
    {
        self.inbound = wrapping_sum(self.inbound, 1);
    }

    /// Our extension handshake payload: advertise peer exchange and metadata,
    /// and the metadata size if we hold the info dictionary.
    fn our_extension_handshake(&self) -> (v: Vec<u8>)
        ensures
            v@ == encoding(Tree::Dict(root_entries(our_offer(self@.raw_info)))),
    {
        let mut ids: Vec<(String, u8)> = Vec::new();
        ids.push((I2P_PEX.to_owned(), OUR_PEX_ID));
        ids.push((UT_METADATA.to_owned(), OUR_METADATA_ID));
        let metadata_size: Option<usize> = if self.raw_info.len() == 0 {
            None
        } else {
            Some(self.raw_info.len())
        };
        let hs = extension::Handshake { ids, metadata_size, client: Some(CLIENT_NAME.to_owned()) };
        proof {
            assert(hs@.ids =~= our_offer(self@.raw_info).ids);
        }
        hs.encode()
    }

    /// How many connections a destination holds.
    fn connections(&self, dest: DestHash) -> (n: usize)
        ensures
            n == self@.connections(dest),
    {
        let mut n: usize = 0;
        let mut k: usize = 0;
        while k < self.peers.len()
            invariant
                k <= self.peers@.len(),
                n == tally(self@.peers, k as int, located(dest)),
                n <= k,
            decreases self.peers.len() - k,
        {
            if same_dest(self.peers[k].dest, dest) {
                n = n + 1;
            }
            k = k + 1;
        }
        n
    }

    /// Seat a peer whose handshake is done: claim a slot, add it to the table,
    /// and queue our opening messages for it (our piece set, and our extension
    /// handshake if the peer speaks the extension protocol). Refused when the
    /// client-wide budget is spent, when the destination was banned (possibly
    /// while its handshake was in flight), and when it already holds its share
    /// of connections; a slot claimed for a peer that is refused is given back.
    pub fn attach(
        &mut self,
        budget: &mut PeerBudget,
        dest: DestHash,
        extended: bool,
        now: u64,
        out: &mut Vec<Outgoing>,
    ) -> (r: Result<u64, AttachError>)
        requires
            old(self).inv(),
            old(self)@.next_id < u64::MAX,
            old(self)@.peers.len() + 1 < u32::MAX,
        ensures
            final(self).inv(),
            final(budget).ceiling() == old(budget).ceiling(),
            final(budget).used() == old(budget).used() + bit(r is Ok),
            match r {
                Ok(id) => old(budget).used() < old(budget).ceiling() && admits(old(self)@, dest)
                    is Ok && id == old(self)@.next_id && turn(*final(self), *final(out)) == opened(
                    turn(*old(self), *old(out)),
                    dest,
                    extended,
                    now,
                ),
                Err(e) => *final(self) == *old(self) && final(out)@ == old(out)@ && (if old(
                    budget,
                ).used() >= old(budget).ceiling() {
                    e == AttachError::NoRoom
                } else {
                    admits(old(self)@, dest) == Err::<(), AttachError>(e)
                }),
            },
    {
        let slot = match budget.claim() {
            Some(s) => s,
            None => return Err(AttachError::NoRoom),
        };
        match self.seat(slot, dest, extended, now, out) {
            Ok(id) => Ok(id),
            Err((slot, e)) => {
                budget.release(slot);
                Err(e)
            },
        }
    }

    /// [`attach`](Torrent::attach) with a slot that is claimed already. A
    /// refusal hands the slot back.
    pub fn seat(
        &mut self,
        slot: PeerSlot,
        dest: DestHash,
        extended: bool,
        now: u64,
        out: &mut Vec<Outgoing>,
    ) -> (r: Result<u64, (PeerSlot, AttachError)>)
        requires
            old(self).inv(),
            old(self)@.next_id < u64::MAX,
            old(self)@.peers.len() + 1 < u32::MAX,
        ensures
            final(self).inv(),
            match r {
                Ok(id) => admits(old(self)@, dest) is Ok && id == old(self)@.next_id && turn(
                    *final(self),
                    *final(out),
                ) == opened(turn(*old(self), *old(out)), dest, extended, now),
                Err((back, e)) => *final(self) == *old(self) && final(out)@ == old(out)@ && back
                    == slot && admits(old(self)@, dest) == Err::<(), AttachError>(e),
            },
    {
        if self.is_banned(dest) {
            return Err((slot, AttachError::Banned));
        }
        if self.connections(dest) >= MAX_CONNECTIONS_PER_DEST {
            return Err((slot, AttachError::DestFull));
        }
        let ghost w0 = self@;
        proof {
            lemma_seated(w0, dest, now);
        }
        let id: u64 = self.next_id;
        self.next_id = id + 1;
        self.reputation.remember(dest, Source::Trusted);
        let n: usize = self.peers.len();
        let has = Bitfield::empty(self.picker.have_field().len());
        self.peers.push(
            Peer {
                id,
                slot,
                dest,
                has,
                peer_choking: true,
                we_choke: true,
                they_interested: false,
                we_interested: false,
                in_flight: Vec::new(),
                strikes: 0,
                last_sent: now,
                last_seen: now,
                uploaded: 0,
                pex_id: None,
                metadata_id: None,
                budget: MetadataRequestBudget::default(),
            },
        );
        proof {
            assert(self.peers@[n as int].state() =~= w0.seating(dest, now).peers[n as int]);
            assert(self@.peers =~= w0.seating(dest, now).peers);
        }
        let ours = self.picker.have_field().as_bytes();
        let field = copy_range(ours, 0, ours.len());
        proof {
            assert(field@ =~= ours@);
        }
        self.say(n, Message::Bitfield(field), out);
        if extended {
            let payload = self.our_extension_handshake();
            self.say(n, Message::Extended { id: 0, payload }, out);
        }
        Ok(id)
    }
}

/// Why a connection is not taken.
#[derive(Clone, Copy, Debug, PartialEq, Eq, Structural)]
pub enum AttachError {
    /// The client-wide budget is spent.
    NoRoom,
    /// The destination already holds its share of connections.
    DestFull,
    /// The destination is banned for the rest of the run.
    Banned,
    /// The peer's handshake names another torrent.
    WrongTorrent,
}

impl AttachError {
    /// What was wrong, in words.
    pub fn message(&self) -> (r: String)
        ensures
            r@ == (match *self {
                AttachError::NoRoom => "no room in the client's peer budget"@,
                AttachError::DestFull
                    => "this destination already holds its share of connections"@,
                AttachError::Banned => "this destination is banned for the rest of the run"@,
                AttachError::WrongTorrent => "peer handshaked a different torrent"@,
            }),
    {
        match self {
            AttachError::NoRoom => "no room in the client's peer budget".to_owned(),
            AttachError::DestFull => {
                "this destination already holds its share of connections".to_owned()
            },
            AttachError::Banned => "this destination is banned for the rest of the run".to_owned(),
            AttachError::WrongTorrent => "peer handshaked a different torrent".to_owned(),
        }
    }
}

/// Why a handshake was given up.
#[derive(Clone, Copy, Debug, PartialEq, Eq, Structural)]
pub enum HandshakeEnd {
    /// The caller is stopping.
    Abandoned,
    /// The deadline passed.
    TimedOut,
}

impl HandshakeEnd {
    /// What was wrong, in words.
    pub fn message(&self) -> (r: String)
        ensures
            r@ == (match *self {
                HandshakeEnd::Abandoned => "handshake abandoned: the swarm is stopping"@,
                HandshakeEnd::TimedOut => "peer did not complete the handshake in time"@,
            }),
    {
        match self {
            HandshakeEnd::Abandoned => "handshake abandoned: the swarm is stopping".to_owned(),
            HandshakeEnd::TimedOut => "peer did not complete the handshake in time".to_owned(),
        }
    }
}

/// The next slice of a handshake exchange: how long the next read or write may
/// block, or why it may not happen at all. Looked at between reads, so that a
/// sweep told to stop is out of a half-finished handshake soon, and a peer that
/// dribbles one byte at a time does not renew its deadline.
pub fn handshake_slice(deadline: u64, now: u64, aborted: bool) -> (r: Result<u64, HandshakeEnd>)
    ensures
        r == (if aborted {
            Err::<u64, HandshakeEnd>(HandshakeEnd::Abandoned)
        } else if now >= deadline {
            Err(HandshakeEnd::TimedOut)
        } else {
            Ok(least(deadline - now, HANDSHAKE_POLL as int) as u64)
        }),
{
    if aborted {
        return Err(HandshakeEnd::Abandoned);
    }
    let left: u64 = elapsed(now, deadline);
    if left == 0 {
        return Err(HandshakeEnd::TimedOut);
    }
    if left < HANDSHAKE_POLL {
        Ok(left)
    } else {
        Ok(HANDSHAKE_POLL)
    }
}

/// The longest frame that the largest message takes: a bitfield, a block, or a
/// metadata piece, with room for the headers.
fn frame_ceiling(num_pieces: u32) -> (n: u32)
    ensures
        n == longest_frame(num_pieces as nat),
{
    let mut n: u32 = byte_len(num_pieces) as u32;
    if n < BLOCK_LEN {
        n = BLOCK_LEN;
    }
    if n < METADATA_PIECE_LEN as u32 {
        n = METADATA_PIECE_LEN as u32;
    }
    n + 256
}

/// The longest frame a peer may send.
pub open spec fn longest_frame(num_pieces: nat) -> nat {
    let field = bytes_for(num_pieces) as int;
    let block = if field < BLOCK_LEN {
        BLOCK_LEN as int
    } else {
        field
    };
    let data = if block < METADATA_PIECE_LEN {
        METADATA_PIECE_LEN as int
    } else {
        block
    };
    (data + 256) as nat
}

/// One more, as far as it can be counted.
pub open spec fn raised(n: u32) -> u32 {
    if n < u32::MAX {
        (n + 1) as u32
    } else {
        n
    }
}

/// Whether a handshake is ours.
pub open spec fn greets(w: World, h: Handshake) -> bool {
    h.info_hash@ == w.info_hash && h.peer_id@ == w.peer_id && h.extensions.extended
        && !h.extensions.fast
}

/// What we advertise.
pub open spec fn our_offer(raw_info: Seq<u8>) -> Offer {
    Offer {
        ids: seq![(I2P_PEX@, OUR_PEX_ID), (UT_METADATA@, OUR_METADATA_ID)],
        metadata_size: if raw_info.len() == 0 {
            None
        } else {
            Some(raw_info.len() as usize)
        },
        client: Some(CLIENT_NAME@),
    }
}

/// Whether a destination may be seated, and if not, why.
pub open spec fn admits(w: World, dest: DestHash) -> Result<(), AttachError> {
    if w.standing.banned.contains(dest) {
        Err(AttachError::Banned)
    } else if w.connections(dest) >= MAX_CONNECTIONS_PER_DEST {
        Err(AttachError::DestFull)
    } else {
        Ok(())
    }
}

/// After a peer is seated: our piece set is queued for it, then our extension
/// handshake if it speaks the protocol.
pub open spec fn opened(t: Turn, dest: DestHash, extended: bool, now: u64) -> Turn {
    let n = t.world.peers.len() as int;
    let u = Turn { world: t.world.seating(dest, now), ..t }.saying(
        n,
        Msg::Bitfield(packed_form(t.world.ledger.have)),
    );
    if extended {
        u.saying(
            n,
            Msg::Extended {
                id: 0,
                payload: encoding(Tree::Dict(root_entries(our_offer(t.world.raw_info)))),
            },
        )
    } else {
        u
    }
}

/// A torrent that has just been started.
pub open spec fn started(
    m: Meta,
    initial_have: Seq<bool>,
    mode: Mode,
    peer_id: Seq<u8>,
    now: u64,
) -> World {
    let n = least(m.pieces.len() as int, u32::MAX as int) as nat;
    World {
        info_hash: m.info_hash,
        peer_id,
        raw_info: m.raw_info,
        max_frame: longest_frame(n) as u32,
        ledger: Ledger {
            piece_length: m.piece_length as nat,
            total_length: m.total_length,
            mode,
            endgame_blocks: DEFAULT_ENDGAME_BLOCKS as nat,
            availability: Seq::new(n, |i: int| 0u32),
            have: Seq::new(n, |i: int| i < initial_have.len() && initial_have[i]),
            priority: Seq::new(n, |i: int| NORMAL_PRIORITY),
            progress: Seq::new(n, |i: int| None::<Blocks>),
        },
        slots: DEFAULT_MAX_UNCHOKED as nat,
        rounds: 0,
        last_choke_round: now,
        choke_interval: DEFAULT_CHOKE_INTERVAL,
        keepalive_interval: DEFAULT_KEEPALIVE_INTERVAL,
        idle_timeout: DEFAULT_IDLE_TIMEOUT,
        request_timeout: DEFAULT_REQUEST_TIMEOUT,
        peers: Seq::empty(),
        next_id: 0,
        standing: Standing {
            known: Seq::empty(),
            banned: Seq::empty(),
            suspicion: Map::empty(),
            suppliers: Map::empty(),
        },
        pex_learned: 0,
        announces_ok: 0,
        announces_failed: 0,
        last_announce_error: None,
        to_drop: Seq::empty(),
        uploaded: 0,
        downloaded: 0,
        inbound: 0,
    }
}

/// The sum, wrapping round.
fn wrapping_sum(a: u64, b: u64) -> (n: u64)
    ensures
        n == wrapping(a + b),
{
    if b <= u64::MAX - a {
        a + b
    } else {
        b - (u64::MAX - a) - 1
    }
}

/// Whether a message is queued for a peer.
fn is_addressed(out: &Vec<Outgoing>, id: u64) -> (r: bool)
    ensures
        r == addressed(sent(out@), id),
{
    let mut k: usize = 0;
    while k < out.len()
        invariant
            k <= out@.len(),
            forall|j: int| 0 <= j < k ==> (#[trigger] sent(out@)[j]).to != id,
        decreases out.len() - k,
    {
        if out[k].to == id {
            proof {
                assert(sent(out@)[k as int].to == id);
            }
            return true;
        }
        k = k + 1;
    }
    false
}

/// Taking a block off a peer's list keeps the books agreed, if the picker's
/// count of it went down with it or was zero.
proof fn lemma_settled(w: World, v: World, i: int, index: u32, block: u32, m: Ledger)
    requires
        agree(w.ledger, w.peers, w.next_id, Seq::empty()),
        0 <= i < w.peers.len(),
        v.peers == (Turn { world: w, out: Seq::empty() }).settled_by(i, index, block).world.peers,
        m.wf(),
        m.have.len() == w.ledger.have.len(),
        m.piece_length == w.ledger.piece_length,
        m.total_length == w.ledger.total_length,
        m.availability == w.ledger.availability,
        forall|p: int, b: int|
            #![trigger outstanding(m, p, b)]
            outstanding(m, p, b) <= outstanding(w.ledger, p, b),
        owes(w.peers[i].in_flight, index as int, block as int) ==> outstanding(
            m,
            index as int,
            block as int,
        ) == 0 || outstanding(m, index as int, block as int) < outstanding(
            w.ledger,
            index as int,
            block as int,
        ),
    ensures
        agree(m, v.peers, w.next_id, Seq::empty()),
{
    let f = w.peers[i].in_flight;
    let x = v.peers[i];
    let e = asked_at(f, index, block, 0);
    lemma_asked_at(f, index, block, 0);
    lemma_owes(f, index, block);
    assert(queue_ok(w.ledger, f));
    if e >= f.len() {
        lemma_fewer(w.ledger, w.peers, w.next_id, m);
    } else {
        assert(v.peers == w.peers.update(i, x));
        let g = x.in_flight;
        assert(g == f.remove(e));
        assert(queue_ok(m, g)) by {
            assert forall|k: int| 0 <= k < g.len() implies (#[trigger] g[k]).piece < m.have.len()
                && g[k].block < m.blocks(g[k].piece as int) by {
                if k < e {
                    assert(g[k] == f[k]);
                } else {
                    assert(g[k] == f[k + 1]);
                }
            }
            assert forall|j: int, k: int| 0 <= j < k < g.len() implies (#[trigger] g[j]).piece != (
            #[trigger] g[k]).piece || g[j].block != g[k].block by {
                let j2 = if j < e {
                    j
                } else {
                    j + 1
                };
                let k2 = if k < e {
                    k
                } else {
                    k + 1
                };
                assert(g[j] == f[j2] && g[k] == f[k2]);
                assert(f[j2].piece != f[k2].piece || f[j2].block != f[k2].block);
            }
        }
        assert forall|p: int, b: int|
            #![trigger outstanding(m, p, b)]
            outstanding(m, p, b) == 0 || outstanding(m, p, b) + bit(owes(f, p, b)) + bit(
                wanted(Seq::empty(), p, b),
            ) <= outstanding(w.ledger, p, b) + bit(owes(g, p, b)) + bit(
                wanted(Seq::empty(), p, b),
            ) by {
            if owes(f, p, b) && !(p == index && b == block) {
                let j = choose|j: int|
                    0 <= j < f.len() && (#[trigger] f[j]).piece == p && f[j].block == b;
                if j < e {
                    assert(g[j] == f[j]);
                } else {
                    assert(g[j - 1] == f[j]);
                }
                assert(owes(g, p, b));
            }
        }
        lemma_step(w.ledger, w.peers, w.next_id, Seq::empty(), m, i, x, Seq::empty());
    }
}

/// After a pick, the books agree but for what is about to be asked.
proof fn lemma_opened(
    l: Ledger,
    m: Ledger,
    peers: Seq<PeerState>,
    next_id: u64,
    has: Seq<bool>,
    want: nat,
)
    requires
        agree(l, peers, next_id, Seq::empty()),
        m == l.after_pick(has, want),
        m.wf(),
        l.countable(),
    ensures
        agree(m, peers, next_id, l.picks(has, want)),
{
    let reqs = l.picks(has, want);
    assert forall|j: int| 0 <= j < peers.len() implies (#[trigger] peers[j]).has.len()
        == m.have.len() && queue_ok(m, peers[j].in_flight) by {
        assert(queue_ok(l, peers[j].in_flight));
        let f = peers[j].in_flight;
        assert forall|k: int| 0 <= k < f.len() implies (#[trigger] f[k]).piece < m.have.len()
            && f[k].block < m.blocks(f[k].piece as int) by {}
    }
    assert forall|p: int| 0 <= p < m.have.len() implies #[trigger] m.availability[p] == holders(
        peers,
        p,
    ) by {
        assert(l.availability[p] == holders(peers, p));
    }
    assert forall|p: int, b: int|
        #![trigger outstanding(m, p, b)]
        outstanding(m, p, b) <= debtors(peers, p, b) + bit(wanted(reqs, p, b)) by {
        lemma_after_pick(l, has, want, p, b);
        assert(outstanding(l, p, b) <= debtors(peers, p, b) + bit(wanted(Seq::empty(), p, b)));
    }
}

/// Asking for a picked block keeps the books agreed.
proof fn lemma_asked(
    t0: Turn,
    v: World,
    i: int,
    reqs: Seq<BlockRequest>,
    k: int,
    now: u64,
    l0: Ledger,
    has: Seq<bool>,
)
    requires
        agree(t0.world.ledger, t0.world.peers, t0.world.next_id, reqs.skip(k)),
        0 <= i < t0.world.peers.len(),
        0 <= k < reqs.len(),
        t0.world.ledger.have == l0.have,
        t0.world.ledger.piece_length == l0.piece_length,
        t0.world.ledger.total_length == l0.total_length,
        v.ledger.wf(),
        t0.world.peers[i].in_flight.len() < PIPELINE_DEPTH,
        exists|b: int| #[trigger] crate::picker::fair_request(l0, has, reqs[k], b),
        v == t0.asking(i, seq![reqs[k]], 1, now).world,
    ensures
        agree(v.ledger, v.peers, v.next_id, reqs.skip(k + 1)),
        v.peers[i].in_flight.len() <= t0.world.peers[i].in_flight.len() + 1,
        v.ledger.have == t0.world.ledger.have,
        v.ledger.piece_length == t0.world.ledger.piece_length,
        v.ledger.total_length == t0.world.ledger.total_length,
        v.standing == t0.world.standing,
        v.peers.len() == t0.world.peers.len(),
        v.next_id == t0.world.next_id,
        v.to_drop == t0.world.to_drop,
        v.rounds == t0.world.rounds,
{
    let w = t0.world;
    let r = reqs[k];
    let b0 = choose|b: int| #[trigger] crate::picker::fair_request(l0, has, reqs[k], b);
    let block = r.begin / BLOCK_LEN;
    assert(block == b0);
    assert(t0.asking(i, seq![r], 0, now) == t0);
    let f = w.peers[i].in_flight;
    let g = v.peers[i].in_flight;
    lemma_asked_at(f, r.index, block, 0);
    lemma_owes(f, r.index, block);
    assert(queue_ok(w.ledger, f));
    let e = asked_at(f, r.index, block, 0);
    assert(v.peers == w.peers.update(i, v.peers[i]));
    lemma_failed_counts(w.ledger, r.index as int, block as int, 0, 0);
    assert(queue_ok(v.ledger, g)) by {
        if e >= f.len() {
            assert(g == f.push(Asked { piece: r.index, block, at: now }));
        } else {
            assert(g == f.update(e, Asked { piece: r.index, block, at: now }));
        }
        assert forall|x: int| 0 <= x < g.len() implies (#[trigger] g[x]).piece
            < v.ledger.have.len() && g[x].block < v.ledger.blocks(g[x].piece as int) by {
            if x < f.len() && x != e {
                assert(g[x] == f[x]);
            }
        }
        assert forall|x: int, y: int| 0 <= x < y < g.len() implies (#[trigger] g[x]).piece != (
        #[trigger] g[y]).piece || g[x].block != g[y].block by {
            if y < f.len() {
                assert(f[x].piece != f[y].piece || f[x].block != f[y].block);
            } else {
                assert(!(f[x].piece == r.index && f[x].block == block));
            }
        }
    }
    assert forall|p: int, b: int|
        #![trigger outstanding(v.ledger, p, b)]
        outstanding(v.ledger, p, b) == 0 || outstanding(v.ledger, p, b) + bit(owes(f, p, b)) + bit(
            wanted(reqs.skip(k), p, b),
        ) <= outstanding(w.ledger, p, b) + bit(owes(g, p, b)) + bit(
            wanted(reqs.skip(k + 1), p, b),
        ) by {
        lemma_wanted_skip(reqs, k, p, b);
        lemma_failed_counts(w.ledger, r.index as int, block as int, p, b);
        if owes(f, p, b) {
            let j = choose|j: int|
                0 <= j < f.len() && (#[trigger] f[j]).piece == p && f[j].block == b;
            assert(g[j].piece == p && g[j].block == b);
        }
        if owes(g, p, b) && !(p == r.index && b == block) {
            let j = choose|j: int|
                0 <= j < g.len() && (#[trigger] g[j]).piece == p && g[j].block == b;
            assert(f[j].piece == p && f[j].block == b);
        }
        if e >= f.len() {
            assert(g[f.len() as int].piece == r.index && g[f.len() as int].block == block);
            assert(owes(g, r.index as int, block as int));
        }
    }
    lemma_step(
        w.ledger,
        w.peers,
        w.next_id,
        reqs.skip(k),
        v.ledger,
        i,
        v.peers[i],
        reqs.skip(k + 1),
    );
}

} // verus!
