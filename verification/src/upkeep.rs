//! How a torrent starts, what the clock does to it, and what a peer leaves
//! behind.
use vstd::prelude::*;
#[allow(unused_imports)]
use vstd::string::*;
use crate::bencode::{encoding, Tree};
use crate::bitfield::field_in;
use crate::dest::DestHash;
use crate::extension::{id_listed, offer_in};
use crate::metadata::{message_bytes, message_in, MetaMsg};
use crate::metainfo::Meta;
use crate::pex::pex_entries;
use crate::picker::Mode;
use crate::reputation::{Source, Standing};
use crate::session::{law_heard_peer_is_not_silent, lemma_picks_apart};
use crate::torrent::{longest_frame, our_offer, started};
use crate::wire::{BlockRequest, Msg, BLOCK_LEN};
use crate::world::{
    aged, asked_at, held_by, held_by_any, keepalives, law_silent_peer_is_dropped,
    law_unanswering_peer_is_dropped, lemma_asked_at, lemma_chased_fresh, lemma_choke_round_keeps,
    lemma_filled_keeps, lemma_owes, lemma_peer_at, lemma_releasing, metadata_reply, outstanding,
    owes, peer_at, queue_ok, shared_peers, silent, since, Asked, PeerState, Sent, Turn, World,
};

verus! {

// ---------------------------------------------------------------------------
// Starting.

/// How a torrent starts: with the pieces it is told are there and no others, no
/// peer, nobody known, nothing counted, every piece wanted alike, four upload
/// slots, an endgame of 32 blocks, a choke round every ten seconds, a keep-alive
/// after a hundred, a request given up after ninety and a peer after three
/// hundred.
pub proof fn law_how_a_torrent_starts(
    m: Meta,
    initial_have: Seq<bool>,
    mode: Mode,
    peer_id: Seq<u8>,
    now: u64,
)
    requires
        m.pieces.len() <= u32::MAX,
    ensures
        ({
            let w = started(m, initial_have, mode, peer_id, now);
            let l = w.ledger;
            &&& w.info_hash == m.info_hash && w.peer_id == peer_id && w.raw_info == m.raw_info
            &&& l.piece_length == m.piece_length && l.total_length == m.total_length
            &&& l.mode == mode && l.endgame_blocks == 32
            &&& l.have.len() == m.pieces.len() && l.availability.len() == m.pieces.len()
            &&& l.priority.len() == m.pieces.len() && l.progress.len() == m.pieces.len()
            &&& forall|i: int|
                0 <= i < m.pieces.len() ==> (#[trigger] l.have[i] <==> i < initial_have.len()
                    && initial_have[i])
            &&& forall|i: int| 0 <= i < m.pieces.len() ==> #[trigger] l.availability[i] == 0
            &&& forall|i: int| 0 <= i < m.pieces.len() ==> #[trigger] l.priority[i] == 1
            &&& forall|i: int| 0 <= i < m.pieces.len() ==> (#[trigger] l.progress[i]) is None
            &&& w.slots == 4 && w.rounds == 0 && w.last_choke_round == now
            &&& w.choke_interval == 10_000 && w.keepalive_interval == 100_000
            &&& w.idle_timeout == 300_000 && w.request_timeout == 90_000
            &&& w.peers.len() == 0 && w.next_id == 0 && w.to_drop.len() == 0
            &&& w.standing.known.len() == 0 && w.standing.banned.len() == 0
            &&& w.standing.suspicion == Map::<DestHash, u32>::empty()
            &&& w.standing.suppliers == Map::<(u32, u32), DestHash>::empty()
            &&& w.uploaded == 0 && w.downloaded == 0 && w.inbound == 0 && w.pex_learned == 0
            &&& w.announces_ok == 0 && w.announces_failed == 0 && w.last_announce_error is None
        }),
{
}

/// A frame may be as long as a block and a piece set of the torrent are, and
/// 256 bytes more.
pub proof fn law_longest_frame(n: nat)
    ensures
        n <= 131_072 ==> longest_frame(n) == 16_640,
        n > 131_072 ==> longest_frame(n) == (n + 7) / 8 + 256,
{
}

/// What we advertise: peer exchange under 1, metadata under 2, the size of the
/// metadata if we have it, and who we are.
pub proof fn law_what_we_advertise(raw_info: Seq<u8>)
    requires
        raw_info.len() <= usize::MAX,
    ensures
        our_offer(raw_info).ids == seq![("i2p_pex"@, 1u8), ("ut_metadata"@, 2u8)],
        our_offer(raw_info).client == Some("clove/0.1"@),
        raw_info.len() == 0 ==> our_offer(raw_info).metadata_size is None,
        raw_info.len() > 0 ==> our_offer(raw_info).metadata_size == Some(raw_info.len() as usize),
{
}

/// A piece of the metadata is its 16384 bytes from there on, or what is left of
/// it, with the size of the whole; one that lies beyond the end is refused.
pub proof fn law_metadata_piece_is_cut_out(raw: Seq<u8>, piece: u32)
    requires
        raw.len() <= u32::MAX,
    ensures
        ({
            let from = piece as int * 16384;
            let to = if from + 16384 < raw.len() {
                from + 16384
            } else {
                raw.len() as int
            };
            metadata_reply(raw, piece) == (if from >= raw.len() {
                MetaMsg::Reject { piece }
            } else {
                MetaMsg::Data {
                    piece,
                    total_size: raw.len() as u32,
                    data: raw.subrange(from, to),
                }
            })
        }),
{
}

// ---------------------------------------------------------------------------
// The clock.

/// A choke round is held once the interval has gone by since the last, and the
/// clock starts again from it; before that nothing happens.
pub proof fn law_choke_rounds_keep_their_interval(t: Turn, now: u64)
    ensures
        ({
            let w = t.world;
            let due = now >= w.last_choke_round && now - w.last_choke_round >= w.choke_interval;
            &&& due ==> t.choke_tick(now) == (Turn {
                world: World { last_choke_round: now, ..w },
                ..t
            }).choke_round()
            &&& !due && w.choke_interval > 0 ==> t.choke_tick(now) == t
        }),
{
}

proof fn lemma_aged(f: Seq<Asked>, n: int, now: u64, limit: u64, live: bool, a: Asked)
    requires
        0 <= n <= f.len(),
    ensures
        aged(f, n, now, limit, live).contains(a) <==> f.take(n).contains(a) && (since(a.at, now)
            < limit) == live,
    decreases n,
{
    let v = aged(f, n, now, limit, live);
    if n > 0 {
        lemma_aged(f, n - 1, now, limit, live, a);
        let u = aged(f, n - 1, now, limit, live);
        let s = f.take(n - 1);
        assert(f.take(n) =~= s.push(f[n - 1]));
        if u.contains(a) {
            let k = choose|k: int| 0 <= k < u.len() && u[k] == a;
            assert(v[k] == a);
        }
        if s.contains(a) {
            let k = choose|k: int| 0 <= k < s.len() && s[k] == a;
            assert(f.take(n)[k] == a);
        }
        if f[n - 1] == a {
            assert(f.take(n)[n - 1] == a);
            if (since(a.at, now) < limit) == live {
                assert(v.last() == a);
            }
        }
        if v.contains(a) {
            let k = choose|k: int| 0 <= k < v.len() && v[k] == a;
            if k < u.len() {
                assert(u[k] == a);
            }
        }
        if f.take(n).contains(a) && f[n - 1] != a {
            let k = choose|k: int| 0 <= k < n && f.take(n)[k] == a;
            assert(s[k] == a);
        }
    } else {
        assert(f.take(0) =~= Seq::empty());
    }
}

/// A tick gives up the requests that have gone unanswered for as long as the
/// timeout is, and keeps the others. Giving any up is a strike, and the third
/// strike is the last: the peer is asked for nothing more.
pub proof fn law_unanswered_requests_are_a_strike(t: Turn, i: int, now: u64, a: Asked)
    requires
        0 <= i < t.world.peers.len(),
        t.world.peers[i].in_flight.contains(a),
        t.world.peers[i].strikes < u32::MAX,
        t.world.request_timeout > 0,
    ensures
        ({
            let p = t.world.peers[i];
            let limit = t.world.request_timeout;
            let overdue = |x: Asked| now as int - x.at >= limit;
            &&& overdue(a) ==> (t.strikes_out(i, now) <==> p.strikes >= 2)
            &&& overdue(a) && p.strikes >= 2 ==> {
                let q = t.chased_one(i, now).world.peers[i];
                &&& q.strikes == p.strikes + 1
                &&& !q.in_flight.contains(a)
                &&& forall|x: Asked| #[trigger]
                    q.in_flight.contains(x) <==> p.in_flight.contains(x) && !overdue(x)
                &&& t.chased_one(i, now).out == t.out
            }
            &&& (forall|x: Asked| #[trigger] p.in_flight.contains(x) ==> !overdue(x))
                ==> !t.strikes_out(i, now) && t.chased_one(i, now) == t.filled(i, now)
        }),
{
    let p = t.world.peers[i];
    let f = p.in_flight;
    let n = f.len() as int;
    let limit = t.world.request_timeout;
    assert(f.take(n) =~= f);
    let gone = aged(f, n, now, limit, false);
    let kept = aged(f, n, now, limit, true);
    lemma_aged(f, n, now, limit, false, a);
    lemma_aged(f, n, now, limit, true, a);
    if now as int - a.at >= limit {
        assert(gone.contains(a));
        assert(gone.len() > 0);
        if p.strikes >= 2 {
            let q = t.chased_one(i, now).world.peers[i];
            assert(q.in_flight == kept);
            assert forall|x: Asked| #[trigger] q.in_flight.contains(x) <==> f.contains(x) && !(
            now as int - x.at >= limit) by {
                lemma_aged(f, n, now, limit, true, x);
            }
        }
    }
    if forall|x: Asked| #[trigger] f.contains(x) ==> !(now as int - x.at >= limit) {
        if gone.len() > 0 {
            let x = gone[0];
            lemma_aged(f, n, now, limit, false, x);
            assert(gone.contains(x));
            assert(f.contains(x));
        }
    }
}

// ---------------------------------------------------------------------------
// Verdicts.

/// What a verdict on a piece does to those who supplied it: they are credited
/// if it verified and blamed if it failed, by the number of its blocks; and who
/// is to be dropped for it are those whose destination is banned for it, and
/// nobody else.
pub proof fn law_verdict_falls_on_the_suppliers(t: Turn, index: u32, id: u64)
    ensures
        ({
            let w = t.world;
            let n = w.ledger.blocks(index as int) as int;
            let bad = t.piece_judged(index, false).world;
            &&& t.piece_judged(index, true).world.standing == w.standing.crediting(index, n)
            &&& bad.standing == w.standing.blaming(index, n)
            &&& bad.to_drop.contains(id) <==> w.to_drop.contains(id) || exists|i: int|
                0 <= i < w.peers.len() && (#[trigger] w.peers[i]).id == id
                    && w.standing.culprits(index, n).contains(w.peers[i].dest)
        }),
{
    let w = t.world;
    let n = w.ledger.blocks(index as int) as int;
    let c = w.standing.culprits(index, n);
    let h = held_by_any(w.peers, c, c.len() as int);
    lemma_held_by_any_only(w.peers, c, c.len() as int, id);
    assert(c.take(c.len() as int) =~= c);
    let d = w.to_drop + h;
    if w.to_drop.contains(id) {
        let k = choose|k: int| 0 <= k < w.to_drop.len() && w.to_drop[k] == id;
        assert(d[k] == id);
    }
    if h.contains(id) {
        let k = choose|k: int| 0 <= k < h.len() && h[k] == id;
        assert(d[w.to_drop.len() + k] == id);
    }
    if d.contains(id) && !w.to_drop.contains(id) {
        let k = choose|k: int| 0 <= k < d.len() && d[k] == id;
        if k < w.to_drop.len() {
            assert(w.to_drop[k] == id);
        }
        assert(h[k - w.to_drop.len()] == id);
    }
}

proof fn lemma_held_by_only(peers: Seq<PeerState>, dest: DestHash, n: int, id: u64)
    requires
        0 <= n <= peers.len(),
    ensures
        held_by(peers, dest, n).contains(id) <==> exists|i: int|
            0 <= i < n && (#[trigger] peers[i]).id == id && peers[i].dest == dest,
    decreases n,
{
    let v = held_by(peers, dest, n);
    if n > 0 {
        lemma_held_by_only(peers, dest, n - 1, id);
        let u = held_by(peers, dest, n - 1);
        if u.contains(id) {
            let k = choose|k: int| 0 <= k < u.len() && u[k] == id;
            assert(v[k] == id);
        }
        if peers[n - 1].id == id && peers[n - 1].dest == dest {
            assert(v.last() == id);
        }
        if v.contains(id) {
            let k = choose|k: int| 0 <= k < v.len() && v[k] == id;
            if k < u.len() {
                assert(u[k] == id);
            } else {
                assert(peers[n - 1].id == id);
            }
        }
    }
}

proof fn lemma_held_by_any_only(peers: Seq<PeerState>, dests: Seq<DestHash>, n: int, id: u64)
    requires
        0 <= n <= dests.len(),
    ensures
        held_by_any(peers, dests, n).contains(id) <==> exists|i: int|
            0 <= i < peers.len() && (#[trigger] peers[i]).id == id && dests.take(n).contains(
                peers[i].dest,
            ),
    decreases n,
{
    let v = held_by_any(peers, dests, n);
    if n > 0 {
        lemma_held_by_any_only(peers, dests, n - 1, id);
        let u = held_by_any(peers, dests, n - 1);
        let h = held_by(peers, dests[n - 1], peers.len() as int);
        lemma_held_by_only(peers, dests[n - 1], peers.len() as int, id);
        let s = dests.take(n - 1);
        let r = dests.take(n);
        assert(r =~= s.push(dests[n - 1]));
        if u.contains(id) {
            let k = choose|k: int| 0 <= k < u.len() && u[k] == id;
            assert(v[k] == id);
            let i = choose|i: int|
                0 <= i < peers.len() && (#[trigger] peers[i]).id == id && s.contains(peers[i].dest);
            let j = choose|j: int| 0 <= j < s.len() && s[j] == peers[i].dest;
            assert(r[j] == peers[i].dest);
        }
        if h.contains(id) {
            let k = choose|k: int| 0 <= k < h.len() && h[k] == id;
            assert(v[u.len() + k] == id);
            let i = choose|i: int|
                0 <= i < peers.len() && (#[trigger] peers[i]).id == id && peers[i].dest
                    == dests[n - 1];
            assert(r[n - 1] == peers[i].dest);
        }
        if v.contains(id) {
            let k = choose|k: int| 0 <= k < v.len() && v[k] == id;
            if k < u.len() {
                assert(u[k] == id);
            } else {
                assert(h[k - u.len()] == id);
            }
        }
        if exists|i: int|
            0 <= i < peers.len() && (#[trigger] peers[i]).id == id && r.contains(peers[i].dest) {
            let i = choose|i: int|
                0 <= i < peers.len() && (#[trigger] peers[i]).id == id && r.contains(peers[i].dest);
            let j = choose|j: int| 0 <= j < r.len() && r[j] == peers[i].dest;
            if j < n - 1 {
                assert(s[j] == peers[i].dest);
            }
        }
    } else {
        assert(dests.take(0) =~= Seq::empty());
    }
}

// ---------------------------------------------------------------------------
// Peers of peers.

proof fn lemma_shared(s: Standing, own: DestHash, n: int, d: DestHash)
    requires
        0 <= n <= s.known.len(),
    ensures
        shared_peers(s, own, n).len() <= 512,
        shared_peers(s, own, n).contains(d) ==> d != own && exists|i: int|
            0 <= i < n && (#[trigger] s.known[i]).dest == d,
        shared_peers(s, own, n).len() < 512 && d != own && (exists|i: int|
            0 <= i < n && (#[trigger] s.known[i]).dest == d) ==> shared_peers(s, own, n).contains(
            d,
        ),
    decreases n,
{
    let v = shared_peers(s, own, n);
    if n > 0 {
        lemma_shared(s, own, n - 1, d);
        let u = shared_peers(s, own, n - 1);
        if v.contains(d) {
            let k = choose|k: int| 0 <= k < v.len() && v[k] == d;
            if k < u.len() {
                assert(u[k] == d);
            } else {
                assert(s.known[n - 1].dest == d);
            }
        }
        if u.contains(d) {
            let k = choose|k: int| 0 <= k < u.len() && u[k] == d;
            assert(v[k] == d);
        }
        if s.known[n - 1].dest == d && u.len() < 512 && d != own {
            assert(v.last() == d);
        }
    }
}

/// A peer that says under which id it takes peer exchange is told, under that
/// id and in one message, of the destinations known but its own: of all of
/// them, unless there are more than 512. One that takes none, or that there is
/// nobody to tell of, is told nothing.
pub proof fn law_newcomer_is_told_of_others(
    t: Turn,
    i: int,
    payload: Seq<u8>,
    now: u64,
    d: DestHash,
)
    requires
        t.world.wf(),
        0 <= i < t.world.peers.len(),
        offer_in(payload) is Ok,
    ensures
        ({
            let p = t.world.peers[i];
            let s = t.world.standing;
            let id = id_listed(offer_in(payload)->Ok_0.ids, "i2p_pex"@);
            let told = shared_peers(s, p.dest, s.known.len() as int);
            let u = t.heard(p.id, Msg::Extended { id: 0, payload }, now);
            let known = exists|k: int| 0 <= k < s.known.len() && (#[trigger] s.known[k]).dest == d;
            &&& u.out == (if id is Some && told.len() > 0 {
                t.out.push(
                    Sent {
                        to: p.id,
                        msg: Msg::Extended {
                            id: id->Some_0,
                            payload: encoding(Tree::Dict(pex_entries(told, Seq::empty()))),
                        },
                    },
                )
            } else {
                t.out
            })
            &&& told.len() <= 512
            &&& told.contains(d) ==> d != p.dest && known
            &&& told.len() < 512 && d != p.dest && known ==> told.contains(d)
        }),
{
    let p = t.world.peers[i];
    lemma_peer_at(t.world.peers, p.id, 0);
    let k = peer_at(t.world.peers, p.id, 0);
    if k < i {
        assert(t.world.peers[k].id != t.world.peers[i].id);
    }
    lemma_shared(t.world.standing, p.dest, t.world.standing.known.len() as int, d);
}

// ---------------------------------------------------------------------------
// Leaving.

/// What a peer that leaves takes with it: its place and nobody else's, one from
/// the count of each piece it had, and one from the count of each block it was
/// asked for. The pieces we hold, and what was counted, stay.
pub proof fn law_what_a_peer_leaves_behind(w: World, i: int, j: int, piece: int, block: int)
    requires
        w.wf(),
        0 <= i < w.peers.len(),
        0 <= j < w.peers.len(),
        0 <= piece < w.ledger.have.len(),
    ensures
        ({
            let p = w.peers[i];
            let v = w.removing(p.id);
            &&& v.peers.len() == w.peers.len() - 1
            &&& j != i ==> v.peers.contains(w.peers[j])
            &&& forall|k: int| 0 <= k < v.peers.len() ==> (#[trigger] v.peers[k]).id != p.id
            &&& v.ledger.have == w.ledger.have
            &&& p.has[piece] && w.ledger.availability[piece] > 0 ==> v.ledger.availability[piece]
                == w.ledger.availability[piece] - 1
            &&& !p.has[piece] ==> v.ledger.availability[piece] == w.ledger.availability[piece]
            &&& outstanding(v.ledger, piece, block) == (if owes(p.in_flight, piece, block)
                && outstanding(w.ledger, piece, block) > 0 {
                outstanding(w.ledger, piece, block) - 1
            } else {
                outstanding(w.ledger, piece, block) as int
            })
            &&& v.uploaded == w.uploaded && v.downloaded == w.downloaded
            &&& v.standing == w.standing
        }),
{
    let p = w.peers[i];
    lemma_peer_at(w.peers, p.id, 0);
    let k = peer_at(w.peers, p.id, 0);
    if k < i {
        assert(w.peers[k].id != w.peers[i].id);
    }
    assert(w.find(p.id) == i);
    let v = w.removing(p.id);
    let n = w.peers.len() as int;
    assert forall|x: int| 0 <= x < v.peers.len() implies (#[trigger] v.peers[x]).id != p.id by {
        if x == i {
            assert(v.peers[x] == w.peers[n - 1]);
            assert(w.peers[i].id != w.peers[n - 1].id);
        } else if x < i {
            assert(w.peers[x].id != w.peers[i].id);
        } else {
            assert(w.peers[i].id != w.peers[x].id);
        }
    }
    if j != i {
        if j == n - 1 {
            assert(v.peers[i] == w.peers[j]);
        } else {
            assert(v.peers[j] == w.peers[j]);
        }
    }
    let l = crate::picker::withdrawn(w.ledger, p.has);
    assert forall|x: int| 0 <= x < l.progress.len() implies #[trigger] l.account_ok(x) by {
        assert(w.ledger.account_ok(x));
    }
    assert(queue_ok(w.ledger, w.peers[i].in_flight));
    assert(p.in_flight.take(p.in_flight.len() as int) =~= p.in_flight);
    lemma_releasing(l, p.in_flight, p.in_flight.len() as int, piece, block);
    assert(outstanding(l, piece, block) == outstanding(w.ledger, piece, block));
}

// ---------------------------------------------------------------------------
// What no message does.

proof fn lemma_interest_keeps(t: Turn, i: int, now: u64)
    requires
        0 <= i < t.world.peers.len(),
    ensures
        ({
            let u = t.interested(i, now).world;
            let p = t.world.peers[i];
            &&& u == (World { ledger: u.ledger, peers: u.peers, ..t.world })
            &&& u.peers.len() == t.world.peers.len()
            &&& u.peers[i] == (PeerState {
                in_flight: u.peers[i].in_flight,
                we_interested: u.peers[i].we_interested,
                ..p
            })
            &&& forall|j: int|
                0 <= j < u.peers.len() && j != i ==> #[trigger] u.peers[j] == t.world.peers[j]
        }),
{
    let p = t.world.peers[i];
    let u = t.with_peer(i, PeerState { we_interested: true, ..p }).saying(i, Msg::Interested);
    lemma_filled_keeps(u, i, now);
}

spec fn concerns(a: World, u: World, i: int, rechoked: bool) -> bool {
    let p = a.peers[i];
    let q = u.peers[i];
    &&& u.peers.len() == a.peers.len()
    &&& q.id == p.id && q.dest == p.dest && q.last_seen == p.last_seen
    &&& q.uploaded == p.uploaded && q.last_sent == p.last_sent
    &&& forall|j: int|
        0 <= j < u.peers.len() && j != i ==> #[trigger] u.peers[j] == (PeerState {
            we_choke: u.peers[j].we_choke,
            ..a.peers[j]
        })
    &&& !rechoked ==> forall|j: int|
        0 <= j < u.peers.len() ==> (#[trigger] u.peers[j]).we_choke == a.peers[j].we_choke
    &&& u.uploaded == a.uploaded && u.downloaded == a.downloaded
    &&& u.announces_ok == a.announces_ok && u.inbound == a.inbound
    &&& u.next_id == a.next_id && u.to_drop == a.to_drop && u.slots == a.slots
}

proof fn lemma_choke_concerns(a: Turn, i: int, yes: bool, now: u64)
    requires
        0 <= i < a.world.peers.len(),
    ensures
        concerns(
            a.world,
            a.handled(
                i,
                if yes {
                    Msg::Interested
                } else {
                    Msg::NotInterested
                },
                now,
            ).world,
            i,
            true,
        ),
{
    let q = a.world.peers[i];
    lemma_choke_round_keeps(a.with_peer(i, PeerState { they_interested: yes, ..q }));
}

proof fn lemma_set_concerns(a: Turn, b: Turn, i: int, now: u64)
    requires
        0 <= i < a.world.peers.len(),
        b.world == (World { ledger: b.world.ledger, peers: b.world.peers, ..a.world }),
        b.world.peers == a.world.peers.update(
            i,
            PeerState { has: b.world.peers[i].has, ..a.world.peers[i] },
        ),
    ensures
        concerns(a.world, b.interested(i, now).world, i, false),
{
    lemma_interest_keeps(b, i, now);
}

proof fn lemma_block_concerns(a: Turn, i: int, index: u32, begin: u32, len: nat, now: u64)
    requires
        0 <= i < a.world.peers.len(),
    ensures
        concerns(a.world, a.block_arrived(i, index, begin, len, now).world, i, false),
{
    let q = a.world.peers[i];
    let b = a.with_peer(i, PeerState { strikes: 0, ..q });
    let c = b.settled_by(i, index, begin / BLOCK_LEN);
    lemma_filled_keeps(c, i, now);
}

proof fn lemma_unchoke_concerns(a: Turn, i: int, now: u64)
    requires
        0 <= i < a.world.peers.len(),
    ensures
        concerns(a.world, a.handled(i, Msg::Unchoke, now).world, i, false),
{
    let q = a.world.peers[i];
    lemma_filled_keeps(a.with_peer(i, PeerState { peer_choking: false, ..q }), i, now);
}

proof fn lemma_extended_concerns(a: Turn, i: int, id: u8, payload: Seq<u8>, now: u64)
    requires
        0 <= i < a.world.peers.len(),
    ensures
        concerns(a.world, a.extended(i, id, payload, now).world, i, false),
{
}

proof fn lemma_handled_concerns(a: Turn, i: int, msg: Msg, now: u64)
    requires
        0 <= i < a.world.peers.len(),
    ensures
        concerns(
            a.world,
            a.handled(i, msg, now).world,
            i,
            msg is Interested || msg is NotInterested,
        ),
{
    let l = a.world.ledger;
    match msg {
        Msg::Unchoke => lemma_unchoke_concerns(a, i, now),
        Msg::Interested => lemma_choke_concerns(a, i, true, now),
        Msg::NotInterested => lemma_choke_concerns(a, i, false, now),
        Msg::Extended { id, payload } => lemma_extended_concerns(a, i, id, payload, now),
        Msg::Have(piece) => {
            if piece < l.have.len() && !a.world.peers[i].has[piece as int] {
                lemma_set_concerns(a, a.gaining(i, piece as int), i, now);
            }
        },
        Msg::Bitfield(bytes) => {
            if let Some(field) = field_in(bytes, l.have.len()) {
                lemma_set_concerns(a, a.holding_now(i, field), i, now);
            }
        },
        Msg::HaveAll => {
            let field = Seq::new(l.have.len(), |x: int| true);
            lemma_set_concerns(a, a.holding_now(i, field), i, now);
        },
        Msg::HaveNone => {
            let field = Seq::new(l.have.len(), |x: int| false);
            lemma_set_concerns(a, a.holding_now(i, field), i, now);
        },
        Msg::Piece { index, begin, block } => {
            lemma_block_concerns(a, i, index, begin, block.len(), now);
        },
        _ => {},
    }
}

proof fn lemma_heard(t: Turn, i: int, msg: Msg, now: u64)
    requires
        t.world.wf(),
        0 <= i < t.world.peers.len(),
    ensures
        t.heard(t.world.peers[i].id, msg, now) == t.with_peer(
            i,
            PeerState { last_seen: now, ..t.world.peers[i] },
        ).handled(i, msg, now),
{
    let p = t.world.peers[i];
    lemma_peer_at(t.world.peers, p.id, 0);
    let k = peer_at(t.world.peers, p.id, 0);
    if k < i {
        assert(t.world.peers[k].id != t.world.peers[i].id);
    }
}

/// A message changes at the most the peer it is from, and who is choked: every
/// message is proof of life of its sender and keeps the place and the address of
/// everybody. What was counted stays as it is. Only interest, said or withdrawn,
/// has somebody choked or unchoked.
pub proof fn law_message_concerns_its_sender(t: Turn, i: int, j: int, msg: Msg, now: u64)
    requires
        t.world.wf(),
        0 <= i < t.world.peers.len(),
        0 <= j < t.world.peers.len(),
    ensures
        ({
            let w = t.world;
            let u = t.heard(w.peers[i].id, msg, now).world;
            &&& u.peers.len() == w.peers.len()
            &&& u.peers[i].last_seen == now
            &&& u.peers[i].id == w.peers[i].id && u.peers[i].dest == w.peers[i].dest
            &&& u.peers[i].uploaded == w.peers[i].uploaded
            &&& u.peers[i].last_sent == w.peers[i].last_sent
            &&& j != i ==> u.peers[j] == (PeerState { we_choke: u.peers[j].we_choke, ..w.peers[j] })
            &&& !(msg is Interested) && !(msg is NotInterested) ==> u.peers[j].we_choke
                == w.peers[j].we_choke
            &&& u.uploaded == w.uploaded && u.downloaded == w.downloaded
            &&& u.announces_ok == w.announces_ok && u.inbound == w.inbound
            &&& u.next_id == w.next_id && u.to_drop == w.to_drop && u.slots == w.slots
        }),
{
    let a = t.with_peer(i, PeerState { last_seen: now, ..t.world.peers[i] });
    lemma_heard(t, i, msg, now);
    lemma_handled_concerns(a, i, msg, now);
    assert(a.world.peers[i].last_seen == now);
    if j != i {
        assert(a.world.peers[j] == t.world.peers[j]);
    }
}

/// A message from nobody who is connected does nothing.
pub proof fn law_message_from_nobody(t: Turn, id: u64, msg: Msg, now: u64)
    requires
        forall|k: int| 0 <= k < t.world.peers.len() ==> (#[trigger] t.world.peers[k]).id != id,
    ensures
        t.heard(id, msg, now) == t,
{
    lemma_peer_at(t.world.peers, id, 0);
}

/// A request, a cancel, a reject, a hint and a keep-alive change nothing but
/// when the peer was last heard, and have nothing sent.
pub proof fn law_messages_that_do_nothing(t: Turn, i: int, msg: Msg, now: u64)
    requires
        t.world.wf(),
        0 <= i < t.world.peers.len(),
        msg is KeepAlive || msg is Request || msg is Cancel || msg is RejectRequest
            || msg is SuggestPiece || msg is AllowedFast,
    ensures
        ({
            let p = t.world.peers[i];
            let u = t.heard(p.id, msg, now);
            &&& u.out == t.out
            &&& u.world == (World {
                peers: t.world.peers.update(i, PeerState { last_seen: now, ..p }),
                ..t.world
            })
        }),
{
    lemma_heard(t, i, msg, now);
}

// ---------------------------------------------------------------------------
// Requests.

/// Those of the first `n` requests for blocks that are not owed.
pub open spec fn not_owed(f: Seq<Asked>, reqs: Seq<BlockRequest>, n: int) -> Seq<BlockRequest>
    decreases n,
{
    if n <= 0 {
        Seq::empty()
    } else if owes(f, reqs[n - 1].index as int, reqs[n - 1].begin as int / 16384) {
        not_owed(f, reqs, n - 1)
    } else {
        not_owed(f, reqs, n - 1).push(reqs[n - 1])
    }
}

spec fn among(reqs: Seq<BlockRequest>, n: int, piece: int, block: int) -> bool {
    exists|k: int|
        0 <= k < n && (#[trigger] reqs[k]).index == piece && reqs[k].begin as int / 16384 == block
}

proof fn lemma_owes_push(f: Seq<Asked>, a: Asked, piece: int, block: int)
    ensures
        owes(f.push(a), piece, block) <==> owes(f, piece, block) || (a.piece == piece && a.block
            == block),
{
    let g = f.push(a);
    if owes(f, piece, block) {
        let k = choose|k: int|
            0 <= k < f.len() && (#[trigger] f[k]).piece == piece && f[k].block == block;
        assert(g[k] == f[k]);
    }
    if a.piece == piece && a.block == block {
        assert(g[f.len() as int] == a);
    }
    if owes(g, piece, block) {
        let k = choose|k: int|
            0 <= k < g.len() && (#[trigger] g[k]).piece == piece && g[k].block == block;
        if k < f.len() {
            assert(f[k] == g[k]);
        }
    }
}

proof fn lemma_owes_update(f: Seq<Asked>, e: int, a: Asked, piece: int, block: int)
    requires
        0 <= e < f.len(),
        f[e].piece == a.piece,
        f[e].block == a.block,
    ensures
        owes(f.update(e, a), piece, block) <==> owes(f, piece, block),
{
    let g = f.update(e, a);
    if owes(f, piece, block) {
        let k = choose|k: int|
            0 <= k < f.len() && (#[trigger] f[k]).piece == piece && f[k].block == block;
        assert(g[k].piece == piece && g[k].block == block);
    }
    if owes(g, piece, block) {
        let k = choose|k: int|
            0 <= k < g.len() && (#[trigger] g[k]).piece == piece && g[k].block == block;
        assert(f[k].piece == piece && f[k].block == block);
    }
}

proof fn lemma_among_step(reqs: Seq<BlockRequest>, n: int, piece: int, block: int)
    requires
        n > 0,
    ensures
        among(reqs, n, piece, block) <==> among(reqs, n - 1, piece, block) || (reqs[n - 1].index
            == piece && reqs[n - 1].begin as int / 16384 == block),
{
    if among(reqs, n - 1, piece, block) {
        let k = choose|k: int|
            0 <= k < n - 1 && (#[trigger] reqs[k]).index == piece && reqs[k].begin as int / 16384
                == block;
        assert(reqs[k].index == piece);
    }
    if reqs[n - 1].index == piece && reqs[n - 1].begin as int / 16384 == block {
        assert(reqs[n - 1].index == piece);
    }
}

proof fn lemma_asking_some(
    t: Turn,
    i: int,
    reqs: Seq<BlockRequest>,
    n: int,
    now: u64,
    piece: int,
    block: int,
)
    requires
        0 <= i < t.world.peers.len(),
        0 <= n <= reqs.len(),
        forall|a: int, b: int|
            0 <= a < b < reqs.len() ==> (#[trigger] reqs[a]).index != (#[trigger] reqs[b]).index
                || reqs[a].begin / BLOCK_LEN != reqs[b].begin / BLOCK_LEN,
    ensures
        ({
            let u = t.asking(i, reqs, n, now);
            let p = t.world.peers[i];
            let asked = not_owed(p.in_flight, reqs, n);
            &&& u.out == t.out + Seq::new(
                asked.len(),
                |k: int| Sent { to: p.id, msg: Msg::Request(asked[k]) },
            )
            &&& u.world.peers.len() == t.world.peers.len()
            &&& u.world.peers[i].id == p.id
            &&& owes(u.world.peers[i].in_flight, piece, block) <==> owes(p.in_flight, piece, block)
                || among(reqs, n, piece, block)
        }),
    decreases n,
{
    let p = t.world.peers[i];
    let u = t.asking(i, reqs, n, now);
    let asked = not_owed(p.in_flight, reqs, n);
    if n > 0 {
        let r = reqs[n - 1];
        let rb = r.begin as int / 16384;
        let v = t.asking(i, reqs, n - 1, now);
        let f = v.world.peers[i].in_flight;
        lemma_asking_some(t, i, reqs, n - 1, now, piece, block);
        lemma_asking_some(t, i, reqs, n - 1, now, r.index as int, rb);
        if among(reqs, n - 1, r.index as int, rb) {
            let k = choose|k: int|
                0 <= k < n - 1 && (#[trigger] reqs[k]).index == r.index && reqs[k].begin as int
                    / 16384 == rb;
            assert(reqs[k].index != reqs[n - 1].index || reqs[k].begin / BLOCK_LEN != reqs[n
                - 1].begin / BLOCK_LEN);
        }
        assert(owes(f, r.index as int, rb) <==> owes(p.in_flight, r.index as int, rb));
        lemma_owes(f, r.index, r.begin / BLOCK_LEN);
        lemma_asked_at(f, r.index, r.begin / BLOCK_LEN, 0);
        let e = asked_at(f, r.index, r.begin / BLOCK_LEN, 0);
        let a = Asked { piece: r.index, block: r.begin / BLOCK_LEN, at: now };
        lemma_among_step(reqs, n, piece, block);
        let before = not_owed(p.in_flight, reqs, n - 1);
        if e < f.len() {
            assert(u.world.peers[i].in_flight == f.update(e, a));
            lemma_owes_update(f, e, a, piece, block);
            if r.index == piece && rb == block {
                assert(owes(f, piece, block));
            }
            assert(asked == before);
        } else {
            assert(u.world.peers[i].in_flight == f.push(a));
            lemma_owes_push(f, a, piece, block);
            assert(asked == before.push(r));
        }
    }
    assert(u.out =~= t.out + Seq::new(
        asked.len(),
        |k: int| Sent { to: p.id, msg: Msg::Request(asked[k]) },
    ));
}

/// A pipeline is topped up to sixteen: a peer that does not choke us, and that
/// interests us, is asked for what the picker picks of its pieces to fill what
/// is free, in that order, but for nothing that it owes us already; and it owes
/// us what it was asked for. A peer that chokes us, that does not interest us or
/// whose pipeline is full is asked for nothing.
pub proof fn law_pipeline_is_topped_up(t: Turn, i: int, now: u64, piece: int, block: int)
    requires
        t.world.wf(),
        0 <= i < t.world.peers.len(),
    ensures
        ({
            let p = t.world.peers[i];
            let u = t.filled(i, now);
            let picks = t.world.ledger.picks(p.has, (16 - p.in_flight.len()) as nat);
            let asked = not_owed(p.in_flight, picks, picks.len() as int);
            if !p.peer_choking && p.we_interested && p.in_flight.len() < 16 {
                &&& u.out == t.out + Seq::new(
                    asked.len(),
                    |k: int| Sent { to: p.id, msg: Msg::Request(asked[k]) },
                )
                &&& owes(u.world.peers[i].in_flight, piece, block) <==> owes(
                    p.in_flight,
                    piece,
                    block,
                ) || exists|k: int|
                    0 <= k < picks.len() && (#[trigger] picks[k]).index == piece
                        && picks[k].begin as int / 16384 == block
            } else {
                u == t
            }
        }),
{
    let p = t.world.peers[i];
    let picks = t.world.ledger.picks(p.has, (16 - p.in_flight.len()) as nat);
    if !p.peer_choking && p.we_interested && p.in_flight.len() < 16 {
        lemma_picks_apart(t.world.ledger, p.has, (16 - p.in_flight.len()) as nat);
        let v = t.booked(
            t.world.ledger.after_pick(p.has, (16 - p.in_flight.len()) as nat),
        );
        lemma_asking_some(v, i, picks, picks.len() as int, now, piece, block);
        assert(among(picks, picks.len() as int, piece, block) <==> exists|k: int|
            0 <= k < picks.len() && (#[trigger] picks[k]).index == piece && picks[k].begin as int
                / 16384 == block);
    }
}

/// A request for metadata is answered under the id that the peer takes it
/// under, with the piece while its ration lasts and a refusal after that; a peer
/// that takes none, and any other message under our id, is answered nothing.
pub proof fn law_metadata_request_is_answered(t: Turn, i: int, payload: Seq<u8>, now: u64)
    requires
        t.world.wf(),
        0 <= i < t.world.peers.len(),
    ensures
        ({
            let p = t.world.peers[i];
            let u = t.heard(p.id, Msg::Extended { id: 2, payload }, now);
            match (message_in(payload), p.metadata_id) {
                (Ok(MetaMsg::Request { piece }), Some(id)) => u.out == t.out.push(
                    Sent {
                        to: p.id,
                        msg: Msg::Extended {
                            id,
                            payload: message_bytes(
                                if p.allowance.allows(now) {
                                    metadata_reply(t.world.raw_info, piece)
                                } else {
                                    MetaMsg::Reject { piece }
                                },
                            ),
                        },
                    },
                ),
                _ => u.out == t.out,
            }
        }),
{
    lemma_heard(t, i, Msg::Extended { id: 2, payload }, now);
}

/// Whoever is seated is counted, under the next id, and known from then on as
/// somebody who can be trusted to be there.
pub proof fn law_seat_is_taken(w: World, dest: DestHash, now: u64)
    requires
        w.next_id < u64::MAX,
    ensures
        w.seating(dest, now).next_id == w.next_id + 1,
        w.seating(dest, now).peers.last().id == w.next_id,
        w.seating(dest, now).standing == w.standing.remembering(dest, Source::Trusted),
        w.seating(dest, now).ledger == w.ledger,
        w.seating(dest, now).peers.last().allowance.used == 0,
{
}

// ---------------------------------------------------------------------------
// Who is dropped.

proof fn lemma_struck_only(t: Turn, n: int, now: u64, id: u64)
    requires
        0 <= n <= t.world.peers.len(),
        t.world.request_timeout > 0,
        t.struck_out(n, now).contains(id),
    ensures
        exists|i: int|
            0 <= i < n && (#[trigger] t.world.peers[i]).id == id && t.strikes_out(i, now),
    decreases n,
{
    let s = t.struck_out(n, now);
    let k = choose|k: int| 0 <= k < s.len() && s[k] == id;
    if n > 0 {
        lemma_chased_fresh(t, n - 1, now, n - 1);
        let u = t.chased(n - 1, now);
        let r = t.struck_out(n - 1, now);
        if k < r.len() {
            assert(r[k] == id);
            lemma_struck_only(t, n - 1, now, id);
        } else {
            assert(u.world.peers[n - 1] == t.world.peers[n - 1]);
            assert(t.strikes_out(n - 1, now));
            assert(t.world.peers[n - 1].id == id);
        }
    }
}

proof fn lemma_one_of_each(w: World, i: int, j: int)
    requires
        w.wf(),
        0 <= i < w.peers.len(),
        0 <= j < w.peers.len(),
        w.peers[i].id == w.peers[j].id,
    ensures
        i == j,
{
    if i < j {
        assert(w.peers[i].id != w.peers[j].id);
    } else if j < i {
        assert(w.peers[j].id != w.peers[i].id);
    }
}

/// Whom a tick drops: who has said nothing for as long as the idle timeout is,
/// who lets a request expire with two strikes already, and who was to be dropped
/// before; and nobody else.
pub proof fn law_whom_a_tick_drops(t: Turn, i: int, now: u64)
    requires
        t.world.wf(),
        0 <= i < t.world.peers.len(),
        t.world.request_timeout > 0,
        t.world.idle_timeout > 0,
        t.world.peers[i].strikes < u32::MAX,
    ensures
        ({
            let p = t.world.peers[i];
            t.dropped_by_tick(now).contains(p.id) <==> now as int - p.last_seen
                >= t.world.idle_timeout || (p.strikes >= 2 && exists|k: int|
                0 <= k < p.in_flight.len() && now as int - (#[trigger] p.in_flight[k]).at
                    >= t.world.request_timeout) || t.world.to_drop.contains(p.id)
        }),
{
    let w = t.world;
    let p = w.peers[i];
    let n = w.peers.len() as int;
    let f = p.in_flight;
    let a = Turn { out: t.out + keepalives(w, n, now), ..t };
    let x = silent(w, n, now);
    let y = a.struck_out(n, now);
    let z = w.to_drop;
    let d = t.dropped_by_tick(now);
    let expired = exists|k: int|
        0 <= k < f.len() && now as int - (#[trigger] f[k]).at >= w.request_timeout;
    let gone = aged(f, f.len() as int, now, w.request_timeout, false);
    assert(f.take(f.len() as int) =~= f);
    if expired {
        let k = choose|k: int|
            0 <= k < f.len() && now as int - (#[trigger] f[k]).at >= w.request_timeout;
        lemma_aged(f, f.len() as int, now, w.request_timeout, false, f[k]);
        assert(f.contains(f[k]));
        assert(gone.contains(f[k]));
        assert(gone.len() > 0);
    }
    if gone.len() > 0 {
        lemma_aged(f, f.len() as int, now, w.request_timeout, false, gone[0]);
        assert(gone.contains(gone[0]));
        let k = choose|k: int| 0 <= k < f.len() && f[k] == gone[0];
        assert(now as int - f[k].at >= w.request_timeout);
    }
    assert(t.strikes_out(i, now) <==> expired && p.strikes >= 2);
    if now as int - p.last_seen >= w.idle_timeout {
        law_silent_peer_is_dropped(t, i, now);
    }
    if t.strikes_out(i, now) {
        law_unanswering_peer_is_dropped(t, i, now);
    }
    if z.contains(p.id) {
        let k = choose|k: int| 0 <= k < z.len() && z[k] == p.id;
        assert(d[x.len() + y.len() + k] == p.id);
    }
    if d.contains(p.id) {
        let k = choose|k: int| 0 <= k < d.len() && d[k] == p.id;
        if k < x.len() {
            assert(x[k] == p.id);
            assert(x.contains(p.id));
            if since(p.last_seen, now) < w.idle_timeout {
                law_heard_peer_is_not_silent(w, i, now);
            }
        } else if k < x.len() + y.len() {
            assert(y[k - x.len()] == p.id);
            lemma_struck_only(a, n, now, p.id);
            let j = choose|j: int|
                0 <= j < n && (#[trigger] a.world.peers[j]).id == p.id && a.strikes_out(j, now);
            lemma_one_of_each(w, i, j);
            assert(a.strikes_out(i, now) == t.strikes_out(i, now));
        } else {
            assert(z[k - x.len() - y.len()] == p.id);
        }
    }
}

/// What settling an event does: a choke round if one is due, and then nobody is
/// left to be dropped.
pub proof fn law_what_settling_does(t: Turn, now: u64)
    ensures
        t.settled(now).world.to_drop.len() == 0,
        t.settled(now).out == t.choke_tick(now).out,
        t.settled(now).world.peers.len() == t.choke_tick(now).world.peers.len(),
        t.settled(now).world.ledger == t.choke_tick(now).world.ledger,
        t.settled(now).world.standing == t.choke_tick(now).world.standing,
{
}

} // verus!
