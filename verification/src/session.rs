//! What each event of a peer session does, message by message: stated of the
//! torrent before and after, and of what is queued because of it.
use vstd::prelude::*;
#[allow(unused_imports)]
use vstd::string::*;
use crate::choker::{
    changes, chosen, interested_count, law_everybody_fits, law_plan_reaches_the_chosen,
    law_uninterested_peers_stay_choked, lemma_changes_contains,
};
use crate::bitfield::{field_in, law_packed_form_spells};
use crate::dest::DestHash;
use crate::extension::{id_listed, offer_in};
use crate::pex::{acceptable, added_in};
use crate::picker::{
    failed_block, fair_request, law_arrival_is_taken_note_of, law_geometry, law_picks_are_distinct,
    law_picks_are_fair, Ledger,
};
use crate::reputation::Source;
use crate::torrent::{admits, opened, AttachError, PIPELINE_DEPTH};
use crate::wire::{BlockRequest, Msg, BLOCK_LEN};
use crate::world::{
    asked_at, broadcast_to, keepalives, lemma_aside, lemma_asked_at, lemma_asking_keeps,
    lemma_choke_round_keeps, lemma_choking_keeps, lemma_filled_keeps, lemma_interested_keeps,
    lemma_owes, lemma_peer_at, lemma_releasing, located, outstanding, owes, peer_at, queue_ok,
    silent, since, tally, Asked, Disk, PeerState, Sent, Turn, World,
};

verus! {

proof fn lemma_found(peers: Seq<PeerState>, i: int)
    requires
        0 <= i < peers.len(),
        forall|a: int, b: int|
            0 <= a < b < peers.len() ==> (#[trigger] peers[a]).id != (#[trigger] peers[b]).id,
    ensures
        peer_at(peers, peers[i].id, 0) == i,
{
    lemma_peer_at(peers, peers[i].id, 0);
    let k = peer_at(peers, peers[i].id, 0);
    if k < i {
        assert(peers[k].id != peers[i].id);
    } else if i < k {
        assert(peers[i].id == peers[i].id);
    }
}

/// Who is choked or unchoked, and what is queued because of it.
proof fn lemma_choking(t: Turn, ids: Seq<u64>, choke: bool, n: int)
    requires
        0 <= n <= ids.len(),
        forall|a: int, b: int|
            0 <= a < b < t.world.peers.len() ==> (#[trigger] t.world.peers[a]).id != (
            #[trigger] t.world.peers[b]).id,
    ensures
        ({
            let u = t.choking(ids, choke, n);
            let word = if choke {
                Msg::Choke
            } else {
                Msg::Unchoke
            };
            &&& t.out.len() <= u.out.len()
            &&& u.out.take(t.out.len() as int) == t.out
            &&& forall|j: int|
                0 <= j < t.world.peers.len() ==> (#[trigger] u.world.peers[j]).we_choke == (if
                ids.take(n).contains(t.world.peers[j].id) {
                    choke
                } else {
                    t.world.peers[j].we_choke
                })
            &&& forall|j: int|
                0 <= j < t.world.peers.len() && ids.take(n).contains(
                    (#[trigger] t.world.peers[j]).id,
                ) ==> u.out.skip(t.out.len() as int).contains(
                    (Sent { to: t.world.peers[j].id, msg: word }),
                )
            &&& forall|m: int|
                t.out.len() <= m < u.out.len() ==> (#[trigger] u.out[m]).msg == word
                    && ids.take(n).contains(u.out[m].to)
        }),
    decreases n,
{
    let u = t.choking(ids, choke, n);
    let word = if choke {
        Msg::Choke
    } else {
        Msg::Unchoke
    };
    if n > 0 {
        lemma_choking(t, ids, choke, n - 1);
        lemma_choking_keeps(t, ids, choke, n - 1);
        let v = t.choking(ids, choke, n - 1);
        let x = ids[n - 1];
        lemma_peer_at(v.world.peers, x, 0);
        let i = v.world.find(x);
        let more = ids.take(n);
        let less = ids.take(n - 1);
        assert(more =~= less.push(x));
        assert forall|y: u64| #[trigger] more.contains(y) <==> less.contains(y) || y == x by {
            if less.contains(y) {
                let k = choose|k: int| 0 <= k < less.len() && less[k] == y;
                assert(more[k] == y);
            }
            assert(more[n - 1] == x);
        }
        let old_new = v.out.skip(t.out.len() as int);
        let new_new = u.out.skip(t.out.len() as int);
        if i < v.world.peers.len() {
            assert(u.out == v.out.push(Sent { to: x, msg: word }));
            assert(new_new =~= old_new.push(Sent { to: x, msg: word }));
            assert(u.out.take(t.out.len() as int) =~= v.out.take(t.out.len() as int));
            assert(new_new[old_new.len() as int] == (Sent { to: x, msg: word }));
        }
        assert forall|j: int| 0 <= j < t.world.peers.len() implies (
        #[trigger] u.world.peers[j]).we_choke == (if more.contains(t.world.peers[j].id) {
            choke
        } else {
            t.world.peers[j].we_choke
        }) by {
            assert(v.world.peers[j].id == t.world.peers[j].id);
            if i < v.world.peers.len() && j != i {
                assert(v.world.peers[i].id == t.world.peers[i].id);
                assert(t.world.peers[i].id != t.world.peers[j].id);
            }
        }
        assert forall|j: int|
            0 <= j < t.world.peers.len() && more.contains((#[trigger] t.world.peers[j]).id)
            implies new_new.contains((Sent { to: t.world.peers[j].id, msg: word })) by {
            let y = t.world.peers[j].id;
            assert(v.world.peers[j].id == y);
            if less.contains(y) {
                let k = choose|k: int| 0 <= k < old_new.len() && old_new[k] == (Sent {
                    to: y,
                    msg: word,
                });
                assert(new_new[k] == old_new[k]);
            }
        }
    } else {
        assert(ids.take(0) =~= Seq::empty());
        assert(u.out.take(t.out.len() as int) =~= t.out);
    }
}

/// A choke round leaves unchoked exactly the peers that the plan chooses, and
/// tells each peer whose state it changes, and nobody else.
pub proof fn law_choke_round_tells_whom_it_changes(t: Turn, i: int)
    requires
        t.world.wf(),
        0 <= i < t.world.peers.len(),
    ensures
        ({
            let u = t.choke_round();
            let p = t.world.peers[i];
            let q = u.world.peers[i];
            let news = u.out.skip(t.out.len() as int);
            &&& t.out.len() <= u.out.len()
            &&& u.out.take(t.out.len() as int) == t.out
            &&& q == (PeerState { we_choke: q.we_choke, ..p })
            &&& !q.we_choke <==> chosen(
                t.world.snapshots(),
                t.world.slots,
                t.world.rounds + 1,
            ).contains(p.id)
            &&& news.contains((Sent { to: p.id, msg: Msg::Choke })) <==> !p.we_choke && q.we_choke
            &&& news.contains((Sent { to: p.id, msg: Msg::Unchoke })) <==> p.we_choke
                && !q.we_choke
            &&& forall|m: int|
                0 <= m < news.len() ==> (#[trigger] news[m]).msg == Msg::Choke || news[m].msg
                    == Msg::Unchoke
        }),
{
    let w = t.world;
    let snaps = w.snapshots();
    let n = snaps.len() as int;
    let picked = chosen(snaps, w.slots, w.rounds + 1);
    let up = changes(snaps, picked, true, n);
    let down = changes(snaps, picked, false, n);
    let a = Turn { world: World { rounds: w.rounds + 1, ..w }, ..t };
    let b = a.choking(up, false, up.len() as int);
    let u = t.choke_round();
    assert(up.take(up.len() as int) =~= up);
    assert(down.take(down.len() as int) =~= down);
    lemma_choking(a, up, false, up.len() as int);
    lemma_choking_keeps(a, up, false, up.len() as int);
    assert forall|x: int, y: int| 0 <= x < y < b.world.peers.len() implies (
    #[trigger] b.world.peers[x]).id != (#[trigger] b.world.peers[y]).id by {
        assert(w.peers[x].id != w.peers[y].id);
    }
    lemma_choking(b, down, true, down.len() as int);
    lemma_choking_keeps(b, down, true, down.len() as int);
    lemma_choke_round_keeps(t);
    let p = w.peers[i];
    assert forall|x: int, y: int| 0 <= x < y < snaps.len() implies (#[trigger] snaps[x]).id != (
    #[trigger] snaps[y]).id by {
        assert(w.peers[x].id != w.peers[y].id);
    }
    law_plan_reaches_the_chosen(snaps, picked, p.id);
    lemma_changes_contains(snaps, picked, true, n, p.id);
    lemma_changes_contains(snaps, picked, false, n, p.id);
    assert(snaps[i].id == p.id);
    assert forall|k: int| 0 <= k < snaps.len() && (#[trigger] snaps[k]).id == p.id implies k
        == i by {
        if k < i {
            assert(snaps[k].id != snaps[i].id);
        } else if i < k {
            assert(snaps[i].id != snaps[k].id);
        }
    }
    assert(b.world.peers[i].id == p.id);
    assert(u.world.peers[i].id == p.id);
    // What was queued: first the unchokes, then the chokes.
    let first = b.out.skip(t.out.len() as int);
    let last = u.out.skip(b.out.len() as int);
    let news = u.out.skip(t.out.len() as int);
    assert(u.out.take(t.out.len() as int) =~= b.out.take(t.out.len() as int));
    assert(news =~= first + last) by {
        assert forall|m: int| 0 <= m < first.len() implies news[m] == first[m] by {
            assert(u.out.take(b.out.len() as int)[t.out.len() + m] == b.out[t.out.len() + m]);
        }
    }
    assert forall|m: int| 0 <= m < first.len() implies (#[trigger] first[m]).msg == Msg::Unchoke
        && up.contains(first[m].to) by {
        assert(b.out[t.out.len() + m].msg == Msg::Unchoke);
    }
    assert forall|m: int| 0 <= m < last.len() implies (#[trigger] last[m]).msg == Msg::Choke
        && down.contains(last[m].to) by {
        assert(u.out[b.out.len() + m].msg == Msg::Choke);
    }
    let c = Sent { to: p.id, msg: Msg::Choke };
    let d = Sent { to: p.id, msg: Msg::Unchoke };
    if up.contains(p.id) {
        assert(a.world.peers[i].id == p.id);
        let k = choose|k: int| 0 <= k < first.len() && first[k] == d;
        assert(news[k] == d);
    }
    if down.contains(p.id) {
        let k = choose|k: int| 0 <= k < last.len() && last[k] == c;
        assert(news[first.len() + k] == c);
    }
    if news.contains(c) {
        let k = choose|k: int| 0 <= k < news.len() && news[k] == c;
        if k < first.len() {
            assert(first[k].msg == Msg::Unchoke);
        } else {
            assert(last[k - first.len()] == c);
        }
    }
    if news.contains(d) {
        let k = choose|k: int| 0 <= k < news.len() && news[k] == d;
        if k >= first.len() {
            assert(last[k - first.len()].msg == Msg::Choke);
        } else {
            assert(first[k] == d);
        }
    }
    assert forall|m: int| 0 <= m < news.len() implies (#[trigger] news[m]).msg == Msg::Choke
        || news[m].msg == Msg::Unchoke by {
        if m < first.len() {
            assert(news[m] == first[m]);
        } else {
            assert(news[m] == last[m - first.len()]);
        }
    }
}

proof fn lemma_interested_tally(w: World, n: int)
    requires
        0 <= n <= w.peers.len(),
    ensures
        interested_count(w.snapshots(), n) == tally(w.peers, n, |p: PeerState| p.they_interested),
    decreases n,
{
    if n > 0 {
        lemma_interested_tally(w, n - 1);
    }
}

/// The torrent with the interest of peer `i` changed, before the choke round.
spec fn with_interest(t: Turn, i: int, yes: bool, now: u64) -> Turn {
    t.with_peer(
        i,
        PeerState { last_seen: now, they_interested: yes, ..t.world.peers[i] },
    )
}

proof fn lemma_with_interest(t: Turn, i: int, yes: bool, now: u64)
    requires
        t.world.wf(),
        0 <= i < t.world.peers.len(),
    ensures
        with_interest(t, i, yes, now).world.wf(),
        t.heard(
            t.world.peers[i].id,
            if yes {
                Msg::Interested
            } else {
                Msg::NotInterested
            },
            now,
        ) == with_interest(t, i, yes, now).choke_round(),
{
    let w = t.world;
    let p = w.peers[i];
    let v = with_interest(t, i, yes, now);
    lemma_found(w.peers, i);
    lemma_aside(w.ledger, w.peers, w.next_id, Seq::empty(), i, v.world.peers[i]);
    let first = t.with_peer(i, PeerState { last_seen: now, ..p });
    assert(first.with_peer(
        i,
        PeerState { they_interested: yes, ..first.world.peers[i] },
    ).world.peers =~= v.world.peers);
}

/// A peer that says it is not interested is no longer taken to be, is choked,
/// and is told so if it was not. Nobody else's interest changes.
pub proof fn law_uninterested_peer_loses_its_slot(t: Turn, i: int, now: u64)
    requires
        t.world.wf(),
        0 <= i < t.world.peers.len(),
    ensures
        ({
            let p = t.world.peers[i];
            let u = t.heard(p.id, Msg::NotInterested, now);
            &&& u.world.peers.len() == t.world.peers.len()
            &&& u.world.peers[i].id == p.id
            &&& !u.world.peers[i].they_interested
            &&& u.world.peers[i].we_choke
            &&& u.out.take(t.out.len() as int) == t.out
            &&& u.out.skip(t.out.len() as int).contains((Sent { to: p.id, msg: Msg::Choke }))
                <==> !p.we_choke
            &&& !u.out.skip(t.out.len() as int).contains((Sent { to: p.id, msg: Msg::Unchoke }))
            &&& forall|j: int|
                0 <= j < t.world.peers.len() && j != i ==> (#[trigger]
                u.world.peers[j]).they_interested == t.world.peers[j].they_interested
        }),
{
    let p = t.world.peers[i];
    let v = with_interest(t, i, false, now);
    lemma_with_interest(t, i, false, now);
    law_choke_round_tells_whom_it_changes(v, i);
    lemma_choke_round_keeps(v);
    let w = v.world;
    let snaps = w.snapshots();
    if chosen(snaps, w.slots, w.rounds + 1).contains(p.id) {
        law_uninterested_peers_stay_choked(snaps, w.slots, w.rounds + 1, p.id);
        let k = choose|k: int|
            0 <= k < snaps.len() && (#[trigger] snaps[k]).id == p.id && snaps[k].interested;
        assert(w.peers[k].id == p.id);
        lemma_found(w.peers, k);
        lemma_found(w.peers, i);
    }
}

/// A peer that says it is interested is taken to be. It is unchoked, and told
/// so, if there is a slot for everybody who is. Nobody else's interest changes.
pub proof fn law_interested_peer_is_given_a_free_slot(t: Turn, i: int, now: u64)
    requires
        t.world.wf(),
        t.world.slots >= 1,
        0 <= i < t.world.peers.len(),
    ensures
        ({
            let p = t.world.peers[i];
            let u = t.heard(p.id, Msg::Interested, now);
            &&& u.world.peers.len() == t.world.peers.len()
            &&& u.world.peers[i].id == p.id
            &&& u.world.peers[i].they_interested
            &&& u.out.take(t.out.len() as int) == t.out
            &&& tally(
                u.world.peers,
                u.world.peers.len() as int,
                |q: PeerState| q.they_interested,
            ) <= t.world.slots ==> !u.world.peers[i].we_choke
            &&& u.out.skip(t.out.len() as int).contains((Sent { to: p.id, msg: Msg::Unchoke }))
                <==> p.we_choke && !u.world.peers[i].we_choke
            &&& forall|j: int|
                0 <= j < t.world.peers.len() && j != i ==> (#[trigger]
                u.world.peers[j]).they_interested == t.world.peers[j].they_interested
        }),
{
    let v = with_interest(t, i, true, now);
    lemma_with_interest(t, i, true, now);
    law_choke_round_tells_whom_it_changes(v, i);
    lemma_choke_round_keeps(v);
    let w = v.world;
    let n = w.peers.len() as int;
    let u = v.choke_round();
    lemma_interested_tally(w, n);
    lemma_tally_alike(u.world.peers, w.peers, n);
    if interested_count(w.snapshots(), n) <= w.slots {
        let snaps = w.snapshots();
        assert forall|x: int, y: int| 0 <= x < y < snaps.len() implies (#[trigger] snaps[x]).id != (
        #[trigger] snaps[y]).id by {
            assert(w.peers[x].id != w.peers[y].id);
        }
        law_everybody_fits(snaps, w.slots, w.rounds + 1, i);
    }
}

proof fn lemma_tally_alike(a: Seq<PeerState>, b: Seq<PeerState>, n: int)
    requires
        0 <= n <= a.len(),
        a.len() == b.len(),
        forall|j: int| 0 <= j < a.len() ==> (#[trigger] a[j]).they_interested
            == b[j].they_interested,
    ensures
        tally(a, n, |q: PeerState| q.they_interested) == tally(
            b,
            n,
            |q: PeerState| q.they_interested,
        ),
    decreases n,
{
    if n > 0 {
        lemma_tally_alike(a, b, n - 1);
        assert(a[n - 1].they_interested == b[n - 1].they_interested);
    }
}

// ---------------------------------------------------------------------------
// Choking and unchoking by the peer.

/// A peer that chokes us owes us nothing any more: what it was asked for goes
/// back to the picker, block by block, and nothing is sent.
pub proof fn law_choke_gives_back_what_was_asked(t: Turn, i: int, now: u64, piece: int, block: int)
    requires
        t.world.wf(),
        0 <= i < t.world.peers.len(),
    ensures
        ({
            let p = t.world.peers[i];
            let u = t.heard(p.id, Msg::Choke, now);
            &&& u.world.peers[i].peer_choking
            &&& u.world.peers[i].in_flight.len() == 0
            &&& u.out == t.out
            &&& outstanding(u.world.ledger, piece, block) == (if owes(
                p.in_flight,
                piece,
                block,
            ) && outstanding(t.world.ledger, piece, block) > 0 {
                outstanding(t.world.ledger, piece, block) - 1
            } else {
                outstanding(t.world.ledger, piece, block) as int
            })
            &&& u.world.ledger.have == t.world.ledger.have
            &&& forall|j: int|
                0 <= j < t.world.peers.len() && j != i ==> #[trigger] u.world.peers[j]
                    == t.world.peers[j]
        }),
{
    let p = t.world.peers[i];
    lemma_found(t.world.peers, i);
    assert(queue_ok(t.world.ledger, t.world.peers[i].in_flight));
    lemma_releasing(t.world.ledger, p.in_flight, p.in_flight.len() as int, piece, block);
    assert(p.in_flight.take(p.in_flight.len() as int) =~= p.in_flight);
}

/// What is queued when requests are put to a peer that owes us nothing: each of
/// them, in order.
proof fn lemma_asking_all(t: Turn, i: int, reqs: Seq<BlockRequest>, n: int, now: u64)
    requires
        0 <= i < t.world.peers.len(),
        0 <= n <= reqs.len(),
        t.world.peers[i].in_flight.len() == 0,
        forall|a: int, b: int|
            0 <= a < b < reqs.len() ==> (#[trigger] reqs[a]).index != (#[trigger] reqs[b]).index
                || reqs[a].begin / BLOCK_LEN != reqs[b].begin / BLOCK_LEN,
    ensures
        ({
            let u = t.asking(i, reqs, n, now);
            let id = t.world.peers[i].id;
            &&& u.out == t.out + Seq::new(
                n as nat,
                |k: int| Sent { to: id, msg: Msg::Request(reqs[k]) },
            )
            &&& u.world.peers[i].in_flight == Seq::new(
                n as nat,
                |k: int|
                    Asked { piece: reqs[k].index, block: reqs[k].begin / BLOCK_LEN, at: now },
            )
            &&& u.world.ledger == t.world.ledger
        }),
    decreases n,
{
    let id = t.world.peers[i].id;
    let u = t.asking(i, reqs, n, now);
    if n > 0 {
        lemma_asking_all(t, i, reqs, n - 1, now);
        lemma_asking_keeps(t, i, reqs, n - 1, now);
        let v = t.asking(i, reqs, n - 1, now);
        let r = reqs[n - 1];
        let f = v.world.peers[i].in_flight;
        lemma_asked_at(f, r.index, r.begin / BLOCK_LEN, 0);
        let e = asked_at(f, r.index, r.begin / BLOCK_LEN, 0);
        if e < f.len() {
            assert(reqs[e].index != reqs[n - 1].index || reqs[e].begin / BLOCK_LEN != reqs[n
                - 1].begin / BLOCK_LEN);
        }
    }
    assert(u.out =~= t.out + Seq::new(
        n as nat,
        |k: int| Sent { to: id, msg: Msg::Request(reqs[k]) },
    ));
    assert(u.world.peers[i].in_flight =~= Seq::new(
        n as nat,
        |k: int| Asked { piece: reqs[k].index, block: reqs[k].begin / BLOCK_LEN, at: now },
    ));
}

pub proof fn lemma_picks_apart(l: Ledger, has: Seq<bool>, want: nat)
    requires
        l.wf(),
    ensures
        forall|a: int, b: int|
            0 <= a < b < l.picks(has, want).len() ==> (#[trigger] l.picks(has, want)[a]).index != (
            #[trigger] l.picks(has, want)[b]).index || l.picks(has, want)[a].begin / BLOCK_LEN
                != l.picks(has, want)[b].begin / BLOCK_LEN,
{
    let picks = l.picks(has, want);
    law_picks_are_distinct(l, has, want);
    assert forall|a: int, b: int| 0 <= a < b < picks.len() implies (#[trigger] picks[a]).index != (
    #[trigger] picks[b]).index || picks[a].begin / BLOCK_LEN != picks[b].begin / BLOCK_LEN by {
        law_picks_are_fair(l, has, want, a);
        law_picks_are_fair(l, has, want, b);
        let x = choose|x: int| #[trigger] fair_request(l, has, picks[a], x);
        let y = choose|y: int| #[trigger] fair_request(l, has, picks[b], y);
        assert(picks[a] != picks[b]);
    }
}

/// A peer that unchokes us is asked, if we are interested in it and it owes us
/// nothing, for what the picker picks of its pieces, sixteen blocks at most; if
/// we are not interested, for nothing.
pub proof fn law_unchoke_fills_the_pipeline(t: Turn, i: int, now: u64)
    requires
        t.world.wf(),
        0 <= i < t.world.peers.len(),
    ensures
        ({
            let p = t.world.peers[i];
            let u = t.heard(p.id, Msg::Unchoke, now);
            let picks = t.world.ledger.picks(p.has, 16);
            &&& !u.world.peers[i].peer_choking
            &&& u.world.ledger.have == t.world.ledger.have
            &&& !p.we_interested ==> u.out == t.out
            &&& p.we_interested && p.in_flight.len() == 0 ==> u.out == t.out + Seq::new(
                picks.len(),
                |k: int| Sent { to: p.id, msg: Msg::Request(picks[k]) },
            ) && u.world.peers[i].in_flight == Seq::new(
                picks.len(),
                |k: int| Asked { piece: picks[k].index, block: picks[k].begin / 16384, at: now },
            )
        }),
{
    let p = t.world.peers[i];
    lemma_found(t.world.peers, i);
    let first = t.with_peer(i, PeerState { last_seen: now, ..p });
    let v = first.with_peer(i, PeerState { peer_choking: false, ..first.world.peers[i] });
    lemma_filled_keeps(v, i, now);
    if p.we_interested && p.in_flight.len() == 0 {
        let picks = t.world.ledger.picks(p.has, 16);
        lemma_picks_apart(t.world.ledger, p.has, 16);
        let w = v.booked(v.world.ledger.after_pick(p.has, 16));
        lemma_asking_all(w, i, picks, picks.len() as int, now);
    }
}

// ---------------------------------------------------------------------------
// What a peer has.

/// Our interest in a peer, brought up to date, is whether it has a piece that
/// we do not, and the peer is told when that changes.
proof fn lemma_interest_told(t: Turn, i: int, now: u64)
    requires
        0 <= i < t.world.peers.len(),
        t.world.peers[i].has.len() == t.world.ledger.have.len(),
    ensures
        ({
            let u = t.interested(i, now);
            let p = t.world.peers[i];
            let q = u.world.peers[i];
            &&& q.has == p.has
            &&& u.world.ledger.have == t.world.ledger.have
            &&& q.we_interested <==> exists|x: int|
                0 <= x < p.has.len() && #[trigger] p.has[x] && !t.world.ledger.have[x]
            &&& q.we_interested && !p.we_interested ==> u.out.len() > t.out.len()
                && u.out[t.out.len() as int] == (Sent { to: p.id, msg: Msg::Interested })
            &&& !q.we_interested && p.we_interested ==> u.out == t.out.push(
                Sent { to: p.id, msg: Msg::NotInterested },
            )
            &&& q.we_interested == p.we_interested ==> u.out == t.out
        }),
{
    let p = t.world.peers[i];
    lemma_interested_keeps(t, i, now);
    let v = t.with_peer(i, PeerState { we_interested: true, ..p }).saying(i, Msg::Interested);
    lemma_filled_keeps(v, i, now);
    lemma_filled_out(v, i, now);
    let f = v.filled(i, now).out;
    assert(f.take(v.out.len() as int)[t.out.len() as int] == v.out[t.out.len() as int]);
    assert(f[t.out.len() as int] == (Sent { to: p.id, msg: Msg::Interested }));
    if t.world.wants_from(i) {
        let x = choose|x: int|
            0 <= x < p.has.len() && #[trigger] p.has[x] && !(x < t.world.ledger.have.len()
                && t.world.ledger.have[x]);
        assert(p.has[x]);
    }
}

proof fn lemma_asking_out(t: Turn, i: int, reqs: Seq<BlockRequest>, n: int, now: u64)
    ensures
        t.out.len() <= t.asking(i, reqs, n, now).out.len(),
        t.asking(i, reqs, n, now).out.take(t.out.len() as int) == t.out,
    decreases n,
{
    if n > 0 {
        lemma_asking_out(t, i, reqs, n - 1, now);
        let v = t.asking(i, reqs, n - 1, now);
        let u = t.asking(i, reqs, n, now);
        assert(u.out.take(t.out.len() as int) =~= v.out.take(t.out.len() as int));
    } else {
        assert(t.out.take(t.out.len() as int) =~= t.out);
    }
}

proof fn lemma_filled_out(t: Turn, i: int, now: u64)
    ensures
        t.out.len() <= t.filled(i, now).out.len(),
        t.filled(i, now).out.take(t.out.len() as int) == t.out,
{
    let p = t.world.peers[i];
    let want = (PIPELINE_DEPTH - p.in_flight.len()) as nat;
    let reqs = t.world.ledger.picks(p.has, want);
    let v = t.booked(t.world.ledger.after_pick(p.has, want));
    lemma_asking_out(v, i, reqs, reqs.len() as int, now);
    assert(t.out.take(t.out.len() as int) =~= t.out);
}

/// Whether a peer now has `field`, our interest in it is whether that holds a
/// piece that we do not, and the peer was told if that changed.
pub open spec fn now_has(t: Turn, u: Turn, i: int, field: Seq<bool>) -> bool {
    let p = t.world.peers[i];
    let q = u.world.peers[i];
    &&& q.has == field
    &&& u.world.ledger.have == t.world.ledger.have
    &&& q.we_interested <==> exists|x: int|
        0 <= x < field.len() && #[trigger] field[x] && !t.world.ledger.have[x]
    &&& q.we_interested && !p.we_interested ==> u.out.len() > t.out.len()
        && u.out[t.out.len() as int] == (Sent { to: p.id, msg: Msg::Interested })
    &&& !q.we_interested && p.we_interested ==> u.out == t.out.push(
        Sent { to: p.id, msg: Msg::NotInterested },
    )
    &&& q.we_interested == p.we_interested ==> u.out == t.out
}

proof fn lemma_set_taken(t: Turn, i: int, field: Seq<bool>, now: u64)
    requires
        0 <= i < t.world.peers.len(),
        field.len() == t.world.ledger.have.len(),
    ensures
        now_has(t, t.holding_now(i, field).interested(i, now), i, field),
{
    lemma_interest_told(t.holding_now(i, field), i, now);
}

/// A piece that a peer announces is one it has from then on, besides those it
/// had. We are interested in it, once it has said something new, if and only if
/// it has a piece that we do not, and tell it when that changes.
pub proof fn law_announced_piece_is_held(t: Turn, i: int, piece: u32, now: u64)
    requires
        t.world.wf(),
        0 <= i < t.world.peers.len(),
    ensures
        ({
            let p = t.world.peers[i];
            let u = t.heard(p.id, Msg::Have(piece), now);
            if piece < t.world.ledger.have.len() && !p.has[piece as int] {
                now_has(t, u, i, p.has.update(piece as int, true))
            } else {
                u.world.peers[i].has == p.has && u.out == t.out
            }
        }),
{
    let p = t.world.peers[i];
    lemma_found(t.world.peers, i);
    assert(t.world.peers[i].has.len() == t.world.ledger.have.len());
    let first = t.with_peer(i, PeerState { last_seen: now, ..p });
    if piece < t.world.ledger.have.len() && !p.has[piece as int] {
        lemma_interest_told(first.gaining(i, piece as int), i, now);
    }
}

/// A piece set that a peer sends is the set it has from then on: what its bits
/// say, everything, or nothing. Bytes that are no piece set change nothing. We
/// are interested in the peer if and only if it has a piece that we do not, and
/// tell it when that changes.
pub proof fn law_piece_set_is_taken(t: Turn, i: int, bytes: Seq<u8>, now: u64)
    requires
        t.world.wf(),
        0 <= i < t.world.peers.len(),
    ensures
        ({
            let p = t.world.peers[i];
            let n = t.world.ledger.have.len();
            &&& now_has(
                t,
                t.heard(p.id, Msg::HaveAll, now),
                i,
                Seq::new(n, |k: int| true),
            )
            &&& now_has(
                t,
                t.heard(p.id, Msg::HaveNone, now),
                i,
                Seq::new(n, |k: int| false),
            )
            &&& match field_in(bytes, n) {
                Some(field) => now_has(t, t.heard(p.id, Msg::Bitfield(bytes), now), i, field),
                None => t.heard(p.id, Msg::Bitfield(bytes), now).world.peers[i].has == p.has
                    && t.heard(p.id, Msg::Bitfield(bytes), now).out == t.out,
            }
        }),
{
    let p = t.world.peers[i];
    let n = t.world.ledger.have.len();
    lemma_found(t.world.peers, i);
    let first = t.with_peer(i, PeerState { last_seen: now, ..p });
    lemma_set_taken(first, i, Seq::new(n, |k: int| true), now);
    lemma_set_taken(first, i, Seq::new(n, |k: int| false), now);
    if let Some(field) = field_in(bytes, n) {
        lemma_set_taken(first, i, field, now);
    }
}

// ---------------------------------------------------------------------------
// Blocks.

/// A request is served from disk if and only if we are not choking the peer,
/// hold the piece, and the range is not empty, is no more than 16 KiB and lies
/// in the piece; what is read is what was asked for.
pub proof fn law_requests_are_served(t: Turn, i: int, r: BlockRequest)
    requires
        t.world.wf(),
        0 <= i < t.world.peers.len(),
    ensures
        ({
            let l = t.world.ledger;
            let p = t.world.peers[i];
            let start = r.index * l.piece_length;
            let end = r.begin + r.length;
            t.errand_for(p.id, Msg::Request(r)) == (if !p.we_choke && r.index < l.have.len()
                && l.have[r.index as int] && 0 < r.length <= 16384 && end <= l.piece_length && start
                + end <= l.total_length {
                Disk::Read(r)
            } else {
                Disk::Nothing
            })
        }),
{
    lemma_found(t.world.peers, i);
    law_geometry(t.world.ledger, r.index as int, 0);
}

/// What was read for a peer is sent to it as the block it asked for, and
/// counted as uploaded: to it, and in all.
pub proof fn law_served_block_is_sent_and_counted(t: Turn, i: int, r: BlockRequest, data: Seq<u8>)
    requires
        t.world.wf(),
        0 <= i < t.world.peers.len(),
        t.world.peers[i].uploaded + data.len() <= u64::MAX,
    ensures
        ({
            let p = t.world.peers[i];
            let u = t.served(p.id, r, data);
            &&& u.out == t.out.push(
                Sent {
                    to: p.id,
                    msg: Msg::Piece { index: r.index, begin: r.begin, block: data },
                },
            )
            &&& u.world.peers[i].uploaded == p.uploaded + data.len()
            &&& t.world.uploaded + data.len() <= u64::MAX ==> u.world.uploaded
                == t.world.uploaded + data.len()
            &&& u.world.downloaded == t.world.downloaded
            &&& u.world.ledger == t.world.ledger
        }),
{
    lemma_found(t.world.peers, i);
}

/// A block that arrives is written if and only if it starts at a multiple of
/// 16 KiB, is exactly as long as the torrent has it there, is owed to us by the
/// peer that sends it, and is of a piece that is not held.
pub proof fn law_blocks_are_written(t: Turn, i: int, index: u32, begin: u32, block: Seq<u8>)
    requires
        t.world.wf(),
        0 <= i < t.world.peers.len(),
    ensures
        ({
            let l = t.world.ledger;
            let p = t.world.peers[i];
            t.errand_for(p.id, Msg::Piece { index, begin, block }) == (if begin % 16384 == 0
                && index < l.have.len() && !l.have[index as int] && block.len() == l.block_len(
                index as int,
                begin as int / 16384,
            ) && owes(p.in_flight, index as int, begin as int / 16384) {
                Disk::Write { index, begin }
            } else {
                Disk::Nothing
            })
        }),
{
    lemma_found(t.world.peers, i);
}

/// Whatever block arrives whole ends the strikes of the peer that sends it.
pub proof fn law_whole_block_ends_strikes(
    t: Turn,
    i: int,
    index: u32,
    begin: u32,
    block: Seq<u8>,
    now: u64,
)
    requires
        t.world.wf(),
        0 <= i < t.world.peers.len(),
    ensures
        ({
            let l = t.world.ledger;
            let p = t.world.peers[i];
            let u = t.heard(p.id, Msg::Piece { index, begin, block }, now);
            u.world.peers[i].strikes == (if begin % 16384 == 0 && index < l.have.len()
                && block.len() == l.block_len(index as int, begin as int / 16384) {
                0
            } else {
                p.strikes
            })
        }),
{
    let p = t.world.peers[i];
    lemma_found(t.world.peers, i);
    let first = t.with_peer(i, PeerState { last_seen: now, ..p });
    let v = first.with_peer(i, PeerState { strikes: 0, ..first.world.peers[i] });
    lemma_filled_keeps(v.settled_by(i, index, begin / BLOCK_LEN), i, now);
}

/// A block that was written counts as received, and as downloaded by its
/// length; the peer owes it no more, and is remembered as who supplied it. One
/// that could not be written counts as neither, and may be asked for again.
pub proof fn law_written_block_is_counted(t: Turn, i: int, index: u32, begin: u32, now: u64)
    requires
        t.world.wf(),
        0 <= i < t.world.peers.len(),
        begin % 16384 == 0,
        index < t.world.ledger.have.len(),
        !t.world.ledger.have[index as int],
        owes(t.world.peers[i].in_flight, index as int, begin as int / 16384),
    ensures
        ({
            let l = t.world.ledger;
            let p = t.world.peers[i];
            let b = begin as int / 16384;
            let u = t.written(p.id, index, begin, true, now);
            &&& u.world.ledger.account(index as int).received[b]
            &&& t.world.downloaded + l.block_len(index as int, b) <= u64::MAX
                ==> u.world.downloaded == t.world.downloaded + l.block_len(index as int, b)
            &&& u.world.uploaded == t.world.uploaded
            &&& u.world.standing.suppliers == t.world.standing.suppliers.insert(
                (index, (begin / 16384) as u32),
                p.dest,
            )
            &&& u.world.standing.banned == t.world.standing.banned
            &&& !owes(u.world.peers[i].in_flight, index as int, b)
            &&& u.out == t.out
            &&& u.world.ledger.have == l.have
        }),
        ({
            let p = t.world.peers[i];
            let u = t.written(p.id, index, begin, false, now);
            &&& u.world.downloaded == t.world.downloaded
            &&& u.world.standing == t.world.standing
            &&& u.world.ledger.have == t.world.ledger.have
        }),
{
    let l = t.world.ledger;
    let p = t.world.peers[i];
    let blk = begin / BLOCK_LEN;
    lemma_found(t.world.peers, i);
    lemma_owes(p.in_flight, index, blk);
    lemma_asked_at(p.in_flight, index, blk, 0);
    assert(queue_ok(l, t.world.peers[i].in_flight));
    let e = asked_at(p.in_flight, index, blk, 0);
    let k = choose|k: int|
        0 <= k < p.in_flight.len() && (#[trigger] p.in_flight[k]).piece == index
            && p.in_flight[k].block == blk;
    assert(p.in_flight[k].block < l.blocks(index as int));
    let f = p.in_flight.remove(e);
    assert forall|j: int| 0 <= j < f.len() implies (#[trigger] f[j]).piece != index || f[j].block
        != blk by {
        if j < e {
            assert(f[j] == p.in_flight[j]);
        } else {
            assert(f[j] == p.in_flight[j + 1]);
            assert(p.in_flight[e].piece != p.in_flight[j + 1].piece || p.in_flight[e].block
                != p.in_flight[j + 1].block);
        }
    }
    law_arrival_is_taken_note_of(l, index as int, blk as int);
    let u = t.settled_by(i, index, blk);
    let v = u.booked(failed_block(l, index as int, blk as int));
    lemma_filled_keeps(v, i, now);
}

proof fn lemma_broadcast(peers: Seq<PeerState>, msg: Msg, n: int)
    requires
        0 <= n <= peers.len(),
    ensures
        broadcast_to(peers, msg, n).len() == n,
        forall|j: int|
            0 <= j < n ==> #[trigger] broadcast_to(peers, msg, n)[j] == (Sent {
                to: peers[j].id,
                msg,
            }),
    decreases n,
{
    if n > 0 {
        lemma_broadcast(peers, msg, n - 1);
    }
}

/// A piece that verifies is held from then on, and every peer is told so, once;
/// one that fails is not, and what had arrived of it is forgotten.
pub proof fn law_verdict_on_a_piece(t: Turn, index: u32)
    requires
        t.world.wf(),
        index < t.world.ledger.have.len(),
    ensures
        ({
            let u = t.piece_judged(index, true);
            let news = u.out.skip(t.out.len() as int);
            &&& u.world.ledger.have == t.world.ledger.have.update(index as int, true)
            &&& u.world.ledger.progress[index as int] is None
            &&& u.out.take(t.out.len() as int) == t.out
            &&& news.len() == t.world.peers.len()
            &&& forall|j: int|
                0 <= j < news.len() ==> #[trigger] news[j] == (Sent {
                    to: t.world.peers[j].id,
                    msg: Msg::Have(index),
                })
            &&& u.world.peers == t.world.peers
            &&& u.world.to_drop == t.world.to_drop
        }),
        ({
            let u = t.piece_judged(index, false);
            &&& u.world.ledger.have == t.world.ledger.have
            &&& u.world.ledger.progress[index as int] is None
            &&& u.out == t.out
            &&& u.world.peers == t.world.peers
        }),
{
    let n = t.world.peers.len() as int;
    lemma_broadcast(t.world.peers, Msg::Have(index), n);
    let u = t.piece_judged(index, true);
    assert(u.out.take(t.out.len() as int) =~= t.out);
    assert(u.out.skip(t.out.len() as int) =~= broadcast_to(t.world.peers, Msg::Have(index), n));
}

// ---------------------------------------------------------------------------
// The extension protocol.

/// A peer's extension handshake tells under which ids it takes peer exchange
/// (`i2p_pex`) and metadata (`ut_metadata`): those it lists under these names.
/// One that is malformed changes nothing.
pub proof fn law_extension_ids_are_the_peers(t: Turn, i: int, payload: Seq<u8>, now: u64)
    requires
        t.world.wf(),
        0 <= i < t.world.peers.len(),
    ensures
        ({
            let p = t.world.peers[i];
            let u = t.heard(p.id, Msg::Extended { id: 0, payload }, now);
            match offer_in(payload) {
                Ok(o) => u.world.peers[i].pex_id == id_listed(o.ids, "i2p_pex"@)
                    && u.world.peers[i].metadata_id == id_listed(o.ids, "ut_metadata"@),
                Err(_) => u.world.peers[i] == (PeerState { last_seen: now, ..p }) && u.out == t.out,
            }
        }),
{
    lemma_found(t.world.peers, i);
}

/// What a peer tells of other peers is remembered as hearsay, and counted as
/// far as it is news; what it says under another id than ours is ignored.
pub proof fn law_peer_exchange_is_remembered(
    t: Turn,
    i: int,
    ext: u8,
    payload: Seq<u8>,
    now: u64,
)
    requires
        t.world.wf(),
        0 <= i < t.world.peers.len(),
    ensures
        ({
            let p = t.world.peers[i];
            let w = t.world;
            let u = t.heard(p.id, Msg::Extended { id: ext, payload }, now);
            let added = added_in(payload);
            &&& ext == 1 && acceptable(payload) ==> u.world.standing == w.standing.remembering_all(
                added,
                Source::Pex,
                added.len() as int,
            ) && u.out == t.out
            &&& ext == 1 && !acceptable(payload) ==> u.world.standing == w.standing && u.out
                == t.out
            &&& ext > 2 ==> u.world.standing == w.standing && u.out == t.out
        }),
{
    lemma_found(t.world.peers, i);
}

// ---------------------------------------------------------------------------
// Coming, idling and going.

/// A peer that is seated starts as a stranger does: it is choked and chokes us,
/// nobody is interested, it has no piece and owes nothing. It is sent our piece
/// set, and our extension handshake if it speaks the protocol.
pub proof fn law_newcomer_starts_as_a_stranger(t: Turn, dest: DestHash, extended: bool, now: u64)
    requires
        t.world.wf(),
    ensures
        ({
            let n = t.world.peers.len() as int;
            let u = opened(t, dest, extended, now);
            let q = u.world.peers[n];
            &&& u.world.peers.len() == n + 1
            &&& u.world.peers.take(n) == t.world.peers
            &&& q.id == t.world.next_id
            &&& q.dest == dest
            &&& q.peer_choking && q.we_choke && !q.they_interested && !q.we_interested
            &&& q.in_flight.len() == 0 && q.strikes == 0 && q.uploaded == 0
            &&& q.has.len() == t.world.ledger.have.len() && forall|x: int|
                0 <= x < q.has.len() ==> !#[trigger] q.has[x]
            &&& q.last_seen == now && q.last_sent == now
            &&& q.pex_id is None && q.metadata_id is None
            &&& u.out.len() == t.out.len() + (if extended {
                2int
            } else {
                1int
            })
            &&& u.out.take(t.out.len() as int) == t.out
            &&& u.out[t.out.len() as int].to == q.id
            &&& u.out[t.out.len() as int].msg matches Msg::Bitfield(bytes) && field_in(
                bytes,
                t.world.ledger.have.len(),
            ) == Some(t.world.ledger.have)
            &&& extended ==> u.out.last().to == q.id && (u.out.last().msg matches Msg::Extended {
                id,
                payload,
            } && id == 0)
        }),
{
    let n = t.world.peers.len() as int;
    let u = opened(t, dest, extended, now);
    assert(u.world.peers.take(n) =~= t.world.peers);
    assert(u.out.take(t.out.len() as int) =~= t.out);
    law_packed_form_spells(t.world.ledger.have);
}

proof fn lemma_keepalives(w: World, n: int, now: u64, id: u64)
    requires
        0 <= n <= w.peers.len(),
    ensures
        forall|k: int|
            0 <= k < keepalives(w, n, now).len() ==> (#[trigger] keepalives(w, n, now)[k]).msg
                == Msg::KeepAlive,
        keepalives(w, n, now).contains((Sent { to: id, msg: Msg::KeepAlive })) <==> exists|j: int|
            0 <= j < n && (#[trigger] w.peers[j]).id == id && since(w.peers[j].last_seen, now)
                < w.idle_timeout && since(w.peers[j].last_sent, now) >= w.keepalive_interval,
    decreases n,
{
    let k = keepalives(w, n, now);
    if n > 0 {
        lemma_keepalives(w, n - 1, now, id);
        let was = keepalives(w, n - 1, now);
        let p = w.peers[n - 1];
        let x = Sent { to: id, msg: Msg::KeepAlive };
        if was.contains(x) {
            let a = choose|a: int| 0 <= a < was.len() && was[a] == x;
            assert(k[a] == x);
        }
        if k.len() > was.len() {
            assert(k[was.len() as int] == (Sent { to: p.id, msg: Msg::KeepAlive }));
        }
        if k.contains(x) {
            let a = choose|a: int| 0 <= a < k.len() && k[a] == x;
            if a < was.len() {
                assert(was[a] == x);
            }
        }
    }
}

/// A tick sends a keep-alive to exactly the peers that are not idle and have had
/// nothing from us for as long as the interval is.
pub proof fn law_quiet_peer_gets_a_keepalive(w: World, i: int, now: u64)
    requires
        w.wf(),
        0 <= i < w.peers.len(),
    ensures
        keepalives(w, w.peers.len() as int, now).contains(
            (Sent { to: w.peers[i].id, msg: Msg::KeepAlive }),
        ) <==> since(w.peers[i].last_seen, now) < w.idle_timeout && since(
            w.peers[i].last_sent,
            now,
        ) >= w.keepalive_interval,
        since(w.peers[i].last_sent, now) == (if now >= w.peers[i].last_sent {
            now - w.peers[i].last_sent
        } else {
            0
        }),
{
    lemma_keepalives(w, w.peers.len() as int, now, w.peers[i].id);
    assert forall|j: int|
        0 <= j < w.peers.len() && (#[trigger] w.peers[j]).id == w.peers[i].id implies j == i by {
        if j < i {
            assert(w.peers[j].id != w.peers[i].id);
        } else if i < j {
            assert(w.peers[i].id != w.peers[j].id);
        }
    }
}

proof fn lemma_silent_only(w: World, n: int, now: u64, id: u64)
    requires
        0 <= n <= w.peers.len(),
        silent(w, n, now).contains(id),
    ensures
        exists|j: int|
            0 <= j < n && (#[trigger] w.peers[j]).id == id && since(w.peers[j].last_seen, now)
                >= w.idle_timeout,
    decreases n,
{
    let s = silent(w, n, now);
    let a = choose|a: int| 0 <= a < s.len() && s[a] == id;
    if n > 0 {
        let r = silent(w, n - 1, now);
        if a < r.len() {
            assert(r[a] == id);
            lemma_silent_only(w, n - 1, now, id);
        } else {
            assert(w.peers[n - 1].id == id);
        }
    }
}

/// Nobody is dropped for silence who was heard within the timeout.
pub proof fn law_heard_peer_is_not_silent(w: World, i: int, now: u64)
    requires
        w.wf(),
        0 <= i < w.peers.len(),
        since(w.peers[i].last_seen, now) < w.idle_timeout,
    ensures
        !silent(w, w.peers.len() as int, now).contains(w.peers[i].id),
{
    let n = w.peers.len() as int;
    let id = w.peers[i].id;
    if silent(w, n, now).contains(id) {
        lemma_silent_only(w, n, now, id);
        let j = choose|j: int|
            0 <= j < n && (#[trigger] w.peers[j]).id == id && since(w.peers[j].last_seen, now)
                >= w.idle_timeout;
        if j < i {
            assert(w.peers[j].id != w.peers[i].id);
        } else if i < j {
            assert(w.peers[i].id != w.peers[j].id);
        }
    }
}

/// A keep-alive is proof of life and asks for nothing; whatever is queued for a
/// peer restarts the clock that ours go by.
pub proof fn law_clocks_are_restarted(t: Turn, i: int, now: u64)
    requires
        t.world.wf(),
        0 <= i < t.world.peers.len(),
    ensures
        t.heard(t.world.peers[i].id, Msg::KeepAlive, now).world.peers[i].last_seen == now,
        t.heard(t.world.peers[i].id, Msg::KeepAlive, now).out == t.out,
        t.recorded(now).world.peers[i].last_sent == (if exists|k: int|
            0 <= k < t.out.len() && (#[trigger] t.out[k]).to == t.world.peers[i].id {
            now
        } else {
            t.world.peers[i].last_sent
        }),
        t.recorded(now).world.peers[i].last_seen == t.world.peers[i].last_seen,
{
    lemma_found(t.world.peers, i);
}

/// A destination is let in unless it is banned, or holds two connections
/// already.
pub proof fn law_who_is_let_in(w: World, dest: DestHash)
    ensures
        admits(w, dest) == (if w.standing.banned.contains(dest) {
            Err::<(), AttachError>(AttachError::Banned)
        } else if tally(w.peers, w.peers.len() as int, |p: PeerState| p.dest == dest) >= 2 {
            Err::<(), AttachError>(AttachError::DestFull)
        } else {
            Ok::<(), AttachError>(())
        }),
{
    assert(located(dest) =~= (|p: PeerState| p.dest == dest));
}

} // verus!
