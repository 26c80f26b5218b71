//! Peer acquisition for a running torrent.
//!
//! - The **dial sweep** periodically walks the destinations a torrent knows,
//!   skips peers already connected or in per-peer retry backoff, and dials the
//!   rest, up to [`SwarmConfig::max_peers`]. A failed dial schedules that peer
//!   for retry after [`SwarmConfig::retry_backoff`] instead of being forgotten.
//! - The **announcer** reports to each tracker when it is due, and feeds what
//!   it answers to the dial sweep.
//! - The **inbound demux** routes inbound peers to torrents on a shared
//!   destination.
//!
//! The decisions are here; dialling, accepting and sleeping are the caller's.
//! Times are milliseconds of a clock of the caller's, but for announces, which
//! are scheduled in seconds.
use vstd::prelude::*;
#[allow(unused_imports)]
use vstd::utf8::*;
use crate::bitfield::{count_present, law_count_bounds, Bitfield};
use crate::decimal::decimal_text;
use crate::dest::{same_dest, DestHash};
use crate::http::percent_encoded;
use crate::metainfo::url_parts;
use crate::picker::{
    law_pieces_partition_the_torrent, least, length_of_piece, sum_of_pieces, Ledger,
};
use crate::reputation::{contains_dest, Source};
use crate::strings::bytes_eq;
use crate::torrent::Torrent;
use crate::tracker::{
    self, announce_bytes, law_announce_is_worded_so, law_resumed_seed_reports_no_download,
    ran, AnnounceParams, AnnounceResponse, AnnounceState, Event, Failure,
    Schedule, Step,
};
use crate::wire::Handshake;
use crate::world::World;

verus! {

// ---------------------------------------------------------------------------
// Configuration.

/// Swarm-runner timing and limits. The defaults lean generous because tunnel
/// latency dwarfs clearnet expectations.
#[derive(Clone, Copy, Debug)]
pub struct SwarmConfig {
    /// Per-attempt dial timeout handed to the dialer.
    pub dial_timeout: u64,
    /// Pause between dial sweeps.
    pub sweep_interval: u64,
    /// How long a peer sits out after a failed dial or attach before it is
    /// eligible again.
    pub retry_backoff: u64,
    /// Stop dialing, and refuse inbound, at this many attached peers.
    pub max_peers: usize,
    /// How many dials may be in flight at once within one sweep.
    ///
    /// Each costs a thread that spends nearly all its life blocked, so this is
    /// bounded by patience; what it must not be is 1, which makes the time to
    /// reach *any* peer a function of how many dead destinations the tracker
    /// happened to list first.
    pub dial_concurrency: usize,
}

impl Default for SwarmConfig {
    fn default() -> (c: SwarmConfig)
        ensures
            c == (SwarmConfig {
                dial_timeout: 120_000,
                sweep_interval: 10_000,
                retry_backoff: 30_000,
                max_peers: 50,
                dial_concurrency: 8,
            }),
    {
        SwarmConfig {
            dial_timeout: 120_000,
            sweep_interval: 10_000,
            retry_backoff: 30_000,
            max_peers: 50,
            dial_concurrency: 8,
        }
    }
}

/// Announcer timing; the schedule governs per-tracker cadence, this is just the
/// poll tick and transport limits.
#[derive(Clone, Copy, Debug)]
pub struct AnnouncerConfig {
    /// How often due-ness is checked.
    pub poll_interval: u64,
    /// Dial timeout for reaching a tracker.
    pub dial_timeout: u64,
    /// Peers requested per announce.
    pub numwant: u32,
}

impl Default for AnnouncerConfig {
    fn default() -> (c: AnnouncerConfig)
        ensures
            c == (AnnouncerConfig { poll_interval: 5_000, dial_timeout: 120_000, numwant: 50 }),
    {
        AnnouncerConfig { poll_interval: 5_000, dial_timeout: 120_000, numwant: 50 }
    }
}

/// What the announcer announces: the URLs and our torrent-shape facts.
pub struct AnnounceTarget {
    /// Announce URLs (flattened tiers).
    pub urls: Vec<String>,
    /// Our session's full base64 destination: the announce `ip` parameter.
    pub our_dest_b64: String,
    /// The torrent's piece length in bytes, sizing the `left` report.
    pub piece_length: u64,
    /// The torrent's total length in bytes.
    pub total_length: u64,
}

// ---------------------------------------------------------------------------
// What an announce reports.

/// The bytes of those of the first `n` pieces that are present.
pub open spec fn present_bytes(have: Seq<bool>, piece_length: nat, total: nat, n: int) -> nat
    decreases n,
{
    if n <= 0 {
        0
    } else {
        present_bytes(have, piece_length, total, n - 1) + if have[n - 1] {
            length_of_piece(n - 1, piece_length, total)
        } else {
            0
        }
    }
}

proof fn lemma_present_bound(have: Seq<bool>, piece_length: nat, total: nat, n: int)
    requires
        0 <= n,
    ensures
        present_bytes(have, piece_length, total, n) <= least(
            n * piece_length,
            total as int,
        ),
    decreases n,
{
    if n > 0 {
        lemma_present_bound(have, piece_length, total, n - 1);
        assert(n * piece_length == (n - 1) * piece_length + piece_length) by (nonlinear_arith);
    } else {
        assert(n * piece_length == 0) by (nonlinear_arith)
            requires
                n == 0,
        ;
    }
}

/// Bytes of the torrent we actually hold.
///
/// Not `pieces * piece_length`: the last piece is usually short, so counting it
/// as a whole one over-reports what we have and under-reports `left`, by up to
/// a piece, on every announce, for any torrent holding its tail but not its
/// middle.
pub fn bytes_present(have: &Bitfield, piece_length: u64, total_length: u64) -> (n: u64)
    ensures
        n == present_bytes(
            have@,
            piece_length as nat,
            total_length as nat,
            have@.len() as int,
        ),
        n <= total_length,
{
    let len: u32 = have.len();
    let mut n: u64 = 0;
    let mut i: u32 = 0;
    proof {
        lemma_present_bound(have@, piece_length as nat, total_length as nat, len as int);
    }
    while i < len
        invariant
            i <= len,
            len == have@.len(),
            n == present_bytes(have@, piece_length as nat, total_length as nat, i as int),
            n <= total_length,
        decreases len - i,
    {
        proof {
            lemma_present_bound(have@, piece_length as nat, total_length as nat, i + 1);
            assert(i * piece_length >= 0) by (nonlinear_arith)
                requires
                    i >= 0,
                    piece_length >= 0,
            ;
        }
        if have.has(i) {
            let size: u64 = match (i as u64).checked_mul(piece_length) {
                Some(start) => if start >= total_length {
                    0
                } else if total_length - start < piece_length {
                    total_length - start
                } else {
                    piece_length
                },
                None => 0,
            };
            proof {
                assert(size == length_of_piece(
                    i as int,
                    piece_length as nat,
                    total_length as nat,
                ));
            }
            n = n + size;
        }
        i = i + 1;
    }
    n
}

/// What an announce reports as `left`: the bytes of every piece that is not
/// held, one that is skipped too, and nothing once every piece is held.
pub open spec fn left_of(have: Seq<bool>, piece_length: u64, total: u64) -> u64 {
    if count_present(have) == have.len() {
        0
    } else {
        (total - present_bytes(have, piece_length as nat, total as nat, have.len() as int)) as u64
    }
}

/// What an announce reports.
pub open spec fn reported(
    w: World,
    event: Event,
    p: AnnounceParams,
    target: AnnounceTarget,
    numwant: u32,
) -> bool {
    &&& p.info_hash@ == w.info_hash
    &&& p.peer_id@ == w.peer_id
    &&& p.uploaded == w.uploaded
    &&& p.downloaded == w.downloaded
    &&& p.left == left_of(w.ledger.have, target.piece_length, target.total_length)
    &&& p.event == event
    &&& p.numwant == numwant
    &&& p.our_dest_b64@ == target.our_dest_b64@
}

/// Whether every piece is held.
pub open spec fn all_held(w: World) -> bool {
    count_present(w.ledger.have) == w.ledger.have.len()
}

/// Whether every piece of a torrent is held, one that is skipped too: what an
/// announce goes by.
pub fn holds_everything(torrent: &Torrent) -> (r: bool)
    ensures
        r == all_held(torrent@),
{
    torrent.have().is_full()
}

/// The schedule a tracker's announces start with. A torrent that is whole when
/// its announcer starts (a resumed seed, or one attached again after a session
/// was rebuilt) has no download to report.
pub fn first_schedule(torrent: &Torrent) -> (s: AnnounceState)
    ensures
        s@ == (Schedule { completed: all_held(torrent@), ..Schedule::fresh() }),
{
    if holds_everything(torrent) {
        AnnounceState::already_complete()
    } else {
        AnnounceState::new()
    }
}

/// Looks whether the download has finished since the last look, which said
/// `was_complete`, and if it has, brings the announce of it forward. Says what
/// the next look is to be told.
pub fn notice_completion(
    torrent: &Torrent,
    state: &mut AnnounceState,
    was_complete: bool,
) -> (complete: bool)
    ensures
        complete == all_held(torrent@),
        final(state)@ == (if all_held(torrent@) && !was_complete {
            old(state)@.finished()
        } else {
            old(state)@
        }),
{
    let complete = holds_everything(torrent);
    if complete && !was_complete {
        state.completion_due();
    }
    complete
}

/// One announce to one tracker, as far as the request: the host to resolve, the
/// request to send, and the event that goes out in it.
pub fn announce_request(
    torrent: &Torrent,
    url: &str,
    state: &AnnounceState,
    target: &AnnounceTarget,
    numwant: u32,
) -> (r: Result<(String, Vec<u8>, Event), tracker::Error>)
    ensures
        match r {
            Ok((host, request, event)) => event == state@.event(all_held(torrent@)) && url_parts(
                url@,
            ) is Some && host@ == url_parts(url@)->Some_0.host && (exists|p: AnnounceParams|
                #[trigger] reported(torrent@, event, p, *target, numwant) && request@
                    == announce_bytes(url_parts(url@)->Some_0, p)),
            Err(e) => e@ == Failure::BadUrl && url_parts(url@) is None,
        },
        r matches Ok((_, request, event)) ==> request@ == encode_utf8(
                "GET "@ + (url_parts(url@)->Some_0.path_and_query + (if url_parts(
                    url@,
                )->Some_0.path_and_query.contains('?') {
                    "&"@
                } else {
                    "?"@
                }) + ("info_hash="@ + percent_encoded(torrent@.info_hash) + "&peer_id="@
                    + percent_encoded(torrent@.peer_id) + "&port=6881&uploaded="@ + decimal_text(
                    torrent@.uploaded as nat,
                ) + "&downloaded="@ + decimal_text(torrent@.downloaded as nat) + "&left="@
                    + decimal_text((if (forall|i: int|
                        0 <= i < torrent@.ledger.have.len() ==> torrent@.ledger.have[i]) {
                        0
                    } else {
                        target.total_length - present_bytes(
                            torrent@.ledger.have,
                            target.piece_length as nat,
                            target.total_length as nat,
                            torrent@.ledger.have.len() as int,
                        )
                    }) as nat) + "&numwant="@ + decimal_text(numwant as nat)
                    + "&compact=1"@) + "&ip="@ + percent_encoded(
                    encode_utf8(target.our_dest_b64@),
                ) + (match event {
                    Event::Started => "&event=started"@,
                    Event::Stopped => "&event=stopped"@,
                    Event::Completed => "&event=completed"@,
                    Event::Periodic => ""@,
                })) + " HTTP/1.1\r\nHost: "@ + url_parts(url@)->Some_0.authority
                    + "\r\nUser-Agent: clove/2026.08\r\nConnection: close\r\n\r\n"@,
            ),
{
    let have = torrent.have();
    let complete = have.is_full();
    let left: u64 = if complete {
        0
    } else {
        target.total_length - bytes_present(have, target.piece_length, target.total_length)
    };
    let (uploaded, downloaded) = torrent.stats();
    let event = state.next_event(complete);
    let params = AnnounceParams {
        info_hash: torrent.info_hash(),
        peer_id: torrent.peer_id(),
        uploaded,
        downloaded,
        left,
        event,
        numwant,
        our_dest_b64: target.our_dest_b64.as_str(),
    };
    proof {
        assert(reported(torrent@, event, params, *target, numwant));
        if url_parts(url@) is Some {
            law_announce_is_worded_so(url_parts(url@)->Some_0, params);
        }
        law_count_bounds(torrent@.ledger.have);
        lemma_present_bound(
            torrent@.ledger.have,
            target.piece_length as nat,
            target.total_length as nat,
            torrent@.ledger.have.len() as int,
        );
    }
    match tracker::build_announce(url, &params) {
        Ok((host, request)) => Ok((host, request, event)),
        Err(e) => Err(e),
    }
}

/// A torrent that is whole when its announcer starts never reports a download,
/// whatever follows; one that is not reports it as soon as it is whole, the
/// tracker's interval or not, if the tracker has heard of it and has not been
/// told yet.
pub proof fn law_finished_download_is_reported_at_once(
    w: World,
    s: Schedule,
    steps: Seq<Step>,
    complete: bool,
    now: u64,
)
    ensures
        all_held(w) ==> ran(
            (Schedule { completed: all_held(w), ..Schedule::fresh() }),
            steps,
        ).event(complete) != Event::Completed,
        s.started && !s.completed ==> now >= s.finished().next_due && s.finished().event(true)
            == Event::Completed,
        !s.started || s.completed ==> s.finished() == s,
{
    if all_held(w) {
        law_resumed_seed_reports_no_download(steps, complete);
    }
}

proof fn lemma_held_and_left(l: Ledger, n: int)
    requires
        0 <= n <= l.have.len(),
        l.priority.len() == l.have.len(),
        forall|i: int| 0 <= i < n ==> #[trigger] l.priority[i] != 0,
    ensures
        present_bytes(l.have, l.piece_length, l.total_length, n) + l.bytes_left(n)
            == sum_of_pieces(l.piece_length, l.total_length, n),
    decreases n,
{
    if n > 0 {
        lemma_held_and_left(l, n - 1);
        assert(l.priority[n - 1] != 0);
    }
}

proof fn lemma_nothing_left(l: Ledger, n: int)
    requires
        0 <= n <= l.have.len(),
        forall|i: int| 0 <= i < l.have.len() ==> l.have[i],
    ensures
        l.bytes_left(n) == 0,
    decreases n,
{
    if n > 0 {
        lemma_nothing_left(l, n - 1);
    }
}

/// What an announce reports as `left` is what the torrent still has to
/// download, as long as no piece is skipped.
pub proof fn law_left_is_what_remains(l: Ledger, piece_length: u64, total: u64)
    requires
        l.priority.len() == l.have.len(),
        l.piece_length == piece_length,
        l.total_length == total,
        l.have.len() * piece_length >= total,
        forall|i: int| 0 <= i < l.have.len() ==> #[trigger] l.priority[i] != 0,
    ensures
        left_of(l.have, piece_length, total) == l.bytes_left(l.have.len() as int),
{
    let n = l.have.len() as int;
    lemma_held_and_left(l, n);
    law_pieces_partition_the_torrent(l.piece_length, l.total_length, n);
    lemma_present_bound(l.have, l.piece_length, l.total_length, n);
    if count_present(l.have) == n {
        law_count_bounds(l.have);
        lemma_nothing_left(l, n);
    }
}

/// The request of a best-effort `stopped` announce: a graceful goodbye on
/// pause, removal or shutdown.
pub fn stopped_request(
    info_hash: [u8; 20],
    peer_id: [u8; 20],
    url: &str,
    target: &AnnounceTarget,
) -> (r: Result<(String, Vec<u8>), tracker::Error>)
    ensures
        match r {
            Ok((host, request)) => url_parts(url@) is Some && host@ == url_parts(
                url@,
            )->Some_0.host && (exists|p: AnnounceParams|
                #[trigger] farewell(p, info_hash, peer_id, target.our_dest_b64@) && request@
                    == announce_bytes(url_parts(url@)->Some_0, p)),
            Err(e) => e@ == Failure::BadUrl && url_parts(url@) is None,
        },
        r matches Ok((_, request)) ==> request@ == encode_utf8(
                "GET "@ + (url_parts(url@)->Some_0.path_and_query + (if url_parts(
                    url@,
                )->Some_0.path_and_query.contains('?') {
                    "&"@
                } else {
                    "?"@
                }) + ("info_hash="@ + percent_encoded(info_hash@) + "&peer_id="@
                    + percent_encoded(peer_id@) + "&port=6881&uploaded="@ + decimal_text(
                    0,
                ) + "&downloaded="@ + decimal_text(0) + "&left="@
                    + decimal_text(0) + "&numwant="@ + decimal_text(0)
                    + "&compact=1"@) + "&ip="@ + percent_encoded(
                    encode_utf8(target.our_dest_b64@),
                ) + ("&event=stopped"@)) + " HTTP/1.1\r\nHost: "@ + url_parts(url@)->Some_0.authority
                    + "\r\nUser-Agent: clove/2026.08\r\nConnection: close\r\n\r\n"@,
            ),
{
    let params = AnnounceParams {
        info_hash,
        peer_id,
        uploaded: 0,
        downloaded: 0,
        left: 0,
        event: Event::Stopped,
        numwant: 0,
        our_dest_b64: target.our_dest_b64.as_str(),
    };
    proof {
        assert(farewell(params, info_hash, peer_id, target.our_dest_b64@));
        if url_parts(url@) is Some {
            law_announce_is_worded_so(url_parts(url@)->Some_0, params);
        }
    }
    tracker::build_announce(url, &params)
}

/// What a `stopped` announce reports.
pub open spec fn farewell(
    p: AnnounceParams,
    info_hash: [u8; 20],
    peer_id: [u8; 20],
    dest: Seq<char>,
) -> bool {
    &&& p.info_hash == info_hash
    &&& p.peer_id == peer_id
    &&& p.uploaded == 0
    &&& p.downloaded == 0
    &&& p.left == 0
    &&& p.event == Event::Stopped
    &&& p.numwant == 0
    &&& p.our_dest_b64@ == dest
}

/// A tracker answered: its peers join those the dial sweep may try, and the
/// next announce is scheduled.
pub fn announce_succeeded(
    torrent: &mut Torrent,
    state: &mut AnnounceState,
    response: &AnnounceResponse,
    sent: Event,
    now: u64,
)
    requires
        old(torrent).inv(),
    ensures
        final(torrent).inv(),
        final(torrent)@ == (World {
            standing: old(torrent)@.standing.remembering_all(
                response.peers@,
                Source::Trusted,
                response.peers@.len() as int,
            ),
            announces_ok: crate::torrent::raised(old(torrent)@.announces_ok),
            last_announce_error: None,
            ..old(torrent)@
        }),
        final(state)@ == old(state)@.succeeded(now, response.interval, sent),
{
    torrent.add_peers(&response.peers);
    state.on_success(now, response.interval, sent);
    torrent.note_announce(Ok(()));
}

/// An announce failed: back off, and keep the reason for whoever asks why the
/// torrent has no peers.
pub fn announce_failed(
    torrent: &mut Torrent,
    state: &mut AnnounceState,
    url: &str,
    reason: &str,
    now: u64,
)
    requires
        old(torrent).inv(),
    ensures
        final(torrent).inv(),
        final(torrent)@ == (World {
            announces_failed: crate::torrent::raised(old(torrent)@.announces_failed),
            last_announce_error: Some(url@ + ": "@ + reason@),
            ..old(torrent)@
        }),
        final(state)@ == old(state)@.failed(now),
{
    state.on_failure(now);
    let mut text: String = url.to_owned();
    text.append(": ");
    text.append(reason);
    torrent.note_announce(Err(text));
}

// ---------------------------------------------------------------------------
// The dial sweep.

/// A peer that sits out.
#[derive(Clone, Copy, Debug)]
pub struct Backoff {
    pub dest: DestHash,
    /// When it is eligible again.
    pub until: u64,
}

/// The bookkeeping of one torrent's dial sweeps.
pub struct Sweep {
    retry_after: Vec<Backoff>,
}

/// Those of the first `n` peers in backoff whose time has not come.
pub open spec fn still_out(r: Seq<Backoff>, now: u64, n: int) -> Seq<Backoff>
    decreases n,
{
    if n <= 0 {
        Seq::empty()
    } else if r[n - 1].until > now {
        still_out(r, now, n - 1).push(r[n - 1])
    } else {
        still_out(r, now, n - 1)
    }
}

/// Whether a peer sits out.
pub open spec fn sits_out(r: Seq<Backoff>, dest: DestHash) -> bool {
    exists|i: int| 0 <= i < r.len() && (#[trigger] r[i]).dest == dest
}

/// Those of the first `n` known peers that may be dialed, as many as `budget`
/// allows: not connected, and not sitting out.
pub open spec fn dialable(
    known: Seq<DestHash>,
    connected: Seq<DestHash>,
    out: Seq<Backoff>,
    budget: nat,
    n: int,
) -> Seq<DestHash>
    decreases n,
{
    if n <= 0 {
        Seq::empty()
    } else {
        let v = dialable(known, connected, out, budget, n - 1);
        let d = known[n - 1];
        if v.len() < budget && !connected.contains(d) && !sits_out(out, d) {
            v.push(d)
        } else {
            v
        }
    }
}

/// The backoffs once the first `n` of `failed` sit out.
pub open spec fn benched(r: Seq<Backoff>, failed: Seq<DestHash>, until: u64, n: int) -> Seq<Backoff>
    decreases n,
{
    if n <= 0 {
        r
    } else {
        let v = benched(r, failed, until, n - 1);
        let e = bench_at(v, failed[n - 1], 0);
        if e < v.len() {
            v.update(e, Backoff { dest: failed[n - 1], until })
        } else {
            v.push(Backoff { dest: failed[n - 1], until })
        }
    }
}

/// The first backoff for a peer, from the `n`th on; the length if there is
/// none.
pub open spec fn bench_at(r: Seq<Backoff>, dest: DestHash, n: int) -> int
    decreases r.len() - n,
{
    if 0 <= n < r.len() && r[n].dest != dest {
        bench_at(r, dest, n + 1)
    } else {
        n
    }
}

proof fn lemma_bench_at(r: Seq<Backoff>, dest: DestHash, n: int)
    requires
        0 <= n <= r.len(),
    ensures
        n <= bench_at(r, dest, n) <= r.len(),
        bench_at(r, dest, n) < r.len() ==> r[bench_at(r, dest, n)].dest == dest,
        forall|j: int| n <= j < bench_at(r, dest, n) ==> (#[trigger] r[j]).dest != dest,
    decreases r.len() - n,
{
    if n < r.len() && r[n].dest != dest {
        lemma_bench_at(r, dest, n + 1);
    }
}

impl View for Sweep {
    type V = Seq<Backoff>;

    closed spec fn view(&self) -> Seq<Backoff> {
        self.retry_after@
    }
}

impl Sweep {
    /// Nobody sits out.
    pub fn new() -> (s: Sweep)
        ensures
            s@ == Seq::<Backoff>::empty(),
    {
        let s = Sweep { retry_after: Vec::new() };
        proof {
            assert(s@ =~= Seq::empty());
        }
        s
    }

    /// Where a peer stands among those that sit out.
    fn find(&self, dest: DestHash) -> (n: usize)
        ensures
            n == bench_at(self@, dest, 0),
            n <= self@.len(),
            n < self@.len() <==> sits_out(self@, dest),
    {
        let mut i: usize = 0;
        while i < self.retry_after.len() && !same_dest(self.retry_after[i].dest, dest)
            invariant
                i <= self.retry_after@.len(),
                bench_at(self@, dest, 0) == bench_at(self@, dest, i as int),
            decreases self.retry_after.len() - i,
        {
            i = i + 1;
        }
        proof {
            lemma_bench_at(self@, dest, 0);
        }
        i
    }

    /// Whom to dial in this sweep: every eligible peer once, as far as there is
    /// room. Decided up front rather than along the way, so that a wave can
    /// neither overshoot `max_peers` nor race itself over who claimed the last
    /// slot.
    pub fn candidates(
        &mut self,
        known: &Vec<DestHash>,
        connected: &Vec<DestHash>,
        max_peers: usize,
        now: u64,
    ) -> (v: Vec<DestHash>)
        ensures
            if connected@.len() >= max_peers {
                v@.len() == 0 && final(self)@ == old(self)@
            } else {
                final(self)@ == still_out(old(self)@, now, old(self)@.len() as int) && v@
                    == dialable(
                    known@,
                    connected@,
                    final(self)@,
                    (max_peers - connected@.len()) as nat,
                    known@.len() as int,
                )
            },
    {
        let mut v: Vec<DestHash> = Vec::new();
        if connected.len() >= max_peers {
            return v;
        }
        let budget: usize = max_peers - connected.len();
        let ghost r0 = self@;
        let mut kept: Vec<Backoff> = Vec::new();
        let mut i: usize = 0;
        while i < self.retry_after.len()
            invariant
                i <= self.retry_after@.len(),
                r0 == self.retry_after@,
                kept@ == still_out(r0, now, i as int),
            decreases self.retry_after.len() - i,
        {
            if self.retry_after[i].until > now {
                kept.push(self.retry_after[i]);
            }
            i = i + 1;
        }
        self.retry_after = kept;
        let mut k: usize = 0;
        while k < known.len()
            invariant
                k <= known@.len(),
                v@ == dialable(known@, connected@, self@, budget as nat, k as int),
            decreases known.len() - k,
        {
            let d = known[k];
            if v.len() < budget && !contains_dest(connected, d) && self.find(d)
                >= self.retry_after.len() {
                v.push(d);
            }
            k = k + 1;
        }
        v
    }

    /// These could not be dialed or attached: they sit out.
    pub fn failed(&mut self, peers: &Vec<DestHash>, now: u64, backoff: u64)
        requires
            now + backoff <= u64::MAX,
        ensures
            final(self)@ == benched(
                old(self)@,
                peers@,
                (now + backoff) as u64,
                peers@.len() as int,
            ),
    {
        let until: u64 = now + backoff;
        let mut k: usize = 0;
        while k < peers.len()
            invariant
                k <= peers@.len(),
                self@ == benched(old(self)@, peers@, until, k as int),
            decreases peers.len() - k,
        {
            let b = Backoff { dest: peers[k], until };
            let e: usize = self.find(peers[k]);
            if e < self.retry_after.len() {
                self.retry_after.set(e, b);
            } else {
                self.retry_after.push(b);
            }
            k = k + 1;
        }
    }
}

/// How many dials run at once for `n` candidates.
pub fn dial_workers(dial_concurrency: usize, n: usize) -> (w: usize)
    requires
        n > 0,
    ensures
        w == (if dial_concurrency < 1 {
            1
        } else if dial_concurrency > n {
            n
        } else {
            dial_concurrency
        }),
{
    if dial_concurrency < 1 {
        1
    } else if dial_concurrency > n {
        n
    } else {
        dial_concurrency
    }
}

proof fn lemma_dialable(
    known: Seq<DestHash>,
    connected: Seq<DestHash>,
    out: Seq<Backoff>,
    budget: nat,
    n: int,
)
    requires
        0 <= n <= known.len(),
    ensures
        dialable(known, connected, out, budget, n).len() <= budget,
        forall|i: int|
            0 <= i < dialable(known, connected, out, budget, n).len() ==> known.contains(
                #[trigger] dialable(known, connected, out, budget, n)[i],
            ) && !connected.contains(dialable(known, connected, out, budget, n)[i]) && !sits_out(
                out,
                dialable(known, connected, out, budget, n)[i],
            ),
    decreases n,
{
    if n > 0 {
        lemma_dialable(known, connected, out, budget, n - 1);
        let v = dialable(known, connected, out, budget, n - 1);
        let w = dialable(known, connected, out, budget, n);
        assert forall|i: int| 0 <= i < w.len() implies known.contains(#[trigger] w[i])
            && !connected.contains(w[i]) && !sits_out(out, w[i]) by {
            if i < v.len() {
                assert(w[i] == v[i]);
            } else {
                assert(w[i] == known[n - 1]);
            }
        }
    }
}

/// A sweep stays inside its budget, and dials only peers that are known, not
/// connected, and not sitting out.
pub proof fn law_sweep_stays_inside_its_budget(
    known: Seq<DestHash>,
    connected: Seq<DestHash>,
    out: Seq<Backoff>,
    max_peers: nat,
    i: int,
)
    requires
        connected.len() <= max_peers,
    ensures
        ({
            let v = dialable(
                known,
                connected,
                out,
                (max_peers - connected.len()) as nat,
                known.len() as int,
            );
            &&& connected.len() + v.len() <= max_peers
            &&& 0 <= i < v.len() ==> known.contains(v[i]) && !connected.contains(v[i]) && !sits_out(
                out,
                v[i],
            )
        }),
{
    lemma_dialable(
        known,
        connected,
        out,
        (max_peers - connected.len()) as nat,
        known.len() as int,
    );
}

proof fn lemma_still_out(r: Seq<Backoff>, now: u64, n: int, dest: DestHash)
    requires
        0 <= n <= r.len(),
    ensures
        sits_out(still_out(r, now, n), dest) <==> exists|i: int|
            0 <= i < n && (#[trigger] r[i]).dest == dest && r[i].until > now,
    decreases n,
{
    let v = still_out(r, now, n);
    if n > 0 {
        lemma_still_out(r, now, n - 1, dest);
        let u = still_out(r, now, n - 1);
        if sits_out(v, dest) {
            let i = choose|i: int| 0 <= i < v.len() && (#[trigger] v[i]).dest == dest;
            if i < u.len() {
                assert(u[i].dest == dest);
                let j = choose|j: int|
                    0 <= j < n - 1 && (#[trigger] r[j]).dest == dest && r[j].until > now;
                assert(r[j].dest == dest);
            } else {
                assert(r[n - 1].dest == dest && r[n - 1].until > now);
            }
        }
        if exists|i: int| 0 <= i < n && (#[trigger] r[i]).dest == dest && r[i].until > now {
            let i = choose|i: int|
                0 <= i < n && (#[trigger] r[i]).dest == dest && r[i].until > now;
            if i == n - 1 {
                assert(v.last().dest == dest);
            } else {
                assert(r[i].dest == dest && r[i].until > now);
                assert(sits_out(u, dest));
                let j = choose|j: int| 0 <= j < u.len() && (#[trigger] u[j]).dest == dest;
                assert(v[j].dest == dest);
            }
        }
    }
}

/// The entries for a peer in the backoffs all end at `until`.
spec fn benched_until(r: Seq<Backoff>, dest: DestHash, until: u64) -> bool {
    exists|i: int| 0 <= i < r.len() && (#[trigger] r[i]).dest == dest && r[i].until == until
}

proof fn lemma_benched(
    r: Seq<Backoff>,
    failed: Seq<DestHash>,
    until: u64,
    n: int,
    dest: DestHash,
)
    requires
        0 <= n <= failed.len(),
        failed.take(n).contains(dest),
    ensures
        benched_until(benched(r, failed, until, n), dest, until),
    decreases n,
{
    let v = benched(r, failed, until, n - 1);
    let w = benched(r, failed, until, n);
    lemma_bench_at(v, failed[n - 1], 0);
    let e = bench_at(v, failed[n - 1], 0);
    if failed[n - 1] == dest {
        if e < v.len() {
            assert(w[e] == (Backoff { dest, until }));
        } else {
            assert(w[v.len() as int] == (Backoff { dest, until }));
        }
    } else {
        let s = failed.take(n);
        let k = choose|k: int| 0 <= k < s.len() && s[k] == dest;
        assert(failed.take(n - 1)[k] == dest);
        lemma_benched(r, failed, until, n - 1, dest);
        let i = choose|i: int| 0 <= i < v.len() && (#[trigger] v[i]).dest == dest && v[i].until == until;
        assert(w[i] == v[i]);
    }
}

/// A peer whose dial failed is not dialed again before its backoff is over.
pub proof fn law_failed_dial_waits(
    r: Seq<Backoff>,
    failed: Seq<DestHash>,
    until: u64,
    dest: DestHash,
    now: u64,
    known: Seq<DestHash>,
    connected: Seq<DestHash>,
    budget: nat,
)
    requires
        failed.contains(dest),
        now < until,
    ensures
        ({
            let b = benched(r, failed, until, failed.len() as int);
            let out = still_out(b, now, b.len() as int);
            !dialable(known, connected, out, budget, known.len() as int).contains(dest)
        }),
{
    let b = benched(r, failed, until, failed.len() as int);
    let out = still_out(b, now, b.len() as int);
    assert(failed.take(failed.len() as int) =~= failed);
    lemma_benched(r, failed, until, failed.len() as int, dest);
    lemma_still_out(b, now, b.len() as int, dest);
    let i = choose|i: int| 0 <= i < b.len() && (#[trigger] b[i]).dest == dest && b[i].until == until;
    assert(b[i].dest == dest && b[i].until > now);
    assert(sits_out(out, dest));
    lemma_dialable(known, connected, out, budget, known.len() as int);
}

// ---------------------------------------------------------------------------
// The inbound demux.

/// How many connections may be waiting on their handshake at once.
///
/// One thread each, and a peer that connects without speaking holds its thread
/// for as long as the timeout allows, so this is the bound on what an inbound
/// flood costs us. Well above any real swarm's arrival rate.
pub const MAX_PENDING_HANDSHAKES: usize = 64;

/// A torrent that is served, by the number the caller knows it by.
#[derive(Clone, Copy, Debug)]
pub struct Route {
    pub info_hash: [u8; 20],
    pub torrent: u64,
}

/// Routes inbound peers to torrents on a shared destination: one client
/// identity serves every torrent. Unknown info-hashes and torrents at their
/// peer cap are dropped, which the dialing side sees as a refusal.
pub struct InboundDemux {
    routes: Vec<Route>,
    /// Per-torrent attached-peer cap.
    max_peers: usize,
    /// Raised on session teardown; the accept loop exits at its next accept.
    stopped: bool,
    /// Connections currently waiting for their handshake to be read.
    pending: usize,
}

/// What an [`InboundDemux`] stands for.
#[verifier::ext_equal]
pub struct Routing {
    /// Which torrent each info-hash leads to.
    pub routes: Map<Seq<u8>, u64>,
    pub max_peers: usize,
    pub stopped: bool,
    pub pending: usize,
}

/// What becomes of a connection that was accepted.
#[derive(Clone, Copy, Debug, PartialEq, Eq, Structural)]
pub enum Accepted {
    /// The demux has been stopped: leave the accept loop.
    Stop,
    /// Too many are waiting: drop it.
    Refuse,
    /// Read its handshake.
    Read,
}

spec fn route_at(v: Seq<Route>, h: Seq<u8>, i: int) -> bool {
    0 <= i < v.len() && v[i].info_hash@ == h
}

spec fn route_map(v: Seq<Route>) -> Map<Seq<u8>, u64> {
    Map::new(
        |h: Seq<u8>| exists|i: int| route_at(v, h, i),
        |h: Seq<u8>| v[choose|i: int| route_at(v, h, i)].torrent,
    )
}

spec fn routes_distinct(v: Seq<Route>) -> bool {
    forall|i: int, j: int|
        0 <= i < j < v.len() ==> (#[trigger] v[i]).info_hash@ != (#[trigger] v[j]).info_hash@
}

proof fn lemma_route(v: Seq<Route>, i: int)
    requires
        routes_distinct(v),
        0 <= i < v.len(),
    ensures
        route_map(v).contains_key(v[i].info_hash@),
        route_map(v)[v[i].info_hash@] == v[i].torrent,
{
    let h = v[i].info_hash@;
    assert(route_at(v, h, i));
    let k = choose|k: int| route_at(v, h, k);
    assert(route_at(v, h, k));
    if k < i {
        assert(v[k].info_hash@ != v[i].info_hash@);
    } else if i < k {
        assert(v[i].info_hash@ != v[k].info_hash@);
    }
}

proof fn lemma_routes_changed(v: Seq<Route>, w: Seq<Route>, h: Seq<u8>, c: Option<u64>)
    requires
        routes_distinct(v),
        routes_distinct(w),
        forall|j: int|
            0 <= j < v.len() && (#[trigger] v[j]).info_hash@ != h ==> w.contains(v[j]),
        forall|j: int|
            0 <= j < w.len() && (#[trigger] w[j]).info_hash@ != h ==> v.contains(w[j]),
        match c {
            Some(t) => exists|j: int|
                0 <= j < w.len() && (#[trigger] w[j]).info_hash@ == h && w[j].torrent == t,
            None => forall|j: int| 0 <= j < w.len() ==> (#[trigger] w[j]).info_hash@ != h,
        },
    ensures
        route_map(w) == (match c {
            Some(t) => route_map(v).insert(h, t),
            None => route_map(v).remove(h),
        }),
{
    let m = route_map(v);
    let n = route_map(w);
    let r = match c {
        Some(t) => m.insert(h, t),
        None => m.remove(h),
    };
    assert forall|x: Seq<u8>| #[trigger] n.contains_key(x) == r.contains_key(x) && (
    n.contains_key(x) ==> n[x] == r[x]) by {
        if x == h {
            match c {
                Some(t) => {
                    let j = choose|j: int|
                        0 <= j < w.len() && (#[trigger] w[j]).info_hash@ == h && w[j].torrent == t;
                    lemma_route(w, j);
                },
                None => {
                    if n.contains_key(x) {
                        let j = choose|j: int| route_at(w, x, j);
                        assert(w[j].info_hash@ != h);
                    }
                },
            }
        } else {
            if n.contains_key(x) {
                let j = choose|j: int| route_at(w, x, j);
                lemma_route(w, j);
                assert(v.contains(w[j]));
                let k = choose|k: int| 0 <= k < v.len() && v[k] == w[j];
                lemma_route(v, k);
            }
            if m.contains_key(x) {
                let j = choose|j: int| route_at(v, x, j);
                lemma_route(v, j);
                assert(w.contains(v[j]));
                let k = choose|k: int| 0 <= k < w.len() && w[k] == v[j];
                lemma_route(w, k);
            }
        }
    }
    assert(n =~= r);
}

impl View for InboundDemux {
    type V = Routing;

    closed spec fn view(&self) -> Routing {
        Routing {
            routes: route_map(self.routes@),
            max_peers: self.max_peers,
            stopped: self.stopped,
            pending: self.pending,
        }
    }
}

impl InboundDemux {
    /// Whether no info-hash is routed twice and no more connections wait than
    /// may.
    pub closed spec fn inv(self) -> bool {
        routes_distinct(self.routes@) && self.pending <= MAX_PENDING_HANDSHAKES
    }

    /// An empty demux with the given per-torrent peer cap.
    pub fn new(max_peers: usize) -> (d: InboundDemux)
        ensures
            d.inv(),
            d@ == (Routing { routes: Map::empty(), max_peers, stopped: false, pending: 0 }),
    {
        let d = InboundDemux { routes: Vec::new(), max_peers, stopped: false, pending: 0 };
        proof {
            assert(d@.routes =~= Map::empty());
        }
        d
    }

    /// Where an info-hash stands among those served.
    fn find(&self, info_hash: &[u8; 20]) -> (n: usize)
        ensures
            n <= self.routes@.len(),
            n < self.routes@.len() ==> self.routes@[n as int].info_hash@ == info_hash@,
            forall|j: int| 0 <= j < n ==> (#[trigger] self.routes@[j]).info_hash@ != info_hash@,
    {
        let mut i: usize = 0;
        while i < self.routes.len() && !bytes_eq(
            self.routes[i].info_hash.as_slice(),
            info_hash.as_slice(),
        )
            invariant
                i <= self.routes@.len(),
                forall|j: int|
                    0 <= j < i ==> (#[trigger] self.routes@[j]).info_hash@ != info_hash@,
            decreases self.routes.len() - i,
        {
            i = i + 1;
        }
        i
    }

    /// Serve an info-hash. Replaces any previous registration.
    pub fn register(&mut self, info_hash: [u8; 20], torrent: u64)
        requires
            old(self).inv(),
        ensures
            final(self).inv(),
            final(self)@ == (Routing {
                routes: old(self)@.routes.insert(info_hash@, torrent),
                ..old(self)@
            }),
    {
        let ghost v = self.routes@;
        let i: usize = self.find(&info_hash);
        let r = Route { info_hash, torrent };
        if i < self.routes.len() {
            self.routes.set(i, r);
        } else {
            self.routes.push(r);
        }
        proof {
            let w = self.routes@;
            assert(w[i as int] == r);
            assert forall|j: int| 0 <= j < v.len() && (#[trigger] v[j]).info_hash@ != info_hash@
                implies w.contains(v[j]) by {
                assert(w[j] == v[j]);
            }
            assert forall|j: int| 0 <= j < w.len() && (#[trigger] w[j]).info_hash@ != info_hash@
                implies v.contains(w[j]) by {
                assert(w[j] == v[j]);
            }
            lemma_routes_changed(v, w, info_hash@, Some(torrent));
        }
    }

    /// Stop serving an info-hash (torrent removed or paused). Peers already
    /// attached are unaffected; new inbound connections for it are dropped.
    pub fn unregister(&mut self, info_hash: &[u8; 20])
        requires
            old(self).inv(),
        ensures
            final(self).inv(),
            final(self)@ == (Routing {
                routes: old(self)@.routes.remove(info_hash@),
                ..old(self)@
            }),
    {
        let ghost v = self.routes@;
        let i: usize = self.find(info_hash);
        if i < self.routes.len() {
            self.routes.remove(i);
        }
        proof {
            let w = self.routes@;
            assert forall|j: int| 0 <= j < v.len() && (#[trigger] v[j]).info_hash@ != info_hash@
                implies w.contains(v[j]) by {
                if j < i {
                    assert(w[j] == v[j]);
                } else {
                    assert(w[j - 1] == v[j]);
                }
            }
            assert forall|j: int| 0 <= j < w.len() implies v.contains(#[trigger] w[j])
                && w[j].info_hash@ != info_hash@ by {
                if j < i {
                    assert(w[j] == v[j]);
                } else {
                    assert(w[j] == v[j + 1]);
                    assert(v[i as int].info_hash@ != v[j + 1].info_hash@);
                }
            }
            lemma_routes_changed(v, w, info_hash@, None);
        }
    }

    /// Raise the stop flag: the accept loop exits at its next accept.
    pub fn stop(&mut self)
        ensures
            old(self).inv() ==> final(self).inv(),
            final(self)@ == (Routing { stopped: true, ..old(self)@ }),
    {
        self.stopped = true;
    }

    /// Whether the stop flag is raised. Looked at after every accept, whatever
    /// came back.
    pub fn is_stopped(&self) -> (r: bool)
        ensures
            r == self@.stopped,
    {
        self.stopped
    }

    /// A connection was accepted: say what becomes of it. One whose handshake
    /// is to be read counts as waiting until [`InboundDemux::finished`].
    pub fn accepted(&mut self) -> (a: Accepted)
        requires
            old(self).inv(),
        ensures
            final(self).inv(),
            a == (if old(self)@.stopped {
                Accepted::Stop
            } else if old(self)@.pending >= MAX_PENDING_HANDSHAKES {
                Accepted::Refuse
            } else {
                Accepted::Read
            }),
            final(self)@ == (if a == Accepted::Read {
                Routing { pending: (old(self)@.pending + 1) as usize, ..old(self)@ }
            } else {
                old(self)@
            }),
            final(self)@.pending <= MAX_PENDING_HANDSHAKES,
    {
        if self.stopped {
            return Accepted::Stop;
        }
        if self.pending >= MAX_PENDING_HANDSHAKES {
            return Accepted::Refuse;
        }
        self.pending = self.pending + 1;
        Accepted::Read
    }

    /// A connection no longer waits for its handshake.
    pub fn finished(&mut self)
        requires
            old(self).inv(),
            old(self)@.pending > 0,
        ensures
            final(self).inv(),
            final(self)@ == (Routing {
                pending: (old(self)@.pending - 1) as usize,
                ..old(self)@
            }),
    {
        self.pending = self.pending - 1;
    }

    /// How many connections wait for their handshake to be read.
    pub fn pending(&self) -> (n: usize)
        ensures
            n == self@.pending,
    {
        self.pending
    }

    /// The torrent a peer's handshake is for; `None` for an unknown info-hash.
    pub fn route(&self, theirs: &Handshake) -> (r: Option<u64>)
        requires
            self.inv(),
        ensures
            match r {
                Some(t) => self@.routes.contains_key(theirs.info_hash@)
                    && self@.routes[theirs.info_hash@] == t,
                None => !self@.routes.contains_key(theirs.info_hash@),
            },
    {
        let i: usize = self.find(&theirs.info_hash);
        if i < self.routes.len() {
            proof {
                lemma_route(self.routes@, i as int);
            }
            Some(self.routes[i].torrent)
        } else {
            proof {
                if self@.routes.contains_key(theirs.info_hash@) {
                    let j = choose|j: int| route_at(self.routes@, theirs.info_hash@, j);
                    assert(self.routes@[j].info_hash@ != theirs.info_hash@);
                }
            }
            None
        }
    }

    /// Whether a torrent with this many attached peers takes another.
    pub fn has_room(&self, connected: usize) -> (r: bool)
        ensures
            r == (connected < self@.max_peers),
    {
        connected < self.max_peers
    }
}

// ---------------------------------------------------------------------------
// Stopping and waking.

/// The two things a sleeping loop can be woken for.
pub struct Flags {
    /// Shut down and return.
    pub stopped: bool,
    /// Stop waiting and do a round now. Consumed by the waiter.
    pub nudged: bool,
}

/// Why a nudgeable wait returned.
#[derive(Clone, Copy, Debug, PartialEq, Eq, Structural)]
pub enum Wake {
    /// The flag was raised; the loop must return.
    Stopped,
    /// Someone asked for a round now.
    Nudged,
    /// The timeout expired, which is the ordinary case.
    Elapsed,
}

impl Default for Flags {
    fn default() -> (f: Flags)
        ensures
            !f.stopped,
            !f.nudged,
    {
        Flags { stopped: false, nudged: false }
    }
}

impl Flags {
    /// Raise the stop flag. It is never lowered.
    pub fn raise(&mut self)
        ensures
            final(self).stopped,
            final(self).nudged == old(self).nudged,
    {
        self.stopped = true;
    }

    /// Ask a waiter to wake and run a round immediately. The flag stays set
    /// until a waiter consumes it, so a nudge that arrives mid-round is not
    /// lost.
    pub fn nudge(&mut self)
        ensures
            final(self).stopped == old(self).stopped,
            final(self).nudged,
    {
        self.nudged = true;
    }

    /// Whether a waiter sleeps on.
    pub fn sleeps(&self) -> (r: bool)
        ensures
            r == (!self.stopped && !self.nudged),
    {
        !self.stopped && !self.nudged
    }

    /// What woke a waiter. A nudge is consumed on the way out so the next wait
    /// sleeps again.
    pub fn wake(&mut self) -> (w: Wake)
        ensures
            w == (if old(self).stopped {
                Wake::Stopped
            } else if old(self).nudged {
                Wake::Nudged
            } else {
                Wake::Elapsed
            }),
            final(self).stopped == old(self).stopped,
            final(self).nudged == (old(self).nudged && old(self).stopped),
    {
        if self.stopped {
            return Wake::Stopped;
        }
        if self.nudged {
            self.nudged = false;
            return Wake::Nudged;
        }
        Wake::Elapsed
    }
}

/// What an announce reports of a torrent: the bytes it has served as uploaded,
/// the bytes it has taken from peers as downloaded, the bytes of the pieces it
/// does not hold as left, under its own info-hash and peer id.
pub proof fn law_announce_reports_the_torrent(
    w: World,
    event: Event,
    p: AnnounceParams,
    target: AnnounceTarget,
    numwant: u32,
)
    requires
        reported(w, event, p, target, numwant),
    ensures
        p.uploaded == w.uploaded,
        p.downloaded == w.downloaded,
        p.info_hash@ == w.info_hash,
        p.peer_id@ == w.peer_id,
        p.event == event,
        p.numwant == numwant,
        p.our_dest_b64@ == target.our_dest_b64@,
        (forall|i: int| 0 <= i < w.ledger.have.len() ==> w.ledger.have[i]) ==> p.left == 0,
        (forall|i: int| 0 <= i < w.ledger.have.len() ==> !w.ledger.have[i]) && w.ledger.have.len()
            > 0 ==> p.left == target.total_length,
{
    law_count_bounds(w.ledger.have);
    lemma_nothing_present(
        w.ledger.have,
        target.piece_length as nat,
        target.total_length as nat,
        w.ledger.have.len() as int,
    );
}

proof fn lemma_nothing_present(have: Seq<bool>, piece_length: nat, total: nat, n: int)
    requires
        0 <= n <= have.len(),
    ensures
        (forall|i: int| 0 <= i < have.len() ==> !have[i]) ==> present_bytes(
            have,
            piece_length,
            total,
            n,
        ) == 0,
    decreases n,
{
    if n > 0 {
        lemma_nothing_present(have, piece_length, total, n - 1);
    }
}

/// Holding one more piece takes its length from what is left.
pub proof fn law_each_piece_counts_once(have: Seq<bool>, piece_length: nat, total: nat, i: int)
    requires
        0 <= i < have.len(),
        !have[i],
    ensures
        present_bytes(have.update(i, true), piece_length, total, have.len() as int)
            == present_bytes(have, piece_length, total, have.len() as int) + length_of_piece(
            i,
            piece_length,
            total,
        ),
{
    lemma_one_more_present(have, piece_length, total, i, have.len() as int);
}

proof fn lemma_one_more_present(have: Seq<bool>, piece_length: nat, total: nat, i: int, n: int)
    requires
        0 <= i < have.len(),
        !have[i],
        0 <= n <= have.len(),
    ensures
        present_bytes(have.update(i, true), piece_length, total, n) == present_bytes(
            have,
            piece_length,
            total,
            n,
        ) + (if i < n {
            length_of_piece(i, piece_length, total)
        } else {
            0
        }),
    decreases n,
{
    if n > 0 {
        lemma_one_more_present(have, piece_length, total, i, n - 1);
    }
}

// ---------------------------------------------------------------------------
// Whom a sweep dials.

proof fn lemma_dialable_grows(
    known: Seq<DestHash>,
    connected: Seq<DestHash>,
    out: Seq<Backoff>,
    budget: nat,
    m: int,
    n: int,
)
    requires
        0 <= m <= n <= known.len(),
    ensures
        dialable(known, connected, out, budget, m).len() <= dialable(
            known,
            connected,
            out,
            budget,
            n,
        ).len(),
        dialable(known, connected, out, budget, n).take(
            dialable(known, connected, out, budget, m).len() as int,
        ) == dialable(known, connected, out, budget, m),
    decreases n - m,
{
    let a = dialable(known, connected, out, budget, m);
    if m < n {
        lemma_dialable_grows(known, connected, out, budget, m, n - 1);
        let b = dialable(known, connected, out, budget, n - 1);
        let c = dialable(known, connected, out, budget, n);
        assert(c.take(a.len() as int) =~= b.take(a.len() as int));
    } else {
        assert(a.take(a.len() as int) =~= a);
    }
}

/// A known peer that is neither connected nor sitting out is dialed, unless
/// there is no room left; and then those that are dialed all became known
/// before it.
pub proof fn law_eligible_peer_is_dialed(
    known: Seq<DestHash>,
    connected: Seq<DestHash>,
    out: Seq<Backoff>,
    budget: nat,
    i: int,
)
    requires
        0 <= i < known.len(),
        !connected.contains(known[i]),
        forall|j: int| 0 <= j < out.len() ==> (#[trigger] out[j]).dest != known[i],
    ensures
        ({
            let v = dialable(known, connected, out, budget, known.len() as int);
            v.contains(known[i]) || (v.len() == budget && forall|k: int|
                0 <= k < v.len() ==> known.take(i).contains(#[trigger] v[k]))
        }),
{
    let n = known.len() as int;
    let v = dialable(known, connected, out, budget, n);
    let before = dialable(known, connected, out, budget, i);
    let after = dialable(known, connected, out, budget, i + 1);
    lemma_dialable(known, connected, out, budget, n);
    lemma_dialable(known, connected, out, budget, i);
    lemma_dialable_grows(known, connected, out, budget, i, n);
    lemma_dialable_grows(known, connected, out, budget, i + 1, n);
    assert(!sits_out(out, known[i]));
    if before.len() < budget {
        assert(after == before.push(known[i]));
        assert(v[before.len() as int] == v.take(after.len() as int)[before.len() as int]);
    } else {
        assert(v =~= before);
        lemma_dialable_known(known, connected, out, budget, i);
    }
}

proof fn lemma_dialable_known(
    known: Seq<DestHash>,
    connected: Seq<DestHash>,
    out: Seq<Backoff>,
    budget: nat,
    n: int,
)
    requires
        0 <= n <= known.len(),
    ensures
        forall|k: int|
            0 <= k < dialable(known, connected, out, budget, n).len() ==> known.take(n).contains(
                #[trigger] dialable(known, connected, out, budget, n)[k],
            ),
    decreases n,
{
    if n > 0 {
        lemma_dialable_known(known, connected, out, budget, n - 1);
        let u = dialable(known, connected, out, budget, n - 1);
        let v = dialable(known, connected, out, budget, n);
        assert forall|k: int| 0 <= k < v.len() implies known.take(n).contains(
            #[trigger] v[k],
        ) by {
            if k < u.len() {
                assert(v[k] == u[k]);
                let s = known.take(n - 1);
                let j = choose|j: int| 0 <= j < s.len() && s[j] == u[k];
                assert(known.take(n)[j] == u[k]);
            } else {
                assert(known.take(n)[n - 1] == v[k]);
            }
        }
    }
}

/// A peer sits out until its time has come, and not from then on.
pub proof fn law_backoff_ends(r: Seq<Backoff>, now: u64, dest: DestHash)
    ensures
        (exists|i: int|
            0 <= i < still_out(r, now, r.len() as int).len() && (#[trigger] still_out(
                r,
                now,
                r.len() as int,
            )[i]).dest == dest) <==> (exists|i: int|
            0 <= i < r.len() && (#[trigger] r[i]).dest == dest && r[i].until > now),
{
    lemma_still_out(r, now, r.len() as int, dest);
    let v = still_out(r, now, r.len() as int);
    assert(sits_out(v, dest) <==> exists|i: int| 0 <= i < v.len() && (#[trigger] v[i]).dest == dest);
}

/// Those whose dial failed sit out until the given time, and nobody else's
/// time changes.
pub proof fn law_failed_dials_sit_out(
    r: Seq<Backoff>,
    failed: Seq<DestHash>,
    until: u64,
    dest: DestHash,
    then: u64,
)
    ensures
        failed.contains(dest) ==> benched(r, failed, until, failed.len() as int).contains(
            Backoff { dest, until },
        ),
        !failed.contains(dest) ==> (benched(r, failed, until, failed.len() as int).contains(
            Backoff { dest, until: then },
        ) <==> r.contains(Backoff { dest, until: then })),
{
    let n = failed.len() as int;
    if failed.contains(dest) {
        assert(failed.take(n) =~= failed);
        lemma_benched(r, failed, until, n, dest);
        let v = benched(r, failed, until, n);
        let i = choose|i: int| 0 <= i < v.len() && (#[trigger] v[i]).dest == dest && v[i].until == until;
        assert(v[i] == (Backoff { dest, until }));
    } else {
        lemma_bench_others(r, failed, until, n, Backoff { dest, until: then });
    }
}

proof fn lemma_bench_others(
    r: Seq<Backoff>,
    failed: Seq<DestHash>,
    until: u64,
    n: int,
    b: Backoff,
)
    requires
        0 <= n <= failed.len(),
        !failed.contains(b.dest),
    ensures
        benched(r, failed, until, n).contains(b) <==> r.contains(b),
    decreases n,
{
    if n > 0 {
        lemma_bench_others(r, failed, until, n - 1, b);
        let v = benched(r, failed, until, n - 1);
        let w = benched(r, failed, until, n);
        lemma_bench_at(v, failed[n - 1], 0);
        assert(failed[n - 1] != b.dest);
        if v.contains(b) {
            let i = choose|i: int| 0 <= i < v.len() && v[i] == b;
            assert(w[i] == b);
        }
        if w.contains(b) {
            let i = choose|i: int| 0 <= i < w.len() && w[i] == b;
            assert(v[i] == b);
        }
    }
}

} // verus!
