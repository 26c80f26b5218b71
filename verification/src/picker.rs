//! Piece selection: rarest-first with an endgame phase, plus a per-torrent
//! sequential mode and per-piece priorities.
//!
//! The picker is pure bookkeeping: no I/O, no peer objects. The engine feeds
//! it peer availability and block outcomes; it answers "what should this peer
//! request next". Requests are handed out a whole block at a time and tracked
//! as in-flight so two peers don't redundantly fetch the same block, until the
//! *endgame*, when few blocks remain and duplicate requests are the accepted
//! cure for the last-block stall.
//!
//! The picker only tracks which blocks have arrived. When a piece's blocks are
//! all in, the engine verifies and reports back [`Picker::set_have`] (passed)
//! or [`Picker::reset_piece`] (failed: download again).
use vstd::prelude::*;
use crate::bitfield::{count_present, law_count_bounds, law_count_steps_by_one, Bitfield};
use crate::sorting::{
    before, lemma_rearranged_distinct, lemma_same_elements, sort_keys, Key,
};
use crate::wire::{BlockRequest, BLOCK_LEN};

verus! {

/// Default endgame trigger: once this few blocks remain unreceived across the
/// whole torrent, allow duplicate in-flight requests.
pub const DEFAULT_ENDGAME_BLOCKS: u32 = 32;

/// What a piece is worth unless the user says otherwise.
pub const NORMAL_PRIORITY: u8 = 1;

/// Piece-selection strategy.
#[derive(Clone, Copy, PartialEq, Eq, Debug, Structural)]
pub enum Mode {
    /// Rarest-first: fetch the pieces fewest peers have, to keep the swarm
    /// healthy. The default.
    RarestFirst,
    /// Strictly ascending piece order: nice for streaming media, at some cost
    /// to swarm health.
    Sequential,
}

/// Per-piece block accounting, created lazily when a piece is first touched.
struct Progress {
    received: Vec<bool>,
    in_flight: Vec<u32>,
}

/// Tracks availability and download progress for one torrent and chooses the
/// next blocks to request.
pub struct Picker {
    piece_length: u32,
    total_length: u64,
    mode: Mode,
    endgame_blocks: u32,
    /// How many connected peers hold each piece.
    availability: Vec<u32>,
    /// Pieces we have fully verified.
    have: Bitfield,
    /// What each piece is worth; zero means it is not wanted.
    priority: Vec<u8>,
    /// Block state for started-but-incomplete pieces, indexed by piece.
    progress: Vec<Option<Progress>>,
}

// ---------------------------------------------------------------------------
// The model.

/// What is known of the blocks of one started piece.
#[verifier::ext_equal]
pub struct Blocks {
    /// Whether each block has arrived.
    pub received: Seq<bool>,
    /// How many requests for each block are outstanding.
    pub in_flight: Seq<u32>,
}

/// What a [`Picker`] stands for.
#[verifier::ext_equal]
pub struct Ledger {
    pub piece_length: nat,
    pub total_length: nat,
    pub mode: Mode,
    pub endgame_blocks: nat,
    pub availability: Seq<u32>,
    pub have: Seq<bool>,
    pub priority: Seq<u8>,
    pub progress: Seq<Option<Blocks>>,
}

/// Length of piece `index` of a torrent: the piece length, but for a shorter
/// last one, and nothing past the end.
pub open spec fn length_of_piece(index: int, piece_length: nat, total_length: nat) -> nat {
    let start = index * piece_length;
    if start >= total_length {
        0
    } else if total_length - start < piece_length {
        (total_length - start) as nat
    } else {
        piece_length
    }
}

/// Blocks that cover `len` bytes.
pub open spec fn blocks_covering(len: nat) -> nat {
    ((len + BLOCK_LEN - 1) / (BLOCK_LEN as int)) as nat
}

/// The smaller of two lengths.
pub open spec fn least(a: int, b: int) -> int {
    if a < b {
        a
    } else {
        b
    }
}

impl Ledger {
    pub open spec fn num_pieces(self) -> nat {
        self.have.len()
    }

    pub open spec fn piece_len(self, index: int) -> nat {
        length_of_piece(index, self.piece_length, self.total_length)
    }

    pub open spec fn blocks(self, index: int) -> nat {
        blocks_covering(self.piece_len(index))
    }

    /// Byte length of block `block` within piece `index`.
    pub open spec fn block_len(self, index: int, block: int) -> nat {
        let begin = block * BLOCK_LEN;
        if begin >= self.piece_len(index) {
            0
        } else {
            least(self.piece_len(index) - begin, BLOCK_LEN as int) as nat
        }
    }

    /// Whether the tables span the torrent, and every started piece has an
    /// account of each of its blocks and is not held already.
    pub open spec fn wf(self) -> bool {
        &&& self.have.len() <= u32::MAX
        &&& self.piece_length <= u32::MAX
        &&& self.availability.len() == self.have.len()
        &&& self.priority.len() == self.have.len()
        &&& self.progress.len() == self.have.len()
        &&& forall|i: int|
            0 <= i < self.progress.len() ==> #[trigger] self.account_ok(i)
    }

    pub open spec fn account_ok(self, i: int) -> bool {
        self.progress[i] matches Some(b) ==> {
            &&& b.received.len() == self.blocks(i)
            &&& b.in_flight.len() == self.blocks(i)
            &&& !self.have[i]
        }
    }

    /// The account of a piece's blocks; a piece not started has none received
    /// and none requested.
    pub open spec fn account(self, i: int) -> Blocks {
        match self.progress[i] {
            Some(b) => b,
            None => Blocks {
                received: Seq::new(self.blocks(i), |b: int| false),
                in_flight: Seq::new(self.blocks(i), |b: int| 0u32),
            },
        }
    }

    /// Whether every piece that is wanted is held.
    pub open spec fn complete(self) -> bool {
        forall|i: int|
            0 <= i < self.have.len() && self.priority[i] != 0 ==> #[trigger] self.have[i]
    }

    /// The blocks not yet received of the first `n` pieces, among those that
    /// are wanted and not held.
    pub open spec fn remaining(self, n: int) -> nat
        decreases n,
    {
        if n <= 0 {
            0
        } else {
            self.remaining(n - 1) + self.missing_blocks(n - 1)
        }
    }

    pub open spec fn missing_blocks(self, i: int) -> nat {
        if self.have[i] || self.priority[i] == 0 {
            0
        } else {
            (self.blocks(i) - count_present(self.account(i).received)) as nat
        }
    }

    /// Whether so few blocks remain that the same one may be asked of several
    /// peers.
    pub open spec fn endgame(self) -> bool {
        self.endgame_blocks != 0 && (self.remaining(self.have.len() as int) <= self.endgame_blocks
            || self.endgame_blocks == u32::MAX)
    }

    /// The bytes of the first `n` pieces that are wanted and not held.
    pub open spec fn bytes_left(self, n: int) -> nat
        decreases n,
    {
        if n <= 0 {
            0
        } else {
            self.bytes_left(n - 1) + if self.have[n - 1] || self.priority[n - 1] == 0 {
                0
            } else {
                self.piece_len(n - 1)
            }
        }
    }

    /// Whether piece `i` can be fetched from a peer that holds `peer`.
    pub open spec fn candidate(self, peer: Seq<bool>, i: int) -> bool {
        &&& 0 <= i < self.have.len()
        &&& i < peer.len()
        &&& peer[i]
        &&& !self.have[i]
        &&& self.priority[i] != 0
    }

    /// What a piece is ranked by: started pieces first, then those worth more,
    /// then (if rarest first) those that fewer peers hold, then by index.
    pub open spec fn rank(self, i: int) -> Key {
        (
            ((if self.progress[i] is Some {
                0int
            } else {
                256int
            }) + 255 - self.priority[i]) as u64,
            if self.mode == Mode::RarestFirst {
                self.availability[i] as u64
            } else {
                0u64
            },
            i as u64,
        )
    }

    /// Whether `order` lists exactly the candidates, each once, by rank.
    pub open spec fn lists_candidates(self, peer: Seq<bool>, order: Seq<u32>) -> bool {
        &&& forall|k: int|
            0 <= k < order.len() ==> self.candidate(peer, #[trigger] order[k] as int)
        &&& forall|i: int| #[trigger] self.candidate(peer, i) ==> order.contains(i as u32)
        &&& forall|j: int, k: int|
            0 <= j < k < order.len() ==> before(
                self.rank(#[trigger] order[j] as int),
                self.rank(#[trigger] order[k] as int),
            )
    }

    /// The candidates by rank.
    pub open spec fn candidate_order(self, peer: Seq<bool>) -> Seq<u32> {
        choose|order: Seq<u32>| #[trigger] self.lists_candidates(peer, order)
    }

    /// Whether block `b` of piece `i` may be requested now.
    pub open spec fn requestable(self, i: int, b: int) -> bool {
        !self.account(i).received[b] && (self.endgame() || self.account(i).in_flight[b] == 0)
    }

    /// The request for block `b` of piece `i`.
    pub open spec fn request(self, i: int, b: int) -> BlockRequest {
        BlockRequest {
            index: i as u32,
            begin: (b * BLOCK_LEN) as u32,
            length: self.block_len(i, b) as u32,
        }
    }

    /// The requests for those of the first `n` blocks of piece `i` that may be
    /// requested.
    pub open spec fn open_blocks(self, i: int, n: int) -> Seq<BlockRequest>
        decreases n,
    {
        if n <= 0 {
            Seq::empty()
        } else if self.requestable(i, n - 1) {
            self.open_blocks(i, n - 1).push(self.request(i, n - 1))
        } else {
            self.open_blocks(i, n - 1)
        }
    }

    /// The requests that the first `n` pieces of `order` have to offer.
    pub open spec fn offers(self, order: Seq<u32>, n: int) -> Seq<BlockRequest>
        decreases n,
    {
        if n <= 0 {
            Seq::empty()
        } else {
            self.offers(order, n - 1) + self.open_blocks(
                order[n - 1] as int,
                self.blocks(order[n - 1] as int) as int,
            )
        }
    }

    /// How many pieces of `order`, from the `n`th on, are looked at until
    /// `want` requests are found.
    pub open spec fn looked_at(self, order: Seq<u32>, want: nat, n: int) -> int
        decreases order.len() - n,
    {
        if 0 <= n < order.len() && self.offers(order, n).len() < want {
            self.looked_at(order, want, n + 1)
        } else {
            n
        }
    }

    /// All that a peer that holds `peer` could be asked for.
    pub open spec fn on_offer(self, peer: Seq<bool>) -> Seq<BlockRequest> {
        let order = self.candidate_order(peer);
        self.offers(order, order.len() as int)
    }

    /// What a peer that holds `peer` is asked for: the first `want` requests
    /// on offer.
    pub open spec fn picks(self, peer: Seq<bool>, want: nat) -> Seq<BlockRequest> {
        let all = self.on_offer(peer);
        all.take(least(want as int, all.len() as int))
    }

    /// The ledger once `order` has been looked at and `asked` is requested:
    /// the pieces looked at are started, and each block asked for has one more
    /// request outstanding.
    pub open spec fn with_requests(self, order: Seq<u32>, asked: Seq<BlockRequest>) -> Ledger {
        Ledger {
            progress: Seq::new(
                self.progress.len(),
                |i: int|
                    if self.progress[i] is Some || order.contains(i as u32) {
                        Some(self.account_with(i, asked))
                    } else {
                        None
                    },
            ),
            ..self
        }
    }

    pub open spec fn account_with(self, i: int, asked: Seq<BlockRequest>) -> Blocks {
        Blocks {
            received: self.account(i).received,
            in_flight: Seq::new(
                self.blocks(i),
                |b: int|
                    if asked.contains(self.request(i, b)) {
                        (self.account(i).in_flight[b] + 1) as u32
                    } else {
                        self.account(i).in_flight[b]
                    },
            ),
        }
    }

    /// The ledger after a pick for a peer that holds `peer`.
    pub open spec fn after_pick(self, peer: Seq<bool>, want: nat) -> Ledger {
        let order = self.candidate_order(peer);
        self.with_requests(
            order.take(self.looked_at(order, want, 0)),
            self.picks(peer, want),
        )
    }

    /// The ledger with another account for one piece.
    pub open spec fn with_account(self, i: int, b: Option<Blocks>) -> Ledger {
        Ledger { progress: self.progress.update(i, b), ..self }
    }

    /// The sum of all outstanding requests of the first `n` pieces.
    pub open spec fn in_flight_total(self, n: int) -> nat
        decreases n,
    {
        if n <= 0 {
            0
        } else {
            self.in_flight_total(n - 1) + match self.progress[n - 1] {
                Some(b) => total(b.in_flight),
                None => 0,
            }
        }
    }

    /// Whether another request for any block can still be counted.
    pub open spec fn countable(self) -> bool {
        forall|i: int, b: int|
            0 <= i < self.progress.len() && self.progress[i] is Some && 0 <= b
                < self.progress[i]->Some_0.in_flight.len()
                ==> #[trigger] self.progress[i]->Some_0.in_flight[b] < u32::MAX
    }
}

/// Whether one more holder of each piece in `field` can be counted.
pub open spec fn room_for(l: Ledger, field: Seq<bool>) -> bool {
    forall|i: int|
        0 <= i < l.have.len() && i < field.len() && field[i] ==> #[trigger] l.availability[i]
            < u32::MAX
}

/// The ledger once a peer has announced that it holds `field`.
pub open spec fn announced(l: Ledger, field: Seq<bool>) -> Ledger {
    Ledger {
        availability: Seq::new(
            l.have.len(),
            |i: int|
                if i < field.len() && field[i] {
                    (l.availability[i] + 1) as u32
                } else {
                    l.availability[i]
                },
        ),
        ..l
    }
}

/// The ledger once a peer that held `field` is gone.
pub open spec fn withdrawn(l: Ledger, field: Seq<bool>) -> Ledger {
    Ledger {
        availability: Seq::new(
            l.have.len(),
            |i: int|
                if i < field.len() && field[i] {
                    lowered(l.availability[i])
                } else {
                    l.availability[i]
                },
        ),
        ..l
    }
}

/// The sum of a sequence of counts.
pub open spec fn total(s: Seq<u32>) -> nat
    decreases s.len(),
{
    if s.len() == 0 {
        0
    } else {
        total(s.drop_last()) + s.last() as nat
    }
}

/// One less, but never below zero.
pub open spec fn lowered(n: u32) -> u32 {
    if n == 0 {
        0
    } else {
        (n - 1) as u32
    }
}

spec fn progress_view(p: Option<Progress>) -> Option<Blocks> {
    match p {
        Some(p) => Some(Blocks { received: p.received@, in_flight: p.in_flight@ }),
        None => None,
    }
}

impl View for Picker {
    type V = Ledger;

    closed spec fn view(&self) -> Ledger {
        Ledger {
            piece_length: self.piece_length as nat,
            total_length: self.total_length as nat,
            mode: self.mode,
            endgame_blocks: self.endgame_blocks as nat,
            availability: self.availability@,
            have: self.have@,
            priority: self.priority@,
            progress: Seq::new(self.progress@.len(), |i: int| progress_view(self.progress@[i])),
        }
    }
}


// ---------------------------------------------------------------------------
// Facts about the model.

pub proof fn lemma_blocks_bound(l: Ledger, i: int, b: int)
    requires
        l.wf(),
        0 <= i < l.have.len(),
        0 <= b < l.blocks(i),
    ensures
        0 <= b * BLOCK_LEN < l.piece_len(i),
        l.piece_len(i) <= u32::MAX,
        0 < l.block_len(i, b) <= BLOCK_LEN,
        b * BLOCK_LEN + l.block_len(i, b) <= l.piece_len(i),
{
}

proof fn lemma_piece_len_bound(l: Ledger, i: int)
    requires
        l.piece_length <= u32::MAX,
        0 <= i,
    ensures
        l.piece_len(i) <= l.piece_length,
        l.blocks(i) <= l.piece_len(i),
{
}

proof fn lemma_request_injective(l: Ledger, i: int, x: int, j: int, y: int)
    requires
        l.wf(),
        0 <= i < l.have.len(),
        0 <= j < l.have.len(),
        0 <= x < l.blocks(i),
        0 <= y < l.blocks(j),
        l.request(i, x) == l.request(j, y),
    ensures
        i == j,
        x == y,
{
    lemma_blocks_bound(l, i, x);
    lemma_blocks_bound(l, j, y);
    assert(i as u32 == j as u32);
    assert((x * BLOCK_LEN) as u32 == (y * BLOCK_LEN) as u32);
}

proof fn lemma_open_contains(l: Ledger, i: int, n: int, r: BlockRequest)
    ensures
        l.open_blocks(i, n).contains(r) <==> exists|x: int|
            0 <= x < n && #[trigger] l.requestable(i, x) && r == l.request(i, x),
    decreases n,
{
    if n > 0 {
        lemma_open_contains(l, i, n - 1, r);
        let a = l.open_blocks(i, n - 1);
        let b = l.open_blocks(i, n);
        if l.requestable(i, n - 1) {
            assert(b == a.push(l.request(i, n - 1)));
            if a.contains(r) {
                let k = choose|k: int| 0 <= k < a.len() && a[k] == r;
                assert(b[k] == r);
            }
            assert(b[b.len() - 1] == l.request(i, n - 1));
            if b.contains(r) {
                let k = choose|k: int| 0 <= k < b.len() && b[k] == r;
                if k < a.len() {
                    assert(a[k] == r);
                }
            }
        }
    }
}

proof fn lemma_open_prefix(l: Ledger, i: int, m: int, n: int)
    requires
        0 <= m <= n,
    ensures
        l.open_blocks(i, m).len() <= l.open_blocks(i, n).len(),
        l.open_blocks(i, n).take(l.open_blocks(i, m).len() as int) == l.open_blocks(i, m),
    decreases n - m,
{
    let a = l.open_blocks(i, m);
    if m < n {
        lemma_open_prefix(l, i, m + 1, n);
        let b = l.open_blocks(i, m + 1);
        let c = l.open_blocks(i, n);
        assert(b.take(a.len() as int) =~= a);
        assert(c.take(a.len() as int) =~= c.take(b.len() as int).take(a.len() as int));
    } else {
        assert(a.take(a.len() as int) =~= a);
    }
}

proof fn lemma_offers_prefix(l: Ledger, order: Seq<u32>, m: int, n: int)
    requires
        0 <= m <= n,
    ensures
        l.offers(order, m).len() <= l.offers(order, n).len(),
        l.offers(order, n).take(l.offers(order, m).len() as int) == l.offers(order, m),
    decreases n - m,
{
    let a = l.offers(order, m);
    if m < n {
        lemma_offers_prefix(l, order, m + 1, n);
        let b = l.offers(order, m + 1);
        let c = l.offers(order, n);
        assert(b.take(a.len() as int) =~= a);
        assert(c.take(a.len() as int) =~= c.take(b.len() as int).take(a.len() as int));
    } else {
        assert(a.take(a.len() as int) =~= a);
    }
}

/// Whether `r` asks for a block that piece `order[k]` has to offer.
pub open spec fn offered_by(l: Ledger, order: Seq<u32>, k: int, r: BlockRequest) -> bool {
    exists|x: int|
        0 <= x < l.blocks(order[k] as int) && #[trigger] l.requestable(order[k] as int, x) && r
            == l.request(order[k] as int, x)
}

proof fn lemma_offers_contains(l: Ledger, order: Seq<u32>, n: int, r: BlockRequest)
    requires
        0 <= n <= order.len(),
    ensures
        l.offers(order, n).contains(r) <==> exists|k: int|
            0 <= k < n && #[trigger] offered_by(l, order, k, r),
    decreases n,
{
    if n > 0 {
        lemma_offers_contains(l, order, n - 1, r);
        let i = order[n - 1] as int;
        lemma_open_contains(l, i, l.blocks(i) as int, r);
        let a = l.offers(order, n - 1);
        let o = l.open_blocks(i, l.blocks(i) as int);
        let b = l.offers(order, n);
        assert(b == a + o);
        if a.contains(r) {
            let k = choose|k: int| 0 <= k < a.len() && a[k] == r;
            assert(b[k] == r);
        }
        if o.contains(r) {
            let k = choose|k: int| 0 <= k < o.len() && o[k] == r;
            assert(b[a.len() + k] == r);
            assert(offered_by(l, order, n - 1, r));
        }
        if b.contains(r) {
            let k = choose|k: int| 0 <= k < b.len() && b[k] == r;
            if k < a.len() {
                assert(a[k] == r);
            } else {
                assert(o[k - a.len()] == r);
                assert(offered_by(l, order, n - 1, r));
            }
        }
    }
}

/// Two lists of the candidates by rank are the same list.
pub proof fn law_candidate_order_is_unique(
    l: Ledger,
    peer: Seq<bool>,
    a: Seq<u32>,
    b: Seq<u32>,
)
    requires
        l.wf(),
        l.lists_candidates(peer, a),
        l.lists_candidates(peer, b),
    ensures
        a == b,
{
    lemma_order_le(l, peer, a, b);
    lemma_order_le(l, peer, b, a);
    assert forall|k: int| 0 <= k < a.len() implies a[k] == b[k] by {
        lemma_order_agrees(l, peer, a, b, k);
    }
    assert(a =~= b);
}

proof fn lemma_order_distinct(l: Ledger, peer: Seq<bool>, a: Seq<u32>, j: int, k: int)
    requires
        l.lists_candidates(peer, a),
        0 <= j < a.len(),
        0 <= k < a.len(),
        a[j] == a[k],
    ensures
        j == k,
{
    if j < k {
        assert(before(l.rank(a[j] as int), l.rank(a[k] as int)));
    } else if k < j {
        assert(before(l.rank(a[k] as int), l.rank(a[j] as int)));
    }
}

proof fn lemma_order_agrees(l: Ledger, peer: Seq<bool>, a: Seq<u32>, b: Seq<u32>, k: int)
    requires
        l.wf(),
        l.lists_candidates(peer, a),
        l.lists_candidates(peer, b),
        0 <= k < a.len(),
        k < b.len(),
    ensures
        a[k] == b[k],
    decreases k,
{
    assert forall|j: int| 0 <= j < k implies a[j] == b[j] by {
        lemma_order_agrees(l, peer, a, b, j);
    }
    assert(l.candidate(peer, a[k] as int));
    assert(l.candidate(peer, b[k] as int));
    assert(b.contains(a[k] as int as u32));
    assert(a.contains(b[k] as int as u32));
    let p = choose|p: int| 0 <= p < b.len() && b[p] == a[k];
    let q = choose|q: int| 0 <= q < a.len() && a[q] == b[k];
    if p < k {
        assert(a[p] == b[p]);
        lemma_order_distinct(l, peer, a, p, k);
    }
    if q < k {
        assert(a[q] == b[q]);
        lemma_order_distinct(l, peer, b, q, k);
    }
    if p > k && q > k {
        assert(before(l.rank(b[k] as int), l.rank(b[p] as int)));
        assert(before(l.rank(a[k] as int), l.rank(a[q] as int)));
    }
}

proof fn lemma_order_le(l: Ledger, peer: Seq<bool>, a: Seq<u32>, b: Seq<u32>)
    requires
        l.wf(),
        l.lists_candidates(peer, a),
        l.lists_candidates(peer, b),
    ensures
        a.len() <= b.len(),
{
    if a.len() > b.len() {
        let k = b.len() as int;
        assert(l.candidate(peer, a[k] as int));
        assert(b.contains(a[k] as int as u32));
        let p = choose|p: int| 0 <= p < b.len() && b[p] == a[k];
        lemma_order_agrees(l, peer, a, b, p);
        lemma_order_distinct(l, peer, a, p, k);
    }
}

proof fn lemma_count_monotone(l: Ledger, m: int, n: int)
    requires
        0 <= m <= n,
    ensures
        l.remaining(m) <= l.remaining(n),
    decreases n - m,
{
    if m < n {
        lemma_count_monotone(l, m, n - 1);
    }
}

// ---------------------------------------------------------------------------
// The operations.

impl Progress {
    fn new(blocks: u32) -> (p: Progress)
        ensures
            p.received@ == Seq::new(blocks as nat, |b: int| false),
            p.in_flight@ == Seq::new(blocks as nat, |b: int| 0u32),
    {
        let n: usize = blocks as usize;
        let p = Progress { received: vec![false; n], in_flight: vec![0u32; n] };
        proof {
            assert(p.received@ =~= Seq::new(blocks as nat, |b: int| false));
            assert(p.in_flight@ =~= Seq::new(blocks as nat, |b: int| 0u32));
        }
        p
    }

    fn received_count(&self) -> (n: u32)
        requires
            self.received@.len() <= u32::MAX,
        ensures
            n == count_present(self.received@),
            n <= self.received@.len(),
    {
        let mut n: u32 = 0;
        let mut i: usize = 0;
        while i < self.received.len()
            invariant
                i <= self.received.len(),
                self.received@.len() <= u32::MAX,
                n == count_present(self.received@.take(i as int)),
                n <= i,
            decreases self.received.len() - i,
        {
            proof {
                assert(self.received@.take(i as int + 1).drop_last() =~= self.received@.take(
                    i as int,
                ));
            }
            if self.received[i] {
                n = n + 1;
            }
            i = i + 1;
        }
        proof {
            assert(self.received@.take(i as int) =~= self.received@);
        }
        n
    }
}

impl Picker {
    /// Check every invariant this structure is supposed to maintain.
    pub fn check_invariants(&self) -> (r: bool)
        ensures
            r == self@.wf(),
    {
        let n: u32 = self.have.len();
        if self.availability.len() != n as usize || self.priority.len() != n as usize
            || self.progress.len() != n as usize {
            return false;
        }
        let mut i: u32 = 0;
        while i < n
            invariant
                i <= n,
                n == self.have@.len(),
                self.progress@.len() == n,
                forall|j: int| 0 <= j < i ==> #[trigger] self@.account_ok(j),
            decreases n - i,
        {
            let blocks: usize = self.blocks_in_piece(i) as usize;
            let ok = match &self.progress[i as usize] {
                Some(p) => p.received.len() == blocks && p.in_flight.len() == blocks
                    && !self.have.has(i),
                None => true,
            };
            proof {
                assert(self@.progress[i as int] == progress_view(self.progress@[i as int]));
                assert(ok == self@.account_ok(i as int));
            }
            if !ok {
                return false;
            }
            i = i + 1;
        }
        true
    }

    /// Total in-flight block requests the picker believes are outstanding.
    pub fn in_flight_total(&self) -> (n: u64)
        requires
            self@.wf(),
            self@.in_flight_total(self@.have.len() as int) <= u64::MAX,
        ensures
            n == self@.in_flight_total(self@.have.len() as int),
    {
        let mut n: u64 = 0;
        let mut i: usize = 0;
        let ghost l = self@;
        while i < self.progress.len()
            invariant
                i <= self.progress.len(),
                l == self@,
                l.wf(),
                l.in_flight_total(l.have.len() as int) <= u64::MAX,
                n == l.in_flight_total(i as int),
            decreases self.progress.len() - i,
        {
            proof {
                lemma_total_monotone(l, i as int + 1, l.have.len() as int);
                assert(l.progress[i as int] == progress_view(self.progress@[i as int]));
            }
            match &self.progress[i] {
                Some(p) => {
                    let mut b: usize = 0;
                    let ghost start = n;
                    let ghost flight = p.in_flight@;
                    while b < p.in_flight.len()
                        invariant
                            b <= p.in_flight.len(),
                            flight == p.in_flight@,
                            start + total(flight) <= u64::MAX,
                            n == start + total(flight.take(b as int)),
                        decreases p.in_flight.len() - b,
                    {
                        proof {
                            assert(flight.take(b as int + 1).drop_last() =~= flight.take(b as int));
                            lemma_sum_prefix(flight, b as int + 1);
                        }
                        n = n + p.in_flight[b] as u64;
                        b = b + 1;
                    }
                    proof {
                        assert(flight.take(b as int) =~= flight);
                    }
                },
                None => {},
            }
            i = i + 1;
        }
        n
    }

    /// A picker for a torrent of `num_pieces` pieces.
    pub fn new(num_pieces: u32, piece_length: u32, total_length: u64, mode: Mode) -> (p: Picker)
        ensures
            p@ == (Ledger {
                piece_length: piece_length as nat,
                total_length: total_length as nat,
                mode,
                endgame_blocks: DEFAULT_ENDGAME_BLOCKS as nat,
                availability: Seq::new(num_pieces as nat, |i: int| 0u32),
                have: Seq::new(num_pieces as nat, |i: int| false),
                priority: Seq::new(num_pieces as nat, |i: int| NORMAL_PRIORITY),
                progress: Seq::new(num_pieces as nat, |i: int| None::<Blocks>),
            }),
            p@.wf(),
    {
        let mut progress: Vec<Option<Progress>> = Vec::new();
        let mut i: u32 = 0;
        while i < num_pieces
            invariant
                i <= num_pieces,
                progress@.len() == i,
                forall|j: int| 0 <= j < i ==> progress_view(#[trigger] progress@[j]) is None,
            decreases num_pieces - i,
        {
            progress.push(None);
            i = i + 1;
        }
        let p = Picker {
            piece_length,
            total_length,
            mode,
            endgame_blocks: DEFAULT_ENDGAME_BLOCKS,
            availability: vec![0u32; num_pieces as usize],
            have: Bitfield::empty(num_pieces),
            priority: vec![NORMAL_PRIORITY; num_pieces as usize],
            progress,
        };
        proof {
            assert(p@.availability =~= Seq::new(num_pieces as nat, |i: int| 0u32));
            assert(p@.priority =~= Seq::new(num_pieces as nat, |i: int| NORMAL_PRIORITY));
            assert(p@.progress =~= Seq::new(num_pieces as nat, |i: int| None::<Blocks>));
        }
        p
    }

    /// The piece-selection mode in force.
    pub fn mode(&self) -> (m: Mode)
        ensures
            m == self@.mode,
    {
        self.mode
    }

    /// Switch piece-selection mode. Only the *next* pick is affected: blocks
    /// already requested stay requested.
    pub fn set_mode(&mut self, mode: Mode)
        ensures
            final(self)@ == (Ledger { mode, ..old(self)@ }),
            old(self)@.wf() ==> final(self)@.wf(),
    {
        self.mode = mode;
        proof {
            if old(self)@.wf() {
                lemma_same_accounts(old(self)@, self@);
            }
        }
    }

    /// Override the endgame threshold (blocks remaining). Zero disables
    /// endgame entirely.
    pub fn set_endgame_blocks(&mut self, blocks: u32)
        ensures
            final(self)@ == (Ledger { endgame_blocks: blocks as nat, ..old(self)@ }),
            old(self)@.wf() ==> final(self)@.wf(),
    {
        self.endgame_blocks = blocks;
        proof {
            if old(self)@.wf() {
                lemma_same_accounts(old(self)@, self@);
            }
        }
    }

    /// Set what each piece is worth: zero to skip it, and the more the sooner.
    /// Pieces beyond the end of `per_piece` keep the normal priority.
    pub fn set_piece_priorities(&mut self, per_piece: &[u8])
        requires
            old(self)@.wf(),
        ensures
            final(self)@ == (Ledger {
                priority: Seq::new(
                    old(self)@.have.len(),
                    |i: int|
                        if i < per_piece@.len() {
                            per_piece@[i]
                        } else {
                            NORMAL_PRIORITY
                        },
                ),
                ..old(self)@
            }),
            final(self)@.wf(),
    {
        let n: u32 = self.have.len();
        let mut priority: Vec<u8> = Vec::new();
        let mut i: u32 = 0;
        while i < n
            invariant
                i <= n,
                priority@.len() == i,
                forall|j: int|
                    0 <= j < i ==> #[trigger] priority@[j] == (if j < per_piece@.len() {
                        per_piece@[j]
                    } else {
                        NORMAL_PRIORITY
                    }),
            decreases n - i,
        {
            if (i as usize) < per_piece.len() {
                priority.push(per_piece[i as usize]);
            } else {
                priority.push(NORMAL_PRIORITY);
            }
            i = i + 1;
        }
        self.priority = priority;
        proof {
            assert(self@.priority =~= Seq::new(
                old(self)@.have.len(),
                |i: int|
                    if i < per_piece@.len() {
                        per_piece@[i]
                    } else {
                        NORMAL_PRIORITY
                    },
            ));
            lemma_same_accounts(old(self)@, self@);
        }
    }

    /// Length of piece `index` (final piece may be short).
    pub fn piece_len(&self, index: u32) -> (n: u32)
        ensures
            n == self@.piece_len(index as int),
            n <= self@.piece_length,
    {
        proof {
            assert(index as u64 * self.piece_length as u64 <= u64::MAX) by (nonlinear_arith)
                requires
                    index <= u32::MAX,
                    self.piece_length <= u32::MAX,
            ;
        }
        let start: u64 = index as u64 * self.piece_length as u64;
        if start >= self.total_length {
            return 0;
        }
        let left: u64 = self.total_length - start;
        if left < self.piece_length as u64 {
            left as u32
        } else {
            self.piece_length
        }
    }

    /// Number of blocks in piece `index`.
    pub fn blocks_in_piece(&self, index: u32) -> (n: u32)
        ensures
            n == self@.blocks(index as int),
    {
        ((self.piece_len(index) as u64 + (BLOCK_LEN - 1) as u64) / BLOCK_LEN as u64) as u32
    }

    /// Byte length of block `block` within piece `index`.
    pub fn block_len(&self, index: u32, block: u32) -> (n: u32)
        ensures
            n == self@.block_len(index as int, block as int),
    {
        let plen: u32 = self.piece_len(index);
        let begin: u64 = block as u64 * BLOCK_LEN as u64;
        if begin >= plen as u64 {
            return 0;
        }
        let left: u32 = plen - begin as u32;
        if left < BLOCK_LEN {
            left
        } else {
            BLOCK_LEN
        }
    }

    /// Whether we have verified piece `index`.
    pub fn has(&self, index: u32) -> (r: bool)
        ensures
            r == (index < self@.have.len() && self@.have[index as int]),
    {
        self.have.has(index)
    }

    /// Our verified-piece set, e.g. to send as a bitfield.
    pub fn have_field(&self) -> (f: &Bitfield)
        ensures
            f@ == self@.have,
    {
        &self.have
    }

    /// Whether every wanted piece is verified.
    pub fn is_complete(&self) -> (r: bool)
        requires
            self@.wf(),
        ensures
            r == self@.complete(),
    {
        let n: u32 = self.have.len();
        let mut i: u32 = 0;
        while i < n
            invariant
                i <= n,
                n == self@.have.len(),
                self@.wf(),
                forall|j: int|
                    0 <= j < i && self@.priority[j] != 0 ==> #[trigger] self@.have[j],
            decreases n - i,
        {
            if self.priority[i as usize] != 0 && !self.have.has(i) {
                proof {
                    assert(!self@.have[i as int]);
                }
                return false;
            }
            i = i + 1;
        }
        true
    }

    /// Bytes of the pieces we want and do not hold.
    pub fn bytes_left(&self) -> (n: u64)
        requires
            self@.wf(),
        ensures
            n == self@.bytes_left(self@.have.len() as int),
            n <= self@.total_length,
    {
        let count: u32 = self.have.len();
        let mut n: u64 = 0;
        let mut i: u32 = 0;
        while i < count
            invariant
                i <= count,
                count == self@.have.len(),
                self@.wf(),
                n == self@.bytes_left(i as int),
                n <= sum_of_pieces(self@.piece_length, self@.total_length, i as int),
            decreases count - i,
        {
            proof {
                law_pieces_partition_the_torrent(
                    self@.piece_length,
                    self@.total_length,
                    i as int + 1,
                );
                assert(self@.total_length <= u64::MAX);
            }
            if self.priority[i as usize] != 0 && !self.have.has(i) {
                n = n + self.piece_len(i) as u64;
            }
            i = i + 1;
        }
        proof {
            law_pieces_partition_the_torrent(self@.piece_length, self@.total_length, count as int);
        }
        n
    }

    /// Record that a peer holds every piece in `field` (its bitfield, or a
    /// have-all). Call once per peer when it announces its set.
    pub fn add_bitfield(&mut self, field: &Bitfield)
        requires
            old(self)@.wf(),
            room_for(old(self)@, field@),
        ensures
            final(self)@ == announced(old(self)@, field@),
            final(self)@.wf(),
    {
        let n: u32 = self.have.len();
        let ghost l = self@;
        let mut i: u32 = 0;
        while i < n
            invariant
                i <= n,
                n == l.have.len(),
                l == old(self)@,
                l.wf(),
                self@ == (Ledger { availability: self.availability@, ..l }),
                self.availability@.len() == n,
                room_for(l, field@),
                forall|j: int|
                    0 <= j < i ==> #[trigger] self.availability@[j] == (if j < field@.len()
                        && field@[j] {
                        (l.availability[j] + 1) as u32
                    } else {
                        l.availability[j]
                    }),
                forall|j: int| i <= j < n ==> #[trigger] self.availability@[j] == l.availability[j],
            decreases n - i,
        {
            if field.has(i) {
                let a: u32 = self.availability[i as usize];
                proof {
                    assert(l.availability[i as int] < u32::MAX);
                }
                self.availability.set(i as usize, a + 1);
            }
            i = i + 1;
        }
        proof {
            assert(self@.availability =~= announced(l, field@).availability);
            lemma_same_accounts(old(self)@, self@);
        }
    }

    /// Undo [`Picker::add_bitfield`] when a peer disconnects.
    pub fn remove_bitfield(&mut self, field: &Bitfield)
        requires
            old(self)@.wf(),
        ensures
            final(self)@ == withdrawn(old(self)@, field@),
            final(self)@.wf(),
    {
        let n: u32 = self.have.len();
        let ghost l = self@;
        let mut i: u32 = 0;
        while i < n
            invariant
                i <= n,
                n == l.have.len(),
                l == old(self)@,
                l.wf(),
                self@ == (Ledger { availability: self.availability@, ..l }),
                self.availability@.len() == n,
                forall|j: int|
                    0 <= j < i ==> #[trigger] self.availability@[j] == (if j < field@.len()
                        && field@[j] {
                        lowered(l.availability[j])
                    } else {
                        l.availability[j]
                    }),
                forall|j: int| i <= j < n ==> #[trigger] self.availability@[j] == l.availability[j],
            decreases n - i,
        {
            if field.has(i) {
                let a: u32 = self.availability[i as usize];
                self.availability.set(i as usize, a.saturating_sub(1));
            }
            i = i + 1;
        }
        proof {
            assert(self@.availability =~= withdrawn(l, field@).availability);
            lemma_same_accounts(old(self)@, self@);
        }
    }

    /// Record a single new piece a peer announced via `have`.
    pub fn add_single(&mut self, index: u32)
        requires
            old(self)@.wf(),
            index < old(self)@.have.len() ==> old(self)@.availability[index as int] < u32::MAX,
        ensures
            final(self)@ == (if index < old(self)@.have.len() {
                Ledger {
                    availability: old(self)@.availability.update(
                        index as int,
                        (old(self)@.availability[index as int] + 1) as u32,
                    ),
                    ..old(self)@
                }
            } else {
                old(self)@
            }),
            final(self)@.wf(),
    {
        if index < self.have.len() {
            let a: u32 = self.availability[index as usize];
            self.availability.set(index as usize, a + 1);
        }
        proof {
            lemma_same_accounts(old(self)@, self@);
        }
    }

    /// Availability of piece `index` (how many peers hold it).
    pub fn availability(&self, index: u32) -> (n: u32)
        ensures
            n == (if index < self@.availability.len() {
                self@.availability[index as int]
            } else {
                0
            }),
    {
        if (index as usize) < self.availability.len() {
            self.availability[index as usize]
        } else {
            0
        }
    }

    /// Mark piece `index` verified. Clears its block progress.
    pub fn set_have(&mut self, index: u32)
        requires
            old(self)@.wf(),
        ensures
            final(self)@ == (if index < old(self)@.have.len() {
                Ledger {
                    have: old(self)@.have.update(index as int, true),
                    progress: old(self)@.progress.update(index as int, None),
                    ..old(self)@
                }
            } else {
                old(self)@
            }),
            final(self)@.wf(),
    {
        if index < self.have.len() {
            self.have.set(index);
            self.progress.set(index as usize, None);
            proof {
                assert(self@.progress =~= old(self)@.progress.update(index as int, None));
                let l = old(self)@;
                assert forall|i: int| 0 <= i < self@.progress.len() implies #[trigger] self@.account_ok(
                    i,
                ) by {
                    assert(l.account_ok(i));
                }
            }
        }
    }

    /// Discard a piece's downloaded blocks after a failed verification, so it
    /// is re-downloaded from scratch.
    pub fn reset_piece(&mut self, index: u32)
        requires
            old(self)@.wf(),
        ensures
            final(self)@ == (if index < old(self)@.have.len() {
                old(self)@.with_account(index as int, None)
            } else {
                old(self)@
            }),
            final(self)@.wf(),
    {
        if index < self.have.len() {
            self.progress.set(index as usize, None);
            proof {
                assert(self@.progress =~= old(self)@.progress.update(index as int, None));
                let l = old(self)@;
                assert forall|i: int| 0 <= i < self@.progress.len() implies #[trigger] self@.account_ok(
                    i,
                ) by {
                    assert(l.account_ok(i));
                }
            }
        }
    }

    /// Record that block `block` of piece `index` arrived. Returns `true` when
    /// that completes the piece (all blocks received) and the engine should
    /// verify it.
    ///
    /// The caller only reports blocks it had in flight, so the request is
    /// settled either way: a duplicate endgame delivery lowers the count too.
    pub fn block_received(&mut self, index: u32, block: u32) -> (complete: bool)
        requires
            old(self)@.wf(),
            index < old(self)@.have.len() ==> !old(self)@.have[index as int],
        ensures
            final(self)@.wf(),
            final(self)@ == received_block(old(self)@, index as int, block as int),
            complete == (index < old(self)@.have.len() && block < old(self)@.blocks(index as int)
                && forall|b: int|
                0 <= b < old(self)@.blocks(index as int) && b != block ==> #[trigger] old(
                    self,
                )@.account(index as int).received[b]),
    {
        let ghost l = self@;
        let blocks: u32 = self.blocks_in_piece(index);
        let i: usize = index as usize;
        if i >= self.progress.len() {
            return false;
        }
        proof {
            assert(l.account_ok(index as int));
            assert(l.progress[index as int] == progress_view(self.progress@[index as int]));
        }
        let mut slot: Option<Progress> = None;
        std::mem::swap(&mut self.progress[i], &mut slot);
        let mut prog = match slot {
            Some(p) => p,
            None => Progress::new(blocks),
        };
        proof {
            assert(prog.received@ == l.account(index as int).received);
            assert(prog.in_flight@ == l.account(index as int).in_flight);
        }
        let mut complete = false;
        if block < blocks {
            let n: u32 = prog.in_flight[block as usize];
            prog.in_flight.set(block as usize, n.saturating_sub(1));
            prog.received.set(block as usize, true);
            complete = prog.received_count() == blocks;
            proof {
                law_count_bounds(prog.received@);
                let r0 = l.account(index as int).received;
                let r1 = prog.received@;
                if complete {
                    assert forall|b: int|
                        0 <= b < l.blocks(index as int) && b != block implies #[trigger] r0[b] by {
                        assert(r1[b]);
                    }
                } else {
                    let w = choose|w: int| 0 <= w < r1.len() && !r1[w];
                    assert(!r0[w]);
                }
            }
        }
        self.progress.set(i, Some(prog));
        proof {
            let after = received_block(l, index as int, block as int);
            assert(self@.progress =~= after.progress);
            assert forall|j: int| 0 <= j < self@.progress.len() implies #[trigger] self@.account_ok(
                j,
            ) by {
                assert(l.account_ok(j));
            }
        }
        complete
    }

    /// Release an in-flight block that will not arrive (timeout, reject, or
    /// the peer disconnected), so it can be handed out again.
    pub fn block_failed(&mut self, index: u32, block: u32)
        requires
            old(self)@.wf(),
        ensures
            final(self)@.wf(),
            final(self)@ == failed_block(old(self)@, index as int, block as int),
    {
        let ghost l = self@;
        let i: usize = index as usize;
        if i < self.progress.len() {
            proof {
                assert(l.account_ok(index as int));
                assert(l.progress[index as int] == progress_view(self.progress@[index as int]));
            }
            let mut slot: Option<Progress> = None;
            std::mem::swap(&mut self.progress[i], &mut slot);
            if let Some(mut prog) = slot {
                if (block as usize) < prog.in_flight.len() {
                    let n: u32 = prog.in_flight[block as usize];
                    prog.in_flight.set(block as usize, n.saturating_sub(1));
                }
                self.progress.set(i, Some(prog));
            }
            proof {
                let after = failed_block(l, index as int, block as int);
                assert(self@.progress =~= after.progress);
                assert forall|j: int|
                    0 <= j < self@.progress.len() implies #[trigger] self@.account_ok(j) by {
                    assert(l.account_ok(j));
                }
            }
        }
    }

    /// Whether so few blocks remain that duplicate requests are allowed.
    pub fn in_endgame(&self) -> (r: bool)
        requires
            self@.wf(),
        ensures
            r == self@.endgame(),
    {
        if self.endgame_blocks == 0 {
            return false;
        }
        let ghost l = self@;
        let n: u32 = self.have.len();
        let mut remaining: u32 = 0;
        let mut i: u32 = 0;
        while i < n
            invariant
                i <= n,
                l == self@,
                l.wf(),
                n == l.have.len(),
                self.endgame_blocks != 0,
                remaining <= self.endgame_blocks,
                remaining == least(l.remaining(i as int) as int, u32::MAX as int),
            decreases n - i,
        {
            if self.priority[i as usize] != 0 && !self.have.has(i) {
                proof {
                    assert(l.account_ok(i as int));
                    assert(l.progress[i as int] == progress_view(self.progress@[i as int]));
                    assert(count_present(
                        Seq::new(l.blocks(i as int), |b: int| false),
                    ) == 0) by {
                        lemma_none_present(l.blocks(i as int));
                    }
                    lemma_piece_len_bound(l, i as int);
                }
                let received: u32 = match &self.progress[i as usize] {
                    Some(p) => p.received_count(),
                    None => 0,
                };
                let missing: u32 = self.blocks_in_piece(i) - received;
                remaining = remaining.saturating_add(missing);
                if remaining > self.endgame_blocks {
                    proof {
                        lemma_count_monotone(l, i as int + 1, n as int);
                    }
                    return false;
                }
            }
            i = i + 1;
        }
        true
    }

    /// Pieces this peer can serve that we still need, ordered: started pieces
    /// first (finish what we've begun), then unstarted, each group by worth
    /// and then in the configured order (index, or rarest-first).
    fn candidate_order(&self, peer_has: &Bitfield) -> (order: Vec<u32>)
        requires
            self@.wf(),
        ensures
            self@.lists_candidates(peer_has@, order@),
    {
        let ghost l = self@;
        let n: u32 = self.have.len();
        let rarest = self.mode == Mode::RarestFirst;
        let mut keys: Vec<Key> = Vec::new();
        let mut i: u32 = 0;
        while i < n
            invariant
                i <= n,
                l == self@,
                l.wf(),
                n == l.have.len(),
                rarest == (l.mode == Mode::RarestFirst),
                forall|k: int|
                    0 <= k < keys.len() ==> l.candidate(peer_has@, (#[trigger] keys@[k]).2 as int)
                        && keys@[k].2 < i && keys@[k] == l.rank(keys@[k].2 as int),
                forall|j: int|
                    0 <= j < i && #[trigger] l.candidate(peer_has@, j) ==> keys@.contains(
                        l.rank(j),
                    ),
                forall|j: int, k: int|
                    0 <= j < k < keys.len() ==> (#[trigger] keys@[j]).2 < (#[trigger] keys@[k]).2,
            decreases n - i,
        {
            let ghost had = keys@;
            if peer_has.has(i) && !self.have.has(i) && self.priority[i as usize] != 0 {
                proof {
                    assert(l.progress[i as int] == progress_view(self.progress@[i as int]));
                }
                let worth: u64 = (255 - self.priority[i as usize]) as u64;
                let group: u64 = if self.progress[i as usize].is_some() {
                    worth
                } else {
                    256 + worth
                };
                let rarity: u64 = if rarest {
                    self.availability[i as usize] as u64
                } else {
                    0
                };
                keys.push((group, rarity, i as u64));
                proof {
                    assert((group, rarity, i as u64) == l.rank(i as int));
                    assert(keys@[had.len() as int] == l.rank(i as int));
                }
            }
            proof {
                assert forall|j: int|
                    0 <= j < i + 1 && #[trigger] l.candidate(peer_has@, j) implies keys@.contains(
                    l.rank(j),
                ) by {
                    if j < i {
                        let k = choose|k: int| 0 <= k < had.len() && had[k] == l.rank(j);
                        assert(keys@[k] == l.rank(j));
                    } else {
                        assert(keys@[had.len() as int] == l.rank(j));
                    }
                }
            }
            i = i + 1;
        }
        let sorted = sort_keys(&keys);
        proof {
            assert(keys@.no_duplicates());
            lemma_rearranged_distinct(keys@, sorted@);
        }
        let mut order: Vec<u32> = Vec::new();
        let mut k: usize = 0;
        while k < sorted.len()
            invariant
                k <= sorted.len(),
                l.wf(),
                n == l.have.len(),
                sorted@.to_multiset() == keys@.to_multiset(),
                forall|k: int|
                    0 <= k < keys.len() ==> l.candidate(peer_has@, (#[trigger] keys@[k]).2 as int)
                        && keys@[k].2 < n && keys@[k] == l.rank(keys@[k].2 as int),
                order@.len() == k,
                forall|j: int|
                    0 <= j < k ==> #[trigger] order@[j] == sorted@[j].2 && l.candidate(
                        peer_has@,
                        order@[j] as int,
                    ) && sorted@[j] == l.rank(order@[j] as int),
            decreases sorted.len() - k,
        {
            proof {
                lemma_same_elements(sorted@, keys@, sorted@[k as int]);
                assert(sorted@.contains(sorted@[k as int]));
                let j = choose|j: int| 0 <= j < keys.len() && keys@[j] == sorted@[k as int];
                assert(keys@[j].2 < n);
            }
            order.push(sorted[k].2 as u32);
            k = k + 1;
        }
        proof {
            assert forall|i: int| #[trigger] l.candidate(peer_has@, i) implies order@.contains(
                i as u32,
            ) by {
                assert(keys@.contains(l.rank(i)));
                lemma_same_elements(sorted@, keys@, l.rank(i));
                let j = choose|j: int| 0 <= j < sorted.len() && sorted@[j] == l.rank(i);
                assert(order@[j] == i as u32);
            }
            assert forall|j: int, k: int| 0 <= j < k < order@.len() implies before(
                l.rank(#[trigger] order@[j] as int),
                l.rank(#[trigger] order@[k] as int),
            ) by {
                assert(!before(sorted@[k], sorted@[j]));
                assert(sorted@[j] != sorted@[k]);
            }
        }
        order
    }

    /// Choose up to `want` blocks for a peer whose piece set is `peer_has`,
    /// marking them in-flight. Prefers finishing already-started pieces, then
    /// opens new ones in the configured order.
    #[verifier::rlimit(60)]
    pub fn pick(&mut self, peer_has: &Bitfield, want: usize) -> (out: Vec<BlockRequest>)
        requires
            old(self)@.wf(),
            old(self)@.countable(),
        ensures
            final(self)@.wf(),
            out@ == old(self)@.picks(peer_has@, want as nat),
            final(self)@ == old(self)@.after_pick(peer_has@, want as nat),
    {
        let ghost l = self@;
        let mut out: Vec<BlockRequest> = Vec::new();
        let endgame = self.in_endgame();
        let order = self.candidate_order(peer_has);
        let ghost ord = order@;
        let ghost peer = peer_has@;
        proof {
            law_candidate_order_is_unique(l, peer, ord, l.candidate_order(peer));
            assert(ord.take(0) =~= Seq::empty());
            lemma_untouched(l);
        }
        let mut k: usize = 0;
        while k < order.len() && out.len() < want
            invariant
                k <= order.len(),
                ord == order@,
                l.wf(),
                l.countable(),
                l.lists_candidates(peer, ord),
                endgame == l.endgame(),
                out@.len() <= want,
                out@ == l.offers(ord, k as int).take(
                    least(want as int, l.offers(ord, k as int).len() as int),
                ),
                self@ == l.with_requests(ord.take(k as int), out@),
                self.progress@.len() == l.have.len(),
                l.looked_at(ord, want as nat, 0) == l.looked_at(ord, want as nat, k as int),
            decreases order.len() - k,
        {
            let index: u32 = order[k];
            let i: usize = index as usize;
            let ghost base = out@;
            let ghost gi = index as int;
            let blocks: u32 = self.blocks_in_piece(index);
            let plen: u32 = self.piece_len(index);
            proof {
                assert(base =~= l.offers(ord, k as int));
                assert(l.candidate(peer, ord[k as int] as int));
                assert(l.account_ok(gi));
                assert(self@.progress[gi] == progress_view(self.progress@[gi]));
                assert(!ord.take(k as int).contains(index)) by {
                    if ord.take(k as int).contains(index) {
                        let done = ord.take(k as int);
                        let j = choose|j: int| 0 <= j < done.len() && done[j] == index;
                        lemma_order_distinct(l, peer, ord, j, k as int);
                    }
                }
                lemma_not_offered_yet(l, peer, ord, k as int);
                assert(l.account_with(gi, base).in_flight =~= l.account(gi).in_flight);
            }
            let mut slot: Option<Progress> = None;
            std::mem::swap(&mut self.progress[i], &mut slot);
            let mut prog = match slot {
                Some(p) => p,
                None => Progress::new(blocks),
            };
            let ghost acct = l.account(gi);
            proof {
                assert(prog.received@ == acct.received);
                assert(prog.in_flight@ == acct.in_flight);
                assert(base + l.open_blocks(gi, 0) =~= base);
            }
            let mut block: u32 = 0;
            while block < blocks && out.len() < want
                invariant
                    block <= blocks,
                    l.wf(),
                    l.countable(),
                    endgame == l.endgame(),
                    0 <= gi < l.have.len(),
                    gi == index,
                    acct == l.account(gi),
                    l.account_ok(gi),
                    blocks == l.blocks(gi),
                    plen == l.piece_len(gi),
                    base.len() < want,
                    out@ == base + l.open_blocks(gi, block as int),
                    out@.len() <= want,
                    prog.received@ == acct.received,
                    prog.in_flight@.len() == blocks,
                    forall|x: int|
                        0 <= x < blocks ==> #[trigger] prog.in_flight@[x] == (if x < block
                            && l.requestable(gi, x) {
                            (acct.in_flight[x] + 1) as u32
                        } else {
                            acct.in_flight[x]
                        }),
                decreases blocks - block,
            {
                let b: usize = block as usize;
                let ghost had = prog.in_flight@;
                proof {
                    lemma_blocks_bound(l, gi, block as int);
                    assert(had[b as int] == acct.in_flight[b as int]);
                    if l.progress[gi] is Some {
                        assert(l.progress[gi]->Some_0.in_flight[b as int] < u32::MAX);
                    }
                }
                if !prog.received[b] && (endgame || prog.in_flight[b] == 0) {
                    let n: u32 = prog.in_flight[b];
                    prog.in_flight.set(b, n + 1);
                    let begin: u32 = block * BLOCK_LEN;
                    let left: u32 = plen - begin;
                    let length: u32 = if left < BLOCK_LEN {
                        left
                    } else {
                        BLOCK_LEN
                    };
                    out.push(BlockRequest { index, begin, length });
                    proof {
                        assert(l.requestable(gi, block as int));
                        assert(l.request(gi, block as int) == (BlockRequest {
                            index,
                            begin,
                            length,
                        }));
                        assert(out@ =~= base + l.open_blocks(gi, block as int + 1));
                    }
                } else {
                    proof {
                        assert(!l.requestable(gi, block as int));
                    }
                }
                block = block + 1;
            }
            let ghost account = Blocks { received: prog.received@, in_flight: prog.in_flight@ };
            self.progress.set(i, Some(prog));
            proof {
                lemma_piece_done(l, peer, ord, k as int, block as int, base, out@, account);
                let next = l.offers(ord, k as int + 1);
                lemma_open_prefix(l, gi, block as int, blocks as int);
                let all = l.open_blocks(gi, blocks as int);
                let part = l.open_blocks(gi, block as int);
                assert(next == base + all);
                assert(next.take(out@.len() as int) =~= base + all.take(part.len() as int));
                if block == blocks {
                    assert(part == all);
                }
                assert(out@ =~= next.take(least(want as int, next.len() as int)));
                assert(self@.progress =~= l.with_requests(ord.take(k as int + 1), out@).progress);
            }
            k = k + 1;
        }
        proof {
            let n = ord.len() as int;
            lemma_offers_prefix(l, ord, k as int, n);
            let some = l.offers(ord, k as int);
            let all = l.offers(ord, n);
            if k < n {
                assert(out@.len() == want);
                assert(all.take(want as int) =~= all.take(some.len() as int).take(want as int));
            }
            assert(out@ =~= l.picks(peer, want as nat));
            assert(l.looked_at(ord, want as nat, k as int) == k);
            lemma_with_requests_wf(l, ord.take(k as int), out@);
        }
        out
    }
}

/// The ledger once block `b` of piece `i` has arrived.
pub open spec fn received_block(l: Ledger, i: int, b: int) -> Ledger {
    if i >= l.have.len() {
        l
    } else {
        let a = l.account(i);
        l.with_account(
            i,
            Some(
                if b < l.blocks(i) {
                    Blocks {
                        received: a.received.update(b, true),
                        in_flight: a.in_flight.update(b, lowered(a.in_flight[b])),
                    }
                } else {
                    a
                },
            ),
        )
    }
}

/// The ledger once a request for block `b` of piece `i` is given up.
pub open spec fn failed_block(l: Ledger, i: int, b: int) -> Ledger {
    if i < l.have.len() && l.progress[i] is Some && b < l.progress[i]->Some_0.in_flight.len() {
        let a = l.progress[i]->Some_0;
        l.with_account(
            i,
            Some(
                Blocks {
                    received: a.received,
                    in_flight: a.in_flight.update(b, lowered(a.in_flight[b])),
                },
            ),
        )
    } else {
        l
    }
}

proof fn lemma_none_present(n: nat)
    ensures
        count_present(Seq::new(n, |b: int| false)) == 0,
    decreases n,
{
    if n > 0 {
        lemma_none_present((n - 1) as nat);
        assert(Seq::new(n, |b: int| false).drop_last() =~= Seq::new((n - 1) as nat, |b: int| false));
    }
}

/// Looking at nothing and asking for nothing changes nothing.
proof fn lemma_untouched(l: Ledger)
    requires
        l.wf(),
    ensures
        l.with_requests(Seq::empty(), Seq::empty()) == l,
{
    let m = l.with_requests(Seq::empty(), Seq::empty());
    assert forall|i: int| 0 <= i < l.progress.len() implies m.progress[i] == l.progress[i] by {
        assert(l.account_ok(i));
        if l.progress[i] is Some {
            assert(l.account_with(i, Seq::empty()).in_flight =~= l.account(i).in_flight);
        }
    }
    assert(m.progress =~= l.progress);
}

/// What earlier pieces offer asks for no block of piece `order[k]`.
proof fn lemma_not_offered_yet(l: Ledger, peer: Seq<bool>, order: Seq<u32>, k: int)
    requires
        l.wf(),
        l.lists_candidates(peer, order),
        0 <= k < order.len(),
    ensures
        forall|x: int|
            0 <= x < l.blocks(order[k] as int) ==> !l.offers(order, k).contains(
                #[trigger] l.request(order[k] as int, x),
            ),
{
    let i = order[k] as int;
    assert(l.candidate(peer, order[k] as int));
    assert forall|x: int| 0 <= x < l.blocks(i) implies !l.offers(order, k).contains(
        #[trigger] l.request(i, x),
    ) by {
        lemma_offers_contains(l, order, k, l.request(i, x));
        if l.offers(order, k).contains(l.request(i, x)) {
            let j = choose|j: int| 0 <= j < k && #[trigger] offered_by(l, order, j, l.request(i, x));
            let y = choose|y: int|
                0 <= y < l.blocks(order[j] as int) && #[trigger] l.requestable(order[j] as int, y)
                    && l.request(i, x) == l.request(order[j] as int, y);
            assert(l.candidate(peer, order[j] as int));
            lemma_request_injective(l, i, x, order[j] as int, y);
            lemma_order_distinct(l, peer, order, j, k);
        }
    }
}

/// The accounts after piece `order[k]` has been gone through up to block `n`.
proof fn lemma_piece_done(
    l: Ledger,
    peer: Seq<bool>,
    order: Seq<u32>,
    k: int,
    n: int,
    base: Seq<BlockRequest>,
    asked: Seq<BlockRequest>,
    account: Blocks,
)
    requires
        l.wf(),
        l.lists_candidates(peer, order),
        0 <= k < order.len(),
        0 <= n <= l.blocks(order[k] as int),
        base == l.offers(order, k),
        asked == base + l.open_blocks(order[k] as int, n),
        account.received == l.account(order[k] as int).received,
        account.in_flight.len() == l.blocks(order[k] as int),
        forall|x: int|
            0 <= x < l.blocks(order[k] as int) ==> #[trigger] account.in_flight[x] == (if x < n
                && l.requestable(order[k] as int, x) {
                (l.account(order[k] as int).in_flight[x] + 1) as u32
            } else {
                l.account(order[k] as int).in_flight[x]
            }),
    ensures
        l.with_requests(order.take(k + 1), asked).progress == l.with_requests(
            order.take(k),
            base,
        ).progress.update(order[k] as int, Some(account)),
{
    let i = order[k] as int;
    let o = l.open_blocks(i, n);
    assert(l.candidate(peer, order[k] as int));
    lemma_not_offered_yet(l, peer, order, k);
    assert forall|x: int| 0 <= x < l.blocks(i) implies l.account_with(i, asked).in_flight[x]
        == account.in_flight[x] by {
        let r = l.request(i, x);
        lemma_open_contains(l, i, n, r);
        assert(asked.contains(r) <==> (base.contains(r) || o.contains(r))) by {
            lemma_concat_contains(base, o, r);
        }
        assert(!base.contains(r));
        if o.contains(r) {
            let y = choose|y: int| 0 <= y < n && #[trigger] l.requestable(i, y) && r == l.request(i, y);
            lemma_request_injective(l, i, x, i, y);
        }
    }
    assert(l.account_ok(i));
    assert(l.account_with(i, asked).in_flight =~= account.in_flight);
    let a = l.with_requests(order.take(k + 1), asked).progress;
    let b = l.with_requests(order.take(k), base).progress.update(i, Some(account));
    assert forall|j: int| 0 <= j < a.len() implies a[j] == b[j] by {
        if j == i {
            assert(order.take(k + 1)[k] == order[k]);
            assert(order.take(k + 1).contains(j as u32));
        } else {
            assert(order.take(k + 1).contains(j as u32) <==> order.take(k).contains(j as u32)) by {
                let short = order.take(k);
                let long = order.take(k + 1);
                if long.contains(j as u32) {
                    let p = choose|p: int| 0 <= p < long.len() && long[p] == j as u32;
                    assert(short[p] == j as u32);
                }
                if short.contains(j as u32) {
                    let p = choose|p: int| 0 <= p < short.len() && short[p] == j as u32;
                    assert(long[p] == j as u32);
                }
            }
            assert forall|x: int| 0 <= x < l.blocks(j) implies asked.contains(
                #[trigger] l.request(j, x),
            ) == base.contains(l.request(j, x)) by {
                let r = l.request(j, x);
                lemma_concat_contains(base, o, r);
                lemma_open_contains(l, i, n, r);
                if o.contains(r) {
                    let y = choose|y: int|
                        0 <= y < n && #[trigger] l.requestable(i, y) && r == l.request(i, y);
                    lemma_request_injective(l, j, x, i, y);
                }
            }
            assert(l.account_with(j, asked).in_flight =~= l.account_with(j, base).in_flight);
        }
    }
    assert(a =~= b);
}

proof fn lemma_concat_contains(a: Seq<BlockRequest>, b: Seq<BlockRequest>, r: BlockRequest)
    ensures
        (a + b).contains(r) <==> (a.contains(r) || b.contains(r)),
{
    let c = a + b;
    if a.contains(r) {
        let k = choose|k: int| 0 <= k < a.len() && a[k] == r;
        assert(c[k] == r);
    }
    if b.contains(r) {
        let k = choose|k: int| 0 <= k < b.len() && b[k] == r;
        assert(c[a.len() + k] == r);
    }
    if c.contains(r) {
        let k = choose|k: int| 0 <= k < c.len() && c[k] == r;
        if k < a.len() {
            assert(a[k] == r);
        } else {
            assert(b[k - a.len()] == r);
        }
    }
}

proof fn lemma_with_requests_wf(l: Ledger, order: Seq<u32>, asked: Seq<BlockRequest>)
    requires
        l.wf(),
        forall|k: int|
            0 <= k < order.len() ==> (#[trigger] order[k]) < l.have.len() && !l.have[order[k] as int],
    ensures
        l.with_requests(order, asked).wf(),
{
    let m = l.with_requests(order, asked);
    assert forall|i: int| 0 <= i < m.progress.len() implies #[trigger] m.account_ok(i) by {
        assert(l.account_ok(i));
        if order.contains(i as u32) {
            let k = choose|k: int| 0 <= k < order.len() && order[k] == i as u32;
            assert(!l.have[order[k] as int]);
        }
    }
}

proof fn lemma_same_accounts(a: Ledger, b: Ledger)
    requires
        a.progress == b.progress,
        a.have == b.have,
        a.piece_length == b.piece_length,
        a.total_length == b.total_length,
        a.wf(),
    ensures
        forall|i: int| 0 <= i < b.progress.len() ==> #[trigger] b.account_ok(i),
{
    assert forall|i: int| 0 <= i < b.progress.len() implies #[trigger] b.account_ok(i) by {
        assert(a.account_ok(i));
    }
}

proof fn lemma_total_monotone(l: Ledger, m: int, n: int)
    requires
        0 <= m <= n,
    ensures
        l.in_flight_total(m) <= l.in_flight_total(n),
    decreases n - m,
{
    if m < n {
        lemma_total_monotone(l, m, n - 1);
    }
}

proof fn lemma_sum_prefix(s: Seq<u32>, k: int)
    requires
        0 <= k <= s.len(),
    ensures
        total(s.take(k)) <= total(s),
    decreases s.len() - k,
{
    if k < s.len() {
        lemma_sum_prefix(s, k + 1);
        assert(s.take(k + 1).drop_last() =~= s.take(k));
    } else {
        assert(s.take(k) =~= s);
    }
}

/// The lengths of the first `n` pieces, summed.
pub open spec fn sum_of_pieces(piece_length: nat, total_length: nat, n: int) -> nat
    decreases n,
{
    if n <= 0 {
        0
    } else {
        sum_of_pieces(piece_length, total_length, n - 1) + length_of_piece(
            n - 1,
            piece_length,
            total_length,
        )
    }
}

/// The pieces cover the torrent end to end: the first `n` of them hold
/// `n * piece_length` bytes, or the whole torrent if that is less.
pub proof fn law_pieces_partition_the_torrent(piece_length: nat, total_length: nat, n: int)
    requires
        0 <= n,
    ensures
        sum_of_pieces(piece_length, total_length, n) == least(
            n * piece_length,
            total_length as int,
        ),
    decreases n,
{
    if n > 0 {
        law_pieces_partition_the_torrent(piece_length, total_length, n - 1);
        assert(n * piece_length == (n - 1) * piece_length + piece_length) by (nonlinear_arith);
        assert((n - 1) * piece_length >= 0) by (nonlinear_arith)
            requires
                n > 0,
        ;
    } else {
        assert(0 * piece_length == 0);
    }
}


// ---------------------------------------------------------------------------
// What the operations owe each other.

/// A peer that announces its pieces and leaves is as if it had never come.
pub proof fn law_leaving_undoes_announcing(l: Ledger, field: Seq<bool>)
    requires
        l.wf(),
        room_for(l, field),
    ensures
        withdrawn(announced(l, field), field) == l,
{
    let m = withdrawn(announced(l, field), field);
    assert forall|i: int| 0 <= i < l.have.len() implies m.availability[i] == l.availability[i] by {
        if i < field.len() && field[i] {
            assert(l.availability[i] < u32::MAX);
        }
    }
    assert(m.availability =~= l.availability);
}

/// Whether `r` is a request for block `b` of a piece that the peer holds and
/// we want and do not hold, of a block that has not arrived and, outside the
/// endgame, that nobody was asked for.
pub open spec fn fair_request(l: Ledger, peer: Seq<bool>, r: BlockRequest, b: int) -> bool {
    &&& l.candidate(peer, r.index as int)
    &&& 0 <= b < l.blocks(r.index as int)
    &&& l.requestable(r.index as int, b)
    &&& r == l.request(r.index as int, b)
    &&& 0 < r.length <= BLOCK_LEN
    &&& r.begin == b * BLOCK_LEN
    &&& r.begin + r.length <= l.piece_len(r.index as int)
}

proof fn lemma_pick_source(l: Ledger, peer: Seq<bool>, order: Seq<u32>, r: BlockRequest) -> (b:
    int)
    requires
        l.wf(),
        l.lists_candidates(peer, order),
        l.offers(order, order.len() as int).contains(r),
    ensures
        fair_request(l, peer, r, b),
{
    lemma_offers_contains(l, order, order.len() as int, r);
    let k = choose|k: int| 0 <= k < order.len() && #[trigger] offered_by(l, order, k, r);
    let x = choose|x: int|
        0 <= x < l.blocks(order[k] as int) && #[trigger] l.requestable(order[k] as int, x) && r
            == l.request(order[k] as int, x);
    assert(l.candidate(peer, order[k] as int));
    lemma_blocks_bound(l, order[k] as int, x);
    x
}

/// There always is a list of the candidates by rank.
pub proof fn law_candidates_can_be_listed(l: Ledger, peer: Seq<bool>)
    requires
        l.wf(),
    ensures
        l.lists_candidates(peer, l.candidate_order(peer)),
{
    let order = lemma_list_candidates(l, peer, l.have.len() as int);
    assert(l.lists_candidates(peer, order)) by {
        assert forall|i: int| #[trigger] l.candidate(peer, i) implies order.contains(i as u32) by {
            assert(i < l.have.len());
        }
    }
}

proof fn lemma_list_candidates(l: Ledger, peer: Seq<bool>, n: int) -> (order: Seq<u32>)
    requires
        l.wf(),
        0 <= n <= l.have.len(),
    ensures
        forall|k: int|
            0 <= k < order.len() ==> l.candidate(peer, #[trigger] order[k] as int) && order[k] < n,
        forall|i: int|
            i < n && #[trigger] l.candidate(peer, i) ==> order.contains(i as u32),
        forall|j: int, k: int|
            0 <= j < k < order.len() ==> before(
                l.rank(#[trigger] order[j] as int),
                l.rank(#[trigger] order[k] as int),
            ),
    decreases n,
{
    if n == 0 {
        Seq::empty()
    } else {
        let prev = lemma_list_candidates(l, peer, n - 1);
        if l.candidate(peer, n - 1) {
            let at = lemma_place(l, prev, n - 1, 0);
            let order = prev.insert(at, (n - 1) as u32);
            assert forall|i: int| i < n && #[trigger] l.candidate(peer, i) implies order.contains(
                i as u32,
            ) by {
                if i < n - 1 {
                    let p = choose|p: int| 0 <= p < prev.len() && prev[p] == i as u32;
                    if p < at {
                        assert(order[p] == i as u32);
                    } else {
                        assert(order[p + 1] == i as u32);
                    }
                } else {
                    assert(order[at] == i as u32);
                }
            }
            order
        } else {
            prev
        }
    }
}

proof fn lemma_place(l: Ledger, prev: Seq<u32>, i: int, from: int) -> (at: int)
    requires
        0 <= from <= prev.len(),
        0 <= i <= u32::MAX,
        forall|k: int| 0 <= k < prev.len() ==> (#[trigger] prev[k]) < i,
        forall|j: int, k: int|
            0 <= j < k < prev.len() ==> before(
                l.rank(#[trigger] prev[j] as int),
                l.rank(#[trigger] prev[k] as int),
            ),
        forall|k: int| 0 <= k < from ==> before(l.rank(#[trigger] prev[k] as int), l.rank(i)),
    ensures
        from <= at <= prev.len(),
        forall|k: int| 0 <= k < at ==> before(l.rank(#[trigger] prev[k] as int), l.rank(i)),
        forall|k: int|
            at <= k < prev.len() ==> before(l.rank(i), l.rank(#[trigger] prev[k] as int)),
    decreases prev.len() - from,
{
    if from < prev.len() && before(l.rank(prev[from] as int), l.rank(i)) {
        lemma_place(l, prev, i, from + 1)
    } else {
        if from < prev.len() {
            assert(prev[from] < i);
            assert(l.rank(prev[from] as int).2 == prev[from]);
            assert(before(l.rank(i), l.rank(prev[from] as int)));
        }
        from
    }
}

/// Every request picked for a peer is fair: for a block of a piece that the
/// peer holds and we want and do not hold, not arrived yet, inside the piece,
/// and outside the endgame not asked of anybody.
pub proof fn law_picks_are_fair(l: Ledger, peer: Seq<bool>, want: nat, k: int)
    requires
        l.wf(),
        0 <= k < l.picks(peer, want).len(),
    ensures
        exists|b: int| #[trigger] fair_request(l, peer, l.picks(peer, want)[k], b),
        l.picks(peer, want).len() <= want,
{
    law_candidates_can_be_listed(l, peer);
    let order = l.candidate_order(peer);
    let all = l.offers(order, order.len() as int);
    let r = l.picks(peer, want)[k];
    assert(all[k] == r);
    let b = lemma_pick_source(l, peer, order, r);
    assert(fair_request(l, peer, r, b));
}

proof fn lemma_open_distinct(l: Ledger, i: int, n: int)
    requires
        l.wf(),
        0 <= i < l.have.len(),
        n <= l.blocks(i),
    ensures
        l.open_blocks(i, n).no_duplicates(),
    decreases n,
{
    if n > 0 {
        lemma_open_distinct(l, i, n - 1);
        let r = l.request(i, n - 1);
        lemma_open_contains(l, i, n - 1, r);
        if l.open_blocks(i, n - 1).contains(r) {
            let x = choose|x: int|
                0 <= x < n - 1 && #[trigger] l.requestable(i, x) && r == l.request(i, x);
            lemma_request_injective(l, i, n - 1, i, x);
        }
    }
}

proof fn lemma_offers_distinct(l: Ledger, peer: Seq<bool>, order: Seq<u32>, n: int)
    requires
        l.wf(),
        l.lists_candidates(peer, order),
        0 <= n <= order.len(),
    ensures
        l.offers(order, n).no_duplicates(),
    decreases n,
{
    if n > 0 {
        lemma_offers_distinct(l, peer, order, n - 1);
        let i = order[n - 1] as int;
        assert(l.candidate(peer, order[n - 1] as int));
        lemma_open_distinct(l, i, l.blocks(i) as int);
        lemma_not_offered_yet(l, peer, order, n - 1);
        let a = l.offers(order, n - 1);
        let o = l.open_blocks(i, l.blocks(i) as int);
        assert forall|x: int, y: int|
            0 <= x < a.len() && 0 <= y < o.len() implies a[x] != o[y] by {
            lemma_open_contains(l, i, l.blocks(i) as int, o[y]);
            assert(o.contains(o[y]));
            let b = choose|b: int|
                0 <= b < l.blocks(i) && #[trigger] l.requestable(i, b) && o[y] == l.request(i, b);
            assert(!a.contains(l.request(i, b)));
            assert(a.contains(a[x]));
        }
        assert(l.offers(order, n) == a + o);
    }
}

/// No pick asks for a block twice.
pub proof fn law_picks_are_distinct(l: Ledger, peer: Seq<bool>, want: nat)
    requires
        l.wf(),
    ensures
        l.picks(peer, want).no_duplicates(),
{
    law_candidates_can_be_listed(l, peer);
    let order = l.candidate_order(peer);
    lemma_offers_distinct(l, peer, order, order.len() as int);
}

proof fn lemma_remaining_same(a: Ledger, b: Ledger, n: int)
    requires
        0 <= n <= a.have.len(),
        a.wf(),
        b.wf(),
        a.have == b.have,
        a.priority == b.priority,
        a.piece_length == b.piece_length,
        a.total_length == b.total_length,
        forall|i: int|
            0 <= i < a.have.len() ==> (#[trigger] a.account(i)).received == b.account(i).received,
    ensures
        a.remaining(n) == b.remaining(n),
    decreases n,
{
    if n > 0 {
        lemma_remaining_same(a, b, n - 1);
        assert(a.account(n - 1).received == b.account(n - 1).received);
    }
}

/// Picking for one peer neither starts nor ends the endgame, and outside it
/// the next pick, for whatever peer, asks for none of the same blocks.
pub proof fn law_no_double_request_outside_endgame(
    l: Ledger,
    peer: Seq<bool>,
    want: nat,
    other: Seq<bool>,
    more: nat,
    r: BlockRequest,
)
    requires
        l.wf(),
        l.countable(),
        l.picks(peer, want).contains(r),
    ensures
        l.after_pick(peer, want).endgame() == l.endgame(),
        !l.endgame() ==> !l.after_pick(peer, want).picks(other, more).contains(r),
{
    law_candidates_can_be_listed(l, peer);
    let order = l.candidate_order(peer);
    let m = l.after_pick(peer, want);
    let seen = order.take(l.looked_at(order, want, 0));
    let asked = l.picks(peer, want);
    lemma_looked_at_bound(l, order, want, 0);
    assert forall|k: int| 0 <= k < seen.len() implies (#[trigger] seen[k]) < l.have.len()
        && !l.have[seen[k] as int] by {
        assert(l.candidate(peer, order[k] as int));
    }
    lemma_with_requests_wf(l, seen, asked);
    assert forall|i: int| 0 <= i < l.have.len() implies (#[trigger] l.account(i)).received
        == m.account(i).received by {
        assert(l.account_ok(i));
    }
    lemma_remaining_same(l, m, l.have.len() as int);
    if !l.endgame() && m.picks(other, more).contains(r) {
        let all = l.offers(order, order.len() as int);
        let k = choose|k: int| 0 <= k < asked.len() && asked[k] == r;
        assert(all[k] == r);
        let b = lemma_pick_source(l, peer, order, r);
        law_candidates_can_be_listed(m, other);
        let order2 = m.candidate_order(other);
        let all2 = m.offers(order2, order2.len() as int);
        let picks2 = m.picks(other, more);
        let k2 = choose|k2: int| 0 <= k2 < picks2.len() && picks2[k2] == r;
        assert(all2[k2] == r);
        let b2 = lemma_pick_source(m, other, order2, r);
        assert(b == b2);
        let i = r.index as int;
        assert(l.account_ok(i));
        if l.progress[i] is Some {
            assert(l.progress[i]->Some_0.in_flight[b] < u32::MAX);
        }
        if m.progress[i] is Some {
            assert(m.account(i).in_flight[b] == l.account(i).in_flight[b] + 1);
        } else {
            lemma_asked_is_looked_at(l, peer, want, k);
        }
        assert(false);
    }
}

proof fn lemma_looked_at_bound(l: Ledger, order: Seq<u32>, want: nat, n: int)
    requires
        0 <= n <= order.len(),
    ensures
        n <= l.looked_at(order, want, n) <= order.len(),
        l.looked_at(order, want, n) < order.len() ==> l.offers(
            order,
            l.looked_at(order, want, n),
        ).len() >= want,
    decreases order.len() - n,
{
    if n < order.len() && l.offers(order, n).len() < want {
        lemma_looked_at_bound(l, order, want, n + 1);
    }
}

/// The piece of a block that was asked for was looked at.
proof fn lemma_asked_is_looked_at(l: Ledger, peer: Seq<bool>, want: nat, k: int)
    requires
        l.wf(),
        0 <= k < l.picks(peer, want).len(),
    ensures
        ({
            let order = l.candidate_order(peer);
            order.take(l.looked_at(order, want, 0)).contains(l.picks(peer, want)[k].index)
        }),
{
    law_candidates_can_be_listed(l, peer);
    let order = l.candidate_order(peer);
    let n = l.looked_at(order, want, 0);
    lemma_looked_at_bound(l, order, want, 0);
    lemma_offers_prefix(l, order, n, order.len() as int);
    let all = l.offers(order, order.len() as int);
    let some = l.offers(order, n);
    let r = l.picks(peer, want)[k];
    assert(all[k] == r);
    assert(k < some.len()) by {
        if n == order.len() {
            assert(some == all);
        }
    }
    assert(all.take(some.len() as int)[k] == r);
    assert(some[k] == r);
    lemma_offers_contains(l, order, n, r);
    assert(some.contains(r));
    let j = choose|j: int| 0 <= j < n && #[trigger] offered_by(l, order, j, r);
    assert(order.take(n)[j] == order[j]);
}

/// What is on offer is what may be requested of the pieces that a peer holds.
proof fn lemma_on_offer(l: Ledger, peer: Seq<bool>, i: int, b: int)
    requires
        l.wf(),
        l.candidate(peer, i),
        0 <= b < l.blocks(i),
    ensures
        l.on_offer(peer).contains(l.request(i, b)) <==> l.requestable(i, b),
{
    law_candidates_can_be_listed(l, peer);
    let order = l.candidate_order(peer);
    let r = l.request(i, b);
    lemma_offers_contains(l, order, order.len() as int, r);
    if l.requestable(i, b) {
        assert(order.contains(i as u32));
        let k = choose|k: int| 0 <= k < order.len() && order[k] == i as u32;
        assert(offered_by(l, order, k, r));
    }
    if l.on_offer(peer).contains(r) {
        let x = lemma_pick_source(l, peer, order, r);
        lemma_blocks_bound(l, i, b);
        lemma_request_injective(l, i, b, r.index as int, x);
    }
}

/// A block asked for once and given up is asked for again: any peer that holds
/// its piece is asked for it, if asked for all that is on offer, and outside
/// the endgame no peer is asked for a block that is still in flight.
pub proof fn law_released_block_is_offered_again(
    l: Ledger,
    peer: Seq<bool>,
    want: nat,
    r: BlockRequest,
    other: Seq<bool>,
    more: nat,
)
    requires
        l.wf(),
        l.countable(),
        l.picks(peer, want).contains(r),
        l.candidate(other, r.index as int),
    ensures
        exists|b: int|
            {
                let f = failed_block(l.after_pick(peer, want), r.index as int, b);
                &&& #[trigger] fair_request(l, peer, r, b)
                &&& f.on_offer(other).contains(r)
                &&& more >= f.on_offer(other).len() ==> f.picks(other, more).contains(r)
                &&& !l.endgame() ==> forall|i: int, x: int|
                    0 <= i < f.have.len() && 0 <= x < f.blocks(i) && #[trigger] f.account(
                        i,
                    ).in_flight[x] > 0 ==> !f.picks(other, more).contains(f.request(i, x))
            },
{
    let asked = l.picks(peer, want);
    let k = choose|k: int| 0 <= k < asked.len() && asked[k] == r;
    law_picks_are_fair(l, peer, want, k);
    let b = choose|b: int| #[trigger] fair_request(l, peer, r, b);
    let i = r.index as int;
    let f = failed_block(l.after_pick(peer, want), i, b);
    lemma_released(l, peer, want, k, b);
    lemma_on_offer(f, other, i, b);
    assert(f.request(i, b) == r);
    if more >= f.on_offer(other).len() {
        assert(f.picks(other, more) =~= f.on_offer(other));
    }
    if !l.endgame() {
        assert forall|j: int, x: int|
            0 <= j < f.have.len() && 0 <= x < f.blocks(j) && #[trigger] f.account(j).in_flight[x]
                > 0 implies !f.picks(other, more).contains(f.request(j, x)) by {
            let q = f.request(j, x);
            let picked = f.picks(other, more);
            if picked.contains(q) {
                let n = choose|n: int| 0 <= n < picked.len() && picked[n] == q;
                assert(f.on_offer(other)[n] == q);
                law_candidates_can_be_listed(f, other);
                let y = lemma_pick_source(f, other, f.candidate_order(other), q);
                lemma_blocks_bound(f, j, x);
                lemma_request_injective(f, j, x, q.index as int, y);
            }
        }
    }
}

/// A block given up may be requested again, and the endgame is where it was.
proof fn lemma_released(l: Ledger, peer: Seq<bool>, want: nat, k: int, b: int)
    requires
        l.wf(),
        l.countable(),
        0 <= k < l.picks(peer, want).len(),
        fair_request(l, peer, l.picks(peer, want)[k], b),
    ensures
        ({
            let i = l.picks(peer, want)[k].index as int;
            let f = failed_block(l.after_pick(peer, want), i, b);
            &&& f.wf()
            &&& f.requestable(i, b)
            &&& f.endgame() == l.endgame()
            &&& f.have == l.have
            &&& f.priority == l.priority
            &&& f.piece_length == l.piece_length
            &&& f.total_length == l.total_length
        }),
{
    let asked = l.picks(peer, want);
    let r = asked[k];
    assert(asked.contains(r));
    let i = r.index as int;
    let m = l.after_pick(peer, want);
    law_candidates_can_be_listed(l, peer);
    let order = l.candidate_order(peer);
    lemma_looked_at_bound(l, order, want, 0);
    let seen = order.take(l.looked_at(order, want, 0));
    assert forall|k: int| 0 <= k < seen.len() implies (#[trigger] seen[k]) < l.have.len()
        && !l.have[seen[k] as int] by {
        assert(l.candidate(peer, order[k] as int));
    }
    lemma_with_requests_wf(l, seen, asked);
    lemma_asked_is_looked_at(l, peer, want, k);
    assert(l.account_ok(i));
    if l.progress[i] is Some {
        assert(l.progress[i]->Some_0.in_flight[b] < u32::MAX);
    }
    let f = failed_block(m, i, b);
    assert(m.account(i).in_flight[b] == l.account(i).in_flight[b] + 1);
    assert(f.account(i).in_flight[b] == l.account(i).in_flight[b]);
    assert(f.account(i).received == l.account(i).received);
    assert forall|j: int| 0 <= j < l.have.len() implies (#[trigger] l.account(j)).received
        == f.account(j).received by {
        assert(l.account_ok(j));
    }
    assert(f.wf()) by {
        assert forall|j: int| 0 <= j < f.progress.len() implies #[trigger] f.account_ok(j) by {
            assert(m.account_ok(j));
        }
    }
    lemma_remaining_same(l, f, l.have.len() as int);
}

proof fn lemma_all_open(l: Ledger, i: int, n: int)
    requires
        0 <= n,
        forall|b: int| 0 <= b < n ==> #[trigger] l.requestable(i, b),
    ensures
        l.open_blocks(i, n) == Seq::new(n as nat, |b: int| l.request(i, b)),
    decreases n,
{
    if n > 0 {
        lemma_all_open(l, i, n - 1);
        assert(l.requestable(i, n - 1));
    }
    assert(l.open_blocks(i, n) =~= Seq::new(n as nat, |b: int| l.request(i, b)));
}

/// A piece that is reset is downloaded from scratch: what is held stays, and
/// whatever had arrived or was in flight, a peer that holds only that piece is
/// asked for every block of it, once each and in order.
pub proof fn law_reset_piece_is_downloaded_again(l: Ledger, i: int, peer: Seq<bool>, want: nat)
    requires
        l.wf(),
        0 <= i < l.have.len(),
        !l.have[i],
        l.priority[i] != 0,
        i < peer.len(),
        forall|j: int| 0 <= j < peer.len() ==> (#[trigger] peer[j] <==> j == i),
        want >= l.blocks(i),
    ensures
        l.with_account(i, None).have == l.have,
        l.with_account(i, None).picks(peer, want).len() == l.blocks(i),
        forall|b: int|
            0 <= b < l.blocks(i) ==> (#[trigger] l.with_account(i, None).picks(peer, want)[b]) == (
            BlockRequest {
                index: i as u32,
                begin: (b * BLOCK_LEN) as u32,
                length: l.block_len(i, b) as u32,
            }),
{
    let m = l.with_account(i, None);
    assert forall|j: int| 0 <= j < m.progress.len() implies #[trigger] m.account_ok(j) by {
        assert(l.account_ok(j));
    }
    let order = seq![i as u32];
    assert(m.candidate(peer, i));
    assert(order[0] == i as u32);
    assert(m.lists_candidates(peer, order));
    law_candidates_can_be_listed(m, peer);
    law_candidate_order_is_unique(m, peer, m.candidate_order(peer), order);
    let n = m.blocks(i) as int;
    assert forall|b: int| 0 <= b < n implies #[trigger] m.requestable(i, b) by {}
    lemma_all_open(m, i, n);
    reveal_with_fuel(Ledger::offers, 2);
    assert(m.on_offer(peer) =~= m.open_blocks(i, n));
    assert(m.picks(peer, want) =~= m.open_blocks(i, n));
}

// ---------------------------------------------------------------------------
// What is asked for first.

/// Of two pieces that can be fetched from a peer, the one that comes first: a
/// started one before one that is not; then the one that is worth more; then,
/// if the rarest come first, the one that fewer peers hold; then the lower one.
pub proof fn law_better_piece_stands_first(l: Ledger, peer: Seq<bool>, j: int, k: int)
    requires
        l.wf(),
        0 <= j < l.candidate_order(peer).len(),
        0 <= k < l.candidate_order(peer).len(),
    ensures
        ({
            let x = l.candidate_order(peer)[j] as int;
            let y = l.candidate_order(peer)[k] as int;
            let alike = l.progress[x] is Some <==> l.progress[y] is Some;
            &&& l.progress[x] is Some && l.progress[y] is None ==> j < k
            &&& alike && l.priority[x] > l.priority[y] ==> j < k
            &&& alike && l.priority[x] == l.priority[y] && l.mode == Mode::RarestFirst
                && l.availability[x] < l.availability[y] ==> j < k
            &&& alike && l.priority[x] == l.priority[y] && l.mode == Mode::RarestFirst
                && l.availability[x] == l.availability[y] && x < y ==> j < k
            &&& alike && l.priority[x] == l.priority[y] && l.mode == Mode::Sequential && x < y
                ==> j < k
        }),
{
    law_candidates_can_be_listed(l, peer);
    let order = l.candidate_order(peer);
    let x = order[j] as int;
    let y = order[k] as int;
    assert(l.candidate(peer, order[j] as int) && l.candidate(peer, order[k] as int));
    if k < j {
        assert(before(l.rank(order[k] as int), l.rank(order[j] as int)));
    }
}

/// Which pieces are gone through at all: those that the peer holds and we want
/// and do not hold, each once.
pub proof fn law_every_wanted_piece_is_gone_through(l: Ledger, peer: Seq<bool>, x: int)
    requires
        l.wf(),
        0 <= x < l.have.len(),
    ensures
        l.candidate_order(peer).contains(x as u32) <==> x < peer.len() && peer[x] && !l.have[x]
            && l.priority[x] != 0,
        l.candidate_order(peer).no_duplicates(),
{
    law_candidates_can_be_listed(l, peer);
    let order = l.candidate_order(peer);
    if order.contains(x as u32) {
        let k = choose|k: int| 0 <= k < order.len() && order[k] == x as u32;
        assert(l.candidate(peer, order[k] as int));
    }
    if x < peer.len() && peer[x] && !l.have[x] && l.priority[x] != 0 {
        assert(l.candidate(peer, x));
    }
    assert forall|j: int, k: int| 0 <= j < order.len() && 0 <= k < order.len() && j != k implies
        order[j] != order[k] by {
        if order[j] == order[k] {
            lemma_order_distinct(l, peer, order, j, k);
        }
    }
}

/// A better piece is asked for first: if anything of a piece that stands later
/// is asked for, everything of an earlier one that may be is asked for too, and
/// before it.
pub proof fn law_better_piece_is_asked_for_first(
    l: Ledger,
    peer: Seq<bool>,
    want: nat,
    j: int,
    k: int,
    b: int,
    m: int,
)
    requires
        l.wf(),
        0 <= j < k < l.candidate_order(peer).len(),
        0 <= m < l.picks(peer, want).len(),
        l.picks(peer, want)[m].index == l.candidate_order(peer)[k],
        0 <= b < l.blocks(l.candidate_order(peer)[j] as int),
        l.requestable(l.candidate_order(peer)[j] as int, b),
    ensures
        l.picks(peer, want).take(m).contains(l.request(l.candidate_order(peer)[j] as int, b)),
{
    law_candidates_can_be_listed(l, peer);
    let order = l.candidate_order(peer);
    let x = order[j] as int;
    let n = order.len() as int;
    let all = l.offers(order, n);
    let picks = l.picks(peer, want);
    let r = picks[m];
    let q = l.request(x, b);
    assert(l.candidate(peer, order[j] as int));
    lemma_offers_prefix(l, order, j + 1, k);
    lemma_offers_prefix(l, order, k, n);
    let before_k = l.offers(order, k);
    // The earlier piece's block is on offer before the later piece is reached.
    assert(offered_by(l, order, j, q));
    lemma_offers_contains(l, order, k, q);
    let c = choose|c: int| 0 <= c < before_k.len() && before_k[c] == q;
    // The later piece's is not.
    assert(m >= before_k.len()) by {
        if m < before_k.len() {
            assert(all.take(before_k.len() as int)[m] == r);
            assert(before_k.contains(r));
            lemma_offers_contains(l, order, k, r);
            let i = choose|i: int| 0 <= i < k && #[trigger] offered_by(l, order, i, r);
            assert(l.candidate(peer, order[i] as int));
            assert(r.index == order[i]);
            lemma_order_distinct(l, peer, order, i, k);
        }
    }
    assert(all.take(before_k.len() as int)[c] == q);
    assert(picks.take(m)[c] == q);
}

/// Nothing is left out that could be asked for: a pick shorter than wanted
/// holds every block that may be requested of what the peer has.
pub proof fn law_pick_leaves_nothing_out(l: Ledger, peer: Seq<bool>, want: nat, x: int, b: int)
    requires
        l.wf(),
        0 <= x < l.have.len(),
        x < peer.len(),
        peer[x],
        !l.have[x],
        l.priority[x] != 0,
        0 <= b < l.blocks(x),
        !l.account(x).received[b],
        l.account(x).in_flight[b] == 0,
    ensures
        l.picks(peer, want).len() <= want,
        l.picks(peer, want).len() < want ==> l.picks(peer, want).contains(
            (BlockRequest {
                index: x as u32,
                begin: (b * 16384) as u32,
                length: l.block_len(x, b) as u32,
            }),
        ),
{
    assert(l.candidate(peer, x));
    assert(l.requestable(x, b));
    lemma_on_offer(l, peer, x, b);
    let all = l.on_offer(peer);
    if l.picks(peer, want).len() < want {
        assert(l.picks(peer, want) =~= all);
    }
}

/// What is asked of a peer, in plain terms: a block of a piece that it holds
/// and we want and do not hold, which has not arrived, and which nobody has
/// been asked for unless few blocks remain; it starts at a multiple of 16 KiB,
/// is no longer than that, and ends with the piece at the latest.
pub proof fn law_what_is_asked_is_missing(l: Ledger, peer: Seq<bool>, want: nat, k: int)
    requires
        l.wf(),
        0 <= k < l.picks(peer, want).len(),
    ensures
        ({
            let r = l.picks(peer, want)[k];
            let i = r.index as int;
            let b = r.begin as int / 16384;
            &&& i < l.have.len() && i < peer.len() && peer[i] && !l.have[i] && l.priority[i] != 0
            &&& r.begin % 16384 == 0
            &&& 0 <= b < l.blocks(i)
            &&& !l.account(i).received[b]
            &&& l.account(i).in_flight[b] == 0 || (l.endgame_blocks != 0 && (l.remaining(
                l.have.len() as int,
            ) <= l.endgame_blocks || l.endgame_blocks == u32::MAX))
            &&& 0 < r.length <= 16384
            &&& r.begin + r.length <= l.piece_len(i)
            &&& r.length < 16384 ==> r.begin + r.length == l.piece_len(i)
        }),
{
    law_picks_are_fair(l, peer, want, k);
    let r = l.picks(peer, want)[k];
    let b = choose|b: int| #[trigger] fair_request(l, peer, r, b);
    lemma_blocks_bound(l, r.index as int, b);
    assert(r.begin as int / 16384 == b);
}

/// Pieces and blocks in bytes: a piece is as long as the piece length, but for
/// a shorter last one; its blocks are 16 KiB each, but for a shorter last one,
/// and cover it.
pub proof fn law_geometry(l: Ledger, i: int, b: int)
    requires
        0 <= i,
        0 <= b,
    ensures
        ({
            let start = i * l.piece_length;
            let len = l.piece_len(i);
            &&& start + l.piece_length <= l.total_length ==> len == l.piece_length
            &&& start <= l.total_length < start + l.piece_length ==> len == l.total_length - start
            &&& start >= l.total_length ==> len == 0
            &&& l.blocks(i) * 16384 >= len
            &&& len > 0 ==> (l.blocks(i) - 1) * 16384 < len
            &&& b < l.blocks(i) - 1 ==> l.block_len(i, b) == 16384
            &&& b == l.blocks(i) - 1 ==> l.block_len(i, b) == len - b * 16384
            &&& b >= l.blocks(i) ==> l.block_len(i, b) == 0
        }),
{
}

proof fn lemma_remaining_update(l: Ledger, m: Ledger, i: int, n: int)
    requires
        0 <= n <= l.have.len(),
        l.have.len() == m.have.len(),
        0 <= i < l.have.len(),
        forall|j: int|
            0 <= j < l.have.len() && j != i ==> #[trigger] l.missing_blocks(j) == m.missing_blocks(
                j,
            ),
    ensures
        i < n ==> m.remaining(n) - l.remaining(n) == m.missing_blocks(i) - l.missing_blocks(i),
        i >= n ==> m.remaining(n) == l.remaining(n),
    decreases n,
{
    if n > 0 {
        lemma_remaining_update(l, m, i, n - 1);
        if n - 1 != i {
            assert(l.missing_blocks(n - 1) == m.missing_blocks(n - 1));
        }
    }
}

/// A block that arrives is taken note of, once: it counts as received, one
/// request for it is settled, and of a wanted piece one block less remains. No
/// other block is touched.
pub proof fn law_arrival_is_taken_note_of(l: Ledger, i: int, b: int)
    requires
        l.wf(),
        0 <= i < l.have.len(),
        !l.have[i],
        0 <= b < l.blocks(i),
    ensures
        ({
            let m = received_block(l, i, b);
            &&& m.account(i).received[b]
            &&& m.account(i).in_flight[b] == (if l.account(i).in_flight[b] > 0 {
                l.account(i).in_flight[b] - 1
            } else {
                0
            })
            &&& forall|c: int|
                0 <= c < l.blocks(i) && c != b ==> #[trigger] m.account(i).received[c]
                    == l.account(i).received[c] && m.account(i).in_flight[c] == l.account(
                    i,
                ).in_flight[c]
            &&& forall|j: int|
                0 <= j < l.have.len() && j != i ==> #[trigger] m.progress[j] == l.progress[j]
            &&& m.have == l.have
            &&& m.priority == l.priority
            &&& m.availability == l.availability
            &&& !l.account(i).received[b] && l.priority[i] != 0 ==> m.remaining(
                m.have.len() as int,
            ) == l.remaining(l.have.len() as int) - 1
        }),
{
    let m = received_block(l, i, b);
    assert(l.account_ok(i));
    assert(m.account(i).received =~= l.account(i).received.update(b, true));
    law_count_steps_by_one(l.account(i).received, b, true);
    law_count_bounds(l.account(i).received);
    law_count_bounds(m.account(i).received);
    assert forall|j: int| 0 <= j < l.have.len() && j != i implies #[trigger] l.missing_blocks(j)
        == m.missing_blocks(j) by {}
    lemma_remaining_update(l, m, i, l.have.len() as int);
}

/// A request given up is settled, once; the block does not count as received.
pub proof fn law_given_up_request_is_settled(l: Ledger, i: int, b: int)
    requires
        l.wf(),
        0 <= i < l.have.len(),
        0 <= b < l.blocks(i),
    ensures
        ({
            let m = failed_block(l, i, b);
            &&& m.account(i).in_flight[b] == (if l.account(i).in_flight[b] > 0 {
                l.account(i).in_flight[b] - 1
            } else {
                0
            })
            &&& m.account(i).received == l.account(i).received
            &&& forall|c: int|
                0 <= c < l.blocks(i) && c != b ==> #[trigger] m.account(i).in_flight[c]
                    == l.account(i).in_flight[c]
            &&& forall|j: int|
                0 <= j < l.have.len() && j != i ==> #[trigger] m.progress[j] == l.progress[j]
            &&& m.have == l.have
            &&& m.availability == l.availability
        }),
{
    assert(l.account_ok(i));
}

/// Nothing remains once every wanted piece is held, and before anything has
/// arrived every block of them does.
pub proof fn law_what_remains(l: Ledger, n: int)
    requires
        0 <= n <= l.have.len(),
    ensures
        (forall|i: int| 0 <= i < n ==> l.have[i] || #[trigger] l.priority[i] == 0)
            ==> l.remaining(n) == 0,
        n > 0 && !l.have[n - 1] && l.priority[n - 1] != 0 && l.progress[n - 1] is None
            ==> l.remaining(n) == l.remaining(n - 1) + l.blocks(n - 1),
    decreases n,
{
    if n > 0 {
        if forall|i: int| 0 <= i < n ==> l.have[i] || #[trigger] l.priority[i] == 0 {
            assert forall|i: int| 0 <= i < n - 1 implies l.have[i] || #[trigger] l.priority[i]
                == 0 by {}
            assert(l.have[n - 1] || l.priority[n - 1] == 0);
        }
        law_what_remains(l, n - 1);
        if l.progress[n - 1] is None {
            lemma_none_present(l.blocks(n - 1));
        }
    }
}

/// Each peer that announces a piece is counted once for it, and no longer once
/// it is gone.
pub proof fn law_holders_are_counted(l: Ledger, field: Seq<bool>, i: int)
    requires
        l.wf(),
        room_for(l, field),
        0 <= i < l.have.len(),
    ensures
        announced(l, field).availability[i] == l.availability[i] + (if i < field.len() && field[i] {
            1int
        } else {
            0int
        }),
        i < field.len() && field[i] && l.availability[i] > 0 ==> withdrawn(
            l,
            field,
        ).availability[i] == l.availability[i] - 1,
        !(i < field.len() && field[i]) ==> withdrawn(l, field).availability[i]
            == l.availability[i],
{
    if i < field.len() && field[i] {
        assert(l.availability[i] < u32::MAX);
    }
}

/// The endgame is when no more blocks remain than it is set to, of the pieces
/// that are wanted; set to none there is no endgame, and set to the most there
/// always is.
pub proof fn law_when_the_endgame_is(l: Ledger, n: int)
    requires
        0 <= n < l.have.len(),
    ensures
        l.endgame_blocks == 0 ==> !l.endgame(),
        l.endgame_blocks == 4_294_967_295 ==> l.endgame(),
        0 < l.endgame_blocks < 4_294_967_295 ==> (l.endgame() <==> l.remaining(l.have.len() as int)
            <= l.endgame_blocks),
        l.remaining(0) == 0,
        l.have[n] || l.priority[n] == 0 ==> l.remaining(n + 1) == l.remaining(n),
        !l.have[n] && l.priority[n] != 0 && count_present(l.account(n).received) <= l.blocks(n)
            ==> l.remaining(n + 1) == l.remaining(n) + l.blocks(n) - count_present(
            l.account(n).received,
        ),
        l.complete() <==> (forall|i: int|
            0 <= i < l.have.len() ==> #[trigger] l.have[i] || l.priority[i] == 0),
{
    assert(u32::MAX == 4_294_967_295);
    if l.complete() {
        assert forall|i: int| 0 <= i < l.have.len() implies #[trigger] l.have[i] || l.priority[i]
            == 0 by {}
    }
}

/// The bytes left are those of the pieces that are wanted and not held.
pub proof fn law_bytes_left(l: Ledger, n: int)
    requires
        0 <= n < l.have.len(),
    ensures
        l.bytes_left(0) == 0,
        l.bytes_left(n + 1) == l.bytes_left(n) + (if !l.have[n] && l.priority[n] != 0 {
            l.piece_len(n)
        } else {
            0
        }),
{
}

/// A pick is booked: each block that is asked for has one more request
/// outstanding, any other as many as before, nothing counts as received that did
/// not before, and nothing else changes.
pub proof fn law_pick_is_booked(l: Ledger, peer: Seq<bool>, want: nat, i: int, b: int)
    requires
        l.wf(),
        l.countable(),
        0 <= i < l.have.len(),
        0 <= b < l.blocks(i),
    ensures
        ({
            let m = l.after_pick(peer, want);
            let r = BlockRequest {
                index: i as u32,
                begin: (b * 16384) as u32,
                length: l.block_len(i, b) as u32,
            };
            &&& m.have == l.have && m.priority == l.priority && m.availability == l.availability
            &&& m.mode == l.mode && m.endgame_blocks == l.endgame_blocks
            &&& m.progress[i] is Some ==> m.progress[i]->Some_0.received == l.account(i).received
            &&& m.progress[i] is Some && l.picks(peer, want).contains(r)
                ==> m.progress[i]->Some_0.in_flight[b] == l.account(i).in_flight[b] + 1
            &&& m.progress[i] is Some && !l.picks(peer, want).contains(r)
                ==> m.progress[i]->Some_0.in_flight[b] == l.account(i).in_flight[b]
            &&& l.progress[i] is Some ==> m.progress[i] is Some
        }),
{
    assert(l.account_ok(i));
    if l.progress[i] is Some {
        assert(l.progress[i]->Some_0.in_flight[b] < u32::MAX);
    }
}

} // verus!
