//! Choke/unchoke decisions.
//!
//! Pure policy, like the picker: the engine samples each peer's recent
//! transfer rate and current choke state into [`PeerSnapshot`]s, calls
//! [`Choker::plan`] once per round, and applies the returned changes as
//! `choke`/`unchoke` messages.
//!
//! Interested peers are ranked by rate and the top [`Choker::max_unchoked`]
//! are unchoked. Every third round one *optimistic* slot goes to an
//! otherwise-choked interested peer so new and slow peers get a chance to
//! prove themselves; the optimistic pick rotates deterministically, which is
//! fair over time. Uninterested peers are always choked.
use vstd::prelude::*;
#[allow(unused_imports)]
use vstd::seq_lib::*;
use crate::sorting::{before, ordered, sort_keys, Key};

verus! {

/// Default number of peers unchoked at once.
pub const DEFAULT_MAX_UNCHOKED: usize = 4;

/// One peer's inputs to a choke round.
#[derive(Clone, Copy, Debug)]
pub struct PeerSnapshot {
    /// Engine-assigned connection id.
    pub id: u64,
    /// Whether the peer is interested in us.
    pub interested: bool,
    /// Recent transfer rate with this peer (bytes per round); the engine
    /// chooses download- or upload-rate per its leech/seed role.
    pub rate: u64,
    /// Whether we are currently unchoking this peer.
    pub unchoked: bool,
}

/// The state changes to apply after a round: peers to newly unchoke and to
/// newly choke. Peers already in the desired state are omitted.
#[derive(Clone, Debug, PartialEq, Eq)]
pub struct Decision {
    /// Send `unchoke` to these.
    pub unchoke: Vec<u64>,
    /// Send `choke` to these.
    pub choke: Vec<u64>,
}

/// The choke scheduler.
pub struct Choker {
    /// Peers unchoked at once, including the optimistic slot.
    pub max_unchoked: usize,
    round: u64,
}

// ---------------------------------------------------------------------------
// The model.

/// What an interested peer is ranked by: the better rate first, then the
/// lower id.
pub open spec fn standing(p: PeerSnapshot) -> Key {
    ((u64::MAX - p.rate) as u64, p.id, 0u64)
}

/// The standings of the interested ones among the first `n` peers.
pub open spec fn standings(peers: Seq<PeerSnapshot>, n: int) -> Seq<Key>
    decreases n,
{
    if n <= 0 {
        Seq::empty()
    } else if peers[n - 1].interested {
        standings(peers, n - 1).push(standing(peers[n - 1]))
    } else {
        standings(peers, n - 1)
    }
}

/// Whether `r` is the standings of the interested peers, best first.
pub open spec fn is_ranking(peers: Seq<PeerSnapshot>, r: Seq<Key>) -> bool {
    ordered(r) && r.to_multiset() == standings(peers, peers.len() as int).to_multiset()
}

/// The interested peers, best first.
pub open spec fn ranking(peers: Seq<PeerSnapshot>) -> Seq<u64> {
    let r = choose|r: Seq<Key>| #[trigger] is_ranking(peers, r);
    ids_of(r)
}

/// The ids in a ranking.
pub open spec fn ids_of(r: Seq<Key>) -> Seq<u64> {
    Seq::new(r.len(), |i: int| r[i].1)
}

/// The first `max` of the ranked peers.
pub open spec fn regulars(ranked: Seq<u64>, max: nat) -> Seq<u64> {
    if ranked.len() > max {
        ranked.take(max as int)
    } else {
        ranked
    }
}

/// Those of `ids` that are not among `others`.
pub open spec fn others_than(ids: Seq<u64>, others: Seq<u64>) -> Seq<u64>
    decreases ids.len(),
{
    if ids.len() == 0 {
        Seq::empty()
    } else if others.contains(ids.last()) {
        others_than(ids.drop_last(), others)
    } else {
        others_than(ids.drop_last(), others).push(ids.last())
    }
}

/// Which of `n` candidates the optimistic slot of a round goes to.
pub open spec fn optimistic_index(round: nat, n: nat) -> nat {
    if round / 3 <= usize::MAX {
        (round / 3) % n
    } else {
        0
    }
}

/// The peers that are unchoked in a round.
pub open spec fn chosen(peers: Seq<PeerSnapshot>, max: nat, round: nat) -> Seq<u64> {
    let ranked = ranking(peers);
    let regular = regulars(ranked, max);
    let candidates = others_than(ranked, regular);
    if round % 3 == 0 && candidates.len() > 0 {
        let kept = if regular.len() >= max && regular.len() > 0 {
            regular.drop_last()
        } else {
            regular
        };
        kept.push(candidates[optimistic_index(round, candidates.len()) as int])
    } else {
        regular
    }
}

/// The ids of those of the first `n` peers that are to be in `picked` and are
/// not unchoked (or the other way round, if `up` is false).
pub open spec fn changes(peers: Seq<PeerSnapshot>, picked: Seq<u64>, up: bool, n: int) -> Seq<u64>
    decreases n,
{
    if n <= 0 {
        Seq::empty()
    } else if picked.contains(peers[n - 1].id) == up && peers[n - 1].unchoked != up {
        changes(peers, picked, up, n - 1).push(peers[n - 1].id)
    } else {
        changes(peers, picked, up, n - 1)
    }
}

// ---------------------------------------------------------------------------
// The operations.

impl Default for Choker {
    fn default() -> (c: Choker)
        ensures
            c.slots() == DEFAULT_MAX_UNCHOKED,
            c.rounds() == 0,
    {
        Choker::new(DEFAULT_MAX_UNCHOKED)
    }
}

fn contains_id(ids: &Vec<u64>, id: u64) -> (r: bool)
    ensures
        r == ids@.contains(id),
{
    let mut i: usize = 0;
    while i < ids.len()
        invariant
            i <= ids.len(),
            forall|j: int| 0 <= j < i ==> ids@[j] != id,
        decreases ids.len() - i,
    {
        if ids[i] == id {
            proof {
                assert(ids@[i as int] == id);
            }
            return true;
        }
        i = i + 1;
    }
    false
}

proof fn lemma_total_order()
    ensures
        vstd::relations::total_ordering(|x: Key, y: Key| !before(y, x)),
{
    let leq = |x: Key, y: Key| !before(y, x);
    assert(vstd::relations::reflexive(leq));
    assert(vstd::relations::antisymmetric(leq));
    assert(vstd::relations::transitive(leq));
    assert(vstd::relations::strongly_connected(leq));
}

/// Any peers can be ranked.
proof fn lemma_ranking_exists(peers: Seq<PeerSnapshot>) -> (r: Seq<Key>)
    ensures
        is_ranking(peers, r),
{
    let leq = |x: Key, y: Key| !before(y, x);
    lemma_total_order();
    let s = standings(peers, peers.len() as int);
    s.lemma_sort_by_ensures(leq);
    let r = s.sort_by(leq);
    assert forall|i: int, j: int| 0 <= i < j < r.len() implies !before(
        #[trigger] r[j],
        #[trigger] r[i],
    ) by {
        assert(leq(r[i], r[j]));
    }
    r
}

/// Two rankings of the same peers are the same.
proof fn lemma_ranking_unique(peers: Seq<PeerSnapshot>, a: Seq<Key>, b: Seq<Key>)
    requires
        is_ranking(peers, a),
        is_ranking(peers, b),
    ensures
        a == b,
{
    let leq = |x: Key, y: Key| !before(y, x);
    lemma_total_order();
    assert(vstd::relations::sorted_by(a, leq));
    assert(vstd::relations::sorted_by(b, leq));
    vstd::seq_lib::lemma_sorted_unique(a, b, leq);
}

impl Choker {
    /// How many peers are unchoked at once.
    pub closed spec fn slots(self) -> nat {
        self.max_unchoked as nat
    }

    /// How many rounds have been planned.
    pub closed spec fn rounds(self) -> nat {
        self.round as nat
    }

    /// A choker that unchokes `max_unchoked` peers at a time.
    pub fn new(max_unchoked: usize) -> (c: Choker)
        ensures
            c.slots() == (if max_unchoked == 0 {
                1
            } else {
                max_unchoked
            }),
            c.rounds() == 0,
    {
        Choker {
            max_unchoked: if max_unchoked == 0 {
                1
            } else {
                max_unchoked
            },
            round: 0,
        }
    }

    /// How many rounds have been planned.
    pub fn rounds_planned(&self) -> (n: u64)
        ensures
            n == self.rounds(),
    {
        self.round
    }

    /// Advance one round and compute the choke changes for `peers`.
    pub fn plan(&mut self, peers: &[PeerSnapshot]) -> (d: Decision)
        requires
            old(self).rounds() < u64::MAX,
        ensures
            final(self).slots() == old(self).slots(),
            final(self).rounds() == old(self).rounds() + 1,
            d.unchoke@ == changes(
                peers@,
                chosen(peers@, old(self).slots(), old(self).rounds() + 1),
                true,
                peers@.len() as int,
            ),
            d.choke@ == changes(
                peers@,
                chosen(peers@, old(self).slots(), old(self).rounds() + 1),
                false,
                peers@.len() as int,
            ),
    {
        self.round = self.round + 1;
        let picked = choose_peers(peers, self.max_unchoked, self.round);
        let mut unchoke: Vec<u64> = Vec::new();
        let mut choke: Vec<u64> = Vec::new();
        let mut i: usize = 0;
        while i < peers.len()
            invariant
                i <= peers.len(),
                unchoke@ == changes(peers@, picked@, true, i as int),
                choke@ == changes(peers@, picked@, false, i as int),
            decreases peers.len() - i,
        {
            let want = contains_id(&picked, peers[i].id);
            if want && !peers[i].unchoked {
                unchoke.push(peers[i].id);
            } else if !want && peers[i].unchoked {
                choke.push(peers[i].id);
            }
            i = i + 1;
        }
        Decision { unchoke, choke }
    }
}

/// Interested peers by id, best rate first; ties broken by id.
fn rank_peers(peers: &[PeerSnapshot]) -> (ids: Vec<u64>)
    ensures
        ids@ == ranking(peers@),
{
    let mut keys: Vec<Key> = Vec::new();
    let mut i: usize = 0;
    while i < peers.len()
        invariant
            i <= peers.len(),
            keys@ == standings(peers@, i as int),
        decreases peers.len() - i,
    {
        if peers[i].interested {
            keys.push((u64::MAX - peers[i].rate, peers[i].id, 0));
        }
        i = i + 1;
    }
    let sorted = sort_keys(&keys);
    proof {
        assert(is_ranking(peers@, sorted@));
        let r = choose|r: Seq<Key>| #[trigger] is_ranking(peers@, r);
        lemma_ranking_unique(peers@, sorted@, r);
    }
    let mut ids: Vec<u64> = Vec::new();
    let mut k: usize = 0;
    while k < sorted.len()
        invariant
            k <= sorted.len(),
            ids@.len() == k,
            forall|j: int| 0 <= j < k ==> #[trigger] ids@[j] == sorted@[j].1,
        decreases sorted.len() - k,
    {
        ids.push(sorted[k].1);
        k = k + 1;
    }
    proof {
        assert(ids@ =~= ids_of(sorted@));
    }
    ids
}

fn choose_peers(peers: &[PeerSnapshot], max: usize, round: u64) -> (picked: Vec<u64>)
    ensures
        picked@ == chosen(peers@, max as nat, round as nat),
{
    let ranked = rank_peers(peers);
    let mut picked: Vec<u64> = Vec::new();
    let mut i: usize = 0;
    while i < ranked.len() && i < max
        invariant
            i <= ranked.len(),
            i <= max,
            picked@ =~= ranked@.take(i as int),
        decreases ranked.len() - i,
    {
        picked.push(ranked[i]);
        i = i + 1;
    }
    proof {
        if ranked@.len() <= max {
            assert(ranked@.take(i as int) =~= ranked@);
        }
        assert(picked@ == regulars(ranked@, max as nat));
    }
    if round % 3 == 0 {
        let ghost regular = picked@;
        let mut candidates: Vec<u64> = Vec::new();
        let mut k: usize = 0;
        proof {
            assert(ranked@.take(0) =~= Seq::empty());
        }
        while k < ranked.len()
            invariant
                k <= ranked.len(),
                picked@ == regular,
                candidates@ == others_than(ranked@.take(k as int), regular),
            decreases ranked.len() - k,
        {
            proof {
                assert(ranked@.take(k as int + 1).drop_last() =~= ranked@.take(k as int));
            }
            if !contains_id(&picked, ranked[k]) {
                candidates.push(ranked[k]);
            }
            k = k + 1;
        }
        proof {
            assert(ranked@.take(k as int) =~= ranked@);
        }
        if candidates.len() > 0 {
            let turn: u64 = round / 3;
            let idx: usize = if turn <= usize::MAX as u64 {
                turn as usize % candidates.len()
            } else {
                0
            };
            if picked.len() >= max {
                let _ = picked.pop();
            }
            picked.push(candidates[idx]);
            proof {
                let kept = if regular.len() >= max && regular.len() > 0 {
                    regular.drop_last()
                } else {
                    regular
                };
                assert(picked@ =~= kept.push(candidates@[idx as int]));
            }
        }
    }
    picked
}

// ---------------------------------------------------------------------------
// What a plan promises.

/// Whether no two peers share an id.
pub open spec fn distinct_ids(peers: Seq<PeerSnapshot>) -> bool {
    forall|i: int, j: int|
        0 <= i < j < peers.len() ==> (#[trigger] peers[i]).id != (#[trigger] peers[j]).id
}

pub proof fn lemma_changes_contains(
    peers: Seq<PeerSnapshot>,
    picked: Seq<u64>,
    up: bool,
    n: int,
    id: u64,
)
    requires
        0 <= n <= peers.len(),
    ensures
        changes(peers, picked, up, n).contains(id) <==> exists|i: int|
            0 <= i < n && (#[trigger] peers[i]).id == id && picked.contains(id) == up
                && peers[i].unchoked != up,
    decreases n,
{
    if n > 0 {
        lemma_changes_contains(peers, picked, up, n - 1, id);
        let a = changes(peers, picked, up, n - 1);
        let b = changes(peers, picked, up, n);
        let p = peers[n - 1];
        if a.contains(id) {
            let k = choose|k: int| 0 <= k < a.len() && a[k] == id;
            assert(b[k] == id);
        }
        if picked.contains(p.id) == up && p.unchoked != up {
            assert(b[b.len() - 1] == p.id);
            if b.contains(id) && !a.contains(id) {
                let k = choose|k: int| 0 <= k < b.len() && b[k] == id;
                if k < a.len() {
                    assert(a[k] == id);
                }
                assert(id == p.id);
            }
        }
    }
}

/// Whether peer `p` is unchoked once the changes are applied.
pub open spec fn unchoked_after(peers: Seq<PeerSnapshot>, picked: Seq<u64>, p: PeerSnapshot) -> bool {
    let n = peers.len() as int;
    changes(peers, picked, true, n).contains(p.id) || (p.unchoked && !changes(
        peers,
        picked,
        false,
        n,
    ).contains(p.id))
}

/// A plan tells no peer to choke and to unchoke at once, names only peers that
/// exist, and once applied leaves exactly the chosen peers unchoked.
pub proof fn law_plan_reaches_the_chosen(
    peers: Seq<PeerSnapshot>,
    picked: Seq<u64>,
    id: u64,
)
    requires
        distinct_ids(peers),
    ensures
        !(changes(peers, picked, true, peers.len() as int).contains(id) && changes(
            peers,
            picked,
            false,
            peers.len() as int,
        ).contains(id)),
        changes(peers, picked, true, peers.len() as int).contains(id) || changes(
            peers,
            picked,
            false,
            peers.len() as int,
        ).contains(id) ==> exists|i: int| 0 <= i < peers.len() && (#[trigger] peers[i]).id == id,
        forall|i: int|
            0 <= i < peers.len() ==> (unchoked_after(peers, picked, #[trigger] peers[i])
                <==> picked.contains(peers[i].id)),
{
    let n = peers.len() as int;
    lemma_changes_contains(peers, picked, true, n, id);
    lemma_changes_contains(peers, picked, false, n, id);
    assert forall|i: int| 0 <= i < peers.len() implies (unchoked_after(
        peers,
        picked,
        #[trigger] peers[i],
    ) <==> picked.contains(peers[i].id)) by {
        let p = peers[i];
        lemma_changes_contains(peers, picked, true, n, p.id);
        lemma_changes_contains(peers, picked, false, n, p.id);
        if picked.contains(p.id) && !p.unchoked {
            assert(peers[i].id == p.id);
        }
        if !picked.contains(p.id) && p.unchoked {
            assert(peers[i].id == p.id);
        }
    }
}

/// How many of the first `n` peers are among `picked`.
spec fn picked_count(peers: Seq<PeerSnapshot>, picked: Seq<u64>, n: int) -> nat
    decreases n,
{
    if n <= 0 {
        0
    } else {
        picked_count(peers, picked, n - 1) + if picked.contains(peers[n - 1].id) {
            1nat
        } else {
            0nat
        }
    }
}

/// How many of the first `n` peers are unchoked once the changes are applied.
pub open spec fn unchoked_count(peers: Seq<PeerSnapshot>, picked: Seq<u64>, n: int) -> nat
    decreases n,
{
    if n <= 0 {
        0
    } else {
        unchoked_count(peers, picked, n - 1) + if unchoked_after(peers, picked, peers[n - 1]) {
            1nat
        } else {
            0nat
        }
    }
}

proof fn lemma_unchoked_count(peers: Seq<PeerSnapshot>, picked: Seq<u64>, n: int)
    requires
        distinct_ids(peers),
        0 <= n <= peers.len(),
    ensures
        unchoked_count(peers, picked, n) == picked_count(peers, picked, n),
    decreases n,
{
    if n > 0 {
        lemma_unchoked_count(peers, picked, n - 1);
        law_plan_reaches_the_chosen(peers, picked, peers[n - 1].id);
        assert(unchoked_after(peers, picked, peers[n - 1]) <==> picked.contains(peers[n - 1].id));
    }
}

/// How many of the first `n` peers are interested.
pub open spec fn interested_count(peers: Seq<PeerSnapshot>, n: int) -> nat
    decreases n,
{
    if n <= 0 {
        0
    } else {
        interested_count(peers, n - 1) + if peers[n - 1].interested {
            1nat
        } else {
            0nat
        }
    }
}

proof fn lemma_picked_set(peers: Seq<PeerSnapshot>, picked: Seq<u64>, n: int) -> (s: Set<u64>)
    requires
        distinct_ids(peers),
        0 <= n <= peers.len(),
    ensures
        s.finite(),
        s.len() == picked_count(peers, picked, n),
        forall|id: u64| #[trigger] s.contains(id) ==> picked.contains(id),
        forall|id: u64| #[trigger]
            s.contains(id) ==> exists|i: int| 0 <= i < n && (#[trigger] peers[i]).id == id,
        forall|i: int|
            0 <= i < n && picked.contains((#[trigger] peers[i]).id) ==> s.contains(peers[i].id),
    decreases n,
{
    if n == 0 {
        Set::empty()
    } else {
        let s = lemma_picked_set(peers, picked, n - 1);
        let id = peers[n - 1].id;
        if picked.contains(id) {
            assert(!s.contains(id));
            let t = s.insert(id);
            assert forall|x: u64| #[trigger] t.contains(x) implies exists|i: int|
                0 <= i < n && (#[trigger] peers[i]).id == x by {
                if x == id {
                    assert(peers[n - 1].id == x);
                }
            }
            t
        } else {
            s
        }
    }
}

/// The standings name each interested peer once.
proof fn lemma_standings(peers: Seq<PeerSnapshot>, n: int)
    requires
        distinct_ids(peers),
        0 <= n <= peers.len(),
    ensures
        standings(peers, n).len() == interested_count(peers, n),
        forall|a: int, b: int|
            0 <= a < b < standings(peers, n).len() ==> (#[trigger] standings(peers, n)[a]).1 != (
            #[trigger] standings(peers, n)[b]).1,
        forall|a: int|
            0 <= a < standings(peers, n).len() ==> exists|i: int|
                0 <= i < n && standing(#[trigger] peers[i]) == (#[trigger] standings(peers, n)[a])
                    && peers[i].interested,
        forall|i: int|
            0 <= i < n && (#[trigger] peers[i]).interested ==> standings(peers, n).contains(
                standing(peers[i]),
            ),
    decreases n,
{
    if n > 0 {
        lemma_standings(peers, n - 1);
        let was = standings(peers, n - 1);
        let now = standings(peers, n);
        let p = peers[n - 1];
        if p.interested {
            assert(now[was.len() as int] == standing(p));
        }
        assert forall|i: int| 0 <= i < n && (#[trigger] peers[i]).interested implies now.contains(
            standing(peers[i]),
        ) by {
            if i < n - 1 {
                assert(was.contains(standing(peers[i])));
                let a = choose|a: int| 0 <= a < was.len() && was[a] == standing(peers[i]);
                assert(now[a] == standing(peers[i]));
            }
        }
        assert forall|a: int| 0 <= a < now.len() implies exists|i: int|
            0 <= i < n && standing(#[trigger] peers[i]) == (#[trigger] now[a])
                && peers[i].interested by {
            if a < was.len() {
                assert(now[a] == was[a]);
                let i = choose|i: int|
                    0 <= i < n - 1 && standing(#[trigger] peers[i]) == was[a]
                        && peers[i].interested;
                assert(standing(peers[i]) == now[a]);
            } else {
                assert(standing(peers[n - 1]) == now[a]);
            }
        }
        assert forall|a: int, b: int| 0 <= a < b < now.len() implies (#[trigger] now[a]).1 != (
        #[trigger] now[b]).1 by {
            assert(now[a] == was[a]);
            if b < was.len() {
                assert(now[b] == was[b]);
            } else {
                let i = choose|i: int|
                    0 <= i < n - 1 && standing(#[trigger] peers[i]) == was[a]
                        && peers[i].interested;
                assert(peers[i].id != peers[n - 1].id);
            }
        }
    }
}

/// The ranking names each interested peer once, and nobody else.
proof fn lemma_ranking(peers: Seq<PeerSnapshot>)
    requires
        distinct_ids(peers),
    ensures
        ranking(peers).no_duplicates(),
        ranking(peers).len() == interested_count(peers, peers.len() as int),
        forall|i: int|
            0 <= i < peers.len() && (#[trigger] peers[i]).interested ==> ranking(peers).contains(
                peers[i].id,
            ),
        forall|k: int|
            0 <= k < ranking(peers).len() ==> exists|i: int|
                0 <= i < peers.len() && (#[trigger] peers[i]).id == #[trigger] ranking(peers)[k],
{
    broadcast use group_to_multiset_ensures;

    let n = peers.len() as int;
    let _ = lemma_ranking_exists(peers);
    let r = choose|r: Seq<Key>| #[trigger] is_ranking(peers, r);
    let s = standings(peers, n);
    lemma_standings(peers, n);
    assert(r.len() == s.len()) by {
        assert(r.to_multiset().len() == s.to_multiset().len());
    }
    crate::sorting::lemma_rearranged_distinct(s, r);
    assert forall|i: int, j: int| 0 <= i < r.len() && 0 <= j < r.len() && i != j implies r[i].1
        != r[j].1 by {
        crate::sorting::lemma_same_elements(r, s, r[i]);
        crate::sorting::lemma_same_elements(r, s, r[j]);
        assert(r.contains(r[i]) && r.contains(r[j]));
        let a = choose|a: int| 0 <= a < s.len() && s[a] == r[i];
        let b = choose|b: int| 0 <= b < s.len() && s[b] == r[j];
        assert(a != b);
        if a < b {
            assert(s[a].1 != s[b].1);
        } else {
            assert(s[b].1 != s[a].1);
        }
    }
    assert forall|i: int| 0 <= i < peers.len() && (#[trigger] peers[i]).interested implies ranking(
        peers,
    ).contains(peers[i].id) by {
        let k = standing(peers[i]);
        crate::sorting::lemma_same_elements(r, s, k);
        let a = choose|a: int| 0 <= a < r.len() && r[a] == k;
        assert(ranking(peers)[a] == peers[i].id);
    }
    assert forall|k: int| 0 <= k < ranking(peers).len() implies exists|i: int|
        0 <= i < peers.len() && (#[trigger] peers[i]).id == #[trigger] ranking(peers)[k] by {
        crate::sorting::lemma_same_elements(r, s, r[k]);
        assert(r.contains(r[k]));
        let a = choose|a: int| 0 <= a < s.len() && s[a] == r[k];
        let i = choose|i: int|
            0 <= i < n && standing(#[trigger] peers[i]) == s[a] && peers[i].interested;
        assert(peers[i].id == ranking(peers)[k]);
    }
}

/// The interested peers can be ranked in one way and in no other: [`ranking`]
/// is theirs, best first.
pub proof fn law_peers_have_one_ranking(peers: Seq<PeerSnapshot>, r: Seq<Key>)
    ensures
        exists|q: Seq<Key>| #[trigger] is_ranking(peers, q),
        is_ranking(peers, r) ==> ranking(peers) == ids_of(r),
{
    let _ = lemma_ranking_exists(peers);
    let c = choose|q: Seq<Key>| #[trigger] is_ranking(peers, q);
    if is_ranking(peers, r) {
        lemma_ranking_unique(peers, r, c);
    }
}

/// Where an interested peer is ranked.
proof fn lemma_rank_of(peers: Seq<PeerSnapshot>, i: int) -> (k: int)
    requires
        distinct_ids(peers),
        0 <= i < peers.len(),
        peers[i].interested,
    ensures
        ({
            let r = choose|r: Seq<Key>| #[trigger] is_ranking(peers, r);
            &&& is_ranking(peers, r)
            &&& 0 <= k < r.len()
            &&& r[k] == standing(peers[i])
            &&& ranking(peers)[k] == peers[i].id
        }),
{
    let n = peers.len() as int;
    let _ = lemma_ranking_exists(peers);
    let r = choose|r: Seq<Key>| #[trigger] is_ranking(peers, r);
    lemma_standings(peers, n);
    crate::sorting::lemma_same_elements(r, standings(peers, n), standing(peers[i]));
    choose|k: int| 0 <= k < r.len() && r[k] == standing(peers[i])
}

/// The slots go to the best rates: no interested peer that a round leaves
/// choked has a better rate than one that it leaves unchoked, nor the same rate
/// and a lower id. On an optimistic round that holds of all that are unchoked
/// but the one whose turn it is.
pub proof fn law_best_rates_are_unchoked(
    peers: Seq<PeerSnapshot>,
    max: nat,
    round: nat,
    i: int,
    j: int,
)
    requires
        distinct_ids(peers),
        max >= 1,
        0 <= i < peers.len(),
        0 <= j < peers.len(),
        peers[j].interested,
        unchoked_after(peers, chosen(peers, max, round), peers[i]),
        !unchoked_after(peers, chosen(peers, max, round), peers[j]),
        round % 3 != 0 || peers[i].id != chosen(peers, max, round).last(),
    ensures
        peers[i].rate >= peers[j].rate,
        peers[i].rate == peers[j].rate ==> peers[i].id < peers[j].id,
{
    let picked = chosen(peers, max, round);
    let ranked = ranking(peers);
    law_plan_reaches_the_chosen(peers, picked, peers[i].id);
    assert(picked.contains(peers[i].id) && !picked.contains(peers[j].id));
    law_uninterested_peers_stay_choked(peers, max, round, peers[i].id);
    assert(peers[i].interested) by {
        let k = choose|k: int|
            0 <= k < peers.len() && (#[trigger] peers[k]).id == peers[i].id
                && peers[k].interested;
        if k < i {
            assert(peers[k].id != peers[i].id);
        } else if i < k {
            assert(peers[i].id != peers[k].id);
        }
    }
    let a = lemma_rank_of(peers, i);
    let b = lemma_rank_of(peers, j);
    lemma_ranking(peers);
    lemma_chosen(peers, max, round);
    let c = choose|c: int| 0 <= c < picked.len() && picked[c] == peers[i].id;
    // The picked peer stands in the ranking where it stands among the picked.
    assert(picked[c] == ranked[c]);
    assert(a == c);
    if b < c {
        assert(picked[b] == ranked[b]);
        assert(picked.contains(peers[j].id));
    }
    assert(b > a);
    let r = choose|r: Seq<Key>| #[trigger] is_ranking(peers, r);
    assert(!before(r[b], r[a]));
}

/// The candidates for the optimistic slot are those ranked below the regulars.
proof fn lemma_candidates(ranked: Seq<u64>, max: int, n: int)
    requires
        ranked.no_duplicates(),
        0 <= max <= n <= ranked.len(),
    ensures
        others_than(ranked.take(n), ranked.take(max)) == ranked.subrange(max, n),
    decreases n,
{
    let kept = ranked.take(max);
    if n > max {
        lemma_candidates(ranked, max, n - 1);
        assert(ranked.take(n).drop_last() =~= ranked.take(n - 1));
        assert(!kept.contains(ranked[n - 1]));
        assert(ranked.subrange(max, n) =~= ranked.subrange(max, n - 1).push(ranked[n - 1]));
    } else {
        lemma_no_others(kept, kept, max);
        assert(kept.take(max) =~= kept);
        assert(ranked.subrange(max, n) =~= Seq::empty());
    }
}

proof fn lemma_no_others(ids: Seq<u64>, all: Seq<u64>, n: int)
    requires
        0 <= n <= ids.len(),
        forall|i: int| 0 <= i < n ==> all.contains(#[trigger] ids[i]),
    ensures
        others_than(ids.take(n), all) == Seq::<u64>::empty(),
    decreases n,
{
    if n > 0 {
        lemma_no_others(ids, all, n - 1);
        assert(ids.take(n).drop_last() =~= ids.take(n - 1));
        assert(all.contains(ids[n - 1]));
    }
}

/// Whom a round chooses: nobody twice, as many as there are slots or ranked
/// peers, and the candidate whose turn it is.
proof fn lemma_chosen(peers: Seq<PeerSnapshot>, max: nat, round: nat)
    requires
        distinct_ids(peers),
        max >= 1,
    ensures
        chosen(peers, max, round).no_duplicates(),
        chosen(peers, max, round).len() == if ranking(peers).len() < max {
            ranking(peers).len()
        } else {
            max
        },
        forall|k: int|
            0 <= k < chosen(peers, max, round).len() ==> ranking(peers).contains(
                #[trigger] chosen(peers, max, round)[k],
            ),
        round % 3 == 0 && ranking(peers).len() > max ==> chosen(peers, max, round).last()
            == ranking(peers)[max as int + optimistic_index(
            round,
            (ranking(peers).len() - max) as nat,
        )],
        round % 3 != 0 ==> chosen(peers, max, round) == regulars(ranking(peers), max),
        forall|k: int|
            0 <= k < chosen(peers, max, round).len() && (round % 3 != 0 || k < chosen(
                peers,
                max,
                round,
            ).len() - 1) ==> (#[trigger] chosen(peers, max, round)[k]) == ranking(peers)[k],
{
    lemma_ranking(peers);
    let ranked = ranking(peers);
    let regular = regulars(ranked, max);
    let candidates = others_than(ranked, regular);
    let picked = chosen(peers, max, round);
    assert(ranked.take(ranked.len() as int) =~= ranked);
    if ranked.len() > max {
        lemma_candidates(ranked, max as int, ranked.len() as int);
        if round % 3 == 0 {
            let i = optimistic_index(round, candidates.len()) as int;
            assert(0 <= i < candidates.len());
            assert(candidates[i] == ranked[max + i]);
        }
    } else {
        lemma_no_others(ranked, ranked, ranked.len() as int);
    }
}

/// A plan leaves as many peers unchoked as there are slots, or interested peers
/// if those are fewer.
pub proof fn law_plan_respects_the_slots(peers: Seq<PeerSnapshot>, max: nat, round: nat)
    requires
        distinct_ids(peers),
        max >= 1,
    ensures
        unchoked_count(peers, chosen(peers, max, round), peers.len() as int)
            == if interested_count(peers, peers.len() as int) < max {
            interested_count(peers, peers.len() as int)
        } else {
            max
        },
{
    let n = peers.len() as int;
    let picked = chosen(peers, max, round);
    lemma_ranking(peers);
    lemma_chosen(peers, max, round);
    lemma_unchoked_count(peers, picked, n);
    let s = lemma_picked_set(peers, picked, n);
    picked.unique_seq_to_set();
    assert forall|id: u64| picked.contains(id) implies s.contains(id) by {
        let k = choose|k: int| 0 <= k < picked.len() && picked[k] == id;
        assert(ranking(peers).contains(picked[k]));
        let j = choose|j: int| 0 <= j < ranking(peers).len() && ranking(peers)[j] == id;
        let i = choose|i: int| 0 <= i < peers.len() && (#[trigger] peers[i]).id == ranking(peers)[j];
        assert(picked.contains(peers[i].id));
    }
    assert(s =~= picked.to_set());
}

/// Whether some peer with this id is interested.
pub open spec fn is_interested(peers: Seq<PeerSnapshot>, id: u64) -> bool {
    exists|i: int| 0 <= i < peers.len() && (#[trigger] peers[i]).id == id && peers[i].interested
}

proof fn lemma_standings_interested(peers: Seq<PeerSnapshot>, n: int, k: Key)
    requires
        0 <= n <= peers.len(),
        standings(peers, n).contains(k),
    ensures
        is_interested(peers, k.1),
    decreases n,
{
    if n > 0 {
        let a = standings(peers, n - 1);
        let b = standings(peers, n);
        let j = choose|j: int| 0 <= j < b.len() && b[j] == k;
        if j < a.len() {
            assert(a[j] == k);
            lemma_standings_interested(peers, n - 1, k);
        } else {
            assert(peers[n - 1].id == k.1);
        }
    }
}

proof fn lemma_others_subset(ids: Seq<u64>, others: Seq<u64>, x: u64)
    requires
        others_than(ids, others).contains(x),
    ensures
        ids.contains(x),
    decreases ids.len(),
{
    let o = others_than(ids, others);
    let k = choose|k: int| 0 <= k < o.len() && o[k] == x;
    if ids.len() > 0 {
        let p = others_than(ids.drop_last(), others);
        if k < p.len() {
            assert(p[k] == x);
            lemma_others_subset(ids.drop_last(), others, x);
            let j = choose|j: int| 0 <= j < ids.drop_last().len() && ids.drop_last()[j] == x;
            assert(ids[j] == x);
        } else {
            assert(ids[ids.len() - 1] == x);
        }
    }
}

/// Only interested peers are ever unchoked.
pub proof fn law_uninterested_peers_stay_choked(
    peers: Seq<PeerSnapshot>,
    max: nat,
    round: nat,
    id: u64,
)
    requires
        chosen(peers, max, round).contains(id),
    ensures
        is_interested(peers, id),
{
    let _ = lemma_ranking_exists(peers);
    let c = choose|r: Seq<Key>| #[trigger] is_ranking(peers, r);
    let ranked = ranking(peers);
    let regular = regulars(ranked, max);
    let candidates = others_than(ranked, regular);
    let picked = chosen(peers, max, round);
    let k = choose|k: int| 0 <= k < picked.len() && picked[k] == id;
    assert(ranked.contains(id)) by {
        if k < regular.len() && picked[k] == regular[k] {
            assert(ranked[k] == id);
        } else {
            let i = optimistic_index(round, candidates.len()) as int;
            assert(candidates[i] == id);
            assert(candidates.contains(id));
            lemma_others_subset(ranked, regular, id);
        }
    }
    let j = choose|j: int| 0 <= j < ranked.len() && ranked[j] == id;
    crate::sorting::lemma_same_elements(c, standings(peers, peers.len() as int), c[j]);
    assert(c.contains(c[j]));
    lemma_standings_interested(peers, peers.len() as int, c[j]);
}

/// Over any `n` optimistic rounds in a row, each of the same `n` candidates has
/// its turn.
proof fn lemma_turns(turn: nat, n: nat, c: nat) -> (j: nat)
    requires
        0 <= c < n,
        turn + n <= usize::MAX + 1,
    ensures
        j < n,
        optimistic_index(3 * (turn + j), n) == c,
{
    let m = turn % n;
    let j = if m <= c {
        (c - m) as nat
    } else {
        (c + n - m) as nat
    };
    let q = turn as int / n as int;
    assert(turn == q * n + m) by (nonlinear_arith)
        requires
            q == turn as int / n as int,
            m == turn % n,
            n > 0,
    ;
    let total = (turn + j) as int;
    let up = if m <= c {
        q
    } else {
        q + 1
    };
    assert(total == up * n + c) by (nonlinear_arith)
        requires
            total == turn + j,
            turn == q * n + m,
            j == (if m <= c {
                c - m
            } else {
                c + n - m
            }),
            up == (if m <= c {
                q
            } else {
                q + 1
            }),
    ;
    assert(total % (n as int) == c) by (nonlinear_arith)
        requires
            total == up * n + c,
            0 <= c < n,
    ;
    assert((3 * (turn + j)) / 3 == turn + j);
    j
}

/// The optimistic slot visits everyone: with the same peers, `k` more of them
/// interested than there are slots, every interested peer is left unchoked by
/// at least one of any `3 * k` plans in a row.
pub proof fn law_optimistic_slot_visits_everyone(
    peers: Seq<PeerSnapshot>,
    max: nat,
    k: nat,
    rounds: nat,
    i: int,
)
    requires
        distinct_ids(peers),
        max >= 1,
        k >= 1,
        interested_count(peers, peers.len() as int) == max + k,
        rounds + 3 * k <= u64::MAX,
        (rounds + 3 * k) / 3 <= usize::MAX,
        0 <= i < peers.len(),
        peers[i].interested,
    ensures
        exists|round: nat|
            rounds < round <= rounds + 3 * k && #[trigger] unchoked_after(
                peers,
                chosen(peers, max, round),
                peers[i],
            ),
{
    lemma_ranking(peers);
    let ranked = ranking(peers);
    let id = peers[i].id;
    let t = choose|t: int| 0 <= t < ranked.len() && ranked[t] == id;
    let round: nat = if t < max {
        if (rounds + 1) % 3 == 0 {
            rounds + 2
        } else {
            rounds + 1
        }
    } else {
        let turn = rounds / 3 + 1;
        3 * (turn + lemma_turns(turn, k, (t - max) as nat))
    };
    let picked = chosen(peers, max, round);
    lemma_chosen(peers, max, round);
    if t < max {
        assert(picked[t] == id);
    } else {
        assert(picked[picked.len() - 1] == id);
    }
    law_plan_reaches_the_chosen(peers, picked, id);
    assert(unchoked_after(peers, picked, peers[i]));
}

/// With a slot for everybody who is interested, everybody who is has one.
pub proof fn law_everybody_fits(peers: Seq<PeerSnapshot>, max: nat, round: nat, i: int)
    requires
        distinct_ids(peers),
        max >= 1,
        interested_count(peers, peers.len() as int) <= max,
        0 <= i < peers.len(),
        peers[i].interested,
    ensures
        chosen(peers, max, round).contains(peers[i].id),
{
    lemma_ranking(peers);
    let ranked = ranking(peers);
    assert(ranked.contains(peers[i].id));
    assert(ranked.take(ranked.len() as int) =~= ranked);
    lemma_no_others(ranked, ranked, ranked.len() as int);
}

/// Whose turn the optimistic slot is: on every third round, if more peers are
/// interested than there are slots, the last slot goes to one of those the
/// ranking leaves out, to the next of them each time, from the best on and
/// round again.
pub proof fn law_whose_turn_it_is(peers: Seq<PeerSnapshot>, max: nat, round: nat)
    requires
        max >= 1,
        round / 3 <= usize::MAX,
    ensures
        ({
            let r = ranking(peers);
            let k = r.len() - max;
            &&& k <= 0 ==> chosen(peers, max, round) == r
            &&& k > 0 && round % 3 != 0 ==> chosen(peers, max, round) == r.take(max as int)
            &&& k > 0 && round % 3 == 0 && r.no_duplicates() ==> chosen(peers, max, round)
                == r.take(max - 1).push(r[max + (round as int / 3) % k])
        }),
{
    let r = ranking(peers);
    let k = r.len() - max;
    if k <= 0 {
        lemma_no_others(r, r, r.len() as int);
        assert(r.take(r.len() as int) =~= r);
    } else if round % 3 == 0 && r.no_duplicates() {
        let regular = r.take(max as int);
        lemma_others_after(r, max as int, r.len() as int);
        assert(r.take(r.len() as int) =~= r);
        assert(regular.drop_last() =~= r.take(max - 1));
        assert(0 <= (round as int / 3) % k < k) by (nonlinear_arith)
            requires
                k > 0,
        ;
    }
}

proof fn lemma_others_after(r: Seq<u64>, max: int, n: int)
    requires
        r.no_duplicates(),
        0 <= max <= n <= r.len(),
    ensures
        others_than(r.take(n), r.take(max)) == r.subrange(max, n),
    decreases n,
{
    if n > 0 {
        let a = r.take(n);
        assert(a.drop_last() =~= r.take(n - 1));
        assert(a.last() == r[n - 1]);
        if n > max {
            lemma_others_after(r, max, n - 1);
            let regular = r.take(max);
            if regular.contains(r[n - 1]) {
                let j = choose|j: int| 0 <= j < regular.len() && regular[j] == r[n - 1];
                assert(r[j] == r[n - 1]);
            }
            assert(r.subrange(max, n - 1).push(r[n - 1]) =~= r.subrange(max, n));
        } else {
            lemma_no_others(r.take(n), r.take(n), n);
            assert(r.take(n).take(n) =~= r.take(n));
            assert(r.subrange(max, n) =~= Seq::empty());
        }
    } else {
        assert(r.take(0) =~= Seq::empty());
        assert(r.subrange(max, n) =~= Seq::empty());
    }
}

} // verus!
