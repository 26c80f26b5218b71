//! Who a torrent knows, and whom it trusts.
//!
//! Peer exchange is peer-controlled, with no limit on messages, so the table of
//! known destinations is capped. *Which* entries it keeps matters just as much:
//! at the cap a trusted destination displaces one learned from a stranger, and
//! a stranger's word displaces nothing.
//!
//! A piece that fails its hash is laid at somebody's door: whoever wrote its
//! blocks is remembered until the verdict, a sole supplier is banned on the
//! spot, and several share the suspicion.
use vstd::prelude::*;
use crate::dest::{same_dest, DestHash};

verus! {

/// Largest number of peer destinations one torrent will remember.
///
/// Peer exchange brings 512 destinations per message with no limit on
/// messages, so the cap stops one peer pointing the dial sweep at thousands of
/// destinations that each cost a tunnel and a timeout.
pub const MAX_KNOWN_PEERS: usize = 1024;

/// Hash failures a destination may share the blame for before it is banned.
///
/// A piece that fails with a single supplier is that supplier's doing, and it
/// is banned on the spot. A piece several peers contributed to cannot be pinned
/// on one of them, so each is counted as suspect instead; an honest peer caught
/// in a liar's company earns the count back on every piece it helps verify, a
/// liar never does.
pub const SUSPICION_LIMIT: u32 = 3;

/// Where a known destination came from, which decides whether it may be
/// evicted to make room for another.
#[derive(Clone, Copy, PartialEq, Eq, Debug, Structural)]
pub enum Source {
    /// A peer's word over peer exchange: unverified, unbounded in supply, and
    /// therefore the first thing to go.
    Pex,
    /// From a tracker, an inbound dial, the operator, or a live connection.
    /// Not something a stranger can displace.
    Trusted,
}

/// A destination we could dial, and where we heard of it.
#[derive(Clone, Copy, Debug)]
pub struct Known {
    pub dest: DestHash,
    pub source: Source,
}

/// A destination that shared the blame for failed pieces.
#[derive(Clone, Copy, Debug)]
struct Suspect {
    dest: DestHash,
    count: u32,
}

/// Who wrote a block of a piece that is not verified yet.
#[derive(Clone, Copy, Debug)]
struct Supply {
    piece: u32,
    block: u32,
    dest: DestHash,
}

/// What a torrent knows of the destinations it deals with.
pub struct Reputation {
    known: Vec<Known>,
    banned: Vec<DestHash>,
    suspicion: Vec<Suspect>,
    suppliers: Vec<Supply>,
}

// ---------------------------------------------------------------------------
// The model.

/// What a [`Reputation`] stands for.
#[verifier::ext_equal]
pub struct Standing {
    /// The destinations known, in the order in which they were learned.
    pub known: Seq<Known>,
    /// The destinations refused for the rest of the run.
    pub banned: Seq<DestHash>,
    /// Failed pieces each destination shared the blame for, less the pieces it
    /// has since helped verify.
    pub suspicion: Map<DestHash, u32>,
    /// Who wrote each block of a piece not yet verified, by piece and block.
    pub suppliers: Map<(u32, u32), DestHash>,
}

/// The first entry for `dest`, from the `n`th on; the length if there is none.
pub open spec fn entry_of(known: Seq<Known>, dest: DestHash, n: int) -> int
    decreases known.len() - n,
{
    if 0 <= n < known.len() && known[n].dest != dest {
        entry_of(known, dest, n + 1)
    } else {
        n
    }
}

/// The first entry that only a stranger vouches for, from the `n`th on; the
/// length if there is none.
pub open spec fn hearsay(known: Seq<Known>, n: int) -> int
    decreases known.len() - n,
{
    if 0 <= n < known.len() && known[n].source != Source::Pex {
        hearsay(known, n + 1)
    } else {
        n
    }
}

impl Standing {
    pub open spec fn knows(self, dest: DestHash) -> bool {
        entry_of(self.known, dest, 0) < self.known.len()
    }

    /// Whether the table of known destinations is within its cap, names no
    /// destination twice, and none that is banned.
    pub open spec fn wf(self) -> bool {
        &&& self.known.len() <= MAX_KNOWN_PEERS
        &&& forall|i: int, j: int|
            0 <= i < j < self.known.len() ==> (#[trigger] self.known[i]).dest != (
            #[trigger] self.known[j]).dest
        &&& forall|i: int|
            0 <= i < self.known.len() ==> !self.banned.contains((#[trigger] self.known[i]).dest)
        &&& self.banned.no_duplicates()
    }

    /// The table once `dest` has been heard of. A banned destination is never
    /// put back. A trusted sighting upgrades an entry; nothing downgrades one.
    /// At the cap a trusted destination displaces the first one learned over
    /// peer exchange, if there is one, and a stranger's word displaces nothing.
    pub open spec fn remembering(self, dest: DestHash, source: Source) -> Standing {
        let n = self.known.len() as int;
        let e = entry_of(self.known, dest, 0);
        let v = hearsay(self.known, 0);
        if self.banned.contains(dest) {
            self
        } else if e < n {
            if source == Source::Trusted {
                Standing { known: self.known.update(e, Known { dest, source }), ..self }
            } else {
                self
            }
        } else if n < MAX_KNOWN_PEERS {
            Standing { known: self.known.push(Known { dest, source }), ..self }
        } else if source == Source::Pex || v >= n {
            self
        } else {
            Standing { known: self.known.remove(v).push(Known { dest, source }), ..self }
        }
    }

    /// Whether hearing of `dest` adds it to the table.
    pub open spec fn is_news(self, dest: DestHash, source: Source) -> bool {
        !self.banned.contains(dest) && !self.knows(dest) && (self.known.len() < MAX_KNOWN_PEERS
            || (source == Source::Trusted && hearsay(self.known, 0) < self.known.len()))
    }

    /// The table once the first `n` of `dests` have been heard of.
    pub open spec fn remembering_all(
        self,
        dests: Seq<DestHash>,
        source: Source,
        n: int,
    ) -> Standing
        decreases n,
    {
        if n <= 0 {
            self
        } else {
            self.remembering_all(dests, source, n - 1).remembering(dests[n - 1], source)
        }
    }

    /// How many of the first `n` of `dests` are news, one after the other.
    pub open spec fn news_among(self, dests: Seq<DestHash>, source: Source, n: int) -> nat
        decreases n,
    {
        if n <= 0 {
            0
        } else {
            self.news_among(dests, source, n - 1) + if self.remembering_all(
                dests,
                source,
                n - 1,
            ).is_news(dests[n - 1], source) {
                1nat
            } else {
                0nat
            }
        }
    }

    /// The table once `dest` is refused for the rest of the run: it is
    /// forgotten, with what was held against it.
    pub open spec fn banning(self, dest: DestHash) -> Standing {
        let e = entry_of(self.known, dest, 0);
        Standing {
            known: if e < self.known.len() {
                self.known.remove(e)
            } else {
                self.known
            },
            banned: if self.banned.contains(dest) {
                self.banned
            } else {
                self.banned.push(dest)
            },
            suspicion: self.suspicion.remove(dest),
            ..self
        }
    }

    pub open spec fn banning_all(self, dests: Seq<DestHash>, n: int) -> Standing
        decreases n,
    {
        if n <= 0 {
            self
        } else {
            self.banning_all(dests, n - 1).banning(dests[n - 1])
        }
    }

    /// One failure less held against `dest`; none at all once the last is
    /// earned back.
    pub open spec fn pardoning(self, dest: DestHash) -> Standing {
        if self.suspicion.contains_key(dest) {
            Standing {
                suspicion: if self.suspicion[dest] <= 1 {
                    self.suspicion.remove(dest)
                } else {
                    self.suspicion.insert(dest, (self.suspicion[dest] - 1) as u32)
                },
                ..self
            }
        } else {
            self
        }
    }

    /// The standing once each of the first `n` of `dests` is pardoned one
    /// failure.
    pub open spec fn pardoning_all(self, dests: Seq<DestHash>, n: int) -> Standing
        decreases n,
    {
        if n <= 0 {
            self
        } else {
            self.pardoning_all(dests, n - 1).pardoning(dests[n - 1])
        }
    }

    /// The standing once piece `index`, of `n` blocks, has verified: its
    /// suppliers are off the hook for it, and each of them earns back one
    /// failure, however many of the blocks it wrote.
    pub open spec fn crediting(self, index: u32, n: int) -> Standing {
        let c = self.contributors(index, n);
        self.forgetting(index, n).pardoning_all(c, c.len() as int)
    }

    /// Who wrote the first `n` blocks of piece `index`, each named once.
    pub open spec fn contributors(self, index: u32, n: int) -> Seq<DestHash>
        decreases n,
    {
        if n <= 0 {
            Seq::empty()
        } else {
            let before = self.contributors(index, n - 1);
            let key = (index, (n - 1) as u32);
            if self.suppliers.contains_key(key) && !before.contains(self.suppliers[key]) {
                before.push(self.suppliers[key])
            } else {
                before
            }
        }
    }

    /// The failures held against a destination.
    pub open spec fn held_against(self, dest: DestHash) -> Option<u32> {
        if self.suspicion.contains_key(dest) {
            Some(self.suspicion[dest])
        } else {
            None
        }
    }

    /// Whether `dest` wrote one of the first `n` blocks of piece `index`.
    pub open spec fn wrote_some(self, index: u32, n: int, dest: DestHash) -> bool {
        exists|b: u32|
            b < n && #[trigger] self.suppliers.contains_key((index, b)) && self.suppliers[(
                index,
                b,
            )] == dest
    }

    /// The failures held against a destination once one more is.
    pub open spec fn next_suspicion(self, dest: DestHash) -> u32 {
        if self.suspicion.contains_key(dest) {
            if self.suspicion[dest] < u32::MAX {
                (self.suspicion[dest] + 1) as u32
            } else {
                u32::MAX
            }
        } else {
            1
        }
    }

    /// The standing once one more failure is held against each of the first
    /// `n` of `dests`.
    pub open spec fn suspecting(self, dests: Seq<DestHash>, n: int) -> Standing
        decreases n,
    {
        if n <= 0 {
            self
        } else {
            let s = self.suspecting(dests, n - 1);
            Standing {
                suspicion: s.suspicion.insert(dests[n - 1], s.next_suspicion(dests[n - 1])),
                ..s
            }
        }
    }

    /// Those of the first `n` of `dests` that one more failure takes to the
    /// limit.
    pub open spec fn over_the_limit(self, dests: Seq<DestHash>, n: int) -> Seq<DestHash>
        decreases n,
    {
        if n <= 0 {
            Seq::empty()
        } else if self.next_suspicion(dests[n - 1]) >= SUSPICION_LIMIT {
            self.over_the_limit(dests, n - 1).push(dests[n - 1])
        } else {
            self.over_the_limit(dests, n - 1)
        }
    }

    /// The standing once the suppliers of the first `n` blocks of piece `index`
    /// are forgotten.
    pub open spec fn forgetting(self, index: u32, n: int) -> Standing {
        Standing {
            suppliers: Map::new(
                |k: (u32, u32)|
                    self.suppliers.contains_key(k) && !(k.0 == index && k.1 < n),
                |k: (u32, u32)| self.suppliers[k],
            ),
            ..self
        }
    }

    /// Who is banned because piece `index`, of `n` blocks, failed: a sole
    /// supplier outright, one of several once it has shared the blame too
    /// often.
    pub open spec fn culprits(self, index: u32, n: int) -> Seq<DestHash> {
        let c = self.contributors(index, n);
        if c.len() <= 1 {
            c
        } else {
            self.over_the_limit(c, c.len() as int)
        }
    }

    /// The standing once piece `index`, of `n` blocks, has failed.
    pub open spec fn blaming(self, index: u32, n: int) -> Standing {
        let c = self.contributors(index, n);
        let d = self.culprits(index, n);
        let s = self.forgetting(index, n);
        (if c.len() <= 1 {
            s
        } else {
            s.suspecting(c, c.len() as int)
        }).banning_all(d, d.len() as int)
    }
}

/// One failure less; none at all once the last is earned back.
pub open spec fn one_less(held: Option<u32>) -> Option<u32> {
    match held {
        Some(count) => if count <= 1 {
            None
        } else {
            Some((count - 1) as u32)
        },
        None => None,
    }
}

spec fn suspect_at(v: Seq<Suspect>, d: DestHash, j: int) -> bool {
    0 <= j < v.len() && v[j].dest == d
}

spec fn suspicion_map(v: Seq<Suspect>) -> Map<DestHash, u32> {
    Map::new(
        |d: DestHash| exists|j: int| suspect_at(v, d, j),
        |d: DestHash| v[choose|j: int| suspect_at(v, d, j)].count,
    )
}

spec fn supply_at(v: Seq<Supply>, k: (u32, u32), j: int) -> bool {
    0 <= j < v.len() && v[j].piece == k.0 && v[j].block == k.1
}

spec fn supplier_map(v: Seq<Supply>) -> Map<(u32, u32), DestHash> {
    Map::new(
        |k: (u32, u32)| exists|j: int| supply_at(v, k, j),
        |k: (u32, u32)| v[choose|j: int| supply_at(v, k, j)].dest,
    )
}

spec fn suspects_distinct(v: Seq<Suspect>) -> bool {
    forall|i: int, j: int| 0 <= i < j < v.len() ==> (#[trigger] v[i]).dest != (#[trigger] v[j]).dest
}

spec fn supplies_distinct(v: Seq<Supply>) -> bool {
    forall|i: int, j: int|
        0 <= i < j < v.len() ==> (#[trigger] v[i]).piece != (#[trigger] v[j]).piece || v[i].block
            != v[j].block
}

impl View for Reputation {
    type V = Standing;

    closed spec fn view(&self) -> Standing {
        Standing {
            known: self.known@,
            banned: self.banned@,
            suspicion: suspicion_map(self.suspicion@),
            suppliers: supplier_map(self.suppliers@),
        }
    }
}

proof fn lemma_suspicion(v: Seq<Suspect>, j: int)
    requires
        suspects_distinct(v),
        0 <= j < v.len(),
    ensures
        suspicion_map(v).contains_key(v[j].dest),
        suspicion_map(v)[v[j].dest] == v[j].count,
{
    assert(suspect_at(v, v[j].dest, j));
    let k = choose|k: int| suspect_at(v, v[j].dest, k);
    assert(suspect_at(v, v[j].dest, k));
    if k < j {
        assert(v[k].dest != v[j].dest);
    } else if j < k {
        assert(v[j].dest != v[k].dest);
    }
}

proof fn lemma_supply(v: Seq<Supply>, j: int)
    requires
        supplies_distinct(v),
        0 <= j < v.len(),
    ensures
        supplier_map(v).contains_key((v[j].piece, v[j].block)),
        supplier_map(v)[(v[j].piece, v[j].block)] == v[j].dest,
{
    let key = (v[j].piece, v[j].block);
    assert(supply_at(v, key, j));
    let k = choose|k: int| supply_at(v, key, k);
    assert(supply_at(v, key, k));
    if k < j {
        assert(v[k].piece != v[j].piece || v[k].block != v[j].block);
    } else if j < k {
        assert(v[j].piece != v[k].piece || v[j].block != v[k].block);
    }
}

/// A list whose entries are those of `v`, but for `d`, which has count `c` (or
/// is gone), stands for the updated map.
proof fn lemma_suspicion_changed(v: Seq<Suspect>, w: Seq<Suspect>, d: DestHash, c: Option<u32>)
    requires
        suspects_distinct(v),
        suspects_distinct(w),
        forall|j: int|
            0 <= j < v.len() && (#[trigger] v[j]).dest != d ==> w.contains(v[j]),
        forall|j: int|
            0 <= j < w.len() && (#[trigger] w[j]).dest != d ==> v.contains(w[j]),
        match c {
            Some(n) => w.contains(Suspect { dest: d, count: n }),
            None => forall|j: int| 0 <= j < w.len() ==> (#[trigger] w[j]).dest != d,
        },
    ensures
        suspicion_map(w) == (match c {
            Some(n) => suspicion_map(v).insert(d, n),
            None => suspicion_map(v).remove(d),
        }),
{
    let m = suspicion_map(v);
    let n = suspicion_map(w);
    let r = match c {
        Some(n) => m.insert(d, n),
        None => m.remove(d),
    };
    assert forall|x: DestHash| #[trigger] n.contains_key(x) == r.contains_key(x) && (
    n.contains_key(x) ==> n[x] == r[x]) by {
        if x == d {
            match c {
                Some(k) => {
                    let j = choose|j: int| 0 <= j < w.len() && w[j] == (Suspect { dest: d, count: k });
                    lemma_suspicion(w, j);
                },
                None => {
                    if n.contains_key(x) {
                        let j = choose|j: int| suspect_at(w, x, j);
                        assert(w[j].dest != d);
                    }
                },
            }
        } else {
            if n.contains_key(x) {
                let j = choose|j: int| suspect_at(w, x, j);
                lemma_suspicion(w, j);
                assert(v.contains(w[j]));
                let k = choose|k: int| 0 <= k < v.len() && v[k] == w[j];
                lemma_suspicion(v, k);
            }
            if m.contains_key(x) {
                let j = choose|j: int| suspect_at(v, x, j);
                lemma_suspicion(v, j);
                assert(w.contains(v[j]));
                let k = choose|k: int| 0 <= k < w.len() && w[k] == v[j];
                lemma_suspicion(w, k);
            }
        }
    }
    assert(n =~= r);
}

proof fn lemma_supply_changed(
    v: Seq<Supply>,
    w: Seq<Supply>,
    key: (u32, u32),
    c: Option<DestHash>,
)
    requires
        supplies_distinct(v),
        supplies_distinct(w),
        forall|j: int|
            0 <= j < v.len() && !((#[trigger] v[j]).piece == key.0 && v[j].block == key.1)
                ==> w.contains(v[j]),
        forall|j: int|
            0 <= j < w.len() && !((#[trigger] w[j]).piece == key.0 && w[j].block == key.1)
                ==> v.contains(w[j]),
        match c {
            Some(d) => w.contains(Supply { piece: key.0, block: key.1, dest: d }),
            None => forall|j: int|
                0 <= j < w.len() ==> !((#[trigger] w[j]).piece == key.0 && w[j].block == key.1),
        },
    ensures
        supplier_map(w) == (match c {
            Some(d) => supplier_map(v).insert(key, d),
            None => supplier_map(v).remove(key),
        }),
{
    let m = supplier_map(v);
    let n = supplier_map(w);
    let r = match c {
        Some(d) => m.insert(key, d),
        None => m.remove(key),
    };
    assert forall|x: (u32, u32)| #[trigger] n.contains_key(x) == r.contains_key(x) && (
    n.contains_key(x) ==> n[x] == r[x]) by {
        if x == key {
            match c {
                Some(d) => {
                    let s = Supply { piece: key.0, block: key.1, dest: d };
                    let j = choose|j: int| 0 <= j < w.len() && w[j] == s;
                    lemma_supply(w, j);
                },
                None => {
                    if n.contains_key(x) {
                        let j = choose|j: int| supply_at(w, x, j);
                        assert(!(w[j].piece == key.0 && w[j].block == key.1));
                    }
                },
            }
        } else {
            if n.contains_key(x) {
                let j = choose|j: int| supply_at(w, x, j);
                lemma_supply(w, j);
                assert((w[j].piece, w[j].block) == x);
                assert(v.contains(w[j]));
                let k = choose|k: int| 0 <= k < v.len() && v[k] == w[j];
                lemma_supply(v, k);
            }
            if m.contains_key(x) {
                let j = choose|j: int| supply_at(v, x, j);
                lemma_supply(v, j);
                assert((v[j].piece, v[j].block) == x);
                assert(w.contains(v[j]));
                let k = choose|k: int| 0 <= k < w.len() && w[k] == v[j];
                lemma_supply(w, k);
            }
        }
    }
    assert(n =~= r);
}

proof fn lemma_entry(known: Seq<Known>, dest: DestHash, n: int)
    requires
        0 <= n <= known.len(),
    ensures
        n <= entry_of(known, dest, n) <= known.len(),
        entry_of(known, dest, n) < known.len() ==> known[entry_of(known, dest, n)].dest == dest,
        forall|j: int|
            n <= j < entry_of(known, dest, n) ==> (#[trigger] known[j]).dest != dest,
    decreases known.len() - n,
{
    if n < known.len() && known[n].dest != dest {
        lemma_entry(known, dest, n + 1);
    }
}

proof fn lemma_hearsay(known: Seq<Known>, n: int)
    requires
        0 <= n <= known.len(),
    ensures
        n <= hearsay(known, n) <= known.len(),
        hearsay(known, n) < known.len() ==> known[hearsay(known, n)].source == Source::Pex,
        forall|j: int|
            n <= j < hearsay(known, n) ==> (#[trigger] known[j]).source != Source::Pex,
    decreases known.len() - n,
{
    if n < known.len() && known[n].source != Source::Pex {
        lemma_hearsay(known, n + 1);
    }
}

proof fn lemma_remembering_wf(s: Standing, dest: DestHash, source: Source)
    requires
        s.wf(),
    ensures
        s.remembering(dest, source).wf(),
{
    lemma_entry(s.known, dest, 0);
    lemma_hearsay(s.known, 0);
}

proof fn lemma_banning_wf(s: Standing, dest: DestHash)
    requires
        s.wf(),
    ensures
        s.banning(dest).wf(),
{
    lemma_entry(s.known, dest, 0);
    let t = s.banning(dest);
    let e = entry_of(s.known, dest, 0);
    assert forall|i: int| 0 <= i < t.known.len() implies !t.banned.contains(
        (#[trigger] t.known[i]).dest,
    ) by {
        let j = if i < e {
            i
        } else if e < s.known.len() {
            i + 1
        } else {
            i
        };
        assert(t.known[i] == s.known[j]);
        assert(!s.banned.contains(s.known[j].dest));
        if e < s.known.len() {
            assert(s.known[e].dest == dest);
            if j < e {
                assert(s.known[j].dest != s.known[e].dest);
            } else {
                assert(s.known[e].dest != s.known[j].dest);
            }
        } else {
            assert(s.known[j].dest != dest);
        }
    }
}

// ---------------------------------------------------------------------------
// The operations.

impl Reputation {
    /// Whether the tables are in order.
    pub closed spec fn inv(self) -> bool {
        self@.wf() && suspects_distinct(self.suspicion@) && supplies_distinct(self.suppliers@)
    }

    /// Nobody known, nobody suspected.
    pub fn new() -> (r: Reputation)
        ensures
            r.inv(),
            r@.wf(),
            r@ == (Standing {
                known: Seq::empty(),
                banned: Seq::empty(),
                suspicion: Map::empty(),
                suppliers: Map::empty(),
            }),
    {
        let r = Reputation {
            known: Vec::new(),
            banned: Vec::new(),
            suspicion: Vec::new(),
            suppliers: Vec::new(),
        };
        proof {
            assert(r@.known =~= Seq::empty());
            assert(r@.banned =~= Seq::empty());
            assert(r@.suspicion =~= Map::empty());
            assert(r@.suppliers =~= Map::empty());
        }
        r
    }

    /// Where `dest` stands in the table of known destinations.
    fn find_known(&self, dest: DestHash) -> (n: usize)
        ensures
            n == entry_of(self@.known, dest, 0),
    {
        let mut i: usize = 0;
        while i < self.known.len() && !same_dest(self.known[i].dest, dest)
            invariant
                i <= self.known@.len(),
                entry_of(self.known@, dest, 0) == entry_of(self.known@, dest, i as int),
            decreases self.known.len() - i,
        {
            i = i + 1;
        }
        i
    }

    /// Whether `dest` is refused for the rest of this run.
    pub fn is_banned(&self, dest: DestHash) -> (r: bool)
        ensures
            r == self@.banned.contains(dest),
    {
        let mut i: usize = 0;
        while i < self.banned.len()
            invariant
                i <= self.banned@.len(),
                forall|j: int| 0 <= j < i ==> #[trigger] self.banned@[j] != dest,
            decreases self.banned.len() - i,
        {
            if same_dest(self.banned[i], dest) {
                proof {
                    assert(self.banned@[i as int] == dest);
                }
                return true;
            }
            i = i + 1;
        }
        false
    }

    /// How many destinations this run has banned.
    pub fn banned_count(&self) -> (n: usize)
        ensures
            n == self@.banned.len(),
    {
        self.banned.len()
    }

    /// The destinations known, in the order in which they were learned.
    pub fn known_peers(&self) -> (v: Vec<DestHash>)
        ensures
            v@ == self@.known.map_values(|k: Known| k.dest),
    {
        let mut v: Vec<DestHash> = Vec::new();
        let mut i: usize = 0;
        while i < self.known.len()
            invariant
                i <= self.known@.len(),
                v@.len() == i,
                forall|j: int| 0 <= j < i ==> #[trigger] v@[j] == self.known@[j].dest,
            decreases self.known.len() - i,
        {
            v.push(self.known[i].dest);
            i = i + 1;
        }
        proof {
            assert(v@ =~= self@.known.map_values(|k: Known| k.dest));
        }
        v
    }

    /// Remember a destination we could dial. Returns whether it was new to us.
    pub fn remember(&mut self, dest: DestHash, source: Source) -> (new: bool)
        requires
            old(self).inv(),
        ensures
            final(self).inv(),
            final(self)@.wf(),
            final(self)@ == old(self)@.remembering(dest, source),
            new == old(self)@.is_news(dest, source),
    {
        proof {
            lemma_remembering_wf(self@, dest, source);
            lemma_entry(self@.known, dest, 0);
            lemma_hearsay(self@.known, 0);
        }
        if self.is_banned(dest) {
            return false;
        }
        let e: usize = self.find_known(dest);
        if e < self.known.len() {
            if source == Source::Trusted {
                self.known.set(e, Known { dest, source });
            }
            return false;
        }
        if self.known.len() >= MAX_KNOWN_PEERS {
            if source == Source::Pex {
                return false;
            }
            let mut v: usize = 0;
            while v < self.known.len() && self.known[v].source != Source::Pex
                invariant
                    v <= self.known@.len(),
                    hearsay(self.known@, 0) == hearsay(self.known@, v as int),
                decreases self.known.len() - v,
            {
                v = v + 1;
            }
            if v >= self.known.len() {
                return false;
            }
            self.known.remove(v);
        }
        self.known.push(Known { dest, source });
        true
    }

    /// Nothing is held against `dest` any more.
    fn clear_suspicion(&mut self, dest: DestHash)
        requires
            old(self).inv(),
        ensures
            final(self).inv(),
            final(self)@ == (Standing {
                suspicion: old(self)@.suspicion.remove(dest),
                ..old(self)@
            }),
    {
        let ghost v = self.suspicion@;
        let mut i: usize = 0;
        while i < self.suspicion.len() && !same_dest(self.suspicion[i].dest, dest)
            invariant
                i <= self.suspicion@.len(),
                forall|j: int| 0 <= j < i ==> (#[trigger] self.suspicion@[j]).dest != dest,
            decreases self.suspicion.len() - i,
        {
            i = i + 1;
        }
        if i < self.suspicion.len() {
            self.suspicion.remove(i);
        }
        proof {
            let w = self.suspicion@;
            assert forall|j: int| 0 <= j < v.len() && (#[trigger] v[j]).dest != dest implies
                w.contains(v[j]) by {
                if j < i {
                    assert(w[j] == v[j]);
                } else {
                    assert(w[j - 1] == v[j]);
                }
            }
            assert forall|j: int| 0 <= j < w.len() implies v.contains(#[trigger] w[j]) && w[j].dest
                != dest by {
                if j < i {
                    assert(w[j] == v[j]);
                } else {
                    assert(w[j] == v[j + 1]);
                    assert(v[i as int].dest != v[j + 1].dest);
                }
            }
            lemma_suspicion_changed(v, w, dest, None);
            assert(self@.known == old(self)@.known);
        }
    }

    /// `count` failures are held against `dest`.
    fn set_suspicion(&mut self, dest: DestHash, count: u32)
        requires
            old(self).inv(),
        ensures
            final(self).inv(),
            final(self)@ == (Standing {
                suspicion: old(self)@.suspicion.insert(dest, count),
                ..old(self)@
            }),
    {
        let ghost v = self.suspicion@;
        let mut i: usize = 0;
        while i < self.suspicion.len() && !same_dest(self.suspicion[i].dest, dest)
            invariant
                i <= self.suspicion@.len(),
                forall|j: int| 0 <= j < i ==> (#[trigger] self.suspicion@[j]).dest != dest,
            decreases self.suspicion.len() - i,
        {
            i = i + 1;
        }
        if i < self.suspicion.len() {
            self.suspicion.set(i, Suspect { dest, count });
        } else {
            self.suspicion.push(Suspect { dest, count });
        }
        proof {
            let w = self.suspicion@;
            assert(w[i as int] == (Suspect { dest, count }));
            assert forall|j: int| 0 <= j < v.len() && (#[trigger] v[j]).dest != dest implies
                w.contains(v[j]) by {
                assert(w[j] == v[j]);
            }
            assert forall|j: int| 0 <= j < w.len() && (#[trigger] w[j]).dest != dest implies
                v.contains(w[j]) by {
                assert(w[j] == v[j]);
            }
            lemma_suspicion_changed(v, w, dest, Some(count));
        }
    }

    /// The failures held against `dest`, if any.
    fn suspicion_of(&self, dest: DestHash) -> (r: Option<u32>)
        requires
            self.inv(),
        ensures
            match r {
                Some(n) => self@.suspicion.contains_key(dest) && self@.suspicion[dest] == n,
                None => !self@.suspicion.contains_key(dest),
            },
    {
        let mut i: usize = 0;
        while i < self.suspicion.len()
            invariant
                self.inv(),
                i <= self.suspicion@.len(),
                forall|j: int| 0 <= j < i ==> (#[trigger] self.suspicion@[j]).dest != dest,
            decreases self.suspicion.len() - i,
        {
            if same_dest(self.suspicion[i].dest, dest) {
                proof {
                    lemma_suspicion(self.suspicion@, i as int);
                }
                return Some(self.suspicion[i].count);
            }
            i = i + 1;
        }
        proof {
            if self@.suspicion.contains_key(dest) {
                let j = choose|j: int| suspect_at(self.suspicion@, dest, j);
                assert(self.suspicion@[j].dest != dest);
            }
        }
        None
    }

    /// Refuse `dest` for the rest of the run.
    pub fn ban(&mut self, dest: DestHash)
        requires
            old(self).inv(),
        ensures
            final(self).inv(),
            final(self)@.wf(),
            final(self)@ == old(self)@.banning(dest),
    {
        proof {
            lemma_banning_wf(self@, dest);
            lemma_entry(self@.known, dest, 0);
        }
        self.clear_suspicion(dest);
        if !self.is_banned(dest) {
            self.banned.push(dest);
        }
        let e: usize = self.find_known(dest);
        if e < self.known.len() {
            self.known.remove(e);
        }
    }

    /// `dest` wrote block `block` of piece `piece`.
    pub fn supplied(&mut self, piece: u32, block: u32, dest: DestHash)
        requires
            old(self).inv(),
        ensures
            final(self).inv(),
            final(self)@.wf(),
            final(self)@ == (Standing {
                suppliers: old(self)@.suppliers.insert((piece, block), dest),
                ..old(self)@
            }),
    {
        let ghost v = self.suppliers@;
        let ghost key = (piece, block);
        let mut i: usize = 0;
        while i < self.suppliers.len() && !(self.suppliers[i].piece == piece
            && self.suppliers[i].block == block)
            invariant
                i <= self.suppliers@.len(),
                forall|j: int|
                    0 <= j < i ==> !((#[trigger] self.suppliers@[j]).piece == piece
                        && self.suppliers@[j].block == block),
            decreases self.suppliers.len() - i,
        {
            i = i + 1;
        }
        if i < self.suppliers.len() {
            self.suppliers.set(i, Supply { piece, block, dest });
        } else {
            self.suppliers.push(Supply { piece, block, dest });
        }
        proof {
            let w = self.suppliers@;
            assert(w[i as int] == (Supply { piece, block, dest }));
            assert forall|j: int|
                0 <= j < v.len() && !((#[trigger] v[j]).piece == key.0 && v[j].block == key.1)
                implies w.contains(v[j]) by {
                assert(w[j] == v[j]);
            }
            assert forall|j: int|
                0 <= j < w.len() && !((#[trigger] w[j]).piece == key.0 && w[j].block == key.1)
                implies v.contains(w[j]) by {
                assert(w[j] == v[j]);
            }
            lemma_supply_changed(v, w, key, Some(dest));
        }
    }

    /// Forget who wrote a block, and say who it was.
    fn take_supplier(&mut self, piece: u32, block: u32) -> (r: Option<DestHash>)
        requires
            old(self).inv(),
        ensures
            final(self).inv(),
            final(self)@ == (Standing {
                suppliers: old(self)@.suppliers.remove((piece, block)),
                ..old(self)@
            }),
            match r {
                Some(d) => old(self)@.suppliers.contains_key((piece, block)) && old(
                    self,
                )@.suppliers[(piece, block)] == d,
                None => !old(self)@.suppliers.contains_key((piece, block)),
            },
    {
        let ghost v = self.suppliers@;
        let ghost key = (piece, block);
        let mut i: usize = 0;
        while i < self.suppliers.len() && !(self.suppliers[i].piece == piece
            && self.suppliers[i].block == block)
            invariant
                i <= self.suppliers@.len(),
                forall|j: int|
                    0 <= j < i ==> !((#[trigger] self.suppliers@[j]).piece == piece
                        && self.suppliers@[j].block == block),
            decreases self.suppliers.len() - i,
        {
            i = i + 1;
        }
        let mut r: Option<DestHash> = None;
        if i < self.suppliers.len() {
            proof {
                lemma_supply(v, i as int);
            }
            r = Some(self.suppliers[i].dest);
            self.suppliers.remove(i);
        }
        proof {
            let w = self.suppliers@;
            if i >= v.len() && supplier_map(v).contains_key(key) {
                let j = choose|j: int| supply_at(v, key, j);
                assert(supply_at(v, key, j));
                assert(!(v[j].piece == piece && v[j].block == block));
            }
            assert forall|j: int|
                0 <= j < v.len() && !((#[trigger] v[j]).piece == key.0 && v[j].block == key.1)
                implies w.contains(v[j]) by {
                if j < i {
                    assert(w[j] == v[j]);
                } else {
                    assert(w[j - 1] == v[j]);
                }
            }
            assert forall|j: int| 0 <= j < w.len() implies v.contains(#[trigger] w[j]) && !(
            w[j].piece == key.0 && w[j].block == key.1) by {
                if j < i {
                    assert(w[j] == v[j]);
                } else {
                    assert(w[j] == v[j + 1]);
                    assert(v[i as int].piece != v[j + 1].piece || v[i as int].block != v[j
                        + 1].block);
                }
            }
            lemma_supply_changed(v, w, key, None);
        }
        r
    }

    /// The suppliers of the first `blocks` blocks of piece `index`, each named
    /// once; they are forgotten.
    fn take_contributors(&mut self, index: u32, blocks: u32) -> (contributors: Vec<DestHash>)
        requires
            old(self).inv(),
        ensures
            final(self).inv(),
            final(self)@ == old(self)@.forgetting(index, blocks as int),
            contributors@ == old(self)@.contributors(index, blocks as int),
    {
        let ghost s0 = self@;
        let mut contributors: Vec<DestHash> = Vec::new();
        let mut b: u32 = 0;
        proof {
            assert(s0.forgetting(index, 0).suppliers =~= s0.suppliers);
        }
        while b < blocks
            invariant
                b <= blocks,
                self.inv(),
                self@ == s0.forgetting(index, b as int),
                contributors@ == s0.contributors(index, b as int),
            decreases blocks - b,
        {
            let ghost s = self@;
            let taken = self.take_supplier(index, b);
            proof {
                assert(self@.suppliers =~= s0.forgetting(index, b + 1).suppliers);
                assert(s.suppliers.contains_key((index, b)) == s0.suppliers.contains_key(
                    (index, b),
                ));
            }
            if let Some(dest) = taken {
                if !contains_dest(&contributors, dest) {
                    contributors.push(dest);
                }
            }
            b = b + 1;
        }
        contributors
    }

    /// A piece verified: its suppliers are off the hook for it, and each one
    /// earns back one of the failures it may have been party to.
    pub fn credit(&mut self, index: u32, blocks: u32)
        requires
            old(self).inv(),
        ensures
            final(self).inv(),
            final(self)@.wf(),
            final(self)@ == old(self)@.crediting(index, blocks as int),
    {
        let contributors = self.take_contributors(index, blocks);
        let ghost s = self@;
        let mut k: usize = 0;
        while k < contributors.len()
            invariant
                k <= contributors@.len(),
                self.inv(),
                self@ == s.pardoning_all(contributors@, k as int),
            decreases contributors.len() - k,
        {
            let dest = contributors[k];
            if let Some(count) = self.suspicion_of(dest) {
                if count <= 1 {
                    self.clear_suspicion(dest);
                } else {
                    self.set_suspicion(dest, count - 1);
                }
            }
            k = k + 1;
        }
    }

    /// A piece failed its hash: a sole supplier is banned outright; several
    /// share the suspicion and any that reaches the limit is banned. Says who
    /// was banned.
    pub fn blame(&mut self, index: u32, blocks: u32) -> (culprits: Vec<DestHash>)
        requires
            old(self).inv(),
        ensures
            final(self).inv(),
            final(self)@.wf(),
            final(self)@ == old(self)@.blaming(index, blocks as int),
            culprits@ == old(self)@.culprits(index, blocks as int),
    {
        let ghost s0 = self@;
        let contributors = self.take_contributors(index, blocks);
        if contributors.len() <= 1 {
            let mut k: usize = 0;
            while k < contributors.len()
                invariant
                    k <= contributors@.len(),
                    self.inv(),
                    self@ == s0.forgetting(index, blocks as int).banning_all(
                        contributors@,
                        k as int,
                    ),
                decreases contributors.len() - k,
            {
                self.ban(contributors[k]);
                k = k + 1;
            }
            return contributors;
        }
        let ghost s1 = self@;
        let mut culprits: Vec<DestHash> = Vec::new();
        let mut k: usize = 0;
        proof {
            lemma_contributors_distinct(s0, index, blocks as int);
        }
        while k < contributors.len()
            invariant
                k <= contributors@.len(),
                self.inv(),
                s1 == s0.forgetting(index, blocks as int),
                contributors@.no_duplicates(),
                self@ == s1.suspecting(contributors@, k as int),
                culprits@ == s0.over_the_limit(contributors@, k as int),
            decreases contributors.len() - k,
        {
            let dest = contributors[k];
            proof {
                lemma_suspecting_others(s1, contributors@, k as int, dest);
                assert(s1.next_suspicion(dest) == s0.next_suspicion(dest));
            }
            let count: u32 = match self.suspicion_of(dest) {
                Some(n) => if n < u32::MAX {
                    n + 1
                } else {
                    u32::MAX
                },
                None => 1,
            };
            self.set_suspicion(dest, count);
            if count >= SUSPICION_LIMIT {
                culprits.push(dest);
            }
            k = k + 1;
        }
        let ghost s2 = self@;
        let mut i: usize = 0;
        while i < culprits.len()
            invariant
                i <= culprits@.len(),
                self.inv(),
                self@ == s2.banning_all(culprits@, i as int),
            decreases culprits.len() - i,
        {
            self.ban(culprits[i]);
            i = i + 1;
        }
        culprits
    }
}

/// Whether `dest` is in the list.
pub fn contains_dest(v: &Vec<DestHash>, dest: DestHash) -> (r: bool)
    ensures
        r == v@.contains(dest),
{
    let mut i: usize = 0;
    while i < v.len()
        invariant
            i <= v@.len(),
            forall|j: int| 0 <= j < i ==> #[trigger] v@[j] != dest,
        decreases v.len() - i,
    {
        if same_dest(v[i], dest) {
            proof {
                assert(v@[i as int] == dest);
            }
            return true;
        }
        i = i + 1;
    }
    false
}

proof fn lemma_contributors_distinct(s: Standing, index: u32, n: int)
    ensures
        s.contributors(index, n).no_duplicates(),
    decreases n,
{
    if n > 0 {
        lemma_contributors_distinct(s, index, n - 1);
    }
}

/// Suspecting others leaves what is held against `dest`.
proof fn lemma_suspecting_others(s: Standing, dests: Seq<DestHash>, n: int, dest: DestHash)
    requires
        0 <= n <= dests.len(),
        forall|j: int| 0 <= j < n ==> #[trigger] dests[j] != dest,
    ensures
        s.suspecting(dests, n).next_suspicion(dest) == s.next_suspicion(dest),
    decreases n,
{
    if n > 0 {
        lemma_suspecting_others(s, dests, n - 1, dest);
    }
}

// ---------------------------------------------------------------------------
// What the tables promise.

proof fn lemma_knows(s: Standing, dest: DestHash)
    ensures
        s.knows(dest) <==> exists|i: int|
            0 <= i < s.known.len() && (#[trigger] s.known[i]).dest == dest,
{
    lemma_entry(s.known, dest, 0);
}

proof fn lemma_banning_all(s: Standing, dests: Seq<DestHash>, n: int, dest: DestHash)
    requires
        s.wf(),
        0 <= n <= dests.len(),
    ensures
        s.banning_all(dests, n).wf(),
        s.banning_all(dests, n).banned.contains(dest) <==> s.banned.contains(dest) || exists|i: int|
            0 <= i < n && #[trigger] dests[i] == dest,
    decreases n,
{
    if n > 0 {
        lemma_banning_all(s, dests, n - 1, dest);
        let t = s.banning_all(dests, n - 1);
        lemma_banning_wf(t, dests[n - 1]);
        let u = t.banning(dests[n - 1]);
        if t.banned.contains(dest) {
            let i = choose|i: int| 0 <= i < t.banned.len() && t.banned[i] == dest;
            assert(u.banned[i] == dest);
        }
        if dests[n - 1] == dest && !t.banned.contains(dest) {
            assert(u.banned.last() == dest);
        }
        if u.banned.contains(dest) && !t.banned.contains(dest) {
            let i = choose|i: int| 0 <= i < u.banned.len() && u.banned[i] == dest;
            if i < t.banned.len() {
                assert(t.banned[i] == dest);
            }
            assert(dests[n - 1] == dest);
        }
        assert forall|i: int| 0 <= i < n && #[trigger] dests[i] == dest implies u.banned.contains(
            dest,
        ) by {
            if i < n - 1 {
                assert(t.banned.contains(dest));
            }
        }
    }
}

proof fn lemma_suspecting(s: Standing, dests: Seq<DestHash>, n: int)
    ensures
        s.suspecting(dests, n).known == s.known,
        s.suspecting(dests, n).banned == s.banned,
    decreases n,
{
    if n > 0 {
        lemma_suspecting(s, dests, n - 1);
    }
}

/// Pardoning changes what is held against those named, by one failure each, and
/// nothing else.
proof fn lemma_pardoning_all(s: Standing, dests: Seq<DestHash>, n: int, dest: DestHash)
    requires
        0 <= n <= dests.len(),
        dests.no_duplicates(),
    ensures
        s.pardoning_all(dests, n).known == s.known,
        s.pardoning_all(dests, n).banned == s.banned,
        s.pardoning_all(dests, n).suppliers == s.suppliers,
        s.pardoning_all(dests, n).held_against(dest) == if exists|i: int|
            0 <= i < n && #[trigger] dests[i] == dest {
            one_less(s.held_against(dest))
        } else {
            s.held_against(dest)
        },
    decreases n,
{
    if n > 0 {
        lemma_pardoning_all(s, dests, n - 1, dest);
        if dests[n - 1] == dest {
            assert forall|i: int| 0 <= i < n - 1 implies #[trigger] dests[i] != dest by {}
        } else if exists|i: int| 0 <= i < n && #[trigger] dests[i] == dest {
            let i = choose|i: int| 0 <= i < n && #[trigger] dests[i] == dest;
            assert(i < n - 1);
        }
    }
}

proof fn lemma_contributors(s: Standing, index: u32, n: int, dest: DestHash)
    requires
        0 <= n <= u32::MAX,
    ensures
        s.contributors(index, n).contains(dest) <==> s.wrote_some(index, n, dest),
    decreases n,
{
    if n > 0 {
        lemma_contributors(s, index, n - 1, dest);
        let before = s.contributors(index, n - 1);
        let key = (index, (n - 1) as u32);
        if s.suppliers.contains_key(key) {
            lemma_push_contains(before, s.suppliers[key], dest);
        }
        if s.wrote_some(index, n, dest) {
            let b = choose|b: u32|
                b < n && #[trigger] s.suppliers.contains_key((index, b)) && s.suppliers[(index, b)]
                    == dest;
            if b < n - 1 {
                assert(s.wrote_some(index, n - 1, dest));
            }
        }
    }
}

proof fn lemma_crediting(s: Standing, index: u32, n: int)
    ensures
        s.crediting(index, n).known == s.known,
        s.crediting(index, n).banned == s.banned,
{
    let c = s.contributors(index, n);
    lemma_contributors_distinct(s, index, n);
    if c.len() > 0 {
        lemma_pardoning_all(s.forgetting(index, n), c, c.len() as int, c[0]);
    }
}

/// A ban outlives everything: whatever else is heard, verified, failed or
/// banned, the destination stays banned and is never put back among the known.
pub proof fn law_ban_is_permanent(
    s: Standing,
    dest: DestHash,
    other: DestHash,
    source: Source,
    index: u32,
    n: int,
)
    requires
        s.wf(),
        s.banned.contains(dest),
    ensures
        s.remembering(other, source).banned.contains(dest),
        !s.remembering(other, source).knows(dest),
        s.banning(other).banned.contains(dest),
        !s.banning(other).knows(dest),
        s.crediting(index, n).banned.contains(dest),
        !s.crediting(index, n).knows(dest),
        s.blaming(index, n).banned.contains(dest),
        !s.blaming(index, n).knows(dest),
{
    lemma_remembering_wf(s, other, source);
    lemma_knows(s.remembering(other, source), dest);
    lemma_banning_wf(s, other);
    lemma_banning_all(s, seq![other], 1, dest);
    assert(s.banning_all(seq![other], 1) == s.banning_all(seq![other], 0).banning(other));
    lemma_knows(s.banning(other), dest);
    lemma_crediting(s, index, n);
    lemma_knows(s.crediting(index, n), dest);
    let c = s.contributors(index, n);
    let d = s.culprits(index, n);
    let t = s.forgetting(index, n);
    lemma_suspecting(t, c, c.len() as int);
    let u = if c.len() <= 1 {
        t
    } else {
        t.suspecting(c, c.len() as int)
    };
    assert(u.wf());
    lemma_banning_all(u, d, d.len() as int, dest);
    lemma_knows(s.blaming(index, n), dest);
}

/// A stranger's word displaces nothing, and nobody vouched for is ever
/// displaced: hearing of a destination removes at most one entry, and only one
/// that a stranger vouched for, to make room for one that is trusted.
pub proof fn law_hearsay_displaces_nothing(
    s: Standing,
    dest: DestHash,
    source: Source,
    entry: Known,
)
    requires
        s.wf(),
        s.known.contains(entry),
        entry.source == Source::Trusted || source == Source::Pex,
    ensures
        s.remembering(dest, source).known.contains(entry),
{
    lemma_entry(s.known, dest, 0);
    lemma_hearsay(s.known, 0);
    let t = s.remembering(dest, source).known;
    let i = choose|i: int| 0 <= i < s.known.len() && s.known[i] == entry;
    let v = hearsay(s.known, 0);
    if t.len() > i && t[i] == entry {
    } else if s.known[i].dest == dest {
        assert(s.known[entry_of(s.known, dest, 0)].dest == dest);
        assert(entry_of(s.known, dest, 0) == i) by {
            if entry_of(s.known, dest, 0) != i {
                assert(s.known[entry_of(s.known, dest, 0)].dest != s.known[i].dest);
            }
        }
        assert(t[i] == entry);
    } else {
        assert(t == s.known.remove(v).push(Known { dest, source }));
        assert(i > v);
        assert(t[i - 1] == entry);
    }
}

/// The number of destinations known never passes the cap, whoever sends them.
pub proof fn law_known_peers_are_few(s: Standing, dests: Seq<DestHash>, source: Source, n: int)
    requires
        s.wf(),
        0 <= n <= dests.len(),
    ensures
        s.remembering_all(dests, source, n).wf(),
        s.remembering_all(dests, source, n).known.len() <= MAX_KNOWN_PEERS,
    decreases n,
{
    if n > 0 {
        law_known_peers_are_few(s, dests, source, n - 1);
        lemma_remembering_wf(s.remembering_all(dests, source, n - 1), dests[n - 1], source);
    }
}

/// The sole supplier of a piece that fails is banned on the spot; one of
/// several is banned if and only if it has shared the blame often enough, or
/// was banned before.
pub proof fn law_failed_piece_is_laid_at_a_door(s: Standing, index: u32, n: int, dest: DestHash)
    requires
        s.wf(),
        s.contributors(index, n).contains(dest),
    ensures
        s.contributors(index, n).len() == 1 ==> s.blaming(index, n).banned.contains(dest),
        s.contributors(index, n).len() > 1 ==> (s.blaming(index, n).banned.contains(dest)
            <==> s.banned.contains(dest) || s.next_suspicion(dest) >= SUSPICION_LIMIT),
{
    let c = s.contributors(index, n);
    let d = s.culprits(index, n);
    let t = s.forgetting(index, n);
    lemma_suspecting(t, c, c.len() as int);
    let u = if c.len() <= 1 {
        t
    } else {
        t.suspecting(c, c.len() as int)
    };
    lemma_banning_all(u, d, d.len() as int, dest);
    let i = choose|i: int| 0 <= i < c.len() && c[i] == dest;
    if c.len() == 1 {
        assert(d[i] == dest);
    } else {
        lemma_over_the_limit(s, c, c.len() as int, dest);
        assert(c.take(c.len() as int) =~= c);
        assert(d.contains(dest) <==> s.next_suspicion(dest) >= SUSPICION_LIMIT);
        if d.contains(dest) {
            let k = choose|k: int| 0 <= k < d.len() && d[k] == dest;
            assert(d[k] == dest);
        }
    }
}

proof fn lemma_over_the_limit(s: Standing, c: Seq<DestHash>, n: int, dest: DestHash)
    requires
        0 <= n <= c.len(),
    ensures
        s.over_the_limit(c, n).contains(dest) <==> c.take(n).contains(dest) && s.next_suspicion(
            dest,
        ) >= SUSPICION_LIMIT,
    decreases n,
{
    let d = s.over_the_limit(c, n);
    if n > 0 {
        lemma_over_the_limit(s, c, n - 1, dest);
        let b = s.over_the_limit(c, n - 1);
        assert(c.take(n) =~= c.take(n - 1).push(c[n - 1]));
        lemma_push_contains(c.take(n - 1), c[n - 1], dest);
        lemma_push_contains(b, c[n - 1], dest);
    } else {
        assert(c.take(0) =~= Seq::empty());
    }
}

proof fn lemma_push_contains(s: Seq<DestHash>, x: DestHash, y: DestHash)
    ensures
        s.push(x).contains(y) <==> s.contains(y) || x == y,
{
    if s.contains(y) {
        let i = choose|i: int| 0 <= i < s.len() && s[i] == y;
        assert(s.push(x)[i] == y);
    }
    if x == y {
        assert(s.push(x)[s.len() as int] == y);
    }
    if s.push(x).contains(y) && x != y {
        let i = choose|i: int| 0 <= i < s.len() + 1 && s.push(x)[i] == y;
        assert(s[i] == y);
    }
}

/// A piece that verifies earns each destination that wrote some of it back one
/// failure, whatever the number of its blocks; what is held against anybody
/// else stays, and so do the destinations known and banned. The suppliers of
/// the piece are forgotten, and no others.
pub proof fn law_verified_piece_earns_back(s: Standing, index: u32, n: int, dest: DestHash)
    requires
        0 <= n <= u32::MAX,
    ensures
        s.crediting(index, n).held_against(dest) == if s.wrote_some(index, n, dest) {
            one_less(s.held_against(dest))
        } else {
            s.held_against(dest)
        },
        s.crediting(index, n).known == s.known,
        s.crediting(index, n).banned == s.banned,
        s.crediting(index, n).suppliers == s.forgetting(index, n).suppliers,
{
    let c = s.contributors(index, n);
    lemma_contributors_distinct(s, index, n);
    lemma_contributors(s, index, n, dest);
    lemma_pardoning_all(s.forgetting(index, n), c, c.len() as int, dest);
}

/// What hearing of a destination does. One that is banned is passed over. One
/// that is known already keeps its place, and is trusted from now on if it
/// comes from a source that is. A new one goes to the end of the table while
/// it has fewer than 1024 entries; after that only a trusted one does, in place
/// of the first entry that was learned over peer exchange.
pub proof fn law_hearing_of_a_destination(s: Standing, dest: DestHash, source: Source, i: int)
    requires
        s.wf(),
    ensures
        ({
            let after = s.remembering(dest, source);
            let known = s.known;
            let is_new = forall|j: int| 0 <= j < known.len() ==> (#[trigger] known[j]).dest != dest;
            let none_loose = forall|j: int|
                0 <= j < known.len() ==> (#[trigger] known[j]).source == Source::Trusted;
            &&& after.banned == s.banned
            &&& after.suspicion == s.suspicion
            &&& after.suppliers == s.suppliers
            &&& s.banned.contains(dest) ==> after.known == known
            &&& 0 <= i < known.len() && known[i].dest == dest ==> after.known == (if source
                == Source::Trusted {
                known.update(i, Known { dest, source: Source::Trusted })
            } else {
                known
            })
            &&& is_new && !s.banned.contains(dest) && known.len() < 1024 ==> after.known
                == known.push(Known { dest, source })
            &&& is_new && !s.banned.contains(dest) && known.len() == 1024 && (source == Source::Pex
                || none_loose) ==> after.known == known
            &&& is_new && !s.banned.contains(dest) && known.len() == 1024 && source
                == Source::Trusted && 0 <= i < known.len() && known[i].source == Source::Pex && (
            forall|j: int| 0 <= j < i ==> (#[trigger] known[j]).source == Source::Trusted)
                ==> after.known == known.remove(i).push(Known { dest, source })
            &&& s.is_news(dest, source) <==> is_new && exists|j: int|
                0 <= j < after.known.len() && (#[trigger] after.known[j]).dest == dest
        }),
{
    let known = s.known;
    let after = s.remembering(dest, source);
    lemma_entry(known, dest, 0);
    lemma_hearsay(known, 0);
    let e = entry_of(known, dest, 0);
    if 0 <= i < known.len() && known[i].dest == dest {
        if e < i {
            assert(known[e].dest != known[i].dest);
        }
        assert(!s.banned.contains(known[i].dest));
        assert(e == i);
    }
    let v = hearsay(known, 0);
    if v < known.len() {
        assert(known[v].source == Source::Pex);
    }
    if s.is_news(dest, source) {
        assert(after.known.last().dest == dest);
        assert(after.known[after.known.len() - 1].dest == dest);
    } else if e >= known.len() {
        assert(after.known == known);
    }
}

/// What a ban does: the destination is among the banned and no longer among
/// the known, nothing is held against it any more, and nothing else changes.
pub proof fn law_what_a_ban_does(s: Standing, dest: DestHash, other: DestHash, entry: Known)
    requires
        s.wf(),
        other != dest,
    ensures
        ({
            let after = s.banning(dest);
            &&& after.banned.contains(dest)
            &&& after.banned.contains(other) <==> s.banned.contains(other)
            &&& forall|j: int| 0 <= j < after.known.len() ==> (#[trigger] after.known[j]).dest
                != dest
            &&& entry.dest != dest ==> (after.known.contains(entry) <==> s.known.contains(entry))
            &&& !after.suspicion.contains_key(dest)
            &&& after.suspicion.contains_key(other) == s.suspicion.contains_key(other)
            &&& s.suspicion.contains_key(other) ==> after.suspicion[other] == s.suspicion[other]
            &&& after.suppliers == s.suppliers
        }),
{
    let after = s.banning(dest);
    lemma_entry(s.known, dest, 0);
    lemma_banning_wf(s, dest);
    let e = entry_of(s.known, dest, 0);
    lemma_push_contains(s.banned, dest, dest);
    lemma_push_contains(s.banned, dest, other);
    assert forall|j: int| 0 <= j < after.known.len() implies (#[trigger] after.known[j]).dest
        != dest by {
        assert(!after.banned.contains(after.known[j].dest));
    }
    if entry.dest != dest {
        if s.known.contains(entry) {
            let j = choose|j: int| 0 <= j < s.known.len() && s.known[j] == entry;
            if j < e {
                assert(after.known[j] == entry);
            } else {
                assert(j > e);
                assert(after.known[j - 1] == entry);
            }
        }
        if after.known.contains(entry) {
            let j = choose|j: int| 0 <= j < after.known.len() && after.known[j] == entry;
            if j < e {
                assert(s.known[j] == entry);
            } else {
                assert(s.known[j + 1] == entry);
            }
        }
    }
}

proof fn lemma_banning_all_held(s: Standing, dests: Seq<DestHash>, n: int, dest: DestHash)
    requires
        0 <= n <= dests.len(),
        forall|i: int| 0 <= i < n ==> #[trigger] dests[i] != dest,
    ensures
        s.banning_all(dests, n).held_against(dest) == s.held_against(dest),
    decreases n,
{
    if n > 0 {
        lemma_banning_all_held(s, dests, n - 1, dest);
    }
}

proof fn lemma_banning_all_suppliers(s: Standing, dests: Seq<DestHash>, n: int)
    ensures
        s.banning_all(dests, n).suppliers == s.suppliers,
    decreases n,
{
    if n > 0 {
        lemma_banning_all_suppliers(s, dests, n - 1);
    }
}

proof fn lemma_suspecting_held(s: Standing, dests: Seq<DestHash>, n: int, dest: DestHash)
    requires
        0 <= n <= dests.len(),
        dests.no_duplicates(),
    ensures
        s.suspecting(dests, n).held_against(dest) == (if dests.take(n).contains(dest) {
            Some(s.next_suspicion(dest))
        } else {
            s.held_against(dest)
        }),
        s.suspecting(dests, n).suppliers == s.suppliers,
    decreases n,
{
    if n > 0 {
        lemma_suspecting_held(s, dests, n - 1, dest);
        assert(dests.take(n) =~= dests.take(n - 1).push(dests[n - 1]));
        lemma_push_contains(dests.take(n - 1), dests[n - 1], dest);
        if dests[n - 1] == dest {
            assert forall|j: int| 0 <= j < n - 1 implies #[trigger] dests[j] != dest by {}
            lemma_suspecting_others(s, dests, n - 1, dest);
        }
    } else {
        assert(dests.take(0) =~= Seq::empty());
    }
}

/// What a failed piece costs. Whoever wrote it alone is banned. Of several each
/// has one more failure held against it, and with the third is banned. Nobody
/// else is touched, and who wrote the piece is forgotten.
pub proof fn law_what_a_failed_piece_costs(
    s: Standing,
    index: u32,
    n: int,
    dest: DestHash,
    other: DestHash,
    key: (u32, u32),
)
    requires
        s.wf(),
        0 <= n <= u32::MAX,
        other != dest,
    ensures
        ({
            let after = s.blaming(index, n);
            let wrote = |d: DestHash|
                exists|b: u32|
                    b < n && #[trigger] s.suppliers.contains_key((index, b)) && s.suppliers[(
                        index,
                        b,
                    )] == d;
            let before = if s.suspicion.contains_key(dest) {
                s.suspicion[dest] as int
            } else {
                0
            };
            &&& wrote(dest) && (forall|b: u32|
                b < n && #[trigger] s.suppliers.contains_key((index, b)) ==> s.suppliers[(index, b)]
                    == dest) ==> after.banned.contains(dest)
            &&& wrote(dest) && wrote(other) ==> (after.banned.contains(dest)
                <==> s.banned.contains(dest) || before >= 2)
            &&& wrote(dest) && wrote(other) && before < 2 ==> after.suspicion.contains_key(dest)
                && after.suspicion[dest] == before + 1
            &&& !wrote(dest) ==> after.banned.contains(dest) == s.banned.contains(dest)
                && after.suspicion.contains_key(dest) == s.suspicion.contains_key(dest) && (
            s.suspicion.contains_key(dest) ==> after.suspicion[dest] == s.suspicion[dest])
            &&& after.suppliers.contains_key(key) <==> s.suppliers.contains_key(key) && !(key.0
                == index && key.1 < n)
            &&& after.suppliers.contains_key(key) ==> after.suppliers[key] == s.suppliers[key]
        }),
{
    let after = s.blaming(index, n);
    let c = s.contributors(index, n);
    let m = c.len() as int;
    let d = s.culprits(index, n);
    let t = s.forgetting(index, n);
    let u = if m <= 1 {
        t
    } else {
        t.suspecting(c, m)
    };
    lemma_contributors(s, index, n, dest);
    lemma_contributors(s, index, n, other);
    lemma_contributors_distinct(s, index, n);
    lemma_suspecting(t, c, m);
    lemma_suspecting_held(t, c, m, dest);
    assert(c.take(m) =~= c);
    lemma_banning_all(u, d, d.len() as int, dest);
    lemma_banning_all_suppliers(u, d, d.len() as int);
    lemma_over_the_limit(s, c, m, dest);
    if c.contains(dest) {
        law_failed_piece_is_laid_at_a_door(s, index, n, dest);
        let i = choose|i: int| 0 <= i < m && c[i] == dest;
        if c.contains(other) {
            let j = choose|j: int| 0 <= j < m && c[j] == other;
            assert(i != j);
            assert(m > 1);
        }
        if m > 1 {
            let k = if i == 0 {
                1int
            } else {
                0int
            };
            assert(c[k] != c[i]);
            assert(c.contains(c[k]));
            lemma_contributors(s, index, n, c[k]);
            assert(s.wrote_some(index, n, c[k]));
        }
    }
    if !d.contains(dest) {
        assert forall|i: int| 0 <= i < d.len() implies #[trigger] d[i] != dest by {}
        lemma_banning_all_held(u, d, d.len() as int, dest);
        assert(after.held_against(dest) == u.held_against(dest));
    }
    if m == 1 && !c.contains(dest) {
        assert(!d.contains(dest));
    }
}

/// What a verified piece earns: each that wrote some of it has one failure less
/// held against it, and none after the last. Nobody else's count changes.
pub proof fn law_what_a_verified_piece_earns(
    s: Standing,
    index: u32,
    n: int,
    dest: DestHash,
    key: (u32, u32),
)
    requires
        0 <= n <= u32::MAX,
    ensures
        ({
            let after = s.crediting(index, n);
            let wrote = exists|b: u32|
                b < n && #[trigger] s.suppliers.contains_key((index, b)) && s.suppliers[(index, b)]
                    == dest;
            let held = s.suspicion.contains_key(dest);
            &&& wrote && held && s.suspicion[dest] > 1 ==> after.suspicion.contains_key(dest)
                && after.suspicion[dest] == s.suspicion[dest] - 1
            &&& wrote && held && s.suspicion[dest] <= 1 ==> !after.suspicion.contains_key(dest)
            &&& !held ==> !after.suspicion.contains_key(dest)
            &&& !wrote && held ==> after.suspicion.contains_key(dest) && after.suspicion[dest]
                == s.suspicion[dest]
            &&& after.suppliers.contains_key(key) <==> s.suppliers.contains_key(key) && !(key.0
                == index && key.1 < n)
            &&& after.suppliers.contains_key(key) ==> after.suppliers[key] == s.suppliers[key]
        }),
{
    law_verified_piece_earns_back(s, index, n, dest);
    let after = s.crediting(index, n);
    assert(after.held_against(dest) == (if s.wrote_some(index, n, dest) {
        one_less(s.held_against(dest))
    } else {
        s.held_against(dest)
    }));
}

} // verus!
