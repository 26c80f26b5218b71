//! Where the bytes of a torrent lie on disk, and whether a piece is what it
//! should be.
//!
//! A torrent is one linear byte space (its files concatenated in order);
//! pieces and blocks index into that space and may straddle file boundaries.
//! A [`Layout`] maps (piece, offset) to the right files, so that positioned
//! reads and writes of disjoint regions need no lock.
//!
//! A download is only trusted after its pieces verify: the digest of a piece is
//! compared to the one the metainfo promises.
use vstd::prelude::*;
#[allow(unused_imports)]
use vstd::string::*;
use crate::bitfield::Bitfield;
use crate::digest::{sha1_digest, sha1_of};
use crate::metainfo::{file_list, files_in, meta_in, name_in, Error, Meta, MetaInfo};
use crate::bencode::{lemma_lookup_some, Tree};
use crate::picker::{least, length_of_piece};
use crate::strings::bytes_eq;
use crate::wire::BLOCK_LEN;

verus! {

/// A range that does not lie inside the torrent.
#[derive(Clone, Copy, Debug, PartialEq, Eq)]
pub struct OutOfRange;

impl OutOfRange {
    /// What was wrong, in words.
    pub fn message(&self) -> (r: String)
        ensures
            r@ == "storage: range outside torrent"@,
    {
        "storage: range outside torrent".to_owned()
    }
}

/// A run of bytes in one file: where it starts there, and which bytes of the
/// block it holds.
#[derive(Clone, Copy, Debug, PartialEq, Eq)]
pub struct Segment {
    /// Which file, in the torrent's order.
    pub file: usize,
    /// Where in the file the run starts.
    pub offset: u64,
    /// The first byte of the block in the run.
    pub from: u64,
    /// The byte of the block after the run.
    pub to: u64,
}

/// Where the pieces of a torrent lie in its files, and what they should hash
/// to.
pub struct Layout {
    lengths: Vec<u64>,
    piece_length: u32,
    total_length: u64,
    hashes: Vec<[u8; 20]>,
}

/// What a [`Layout`] stands for.
#[verifier::ext_equal]
pub struct Extent {
    pub lengths: Seq<u64>,
    pub piece_length: u32,
    pub total_length: u64,
    pub hashes: Seq<Seq<u8>>,
}

/// Where file `i` starts: the lengths of those before it.
pub open spec fn start_of(lengths: Seq<u64>, i: int) -> nat
    decreases i,
{
    if i <= 0 {
        0
    } else {
        start_of(lengths, i - 1) + lengths[i - 1] as nat
    }
}

/// The larger of two positions.
pub open spec fn greatest(a: int, b: int) -> int {
    if a > b {
        a
    } else {
        b
    }
}

/// What of the range from `start` up to `end` lies in file `i`, if anything.
pub open spec fn segment_in(lengths: Seq<u64>, i: int, start: int, end: int) -> Option<Segment> {
    let at = start_of(lengths, i) as int;
    let lo = greatest(start, at);
    let hi = least(end, at + lengths[i]);
    if lo < hi {
        Some(
            Segment {
                file: i as usize,
                offset: (lo - at) as u64,
                from: (lo - start) as u64,
                to: (hi - start) as u64,
            },
        )
    } else {
        None
    }
}

/// The segments of a range in the first `n` files.
pub open spec fn segments_in(lengths: Seq<u64>, n: int, start: int, end: int) -> Seq<Segment>
    decreases n,
{
    if n <= 0 {
        Seq::empty()
    } else {
        match segment_in(lengths, n - 1, start, end) {
            Some(s) => segments_in(lengths, n - 1, start, end).push(s),
            None => segments_in(lengths, n - 1, start, end),
        }
    }
}

impl Extent {
    /// Whether the files make up the torrent.
    pub open spec fn wf(self) -> bool {
        start_of(self.lengths, self.lengths.len() as int) == self.total_length
            && self.lengths.len() <= usize::MAX
    }

    pub open spec fn piece_len(self, index: int) -> nat {
        length_of_piece(index, self.piece_length as nat, self.total_length as nat)
    }

    /// Where a block starts in the torrent.
    pub open spec fn block_start(self, index: u32, begin: u32) -> int {
        index * self.piece_length + begin
    }

    /// Whether `data` is piece `index`.
    pub open spec fn verifies(self, index: u32, data: Seq<u8>) -> bool {
        index < self.hashes.len() && 0 < self.piece_len(index as int) && data.len()
            == self.piece_len(index as int) && sha1_of(data) == self.hashes[index as int]
    }

    /// Whether a range lies inside the torrent.
    pub open spec fn holds(self, start: int, len: int) -> bool {
        start + len <= self.total_length
    }
}

impl View for Layout {
    type V = Extent;

    closed spec fn view(&self) -> Extent {
        Extent {
            lengths: self.lengths@,
            piece_length: self.piece_length,
            total_length: self.total_length,
            hashes: Seq::new(self.hashes@.len(), |i: int| self.hashes@[i]@),
        }
    }
}

/// The lengths of a torrent's files.
pub open spec fn lengths_of(m: Meta) -> Seq<u64> {
    Seq::new(m.files.len(), |i: int| m.files[i].length as u64)
}

/// Whether the lengths of a torrent's files add up to its own.
pub open spec fn adds_up(m: Meta) -> bool {
    start_of(lengths_of(m), m.files.len() as int) == m.total_length
}

proof fn lemma_start_monotone(lengths: Seq<u64>, i: int, n: int)
    requires
        i <= n,
    ensures
        start_of(lengths, i) <= start_of(lengths, n),
    decreases n - i,
{
    if i < n {
        lemma_start_monotone(lengths, i, n - 1);
    }
}

impl Layout {
    /// The layout of a torrent.
    pub fn new(meta: &MetaInfo) -> (l: Layout)
        requires
            adds_up(meta@),
        ensures
            l@.wf(),
            l@ == (Extent {
                lengths: lengths_of(meta@),
                piece_length: meta.piece_length,
                total_length: meta.total_length,
                hashes: meta@.pieces,
            }),
    {
        let mut lengths: Vec<u64> = Vec::new();
        let mut i: usize = 0;
        while i < meta.files.len()
            invariant
                i <= meta.files@.len(),
                lengths@.len() == i,
                forall|j: int| 0 <= j < i ==> #[trigger] lengths@[j] == meta.files@[j].length,
            decreases meta.files.len() - i,
        {
            lengths.push(meta.files[i].length);
            i = i + 1;
        }
        let mut hashes: Vec<[u8; 20]> = Vec::new();
        let mut k: usize = 0;
        while k < meta.pieces.len()
            invariant
                k <= meta.pieces@.len(),
                hashes@.len() == k,
                forall|j: int| 0 <= j < k ==> #[trigger] hashes@[j] == meta.pieces@[j],
            decreases meta.pieces.len() - k,
        {
            hashes.push(meta.pieces[k]);
            k = k + 1;
        }
        let l = Layout {
            lengths,
            piece_length: meta.piece_length,
            total_length: meta.total_length,
            hashes,
        };
        proof {
            assert(lengths@ =~= lengths_of(meta@));
            assert(l@.hashes =~= meta@.pieces);
        }
        l
    }

    /// Number of pieces.
    pub fn num_pieces(&self) -> (n: u32)
        ensures
            n == (if self@.hashes.len() <= u32::MAX {
                self@.hashes.len() as u32
            } else {
                u32::MAX
            }),
    {
        if self.hashes.len() <= u32::MAX as usize {
            self.hashes.len() as u32
        } else {
            u32::MAX
        }
    }

    /// Length of piece `index` (final piece may be short).
    pub fn piece_len(&self, index: u32) -> (n: u32)
        ensures
            n == self@.piece_len(index as int),
    {
        proof {
            assert(index as u64 * self.piece_length as u64 <= u64::MAX) by (nonlinear_arith)
                requires
                    index <= u32::MAX,
                    self.piece_length <= u32::MAX,
            ;
        }
        let start: u64 = index as u64 * self.piece_length as u64;
        if start >= self.total_length {
            return 0;
        }
        let left: u64 = self.total_length - start;
        if left < self.piece_length as u64 {
            left as u32
        } else {
            self.piece_length
        }
    }

    /// Where a block starts in the torrent.
    fn block_start(&self, index: u32, begin: u32) -> (n: u64)
        ensures
            n == self@.block_start(index, begin),
    {
        proof {
            assert(index as u64 * self.piece_length as u64 + begin as u64 <= u64::MAX)
                by (nonlinear_arith)
                requires
                    index <= u32::MAX,
                    self.piece_length <= u32::MAX,
                    begin <= u32::MAX,
            ;
            assert(index as u64 * self.piece_length as u64 <= u64::MAX) by (nonlinear_arith)
                requires
                    index <= u32::MAX,
                    self.piece_length <= u32::MAX,
            ;
        }
        index as u64 * self.piece_length as u64 + begin as u64
    }

    /// The end of a range, if the range lies inside the torrent.
    pub fn check_range(&self, start: u64, len: u64) -> (r: Result<u64, OutOfRange>)
        ensures
            match r {
                Ok(end) => self@.holds(start as int, len as int) && end == start + len,
                Err(_) => !self@.holds(start as int, len as int),
            },
    {
        match start.checked_add(len) {
            Some(end) => if end <= self.total_length {
                Ok(end)
            } else {
                Err(OutOfRange)
            },
            None => Err(OutOfRange),
        }
    }

    /// Where the `len` bytes from `begin` on in piece `index` lie: one segment
    /// for each file that holds some of them, in order. Checked before
    /// anything of that size is allocated.
    pub fn segments(&self, index: u32, begin: u32, len: u64) -> (r: Result<
        Vec<Segment>,
        OutOfRange,
    >)
        requires
            self@.wf(),
        ensures
            match r {
                Ok(v) => self@.holds(self@.block_start(index, begin), len as int) && v@
                    == segments_in(
                    self@.lengths,
                    self@.lengths.len() as int,
                    self@.block_start(index, begin),
                    self@.block_start(index, begin) + len,
                ),
                Err(_) => !self@.holds(self@.block_start(index, begin), len as int),
            },
    {
        let start: u64 = self.block_start(index, begin);
        let end: u64 = match self.check_range(start, len) {
            Ok(e) => e,
            Err(e) => return Err(e),
        };
        let ghost ls = self@.lengths;
        let mut out: Vec<Segment> = Vec::new();
        let mut at: u64 = 0;
        let mut i: usize = 0;
        while i < self.lengths.len()
            invariant
                i <= self.lengths@.len(),
                ls == self.lengths@,
                ls == self@.lengths,
                self@.wf(),
                start <= end,
                at == start_of(ls, i as int),
                out@ == segments_in(ls, i as int, start as int, end as int),
            decreases self.lengths.len() - i,
        {
            let length: u64 = self.lengths[i];
            proof {
                lemma_start_monotone(ls, i as int + 1, ls.len() as int);
            }
            let next: u64 = at + length;
            let lo: u64 = if start > at {
                start
            } else {
                at
            };
            let hi: u64 = if end < next {
                end
            } else {
                next
            };
            if lo < hi {
                out.push(Segment { file: i, offset: lo - at, from: lo - start, to: hi - start });
            }
            at = next;
            i = i + 1;
        }
        Ok(out)
    }

    /// Whether `data` is piece `index`: as long as the piece is, with the digest
    /// the torrent promises. A piece that has not been written yet reads short,
    /// and is simply a piece we do not hold; a piece the torrent does not have
    /// never verifies.
    pub fn verify_piece(&self, index: u32, data: &[u8]) -> (r: bool)
        ensures
            r == self@.verifies(index, data@),
    {
        if data.len() as u64 != self.piece_len(index) as u64 {
            return false;
        }
        let digest: [u8; 20] = sha1_digest(data);
        self.accepts_digest(index, &digest)
    }

    /// The reads it takes to verify piece `index`, from the first on.
    pub fn check_piece(&self, index: u32) -> (c: PieceCheck)
        ensures
            c@ == (Reading { done: 0, len: self@.piece_len(index as int) }),
    {
        PieceCheck { done: 0, len: self.piece_len(index) }
    }

    /// Whether a digest is the one the torrent promises of piece `index`, which
    /// it never is of a piece the torrent does not have. The digest of data as
    /// long as the piece decides whether that data is the piece.
    pub fn accepts_digest(&self, index: u32, digest: &[u8; 20]) -> (r: bool)
        ensures
            r == (index < self@.hashes.len() && 0 < self@.piece_len(index as int) && digest@
                == self@.hashes[index as int]),
            forall|data: Seq<u8>|
                digest@ == #[trigger] sha1_of(data) && data.len() == self@.piece_len(index as int)
                    ==> r == self@.verifies(index, data),
    {
        if self.piece_len(index) == 0 || index as usize >= self.hashes.len() {
            return false;
        }
        bytes_eq(digest.as_slice(), self.hashes[index as usize].as_slice())
    }
}

/// How far the reading of a piece to verify it has come. A piece is read a
/// block at a time, so that no buffer is as long as a torrent says its pieces
/// are.
pub struct PieceCheck {
    done: u32,
    len: u32,
}

/// What a [`PieceCheck`] stands for.
#[verifier::ext_equal]
pub struct Reading {
    /// The bytes read.
    pub done: nat,
    /// The length of the piece.
    pub len: nat,
}

impl View for PieceCheck {
    type V = Reading;

    closed spec fn view(&self) -> Reading {
        Reading { done: self.done as nat, len: self.len as nat }
    }
}

impl Reading {
    /// The next read: where in the piece it starts, and how long it is.
    pub open spec fn next_read(self) -> Option<(nat, nat)> {
        if self.done < self.len {
            Some((self.done, least(self.len - self.done, BLOCK_LEN as int) as nat))
        } else {
            None
        }
    }

    /// The reading after the next read.
    pub open spec fn stepped(self) -> Reading {
        match self.next_read() {
            Some((begin, n)) => Reading { done: begin + n, ..self },
            None => self,
        }
    }

    /// The bytes of `piece` that all the reads from here on give, in order.
    pub open spec fn remaining(self, piece: Seq<u8>) -> Seq<u8>
        decreases self.len - self.done,
    {
        match self.next_read() {
            Some((begin, n)) => piece.subrange(begin as int, begin as int + n) + self.stepped().remaining(
                piece,
            ),
            None => Seq::empty(),
        }
    }
}

impl PieceCheck {
    /// The next read, if there is one left: where in the piece it starts, and
    /// how long it is.
    pub fn next_read(&mut self) -> (r: Option<(u32, u32)>)
        ensures
            match r {
                Some((begin, n)) => old(self)@.next_read() == Some((begin as nat, n as nat)) && 0
                    < n <= BLOCK_LEN,
                None => old(self)@.next_read() is None,
            },
            final(self)@ == old(self)@.stepped(),
    {
        if self.done >= self.len {
            return None;
        }
        let begin: u32 = self.done;
        let n: u32 = if self.len - begin < BLOCK_LEN {
            self.len - begin
        } else {
            BLOCK_LEN
        };
        self.done = begin + n;
        Some((begin, n))
    }
}

/// The reads of a piece give all of it, in order and each byte once.
pub proof fn law_reads_cover_the_piece(c: Reading, piece: Seq<u8>)
    requires
        piece.len() == c.len,
        c.done <= c.len,
    ensures
        c.remaining(piece) == piece.skip(c.done as int),
    decreases c.len - c.done,
{
    if let Some((begin, n)) = c.next_read() {
        law_reads_cover_the_piece(c.stepped(), piece);
        assert(piece.subrange(begin as int, begin as int + n) + piece.skip(begin as int + n) =~= piece.skip(
            begin as int,
        ));
    } else {
        assert(piece.skip(c.done as int) =~= Seq::empty());
    }
}

/// The pieces that verified, as a bitfield: `verdicts` holds the outcome for
/// each piece, in order.
pub fn verified_field(verdicts: &Vec<bool>) -> (bf: Bitfield)
    requires
        verdicts@.len() <= u32::MAX,
    ensures
        bf@ == verdicts@,
{
    let n: u32 = verdicts.len() as u32;
    let mut bf = Bitfield::empty(n);
    let mut i: u32 = 0;
    while i < n
        invariant
            i <= n,
            n == verdicts@.len(),
            bf@.len() == n,
            forall|j: int| 0 <= j < i ==> #[trigger] bf@[j] == verdicts@[j],
            forall|j: int| i <= j < n ==> !(#[trigger] bf@[j]),
        decreases n - i,
    {
        if verdicts[i as usize] {
            bf.set(i);
        }
        i = i + 1;
    }
    proof {
        assert(bf@ =~= verdicts@);
    }
    bf
}

proof fn lemma_files_add_up(list: Seq<Tree>, n: int, name: Seq<char>, files: Seq<u64>)
    requires
        0 <= n <= list.len(),
        files_in(list, n, name) is Ok,
        files.len() == files_in(list, n, name)->Ok_0.0.len(),
        forall|i: int|
            0 <= i < files.len() ==> #[trigger] files[i] == files_in(
                list,
                n,
                name,
            )->Ok_0.0[i].length as u64,
    ensures
        files.len() == n,
        start_of(files, n) == files_in(list, n, name)->Ok_0.1,
        files_in(list, n, name)->Ok_0.1 <= u64::MAX,
    decreases n,
{
    if n > 0 {
        let f = files_in(list, n, name)->Ok_0.0;
        let g = files_in(list, n - 1, name)->Ok_0.0;
        let short = files.drop_last();
        assert forall|i: int| 0 <= i < short.len() implies #[trigger] short[i]
            == g[i].length as u64 by {
            assert(files[i] == f[i].length as u64);
        }
        lemma_files_add_up(list, n - 1, name, short);
        lemma_start_same(files, short, n - 1);
        assert(files[n - 1] == f[n - 1].length as u64);
    }
}

proof fn lemma_start_same(a: Seq<u64>, b: Seq<u64>, n: int)
    requires
        n <= a.len(),
        n <= b.len(),
        forall|i: int| 0 <= i < n ==> #[trigger] a[i] == b[i],
    ensures
        start_of(a, n) == start_of(b, n),
    decreases n,
{
    if n > 0 {
        lemma_start_same(a, b, n - 1);
    }
}

proof fn lemma_get_well_formed(t: Tree, key: Seq<u8>)
    requires
        t.well_formed(),
        t.get(key) is Some,
    ensures
        t.get(key)->Some_0.well_formed(),
{
    match t {
        Tree::Dict(e) => {
            lemma_lookup_some(e, key);
        },
        _ => {},
    }
}

/// A torrent that was read can be laid out: the lengths of its files add up to
/// its own.
pub proof fn law_read_torrent_can_be_laid_out(s: Seq<u8>, m: Meta)
    requires
        s.len() <= usize::MAX,
        meta_in(s) == Ok::<Meta, Error>(m),
    ensures
        adds_up(m),
{
    let root = crate::bencode::decoded(s)->Ok_0;
    crate::bencode::law_decoded_is_well_formed(s, root);
    lemma_get_well_formed(root, "info".spec_bytes());
    let info = crate::bencode::decoded(s)->Ok_0.get("info".spec_bytes())->Some_0;
    let name = name_in(info)->Ok_0;
    assert(file_list(info, name) == Ok::<
        (Seq<crate::metainfo::FileSpec>, nat),
        Error,
    >((m.files, m.total_length)));
    match (info.get("length".spec_bytes()), info.get("files".spec_bytes())) {
        (None, Some(Tree::List(list))) => {
            lemma_files_add_up(list, list.len() as int, name, lengths_of(m));
        },
        _ => {
            assert(m.files.len() == 1);
            lemma_get_well_formed(info, "length".spec_bytes());
            assert(start_of(lengths_of(m), 1) == start_of(lengths_of(m), 0) + lengths_of(m)[0]);
        },
    }
}

// ---------------------------------------------------------------------------
// What the segments promise.

proof fn lemma_segments(lengths: Seq<u64>, n: int, start: int, end: int)
    requires
        0 <= n <= lengths.len(),
        0 <= start <= end,
        end <= start_of(lengths, lengths.len() as int) <= u64::MAX,
        lengths.len() <= usize::MAX,
    ensures
        ({
            let v = segments_in(lengths, n, start, end);
            let covered = greatest(start, least(end, start_of(lengths, n) as int)) - start;
            &&& forall|k: int| 0 <= k < v.len() ==> (#[trigger] v[k]).file < n
            &&& forall|k: int|
                0 <= k < v.len() ==> (#[trigger] v[k]).from < v[k].to && v[k].offset + (v[k].to
                    - v[k].from) <= lengths[v[k].file as int] && start_of(
                    lengths,
                    v[k].file as int,
                ) + v[k].offset == start + v[k].from
            &&& forall|k: int|
                0 <= k < v.len() - 1 ==> (#[trigger] v[k]).to == v[k + 1].from
            &&& v.len() > 0 ==> v[0].from == 0
            &&& (if v.len() > 0 {
                v.last().to as int
            } else {
                0int
            }) == covered
        }),
    decreases n,
{
    if n > 0 {
        lemma_segments(lengths, n - 1, start, end);
        lemma_start_monotone(lengths, n, lengths.len() as int);
        lemma_start_monotone(lengths, n - 1, n);
        let v = segments_in(lengths, n - 1, start, end);
        let w = segments_in(lengths, n, start, end);
        if let Some(s) = segment_in(lengths, n - 1, start, end) {
            assert(w == v.push(s));
            assert forall|k: int| 0 <= k < w.len() - 1 implies (#[trigger] w[k]).to == w[k
                + 1].from by {
                if k + 1 < v.len() {
                    assert(v[k].to == v[k + 1].from);
                }
            }
        }
    }
}

/// The segments of a range inside the torrent partition it: they follow each
/// other from its first byte to its last, each lies inside its file, and each
/// byte goes where it belongs.
pub proof fn law_segments_partition_the_range(lengths: Seq<u64>, start: int, end: int, k: int)
    requires
        0 <= start < end,
        end <= start_of(lengths, lengths.len() as int) <= u64::MAX,
        lengths.len() <= usize::MAX,
    ensures
        ({
            let v = segments_in(lengths, lengths.len() as int, start, end);
            &&& v.len() > 0
            &&& v[0].from == 0
            &&& v.last().to == end - start
            &&& 0 <= k < v.len() - 1 ==> v[k].to == v[k + 1].from
            &&& 0 <= k < v.len() ==> v[k].from < v[k].to && v[k].file < lengths.len()
                && v[k].offset + (v[k].to - v[k].from) <= lengths[v[k].file as int] && start_of(
                lengths,
                v[k].file as int,
            ) + v[k].offset == start + v[k].from
        }),
{
    lemma_segments(lengths, lengths.len() as int, start, end);
}

/// The files once `data` is written along the first `n` segments.
pub open spec fn written(
    files: Seq<Seq<u8>>,
    v: Seq<Segment>,
    data: Seq<u8>,
    n: int,
) -> Seq<Seq<u8>>
    decreases n,
{
    if n <= 0 {
        files
    } else {
        let before = written(files, v, data, n - 1);
        let s = v[n - 1];
        let f = before[s.file as int];
        before.update(
            s.file as int,
            Seq::new(
                f.len(),
                |i: int|
                    if s.offset <= i < s.offset + (s.to - s.from) {
                        data[s.from + (i - s.offset)]
                    } else {
                        f[i]
                    },
            ),
        )
    }
}

/// The bytes read back along the first `n` segments.
pub open spec fn read_back(files: Seq<Seq<u8>>, v: Seq<Segment>, n: int) -> Seq<u8>
    decreases n,
{
    if n <= 0 {
        Seq::empty()
    } else {
        let s = v[n - 1];
        read_back(files, v, n - 1) + files[s.file as int].subrange(
            s.offset as int,
            s.offset + (s.to - s.from),
        )
    }
}

proof fn lemma_files_distinct(lengths: Seq<u64>, n: int, start: int, end: int)
    requires
        0 <= n <= lengths.len(),
        lengths.len() <= usize::MAX,
    ensures
        forall|j: int, k: int|
            0 <= j < k < segments_in(lengths, n, start, end).len() ==> (#[trigger] segments_in(
                lengths,
                n,
                start,
                end,
            )[j]).file < (#[trigger] segments_in(lengths, n, start, end)[k]).file,
        forall|j: int|
            0 <= j < segments_in(lengths, n, start, end).len() ==> (#[trigger] segments_in(
                lengths,
                n,
                start,
                end,
            )[j]).file < n,
    decreases n,
{
    if n > 0 {
        lemma_files_distinct(lengths, n - 1, start, end);
        let v = segments_in(lengths, n - 1, start, end);
        let w = segments_in(lengths, n, start, end);
        assert forall|j: int, k: int| 0 <= j < k < w.len() implies (#[trigger] w[j]).file
            < (#[trigger] w[k]).file && w[k].file < n by {
            assert(w[j] == v[j]);
            if k < v.len() {
                assert(w[k] == v[k]);
            }
        }
        assert forall|j: int| 0 <= j < w.len() implies (#[trigger] w[j]).file < n by {
            if j < v.len() {
                assert(w[j] == v[j]);
            }
        }
    }
}

proof fn lemma_written_elsewhere(
    files: Seq<Seq<u8>>,
    v: Seq<Segment>,
    data: Seq<u8>,
    n: int,
    f: int,
)
    requires
        0 <= n <= v.len(),
        0 <= f < files.len(),
        forall|k: int| 0 <= k < v.len() ==> (#[trigger] v[k]).file < files.len(),
        forall|k: int| 0 <= k < n ==> (#[trigger] v[k]).file != f,
    ensures
        written(files, v, data, n).len() == files.len(),
        written(files, v, data, n)[f] == files[f],
    decreases n,
{
    if n > 0 {
        lemma_written_elsewhere(files, v, data, n - 1, f);
        assert(v[n - 1].file != f);
    }
}

proof fn lemma_written_len(files: Seq<Seq<u8>>, v: Seq<Segment>, data: Seq<u8>, n: int)
    requires
        0 <= n <= v.len(),
        forall|k: int| 0 <= k < v.len() ==> (#[trigger] v[k]).file < files.len(),
    ensures
        written(files, v, data, n).len() == files.len(),
        forall|f: int|
            0 <= f < files.len() ==> (#[trigger] written(files, v, data, n)[f]).len()
                == files[f].len(),
    decreases n,
{
    if n > 0 {
        lemma_written_len(files, v, data, n - 1);
        assert(v[n - 1].file < files.len());
    }
}

/// Segment `k` holds its part of the data once `n` segments, it among them,
/// are written.
proof fn lemma_segment_holds(
    files: Seq<Seq<u8>>,
    v: Seq<Segment>,
    data: Seq<u8>,
    n: int,
    k: int,
)
    requires
        0 <= k < n <= v.len(),
        forall|i: int| 0 <= i < v.len() ==> (#[trigger] v[i]).file < files.len(),
        forall|i: int, j: int|
            0 <= i < j < v.len() ==> (#[trigger] v[i]).file < (#[trigger] v[j]).file,
        v[k].from <= v[k].to <= data.len(),
        v[k].offset + (v[k].to - v[k].from) <= files[v[k].file as int].len(),
    ensures
        written(files, v, data, n)[v[k].file as int].subrange(
            v[k].offset as int,
            v[k].offset + (v[k].to - v[k].from),
        ) == data.subrange(v[k].from as int, v[k].to as int),
    decreases n,
{
    let s = v[k];
    let f = s.file as int;
    if k == n - 1 {
        lemma_written_elsewhere(files, v, data, k, f);
        let w = written(files, v, data, n);
        assert(w[f].subrange(s.offset as int, s.offset + (s.to - s.from)) =~= data.subrange(
            s.from as int,
            s.to as int,
        ));
    } else {
        lemma_segment_holds(files, v, data, n - 1, k);
        lemma_written_len(files, v, data, n - 1);
        assert(v[k].file < v[n - 1].file);
    }
}

proof fn lemma_read_prefix(
    files: Seq<Seq<u8>>,
    v: Seq<Segment>,
    data: Seq<u8>,
    n: int,
)
    requires
        0 <= n <= v.len(),
        forall|k: int|
            0 <= k < v.len() ==> (#[trigger] v[k]).from <= v[k].to <= data.len() && files[v[k].file as int].subrange(
                v[k].offset as int,
                v[k].offset + (v[k].to - v[k].from),
            ) == data.subrange(v[k].from as int, v[k].to as int),
        forall|k: int| 0 <= k < v.len() - 1 ==> (#[trigger] v[k]).to == v[k + 1].from,
        v.len() > 0 ==> v[0].from == 0,
    ensures
        read_back(files, v, n) == data.take(
            if n > 0 {
                v[n - 1].to as int
            } else {
                0
            },
        ),
    decreases n,
{
    if n > 0 {
        lemma_read_prefix(files, v, data, n - 1);
        let s = v[n - 1];
        assert(s.from <= s.to <= data.len());
        if n > 1 {
            assert(v[n - 2].to == v[n - 2 + 1].from);
        }
        assert(data.take(s.from as int) + data.subrange(s.from as int, s.to as int) =~= data.take(
            s.to as int,
        ));
    } else {
        assert(data.take(0) =~= Seq::empty());
    }
}

/// Reading a range gives back what was last written to it.
pub proof fn law_read_gives_back_what_was_written(
    files: Seq<Seq<u8>>,
    lengths: Seq<u64>,
    start: int,
    data: Seq<u8>,
)
    requires
        files.len() == lengths.len() <= usize::MAX,
        forall|i: int| 0 <= i < files.len() ==> (#[trigger] files[i]).len() == lengths[i],
        0 <= start,
        start + data.len() <= start_of(lengths, lengths.len() as int) <= u64::MAX,
    ensures
        ({
            let v = segments_in(lengths, lengths.len() as int, start, start + data.len());
            read_back(written(files, v, data, v.len() as int), v, v.len() as int) == data
        }),
{
    let end = start + data.len();
    let v = segments_in(lengths, lengths.len() as int, start, end);
    let w = written(files, v, data, v.len() as int);
    lemma_segments(lengths, lengths.len() as int, start, end);
    lemma_files_distinct(lengths, lengths.len() as int, start, end);
    assert forall|k: int| 0 <= k < v.len() implies (#[trigger] v[k]).from <= v[k].to <= data.len()
        && w[v[k].file as int].subrange(
        v[k].offset as int,
        v[k].offset + (v[k].to - v[k].from),
    ) == data.subrange(v[k].from as int, v[k].to as int) by {
        lemma_to_bound(v, k, end - start);
        lemma_segment_holds(files, v, data, v.len() as int, k);
    }
    lemma_read_prefix(w, v, data, v.len() as int);
    assert(data.take(data.len() as int) =~= data);
    if v.len() == 0 {
        assert(data.len() == 0);
    }
}

proof fn lemma_to_bound(v: Seq<Segment>, k: int, n: int)
    requires
        0 <= k < v.len(),
        forall|i: int| 0 <= i < v.len() ==> (#[trigger] v[i]).from < v[i].to,
        forall|i: int| 0 <= i < v.len() - 1 ==> (#[trigger] v[i]).to == v[i + 1].from,
        v.last().to == n,
    ensures
        v[k].to <= n,
    decreases v.len() - k,
{
    if k < v.len() - 1 {
        assert(v[k].to == v[k + 1].from);
        assert(v[k + 1].from < v[k + 1].to);
        lemma_to_bound(v, k + 1, n);
    }
}

/// Where a piece lies: piece by piece of the same length, a block as far into
/// its piece as it says; a file starts where those before it end.
pub proof fn law_where_bytes_lie(e: Extent, index: u32, begin: u32, i: int, len: int)
    requires
        0 <= i < e.lengths.len(),
    ensures
        e.block_start(index, begin) == index as int * e.piece_length + begin,
        start_of(e.lengths, 0) == 0,
        start_of(e.lengths, i + 1) == start_of(e.lengths, i) + e.lengths[i],
        e.holds(e.block_start(index, begin), len) <==> index as int * e.piece_length + begin + len
            <= e.total_length,
{
}

/// Data is a piece of the torrent if and only if it has the length that the
/// torrent has there, which is that of a piece or what is left at the end, and
/// the digest that the torrent gives for it.
pub proof fn law_what_verifies(e: Extent, index: u32, data: Seq<u8>)
    ensures
        ({
            let from = index as int * e.piece_length;
            let len = if from + e.piece_length <= e.total_length {
                e.piece_length as int
            } else {
                e.total_length - from
            };
            e.verifies(index, data) <==> index < e.hashes.len() && len > 0 && data.len() == len
                && sha1_of(data) == e.hashes[index as int]
        }),
{
}

/// A piece is read 16384 bytes at a time, and what is left of it at the end.
pub proof fn law_how_a_piece_is_read(c: Reading)
    requires
        c.done <= c.len,
    ensures
        c.done == c.len ==> c.next_read() is None && c.stepped() == c,
        c.done < c.len ==> c.next_read() == Some(
            (
                c.done,
                if c.len - c.done < 16384 {
                    (c.len - c.done) as nat
                } else {
                    16384nat
                },
            ),
        ),
        c.done < c.len && c.len - c.done < 16384 ==> c.stepped().done == c.len,
        c.len - c.done >= 16384 ==> c.stepped().done == c.done + 16384,
        c.stepped().len == c.len,
{
}

} // verus!
