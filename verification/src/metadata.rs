//! Metadata exchange (`ut_metadata`).
//!
//! When clove starts from a magnet link it has the info-hash but not the info
//! dictionary; peers serve it in 16 KiB pieces over the `ut_metadata`
//! extension. This module is the message codec plus a [`MetadataAssembler`]
//! that collects pieces, then verifies the reassembled bytes against the
//! expected info-hash before they are trusted.
//!
//! Data messages are a bencoded header followed by raw piece bytes. An absurd
//! advertised `total_size` is refused up front, and every piece's length is
//! checked.
use vstd::prelude::*;
#[allow(unused_imports)]
use vstd::string::*;
use crate::bencode;
use crate::bencode::{
    encoding, law_stored_is_found, lemma_stored_sound, sound_entries, stored, value_at, Dict, Tree,
    Value,
};
use crate::digest::{digest_matches, sha1_of};
use crate::picker::{least, length_of_piece};
use crate::strings::{copy_range, push_all, text_bytes};

verus! {

/// Metadata piece size.
pub const METADATA_PIECE_LEN: usize = 16384;

/// Largest info dictionary clove will fetch. Guards against a peer advertising
/// a huge `total_size`.
pub const MAX_METADATA_SIZE: usize = 8388608;

/// A `ut_metadata` message.
#[derive(Clone, Debug, PartialEq, Eq)]
pub enum MetadataMessage {
    /// Please send metadata piece `piece` (`msg_type` 0).
    Request {
        /// Zero-based metadata piece index.
        piece: u32,
    },
    /// A metadata piece (`msg_type` 1).
    Data {
        /// Piece index.
        piece: u32,
        /// Total size of the whole info dictionary.
        total_size: u32,
        /// The piece bytes.
        data: Vec<u8>,
    },
    /// The peer will not serve `piece` (`msg_type` 2).
    Reject {
        /// Piece index.
        piece: u32,
    },
}

/// Why a metadata message or assembly step failed.
#[derive(Clone, Copy, Debug, PartialEq, Eq)]
pub enum Error {
    /// Malformed header or unknown message type.
    Malformed,
    /// A data piece exceeded [`METADATA_PIECE_LEN`].
    PieceTooLarge,
    /// Advertised total size was zero or over [`MAX_METADATA_SIZE`].
    BadSize,
    /// Piece index out of range or wrong length.
    BadPiece,
}

impl Error {
    /// What was wrong, in words.
    pub fn message(&self) -> (r: String)
        ensures
            r@ == (match *self {
                Error::Malformed => "ut_metadata: malformed message"@,
                Error::PieceTooLarge => "ut_metadata: piece exceeds 16 KiB"@,
                Error::BadSize => "ut_metadata: bad advertised total size"@,
                Error::BadPiece => "ut_metadata: piece index or length invalid"@,
            }),
    {
        match self {
            Error::Malformed => "ut_metadata: malformed message".to_owned(),
            Error::PieceTooLarge => "ut_metadata: piece exceeds 16 KiB".to_owned(),
            Error::BadSize => "ut_metadata: bad advertised total size".to_owned(),
            Error::BadPiece => "ut_metadata: piece index or length invalid".to_owned(),
        }
    }
}

// ---------------------------------------------------------------------------
// Messages.

/// What a [`MetadataMessage`] stands for.
#[verifier::ext_equal]
pub enum MetaMsg {
    Request { piece: u32 },
    Data { piece: u32, total_size: u32, data: Seq<u8> },
    Reject { piece: u32 },
}

impl View for MetadataMessage {
    type V = MetaMsg;

    open spec fn view(&self) -> MetaMsg {
        match *self {
            MetadataMessage::Request { piece } => MetaMsg::Request { piece },
            MetadataMessage::Data { piece, total_size, data } => MetaMsg::Data {
                piece,
                total_size,
                data: data@,
            },
            MetadataMessage::Reject { piece } => MetaMsg::Reject { piece },
        }
    }
}

/// A header's dictionary.
pub open spec fn header_of(msg_type: int, piece: u32, total: Option<u32>) -> Seq<(Seq<u8>, Tree)> {
    let e = stored(
        stored(Seq::empty(), "msg_type".spec_bytes(), Tree::Int(msg_type)),
        "piece".spec_bytes(),
        Tree::Int(piece as int),
    );
    match total {
        Some(n) => stored(e, "total_size".spec_bytes(), Tree::Int(n as int)),
        None => e,
    }
}

/// A message on the wire: a bencoded header and, for data, the raw bytes.
pub open spec fn message_bytes(m: MetaMsg) -> Seq<u8> {
    match m {
        MetaMsg::Request { piece } => encoding(Tree::Dict(header_of(0, piece, None))),
        MetaMsg::Reject { piece } => encoding(Tree::Dict(header_of(2, piece, None))),
        MetaMsg::Data { piece, total_size, data } => encoding(
            Tree::Dict(header_of(1, piece, Some(total_size))),
        ) + data,
    }
}

/// A number under a key that an index or a size can hold.
pub open spec fn u32_in(t: Option<Tree>) -> Option<u32> {
    match t {
        Some(Tree::Int(n)) => if 0 <= n <= u32::MAX {
            Some(n as u32)
        } else {
            None
        },
        _ => None,
    }
}

/// The message that a payload stands for.
pub open spec fn message_in(payload: Seq<u8>) -> Result<MetaMsg, Error> {
    match value_at(payload, 0, 0) {
        Err(_) => Err(Error::Malformed),
        Ok((header, end)) => match u32_in(header.get("piece".spec_bytes())) {
            None => Err(Error::Malformed),
            Some(piece) => {
                let msg_type = header.get("msg_type".spec_bytes());
                if msg_type == Some(Tree::Int(0)) {
                    Ok(MetaMsg::Request { piece })
                } else if msg_type == Some(Tree::Int(2)) {
                    Ok(MetaMsg::Reject { piece })
                } else if msg_type == Some(Tree::Int(1)) {
                    match u32_in(header.get("total_size".spec_bytes())) {
                        None => Err(Error::Malformed),
                        Some(total_size) => if payload.len() - end > METADATA_PIECE_LEN {
                            Err(Error::PieceTooLarge)
                        } else {
                            Ok(MetaMsg::Data { piece, total_size, data: payload.skip(end) })
                        },
                    }
                } else {
                    Err(Error::Malformed)
                }
            },
        },
    }
}

fn int_field(v: Option<&Value>) -> (r: Option<i64>)
    ensures
        match v {
            Some(x) => match r {
                Some(n) => x@ == Tree::Int(n as int),
                None => !(x@ is Int),
            },
            None => r is None,
        },
{
    match v {
        Some(x) => x.as_int(),
        None => None,
    }
}

fn u32_field(header: &Value, key: &str) -> (r: Option<u32>)
    ensures
        r == u32_in(header@.get(key.spec_bytes())),
{
    match int_field(header.get(key.as_bytes())) {
        Some(n) => if 0 <= n && n <= u32::MAX as i64 {
            Some(n as u32)
        } else {
            None
        },
        None => None,
    }
}

impl MetadataMessage {
    /// Encode as the payload of the negotiated `ut_metadata` extended message.
    pub fn encode(&self) -> (out: Vec<u8>)
        ensures
            out@ == message_bytes(self@),
    {
        let mut dict = Dict::new();
        let (msg_type, piece): (i64, u32) = match self {
            MetadataMessage::Request { piece } => (0, *piece),
            MetadataMessage::Reject { piece } => (2, *piece),
            MetadataMessage::Data { piece, total_size: _, data: _ } => (1, *piece),
        };
        let _ = dict.insert(text_bytes("msg_type"), Value::Int(msg_type));
        let _ = dict.insert(text_bytes("piece"), Value::Int(piece as i64));
        if let MetadataMessage::Data { piece: _, total_size, data: _ } = self {
            let _ = dict.insert(text_bytes("total_size"), Value::Int(*total_size as i64));
        }
        let mut out = bencode::encode(&Value::Dict(dict));
        if let MetadataMessage::Data { piece: _, total_size: _, data } = self {
            push_all(&mut out, data.as_slice());
        }
        out
    }

    /// Parse a `ut_metadata` payload (bencoded header, then raw data for a
    /// data message).
    pub fn parse(payload: &[u8]) -> (r: Result<MetadataMessage, Error>)
        ensures
            match r {
                Ok(m) => message_in(payload@) == Ok::<MetaMsg, Error>(m@),
                Err(e) => message_in(payload@) == Err::<MetaMsg, Error>(e),
            },
    {
        let (header, consumed) = match bencode::decode_prefix(payload) {
            Ok(x) => x,
            Err(_) => return Err(Error::Malformed),
        };
        let piece: u32 = match u32_field(&header, "piece") {
            Some(n) => n,
            None => return Err(Error::Malformed),
        };
        match int_field(header.get("msg_type".as_bytes())) {
            Some(n) => {
                if n == 0 {
                    Ok(MetadataMessage::Request { piece })
                } else if n == 2 {
                    Ok(MetadataMessage::Reject { piece })
                } else if n == 1 {
                    let total_size: u32 = match u32_field(&header, "total_size") {
                        Some(n) => n,
                        None => return Err(Error::Malformed),
                    };
                    if payload.len() - consumed > METADATA_PIECE_LEN {
                        return Err(Error::PieceTooLarge);
                    }
                    let data = copy_range(payload, consumed, payload.len());
                    proof {
                        assert(data@ =~= payload@.skip(consumed as int));
                    }
                    Ok(MetadataMessage::Data { piece, total_size, data })
                } else {
                    Err(Error::Malformed)
                }
            },
            None => Err(Error::Malformed),
        }
    }
}

proof fn lemma_header(msg_type: int, piece: u32, total: Option<u32>)
    requires
        0 <= msg_type <= 2,
    ensures
        ({
            let e = header_of(msg_type, piece, total);
            &&& sound_entries(e, 31)
            &&& bencode::lookup(e, "msg_type".spec_bytes()) == Some(Tree::Int(msg_type))
            &&& bencode::lookup(e, "piece".spec_bytes()) == Some(Tree::Int(piece as int))
            &&& total matches Some(n) ==> bencode::lookup(e, "total_size".spec_bytes()) == Some(
                Tree::Int(n as int),
            )
        }),
{
    reveal_strlit("msg_type");
    reveal_strlit("piece");
    reveal_strlit("total_size");
    assert("msg_type".is_ascii() && "piece".is_ascii() && "total_size".is_ascii());
    let km = "msg_type".spec_bytes();
    let kp = "piece".spec_bytes();
    let kt = "total_size".spec_bytes();
    assert(km.len() == 8 && kp.len() == 5 && kt.len() == 10);
    let e0: Seq<(Seq<u8>, Tree)> = Seq::empty();
    let tm = Tree::Int(msg_type);
    let tp = Tree::Int(piece as int);
    let e1 = stored(e0, km, tm);
    law_stored_is_found(e0, km, tm, km);
    lemma_stored_sound(e0, km, tm, 31);
    let e2 = stored(e1, kp, tp);
    law_stored_is_found(e1, kp, tp, km);
    law_stored_is_found(e1, kp, tp, kp);
    lemma_stored_sound(e1, kp, tp, 31);
    if let Some(n) = total {
        let tt = Tree::Int(n as int);
        law_stored_is_found(e2, kt, tt, km);
        law_stored_is_found(e2, kt, tt, kp);
        law_stored_is_found(e2, kt, tt, kt);
        lemma_stored_sound(e2, kt, tt, 31);
    }
}

/// Every message within the piece size is read back as it was sent, its header
/// told apart from its bytes.
pub proof fn law_metadata_message_round_trip(m: MetaMsg)
    requires
        m matches MetaMsg::Data { piece, total_size, data } ==> data.len() <= METADATA_PIECE_LEN,
    ensures
        message_in(message_bytes(m)) == Ok::<MetaMsg, Error>(m),
{
    let (e, data) = match m {
        MetaMsg::Request { piece } => (header_of(0, piece, None), Seq::<u8>::empty()),
        MetaMsg::Reject { piece } => (header_of(2, piece, None), Seq::<u8>::empty()),
        MetaMsg::Data { piece, total_size, data } => (header_of(1, piece, Some(total_size)), data),
    };
    match m {
        MetaMsg::Request { piece } => lemma_header(0, piece, None),
        MetaMsg::Reject { piece } => lemma_header(2, piece, None),
        MetaMsg::Data { piece, total_size, data } => lemma_header(1, piece, Some(total_size)),
    }
    let t = Tree::Dict(e);
    assert(t.well_formed() && t.fits(32));
    let s = message_bytes(m);
    let n = encoding(t).len() as int;
    assert(s =~= encoding(t) + data);
    assert(s.subrange(0, n) =~= encoding(t));
    bencode::lemma_value_round(s, 0, 0, t);
    assert(s.skip(n) =~= data);
}

// ---------------------------------------------------------------------------
// Assembly.

/// Collects metadata pieces and verifies the whole against the info-hash.
pub struct MetadataAssembler {
    total_size: usize,
    pieces: Vec<Option<Vec<u8>>>,
    have: usize,
}

/// What a [`MetadataAssembler`] stands for.
#[verifier::ext_equal]
pub struct Assembly {
    pub total_size: nat,
    pub pieces: Seq<Option<Seq<u8>>>,
}

impl Assembly {
    /// Expected byte length of piece `index`.
    pub open spec fn piece_len(self, index: int) -> nat {
        length_of_piece(index, METADATA_PIECE_LEN as nat, self.total_size)
    }

    /// Whether the size is acceptable, there is a place for every piece, and
    /// each piece that arrived has its length.
    pub open spec fn wf(self) -> bool {
        &&& 0 < self.total_size <= MAX_METADATA_SIZE
        &&& self.pieces.len() == (self.total_size + METADATA_PIECE_LEN - 1) / (
        METADATA_PIECE_LEN as int)
        &&& forall|i: int| 0 <= i < self.pieces.len() ==> #[trigger] self.piece_ok(i)
    }

    pub open spec fn piece_ok(self, i: int) -> bool {
        self.pieces[i] matches Some(p) ==> p.len() == self.piece_len(i)
    }

    /// Whether every piece has arrived.
    pub open spec fn complete(self) -> bool {
        forall|i: int| 0 <= i < self.pieces.len() ==> (#[trigger] self.pieces[i]) is Some
    }

    /// The bytes of the first `n` pieces.
    pub open spec fn joined(self, n: int) -> Seq<u8>
        decreases n,
    {
        if n <= 0 {
            Seq::empty()
        } else {
            self.joined(n - 1) + self.pieces[n - 1]->Some_0
        }
    }

    /// The indices of those of the first `n` pieces still needed.
    pub open spec fn missing(self, n: int) -> Seq<u32>
        decreases n,
    {
        if n <= 0 {
            Seq::empty()
        } else if self.pieces[n - 1] is None {
            self.missing(n - 1).push((n - 1) as u32)
        } else {
            self.missing(n - 1)
        }
    }
}

spec fn piece_bytes(p: Option<Vec<u8>>) -> Option<Seq<u8>> {
    match p {
        Some(v) => Some(v@),
        None => None,
    }
}

/// How many of the pieces have arrived.
spec fn arrived(p: Seq<Option<Seq<u8>>>) -> nat
    decreases p.len(),
{
    if p.len() == 0 {
        0
    } else {
        arrived(p.drop_last()) + if p.last() is Some {
            1nat
        } else {
            0nat
        }
    }
}

proof fn lemma_arrived(p: Seq<Option<Seq<u8>>>)
    ensures
        arrived(p) <= p.len(),
        arrived(p) == p.len() <==> (forall|i: int|
            0 <= i < p.len() ==> (#[trigger] p[i]) is Some),
    decreases p.len(),
{
    if p.len() > 0 {
        let q = p.drop_last();
        lemma_arrived(q);
        if forall|i: int| 0 <= i < p.len() ==> (#[trigger] p[i]) is Some {
            assert forall|i: int| 0 <= i < q.len() implies (#[trigger] q[i]) is Some by {
                assert(p[i] is Some);
            }
        }
        if arrived(p) == p.len() {
            assert forall|i: int| 0 <= i < p.len() implies (#[trigger] p[i]) is Some by {
                if i < q.len() {
                    assert(q[i] is Some);
                }
            }
        }
    }
}

proof fn lemma_arrived_one_more(p: Seq<Option<Seq<u8>>>, i: int, v: Seq<u8>)
    requires
        0 <= i < p.len(),
        p[i] is None,
    ensures
        arrived(p.update(i, Some(v))) == arrived(p) + 1,
    decreases p.len(),
{
    let q = p.update(i, Some(v));
    if i == p.len() - 1 {
        assert(q.drop_last() =~= p.drop_last());
    } else {
        lemma_arrived_one_more(p.drop_last(), i, v);
        assert(q.drop_last() =~= p.drop_last().update(i, Some(v)));
    }
}

impl View for MetadataAssembler {
    type V = Assembly;

    closed spec fn view(&self) -> Assembly {
        Assembly {
            total_size: self.total_size as nat,
            pieces: Seq::new(self.pieces@.len(), |i: int| piece_bytes(self.pieces@[i])),
        }
    }
}

impl MetadataAssembler {
    /// Whether the assembly is sound and its count of arrived pieces right.
    pub closed spec fn wf(self) -> bool {
        self@.wf() && self.have == arrived(self@.pieces)
    }

    /// Start assembling a metadata blob of `total_size` bytes (from a data
    /// message's `total_size` or the extension handshake's `metadata_size`).
    pub fn new(total_size: usize) -> (r: Result<MetadataAssembler, Error>)
        ensures
            match r {
                Ok(a) => 0 < total_size <= MAX_METADATA_SIZE && a.wf() && a@ == (Assembly {
                    total_size: total_size as nat,
                    pieces: Seq::new(
                        ((total_size + METADATA_PIECE_LEN - 1) / (METADATA_PIECE_LEN as int)) as nat,
                        |i: int| None::<Seq<u8>>,
                    ),
                }) && a@.wf(),
                Err(e) => e == Error::BadSize && !(0 < total_size <= MAX_METADATA_SIZE),
            },
    {
        if total_size == 0 || total_size > MAX_METADATA_SIZE {
            return Err(Error::BadSize);
        }
        let n: usize = (total_size + METADATA_PIECE_LEN - 1) / METADATA_PIECE_LEN;
        let mut pieces: Vec<Option<Vec<u8>>> = Vec::new();
        let mut i: usize = 0;
        while i < n
            invariant
                i <= n,
                pieces@.len() == i,
                forall|j: int| 0 <= j < i ==> (#[trigger] pieces@[j]) is None,
            decreases n - i,
        {
            pieces.push(None);
            i = i + 1;
        }
        let a = MetadataAssembler { total_size, pieces, have: 0 };
        proof {
            assert(a@.pieces =~= Seq::new(n as nat, |i: int| None::<Seq<u8>>));
            lemma_none_arrived(n as nat);
        }
        Ok(a)
    }

    /// Number of metadata pieces.
    pub fn num_pieces(&self) -> (n: u32)
        requires
            self.wf(),
        ensures
            n == self@.pieces.len(),
    {
        self.pieces.len() as u32
    }

    /// Expected byte length of piece `index` (the last piece is short).
    pub fn piece_len(&self, index: u32) -> (n: usize)
        ensures
            n == self@.piece_len(index as int),
    {
        proof {
            assert(METADATA_PIECE_LEN as u64 == 16384);
        }
        let start: u64 = index as u64 * METADATA_PIECE_LEN as u64;
        if start >= self.total_size as u64 {
            return 0;
        }
        let left: usize = self.total_size - start as usize;
        if left < METADATA_PIECE_LEN {
            left
        } else {
            METADATA_PIECE_LEN
        }
    }

    /// Indices of pieces still needed, for issuing requests.
    pub fn missing(&self) -> (r: Vec<u32>)
        requires
            self.wf(),
        ensures
            r@ == self@.missing(self@.pieces.len() as int),
    {
        let mut out: Vec<u32> = Vec::new();
        let mut i: usize = 0;
        while i < self.pieces.len()
            invariant
                i <= self.pieces@.len(),
                self.wf(),
                out@ == self@.missing(i as int),
            decreases self.pieces.len() - i,
        {
            proof {
                assert(self@.pieces[i as int] == piece_bytes(self.pieces@[i as int]));
            }
            if self.pieces[i].is_none() {
                out.push(i as u32);
            }
            i = i + 1;
        }
        out
    }

    /// Store a received piece. A piece that is here already is left as it is.
    pub fn add_piece(&mut self, index: u32, data: &[u8]) -> (r: Result<(), Error>)
        requires
            old(self).wf(),
        ensures
            final(self).wf(),
            final(self)@.wf(),
            match r {
                Ok(()) => index < old(self)@.pieces.len() && data@.len() == old(self)@.piece_len(
                    index as int,
                ) && final(self)@ == (if old(self)@.pieces[index as int] is None {
                    Assembly {
                        pieces: old(self)@.pieces.update(index as int, Some(data@)),
                        ..old(self)@
                    }
                } else {
                    old(self)@
                }),
                Err(e) => e == Error::BadPiece && final(self)@ == old(self)@ && !(index < old(
                    self,
                )@.pieces.len() && data@.len() == old(self)@.piece_len(index as int)),
            },
    {
        let ghost a = self@;
        let slot: usize = index as usize;
        if slot >= self.pieces.len() || data.len() != self.piece_len(index) {
            return Err(Error::BadPiece);
        }
        proof {
            assert(a.pieces[slot as int] == piece_bytes(self.pieces@[slot as int]));
        }
        if self.pieces[slot].is_none() {
            let copy = copy_range(data, 0, data.len());
            proof {
                assert(copy@ =~= data@);
                lemma_arrived(a.pieces);
                lemma_arrived_one_more(a.pieces, slot as int, data@);
                lemma_arrived(a.pieces.update(slot as int, Some(data@)));
            }
            self.pieces.set(slot, Some(copy));
            self.have = self.have + 1;
            proof {
                assert(self@.pieces =~= a.pieces.update(slot as int, Some(data@)));
                assert forall|i: int| 0 <= i < self@.pieces.len() implies #[trigger] self@.piece_ok(
                    i,
                ) by {
                    assert(a.piece_ok(i));
                }
            }
        }
        Ok(())
    }

    /// Whether every piece has arrived.
    pub fn is_complete(&self) -> (r: bool)
        requires
            self.wf(),
        ensures
            r == self@.complete(),
    {
        proof {
            lemma_arrived(self@.pieces);
        }
        self.have == self.pieces.len()
    }

    /// If complete and the reassembled bytes hash to `expected_info_hash`,
    /// return them; otherwise `None` (incomplete, or a hash mismatch: a peer
    /// served the wrong data).
    pub fn finish(&self, expected_info_hash: [u8; 20]) -> (r: Option<Vec<u8>>)
        requires
            self.wf(),
        ensures
            match r {
                Some(b) => self@.complete() && b@ == self@.joined(self@.pieces.len() as int)
                    && b@.len() == self@.total_size && sha1_of(b@) == expected_info_hash@,
                None => !self@.complete() || sha1_of(self@.joined(self@.pieces.len() as int))
                    != expected_info_hash@,
            },
    {
        if !self.is_complete() {
            return None;
        }
        let ghost a = self@;
        let mut bytes: Vec<u8> = Vec::new();
        let mut i: usize = 0;
        while i < self.pieces.len()
            invariant
                i <= self.pieces@.len(),
                a == self@,
                a.wf(),
                a.complete(),
                bytes@ == a.joined(i as int),
            decreases self.pieces.len() - i,
        {
            proof {
                assert(a.pieces[i as int] == piece_bytes(self.pieces@[i as int]));
                assert(a.pieces[i as int] is Some);
            }
            if let Some(piece) = &self.pieces[i] {
                push_all(&mut bytes, piece.as_slice());
            }
            i = i + 1;
        }
        proof {
            law_complete_assembly_has_its_size(a);
        }
        if digest_matches(bytes.as_slice(), &expected_info_hash) {
            Some(bytes)
        } else {
            None
        }
    }
}

proof fn lemma_none_arrived(n: nat)
    ensures
        arrived(Seq::new(n, |i: int| None::<Seq<u8>>)) == 0,
    decreases n,
{
    if n > 0 {
        lemma_none_arrived((n - 1) as nat);
        assert(Seq::new(n, |i: int| None::<Seq<u8>>).drop_last() =~= Seq::new(
            (n - 1) as nat,
            |i: int| None::<Seq<u8>>,
        ));
    }
}

proof fn lemma_joined_len(a: Assembly, n: int)
    requires
        a.wf(),
        a.complete(),
        0 <= n <= a.pieces.len(),
    ensures
        a.joined(n).len() == least(n * METADATA_PIECE_LEN, a.total_size as int),
    decreases n,
{
    if n > 0 {
        lemma_joined_len(a, n - 1);
        assert(a.piece_ok(n - 1));
        assert(a.pieces[n - 1] is Some);
    }
}

/// Once every piece has arrived, together they have the advertised size.
pub proof fn law_complete_assembly_has_its_size(a: Assembly)
    requires
        a.wf(),
        a.complete(),
    ensures
        a.joined(a.pieces.len() as int).len() == a.total_size,
{
    lemma_joined_len(a, a.pieces.len() as int);
}

// ---------------------------------------------------------------------------
// The request budget.

/// How many `ut_metadata` requests one peer may have served per
/// [`METADATA_REQUEST_WINDOW`]. A peer asking in a loop is a bandwidth
/// amplifier at no cost to itself.
pub const METADATA_REQUEST_LIMIT: u32 = 128;

/// The window [`METADATA_REQUEST_LIMIT`] is counted over, in milliseconds.
pub const METADATA_REQUEST_WINDOW: u64 = 10_000;

/// Per-peer budget for serving `ut_metadata` requests: `limit` requests per
/// `window`, then `Reject` until the window turns over.
///
/// Time is a parameter, in milliseconds from any fixed origin. Refused
/// requests do not count, and the window is fixed rather than sliding, which
/// is no less a bound: at most `2 * limit` in any span of `window`.
#[derive(Clone, Debug)]
pub struct MetadataRequestBudget {
    limit: u32,
    window: u64,
    window_start: Option<u64>,
    used: u32,
}

/// What a [`MetadataRequestBudget`] stands for.
#[verifier::ext_equal]
pub struct Allowance {
    pub limit: u32,
    pub window: u64,
    pub start: Option<u64>,
    pub used: u32,
}

impl Allowance {
    /// Whether the window has turned over at `now`.
    pub open spec fn expired(self, now: u64) -> bool {
        match self.start {
            None => true,
            Some(start) => (if now > start {
                now - start
            } else {
                0
            }) >= self.window,
        }
    }

    /// Whether a request at `now` is served.
    pub open spec fn allows(self, now: u64) -> bool {
        if self.expired(now) {
            self.limit > 0
        } else {
            self.used < self.limit
        }
    }

    /// The allowance after a request at `now`.
    pub open spec fn after(self, now: u64) -> Allowance {
        let fresh = if self.expired(now) {
            Allowance { start: Some(now), used: 0, ..self }
        } else {
            self
        };
        if fresh.used < fresh.limit {
            Allowance { used: (fresh.used + 1) as u32, ..fresh }
        } else {
            fresh
        }
    }
}

/// The allowance that a peer starts with.
pub open spec fn fresh_allowance() -> Allowance {
    Allowance {
        limit: METADATA_REQUEST_LIMIT,
        window: METADATA_REQUEST_WINDOW,
        start: None,
        used: 0,
    }
}

impl View for MetadataRequestBudget {
    type V = Allowance;

    closed spec fn view(&self) -> Allowance {
        Allowance {
            limit: self.limit,
            window: self.window,
            start: self.window_start,
            used: self.used,
        }
    }
}

impl Default for MetadataRequestBudget {
    fn default() -> (b: MetadataRequestBudget)
        ensures
            b@ == fresh_allowance(),
    {
        MetadataRequestBudget::new(METADATA_REQUEST_LIMIT, METADATA_REQUEST_WINDOW)
    }
}

impl MetadataRequestBudget {
    /// A budget of `limit` requests per `window`.
    pub fn new(limit: u32, window: u64) -> (b: MetadataRequestBudget)
        ensures
            b@ == (Allowance { limit, window, start: None, used: 0 }),
    {
        MetadataRequestBudget { limit, window, window_start: None, used: 0 }
    }

    /// Whether a request arriving at `now` may be served. `true` spends one of
    /// the window's requests; `false` means answer with `Reject`.
    pub fn allow(&mut self, now: u64) -> (r: bool)
        ensures
            r == old(self)@.allows(now),
            final(self)@ == old(self)@.after(now),
    {
        let expired = match self.window_start {
            None => true,
            Some(start) => now.saturating_sub(start) >= self.window,
        };
        if expired {
            self.window_start = Some(now);
            self.used = 0;
        }
        if self.used >= self.limit {
            return false;
        }
        self.used = self.used + 1;
        true
    }

    /// Requests still available in the current window, as of the last
    /// [`allow`](Self::allow).
    pub fn remaining(&self) -> (n: u32)
        ensures
            n == (if self@.used <= self@.limit {
                (self@.limit - self@.used) as u32
            } else {
                0
            }),
    {
        self.limit.saturating_sub(self.used)
    }
}

/// Whether an allowance is one that a peer can have.
pub open spec fn is_ration(b: Allowance) -> bool {
    &&& b.limit == METADATA_REQUEST_LIMIT
    &&& b.window == METADATA_REQUEST_WINDOW
    &&& b.used <= b.limit
}

/// A peer starts with a ration, and has one after every request.
pub proof fn law_ration_stays_a_ration(b: Allowance, now: u64)
    requires
        is_ration(b),
    ensures
        is_ration(fresh_allowance()),
        is_ration(b.after(now)),
{
}

/// How many of the requests that arrive at `times` are served.
pub open spec fn served(b: Allowance, times: Seq<u64>) -> nat
    decreases times.len(),
{
    if times.len() == 0 {
        0
    } else {
        (if b.allows(times[0]) {
            1nat
        } else {
            0nat
        }) + served(b.after(times[0]), times.skip(1))
    }
}

/// Whether no time is before the one it follows.
pub open spec fn ascending_times(times: Seq<u64>) -> bool {
    forall|i: int, j: int| 0 <= i < j < times.len() ==> times[i] <= times[j]
}

/// Within one window a peer is served no more than what is left of its limit.
pub proof fn law_window_serves_no_more_than_the_limit(b: Allowance, times: Seq<u64>)
    requires
        b.used <= b.limit,
        forall|i: int| 0 <= i < times.len() ==> !b.expired(#[trigger] times[i]),
    ensures
        served(b, times) <= b.limit - b.used,
    decreases times.len(),
{
    if times.len() > 0 {
        let next = b.after(times[0]);
        assert(!b.expired(times[0]));
        assert forall|i: int| 0 <= i < times.skip(1).len() implies !next.expired(
            #[trigger] times.skip(1)[i],
        ) by {
            assert(!b.expired(times[i + 1]));
        }
        law_window_serves_no_more_than_the_limit(next, times.skip(1));
    }
}

/// In any span as long as a window a peer is served no more than twice its
/// limit, however its requests fall.
pub proof fn law_span_serves_no_more_than_twice_the_limit(b: Allowance, times: Seq<u64>, from: u64)
    requires
        b.used <= b.limit,
        ascending_times(times),
        forall|i: int|
            0 <= i < times.len() ==> from <= #[trigger] times[i] && times[i] - from < b.window,
    ensures
        served(b, times) <= (b.limit - b.used) + b.limit,
    decreases times.len(),
{
    if times.len() > 0 {
        let now = times[0];
        let next = b.after(now);
        let rest = times.skip(1);
        assert(from <= times[0]);
        assert forall|i: int, j: int| 0 <= i < j < rest.len() implies rest[i] <= rest[j] by {
            assert(times[i + 1] <= times[j + 1]);
        }
        assert forall|i: int| 0 <= i < rest.len() implies from <= #[trigger] rest[i] && rest[i]
            - from < b.window by {
            assert(from <= times[i + 1]);
        }
        if b.expired(now) {
            assert forall|i: int| 0 <= i < rest.len() implies !next.expired(
                #[trigger] rest[i],
            ) by {
                assert(times[0] <= times[i + 1]);
                assert(rest[i] == times[i + 1]);
            }
            law_window_serves_no_more_than_the_limit(next, rest);
        } else {
            law_span_serves_no_more_than_twice_the_limit(next, rest, from);
        }
    }
}

/// In its first span as long as a window a peer is served no more than its
/// limit.
pub proof fn law_first_span_serves_no_more_than_the_limit(
    b: Allowance,
    times: Seq<u64>,
    from: u64,
)
    requires
        b.start is None,
        b.used <= b.limit,
        ascending_times(times),
        forall|i: int|
            0 <= i < times.len() ==> from <= #[trigger] times[i] && times[i] - from < b.window,
    ensures
        served(b, times) <= b.limit,
{
    if times.len() > 0 {
        let next = b.after(times[0]);
        let rest = times.skip(1);
        assert(from <= times[0]);
        assert forall|i: int| 0 <= i < rest.len() implies !next.expired(#[trigger] rest[i]) by {
            assert(times[0] <= times[i + 1]);
            assert(times[i + 1] - from < b.window);
        }
        law_window_serves_no_more_than_the_limit(next, rest);
    }
}

/// How a ration is counted. The first request opens a window, and so does the
/// first one a window's length or more after it was opened; a request in a
/// window is served while fewer than the limit have been, and counts if it is
/// served.
pub proof fn law_ration_is_counted_by_windows(b: Allowance, now: u64)
    ensures
        ({
            let opens = b.start is None || now as int - b.start->Some_0 >= b.window && now
                >= b.start->Some_0;
            let used = if opens {
                0
            } else {
                b.used
            };
            &&& b.window > 0 ==> (b.allows(now) <==> used < b.limit)
            &&& b.window > 0 ==> b.after(now).start == (if opens {
                Some(now)
            } else {
                b.start
            })
            &&& b.window > 0 ==> b.after(now).used == (if used < b.limit {
                used + 1
            } else {
                used as int
            })
            &&& b.after(now).limit == b.limit
            &&& b.after(now).window == b.window
        }),
        fresh_allowance().limit == 128,
        fresh_allowance().window == 10_000,
        fresh_allowance().start is None,
        fresh_allowance().used == 0,
{
}

/// What is still missing are the indices of the places without a piece, from
/// the first on.
pub proof fn law_missing_pieces(a: Assembly, n: int, i: u32)
    requires
        0 <= n <= a.pieces.len() <= u32::MAX,
    ensures
        a.missing(n).contains(i) <==> i < n && a.pieces[i as int] is None,
        forall|j: int, k: int|
            0 <= j < k < a.missing(n).len() ==> a.missing(n)[j] < a.missing(n)[k],
    decreases n,
{
    if n > 0 {
        law_missing_pieces(a, n - 1, i);
        let before = a.missing(n - 1);
        let after = a.missing(n);
        lemma_missing_below(a, n - 1);
        if before.contains(i) {
            let j = choose|j: int| 0 <= j < before.len() && before[j] == i;
            assert(after[j] == i);
        }
        if i == n - 1 && a.pieces[i as int] is None {
            assert(after.last() == i);
        }
        if after.contains(i) && i < n - 1 {
            let j = choose|j: int| 0 <= j < after.len() && after[j] == i;
            assert(before[j] == i);
        }
    }
}

proof fn lemma_missing_below(a: Assembly, n: int)
    requires
        0 <= n <= a.pieces.len() <= u32::MAX,
    ensures
        forall|j: int| 0 <= j < a.missing(n).len() ==> #[trigger] a.missing(n)[j] < n,
    decreases n,
{
    if n > 0 {
        lemma_missing_below(a, n - 1);
        let before = a.missing(n - 1);
        let after = a.missing(n);
        assert forall|j: int| 0 <= j < after.len() implies #[trigger] after[j] < n by {
            if j < before.len() {
                assert(after[j] == before[j]);
            }
        }
    }
}

/// The whole is its pieces one after the other.
pub proof fn law_pieces_are_joined_in_order(a: Assembly, n: int)
    requires
        0 <= n < a.pieces.len(),
        a.pieces[n] is Some,
    ensures
        a.joined(0) == Seq::<u8>::empty(),
        a.joined(n + 1) == a.joined(n) + a.pieces[n]->Some_0,
{
}

} // verus!
