//! Fetching a torrent's `info` dictionary from one peer: the magnet bootstrap.
//!
//! Sequential: our handshake, theirs, our extension handshake, theirs, a
//! request for every metadata piece, and then reading until the pieces are all
//! there. The reassembled bytes are checked against the info-hash, so a peer
//! cannot serve a different torrent.
//!
//! The caller owns the connection and the clock. Bounded by frames *and* a
//! deadline, which catch different peers: one flooding cheap frames, one
//! sending a few very slowly.
use vstd::prelude::*;
use crate::bencode::{encoding, Tree};
use crate::digest::sha1_of;
use crate::extension::{self, id_listed, offer_in, root_entries, Offer, UT_METADATA};
use crate::metadata::{
    self, message_bytes, Assembly, MetaMsg, MetadataAssembler, MetadataMessage, MAX_METADATA_SIZE,
    METADATA_PIECE_LEN,
};
use crate::metainfo::{info_meta_in, law_info_dict_is_taken_whole, Meta, MetaInfo};
use crate::picker::least;
use crate::strings::bytes_eq;
use crate::torrent::{CLIENT_NAME, OUR_METADATA_ID};
use crate::wire::{self, frame_of, message_in, Extensions, Handshake, Message, Msg};
use crate::world::metadata_reply;

verus! {

/// Frame ceiling for a fetch: a metadata message is one 16 KiB piece plus small
/// header and extension overhead.
pub const METADATA_FRAME: u32 = 16640;

/// Longest a metadata fetch may take before the peer is treated as stalling.
/// End to end: our handshake, theirs, and the assembly, because the half before
/// them is the cheaper half for a peer to stall in.
pub const METADATA_DEADLINE: u64 = 120_000;

/// Per-read/write bound for a metadata stream. The deadline is only consulted
/// between frames, so a peer that accepts the stream and then says nothing is
/// stopped by this and nothing else.
pub const METADATA_IO_TIMEOUT: u64 = 30_000;

/// Frames a peer may spend before sending its extension handshake. Generous,
/// because a peer legitimately opens with a bitfield and a have or two; finite,
/// because whatever else arrives is ignored.
pub const METADATA_GREETING_FRAMES: u32 = 64;

/// Frames of slack per metadata piece, over the one useful reply each.
///
/// Nothing else can end the exchange: a piece we already hold, or one of the
/// wrong length, makes no progress and costs the peer nothing, so "read until
/// complete" is a loop it can keep us in indefinitely.
pub const METADATA_FRAME_SLACK: u32 = 8;

/// Why a fetch was given up.
#[derive(Clone, Copy, Debug, PartialEq, Eq, Structural)]
pub enum FetchError {
    /// The peer's handshake names another torrent.
    WrongTorrent,
    /// The peer does not speak the extension protocol.
    NoExtensions,
    /// The peer sent frame after frame without its extension handshake.
    NeverHandshakes,
    /// The deadline passed before the extension handshake.
    HandshakeLate,
    /// The extension handshake does not parse.
    BadHandshake,
    /// The peer does not offer metadata.
    NotServed,
    /// The advertised size is zero or too large.
    BadSize,
    /// The peer sent frame after frame without completing the metadata.
    NeverCompletes,
    /// The deadline passed before the metadata was complete.
    Late,
    /// The peer rejected a piece.
    Rejected,
    /// The metadata does not have the info-hash.
    Unverified,
    /// The metadata is not a valid info dictionary.
    NotAnInfoDict,
}

impl FetchError {
    /// What was wrong, in words.
    pub fn message(&self) -> (r: String)
        ensures
            r@ == (match *self {
                FetchError::WrongTorrent => "peer handshaked a different torrent"@,
                FetchError::NoExtensions => "peer does not speak the extension protocol"@,
                FetchError::NeverHandshakes
                    => "peer sent frame after frame without handshaking"@,
                FetchError::HandshakeLate => "peer did not finish its handshake in time"@,
                FetchError::BadHandshake => "bad ext handshake"@,
                FetchError::NotServed => "peer does not serve metadata"@,
                FetchError::BadSize => "bad metadata size"@,
                FetchError::NeverCompletes
                    => "peer sent frame after frame without completing the metadata"@,
                FetchError::Late => "peer did not finish serving the metadata in time"@,
                FetchError::Rejected => "peer rejected a metadata piece"@,
                FetchError::Unverified => "metadata failed info-hash verification"@,
                FetchError::NotAnInfoDict => "fetched metadata is not a valid info dict"@,
            }),
    {
        match self {
            FetchError::WrongTorrent => "peer handshaked a different torrent".to_owned(),
            FetchError::NoExtensions => "peer does not speak the extension protocol".to_owned(),
            FetchError::NeverHandshakes => {
                "peer sent frame after frame without handshaking".to_owned()
            },
            FetchError::HandshakeLate => "peer did not finish its handshake in time".to_owned(),
            FetchError::BadHandshake => "bad ext handshake".to_owned(),
            FetchError::NotServed => "peer does not serve metadata".to_owned(),
            FetchError::BadSize => "bad metadata size".to_owned(),
            FetchError::NeverCompletes => {
                "peer sent frame after frame without completing the metadata".to_owned()
            },
            FetchError::Late => "peer did not finish serving the metadata in time".to_owned(),
            FetchError::Rejected => "peer rejected a metadata piece".to_owned(),
            FetchError::Unverified => "metadata failed info-hash verification".to_owned(),
            FetchError::NotAnInfoDict => "fetched metadata is not a valid info dict".to_owned(),
        }
    }
}

/// What a fetch does next.
pub enum Next {
    /// Read a frame and hand it to [`MetadataFetch::take`].
    Read,
    /// Nothing: this is the torrent.
    Done(MetaInfo),
}

enum Stage {
    /// Waiting for the peer's extension handshake.
    Greeting,
    /// Collecting pieces.
    Fetching(MetadataAssembler),
}

/// A metadata fetch under way.
pub struct MetadataFetch {
    info_hash: [u8; 20],
    /// Frames the peer may still spend in this stage.
    frames: u32,
    stage: Stage,
}

// ---------------------------------------------------------------------------
// The model.

/// What a [`MetadataFetch`] stands for.
#[verifier::ext_equal]
pub struct Fetching {
    pub info_hash: Seq<u8>,
    /// Frames the peer may still spend in this stage.
    pub frames: u32,
    /// The pieces, once the peer's extension handshake has arrived.
    pub parts: Option<Assembly>,
}

/// The frames that a peer may spend on `n` pieces.
pub open spec fn patience(n: nat) -> u32 {
    if n * METADATA_FRAME_SLACK + 32 <= u32::MAX {
        (n * METADATA_FRAME_SLACK + 32) as u32
    } else {
        u32::MAX
    }
}

/// Our extension handshake on a fetch.
pub open spec fn fetch_offer() -> Offer {
    Offer {
        ids: seq![(UT_METADATA@, OUR_METADATA_ID)],
        metadata_size: None,
        client: Some(CLIENT_NAME@),
    }
}

/// The frames that request the first `n` pieces.
pub open spec fn requests(id: u8, n: int) -> Seq<u8>
    decreases n,
{
    if n <= 0 {
        Seq::empty()
    } else {
        requests(id, n - 1) + frame_of(
            Msg::Extended {
                id,
                payload: message_bytes(MetaMsg::Request { piece: (n - 1) as u32 }),
            },
        )
    }
}

/// The places for the pieces of metadata of a size.
pub open spec fn empty_parts(size: usize) -> Assembly {
    Assembly {
        total_size: size as nat,
        pieces: Seq::new(
            ((size + METADATA_PIECE_LEN - 1) / (METADATA_PIECE_LEN as int)) as nat,
            |i: int| None::<Seq<u8>>,
        ),
    }
}

/// The pieces once one more has arrived, if it fits.
pub open spec fn with_part(a: Assembly, index: u32, data: Seq<u8>) -> Assembly {
    if index < a.pieces.len() && data.len() == a.piece_len(index as int) && a.pieces[index as int]
        is None {
        Assembly { pieces: a.pieces.update(index as int, Some(data)), ..a }
    } else {
        a
    }
}

impl Fetching {
    /// The peer's extension handshake, if a frame is one.
    pub open spec fn greeting_in(body: Seq<u8>) -> Option<Seq<u8>> {
        match message_in(body) {
            Ok(Msg::Extended { id, payload }) => if id == 0 {
                Some(payload)
            } else {
                None
            },
            _ => None,
        }
    }

    /// The metadata message in a frame, if it holds one for us.
    pub open spec fn reply_in(body: Seq<u8>) -> Option<MetaMsg> {
        match message_in(body) {
            Ok(Msg::Extended { id, payload }) => if id == OUR_METADATA_ID {
                match metadata::message_in(payload) {
                    Ok(m) => Some(m),
                    Err(_) => None,
                }
            } else {
                None
            },
            _ => None,
        }
    }

    /// After a frame: the next state, and what is sent.
    pub open spec fn taking(self, body: Seq<u8>) -> Result<(Fetching, Seq<u8>), FetchError> {
        match self.parts {
            None => match Fetching::greeting_in(body) {
                None => Ok((self, Seq::empty())),
                Some(payload) => match offer_in(payload) {
                    Err(_) => Err(FetchError::BadHandshake),
                    Ok(o) => match (id_listed(o.ids, UT_METADATA@), o.metadata_size) {
                        (Some(id), Some(size)) => if 0 < size <= MAX_METADATA_SIZE {
                            let a = empty_parts(size);
                            Ok(
                                (
                                    Fetching {
                                        frames: patience(a.pieces.len()),
                                        parts: Some(a),
                                        ..self
                                    },
                                    requests(id, a.pieces.len() as int),
                                ),
                            )
                        } else {
                            Err(FetchError::BadSize)
                        },
                        _ => Err(FetchError::NotServed),
                    },
                },
            },
            Some(a) => match Fetching::reply_in(body) {
                Some(MetaMsg::Data { piece, total_size, data }) => Ok(
                    (Fetching { parts: Some(with_part(a, piece, data)), ..self }, Seq::empty()),
                ),
                Some(MetaMsg::Reject { piece }) => Err(FetchError::Rejected),
                _ => Ok((self, Seq::empty())),
            },
        }
    }

    /// What the metadata is, once it is complete.
    pub open spec fn outcome(self) -> Result<Meta, FetchError> {
        let a = self.parts->Some_0;
        let bytes = a.joined(a.pieces.len() as int);
        if sha1_of(bytes) != self.info_hash {
            Err(FetchError::Unverified)
        } else {
            match info_meta_in(bytes) {
                Ok(m) => Ok(m),
                Err(_) => Err(FetchError::NotAnInfoDict),
            }
        }
    }

    pub open spec fn complete(self) -> bool {
        self.parts matches Some(a) && a.complete()
    }

    /// Why another frame is not waited for, if it is not.
    pub open spec fn gives_up(self, late: bool) -> Option<FetchError> {
        if self.frames == 0 {
            Some(
                if self.parts is None {
                    FetchError::NeverHandshakes
                } else {
                    FetchError::NeverCompletes
                },
            )
        } else if late {
            Some(
                if self.parts is None {
                    FetchError::HandshakeLate
                } else {
                    FetchError::Late
                },
            )
        } else {
            None
        }
    }
}

impl View for MetadataFetch {
    type V = Fetching;

    closed spec fn view(&self) -> Fetching {
        Fetching {
            info_hash: self.info_hash@,
            frames: self.frames,
            parts: match self.stage {
                Stage::Greeting => None,
                Stage::Fetching(a) => Some(a@),
            },
        }
    }
}

// ---------------------------------------------------------------------------
// The operations.

impl MetadataFetch {
    /// Whether the assembly is in order.
    pub closed spec fn inv(self) -> bool {
        match self.stage {
            Stage::Greeting => true,
            Stage::Fetching(a) => a.wf() && a@.wf(),
        }
    }

    /// Our side of the handshake.
    pub fn greeting(info_hash: [u8; 20], peer_id: [u8; 20]) -> (h: Handshake)
        ensures
            h.info_hash == info_hash,
            h.peer_id == peer_id,
            h.extensions.extended,
            !h.extensions.fast,
    {
        Handshake { info_hash, peer_id, extensions: Extensions { extended: true, fast: false } }
    }

    /// Start a fetch with a peer whose handshake has been read. Says what to
    /// send: our extension handshake.
    pub fn begin(info_hash: [u8; 20], theirs: &Handshake) -> (r: Result<
        (MetadataFetch, Vec<u8>),
        FetchError,
    >)
        ensures
            match r {
                Ok((f, send)) => theirs.info_hash@ == info_hash@ && theirs.extensions.extended
                    && f.inv() && f@ == (Fetching {
                    info_hash: info_hash@,
                    frames: METADATA_GREETING_FRAMES,
                    parts: None,
                }) && send@ == frame_of(
                    Msg::Extended {
                        id: 0,
                        payload: encoding(Tree::Dict(root_entries(fetch_offer()))),
                    },
                ),
                Err(FetchError::WrongTorrent) => theirs.info_hash@ != info_hash@,
                Err(e) => e == FetchError::NoExtensions && theirs.info_hash@ == info_hash@
                    && !theirs.extensions.extended,
            },
    {
        if !bytes_eq(theirs.info_hash.as_slice(), info_hash.as_slice()) {
            return Err(FetchError::WrongTorrent);
        }
        if !theirs.extensions.extended {
            return Err(FetchError::NoExtensions);
        }
        let mut ids: Vec<(String, u8)> = Vec::new();
        ids.push((UT_METADATA.to_owned(), OUR_METADATA_ID));
        let offer = extension::Handshake {
            ids,
            metadata_size: None,
            client: Some(CLIENT_NAME.to_owned()),
        };
        proof {
            assert(offer@.ids =~= fetch_offer().ids);
        }
        let msg = Message::Extended { id: 0, payload: offer.encode() };
        let f = MetadataFetch {
            info_hash,
            frames: METADATA_GREETING_FRAMES,
            stage: Stage::Greeting,
        };
        Ok((f, msg.encode()))
    }

    /// What to do next: read another frame, or nothing, because the metadata is
    /// complete and is the torrent. `late` says whether the deadline has
    /// passed.
    pub fn next(&mut self, late: bool) -> (r: Result<Next, FetchError>)
        requires
            old(self).inv(),
        ensures
            final(self).inv(),
            match r {
                Ok(Next::Done(m)) => old(self)@.complete() && old(self)@.outcome() == Ok::<
                    Meta,
                    FetchError,
                >(m@) && final(self)@ == old(self)@,
                Ok(Next::Read) => !old(self)@.complete() && old(self)@.gives_up(late) is None
                    && final(self)@ == (Fetching {
                    frames: (old(self)@.frames - 1) as u32,
                    ..old(self)@
                }),
                Err(e) => if old(self)@.complete() {
                    old(self)@.outcome() == Err::<Meta, FetchError>(e)
                } else {
                    old(self)@.gives_up(late) == Some(e)
                },
            },
            r matches Ok(Next::Done(m)) ==> m@.info_hash == old(self)@.info_hash && sha1_of(
                m@.raw_info,
            ) == old(self)@.info_hash,
    {
        let waiting = match &self.stage {
            Stage::Greeting => true,
            Stage::Fetching(parts) => {
                if parts.is_complete() {
                    return match parts.finish(self.info_hash) {
                        None => Err(FetchError::Unverified),
                        Some(bytes) => match MetaInfo::from_info_dict(bytes.as_slice()) {
                            Ok(m) => Ok(Next::Done(m)),
                            Err(_) => Err(FetchError::NotAnInfoDict),
                        },
                    };
                }
                false
            },
        };
        if self.frames == 0 {
            return Err(
                if waiting {
                    FetchError::NeverHandshakes
                } else {
                    FetchError::NeverCompletes
                },
            );
        }
        self.frames = self.frames - 1;
        if late {
            return Err(
                if waiting {
                    FetchError::HandshakeLate
                } else {
                    FetchError::Late
                },
            );
        }
        Ok(Next::Read)
    }

    /// The frames that request every piece.
    fn request_all(id: u8, n: u32) -> (out: Vec<u8>)
        ensures
            out@ == requests(id, n as int),
    {
        let mut out: Vec<u8> = Vec::new();
        let mut k: u32 = 0;
        while k < n
            invariant
                k <= n,
                out@ == requests(id, k as int),
            decreases n - k,
        {
            let req = MetadataMessage::Request { piece: k };
            let msg = Message::Extended { id, payload: req.encode() };
            wire::write_message(&mut out, &msg);
            k = k + 1;
        }
        out
    }

    /// Read the peer's extension handshake, and start collecting.
    fn greeted(&mut self, payload: &[u8]) -> (r: Result<Vec<u8>, FetchError>)
        requires
            old(self).inv(),
            old(self)@.parts is None,
        ensures
            final(self).inv(),
            forall|body: Seq<u8>|
                #[trigger] Fetching::greeting_in(body) == Some(payload@) ==> (match r {
                    Ok(send) => old(self)@.taking(body) == Ok::<(Fetching, Seq<u8>), FetchError>(
                        (final(self)@, send@),
                    ),
                    Err(e) => old(self)@.taking(body) == Err::<(Fetching, Seq<u8>), FetchError>(e),
                }),
    {
        let hs = match extension::Handshake::parse(payload) {
            Ok(hs) => hs,
            Err(_) => return Err(FetchError::BadHandshake),
        };
        let id: u8 = match hs.id_for(UT_METADATA) {
            Some(id) => id,
            None => return Err(FetchError::NotServed),
        };
        let size: usize = match hs.metadata_size {
            Some(n) => n,
            None => return Err(FetchError::NotServed),
        };
        let parts = match MetadataAssembler::new(size) {
            Ok(a) => a,
            Err(_) => return Err(FetchError::BadSize),
        };
        let n: u32 = parts.num_pieces();
        proof {
            assert(n <= 512);
            assert(parts@ =~= empty_parts(size));
        }
        self.frames = n * METADATA_FRAME_SLACK + 32;
        self.stage = Stage::Fetching(parts);
        Ok(MetadataFetch::request_all(id, n))
    }

    /// Take a frame. Says what to send in answer, if anything.
    pub fn take(&mut self, body: &[u8]) -> (r: Result<Vec<u8>, FetchError>)
        requires
            old(self).inv(),
        ensures
            final(self).inv(),
            match r {
                Ok(send) => old(self)@.taking(body@) == Ok::<(Fetching, Seq<u8>), FetchError>(
                    (final(self)@, send@),
                ),
                Err(e) => old(self)@.taking(body@) == Err::<(Fetching, Seq<u8>), FetchError>(e),
            },
    {
        let none: Vec<u8> = Vec::new();
        proof {
            assert(none@ =~= Seq::empty());
        }
        let msg = match Message::parse(body) {
            Ok(m) => m,
            Err(_) => return Ok(none),
        };
        let (id, payload) = match msg {
            Message::Extended { id, payload } => (id, payload),
            _ => return Ok(none),
        };
        match &mut self.stage {
            Stage::Greeting => {},
            Stage::Fetching(parts) => {
                if id == OUR_METADATA_ID {
                    match MetadataMessage::parse(payload.as_slice()) {
                        Ok(MetadataMessage::Data { piece, total_size, data }) => {
                            let ghost a = parts@;
                            let _ = parts.add_piece(piece, data.as_slice());
                            proof {
                                assert(parts@ == with_part(a, piece, data@));
                            }
                        },
                        Ok(MetadataMessage::Reject { piece }) => {
                            return Err(FetchError::Rejected);
                        },
                        _ => {},
                    }
                }
                return Ok(none);
            },
        }
        if id != 0 {
            return Ok(none);
        }
        proof {
            assert(Fetching::greeting_in(body@) == Some(payload@));
        }
        self.greeted(payload.as_slice())
    }
}

// ---------------------------------------------------------------------------
// What a fetch promises.

/// How many more frames a peer can make us read.
pub open spec fn frames_left(f: Fetching) -> nat {
    match f.parts {
        None => f.frames as nat + patience(512) as nat,
        Some(_) => f.frames as nat,
    }
}

/// A fetch ends: each frame that is read takes one from what the peer may
/// spend, and no frame gives anything back.
pub proof fn law_fetch_is_bounded(f: Fetching, body: Seq<u8>)
    ensures
        f.frames > 0 ==> frames_left(Fetching { frames: (f.frames - 1) as u32, ..f })
            == frames_left(f) - 1,
        f.taking(body) matches Ok((g, _)) ==> frames_left(g) <= frames_left(f),
        f.frames == 0 ==> f.gives_up(false) is Some,
{
}

/// A fetch yields only the torrent it was started for: the torrent has the
/// info-hash, which is the digest of its `info` dictionary, and which no frame
/// changes. That dictionary is the metadata, whole.
pub proof fn law_fetched_torrent_has_the_hash(f: Fetching, body: Seq<u8>)
    ensures
        f.outcome() matches Ok(m) ==> m.info_hash == f.info_hash && sha1_of(m.raw_info)
            == f.info_hash && m.raw_info == f.parts->Some_0.joined(
            f.parts->Some_0.pieces.len() as int,
        ),
        f.taking(body) matches Ok((g, _)) ==> g.info_hash == f.info_hash,
{
    let a = f.parts->Some_0;
    let bytes = a.joined(a.pieces.len() as int);
    if let Ok(m) = info_meta_in(bytes) {
        law_info_dict_is_taken_whole(bytes, m);
    }
}

/// Whether piece `i` of an assembly is what a peer that holds `raw` answers.
pub open spec fn answered(a: Assembly, raw: Seq<u8>, i: int) -> bool {
    metadata_reply(raw, i as u32) matches MetaMsg::Data { piece, total_size, data } && a.pieces[i]
        == Some(data)
}

proof fn lemma_served_prefix(raw: Seq<u8>, a: Assembly, n: int)
    requires
        0 < raw.len() <= MAX_METADATA_SIZE,
        0 <= n <= a.pieces.len(),
        a.pieces.len() == (raw.len() + METADATA_PIECE_LEN - 1) / (METADATA_PIECE_LEN as int),
        forall|i: int| 0 <= i < n ==> #[trigger] answered(a, raw, i),
    ensures
        a.joined(n) == raw.take(least(n * METADATA_PIECE_LEN, raw.len() as int)),
    decreases n,
{
    if n > 0 {
        lemma_served_prefix(raw, a, n - 1);
        assert(answered(a, raw, n - 1));
        let from = (n - 1) * METADATA_PIECE_LEN;
        let to = least(from + METADATA_PIECE_LEN, raw.len() as int);
        assert(from < raw.len());
        assert(raw.take(from) + raw.subrange(from, to) =~= raw.take(to));
    } else {
        assert(raw.take(0) =~= Seq::empty());
    }
}

/// What a peer that holds the metadata answers, while it does not turn us away
/// for asking too much, is what a fetch needs: every request for a piece is
/// answered with that piece, which the assembly takes, and together they are
/// the metadata.
pub proof fn law_served_metadata_reassembles(raw: Seq<u8>, a: Assembly)
    requires
        0 < raw.len() <= MAX_METADATA_SIZE,
        a.pieces.len() == empty_parts(raw.len() as usize).pieces.len(),
        a.total_size == raw.len(),
    ensures
        forall|i: int|
            0 <= i < a.pieces.len() ==> (metadata_reply(
                raw,
                #[trigger] (i as u32),
            ) matches MetaMsg::Data { piece, total_size, data } && piece == i && total_size
                == raw.len() && data.len() == a.piece_len(i)),
        (forall|i: int| 0 <= i < a.pieces.len() ==> #[trigger] answered(a, raw, i)) ==> a.joined(
            a.pieces.len() as int,
        ) == raw,
{
    let n = a.pieces.len() as int;
    assert(n == (raw.len() + METADATA_PIECE_LEN - 1) / (METADATA_PIECE_LEN as int));
    if forall|i: int| 0 <= i < n ==> #[trigger] answered(a, raw, i) {
        lemma_served_prefix(raw, a, n);
        assert(raw.take(raw.len() as int) =~= raw);
    }
}

/// What a peer's extension handshake leads to. One that does not parse ends the
/// fetch, as does one that names no id for `ut_metadata` or no size, and one
/// whose size is zero or more than 8 MiB. Otherwise there is one place for every
/// 16384 bytes, each of those pieces is asked for under the peer's id, and the
/// peer may spend eight frames for each and 32 more.
pub proof fn law_greeting_starts_the_requests(f: Fetching, body: Seq<u8>, payload: Seq<u8>)
    requires
        f.parts is None,
        message_in(body) == Ok::<Msg, wire::Error>(Msg::Extended { id: 0, payload }),
    ensures
        ({
            let r = f.taking(body);
            let o = offer_in(payload);
            let id = id_listed(o->Ok_0.ids, "ut_metadata"@);
            let size = o->Ok_0.metadata_size;
            let n = (size->Some_0 as int + 16383) / 16384;
            &&& o is Err ==> r == Err::<(Fetching, Seq<u8>), FetchError>(FetchError::BadHandshake)
            &&& o is Ok && (id is None || size is None) ==> r == Err::<
                (Fetching, Seq<u8>),
                FetchError,
            >(FetchError::NotServed)
            &&& o is Ok && id is Some && size is Some && (size->Some_0 == 0 || size->Some_0
                > 8_388_608) ==> r == Err::<(Fetching, Seq<u8>), FetchError>(FetchError::BadSize)
            &&& o is Ok && id is Some && size is Some && 0 < size->Some_0 <= 8_388_608 ==> {
                &&& r is Ok
                &&& r->Ok_0.0.info_hash == f.info_hash
                &&& r->Ok_0.0.frames == 8 * n + 32
                &&& r->Ok_0.0.parts is Some
                &&& r->Ok_0.0.parts->Some_0.total_size == size->Some_0
                &&& r->Ok_0.0.parts->Some_0.pieces.len() == n
                &&& forall|i: int|
                    0 <= i < n ==> (#[trigger] r->Ok_0.0.parts->Some_0.pieces[i]) is None
                &&& r->Ok_0.1 == requests(id->Some_0, n)
            }
        }),
{
    assert(Fetching::greeting_in(body) == Some(payload));
    if let Ok(o) = offer_in(payload) {
        if let Some(size) = o.metadata_size {
            if 0 < size <= 8_388_608 {
                assert((size + 16383) / 16384 <= 512);
            }
        }
    }
}

/// The pieces are asked for one after the other, from the first on.
pub proof fn law_each_piece_is_asked_for(id: u8, n: int)
    requires
        0 <= n < u32::MAX,
    ensures
        requests(id, 0) == Seq::<u8>::empty(),
        requests(id, n + 1) == requests(id, n) + frame_of(
            Msg::Extended { id, payload: message_bytes(MetaMsg::Request { piece: n as u32 }) },
        ),
{
}

/// What a frame does to the pieces. Data under our id goes to its place if that
/// is free and the data has the length of the piece, which is 16384 bytes but
/// for the last; a piece refused ends the fetch; anything else changes nothing.
/// Nothing is sent.
pub proof fn law_arriving_piece_fills_its_place(
    f: Fetching,
    body: Seq<u8>,
    payload: Seq<u8>,
    a: Assembly,
)
    requires
        f.parts == Some(a),
        a.total_size > 0,
        a.pieces.len() == (a.total_size + 16383) / 16384,
        message_in(body) == Ok::<Msg, wire::Error>(Msg::Extended { id: 2, payload }),
    ensures
        metadata::message_in(payload) matches Ok(MetaMsg::Data { piece, total_size, data }) ==> {
            let full = if piece + 1 < a.pieces.len() {
                16384
            } else {
                a.total_size - 16384 * (a.pieces.len() - 1)
            };
            f.taking(body) == Ok::<(Fetching, Seq<u8>), FetchError>(
                (
                    if piece < a.pieces.len() && a.pieces[piece as int] is None && data.len()
                        == full {
                        Fetching {
                            info_hash: f.info_hash,
                            frames: f.frames,
                            parts: Some(
                                Assembly {
                                    total_size: a.total_size,
                                    pieces: a.pieces.update(piece as int, Some(data)),
                                },
                            ),
                        }
                    } else {
                        f
                    },
                    Seq::empty(),
                ),
            )
        },
        metadata::message_in(payload) matches Ok(MetaMsg::Reject { piece }) ==> f.taking(body)
            == Err::<(Fetching, Seq<u8>), FetchError>(FetchError::Rejected),
        !(metadata::message_in(payload) matches Ok(MetaMsg::Data { .. })) && !(
        metadata::message_in(payload) matches Ok(MetaMsg::Reject { .. })) ==> f.taking(body)
            == Ok::<(Fetching, Seq<u8>), FetchError>((f, Seq::empty())),
{
    assert(OUR_METADATA_ID == 2);
    let n = a.pieces.len() as int;
    if let Ok(MetaMsg::Data { piece, total_size, data }) = metadata::message_in(payload) {
        let full = if piece + 1 < n {
            16384
        } else {
            a.total_size - 16384 * (n - 1)
        };
        if piece < n {
            assert(a.piece_len(piece as int) == full);
        }
    }
}

/// A frame that holds nothing for us changes nothing: a message that does not
/// parse or is none of an extension, one under another id than that of the
/// handshake before it has come, and one under another id than our own after.
pub proof fn law_other_frames_are_passed_over(f: Fetching, body: Seq<u8>)
    requires
        match message_in(body) {
            Ok(Msg::Extended { id, payload }) => if f.parts is None {
                id != 0
            } else {
                id != 2
            },
            _ => true,
        },
    ensures
        f.taking(body) == Ok::<(Fetching, Seq<u8>), FetchError>((f, Seq::empty())),
{
    assert(OUR_METADATA_ID == 2);
}

/// A fetch is given up once the peer has no frame left to spend, or else once
/// it is late, by the stage that it is in.
pub proof fn law_when_a_fetch_is_given_up(f: Fetching, late: bool)
    ensures
        f.gives_up(late) == (if f.parts is None {
            if f.frames == 0 {
                Some(FetchError::NeverHandshakes)
            } else if late {
                Some(FetchError::HandshakeLate)
            } else {
                None
            }
        } else {
            if f.frames == 0 {
                Some(FetchError::NeverCompletes)
            } else if late {
                Some(FetchError::Late)
            } else {
                None
            }
        }),
        f.outcome() == Err::<Meta, FetchError>(FetchError::Unverified) <==> sha1_of(
            f.parts->Some_0.joined(f.parts->Some_0.pieces.len() as int),
        ) != f.info_hash,
        fetch_offer().ids == seq![("ut_metadata"@, 2u8)],
        fetch_offer().metadata_size is None,
        fetch_offer().client == Some("clove/0.1"@),
{
}

} // verus!
