//! The peer wire protocol: messages, the extension protocol's framing, and the
//! fast extension, for the I2P dialect. No ports ever appear in these
//! messages; peers are I2P destinations at a lower layer.
//!
//! Message and block lengths are bounded before anything is allocated. When a
//! message is legal, and what it does to choke and interest state, is not
//! decided here; this module only speaks the grammar.
use vstd::prelude::*;
#[allow(unused_imports)]
use vstd::string::*;
use crate::decimal::{decimal_text, push_decimal};
use crate::strings::{bytes_eq, copy_range, push_all};

verus! {

/// The handshake's protocol string.
pub const PROTOCOL: &'static str = "BitTorrent protocol";

/// Standard block size (16 KiB). Requests and piece blocks may not exceed it.
pub const BLOCK_LEN: u32 = 16384;

/// Hard cap on a single message body, guarding allocation against a hostile
/// length prefix.
pub const MAX_MESSAGE_LEN: u32 = 1048576;

/// A contiguous block within a piece: the unit of `request`, `cancel`, and
/// `reject`.
#[derive(Clone, Copy, PartialEq, Eq, Debug)]
pub struct BlockRequest {
    /// Piece index.
    pub index: u32,
    /// Byte offset of the block within the piece.
    pub begin: u32,
    /// Block length in bytes.
    pub length: u32,
}

/// A decoded peer wire message.
#[derive(Clone, PartialEq, Eq, Debug)]
pub enum Message {
    /// Zero-length keep-alive.
    KeepAlive,
    /// Sender will not serve the receiver.
    Choke,
    /// Sender will serve the receiver.
    Unchoke,
    /// Receiver has pieces the sender wants.
    Interested,
    /// Receiver has nothing the sender wants.
    NotInterested,
    /// Sender now has piece `index`.
    Have(u32),
    /// Sender's complete piece set.
    Bitfield(Vec<u8>),
    /// Please send this block.
    Request(BlockRequest),
    /// A block of piece data.
    Piece {
        /// Piece index.
        index: u32,
        /// Offset within the piece.
        begin: u32,
        /// The block bytes.
        block: Vec<u8>,
    },
    /// Withdraw an earlier request.
    Cancel(BlockRequest),
    /// Sender has every piece.
    HaveAll,
    /// Sender has no pieces.
    HaveNone,
    /// Sender suggests the receiver download this piece.
    SuggestPiece(u32),
    /// Sender refuses a request it will not serve.
    RejectRequest(BlockRequest),
    /// Receiver may request this piece even while choked.
    AllowedFast(u32),
    /// Extended message: sub-id 0 is the extension handshake, other ids are
    /// negotiated per session.
    Extended {
        /// Extended message sub-id (0 = handshake).
        id: u8,
        /// Bencoded (handshake) or extension-defined payload.
        payload: Vec<u8>,
    },
}

/// Why a message could not be parsed.
#[derive(Clone, Copy, Debug, PartialEq, Eq)]
pub enum Error {
    /// The message id is not one clove speaks.
    UnknownId(u8),
    /// A fixed-layout message had the wrong body length.
    BadLength,
    /// A request/piece block length exceeds [`BLOCK_LEN`].
    BlockTooLarge,
}

/// Why a frame could not be read.
#[derive(Clone, Copy, Debug, PartialEq, Eq)]
pub enum FrameError {
    /// The declared length exceeds what the reader accepts.
    Oversized,
    /// The input ended before the frame did.
    Truncated,
}

pub const ID_CHOKE: u8 = 0;

pub const ID_UNCHOKE: u8 = 1;

pub const ID_INTERESTED: u8 = 2;

pub const ID_NOT_INTERESTED: u8 = 3;

pub const ID_HAVE: u8 = 4;

pub const ID_BITFIELD: u8 = 5;

pub const ID_REQUEST: u8 = 6;

pub const ID_PIECE: u8 = 7;

pub const ID_CANCEL: u8 = 8;

pub const ID_SUGGEST: u8 = 13;

pub const ID_HAVE_ALL: u8 = 14;

pub const ID_HAVE_NONE: u8 = 15;

pub const ID_REJECT: u8 = 16;

pub const ID_ALLOWED_FAST: u8 = 17;

pub const ID_EXTENDED: u8 = 20;

// ---------------------------------------------------------------------------
// The model.

/// What a [`Message`] stands for.
#[verifier::ext_equal]
pub enum Msg {
    KeepAlive,
    Choke,
    Unchoke,
    Interested,
    NotInterested,
    Have(u32),
    Bitfield(Seq<u8>),
    Request(BlockRequest),
    Piece { index: u32, begin: u32, block: Seq<u8> },
    Cancel(BlockRequest),
    HaveAll,
    HaveNone,
    SuggestPiece(u32),
    RejectRequest(BlockRequest),
    AllowedFast(u32),
    Extended { id: u8, payload: Seq<u8> },
}

impl View for Message {
    type V = Msg;

    open spec fn view(&self) -> Msg {
        match *self {
            Message::KeepAlive => Msg::KeepAlive,
            Message::Choke => Msg::Choke,
            Message::Unchoke => Msg::Unchoke,
            Message::Interested => Msg::Interested,
            Message::NotInterested => Msg::NotInterested,
            Message::Have(i) => Msg::Have(i),
            Message::Bitfield(b) => Msg::Bitfield(b@),
            Message::Request(r) => Msg::Request(r),
            Message::Piece { index, begin, block } => Msg::Piece { index, begin, block: block@ },
            Message::Cancel(r) => Msg::Cancel(r),
            Message::HaveAll => Msg::HaveAll,
            Message::HaveNone => Msg::HaveNone,
            Message::SuggestPiece(i) => Msg::SuggestPiece(i),
            Message::RejectRequest(r) => Msg::RejectRequest(r),
            Message::AllowedFast(i) => Msg::AllowedFast(i),
            Message::Extended { id, payload } => Msg::Extended { id, payload: payload@ },
        }
    }
}

/// A number as four bytes, most significant first.
#[verifier::opaque]
pub open spec fn be32(n: u32) -> Seq<u8> {
    seq![
        (n / 0x100_0000) as u8,
        (n / 0x1_0000 % 0x100) as u8,
        (n / 0x100 % 0x100) as u8,
        (n % 0x100) as u8,
    ]
}

/// The number that four bytes at a position stand for.
#[verifier::opaque]
pub open spec fn u32_of(s: Seq<u8>, at: int) -> u32 {
    (s[at] * 0x100_0000 + s[at + 1] * 0x1_0000 + s[at + 2] * 0x100 + s[at + 3]) as u32
}

/// A block request on the wire.
pub open spec fn block_body(r: BlockRequest) -> Seq<u8> {
    be32(r.index) + be32(r.begin) + be32(r.length)
}

/// A message's body on the wire: its id and what belongs to it.
pub open spec fn body_of(m: Msg) -> Seq<u8> {
    match m {
        Msg::KeepAlive => Seq::empty(),
        Msg::Choke => seq![ID_CHOKE],
        Msg::Unchoke => seq![ID_UNCHOKE],
        Msg::Interested => seq![ID_INTERESTED],
        Msg::NotInterested => seq![ID_NOT_INTERESTED],
        Msg::Have(i) => seq![ID_HAVE] + be32(i),
        Msg::Bitfield(b) => seq![ID_BITFIELD] + b,
        Msg::Request(r) => seq![ID_REQUEST] + block_body(r),
        Msg::Piece { index, begin, block } => seq![ID_PIECE] + be32(index) + be32(begin) + block,
        Msg::Cancel(r) => seq![ID_CANCEL] + block_body(r),
        Msg::HaveAll => seq![ID_HAVE_ALL],
        Msg::HaveNone => seq![ID_HAVE_NONE],
        Msg::SuggestPiece(i) => seq![ID_SUGGEST] + be32(i),
        Msg::RejectRequest(r) => seq![ID_REJECT] + block_body(r),
        Msg::AllowedFast(i) => seq![ID_ALLOWED_FAST] + be32(i),
        Msg::Extended { id, payload } => seq![ID_EXTENDED, id] + payload,
    }
}

/// The length that a frame declares for a body.
pub open spec fn declared_len(body: Seq<u8>) -> u32 {
    if body.len() <= u32::MAX {
        body.len() as u32
    } else {
        u32::MAX
    }
}

/// A message's frame: the length of its body, and its body.
pub open spec fn frame_of(m: Msg) -> Seq<u8> {
    be32(declared_len(body_of(m))) + body_of(m)
}

/// A message without a body, if nothing follows its id.
pub open spec fn bare(s: Seq<u8>, m: Msg) -> Result<Msg, Error> {
    if s.len() == 1 {
        Ok(m)
    } else {
        Err(Error::BadLength)
    }
}

/// The number after the id, if it is all that follows.
pub open spec fn index_in(s: Seq<u8>) -> Result<u32, Error> {
    if s.len() == 5 {
        Ok(u32_of(s, 1))
    } else {
        Err(Error::BadLength)
    }
}

/// The block request after the id, if it is all that follows and no longer
/// than a block.
pub open spec fn request_in(s: Seq<u8>) -> Result<BlockRequest, Error> {
    if s.len() != 13 {
        Err(Error::BadLength)
    } else if u32_of(s, 9) > BLOCK_LEN {
        Err(Error::BlockTooLarge)
    } else {
        Ok(BlockRequest { index: u32_of(s, 1), begin: u32_of(s, 5), length: u32_of(s, 9) })
    }
}

/// The message that a body stands for.
pub open spec fn message_in(s: Seq<u8>) -> Result<Msg, Error> {
    if s.len() == 0 {
        Ok(Msg::KeepAlive)
    } else if s[0] == ID_CHOKE {
        bare(s, Msg::Choke)
    } else if s[0] == ID_UNCHOKE {
        bare(s, Msg::Unchoke)
    } else if s[0] == ID_INTERESTED {
        bare(s, Msg::Interested)
    } else if s[0] == ID_NOT_INTERESTED {
        bare(s, Msg::NotInterested)
    } else if s[0] == ID_HAVE {
        match index_in(s) {
            Ok(i) => Ok(Msg::Have(i)),
            Err(e) => Err(e),
        }
    } else if s[0] == ID_BITFIELD {
        Ok(Msg::Bitfield(s.skip(1)))
    } else if s[0] == ID_REQUEST {
        match request_in(s) {
            Ok(r) => Ok(Msg::Request(r)),
            Err(e) => Err(e),
        }
    } else if s[0] == ID_CANCEL {
        match request_in(s) {
            Ok(r) => Ok(Msg::Cancel(r)),
            Err(e) => Err(e),
        }
    } else if s[0] == ID_PIECE {
        if s.len() < 9 {
            Err(Error::BadLength)
        } else if s.len() - 9 > BLOCK_LEN {
            Err(Error::BlockTooLarge)
        } else {
            Ok(Msg::Piece { index: u32_of(s, 1), begin: u32_of(s, 5), block: s.skip(9) })
        }
    } else if s[0] == ID_SUGGEST {
        match index_in(s) {
            Ok(i) => Ok(Msg::SuggestPiece(i)),
            Err(e) => Err(e),
        }
    } else if s[0] == ID_HAVE_ALL {
        bare(s, Msg::HaveAll)
    } else if s[0] == ID_HAVE_NONE {
        bare(s, Msg::HaveNone)
    } else if s[0] == ID_REJECT {
        match request_in(s) {
            Ok(r) => Ok(Msg::RejectRequest(r)),
            Err(e) => Err(e),
        }
    } else if s[0] == ID_ALLOWED_FAST {
        match index_in(s) {
            Ok(i) => Ok(Msg::AllowedFast(i)),
            Err(e) => Err(e),
        }
    } else if s[0] == ID_EXTENDED {
        if s.len() < 2 {
            Err(Error::BadLength)
        } else {
            Ok(Msg::Extended { id: s[1], payload: s.skip(2) })
        }
    } else {
        Err(Error::UnknownId(s[0]))
    }
}

/// Whether a message asks for or carries no more than a block.
pub open spec fn within_block(m: Msg) -> bool {
    match m {
        Msg::Request(r) => r.length <= BLOCK_LEN,
        Msg::Cancel(r) => r.length <= BLOCK_LEN,
        Msg::RejectRequest(r) => r.length <= BLOCK_LEN,
        Msg::Piece { index, begin, block } => block.len() <= BLOCK_LEN,
        _ => true,
    }
}

/// The longest body a reader with ceiling `max` accepts.
pub open spec fn body_ceiling(max: u32) -> u32 {
    if max < MAX_MESSAGE_LEN {
        max
    } else {
        MAX_MESSAGE_LEN
    }
}

/// The body of the frame that starts at `pos`, and the position after it.
pub open spec fn frame_at(s: Seq<u8>, pos: int, max: u32) -> Result<(Seq<u8>, int), FrameError> {
    if pos + 4 > s.len() {
        Err(FrameError::Truncated)
    } else if u32_of(s, pos) > body_ceiling(max) {
        Err(FrameError::Oversized)
    } else if pos + 4 + u32_of(s, pos) > s.len() {
        Err(FrameError::Truncated)
    } else {
        Ok((s.subrange(pos + 4, pos + 4 + u32_of(s, pos)), pos + 4 + u32_of(s, pos)))
    }
}

// ---------------------------------------------------------------------------
// Numbers.

fn put_u32(out: &mut Vec<u8>, n: u32)
    ensures
        final(out)@ == old(out)@ + be32(n),
{
    let ghost before = out@;
    out.push((n / 0x100_0000) as u8);
    out.push((n / 0x1_0000 % 0x100) as u8);
    out.push((n / 0x100 % 0x100) as u8);
    out.push((n % 0x100) as u8);
    proof {
        reveal(be32);
        assert(out@ =~= before + be32(n));
    }
}

fn read_u32(s: &[u8], at: usize) -> (n: u32)
    requires
        at + 4 <= s@.len(),
    ensures
        n == u32_of(s@, at as int),
{
    proof {
        reveal(u32_of);
    }
    s[at] as u32 * 0x100_0000 + s[at + 1] as u32 * 0x1_0000 + s[at + 2] as u32 * 0x100
        + s[at + 3] as u32
}

/// Four bytes and the number they stand for determine each other.
proof fn lemma_be32(n: u32, s: Seq<u8>, at: int)
    requires
        0 <= at,
        at + 4 <= s.len(),
        s.subrange(at, at + 4) == be32(n),
    ensures
        u32_of(s, at) == n,
{
    reveal(be32);
    reveal(u32_of);
    assert(s.subrange(at, at + 4)[0] == s[at]);
    assert(s.subrange(at, at + 4)[1] == s[at + 1]);
    assert(s.subrange(at, at + 4)[2] == s[at + 2]);
    assert(s.subrange(at, at + 4)[3] == s[at + 3]);
}

proof fn lemma_u32_of(s: Seq<u8>, at: int)
    requires
        0 <= at,
        at + 4 <= s.len(),
    ensures
        be32(u32_of(s, at)) == s.subrange(at, at + 4),
{
    reveal(be32);
    reveal(u32_of);
    lemma_four_digits(s[at] as int, s[at + 1] as int, s[at + 2] as int, s[at + 3] as int);
    assert(be32(u32_of(s, at)) =~= s.subrange(at, at + 4));
}

proof fn lemma_four_digits(a: int, b: int, c: int, d: int)
    requires
        0 <= a < 256,
        0 <= b < 256,
        0 <= c < 256,
        0 <= d < 256,
    ensures
        ({
            let n = a * 0x100_0000 + b * 0x1_0000 + c * 0x100 + d;
            &&& 0 <= n <= u32::MAX
            &&& n / 0x100_0000 == a
            &&& n / 0x1_0000 % 0x100 == b
            &&& n / 0x100 % 0x100 == c
            &&& n % 0x100 == d
        }),
{
    let n = a * 0x100_0000 + b * 0x1_0000 + c * 0x100 + d;
    assert(n / 0x100 == a * 0x1_0000 + b * 0x100 + c);
    assert(n / 0x1_0000 == a * 0x100 + b);
    assert(n / 0x100_0000 == a);
}

proof fn lemma_be32_len(n: u32)
    ensures
        be32(n).len() == 4,
{
    reveal(be32);
}

// ---------------------------------------------------------------------------
// Messages.

impl Message {
    /// Parse a message from its body (everything after the 4-byte length
    /// prefix). An empty body is a keep-alive.
    pub fn parse(body: &[u8]) -> (r: Result<Message, Error>)
        ensures
            match r {
                Ok(m) => message_in(body@) == Ok::<Msg, Error>(m@),
                Err(e) => message_in(body@) == Err::<Msg, Error>(e),
            },
    {
        if body.len() == 0 {
            return Ok(Message::KeepAlive);
        }
        let id: u8 = body[0];
        if id == ID_CHOKE {
            empty(body, Message::Choke)
        } else if id == ID_UNCHOKE {
            empty(body, Message::Unchoke)
        } else if id == ID_INTERESTED {
            empty(body, Message::Interested)
        } else if id == ID_NOT_INTERESTED {
            empty(body, Message::NotInterested)
        } else if id == ID_HAVE {
            match u32_at(body) {
                Ok(i) => Ok(Message::Have(i)),
                Err(e) => Err(e),
            }
        } else if id == ID_BITFIELD {
            let rest = copy_range(body, 1, body.len());
            proof {
                assert(rest@ =~= body@.skip(1));
            }
            Ok(Message::Bitfield(rest))
        } else if id == ID_REQUEST {
            match block_request(body) {
                Ok(r) => Ok(Message::Request(r)),
                Err(e) => Err(e),
            }
        } else if id == ID_CANCEL {
            match block_request(body) {
                Ok(r) => Ok(Message::Cancel(r)),
                Err(e) => Err(e),
            }
        } else if id == ID_PIECE {
            if body.len() < 9 {
                return Err(Error::BadLength);
            }
            if body.len() - 9 > BLOCK_LEN as usize {
                return Err(Error::BlockTooLarge);
            }
            let block = copy_range(body, 9, body.len());
            proof {
                assert(block@ =~= body@.skip(9));
            }
            Ok(Message::Piece { index: read_u32(body, 1), begin: read_u32(body, 5), block })
        } else if id == ID_SUGGEST {
            match u32_at(body) {
                Ok(i) => Ok(Message::SuggestPiece(i)),
                Err(e) => Err(e),
            }
        } else if id == ID_HAVE_ALL {
            empty(body, Message::HaveAll)
        } else if id == ID_HAVE_NONE {
            empty(body, Message::HaveNone)
        } else if id == ID_REJECT {
            match block_request(body) {
                Ok(r) => Ok(Message::RejectRequest(r)),
                Err(e) => Err(e),
            }
        } else if id == ID_ALLOWED_FAST {
            match u32_at(body) {
                Ok(i) => Ok(Message::AllowedFast(i)),
                Err(e) => Err(e),
            }
        } else if id == ID_EXTENDED {
            if body.len() < 2 {
                return Err(Error::BadLength);
            }
            let payload = copy_range(body, 2, body.len());
            proof {
                assert(payload@ =~= body@.skip(2));
            }
            Ok(Message::Extended { id: body[1], payload })
        } else {
            Err(Error::UnknownId(id))
        }
    }

    /// Append the full on-wire frame (4-byte big-endian length prefix and
    /// body) to `out`.
    pub fn encode_into(&self, out: &mut Vec<u8>)
        ensures
            final(out)@ == old(out)@ + frame_of(self@),
    {
        let ghost before = out@;
        let mut body: Vec<u8> = Vec::new();
        match self {
            Message::KeepAlive => {},
            Message::Choke => body.push(ID_CHOKE),
            Message::Unchoke => body.push(ID_UNCHOKE),
            Message::Interested => body.push(ID_INTERESTED),
            Message::NotInterested => body.push(ID_NOT_INTERESTED),
            Message::Have(index) => {
                body.push(ID_HAVE);
                put_u32(&mut body, *index);
            },
            Message::Bitfield(bits) => {
                body.push(ID_BITFIELD);
                push_all(&mut body, bits.as_slice());
            },
            Message::Request(b) => put_block(&mut body, ID_REQUEST, *b),
            Message::Cancel(b) => put_block(&mut body, ID_CANCEL, *b),
            Message::Piece { index, begin, block } => {
                body.push(ID_PIECE);
                put_u32(&mut body, *index);
                put_u32(&mut body, *begin);
                push_all(&mut body, block.as_slice());
            },
            Message::SuggestPiece(index) => {
                body.push(ID_SUGGEST);
                put_u32(&mut body, *index);
            },
            Message::HaveAll => body.push(ID_HAVE_ALL),
            Message::HaveNone => body.push(ID_HAVE_NONE),
            Message::RejectRequest(b) => put_block(&mut body, ID_REJECT, *b),
            Message::AllowedFast(index) => {
                body.push(ID_ALLOWED_FAST);
                put_u32(&mut body, *index);
            },
            Message::Extended { id, payload } => {
                body.push(ID_EXTENDED);
                body.push(*id);
                push_all(&mut body, payload.as_slice());
            },
        }
        proof {
            assert(body@ =~= body_of(self@));
        }
        let len: u32 = if body.len() <= u32::MAX as usize {
            body.len() as u32
        } else {
            u32::MAX
        };
        put_u32(out, len);
        push_all(out, body.as_slice());
        proof {
            assert(out@ =~= before + frame_of(self@));
        }
    }

    /// The full on-wire frame as a fresh buffer.
    pub fn encode(&self) -> (out: Vec<u8>)
        ensures
            out@ == frame_of(self@),
    {
        let mut out: Vec<u8> = Vec::new();
        self.encode_into(&mut out);
        proof {
            assert(out@ =~= frame_of(self@));
        }
        out
    }
}

fn empty(body: &[u8], msg: Message) -> (r: Result<Message, Error>)
    requires
        body@.len() > 0,
    ensures
        match r {
            Ok(m) => bare(body@, msg@) == Ok::<Msg, Error>(m@),
            Err(e) => bare(body@, msg@) == Err::<Msg, Error>(e),
        },
{
    if body.len() == 1 {
        Ok(msg)
    } else {
        Err(Error::BadLength)
    }
}

fn u32_at(body: &[u8]) -> (r: Result<u32, Error>)
    ensures
        r == index_in(body@),
{
    if body.len() == 5 {
        Ok(read_u32(body, 1))
    } else {
        Err(Error::BadLength)
    }
}

fn block_request(body: &[u8]) -> (r: Result<BlockRequest, Error>)
    ensures
        r == request_in(body@),
{
    if body.len() != 13 {
        return Err(Error::BadLength);
    }
    let length: u32 = read_u32(body, 9);
    if length > BLOCK_LEN {
        return Err(Error::BlockTooLarge);
    }
    Ok(BlockRequest { index: read_u32(body, 1), begin: read_u32(body, 5), length })
}

fn put_block(out: &mut Vec<u8>, id: u8, b: BlockRequest)
    ensures
        final(out)@ == old(out)@ + (seq![id] + block_body(b)),
{
    let ghost before = out@;
    out.push(id);
    put_u32(out, b.index);
    put_u32(out, b.begin);
    put_u32(out, b.length);
    proof {
        assert(out@ =~= before + (seq![id] + block_body(b)));
    }
}

impl Error {
    /// What was wrong, in words.
    pub fn message(&self) -> (r: String)
        ensures
            r@ == (match *self {
                Error::UnknownId(id) => "wire: unknown message id "@ + decimal_text(id as nat),
                Error::BadLength => "wire: message body has the wrong length"@,
                Error::BlockTooLarge => "wire: block length exceeds the 16 KiB cap"@,
            }),
    {
        match self {
            Error::UnknownId(id) => {
                let mut s = "wire: unknown message id ".to_owned();
                push_decimal(&mut s, *id as u64);
                s
            },
            Error::BadLength => "wire: message body has the wrong length".to_owned(),
            Error::BlockTooLarge => "wire: block length exceeds the 16 KiB cap".to_owned(),
        }
    }
}

// ---------------------------------------------------------------------------
// Frames.

/// Bytes to read frames from, and how far reading has come.
pub struct FrameSource {
    pub bytes: Vec<u8>,
    pub pos: usize,
}

impl FrameSource {
    /// A source that starts at the first of `bytes`.
    pub fn new(bytes: Vec<u8>) -> (s: FrameSource)
        ensures
            s.bytes == bytes,
            s.pos == 0,
    {
        FrameSource { bytes, pos: 0 }
    }
}

/// The body length that a frame's prefix declares, if it is one the reader
/// accepts. Checked before anything of that size is allocated.
pub fn declared_length(prefix: &[u8], max_len: u32) -> (r: Result<u32, FrameError>)
    requires
        prefix@.len() == 4,
    ensures
        r == (if u32_of(prefix@, 0) > body_ceiling(max_len) {
            Err::<u32, FrameError>(FrameError::Oversized)
        } else {
            Ok(u32_of(prefix@, 0))
        }),
{
    let len: u32 = read_u32(prefix, 0);
    let ceiling: u32 = if max_len < MAX_MESSAGE_LEN {
        max_len
    } else {
        MAX_MESSAGE_LEN
    };
    if len > ceiling {
        Err(FrameError::Oversized)
    } else {
        Ok(len)
    }
}

/// Read one message frame: the 4-byte length prefix followed by that many
/// bytes, returned as the body (empty body = keep-alive).
///
/// `max_len` bounds the declared length; it is never taken to be more than
/// [`MAX_MESSAGE_LEN`].
pub fn read_frame(reader: &mut FrameSource, max_len: u32) -> (r: Result<Vec<u8>, FrameError>)
    requires
        old(reader).pos <= old(reader).bytes@.len(),
    ensures
        final(reader).bytes@ == old(reader).bytes@,
        final(reader).pos <= final(reader).bytes@.len(),
        match r {
            Ok(body) => frame_at(old(reader).bytes@, old(reader).pos as int, max_len) == Ok::<
                (Seq<u8>, int),
                FrameError,
            >((body@, final(reader).pos as int)),
            Err(e) => frame_at(old(reader).bytes@, old(reader).pos as int, max_len) == Err::<
                (Seq<u8>, int),
                FrameError,
            >(e) && final(reader).pos == old(reader).pos,
        },
{
    let mut body: Vec<u8> = Vec::new();
    match read_frame_into(reader, max_len, &mut body) {
        Ok(()) => Ok(body),
        Err(e) => Err(e),
    }
}

/// [`read_frame`] into a caller-owned buffer, which afterwards holds the
/// frame's body and nothing of what it held before. A frame that cannot be
/// read leaves the buffer and the source as they were.
pub fn read_frame_into(reader: &mut FrameSource, max_len: u32, body: &mut Vec<u8>) -> (r: Result<
    (),
    FrameError,
>)
    requires
        old(reader).pos <= old(reader).bytes@.len(),
    ensures
        final(reader).bytes@ == old(reader).bytes@,
        final(reader).pos <= final(reader).bytes@.len(),
        match r {
            Ok(()) => frame_at(old(reader).bytes@, old(reader).pos as int, max_len) == Ok::<
                (Seq<u8>, int),
                FrameError,
            >((final(body)@, final(reader).pos as int)),
            Err(e) => frame_at(old(reader).bytes@, old(reader).pos as int, max_len) == Err::<
                (Seq<u8>, int),
                FrameError,
            >(e) && final(reader).pos == old(reader).pos && final(body)@ == old(body)@,
        },
{
    let pos: usize = reader.pos;
    if reader.bytes.len() - pos < 4 {
        return Err(FrameError::Truncated);
    }
    let prefix = copy_range(reader.bytes.as_slice(), pos, pos + 4);
    proof {
        assert(u32_of(prefix@, 0) == u32_of(reader.bytes@, pos as int)) by {
            reveal(u32_of);
        }
    }
    let len: u32 = match declared_length(prefix.as_slice(), max_len) {
        Ok(n) => n,
        Err(e) => return Err(e),
    };
    if reader.bytes.len() - pos - 4 < len as usize {
        return Err(FrameError::Truncated);
    }
    let end: usize = pos + 4 + len as usize;
    body.clear();
    push_all(body, vstd::slice::slice_subrange(reader.bytes.as_slice(), pos + 4, end));
    proof {
        assert(body@ =~= reader.bytes@.subrange(pos + 4, end as int));
    }
    reader.pos = end;
    Ok(())
}

/// Encode one message frame onto the end of `writer`.
pub fn write_message(writer: &mut Vec<u8>, msg: &Message)
    ensures
        final(writer)@ == old(writer)@ + frame_of(msg@),
{
    msg.encode_into(writer);
}

// ---------------------------------------------------------------------------
// The handshake.

/// The handshake, including negotiated extension bits.
#[derive(Clone, Copy, PartialEq, Eq, Debug)]
pub struct Handshake {
    /// The torrent's info-hash.
    pub info_hash: [u8; 20],
    /// The sender's 20-byte peer id.
    pub peer_id: [u8; 20],
    /// Extension protocol bits the sender advertises.
    pub extensions: Extensions,
}

/// Extension bits carried in the handshake's reserved field.
#[derive(Clone, Copy, PartialEq, Eq, Debug)]
pub struct Extensions {
    /// Extension protocol supported.
    pub extended: bool,
    /// Fast extension supported.
    pub fast: bool,
}

impl Default for Extensions {
    fn default() -> (e: Extensions)
        ensures
            e == (Extensions { extended: false, fast: false }),
    {
        Extensions { extended: false, fast: false }
    }
}

/// Why a handshake was rejected.
#[derive(Clone, Copy, Debug, PartialEq, Eq)]
pub enum HandshakeError {
    /// Length byte or protocol string was not the `BitTorrent` handshake.
    BadProtocol,
}

impl HandshakeError {
    /// What was wrong, in words.
    pub fn message(&self) -> (r: String)
        ensures
            r@ == "wire: not a BitTorrent handshake"@,
    {
        "wire: not a BitTorrent handshake".to_owned()
    }
}

/// Full length of a handshake on the wire: 1 + 19 + 8 + 20 + 20.
pub const HANDSHAKE_LEN: usize = 68;

/// The reserved field that advertises extensions.
pub open spec fn reserved_of(e: Extensions) -> Seq<u8> {
    seq![
        0u8,
        0u8,
        0u8,
        0u8,
        0u8,
        if e.extended {
            0x10u8
        } else {
            0u8
        },
        0u8,
        if e.fast {
            0x04u8
        } else {
            0u8
        },
    ]
}

/// A handshake on the wire.
pub open spec fn handshake_bytes(h: Handshake) -> Seq<u8> {
    seq![19u8] + PROTOCOL.spec_bytes() + reserved_of(h.extensions) + h.info_hash@ + h.peer_id@
}

/// Whether the bytes start as a handshake does.
pub open spec fn speaks_protocol(s: Seq<u8>) -> bool {
    s[0] == 19 && s.subrange(1, 20) == PROTOCOL.spec_bytes()
}

/// Whether `h` is what a 68-byte handshake says.
pub open spec fn handshake_says(s: Seq<u8>, h: Handshake) -> bool {
    &&& h.info_hash@ == s.subrange(28, 48)
    &&& h.peer_id@ == s.subrange(48, 68)
    &&& h.extensions.fast == (s[27] & 0x04 != 0)
    &&& h.extensions.extended == (s[25] & 0x10 != 0)
}

proof fn lemma_protocol()
    ensures
        PROTOCOL.spec_bytes().len() == 19,
{
    reveal_strlit("BitTorrent protocol");
    assert(PROTOCOL.is_ascii());
}

fn copy20(s: &[u8], at: usize) -> (out: [u8; 20])
    requires
        at + 20 <= s@.len(),
    ensures
        out@ == s@.subrange(at as int, at + 20),
{
    let mut out: [u8; 20] = [0u8; 20];
    let mut i: usize = 0;
    while i < 20
        invariant
            i <= 20,
            at + 20 <= s.len(),
            forall|j: int| 0 <= j < i ==> #[trigger] out@[j] == s@[at + j],
        decreases 20 - i,
    {
        out[i] = s[at + i];
        i = i + 1;
    }
    proof {
        assert(out@ =~= s@.subrange(at as int, at + 20));
    }
    out
}

impl Handshake {
    /// Serialize the 68-byte handshake.
    pub fn encode(&self) -> (out: [u8; HANDSHAKE_LEN])
        ensures
            out@ == handshake_bytes(*self),
    {
        proof {
            lemma_protocol();
        }
        let mut bytes: Vec<u8> = Vec::new();
        bytes.push(19);
        push_all(&mut bytes, PROTOCOL.as_bytes());
        let mut reserved: [u8; 8] = [0u8; 8];
        if self.extensions.fast {
            reserved[7] = 0x04;
        }
        if self.extensions.extended {
            reserved[5] = 0x10;
        }
        push_all(&mut bytes, reserved.as_slice());
        push_all(&mut bytes, self.info_hash.as_slice());
        push_all(&mut bytes, self.peer_id.as_slice());
        proof {
            assert(reserved@ =~= reserved_of(self.extensions));
            assert(bytes@ =~= handshake_bytes(*self));
        }
        let mut out: [u8; 68] = [0u8; 68];
        let mut i: usize = 0;
        while i < HANDSHAKE_LEN
            invariant
                i <= HANDSHAKE_LEN,
                bytes@.len() == HANDSHAKE_LEN,
                forall|j: int| 0 <= j < i ==> #[trigger] out@[j] == bytes@[j],
            decreases HANDSHAKE_LEN - i,
        {
            out[i] = bytes[i];
            i = i + 1;
        }
        proof {
            assert(out@ =~= bytes@);
        }
        out
    }

    /// Parse a 68-byte handshake.
    pub fn parse(buf: &[u8; HANDSHAKE_LEN]) -> (r: Result<Handshake, HandshakeError>)
        ensures
            match r {
                Ok(h) => speaks_protocol(buf@) && handshake_says(buf@, h),
                Err(_) => !speaks_protocol(buf@),
            },
    {
        let s = buf.as_slice();
        if s[0] != 19 || !bytes_eq(
            vstd::slice::slice_subrange(s, 1, 20),
            PROTOCOL.as_bytes(),
        ) {
            return Err(HandshakeError::BadProtocol);
        }
        Ok(
            Handshake {
                info_hash: copy20(s, 28),
                peer_id: copy20(s, 48),
                extensions: Extensions {
                    fast: s[27] & 0x04 != 0,
                    extended: s[25] & 0x10 != 0,
                },
            },
        )
    }
}

// ---------------------------------------------------------------------------
// What reading and writing owe each other.

/// Every message within the block size is read back from its body.
pub proof fn law_parse_inverts_encode(m: Msg)
    requires
        within_block(m),
    ensures
        message_in(body_of(m)) == Ok::<Msg, Error>(m),
{
    let s = body_of(m);
    match m {
        Msg::Have(i) => {
            lemma_be32_len(i);
            assert(s.subrange(1, 5) =~= be32(i));
            lemma_be32(i, s, 1);
        },
        Msg::SuggestPiece(i) => {
            lemma_be32_len(i);
            assert(s.subrange(1, 5) =~= be32(i));
            lemma_be32(i, s, 1);
        },
        Msg::AllowedFast(i) => {
            lemma_be32_len(i);
            assert(s.subrange(1, 5) =~= be32(i));
            lemma_be32(i, s, 1);
        },
        Msg::Bitfield(b) => {
            assert(s.skip(1) =~= b);
        },
        Msg::Request(r) => {
            lemma_block_body(r, s);
        },
        Msg::Cancel(r) => {
            lemma_block_body(r, s);
        },
        Msg::RejectRequest(r) => {
            lemma_block_body(r, s);
        },
        Msg::Piece { index, begin, block } => {
            lemma_be32_len(index);
            lemma_be32_len(begin);
            assert(s.subrange(1, 5) =~= be32(index));
            assert(s.subrange(5, 9) =~= be32(begin));
            lemma_be32(index, s, 1);
            lemma_be32(begin, s, 5);
            assert(s.skip(9) =~= block);
        },
        Msg::Extended { id, payload } => {
            assert(s.skip(2) =~= payload);
        },
        _ => {},
    }
}

proof fn lemma_block_body(r: BlockRequest, s: Seq<u8>)
    requires
        s.len() > 0,
        s == seq![s[0]] + block_body(r),
    ensures
        s.len() == 13,
        u32_of(s, 1) == r.index,
        u32_of(s, 5) == r.begin,
        u32_of(s, 9) == r.length,
{
    lemma_be32_len(r.index);
    lemma_be32_len(r.begin);
    lemma_be32_len(r.length);
    let b = block_body(r);
    assert(s.subrange(1, 5) =~= b.subrange(0, 4));
    assert(b.subrange(0, 4) =~= be32(r.index));
    assert(s.subrange(5, 9) =~= b.subrange(4, 8));
    assert(b.subrange(4, 8) =~= be32(r.begin));
    assert(s.subrange(9, 13) =~= b.subrange(8, 12));
    assert(b.subrange(8, 12) =~= be32(r.length));
    lemma_be32(r.index, s, 1);
    lemma_be32(r.begin, s, 5);
    lemma_be32(r.length, s, 9);
}

/// Every body that parses is the body of the message it parses to: a message
/// has one spelling.
pub proof fn law_encode_inverts_parse(s: Seq<u8>, m: Msg)
    requires
        message_in(s) == Ok::<Msg, Error>(m),
    ensures
        body_of(m) == s,
        within_block(m),
{
    if s.len() >= 5 {
        lemma_u32_of(s, 1);
    }
    if s.len() >= 9 {
        lemma_u32_of(s, 5);
    }
    if s.len() >= 13 {
        lemma_u32_of(s, 9);
    }
    assert(body_of(m) =~= s);
}

/// Reading gives back what was written: a frame written anywhere in a stream,
/// and short enough for the reader, is read as the body it was written from,
/// whatever follows it.
pub proof fn law_read_gives_back_what_was_written(
    before: Seq<u8>,
    m: Msg,
    after: Seq<u8>,
    max: u32,
)
    requires
        body_of(m).len() <= body_ceiling(max),
    ensures
        frame_at(before + frame_of(m) + after, before.len() as int, max) == Ok::<
            (Seq<u8>, int),
            FrameError,
        >((body_of(m), (before + frame_of(m)).len() as int)),
{
    let s = before + frame_of(m) + after;
    let pos = before.len() as int;
    let n = declared_len(body_of(m));
    lemma_be32_len(n);
    assert(s.subrange(pos, pos + 4) =~= be32(n));
    lemma_be32(n, s, pos);
    assert(s.subrange(pos + 4, pos + 4 + n) =~= body_of(m));
}

/// A handshake is read back as it was written.
pub proof fn law_handshake_round_trip(h: Handshake)
    ensures
        handshake_bytes(h).len() == HANDSHAKE_LEN,
        speaks_protocol(handshake_bytes(h)),
        handshake_says(handshake_bytes(h), h),
{
    lemma_protocol();
    let s = handshake_bytes(h);
    assert(s.subrange(1, 20) =~= PROTOCOL.spec_bytes());
    assert(s.subrange(28, 48) =~= h.info_hash@);
    assert(s.subrange(48, 68) =~= h.peer_id@);
    assert(s[25] == reserved_of(h.extensions)[5]);
    assert(s[27] == reserved_of(h.extensions)[7]);
    assert(0x10u8 & 0x10u8 != 0 && 0x04u8 & 0x04u8 != 0 && 0u8 & 0x10u8 == 0 && 0u8 & 0x04u8 == 0)
        by (bit_vector);
}

// ---------------------------------------------------------------------------
// The protocol, byte by byte.

/// What stands on the wire for each message: its number in the protocol, and
/// its fields in order, numbers as four bytes with the most significant first.
/// In front of it stands its length, written the same way.
pub proof fn law_messages_are_spelled_as_the_protocol_says(m: Message)
    ensures
        ({
            let s = body_of(m@);
            let number = |at: int, n: int|
                s[at] * 0x100_0000 + s[at + 1] * 0x1_0000 + s[at + 2] * 0x100 + s[at + 3] == n;
            let block = |r: BlockRequest|
                s.len() == 13 && number(1, r.index as int) && number(5, r.begin as int) && number(
                    9,
                    r.length as int,
                );
            match m {
                Message::KeepAlive => s.len() == 0,
                Message::Choke => s == seq![0u8],
                Message::Unchoke => s == seq![1u8],
                Message::Interested => s == seq![2u8],
                Message::NotInterested => s == seq![3u8],
                Message::Have(i) => s.len() == 5 && s[0] == 4 && number(1, i as int),
                Message::Bitfield(b) => s == seq![5u8] + b@,
                Message::Request(r) => s[0] == 6 && block(r),
                Message::Piece { index, begin, block } => s.len() == 9 + block@.len() && s[0] == 7
                    && number(1, index as int) && number(5, begin as int) && s.skip(9) == block@,
                Message::Cancel(r) => s[0] == 8 && block(r),
                Message::SuggestPiece(i) => s.len() == 5 && s[0] == 13 && number(1, i as int),
                Message::HaveAll => s == seq![14u8],
                Message::HaveNone => s == seq![15u8],
                Message::RejectRequest(r) => s[0] == 16 && block(r),
                Message::AllowedFast(i) => s.len() == 5 && s[0] == 17 && number(1, i as int),
                Message::Extended { id, payload } => s == seq![20u8, id] + payload@,
            }
        }),
        ({
            let s = body_of(m@);
            let f = frame_of(m@);
            &&& f.skip(4) == s
            &&& f.len() == 4 + s.len()
            &&& s.len() <= u32::MAX ==> f[0] * 0x100_0000 + f[1] * 0x1_0000 + f[2] * 0x100 + f[3]
                == s.len()
        }),
{
    reveal(be32);
    let s = body_of(m@);
    let f = frame_of(m@);
    lemma_be32_sum(declared_len(s));
    assert(f.skip(4) =~= s);
    match m {
        Message::Have(i) => lemma_be32_sum(i),
        Message::SuggestPiece(i) => lemma_be32_sum(i),
        Message::AllowedFast(i) => lemma_be32_sum(i),
        Message::Request(r) => {
            lemma_be32_sum(r.index);
            lemma_be32_sum(r.begin);
            lemma_be32_sum(r.length);
        },
        Message::Cancel(r) => {
            lemma_be32_sum(r.index);
            lemma_be32_sum(r.begin);
            lemma_be32_sum(r.length);
        },
        Message::RejectRequest(r) => {
            lemma_be32_sum(r.index);
            lemma_be32_sum(r.begin);
            lemma_be32_sum(r.length);
        },
        Message::Piece { index, begin, block } => {
            lemma_be32_sum(index);
            lemma_be32_sum(begin);
            assert(s.skip(9) =~= block@);
        },
        _ => {},
    }
}

proof fn lemma_be32_sum(n: u32)
    ensures
        be32(n).len() == 4,
        be32(n)[0] * 0x100_0000 + be32(n)[1] * 0x1_0000 + be32(n)[2] * 0x100 + be32(n)[3] == n,
{
    reveal(be32);
}

/// Which bodies are refused, and why: an id that is none of the protocol's, a
/// body that is not as long as its kind has to be, and a block longer than
/// 16 KiB. Everything else is a message.
pub proof fn law_refused_bodies(s: Seq<u8>)
    ensures
        ({
            let id = s[0];
            let known = id <= 8 || 13 <= id <= 17 || id == 20;
            let alone = id <= 3 || id == 14 || id == 15;
            let one = id == 4 || id == 13 || id == 17;
            let three = id == 6 || id == 8 || id == 16;
            let misfit = (alone && s.len() != 1) || (one && s.len() != 5) || (three && s.len()
                != 13) || (id == 7 && s.len() < 9) || (id == 20 && s.len() < 2);
            let long = (three && s.len() == 13 && s[9] * 0x100_0000 + s[10] * 0x1_0000 + s[11]
                * 0x100 + s[12] > 16384) || (id == 7 && s.len() > 9 + 16384);
            if s.len() == 0 {
                message_in(s) == Ok::<Msg, Error>(Msg::KeepAlive)
            } else if !known {
                message_in(s) == Err::<Msg, Error>(Error::UnknownId(id))
            } else if misfit {
                message_in(s) == Err::<Msg, Error>(Error::BadLength)
            } else if long {
                message_in(s) == Err::<Msg, Error>(Error::BlockTooLarge)
            } else {
                message_in(s) is Ok
            }
        }),
{
    reveal(u32_of);
}

/// A frame is read if it is whole and declares no more than the reader takes,
/// which is never more than a mebibyte: its body is the bytes after the length,
/// as many as that says.
pub proof fn law_frames_are_cut_by_their_length(s: Seq<u8>, pos: int, max: u32)
    requires
        0 <= pos <= s.len(),
    ensures
        ({
            let len = s[pos] * 0x100_0000 + s[pos + 1] * 0x1_0000 + s[pos + 2] * 0x100 + s[pos
                + 3];
            if s.len() < pos + 4 {
                frame_at(s, pos, max) == Err::<(Seq<u8>, int), FrameError>(FrameError::Truncated)
            } else if len > max || len > 1048576 {
                frame_at(s, pos, max) == Err::<(Seq<u8>, int), FrameError>(FrameError::Oversized)
            } else if s.len() < pos + 4 + len {
                frame_at(s, pos, max) == Err::<(Seq<u8>, int), FrameError>(FrameError::Truncated)
            } else {
                frame_at(s, pos, max) == Ok::<(Seq<u8>, int), FrameError>(
                    (s.subrange(pos + 4, pos + 4 + len), pos + 4 + len),
                )
            }
        }),
{
    reveal(u32_of);
}

/// Where everything stands in a handshake, written or read: the protocol's name
/// behind its length, the two extension bits in the reserved bytes, the
/// info-hash, and the peer id.
pub proof fn law_handshake_is_laid_out_as_the_protocol_says(h: Handshake, s: Seq<u8>)
    requires
        s.len() == 68,
    ensures
        ({
            let b = handshake_bytes(h);
            &&& b.len() == 68
            &&& b[0] == 19
            &&& b.subrange(1, 20) == "BitTorrent protocol".spec_bytes()
            &&& forall|i: int| 20 <= i < 28 && i != 25 && i != 27 ==> #[trigger] b[i] == 0
            &&& b[25] == (if h.extensions.extended {
                16u8
            } else {
                0u8
            })
            &&& b[27] == (if h.extensions.fast {
                4u8
            } else {
                0u8
            })
            &&& b.subrange(28, 48) == h.info_hash@
            &&& b.subrange(48, 68) == h.peer_id@
        }),
        speaks_protocol(s) <==> s[0] == 19 && s.subrange(1, 20)
            == "BitTorrent protocol".spec_bytes(),
        handshake_says(s, h) <==> h.info_hash@ == s.subrange(28, 48) && h.peer_id@ == s.subrange(
            48,
            68,
        ) && h.extensions.extended == (s[25] & 16 != 0) && h.extensions.fast == (s[27] & 4 != 0),
{
    lemma_protocol();
    let b = handshake_bytes(h);
    assert(b.subrange(1, 20) =~= PROTOCOL.spec_bytes());
    assert(b.subrange(28, 48) =~= h.info_hash@);
    assert(b.subrange(48, 68) =~= h.peer_id@);
    assert forall|i: int| 20 <= i < 28 implies #[trigger] b[i] == reserved_of(h.extensions)[i
        - 20] by {}
}

} // verus!
