//! Minimal HTTP/1.1: just the subset clove needs, written for hostile input.
//! Announces are HTTP GETs over an I2P stream.
//!
//! No keep-alive reuse: clove opens a stream, sends one request, reads one
//! response delimited by `Content-Length`, by chunks, or by the close of the
//! stream, done. Anything fancier a tracker sends is a parse error, not a
//! silent guess.
use vstd::prelude::*;
#[allow(unused_imports)]
use vstd::string::*;
#[allow(unused_imports)]
use vstd::utf8::*;
use crate::decimal::decimal_text;
use crate::scan::{
    find, is_text, law_cut_at_the_first, law_key_and_value_are_cut, law_numbers_are_read,
    lemma_dec_value, lemma_find_char, lemma_split_joined, lemma_split_whole, lowercased,
    lowered_text, number_in, read_number, split, split_at_first, split_on, split_once, starts,
    starts_with, texts, trim, trimmed,
};
use crate::strings::{chars_of, copy_range, push_all, string_of, text_eq, utf8_text};

verus! {

/// Largest header section clove will buffer before giving up: guards against
/// a tracker that never sends the blank line.
pub const MAX_HEADER_BYTES: usize = 16384;

/// An outbound HTTP/1.1 request.
pub struct Request<'a> {
    /// Method, e.g. `GET`.
    pub method: &'a str,
    /// Request target, e.g. `/announce?info_hash=...`.
    pub target: &'a str,
    /// `Host` header value (the tracker's I2P hostname).
    pub host: &'a str,
    /// Extra headers as `(name, value)`.
    pub headers: &'a [(&'a str, &'a str)],
}

/// A parsed HTTP response.
#[derive(Clone, Debug)]
pub struct Response {
    /// Status code (e.g. 200).
    pub status: u16,
    /// Response headers, lowercased names.
    pub headers: Vec<(String, String)>,
    /// Response body.
    pub body: Vec<u8>,
}

/// Why a response could not be read.
#[derive(Clone, Copy, Debug, PartialEq, Eq)]
pub enum Error {
    /// The stream closed before the response ended.
    Truncated,
    /// The response was malformed or its head exceeded [`MAX_HEADER_BYTES`].
    BadResponse(&'static str),
    /// A body larger than the caller's `max_body`.
    BodyTooLarge,
}

/// What was wrong, in words.
pub open spec fn error_text(e: Error) -> Seq<char> {
    match e {
        Error::Truncated => "http: the response ended early"@,
        Error::BadResponse(what) => "http: malformed response: "@ + what@,
        Error::BodyTooLarge => "http: response body exceeds the allowed size"@,
    }
}

impl Error {
    /// What was wrong, in words.
    pub fn message(&self) -> (r: String)
        ensures
            r@ == error_text(*self),
    {
        match self {
            Error::Truncated => "http: the response ended early".to_owned(),
            Error::BadResponse(what) => {
                let mut s = "http: malformed response: ".to_owned();
                s.append(what);
                s
            },
            Error::BodyTooLarge => "http: response body exceeds the allowed size".to_owned(),
        }
    }
}

// ---------------------------------------------------------------------------
// Requests.

/// The first `n` header lines of a request.
pub open spec fn header_lines(headers: Seq<(&str, &str)>, n: int) -> Seq<u8>
    decreases n,
{
    if n <= 0 {
        Seq::empty()
    } else {
        header_lines(headers, n - 1) + headers[n - 1].0.spec_bytes() + ": ".spec_bytes()
            + headers[n - 1].1.spec_bytes() + "\r\n".spec_bytes()
    }
}

/// A request on the wire.
pub open spec fn request_bytes(r: Request) -> Seq<u8> {
    r.method.spec_bytes() + " ".spec_bytes() + r.target.spec_bytes()
        + " HTTP/1.1\r\nHost: ".spec_bytes() + r.host.spec_bytes() + "\r\n".spec_bytes()
        + header_lines(r.headers@, r.headers@.len() as int)
        + "Connection: close\r\n\r\n".spec_bytes()
}

/// Whether a text would break a message into more lines.
pub open spec fn breaks_lines(s: Seq<char>) -> bool {
    s.contains('\r') || s.contains('\n')
}

/// Whether no field of a request would break the message into more lines than
/// are written.
pub open spec fn keeps_lines(r: Request) -> bool {
    &&& !breaks_lines(r.method@)
    &&& !breaks_lines(r.target@)
    &&& !breaks_lines(r.host@)
    &&& forall|i: int|
        0 <= i < r.headers@.len() ==> !breaks_lines((#[trigger] r.headers@[i]).0@)
            && !breaks_lines(r.headers@[i].1@)
}

fn is_broken(s: &str) -> (r: bool)
    ensures
        r == breaks_lines(s@),
{
    let c = chars_of(s);
    crate::scan::contains_char(c.as_slice(), '\r') || crate::scan::contains_char(
        c.as_slice(),
        '\n',
    )
}

impl<'a> Request<'a> {
    /// Serialize to on-wire bytes. `Host` and `Connection: close` are always
    /// emitted; no body. A request with a field that would break the message
    /// into more lines than are written is refused.
    pub fn encode(&self) -> (r: Option<Vec<u8>>)
        ensures
            match r {
                Some(out) => keeps_lines(*self) && out@ == request_bytes(*self),
                None => !keeps_lines(*self),
            },
    {
        if is_broken(self.method) || is_broken(self.target) || is_broken(self.host) {
            return None;
        }
        let mut out: Vec<u8> = Vec::new();
        push_all(&mut out, self.method.as_bytes());
        push_all(&mut out, " ".as_bytes());
        push_all(&mut out, self.target.as_bytes());
        push_all(&mut out, " HTTP/1.1\r\nHost: ".as_bytes());
        push_all(&mut out, self.host.as_bytes());
        push_all(&mut out, "\r\n".as_bytes());
        let ghost start = out@;
        let mut i: usize = 0;
        proof {
            assert(start + header_lines(self.headers@, 0) =~= start);
        }
        while i < self.headers.len()
            invariant
                i <= self.headers@.len(),
                out@ == start + header_lines(self.headers@, i as int),
                forall|j: int|
                    0 <= j < i ==> !breaks_lines((#[trigger] self.headers@[j]).0@)
                        && !breaks_lines(self.headers@[j].1@),
            decreases self.headers.len() - i,
        {
            if is_broken(self.headers[i].0) || is_broken(self.headers[i].1) {
                proof {
                    let h = self.headers@[i as int];
                    assert(breaks_lines(h.0@) || breaks_lines(h.1@));
                }
                return None;
            }
            push_all(&mut out, self.headers[i].0.as_bytes());
            push_all(&mut out, ": ".as_bytes());
            push_all(&mut out, self.headers[i].1.as_bytes());
            push_all(&mut out, "\r\n".as_bytes());
            proof {
                assert(out@ =~= start + header_lines(self.headers@, i as int + 1));
            }
            i = i + 1;
        }
        push_all(&mut out, "Connection: close\r\n\r\n".as_bytes());
        proof {
            assert(out@ =~= request_bytes(*self));
        }
        Some(out)
    }
}

// ---------------------------------------------------------------------------
// The model of a response.

/// What a [`Response`] stands for.
#[verifier::ext_equal]
pub struct Reply {
    pub status: u16,
    pub headers: Seq<(Seq<char>, Seq<char>)>,
    pub body: Seq<u8>,
}

/// The texts of a list of headers.
pub open spec fn header_texts(h: Seq<(String, String)>) -> Seq<(Seq<char>, Seq<char>)> {
    Seq::new(h.len(), |i: int| (h[i].0@, h[i].1@))
}

impl View for Response {
    type V = Reply;

    open spec fn view(&self) -> Reply {
        Reply { status: self.status, headers: header_texts(self.headers@), body: self.body@ }
    }
}

/// The value of the first header named `name`.
pub open spec fn header_named(h: Seq<(Seq<char>, Seq<char>)>, name: Seq<char>) -> Option<Seq<char>>
    decreases h.len(),
{
    if h.len() == 0 {
        None
    } else if h[0].0 == name {
        Some(h[0].1)
    } else {
        header_named(h.skip(1), name)
    }
}

/// Whether a blank line ends just before position `e`.
pub open spec fn blank_line_before(s: Seq<u8>, e: int) -> bool {
    4 <= e <= s.len() && s[e - 4] == 13 && s[e - 3] == 10 && s[e - 2] == 13 && s[e - 1] == 10
}

/// The first position at or after `e` just after a blank line; one past the
/// length if there is none.
pub open spec fn head_end(s: Seq<u8>, e: int) -> int
    decreases s.len() + 1 - e,
{
    if e > s.len() {
        s.len() as int + 1
    } else if blank_line_before(s, e) {
        e
    } else {
        head_end(s, e + 1)
    }
}

/// What the status line says.
pub open spec fn status_in(line: Seq<char>) -> Result<u16, Error> {
    let parts = split(line, " "@);
    if !starts(parts[0], "HTTP/1."@) {
        Err(Error::BadResponse("not HTTP/1.x"))
    } else if parts.len() < 2 {
        Err(Error::BadResponse("no status code"))
    } else {
        match number_in(parts[1], u16::MAX as nat) {
            Some(n) => Ok(n as u16),
            None => Err(Error::BadResponse("non-numeric status code")),
        }
    }
}

/// What the header lines say.
#[verifier::ext_equal]
pub struct Heads {
    pub headers: Seq<(Seq<char>, Seq<char>)>,
    pub length: Option<nat>,
    pub chunked: bool,
}

/// What one more header line adds.
pub open spec fn header_in(h: Heads, line: Seq<char>, max: nat) -> Result<Heads, Error> {
    if line.len() == 0 {
        Ok(h)
    } else {
        match split_once(line, ":"@) {
            None => Err(Error::BadResponse("header without a colon")),
            Some((a, b)) => {
                let name = lowered_text(trim(a));
                let value = trim(b);
                let more = h.headers.push((name, value));
                if name == "content-length"@ {
                    match number_in(value, usize::MAX as nat) {
                        None => Err(Error::BadResponse("bad content-length")),
                        Some(n) => if n > max {
                            Err(Error::BodyTooLarge)
                        } else {
                            Ok(Heads { headers: more, length: Some(n), ..h })
                        },
                    }
                } else if name == "transfer-encoding"@ {
                    if lowered_text(value) == "chunked"@ {
                        Ok(Heads { headers: more, chunked: true, ..h })
                    } else {
                        Err(Error::BadResponse("unsupported transfer encoding"))
                    }
                } else {
                    Ok(Heads { headers: more, ..h })
                }
            },
        }
    }
}

/// What the lines after the first, up to the `n`th, say.
pub open spec fn heads_in(lines: Seq<Seq<char>>, n: int, max: nat) -> Result<Heads, Error>
    decreases n,
{
    if n <= 1 {
        Ok(Heads { headers: Seq::empty(), length: None, chunked: false })
    } else {
        match heads_in(lines, n - 1, max) {
            Err(e) => Err(e),
            Ok(h) => header_in(h, lines[n - 1], max),
        }
    }
}

/// The value of a hexadecimal digit.
pub open spec fn hex_value(b: u8) -> Option<u8> {
    if 48 <= b <= 57 {
        Some((b - 48) as u8)
    } else if 97 <= b <= 102 {
        Some((b - 97 + 10) as u8)
    } else if 65 <= b <= 70 {
        Some((b - 65 + 10) as u8)
    } else {
        None
    }
}

/// The first position at or after `i` that holds no hexadecimal digit.
pub open spec fn hex_run_end(s: Seq<u8>, i: int) -> int
    decreases s.len() - i,
{
    if 0 <= i < s.len() && hex_value(s[i]) is Some {
        hex_run_end(s, i + 1)
    } else {
        i
    }
}

/// The number that hexadecimal digits stand for.
pub open spec fn hex_number(s: Seq<u8>) -> nat
    decreases s.len(),
{
    if s.len() == 0 {
        0
    } else {
        hex_number(s.drop_last()) * 16 + hex_value(s.last())->Some_0 as nat
    }
}

/// The first position at or after `i` where a line ends; the length if none.
pub open spec fn line_end(s: Seq<u8>, i: int) -> int
    decreases s.len() - i,
{
    if i < 0 || i + 2 > s.len() {
        s.len() as int
    } else if s[i] == 13 && s[i + 1] == 10 {
        i
    } else {
        line_end(s, i + 1)
    }
}

/// The body `got` and what the chunks from `pos` on add to it. A chunk is its
/// size in hexadecimal, optional extensions, a line end, its bytes and a line
/// end; a chunk of size zero ends the body.
pub open spec fn chunks_in(s: Seq<u8>, pos: int, got: Seq<u8>, max: nat) -> Result<Seq<u8>, Error>
    decreases s.len() - pos,
{
    let digits = hex_run_end(s, pos);
    let eol = line_end(s, digits);
    let n = hex_number(s.subrange(pos, digits));
    if n > max {
        Err(Error::BodyTooLarge)
    } else if eol + 2 > s.len() || eol < digits {
        Err(Error::Truncated)
    } else if digits == pos || (s[digits] != 13 && s[digits] != 59) {
        Err(Error::BadResponse("bad chunk size"))
    } else if n == 0 {
        Ok(got)
    } else if got.len() + n > max {
        Err(Error::BodyTooLarge)
    } else if eol + 2 + n + 2 > s.len() {
        Err(Error::Truncated)
    } else if s[eol + 2 + n] != 13 || s[eol + 2 + n + 1] != 10 {
        Err(Error::BadResponse("chunk without its line end"))
    } else if eol >= pos {
        chunks_in(s, eol + 2 + n + 2, got + s.subrange(eol + 2, eol + 2 + n), max)
    } else {
        Err(Error::Truncated)
    }
}

/// The body that starts at `pos`: in chunks, of the declared length, or up to
/// the close of the stream.
pub open spec fn body_in(s: Seq<u8>, pos: int, h: Heads, max: nat) -> Result<Seq<u8>, Error> {
    if h.chunked {
        chunks_in(s, pos, Seq::empty(), max)
    } else {
        match h.length {
            Some(n) => if pos + n > s.len() {
                Err(Error::Truncated)
            } else {
                Ok(s.subrange(pos, pos + n))
            },
            None => if s.len() - pos > max {
                Err(Error::BodyTooLarge)
            } else {
                Ok(s.skip(pos))
            },
        }
    }
}

/// The lines of a response's head.
pub open spec fn head_lines(s: Seq<u8>, end: int) -> Seq<Seq<char>> {
    split(decode_utf8(s.take(end - 4)), "\r\n"@)
}

/// What the head of a response says, and where it ends.
pub open spec fn head_in(s: Seq<u8>, max: nat) -> Result<(u16, Heads, int), Error> {
    let end = head_end(s, 0);
    if end > MAX_HEADER_BYTES + 1 && s.len() > MAX_HEADER_BYTES {
        Err(Error::BadResponse("header section too large"))
    } else if end > s.len() {
        Err(Error::BadResponse("connection closed before end of head"))
    } else if !valid_utf8(s.take(end - 4)) {
        Err(Error::BadResponse("non-UTF-8 head"))
    } else {
        let lines = head_lines(s, end);
        match status_in(lines[0]) {
            Err(e) => Err(e),
            Ok(status) => match heads_in(lines, lines.len() as int, max) {
                Err(e) => Err(e),
                Ok(h) => Ok((status, h, end)),
            },
        }
    }
}

/// The response that a closed stream of bytes holds.
pub open spec fn reply_in(s: Seq<u8>, max: nat) -> Result<Reply, Error> {
    match head_in(s, max) {
        Err(e) => Err(e),
        Ok((status, h, end)) => match body_in(s, end, h, max) {
            Err(e) => Err(e),
            Ok(body) => Ok(Reply { status, headers: h.headers, body }),
        },
    }
}

/// Whether a head has arrived, or too much without one.
pub open spec fn head_settled(s: Seq<u8>) -> bool {
    s.len() > MAX_HEADER_BYTES || head_end(s, 0) <= s.len()
}

/// Whether what follows on the stream can no longer change the response.
pub open spec fn settled(s: Seq<u8>, max: nat) -> bool {
    head_settled(s) && match head_in(s, max) {
        Err(_) => true,
        Ok((_, h, end)) => match body_in(s, end, h, max) {
            Err(e) => e != Error::Truncated,
            Ok(_) => h.chunked || h.length is Some,
        },
    }
}

// ---------------------------------------------------------------------------
// Reading a response.

impl Response {
    /// First header value matching `name` (case-insensitive).
    pub fn header(&self, name: &str) -> (r: Option<&str>)
        ensures
            match r {
                Some(v) => header_named(self@.headers, lowered_text(name@)) == Some(v@),
                None => header_named(self@.headers, lowered_text(name@)) is None,
            },
    {
        let wanted = string_of(lowercased(chars_of(name).as_slice()).as_slice());
        let mut i: usize = 0;
        let ghost h = self@.headers;
        proof {
            assert(h.skip(0) =~= h);
        }
        while i < self.headers.len()
            invariant
                i <= self.headers@.len(),
                h == self@.headers,
                wanted@ == lowered_text(name@),
                header_named(h, wanted@) == header_named(h.skip(i as int), wanted@),
            decreases self.headers.len() - i,
        {
            proof {
                assert(h.skip(i as int).skip(1) =~= h.skip(i as int + 1));
                assert(h.skip(i as int)[0] == h[i as int]);
            }
            if text_eq(self.headers[i].0.as_str(), wanted.as_str()) {
                return Some(self.headers[i].1.as_str());
            }
            i = i + 1;
        }
        None
    }
}

fn find_head_end(s: &[u8]) -> (e: usize)
    requires
        s@.len() < usize::MAX,
    ensures
        e == head_end(s@, 0),
        e >= 4 || e == s@.len() + 1,
        e <= s@.len() ==> blank_line_before(s@, e as int),
{
    let mut e: usize = 0;
    while e <= s.len()
        invariant
            e <= s@.len() + 1,
            s@.len() < usize::MAX,
            s.len() == s@.len(),
            head_end(s@, 0) == head_end(s@, e as int),
        decreases s@.len() + 1 - e,
    {
        if e >= 4 && s[e - 4] == 13 && s[e - 3] == 10 && s[e - 2] == 13 && s[e - 1] == 10 {
            return e;
        }
        e = e + 1;
    }
    e
}

fn parse_status(line: &[char]) -> (r: Result<u16, Error>)
    ensures
        r == status_in(line@),
{
    proof {
        reveal_strlit(" ");
    }
    let parts = split_on(line, chars_of(" ").as_slice());
    proof {
        assert(texts(parts@)[0] == parts@[0]@);
    }
    if !starts_with(parts[0].as_slice(), chars_of("HTTP/1.").as_slice()) {
        return Err(Error::BadResponse("not HTTP/1.x"));
    }
    if parts.len() < 2 {
        return Err(Error::BadResponse("no status code"));
    }
    proof {
        assert(texts(parts@)[1] == parts@[1]@);
    }
    match read_number(parts[1].as_slice(), u16::MAX as u64) {
        Some(n) => Ok(n as u16),
        None => Err(Error::BadResponse("non-numeric status code")),
    }
}

struct HeadState {
    headers: Vec<(String, String)>,
    length: Option<usize>,
    chunked: bool,
}

spec fn heads_of(h: HeadState) -> Heads {
    Heads {
        headers: header_texts(h.headers@),
        length: match h.length {
            Some(n) => Some(n as nat),
            None => None,
        },
        chunked: h.chunked,
    }
}

fn parse_header(state: HeadState, line: &[char], max: usize) -> (r: Result<HeadState, Error>)
    ensures
        match r {
            Ok(h) => header_in(heads_of(state), line@, max as nat) == Ok::<Heads, Error>(
                heads_of(h),
            ),
            Err(e) => header_in(heads_of(state), line@, max as nat) == Err::<Heads, Error>(e),
        },
{
    if line.len() == 0 {
        return Ok(state);
    }
    proof {
        reveal_strlit(":");
    }
    let (a, b) = match split_at_first(line, chars_of(":").as_slice()) {
        Some(p) => p,
        None => return Err(Error::BadResponse("header without a colon")),
    };
    let name = lowercased(trimmed(a.as_slice()).as_slice());
    let value = trimmed(b.as_slice());
    let ghost before = heads_of(state);
    let mut next = state;
    next.headers.push((string_of(name.as_slice()), string_of(value.as_slice())));
    proof {
        assert(header_texts(next.headers@) =~= before.headers.push((name@, value@)));
    }
    if is_text(name.as_slice(), "content-length") {
        match read_number(value.as_slice(), usize::MAX as u64) {
            None => {
                return Err(Error::BadResponse("bad content-length"));
            },
            Some(n) => {
                if n > max as u64 {
                    return Err(Error::BodyTooLarge);
                }
                next.length = Some(n as usize);
            },
        }
    } else if is_text(name.as_slice(), "transfer-encoding") {
        if !is_text(lowercased(value.as_slice()).as_slice(), "chunked") {
            return Err(Error::BadResponse("unsupported transfer encoding"));
        }
        next.chunked = true;
    }
    Ok(next)
}

fn hex_digit(b: u8) -> (r: Option<u8>)
    ensures
        r == hex_value(b),
        r matches Some(v) ==> v < 16,
{
    if 48 <= b && b <= 57 {
        Some(b - 48)
    } else if 97 <= b && b <= 102 {
        Some(b - 97 + 10)
    } else if 65 <= b && b <= 70 {
        Some(b - 65 + 10)
    } else {
        None
    }
}

proof fn lemma_hex_run(s: Seq<u8>, i: int)
    requires
        0 <= i <= s.len(),
    ensures
        i <= hex_run_end(s, i) <= s.len(),
        forall|j: int| i <= j < hex_run_end(s, i) ==> hex_value(#[trigger] s[j]) is Some,
    decreases s.len() - i,
{
    if i < s.len() && hex_value(s[i]) is Some {
        lemma_hex_run(s, i + 1);
    }
}

proof fn lemma_hex_monotone(s: Seq<u8>, i: int)
    requires
        0 <= i <= s.len(),
    ensures
        hex_number(s.take(i)) <= hex_number(s),
    decreases s.len() - i,
{
    if i < s.len() {
        assert(s.take(i + 1).drop_last() =~= s.take(i));
        lemma_hex_monotone(s, i + 1);
    } else {
        assert(s.take(i) =~= s);
    }
}

proof fn lemma_line_end(s: Seq<u8>, i: int)
    requires
        0 <= i <= s.len(),
    ensures
        i <= line_end(s, i) <= s.len(),
        line_end(s, i) < s.len() ==> line_end(s, i) + 2 <= s.len(),
    decreases s.len() - i,
{
    if i + 2 <= s.len() && !(s[i] == 13 && s[i + 1] == 10) {
        lemma_line_end(s, i + 1);
    }
}

fn find_line_end(s: &[u8], from: usize) -> (i: usize)
    requires
        from <= s@.len(),
    ensures
        i == line_end(s@, from as int),
        from <= i <= s@.len(),
{
    let mut i: usize = from;
    while i < s.len() && s.len() - i >= 2
        invariant
            from <= i <= s@.len(),
            s.len() == s@.len(),
            line_end(s@, from as int) == line_end(s@, i as int),
        decreases s@.len() - i,
    {
        if s[i] == 13 && s[i + 1] == 10 {
            return i;
        }
        i = i + 1;
    }
    s.len()
}

/// The size that a chunk's line starts with, and where its digits end; `None`
/// if it is more than `max`.
fn chunk_size(s: &[u8], pos: usize, max: usize) -> (r: Option<(usize, usize)>)
    requires
        pos <= s@.len(),
    ensures
        match r {
            Some((n, at)) => at == hex_run_end(s@, pos as int) && n == hex_number(
                s@.subrange(pos as int, at as int),
            ) && n <= max && pos <= at <= s@.len(),
            None => hex_number(s@.subrange(pos as int, hex_run_end(s@, pos as int))) > max,
        },
{
    let ghost end = hex_run_end(s@, pos as int);
    let ghost whole = s@.subrange(pos as int, end);
    proof {
        lemma_hex_run(s@, pos as int);
        assert(s@.subrange(pos as int, pos as int) =~= Seq::empty());
    }
    let mut n: usize = 0;
    let mut at: usize = pos;
    while at < s.len()
        invariant_except_break
            at <= s@.len(),
            s.len() == s@.len(),
            end == hex_run_end(s@, at as int),
        invariant
            pos <= at <= end <= s@.len(),
            s.len() == s@.len(),
            whole == s@.subrange(pos as int, end),
            end == hex_run_end(s@, pos as int),
            n == hex_number(s@.subrange(pos as int, at as int)),
            n <= max,
        ensures
            at == end,
        decreases s@.len() - at,
    {
        match hex_digit(s[at]) {
            None => {
                break;
            },
            Some(d) => {
                proof {
                    lemma_hex_run(s@, at as int + 1);
                    assert(whole.take(at + 1 - pos) =~= s@.subrange(pos as int, at + 1));
                    assert(s@.subrange(pos as int, at + 1).drop_last() =~= s@.subrange(
                        pos as int,
                        at as int,
                    ));
                    lemma_hex_monotone(whole, at + 1 - pos);
                }
                match n.checked_mul(16) {
                    None => {
                        return None;
                    },
                    Some(m) => match m.checked_add(d as usize) {
                        None => {
                            return None;
                        },
                        Some(k) => {
                            if k > max {
                                return None;
                            }
                            n = k;
                        },
                    },
                }
                at = at + 1;
            },
        }
    }
    Some((n, at))
}

fn read_chunks(s: &[u8], from: usize, max: usize) -> (r: Result<Vec<u8>, Error>)
    requires
        from <= s@.len(),
    ensures
        match r {
            Ok(b) => chunks_in(s@, from as int, Seq::empty(), max as nat) == Ok::<Seq<u8>, Error>(
                b@,
            ),
            Err(e) => chunks_in(s@, from as int, Seq::empty(), max as nat) == Err::<Seq<u8>, Error>(
                e,
            ),
        },
{
    let mut body: Vec<u8> = Vec::new();
    let mut pos: usize = from;
    loop
        invariant
            pos <= s@.len(),
            s.len() == s@.len(),
            body@.len() <= max,
            chunks_in(s@, from as int, Seq::empty(), max as nat) == chunks_in(
                s@,
                pos as int,
                body@,
                max as nat,
            ),
        decreases s@.len() - pos,
    {
        let (n, digits) = match chunk_size(s, pos, max) {
            Some(p) => p,
            None => return Err(Error::BodyTooLarge),
        };
        let eol: usize = find_line_end(s, digits);
        proof {
            lemma_line_end(s@, digits as int);
        }
        if eol >= s.len() {
            return Err(Error::Truncated);
        }
        if digits == pos || (s[digits] != 13 && s[digits] != 59) {
            return Err(Error::BadResponse("bad chunk size"));
        }
        if n == 0 {
            return Ok(body);
        }
        if n > max - body.len() {
            return Err(Error::BodyTooLarge);
        }
        let data: usize = eol + 2;
        if s.len() - data < n || s.len() - data - n < 2 {
            return Err(Error::Truncated);
        }
        if s[data + n] != 13 || s[data + n + 1] != 10 {
            return Err(Error::BadResponse("chunk without its line end"));
        }
        push_all(&mut body, vstd::slice::slice_subrange(s, data, data + n));
        pos = data + n + 2;
    }
}

fn read_body(s: &[u8], from: usize, heads: &HeadState, max: usize) -> (r: Result<Vec<u8>, Error>)
    requires
        from <= s@.len(),
    ensures
        match r {
            Ok(b) => body_in(s@, from as int, heads_of(*heads), max as nat) == Ok::<
                Seq<u8>,
                Error,
            >(b@),
            Err(e) => body_in(s@, from as int, heads_of(*heads), max as nat) == Err::<
                Seq<u8>,
                Error,
            >(e),
        },
{
    if heads.chunked {
        return read_chunks(s, from, max);
    }
    match heads.length {
        Some(n) => {
            if s.len() - from < n {
                return Err(Error::Truncated);
            }
            Ok(copy_range(s, from, from + n))
        },
        None => {
            if s.len() - from > max {
                return Err(Error::BodyTooLarge);
            }
            let body = copy_range(s, from, s.len());
            proof {
                assert(body@ =~= s@.skip(from as int));
            }
            Ok(body)
        },
    }
}

/// Read the head of a response: its status, its headers, and where it ends.
fn read_head(input: &[u8], max_body: usize) -> (r: Result<(u16, HeadState, usize), Error>)
    requires
        input@.len() < usize::MAX,
    ensures
        match r {
            Ok((status, heads, end)) => head_in(input@, max_body as nat) == Ok::<
                (u16, Heads, int),
                Error,
            >((status, heads_of(heads), end as int)) && end <= input@.len(),
            Err(e) => head_in(input@, max_body as nat) == Err::<(u16, Heads, int), Error>(e),
        },
{
    let end: usize = find_head_end(input);
    if end > MAX_HEADER_BYTES + 1 && input.len() > MAX_HEADER_BYTES {
        return Err(Error::BadResponse("header section too large"));
    }
    if end > input.len() {
        return Err(Error::BadResponse("connection closed before end of head"));
    }
    let head = vstd::slice::slice_subrange(input, 0, end - 4);
    proof {
        assert(head@ =~= input@.take(end - 4));
    }
    let text = match utf8_text(head) {
        Some(t) => t,
        None => return Err(Error::BadResponse("non-UTF-8 head")),
    };
    proof {
        reveal_strlit("\r\n");
    }
    let lines = split_on(chars_of(text).as_slice(), chars_of("\r\n").as_slice());
    let ghost ls = texts(lines@);
    proof {
        assert(ls[0] == lines@[0]@);
    }
    let status: u16 = match parse_status(lines[0].as_slice()) {
        Ok(n) => n,
        Err(e) => return Err(e),
    };
    let mut heads = HeadState { headers: Vec::new(), length: None, chunked: false };
    proof {
        assert(header_texts(heads.headers@) =~= Seq::empty());
    }
    let mut i: usize = 1;
    while i < lines.len()
        invariant
            1 <= i <= lines@.len(),
            ls == texts(lines@),
            heads_in(ls, i as int, max_body as nat) == Ok::<Heads, Error>(heads_of(heads)),
            status_in(ls[0]) == Ok::<u16, Error>(status),
            end == head_end(input@, 0),
            4 <= end <= input@.len(),
            !(end > MAX_HEADER_BYTES + 1 && input@.len() > MAX_HEADER_BYTES),
            valid_utf8(input@.take(end - 4)),
            ls == head_lines(input@, end as int),
        decreases lines.len() - i,
    {
        proof {
            assert(ls[i as int] == lines@[i as int]@);
        }
        heads = match parse_header(heads, lines[i].as_slice(), max_body) {
            Ok(h) => h,
            Err(e) => {
                proof {
                    lemma_heads_fail(ls, i as int + 1, ls.len() as int, max_body as nat, e);
                }
                return Err(e);
            },
        };
        i = i + 1;
    }
    Ok((status, heads, end))
}

/// Parse one HTTP response from all the bytes that a stream carried before it
/// closed, capping the body at `max_body` bytes.
pub fn read_response(input: &[u8], max_body: usize) -> (r: Result<Response, Error>)
    requires
        input@.len() < usize::MAX,
    ensures
        match r {
            Ok(resp) => reply_in(input@, max_body as nat) == Ok::<Reply, Error>(resp@),
            Err(e) => reply_in(input@, max_body as nat) == Err::<Reply, Error>(e),
        },
{
    let (status, heads, end) = match read_head(input, max_body) {
        Ok(h) => h,
        Err(e) => return Err(e),
    };
    match read_body(input, end, &heads, max_body) {
        Ok(body) => Ok(Response { status, headers: heads.headers, body }),
        Err(e) => Err(e),
    }
}

/// Whether reading can stop: what follows on the stream can no longer change
/// what [`read_response`] makes of it.
pub fn response_settled(input: &[u8], max_body: usize) -> (r: bool)
    requires
        input@.len() < usize::MAX,
    ensures
        r == settled(input@, max_body as nat),
{
    if input.len() <= MAX_HEADER_BYTES && find_head_end(input) > input.len() {
        return false;
    }
    match read_head(input, max_body) {
        Err(_) => true,
        Ok((_, heads, end)) => match read_body(input, end, &heads, max_body) {
            Err(Error::Truncated) => false,
            Err(_) => true,
            Ok(_) => heads.chunked || heads.length.is_some(),
        },
    }
}

proof fn lemma_head_end_stays(s: Seq<u8>, t: Seq<u8>, e: int)
    requires
        0 <= e,
    ensures
        head_end(s, e) <= s.len() ==> head_end(s + t, e) == head_end(s, e),
        e <= s.len() + 1 && head_end(s, e) > s.len() ==> head_end(s + t, e) > s.len(),
    decreases s.len() + 1 - e,
{
    if e <= s.len() {
        assert(blank_line_before(s, e) == blank_line_before(s + t, e));
        if !blank_line_before(s, e) {
            lemma_head_end_stays(s, t, e + 1);
        }
    } else if e == s.len() + 1 {
        lemma_head_end_bound(s + t, e);
    }
}

proof fn lemma_head_end_bound(s: Seq<u8>, e: int)
    requires
        0 <= e <= s.len() + 1,
    ensures
        head_end(s, e) >= e,
        head_end(s, e) <= s.len() ==> blank_line_before(s, head_end(s, e)),
    decreases s.len() + 1 - e,
{
    if e <= s.len() && !blank_line_before(s, e) {
        lemma_head_end_bound(s, e + 1);
    }
}

proof fn lemma_hex_run_stays(s: Seq<u8>, t: Seq<u8>, i: int)
    requires
        0 <= i <= s.len(),
    ensures
        hex_run_end(s, i) < s.len() ==> hex_run_end(s + t, i) == hex_run_end(s, i),
        hex_run_end(s, i) == s.len() ==> hex_run_end(s + t, i) >= s.len(),
    decreases s.len() - i,
{
    if i < s.len() {
        assert((s + t)[i] == s[i]);
        if hex_value(s[i]) is Some {
            lemma_hex_run_stays(s, t, i + 1);
        }
    } else {
        lemma_hex_run(s + t, i);
    }
}

proof fn lemma_line_end_stays(s: Seq<u8>, t: Seq<u8>, i: int)
    requires
        0 <= i <= s.len(),
    ensures
        line_end(s, i) < s.len() ==> line_end(s + t, i) == line_end(s, i),
    decreases s.len() - i,
{
    if i + 2 <= s.len() {
        assert((s + t)[i] == s[i] && (s + t)[i + 1] == s[i + 1]);
        if !(s[i] == 13 && s[i + 1] == 10) {
            lemma_line_end_stays(s, t, i + 1);
        }
    }
}

proof fn lemma_chunks_stay(s: Seq<u8>, t: Seq<u8>, pos: int, got: Seq<u8>, max: nat)
    requires
        0 <= pos <= s.len(),
        chunks_in(s, pos, got, max) != Err::<Seq<u8>, Error>(Error::Truncated),
    ensures
        chunks_in(s + t, pos, got, max) == chunks_in(s, pos, got, max),
    decreases s.len() - pos,
{
    let u = s + t;
    let digits = hex_run_end(s, pos);
    let eol = line_end(s, digits);
    let n = hex_number(s.subrange(pos, digits));
    lemma_hex_run(s, pos);
    lemma_hex_run(u, pos);
    lemma_hex_run_stays(s, t, pos);
    lemma_line_end(s, digits);
    let digits2 = hex_run_end(u, pos);
    if n > max {
        if digits < s.len() {
            assert(u.subrange(pos, digits2) =~= s.subrange(pos, digits));
        } else {
            let whole = u.subrange(pos, digits2);
            lemma_hex_monotone(whole, digits - pos);
            assert(whole.take(digits - pos) =~= s.subrange(pos, digits));
        }
    } else {
        assert(eol < s.len());
        assert(digits < s.len());
        assert(u.subrange(pos, digits2) =~= s.subrange(pos, digits));
        lemma_line_end_stays(s, t, digits);
        assert(u[digits] == s[digits]);
        if digits != pos && (s[digits] == 13 || s[digits] == 59) && n != 0 && got.len() + n <= max {
            let end = eol + 2 + n;
            assert(u[end] == s[end] && u[end + 1] == s[end + 1]);
            assert(u.subrange(eol + 2, end) =~= s.subrange(eol + 2, end));
            if s[end] == 13 && s[end + 1] == 10 {
                lemma_chunks_stay(s, t, end + 2, got + s.subrange(eol + 2, end), max);
            }
        }
    }
}

/// Once a response is settled, whatever follows on the stream leaves it as it
/// is.
pub proof fn law_settled_response_stays(s: Seq<u8>, t: Seq<u8>, max: nat)
    requires
        settled(s, max),
    ensures
        reply_in(s + t, max) == reply_in(s, max),
{
    let u = s + t;
    let end = head_end(s, 0);
    lemma_head_end_stays(s, t, 0);
    lemma_head_end_bound(s, 0);
    if end <= s.len() {
        assert(u.take(end - 4) =~= s.take(end - 4));
        if let Ok((status, h, e)) = head_in(s, max) {
            if h.chunked {
                lemma_chunks_stay(s, t, e, Seq::empty(), max);
            } else if let Some(n) = h.length {
                assert(u.subrange(e, e + n) =~= s.subrange(e, e + n));
            }
        }
    }
}

/// The first bad line decides.
proof fn lemma_heads_fail(lines: Seq<Seq<char>>, k: int, n: int, max: nat, e: Error)
    requires
        1 <= k <= n,
        heads_in(lines, k, max) == Err::<Heads, Error>(e),
    ensures
        heads_in(lines, n, max) == Err::<Heads, Error>(e),
    decreases n - k,
{
    if k < n {
        lemma_heads_fail(lines, k, n - 1, max, e);
    }
}

// ---------------------------------------------------------------------------
// Percent encoding.

/// Whether a byte passes through percent encoding as it is.
pub open spec fn unreserved(b: u8) -> bool {
    (48 <= b <= 57) || (65 <= b <= 90) || (97 <= b <= 122) || b == 45 || b == 95 || b == 46 || b
        == 126
}

/// An upper-case hexadecimal digit.
pub open spec fn hex_char(n: int) -> char {
    if n < 10 {
        (48 + n) as char
    } else {
        (55 + n) as char
    }
}

/// What one byte becomes.
pub open spec fn escaped(b: u8) -> Seq<char> {
    if unreserved(b) {
        seq![b as char]
    } else {
        seq!['%', hex_char(b as int / 16), hex_char(b as int % 16)]
    }
}

/// What bytes become.
pub open spec fn percent_encoded(s: Seq<u8>) -> Seq<char>
    decreases s.len(),
{
    if s.len() == 0 {
        Seq::empty()
    } else {
        percent_encoded(s.drop_last()) + escaped(s.last())
    }
}

/// Whether a complete escape stands at position `i`.
pub open spec fn escape_at(s: Seq<u8>, i: int) -> bool {
    s[i] == 37 && i + 2 < s.len() && hex_value(s[i + 1]) is Some && hex_value(s[i + 2]) is Some
}

/// The bytes that `s` stands for from position `i` on: complete escapes
/// decoded, everything else as it is.
pub open spec fn percent_decoded(s: Seq<u8>, i: int) -> Seq<u8>
    decreases s.len() - i,
{
    if i < 0 || i >= s.len() {
        Seq::empty()
    } else if escape_at(s, i) {
        seq![(hex_value(s[i + 1])->Some_0 * 16 + hex_value(s[i + 2])->Some_0) as u8]
            + percent_decoded(s, i + 3)
    } else {
        seq![s[i]] + percent_decoded(s, i + 1)
    }
}

fn push_hex(out: &mut String, n: u8)
    requires
        n < 16,
    ensures
        final(out)@ == old(out)@.push(hex_char(n as int)),
{
    let c: u8 = if n < 10 {
        48 + n
    } else {
        55 + n
    };
    out.push(c as char);
}

/// Percent-encode raw bytes for a URL query value: unreserved bytes pass
/// through, everything else becomes `%XX`.
pub fn percent_encode(bytes: &[u8]) -> (r: String)
    ensures
        r@ == percent_encoded(bytes@),
{
    let mut out: String = String::new();
    let mut i: usize = 0;
    proof {
        assert(bytes@.take(0) =~= Seq::empty());
    }
    while i < bytes.len()
        invariant
            i <= bytes@.len(),
            bytes.len() == bytes@.len(),
            out@ == percent_encoded(bytes@.take(i as int)),
        decreases bytes@.len() - i,
    {
        let b: u8 = bytes[i];
        let ghost had = out@;
        proof {
            assert(bytes@.take(i as int + 1).drop_last() =~= bytes@.take(i as int));
        }
        if (48 <= b && b <= 57) || (65 <= b && b <= 90) || (97 <= b && b <= 122) || b == 45 || b
            == 95 || b == 46 || b == 126 {
            out.push(b as char);
        } else {
            out.push('%');
            push_hex(&mut out, b / 16);
            push_hex(&mut out, b % 16);
        }
        proof {
            assert(out@ =~= had + escaped(b));
        }
        i = i + 1;
    }
    proof {
        assert(bytes@.take(i as int) =~= bytes@);
    }
    out
}

/// Percent-decode a URL-encoded string to raw bytes (`%XX` to a byte). Other
/// characters, including `+`, pass through unchanged: magnet URIs use `%20`
/// for spaces, so treating `+` as space would corrupt names.
pub fn percent_decode(s: &str) -> (r: Vec<u8>)
    ensures
        r@ == percent_decoded(s.spec_bytes(), 0),
{
    let bytes = s.as_bytes();
    let mut out: Vec<u8> = Vec::new();
    let mut i: usize = 0;
    proof {
        assert(percent_decoded(bytes@, 0) =~= out@ + percent_decoded(bytes@, 0));
    }
    while i < bytes.len()
        invariant
            i <= bytes@.len(),
            bytes.len() == bytes@.len(),
            percent_decoded(bytes@, 0) == out@ + percent_decoded(bytes@, i as int),
        decreases bytes@.len() - i,
    {
        let ghost had = out@;
        if bytes[i] == 37 && bytes.len() - i > 2 {
            if let (Some(hi), Some(lo)) = (hex_digit(bytes[i + 1]), hex_digit(bytes[i + 2])) {
                out.push(hi * 16 + lo);
                proof {
                    assert(escape_at(bytes@, i as int));
                    assert(out@ + percent_decoded(bytes@, i + 3) =~= had + percent_decoded(
                        bytes@,
                        i as int,
                    ));
                }
                i = i + 3;
                continue;
            }
        }
        out.push(bytes[i]);
        proof {
            assert(!escape_at(bytes@, i as int));
            assert(out@ + percent_decoded(bytes@, i + 1) =~= had + percent_decoded(
                bytes@,
                i as int,
            ));
        }
        i = i + 1;
    }
    proof {
        assert(out@ + percent_decoded(bytes@, i as int) =~= out@);
    }
    out
}

/// The characters of a percent-encoded text, as bytes.
spec fn ascii_bytes(s: Seq<char>) -> Seq<u8> {
    Seq::new(s.len(), |i: int| s[i] as u8)
}

proof fn lemma_escaped_ascii(b: u8)
    ensures
        is_ascii_chars(escaped(b)),
        1 <= escaped(b).len() <= 3,
{
}

proof fn lemma_encoded_ascii(s: Seq<u8>)
    ensures
        is_ascii_chars(percent_encoded(s)),
    decreases s.len(),
{
    if s.len() > 0 {
        lemma_encoded_ascii(s.drop_last());
        lemma_escaped_ascii(s.last());
    }
}

/// Decoding continues where a decoded prefix ends.
proof fn lemma_decode_append(s: Seq<u8>, i: int, b: u8)
    requires
        0 <= i <= s.len(),
        decodes_cleanly(s, i),
    ensures
        percent_decoded(s + ascii_bytes(escaped(b)), i) == percent_decoded(s, i).push(b),
        decodes_cleanly(s + ascii_bytes(escaped(b)), i),
    decreases s.len() - i,
{
    let e = ascii_bytes(escaped(b));
    let t = s + e;
    if i == s.len() {
        assert(percent_decoded(s, i) =~= Seq::empty());
        if unreserved(b) {
            assert(t[i] == b);
            assert(percent_decoded(t, i + 1) =~= Seq::empty());
            assert(decodes_cleanly(t, i + 1));
            assert(percent_decoded(t, i) =~= seq![b]);
        } else {
            assert(t[i] == 37);
            assert(hex_value(t[i + 1]) == Some((b / 16) as u8));
            assert(hex_value(t[i + 2]) == Some((b % 16) as u8));
            assert(percent_decoded(t, i + 3) =~= Seq::empty());
            assert(decodes_cleanly(t, i + 3));
            assert(percent_decoded(t, i) =~= seq![b]);
        }
    } else if escape_at(s, i) {
        lemma_decode_append(s, i + 3, b);
        assert(escape_at(t, i));
        assert(percent_decoded(t, i) =~= percent_decoded(s, i).push(b));
    } else {
        lemma_decode_append(s, i + 1, b);
        assert(!escape_at(t, i));
        assert(percent_decoded(t, i) =~= percent_decoded(s, i).push(b));
    }
}

/// Whether every `%` from position `i` on starts a complete escape.
spec fn decodes_cleanly(s: Seq<u8>, i: int) -> bool
    decreases s.len() - i,
{
    if i < 0 || i > s.len() {
        false
    } else if i == s.len() {
        true
    } else if escape_at(s, i) {
        decodes_cleanly(s, i + 3)
    } else {
        s[i] != 37 && decodes_cleanly(s, i + 1)
    }
}

proof fn lemma_percent_round(s: Seq<u8>)
    ensures
        percent_decoded(ascii_bytes(percent_encoded(s)), 0) == s,
        decodes_cleanly(ascii_bytes(percent_encoded(s)), 0),
    decreases s.len(),
{
    if s.len() > 0 {
        lemma_percent_round(s.drop_last());
        let a = ascii_bytes(percent_encoded(s.drop_last()));
        lemma_decode_append(a, 0, s.last());
        assert(ascii_bytes(percent_encoded(s)) =~= a + ascii_bytes(escaped(s.last())));
        assert(s =~= s.drop_last().push(s.last()));
    } else {
        assert(percent_decoded(ascii_bytes(percent_encoded(s)), 0) =~= s);
    }
}

/// Decoding gives back what was encoded.
pub proof fn law_percent_decoding_inverts_encoding(s: Seq<u8>)
    ensures
        percent_decoded(encode_utf8(percent_encoded(s)), 0) == s,
{
    lemma_encoded_ascii(s);
    lemma_percent_round(s);
    is_ascii_chars_encode_utf8(percent_encoded(s));
    assert(encode_utf8(percent_encoded(s)) =~= ascii_bytes(percent_encoded(s)));
}

/// A percent-encoded text holds nothing but unreserved characters and `%`:
/// in particular no line break, space, `&` or `=`.
pub proof fn law_percent_encoded_text_is_safe(s: Seq<u8>, i: int)
    requires
        0 <= i < percent_encoded(s).len(),
    ensures
        percent_encoded(s)[i] == '%' || (percent_encoded(s)[i] as u32 <= 127 && unreserved(
            percent_encoded(s)[i] as u8,
        )),
    decreases s.len(),
{
    if s.len() > 0 {
        let a = percent_encoded(s.drop_last());
        if i < a.len() {
            law_percent_encoded_text_is_safe(s.drop_last(), i);
        } else {
            assert(percent_encoded(s)[i] == escaped(s.last())[i - a.len()]);
        }
    }
}

// ---------------------------------------------------------------------------
// What a message says, line by line.

/// A request: its line, the host, the headers in their order, each on a line of
/// its own, and that the connection is not kept.
pub proof fn law_request_lines(r: Request, n: int)
    ensures
        request_bytes(r) == r.method.spec_bytes() + " ".spec_bytes() + r.target.spec_bytes()
            + " HTTP/1.1\r\nHost: ".spec_bytes() + r.host.spec_bytes() + "\r\n".spec_bytes()
            + header_lines(r.headers@, r.headers@.len() as int)
            + "Connection: close\r\n\r\n".spec_bytes(),
        header_lines(r.headers@, 0) == Seq::<u8>::empty(),
        0 < n <= r.headers@.len() ==> header_lines(r.headers@, n) == header_lines(r.headers@, n - 1)
            + r.headers@[n - 1].0.spec_bytes() + ": ".spec_bytes()
            + r.headers@[n - 1].1.spec_bytes() + "\r\n".spec_bytes(),
{
}

/// A percent sign and two hexadecimal digits stand for one byte; any other byte
/// stands for itself.
pub proof fn law_percent_escapes(s: Seq<u8>, i: int)
    requires
        0 <= i < s.len(),
    ensures
        ({
            let is_hex = |b: u8| 48 <= b <= 57 || 97 <= b <= 102 || 65 <= b <= 70;
            let digit = |b: u8|
                if b <= 57 {
                    b - 48
                } else if b >= 97 {
                    b - 87
                } else {
                    b - 55
                };
            percent_decoded(s, i) == (if s[i] == 37 && i + 2 < s.len() && is_hex(s[i + 1])
                && is_hex(s[i + 2]) {
                seq![(digit(s[i + 1]) * 16 + digit(s[i + 2])) as u8] + percent_decoded(s, i + 3)
            } else {
                seq![s[i]] + percent_decoded(s, i + 1)
            })
        }),
        percent_decoded(s, s.len() as int) == Seq::<u8>::empty(),
{
}

/// The status is the number between the first space and the next, behind
/// `HTTP/1.`, whatever follows it.
pub proof fn law_status_is_the_number_after_the_version(
    minor: Seq<char>,
    n: nat,
    reason: Seq<char>,
    line: Seq<char>,
)
    requires
        !minor.contains(' '),
    ensures
        ({
            let at = "HTTP/1."@ + minor + seq![' '] + decimal_text(n);
            let status = if n <= 65535 {
                Ok(n as u16)
            } else {
                Err(Error::BadResponse("non-numeric status code"))
            };
            &&& status_in(at) == status
            &&& status_in(at + seq![' '] + reason) == status
        }),
        !starts(line, "HTTP/1."@) ==> status_in(line) == Err::<u16, Error>(
            Error::BadResponse("not HTTP/1.x"),
        ),
        starts(line, "HTTP/1."@) && !line.contains(' ') ==> status_in(line) == Err::<u16, Error>(
            Error::BadResponse("no status code"),
        ),
{
    reveal_strlit(" ");
    reveal_strlit("HTTP/1.");
    assert(" "@ =~= seq![' ']);
    let version = "HTTP/1."@ + minor;
    let code = decimal_text(n);
    let at = version + seq![' '] + code;
    lemma_dec_value(n);
    law_numbers_are_read(n, 65535, code);
    assert forall|i: int| 0 <= i < version.len() implies #[trigger] version[i] != ' ' by {
        if i >= 7 {
            assert(minor.contains(minor[i - 7]));
        }
    }
    assert forall|i: int| 0 <= i < code.len() implies #[trigger] code[i] != ' ' by {
        assert('0' <= code[i] <= '9');
    }
    lemma_split_whole(version, ' ');
    lemma_split_whole(code, ' ');
    lemma_split_joined(version, ' ', code);
    lemma_split_joined(at, ' ', reason);
    assert(version.take(7) =~= "HTTP/1."@);
    lemma_first_part(line);
    if !line.contains(' ') {
        lemma_split_whole(line, ' ');
    }
}

proof fn lemma_first_part(line: Seq<char>)
    ensures
        starts(split(line, " "@)[0], "HTTP/1."@) <==> starts(line, "HTTP/1."@),
{
    reveal_strlit(" ");
    reveal_strlit("HTTP/1.");
    assert(" "@ =~= seq![' ']);
    lemma_find_char(line, ' ');
    let i = find(line, seq![' '], 0);
    let part = split(line, " "@)[0];
    if i < line.len() {
        assert(part == line.take(i));
    } else {
        assert(part == line);
    }
    if starts(line, "HTTP/1."@) {
        assert forall|j: int| 0 <= j < 7 implies line[j] == "HTTP/1."@[j] by {
            assert(line.take(7)[j] == line[j]);
        }
        assert(i >= 7);
        assert(part.take(7) =~= "HTTP/1."@);
    }
    if starts(part, "HTTP/1."@) {
        assert(line.take(7) =~= part.take(7));
    }
}

/// What one header line adds, by its name in any case: `content-length` the
/// length of the body, which must be a number and within the limit;
/// `transfer-encoding` that the body comes in chunks, and no other coding; any
/// other name only the header itself. The header is kept under its name in
/// lower case, with no white space around it or its value.
pub proof fn law_what_a_header_adds(h: Heads, name: Seq<char>, value: Seq<char>, max: nat)
    requires
        !name.contains(':'),
    ensures
        ({
            let r = header_in(h, name + seq![':'] + value, max);
            let key = lowered_text(trim(name));
            let kept = h.headers.push((key, trim(value)));
            let n = number_in(trim(value), usize::MAX as nat);
            if key == "content-length"@ {
                &&& n is None ==> r == Err::<Heads, Error>(Error::BadResponse("bad content-length"))
                &&& n matches Some(l) ==> r == (if l > max {
                    Err::<Heads, Error>(Error::BodyTooLarge)
                } else {
                    Ok(Heads { headers: kept, length: Some(l), chunked: h.chunked })
                })
            } else if key == "transfer-encoding"@ {
                r == (if lowered_text(trim(value)) == "chunked"@ {
                    Ok(Heads { headers: kept, length: h.length, chunked: true })
                } else {
                    Err::<Heads, Error>(Error::BadResponse("unsupported transfer encoding"))
                })
            } else {
                r == Ok::<Heads, Error>(
                    Heads { headers: kept, length: h.length, chunked: h.chunked },
                )
            }
        }),
        name.len() > 0 ==> header_in(h, name, max) == Err::<Heads, Error>(
            Error::BadResponse("header without a colon"),
        ),
{
    reveal_strlit(":");
    reveal_strlit("content-length");
    reveal_strlit("transfer-encoding");
    assert(":"@ =~= seq![':']);
    law_key_and_value_are_cut(name, ':', value);
    law_cut_at_the_first(name, ':');
    if let Some((a, b)) = split_once(name, ":"@) {
        assert((a + seq![':'] + b)[a.len() as int] == ':');
    }
}

proof fn lemma_first_blank_line(s: Seq<u8>, e: int)
    requires
        0 <= e,
    ensures
        head_end(s, e) <= s.len() ==> e <= head_end(s, e) && blank_line_before(s, head_end(s, e)),
        forall|j: int|
            e <= j <= s.len() && j < head_end(s, e) ==> !(#[trigger] blank_line_before(s, j)),
    decreases s.len() + 1 - e,
{
    if e <= s.len() && !blank_line_before(s, e) {
        lemma_first_blank_line(s, e + 1);
    }
}

/// What an accepted response is: a head that the first blank line ends, and
/// then, if its headers say so, chunks; or as many bytes as they say; or all
/// that came before the stream was closed.
pub proof fn law_response_is_head_and_body(s: Seq<u8>, max: nat, r: Reply)
    requires
        reply_in(s, max) == Ok::<Reply, Error>(r),
    ensures
        head_in(s, max) is Ok,
        ({
            let (status, h, end) = head_in(s, max)->Ok_0;
            let lines = split(decode_utf8(s.take(end - 4)), "\r\n"@);
            &&& 4 <= end <= s.len()
            &&& s[end - 4] == 13 && s[end - 3] == 10 && s[end - 2] == 13 && s[end - 1] == 10
            &&& forall|j: int|
                4 <= j < end ==> !(s[j - 4] == 13 && s[j - 3] == 10 && s[j - 2] == 13 && #[trigger] s[j
                    - 1] == 10)
            &&& status_in(lines[0]) == Ok::<u16, Error>(r.status)
            &&& heads_in(lines, lines.len() as int, max) == Ok::<Heads, Error>(h)
            &&& r.headers == h.headers
            &&& h.chunked ==> chunks_in(s, end, Seq::empty(), max) == Ok::<Seq<u8>, Error>(r.body)
            &&& !h.chunked && h.length is Some ==> r.body.len() == h.length->Some_0 && end as int
                + h.length->Some_0 <= s.len() && r.body == s.subrange(
                end,
                end as int + h.length->Some_0,
            )
            &&& !h.chunked && h.length is None ==> r.body == s.skip(end) && r.body.len() <= max
        }),
{
    let end = head_end(s, 0);
    lemma_first_blank_line(s, 0);
    assert forall|j: int|
        4 <= j < end && s[j - 4] == 13 && s[j - 3] == 10 && s[j - 2] == 13 implies #[trigger] s[j
        - 1] != 10 by {
        assert(!blank_line_before(s, j));
    }
}

/// What the header lines say is what each adds to those before it, starting
/// from none, after the status line.
pub proof fn law_header_lines_add_up(lines: Seq<Seq<char>>, n: int, max: nat)
    ensures
        heads_in(lines, 1, max) == Ok::<Heads, Error>(
            Heads { headers: Seq::empty(), length: None, chunked: false },
        ),
        n >= 1 && heads_in(lines, n, max) is Ok ==> heads_in(lines, n + 1, max) == header_in(
            heads_in(lines, n, max)->Ok_0,
            lines[n],
            max,
        ),
        n >= 1 && heads_in(lines, n, max) is Err ==> heads_in(lines, n + 1, max) == heads_in(
            lines,
            n,
            max,
        ),
        heads_in(lines, n, max) is Ok ==> header_in(
            heads_in(lines, n, max)->Ok_0,
            Seq::empty(),
            max,
        ) == heads_in(lines, n, max),
{
}

proof fn lemma_hex_run_to(s: Seq<u8>, i: int, end: int)
    requires
        0 <= i <= end < s.len(),
        forall|j: int| i <= j < end ==> hex_value(#[trigger] s[j]) is Some,
        hex_value(s[end]) is None,
    ensures
        hex_run_end(s, i) == end,
    decreases end - i,
{
    if i < end {
        lemma_hex_run_to(s, i + 1, end);
    }
}

/// A chunk is its size in hexadecimal, a line end, that many bytes and a line
/// end, and its bytes go onto the body; a chunk of size zero ends the body.
/// More than the limit is refused, and so is a chunk that is cut off or lacks
/// its line end.
pub proof fn law_chunk_goes_onto_the_body(s: Seq<u8>, pos: int, d: int, got: Seq<u8>, max: nat)
    requires
        0 <= pos < d,
        d + 1 < s.len(),
        s[d] == 13,
        s[d + 1] == 10,
        forall|j: int|
            pos <= j < d ==> 48 <= #[trigger] s[j] <= 57 || 97 <= s[j] <= 102 || 65 <= s[j] <= 70,
    ensures
        ({
            let n = hex_number(s.subrange(pos, d));
            let at = d + 2;
            let r = chunks_in(s, pos, got, max);
            &&& n == 0 ==> r == Ok::<Seq<u8>, Error>(got)
            &&& n > 0 && got.len() + n > max ==> r == Err::<Seq<u8>, Error>(Error::BodyTooLarge)
            &&& n > 0 && got.len() + n <= max && at + n + 2 > s.len() ==> r == Err::<
                Seq<u8>,
                Error,
            >(Error::Truncated)
            &&& n > 0 && got.len() + n <= max && at + n + 2 <= s.len() && !(s[at + n] == 13 && s[at
                + n + 1] == 10) ==> r == Err::<Seq<u8>, Error>(
                Error::BadResponse("chunk without its line end"),
            )
            &&& n > 0 && got.len() + n <= max && at + n + 2 <= s.len() && s[at + n] == 13 && s[at
                + n + 1] == 10 ==> r == chunks_in(
                s,
                at + n + 2,
                got + s.subrange(at, at + n),
                max,
            )
        }),
{
    assert forall|j: int| pos <= j < d implies hex_value(#[trigger] s[j]) is Some by {}
    lemma_hex_run_to(s, pos, d);
    assert(line_end(s, d) == d);
}

/// Hexadecimal: each digit is worth sixteen times the one after it.
pub proof fn law_hexadecimal_number(s: Seq<u8>, b: u8)
    requires
        48 <= b <= 57 || 97 <= b <= 102 || 65 <= b <= 70,
    ensures
        hex_number(Seq::empty()) == 0,
        hex_number(s.push(b)) == hex_number(s) * 16 + (if b <= 57 {
            b - 48
        } else if b >= 97 {
            b - 87
        } else {
            b - 55
        }),
{
    assert(s.push(b).drop_last() =~= s);
}

/// A header is the first of its name.
pub proof fn law_first_header_counts(
    h: Seq<(Seq<char>, Seq<char>)>,
    name: Seq<char>,
    i: int,
)
    requires
        0 <= i < h.len(),
        h[i].0 == name,
        forall|j: int| 0 <= j < i ==> (#[trigger] h[j]).0 != name,
    ensures
        header_named(h, name) == Some(h[i].1),
    decreases i,
{
    if i > 0 {
        assert(h[0].0 != name);
        assert(h.skip(1)[i - 1] == h[i]);
        assert forall|j: int| 0 <= j < i - 1 implies (#[trigger] h.skip(1)[j]).0 != name by {
            assert(h[j + 1].0 != name);
        }
        law_first_header_counts(h.skip(1), name, i - 1);
    }
}

/// A head is refused once it has more than 16384 bytes, and a stream that
/// closes before its head ends has none.
pub proof fn law_head_that_does_not_end(s: Seq<u8>, max: nat)
    requires
        forall|j: int|
            4 <= j <= s.len() ==> !(s[j - 4] == 13 && s[j - 3] == 10 && s[j - 2] == 13
                && #[trigger] s[j - 1] == 10),
    ensures
        s.len() > 16384 ==> reply_in(s, max) == Err::<Reply, Error>(
            Error::BadResponse("header section too large"),
        ),
        s.len() <= 16384 ==> reply_in(s, max) == Err::<Reply, Error>(
            Error::BadResponse("connection closed before end of head"),
        ),
{
    lemma_first_blank_line(s, 0);
    lemma_head_end_top(s, 0);
    let e = head_end(s, 0);
    if e <= s.len() {
        assert(s[e - 1] == 10);
    }
}

proof fn lemma_head_end_top(s: Seq<u8>, e: int)
    requires
        0 <= e <= s.len() + 1,
    ensures
        e <= head_end(s, e) <= s.len() + 1,
    decreases s.len() + 1 - e,
{
    if e <= s.len() && !blank_line_before(s, e) {
        lemma_head_end_top(s, e + 1);
    }
}

/// When a response is whole, so that nothing more need be read: once as many
/// bytes as declared are there; once the last chunk is; once it is refused,
/// other than for what is still to come; and without either only when there is
/// more of it than is taken. While the head is not there it is not, unless there
/// is too much.
pub proof fn law_when_a_response_is_whole(s: Seq<u8>, max: nat)
    ensures
        (forall|j: int|
            4 <= j <= s.len() ==> !(s[j - 4] == 13 && s[j - 3] == 10 && s[j - 2] == 13
                && #[trigger] s[j - 1] == 10)) ==> (settled(s, max) <==> s.len() > 16384),
        head_in(s, max) matches Ok((status, h, end)) ==> {
            &&& !h.chunked && h.length is Some ==> (settled(s, max) <==> end as int
                + h.length->Some_0 <= s.len())
            &&& !h.chunked && h.length is None ==> (settled(s, max) <==> s.len() - end > max)
            &&& h.chunked ==> (settled(s, max) <==> chunks_in(s, end, Seq::empty(), max) != Err::<
                Seq<u8>,
                Error,
            >(Error::Truncated))
        },
        head_in(s, max) is Err && (exists|j: int|
            4 <= j <= s.len() && s[j - 4] == 13 && s[j - 3] == 10 && s[j - 2] == 13
                && #[trigger] s[j - 1] == 10) ==> settled(s, max),
{
    let e = head_end(s, 0);
    lemma_first_blank_line(s, 0);
    lemma_head_end_top(s, 0);
    if e <= s.len() {
        assert(s[e - 1] == 10);
    }
    if exists|j: int|
        4 <= j <= s.len() && s[j - 4] == 13 && s[j - 3] == 10 && s[j - 2] == 13 && #[trigger] s[j
            - 1] == 10 {
        let j = choose|j: int|
            4 <= j <= s.len() && s[j - 4] == 13 && s[j - 3] == 10 && s[j - 2] == 13 && #[trigger] s[j
                - 1] == 10;
        assert(blank_line_before(s, j));
        assert(e <= s.len());
    }
}

} // verus!
