//! HTTP tracker announces over I2P.
//!
//! An announce is an HTTP GET to the tracker's I2P destination:
//!
//! - [`build_announce`] turns an announce URL and [`AnnounceParams`] into a
//!   request. There is no real port, and the client's own destination is
//!   carried as the `ip` query parameter (base64) since there is no IP.
//! - [`parse_response`] decodes the bencoded reply. The compact peer list is
//!   the I2P form: concatenated 32-byte destination hashes, no port.
//! - [`AnnounceState`] is the timing state machine: honor the tracker's
//!   interval, back off on failure, and know which event to send next.
use vstd::prelude::*;
#[allow(unused_imports)]
use vstd::string::*;
#[allow(unused_imports)]
use vstd::utf8::*;
use crate::bencode;
use crate::bencode::{decoded, trees, Tree, Value};
use crate::config::{find_space, opt_text, space_at};
use crate::decimal::{decimal, decimal_text, lemma_decimal, push_decimal};
use crate::dest::{unpack, unpacked, DestHash};
use crate::extension::text_in;
use crate::http;
use crate::http::{
    breaks_lines, header_named, keeps_lines, percent_encode, percent_encoded, read_response,
    reply_in, request_bytes, Request,
};
use crate::metadata::u32_in;
use crate::metainfo::{url_parts, value_text, TrackerUrl, UrlParts};
use crate::paths::names_view;
use crate::scan::{
    copy_chars, find, find_in, is_text, lemma_find, lemma_find_char, lemma_found_char,
    lemma_split_joined, lemma_split_whole, lowercased, lowered_text, occurs, split, split_at_first,
    split_on, split_once, texts,
};
use crate::strings::{chars_of, string_of, utf8_text};
use crate::text::{scrub_bounded, scrubbed_bounded};

verus! {

/// What clove calls itself to trackers.
pub const USER_AGENT: &'static str = "clove/2026.08";

/// Minimum interval clove will wait between announces regardless of what a
/// tracker asks for, in seconds.
pub const MIN_ANNOUNCE_INTERVAL: u64 = 60;

/// Longest time between announces that keep failing, in seconds.
pub const MAX_BACKOFF: u64 = 1800;

/// How long a whole announce may take, first byte written to last byte read,
/// in seconds. A socket timeout bounds any *single* read or write; this bounds
/// their sum.
pub const ANNOUNCE_DEADLINE: u64 = 120;

/// What callers should set as the per-read/write socket bound, in seconds.
pub const ANNOUNCE_IO_TIMEOUT: u64 = 30;

/// Largest announce response body clove will accept.
pub const MAX_RESPONSE_BYTES: usize = 65536;

/// Longest tracker-supplied message clove will repeat back.
pub const MAX_TRACKER_TEXT: usize = 512;

/// Longest response prefix carried in an [`Error::NotBencode`].
pub const PREVIEW_LEN: usize = 512;

/// The event an announce carries.
#[derive(Clone, Copy, PartialEq, Eq, Debug, Structural)]
pub enum Event {
    /// First announce to this tracker for this torrent.
    Started,
    /// Graceful departure.
    Stopped,
    /// Download just completed.
    Completed,
    /// A periodic keep-alive announce (no `event` key).
    Periodic,
}

/// The `event` query value of an event, if it has one.
pub open spec fn event_text(e: Event) -> Option<Seq<char>> {
    match e {
        Event::Started => Some("started"@),
        Event::Stopped => Some("stopped"@),
        Event::Completed => Some("completed"@),
        Event::Periodic => None,
    }
}

impl Event {
    /// The `event` query value, or `None` for a periodic announce.
    pub fn query_value(self) -> (r: Option<&'static str>)
        ensures
            match r {
                Some(s) => event_text(self) == Some(s@),
                None => event_text(self) is None,
            },
    {
        match self {
            Event::Started => Some("started"),
            Event::Stopped => Some("stopped"),
            Event::Completed => Some("completed"),
            Event::Periodic => None,
        }
    }
}

/// Everything an announce reports about our state.
pub struct AnnounceParams<'a> {
    /// The torrent's 20-byte info-hash.
    pub info_hash: [u8; 20],
    /// Our 20-byte peer id.
    pub peer_id: [u8; 20],
    /// Bytes uploaded so far.
    pub uploaded: u64,
    /// Bytes downloaded so far.
    pub downloaded: u64,
    /// Bytes still needed (0 when seeding).
    pub left: u64,
    /// The event to report.
    pub event: Event,
    /// Peers requested.
    pub numwant: u32,
    /// Our own I2P destination, base64: the I2P stand-in for an IP.
    pub our_dest_b64: &'a str,
}

/// A tracker's decoded reply.
#[derive(Clone, Debug, PartialEq, Eq)]
pub struct AnnounceResponse {
    /// Seconds the tracker asks us to wait before the next announce.
    pub interval: u32,
    /// The tracker's `min interval`, if given.
    pub min_interval: Option<u32>,
    /// Peers to try, as destination hashes.
    pub peers: Vec<DestHash>,
    /// Peers to try that the tracker named by their full base64 destination,
    /// still to be hashed (see [`AnnounceResponse::add_hashed`]).
    pub destinations: Vec<String>,
}

/// Why an announce failed.
#[derive(Debug, PartialEq, Eq)]
pub enum Error {
    /// The announce URL was not a parseable I2P HTTP URL.
    BadUrl,
    /// HTTP transport/parse error.
    Http(http::Error),
    /// Tracker returned a non-200 status.
    HttpStatus(u16),
    /// The tracker replied with a `failure reason`.
    TrackerFailure(String),
    /// The bencoded response was malformed.
    BadResponse(&'static str),
    /// The body was not bencode at all. Carries enough of the response to
    /// identify it: what the tracker said it was, how much of it there was,
    /// and a printable account of it.
    NotBencode {
        /// The `Content-Type` the tracker sent, if any.
        content_type: Option<String>,
        /// Full body length, which the preview may not show all of.
        len: usize,
        /// Printable account, bounded by [`PREVIEW_LEN`].
        preview: String,
    },
}

/// What an [`Error`] stands for.
#[verifier::ext_equal]
pub enum Failure {
    BadUrl,
    Http(http::Error),
    HttpStatus(u16),
    TrackerFailure(Seq<char>),
    BadResponse(Seq<char>),
    NotBencode { content_type: Option<Seq<char>>, len: nat, preview: Seq<char> },
}

impl View for Error {
    type V = Failure;

    open spec fn view(&self) -> Failure {
        match *self {
            Error::BadUrl => Failure::BadUrl,
            Error::Http(e) => Failure::Http(e),
            Error::HttpStatus(s) => Failure::HttpStatus(s),
            Error::TrackerFailure(t) => Failure::TrackerFailure(t@),
            Error::BadResponse(w) => Failure::BadResponse(w@),
            Error::NotBencode { content_type, len, preview } => Failure::NotBencode {
                content_type: opt_text(content_type),
                len: len as nat,
                preview: preview@,
            },
        }
    }
}

// ---------------------------------------------------------------------------
// Building an announce.

/// The texts, one after the other.
pub open spec fn glued(parts: Seq<Seq<char>>) -> Seq<char>
    decreases parts.len(),
{
    if parts.len() == 0 {
        Seq::empty()
    } else {
        glued(parts.drop_last()) + parts.last()
    }
}

/// The parts of the query that an announce adds, up to our destination.
pub open spec fn query_head(p: AnnounceParams) -> Seq<Seq<char>> {
    seq![
        "info_hash="@,
        percent_encoded(p.info_hash@),
        "&peer_id="@,
        percent_encoded(p.peer_id@),
        "&port=6881&uploaded="@,
        decimal_text(p.uploaded as nat),
        "&downloaded="@,
        decimal_text(p.downloaded as nat),
        "&left="@,
        decimal_text(p.left as nat),
        "&numwant="@,
        decimal_text(p.numwant as nat),
        "&compact=1"@,
    ]
}

/// What follows our destination in the query.
pub open spec fn query_tail(p: AnnounceParams) -> Seq<char> {
    match event_text(p.event) {
        Some(e) => "&event="@ + e,
        None => Seq::empty(),
    }
}

/// What separates the query already in a path, if any, from ours.
pub open spec fn separator(path: Seq<char>) -> Seq<char> {
    if path.contains('?') {
        "&"@
    } else {
        "?"@
    }
}

/// The request target of an announce.
pub open spec fn target_of(path: Seq<char>, p: AnnounceParams) -> Seq<char> {
    path + separator(path) + glued(query_head(p)) + "&ip="@ + percent_encoded(
        encode_utf8(p.our_dest_b64@),
    ) + query_tail(p)
}

/// An announce on the wire: a GET for the target, to the authority as written.
pub open spec fn announce_bytes(u: UrlParts, p: AnnounceParams) -> Seq<u8> {
    "GET".spec_bytes() + " ".spec_bytes() + encode_utf8(target_of(u.path_and_query, p))
        + " HTTP/1.1\r\nHost: ".spec_bytes() + encode_utf8(u.authority) + "\r\n".spec_bytes()
        + "User-Agent".spec_bytes() + ": ".spec_bytes() + USER_AGENT.spec_bytes()
        + "\r\n".spec_bytes() + "Connection: close\r\n\r\n".spec_bytes()
}

proof fn lemma_clean_concat(a: Seq<char>, b: Seq<char>)
    requires
        !breaks_lines(a),
        !breaks_lines(b),
    ensures
        !breaks_lines(a + b),
{
    let c = a + b;
    assert forall|i: int| 0 <= i < c.len() implies c[i] != '\r' && c[i] != '\n' by {
        if i < a.len() {
            assert(a.contains(a[i]));
        } else {
            assert(b.contains(b[i - a.len()]));
        }
    }
}

proof fn lemma_clean_glued(parts: Seq<Seq<char>>)
    requires
        forall|i: int| 0 <= i < parts.len() ==> !breaks_lines(#[trigger] parts[i]),
    ensures
        !breaks_lines(glued(parts)),
    decreases parts.len(),
{
    if parts.len() > 0 {
        assert forall|i: int| 0 <= i < parts.drop_last().len() implies !breaks_lines(
            #[trigger] parts.drop_last()[i],
        ) by {
            assert(!breaks_lines(parts[i]));
        }
        lemma_clean_glued(parts.drop_last());
        assert(!breaks_lines(parts[parts.len() - 1]));
        lemma_clean_concat(glued(parts.drop_last()), parts.last());
    }
}

proof fn lemma_clean_percent(s: Seq<u8>)
    ensures
        !breaks_lines(percent_encoded(s)),
{
    let t = percent_encoded(s);
    assert forall|i: int| 0 <= i < t.len() implies t[i] != '\r' && t[i] != '\n' by {
        http::law_percent_encoded_text_is_safe(s, i);
    }
}

proof fn lemma_clean_decimal(n: nat)
    ensures
        !breaks_lines(decimal_text(n)),
{
    lemma_decimal(n);
    let t = decimal_text(n);
    assert forall|i: int| 0 <= i < t.len() implies t[i] != '\r' && t[i] != '\n' by {
        assert(crate::decimal::is_digit(decimal(n)[i]));
    }
}

proof fn lemma_clean_literals()
    ensures
        !breaks_lines("info_hash="@),
        !breaks_lines("&peer_id="@),
        !breaks_lines("&port=6881&uploaded="@),
        !breaks_lines("&downloaded="@),
        !breaks_lines("&left="@),
        !breaks_lines("&numwant="@),
        !breaks_lines("&compact=1"@),
        !breaks_lines("&ip="@),
        !breaks_lines("&event="@),
        !breaks_lines("started"@),
        !breaks_lines("stopped"@),
        !breaks_lines("completed"@),
        !breaks_lines("&"@),
        !breaks_lines("?"@),
        !breaks_lines("GET"@),
        !breaks_lines("User-Agent"@),
        !breaks_lines(USER_AGENT@),
{
    reveal_strlit("info_hash=");
    reveal_strlit("&peer_id=");
    reveal_strlit("&port=6881&uploaded=");
    reveal_strlit("&downloaded=");
    reveal_strlit("&left=");
    reveal_strlit("&numwant=");
    reveal_strlit("&compact=1");
    reveal_strlit("&ip=");
    reveal_strlit("&event=");
    reveal_strlit("started");
    reveal_strlit("stopped");
    reveal_strlit("completed");
    reveal_strlit("&");
    reveal_strlit("?");
    reveal_strlit("GET");
    reveal_strlit("User-Agent");
    reveal_strlit("clove/2026.08");
}

/// Nothing that an accepted URL can say, nor anything we report, breaks a line
/// of the announce.
pub proof fn law_announce_has_no_extra_line(url: Seq<char>, u: UrlParts, p: AnnounceParams)
    requires
        url_parts(url) == Some(u),
    ensures
        !breaks_lines(target_of(u.path_and_query, p)),
        !breaks_lines(u.authority),
{
    crate::metainfo::law_accepted_url_is_clean(url, u);
    let path = u.path_and_query;
    assert(!breaks_lines(path)) by {
        assert forall|i: int| 0 <= i < path.len() implies path[i] != '\r' && path[i] != '\n' by {
            assert(!crate::metainfo::is_ctl(path[i]));
        }
    }
    assert(!breaks_lines(u.authority)) by {
        assert forall|i: int| 0 <= i < u.authority.len() implies u.authority[i] != '\r'
            && u.authority[i] != '\n' by {
            assert(!crate::metainfo::is_ctl(u.authority[i]));
        }
    }
    lemma_clean_literals();
    let head = query_head(p);
    assert forall|i: int| 0 <= i < head.len() implies !breaks_lines(#[trigger] head[i]) by {
        lemma_clean_percent(p.info_hash@);
        lemma_clean_percent(p.peer_id@);
        lemma_clean_decimal(p.uploaded as nat);
        lemma_clean_decimal(p.downloaded as nat);
        lemma_clean_decimal(p.left as nat);
        lemma_clean_decimal(p.numwant as nat);
    }
    lemma_clean_glued(head);
    let dest = percent_encoded(encode_utf8(p.our_dest_b64@));
    lemma_clean_percent(encode_utf8(p.our_dest_b64@));
    let a = path + separator(path);
    lemma_clean_concat(path, separator(path));
    let b = a + glued(head);
    lemma_clean_concat(a, glued(head));
    let c = b + "&ip="@;
    lemma_clean_concat(b, "&ip="@);
    let d = c + dest;
    lemma_clean_concat(c, dest);
    if let Some(e) = event_text(p.event) {
        lemma_clean_concat("&event="@, e);
    }
    lemma_clean_concat(d, query_tail(p));
}

fn build_target(path: &str, params: &AnnounceParams) -> (t: String)
    ensures
        t@ == target_of(path@, *params),
{
    let mut t = path.to_owned();
    if crate::scan::contains_char(chars_of(path).as_slice(), '?') {
        t.append("&");
    } else {
        t.append("?");
    }
    let ghost start = t@;
    let hash = percent_encode(params.info_hash.as_slice());
    let id = percent_encode(params.peer_id.as_slice());
    t.append("info_hash=");
    t.append(hash.as_str());
    t.append("&peer_id=");
    t.append(id.as_str());
    t.append("&port=6881&uploaded=");
    push_decimal(&mut t, params.uploaded);
    t.append("&downloaded=");
    push_decimal(&mut t, params.downloaded);
    t.append("&left=");
    push_decimal(&mut t, params.left);
    t.append("&numwant=");
    push_decimal(&mut t, params.numwant as u64);
    t.append("&compact=1");
    proof {
        lemma_glued_head(*params, start, t@);
    }
    t.append("&ip=");
    let dest = percent_encode(params.our_dest_b64.as_bytes());
    t.append(dest.as_str());
    if let Some(event) = params.event.query_value() {
        t.append("&event=");
        t.append(event);
    }
    proof {
        assert(t@ =~= target_of(path@, *params));
    }
    t
}

proof fn lemma_glued_head(p: AnnounceParams, start: Seq<char>, t: Seq<char>)
    requires
        t == start + "info_hash="@ + percent_encoded(p.info_hash@) + "&peer_id="@
            + percent_encoded(p.peer_id@) + "&port=6881&uploaded="@ + decimal_text(
            p.uploaded as nat,
        ) + "&downloaded="@ + decimal_text(p.downloaded as nat) + "&left="@ + decimal_text(
            p.left as nat,
        ) + "&numwant="@ + decimal_text(p.numwant as nat) + "&compact=1"@,
    ensures
        t == start + glued(query_head(p)),
{
    let h = query_head(p);
    lemma_glued_step(h, 0, start);
    lemma_glued_step(h, 1, start);
    lemma_glued_step(h, 2, start);
    lemma_glued_step(h, 3, start);
    lemma_glued_step(h, 4, start);
    lemma_glued_step(h, 5, start);
    lemma_glued_step(h, 6, start);
    lemma_glued_step(h, 7, start);
    lemma_glued_step(h, 8, start);
    lemma_glued_step(h, 9, start);
    lemma_glued_step(h, 10, start);
    lemma_glued_step(h, 11, start);
    lemma_glued_step(h, 12, start);
    assert(h.take(0) =~= Seq::empty());
    assert(start + glued(h.take(0)) =~= start);
    assert(h.take(13) =~= h);
}

proof fn lemma_glued_step(parts: Seq<Seq<char>>, k: int, start: Seq<char>)
    requires
        0 <= k < parts.len(),
    ensures
        start + glued(parts.take(k + 1)) == start + glued(parts.take(k)) + parts[k],
{
    assert(parts.take(k + 1).drop_last() =~= parts.take(k));
    assert(start + (glued(parts.take(k)) + parts[k]) =~= start + glued(parts.take(k)) + parts[k]);
}

/// Build the announce request for `url`. Returns the host (for dialing) and
/// the encoded HTTP request bytes.
///
/// The dial uses the bare host; the `Host` header gets the authority as
/// written, port and all.
pub fn build_announce(url: &str, params: &AnnounceParams) -> (r: Result<(String, Vec<u8>), Error>)
    ensures
        match r {
            Ok((host, request)) => url_parts(url@) is Some && host@ == url_parts(
                url@,
            )->Some_0.host && request@ == announce_bytes(url_parts(url@)->Some_0, *params),
            Err(e) => e@ == Failure::BadUrl && url_parts(url@) is None,
        },
{
    let parsed = match TrackerUrl::parse(url) {
        Some(u) => u,
        None => return Err(Error::BadUrl),
    };
    let target = build_target(parsed.path_and_query.as_str(), params);
    let headers: [(&str, &str); 1] = [("User-Agent", USER_AGENT)];
    let request = Request {
        method: "GET",
        target: target.as_str(),
        host: parsed.authority.as_str(),
        headers: headers.as_slice(),
    };
    proof {
        law_announce_has_no_extra_line(url@, parsed@, *params);
        lemma_clean_literals();
        assert(request.headers@.len() == 1);
        assert(request.headers@[0] == ("User-Agent", USER_AGENT));
        assert(keeps_lines(request));
        reveal_with_fuel(http::header_lines, 2);
        assert(request_bytes(request) =~= announce_bytes(parsed@, *params));
    }
    match request.encode() {
        Some(bytes) => Ok((parsed.host, bytes)),
        None => Err(Error::BadUrl),
    }
}


// ---------------------------------------------------------------------------
// What of an announce is logged.

/// What is shown of one field of a query: an `ip` loses its value.
pub open spec fn redacted_field(f: Seq<char>) -> Seq<char> {
    match split_once(f, "="@) {
        Some((key, _)) => if key == "ip"@ {
            "ip=<redacted>"@
        } else {
            f
        },
        None => f,
    }
}

/// What is shown of the first `n` fields of a query, separators and all.
pub open spec fn redacted_fields(fields: Seq<Seq<char>>, n: int) -> Seq<char>
    decreases n,
{
    if n <= 0 {
        Seq::empty()
    } else {
        redacted_fields(fields, n - 1) + (if n == 1 {
            "?"@
        } else {
            "&"@
        }) + redacted_field(fields[n - 1])
    }
}

/// What is shown of a request target.
pub open spec fn redacted(target: Seq<char>) -> Seq<char> {
    match split_once(target, "?"@) {
        None => target,
        Some((path, query)) => {
            let fields = split(query, "&"@);
            path + redacted_fields(fields, fields.len() as int)
        },
    }
}

/// The first position that holds a line break, or the length.
pub open spec fn first_break(s: Seq<u8>, i: int) -> int
    decreases s.len() - i,
{
    if i < 0 || i >= s.len() {
        s.len() as int
    } else if s[i] == 13 || s[i] == 10 {
        i
    } else {
        first_break(s, i + 1)
    }
}

/// The target on the first line of a request; a slash if there is none.
pub open spec fn target_in(request: Seq<u8>) -> Seq<char> {
    let line = request.take(first_break(request, 0));
    let parts = split(decode_utf8(line), " "@);
    if valid_utf8(line) && parts.len() > 1 {
        parts[1]
    } else {
        "/"@
    }
}

/// Replace the value of the `ip` query parameter with a placeholder.
///
/// Splits on the separators a query is built from rather than searching for
/// `ip=`, so a *different* parameter ending in those two letters keeps its
/// value and an `ip` anywhere in the query loses its own.
pub fn redact_ip_param(target: &str) -> (r: String)
    ensures
        r@ == redacted(target@),
{
    proof {
        reveal_strlit("?");
        reveal_strlit("&");
        reveal_strlit("=");
    }
    let chars = chars_of(target);
    let (path, query) = match split_at_first(chars.as_slice(), chars_of("?").as_slice()) {
        Some(p) => p,
        None => return target.to_owned(),
    };
    let fields = split_on(query.as_slice(), chars_of("&").as_slice());
    let ghost fs = texts(fields@);
    let mut out = string_of(path.as_slice());
    let mut i: usize = 0;
    proof {
        assert(path@ + redacted_fields(fs, 0) =~= path@);
    }
    while i < fields.len()
        invariant
            i <= fields@.len(),
            fs == texts(fields@),
            "="@.len() > 0,
            out@ == path@ + redacted_fields(fs, i as int),
        decreases fields.len() - i,
    {
        if i == 0 {
            out.append("?");
        } else {
            out.append("&");
        }
        proof {
            assert(fs[i as int] == fields@[i as int]@);
        }
        let is_ip = match split_at_first(fields[i].as_slice(), chars_of("=").as_slice()) {
            Some((key, _)) => is_text(key.as_slice(), "ip"),
            None => false,
        };
        if is_ip {
            out.append("ip=<redacted>");
        } else {
            out.append(string_of(fields[i].as_slice()).as_str());
        }
        proof {
            assert(out@ =~= path@ + redacted_fields(fs, i as int + 1));
        }
        i = i + 1;
    }
    out
}

/// The URL an encoded announce request actually asks for, reassembled from the
/// bytes on the wire, with our own destination taken back out.
///
/// Taken from the request rather than rebuilt from the parameters, so what
/// gets logged is what was sent. `ip` is our full public destination, and this
/// URL is logged on every failed announce; redacted rather than dropped, so
/// what is left still says an `ip` was sent and where in the URL it sat.
pub fn announced_url(host: &str, request: &[u8]) -> (r: String)
    ensures
        r@ == "http://"@ + host@ + redacted(target_in(request@)),
{
    proof {
        reveal_strlit(" ");
    }
    let mut end: usize = 0;
    while end < request.len() && request[end] != 13 && request[end] != 10
        invariant
            end <= request@.len(),
            first_break(request@, 0) == first_break(request@, end as int),
        decreases request.len() - end,
    {
        end = end + 1;
    }
    let line = vstd::slice::slice_subrange(request, 0, end);
    proof {
        assert(line@ =~= request@.take(first_break(request@, 0)));
    }
    let mut url = "http://".to_owned();
    url.append(host);
    let ghost head = url@;
    if let Some(text) = utf8_text(line) {
        let parts = split_on(chars_of(text).as_slice(), chars_of(" ").as_slice());
        if parts.len() > 1 {
            proof {
                assert(texts(parts@)[1] == parts@[1]@);
            }
            let target = string_of(parts[1].as_slice());
            url.append(redact_ip_param(target.as_str()).as_str());
            return url;
        }
    }
    url.append(redact_ip_param("/").as_str());
    url
}

// ---------------------------------------------------------------------------
// Saying what a body is that is no announce.

/// How std's `Debug` writes a text: quoted and escaped.
pub uninterp spec fn debug_text(s: Seq<char>) -> Seq<char>;

/// `<str as Debug>::fmt`, through `format!`: a text in quotes, with what is
/// not printable escaped. Which characters are escaped, and how, is not
/// stated.
#[verifier::external_body]
fn quote_debug(s: &str) -> (r: String)
    ensures
        r@ == debug_text(s@),
{
    format!("{s:?}")
}

/// Whether a byte is ASCII white space.
pub open spec fn is_ascii_space(b: u8) -> bool {
    b == 32 || b == 9 || b == 10 || b == 12 || b == 13
}

/// The first position at or after `i` that holds no ASCII white space.
pub open spec fn spaces_end(s: Seq<u8>, i: int) -> int
    decreases s.len() - i,
{
    if 0 <= i < s.len() && is_ascii_space(s[i]) {
        spaces_end(s, i + 1)
    } else {
        i
    }
}

/// Whether a text stands in the bytes at position `i`.
pub open spec fn bytes_start(s: Seq<u8>, i: int, t: &str) -> bool {
    i + t.spec_bytes().len() <= s.len() && s.subrange(i, i + t.spec_bytes().len())
        == t.spec_bytes()
}

/// Whether a body opens like markup, ignoring leading white space.
pub open spec fn is_html(s: Seq<u8>) -> bool {
    let i = spaces_end(s, 0);
    bytes_start(s, i, "<!DOCTYPE") || bytes_start(s, i, "<!doctype") || bytes_start(s, i, "<html")
        || bytes_start(s, i, "<HTML")
}

/// What stands from the first `open` up to the following `close`.
pub open spec fn between_texts(s: Seq<char>, open: Seq<char>, close: Seq<char>) -> Option<
    Seq<char>,
> {
    let i = find(s, open, 0);
    if i >= s.len() {
        None
    } else {
        let rest = s.skip(i);
        let j = find(rest, close, 0);
        if j >= rest.len() {
            None
        } else {
            Some(rest.take(j))
        }
    }
}

/// Whether `rest` opens the named tag: with a space or its end after the name.
pub open spec fn is_tag(rest: Seq<char>, name: Seq<char>) -> bool {
    let n = name.len() as int;
    rest.len() > n + 1 && lowered_text(rest.subrange(1, 1 + n)) == name && (rest[1 + n] == ' '
        || rest[1 + n] == '>' || rest[1 + n] == '\t' || rest[1 + n] == '\n' || rest[1 + n] == '\r')
}

/// What a tag that `rest` opens reaches to: the contents of `head`, `style`
/// and `script` go with them.
pub open spec fn tag_close(rest: Seq<char>) -> Seq<char> {
    if is_tag(rest, "head"@) {
        "</head>"@
    } else if is_tag(rest, "style"@) {
        "</style>"@
    } else if is_tag(rest, "script"@) {
        "</script>"@
    } else {
        ">"@
    }
}

/// A text without its markup. An unterminated tag ends it.
pub open spec fn stripped(s: Seq<char>) -> Seq<char>
    decreases s.len(),
{
    let i = find(s, "<"@, 0);
    if i < 0 || i >= s.len() {
        s
    } else {
        let rest = s.skip(i);
        let close = tag_close(rest);
        let j = find(rest, close, 0);
        if j < 0 || j >= rest.len() || close.len() == 0 || j + close.len() > rest.len() {
            s.take(i)
        } else {
            s.take(i) + stripped(rest.skip(j + close.len()))
        }
    }
}

/// The words of a text: what stands between its white space.
pub open spec fn words(s: Seq<char>) -> Seq<Seq<char>>
    decreases s.len(),
{
    let i = space_at(s, 0);
    if s.len() == 0 {
        Seq::empty()
    } else if i <= 0 {
        words(s.skip(1))
    } else if i >= s.len() {
        seq![s]
    } else {
        seq![s.take(i)] + words(s.skip(i + 1))
    }
}

/// The first `n` words, with a space between them.
pub open spec fn spaced(w: Seq<Seq<char>>, n: int) -> Seq<char>
    decreases n,
{
    if n <= 0 {
        Seq::empty()
    } else if n == 1 {
        w[0]
    } else {
        spaced(w, n - 1) + " "@ + w[n - 1]
    }
}

/// A text as one line: its words, with a space between them.
pub open spec fn collapsed(s: Seq<char>) -> Seq<char> {
    spaced(words(s), words(s).len() as int)
}

/// The title of a page, if it has one with words in it.
pub open spec fn title_in(s: Seq<char>) -> Option<Seq<char>> {
    match between_texts(s, "<title"@, "</title>"@) {
        None => None,
        Some(t) => match split_once(t, ">"@) {
            None => None,
            Some((_, inner)) => if collapsed(inner).len() > 0 {
                Some(collapsed(inner))
            } else {
                None
            },
        },
    }
}

/// The first of `n` characters.
pub open spec fn at_most(s: Seq<char>, n: int) -> Seq<char> {
    if s.len() > n {
        s.take(n)
    } else {
        s
    }
}

/// What is said of a page whose title and first words are quoted already.
pub open spec fn page_line(title: Option<Seq<char>>, words: Option<Seq<char>>) -> Seq<char> {
    "HTML page"@ + (match title {
        Some(t) => " titled "@ + t,
        None => Seq::empty(),
    }) + (match words {
        Some(w) => "; text begins "@ + w,
        None => Seq::empty(),
    })
}

/// The first visible words of a page, if it has any.
pub open spec fn first_words(s: Seq<char>) -> Option<Seq<char>> {
    let text = collapsed(stripped(s));
    if text.len() > 0 {
        Some(at_most(text, PREVIEW_LEN as int / 2))
    } else {
        None
    }
}

/// A text as std's `Debug` writes it, if there is one.
pub open spec fn quoted(s: Option<Seq<char>>) -> Option<Seq<char>> {
    match s {
        Some(t) => Some(debug_text(t)),
        None => None,
    }
}

/// What is said of a page: its title and its first visible words.
pub open spec fn page_summary(s: Seq<char>) -> Seq<char> {
    page_line(quoted(title_in(s)), quoted(first_words(s)))
}

/// What is shown for a byte.
pub open spec fn printable(b: u8) -> char {
    if 0x20 <= b < 0x7f {
        b as char
    } else {
        '.'
    }
}

/// What is said of a body that is not bencode.
pub open spec fn body_preview(s: Seq<u8>) -> Seq<char> {
    let n = if s.len() > PREVIEW_LEN {
        PREVIEW_LEN as nat
    } else {
        s.len()
    };
    let shown = Seq::new(n, |i: int| printable(s[i]));
    if s.len() == 0 {
        "<empty body>"@
    } else if is_html(s) && valid_utf8(s) {
        page_summary(decode_utf8(s))
    } else if s.len() > PREVIEW_LEN {
        shown.push('\u{2026}')
    } else {
        shown
    }
}

fn starts_at(body: &[u8], i: usize, t: &str) -> (r: bool)
    requires
        i <= body@.len(),
    ensures
        r == bytes_start(body@, i as int, t),
{
    let b = t.as_bytes();
    if b.len() > body.len() - i {
        return false;
    }
    crate::strings::bytes_eq(vstd::slice::slice_subrange(body, i, i + b.len()), b)
}

/// Whether a body opens like markup, ignoring leading whitespace.
fn looks_like_html(body: &[u8]) -> (r: bool)
    ensures
        r == is_html(body@),
{
    let mut i: usize = 0;
    while i < body.len() && (body[i] == 32 || body[i] == 9 || body[i] == 10 || body[i] == 12
        || body[i] == 13)
        invariant
            i <= body@.len(),
            spaces_end(body@, 0) == spaces_end(body@, i as int),
        decreases body.len() - i,
    {
        i = i + 1;
    }
    starts_at(body, i, "<!DOCTYPE") || starts_at(body, i, "<!doctype") || starts_at(
        body,
        i,
        "<html",
    ) || starts_at(body, i, "<HTML")
}

/// The characters from the first `open` up to the following `close`.
fn between(text: &[char], open: &[char], close: &[char]) -> (r: Option<Vec<char>>)
    requires
        open@.len() > 0,
        close@.len() > 0,
    ensures
        match r {
            Some(v) => between_texts(text@, open@, close@) == Some(v@),
            None => between_texts(text@, open@, close@) is None,
        },
{
    let i: usize = find_in(text, open, 0);
    if i >= text.len() {
        return None;
    }
    let rest = copy_chars(text, i, text.len());
    proof {
        assert(rest@ =~= text@.skip(i as int));
    }
    let j: usize = find_in(rest.as_slice(), close, 0);
    if j >= rest.len() {
        return None;
    }
    let r = copy_chars(rest.as_slice(), 0, j);
    proof {
        assert(r@ =~= rest@.take(j as int));
    }
    Some(r)
}

/// Whether `rest` opens the named tag: `<style>` or `<style type=..>`, but not
/// `<styleish>`.
fn opens_tag(rest: &[char], name: &str) -> (r: bool)
    ensures
        r == is_tag(rest@, name@),
{
    let n = chars_of(name);
    if rest.len() < 2 || rest.len() - 2 < n.len() {
        return false;
    }
    let k: usize = n.len();
    let word = lowercased(copy_chars(rest, 1, 1 + k).as_slice());
    let c: char = rest[1 + k];
    crate::strings::chars_eq(word.as_slice(), n.as_slice()) && (c == ' ' || c == '>' || c == '\t'
        || c == '\n' || c == '\r')
}

/// Drop tags, and the contents of `<head>`/`<style>`/`<script>` with them:
/// those are the bulk of a modern page and none of its meaning.
fn strip_markup(text: &[char]) -> (out: Vec<char>)
    ensures
        out@ == stripped(text@),
{
    proof {
        reveal_strlit("<");
        reveal_strlit(">");
        reveal_strlit("</head>");
        reveal_strlit("</style>");
        reveal_strlit("</script>");
    }
    let mut out: Vec<char> = Vec::new();
    let mut rest = copy_chars(text, 0, text.len());
    proof {
        assert(rest@ =~= text@);
        assert(out@ + stripped(rest@) =~= stripped(text@));
    }
    loop
        invariant
            stripped(text@) == out@ + stripped(rest@),
            "<"@.len() == 1,
            ">"@.len() == 1,
            "</head>"@.len() == 7,
            "</style>"@.len() == 8,
            "</script>"@.len() == 9,
        decreases rest@.len(),
    {
        let ghost had = out@;
        let ghost r0 = rest@;
        let open: usize = find_in(rest.as_slice(), chars_of("<").as_slice(), 0);
        proof {
            lemma_find(r0, "<"@, 0);
        }
        if open >= rest.len() {
            out.append(&mut rest);
            return out;
        }
        let mut head = copy_chars(rest.as_slice(), 0, open);
        let tail = copy_chars(rest.as_slice(), open, rest.len());
        proof {
            assert(head@ =~= r0.take(open as int));
            assert(tail@ =~= r0.skip(open as int));
        }
        let ghost h = head@;
        out.append(&mut head);
        let close = if opens_tag(tail.as_slice(), "head") {
            chars_of("</head>")
        } else if opens_tag(tail.as_slice(), "style") {
            chars_of("</style>")
        } else if opens_tag(tail.as_slice(), "script") {
            chars_of("</script>")
        } else {
            chars_of(">")
        };
        let j: usize = find_in(tail.as_slice(), close.as_slice(), 0);
        proof {
            lemma_find(tail@, close@, 0);
        }
        if j >= tail.len() {
            return out;
        }
        rest = copy_chars(tail.as_slice(), j + close.len(), tail.len());
        proof {
            assert(rest@ =~= tail@.skip(j + close@.len()));
            assert(out@ + stripped(rest@) =~= had + (h + stripped(rest@)));
        }
    }
}

fn split_words(text: &[char]) -> (w: Vec<Vec<char>>)
    ensures
        texts(w@) == words(text@),
{
    let mut out: Vec<Vec<char>> = Vec::new();
    let mut rest = copy_chars(text, 0, text.len());
    proof {
        assert(rest@ =~= text@);
        assert(texts(out@) + words(rest@) =~= words(text@));
    }
    while rest.len() > 0
        invariant
            words(text@) == texts(out@) + words(rest@),
        decreases rest@.len(),
    {
        let ghost r0 = rest@;
        let ghost had = texts(out@);
        let i: usize = find_space(rest.as_slice());
        if i == 0 {
            let next = copy_chars(rest.as_slice(), 1, rest.len());
            proof {
                assert(next@ =~= r0.skip(1));
            }
            rest = next;
        } else if i >= rest.len() {
            out.push(rest);
            proof {
                assert(texts(out@) =~= had + seq![r0]);
            }
            return out;
        } else {
            let word = copy_chars(rest.as_slice(), 0, i);
            let next = copy_chars(rest.as_slice(), i + 1, rest.len());
            proof {
                assert(word@ =~= r0.take(i as int));
                assert(next@ =~= r0.skip(i + 1));
            }
            let ghost w = word@;
            out.push(word);
            proof {
                assert(texts(out@) =~= had.push(w));
                assert(had + (seq![w] + words(next@)) =~= had.push(w) + words(next@));
            }
            rest = next;
        }
    }
    proof {
        assert(texts(out@) + words(rest@) =~= texts(out@));
    }
    out
}

/// Collapse whitespace runs and trim, so a page's text is one readable line.
fn collapse(text: &[char]) -> (s: String)
    ensures
        s@ == collapsed(text@),
{
    let w = split_words(text);
    let ghost ws = texts(w@);
    let mut s: String = String::new();
    let mut i: usize = 0;
    while i < w.len()
        invariant
            i <= w@.len(),
            ws == texts(w@),
            s@ == spaced(ws, i as int),
        decreases w.len() - i,
    {
        proof {
            assert(ws[i as int] == w@[i as int]@);
        }
        if i > 0 {
            s.append(" ");
        }
        s.append(string_of(w[i].as_slice()).as_str());
        proof {
            assert(s@ =~= spaced(ws, i as int + 1));
        }
        i = i + 1;
    }
    s
}

/// The title of a page, if it has one.
pub fn find_title(text: &[char]) -> (r: Option<String>)
    ensures
        opt_text(r) == title_in(text@),
{
    proof {
        reveal_strlit("<title");
        reveal_strlit("</title>");
        reveal_strlit(">");
    }
    match between(text, chars_of("<title").as_slice(), chars_of("</title>").as_slice()) {
        None => None,
        Some(t) => match split_at_first(t.as_slice(), chars_of(">").as_slice()) {
            None => None,
            Some((_, inner)) => {
                let title = collapse(inner.as_slice());
                if title.as_str().is_empty() {
                    None
                } else {
                    Some(title)
                }
            },
        },
    }
}

/// The first visible words of a page, if it has any.
pub fn find_words(text: &[char]) -> (r: Option<String>)
    ensures
        opt_text(r) == first_words(text@),
{
    let visible = collapse(strip_markup(text).as_slice());
    let w = chars_of(visible.as_str());
    if w.len() == 0 {
        return None;
    }
    let n: usize = if w.len() > PREVIEW_LEN / 2 {
        PREVIEW_LEN / 2
    } else {
        w.len()
    };
    let shown = string_of(copy_chars(w.as_slice(), 0, n).as_slice());
    proof {
        assert(shown@ =~= at_most(w@, PREVIEW_LEN as int / 2));
    }
    Some(shown)
}

/// What is said of a page whose title and first words are quoted already.
pub fn describe_page(title: &Option<String>, words: &Option<String>) -> (r: String)
    ensures
        r@ == page_line(opt_text(*title), opt_text(*words)),
{
    let mut out = "HTML page".to_owned();
    if let Some(t) = title {
        out.append(" titled ");
        out.append(t.as_str());
    }
    if let Some(w) = words {
        out.append("; text begins ");
        out.append(w.as_str());
    }
    proof {
        assert(out@ =~= page_line(opt_text(*title), opt_text(*words)));
    }
    out
}

/// A text in quotes, if there is one.
fn quote(s: &Option<String>) -> (r: Option<String>)
    ensures
        opt_text(r) == quoted(opt_text(*s)),
{
    match s {
        Some(t) => Some(quote_debug(t.as_str())),
        None => None,
    }
}

/// A page's `<title>` and its first visible words: what a person would say if
/// asked "what page is this?".
fn summarise_html(text: &str) -> (r: String)
    ensures
        r@ == page_summary(text@),
{
    let chars = chars_of(text);
    let title = find_title(chars.as_slice());
    let words = find_words(chars.as_slice());
    describe_page(&quote(&title), &quote(&words))
}

/// A bounded, single-line, printable rendering of a response body, for an
/// error message an operator reads in a log. HTML is summarised rather than
/// quoted: a page is identified by its title and its words.
fn preview(body: &[u8]) -> (r: String)
    ensures
        r@ == body_preview(body@),
{
    if body.len() == 0 {
        return "<empty body>".to_owned();
    }
    if looks_like_html(body) {
        if let Some(text) = utf8_text(body) {
            return summarise_html(text);
        }
    }
    let mut out: String = String::new();
    let mut i: usize = 0;
    while i < body.len() && i < PREVIEW_LEN
        invariant
            i <= body@.len(),
            i <= PREVIEW_LEN,
            out@.len() == i,
            forall|j: int| 0 <= j < i ==> #[trigger] out@[j] == printable(body@[j]),
        decreases body.len() - i,
    {
        let b: u8 = body[i];
        if 0x20 <= b && b < 0x7f {
            out.push(b as char);
        } else {
            out.push('.');
        }
        i = i + 1;
    }
    let ghost shown = out@;
    if body.len() > PREVIEW_LEN {
        out.push('\u{2026}');
    }
    proof {
        let n = if body@.len() > PREVIEW_LEN {
            PREVIEW_LEN as nat
        } else {
            body@.len()
        };
        assert(shown =~= Seq::new(n, |i: int| printable(body@[i])));
    }
    out
}

// ---------------------------------------------------------------------------
// Reading a reply.

/// What an [`AnnounceResponse`] stands for.
#[verifier::ext_equal]
pub struct Answer {
    pub interval: u32,
    pub min_interval: Option<u32>,
    pub peers: Seq<DestHash>,
    pub destinations: Seq<Seq<char>>,
}

impl View for AnnounceResponse {
    type V = Answer;

    open spec fn view(&self) -> Answer {
        Answer {
            interval: self.interval,
            min_interval: self.min_interval,
            peers: self.peers@,
            destinations: names_view(self.destinations),
        }
    }
}

/// Whether `peers` and `destinations` are what a `peers` field holds: the
/// hashes of a compact list, or the destinations of a list of dictionaries.
pub open spec fn peers_in(
    t: Option<Tree>,
    peers: Seq<DestHash>,
    destinations: Seq<Seq<char>>,
) -> bool {
    match t {
        Some(Tree::Bytes(b)) => unpacked(b, peers) && destinations.len() == 0,
        Some(Tree::List(list)) => peers.len() == 0 && destinations == dests_in(
            list,
            list.len() as int,
        ),
        _ => peers.len() == 0 && destinations.len() == 0,
    }
}

/// The full destination that an entry of a peer list carries under `ip`.
pub open spec fn dest_in(t: Tree) -> Option<Seq<char>> {
    text_in(t.get("ip".spec_bytes()))
}

/// The destinations of the first `n` entries.
pub open spec fn dests_in(list: Seq<Tree>, n: int) -> Seq<Seq<char>>
    decreases n,
{
    if n <= 0 {
        Seq::empty()
    } else {
        dests_in(list, n - 1).push(dest_in(list[n - 1])->Some_0)
    }
}

/// What is wrong with a `peers` field, if anything.
pub open spec fn peers_fault(t: Option<Tree>) -> Option<Seq<char>> {
    match t {
        Some(Tree::Bytes(b)) => if b.len() % 32 != 0 {
            Some("compact peers not a multiple of 32"@)
        } else {
            None
        },
        Some(Tree::List(list)) => if exists|i: int|
            0 <= i < list.len() && dest_in(#[trigger] list[i]) is None {
            Some("peer dict without ip"@)
        } else {
            None
        },
        Some(_) => Some("peers has an unexpected type"@),
        None => None,
    }
}

/// Why a reply is no answer, if it is none: not bencode, a failure the tracker
/// reports, or a field missing or malformed.
pub open spec fn reply_fault(body: Seq<u8>) -> Option<Failure> {
    match decoded(body) {
        Err(_) => Some(
            Failure::NotBencode {
                content_type: None,
                len: body.len(),
                preview: body_preview(body),
            },
        ),
        Ok(root) => match text_in(root.get("failure reason".spec_bytes())) {
            Some(reason) => Some(
                Failure::TrackerFailure(scrubbed_bounded(reason, MAX_TRACKER_TEXT as nat)),
            ),
            None => if u32_in(root.get("interval".spec_bytes())) is None {
                Some(Failure::BadResponse("missing interval"@))
            } else {
                match peers_fault(root.get("peers".spec_bytes())) {
                    Some(what) => Some(Failure::BadResponse(what)),
                    None => None,
                }
            },
        },
    }
}

/// Whether `a` is the answer that a reply holds.
pub open spec fn reply_says(body: Seq<u8>, a: Answer) -> bool {
    let root = decoded(body)->Ok_0;
    &&& u32_in(root.get("interval".spec_bytes())) == Some(a.interval)
    &&& a.min_interval == u32_in(root.get("min interval".spec_bytes()))
    &&& peers_in(root.get("peers".spec_bytes()), a.peers, a.destinations)
}

/// Make tracker-supplied text safe to put in a log line or an API field.
fn sanitise(text: &str) -> (r: String)
    ensures
        r@ == scrubbed_bounded(text@, MAX_TRACKER_TEXT as nat),
{
    scrub_bounded(text, MAX_TRACKER_TEXT)
}

fn u32_under(root: &Value, key: &str) -> (r: Option<u32>)
    ensures
        r == u32_in(root@.get(key.spec_bytes())),
{
    match root.get(key.as_bytes()) {
        Some(v) => match v.as_int() {
            Some(n) => if 0 <= n && n <= u32::MAX as i64 {
                Some(n as u32)
            } else {
                None
            },
            None => None,
        },
        None => None,
    }
}

/// I2P compact peers: concatenated 32-byte destination hashes, no port.
fn parse_compact_peers(bytes: &[u8]) -> (r: Option<Vec<DestHash>>)
    ensures
        match r {
            Some(p) => bytes@.len() % 32 == 0 && unpacked(bytes@, p@),
            None => bytes@.len() % 32 != 0,
        },
{
    unpack(bytes)
}

/// Non-compact peers: a list of dicts, each carrying a full base64 destination
/// under `ip`.
fn parse_dict_peers(list: &Vec<Value>) -> (r: Option<Vec<String>>)
    ensures
        match r {
            Some(d) => names_view(d) == dests_in(trees(*list), list@.len() as int) && forall|
                i: int,
            |
                0 <= i < list@.len() ==> dest_in(#[trigger] trees(*list)[i]) is Some,
            None => exists|i: int|
                0 <= i < list@.len() && dest_in(#[trigger] trees(*list)[i]) is None,
        },
{
    let ghost t = trees(*list);
    let mut out: Vec<String> = Vec::new();
    let mut i: usize = 0;
    proof {
        assert(names_view(out) =~= Seq::empty());
    }
    while i < list.len()
        invariant
            i <= list@.len(),
            t == trees(*list),
            t.len() == list@.len(),
            names_view(out) == dests_in(t, i as int),
            forall|j: int| 0 <= j < i ==> dest_in(#[trigger] t[j]) is Some,
        decreases list.len() - i,
    {
        let ghost had = names_view(out);
        proof {
            assert(t[i as int] == list@[i as int]@);
        }
        let dest = match list[i].get("ip".as_bytes()) {
            Some(v) => value_text(v),
            None => None,
        };
        match dest {
            Some(s) => {
                out.push(s.to_owned());
                proof {
                    assert(names_view(out) =~= had.push(s@));
                }
            },
            None => {
                proof {
                    assert(dest_in(t[i as int]) is None);
                }
                return None;
            },
        }
        i = i + 1;
    }
    Some(out)
}

/// Parse a bencoded announce response body.
pub fn parse_response(body: &[u8]) -> (r: Result<AnnounceResponse, Error>)
    ensures
        match r {
            Ok(a) => reply_fault(body@) is None && reply_says(body@, a@),
            Err(e) => reply_fault(body@) == Some(e@),
        },
{
    let root = match bencode::decode(body) {
        Ok(v) => v,
        Err(_) => {
            return Err(
                Error::NotBencode { content_type: None, len: body.len(), preview: preview(body) },
            );
        },
    };
    if let Some(v) = root.get("failure reason".as_bytes()) {
        if let Some(reason) = value_text(v) {
            return Err(Error::TrackerFailure(sanitise(reason)));
        }
    }
    let interval: u32 = match u32_under(&root, "interval") {
        Some(n) => n,
        None => return Err(Error::BadResponse("missing interval")),
    };
    let min_interval = u32_under(&root, "min interval");
    let mut peers: Vec<DestHash> = Vec::new();
    let mut destinations: Vec<String> = Vec::new();
    if let Some(v) = root.get("peers".as_bytes()) {
        match v {
            Value::Bytes(b) => match parse_compact_peers(b.as_slice()) {
                Some(p) => {
                    peers = p;
                },
                None => return Err(Error::BadResponse("compact peers not a multiple of 32")),
            },
            Value::List(list) => match parse_dict_peers(list) {
                Some(d) => {
                    destinations = d;
                },
                None => return Err(Error::BadResponse("peer dict without ip")),
            },
            _ => return Err(Error::BadResponse("peers has an unexpected type")),
        }
    }
    Ok(AnnounceResponse { interval, min_interval, peers, destinations })
}

/// The hashes among the first `n` results, those that are none left out.
pub open spec fn hashed(h: Seq<Option<DestHash>>, n: int) -> Seq<DestHash>
    decreases n,
{
    if n <= 0 {
        Seq::empty()
    } else {
        match h[n - 1] {
            Some(d) => hashed(h, n - 1).push(d),
            None => hashed(h, n - 1),
        }
    }
}

impl AnnounceResponse {
    /// Adds the peers whose destinations were hashed; `hashes` holds the
    /// outcome for each of `destinations`, in order, and what did not hash is
    /// dropped.
    pub fn add_hashed(&mut self, hashes: &Vec<Option<DestHash>>)
        ensures
            final(self)@ == (Answer {
                peers: old(self)@.peers + hashed(hashes@, hashes@.len() as int),
                destinations: Seq::empty(),
                ..old(self)@
            }),
    {
        let ghost start = self.peers@;
        let mut i: usize = 0;
        proof {
            assert(start + hashed(hashes@, 0) =~= start);
        }
        while i < hashes.len()
            invariant
                i <= hashes@.len(),
                start == old(self).peers@,
                self.interval == old(self).interval,
                self.min_interval == old(self).min_interval,
                self.peers@ == start + hashed(hashes@, i as int),
            decreases hashes.len() - i,
        {
            if let Some(d) = hashes[i] {
                self.peers.push(d);
            }
            proof {
                assert(self.peers@ =~= start + hashed(hashes@, i as int + 1));
            }
            i = i + 1;
        }
        self.destinations = Vec::new();
        proof {
            assert(names_view(self.destinations) =~= Seq::empty());
        }
    }
}

/// Why the bytes a tracker sent before it closed are no answer, if they are
/// none.
pub open spec fn announce_fault(received: Seq<u8>) -> Option<Failure> {
    match reply_in(received, MAX_RESPONSE_BYTES as nat) {
        Err(e) => Some(Failure::Http(e)),
        Ok(reply) => if reply.status != 200 {
            Some(Failure::HttpStatus(reply.status))
        } else {
            match reply_fault(reply.body) {
                Some(Failure::NotBencode { content_type, len, preview }) => Some(
                    Failure::NotBencode {
                        content_type: header_named(reply.headers, "content-type"@),
                        len,
                        preview,
                    },
                ),
                f => f,
            }
        },
    }
}

proof fn lemma_content_type()
    ensures
        lowered_text("content-type"@) == "content-type"@,
{
    reveal_strlit("content-type");
    assert(lowered_text("content-type"@) =~= "content-type"@);
}

/// Make an answer of everything a tracker sent before it closed the stream:
/// the HTTP response, and the announce response in its body. The content type
/// is half the diagnosis when a tracker answers 200 with something that is not
/// an announce at all.
pub fn read_announce(received: &[u8]) -> (r: Result<AnnounceResponse, Error>)
    requires
        received@.len() < usize::MAX,
    ensures
        match r {
            Ok(a) => announce_fault(received@) is None && reply_says(
                reply_in(received@, MAX_RESPONSE_BYTES as nat)->Ok_0.body,
                a@,
            ),
            Err(e) => announce_fault(received@) == Some(e@),
        },
{
    let response = match read_response(received, MAX_RESPONSE_BYTES) {
        Ok(r) => r,
        Err(e) => return Err(Error::Http(e)),
    };
    if response.status != 200 {
        return Err(Error::HttpStatus(response.status));
    }
    match parse_response(response.body.as_slice()) {
        Ok(a) => Ok(a),
        Err(Error::NotBencode { content_type: _, len, preview }) => {
            proof {
                lemma_content_type();
            }
            let content_type = match response.header("content-type") {
                Some(s) => Some(s.to_owned()),
                None => None,
            };
            Err(Error::NotBencode { content_type, len, preview })
        },
        Err(e) => Err(e),
    }
}

impl Error {
    /// What went wrong, in words.
    pub fn message(&self) -> (r: String)
        ensures
            r@ == failure_text(self@),
    {
        match self {
            Error::BadUrl => "tracker: unparseable announce URL".to_owned(),
            Error::Http(e) => {
                let mut s = "tracker: ".to_owned();
                s.append(e.message().as_str());
                s
            },
            Error::HttpStatus(n) => {
                let mut s = "tracker: HTTP status ".to_owned();
                push_decimal(&mut s, *n as u64);
                s
            },
            Error::TrackerFailure(t) => {
                let mut s = "tracker refused: ".to_owned();
                s.append(t.as_str());
                s
            },
            Error::BadResponse(w) => {
                let mut s = "tracker: malformed response: ".to_owned();
                s.append(w);
                s
            },
            Error::NotBencode { content_type, len, preview } => {
                let mut s = "tracker: response is not bencode (".to_owned();
                push_decimal(&mut s, *len as u64);
                s.append(" bytes, content-type ");
                match content_type {
                    Some(t) => s.append(t.as_str()),
                    None => s.append("unset"),
                }
                s.append("); it begins ");
                s.append(quote_debug(preview.as_str()).as_str());
                s
            },
        }
    }
}

/// What went wrong, in words.
pub open spec fn failure_text(f: Failure) -> Seq<char> {
    match f {
        Failure::BadUrl => "tracker: unparseable announce URL"@,
        Failure::Http(e) => "tracker: "@ + http::error_text(e),
        Failure::HttpStatus(n) => "tracker: HTTP status "@ + decimal_text(n as nat),
        Failure::TrackerFailure(t) => "tracker refused: "@ + t,
        Failure::BadResponse(w) => "tracker: malformed response: "@ + w,
        Failure::NotBencode { content_type, len, preview } => "tracker: response is not bencode ("@
            + decimal_text(len) + " bytes, content-type "@ + (match content_type {
            Some(t) => t,
            None => "unset"@,
        }) + "); it begins "@ + debug_text(preview),
    }
}

// ---------------------------------------------------------------------------
// Timing.

/// Timing state machine for one (torrent, tracker) pair.
///
/// Tracks when the next announce is due and what event it carries, honoring
/// the tracker's interval on success and backing off on failure. Time is a
/// parameter: seconds from any fixed origin.
pub struct AnnounceState {
    /// Absolute time (secs) the next announce is due.
    next_due: u64,
    /// Whether the initial `started` announce has been sent.
    started: bool,
    /// Whether `completed` has already been reported to this tracker.
    completed: bool,
    /// Consecutive failures, for backoff.
    failures: u32,
}

/// What an [`AnnounceState`] stands for.
#[verifier::ext_equal]
pub struct Schedule {
    pub next_due: u64,
    pub started: bool,
    pub completed: bool,
    pub failures: u32,
}

impl View for AnnounceState {
    type V = Schedule;

    closed spec fn view(&self) -> Schedule {
        Schedule {
            next_due: self.next_due,
            started: self.started,
            completed: self.completed,
            failures: self.failures,
        }
    }
}

/// A time some seconds after another, as far as can be counted.
pub open spec fn later(now: u64, secs: nat) -> u64 {
    if now + secs > u64::MAX {
        u64::MAX
    } else {
        (now + secs) as u64
    }
}

/// How long to wait after the `n`th failure in a row: half a minute, twice as
/// long each time, at most [`MAX_BACKOFF`].
pub open spec fn backoff(n: u32) -> nat {
    if n <= 1 {
        30
    } else if n == 2 {
        60
    } else if n == 3 {
        120
    } else if n == 4 {
        240
    } else if n == 5 {
        480
    } else if n == 6 {
        960
    } else {
        MAX_BACKOFF as nat
    }
}

impl Schedule {
    /// A fresh schedule: due at once.
    pub open spec fn fresh() -> Schedule {
        Schedule { next_due: 0, started: false, completed: false, failures: 0 }
    }

    /// The event the next announce carries.
    pub open spec fn event(self, complete: bool) -> Event {
        if !self.started {
            Event::Started
        } else if complete && !self.completed {
            Event::Completed
        } else {
            Event::Periodic
        }
    }

    /// The schedule after a successful announce of `sent`.
    pub open spec fn succeeded(self, now: u64, interval: u32, sent: Event) -> Schedule {
        Schedule {
            next_due: later(
                now,
                if interval < MIN_ANNOUNCE_INTERVAL {
                    MIN_ANNOUNCE_INTERVAL as nat
                } else {
                    interval as nat
                },
            ),
            started: true,
            completed: self.completed || sent == Event::Completed,
            failures: 0,
        }
    }

    /// The schedule after a failed announce.
    pub open spec fn failed(self, now: u64) -> Schedule {
        let n = if self.failures == u32::MAX {
            u32::MAX
        } else {
            (self.failures + 1) as u32
        };
        Schedule { next_due: later(now, backoff(n)), failures: n, ..self }
    }

    /// The schedule once the download has finished.
    pub open spec fn finished(self) -> Schedule {
        if self.started && !self.completed {
            Schedule { next_due: 0, ..self }
        } else {
            self
        }
    }
}

impl Default for AnnounceState {
    fn default() -> (s: AnnounceState)
        ensures
            s@ == Schedule::fresh(),
    {
        AnnounceState { next_due: 0, started: false, completed: false, failures: 0 }
    }
}

impl AnnounceState {
    /// A fresh state; the first announce is due immediately.
    pub fn new() -> (s: AnnounceState)
        ensures
            s@ == Schedule::fresh(),
    {
        AnnounceState { next_due: 0, started: false, completed: false, failures: 0 }
    }

    /// A state for a torrent that was **already complete** when this announcer
    /// started: `completed` reports a download, so a client that already held
    /// the file before it announced at all has nothing to report.
    pub fn already_complete() -> (s: AnnounceState)
        ensures
            s@ == (Schedule { completed: true, ..Schedule::fresh() }),
    {
        AnnounceState { next_due: 0, started: false, completed: true, failures: 0 }
    }

    /// Whether an announce is due at `now` (seconds).
    pub fn due(&self, now: u64) -> (r: bool)
        ensures
            r == (now >= self@.next_due),
    {
        now >= self.next_due
    }

    /// Bring forward the one announce that is owed on an event rather than on
    /// a clock: the `completed` when a download finishes. Does nothing before
    /// the first announce and nothing after the completion announce has gone
    /// out.
    pub fn completion_due(&mut self)
        ensures
            final(self)@ == old(self)@.finished(),
    {
        if self.started && !self.completed {
            self.next_due = 0;
        }
    }

    /// Make the next announce due at once, whatever interval the tracker gave
    /// us and whatever failures came before: the operator asked for it.
    pub fn make_due(&mut self)
        ensures
            final(self)@ == (Schedule { next_due: 0, ..old(self)@ }),
    {
        self.next_due = 0;
    }

    /// The event the next announce should carry, given whether the torrent is
    /// now complete. `completed` is reported once: it is an event, not a
    /// state.
    pub fn next_event(&self, complete: bool) -> (e: Event)
        ensures
            e == self@.event(complete),
    {
        if !self.started {
            Event::Started
        } else if complete && !self.completed {
            Event::Completed
        } else {
            Event::Periodic
        }
    }

    /// Record a successful announce of `sent`: schedule the next at
    /// `now + interval` (floored at [`MIN_ANNOUNCE_INTERVAL`]) and clear the
    /// backoff.
    pub fn on_success(&mut self, now: u64, interval: u32, sent: Event)
        ensures
            final(self)@ == old(self)@.succeeded(now, interval, sent),
    {
        self.started = true;
        if sent == Event::Completed {
            self.completed = true;
        }
        self.failures = 0;
        let wait: u64 = if (interval as u64) < MIN_ANNOUNCE_INTERVAL {
            MIN_ANNOUNCE_INTERVAL
        } else {
            interval as u64
        };
        self.next_due = now.saturating_add(wait);
    }

    /// Record a failed announce: exponential backoff from 30s, capped.
    pub fn on_failure(&mut self, now: u64)
        ensures
            final(self)@ == old(self)@.failed(now),
    {
        self.failures = self.failures.saturating_add(1);
        let n: u32 = self.failures;
        let delay: u64 = if n <= 1 {
            30
        } else if n == 2 {
            60
        } else if n == 3 {
            120
        } else if n == 4 {
            240
        } else if n == 5 {
            480
        } else if n == 6 {
            960
        } else {
            MAX_BACKOFF
        };
        self.next_due = now.saturating_add(delay);
    }
}

/// Something that happens to a schedule.
pub enum Step {
    Success { now: u64, interval: u32, sent: Event },
    Failure { now: u64 },
    Finished,
}

/// A schedule after one step.
pub open spec fn stepped(s: Schedule, step: Step) -> Schedule {
    match step {
        Step::Success { now, interval, sent } => s.succeeded(now, interval, sent),
        Step::Failure { now } => s.failed(now),
        Step::Finished => s.finished(),
    }
}

/// A schedule after some steps.
pub open spec fn ran(s: Schedule, steps: Seq<Step>) -> Schedule
    decreases steps.len(),
{
    if steps.len() == 0 {
        s
    } else {
        stepped(ran(s, steps.drop_last()), steps.last())
    }
}

/// `completed` is reported once and only once: after an announce of it, no
/// matter what follows, it is never the next event again, and finishing brings
/// nothing forward.
pub proof fn law_completed_is_reported_once(
    s: Schedule,
    now: u64,
    interval: u32,
    steps: Seq<Step>,
    complete: bool,
)
    ensures
        ({
            let after = ran(s.succeeded(now, interval, Event::Completed), steps);
            after.event(complete) != Event::Completed && after.finished() == after
        }),
{
    lemma_completed_stays(s.succeeded(now, interval, Event::Completed), steps);
}

proof fn lemma_completed_stays(s: Schedule, steps: Seq<Step>)
    requires
        s.completed,
    ensures
        ran(s, steps).completed,
    decreases steps.len(),
{
    if steps.len() > 0 {
        lemma_completed_stays(s, steps.drop_last());
    }
}

/// A torrent that was complete when its announcer started never reports a
/// download, and still says it started.
pub proof fn law_resumed_seed_reports_no_download(steps: Seq<Step>, complete: bool)
    ensures
        ({
            let start = Schedule { completed: true, ..Schedule::fresh() };
            start.event(complete) == Event::Started && ran(start, steps).event(complete)
                != Event::Completed
        }),
{
    lemma_completed_stays(Schedule { completed: true, ..Schedule::fresh() }, steps);
}

/// After a success nothing is due before the tracker's interval, nor before
/// the floor, unless the download finishes with its report still owed.
pub proof fn law_interval_is_honored(s: Schedule, now: u64, interval: u32, sent: Event, at: u64)
    requires
        now + interval <= u64::MAX,
        now + MIN_ANNOUNCE_INTERVAL <= u64::MAX,
        at < now + interval || at < now + MIN_ANNOUNCE_INTERVAL,
    ensures
        at < s.succeeded(now, interval, sent).next_due,
{
}

/// The wait after failures never shrinks as they add up, and never passes the
/// cap.
pub proof fn law_backoff_grows_and_caps(m: u32, n: u32)
    requires
        m <= n,
    ensures
        backoff(m) <= backoff(n),
        backoff(n) <= MAX_BACKOFF,
        30 <= backoff(m),
{
}

// ---------------------------------------------------------------------------
// What of an announce reaches a log.

proof fn lemma_first_break(a: Seq<u8>, d: Seq<u8>, i: int)
    requires
        0 <= i <= a.len(),
        forall|j: int| 0 <= j < a.len() ==> #[trigger] a[j] != 13 && a[j] != 10,
        d.len() > 0,
        d[0] == 13,
    ensures
        first_break(a + d, i) == a.len(),
    decreases a.len() - i,
{
    let s = a + d;
    if i < a.len() {
        assert(s[i] == a[i]);
        lemma_first_break(a, d, i + 1);
    } else {
        assert(s[i] == d[0]);
    }
}

/// No byte of the encoding of a text without line breaks is one.
proof fn lemma_clean_bytes(t: Seq<char>, i: int)
    requires
        !breaks_lines(t),
        0 <= i < encode_utf8(t).len(),
    ensures
        encode_utf8(t)[i] != 13,
        encode_utf8(t)[i] != 10,
{
    let b = encode_utf8(t)[i];
    if b == 13 || b == 10 {
        crate::strings::lemma_encoded_byte(t, i);
        let j = choose|j: int| 0 <= j < t.len() && #[trigger] t[j] as u32 == b as u32;
        char_is_scalar(t[j]);
        char_u32_cast(t[j], b as u32);
        char_u32_cast('\r', 13);
        char_u32_cast('\n', 10);
        assert(t[j] == '\r' || t[j] == '\n');
        assert(t.contains(t[j]));
    }
}

/// Whether a text holds neither a space nor a line break.
spec fn unbroken(t: Seq<char>) -> bool {
    !breaks_lines(t) && !t.contains(' ')
}

/// What is read off the first line of an announce is its target.
proof fn lemma_target_in(u: UrlParts, p: AnnounceParams)
    requires
        unbroken(target_of(u.path_and_query, p)),
    ensures
        target_in(announce_bytes(u, p)) == target_of(u.path_and_query, p),
{
    let t = target_of(u.path_and_query, p);
    reveal_strlit("GET");
    reveal_strlit(" ");
    reveal_strlit(" HTTP/1.1\r\nHost: ");
    reveal_strlit("GET ");
    reveal_strlit(" HTTP/1.1");
    reveal_strlit("\r\nHost: ");
    let get = "GET "@;
    let version = " HTTP/1.1"@;
    let rest = "\r\nHost: "@;
    assert("GET"@ + " "@ =~= get);
    assert(" HTTP/1.1\r\nHost: "@ =~= version + rest);
    crate::strings::lemma_encode_concat("GET"@, " "@);
    crate::strings::lemma_encode_concat(version, rest);
    crate::strings::lemma_encode_concat(get, t);
    crate::strings::lemma_encode_concat(get + t, version);
    let line = get + t + version;
    let a = encode_utf8(line);
    let d = encode_utf8(rest) + encode_utf8(u.authority) + "\r\n".spec_bytes()
        + "User-Agent".spec_bytes() + ": ".spec_bytes() + USER_AGENT.spec_bytes()
        + "\r\n".spec_bytes() + "Connection: close\r\n\r\n".spec_bytes();
    assert(announce_bytes(u, p) =~= a + d);
    assert("\r\nHost: ".is_ascii());
    assert(d[0] == 13) by {
        is_ascii_chars_encode_utf8(rest);
        assert(encode_utf8(rest)[0] == '\r' as u8);
    }
    lemma_clean_concat(get, t);
    lemma_clean_concat(get + t, version);
    assert forall|j: int| 0 <= j < a.len() implies #[trigger] a[j] != 13 && a[j] != 10 by {
        lemma_clean_bytes(line, j);
    }
    lemma_first_break(a, d, 0);
    assert((a + d).take(a.len() as int) =~= a);
    encode_utf8_valid_utf8(line);
    encode_utf8_decode_utf8(line);
    let c = ' ';
    assert(" "@ =~= seq![c]);
    let tail = "HTTP/1.1"@;
    reveal_strlit("HTTP/1.1");
    assert(line =~= "GET"@ + seq![c] + (t + seq![c] + tail));
    lemma_split_joined("GET"@, c, t + seq![c] + tail);
    lemma_split_joined(t, c, tail);
    lemma_split_whole("GET"@, c);
    lemma_split_whole(t, c);
    let parts = split(line, seq![c]);
    assert(parts[1] == t);
    assert(parts.len() > 1);
}

proof fn lemma_safe_percent(s: Seq<u8>)
    ensures
        !percent_encoded(s).contains('&'),
        !percent_encoded(s).contains('='),
        !percent_encoded(s).contains(' '),
        !percent_encoded(s).contains('/'),
{
    let e = percent_encoded(s);
    assert forall|i: int| 0 <= i < e.len() implies #[trigger] e[i] != '&' && e[i] != '=' && e[i]
        != ' ' && e[i] != '/' by {
        http::law_percent_encoded_text_is_safe(s, i);
    }
}

proof fn lemma_redacted_alike(a: Seq<Seq<char>>, b: Seq<Seq<char>>, n: int)
    requires
        0 <= n <= a.len(),
        a.len() == b.len(),
        forall|i: int| 0 <= i < a.len() ==> redacted_field(#[trigger] a[i]) == redacted_field(b[i]),
    ensures
        redacted_fields(a, n) == redacted_fields(b, n),
    decreases n,
{
    if n > 0 {
        lemma_redacted_alike(a, b, n - 1);
        assert(redacted_field(a[n - 1]) == redacted_field(b[n - 1]));
    }
}

/// An `ip` field shows nothing of its value.
proof fn lemma_ip_field(e: Seq<char>)
    ensures
        redacted_field("ip="@ + e) == "ip=<redacted>"@,
{
    reveal_strlit("ip=");
    reveal_strlit("ip");
    reveal_strlit("=");
    let f = "ip="@ + e;
    assert("="@ =~= seq!['=']);
    assert(f[0] == 'i' && f[1] == 'p' && f[2] == '=');
    lemma_found_char(f, '=', 2);
    assert(f.take(2) =~= "ip"@);
}

/// How the target of an announce is split: the parts before our destination,
/// our destination, and what follows it.
proof fn lemma_target_fields(path: Seq<char>, p: AnnounceParams)
    ensures
        ({
            let head = path + separator(path) + glued(query_head(p));
            let cut = split_once(head, "?"@);
            let e = percent_encoded(encode_utf8(p.our_dest_b64@));
            let tail = query_tail(p);
            &&& cut is Some
            &&& split_once(target_of(path, p), "?"@) == Some(
                (cut->Some_0.0, cut->Some_0.1 + "&ip="@ + e + tail),
            )
            &&& split(cut->Some_0.1 + "&ip="@ + e + tail, "&"@) == split(cut->Some_0.1, "&"@)
                + seq!["ip="@ + e] + (if tail.len() == 0 {
                Seq::empty()
            } else {
                split(tail.skip(1), "&"@)
            })
        }),
{
    let head = path + separator(path) + glued(query_head(p));
    let e = percent_encoded(encode_utf8(p.our_dest_b64@));
    let tail = query_tail(p);
    reveal_strlit("?");
    reveal_strlit("&");
    reveal_strlit("&ip=");
    reveal_strlit("ip=");
    reveal_strlit("&event=");
    assert("?"@ =~= seq!['?']);
    assert("&"@ =~= seq!['&']);
    let t = target_of(path, p);
    let more = "&ip="@ + e + tail;
    assert(t =~= head + more);
    lemma_find_char(head, '?');
    let i = find(head, seq!['?'], 0);
    assert(i < head.len()) by {
        if path.contains('?') {
            let k = choose|k: int| 0 <= k < path.len() && path[k] == '?';
            assert(head[k] == '?');
        } else {
            assert(head[path.len() as int] == '?');
        }
    }
    assert(t[i] == '?');
    assert forall|j: int| 0 <= j < i implies #[trigger] t[j] != '?' by {
        assert(head[j] != '?');
    }
    lemma_found_char(t, '?', i);
    let q = head.skip(i + 1);
    assert(t.take(i) =~= head.take(i));
    assert(t.skip(i + 1) =~= q + "&ip="@ + e + tail);
    let f = "ip="@ + e;
    lemma_safe_percent(encode_utf8(p.our_dest_b64@));
    assert(!f.contains('&')) by {
        assert forall|j: int| 0 <= j < f.len() implies #[trigger] f[j] != '&' by {
            if j >= 3 {
                assert(f[j] == e[j - 3]);
                assert(e.contains(e[j - 3]));
            }
        }
    }
    let amp = seq!['&'];
    if tail.len() == 0 {
        assert(q + "&ip="@ + e + tail =~= q + amp + f);
        lemma_split_joined(q, '&', f);
        lemma_split_whole(f, '&');
        assert(split(q, amp) + seq![f] =~= split(q, amp) + seq![f] + Seq::<Seq<char>>::empty());
    } else {
        let rest = tail.skip(1);
        assert(tail[0] == '&');
        assert(tail =~= amp + rest);
        assert(q + "&ip="@ + e + tail =~= q + amp + (f + amp + rest));
        lemma_split_joined(q, '&', f + amp + rest);
        lemma_split_joined(f, '&', rest);
        lemma_split_whole(f, '&');
        assert(split(q, amp) + (seq![f] + split(rest, amp)) =~= split(q, amp) + seq![f] + split(
            rest,
            amp,
        ));
    }
}

proof fn lemma_free_concat(a: Seq<char>, b: Seq<char>, c: char)
    requires
        !a.contains(c),
        !b.contains(c),
    ensures
        !(a + b).contains(c),
{
    let ab = a + b;
    assert forall|i: int| 0 <= i < ab.len() implies #[trigger] ab[i] != c by {
        if i < a.len() {
            assert(a.contains(a[i]));
        } else {
            assert(b.contains(b[i - a.len()]));
        }
    }
}

proof fn lemma_free_glued(parts: Seq<Seq<char>>, c: char)
    requires
        forall|i: int| 0 <= i < parts.len() ==> !(#[trigger] parts[i]).contains(c),
    ensures
        !glued(parts).contains(c),
    decreases parts.len(),
{
    if parts.len() > 0 {
        let r = parts.drop_last();
        assert forall|i: int| 0 <= i < r.len() implies !(#[trigger] r[i]).contains(c) by {
            assert(r[i] == parts[i]);
        }
        lemma_free_glued(r, c);
        assert(!parts[parts.len() - 1].contains(c));
        lemma_free_concat(glued(r), parts.last(), c);
    }
}

proof fn lemma_free_decimal(n: nat)
    ensures
        !decimal_text(n).contains(' '),
        !decimal_text(n).contains('/'),
{
    let t = decimal_text(n);
    lemma_decimal(n);
    assert forall|i: int| 0 <= i < t.len() implies #[trigger] t[i] != ' ' && t[i] != '/' by {}
}

/// The query that an announce adds to a path.
spec fn added(p: AnnounceParams) -> Seq<char> {
    glued(query_head(p)) + "&ip="@ + percent_encoded(encode_utf8(p.our_dest_b64@)) + query_tail(p)
}

/// The query that an announce adds holds neither a space nor a slash.
proof fn lemma_added_free(p: AnnounceParams, c: char)
    requires
        c == ' ' || c == '/',
    ensures
        !added(p).contains(c),
{
    reveal_strlit("&ip=");
    reveal_strlit("info_hash=");
    reveal_strlit("&peer_id=");
    reveal_strlit("&port=6881&uploaded=");
    reveal_strlit("&downloaded=");
    reveal_strlit("&left=");
    reveal_strlit("&numwant=");
    reveal_strlit("&compact=1");
    reveal_strlit("&event=");
    reveal_strlit("started");
    reveal_strlit("completed");
    reveal_strlit("stopped");
    let head = query_head(p);
    assert forall|i: int| 0 <= i < head.len() implies !(#[trigger] head[i]).contains(c) by {
        lemma_safe_percent(p.info_hash@);
        lemma_safe_percent(p.peer_id@);
        lemma_free_decimal(p.uploaded as nat);
        lemma_free_decimal(p.downloaded as nat);
        lemma_free_decimal(p.left as nat);
        lemma_free_decimal(p.numwant as nat);
    }
    lemma_free_glued(head, c);
    let e = percent_encoded(encode_utf8(p.our_dest_b64@));
    lemma_safe_percent(encode_utf8(p.our_dest_b64@));
    lemma_free_concat(glued(head), "&ip="@, c);
    lemma_free_concat(glued(head) + "&ip="@, e, c);
    if let Some(x) = event_text(p.event) {
        lemma_free_concat("&event="@, x, c);
    }
    lemma_free_concat(glued(head) + "&ip="@ + e, query_tail(p), c);
}

/// The target of an announce to an accepted URL holds no space.
proof fn lemma_target_unbroken(url: Seq<char>, u: UrlParts, p: AnnounceParams)
    requires
        url_parts(url) == Some(u),
    ensures
        unbroken(target_of(u.path_and_query, p)),
{
    law_announce_has_no_extra_line(url, u, p);
    crate::metainfo::law_accepted_url_is_clean(url, u);
    let path = u.path_and_query;
    assert(!path.contains(' ')) by {
        assert forall|i: int| 0 <= i < path.len() implies #[trigger] path[i] != ' ' by {
            assert(!crate::metainfo::is_ctl(path[i]));
        }
    }
    reveal_strlit("?");
    reveal_strlit("&");
    lemma_added_free(p, ' ');
    lemma_free_concat(path, separator(path), ' ');
    lemma_free_concat(path + separator(path), added(p), ' ');
    assert(target_of(path, p) =~= path + separator(path) + added(p));
}

/// Our destination never reaches a log: two announces that differ in nothing
/// else are logged alike.
pub proof fn law_destination_is_not_logged(
    url: Seq<char>,
    u: UrlParts,
    p: AnnounceParams,
    q: AnnounceParams,
)
    requires
        url_parts(url) == Some(u),
        query_head(p) == query_head(q),
        query_tail(p) == query_tail(q),
    ensures
        redacted(target_in(announce_bytes(u, p))) == redacted(target_in(announce_bytes(u, q))),
{
    let path = u.path_and_query;
    lemma_target_unbroken(url, u, p);
    lemma_target_unbroken(url, u, q);
    lemma_target_in(u, p);
    lemma_target_in(u, q);
    lemma_target_fields(path, p);
    lemma_target_fields(path, q);
    let ep = percent_encoded(encode_utf8(p.our_dest_b64@));
    let eq = percent_encoded(encode_utf8(q.our_dest_b64@));
    lemma_ip_field(ep);
    lemma_ip_field(eq);
    let a = split(split_once(target_of(path, p), "?"@)->Some_0.1, "&"@);
    let b = split(split_once(target_of(path, q), "?"@)->Some_0.1, "&"@);
    assert(a.len() == b.len());
    assert forall|i: int| 0 <= i < a.len() implies redacted_field(#[trigger] a[i])
        == redacted_field(b[i]) by {}
    lemma_redacted_alike(a, b, a.len() as int);
}

/// Whether `w` stands somewhere in `s`.
pub open spec fn holds(s: Seq<char>, w: Seq<char>) -> bool {
    exists|k: int| #[trigger] occurs(s, w, k)
}

proof fn lemma_holds_wider(part: Seq<char>, s: Seq<char>, at: int, w: Seq<char>)
    requires
        0 <= at,
        at + part.len() <= s.len(),
        s.subrange(at, at + part.len()) == part,
        holds(part, w),
    ensures
        holds(s, w),
{
    let k = choose|k: int| #[trigger] occurs(part, w, k);
    assert(s.subrange(at + k, at + k + w.len()) =~= part.subrange(k, k + w.len()));
    assert(occurs(s, w, at + k));
}

/// Where a part of a split text stands in it.
proof fn lemma_split_part(s: Seq<char>, c: char, i: int) -> (at: int)
    requires
        0 <= i < split(s, seq![c]).len(),
    ensures
        0 <= at,
        at + split(s, seq![c])[i].len() <= s.len(),
        s.subrange(at, at + split(s, seq![c])[i].len()) == split(s, seq![c])[i],
    decreases s.len(),
{
    let p = seq![c];
    let f = find(s, p, 0);
    lemma_find_char(s, c);
    if f + 1 > s.len() {
        assert(s.subrange(0, s.len() as int) =~= s);
        0
    } else if i == 0 {
        assert(s.subrange(0, f) =~= s.take(f));
        0
    } else {
        let rest = s.skip(f + 1);
        let part = split(s, p)[i];
        assert(part == split(rest, p)[i - 1]);
        let at = lemma_split_part(rest, c, i - 1);
        assert(s.subrange(f + 1 + at, f + 1 + at + part.len()) =~= rest.subrange(
            at,
            at + part.len(),
        ));
        f + 1 + at
    }
}

/// A word without separators stands in what is shown only where it stands in
/// the path or in what is shown of one field.
proof fn lemma_shown_word(path: Seq<char>, fields: Seq<Seq<char>>, n: int, w: Seq<char>, k: int) -> (i:
    int)
    requires
        0 <= n <= fields.len(),
        w.len() > 0,
        !w.contains('?'),
        !w.contains('&'),
        occurs(path + redacted_fields(fields, n), w, k),
    ensures
        holds(path, w) || (0 <= i < n && holds(redacted_field(fields[i]), w)),
    decreases n,
{
    reveal_strlit("?");
    reveal_strlit("&");
    let x = path + redacted_fields(fields, n);
    if n == 0 {
        assert(x =~= path);
        assert(occurs(path, w, k));
        0
    } else {
        let y = path + redacted_fields(fields, n - 1);
        let f = redacted_field(fields[n - 1]);
        let p = y.len() as int;
        assert(x =~= y + (if n == 1 {
            "?"@
        } else {
            "&"@
        }) + f);
        assert(x[p] == '?' || x[p] == '&');
        if k + w.len() <= p {
            assert(y.subrange(k, k + w.len()) =~= x.subrange(k, k + w.len()));
            lemma_shown_word(path, fields, n - 1, w, k)
        } else if k > p {
            assert(f.subrange(k - p - 1, k - p - 1 + w.len()) =~= x.subrange(k, k + w.len()));
            assert(occurs(f, w, k - p - 1));
            n - 1
        } else {
            assert(x.subrange(k, k + w.len())[p - k] == x[p]);
            assert(w.contains(w[p - k]));
            0
        }
    }
}

/// A word that is shown of a target stands in the target, unless it is of the
/// placeholder.
proof fn lemma_shown_is_said(target: Seq<char>, w: Seq<char>)
    requires
        w.len() > 0,
        !w.contains('?'),
        !w.contains('&'),
        !"ip=<redacted>"@.contains(w[0]),
        holds(redacted(target), w),
    ensures
        holds(target, w),
{
    reveal_strlit("?");
    reveal_strlit("&");
    assert("?"@ =~= seq!['?']);
    assert("&"@ =~= seq!['&']);
    if let Some((path, query)) = split_once(target, "?"@) {
        lemma_find_char(target, '?');
        let cut = find(target, seq!['?'], 0);
        let fields = split(query, "&"@);
        let n = fields.len() as int;
        let k = choose|k: int| #[trigger] occurs(redacted(target), w, k);
        let i = lemma_shown_word(path, fields, n, w, k);
        if holds(path, w) {
            assert(target.subrange(0, cut) =~= path);
            lemma_holds_wider(path, target, 0, w);
        } else {
            let f = redacted_field(fields[i]);
            if f != fields[i] {
                let j = choose|j: int| #[trigger] occurs(f, w, j);
                assert(f.subrange(j, j + w.len())[0] == f[j]);
                assert(false);
            }
            let at = lemma_split_part(query, '&', i);
            lemma_holds_wider(f, query, at, w);
            assert(target.subrange(cut + 1, cut + 1 + query.len()) =~= query);
            lemma_holds_wider(query, target, cut + 1, w);
        }
    }
}

proof fn lemma_holds_char(s: Seq<char>, c: char)
    ensures
        holds(s, seq![c]) <==> s.contains(c),
{
    if s.contains(c) {
        let k = choose|k: int| 0 <= k < s.len() && s[k] == c;
        assert(s.subrange(k, k + 1) =~= seq![c]);
        assert(occurs(s, seq![c], k));
    }
    if holds(s, seq![c]) {
        let k = choose|k: int| #[trigger] occurs(s, seq![c], k);
        assert(s.subrange(k, k + 1)[0] == s[k]);
    }
}

proof fn lemma_shown_prefix(fields: Seq<Seq<char>>, m: int, n: int)
    requires
        0 <= m <= n,
    ensures
        redacted_fields(fields, m).len() <= redacted_fields(fields, n).len(),
        redacted_fields(fields, n).take(redacted_fields(fields, m).len() as int)
            == redacted_fields(fields, m),
    decreases n - m,
{
    let a = redacted_fields(fields, m);
    let c = redacted_fields(fields, n);
    if m < n {
        lemma_shown_prefix(fields, m, n - 1);
        let b = redacted_fields(fields, n - 1);
        assert(c.take(a.len() as int) =~= b.take(a.len() as int));
    } else {
        assert(c.take(a.len() as int) =~= a);
    }
}

/// The placeholder stands where our destination was sent.
proof fn lemma_placeholder(path: Seq<char>, p: AnnounceParams)
    ensures
        holds(redacted(target_of(path, p)), "&ip=<redacted>"@),
{
    lemma_target_fields(path, p);
    let e = percent_encoded(encode_utf8(p.our_dest_b64@));
    lemma_ip_field(e);
    let head = path + separator(path) + glued(query_head(p));
    let cut = split_once(head, "?"@)->Some_0;
    let (before, query) = split_once(target_of(path, p), "?"@)->Some_0;
    let fields = split(query, "&"@);
    let m = split(cut.1, "&"@).len() as int;
    reveal_strlit("&");
    reveal_strlit("&ip=<redacted>");
    reveal_strlit("ip=<redacted>");
    let w = "&ip=<redacted>"@;
    assert(w =~= "&"@ + "ip=<redacted>"@);
    assert(m >= 1);
    assert(fields[m] == "ip="@ + e);
    lemma_shown_prefix(fields, m + 1, fields.len() as int);
    let a = redacted_fields(fields, m);
    let b = redacted_fields(fields, m + 1);
    let c = redacted_fields(fields, fields.len() as int);
    assert(b =~= a + w);
    let x = redacted(target_of(path, p));
    let k = before.len() as int + a.len();
    assert(x =~= before + c);
    assert(x.subrange(k, k + w.len()) =~= w) by {
        assert forall|i: int| 0 <= i < w.len() implies #[trigger] x.subrange(k, k + w.len())[i]
            == w[i] by {
            assert(c.take(b.len() as int)[a.len() + i] == b[a.len() + i]);
        }
    }
    assert(occurs(x, w, k));
}

/// A target names the protocol only where the path of its URL does.
proof fn lemma_protocol_in_path(path: Seq<char>, p: AnnounceParams)
    requires
        holds(target_of(path, p), "HTTP/1.1"@),
    ensures
        holds(path, "HTTP/1.1"@),
{
    reveal_strlit("HTTP/1.1");
    reveal_strlit("?");
    reveal_strlit("&");
    let w = "HTTP/1.1"@;
    let t = target_of(path, p);
    let k = choose|k: int| #[trigger] occurs(t, w, k);
    assert(t =~= path + separator(path) + added(p));
    lemma_added_free(p, '/');
    let n = path.len() as int;
    assert(t.subrange(k, k + 8)[4] == t[k + 4]);
    if k + 4 > n {
        assert(added(p).contains(added(p)[k + 4 - n - 1]));
    }
    if k <= n < k + 8 {
        assert(t.subrange(k, k + 8)[n - k] == t[n]);
    }
    assert(path.subrange(k, k + 8) =~= t.subrange(k, k + 8));
    assert(occurs(path, w, k));
}

/// What is logged of an announce to a host.
spec fn shown_url(u: UrlParts, p: AnnounceParams) -> Seq<char> {
    "http://"@ + u.host + redacted(target_of(u.path_and_query, p))
}

/// A character that neither the host nor the target holds is not shown.
proof fn lemma_shown_free(u: UrlParts, p: AnnounceParams, c: char)
    requires
        c == '\r' || c == '\n' || c == ' ',
        !u.host.contains(c),
        !target_of(u.path_and_query, p).contains(c),
    ensures
        !shown_url(u, p).contains(c),
{
    reveal_strlit("http://");
    reveal_strlit("ip=<redacted>");
    let t = target_of(u.path_and_query, p);
    let w = seq![c];
    lemma_holds_char(redacted(t), c);
    lemma_holds_char(t, c);
    if holds(redacted(t), w) {
        assert(w[0] == c);
        lemma_shown_is_said(t, w);
    }
    lemma_free_concat("http://"@, u.host, c);
    lemma_free_concat("http://"@ + u.host, redacted(t), c);
}

/// The protocol is shown only where the path names it.
proof fn lemma_shown_protocol(u: UrlParts, p: AnnounceParams)
    requires
        !u.host.contains('H'),
        holds(shown_url(u, p), "HTTP/1.1"@),
    ensures
        holds(u.path_and_query, "HTTP/1.1"@),
{
    reveal_strlit("http://");
    reveal_strlit("HTTP/1.1");
    reveal_strlit("ip=<redacted>");
    let t = target_of(u.path_and_query, p);
    let front = "http://"@ + u.host;
    let x = redacted(t);
    let shown = shown_url(u, p);
    let at = front.len() as int;
    let w = "HTTP/1.1"@;
    let k = choose|k: int| #[trigger] occurs(shown, w, k);
    assert(shown.subrange(k, k + 8)[0] == shown[k]);
    lemma_free_concat("http://"@, u.host, 'H');
    if k < at {
        assert(front[k] == 'H');
    }
    assert(x.subrange(k - at, k - at + 8) =~= shown.subrange(k, k + 8));
    assert(occurs(x, w, k - at));
    lemma_shown_is_said(t, w);
    lemma_protocol_in_path(u.path_and_query, p);
}

/// The URL of an announce that is logged says that an `ip` was sent, is one
/// unbroken word, and does not run on into the protocol of the request line:
/// that is named only if the path of the tracker's own URL names it.
pub proof fn law_announced_url_is_one_word(url: Seq<char>, u: UrlParts, p: AnnounceParams)
    requires
        url_parts(url) == Some(u),
    ensures
        ({
            let shown = "http://"@ + u.host + redacted(target_in(announce_bytes(u, p)));
            &&& holds(shown, "&ip=<redacted>"@)
            &&& !shown.contains('\r')
            &&& !shown.contains('\n')
            &&& !shown.contains(' ')
            &&& !holds(u.path_and_query, "HTTP/1.1"@) ==> !holds(shown, "HTTP/1.1"@)
        }),
{
    crate::metainfo::law_accepted_url_is_clean(url, u);
    lemma_target_unbroken(url, u, p);
    lemma_target_in(u, p);
    let x = redacted(target_of(u.path_and_query, p));
    let shown = shown_url(u, p);
    let at = 7int + u.host.len();
    reveal_strlit("http://");
    assert(shown.subrange(at, at + x.len()) =~= x);
    lemma_placeholder(u.path_and_query, p);
    lemma_holds_wider(x, shown, at, "&ip=<redacted>"@);
    assert forall|i: int| 0 <= i < u.host.len() implies #[trigger] u.host[i] != '\r' && u.host[i]
        != '\n' && u.host[i] != ' ' && u.host[i] != 'H' by {
        assert(!crate::metainfo::is_ctl(u.host[i]));
    }
    lemma_shown_free(u, p, '\r');
    lemma_shown_free(u, p, '\n');
    lemma_shown_free(u, p, ' ');
    if holds(shown, "HTTP/1.1"@) {
        lemma_shown_protocol(u, p);
    }
}

// ---------------------------------------------------------------------------
// What an announce says, word for word.

/// The announce that is sent: a `GET` for the tracker's path, and in its query
/// the info-hash, our peer id, the bytes uploaded, the bytes downloaded and the
/// bytes left in decimal under those names, how many peers are wanted, our
/// destination as `ip`, and the event if there is one.
pub proof fn law_announce_is_worded_so(u: UrlParts, p: AnnounceParams)
    ensures
        announce_bytes(u, p) == encode_utf8(
            "GET "@ + (u.path_and_query + (if u.path_and_query.contains('?') {
                "&"@
            } else {
                "?"@
            }) + ("info_hash="@ + percent_encoded(p.info_hash@) + "&peer_id="@ + percent_encoded(
                p.peer_id@,
            ) + "&port=6881&uploaded="@ + decimal_text(p.uploaded as nat) + "&downloaded="@
                + decimal_text(p.downloaded as nat) + "&left="@ + decimal_text(p.left as nat)
                + "&numwant="@ + decimal_text(p.numwant as nat) + "&compact=1"@) + "&ip="@
                + percent_encoded(encode_utf8(p.our_dest_b64@)) + (match p.event {
                Event::Started => "&event=started"@,
                Event::Stopped => "&event=stopped"@,
                Event::Completed => "&event=completed"@,
                Event::Periodic => ""@,
            })) + " HTTP/1.1\r\nHost: "@ + u.authority
                + "\r\nUser-Agent: clove/2026.08\r\nConnection: close\r\n\r\n"@,
        ),
{
    lemma_query_words(p);
    lemma_event_words(p);
    lemma_framed(u, target_of(u.path_and_query, p));
}

proof fn lemma_event_words(p: AnnounceParams)
    ensures
        query_tail(p) == (match p.event {
            Event::Started => "&event=started"@,
            Event::Stopped => "&event=stopped"@,
            Event::Completed => "&event=completed"@,
            Event::Periodic => ""@,
        }),
{
    reveal_strlit("");
    reveal_strlit("&event=");
    reveal_strlit("started");
    reveal_strlit("stopped");
    reveal_strlit("completed");
    reveal_strlit("&event=started");
    reveal_strlit("&event=stopped");
    reveal_strlit("&event=completed");
    let event = match p.event {
        Event::Started => "&event=started"@,
        Event::Stopped => "&event=stopped"@,
        Event::Completed => "&event=completed"@,
        Event::Periodic => ""@,
    };
    assert(query_tail(p) =~= event);
}

proof fn lemma_query_words(p: AnnounceParams)
    ensures
        glued(query_head(p)) == "info_hash="@ + percent_encoded(p.info_hash@) + "&peer_id="@
            + percent_encoded(p.peer_id@) + "&port=6881&uploaded="@ + decimal_text(
            p.uploaded as nat,
        ) + "&downloaded="@ + decimal_text(p.downloaded as nat) + "&left="@ + decimal_text(
            p.left as nat,
        ) + "&numwant="@ + decimal_text(p.numwant as nat) + "&compact=1"@,
{
    let parts = query_head(p);
    lemma_glued_take(parts, 13);
}

proof fn lemma_glued_take(parts: Seq<Seq<char>>, n: int)
    requires
        n == 13,
        parts.len() == 13,
    ensures
        glued(parts) == parts[0] + parts[1] + parts[2] + parts[3] + parts[4] + parts[5] + parts[6]
            + parts[7] + parts[8] + parts[9] + parts[10] + parts[11] + parts[12],
{
    reveal_with_fuel(glued, 14);
    let s = parts;
    assert(s.drop_last() =~= s.take(12));
    assert(s.take(12).drop_last() =~= s.take(11));
    assert(s.take(11).drop_last() =~= s.take(10));
    assert(s.take(10).drop_last() =~= s.take(9));
    assert(s.take(9).drop_last() =~= s.take(8));
    assert(s.take(8).drop_last() =~= s.take(7));
    assert(s.take(7).drop_last() =~= s.take(6));
    assert(s.take(6).drop_last() =~= s.take(5));
    assert(s.take(5).drop_last() =~= s.take(4));
    assert(s.take(4).drop_last() =~= s.take(3));
    assert(s.take(3).drop_last() =~= s.take(2));
    assert(s.take(2).drop_last() =~= s.take(1));
    assert(s.take(1).drop_last() =~= Seq::empty());
    assert(glued(s.take(1)) =~= s[0]);
}

/// A target in its request.
proof fn lemma_framed(u: UrlParts, t: Seq<char>)
    ensures
        "GET".spec_bytes() + " ".spec_bytes() + encode_utf8(t) + " HTTP/1.1\r\nHost: ".spec_bytes()
            + encode_utf8(u.authority) + "\r\n".spec_bytes() + "User-Agent".spec_bytes()
            + ": ".spec_bytes() + USER_AGENT.spec_bytes() + "\r\n".spec_bytes()
            + "Connection: close\r\n\r\n".spec_bytes() == encode_utf8(
            "GET "@ + t + " HTTP/1.1\r\nHost: "@ + u.authority
                + "\r\nUser-Agent: clove/2026.08\r\nConnection: close\r\n\r\n"@,
        ),
{
    reveal_strlit("GET");
    reveal_strlit(" ");
    reveal_strlit("GET ");
    reveal_strlit("\r\n");
    reveal_strlit("User-Agent");
    reveal_strlit(": ");
    reveal_strlit("clove/2026.08");
    reveal_strlit("Connection: close\r\n\r\n");
    reveal_strlit("\r\nUser-Agent: clove/2026.08\r\nConnection: close\r\n\r\n");
    let get = "GET "@;
    let host = " HTTP/1.1\r\nHost: "@;
    let a = "\r\n"@;
    let b = "User-Agent"@;
    let c = ": "@;
    let d = "clove/2026.08"@;
    let e = "\r\n"@;
    let f = "Connection: close\r\n\r\n"@;
    let end = "\r\nUser-Agent: clove/2026.08\r\nConnection: close\r\n\r\n"@;
    assert("GET"@ + " "@ =~= get);
    assert(a + b + c + d + e + f =~= end);
    crate::strings::lemma_encode_concat("GET"@, " "@);
    crate::strings::lemma_encode_concat(get, t);
    crate::strings::lemma_encode_concat(get + t, host);
    crate::strings::lemma_encode_concat(get + t + host, u.authority);
    crate::strings::lemma_encode_concat(get + t + host + u.authority, end);
    crate::strings::lemma_encode_concat(a, b);
    crate::strings::lemma_encode_concat(a + b, c);
    crate::strings::lemma_encode_concat(a + b + c, d);
    crate::strings::lemma_encode_concat(a + b + c + d, e);
    crate::strings::lemma_encode_concat(a + b + c + d + e, f);
    let x = encode_utf8(get + t + host + u.authority);
    assert(x + encode_utf8(a) + encode_utf8(b) + encode_utf8(c) + encode_utf8(d) + encode_utf8(e)
        + encode_utf8(f) =~= x + encode_utf8(end));
}

} // verus!
