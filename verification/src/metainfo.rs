//! .torrent metainfo parsing for the I2P dialect.
//!
//! Announce URLs that are not I2P are counted and dropped at parse time: never
//! resolved, never stored, never logged beyond the skip count. Path components
//! are validated here so nothing downstream has to reason about `..`,
//! separators, or NUL bytes.
use vstd::prelude::*;
#[allow(unused_imports)]
use vstd::string::*;
#[allow(unused_imports)]
use vstd::utf8::*;
use crate::bencode;
use crate::bencode::{decoded, entry_span, trees, Tree, Value};
use crate::digest::{sha1_digest, sha1_of, MAX_DIGEST_INPUT};
use crate::extension::text_in;
use crate::paths::{
    clash_of, find_clash, fold_path, folded_path, names_view, path_view, paths_view, Clash,
};
use crate::scan::{
    all_digits, contains_char, copy_chars, dec_value, find, find_in, is_space, is_space_char,
    is_text, lemma_find_char, lowercased, lowered_text, read_number, split, split_on,
    starts, starts_with, texts,
};
use crate::strings::{chars_of, copy_range, push_all, string_of, text_eq};

verus! {

/// SHA-1 of the raw bencoded `info` dictionary: the torrent's identity.
#[derive(Clone, Copy, PartialEq, Eq, Hash, Debug)]
pub struct InfoHash(pub [u8; 20]);

/// Smallest piece length clove accepts (16 KiB, the block size).
pub const MIN_PIECE_LENGTH: u32 = 16384;

/// Largest piece length clove accepts (128 MiB).
pub const MAX_PIECE_LENGTH: u32 = 134217728;

/// Most files a torrent may list. The daemon opens every file of every hosted
/// torrent at once, so a file is a descriptor for as long as the torrent is
/// up.
pub const MAX_FILES: usize = 100_000;

/// Longest path component a torrent may name, in bytes.
pub const MAX_COMPONENT_BYTES: usize = 255;

/// Longest file path a torrent may name below the download root, in bytes with
/// separators.
pub const MAX_PATH_BYTES: usize = 4096;

/// Most announce URLs a torrent keeps, counted across every tier. Each kept
/// URL is a naming lookup for the router and an announce per cycle for the
/// announcer.
pub const MAX_TRACKERS: usize = 16;

/// Most pieces a torrent may have: as many as a `bitfield` message can carry,
/// one id byte followed by a bit per piece.
pub const MAX_PIECES: u32 = 8388600;

/// One file within a torrent.
#[derive(Clone, Debug, PartialEq, Eq)]
pub struct FileEntry {
    /// Validated path components relative to the download root. For a
    /// single-file torrent this is `[name]`; for multi-file torrents it is
    /// `[name, subdir.., file]`.
    pub path: Vec<String>,
    /// File size in bytes; zero-length files are legal.
    pub length: u64,
}

/// A validated .torrent.
#[derive(Clone, Debug)]
pub struct MetaInfo {
    /// The torrent's identity on trackers and the wire.
    pub info_hash: InfoHash,
    /// The `info.name` field: torrent display name and root path component.
    pub name: String,
    /// Bytes per piece (except possibly the last).
    pub piece_length: u32,
    /// SHA-1 expectation for every piece, in order.
    pub pieces: Vec<[u8; 20]>,
    /// The torrent's files, in on-wire order.
    pub files: Vec<FileEntry>,
    /// Sum of all file lengths.
    pub total_length: u64,
    /// Private flag (`info.private == 1`); common on I2P.
    pub private: bool,
    /// Announce URL tiers after the I2P-only filter, at most [`MAX_TRACKERS`]
    /// URLs across them. May be empty: a torrent can still be joined via PEX
    /// or magnet paths.
    pub trackers: Vec<Vec<String>>,
    /// How many announce URLs were dropped: non-I2P ones, and I2P ones past
    /// [`MAX_TRACKERS`].
    pub skipped_trackers: usize,
    /// The raw bencoded `info` dictionary these fields came from: the exact
    /// bytes the info-hash covers.
    pub raw_info: Vec<u8>,
}

/// Why a .torrent was rejected.
#[derive(Clone, Copy, Debug, PartialEq, Eq)]
pub enum Error {
    /// Not valid bencode.
    Bencode(bencode::Error),
    /// Structurally invalid; the message names the offending field.
    Invalid(&'static str),
}

impl Error {
    /// What was wrong, in words.
    pub fn message(&self) -> (r: String)
        ensures
            r@ == (match *self {
                Error::Bencode(e) => "torrent: "@ + bencode::error_text(e),
                Error::Invalid(what) => "torrent: "@ + what@,
            }),
    {
        let mut s = "torrent: ".to_owned();
        match self {
            Error::Bencode(e) => s.append(e.message().as_str()),
            Error::Invalid(what) => s.append(what),
        }
        s
    }
}

/// An announce URL that has been parsed and accepted: `http://` to a host
/// ending in `.i2p`, with everything a request needs already separated out.
///
/// One parse for both questions clove asks of a tracker URL: "is this ours to
/// talk to" and "what request does it mean".
#[derive(Clone, Debug, PartialEq, Eq)]
pub struct TrackerUrl {
    /// The host alone, lowercased: what naming resolves. Never carries a port.
    pub host: String,
    /// The authority as written, host plus any port, for the `Host` header.
    pub authority: String,
    /// Path and query, always beginning with `/`.
    pub path_and_query: String,
}

// ---------------------------------------------------------------------------
// Info-hashes.

/// A lower-case hexadecimal digit.
pub open spec fn hex_lower(n: int) -> char {
    if n < 10 {
        (48 + n) as char
    } else {
        (87 + n) as char
    }
}

/// Bytes in lower-case hexadecimal.
pub open spec fn hex_text(s: Seq<u8>) -> Seq<char> {
    Seq::new(
        2 * s.len(),
        |i: int|
            if i % 2 == 0 {
                hex_lower(s[i / 2] as int / 16)
            } else {
                hex_lower(s[i / 2] as int % 16)
            },
    )
}

fn push_hex_lower(out: &mut String, n: u8)
    requires
        n < 16,
    ensures
        final(out)@ == old(out)@.push(hex_lower(n as int)),
{
    let c: u8 = if n < 10 {
        48 + n
    } else {
        87 + n
    };
    out.push(c as char);
}

impl InfoHash {
    /// Lowercase hex, as used in logs and magnet links.
    pub fn to_hex(&self) -> (r: String)
        ensures
            r@ == hex_text(self.0@),
    {
        let mut out: String = String::new();
        let mut i: usize = 0;
        while i < 20
            invariant
                i <= 20,
                out@ =~= hex_text(self.0@).take(2 * i),
            decreases 20 - i,
        {
            let b: u8 = self.0[i];
            push_hex_lower(&mut out, b / 16);
            push_hex_lower(&mut out, b % 16);
            i = i + 1;
        }
        proof {
            assert(hex_text(self.0@).take(40) =~= hex_text(self.0@));
        }
        out
    }
}

// ---------------------------------------------------------------------------
// Tracker URLs.

/// What a [`TrackerUrl`] stands for.
#[verifier::ext_equal]
pub struct UrlParts {
    pub host: Seq<char>,
    pub authority: Seq<char>,
    pub path_and_query: Seq<char>,
}

impl View for TrackerUrl {
    type V = UrlParts;

    open spec fn view(&self) -> UrlParts {
        UrlParts {
            host: self.host@,
            authority: self.authority@,
            path_and_query: self.path_and_query@,
        }
    }
}

/// Whether a character has no place in a URL: controls and white space.
pub open spec fn is_ctl(c: char) -> bool {
    c as u32 <= 0x20 || 0x7f <= c as u32 <= 0x9f || is_space(c)
}

/// Whether no character is a control or white space.
pub open spec fn no_ctl(s: Seq<char>) -> bool {
    forall|i: int| 0 <= i < s.len() ==> !is_ctl(#[trigger] s[i])
}

/// Whether a character is a hexadecimal digit.
pub open spec fn is_hex(c: char) -> bool {
    ('0' <= c <= '9') || ('a' <= c <= 'f') || ('A' <= c <= 'F')
}

/// Whether every `%` begins a complete two-digit escape.
pub open spec fn escapes_complete(s: Seq<char>) -> bool {
    forall|i: int|
        0 <= i < s.len() && #[trigger] s[i] == '%' ==> i + 2 < s.len() && is_hex(s[i + 1])
            && is_hex(s[i + 2])
}

/// Where the authority of a URL ends: at the first slash or question mark.
pub open spec fn authority_end(rest: Seq<char>) -> int {
    let i = find(rest, "/"@, 0);
    let j = find(rest, "?"@, 0);
    if i < j {
        i
    } else {
        j
    }
}

/// The authority of a URL, and its path and query, which begin with a slash
/// though the URL may leave the path out.
pub open spec fn cut_authority(rest: Seq<char>) -> (Seq<char>, Seq<char>) {
    let k = authority_end(rest);
    (
        rest.take(k),
        if k < rest.len() && rest[k] == '/' {
            rest.skip(k)
        } else {
            "/"@ + rest.skip(k)
        },
    )
}

/// The last position before `n` that holds `c`, or -1.
pub open spec fn last_index(s: Seq<char>, c: char, n: int) -> int
    decreases n,
{
    if n <= 0 {
        -1
    } else if s[n - 1] == c {
        n - 1
    } else {
        last_index(s, c, n - 1)
    }
}

/// Whether a text is a port number.
pub open spec fn is_port(s: Seq<char>) -> bool {
    s.len() > 0 && all_digits(s) && 0 < dec_value(s) <= u16::MAX
}

/// The host of an authority, if its port, where it has one, is a port.
pub open spec fn host_of(authority: Seq<char>) -> Option<Seq<char>> {
    let i = last_index(authority, ':', authority.len() as int);
    if i < 0 {
        Some(authority)
    } else if is_port(authority.skip(i + 1)) {
        Some(authority.take(i))
    } else {
        None
    }
}

/// Whether a host is one of I2P's: at least two labels, none of them empty,
/// the last `i2p`.
pub open spec fn is_i2p_host(host: Seq<char>) -> bool {
    let labels = split(host, "."@);
    &&& labels.len() >= 2
    &&& labels.last() == "i2p"@
    &&& forall|i: int| 0 <= i < labels.len() ==> (#[trigger] labels[i]).len() > 0
}

/// What an announce URL says, if it is one that clove has business dialing.
pub open spec fn url_parts(url: Seq<char>) -> Option<UrlParts> {
    if !starts(url, "http://"@) {
        None
    } else {
        let rest = url.skip(7);
        let (authority, path) = cut_authority(rest);
        if !no_ctl(rest) || !escapes_complete(rest) || rest.contains('#') || authority.contains(
            '@',
        ) {
            None
        } else {
            match host_of(authority) {
                None => None,
                Some(host) => if is_i2p_host(lowered_text(host)) {
                    Some(
                        UrlParts {
                            host: lowered_text(host),
                            authority,
                            path_and_query: path,
                        },
                    )
                } else {
                    None
                },
            }
        }
    }
}

fn has_ctl(s: &[char]) -> (r: bool)
    ensures
        r == !no_ctl(s@),
{
    let mut i: usize = 0;
    while i < s.len()
        invariant
            i <= s@.len(),
            forall|j: int| 0 <= j < i ==> !is_ctl(#[trigger] s@[j]),
        decreases s.len() - i,
    {
        let c: char = s[i];
        let n: u32 = c as u32;
        if n <= 0x20 || (0x7f <= n && n <= 0x9f) || is_space_char(c) {
            proof {
                assert(is_ctl(s@[i as int]));
            }
            return true;
        }
        i = i + 1;
    }
    false
}

fn is_hex_char(c: char) -> (r: bool)
    ensures
        r == is_hex(c),
{
    ('0' <= c && c <= '9') || ('a' <= c && c <= 'f') || ('A' <= c && c <= 'F')
}

/// Whether every `%` in `s` begins a complete two-hex-digit escape.
fn valid_percent_escapes(s: &[char]) -> (r: bool)
    ensures
        r == escapes_complete(s@),
{
    let mut i: usize = 0;
    while i < s.len()
        invariant
            i <= s@.len(),
            s.len() == s@.len(),
            forall|j: int|
                0 <= j < i && #[trigger] s@[j] == '%' ==> j + 2 < s@.len() && is_hex(s@[j + 1])
                    && is_hex(s@[j + 2]),
        decreases s.len() - i,
    {
        if s[i] == '%' {
            if s.len() - i < 3 || !is_hex_char(s[i + 1]) || !is_hex_char(s[i + 2]) {
                proof {
                    assert(s@[i as int] == '%');
                }
                return false;
            }
        }
        i = i + 1;
    }
    true
}

/// The last position that holds `c`.
pub(crate) fn find_last(s: &[char], c: char) -> (r: Option<usize>)
    ensures
        match r {
            Some(i) => i == last_index(s@, c, s@.len() as int) && i < s@.len(),
            None => last_index(s@, c, s@.len() as int) < 0,
        },
{
    let mut n: usize = s.len();
    while n > 0
        invariant
            n <= s@.len(),
            last_index(s@, c, s@.len() as int) == last_index(s@, c, n as int),
        decreases n,
    {
        if s[n - 1] == c {
            return Some(n - 1);
        }
        n = n - 1;
    }
    None
}

/// Whether a text is a port number.
pub(crate) fn valid_port(s: &[char]) -> (r: bool)
    ensures
        r == is_port(s@),
{
    if s.len() == 0 || s[0] == '+' {
        proof {
            if s@.len() > 0 {
                assert(!('0' <= s@[0] <= '9'));
            }
        }
        return false;
    }
    match read_number(s, u16::MAX as u64) {
        Some(n) => n > 0,
        None => false,
    }
}

fn valid_host(host: &[char]) -> (r: bool)
    ensures
        r == is_i2p_host(host@),
{
    proof {
        reveal_strlit(".");
    }
    let labels = split_on(host, chars_of(".").as_slice());
    let ghost ls = texts(labels@);
    if labels.len() < 2 {
        return false;
    }
    let last: usize = labels.len() - 1;
    proof {
        assert(ls.last() == labels@[last as int]@);
    }
    if !is_text(labels[last].as_slice(), "i2p") {
        return false;
    }
    let mut i: usize = 0;
    while i < labels.len()
        invariant
            i <= labels@.len(),
            ls == texts(labels@),
            ls == split(host@, "."@),
            forall|j: int| 0 <= j < i ==> (#[trigger] ls[j]).len() > 0,
        decreases labels.len() - i,
    {
        proof {
            assert(ls[i as int] == labels@[i as int]@);
        }
        if labels[i].len() == 0 {
            proof {
                assert(ls[i as int].len() == 0);
            }
            return false;
        }
        i = i + 1;
    }
    true
}

impl TrackerUrl {
    /// Parse an announce URL, or `None` if clove has no business dialing it.
    ///
    /// Accepts `http://` only. Also refused: control characters and whitespace
    /// anywhere, userinfo, fragments, malformed percent escapes, an empty host
    /// label, and a port that is not a number in range.
    pub fn parse(url: &str) -> (r: Option<TrackerUrl>)
        ensures
            match r {
                Some(u) => url_parts(url@) == Some(u@),
                None => url_parts(url@) is None,
            },
    {
        proof {
            reveal_strlit("http://");
            reveal_strlit("/");
            reveal_strlit("?");
        }
        let chars = chars_of(url);
        if !starts_with(chars.as_slice(), chars_of("http://").as_slice()) {
            return None;
        }
        let rest = copy_chars(chars.as_slice(), 7, chars.len());
        proof {
            assert(rest@ =~= url@.skip(7));
        }
        if has_ctl(rest.as_slice()) || !valid_percent_escapes(rest.as_slice()) || contains_char(
            rest.as_slice(),
            '#',
        ) {
            return None;
        }
        let i: usize = find_in(rest.as_slice(), chars_of("/").as_slice(), 0);
        let j: usize = find_in(rest.as_slice(), chars_of("?").as_slice(), 0);
        let cut: usize = if i < j {
            i
        } else {
            j
        };
        let authority = copy_chars(rest.as_slice(), 0, cut);
        let mut path: Vec<char> = Vec::new();
        let rooted = cut < rest.len() && rest[cut] == '/';
        if !rooted {
            path.push('/');
        }
        let mut tail = copy_chars(rest.as_slice(), cut, rest.len());
        let ghost t = tail@;
        path.append(&mut tail);
        proof {
            assert(t =~= rest@.skip(cut as int));
            assert(authority@ =~= rest@.take(cut as int));
            if rooted {
                assert(path@ =~= rest@.skip(cut as int));
            } else {
                assert(path@ =~= "/"@ + rest@.skip(cut as int));
            }
            assert(cut_authority(rest@) == (authority@, path@));
        }
        if contains_char(authority.as_slice(), '@') {
            return None;
        }
        let host = match find_last(authority.as_slice(), ':') {
            Some(k) => {
                let port = copy_chars(authority.as_slice(), k + 1, authority.len());
                proof {
                    assert(port@ =~= authority@.skip(k + 1));
                }
                if !valid_port(port.as_slice()) {
                    return None;
                }
                let h = copy_chars(authority.as_slice(), 0, k);
                proof {
                    assert(h@ =~= authority@.take(k as int));
                }
                h
            },
            None => copy_chars(authority.as_slice(), 0, authority.len()),
        };
        proof {
            assert(host_of(authority@) is Some);
            assert(host@ =~= host_of(authority@)->Some_0);
        }
        let host = lowercased(host.as_slice());
        if !valid_host(host.as_slice()) {
            return None;
        }
        let u = TrackerUrl {
            host: string_of(host.as_slice()),
            authority: string_of(authority.as_slice()),
            path_and_query: string_of(path.as_slice()),
        };
        proof {
            assert(u@ =~= url_parts(url@)->Some_0);
        }
        Some(u)
    }
}

/// True when `url` announces to an I2P destination: exactly when
/// [`TrackerUrl::parse`] succeeds.
pub fn is_i2p_tracker(url: &str) -> (r: bool)
    ensures
        r == (url_parts(url@) is Some),
{
    TrackerUrl::parse(url).is_some()
}


// ---------------------------------------------------------------------------
// The model of a torrent.

/// What a [`FileEntry`] stands for.
#[verifier::ext_equal]
pub struct FileSpec {
    pub path: Seq<Seq<char>>,
    pub length: nat,
}

impl View for FileEntry {
    type V = FileSpec;

    open spec fn view(&self) -> FileSpec {
        FileSpec { path: names_view(self.path), length: self.length as nat }
    }
}

/// What a list of files stands for.
pub open spec fn files_view(v: Seq<FileEntry>) -> Seq<FileSpec> {
    Seq::new(v.len(), |i: int| v[i]@)
}

/// What tiers of URLs stand for.
pub open spec fn tiers_view(v: Seq<Vec<String>>) -> Seq<Seq<Seq<char>>> {
    Seq::new(v.len(), |i: int| names_view(v[i]))
}

/// What a list of piece hashes stands for.
pub open spec fn hashes_view(v: Seq<[u8; 20]>) -> Seq<Seq<u8>> {
    Seq::new(v.len(), |i: int| v[i]@)
}

/// What a [`MetaInfo`] stands for.
#[verifier::ext_equal]
pub struct Meta {
    pub info_hash: Seq<u8>,
    pub name: Seq<char>,
    pub piece_length: u32,
    pub pieces: Seq<Seq<u8>>,
    pub files: Seq<FileSpec>,
    pub total_length: nat,
    pub private: bool,
    pub trackers: Seq<Seq<Seq<char>>>,
    pub skipped_trackers: usize,
    pub raw_info: Seq<u8>,
}

impl View for MetaInfo {
    type V = Meta;

    open spec fn view(&self) -> Meta {
        Meta {
            info_hash: self.info_hash.0@,
            name: self.name@,
            piece_length: self.piece_length,
            pieces: hashes_view(self.pieces@),
            files: files_view(self.files@),
            total_length: self.total_length as nat,
            private: self.private,
            trackers: tiers_view(self.trackers@),
            skipped_trackers: self.skipped_trackers,
            raw_info: self.raw_info@,
        }
    }
}

/// A structural fault.
pub open spec fn invalid<T>(what: &'static str) -> Result<T, Error> {
    Err(Error::Invalid(what))
}

/// Whether a path component is usable under the data directory: nonempty, no
/// separators, not `.` or `..`, no NUL.
pub open spec fn is_safe_component(s: Seq<char>) -> bool {
    s.len() > 0 && s != "."@ && s != ".."@ && !s.contains('/') && !s.contains('\\') && !s.contains(
        '\0',
    )
}

/// What is wrong with a path component, if anything.
pub open spec fn component_check(s: Seq<char>) -> Result<(), Error> {
    if !is_safe_component(s) {
        invalid("unsafe path component")
    } else if encode_utf8(s).len() > MAX_COMPONENT_BYTES {
        invalid("path component longer than a filename can be")
    } else {
        Ok(())
    }
}

/// A size under a key: an integer that is not negative.
pub open spec fn size_of_tree(t: Option<Tree>) -> Option<nat> {
    match t {
        Some(Tree::Int(n)) => if n >= 0 {
            Some(n as nat)
        } else {
            None
        },
        _ => None,
    }
}

/// The path that starts with the torrent's name and goes on with the first
/// `n` components.
pub open spec fn path_in(raw: Seq<Tree>, n: int, name: Seq<char>) -> Result<Seq<Seq<char>>, Error>
    decreases n,
{
    if n <= 0 {
        Ok(seq![name])
    } else {
        match path_in(raw, n - 1, name) {
            Err(e) => Err(e),
            Ok(p) => match text_in(Some(raw[n - 1])) {
                None => invalid("non-UTF-8 path component"),
                Some(part) => match component_check(part) {
                    Err(e) => Err(e),
                    Ok(_) => Ok(p.push(part)),
                },
            },
        }
    }
}

/// The bytes that the first `n` components of a path take, each with a
/// separator.
pub open spec fn path_bytes(p: Seq<Seq<char>>, n: int) -> nat
    decreases n,
{
    if n <= 0 {
        0
    } else {
        path_bytes(p, n - 1) + encode_utf8(p[n - 1]).len() + 1
    }
}

/// The file that an entry of a file list describes.
pub open spec fn file_in(t: Tree, name: Seq<char>) -> Result<FileSpec, Error> {
    match size_of_tree(t.get("length".spec_bytes())) {
        None => invalid("bad file length"),
        Some(length) => match t.get("path".spec_bytes()) {
            Some(Tree::List(raw)) => if raw.len() == 0 {
                invalid("bad file path")
            } else {
                match path_in(raw, raw.len() as int, name) {
                    Err(e) => Err(e),
                    Ok(path) => if path_bytes(path, path.len() as int) > MAX_PATH_BYTES {
                        invalid("file path longer than a path can be")
                    } else {
                        Ok(FileSpec { path, length })
                    },
                }
            },
            _ => invalid("bad file path"),
        },
    }
}

/// The first `n` files of a list, and the sum of their lengths.
pub open spec fn files_in(list: Seq<Tree>, n: int, name: Seq<char>) -> Result<
    (Seq<FileSpec>, nat),
    Error,
>
    decreases n,
{
    if n <= 0 {
        Ok((Seq::empty(), 0))
    } else {
        match files_in(list, n - 1, name) {
            Err(e) => Err(e),
            Ok((files, total)) => match file_in(list[n - 1], name) {
                Err(e) => Err(e),
                Ok(f) => if total + f.length > u64::MAX {
                    invalid("total length overflows")
                } else {
                    Ok((files.push(f), total + f.length))
                },
            },
        }
    }
}

/// The case-folded paths of a list of files.
pub open spec fn folded_paths(files: Seq<FileSpec>) -> Seq<Seq<Seq<u8>>> {
    Seq::new(files.len(), |i: int| folded_path(files[i].path))
}

/// The files a torrent lists, and the sum of their lengths.
pub open spec fn file_list(info: Tree, name: Seq<char>) -> Result<(Seq<FileSpec>, nat), Error> {
    match (info.get("length".spec_bytes()), info.get("files".spec_bytes())) {
        (Some(_), Some(_)) => invalid("both length and files present"),
        (None, None) => invalid("neither length nor files present"),
        (Some(len), None) => match size_of_tree(Some(len)) {
            None => invalid("bad file length"),
            Some(length) => if length == 0 {
                invalid("single-file torrent of zero bytes")
            } else {
                Ok((seq![FileSpec { path: seq![name], length }], length))
            },
        },
        (None, Some(Tree::List(list))) => if list.len() == 0 {
            invalid("files list is empty")
        } else if list.len() > MAX_FILES {
            invalid("too many files")
        } else {
            match files_in(list, list.len() as int, name) {
                Err(e) => Err(e),
                Ok((files, total)) => if total == 0 {
                    invalid("torrent of zero total bytes")
                } else {
                    match clash_of(folded_paths(files)) {
                        Some(Clash::Same) => invalid(
                            "two files share the same path, up to letter case",
                        ),
                        Some(Clash::Directory) => invalid("a file path is also a directory path"),
                        None => Ok((files, total)),
                    }
                },
            }
        },
        (None, Some(_)) => invalid("files is not a list"),
    }
}

/// One more, as far as can be counted.
pub open spec fn bumped(n: usize) -> usize {
    if n < usize::MAX {
        (n + 1) as usize
    } else {
        n
    }
}

/// The URLs kept of the first `n` of a tier, and how many are kept and skipped
/// in all.
pub open spec fn tier_in(
    tier: Seq<Tree>,
    n: int,
    kept_before: nat,
    skipped_before: usize,
) -> Result<(Seq<Seq<char>>, nat, usize), Error>
    decreases n,
{
    if n <= 0 {
        Ok((Seq::empty(), kept_before, skipped_before))
    } else {
        match tier_in(tier, n - 1, kept_before, skipped_before) {
            Err(e) => Err(e),
            Ok((urls, kept, skipped)) => match text_in(Some(tier[n - 1])) {
                None => invalid("announce URL is not a UTF-8 string"),
                Some(url) => if url_parts(url) is Some && kept < MAX_TRACKERS {
                    Ok((urls.push(url), kept + 1, skipped))
                } else {
                    Ok((urls, kept, bumped(skipped)))
                },
            },
        }
    }
}

/// The tiers kept of the first `n`, and how many URLs are kept and skipped.
pub open spec fn tiers_in(list: Seq<Tree>, n: int) -> Result<
    (Seq<Seq<Seq<char>>>, nat, usize),
    Error,
>
    decreases n,
{
    if n <= 0 {
        Ok((Seq::empty(), 0, 0))
    } else {
        match tiers_in(list, n - 1) {
            Err(e) => Err(e),
            Ok((tiers, kept, skipped)) => match list[n - 1] {
                Tree::List(tier) => match tier_in(tier, tier.len() as int, kept, skipped) {
                    Err(e) => Err(e),
                    Ok((urls, kept2, skipped2)) => Ok(
                        (
                            if urls.len() > 0 {
                                tiers.push(urls)
                            } else {
                                tiers
                            },
                            kept2,
                            skipped2,
                        ),
                    ),
                },
                _ => invalid("announce-list tier is not a list"),
            },
        }
    }
}

/// The announce URLs a torrent keeps, in tiers, and how many it drops. An
/// announce list takes precedence over a single announce URL.
pub open spec fn trackers_in(root: Tree) -> Result<(Seq<Seq<Seq<char>>>, usize), Error> {
    match root.get("announce-list".spec_bytes()) {
        Some(Tree::List(list)) => match tiers_in(list, list.len() as int) {
            Err(e) => Err(e),
            Ok((tiers, kept, skipped)) => Ok((tiers, skipped)),
        },
        Some(_) => invalid("announce-list is not a list"),
        None => match root.get("announce".spec_bytes()) {
            None => Ok((Seq::empty(), 0)),
            Some(t) => match text_in(Some(t)) {
                None => invalid("announce URL is not a UTF-8 string"),
                Some(url) => if url_parts(url) is Some {
                    Ok((seq![seq![url]], 0))
                } else {
                    Ok((Seq::empty(), 1))
                },
            },
        },
    }
}

/// The name of a torrent.
pub open spec fn name_in(info: Tree) -> Result<Seq<char>, Error> {
    match text_in(info.get("name".spec_bytes())) {
        None => invalid("missing or non-UTF-8 name"),
        Some(name) => match component_check(name) {
            Err(e) => Err(e),
            Ok(_) => Ok(name),
        },
    }
}

/// The piece length of a torrent.
pub open spec fn piece_length_in(info: Tree) -> Result<u32, Error> {
    match info.get("piece length".spec_bytes()) {
        Some(Tree::Int(n)) => if MIN_PIECE_LENGTH <= n <= MAX_PIECE_LENGTH {
            Ok(n as u32)
        } else {
            invalid("piece length out of accepted range")
        },
        _ => invalid("missing piece length"),
    }
}

/// The piece hashes in a byte string of them.
pub open spec fn hashes_of(raw: Seq<u8>) -> Seq<Seq<u8>> {
    Seq::new(raw.len() / 20, |i: int| raw.subrange(20 * i, 20 * i + 20))
}

/// The piece hashes of a torrent.
pub open spec fn pieces_in(info: Tree) -> Result<Seq<Seq<u8>>, Error> {
    match info.get("pieces".spec_bytes()) {
        Some(Tree::Bytes(raw)) => if raw.len() == 0 || raw.len() % 20 != 0 {
            invalid("pieces is not a multiple of 20 bytes")
        } else {
            Ok(hashes_of(raw))
        },
        _ => invalid("missing pieces"),
    }
}

/// How many pieces of a length it takes to cover a torrent.
pub open spec fn pieces_for(total: nat, piece_length: u32) -> nat {
    ((total + piece_length - 1) / (piece_length as int)) as nat
}

/// The torrent that an `info` dictionary and what surrounds it describe.
pub open spec fn meta_of(root: Tree, info: Tree, raw_info: Seq<u8>) -> Result<Meta, Error> {
    match name_in(info) {
        Err(e) => Err(e),
        Ok(name) => match piece_length_in(info) {
            Err(e) => Err(e),
            Ok(piece_length) => match pieces_in(info) {
                Err(e) => Err(e),
                Ok(pieces) => match file_list(info, name) {
                    Err(e) => Err(e),
                    Ok((files, total)) => if pieces_for(total, piece_length) > MAX_PIECES {
                        invalid("more pieces than a bitfield message can carry")
                    } else if pieces_for(total, piece_length) != pieces.len() {
                        invalid("piece count disagrees with total length")
                    } else {
                        match trackers_in(root) {
                            Err(e) => Err(e),
                            Ok((trackers, skipped)) => Ok(
                                Meta {
                                    info_hash: sha1_of(raw_info),
                                    name,
                                    piece_length,
                                    pieces,
                                    files,
                                    total_length: total,
                                    private: info.get("private".spec_bytes()) == Some(Tree::Int(1)),
                                    trackers,
                                    skipped_trackers: skipped,
                                    raw_info,
                                },
                            ),
                        }
                    },
                },
            },
        },
    }
}

/// The torrent that a .torrent file describes.
pub open spec fn meta_in(s: Seq<u8>) -> Result<Meta, Error> {
    match decoded(s) {
        Err(e) => Err(Error::Bencode(e)),
        Ok(root) => match root.get("info".spec_bytes()) {
            None => invalid("missing info dictionary"),
            Some(info) => if !(info is Dict) {
                invalid("info is not a dictionary")
            } else {
                let (from, to) = entry_span(s, "info".spec_bytes())->Some_0;
                meta_of(root, info, s.subrange(from, to))
            },
        },
    }
}

// ---------------------------------------------------------------------------
// Parsing.

fn check_component(s: &str) -> (r: Result<(), Error>)
    ensures
        r == component_check(s@),
{
    let c = chars_of(s);
    if c.len() == 0 || text_eq(s, ".") || text_eq(s, "..") || contains_char(c.as_slice(), '/')
        || contains_char(c.as_slice(), '\\') || contains_char(c.as_slice(), '\0') {
        return Err(Error::Invalid("unsafe path component"));
    }
    if s.as_bytes().len() > MAX_COMPONENT_BYTES {
        return Err(Error::Invalid("path component longer than a filename can be"));
    }
    Ok(())
}

fn as_size(v: &Value) -> (r: Option<u64>)
    ensures
        match r {
            Some(n) => size_of_tree(Some(v@)) == Some(n as nat),
            None => size_of_tree(Some(v@)) is None,
        },
{
    match v.as_int() {
        Some(n) => if n >= 0 {
            Some(n as u64)
        } else {
            None
        },
        None => None,
    }
}

/// The text of a value, if it is some.
pub(crate) fn value_text(v: &Value) -> (r: Option<&str>)
    ensures
        match r {
            Some(s) => text_in(Some(v@)) == Some(s@),
            None => text_in(Some(v@)) is None,
        },
{
    v.as_str()
}

fn copy_str(s: &str) -> (r: String)
    ensures
        r@ == s@,
{
    s.to_owned()
}

proof fn lemma_path_fail(raw: Seq<Tree>, k: int, n: int, name: Seq<char>)
    requires
        k <= n,
        path_in(raw, k, name) is Err,
    ensures
        path_in(raw, n, name) == path_in(raw, k, name),
    decreases n - k,
{
    if k < n {
        lemma_path_fail(raw, k, n - 1, name);
    }
}

fn parse_path(raw: &Vec<Value>, name: &str) -> (r: Result<Vec<String>, Error>)
    ensures
        match r {
            Ok(p) => path_in(trees(*raw), raw@.len() as int, name@) == Ok::<Seq<Seq<char>>, Error>(
                names_view(p),
            ),
            Err(e) => path_in(trees(*raw), raw@.len() as int, name@) == Err::<
                Seq<Seq<char>>,
                Error,
            >(e),
        },
{
    let ghost t = trees(*raw);
    let mut path: Vec<String> = Vec::new();
    path.push(copy_str(name));
    proof {
        assert(names_view(path) =~= seq![name@]);
    }
    let mut i: usize = 0;
    while i < raw.len()
        invariant
            i <= raw@.len(),
            t == trees(*raw),
            t.len() == raw@.len(),
            path_in(t, i as int, name@) == Ok::<Seq<Seq<char>>, Error>(names_view(path)),
        decreases raw.len() - i,
    {
        let ghost had = names_view(path);
        proof {
            assert(t[i as int] == raw@[i as int]@);
        }
        let part = match value_text(&raw[i]) {
            Some(s) => s,
            None => {
                proof {
                    lemma_path_fail(t, i as int + 1, t.len() as int, name@);
                }
                return Err(Error::Invalid("non-UTF-8 path component"));
            },
        };
        match check_component(part) {
            Ok(()) => {},
            Err(e) => {
                proof {
                    lemma_path_fail(t, i as int + 1, t.len() as int, name@);
                }
                return Err(e);
            },
        }
        path.push(copy_str(part));
        proof {
            assert(names_view(path) =~= had.push(part@));
        }
        i = i + 1;
    }
    Ok(path)
}

proof fn lemma_path_bytes_monotone(p: Seq<Seq<char>>, k: int, n: int)
    requires
        k <= n,
    ensures
        path_bytes(p, k) <= path_bytes(p, n),
    decreases n - k,
{
    if k < n {
        lemma_path_bytes_monotone(p, k, n - 1);
    }
}

fn path_too_long(path: &Vec<String>) -> (r: bool)
    ensures
        r == (path_bytes(names_view(*path), path@.len() as int) > MAX_PATH_BYTES),
{
    let ghost p = names_view(*path);
    let mut n: usize = 0;
    let mut i: usize = 0;
    while i < path.len()
        invariant
            i <= path@.len(),
            p == names_view(*path),
            n == path_bytes(p, i as int),
            n <= MAX_PATH_BYTES,
        decreases path.len() - i,
    {
        proof {
            lemma_path_bytes_monotone(p, i as int + 1, path@.len() as int);
        }
        let len: usize = path[i].as_str().as_bytes().len();
        if len > MAX_PATH_BYTES || n + len + 1 > MAX_PATH_BYTES {
            return true;
        }
        n = n + len + 1;
        i = i + 1;
    }
    false
}

fn parse_file(file: &Value, name: &str) -> (r: Result<FileEntry, Error>)
    ensures
        match r {
            Ok(f) => file_in(file@, name@) == Ok::<FileSpec, Error>(f@),
            Err(e) => file_in(file@, name@) == Err::<FileSpec, Error>(e),
        },
{
    let length: u64 = match file.get("length".as_bytes()) {
        Some(v) => match as_size(v) {
            Some(n) => n,
            None => return Err(Error::Invalid("bad file length")),
        },
        None => return Err(Error::Invalid("bad file length")),
    };
    let raw = match file.get("path".as_bytes()) {
        Some(v) => match v.as_list() {
            Some(l) => l,
            None => return Err(Error::Invalid("bad file path")),
        },
        None => return Err(Error::Invalid("bad file path")),
    };
    if raw.len() == 0 {
        return Err(Error::Invalid("bad file path"));
    }
    let path = match parse_path(raw, name) {
        Ok(p) => p,
        Err(e) => return Err(e),
    };
    if path_too_long(&path) {
        return Err(Error::Invalid("file path longer than a path can be"));
    }
    Ok(FileEntry { path, length })
}

proof fn lemma_files_fail(list: Seq<Tree>, k: int, n: int, name: Seq<char>)
    requires
        k <= n,
        files_in(list, k, name) is Err,
    ensures
        files_in(list, n, name) == files_in(list, k, name),
    decreases n - k,
{
    if k < n {
        lemma_files_fail(list, k, n - 1, name);
    }
}

fn check_distinct_paths(entries: &Vec<FileEntry>) -> (r: Option<Clash>)
    ensures
        r == clash_of(folded_paths(files_view(entries@))),
{
    let mut paths: Vec<Vec<Vec<u8>>> = Vec::new();
    let mut i: usize = 0;
    while i < entries.len()
        invariant
            i <= entries@.len(),
            paths@.len() == i,
            forall|j: int|
                0 <= j < i ==> path_view(#[trigger] paths@[j]) == folded_path(
                    names_view(entries@[j].path),
                ),
        decreases entries.len() - i,
    {
        paths.push(fold_path(&entries[i].path));
        i = i + 1;
    }
    proof {
        assert(paths_view(paths@) =~= folded_paths(files_view(entries@)));
    }
    find_clash(&paths)
}

fn parse_files(info: &Value, name: &str) -> (r: Result<(Vec<FileEntry>, u64), Error>)
    ensures
        match r {
            Ok((files, total)) => file_list(info@, name@) == Ok::<(Seq<FileSpec>, nat), Error>(
                (files_view(files@), total as nat),
            ),
            Err(e) => file_list(info@, name@) == Err::<(Seq<FileSpec>, nat), Error>(e),
        },
{
    let single = info.get("length".as_bytes());
    let multi = info.get("files".as_bytes());
    match (single, multi) {
        (Some(_), Some(_)) => Err(Error::Invalid("both length and files present")),
        (None, None) => Err(Error::Invalid("neither length nor files present")),
        (Some(len), None) => {
            let length: u64 = match as_size(len) {
                Some(n) => n,
                None => return Err(Error::Invalid("bad file length")),
            };
            if length == 0 {
                return Err(Error::Invalid("single-file torrent of zero bytes"));
            }
            let mut path: Vec<String> = Vec::new();
            path.push(copy_str(name));
            let mut files: Vec<FileEntry> = Vec::new();
            let ghost p = path;
            files.push(FileEntry { path, length });
            proof {
                assert(names_view(p) =~= seq![name@]);
                assert(files_view(files@) =~= seq![
                    FileSpec { path: seq![name@], length: length as nat },
                ]);
            }
            Ok((files, length))
        },
        (None, Some(v)) => {
            let list = match v.as_list() {
                Some(l) => l,
                None => return Err(Error::Invalid("files is not a list")),
            };
            if list.len() == 0 {
                return Err(Error::Invalid("files list is empty"));
            }
            if list.len() > MAX_FILES {
                return Err(Error::Invalid("too many files"));
            }
            let ghost t = trees(*list);
            let mut entries: Vec<FileEntry> = Vec::new();
            let mut total: u64 = 0;
            let mut i: usize = 0;
            proof {
                assert(files_view(entries@) =~= Seq::empty());
            }
            while i < list.len()
                invariant
                    i <= list@.len(),
                    0 < list@.len() <= MAX_FILES,
                    t == trees(*list),
                    t.len() == list@.len(),
                    v@ == Tree::List(t),
                    info@.get("length".spec_bytes()) is None,
                    info@.get("files".spec_bytes()) == Some(v@),
                    files_in(t, i as int, name@) == Ok::<(Seq<FileSpec>, nat), Error>(
                        (files_view(entries@), total as nat),
                    ),
                decreases list.len() - i,
            {
                let ghost had = files_view(entries@);
                proof {
                    assert(t[i as int] == list@[i as int]@);
                }
                let f = match parse_file(&list[i], name) {
                    Ok(f) => f,
                    Err(e) => {
                        proof {
                            lemma_files_fail(t, i as int + 1, t.len() as int, name@);
                        }
                        return Err(e);
                    },
                };
                if f.length > u64::MAX - total {
                    proof {
                        lemma_files_fail(t, i as int + 1, t.len() as int, name@);
                    }
                    return Err(Error::Invalid("total length overflows"));
                }
                total = total + f.length;
                let ghost fv = f@;
                entries.push(f);
                proof {
                    assert(files_view(entries@) =~= had.push(fv));
                }
                i = i + 1;
            }
            if total == 0 {
                return Err(Error::Invalid("torrent of zero total bytes"));
            }
            match check_distinct_paths(&entries) {
                Some(Clash::Same) => Err(
                    Error::Invalid("two files share the same path, up to letter case"),
                ),
                Some(Clash::Directory) => Err(
                    Error::Invalid("a file path is also a directory path"),
                ),
                None => Ok((entries, total)),
            }
        },
    }
}

proof fn lemma_tier_fail(tier: Seq<Tree>, k: int, n: int, kept: nat, skipped: usize)
    requires
        k <= n,
        tier_in(tier, k, kept, skipped) is Err,
    ensures
        tier_in(tier, n, kept, skipped) == tier_in(tier, k, kept, skipped),
    decreases n - k,
{
    if k < n {
        lemma_tier_fail(tier, k, n - 1, kept, skipped);
    }
}

proof fn lemma_tiers_fail(list: Seq<Tree>, k: int, n: int)
    requires
        k <= n,
        tiers_in(list, k) is Err,
    ensures
        tiers_in(list, n) == tiers_in(list, k),
    decreases n - k,
{
    if k < n {
        lemma_tiers_fail(list, k, n - 1);
    }
}

fn parse_tier(tier: &Vec<Value>, kept_before: usize, skipped_before: usize) -> (r: Result<
    (Vec<String>, usize, usize),
    Error,
>)
    requires
        kept_before <= MAX_TRACKERS,
    ensures
        match r {
            Ok((urls, kept, skipped)) => tier_in(
                trees(*tier),
                tier@.len() as int,
                kept_before as nat,
                skipped_before,
            ) == Ok::<(Seq<Seq<char>>, nat, usize), Error>(
                (names_view(urls), kept as nat, skipped),
            ) && kept <= MAX_TRACKERS,
            Err(e) => tier_in(
                trees(*tier),
                tier@.len() as int,
                kept_before as nat,
                skipped_before,
            ) == Err::<(Seq<Seq<char>>, nat, usize), Error>(e),
        },
{
    let ghost t = trees(*tier);
    let mut urls: Vec<String> = Vec::new();
    let mut kept: usize = kept_before;
    let mut skipped: usize = skipped_before;
    let mut i: usize = 0;
    proof {
        assert(names_view(urls) =~= Seq::empty());
    }
    while i < tier.len()
        invariant
            i <= tier@.len(),
            t == trees(*tier),
            t.len() == tier@.len(),
            kept <= MAX_TRACKERS,
            tier_in(t, i as int, kept_before as nat, skipped_before) == Ok::<
                (Seq<Seq<char>>, nat, usize),
                Error,
            >((names_view(urls), kept as nat, skipped)),
        decreases tier.len() - i,
    {
        let ghost had = names_view(urls);
        proof {
            assert(t[i as int] == tier@[i as int]@);
        }
        let url = match value_text(&tier[i]) {
            Some(s) => s,
            None => {
                proof {
                    lemma_tier_fail(
                        t,
                        i as int + 1,
                        t.len() as int,
                        kept_before as nat,
                        skipped_before,
                    );
                }
                return Err(Error::Invalid("announce URL is not a UTF-8 string"));
            },
        };
        if is_i2p_tracker(url) && kept < MAX_TRACKERS {
            urls.push(copy_str(url));
            kept = kept + 1;
            proof {
                assert(names_view(urls) =~= had.push(url@));
            }
        } else {
            skipped = skipped.saturating_add(1);
        }
        i = i + 1;
    }
    Ok((urls, kept, skipped))
}

fn parse_trackers(root: &Value) -> (r: Result<(Vec<Vec<String>>, usize), Error>)
    ensures
        match r {
            Ok((tiers, skipped)) => trackers_in(root@) == Ok::<
                (Seq<Seq<Seq<char>>>, usize),
                Error,
            >((tiers_view(tiers@), skipped)),
            Err(e) => trackers_in(root@) == Err::<(Seq<Seq<Seq<char>>>, usize), Error>(e),
        },
{
    let mut tiers: Vec<Vec<String>> = Vec::new();
    proof {
        assert(tiers_view(tiers@) =~= Seq::empty());
    }
    if let Some(v) = root.get("announce-list".as_bytes()) {
        let list = match v.as_list() {
            Some(l) => l,
            None => return Err(Error::Invalid("announce-list is not a list")),
        };
        let ghost t = trees(*list);
        let mut kept: usize = 0;
        let mut skipped: usize = 0;
        let mut i: usize = 0;
        while i < list.len()
            invariant
                i <= list@.len(),
                t == trees(*list),
                t.len() == list@.len(),
                root@.get("announce-list".spec_bytes()) == Some(Tree::List(t)),
                kept <= MAX_TRACKERS,
                tiers_in(t, i as int) == Ok::<(Seq<Seq<Seq<char>>>, nat, usize), Error>(
                    (tiers_view(tiers@), kept as nat, skipped),
                ),
            decreases list.len() - i,
        {
            let ghost had = tiers_view(tiers@);
            proof {
                assert(t[i as int] == list@[i as int]@);
            }
            let tier = match list[i].as_list() {
                Some(l) => l,
                None => {
                    proof {
                        lemma_tiers_fail(t, i as int + 1, t.len() as int);
                    }
                    return Err(Error::Invalid("announce-list tier is not a list"));
                },
            };
            let (urls, kept2, skipped2) = match parse_tier(tier, kept, skipped) {
                Ok(x) => x,
                Err(e) => {
                    proof {
                        lemma_tiers_fail(t, i as int + 1, t.len() as int);
                    }
                    return Err(e);
                },
            };
            kept = kept2;
            skipped = skipped2;
            if urls.len() > 0 {
                let ghost u = names_view(urls);
                tiers.push(urls);
                proof {
                    assert(tiers_view(tiers@) =~= had.push(u));
                }
            }
            i = i + 1;
        }
        return Ok((tiers, skipped));
    }
    if let Some(v) = root.get("announce".as_bytes()) {
        let url = match value_text(v) {
            Some(s) => s,
            None => return Err(Error::Invalid("announce URL is not a UTF-8 string")),
        };
        if is_i2p_tracker(url) {
            let mut tier: Vec<String> = Vec::new();
            tier.push(copy_str(url));
            let ghost u = names_view(tier);
            tiers.push(tier);
            proof {
                assert(u =~= seq![url@]);
                assert(tiers_view(tiers@) =~= seq![seq![url@]]);
            }
            return Ok((tiers, 0));
        }
        return Ok((tiers, 1));
    }
    Ok((tiers, 0))
}

fn hash_at(raw: &[u8], at: usize) -> (h: [u8; 20])
    requires
        at + 20 <= raw@.len(),
    ensures
        h@ == raw@.subrange(at as int, at + 20),
{
    let mut h: [u8; 20] = [0u8; 20];
    let mut i: usize = 0;
    while i < 20
        invariant
            i <= 20,
            at + 20 <= raw.len(),
            forall|j: int| 0 <= j < i ==> #[trigger] h@[j] == raw@[at + j],
        decreases 20 - i,
    {
        h[i] = raw[at + i];
        i = i + 1;
    }
    proof {
        assert(h@ =~= raw@.subrange(at as int, at + 20));
    }
    h
}

fn split_hashes(raw: &[u8]) -> (v: Vec<[u8; 20]>)
    requires
        raw@.len() % 20 == 0,
    ensures
        hashes_view(v@) == hashes_of(raw@),
{
    let n: usize = raw.len() / 20;
    let mut out: Vec<[u8; 20]> = Vec::new();
    let mut i: usize = 0;
    while i < n
        invariant
            i <= n,
            20 * n == raw@.len(),
            raw.len() == raw@.len(),
            out@.len() == i,
            forall|j: int|
                0 <= j < i ==> (#[trigger] out@[j])@ == raw@.subrange(20 * j, 20 * j + 20),
        decreases n - i,
    {
        out.push(hash_at(raw, 20 * i));
        i = i + 1;
    }
    proof {
        assert(hashes_view(out@) =~= hashes_of(raw@));
    }
    out
}

fn parse_piece_length(info: &Value) -> (r: Result<u32, Error>)
    ensures
        r == piece_length_in(info@),
{
    let n: i64 = match info.get("piece length".as_bytes()) {
        Some(v) => match v.as_int() {
            Some(n) => n,
            None => return Err(Error::Invalid("missing piece length")),
        },
        None => return Err(Error::Invalid("missing piece length")),
    };
    if MIN_PIECE_LENGTH as i64 <= n && n <= MAX_PIECE_LENGTH as i64 {
        Ok(n as u32)
    } else {
        Err(Error::Invalid("piece length out of accepted range"))
    }
}

fn parse_pieces(info: &Value) -> (r: Result<Vec<[u8; 20]>, Error>)
    ensures
        match r {
            Ok(v) => pieces_in(info@) == Ok::<Seq<Seq<u8>>, Error>(hashes_view(v@)),
            Err(e) => pieces_in(info@) == Err::<Seq<Seq<u8>>, Error>(e),
        },
{
    let raw = match info.get("pieces".as_bytes()) {
        Some(v) => match v.as_bytes() {
            Some(b) => b,
            None => return Err(Error::Invalid("missing pieces")),
        },
        None => return Err(Error::Invalid("missing pieces")),
    };
    if raw.len() == 0 || raw.len() % 20 != 0 {
        return Err(Error::Invalid("pieces is not a multiple of 20 bytes"));
    }
    Ok(split_hashes(raw))
}

impl MetaInfo {
    /// Parse and validate a .torrent file.
    ///
    /// Refused are malformed bencode and any structural violation: missing or
    /// mistyped fields, piece length out of range, piece count disagreeing
    /// with the total length, or unsafe path components.
    pub fn parse(input: &[u8]) -> (r: Result<MetaInfo, Error>)
        requires
            input@.len() <= MAX_DIGEST_INPUT,
        ensures
            match r {
                Ok(m) => meta_in(input@) == Ok::<Meta, Error>(m@),
                Err(e) => meta_in(input@) == Err::<Meta, Error>(e),
            },
    {
        let (root, info_range) = match bencode::decode_with_entry(input, "info".as_bytes()) {
            Ok(x) => x,
            Err(e) => return Err(Error::Bencode(e)),
        };
        let info = match root.get("info".as_bytes()) {
            Some(v) => v,
            None => return Err(Error::Invalid("missing info dictionary")),
        };
        if info.as_dict().is_none() {
            return Err(Error::Invalid("info is not a dictionary"));
        }
        proof {
            bencode::law_raw_entry_spans_the_value(input@, "info".spec_bytes(), root@);
        }
        // The exact bytes: re-encoding non-canonical input would change the
        // identity peers agreed on.
        let raw_info = match info_range {
            Some(range) => copy_range(input, range.start, range.end),
            None => return Err(Error::Invalid("missing info dictionary")),
        };
        let info_hash = InfoHash(sha1_digest(raw_info.as_slice()));
        let name = match info.get("name".as_bytes()) {
            Some(v) => match value_text(v) {
                Some(s) => s,
                None => return Err(Error::Invalid("missing or non-UTF-8 name")),
            },
            None => return Err(Error::Invalid("missing or non-UTF-8 name")),
        };
        match check_component(name) {
            Ok(()) => {},
            Err(e) => return Err(e),
        }
        let piece_length: u32 = match parse_piece_length(info) {
            Ok(n) => n,
            Err(e) => return Err(e),
        };
        let pieces = match parse_pieces(info) {
            Ok(p) => p,
            Err(e) => return Err(e),
        };
        let (files, total_length) = match parse_files(info, name) {
            Ok(x) => x,
            Err(e) => return Err(e),
        };
        let whole: u64 = total_length / piece_length as u64;
        proof {
            assert(whole < u64::MAX) by (nonlinear_arith)
                requires
                    whole == total_length / (piece_length as u64),
                    piece_length >= 2,
                    total_length <= u64::MAX,
            ;
        }
        let expected: u64 = if total_length % piece_length as u64 == 0 {
            whole
        } else {
            whole + 1
        };
        proof {
            lemma_div_ceil(total_length as int, piece_length as int);
        }
        if expected > MAX_PIECES as u64 {
            return Err(Error::Invalid("more pieces than a bitfield message can carry"));
        }
        if expected != pieces.len() as u64 {
            return Err(Error::Invalid("piece count disagrees with total length"));
        }
        let private = match info.get("private".as_bytes()) {
            Some(v) => match v.as_int() {
                Some(n) => n == 1,
                None => false,
            },
            None => false,
        };
        let (trackers, skipped_trackers) = match parse_trackers(&root) {
            Ok(x) => x,
            Err(e) => return Err(e),
        };
        Ok(
            MetaInfo {
                info_hash,
                name: copy_str(name),
                piece_length,
                pieces,
                files,
                total_length,
                private,
                trackers,
                skipped_trackers,
                raw_info,
            },
        )
    }
}

// ---------------------------------------------------------------------------
// Priorities.

/// Where file `n` starts in the torrent, as far as can be counted.
pub open spec fn file_start(files: Seq<FileSpec>, n: int) -> u64
    decreases n,
{
    if n <= 0 {
        0
    } else {
        let sum = file_start(files, n - 1) + files[n - 1].length;
        if sum > u64::MAX {
            u64::MAX
        } else {
            sum as u64
        }
    }
}

/// Whether file `i` has bytes in piece `p`.
pub open spec fn overlaps(files: Seq<FileSpec>, i: int, p: int, piece_length: u32) -> bool {
    files[i].length > 0 && file_start(files, i) as int / piece_length as int <= p <= (file_start(
        files,
        i + 1,
    ) - 1) / (piece_length as int)
}

/// The priority of file `i`: normal unless another is given.
pub open spec fn file_priority(per_file: Seq<u8>, i: int) -> u8 {
    if i < per_file.len() {
        per_file[i]
    } else {
        1
    }
}

/// The highest priority among those of the first `n` files that have bytes in
/// piece `p`; zero if none has.
pub open spec fn piece_priority(
    files: Seq<FileSpec>,
    per_file: Seq<u8>,
    piece_length: u32,
    p: int,
    n: int,
) -> u8
    decreases n,
{
    if n <= 0 {
        0
    } else {
        let before = piece_priority(files, per_file, piece_length, p, n - 1);
        let here = file_priority(per_file, n - 1);
        if overlaps(files, n - 1, p, piece_length) && here > before {
            here
        } else {
            before
        }
    }
}

/// A piece is worth at least as much as any file with bytes in it, and no more
/// than the one worth most: a piece shared between a skipped file and a wanted
/// one stays wanted, and a piece of skipped files alone is skipped.
pub proof fn law_piece_takes_the_highest_priority(
    files: Seq<FileSpec>,
    per_file: Seq<u8>,
    piece_length: u32,
    p: int,
    n: int,
)
    requires
        0 <= n,
    ensures
        forall|i: int|
            0 <= i < n && #[trigger] overlaps(files, i, p, piece_length) ==> piece_priority(
                files,
                per_file,
                piece_length,
                p,
                n,
            ) >= file_priority(per_file, i),
        piece_priority(files, per_file, piece_length, p, n) > 0 ==> exists|i: int|
            0 <= i < n && #[trigger] overlaps(files, i, p, piece_length) && file_priority(
                per_file,
                i,
            ) == piece_priority(files, per_file, piece_length, p, n),
    decreases n,
{
    if n > 0 {
        law_piece_takes_the_highest_priority(files, per_file, piece_length, p, n - 1);
        let now = piece_priority(files, per_file, piece_length, p, n);
        let was = piece_priority(files, per_file, piece_length, p, n - 1);
        if now > 0 {
            if now == was {
                let i = choose|i: int|
                    0 <= i < n - 1 && #[trigger] overlaps(files, i, p, piece_length)
                        && file_priority(per_file, i) == was;
                assert(overlaps(files, i, p, piece_length));
            } else {
                assert(overlaps(files, n - 1, p, piece_length));
            }
        }
    }
}

impl MetaInfo {
    /// Turn per-file priorities into per-piece ones: each piece takes the
    /// highest priority among the files it overlaps.
    ///
    /// Files do not respect piece boundaries, so a piece can hold the tail of
    /// one file and the head of the next. Taking the maximum is what makes
    /// skipping safe. `per_file` shorter than the file list leaves the
    /// remaining files at normal priority; longer, and the extra entries are
    /// ignored.
    pub fn piece_priorities(&self, per_file: &[u8]) -> (out: Vec<u8>)
        ensures
            out@.len() == self.pieces@.len(),
            self.piece_length > 0 ==> forall|p: int|
                0 <= p < out@.len() ==> #[trigger] out@[p] == piece_priority(
                    self@.files,
                    per_file@,
                    self.piece_length,
                    p,
                    self.files@.len() as int,
                ),
            self.piece_length == 0 ==> forall|p: int| 0 <= p < out@.len() ==> out@[p] == 0,
    {
        let n: usize = self.pieces.len();
        let mut out: Vec<u8> = vec![0u8; n];
        if self.piece_length == 0 {
            return out;
        }
        let plen: u64 = self.piece_length as u64;
        let ghost files = self@.files;
        let mut offset: u64 = 0;
        let mut i: usize = 0;
        while i < self.files.len()
            invariant
                i <= self.files@.len(),
                files == self@.files,
                plen == self.piece_length,
                plen > 0,
                n == self.pieces@.len(),
                out@.len() == n,
                offset == file_start(files, i as int),
                forall|p: int|
                    0 <= p < n ==> #[trigger] out@[p] == piece_priority(
                        files,
                        per_file@,
                        self.piece_length,
                        p,
                        i as int,
                    ),
            decreases self.files.len() - i,
        {
            let priority: u8 = if i < per_file.len() {
                per_file[i]
            } else {
                1
            };
            let length: u64 = self.files[i].length;
            let start: u64 = offset;
            offset = offset.saturating_add(length);
            let ghost before = out@;
            proof {
                assert(files[i as int].length == length);
                assert(offset == file_start(files, i as int + 1));
            }
            if priority != 0 && length != 0 {
                let first: u64 = start / plen;
                let last: u64 = (offset - 1) / plen;
                let mut p: u64 = first;
                while p <= last && p < n as u64
                    invariant
                        first <= p,
                        out@.len() == n,
                        before.len() == n,
                        forall|k: int|
                            0 <= k < n ==> #[trigger] out@[k] == (if first <= k < p && k <= last
                                && priority > before[k] {
                                priority
                            } else {
                                before[k]
                            }),
                    decreases n - p,
                {
                    let at: usize = p as usize;
                    if priority > out[at] {
                        out.set(at, priority);
                    }
                    p = p + 1;
                }
            }
            proof {
                assert forall|k: int| 0 <= k < n implies #[trigger] out@[k] == piece_priority(
                    files,
                    per_file@,
                    self.piece_length,
                    k,
                    i as int + 1,
                ) by {
                    assert(before[k] == piece_priority(
                        files,
                        per_file@,
                        self.piece_length,
                        k,
                        i as int,
                    ));
                }
            }
            i = i + 1;
        }
        out
    }

    /// Build a [`MetaInfo`] from a bare `info` dictionary: the bytes fetched
    /// from peers for a magnet link, which have no surrounding torrent dict or
    /// trackers.
    ///
    /// The info-hash is computed over `info_bytes` exactly (so it matches the
    /// magnet's); the caller should compare it to the expected hash. Bytes
    /// after the dictionary are refused.
    pub fn from_info_dict(info_bytes: &[u8]) -> (r: Result<MetaInfo, Error>)
        requires
            info_bytes@.len() + 8 <= MAX_DIGEST_INPUT,
        ensures
            match r {
                Ok(m) => info_meta_in(info_bytes@) == Ok::<Meta, Error>(m@),
                Err(e) => info_meta_in(info_bytes@) == Err::<Meta, Error>(e),
            },
            r matches Ok(m) ==> m@.raw_info == info_bytes@ && m@.info_hash == sha1_of(info_bytes@)
                && m@.trackers.len() == 0 && m@.skipped_trackers == 0,
    {
        let mut torrent: Vec<u8> = Vec::new();
        push_all(&mut torrent, "d4:info".as_bytes());
        push_all(&mut torrent, info_bytes);
        push_all(&mut torrent, "e".as_bytes());
        proof {
            reveal_strlit("d4:info");
            reveal_strlit("e");
            assert("d4:info".is_ascii() && "e".is_ascii());
            assert(torrent@ =~= wrapped(info_bytes@));
        }
        match MetaInfo::parse(torrent.as_slice()) {
            Ok(m) => {
                if m.raw_info.len() != info_bytes.len() {
                    return Err(
                        Error::Bencode(
                            bencode::Error {
                                offset: m.raw_info.len(),
                                kind: bencode::ErrorKind::TrailingData,
                            },
                        ),
                    );
                }
                proof {
                    law_info_dict_is_taken_whole(info_bytes@, m@);
                }
                Ok(m)
            },
            Err(e) => Err(e),
        }
    }
}

/// An `info` dictionary in a torrent of its own.
pub open spec fn wrapped(info: Seq<u8>) -> Seq<u8> {
    "d4:info".spec_bytes() + info + "e".spec_bytes()
}

/// What a bare `info` dictionary says, when nothing follows it.
pub open spec fn info_meta_in(info: Seq<u8>) -> Result<Meta, Error> {
    match meta_in(wrapped(info)) {
        Ok(m) => if m.raw_info.len() == info.len() {
            Ok(m)
        } else {
            Err(
                Error::Bencode(
                    bencode::Error {
                        offset: m.raw_info.len() as usize,
                        kind: bencode::ErrorKind::TrailingData,
                    },
                ),
            )
        },
        Err(e) => Err(e),
    }
}

proof fn lemma_div_ceil(n: int, d: int)
    requires
        n >= 0,
        d > 0,
    ensures
        (n + d - 1) / d == n / d + (if n % d == 0 {
            0int
        } else {
            1int
        }),
{
    let q = n / d;
    let r = n % d;
    vstd::arithmetic::div_mod::lemma_fundamental_div_mod(n, d);
    if r == 0 {
        assert((n + d - 1) / d == q) by {
            vstd::arithmetic::div_mod::lemma_fundamental_div_mod_converse(n + d - 1, d, q, d - 1);
        }
    } else {
        assert(n + d - 1 == (q + 1) * d + (r - 1)) by (nonlinear_arith)
            requires
                n == d * q + r,
        ;
        assert((n + d - 1) / d == q + 1) by {
            vstd::arithmetic::div_mod::lemma_fundamental_div_mod_converse(
                n + d - 1,
                d,
                q + 1,
                r - 1,
            );
        }
    }
}


// ---------------------------------------------------------------------------
// What parsing promises.

proof fn lemma_wrapper()
    ensures
        "d4:info".spec_bytes() == seq![100u8, 52u8, 58u8, 105u8, 110u8, 102u8, 111u8],
        "info".spec_bytes() == seq![105u8, 110u8, 102u8, 111u8],
        "e".spec_bytes() == seq![101u8],
        "announce-list".spec_bytes().len() == 13,
        "announce".spec_bytes().len() == 8,
{
    reveal_strlit("d4:info");
    reveal_strlit("info");
    reveal_strlit("e");
    reveal_strlit("announce-list");
    reveal_strlit("announce");
    assert("d4:info".is_ascii() && "info".is_ascii() && "e".is_ascii()
        && "announce-list".is_ascii() && "announce".is_ascii());
    assert("d4:info".spec_bytes() =~= seq![100u8, 52u8, 58u8, 105u8, 110u8, 102u8, 111u8]);
    assert("info".spec_bytes() =~= seq![105u8, 110u8, 102u8, 111u8]);
    assert("e".spec_bytes() =~= seq![101u8]);
}

/// An `info` dictionary fetched on its own keeps its identity: it is one whole
/// value, and the torrent made of it has exactly those bytes as its raw `info`,
/// their digest as its info-hash, and no trackers.
pub proof fn law_info_dict_is_taken_whole(info: Seq<u8>, m: Meta)
    requires
        info_meta_in(info) == Ok::<Meta, Error>(m),
    ensures
        decoded(info) is Ok,
        m.raw_info == info,
        m.info_hash == sha1_of(info),
        m.trackers.len() == 0,
        m.skipped_trackers == 0,
{
    lemma_info_alone(info, m);
}

/// What a bare `info` dictionary is read as, inside one container or none.
pub proof fn lemma_info_alone(info: Seq<u8>, m: Meta)
    requires
        info_meta_in(info) == Ok::<Meta, Error>(m),
    ensures
        decoded(info) is Ok,
        bencode::value_at(info, 0, 1) == Ok::<(Tree, int), bencode::Error>(
            (decoded(info)->Ok_0, info.len() as int),
        ),
        decoded(info)->Ok_0 is Dict,
        meta_of(decoded(wrapped(info))->Ok_0, decoded(info)->Ok_0, info) == Ok::<Meta, Error>(m),
        m.raw_info == info,
        m.info_hash == sha1_of(info),
        m.trackers.len() == 0,
        m.skipped_trackers == 0,
{
    lemma_wrapper();
    let w = wrapped(info);
    let key = "info".spec_bytes();
    assert(w[0] == 100 && w[1] == 52 && w[2] == 58);
    assert(w[3] == 105 && w[4] == 110 && w[5] == 102 && w[6] == 111);
    crate::decimal::lemma_digit_run(w, 1, 2);
    assert(crate::decimal::digits_value(w.subrange(1, 2)) == 4) by {
        reveal_with_fuel(crate::decimal::digits_value, 2);
        assert(w.subrange(1, 2).last() == 52);
        assert(w.subrange(1, 2).drop_last().len() == 0);
    }
    assert(w.subrange(3, 7) =~= key);
    assert(bencode::bytes_at(w, 1) == Ok::<(Seq<u8>, int), bencode::Error>((key, 7)));
    assert(bencode::value_at(w, 7, 1) is Ok);
    assert forall|i: int| 0 <= i < info.len() implies w[7 + i] == #[trigger] info[i] by {}
    let t = bencode::value_at(w, 7, 1)->Ok_0.0;
    let end = bencode::value_at(w, 7, 1)->Ok_0.1;
    assert(entry_span(w, key) == Some((7int, end)));
    bencode::lemma_value_progress(w, 7, 1);
    assert(end == 7 + info.len());
    bencode::lemma_value_extracted(info, w, 7, 0, 0, 1);
    bencode::lemma_value_extracted(info, w, 7, 0, 1, 0);
    assert(w[end] == 101);
    assert(w.subrange(7, end) =~= info);
    // The dictionary has that entry and no other.
    let e0: Seq<(Seq<u8>, Tree)> = Seq::empty();
    let e1 = bencode::with_entry(e0, key, t);
    assert(e1 =~= seq![(key, t)]);
    let root = decoded(w)->Ok_0;
    assert(bencode::entries_at(w, end, 1, e1) == Ok::<
        (Seq<(Seq<u8>, Tree)>, int),
        bencode::Error,
    >((e1, end + 1)));
    assert(root == Tree::Dict(e1));
    reveal_with_fuel(bencode::lookup, 2);
    assert(e1.drop_last().len() == 0);
    assert(root.get("announce-list".spec_bytes()) is None);
    assert(root.get("announce".spec_bytes()) is None);
}

proof fn lemma_tier_bound(tier: Seq<Tree>, n: int, kept: nat, skipped: usize)
    requires
        kept <= MAX_TRACKERS,
    ensures
        tier_in(tier, n, kept, skipped) matches Ok((urls, k, s)) ==> k == kept + urls.len() && k
            <= MAX_TRACKERS && forall|i: int|
            0 <= i < urls.len() ==> url_parts(#[trigger] urls[i]) is Some,
    decreases n,
{
    if n > 0 {
        lemma_tier_bound(tier, n - 1, kept, skipped);
    }
}

/// How many URLs the first `n` tiers hold.
pub open spec fn url_count(tiers: Seq<Seq<Seq<char>>>, n: int) -> nat
    decreases n,
{
    if n <= 0 {
        0
    } else {
        url_count(tiers, n - 1) + tiers[n - 1].len()
    }
}

proof fn lemma_url_count_same(a: Seq<Seq<Seq<char>>>, b: Seq<Seq<Seq<char>>>, n: int)
    requires
        n <= a.len(),
        n <= b.len(),
        forall|i: int| 0 <= i < n ==> a[i] == b[i],
    ensures
        url_count(a, n) == url_count(b, n),
    decreases n,
{
    if n > 0 {
        lemma_url_count_same(a, b, n - 1);
    }
}

/// Whether every URL in every tier is one that clove has business dialing.
pub open spec fn all_i2p(tiers: Seq<Seq<Seq<char>>>) -> bool {
    forall|i: int, j: int|
        0 <= i < tiers.len() && 0 <= j < tiers[i].len() ==> url_parts(#[trigger] tiers[i][j]) is Some
}

proof fn lemma_tiers_bound(list: Seq<Tree>, n: int)
    ensures
        tiers_in(list, n) matches Ok((tiers, kept, skipped)) ==> kept == url_count(
            tiers,
            tiers.len() as int,
        ) && kept <= MAX_TRACKERS && all_i2p(tiers),
    decreases n,
{
    if n > 0 {
        lemma_tiers_bound(list, n - 1);
        if let Ok((tiers, kept, skipped)) = tiers_in(list, n - 1) {
            if let Tree::List(tier) = list[n - 1] {
                lemma_tier_bound(tier, tier.len() as int, kept, skipped);
                if let Ok((urls, k, s)) = tier_in(tier, tier.len() as int, kept, skipped) {
                    if urls.len() > 0 {
                        let more = tiers.push(urls);
                        lemma_url_count_same(tiers, more, tiers.len() as int);
                    }
                }
            }
        }
    }
}

/// No torrent keeps more announce URLs than the cap, and none that is not for
/// I2P.
pub proof fn law_kept_trackers_are_few_and_i2p(root: Tree)
    ensures
        trackers_in(root) matches Ok((tiers, skipped)) ==> url_count(tiers, tiers.len() as int)
            <= MAX_TRACKERS && all_i2p(tiers),
{
    match root.get("announce-list".spec_bytes()) {
        Some(Tree::List(list)) => {
            lemma_tiers_bound(list, list.len() as int);
        },
        Some(_) => {},
        None => {
            reveal_with_fuel(url_count, 2);
        },
    }
}

pub proof fn lemma_last_index(s: Seq<char>, c: char, n: int)
    requires
        0 <= n <= s.len(),
    ensures
        -1 <= last_index(s, c, n) < n,
        last_index(s, c, n) >= 0 ==> s[last_index(s, c, n)] == c,
    decreases n,
{
    if n > 0 && s[n - 1] != c {
        lemma_last_index(s, c, n - 1);
    }
}

/// What an accepted URL is: `http://`, an authority without slash, question
/// mark, fragment or userinfo, and the rest, which is its path and query but
/// for a slash that may be left out. Its host is the authority without its
/// port, in lower case, and one of I2P's. Nothing in it can break a line or a
/// log: it holds no control character and no white space. Every percent escape
/// in it is complete.
pub proof fn law_accepted_url_is_clean(url: Seq<char>, u: UrlParts)
    requires
        url_parts(url) == Some(u),
    ensures
        ({
            let rest = url.skip(7int + u.authority.len());
            &&& url == "http://"@ + u.authority + rest
            &&& u.path_and_query == (if rest.len() > 0 && rest[0] == '/' {
                rest
            } else {
                "/"@ + rest
            })
        }),
        !u.authority.contains('/'),
        !u.authority.contains('?'),
        !u.authority.contains('#'),
        !u.authority.contains('@'),
        host_of(u.authority) is Some,
        u.host == lowered_text(host_of(u.authority)->Some_0),
        is_i2p_host(u.host),
        !u.path_and_query.contains('#'),
        no_ctl(url),
        escapes_complete(url),
        no_ctl(u.host),
        no_ctl(u.authority),
        no_ctl(u.path_and_query),
        u.path_and_query.len() > 0,
        u.path_and_query[0] == '/',
{
    reveal_strlit("/");
    reveal_strlit("?");
    reveal_strlit("http://");
    let rest = url.skip(7);
    assert("/"@ =~= seq!['/']);
    assert("?"@ =~= seq!['?']);
    lemma_find_char(rest, '/');
    lemma_find_char(rest, '?');
    let k = authority_end(rest);
    assert(url.take(7) == "http://"@);
    assert(url =~= "http://"@ + rest);
    assert(u.authority == rest.take(k));
    assert(url.skip(7 + k) =~= rest.skip(k));
    assert(url =~= "http://"@ + u.authority + rest.skip(k));
    assert forall|i: int| 0 <= i < url.len() implies !is_ctl(#[trigger] url[i]) by {
        if i < 7 {
            assert(url[i] == "http://"@[i]);
        } else {
            assert(!is_ctl(rest[i - 7]));
        }
    }
    assert forall|i: int| 0 <= i < url.len() && #[trigger] url[i] == '%' implies i + 2 < url.len()
        && is_hex(url[i + 1]) && is_hex(url[i + 2]) by {
        if i < 7 {
            assert(url[i] == "http://"@[i]);
        } else {
            assert(rest[i - 7] == '%');
            assert(is_hex(rest[i - 7 + 1]) && is_hex(rest[i - 7 + 2]));
        }
    }
    assert(!u.authority.contains('/') && !u.authority.contains('?')) by {
        assert forall|i: int| 0 <= i < k implies #[trigger] u.authority[i] != '/' && u.authority[i]
            != '?' by {
            assert(rest[i] != '/' && rest[i] != '?');
        }
    }
    assert forall|i: int| 0 <= i < rest.len() implies #[trigger] rest[i] != '#' by {
        assert(rest.contains(rest[i]));
    }
    assert forall|i: int| 0 <= i < u.path_and_query.len() implies #[trigger] u.path_and_query[i]
        != '#' && !is_ctl(u.path_and_query[i]) by {
        if k < rest.len() && rest[k] == '/' {
            assert(u.path_and_query[i] == rest[k + i]);
        } else if i > 0 {
            assert(u.path_and_query[i] == rest[k + (i - 1)]);
        }
    }
    assert forall|i: int| 0 <= i < u.authority.len() implies #[trigger] u.authority[i] != '#'
        && !is_ctl(u.authority[i]) by {
        assert(u.authority[i] == rest[i]);
    }
    let host = host_of(u.authority)->Some_0;
    lemma_last_index(u.authority, ':', u.authority.len() as int);
    assert forall|k: int| 0 <= k < u.host.len() implies !is_ctl(#[trigger] u.host[k]) by {
        assert(host[k] == u.authority[k]);
        assert(!is_ctl(u.authority[k]));
    }
}

// ---------------------------------------------------------------------------
// What a torrent says, in terms of its dictionary.

pub proof fn lemma_path_parts(raw: Seq<Tree>, n: int, name: Seq<char>)
    requires
        0 <= n <= raw.len(),
    ensures
        path_in(raw, n, name) matches Ok(p) ==> p.len() == n + 1 && p[0] == name && forall|k: int|
            0 <= k < n ==> (#[trigger] raw[k] matches Tree::Bytes(b) && valid_utf8(b) && p[k + 1]
                == decode_utf8(b) && p[k + 1].len() > 0 && p[k + 1] != "."@ && p[k + 1] != ".."@
                && !p[k + 1].contains('/') && !p[k + 1].contains('\\') && !p[k + 1].contains('\0')
                && encode_utf8(p[k + 1]).len() <= 255),
    decreases n,
{
    if n > 0 {
        lemma_path_parts(raw, n - 1, name);
    }
}

/// The lengths of the first `n` of some files, summed.
pub open spec fn lengths_sum(files: Seq<FileSpec>, n: int) -> nat
    decreases n,
{
    if n <= 0 {
        0
    } else {
        lengths_sum(files, n - 1) + files[n - 1].length
    }
}

proof fn lemma_sum_same(a: Seq<FileSpec>, b: Seq<FileSpec>, n: int)
    requires
        n <= a.len(),
        n <= b.len(),
        forall|i: int| 0 <= i < n ==> a[i] == b[i],
    ensures
        lengths_sum(a, n) == lengths_sum(b, n),
    decreases n,
{
    if n > 0 {
        lemma_sum_same(a, b, n - 1);
    }
}

/// Whether a file is the one that an entry of a file list describes.
pub open spec fn describes(t: Tree, name: Seq<char>, f: FileSpec) -> bool {
    &&& t.get("length".spec_bytes()) == Some(Tree::Int(f.length as int))
    &&& t.get("path".spec_bytes()) matches Some(Tree::List(raw)) && raw.len() > 0 && f.path.len()
        == raw.len() + 1 && f.path[0] == name && forall|k: int|
        0 <= k < raw.len() ==> (#[trigger] raw[k] matches Tree::Bytes(b) && valid_utf8(b)
            && f.path[k + 1] == decode_utf8(b))
}

proof fn lemma_files_described(list: Seq<Tree>, n: int, name: Seq<char>)
    requires
        0 <= n <= list.len(),
    ensures
        files_in(list, n, name) matches Ok((files, total)) ==> files.len() == n && total
            == lengths_sum(files, n) && forall|i: int|
            0 <= i < n ==> describes(#[trigger] list[i], name, files[i]),
    decreases n,
{
    if n > 0 {
        lemma_files_described(list, n - 1, name);
        if let Ok((files, total)) = files_in(list, n, name) {
            let was = files_in(list, n - 1, name)->Ok_0.0;
            if let Some(Tree::List(raw)) = list[n - 1].get("path".spec_bytes()) {
                lemma_path_parts(raw, raw.len() as int, name);
            }
            assert(describes(list[n - 1], name, files[n - 1]));
            lemma_sum_same(was, files, n - 1);
            assert forall|i: int| 0 <= i < n implies describes(
                #[trigger] list[i],
                name,
                files[i],
            ) by {
                if i < n - 1 {
                    assert(files[i] == was[i]);
                }
            }
        }
    }
}

/// What an accepted torrent says is what its dictionary holds: each field is
/// read from the key that the format gives it, and means what the format says.
/// It is private if and only if `private` is the integer 1.
pub proof fn law_torrent_says_what_its_dictionary_holds(s: Seq<u8>, m: Meta)
    requires
        meta_in(s) == Ok::<Meta, Error>(m),
    ensures
        ({
            let root = decoded(s)->Ok_0;
            let info = root.get("info".spec_bytes())->Some_0;
            let name = info.get("name".spec_bytes())->Some_0->Bytes_0;
            let pieces = info.get("pieces".spec_bytes())->Some_0->Bytes_0;
            &&& decoded(s) is Ok
            &&& root.get("info".spec_bytes()) is Some
            &&& info is Dict
            &&& m.private <==> info.get("private".spec_bytes()) == Some(Tree::Int(1))
            &&& info.get("name".spec_bytes()) == Some(Tree::Bytes(name))
            &&& valid_utf8(name) && m.name == decode_utf8(name)
            &&& info.get("piece length".spec_bytes()) == Some(Tree::Int(m.piece_length as int))
            &&& 16384 <= m.piece_length <= 134217728
            &&& info.get("pieces".spec_bytes()) == Some(Tree::Bytes(pieces))
            &&& pieces.len() == 20 * m.pieces.len() && m.pieces.len() > 0
            &&& forall|i: int|
                0 <= i < m.pieces.len() ==> #[trigger] m.pieces[i] == pieces.subrange(
                    20 * i,
                    20 * i + 20,
                )
            &&& m.total_length == lengths_sum(m.files, m.files.len() as int)
            &&& m.total_length > 0
            &&& (m.pieces.len() - 1) * m.piece_length < m.total_length <= m.pieces.len()
                * m.piece_length
            &&& m.info_hash == sha1_of(m.raw_info)
            &&& decoded(m.raw_info) == Ok::<Tree, bencode::Error>(info)
        }),
        ({
            let info = decoded(s)->Ok_0.get("info".spec_bytes())->Some_0;
            match (info.get("length".spec_bytes()), info.get("files".spec_bytes())) {
                (Some(len), None) => len == Tree::Int(m.total_length as int) && m.files.len() == 1
                    && m.files[0].path == seq![m.name],
                (None, Some(Tree::List(list))) => m.files.len() == list.len() && list.len()
                    <= 100000 && forall|i: int|
                    0 <= i < list.len() ==> describes(#[trigger] list[i], m.name, m.files[i]),
                _ => false,
            }
        }),
{
    let root = decoded(s)->Ok_0;
    let info = root.get("info".spec_bytes())->Some_0;
    bencode::law_raw_entry_spans_the_value(s, "info".spec_bytes(), root);
    if let Some(Tree::List(list)) = info.get("files".spec_bytes()) {
        lemma_files_described(list, list.len() as int, m.name);
    }
    assert(lengths_sum(m.files, 1) == m.files[0].length || m.files.len() != 1) by {
        reveal_with_fuel(lengths_sum, 2);
    }
    lemma_div_ceil(m.total_length as int, m.piece_length as int);
    let n = m.total_length as int;
    let d = m.piece_length as int;
    let k = m.pieces.len() as int;
    vstd::arithmetic::div_mod::lemma_fundamental_div_mod(n, d);
    let q = n / d;
    let r = n % d;
    assert((k - 1) * d < n <= k * d) by (nonlinear_arith)
        requires
            n == d * q + r,
            0 <= r < d,
            n > 0,
            k == (if r == 0 {
                q
            } else {
                q + 1
            }),
    ;
}

/// A torrent written with `private` 1 in its `info` dictionary is read as
/// private, and one without it, or with anything else there, is not.
pub proof fn law_private_flag_survives_writing(root: Tree, info: Tree, m: Meta)
    requires
        root.well_formed(),
        root.fits(bencode::MAX_DEPTH as int),
        root.get("info".spec_bytes()) == Some(info),
        meta_in(bencode::encoding(root)) == Ok::<Meta, Error>(m),
    ensures
        info.get("private".spec_bytes()) == Some(Tree::Int(1)) ==> m.private,
        info.get("private".spec_bytes()) is None ==> !m.private,
        info.get("private".spec_bytes()) matches Some(Tree::Int(n)) && n != 1 ==> !m.private,
        info.get("private".spec_bytes()) matches Some(Tree::Bytes(_)) ==> !m.private,
{
    bencode::law_decode_inverts_encode(root);
    law_torrent_says_what_its_dictionary_holds(bencode::encoding(root), m);
}

/// A torrent of one file is accepted whenever its name is a usable one, its
/// piece length is between 16 KiB and 128 MiB, and its hashes are as many as the
/// pieces it takes to cover the file, and no more than a bitfield can carry.
pub proof fn law_sound_torrent_is_accepted(
    s: Seq<u8>,
    root: Tree,
    info: Tree,
    named: Seq<u8>,
    len: int,
    p: Seq<u8>,
    n: int,
)
    requires
        decoded(s) == Ok::<Tree, bencode::Error>(root),
        root.get("info".spec_bytes()) == Some(info),
        info is Dict,
        root.get("announce-list".spec_bytes()) is None,
        root.get("announce".spec_bytes()) is None,
        info.get("files".spec_bytes()) is None,
        info.get("length".spec_bytes()) == Some(Tree::Int(n)),
        n > 0,
        info.get("name".spec_bytes()) == Some(Tree::Bytes(named)),
        valid_utf8(named),
        decode_utf8(named).len() > 0,
        decode_utf8(named) != "."@,
        decode_utf8(named) != ".."@,
        !decode_utf8(named).contains('/'),
        !decode_utf8(named).contains('\\'),
        !decode_utf8(named).contains('\0'),
        encode_utf8(decode_utf8(named)).len() <= 255,
        info.get("piece length".spec_bytes()) == Some(Tree::Int(len)),
        16384 <= len <= 134217728,
        info.get("pieces".spec_bytes()) == Some(Tree::Bytes(p)),
        p.len() > 0,
        p.len() % 20 == 0,
        (p.len() / 20 - 1) * len < n <= (p.len() / 20) * len,
        p.len() / 20 <= 8388600,
    ensures
        meta_in(s) is Ok,
        meta_in(s)->Ok_0.trackers.len() == 0,
{
    let k = p.len() as int / 20;
    lemma_div_ceil(n, len);
    vstd::arithmetic::div_mod::lemma_fundamental_div_mod(n, len);
    let q = n / len;
    let r = n % len;
    assert(k == (if r == 0 {
        q
    } else {
        q + 1
    })) by (nonlinear_arith)
        requires
            n == len * q + r,
            0 <= r < len,
            (k - 1) * len < n <= k * len,
    ;
    assert(hashes_of(p).len() == k);
    assert(pieces_for(n as nat, len as u32) == k);
}

/// Which announce URLs are kept, of a torrent with an announce list: what is
/// kept is on the list, and is an I2P tracker; of a torrent with one announce
/// URL it is that one, if it is.
pub proof fn law_kept_trackers_are_the_torrents(root: Tree, i: int, j: int)
    requires
        trackers_in(root) is Ok,
        0 <= i < trackers_in(root)->Ok_0.0.len(),
        0 <= j < trackers_in(root)->Ok_0.0[i].len(),
    ensures
        ({
            let url = trackers_in(root)->Ok_0.0[i][j];
            &&& url_parts(url) is Some
            &&& match root.get("announce-list".spec_bytes()) {
                Some(Tree::List(list)) => listed(list, url),
                _ => root.get("announce".spec_bytes()) matches Some(Tree::Bytes(b)) && valid_utf8(
                    b,
                ) && decode_utf8(b) == url,
            }
        }),
{
    if let Some(Tree::List(list)) = root.get("announce-list".spec_bytes()) {
        lemma_tiers_listed(list, list.len() as int, i, j);
    }
}

/// Whether a URL is in one of the tiers of a list.
pub open spec fn listed(list: Seq<Tree>, url: Seq<char>) -> bool {
    exists|a: int, b: int|
        0 <= a < list.len() && 0 <= b < list[a]->List_0.len() && list[a] is List && (
        #[trigger] list[a]->List_0[b] matches Tree::Bytes(x) && valid_utf8(x) && decode_utf8(x)
            == url)
}

proof fn lemma_tier_listed(tier: Seq<Tree>, n: int, kept: nat, skipped: usize, j: int) -> (b: int)
    requires
        0 <= n <= tier.len(),
        tier_in(tier, n, kept, skipped) is Ok,
        0 <= j < tier_in(tier, n, kept, skipped)->Ok_0.0.len(),
    ensures
        0 <= b < n,
        tier[b] matches Tree::Bytes(x) && valid_utf8(x) && decode_utf8(x) == tier_in(
            tier,
            n,
            kept,
            skipped,
        )->Ok_0.0[j],
        url_parts(tier_in(tier, n, kept, skipped)->Ok_0.0[j]) is Some,
    decreases n,
{
    let was = tier_in(tier, n - 1, kept, skipped);
    if j < was->Ok_0.0.len() {
        lemma_tier_listed(tier, n - 1, kept, skipped, j)
    } else {
        n - 1
    }
}

proof fn lemma_tiers_listed(list: Seq<Tree>, n: int, i: int, j: int)
    requires
        0 <= n <= list.len(),
        tiers_in(list, n) is Ok,
        0 <= i < tiers_in(list, n)->Ok_0.0.len(),
        0 <= j < tiers_in(list, n)->Ok_0.0[i].len(),
    ensures
        listed(list, tiers_in(list, n)->Ok_0.0[i][j]),
        url_parts(tiers_in(list, n)->Ok_0.0[i][j]) is Some,
    decreases n,
{
    let was = tiers_in(list, n - 1)->Ok_0;
    if i < was.0.len() {
        lemma_tiers_listed(list, n - 1, i, j);
    } else {
        let tier = list[n - 1]->List_0;
        let b = lemma_tier_listed(tier, tier.len() as int, was.1, was.2, j);
        assert(list[n - 1]->List_0[b] is Bytes);
    }
}

} // verus!
