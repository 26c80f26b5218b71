//! Per-torrent resume data: versioned bencode.
//!
//! This module is only the format. Any semantic change bumps [`VERSION`].
//! Newer clove always reads older files; older clove refuses newer files
//! cleanly. Unknown keys are likewise refused: resume files are
//! machine-written, so an unexpected key means version discipline failed
//! somewhere, and surfacing that beats guessing.
use vstd::prelude::*;
#[allow(unused_imports)]
use vstd::string::*;
#[allow(unused_imports)]
use vstd::utf8::*;
use crate::bencode;
use crate::bencode::{decoded, encoding, lemma_sound_dict_round, stored, trees, Dict, Tree, Value};
use crate::bitfield::{bit_at, byte_len, bytes_for};
use crate::decimal::{decimal_text, push_decimal};
use crate::extension::text_in;
use crate::metainfo::{tiers_view, value_text};
use crate::paths::names_view;
use crate::strings::{bytes_eq, copy_range, text_bytes};

verus! {

/// Current resume-format version. Bump on any semantic change.
///
/// History: v1 initial; v2 added the optional `paused` flag (a v1 file reads
/// as not paused); v3 added the optional `sequential` flag (an earlier file
/// reads as rarest-first).
pub const VERSION: i64 = 3;

/// Everything clove needs to pick a torrent back up after a restart.
#[derive(Clone, Debug, PartialEq, Eq)]
pub struct Resume {
    /// Identity of the torrent this state belongs to.
    pub info_hash: [u8; 20],
    /// Piece count, so the bitfields below are unambiguous.
    pub num_pieces: u32,
    /// Pieces present on disk: a bitfield, most significant bit first;
    /// trailing bits of the final byte must be zero.
    pub have: Vec<u8>,
    /// Pieces that have passed verification (subset of `have`; stored
    /// separately so a crash between download and verify costs
    /// re-verification, never trust).
    pub verified: Vec<u8>,
    /// Per-file priority, on-wire file order: 0 = skip, 1 = normal, 2 = high.
    pub priorities: Vec<u8>,
    /// Lifetime bytes uploaded.
    pub uploaded: u64,
    /// Lifetime bytes downloaded.
    pub downloaded: u64,
    /// Announce tiers in their current (shuffled) order.
    pub trackers: Vec<Vec<String>>,
    /// Whether the torrent is paused. Optional on disk; a file omitting it
    /// reads as `false`.
    pub paused: bool,
    /// Whether pieces are picked in order rather than rarest-first. Optional
    /// on disk; a file omitting it reads as `false`.
    pub sequential: bool,
}

/// Why a resume file was refused. Refusal never writes anything.
#[derive(Clone, Copy, Debug, PartialEq, Eq)]
pub enum Error {
    /// Not valid bencode.
    Bencode(bencode::Error),
    /// Written by a newer clove than this one.
    FutureVersion(i64),
    /// Structurally invalid; the message names the offending field.
    Invalid(&'static str),
}

/// A signed number in words.
pub open spec fn signed_text(n: int) -> Seq<char> {
    if n < 0 {
        "-"@ + decimal_text((-n) as nat)
    } else {
        decimal_text(n as nat)
    }
}

/// Appends a signed number to a string.
pub fn push_signed(s: &mut String, n: i64)
    ensures
        final(s)@ == old(s)@ + signed_text(n as int),
{
    let ghost before = s@;
    if n < 0 {
        s.append("-");
        let m: u64 = if n == i64::MIN {
            0x8000_0000_0000_0000
        } else {
            (-n) as u64
        };
        push_decimal(s, m);
        proof {
            assert(s@ =~= before + signed_text(n as int));
        }
    } else {
        push_decimal(s, n as u64);
    }
}

impl Error {
    /// What was wrong, in words.
    pub fn message(&self) -> (r: String)
        ensures
            r@ == (match *self {
                Error::Bencode(e) => "resume: "@ + bencode::error_text(e),
                Error::FutureVersion(v) => "resume: file has format version "@ + signed_text(
                    v as int,
                ) + ", this clove reads up to "@ + signed_text(VERSION as int)
                    + "; refusing to touch it (upgrade clove or restore the older state file)"@,
                Error::Invalid(what) => "resume: "@ + what@,
            }),
    {
        match self {
            Error::Bencode(e) => {
                let mut s = "resume: ".to_owned();
                s.append(e.message().as_str());
                s
            },
            Error::FutureVersion(v) => {
                let mut s = "resume: file has format version ".to_owned();
                push_signed(&mut s, *v);
                s.append(", this clove reads up to ");
                push_signed(&mut s, VERSION);
                s.append("; refusing to touch it (upgrade clove or restore the older state file)");
                s
            },
            Error::Invalid(what) => {
                let mut s = "resume: ".to_owned();
                s.append(what);
                s
            },
        }
    }
}

/// Number of bytes a bitfield needs for `num_pieces` pieces.
pub fn bitfield_len(num_pieces: u32) -> (n: usize)
    ensures
        n == bytes_for(num_pieces as nat),
{
    byte_len(num_pieces)
}

// ---------------------------------------------------------------------------
// The model.

/// What a [`Resume`] stands for.
#[verifier::ext_equal]
pub struct Saved {
    pub info_hash: Seq<u8>,
    pub num_pieces: u32,
    pub have: Seq<u8>,
    pub verified: Seq<u8>,
    pub priorities: Seq<u8>,
    pub uploaded: u64,
    pub downloaded: u64,
    pub trackers: Seq<Seq<Seq<char>>>,
    pub paused: bool,
    pub sequential: bool,
}

impl View for Resume {
    type V = Saved;

    open spec fn view(&self) -> Saved {
        Saved {
            info_hash: self.info_hash@,
            num_pieces: self.num_pieces,
            have: self.have@,
            verified: self.verified@,
            priorities: self.priorities@,
            uploaded: self.uploaded,
            downloaded: self.downloaded,
            trackers: tiers_view(self.trackers@),
            paused: self.paused,
            sequential: self.sequential,
        }
    }
}

/// A counter as a bencoded integer can hold it.
pub open spec fn clamped(n: u64) -> int {
    if n <= i64::MAX {
        n as int
    } else {
        i64::MAX as int
    }
}

/// A flag as an integer.
pub open spec fn flag(b: bool) -> int {
    if b {
        1
    } else {
        0
    }
}

/// A tier of URLs, bencoded.
pub open spec fn tier_tree(tier: Seq<Seq<char>>) -> Tree {
    Tree::List(Seq::new(tier.len(), |i: int| Tree::Bytes(encode_utf8(tier[i]))))
}

/// Tiers of URLs, bencoded.
pub open spec fn tiers_tree(tiers: Seq<Seq<Seq<char>>>) -> Tree {
    Tree::List(Seq::new(tiers.len(), |i: int| tier_tree(tiers[i])))
}

/// The entries of the dictionary that is saved.
pub open spec fn saved_entries(r: Saved) -> Seq<(Seq<u8>, Tree)> {
    let e = stored(Seq::empty(), "version".spec_bytes(), Tree::Int(VERSION as int));
    let e = stored(e, "info_hash".spec_bytes(), Tree::Bytes(r.info_hash));
    let e = stored(e, "num_pieces".spec_bytes(), Tree::Int(r.num_pieces as int));
    let e = stored(e, "have".spec_bytes(), Tree::Bytes(r.have));
    let e = stored(e, "verified".spec_bytes(), Tree::Bytes(r.verified));
    let e = stored(e, "priorities".spec_bytes(), Tree::Bytes(r.priorities));
    let e = stored(e, "uploaded".spec_bytes(), Tree::Int(clamped(r.uploaded)));
    let e = stored(e, "downloaded".spec_bytes(), Tree::Int(clamped(r.downloaded)));
    let e = stored(e, "trackers".spec_bytes(), tiers_tree(r.trackers));
    let e = stored(e, "paused".spec_bytes(), Tree::Int(flag(r.paused)));
    stored(e, "sequential".spec_bytes(), Tree::Int(flag(r.sequential)))
}

/// Whether a key is one of the format's.
pub open spec fn is_known_key(k: Seq<u8>) -> bool {
    k == "version".spec_bytes() || k == "info_hash".spec_bytes() || k == "num_pieces".spec_bytes()
        || k == "have".spec_bytes() || k == "verified".spec_bytes() || k
        == "priorities".spec_bytes() || k == "uploaded".spec_bytes() || k
        == "downloaded".spec_bytes() || k == "trackers".spec_bytes() || k == "paused".spec_bytes()
        || k == "sequential".spec_bytes()
}

/// A structural fault.
pub open spec fn invalid<T>(what: &'static str) -> Result<T, Error> {
    Err(Error::Invalid(what))
}

/// The bytes under a key.
pub open spec fn bytes_under(root: Tree, key: Seq<u8>) -> Option<Seq<u8>> {
    match root.get(key) {
        Some(Tree::Bytes(b)) => Some(b),
        _ => None,
    }
}

/// Whether a byte string has a bit set at or past `n`.
pub open spec fn bits_past(b: Seq<u8>, n: u32) -> bool {
    exists|i: int| n <= i < 8 * b.len() && #[trigger] bit_at(b, i)
}

/// The bitfield under a key.
pub open spec fn bitfield_under(root: Tree, key: Seq<u8>, num_pieces: u32) -> Result<
    Seq<u8>,
    Error,
> {
    match bytes_under(root, key) {
        None => invalid("missing bitfield"),
        Some(b) => if b.len() != bytes_for(num_pieces as nat) {
            invalid("bitfield length disagrees with num_pieces")
        } else if bits_past(b, num_pieces) {
            invalid("bitfield has bits set past num_pieces")
        } else {
            Ok(b)
        },
    }
}

/// Whether a bit is set in `a` and not in `b`.
pub open spec fn claims_more(a: Seq<u8>, b: Seq<u8>) -> bool {
    exists|i: int| 0 <= i < a.len() && (#[trigger] a[i]) & !b[i] != 0
}

/// The counter under a key.
pub open spec fn counter_under(root: Tree, key: Seq<u8>) -> Result<u64, Error> {
    match root.get(key) {
        Some(Tree::Int(n)) => if n >= 0 {
            Ok(n as u64)
        } else {
            invalid("bad byte counter")
        },
        _ => invalid("bad byte counter"),
    }
}

/// The flag under a key; unset if it is missing.
pub open spec fn flag_under(root: Tree, key: Seq<u8>) -> bool {
    match root.get(key) {
        Some(Tree::Int(n)) => n != 0,
        _ => false,
    }
}

/// The first `n` URLs of a tier.
pub open spec fn urls_in(tier: Seq<Tree>, n: int) -> Result<Seq<Seq<char>>, Error>
    decreases n,
{
    if n <= 0 {
        Ok(Seq::empty())
    } else {
        match urls_in(tier, n - 1) {
            Err(e) => Err(e),
            Ok(urls) => match text_in(Some(tier[n - 1])) {
                None => invalid("tracker URL is not UTF-8"),
                Some(url) => Ok(urls.push(url)),
            },
        }
    }
}

/// The first `n` tiers of a list.
pub open spec fn tiers_in(list: Seq<Tree>, n: int) -> Result<Seq<Seq<Seq<char>>>, Error>
    decreases n,
{
    if n <= 0 {
        Ok(Seq::empty())
    } else {
        match tiers_in(list, n - 1) {
            Err(e) => Err(e),
            Ok(tiers) => match list[n - 1] {
                Tree::List(tier) => match urls_in(tier, tier.len() as int) {
                    Err(e) => Err(e),
                    Ok(urls) => Ok(tiers.push(urls)),
                },
                _ => invalid("tracker tier is not a list"),
            },
        }
    }
}

/// The version that a file declares, if this clove reads it.
pub open spec fn version_check(root: Tree) -> Result<(), Error> {
    match root.get("version".spec_bytes()) {
        Some(Tree::Int(v)) => if v > VERSION {
            Err(Error::FutureVersion(v as i64))
        } else if v < 1 {
            invalid("nonsense version")
        } else {
            Ok(())
        },
        _ => invalid("missing version"),
    }
}

/// The info-hash that a file declares.
pub open spec fn info_hash_in(root: Tree) -> Result<Seq<u8>, Error> {
    match bytes_under(root, "info_hash".spec_bytes()) {
        None => invalid("missing info_hash"),
        Some(b) => if b.len() != 20 {
            invalid("info_hash is not 20 bytes")
        } else {
            Ok(b)
        },
    }
}

/// The piece count that a file declares.
pub open spec fn num_pieces_in(root: Tree) -> Result<u32, Error> {
    match root.get("num_pieces".spec_bytes()) {
        Some(Tree::Int(n)) => if 1 <= n <= u32::MAX {
            Ok(n as u32)
        } else {
            invalid("bad num_pieces")
        },
        _ => invalid("bad num_pieces"),
    }
}

/// The priorities that a file declares.
pub open spec fn priorities_in(root: Tree) -> Result<Seq<u8>, Error> {
    match bytes_under(root, "priorities".spec_bytes()) {
        None => invalid("missing priorities"),
        Some(p) => if exists|i: int| 0 <= i < p.len() && #[trigger] p[i] > 2 {
            invalid("priority out of range")
        } else {
            Ok(p)
        },
    }
}

/// The tracker tiers that a file declares.
pub open spec fn trackers_in(root: Tree) -> Result<Seq<Seq<Seq<char>>>, Error> {
    match root.get("trackers".spec_bytes()) {
        Some(Tree::List(list)) => tiers_in(list, list.len() as int),
        _ => invalid("missing trackers"),
    }
}

/// The two bitfields that a file declares: what is held, and what of it is
/// verified.
pub open spec fn bitfields_in(root: Tree, num_pieces: u32) -> Result<(Seq<u8>, Seq<u8>), Error> {
    match bitfield_under(root, "have".spec_bytes(), num_pieces) {
        Err(e) => Err(e),
        Ok(have) => match bitfield_under(root, "verified".spec_bytes(), num_pieces) {
            Err(e) => Err(e),
            Ok(verified) => if claims_more(verified, have) {
                invalid("verified claims a piece have does not")
            } else {
                Ok((have, verified))
            },
        },
    }
}

/// What a dictionary of known keys says.
pub open spec fn fields_in(root: Tree) -> Result<Saved, Error> {
    match info_hash_in(root) {
        Err(e) => Err(e),
        Ok(info_hash) => match num_pieces_in(root) {
            Err(e) => Err(e),
            Ok(num_pieces) => match bitfields_in(root, num_pieces) {
                Err(e) => Err(e),
                Ok((have, verified)) => match priorities_in(root) {
                    Err(e) => Err(e),
                    Ok(priorities) => match counter_under(root, "uploaded".spec_bytes()) {
                        Err(e) => Err(e),
                        Ok(uploaded) => match counter_under(root, "downloaded".spec_bytes()) {
                            Err(e) => Err(e),
                            Ok(downloaded) => match trackers_in(root) {
                                Err(e) => Err(e),
                                Ok(trackers) => Ok(
                                    Saved {
                                        info_hash,
                                        num_pieces,
                                        have,
                                        verified,
                                        priorities,
                                        uploaded,
                                        downloaded,
                                        trackers,
                                        paused: flag_under(root, "paused".spec_bytes()),
                                        sequential: flag_under(root, "sequential".spec_bytes()),
                                    },
                                ),
                            },
                        },
                    },
                },
            },
        },
    }
}

/// Whether every key is one of the format's.
pub open spec fn only_known_keys(e: Seq<(Seq<u8>, Tree)>) -> bool {
    forall|i: int| 0 <= i < e.len() ==> is_known_key((#[trigger] e[i]).0)
}

/// What a resume file says.
pub open spec fn saved_in(s: Seq<u8>) -> Result<Saved, Error> {
    match decoded(s) {
        Err(e) => Err(Error::Bencode(e)),
        Ok(root) => match root {
            Tree::Dict(e) => match version_check(root) {
                Err(e) => Err(e),
                Ok(_) => if !only_known_keys(e) {
                    invalid("unknown key: version discipline violated")
                } else {
                    fields_in(root)
                },
            },
            _ => invalid("top level is not a dictionary"),
        },
    }
}

// ---------------------------------------------------------------------------
// Encoding.

fn copy_bytes(b: &Vec<u8>) -> (r: Vec<u8>)
    ensures
        r@ == b@,
{
    let r = copy_range(b.as_slice(), 0, b.len());
    proof {
        assert(r@ =~= b@);
    }
    r
}

fn clamp(n: u64) -> (r: i64)
    ensures
        r == clamped(n),
{
    if n <= i64::MAX as u64 {
        n as i64
    } else {
        i64::MAX
    }
}

fn tiers_value(tiers: &Vec<Vec<String>>) -> (v: Value)
    ensures
        v@ == tiers_tree(tiers_view(tiers@)),
{
    let mut out: Vec<Value> = Vec::new();
    let mut i: usize = 0;
    while i < tiers.len()
        invariant
            i <= tiers@.len(),
            out@.len() == i,
            forall|j: int|
                0 <= j < i ==> (#[trigger] out@[j])@ == tier_tree(names_view(tiers@[j])),
        decreases tiers.len() - i,
    {
        let mut urls: Vec<Value> = Vec::new();
        let mut k: usize = 0;
        while k < tiers[i].len()
            invariant
                i < tiers@.len(),
                k <= tiers@[i as int]@.len(),
                urls@.len() == k,
                forall|j: int|
                    0 <= j < k ==> (#[trigger] urls@[j])@ == Tree::Bytes(
                        encode_utf8(tiers@[i as int]@[j]@),
                    ),
            decreases tiers@[i as int]@.len() - k,
        {
            urls.push(Value::Bytes(text_bytes(tiers[i][k].as_str())));
            k = k + 1;
        }
        let ghost u = trees(urls);
        out.push(Value::List(urls));
        proof {
            assert(u =~= tier_tree(names_view(tiers@[i as int]))->List_0);
        }
        i = i + 1;
    }
    proof {
        assert(trees(out) =~= Seq::new(
            tiers@.len(),
            |i: int| tier_tree(tiers_view(tiers@)[i]),
        ));
    }
    Value::List(out)
}

impl Resume {
    /// Canonically encode for writing.
    ///
    /// Stats saturate rather than fail: a counter past `i64::MAX` bytes is not
    /// a state worth crashing over.
    pub fn encode(&self) -> (out: Vec<u8>)
        ensures
            out@ == saved_bytes(self@),
    {
        let mut map = Dict::new();
        let hash = copy_range(self.info_hash.as_slice(), 0, 20);
        proof {
            assert(hash@ =~= self.info_hash@);
        }
        let _ = map.insert(text_bytes("version"), Value::Int(VERSION));
        let _ = map.insert(text_bytes("info_hash"), Value::Bytes(hash));
        let _ = map.insert(text_bytes("num_pieces"), Value::Int(self.num_pieces as i64));
        let _ = map.insert(text_bytes("have"), Value::Bytes(copy_bytes(&self.have)));
        let _ = map.insert(text_bytes("verified"), Value::Bytes(copy_bytes(&self.verified)));
        let _ = map.insert(text_bytes("priorities"), Value::Bytes(copy_bytes(&self.priorities)));
        let _ = map.insert(text_bytes("uploaded"), Value::Int(clamp(self.uploaded)));
        let _ = map.insert(text_bytes("downloaded"), Value::Int(clamp(self.downloaded)));
        let _ = map.insert(text_bytes("trackers"), tiers_value(&self.trackers));
        let _ = map.insert(
            text_bytes("paused"),
            Value::Int(
                if self.paused {
                    1
                } else {
                    0
                },
            ),
        );
        let _ = map.insert(
            text_bytes("sequential"),
            Value::Int(
                if self.sequential {
                    1
                } else {
                    0
                },
            ),
        );
        bencode::encode(&Value::Dict(map))
    }
}

// ---------------------------------------------------------------------------
// Decoding.

fn known_key(k: &[u8]) -> (r: bool)
    ensures
        r == is_known_key(k@),
{
    bytes_eq(k, "version".as_bytes()) || bytes_eq(k, "info_hash".as_bytes()) || bytes_eq(
        k,
        "num_pieces".as_bytes(),
    ) || bytes_eq(k, "have".as_bytes()) || bytes_eq(k, "verified".as_bytes()) || bytes_eq(
        k,
        "priorities".as_bytes(),
    ) || bytes_eq(k, "uploaded".as_bytes()) || bytes_eq(k, "downloaded".as_bytes()) || bytes_eq(
        k,
        "trackers".as_bytes(),
    ) || bytes_eq(k, "paused".as_bytes()) || bytes_eq(k, "sequential".as_bytes())
}

fn find_bytes<'a>(root: &'a Value, key: &str) -> (r: Option<&'a [u8]>)
    ensures
        match r {
            Some(b) => bytes_under(root@, key.spec_bytes()) == Some(b@),
            None => bytes_under(root@, key.spec_bytes()) is None,
        },
{
    match root.get(key.as_bytes()) {
        Some(v) => v.as_bytes(),
        None => None,
    }
}

fn find_int(root: &Value, key: &str) -> (r: Option<i64>)
    ensures
        match r {
            Some(n) => root@.get(key.spec_bytes()) == Some(Tree::Int(n as int)),
            None => !(root@.get(key.spec_bytes()) matches Some(Tree::Int(_))),
        },
{
    match root.get(key.as_bytes()) {
        Some(v) => v.as_int(),
        None => None,
    }
}

fn bitfield(root: &Value, key: &str, num_pieces: u32) -> (r: Result<Vec<u8>, Error>)
    ensures
        match r {
            Ok(v) => bitfield_under(root@, key.spec_bytes(), num_pieces) == Ok::<Seq<u8>, Error>(
                v@,
            ),
            Err(e) => bitfield_under(root@, key.spec_bytes(), num_pieces) == Err::<Seq<u8>, Error>(
                e,
            ),
        },
{
    let bytes = match find_bytes(root, key) {
        Some(b) => b,
        None => return Err(Error::Invalid("missing bitfield")),
    };
    match crate::bitfield::Bitfield::from_bytes(bytes, num_pieces) {
        Ok(bf) => {
            proof {
                assert forall|i: int| num_pieces <= i < 8 * bytes@.len() implies !(#[trigger] bit_at(
                    bytes@,
                    i,
                )) by {}
            }
            let v = copy_range(bytes, 0, bytes.len());
            proof {
                assert(v@ =~= bytes@);
            }
            Ok(v)
        },
        Err(crate::bitfield::BadBitfield::WrongLength) => Err(
            Error::Invalid("bitfield length disagrees with num_pieces"),
        ),
        Err(crate::bitfield::BadBitfield::SpareBitsSet) => Err(
            Error::Invalid("bitfield has bits set past num_pieces"),
        ),
    }
}

fn counter(root: &Value, key: &str) -> (r: Result<u64, Error>)
    ensures
        r == counter_under(root@, key.spec_bytes()),
{
    match find_int(root, key) {
        Some(n) => if n >= 0 {
            Ok(n as u64)
        } else {
            Err(Error::Invalid("bad byte counter"))
        },
        None => Err(Error::Invalid("bad byte counter")),
    }
}

fn find_flag(root: &Value, key: &str) -> (r: bool)
    ensures
        r == flag_under(root@, key.spec_bytes()),
{
    match find_int(root, key) {
        Some(n) => n != 0,
        None => false,
    }
}

fn any_claimed(a: &Vec<u8>, b: &Vec<u8>) -> (r: bool)
    requires
        a@.len() == b@.len(),
    ensures
        r == claims_more(a@, b@),
{
    let mut i: usize = 0;
    while i < a.len()
        invariant
            i <= a@.len(),
            a@.len() == b@.len(),
            forall|j: int| 0 <= j < i ==> (#[trigger] a@[j]) & !b@[j] == 0,
        decreases a.len() - i,
    {
        if a[i] & !b[i] != 0 {
            proof {
                assert(a@[i as int] & !b@[i as int] != 0);
            }
            return true;
        }
        i = i + 1;
    }
    false
}

fn check_version(root: &Value) -> (r: Result<(), Error>)
    ensures
        r == version_check(root@),
{
    match find_int(root, "version") {
        Some(v) => {
            if v > VERSION {
                Err(Error::FutureVersion(v))
            } else if v < 1 {
                Err(Error::Invalid("nonsense version"))
            } else {
                Ok(())
            }
        },
        None => Err(Error::Invalid("missing version")),
    }
}

fn check_keys(dict: &Dict) -> (r: bool)
    ensures
        r == only_known_keys(dict@),
{
    let mut i: usize = 0;
    while i < dict.len()
        invariant
            i <= dict@.len(),
            forall|j: int| 0 <= j < i ==> is_known_key((#[trigger] dict@[j]).0),
        decreases dict@.len() - i,
    {
        if !known_key(dict.key_at(i).as_slice()) {
            proof {
                assert(!is_known_key(dict@[i as int].0));
            }
            return false;
        }
        i = i + 1;
    }
    true
}

fn read_priorities(root: &Value) -> (r: Result<Vec<u8>, Error>)
    ensures
        match r {
            Ok(p) => priorities_in(root@) == Ok::<Seq<u8>, Error>(p@),
            Err(e) => priorities_in(root@) == Err::<Seq<u8>, Error>(e),
        },
{
    let p = match find_bytes(root, "priorities") {
        Some(b) => b,
        None => return Err(Error::Invalid("missing priorities")),
    };
    let mut i: usize = 0;
    while i < p.len()
        invariant
            i <= p@.len(),
            bytes_under(root@, "priorities".spec_bytes()) == Some(p@),
            forall|j: int| 0 <= j < i ==> #[trigger] p@[j] <= 2,
        decreases p.len() - i,
    {
        if p[i] > 2 {
            proof {
                assert(p@[i as int] > 2);
            }
            return Err(Error::Invalid("priority out of range"));
        }
        i = i + 1;
    }
    let v = copy_range(p, 0, p.len());
    proof {
        assert(v@ =~= p@);
    }
    Ok(v)
}

proof fn lemma_urls_fail(tier: Seq<Tree>, k: int, n: int)
    requires
        k <= n,
        urls_in(tier, k) is Err,
    ensures
        urls_in(tier, n) == urls_in(tier, k),
    decreases n - k,
{
    if k < n {
        lemma_urls_fail(tier, k, n - 1);
    }
}

proof fn lemma_tiers_fail(list: Seq<Tree>, k: int, n: int)
    requires
        k <= n,
        tiers_in(list, k) is Err,
    ensures
        tiers_in(list, n) == tiers_in(list, k),
    decreases n - k,
{
    if k < n {
        lemma_tiers_fail(list, k, n - 1);
    }
}

fn read_tier(tier: &Vec<Value>) -> (r: Result<Vec<String>, Error>)
    ensures
        match r {
            Ok(urls) => urls_in(trees(*tier), tier@.len() as int) == Ok::<Seq<Seq<char>>, Error>(
                names_view(urls),
            ),
            Err(e) => urls_in(trees(*tier), tier@.len() as int) == Err::<Seq<Seq<char>>, Error>(e),
        },
{
    let ghost t = trees(*tier);
    let mut urls: Vec<String> = Vec::new();
    let mut i: usize = 0;
    proof {
        assert(names_view(urls) =~= Seq::empty());
    }
    while i < tier.len()
        invariant
            i <= tier@.len(),
            t == trees(*tier),
            t.len() == tier@.len(),
            urls_in(t, i as int) == Ok::<Seq<Seq<char>>, Error>(names_view(urls)),
        decreases tier.len() - i,
    {
        let ghost had = names_view(urls);
        proof {
            assert(t[i as int] == tier@[i as int]@);
        }
        match value_text(&tier[i]) {
            Some(s) => {
                urls.push(s.to_owned());
                proof {
                    assert(names_view(urls) =~= had.push(s@));
                }
            },
            None => {
                proof {
                    lemma_urls_fail(t, i as int + 1, t.len() as int);
                }
                return Err(Error::Invalid("tracker URL is not UTF-8"));
            },
        }
        i = i + 1;
    }
    Ok(urls)
}

fn read_trackers(root: &Value) -> (r: Result<Vec<Vec<String>>, Error>)
    ensures
        match r {
            Ok(tiers) => trackers_in(root@) == Ok::<Seq<Seq<Seq<char>>>, Error>(
                tiers_view(tiers@),
            ),
            Err(e) => trackers_in(root@) == Err::<Seq<Seq<Seq<char>>>, Error>(e),
        },
{
    let list = match root.get("trackers".as_bytes()) {
        Some(v) => match v.as_list() {
            Some(l) => l,
            None => return Err(Error::Invalid("missing trackers")),
        },
        None => return Err(Error::Invalid("missing trackers")),
    };
    let ghost t = trees(*list);
    let mut tiers: Vec<Vec<String>> = Vec::new();
    let mut i: usize = 0;
    proof {
        assert(tiers_view(tiers@) =~= Seq::empty());
    }
    while i < list.len()
        invariant
            i <= list@.len(),
            t == trees(*list),
            t.len() == list@.len(),
            root@.get("trackers".spec_bytes()) == Some(Tree::List(t)),
            tiers_in(t, i as int) == Ok::<Seq<Seq<Seq<char>>>, Error>(tiers_view(tiers@)),
        decreases list.len() - i,
    {
        let ghost had = tiers_view(tiers@);
        proof {
            assert(t[i as int] == list@[i as int]@);
        }
        let tier = match list[i].as_list() {
            Some(l) => l,
            None => {
                proof {
                    lemma_tiers_fail(t, i as int + 1, t.len() as int);
                }
                return Err(Error::Invalid("tracker tier is not a list"));
            },
        };
        let urls = match read_tier(tier) {
            Ok(u) => u,
            Err(e) => {
                proof {
                    lemma_tiers_fail(t, i as int + 1, t.len() as int);
                }
                return Err(e);
            },
        };
        let ghost u = names_view(urls);
        tiers.push(urls);
        proof {
            assert(tiers_view(tiers@) =~= had.push(u));
        }
        i = i + 1;
    }
    Ok(tiers)
}

fn read_info_hash(root: &Value) -> (r: Result<[u8; 20], Error>)
    ensures
        match r {
            Ok(h) => info_hash_in(root@) == Ok::<Seq<u8>, Error>(h@),
            Err(e) => info_hash_in(root@) == Err::<Seq<u8>, Error>(e),
        },
{
    let raw = match find_bytes(root, "info_hash") {
        Some(b) => b,
        None => return Err(Error::Invalid("missing info_hash")),
    };
    if raw.len() != 20 {
        return Err(Error::Invalid("info_hash is not 20 bytes"));
    }
    let mut h: [u8; 20] = [0u8; 20];
    let mut i: usize = 0;
    while i < 20
        invariant
            i <= 20,
            raw@.len() == 20,
            forall|j: int| 0 <= j < i ==> #[trigger] h@[j] == raw@[j],
        decreases 20 - i,
    {
        h[i] = raw[i];
        i = i + 1;
    }
    proof {
        assert(h@ =~= raw@);
    }
    Ok(h)
}

fn read_num_pieces(root: &Value) -> (r: Result<u32, Error>)
    ensures
        r == num_pieces_in(root@),
{
    match find_int(root, "num_pieces") {
        Some(n) => if 1 <= n && n <= u32::MAX as i64 {
            Ok(n as u32)
        } else {
            Err(Error::Invalid("bad num_pieces"))
        },
        None => Err(Error::Invalid("bad num_pieces")),
    }
}

impl Resume {
    /// Decode and validate a resume file.
    ///
    /// Refused are malformed bencode, a version from the future, unknown keys,
    /// and any internal inconsistency (bitfield lengths, stray trailing bits,
    /// out-of-range priorities).
    pub fn decode(input: &[u8]) -> (r: Result<Resume, Error>)
        ensures
            match r {
                Ok(x) => saved_in(input@) == Ok::<Saved, Error>(x@),
                Err(e) => saved_in(input@) == Err::<Saved, Error>(e),
            },
    {
        let root = match bencode::decode(input) {
            Ok(v) => v,
            Err(e) => return Err(Error::Bencode(e)),
        };
        let dict = match root.as_dict() {
            Some(d) => d,
            None => return Err(Error::Invalid("top level is not a dictionary")),
        };
        match check_version(&root) {
            Ok(()) => {},
            Err(e) => return Err(e),
        }
        if !check_keys(dict) {
            return Err(Error::Invalid("unknown key: version discipline violated"));
        }
        let info_hash = match read_info_hash(&root) {
            Ok(h) => h,
            Err(e) => return Err(e),
        };
        let num_pieces: u32 = match read_num_pieces(&root) {
            Ok(n) => n,
            Err(e) => return Err(e),
        };
        let have = match bitfield(&root, "have", num_pieces) {
            Ok(b) => b,
            Err(e) => return Err(e),
        };
        let verified = match bitfield(&root, "verified", num_pieces) {
            Ok(b) => b,
            Err(e) => return Err(e),
        };
        // A bit set in `verified` and not in `have` describes a piece that is
        // verified but not held; believing it would mean trusting a piece we
        // never fetched.
        if any_claimed(&verified, &have) {
            return Err(Error::Invalid("verified claims a piece have does not"));
        }
        let priorities = match read_priorities(&root) {
            Ok(p) => p,
            Err(e) => return Err(e),
        };
        let uploaded: u64 = match counter(&root, "uploaded") {
            Ok(n) => n,
            Err(e) => return Err(e),
        };
        let downloaded: u64 = match counter(&root, "downloaded") {
            Ok(n) => n,
            Err(e) => return Err(e),
        };
        let trackers = match read_trackers(&root) {
            Ok(t) => t,
            Err(e) => return Err(e),
        };
        let paused = find_flag(&root, "paused");
        let sequential = find_flag(&root, "sequential");
        Ok(
            Resume {
                info_hash,
                num_pieces,
                have,
                verified,
                priorities,
                uploaded,
                downloaded,
                trackers,
                paused,
                sequential,
            },
        )
    }
}


// ---------------------------------------------------------------------------
// What reading owes writing.

/// Whether a state agrees with itself: there are pieces, the bitfields span
/// them and no more, nothing is verified that is not held, and priorities are
/// in range.
pub open spec fn is_consistent(r: Saved) -> bool {
    &&& r.num_pieces >= 1
    &&& r.have.len() == bytes_for(r.num_pieces as nat)
    &&& r.verified.len() == bytes_for(r.num_pieces as nat)
    &&& !bits_past(r.have, r.num_pieces)
    &&& !bits_past(r.verified, r.num_pieces)
    &&& !claims_more(r.verified, r.have)
    &&& forall|i: int| 0 <= i < r.priorities.len() ==> #[trigger] r.priorities[i] <= 2
}

/// Whether a state is of a size that memory can hold.
pub open spec fn is_addressable(r: Saved) -> bool {
    &&& r.info_hash.len() == 20
    &&& r.have.len() <= usize::MAX
    &&& r.verified.len() <= usize::MAX
    &&& r.priorities.len() <= usize::MAX
    &&& forall|i: int, j: int|
        0 <= i < r.trackers.len() && 0 <= j < r.trackers[i].len() ==> encode_utf8(
            #[trigger] r.trackers[i][j],
        ).len() <= usize::MAX
}

/// The fields of a file that declares `version`, those that came later last.
pub open spec fn fields_of(r: Saved, version: int) -> Seq<(Seq<u8>, Tree)> {
    seq![
        ("version".spec_bytes(), Tree::Int(version)),
        ("info_hash".spec_bytes(), Tree::Bytes(r.info_hash)),
        ("num_pieces".spec_bytes(), Tree::Int(r.num_pieces as int)),
        ("have".spec_bytes(), Tree::Bytes(r.have)),
        ("verified".spec_bytes(), Tree::Bytes(r.verified)),
        ("priorities".spec_bytes(), Tree::Bytes(r.priorities)),
        ("uploaded".spec_bytes(), Tree::Int(clamped(r.uploaded))),
        ("downloaded".spec_bytes(), Tree::Int(clamped(r.downloaded))),
        ("trackers".spec_bytes(), tiers_tree(r.trackers)),
        ("paused".spec_bytes(), Tree::Int(flag(r.paused))),
        ("sequential".spec_bytes(), Tree::Int(flag(r.sequential))),
    ]
}

pub proof fn lemma_entries_built(r: Saved)
    ensures
        saved_entries(r) == bencode::built(fields_of(r, VERSION as int), 11),
{
    reveal_with_fuel(bencode::built, 12);
}

/// The first byte and the length of each key.
proof fn lemma_key_marks()
    ensures
        "version".spec_bytes().len() == 7,
        "info_hash".spec_bytes().len() == 9,
        "num_pieces".spec_bytes().len() == 10 && "num_pieces".spec_bytes()[0] == 110,
        "have".spec_bytes().len() == 4,
        "verified".spec_bytes().len() == 8 && "verified".spec_bytes()[0] == 118,
        "priorities".spec_bytes().len() == 10 && "priorities".spec_bytes()[0] == 112,
        "uploaded".spec_bytes().len() == 8 && "uploaded".spec_bytes()[0] == 117,
        "downloaded".spec_bytes().len() == 10 && "downloaded".spec_bytes()[0] == 100,
        "trackers".spec_bytes().len() == 8 && "trackers".spec_bytes()[0] == 116,
        "paused".spec_bytes().len() == 6,
        "sequential".spec_bytes().len() == 10 && "sequential".spec_bytes()[0] == 115,
{
    reveal_strlit("version");
    reveal_strlit("info_hash");
    reveal_strlit("num_pieces");
    reveal_strlit("have");
    reveal_strlit("verified");
    reveal_strlit("priorities");
    reveal_strlit("uploaded");
    reveal_strlit("downloaded");
    reveal_strlit("trackers");
    reveal_strlit("paused");
    reveal_strlit("sequential");
    assert("version".is_ascii());
    assert("info_hash".is_ascii());
    assert("num_pieces".is_ascii());
    assert("have".is_ascii());
    assert("verified".is_ascii());
    assert("priorities".is_ascii());
    assert("uploaded".is_ascii());
    assert("downloaded".is_ascii());
    assert("trackers".is_ascii());
    assert("paused".is_ascii());
    assert("sequential".is_ascii());
}

proof fn lemma_urls_back(tier: Seq<Seq<char>>, n: int)
    requires
        0 <= n <= tier.len(),
    ensures
        urls_in(tier_tree(tier)->List_0, n) == Ok::<Seq<Seq<char>>, Error>(tier.take(n)),
    decreases n,
{
    if n > 0 {
        lemma_urls_back(tier, n - 1);
        encode_utf8_valid_utf8(tier[n - 1]);
        encode_utf8_decode_utf8(tier[n - 1]);
        assert(tier.take(n) =~= tier.take(n - 1).push(tier[n - 1]));
    } else {
        assert(tier.take(0) =~= Seq::empty());
    }
}

proof fn lemma_tiers_back(tiers: Seq<Seq<Seq<char>>>, n: int)
    requires
        0 <= n <= tiers.len(),
    ensures
        tiers_in(tiers_tree(tiers)->List_0, n) == Ok::<Seq<Seq<Seq<char>>>, Error>(tiers.take(n)),
    decreases n,
{
    if n > 0 {
        lemma_tiers_back(tiers, n - 1);
        let tier = tiers[n - 1];
        lemma_urls_back(tier, tier.len() as int);
        assert(tier.take(tier.len() as int) =~= tier);
        assert(tiers.take(n) =~= tiers.take(n - 1).push(tier));
    } else {
        assert(tiers.take(0) =~= Seq::empty());
    }
}

proof fn lemma_tiers_sound(r: Saved)
    requires
        is_addressable(r),
    ensures
        tiers_tree(r.trackers).well_formed(),
        tiers_tree(r.trackers).fits(31),
{
    let tiers = r.trackers;
    let items = tiers_tree(tiers)->List_0;
    assert forall|i: int| 0 <= i < items.len() implies (#[trigger] items[i]).well_formed()
        && items[i].fits(30) by {
        let inner = tier_tree(tiers[i])->List_0;
        assert forall|j: int| 0 <= j < inner.len() implies (#[trigger] inner[j]).well_formed()
            && inner[j].fits(29) by {
            assert(encode_utf8(tiers[i][j]).len() <= usize::MAX);
        }
        assert(Tree::List(inner).well_formed());
        assert(Tree::List(inner).fits(30));
    }
    assert(Tree::List(items).well_formed());
    assert(Tree::List(items).fits(31));
}

/// What is written of a state.
pub open spec fn saved_bytes(r: Saved) -> Seq<u8> {
    encoding(Tree::Dict(saved_entries(r)))
}

/// A file that declares `version` and holds the first `n` fields.
pub open spec fn file_of(r: Saved, version: int, n: int) -> Seq<u8> {
    encoding(Tree::Dict(bencode::built(fields_of(r, version), n)))
}

/// A state as it comes back from a file with the first `n` fields: the
/// counters as far as an integer on disk can hold them, the flags unset if the
/// file has none.
pub open spec fn restored(r: Saved, n: int) -> Saved {
    Saved {
        uploaded: clamped(r.uploaded) as u64,
        downloaded: clamped(r.downloaded) as u64,
        paused: n > 9 && r.paused,
        sequential: n > 10 && r.sequential,
        ..r
    }
}

/// A saved state is read back as it was written if it agrees with itself, and
/// refused otherwise; the counters come back as far as an integer on disk can
/// hold them. A file that was cut short is refused.
pub proof fn law_resume_round_trip(r: Saved)
    requires
        is_addressable(r),
    ensures
        is_consistent(r) ==> saved_in(saved_bytes(r)) == Ok::<Saved, Error>(
            (Saved {
                uploaded: clamped(r.uploaded) as u64,
                downloaded: clamped(r.downloaded) as u64,
                ..r
            }),
        ),
        !is_consistent(r) ==> saved_in(saved_bytes(r)) matches Err(Error::Invalid(_)),
        r.uploaded <= i64::MAX && r.downloaded <= i64::MAX ==> (saved_in(saved_bytes(r)) == Ok::<
            Saved,
            Error,
        >(r) <==> is_consistent(r)),
        forall|n: int|
            0 <= n < saved_bytes(r).len() ==> (#[trigger] saved_in(saved_bytes(r).take(n))) is Err,
{
    lemma_entries_built(r);
    lemma_file_root(r, VERSION as int, 11);
    law_older_files_are_read(r, VERSION as int, 11);
    assert forall|n: int| 0 <= n < saved_bytes(r).len() implies (#[trigger] saved_in(
        saved_bytes(r).take(n),
    )) is Err by {
        bencode::law_prefix_is_refused(saved_bytes(r), n);
    }
}

/// Files of every version so far are read, with or without the flags that came
/// later: a flag that is missing is unset.
pub proof fn law_older_files_are_read(r: Saved, version: int, n: int)
    requires
        is_addressable(r),
        1 <= version <= VERSION,
        9 <= n <= 11,
    ensures
        is_consistent(r) ==> saved_in(file_of(r, version, n)) == Ok::<Saved, Error>(
            restored(r, n),
        ),
        !is_consistent(r) ==> saved_in(file_of(r, version, n)) matches Err(Error::Invalid(_)),
{
    lemma_file_root(r, version, n);
    let kvs = fields_of(r, version);
    let root = Tree::Dict(bencode::built(kvs, n));
    assert(kvs[0].0 == "version".spec_bytes());
    assert(kvs[1].0 == "info_hash".spec_bytes());
    assert(kvs[2].0 == "num_pieces".spec_bytes());
    assert(kvs[3].0 == "have".spec_bytes());
    assert(kvs[4].0 == "verified".spec_bytes());
    assert(kvs[5].0 == "priorities".spec_bytes());
    assert(kvs[6].0 == "uploaded".spec_bytes());
    assert(kvs[7].0 == "downloaded".spec_bytes());
    assert(kvs[8].0 == "trackers".spec_bytes());
    assert(kvs[9].0 == "paused".spec_bytes());
    assert(kvs[10].0 == "sequential".spec_bytes());
    assert(root.get("version".spec_bytes()) == Some(Tree::Int(version)));
    lemma_tiers_back(r.trackers, r.trackers.len() as int);
    assert(r.trackers.take(r.trackers.len() as int) =~= r.trackers);
    assert(info_hash_in(root) == Ok::<Seq<u8>, Error>(r.info_hash));
    assert(trackers_in(root) == Ok::<Seq<Seq<Seq<char>>>, Error>(r.trackers));
    assert(flag_under(root, "paused".spec_bytes()) == (n > 9 && r.paused));
    assert(flag_under(root, "sequential".spec_bytes()) == (n > 10 && r.sequential));
    assert(counter_under(root, "uploaded".spec_bytes()) == Ok::<u64, Error>(
        clamped(r.uploaded) as u64,
    ));
    assert(counter_under(root, "downloaded".spec_bytes()) == Ok::<u64, Error>(
        clamped(r.downloaded) as u64,
    ));
    assert(bytes_under(root, "have".spec_bytes()) == Some(r.have));
    assert(bytes_under(root, "verified".spec_bytes()) == Some(r.verified));
    assert(bytes_under(root, "priorities".spec_bytes()) == Some(r.priorities));
}

/// A file from the future is refused as such, whatever else it says, and one
/// with a key that no version has is refused.
pub proof fn law_strange_files_are_refused(s: Seq<u8>, e: Seq<(Seq<u8>, Tree)>, version: int)
    requires
        decoded(s) == Ok::<Tree, bencode::Error>(Tree::Dict(e)),
        Tree::Dict(e).get("version".spec_bytes()) == Some(Tree::Int(version)),
    ensures
        version > VERSION ==> saved_in(s) == Err::<Saved, Error>(
            Error::FutureVersion(version as i64),
        ),
        version <= VERSION && !only_known_keys(e) ==> saved_in(s) matches Err(Error::Invalid(_)),
{
}

/// What decoding a file finds under each key.
#[verifier::rlimit(80)]
pub proof fn lemma_file_root(r: Saved, version: int, n: int)
    requires
        is_addressable(r),
        1 <= version <= VERSION,
        9 <= n <= 11,
    ensures
        ({
            let kvs = fields_of(r, version);
            let e = bencode::built(kvs, n);
            &&& decoded(file_of(r, version, n)) == Ok::<Tree, bencode::Error>(Tree::Dict(e))
            &&& only_known_keys(e)
            &&& forall|i: int|
                0 <= i < n ==> Tree::Dict(e).get((#[trigger] kvs[i]).0) == Some(kvs[i].1)
            &&& forall|i: int| n <= i < 11 ==> Tree::Dict(e).get((#[trigger] kvs[i]).0) is None
        }),
{
    let kvs = fields_of(r, version);
    let e = bencode::built(kvs, n);
    lemma_key_marks();
    lemma_tiers_sound(r);
    assert forall|i: int, j: int| 0 <= i < j < kvs.len() implies (#[trigger] kvs[i]).0
        != (#[trigger] kvs[j]).0 by {
        lemma_keys_differ(r, version, i, j);
    }
    assert forall|i: int| 0 <= i < kvs.len() implies (#[trigger] kvs[i]).0.len() <= usize::MAX
        && kvs[i].1.well_formed() && kvs[i].1.fits(31) by {
        lemma_pair_sound(r, version, i);
    }
    bencode::lemma_built(kvs, n, 31);
    lemma_sound_dict_round(e, 31);
    let root = Tree::Dict(e);
    assert forall|i: int| 0 <= i < n implies root.get((#[trigger] kvs[i]).0) == Some(kvs[i].1) by {}
    assert forall|i: int| n <= i < 11 implies root.get((#[trigger] kvs[i]).0) is None by {
        bencode::lemma_lookup_none(e, kvs[i].0);
        if bencode::has_key(e, kvs[i].0) {
            let j = choose|j: int| 0 <= j < n && (#[trigger] kvs[j]).0 == kvs[i].0;
            lemma_keys_differ(r, version, j, i);
        }
    }
    assert(only_known_keys(e)) by {
        assert forall|i: int| 0 <= i < e.len() implies is_known_key((#[trigger] e[i]).0) by {
            assert(bencode::has_key(bencode::built(kvs, n), e[i].0));
            let j = choose|j: int| 0 <= j < n && (#[trigger] kvs[j]).0 == e[i].0;
            lemma_pair_known(r, version, j);
        }
    }
}

proof fn lemma_keys_differ(r: Saved, version: int, i: int, j: int)
    requires
        0 <= i < j < 11,
    ensures
        fields_of(r, version)[i].0 != fields_of(r, version)[j].0,
{
    lemma_key_marks();
}

proof fn lemma_pair_known(r: Saved, version: int, i: int)
    requires
        0 <= i < 11,
    ensures
        is_known_key(fields_of(r, version)[i].0),
{
}

proof fn lemma_pair_sound(r: Saved, version: int, i: int)
    requires
        is_addressable(r),
        1 <= version <= VERSION,
        0 <= i < 11,
    ensures
        fields_of(r, version)[i].0.len() <= usize::MAX,
        fields_of(r, version)[i].1.well_formed(),
        fields_of(r, version)[i].1.fits(31),
{
    lemma_key_marks();
    lemma_tiers_sound(r);
}

/// When a saved state agrees with itself: it has pieces; each of its two sets
/// has a bit for every piece and no other bit; nothing is verified that is not
/// held; and no priority is more than two.
pub proof fn law_what_agrees_with_itself(r: Saved)
    ensures
        is_consistent(r) <==> {
            let bytes = (r.num_pieces as int + 7) / 8;
            &&& r.num_pieces > 0
            &&& r.have.len() == bytes
            &&& r.verified.len() == bytes
            &&& forall|i: int| r.num_pieces <= i < 8 * bytes ==> !#[trigger] bit_at(r.have, i)
            &&& forall|i: int| r.num_pieces <= i < 8 * bytes ==> !#[trigger] bit_at(r.verified, i)
            &&& forall|i: int| 0 <= i < bytes ==> (#[trigger] r.verified[i]) & !r.have[i] == 0
            &&& forall|i: int| 0 <= i < r.priorities.len() ==> #[trigger] r.priorities[i] <= 2
        },
{
}

} // verus!
