//! Magnet link parsing (the `xt=urn:btih:` form).
//!
//! A magnet gives us an info-hash but no metadata; the [`crate::metadata`]
//! exchange fetches the info dictionary from peers, and the `tr=` trackers
//! (I2P-only, filtered like `.torrent` announce URLs) plus PEX supply peers.
//!
//! The btih value is accepted as 40 hex characters or 32 base32 characters
//! (both encode the same 20-byte hash).
use vstd::prelude::*;
#[allow(unused_imports)]
use vstd::string::*;
#[allow(unused_imports)]
use vstd::utf8::*;
use crate::base64::number;
use crate::bencode;
use crate::bencode::{decoded, encoding, trees, Tree, Value};
use crate::digest::sha1_of;
use crate::http::{hex_value, percent_decode, percent_decoded};
use crate::metainfo::{
    bumped, info_meta_in, is_i2p_tracker, meta_in, meta_of, tier_in, tiers_in, trackers_in,
    url_parts, Meta, MAX_TRACKERS,
};
use crate::paths::names_view;
use crate::scan::{
    copy_chars, is_text, law_cut_at_the_first, law_key_and_value_are_cut, split, split_at_first,
    split_on, split_once, starts, starts_with, texts,
};
use crate::strings::{bytes_eq, chars_of, lossy, lossy_text, push_all, string_of, text_bytes};

verus! {

/// A parsed magnet link.
#[derive(Clone, Debug, PartialEq, Eq)]
pub struct Magnet {
    /// The 20-byte info-hash from `xt=urn:btih:`.
    pub info_hash: [u8; 20],
    /// The display name (`dn=`), if given.
    pub display_name: Option<String>,
    /// I2P announce URLs (`tr=`), at most [`MAX_TRACKERS`] of them; non-I2P
    /// trackers are dropped.
    pub trackers: Vec<String>,
    /// How many `tr=` values were dropped: non-I2P ones, and I2P ones past
    /// [`MAX_TRACKERS`].
    pub skipped_trackers: usize,
}

/// Why a magnet link could not be parsed.
#[derive(Clone, Copy, Debug, PartialEq, Eq)]
pub enum Error {
    /// Not a `magnet:?` URI.
    NotMagnet,
    /// No `xt=urn:btih:` parameter.
    NoInfoHash,
    /// The btih value was not 40 hex or 32 base32 characters.
    BadInfoHash,
    /// Two `xt=urn:btih:` parameters that name different hashes. A link is one
    /// torrent; which of two it means is not ours to guess.
    ConflictingInfoHash,
}

impl Error {
    /// What was wrong, in words.
    pub fn message(&self) -> (r: String)
        ensures
            r@ == (match *self {
                Error::NotMagnet => "magnet: not a magnet: URI"@,
                Error::NoInfoHash => "magnet: no xt=urn:btih: info-hash"@,
                Error::BadInfoHash => "magnet: info-hash is not 40 hex or 32 base32 chars"@,
                Error::ConflictingInfoHash =>
                    "magnet: two xt=urn:btih: parameters name different info-hashes"@,
            }),
    {
        match self {
            Error::NotMagnet => "magnet: not a magnet: URI".to_owned(),
            Error::NoInfoHash => "magnet: no xt=urn:btih: info-hash".to_owned(),
            Error::BadInfoHash => "magnet: info-hash is not 40 hex or 32 base32 chars".to_owned(),
            Error::ConflictingInfoHash =>
                "magnet: two xt=urn:btih: parameters name different info-hashes".to_owned(),
        }
    }
}

// ---------------------------------------------------------------------------
// Info-hashes.

/// The five-bit value of a base32 symbol, in either case.
pub open spec fn base32_value(b: u8) -> Option<u8> {
    if 97 <= b <= 122 {
        Some((b - 97) as u8)
    } else if 65 <= b <= 90 {
        Some((b - 65) as u8)
    } else if 50 <= b <= 55 {
        Some((b - 50 + 26) as u8)
    } else {
        None
    }
}

/// The values of hexadecimal digits.
pub open spec fn hex_values(s: Seq<u8>) -> Seq<u8> {
    Seq::new(s.len(), |i: int| hex_value(s[i])->Some_0)
}

/// The values of base32 symbols.
pub open spec fn base32_values(s: Seq<u8>) -> Seq<u8> {
    Seq::new(s.len(), |i: int| base32_value(s[i])->Some_0)
}

/// Whether a btih value is well formed: 40 hexadecimal digits or 32 base32
/// symbols.
pub open spec fn is_btih(s: Seq<u8>) -> bool {
    (s.len() == 40 && forall|i: int| 0 <= i < 40 ==> hex_value(#[trigger] s[i]) is Some) || (s.len()
        == 32 && forall|i: int| 0 <= i < 32 ==> base32_value(#[trigger] s[i]) is Some)
}

/// Whether `hash` is the 20 bytes that a btih value stands for: the same
/// number, in base 256 and in base 16 or 32.
pub open spec fn btih_says(s: Seq<u8>, hash: Seq<u8>) -> bool {
    hash.len() == 20 && number(hash, 256) == (if s.len() == 40 {
        number(hex_values(s), 16)
    } else {
        number(base32_values(s), 32)
    })
}

/// The hash that a btih value stands for.
pub open spec fn btih_hash(s: Seq<u8>) -> Seq<u8> {
    choose|hash: Seq<u8>| btih_says(s, hash)
}

fn hex_nibble(b: u8) -> (r: Option<u8>)
    ensures
        r == hex_value(b),
        r matches Some(v) ==> v < 16,
{
    if 48 <= b && b <= 57 {
        Some(b - 48)
    } else if 97 <= b && b <= 102 {
        Some(b - 97 + 10)
    } else if 65 <= b && b <= 70 {
        Some(b - 65 + 10)
    } else {
        None
    }
}

fn base32_symbol(b: u8) -> (r: Option<u8>)
    ensures
        r == base32_value(b),
        r matches Some(v) ==> v < 32,
{
    if 97 <= b && b <= 122 {
        Some(b - 97)
    } else if 65 <= b && b <= 90 {
        Some(b - 65)
    } else if 50 <= b && b <= 55 {
        Some(b - 50 + 26)
    } else {
        None
    }
}

proof fn lemma_number_push(s: Seq<u8>, d: u8, base: nat)
    ensures
        number(s.push(d), base) == number(s, base) * base + d as nat,
{
    assert(s.push(d).drop_last() =~= s);
}

fn decode_hex(s: &[u8]) -> (r: Option<Vec<u8>>)
    requires
        s@.len() == 40,
    ensures
        match r {
            Some(v) => is_btih(s@) && btih_says(s@, v@),
            None => !is_btih(s@),
        },
{
    let ghost vals = hex_values(s@);
    let mut out: Vec<u8> = Vec::new();
    let mut i: usize = 0;
    proof {
        assert(vals.take(0) =~= Seq::empty());
    }
    while i < 20
        invariant
            i <= 20,
            s@.len() == 40,
            vals == hex_values(s@),
            out@.len() == i,
            forall|j: int| 0 <= j < 2 * i ==> hex_value(#[trigger] s@[j]) is Some,
            number(out@, 256) == number(vals.take(2 * i), 16),
        decreases 20 - i,
    {
        let hi: u8 = match hex_nibble(s[2 * i]) {
            Some(v) => v,
            None => {
                proof {
                    assert(hex_value(s@[2 * i as int]) is None);
                }
                return None;
            },
        };
        let lo: u8 = match hex_nibble(s[2 * i + 1]) {
            Some(v) => v,
            None => {
                proof {
                    assert(hex_value(s@[2 * i + 1]) is None);
                }
                return None;
            },
        };
        proof {
            lemma_number_push(out@, (hi * 16 + lo) as u8, 256);
            lemma_number_push(vals.take(2 * i), hi, 16);
            lemma_number_push(vals.take(2 * i).push(hi), lo, 16);
            assert(vals.take(2 * i + 2) =~= vals.take(2 * i).push(hi).push(lo));
        }
        out.push(hi * 16 + lo);
        i = i + 1;
    }
    proof {
        assert(vals.take(40) =~= vals);
    }
    Some(out)
}

/// Five bytes appended to a number are its next forty bits.
proof fn lemma_five_bytes(o: Seq<u8>, acc: int, b0: u8, b1: u8, b2: u8, b3: u8, b4: u8)
    requires
        acc == (((b0 * 256 + b1) * 256 + b2) * 256 + b3) * 256 + b4,
    ensures
        number(o.push(b0).push(b1).push(b2).push(b3).push(b4), 256) == number(o, 256)
            * 0x100_0000_0000 + acc,
{
    lemma_number_push(o, b0, 256);
    lemma_number_push(o.push(b0), b1, 256);
    lemma_number_push(o.push(b0).push(b1), b2, 256);
    lemma_number_push(o.push(b0).push(b1).push(b2), b3, 256);
    lemma_number_push(o.push(b0).push(b1).push(b2).push(b3), b4, 256);
}

#[verifier::rlimit(40)]
fn decode_base32(s: &[u8]) -> (r: Option<Vec<u8>>)
    requires
        s@.len() == 32,
    ensures
        match r {
            Some(v) => is_btih(s@) && btih_says(s@, v@),
            None => !is_btih(s@),
        },
{
    let ghost vals = base32_values(s@);
    let mut out: Vec<u8> = Vec::new();
    let mut g: usize = 0;
    proof {
        assert(vals.take(0) =~= Seq::empty());
    }
    while g < 4
        invariant
            g <= 4,
            s@.len() == 32,
            vals == base32_values(s@),
            out@.len() == 5 * g,
            forall|j: int| 0 <= j < 8 * g ==> base32_value(#[trigger] s@[j]) is Some,
            number(out@, 256) == number(vals.take(8 * g), 32),
        decreases 4 - g,
    {
        let ghost n0 = number(out@, 256);
        let ghost start = 8 * g as int;
        let mut acc: u64 = 0;
        let mut k: usize = 0;
        let ghost mut scale: nat = 1;
        while k < 8
            invariant
                k <= 8,
                g < 4,
                s@.len() == 32,
                vals == base32_values(s@),
                start == 8 * g,
                forall|j: int| 0 <= j < start + k ==> base32_value(#[trigger] s@[j]) is Some,
                number(vals.take(start + k), 32) == n0 * scale + acc,
                acc < scale,
                k == 0 ==> scale == 1,
                k == 1 ==> scale == 0x20,
                k == 2 ==> scale == 0x400,
                k == 3 ==> scale == 0x8000,
                k == 4 ==> scale == 0x10_0000,
                k == 5 ==> scale == 0x200_0000,
                k == 6 ==> scale == 0x4000_0000,
                k == 7 ==> scale == 0x8_0000_0000,
                k == 8 ==> scale == 0x100_0000_0000,
            decreases 8 - k,
        {
            let at: usize = 8 * g + k;
            let v: u8 = match base32_symbol(s[at]) {
                Some(v) => v,
                None => {
                    proof {
                        assert(base32_value(s@[at as int]) is None);
                    }
                    return None;
                },
            };
            proof {
                lemma_number_push(vals.take(start + k), v, 32);
                assert(vals.take(start + k + 1) =~= vals.take(start + k).push(v));
                assert((n0 * scale + acc) * 32 + v == n0 * (scale * 32) + (acc * 32 + v))
                    by (nonlinear_arith);
                scale = scale * 32;
            }
            acc = acc * 32 + v as u64;
            k = k + 1;
        }
        let a3: u64 = acc / 0x100;
        let a2: u64 = a3 / 0x100;
        let a1: u64 = a2 / 0x100;
        let b0: u8 = (a1 / 0x100) as u8;
        let b1: u8 = (a1 % 0x100) as u8;
        let b2: u8 = (a2 % 0x100) as u8;
        let b3: u8 = (a3 % 0x100) as u8;
        let b4: u8 = (acc % 0x100) as u8;
        proof {
            lemma_five_bytes(out@, acc as int, b0, b1, b2, b3, b4);
        }
        out.push(b0);
        out.push(b1);
        out.push(b2);
        out.push(b3);
        out.push(b4);
        g = g + 1;
    }
    proof {
        assert(vals.take(32) =~= vals);
    }
    Some(out)
}

/// A well-formed btih value stands for one hash.
pub proof fn law_btih_names_one_hash(s: Seq<u8>, a: Seq<u8>, b: Seq<u8>)
    requires
        btih_says(s, a),
        btih_says(s, b),
    ensures
        a == b,
{
    crate::base64::lemma_number_injective(a, b, 256);
}

/// Decode a btih value: 40 hex chars or 32 base32 chars, to 20 bytes.
fn parse_btih(value: &[u8]) -> (r: Option<[u8; 20]>)
    ensures
        match r {
            Some(h) => is_btih(value@) && btih_says(value@, h@) && h@ == btih_hash(value@),
            None => !is_btih(value@),
        },
{
    let bytes = if value.len() == 40 {
        decode_hex(value)
    } else if value.len() == 32 {
        decode_base32(value)
    } else {
        None
    };
    match bytes {
        None => None,
        Some(v) => {
            let mut h: [u8; 20] = [0u8; 20];
            let mut i: usize = 0;
            while i < 20
                invariant
                    i <= 20,
                    v@.len() == 20,
                    forall|j: int| 0 <= j < i ==> #[trigger] h@[j] == v@[j],
                decreases 20 - i,
            {
                h[i] = v[i];
                i = i + 1;
            }
            proof {
                assert(h@ =~= v@);
                law_btih_names_one_hash(value@, h@, btih_hash(value@));
            }
            Some(h)
        },
    }
}

// ---------------------------------------------------------------------------
// Links.

/// What is known of a link so far.
#[verifier::ext_equal]
pub struct Link {
    pub info_hash: Option<Seq<u8>>,
    pub display_name: Option<Seq<char>>,
    pub trackers: Seq<Seq<char>>,
    pub skipped: usize,
}

/// The text that a percent-encoded value stands for.
pub open spec fn value_text(v: Seq<char>) -> Seq<char> {
    lossy(percent_decoded(encode_utf8(v), 0))
}

/// What one more parameter says.
pub open spec fn parameter_in(l: Link, pair: Seq<char>) -> Result<Link, Error> {
    match split_once(pair, "="@) {
        None => Ok(l),
        Some((key, value)) => if key == "xt"@ {
            if starts(value, "urn:btih:"@) {
                let btih = encode_utf8(value.skip(9));
                if !is_btih(btih) {
                    Err(Error::BadInfoHash)
                } else if l.info_hash is Some && l.info_hash != Some(btih_hash(btih)) {
                    Err(Error::ConflictingInfoHash)
                } else {
                    Ok(Link { info_hash: Some(btih_hash(btih)), ..l })
                }
            } else {
                Ok(l)
            }
        } else if key == "dn"@ {
            Ok(Link { display_name: Some(value_text(value)), ..l })
        } else if key == "tr"@ {
            if url_parts(value_text(value)) is Some && l.trackers.len() < MAX_TRACKERS {
                Ok(Link { trackers: l.trackers.push(value_text(value)), ..l })
            } else {
                Ok(Link { skipped: bumped(l.skipped), ..l })
            }
        } else {
            Ok(l)
        },
    }
}

/// What the first `n` parameters say.
pub open spec fn parameters_in(pairs: Seq<Seq<char>>, n: int) -> Result<Link, Error>
    decreases n,
{
    if n <= 0 {
        Ok(Link { info_hash: None, display_name: None, trackers: Seq::empty(), skipped: 0 })
    } else {
        match parameters_in(pairs, n - 1) {
            Err(e) => Err(e),
            Ok(l) => parameter_in(l, pairs[n - 1]),
        }
    }
}

/// What a magnet link says; its info-hash is there.
pub open spec fn link_in(uri: Seq<char>) -> Result<Link, Error> {
    if !starts(uri, "magnet:?"@) {
        Err(Error::NotMagnet)
    } else {
        let pairs = split(uri.skip(8), "&"@);
        match parameters_in(pairs, pairs.len() as int) {
            Err(e) => Err(e),
            Ok(l) => if l.info_hash is None {
                Err(Error::NoInfoHash)
            } else {
                Ok(l)
            },
        }
    }
}

impl View for Magnet {
    type V = Link;

    open spec fn view(&self) -> Link {
        Link {
            info_hash: Some(self.info_hash@),
            display_name: match self.display_name {
                Some(s) => Some(s@),
                None => None,
            },
            trackers: names_view(self.trackers),
            skipped: self.skipped_trackers,
        }
    }
}

struct LinkState {
    info_hash: Option<[u8; 20]>,
    display_name: Option<String>,
    trackers: Vec<String>,
    skipped: usize,
}

spec fn link_of(s: LinkState) -> Link {
    Link {
        info_hash: match s.info_hash {
            Some(h) => Some(h@),
            None => None,
        },
        display_name: match s.display_name {
            Some(n) => Some(n@),
            None => None,
        },
        trackers: names_view(s.trackers),
        skipped: s.skipped,
    }
}

fn decode_value(v: &Vec<char>) -> (s: String)
    ensures
        s@ == value_text(v@),
{
    let text = string_of(v.as_slice());
    let bytes = percent_decode(text.as_str());
    lossy_text(bytes.as_slice())
}

fn parse_parameter(state: LinkState, pair: &[char]) -> (r: Result<LinkState, Error>)
    ensures
        match r {
            Ok(s) => parameter_in(link_of(state), pair@) == Ok::<Link, Error>(link_of(s)),
            Err(e) => parameter_in(link_of(state), pair@) == Err::<Link, Error>(e),
        },
{
    proof {
        reveal_strlit("=");
        reveal_strlit("urn:btih:");
        reveal_strlit("xt");
        reveal_strlit("dn");
        reveal_strlit("tr");
        assert("xt"@[0] == 'x' && "dn"@[0] == 'd' && "tr"@[0] == 't');
    }
    let (key, value) = match split_at_first(pair, chars_of("=").as_slice()) {
        Some(p) => p,
        None => return Ok(state),
    };
    let ghost before = link_of(state);
    let mut next = state;
    if is_text(key.as_slice(), "xt") {
        if starts_with(value.as_slice(), chars_of("urn:btih:").as_slice()) {
            let rest = copy_chars(value.as_slice(), 9, value.len());
            proof {
                assert(rest@ =~= value@.skip(9));
            }
            let text = string_of(rest.as_slice());
            let hash = match parse_btih(text.as_str().as_bytes()) {
                Some(h) => h,
                None => return Err(Error::BadInfoHash),
            };
            if let Some(seen) = next.info_hash {
                if !bytes_eq(seen.as_slice(), hash.as_slice()) {
                    return Err(Error::ConflictingInfoHash);
                }
            }
            next.info_hash = Some(hash);
        }
    } else if is_text(key.as_slice(), "dn") {
        next.display_name = Some(decode_value(&value));
    } else if is_text(key.as_slice(), "tr") {
        let url = decode_value(&value);
        if is_i2p_tracker(url.as_str()) && next.trackers.len() < MAX_TRACKERS {
            let ghost u = url@;
            next.trackers.push(url);
            proof {
                assert(names_view(next.trackers) =~= before.trackers.push(u));
            }
        } else {
            next.skipped = next.skipped.saturating_add(1);
        }
    }
    Ok(next)
}

proof fn lemma_parameters_fail(pairs: Seq<Seq<char>>, k: int, n: int)
    requires
        k <= n,
        parameters_in(pairs, k) is Err,
    ensures
        parameters_in(pairs, n) == parameters_in(pairs, k),
    decreases n - k,
{
    if k < n {
        lemma_parameters_fail(pairs, k, n - 1);
    }
}

impl Magnet {
    /// Parse a `magnet:?` link.
    pub fn parse(uri: &str) -> (r: Result<Magnet, Error>)
        ensures
            match r {
                Ok(m) => link_in(uri@) == Ok::<Link, Error>(m@),
                Err(e) => link_in(uri@) == Err::<Link, Error>(e),
            },
    {
        proof {
            reveal_strlit("magnet:?");
            reveal_strlit("&");
        }
        let chars = chars_of(uri);
        if !starts_with(chars.as_slice(), chars_of("magnet:?").as_slice()) {
            return Err(Error::NotMagnet);
        }
        let query = copy_chars(chars.as_slice(), 8, chars.len());
        proof {
            assert(query@ =~= uri@.skip(8));
        }
        let pairs = split_on(query.as_slice(), chars_of("&").as_slice());
        let ghost ps = texts(pairs@);
        let mut state = LinkState {
            info_hash: None,
            display_name: None,
            trackers: Vec::new(),
            skipped: 0,
        };
        proof {
            assert(names_view(state.trackers) =~= Seq::empty());
        }
        let mut i: usize = 0;
        while i < pairs.len()
            invariant
                i <= pairs@.len(),
                ps == texts(pairs@),
                ps == split(uri@.skip(8), "&"@),
                starts(uri@, "magnet:?"@),
                parameters_in(ps, i as int) == Ok::<Link, Error>(link_of(state)),
            decreases pairs.len() - i,
        {
            proof {
                assert(ps[i as int] == pairs@[i as int]@);
            }
            state = match parse_parameter(state, pairs[i].as_slice()) {
                Ok(s) => s,
                Err(e) => {
                    proof {
                        lemma_parameters_fail(ps, i as int + 1, ps.len() as int);
                    }
                    return Err(e);
                },
            };
            i = i + 1;
        }
        match state.info_hash {
            None => Err(Error::NoInfoHash),
            Some(info_hash) => Ok(
                Magnet {
                    info_hash,
                    display_name: state.display_name,
                    trackers: state.trackers,
                    skipped_trackers: state.skipped,
                },
            ),
        }
    }
}

// ---------------------------------------------------------------------------
// Making a torrent of a link.

/// One tier per URL, as a bencoded list.
pub open spec fn tier_each(urls: Seq<Seq<char>>) -> Seq<Tree> {
    Seq::new(urls.len(), |i: int| Tree::List(seq![Tree::Bytes(encode_utf8(urls[i]))]))
}

/// The torrent made of an info dictionary and tracker URLs.
pub open spec fn torrent_of(raw_info: Seq<u8>, urls: Seq<Seq<char>>) -> Seq<u8> {
    let announce = if urls.len() == 0 {
        Seq::empty()
    } else {
        "13:announce-list".spec_bytes() + encoding(Tree::List(tier_each(urls)))
    };
    "d".spec_bytes() + announce + "4:info".spec_bytes() + raw_info + "e".spec_bytes()
}

/// Build `.torrent` bytes from a fetched raw info dictionary plus the magnet's
/// tracker URLs, so a magnet add persists and reloads exactly like a file add.
/// The info bytes are embedded verbatim (the info-hash covers them), with an
/// `announce-list` of one tier per URL.
pub fn torrent_bytes(raw_info: &[u8], trackers: &Vec<String>) -> (out: Vec<u8>)
    ensures
        out@ == torrent_of(raw_info@, names_view(*trackers)),
{
    let mut out: Vec<u8> = Vec::new();
    push_all(&mut out, "d".as_bytes());
    if trackers.len() > 0 {
        push_all(&mut out, "13:announce-list".as_bytes());
        let mut tiers: Vec<Value> = Vec::new();
        let mut i: usize = 0;
        while i < trackers.len()
            invariant
                i <= trackers@.len(),
                tiers@.len() == i,
                forall|j: int|
                    0 <= j < i ==> (#[trigger] tiers@[j])@ == Tree::List(
                        seq![Tree::Bytes(encode_utf8(trackers@[j]@))],
                    ),
            decreases trackers.len() - i,
        {
            let mut tier: Vec<Value> = Vec::new();
            tier.push(Value::Bytes(text_bytes(trackers[i].as_str())));
            proof {
                assert(trees(tier) =~= seq![Tree::Bytes(encode_utf8(trackers@[i as int]@))]);
            }
            tiers.push(Value::List(tier));
            i = i + 1;
        }
        proof {
            assert(trees(tiers) =~= tier_each(names_view(*trackers)));
        }
        let list = bencode::encode(&Value::List(tiers));
        push_all(&mut out, list.as_slice());
    }
    push_all(&mut out, "4:info".as_bytes());
    push_all(&mut out, raw_info);
    push_all(&mut out, "e".as_bytes());
    proof {
        assert(out@ =~= torrent_of(raw_info@, names_view(*trackers)));
    }
    out
}


proof fn lemma_literals()
    ensures
        "d".spec_bytes() == seq![100u8],
        "e".spec_bytes() == seq![101u8],
        "4:info".spec_bytes() == bencode::bytes_encoding("info".spec_bytes()),
        "13:announce-list".spec_bytes() == bencode::bytes_encoding("announce-list".spec_bytes()),
        "info".spec_bytes().len() == 4,
        "announce-list".spec_bytes().len() == 13,
        "announce".spec_bytes().len() == 8,
        bencode::lex_less("announce-list".spec_bytes(), "info".spec_bytes()),
{
    reveal_strlit("d");
    reveal_strlit("e");
    reveal_strlit("4:info");
    reveal_strlit("info");
    reveal_strlit("13:announce-list");
    reveal_strlit("announce-list");
    reveal_strlit("announce");
    assert("d".is_ascii() && "e".is_ascii() && "4:info".is_ascii() && "info".is_ascii()
        && "13:announce-list".is_ascii() && "announce-list".is_ascii() && "announce".is_ascii());
    assert("d".spec_bytes() =~= seq![100u8]);
    assert("e".spec_bytes() =~= seq![101u8]);
    reveal_with_fuel(crate::decimal::decimal, 3);
    assert(crate::decimal::decimal(4) =~= seq![52u8]);
    assert(crate::decimal::decimal(13) =~= seq![49u8, 51u8]);
    assert("4:info".spec_bytes() =~= bencode::bytes_encoding("info".spec_bytes()));
    assert("13:announce-list".spec_bytes() =~= bencode::bytes_encoding(
        "announce-list".spec_bytes(),
    ));
    assert("announce-list".spec_bytes()[0] == 97 && "info".spec_bytes()[0] == 105);
}

/// What the announce list of such a torrent says: one tier for each URL.
proof fn lemma_tiers_back(urls: Seq<Seq<char>>, n: int)
    requires
        0 <= n <= urls.len() <= MAX_TRACKERS,
        forall|i: int| 0 <= i < urls.len() ==> url_parts(#[trigger] urls[i]) is Some,
    ensures
        tiers_in(tier_each(urls), n) == Ok::<
            (Seq<Seq<Seq<char>>>, nat, usize),
            crate::metainfo::Error,
        >((Seq::new(n as nat, |i: int| seq![urls[i]]), n as nat, 0usize)),
    decreases n,
{
    if n > 0 {
        lemma_tiers_back(urls, n - 1);
        let url = urls[n - 1];
        encode_utf8_valid_utf8(url);
        encode_utf8_decode_utf8(url);
        let tier = seq![Tree::Bytes(encode_utf8(url))];
        reveal_with_fuel(tier_in, 2);
        assert(url_parts(urls[n - 1]) is Some);
        assert(Seq::<Seq<char>>::empty().push(url) =~= seq![url]);
        assert(tier_in(tier, 1, (n - 1) as nat, 0) == Ok::<
            (Seq<Seq<char>>, nat, usize),
            crate::metainfo::Error,
        >((seq![url], n as nat, 0usize)));
        assert(Seq::new((n - 1) as nat, |i: int| seq![urls[i]]).push(seq![url]) =~= Seq::new(
            n as nat,
            |i: int| seq![urls[i]],
        ));
    } else {
        assert(Seq::new(0, |i: int| seq![urls[i]]) =~= Seq::empty());
    }
}

/// A torrent made of a link reloads as what it was made of: it parses, to what
/// the info dictionary says on its own, under the same raw bytes and the same
/// info-hash, with one tier for each tracker URL, in order, and none skipped.
pub proof fn law_made_torrent_reloads(raw: Seq<u8>, alone: Meta, urls: Seq<Seq<char>>)
    requires
        info_meta_in(raw) == Ok::<Meta, crate::metainfo::Error>(alone),
        urls.len() <= MAX_TRACKERS,
        forall|i: int| 0 <= i < urls.len() ==> url_parts(#[trigger] urls[i]) is Some,
        forall|i: int| 0 <= i < urls.len() ==> encode_utf8(#[trigger] urls[i]).len() <= usize::MAX,
    ensures
        meta_in(torrent_of(raw, urls)) == Ok::<Meta, crate::metainfo::Error>(
            (Meta {
                trackers: Seq::new(urls.len(), |i: int| seq![urls[i]]),
                skipped_trackers: 0,
                ..alone
            }),
        ),
        alone.raw_info == raw,
        alone.info_hash == sha1_of(raw),
{
    crate::metainfo::law_info_dict_is_taken_whole(raw, alone);
    crate::metainfo::lemma_info_alone(raw, alone);
    lemma_made_torrent(raw, decoded(raw)->Ok_0, urls);
}

/// What a made torrent parses as.
#[verifier::rlimit(60)]
#[verifier::spinoff_prover]
proof fn lemma_made_torrent(raw: Seq<u8>, t: Tree, urls: Seq<Seq<char>>)
    requires
        bencode::value_at(raw, 0, 1) == Ok::<(Tree, int), bencode::Error>(
            (t, raw.len() as int),
        ),
        t is Dict,
        urls.len() <= MAX_TRACKERS,
        forall|i: int| 0 <= i < urls.len() ==> url_parts(#[trigger] urls[i]) is Some,
        forall|i: int| 0 <= i < urls.len() ==> encode_utf8(#[trigger] urls[i]).len() <= usize::MAX,
    ensures
        exists|root: Tree| #[trigger]
            meta_of(root, t, raw) == meta_in(torrent_of(raw, urls)) && trackers_in(root) == Ok::<
                (Seq<Seq<Seq<char>>>, usize),
                crate::metainfo::Error,
            >((Seq::new(urls.len(), |i: int| seq![urls[i]]), 0usize)),
{
    lemma_literals();
    let s = torrent_of(raw, urls);
    let ki = "info".spec_bytes();
    let ka = "announce-list".spec_bytes();
    let ienc = bencode::bytes_encoding(ki);
    let e0: Seq<(Seq<u8>, Tree)> = Seq::empty();
    assert(s[0] == 100);
    crate::decimal::lemma_decimal(4);
    crate::decimal::lemma_decimal(13);
    let (e1, p) = if urls.len() == 0 {
        (e0, 1int)
    } else {
        let list = Tree::List(tier_each(urls));
        (
            bencode::with_entry(e0, ka, list),
            1 + bencode::bytes_encoding(ka).len() as int + encoding(list).len() as int,
        )
    };
    if urls.len() > 0 {
        let list = Tree::List(tier_each(urls));
        let aenc = bencode::bytes_encoding(ka);
        let mid = 1 + aenc.len() as int;
        assert(s.subrange(1, mid) =~= aenc);
        assert(s.subrange(mid, mid + encoding(list).len()) =~= encoding(list));
        bencode::lemma_bytes_back(s, 1, ka);
        assert(list.well_formed() && list.fits(31)) by {
            let items = tier_each(urls);
            assert forall|i: int| 0 <= i < items.len() implies (#[trigger] items[i]).well_formed()
                && items[i].fits(30) by {
                assert(encode_utf8(urls[i]).len() <= usize::MAX);
                let inner = seq![Tree::Bytes(encode_utf8(urls[i]))];
                assert(inner[0].well_formed());
                assert(inner[0].fits(29));
                assert(Tree::List(inner).well_formed());
                assert(Tree::List(inner).fits(30));
            }
        }
        bencode::lemma_value_round(s, mid, 1, list);
        assert(bencode::entries_at(s, 1, 1, e0) == bencode::entries_at(s, p, 1, e1));
        assert(e1 =~= seq![(ka, list)]);
    }
    let q = p + ienc.len() as int;
    let end = q + raw.len() as int;
    assert(s.subrange(p, q) =~= ienc);
    assert(s[end] == 101);
    assert(s.len() == end + 1);
    bencode::lemma_bytes_back(s, p, ki);
    assert(bencode::stands_at(raw, s, q));
    bencode::lemma_value_embedded(raw, s, q, 0, 1);
    assert(bencode::value_at(s, q, 1) == Ok::<(Tree, int), bencode::Error>((t, end)));
    bencode::lemma_lex_irreflexive(ki);
    assert(!bencode::has_key(e1, ki));
    let e2 = bencode::with_entry(e1, ki, t);
    assert(bencode::entries_at(s, p, 1, e1) == bencode::entries_at(s, end, 1, e2));
    assert(bencode::entries_at(s, end, 1, e2) == Ok::<
        (Seq<(Seq<u8>, Tree)>, int),
        bencode::Error,
    >((e2, end + 1)));
    let root = Tree::Dict(e2);
    assert(decoded(s) == Ok::<Tree, bencode::Error>(root));
    assert(s.subrange(q, end) =~= raw);
    // Where the info bytes stand.
    assert(bencode::entry_span_at(s, p, ki) == Some((q, end)));
    assert(bencode::entry_span(s, ki) == Some((q, end)));
    bencode::law_raw_entry_spans_the_value(s, ki, root);
    // What the dictionary holds.
    if urls.len() == 0 {
        assert(e2 =~= seq![(ki, t)]);
        reveal_with_fuel(bencode::lookup, 2);
        assert(e2.drop_last().len() == 0);
        assert(root.get(ka) is None);
        assert(root.get("announce".spec_bytes()) is None);
        assert(Seq::new(urls.len(), |i: int| seq![urls[i]]) =~= Seq::<Seq<Seq<char>>>::empty());
    } else {
        let list = Tree::List(tier_each(urls));
        reveal_with_fuel(bencode::rank, 2);
        assert(e2 =~= seq![(ka, list), (ki, t)]);
        reveal_with_fuel(bencode::lookup, 3);
        assert(e2.drop_last() =~= seq![(ka, list)]);
        assert(root.get(ka) == Some(list));
        lemma_tiers_back(urls, urls.len() as int);
    }
    assert(root.get(ki) == Some(t)) by {
        reveal_with_fuel(bencode::lookup, 2);
    }
    assert(meta_of(root, t, raw) == meta_in(s));
}

// ---------------------------------------------------------------------------
// What a link says, parameter by parameter.

/// A btih value is 40 digits of `0-9`, `a-f`, `A-F`, or 32 of `a-z`, `A-Z`,
/// `2-7`.
pub proof fn law_well_formed_btih(s: Seq<u8>)
    ensures
        is_btih(s) <==> (s.len() == 40 && forall|i: int|
            0 <= i < 40 ==> 48 <= #[trigger] s[i] <= 57 || 97 <= s[i] <= 102 || 65 <= s[i] <= 70)
            || (s.len() == 32 && forall|i: int|
            0 <= i < 32 ==> 97 <= #[trigger] s[i] <= 122 || 65 <= s[i] <= 90 || 50 <= s[i] <= 55),
{
}

proof fn lemma_hex_pairs(hash: Seq<u8>, vals: Seq<u8>, n: int)
    requires
        0 <= n <= 20,
        hash.len() == 20,
        vals.len() == 40,
        forall|i: int| 0 <= i < 40 ==> #[trigger] vals[i] < 16,
        number(hash.take(n), 256) == number(vals.take(2 * n), 16),
    ensures
        forall|i: int| 0 <= i < n ==> #[trigger] hash[i] == vals[2 * i] * 16 + vals[2 * i + 1],
    decreases n,
{
    if n > 0 {
        lemma_number_push(hash.take(n - 1), hash[n - 1], 256);
        lemma_number_push(vals.take(2 * n - 2), vals[2 * n - 2], 16);
        lemma_number_push(vals.take(2 * n - 2).push(vals[2 * n - 2]), vals[2 * n - 1], 16);
        assert(hash.take(n) =~= hash.take(n - 1).push(hash[n - 1]));
        assert(vals.take(2 * n) =~= vals.take(2 * n - 2).push(vals[2 * n - 2]).push(
            vals[2 * n - 1],
        ));
        assert(vals[2 * n - 2] < 16 && vals[2 * n - 1] < 16);
        lemma_hex_pairs(hash, vals, n - 1);
    }
}

/// In the form of 40 digits, each byte of the hash is two digits, the first of
/// them worth sixteen times as much.
pub proof fn law_hexadecimal_btih(s: Seq<u8>, hash: Seq<u8>)
    requires
        s.len() == 40,
        is_btih(s),
        btih_says(s, hash),
    ensures
        ({
            let digit = |b: u8|
                if b <= 57 {
                    b - 48
                } else if b >= 97 {
                    b - 87
                } else {
                    b - 55
                };
            &&& hash.len() == 20
            &&& forall|i: int|
                0 <= i < 20 ==> #[trigger] hash[i] == digit(s[2 * i]) * 16 + digit(s[2 * i + 1])
        }),
{
    let vals = hex_values(s);
    assert forall|i: int| 0 <= i < 40 implies #[trigger] vals[i] < 16 by {
        assert(hex_value(s[i]) is Some);
    }
    assert(hash.take(20) =~= hash);
    assert(vals.take(40) =~= vals);
    lemma_hex_pairs(hash, vals, 20);
    assert forall|i: int| 0 <= i < 20 implies #[trigger] hash[i] == (if s[2 * i] <= 57 {
        s[2 * i] - 48
    } else if s[2 * i] >= 97 {
        s[2 * i] - 87
    } else {
        s[2 * i] - 55
    }) * 16 + (if s[2 * i + 1] <= 57 {
        s[2 * i + 1] - 48
    } else if s[2 * i + 1] >= 97 {
        s[2 * i + 1] - 87
    } else {
        s[2 * i + 1] - 55
    }) by {
        assert(hex_value(s[2 * i]) is Some);
        assert(hex_value(s[2 * i + 1]) is Some);
    }
}

/// The forty bits that eight base32 symbols from `at` on stand for.
pub open spec fn forty_bits(s: Seq<u8>, at: int) -> int {
    let five = |b: u8|
        if b <= 57 {
            b - 24
        } else if b >= 97 {
            b - 97
        } else {
            b - 65
        };
    ((((((five(s[at]) * 32 + five(s[at + 1])) * 32 + five(s[at + 2])) * 32 + five(s[at + 3])) * 32
        + five(s[at + 4])) * 32 + five(s[at + 5])) * 32 + five(s[at + 6])) * 32 + five(s[at + 7])
}

proof fn lemma_eight_symbols(o: Seq<u8>, v: Seq<u8>)
    requires
        v.len() == 8,
    ensures
        number(o + v, 32) == number(o, 32) * 0x100_0000_0000 + (((((((v[0] * 32 + v[1]) * 32 + v[2])
            * 32 + v[3]) * 32 + v[4]) * 32 + v[5]) * 32 + v[6]) * 32 + v[7]),
{
    lemma_number_push(o, v[0], 32);
    lemma_number_push(o.push(v[0]), v[1], 32);
    lemma_number_push(o.push(v[0]).push(v[1]), v[2], 32);
    let p = o.push(v[0]).push(v[1]).push(v[2]);
    lemma_number_push(p, v[3], 32);
    lemma_number_push(p.push(v[3]), v[4], 32);
    lemma_number_push(p.push(v[3]).push(v[4]), v[5], 32);
    let q = p.push(v[3]).push(v[4]).push(v[5]);
    lemma_number_push(q, v[6], 32);
    lemma_number_push(q.push(v[6]), v[7], 32);
    assert(o + v =~= q.push(v[6]).push(v[7]));
}

proof fn lemma_base32_groups(hash: Seq<u8>, s: Seq<u8>, g: int)
    requires
        0 <= g <= 4,
        hash.len() == 20,
        s.len() == 32,
        forall|i: int| 0 <= i < 32 ==> base32_value(#[trigger] s[i]) is Some,
        number(hash.take(5 * g), 256) == number(base32_values(s).take(8 * g), 32),
    ensures
        forall|i: int|
            0 <= i < g ==> (((hash[5 * i] * 256 + hash[5 * i + 1]) * 256 + hash[5 * i + 2]) * 256
                + hash[5 * i + 3]) * 256 + hash[5 * i + 4] == #[trigger] forty_bits(s, 8 * i),
    decreases g,
{
    if g > 0 {
        let vals = base32_values(s);
        let h = 5 * (g - 1);
        let at = 8 * (g - 1);
        let o = hash.take(h);
        let acc = (((hash[h] * 256 + hash[h + 1]) * 256 + hash[h + 2]) * 256 + hash[h + 3]) * 256
            + hash[h + 4];
        lemma_five_bytes(o, acc, hash[h], hash[h + 1], hash[h + 2], hash[h + 3], hash[h + 4]);
        assert(hash.take(5 * g) =~= o.push(hash[h]).push(hash[h + 1]).push(hash[h + 2]).push(
            hash[h + 3],
        ).push(hash[h + 4]));
        let v = vals.subrange(at, at + 8);
        assert(vals.take(8 * g) =~= vals.take(at) + v);
        lemma_eight_symbols(vals.take(at), v);
        assert forall|k: int| 0 <= k < 8 implies #[trigger] v[k] < 32 && v[k] == base32_value(
            s[at + k],
        )->Some_0 by {
            assert(base32_value(s[at + k]) is Some);
        }
        assert(base32_value(s[at]) is Some && base32_value(s[at + 1]) is Some && base32_value(
            s[at + 2],
        ) is Some && base32_value(s[at + 3]) is Some && base32_value(s[at + 4]) is Some
            && base32_value(s[at + 5]) is Some && base32_value(s[at + 6]) is Some && base32_value(
            s[at + 7],
        ) is Some);
        let bits = ((((((v[0] * 32 + v[1]) * 32 + v[2]) * 32 + v[3]) * 32 + v[4]) * 32 + v[5]) * 32
            + v[6]) * 32 + v[7];
        assert(bits == forty_bits(s, at));
        assert(number(o, 256) == number(vals.take(at), 32) && acc == bits) by (nonlinear_arith)
            requires
                number(o, 256) * 0x100_0000_0000 + acc == number(vals.take(at), 32)
                    * 0x100_0000_0000 + bits,
                0 <= acc < 0x100_0000_0000,
                0 <= bits < 0x100_0000_0000,
        ;
        lemma_base32_groups(hash, s, g - 1);
    }
}

/// In the form of 32 symbols, each five bytes of the hash are eight symbols of
/// five bits: `a` to `z`, in either case, are 0 to 25, and `2` to `7` are 26 to
/// 31.
pub proof fn law_base32_btih(s: Seq<u8>, hash: Seq<u8>)
    requires
        s.len() == 32,
        is_btih(s),
        btih_says(s, hash),
    ensures
        hash.len() == 20,
        forall|i: int|
            0 <= i < 4 ==> (((hash[5 * i] * 256 + hash[5 * i + 1]) * 256 + hash[5 * i + 2]) * 256
                + hash[5 * i + 3]) * 256 + hash[5 * i + 4] == #[trigger] forty_bits(s, 8 * i),
{
    assert(hash.take(20) =~= hash);
    assert(base32_values(s).take(32) =~= base32_values(s));
    lemma_base32_groups(hash, s, 4);
}

proof fn lemma_parameter_names()
    ensures
        "="@ == seq!['='],
        "xt"@.len() == 2 && "xt"@[0] == 'x' && "xt"@[1] == 't',
        "dn"@.len() == 2 && "dn"@[0] == 'd' && "dn"@[1] == 'n',
        "tr"@.len() == 2 && "tr"@[0] == 't' && "tr"@[1] == 'r',
        "urn:btih:"@.len() == 9,
        "xt=urn:btih:"@ == "xt"@ + seq!['='] + "urn:btih:"@,
        "dn="@ == "dn"@ + seq!['='],
        "tr="@ == "tr"@ + seq!['='],
{
    reveal_strlit("=");
    reveal_strlit("xt");
    reveal_strlit("dn");
    reveal_strlit("tr");
    reveal_strlit("urn:btih:");
    reveal_strlit("xt=urn:btih:");
    reveal_strlit("dn=");
    reveal_strlit("tr=");
    assert("="@ =~= seq!['=']);
    assert("xt=urn:btih:"@ =~= "xt"@ + seq!['='] + "urn:btih:"@);
    assert("dn="@ =~= "dn"@ + seq!['=']);
    assert("tr="@ =~= "tr"@ + seq!['=']);
}

proof fn lemma_prefixed(pair: Seq<char>, prefix: Seq<char>, v: Seq<char>)
    ensures
        pair == prefix + v ==> starts(pair, prefix) && pair.skip(prefix.len() as int) == v,
        starts(pair, prefix) ==> pair == prefix + pair.skip(prefix.len() as int),
{
    if pair == prefix + v {
        assert(pair.take(prefix.len() as int) =~= prefix);
        assert(pair.skip(prefix.len() as int) =~= v);
    }
    if starts(pair, prefix) {
        assert(pair =~= prefix + pair.skip(prefix.len() as int));
    }
}

/// What one parameter adds. `xt=urn:btih:` and a hash give the info-hash, and
/// must agree with the one known already; `dn=` gives the display name; `tr=`
/// one more tracker if it is one to dial and there are fewer than sixteen, and
/// one more skipped otherwise. A percent-encoded value is decoded.
pub proof fn law_what_a_parameter_adds(l: Link, v: Seq<char>)
    ensures
        ({
            let said = lossy(percent_decoded(encode_utf8(v), 0));
            let hash = parameter_in(l, "xt=urn:btih:"@ + v);
            let name = parameter_in(l, "dn="@ + v);
            let tracker = parameter_in(l, "tr="@ + v);
            &&& !is_btih(encode_utf8(v)) ==> hash == Err::<Link, Error>(Error::BadInfoHash)
            &&& is_btih(encode_utf8(v)) && l.info_hash is None ==> hash is Ok && hash->Ok_0
                == (Link { info_hash: hash->Ok_0.info_hash, ..l }) && hash->Ok_0.info_hash is Some
                && btih_says(encode_utf8(v), hash->Ok_0.info_hash->Some_0)
            &&& is_btih(encode_utf8(v)) && l.info_hash is Some && btih_says(
                encode_utf8(v),
                l.info_hash->Some_0,
            ) ==> hash == Ok::<Link, Error>(l)
            &&& is_btih(encode_utf8(v)) && l.info_hash is Some && !btih_says(
                encode_utf8(v),
                l.info_hash->Some_0,
            ) ==> hash == Err::<Link, Error>(Error::ConflictingInfoHash)
            &&& name == Ok::<Link, Error>(Link { display_name: Some(said), ..l })
            &&& tracker == Ok::<Link, Error>(
                if url_parts(said) is Some && l.trackers.len() < 16 {
                    Link { trackers: l.trackers.push(said), ..l }
                } else if l.skipped < usize::MAX {
                    Link { skipped: (l.skipped + 1) as usize, ..l }
                } else {
                    l
                },
            )
        }),
{
    lemma_parameter_names();
    let urn = "urn:btih:"@ + v;
    assert("xt=urn:btih:"@ + v =~= "xt"@ + seq!['='] + urn);
    assert("dn="@ + v =~= "dn"@ + seq!['='] + v);
    assert("tr="@ + v =~= "tr"@ + seq!['='] + v);
    law_key_and_value_are_cut("xt"@, '=', urn);
    law_key_and_value_are_cut("dn"@, '=', v);
    law_key_and_value_are_cut("tr"@, '=', v);
    assert(urn.skip(9) =~= v);
    assert(urn.take(9) =~= "urn:btih:"@);
    if is_btih(encode_utf8(v)) {
        lemma_btih_has_a_hash(encode_utf8(v));
        if l.info_hash is Some && btih_says(encode_utf8(v), l.info_hash->Some_0) {
            law_btih_names_one_hash(
                encode_utf8(v),
                l.info_hash->Some_0,
                btih_hash(encode_utf8(v)),
            );
        }
    }
}

/// What is neither of the three adds nothing.
pub proof fn law_other_parameters_are_passed_over(l: Link, pair: Seq<char>)
    requires
        !starts(pair, "xt=urn:btih:"@),
        !starts(pair, "dn="@),
        !starts(pair, "tr="@),
    ensures
        parameter_in(l, pair) == Ok::<Link, Error>(l),
{
    lemma_parameter_names();
    law_cut_at_the_first(pair, '=');
    if let Some((key, value)) = split_once(pair, "="@) {
        if key == "dn"@ {
            lemma_prefixed(pair, "dn="@, value);
        } else if key == "tr"@ {
            lemma_prefixed(pair, "tr="@, value);
        } else if key == "xt"@ && starts(value, "urn:btih:"@) {
            lemma_prefixed(value, "urn:btih:"@, value.skip(9));
            assert(pair =~= "xt=urn:btih:"@ + value.skip(9));
            lemma_prefixed(pair, "xt=urn:btih:"@, value.skip(9));
        }
    }
}

spec fn byte_digits(n: nat, k: nat) -> Seq<u8>
    decreases k,
{
    if k == 0 {
        Seq::empty()
    } else {
        byte_digits(n / 256, (k - 1) as nat).push((n % 256) as u8)
    }
}

proof fn lemma_byte_digits(n: nat, k: nat)
    requires
        n < vstd::arithmetic::power::pow(256, k),
    ensures
        byte_digits(n, k).len() == k,
        number(byte_digits(n, k), 256) == n,
    decreases k,
{
    reveal(vstd::arithmetic::power::pow);
    if k > 0 {
        let p = vstd::arithmetic::power::pow(256, (k - 1) as nat);
        assert(n / 256 < p) by (nonlinear_arith)
            requires
                n < 256 * p,
        ;
        lemma_byte_digits(n / 256, (k - 1) as nat);
        lemma_number_push(byte_digits(n / 256, (k - 1) as nat), (n % 256) as u8, 256);
    }
}

proof fn lemma_number_bound(s: Seq<u8>, base: nat)
    requires
        base > 0,
        forall|i: int| 0 <= i < s.len() ==> #[trigger] s[i] < base,
    ensures
        number(s, base) < vstd::arithmetic::power::pow(base as int, s.len()),
    decreases s.len(),
{
    reveal(vstd::arithmetic::power::pow);
    if s.len() > 0 {
        let t = s.drop_last();
        assert forall|i: int| 0 <= i < t.len() implies #[trigger] t[i] < base by {
            assert(t[i] == s[i]);
        }
        lemma_number_bound(t, base);
        let p = vstd::arithmetic::power::pow(base as int, t.len());
        let x = number(t, base);
        let d = s.last() as nat;
        assert(x * base + d < base * p) by (nonlinear_arith)
            requires
                x < p,
                d < base,
        ;
    }
}

/// A well-formed value stands for some hash: 160 bits are 160 bits.
proof fn lemma_btih_has_a_hash(s: Seq<u8>)
    requires
        is_btih(s),
    ensures
        btih_says(s, btih_hash(s)),
{
    reveal(vstd::arithmetic::power::pow);
    reveal_with_fuel(vstd::arithmetic::power::pow, 41);
    let n = if s.len() == 40 {
        number(hex_values(s), 16)
    } else {
        number(base32_values(s), 32)
    };
    if s.len() == 40 {
        let vals = hex_values(s);
        assert forall|i: int| 0 <= i < vals.len() implies #[trigger] vals[i] < 16 by {
            assert(hex_value(s[i]) is Some);
        }
        lemma_number_bound(vals, 16);
    } else {
        let vals = base32_values(s);
        assert forall|i: int| 0 <= i < vals.len() implies #[trigger] vals[i] < 32 by {
            assert(base32_value(s[i]) is Some);
        }
        lemma_number_bound(vals, 32);
    }
    assert(vstd::arithmetic::power::pow(16, 40) == vstd::arithmetic::power::pow(256, 20));
    assert(vstd::arithmetic::power::pow(32, 32) == vstd::arithmetic::power::pow(256, 20));
    lemma_byte_digits(n, 20);
    assert(btih_says(s, byte_digits(n, 20)));
}

/// What an accepted link says of itself: it starts `magnet:?`, has an info-hash
/// which every `xt=urn:btih:` in it stands for, and keeps at most sixteen
/// trackers, all of them trackers to dial.
pub proof fn law_accepted_link(uri: Seq<char>, l: Link, i: int, v: Seq<char>)
    requires
        link_in(uri) == Ok::<Link, Error>(l),
    ensures
        starts(uri, "magnet:?"@),
        l.info_hash is Some,
        ({
            let pairs = split(uri.skip(8), "&"@);
            0 <= i < pairs.len() && pairs[i] == "xt=urn:btih:"@ + v ==> is_btih(encode_utf8(v))
                && btih_says(encode_utf8(v), l.info_hash->Some_0)
        }),
        l.trackers.len() <= 16,
        forall|k: int| 0 <= k < l.trackers.len() ==> url_parts(#[trigger] l.trackers[k]) is Some,
{
    let pairs = split(uri.skip(8), "&"@);
    lemma_link_so_far(pairs, pairs.len() as int, i, v);
}

proof fn lemma_link_so_far(pairs: Seq<Seq<char>>, n: int, i: int, v: Seq<char>)
    requires
        0 <= n <= pairs.len(),
    ensures
        parameters_in(pairs, n) matches Ok(l) ==> {
            &&& 0 <= i < n && pairs[i] == "xt=urn:btih:"@ + v ==> is_btih(encode_utf8(v))
                && l.info_hash is Some && btih_says(encode_utf8(v), l.info_hash->Some_0)
            &&& l.trackers.len() <= 16
            &&& forall|k: int|
                0 <= k < l.trackers.len() ==> url_parts(#[trigger] l.trackers[k]) is Some
        },
    decreases n,
{
    if n > 0 {
        lemma_link_so_far(pairs, n - 1, i, v);
        if let Ok(l) = parameters_in(pairs, n - 1) {
            let pair = pairs[n - 1];
            lemma_kept_trackers(l, pair);
            if i == n - 1 && pair == "xt=urn:btih:"@ + v {
                law_what_a_parameter_adds(l, v);
            } else if 0 <= i < n - 1 && pairs[i] == "xt=urn:btih:"@ + v {
                lemma_hash_stays(l, pair);
            }
        }
    }
}

proof fn lemma_hash_stays(l: Link, pair: Seq<char>)
    requires
        l.info_hash is Some,
    ensures
        parameter_in(l, pair) matches Ok(next) ==> next.info_hash == l.info_hash,
{
}

proof fn lemma_kept_trackers(l: Link, pair: Seq<char>)
    requires
        l.trackers.len() <= 16,
        forall|k: int| 0 <= k < l.trackers.len() ==> url_parts(#[trigger] l.trackers[k]) is Some,
    ensures
        parameter_in(l, pair) matches Ok(next) ==> next.trackers.len() <= 16 && forall|k: int|
            0 <= k < next.trackers.len() ==> url_parts(#[trigger] next.trackers[k]) is Some,
{
}

/// When a link is refused: for not starting `magnet:?`, and for naming no hash
/// although nothing else is wrong with it.
pub proof fn law_refused_link(uri: Seq<char>)
    ensures
        !starts(uri, "magnet:?"@) <==> link_in(uri) == Err::<Link, Error>(Error::NotMagnet),
        starts(uri, "magnet:?"@) && (forall|i: int|
            0 <= i < split(uri.skip(8), "&"@).len() ==> !starts(
                #[trigger] split(uri.skip(8), "&"@)[i],
                "xt=urn:btih:"@,
            )) ==> link_in(uri) == Err::<Link, Error>(Error::NoInfoHash),
{
    let pairs = split(uri.skip(8), "&"@);
    lemma_not_not_magnet(pairs, pairs.len() as int);
    if forall|i: int|
        0 <= i < pairs.len() ==> !starts(#[trigger] pairs[i], "xt=urn:btih:"@) {
        lemma_nothing_named(pairs, pairs.len() as int);
    }
}

proof fn lemma_not_not_magnet(pairs: Seq<Seq<char>>, n: int)
    ensures
        parameters_in(pairs, n) != Err::<Link, Error>(Error::NotMagnet),
    decreases n,
{
    if n > 0 {
        lemma_not_not_magnet(pairs, n - 1);
    }
}

proof fn lemma_nothing_named(pairs: Seq<Seq<char>>, n: int)
    requires
        0 <= n <= pairs.len(),
        forall|i: int| 0 <= i < pairs.len() ==> !starts(#[trigger] pairs[i], "xt=urn:btih:"@),
    ensures
        parameters_in(pairs, n) matches Ok(l) && l.info_hash is None,
    decreases n,
{
    if n > 0 {
        lemma_nothing_named(pairs, n - 1);
        let l = parameters_in(pairs, n - 1)->Ok_0;
        let pair = pairs[n - 1];
        if starts(pair, "dn="@) {
            lemma_prefixed(pair, "dn="@, pair);
            lemma_parameter_names();
            law_what_a_parameter_adds(l, pair.skip(3));
        } else if starts(pair, "tr="@) {
            lemma_prefixed(pair, "tr="@, pair);
            lemma_parameter_names();
            law_what_a_parameter_adds(l, pair.skip(3));
        } else {
            law_other_parameters_are_passed_over(l, pair);
        }
    }
}

} // verus!
