//! The extension protocol's handshake (the `Extended` id-0 message).
//!
//! Shared negotiation layer for the extensions clove speaks: `i2p_pex` (peer
//! exchange, [`crate::pex`]) and `ut_metadata` ([`crate::metadata`]). Each
//! side sends an id-0 extended message whose bencoded payload carries an `m`
//! dict mapping extension *names* to the message ids that side will listen
//! on; you send an extension using the id the *peer* advertised for it.
use vstd::prelude::*;
#[allow(unused_imports)]
use vstd::string::*;
#[allow(unused_imports)]
use vstd::utf8::*;
use crate::bencode;
use crate::bencode::{
    decoded, encoding, law_stored_is_found, lemma_sound_dict_round,
    lemma_stored_sound, lex_less, sound_entries, stored, Dict, Tree, Value,
};
use crate::strings::{text_bytes, text_eq, utf8_text};

verus! {

/// Extension name for i2p peer exchange.
pub const I2P_PEX: &'static str = "i2p_pex";

/// Extension name for metadata exchange.
pub const UT_METADATA: &'static str = "ut_metadata";

/// A parsed (or to-be-sent) extension handshake.
#[derive(Clone, Debug, PartialEq, Eq)]
pub struct Handshake {
    /// Extension names, each with the message id the sender listens on for
    /// it. Of two ids for one name the later counts.
    pub ids: Vec<(String, u8)>,
    /// Total size of the info dictionary, advertised by peers that can serve
    /// metadata. `None` if absent.
    pub metadata_size: Option<usize>,
    /// The sender's client name/version (`v` key), if present.
    pub client: Option<String>,
}

/// Why an extension handshake could not be parsed.
#[derive(Clone, Copy, Debug, PartialEq, Eq)]
pub enum Error {
    /// Not valid bencode, or an `m` entry that is not a valid id.
    Malformed,
}

impl Error {
    /// What was wrong, in words.
    pub fn message(&self) -> (r: String)
        ensures
            r@ == "extension: malformed BEP 10 handshake"@,
    {
        "extension: malformed BEP 10 handshake".to_owned()
    }
}

// ---------------------------------------------------------------------------
// The model.

/// What a [`Handshake`] stands for.
#[verifier::ext_equal]
pub struct Offer {
    pub ids: Seq<(Seq<char>, u8)>,
    pub metadata_size: Option<usize>,
    pub client: Option<Seq<char>>,
}

impl View for Handshake {
    type V = Offer;

    open spec fn view(&self) -> Offer {
        Offer {
            ids: Seq::new(self.ids@.len(), |i: int| (self.ids@[i].0@, self.ids@[i].1)),
            metadata_size: self.metadata_size,
            client: match self.client {
                Some(s) => Some(s@),
                None => None,
            },
        }
    }
}

/// The id listed for `name`, the last if there are several.
pub open spec fn id_listed(ids: Seq<(Seq<char>, u8)>, name: Seq<char>) -> Option<u8>
    decreases ids.len(),
{
    if ids.len() == 0 {
        None
    } else if ids.last().0 == name {
        Some(ids.last().1)
    } else {
        id_listed(ids.drop_last(), name)
    }
}

/// The `m` dictionary of the first `n` ids.
pub open spec fn m_entries(ids: Seq<(Seq<char>, u8)>, n: int) -> Seq<(Seq<u8>, Tree)>
    decreases n,
{
    if n <= 0 {
        Seq::empty()
    } else {
        stored(m_entries(ids, n - 1), encode_utf8(ids[n - 1].0), Tree::Int(ids[n - 1].1 as int))
    }
}

/// A size as a bencoded integer can hold it.
pub open spec fn clamped(n: usize) -> int {
    if n <= i64::MAX {
        n as int
    } else {
        i64::MAX as int
    }
}

/// The entries of the handshake's dictionary.
pub open spec fn root_entries(o: Offer) -> Seq<(Seq<u8>, Tree)> {
    let m = stored(
        Seq::empty(),
        "m".spec_bytes(),
        Tree::Dict(m_entries(o.ids, o.ids.len() as int)),
    );
    let sized = match o.metadata_size {
        Some(n) => stored(m, "metadata_size".spec_bytes(), Tree::Int(clamped(n))),
        None => m,
    };
    match o.client {
        Some(c) => stored(sized, "v".spec_bytes(), Tree::Bytes(encode_utf8(c))),
        None => sized,
    }
}

/// Whether an `m` entry is an id: zero, which means unsupported, or a number
/// a byte can hold under a name that is text.
pub open spec fn is_id(entry: (Seq<u8>, Tree)) -> bool {
    match entry.1 {
        Tree::Int(i) => i == 0 || (0 < i <= 255 && valid_utf8(entry.0)),
        _ => false,
    }
}

/// The ids among the first `n` entries of an `m` dictionary, those that are
/// zero left out.
pub open spec fn ids_in(m: Seq<(Seq<u8>, Tree)>, n: int) -> Seq<(Seq<char>, u8)>
    decreases n,
{
    if n <= 0 {
        Seq::empty()
    } else if m[n - 1].1 == Tree::Int(0) {
        ids_in(m, n - 1)
    } else {
        ids_in(m, n - 1).push((decode_utf8(m[n - 1].0), m[n - 1].1->Int_0 as u8))
    }
}

/// The size under `metadata_size`, if it is one.
pub open spec fn size_in(t: Option<Tree>) -> Option<usize> {
    match t {
        Some(Tree::Int(n)) => if 0 <= n <= usize::MAX {
            Some(n as usize)
        } else {
            None
        },
        _ => None,
    }
}

/// The text under a key, if it is some.
pub open spec fn text_in(t: Option<Tree>) -> Option<Seq<char>> {
    match t {
        Some(Tree::Bytes(b)) => if valid_utf8(b) {
            Some(decode_utf8(b))
        } else {
            None
        },
        _ => None,
    }
}

/// The entries of a handshake's `m` dictionary: none when there is no `m`, and
/// no answer when `m` is something else.
pub open spec fn m_of(root: Tree) -> Option<Seq<(Seq<u8>, Tree)>> {
    match root.get("m".spec_bytes()) {
        Some(Tree::Dict(m)) => Some(m),
        Some(_) => None,
        None => Some(Seq::empty()),
    }
}

/// Whether every entry of an `m` dictionary is an id.
pub open spec fn all_ids(m: Seq<(Seq<u8>, Tree)>) -> bool {
    forall|i: int| 0 <= i < m.len() ==> is_id(#[trigger] m[i])
}

/// The handshake that a payload stands for. A payload without an `m` offers no
/// extensions; an `m` that is not a dictionary of ids is malformed.
pub open spec fn offer_in(payload: Seq<u8>) -> Result<Offer, Error> {
    match decoded(payload) {
        Err(_) => Err(Error::Malformed),
        Ok(root) => match m_of(root) {
            Some(m) => if all_ids(m) {
                Ok(
                    Offer {
                        ids: ids_in(m, m.len() as int),
                        metadata_size: size_in(root.get("metadata_size".spec_bytes())),
                        client: text_in(root.get("v".spec_bytes())),
                    },
                )
            } else {
                Err(Error::Malformed)
            },
            None => Err(Error::Malformed),
        },
    }
}

// ---------------------------------------------------------------------------
// The operations.

impl Default for Handshake {
    fn default() -> (h: Handshake)
        ensures
            h@ == (Offer { ids: Seq::empty(), metadata_size: None, client: None }),
    {
        let h = Handshake { ids: Vec::new(), metadata_size: None, client: None };
        proof {
            assert(h@.ids =~= Seq::empty());
        }
        h
    }
}

impl Handshake {
    /// The message id the peer listens on for extension `name`, if it
    /// advertised support.
    pub fn id_for(&self, name: &str) -> (r: Option<u8>)
        ensures
            r == id_listed(self@.ids, name@),
    {
        let mut i: usize = self.ids.len();
        proof {
            assert(self@.ids.take(i as int) =~= self@.ids);
        }
        while i > 0
            invariant
                i <= self.ids@.len(),
                id_listed(self@.ids, name@) == id_listed(self@.ids.take(i as int), name@),
            decreases i,
        {
            i = i - 1;
            proof {
                assert(self@.ids.take(i as int + 1).drop_last() =~= self@.ids.take(i as int));
            }
            if text_eq(self.ids[i].0.as_str(), name) {
                return Some(self.ids[i].1);
            }
        }
        None
    }

    /// Encode as the payload of an id-0 extended message.
    pub fn encode(&self) -> (r: Vec<u8>)
        ensures
            r@ == encoding(Tree::Dict(root_entries(self@))),
    {
        let mut m = Dict::new();
        let mut i: usize = 0;
        while i < self.ids.len()
            invariant
                i <= self.ids@.len(),
                m@ == m_entries(self@.ids, i as int),
            decreases self.ids.len() - i,
        {
            let _ = m.insert(text_bytes(self.ids[i].0.as_str()), Value::Int(self.ids[i].1 as i64));
            i = i + 1;
        }
        let mut root = Dict::new();
        let _ = root.insert(text_bytes("m"), Value::Dict(m));
        if let Some(size) = self.metadata_size {
            let n: i64 = if size as u64 <= i64::MAX as u64 {
                size as i64
            } else {
                i64::MAX
            };
            let _ = root.insert(text_bytes("metadata_size"), Value::Int(n));
        }
        if let Some(client) = &self.client {
            let _ = root.insert(text_bytes("v"), Value::Bytes(text_bytes(client.as_str())));
        }
        bencode::encode(&Value::Dict(root))
    }

    /// Parse the payload of an id-0 extended message. A missing `m` is taken as
    /// "no extensions"; an `m` that is not a dictionary of small non-negative
    /// ids is malformed.
    pub fn parse(payload: &[u8]) -> (r: Result<Handshake, Error>)
        ensures
            match r {
                Ok(h) => offer_in(payload@) == Ok::<Offer, Error>(h@),
                Err(e) => offer_in(payload@) == Err::<Offer, Error>(e),
            },
    {
        let root = match bencode::decode(payload) {
            Ok(v) => v,
            Err(_) => return Err(Error::Malformed),
        };
        let mut ids: Vec<(String, u8)> = Vec::new();
        let ghost m0 = m_of(root@)->Some_0;
        let listed = root.get("m".as_bytes());
        if let Some(Value::Dict(m)) = listed {
            let mut i: usize = 0;
            proof {
                assert(names_of(ids@) =~= Seq::empty());
            }
            while i < m.len()
                invariant
                    m@ == m0,
                    i <= m0.len(),
                    names_of(ids@) == ids_in(m0, i as int),
                    forall|j: int| 0 <= j < i ==> is_id(#[trigger] m0[j]),
                    m_of(root@) == Some(m0),
                    decoded(payload@) == Ok::<Tree, bencode::Error>(root@),
                decreases m0.len() - i,
            {
                let ghost had = names_of(ids@);
                let id: i64 = match m.value_at(i).as_int() {
                    Some(n) => n,
                    None => {
                        proof {
                            assert(!is_id(m0[i as int]));
                        }
                        return Err(Error::Malformed);
                    },
                };
                if id != 0 {
                    if id < 0 || id > 255 {
                        proof {
                            assert(!is_id(m0[i as int]));
                        }
                        return Err(Error::Malformed);
                    }
                    match utf8_text(m.key_at(i).as_slice()) {
                        Some(name) => {
                            ids.push((name.to_owned(), id as u8));
                            proof {
                                assert(names_of(ids@) =~= had.push(
                                    (decode_utf8(m0[i as int].0), id as u8),
                                ));
                            }
                        },
                        None => {
                            proof {
                                assert(!is_id(m0[i as int]));
                            }
                            return Err(Error::Malformed);
                        },
                    }
                }
                i = i + 1;
            }
        } else {
            if listed.is_some() {
                return Err(Error::Malformed);
            }
            proof {
                assert(names_of(ids@) =~= ids_in(m0, 0));
            }
        }
        let metadata_size = match root.get("metadata_size".as_bytes()) {
            Some(v) => match v.as_int() {
                Some(n) => if n >= 0 && n as u64 <= usize::MAX as u64 {
                    Some(n as usize)
                } else {
                    None
                },
                None => None,
            },
            None => None,
        };
        let client = match root.get("v".as_bytes()) {
            Some(v) => match v.as_str() {
                Some(s) => Some(s.to_owned()),
                None => None,
            },
            None => None,
        };
        let h = Handshake { ids, metadata_size, client };
        proof {
            assert(h@.ids == names_of(ids@));
        }
        Ok(h)
    }
}

spec fn names_of(ids: Seq<(String, u8)>) -> Seq<(Seq<char>, u8)> {
    Seq::new(ids.len(), |i: int| (ids[i].0@, ids[i].1))
}

// ---------------------------------------------------------------------------
// What parsing owes encoding.

/// Whether an offer is in the form that parsing gives: names ascending by
/// their bytes, no id zero, and a size that a bencoded integer can hold.
pub open spec fn tidy(o: Offer) -> bool {
    &&& forall|i: int, j: int|
        0 <= i < j < o.ids.len() ==> lex_less(
            encode_utf8((#[trigger] o.ids[i]).0),
            encode_utf8((#[trigger] o.ids[j]).0),
        )
    &&& forall|i: int| 0 <= i < o.ids.len() ==> (#[trigger] o.ids[i]).1 != 0
    &&& forall|i: int|
        0 <= i < o.ids.len() ==> encode_utf8((#[trigger] o.ids[i]).0).len() <= usize::MAX
    &&& o.metadata_size matches Some(n) ==> n <= i64::MAX
    &&& o.client matches Some(c) ==> encode_utf8(c).len() <= usize::MAX
}

spec fn listed(ids: Seq<(Seq<char>, u8)>, n: int) -> Seq<(Seq<u8>, Tree)> {
    Seq::new(n as nat, |i: int| (encode_utf8(ids[i].0), Tree::Int(ids[i].1 as int)))
}

proof fn lemma_m_entries(o: Offer, n: int)
    requires
        tidy(o),
        0 <= n <= o.ids.len(),
    ensures
        m_entries(o.ids, n) == listed(o.ids, n),
        sound_entries(listed(o.ids, n), 30),
    decreases n,
{
    if n > 0 {
        lemma_m_entries(o, n - 1);
        let e = listed(o.ids, n - 1);
        let key = encode_utf8(o.ids[n - 1].0);
        let t = Tree::Int(o.ids[n - 1].1 as int);
        assert forall|i: int| 0 <= i < e.len() implies lex_less((#[trigger] e[i]).0, key) by {
            assert(lex_less(encode_utf8(o.ids[i].0), encode_utf8(o.ids[n - 1].0)));
        }
        bencode::lemma_stored_last(e, key, t);
        assert(stored(e, key, t) =~= listed(o.ids, n));
        lemma_stored_sound(e, key, t, 30);
    } else {
        assert(listed(o.ids, 0) =~= Seq::empty());
    }
}

proof fn lemma_ids_back(o: Offer, n: int)
    requires
        tidy(o),
        0 <= n <= o.ids.len(),
    ensures
        ids_in(listed(o.ids, o.ids.len() as int), n) == o.ids.take(n),
        forall|i: int|
            0 <= i < o.ids.len() ==> is_id(#[trigger] listed(o.ids, o.ids.len() as int)[i]),
    decreases n,
{
    let m = listed(o.ids, o.ids.len() as int);
    assert forall|i: int| 0 <= i < o.ids.len() implies is_id(#[trigger] m[i]) by {
        assert(o.ids[i].1 != 0);
        encode_utf8_valid_utf8(o.ids[i].0);
    }
    if n > 0 {
        lemma_ids_back(o, n - 1);
        assert(o.ids[n - 1].1 != 0);
        encode_utf8_decode_utf8(o.ids[n - 1].0);
        assert(o.ids.take(n) =~= o.ids.take(n - 1).push(o.ids[n - 1]));
    } else {
        assert(o.ids.take(0) =~= Seq::empty());
    }
}

proof fn lemma_keys_differ()
    ensures
        "m".spec_bytes().len() == 1,
        "v".spec_bytes().len() == 1,
        "metadata_size".spec_bytes().len() == 13,
        "m".spec_bytes() != "v".spec_bytes(),
{
    reveal_strlit("m");
    reveal_strlit("v");
    reveal_strlit("metadata_size");
    assert("m".is_ascii() && "v".is_ascii() && "metadata_size".is_ascii());
    assert("m".spec_bytes()[0] == 109);
    assert("v".spec_bytes()[0] == 118);
}

/// A handshake is read back as it was sent.
pub proof fn law_handshake_round_trip(o: Offer)
    requires
        tidy(o),
    ensures
        offer_in(encoding(Tree::Dict(root_entries(o)))) == Ok::<Offer, Error>(o),
{
    let n = o.ids.len() as int;
    lemma_keys_differ();
    lemma_m_entries(o, n);
    lemma_ids_back(o, n);
    assert(o.ids.take(n) =~= o.ids);
    let km = "m".spec_bytes();
    let ks = "metadata_size".spec_bytes();
    let kv = "v".spec_bytes();
    let tm = Tree::Dict(listed(o.ids, n));
    let e0: Seq<(Seq<u8>, Tree)> = Seq::empty();
    let e1 = stored(e0, km, tm);
    assert(tm.fits(31));
    law_stored_is_found(e0, km, tm, km);
    law_stored_is_found(e0, km, tm, ks);
    law_stored_is_found(e0, km, tm, kv);
    lemma_stored_sound(e0, km, tm, 31);
    let e2 = match o.metadata_size {
        Some(s) => stored(e1, ks, Tree::Int(clamped(s))),
        None => e1,
    };
    if let Some(s) = o.metadata_size {
        let t = Tree::Int(clamped(s));
        law_stored_is_found(e1, ks, t, km);
        law_stored_is_found(e1, ks, t, ks);
        law_stored_is_found(e1, ks, t, kv);
        lemma_stored_sound(e1, ks, t, 31);
    }
    let e3 = root_entries(o);
    if let Some(c) = o.client {
        let t = Tree::Bytes(encode_utf8(c));
        law_stored_is_found(e2, kv, t, km);
        law_stored_is_found(e2, kv, t, ks);
        law_stored_is_found(e2, kv, t, kv);
        lemma_stored_sound(e2, kv, t, 31);
        encode_utf8_valid_utf8(c);
        encode_utf8_decode_utf8(c);
    }
    lemma_sound_dict_round(e3, 31);
    assert(offer_in(encoding(Tree::Dict(e3)))->Ok_0 =~= o);
}

} // verus!
