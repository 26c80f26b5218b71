//! i2p peer exchange (`i2p_pex`).
//!
//! Peers periodically tell each other about other peers they know, so a swarm
//! can grow without every client hammering the tracker. The I2P form is a
//! bencoded dict with `added` and `dropped` byte strings, each a concatenation
//! of 32-byte destination hashes. Any extra keys a peer sends are ignored.
//!
//! A message advertising a huge peer set is rejected, and misaligned hash
//! strings are errors, not best-effort guesses.
use vstd::prelude::*;
#[allow(unused_imports)]
use vstd::string::*;
use crate::bencode;
use crate::bencode::{
    decoded, encoding, law_stored_is_found, lemma_sound_dict_round, lemma_stored_sound, stored,
    Dict, Tree, Value,
};
use crate::dest::{
    law_packing_is_injective, lemma_packed_len, pack, packed, unpack, unpacked, DestHash,
};
use crate::strings::text_bytes;

verus! {

/// Largest number of peers clove accepts in one PEX message across `added`
/// and `dropped` combined. A message over this is treated as spam and
/// rejected.
pub const MAX_PEX_PEERS: usize = 512;

/// A decoded (or to-be-sent) `i2p_pex` message.
#[derive(Clone, Debug, PartialEq, Eq)]
pub struct PexMessage {
    /// Peers the sender newly knows about.
    pub added: Vec<DestHash>,
    /// Peers the sender has dropped.
    pub dropped: Vec<DestHash>,
}

/// Why an `i2p_pex` message was rejected.
#[derive(Clone, Copy, Debug, PartialEq, Eq)]
pub enum Error {
    /// Not valid bencode, wrong field type, or a misaligned hash string.
    Malformed,
    /// More peers than [`MAX_PEX_PEERS`]: treated as spam.
    TooManyPeers,
}

impl Error {
    /// What was wrong, in words.
    pub fn message(&self) -> (r: String)
        ensures
            r@ == (match *self {
                Error::Malformed => "i2p_pex: malformed message"@,
                Error::TooManyPeers => "i2p_pex: too many peers (spam)"@,
            }),
    {
        match self {
            Error::Malformed => "i2p_pex: malformed message".to_owned(),
            Error::TooManyPeers => "i2p_pex: too many peers (spam)".to_owned(),
        }
    }
}

/// The dictionary that carries a message.
pub open spec fn pex_entries(added: Seq<DestHash>, dropped: Seq<DestHash>) -> Seq<(Seq<u8>, Tree)> {
    stored(
        stored(Seq::empty(), "added".spec_bytes(), Tree::Bytes(packed(added))),
        "dropped".spec_bytes(),
        Tree::Bytes(packed(dropped)),
    )
}

/// Whether a field is whole hashes, or absent.
pub open spec fn is_hashes(t: Option<Tree>) -> bool {
    match t {
        Some(Tree::Bytes(b)) => b.len() % 32 == 0,
        Some(_) => false,
        None => true,
    }
}

/// Whether `s` is the hashes in a field; an absent field has none.
pub open spec fn hashes_in(t: Option<Tree>, s: Seq<DestHash>) -> bool {
    match t {
        Some(Tree::Bytes(b)) => unpacked(b, s),
        _ => s.len() == 0,
    }
}

/// How many hashes a field holds.
pub open spec fn hash_count(t: Option<Tree>) -> nat {
    match t {
        Some(Tree::Bytes(b)) => b.len() / 32,
        _ => 0,
    }
}

/// Whether a payload is a dictionary whose two fields are whole hashes.
pub open spec fn aligned(payload: Seq<u8>) -> bool {
    decoded(payload) matches Ok(root) && is_hashes(root.get("added".spec_bytes())) && is_hashes(
        root.get("dropped".spec_bytes()),
    )
}

/// How many hashes a payload holds in all.
pub open spec fn peer_count(payload: Seq<u8>) -> nat {
    let root = decoded(payload)->Ok_0;
    hash_count(root.get("added".spec_bytes())) + hash_count(root.get("dropped".spec_bytes()))
}

/// Whether a payload is a message that is not spam.
pub open spec fn acceptable(payload: Seq<u8>) -> bool {
    aligned(payload) && peer_count(payload) <= MAX_PEX_PEERS
}

/// The peers a message adds.
pub open spec fn added_in(payload: Seq<u8>) -> Seq<DestHash> {
    choose|s: Seq<DestHash>| hashes_in(decoded(payload)->Ok_0.get("added".spec_bytes()), s)
}

/// A field holds one list of hashes.
pub proof fn lemma_hashes_unique(t: Option<Tree>, a: Seq<DestHash>, b: Seq<DestHash>)
    requires
        hashes_in(t, a),
        hashes_in(t, b),
    ensures
        a == b,
{
    match t {
        Some(Tree::Bytes(_)) => {
            law_packing_is_injective(a, b);
        },
        _ => {
            assert(a =~= b);
        },
    }
}

impl Default for PexMessage {
    fn default() -> (m: PexMessage)
        ensures
            m.added@ == Seq::<DestHash>::empty(),
            m.dropped@ == Seq::<DestHash>::empty(),
    {
        PexMessage { added: Vec::new(), dropped: Vec::new() }
    }
}

impl PexMessage {
    /// Whether this message carries nothing (skip sending it).
    pub fn is_empty(&self) -> (r: bool)
        ensures
            r == (self.added@.len() == 0 && self.dropped@.len() == 0),
    {
        self.added.len() == 0 && self.dropped.len() == 0
    }

    /// Encode as the payload of the negotiated `i2p_pex` extended message.
    pub fn encode(&self) -> (r: Vec<u8>)
        ensures
            r@ == encoding(Tree::Dict(pex_entries(self.added@, self.dropped@))),
    {
        let mut root = Dict::new();
        let _ = root.insert(text_bytes("added"), Value::Bytes(pack(&self.added)));
        let _ = root.insert(text_bytes("dropped"), Value::Bytes(pack(&self.dropped)));
        bencode::encode(&Value::Dict(root))
    }

    /// Parse an `i2p_pex` payload.
    pub fn parse(payload: &[u8]) -> (r: Result<PexMessage, Error>)
        ensures
            match r {
                Ok(m) => aligned(payload@) && peer_count(payload@) <= MAX_PEX_PEERS && hashes_in(
                    decoded(payload@)->Ok_0.get("added".spec_bytes()),
                    m.added@,
                ) && hashes_in(
                    decoded(payload@)->Ok_0.get("dropped".spec_bytes()),
                    m.dropped@,
                ),
                Err(Error::Malformed) => !aligned(payload@),
                Err(Error::TooManyPeers) => aligned(payload@) && peer_count(payload@)
                    > MAX_PEX_PEERS,
            },
    {
        let root = match bencode::decode(payload) {
            Ok(v) => v,
            Err(_) => return Err(Error::Malformed),
        };
        let added = match unpack_field(root.get("added".as_bytes())) {
            Some(v) => v,
            None => return Err(Error::Malformed),
        };
        let dropped = match unpack_field(root.get("dropped".as_bytes())) {
            Some(v) => v,
            None => return Err(Error::Malformed),
        };
        if dropped.len() > MAX_PEX_PEERS || added.len() > MAX_PEX_PEERS - dropped.len() {
            return Err(Error::TooManyPeers);
        }
        Ok(PexMessage { added, dropped })
    }
}

/// Decode a concatenated-hash field. An absent field is empty.
fn unpack_field(field: Option<&Value>) -> (r: Option<Vec<DestHash>>)
    ensures
        ({
            let t = match field {
                Some(v) => Some(v@),
                None => None,
            };
            match r {
                Some(s) => is_hashes(t) && hashes_in(t, s@) && s@.len() == hash_count(t),
                None => !is_hashes(t),
            }
        }),
{
    match field {
        Some(v) => match v.as_bytes() {
            Some(b) => unpack(b),
            None => None,
        },
        None => Some(Vec::new()),
    }
}

/// A message within the cap is read back as it was sent: whatever a parser
/// makes of its fields is what went into them.
pub proof fn law_pex_round_trip(added: Seq<DestHash>, dropped: Seq<DestHash>)
    requires
        added.len() + dropped.len() <= MAX_PEX_PEERS,
    ensures
        ({
            let payload = encoding(Tree::Dict(pex_entries(added, dropped)));
            let root = decoded(payload)->Ok_0;
            &&& acceptable(payload)
            &&& peer_count(payload) == added.len() + dropped.len()
            &&& hashes_in(root.get("added".spec_bytes()), added)
            &&& hashes_in(root.get("dropped".spec_bytes()), dropped)
            &&& forall|a: Seq<DestHash>|
                #[trigger] hashes_in(root.get("added".spec_bytes()), a) ==> a == added
            &&& forall|d: Seq<DestHash>|
                #[trigger] hashes_in(root.get("dropped".spec_bytes()), d) ==> d == dropped
        }),
{
    reveal_strlit("added");
    reveal_strlit("dropped");
    assert("added".is_ascii() && "dropped".is_ascii());
    let k1 = "added".spec_bytes();
    let k2 = "dropped".spec_bytes();
    assert(k1.len() == 5 && k2.len() == 7);
    let t1 = Tree::Bytes(packed(added));
    let t2 = Tree::Bytes(packed(dropped));
    lemma_packed_len(added);
    lemma_packed_len(dropped);
    let e0: Seq<(Seq<u8>, Tree)> = Seq::empty();
    let e1 = stored(e0, k1, t1);
    law_stored_is_found(e0, k1, t1, k1);
    lemma_stored_sound(e0, k1, t1, 31);
    law_stored_is_found(e1, k2, t2, k1);
    law_stored_is_found(e1, k2, t2, k2);
    lemma_stored_sound(e1, k2, t2, 31);
    lemma_sound_dict_round(pex_entries(added, dropped), 31);
    let root = decoded(encoding(Tree::Dict(pex_entries(added, dropped))))->Ok_0;
    assert forall|a: Seq<DestHash>| #[trigger] hashes_in(root.get(k1), a) implies a == added by {
        lemma_hashes_unique(root.get(k1), a, added);
    }
    assert forall|d: Seq<DestHash>| #[trigger] hashes_in(root.get(k2), d) implies d == dropped by {
        lemma_hashes_unique(root.get(k2), d, dropped);
    }
}

} // verus!
