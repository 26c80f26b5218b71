//! The formats that leave the program, key by key and byte by byte: what stands
//! where, and what it means.
use vstd::prelude::*;
#[allow(unused_imports)]
use vstd::string::*;
#[allow(unused_imports)]
use vstd::utf8::*;
use crate::bencode::{
    ascending, bytes_encoding, decoded, encoding, entries_encoding, items_encoding,
    law_stored_is_found, lex_less, lookup, value_at, Tree, Value,
};
use crate::decimal::{decimal, decimal_text};
use crate::dest::{packed, DestHash};
use crate::extension::{id_listed, ids_in, m_entries, offer_in, root_entries, Offer};
use crate::http::percent_encoded;
use crate::metadata::{header_of, message_bytes, message_in, MetaMsg, MetadataMessage};
use crate::pex::{acceptable, pex_entries};
use crate::resume::{fields_of, saved_in, Saved};
use crate::tracker::{
    announce_fault, backoff, later, reply_fault, reply_says, Answer, Event, Failure, Schedule,
};

verus! {

// ---------------------------------------------------------------------------
// Numbers and bencode.

/// A number in decimal: one digit for each power of ten, the most significant
/// first, with no zero in front.
pub proof fn law_decimal_notation(n: nat)
    ensures
        n < 10 ==> decimal(n) == seq![(48 + n) as u8],
        n >= 10 ==> decimal(n).drop_last() == decimal(n / 10) && decimal(n).last() == 48 + n % 10,
        decimal_text(n).len() == decimal(n).len(),
        forall|i: int|
            0 <= i < decimal(n).len() ==> #[trigger] decimal_text(n)[i] as u32 == decimal(n)[i],
{
    crate::decimal::lemma_decimal(n);
    if n >= 10 {
        assert(decimal(n).drop_last() =~= decimal(n / 10));
    }
}

/// How each value is written: an integer between `i` and `e`, a byte string
/// behind its length and a colon, a list between `l` and `e`, a dictionary
/// between `d` and `e`.
pub proof fn law_bencode_notation(v: Value)
    ensures
        match v {
            Value::Int(i) => encoding(v@) == seq![105u8] + (if i < 0 {
                seq![45u8] + decimal((-i) as nat)
            } else {
                decimal(i as nat)
            }) + seq![101u8],
            Value::Bytes(b) => encoding(v@) == decimal(b@.len()) + seq![58u8] + b@,
            Value::List(items) => encoding(v@) == seq![108u8] + items_encoding(
                Seq::new(items@.len(), |i: int| items@[i]@),
            ) + seq![101u8],
            Value::Dict(d) => encoding(v@) == seq![100u8] + entries_encoding(d@) + seq![101u8],
        },
{
    match v {
        Value::Bytes(b) => {
            assert(encoding(v@) =~= decimal(b@.len()) + seq![58u8] + b@);
        },
        Value::List(items) => {
            assert(crate::bencode::trees(items) =~= Seq::new(
                items@.len(),
                |i: int| items@[i]@,
            ));
        },
        _ => {},
    }
}

/// What stands in a list and in a dictionary: the items, one behind the other,
/// and the keys, each with its value behind it.
pub proof fn law_bencode_containers(
    items: Seq<Tree>,
    t: Tree,
    e: Seq<(Seq<u8>, Tree)>,
    key: Seq<u8>,
)
    ensures
        items_encoding(Seq::empty()) == Seq::<u8>::empty(),
        items_encoding(items.push(t)) == items_encoding(items) + encoding(t),
        entries_encoding(Seq::empty()) == Seq::<u8>::empty(),
        entries_encoding(e.push((key, t))) == entries_encoding(e) + (decimal(key.len())
            + seq![58u8] + key) + encoding(t),
{
    assert(items.push(t).drop_last() =~= items);
    assert(e.push((key, t)).drop_last() =~= e);
    assert(bytes_encoding(key) =~= decimal(key.len()) + seq![58u8] + key);
}

/// The order of keys: the first byte that differs decides, and what ends first
/// comes first.
pub proof fn law_key_order(a: Seq<u8>, b: Seq<u8>, n: int)
    requires
        0 <= n <= a.len(),
        n <= b.len(),
        forall|i: int| 0 <= i < n ==> a[i] == b[i],
    ensures
        n == a.len() ==> (lex_less(a, b) <==> a.len() < b.len()),
        n == b.len() ==> !lex_less(a, b),
        n < a.len() && n < b.len() && a[n] != b[n] ==> (lex_less(a, b) <==> a[n] < b[n]),
    decreases n,
{
    if n > 0 {
        let x = a.drop_first();
        let y = b.drop_first();
        assert forall|i: int| 0 <= i < n - 1 implies x[i] == y[i] by {
            assert(a[i + 1] == b[i + 1]);
        }
        law_key_order(x, y, n - 1);
    }
}

/// How a byte is written in a query: as it is if it is a letter, a digit, `-`,
/// `_`, `.` or `~`, else as `%` and two hexadecimal digits in capitals.
pub proof fn law_percent_notation(s: Seq<u8>, b: u8)
    ensures
        percent_encoded(Seq::empty()) == Seq::<char>::empty(),
        percent_encoded(s.push(b)) == percent_encoded(s) + (if (48 <= b <= 57) || (65 <= b <= 90)
            || (97 <= b <= 122) || b == 45 || b == 95 || b == 46 || b == 126 {
            seq![b as char]
        } else {
            seq![
                '%',
                (if b / 16 < 10 {
                    (48 + b / 16) as char
                } else {
                    (55 + b / 16) as char
                }),
                (if b % 16 < 10 {
                    (48 + b % 16) as char
                } else {
                    (55 + b % 16) as char
                }),
            ]
        }),
{
    assert(s.push(b).drop_last() =~= s);
}

// ---------------------------------------------------------------------------
// Metadata exchange.

proof fn lemma_meta_keys()
    ensures
        "msg_type".spec_bytes().len() == 8,
        "piece".spec_bytes().len() == 5,
        "total_size".spec_bytes().len() == 10,
{
    reveal_strlit("msg_type");
    reveal_strlit("piece");
    reveal_strlit("total_size");
    assert("msg_type".is_ascii() && "piece".is_ascii() && "total_size".is_ascii());
}

/// What a metadata message looks like: a dictionary with `msg_type` 0 for a
/// request, 1 for data and 2 for a refusal, the index under `piece`, for data
/// the size of the whole under `total_size`, and behind it the data.
pub proof fn law_metadata_messages_are_keyed(m: MetadataMessage) -> (e: Seq<(Seq<u8>, Tree)>)
    ensures
        message_bytes(m@) == encoding(Tree::Dict(e)) + (match m {
            MetadataMessage::Data { data, .. } => data@,
            _ => Seq::empty(),
        }),
        lookup(e, "msg_type".spec_bytes()) == Some(
            Tree::Int(
                match m {
                    MetadataMessage::Request { .. } => 0,
                    MetadataMessage::Data { .. } => 1,
                    MetadataMessage::Reject { .. } => 2,
                },
            ),
        ),
        lookup(e, "piece".spec_bytes()) == Some(
            Tree::Int(
                match m {
                    MetadataMessage::Request { piece } => piece as int,
                    MetadataMessage::Data { piece, .. } => piece as int,
                    MetadataMessage::Reject { piece } => piece as int,
                },
            ),
        ),
        lookup(e, "total_size".spec_bytes()) == (match m {
            MetadataMessage::Data { total_size, .. } => Some(Tree::Int(total_size as int)),
            _ => None,
        }),
{
    lemma_meta_keys();
    let (kind, piece, total) = match m {
        MetadataMessage::Request { piece } => (0int, piece, None::<u32>),
        MetadataMessage::Data { piece, total_size, data } => (1int, piece, Some(total_size)),
        MetadataMessage::Reject { piece } => (2int, piece, None::<u32>),
    };
    let e = header_of(kind, piece, total);
    let none: Seq<(Seq<u8>, Tree)> = Seq::empty();
    let one = crate::bencode::stored(none, "msg_type".spec_bytes(), Tree::Int(kind));
    let two = crate::bencode::stored(one, "piece".spec_bytes(), Tree::Int(piece as int));
    assert forall|k: Seq<u8>| true implies #[trigger] lookup(two, k) == (if k
        == "piece".spec_bytes() {
        Some(Tree::Int(piece as int))
    } else if k == "msg_type".spec_bytes() {
        Some(Tree::Int(kind))
    } else {
        None
    }) by {
        law_stored_is_found(none, "msg_type".spec_bytes(), Tree::Int(kind), k);
        law_stored_is_found(one, "piece".spec_bytes(), Tree::Int(piece as int), k);
    }
    law_stored_is_found(none, "msg_type".spec_bytes(), Tree::Int(kind), none_key());
    law_stored_is_found(one, "piece".spec_bytes(), Tree::Int(piece as int), none_key());
    if let Some(n) = total {
        assert forall|k: Seq<u8>| true implies #[trigger] lookup(e, k) == (if k
            == "total_size".spec_bytes() {
            Some(Tree::Int(n as int))
        } else {
            lookup(two, k)
        }) by {
            law_stored_is_found(two, "total_size".spec_bytes(), Tree::Int(n as int), k);
        }
    }
    assert(message_bytes(m@) =~= encoding(Tree::Dict(e)) + (match m {
        MetadataMessage::Data { data, .. } => data@,
        _ => Seq::empty(),
    }));
    e
}

spec fn none_key() -> Seq<u8> {
    Seq::empty()
}

/// What a metadata message that is read says is what its dictionary holds, and
/// data is what follows the dictionary, 16 KiB at most.
pub proof fn law_metadata_messages_are_read(payload: Seq<u8>, m: MetaMsg)
    requires
        message_in(payload) == Ok::<MetaMsg, crate::metadata::Error>(m),
    ensures
        ({
            let (header, end) = value_at(payload, 0, 0)->Ok_0;
            let kind = header.get("msg_type".spec_bytes());
            let index = header.get("piece".spec_bytes());
            match m {
                MetaMsg::Request { piece } => kind == Some(Tree::Int(0)) && index == Some(
                    Tree::Int(piece as int),
                ),
                MetaMsg::Data { piece, total_size, data } => kind == Some(Tree::Int(1)) && index
                    == Some(Tree::Int(piece as int)) && header.get("total_size".spec_bytes())
                    == Some(Tree::Int(total_size as int)) && data == payload.skip(end)
                    && payload.len() - end <= 16384,
                MetaMsg::Reject { piece } => kind == Some(Tree::Int(2)) && index == Some(
                    Tree::Int(piece as int),
                ),
            }
        }),
{
}

// ---------------------------------------------------------------------------
// Peer exchange.

/// Hashes stand one behind the other, 32 bytes each.
pub proof fn law_hashes_stand_in_a_row(s: Seq<DestHash>, i: int, k: int)
    requires
        0 <= i < s.len(),
        0 <= k < 32,
    ensures
        packed(s).len() == 32 * s.len(),
        packed(s)[32 * i + k] == s[i].0@[k],
    decreases s.len(),
{
    crate::dest::lemma_packed_len(s);
    crate::dest::lemma_packed_len(s.drop_last());
    if i < s.len() - 1 {
        law_hashes_stand_in_a_row(s.drop_last(), i, k);
    }
}

/// A peer exchange message carries the peers added under `added` and those
/// dropped under `dropped`.
pub proof fn law_peer_exchange_is_keyed(added: Seq<DestHash>, dropped: Seq<DestHash>)
    ensures
        lookup(pex_entries(added, dropped), "added".spec_bytes()) == Some(
            Tree::Bytes(packed(added)),
        ),
        lookup(pex_entries(added, dropped), "dropped".spec_bytes()) == Some(
            Tree::Bytes(packed(dropped)),
        ),
{
    reveal_strlit("added");
    reveal_strlit("dropped");
    assert("added".is_ascii() && "dropped".is_ascii());
    let none: Seq<(Seq<u8>, Tree)> = Seq::empty();
    let one = crate::bencode::stored(none, "added".spec_bytes(), Tree::Bytes(packed(added)));
    law_stored_is_found(
        none,
        "added".spec_bytes(),
        Tree::Bytes(packed(added)),
        "added".spec_bytes(),
    );
    law_stored_is_found(
        one,
        "dropped".spec_bytes(),
        Tree::Bytes(packed(dropped)),
        "added".spec_bytes(),
    );
    law_stored_is_found(
        one,
        "dropped".spec_bytes(),
        Tree::Bytes(packed(dropped)),
        "dropped".spec_bytes(),
    );
    assert("added".spec_bytes().len() == 5 && "dropped".spec_bytes().len() == 7);
}

/// A peer exchange message is taken if its two fields are whole hashes, or
/// absent, and it names no more than 512 peers in all.
pub proof fn law_acceptable_peer_exchange(payload: Seq<u8>)
    ensures
        ({
            let root = decoded(payload)->Ok_0;
            let whole = |t: Option<Tree>|
                match t {
                    Some(Tree::Bytes(b)) => b.len() % 32 == 0,
                    Some(_) => false,
                    None => true,
                };
            let count = |t: Option<Tree>|
                match t {
                    Some(Tree::Bytes(b)) => (b.len() / 32) as int,
                    _ => 0int,
                };
            let a = root.get("added".spec_bytes());
            let d = root.get("dropped".spec_bytes());
            acceptable(payload) <==> decoded(payload) is Ok && whole(a) && whole(d) && count(a)
                + count(d) <= 512
        }),
{
}

// ---------------------------------------------------------------------------
// The extension handshake.

/// What an extension handshake looks like: the ids under `m`, the size of the
/// metadata under `metadata_size` and the client under `v`, the latter two if
/// they are known.
pub proof fn law_extension_handshake_is_keyed(o: Offer)
    ensures
        ({
            let e = root_entries(o);
            &&& lookup(e, "m".spec_bytes()) == Some(
                Tree::Dict(m_entries(o.ids, o.ids.len() as int)),
            )
            &&& lookup(e, "metadata_size".spec_bytes()) == (match o.metadata_size {
                Some(n) => Some(
                    Tree::Int(
                        if n <= i64::MAX {
                            n as int
                        } else {
                            i64::MAX as int
                        },
                    ),
                ),
                None => None,
            })
            &&& lookup(e, "v".spec_bytes()) == (match o.client {
                Some(c) => Some(Tree::Bytes(encode_utf8(c))),
                None => None,
            })
        }),
{
    reveal_strlit("m");
    reveal_strlit("metadata_size");
    reveal_strlit("v");
    assert("m".is_ascii() && "metadata_size".is_ascii() && "v".is_ascii());
    let km = "m".spec_bytes();
    let ks = "metadata_size".spec_bytes();
    let kv = "v".spec_bytes();
    assert(km.len() == 1 && ks.len() == 13 && kv.len() == 1 && km[0] == 109 && kv[0] == 118);
    let none: Seq<(Seq<u8>, Tree)> = Seq::empty();
    let m = Tree::Dict(m_entries(o.ids, o.ids.len() as int));
    let one = crate::bencode::stored(none, km, m);
    law_stored_is_found(none, km, m, km);
    law_stored_is_found(none, km, m, ks);
    law_stored_is_found(none, km, m, kv);
    let two = match o.metadata_size {
        Some(n) => {
            let t = Tree::Int(
                if n <= i64::MAX {
                    n as int
                } else {
                    i64::MAX as int
                },
            );
            law_stored_is_found(one, ks, t, km);
            law_stored_is_found(one, ks, t, ks);
            law_stored_is_found(one, ks, t, kv);
            crate::bencode::stored(one, ks, t)
        },
        None => one,
    };
    if let Some(c) = o.client {
        let t = Tree::Bytes(encode_utf8(c));
        law_stored_is_found(two, kv, t, km);
        law_stored_is_found(two, kv, t, ks);
        law_stored_is_found(two, kv, t, kv);
    }
}

proof fn lemma_m_ascending(ids: Seq<(Seq<char>, u8)>, n: int)
    ensures
        ascending(m_entries(ids, n)),
    decreases n,
{
    if n > 0 {
        lemma_m_ascending(ids, n - 1);
        law_stored_is_found(
            m_entries(ids, n - 1),
            encode_utf8(ids[n - 1].0),
            Tree::Int(ids[n - 1].1 as int),
            Seq::empty(),
        );
    }
}

/// Each name stands in `m` with the id that is listed for it.
pub proof fn law_each_name_has_its_id(ids: Seq<(Seq<char>, u8)>, name: Seq<char>)
    ensures
        lookup(m_entries(ids, ids.len() as int), encode_utf8(name)) == (match id_listed(
            ids,
            name,
        ) {
            Some(id) => Some(Tree::Int(id as int)),
            None => None,
        }),
{
    lemma_names_listed(ids, ids.len() as int, name);
    assert(ids.take(ids.len() as int) =~= ids);
}

proof fn lemma_names_listed(ids: Seq<(Seq<char>, u8)>, n: int, name: Seq<char>)
    requires
        0 <= n <= ids.len(),
    ensures
        lookup(m_entries(ids, n), encode_utf8(name)) == (match id_listed(ids.take(n), name) {
            Some(id) => Some(Tree::Int(id as int)),
            None => None,
        }),
    decreases n,
{
    if n > 0 {
        lemma_names_listed(ids, n - 1, name);
        lemma_m_ascending(ids, n - 1);
        let (x, id) = ids[n - 1];
        law_stored_is_found(
            m_entries(ids, n - 1),
            encode_utf8(x),
            Tree::Int(id as int),
            encode_utf8(name),
        );
        assert(ids.take(n).drop_last() =~= ids.take(n - 1));
        if encode_utf8(x) == encode_utf8(name) {
            encode_utf8_decode_utf8(x);
            encode_utf8_decode_utf8(name);
        }
    }
}

/// What is read of an extension handshake: the size under `metadata_size` and
/// the client under `v`, each if it is one, and for each name the id that `m`
/// holds, unless that is zero.
pub proof fn law_extension_handshake_is_read(payload: Seq<u8>, o: Offer, name: Seq<char>)
    requires
        payload.len() <= usize::MAX,
        offer_in(payload) == Ok::<Offer, crate::extension::Error>(o),
    ensures
        ({
            let root = decoded(payload)->Ok_0;
            &&& decoded(payload) is Ok
            &&& o.metadata_size == (match root.get("metadata_size".spec_bytes()) {
                Some(Tree::Int(n)) => if 0 <= n <= usize::MAX {
                    Some(n as usize)
                } else {
                    None
                },
                _ => None,
            })
            &&& o.client == (match root.get("v".spec_bytes()) {
                Some(Tree::Bytes(b)) => if valid_utf8(b) {
                    Some(decode_utf8(b))
                } else {
                    None
                },
                _ => None,
            })
            &&& id_listed(o.ids, name) == (match root.get("m".spec_bytes()) {
                Some(Tree::Dict(m)) => match lookup(m, encode_utf8(name)) {
                    Some(Tree::Int(k)) => if 1 <= k <= 255 {
                        Some(k as u8)
                    } else {
                        None
                    },
                    _ => None,
                },
                _ => None,
            })
        }),
{
    let root = decoded(payload)->Ok_0;
    crate::bencode::law_decoded_is_well_formed(payload, root);
    if let Some(Tree::Dict(m)) = root.get("m".spec_bytes()) {
        crate::bencode::lemma_lookup_some(root->Dict_0, "m".spec_bytes());
        let j = choose|j: int|
            0 <= j < root->Dict_0.len() && #[trigger] root->Dict_0[j] == (
                "m".spec_bytes(),
                Tree::Dict(m),
            );
        assert(root->Dict_0[j].1.well_formed());
        assert(ascending(m));
        lemma_ids_read(m, m.len() as int, name);
        assert(m.take(m.len() as int) =~= m);
    }
}

proof fn lemma_ids_read(m: Seq<(Seq<u8>, Tree)>, n: int, name: Seq<char>)
    requires
        0 <= n <= m.len(),
        ascending(m),
        crate::extension::all_ids(m),
    ensures
        id_listed(ids_in(m, n), name) == (match lookup(m.take(n), encode_utf8(name)) {
            Some(Tree::Int(k)) => if 1 <= k <= 255 {
                Some(k as u8)
            } else {
                None
            },
            _ => None,
        }),
    decreases n,
{
    if n > 0 {
        lemma_ids_read(m, n - 1, name);
        let (key, t) = m[n - 1];
        let key_of = encode_utf8(name);
        encode_utf8_valid_utf8(name);
        encode_utf8_decode_utf8(name);
        assert(crate::extension::is_id(m[n - 1]));
        assert(m.take(n).drop_last() =~= m.take(n - 1));
        if t == Tree::Int(0) {
            if key == key_of {
                // No earlier entry has the key.
                crate::bencode::lemma_lookup_none(m.take(n - 1), key_of);
                if crate::bencode::has_key(m.take(n - 1), key_of) {
                    let i = choose|i: int|
                        0 <= i < n - 1 && (#[trigger] m.take(n - 1)[i]).0 == key_of;
                    assert(lex_less(m[i].0, m[n - 1].0));
                    crate::bencode::lemma_lex_irreflexive(key_of);
                }
            }
        } else {
            let ids = ids_in(m, n);
            assert(ids.drop_last() =~= ids_in(m, n - 1));
            if decode_utf8(key) == name {
                decode_utf8_encode_utf8(key);
            }
        }
    }
}

// ---------------------------------------------------------------------------
// Resume files.

/// What a resume file looks like: each field under its key, the version in
/// front of them being 3.
pub proof fn law_resume_file_is_keyed(r: Saved)
    requires
        crate::resume::is_addressable(r),
    ensures
        ({
            let root = decoded(crate::resume::saved_bytes(r))->Ok_0;
            &&& decoded(crate::resume::saved_bytes(r)) is Ok
            &&& root.get("version".spec_bytes()) == Some(Tree::Int(3))
            &&& root.get("info_hash".spec_bytes()) == Some(Tree::Bytes(r.info_hash))
            &&& root.get("num_pieces".spec_bytes()) == Some(Tree::Int(r.num_pieces as int))
            &&& root.get("have".spec_bytes()) == Some(Tree::Bytes(r.have))
            &&& root.get("verified".spec_bytes()) == Some(Tree::Bytes(r.verified))
            &&& root.get("priorities".spec_bytes()) == Some(Tree::Bytes(r.priorities))
            &&& r.uploaded <= i64::MAX ==> root.get("uploaded".spec_bytes()) == Some(
                Tree::Int(r.uploaded as int),
            )
            &&& r.downloaded <= i64::MAX ==> root.get("downloaded".spec_bytes()) == Some(
                Tree::Int(r.downloaded as int),
            )
            &&& root.get("paused".spec_bytes()) == Some(
                Tree::Int(
                    if r.paused {
                        1
                    } else {
                        0
                    },
                ),
            )
            &&& root.get("sequential".spec_bytes()) == Some(
                Tree::Int(
                    if r.sequential {
                        1
                    } else {
                        0
                    },
                ),
            )
            &&& root.get("trackers".spec_bytes()) matches Some(Tree::List(tiers)) && tiers.len()
                == r.trackers.len() && forall|i: int|
                0 <= i < tiers.len() ==> (#[trigger] tiers[i] matches Tree::List(urls)
                    && urls.len() == r.trackers[i].len() && forall|j: int|
                    0 <= j < urls.len() ==> #[trigger] urls[j] == Tree::Bytes(
                        encode_utf8(r.trackers[i][j]),
                    ))
        }),
{
    crate::resume::lemma_entries_built(r);
    crate::resume::lemma_file_root(r, 3, 11);
    let kvs = fields_of(r, 3);
    assert(kvs[0].0 == "version".spec_bytes());
    assert(kvs[1].0 == "info_hash".spec_bytes());
    assert(kvs[2].0 == "num_pieces".spec_bytes());
    assert(kvs[3].0 == "have".spec_bytes());
    assert(kvs[4].0 == "verified".spec_bytes());
    assert(kvs[5].0 == "priorities".spec_bytes());
    assert(kvs[6].0 == "uploaded".spec_bytes());
    assert(kvs[7].0 == "downloaded".spec_bytes());
    assert(kvs[8].0 == "trackers".spec_bytes());
    assert(kvs[9].0 == "paused".spec_bytes());
    assert(kvs[10].0 == "sequential".spec_bytes());
}

/// What is read of a resume file is what it holds under each key.
pub proof fn law_resume_file_is_read_by_key(s: Seq<u8>, r: Saved)
    requires
        saved_in(s) == Ok::<Saved, crate::resume::Error>(r),
    ensures
        ({
            let root = decoded(s)->Ok_0;
            let flag = |t: Option<Tree>| t matches Some(Tree::Int(n)) && n != 0;
            &&& decoded(s) is Ok
            &&& root.get("version".spec_bytes()) matches Some(Tree::Int(v)) && 1 <= v <= 3
            &&& root.get("info_hash".spec_bytes()) == Some(Tree::Bytes(r.info_hash))
            &&& r.info_hash.len() == 20
            &&& root.get("num_pieces".spec_bytes()) == Some(Tree::Int(r.num_pieces as int))
            &&& root.get("have".spec_bytes()) == Some(Tree::Bytes(r.have))
            &&& root.get("verified".spec_bytes()) == Some(Tree::Bytes(r.verified))
            &&& root.get("priorities".spec_bytes()) == Some(Tree::Bytes(r.priorities))
            &&& root.get("uploaded".spec_bytes()) matches Some(Tree::Int(n)) && n as u64
                == r.uploaded
            &&& root.get("downloaded".spec_bytes()) matches Some(Tree::Int(n)) && n as u64
                == r.downloaded
            &&& r.paused == flag(root.get("paused".spec_bytes()))
            &&& r.sequential == flag(root.get("sequential".spec_bytes()))
            &&& r.num_pieces >= 1
            &&& r.have.len() == (r.num_pieces + 7) / 8
            &&& r.verified.len() == (r.num_pieces + 7) / 8
            &&& forall|i: int| 0 <= i < r.priorities.len() ==> #[trigger] r.priorities[i] <= 2
            &&& forall|i: int|
                0 <= i < r.verified.len() ==> (#[trigger] r.verified[i]) & !r.have[i] == 0
        }),
{
}

// ---------------------------------------------------------------------------
// Trackers.

/// What is read of a tracker's answer: the seconds under `interval` and `min
/// interval`, and the peers: hashes of 32 bytes each, or a list of dictionaries
/// with a destination under `ip`.
pub proof fn law_tracker_answer_is_read_by_key(body: Seq<u8>, a: Answer)
    requires
        reply_fault(body) is None,
        reply_says(body, a),
    ensures
        ({
            let root = decoded(body)->Ok_0;
            &&& decoded(body) is Ok
            &&& root.get("interval".spec_bytes()) == Some(Tree::Int(a.interval as int))
            &&& a.min_interval matches Some(n) ==> root.get("min interval".spec_bytes()) == Some(
                Tree::Int(n as int),
            )
            &&& a.min_interval is None ==> !(root.get("min interval".spec_bytes()) matches Some(
                Tree::Int(n),
            ) && 0 <= n <= u32::MAX)
            &&& match root.get("peers".spec_bytes()) {
                Some(Tree::Bytes(b)) => b == packed(a.peers) && a.destinations.len() == 0,
                Some(Tree::List(list)) => a.peers.len() == 0 && a.destinations.len() == list.len()
                    && forall|i: int|
                    0 <= i < list.len() ==> (#[trigger] list[i].get("ip".spec_bytes()) matches Some(
                        Tree::Bytes(b),
                    ) && valid_utf8(b) && a.destinations[i] == decode_utf8(b)),
                _ => a.peers.len() == 0 && a.destinations.len() == 0,
            }
        }),
{
    let root = decoded(body)->Ok_0;
    if let Some(Tree::List(list)) = root.get("peers".spec_bytes()) {
        lemma_destinations(list, list.len() as int);
        assert forall|i: int| 0 <= i < list.len() implies (#[trigger] list[i].get(
            "ip".spec_bytes(),
        ) matches Some(Tree::Bytes(b)) && valid_utf8(b) && a.destinations[i] == decode_utf8(
            b,
        )) by {
            assert(crate::tracker::dest_in(list[i]) is Some);
        }
    }
}

proof fn lemma_destinations(list: Seq<Tree>, n: int)
    requires
        0 <= n <= list.len(),
    ensures
        crate::tracker::dests_in(list, n).len() == n,
        forall|i: int|
            0 <= i < n ==> #[trigger] crate::tracker::dests_in(list, n)[i]
                == crate::tracker::dest_in(list[i])->Some_0,
    decreases n,
{
    if n > 0 {
        lemma_destinations(list, n - 1);
    }
}

/// When a tracker's answer is none: it is not bencode, it gives a reason for
/// failing, it has no interval, or its peers are not whole. What an HTTP status
/// other than 200 carries is none either.
pub proof fn law_when_an_answer_is_refused(body: Seq<u8>, received: Seq<u8>)
    ensures
        ({
            let root = decoded(body)->Ok_0;
            let number = |t: Option<Tree>| t matches Some(Tree::Int(n)) && 0 <= n <= u32::MAX;
            let text = |t: Option<Tree>| t matches Some(Tree::Bytes(b)) && valid_utf8(b);
            let failed = text(root.get("failure reason".spec_bytes()));
            let timed = number(root.get("interval".spec_bytes()));
            let whole = match root.get("peers".spec_bytes()) {
                None => true,
                Some(Tree::Bytes(b)) => b.len() % 32 == 0,
                Some(Tree::List(list)) => forall|i: int|
                    0 <= i < list.len() ==> text(#[trigger] list[i].get("ip".spec_bytes())),
                Some(_) => false,
            };
            &&& reply_fault(body) is None <==> decoded(body) is Ok && !failed && timed && whole
            &&& decoded(body) is Ok && failed ==> reply_fault(body)->Some_0 is TrackerFailure
            &&& decoded(body) is Ok && !failed && !(timed && whole)
                ==> reply_fault(body)->Some_0 is BadResponse
            &&& decoded(body) is Err ==> reply_fault(body)->Some_0 is NotBencode
        }),
        crate::http::reply_in(received, 65536) matches Ok(reply) && reply.status != 200
            ==> announce_fault(received) == Some(
            Failure::HttpStatus(crate::http::reply_in(received, 65536)->Ok_0.status),
        ),
        crate::http::reply_in(received, 65536) matches Ok(reply) && reply.status == 200 ==> (
        announce_fault(received) is None <==> reply_fault(
            crate::http::reply_in(received, 65536)->Ok_0.body,
        ) is None),
{
    let root = decoded(body)->Ok_0;
    let text = |t: Option<Tree>| t matches Some(Tree::Bytes(b)) && valid_utf8(b);
    if let Some(Tree::List(list)) = root.get("peers".spec_bytes()) {
        if exists|i: int| 0 <= i < list.len() && crate::tracker::dest_in(#[trigger] list[i]) is None {
            let i = choose|i: int|
                0 <= i < list.len() && crate::tracker::dest_in(#[trigger] list[i]) is None;
            assert(!text(list[i].get("ip".spec_bytes())));
        } else {
            assert forall|i: int| 0 <= i < list.len() implies text(
                #[trigger] list[i].get("ip".spec_bytes()),
            ) by {
                assert(crate::tracker::dest_in(list[i]) is Some);
            }
        }
    }
}

/// How long to wait: after a success the tracker's interval, a minute at least;
/// after failures in a row half a minute, doubled each time, half an hour at
/// most.
pub proof fn law_waits(s: Schedule, now: u64, interval: u32, sent: Event, n: u32)
    requires
        now + interval <= u64::MAX,
        now + 1800 <= u64::MAX,
    ensures
        s.succeeded(now, interval, sent).next_due == now + (if interval < 60 {
            60
        } else {
            interval as int
        }),
        s.succeeded(now, interval, sent).failures == 0,
        s.succeeded(now, interval, sent).started,
        s.failures < u32::MAX ==> s.failed(now).failures == s.failures + 1,
        s.failed(now).next_due == now + backoff(s.failed(now).failures),
        s.failed(now).started == s.started && s.failed(now).completed == s.completed,
        backoff(1) == 30,
        1 <= n < u32::MAX ==> backoff((n + 1) as u32) == (if 2 * backoff(n) < 1800 {
            2 * backoff(n)
        } else {
            1800
        }),
        later(now, interval as nat) == now + interval,
{
}

/// Which event goes out: `started` first, `completed` once the download is
/// whole and has not been reported, else none.
pub proof fn law_which_event_goes_out(s: Schedule, complete: bool)
    ensures
        s.event(complete) == Event::Started <==> !s.started,
        s.event(complete) == Event::Completed <==> s.started && complete && !s.completed,
        s.event(complete) == Event::Periodic <==> s.started && (!complete || s.completed),
        Schedule::fresh().event(complete) == Event::Started,
        Schedule::fresh().next_due == 0,
{
}

} // verus!
