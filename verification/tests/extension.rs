use clove_core::bencode::{self, Dict, Value};
use clove_core::extension::{Error, Handshake, I2P_PEX, UT_METADATA};

fn with_m(entries: Vec<(&[u8], i64)>) -> Vec<u8> {
    let mut m = Dict::new();
    for (k, v) in entries {
        m.insert(k.to_vec(), Value::Int(v));
    }
    let mut root = Dict::new();
    root.insert(b"m".to_vec(), Value::Dict(m));
    bencode::encode(&Value::Dict(root))
}

#[test]
fn extension_round_trips() {
    let hs = Handshake {
        ids: vec![(I2P_PEX.to_owned(), 1), (UT_METADATA.to_owned(), 2)],
        metadata_size: Some(4096),
        client: Some("clove/0.1".to_owned()),
    };
    let parsed = Handshake::parse(&hs.encode()).unwrap();
    assert_eq!(parsed, hs);
    assert_eq!(parsed.id_for(I2P_PEX), Some(1));
    assert_eq!(parsed.id_for(UT_METADATA), Some(2));
    assert_eq!(parsed.id_for("nonesuch"), None);
}

#[test]
fn id_zero_means_unsupported() {
    // A peer disabling ut_metadata by advertising id 0.
    let payload = with_m(vec![(b"ut_metadata", 0), (b"i2p_pex", 3)]);
    let hs = Handshake::parse(&payload).unwrap();
    assert_eq!(hs.id_for("ut_metadata"), None);
    assert_eq!(hs.id_for("i2p_pex"), Some(3));
}

#[test]
fn tolerates_missing_m() {
    let payload = bencode::encode(&Value::Dict(Dict::new()));
    let hs = Handshake::parse(&payload).unwrap();
    assert!(hs.ids.is_empty());
    assert_eq!(hs.metadata_size, None);
    assert_eq!(hs, Handshake::default());
}

#[test]
fn rejects_garbage_and_bad_ids() {
    assert_eq!(Handshake::parse(b"not bencode"), Err(Error::Malformed));
    // id out of u8 range.
    let payload = with_m(vec![(b"x", 9999)]);
    assert_eq!(Handshake::parse(&payload), Err(Error::Malformed));
    assert_eq!(Error::Malformed.message(), "extension: malformed BEP 10 handshake");
}

#[test]
fn an_m_that_is_not_a_dictionary_is_malformed() {
    for payload in [&b"d1:mi5ee"[..], b"d1:mlee", b"d1:m1:xe"] {
        assert_eq!(Handshake::parse(payload), Err(Error::Malformed), "{payload:?}");
    }
    assert!(Handshake::parse(b"d1:mdee").unwrap().ids.is_empty());
    let hs = Handshake::parse(b"d1:md7:i2p_pexi4eee").unwrap();
    assert_eq!(hs.clone(), hs);
}
