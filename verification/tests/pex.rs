use clove_core::bencode::{self, Dict, Value};
use clove_core::dest::DestHash;
use clove_core::pex::{Error, PexMessage, MAX_PEX_PEERS};

fn payload_of(key: &[u8], value: Vec<u8>) -> Vec<u8> {
    let mut m = Dict::new();
    m.insert(key.to_vec(), Value::Bytes(value));
    bencode::encode(&Value::Dict(m))
}

#[test]
fn pex_round_trips() {
    let msg = PexMessage {
        added: vec![DestHash([1; 32]), DestHash([2; 32])],
        dropped: vec![DestHash([3; 32])],
    };
    assert_eq!(PexMessage::parse(&msg.encode()).unwrap(), msg);
}

#[test]
fn empty_message() {
    let msg = PexMessage::default();
    assert!(msg.is_empty());
    assert_eq!(PexMessage::parse(&msg.encode()).unwrap(), msg);
}

#[test]
fn absent_fields_are_empty() {
    let payload = bencode::encode(&Value::Dict(Dict::new()));
    assert_eq!(PexMessage::parse(&payload).unwrap(), PexMessage::default());
}

#[test]
fn rejects_misaligned_hashes() {
    let payload = payload_of(b"added", vec![0u8; 40]); // not a multiple of 32
    assert_eq!(PexMessage::parse(&payload), Err(Error::Malformed));
}

#[test]
fn rejects_pex_spam() {
    let payload = payload_of(b"added", vec![0u8; 32 * (MAX_PEX_PEERS + 1)]);
    assert_eq!(PexMessage::parse(&payload), Err(Error::TooManyPeers));
}

#[test]
fn rejects_garbage() {
    assert_eq!(PexMessage::parse(b"xxx"), Err(Error::Malformed));
}

#[test]
fn a_full_message_is_not_spam() {
    let payload = payload_of(b"dropped", vec![7u8; 32 * MAX_PEX_PEERS]);
    let msg = PexMessage::parse(&payload).unwrap();
    assert_eq!(msg.dropped.len(), MAX_PEX_PEERS);
    assert!(!msg.is_empty());
    assert_eq!(Error::TooManyPeers.message(), "i2p_pex: too many peers (spam)");
}
