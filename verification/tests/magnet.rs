use clove_core::bencode::{self, Dict, Value};
use clove_core::magnet::{torrent_bytes, Error, Magnet};
use clove_core::metainfo::{MetaInfo, MAX_TRACKERS};

#[test]
fn parses_hex_infohash_with_name_and_trackers() {
    let uri = "magnet:?xt=urn:btih:0123456789abcdef0123456789abcdef01234567\
               &dn=Some%20Torrent\
               &tr=http%3A%2F%2Ftracker.postman.i2p%2Fannounce\
               &tr=http%3A%2F%2Fclearnet.example.org%2Fannounce";
    let m = Magnet::parse(uri).unwrap();
    assert_eq!(
        m.info_hash,
        [
            0x01, 0x23, 0x45, 0x67, 0x89, 0xab, 0xcd, 0xef, 0x01, 0x23, 0x45, 0x67, 0x89, 0xab,
            0xcd, 0xef, 0x01, 0x23, 0x45, 0x67
        ]
    );
    assert_eq!(m.display_name.as_deref(), Some("Some Torrent"));
    // Only the I2P tracker survives, and the other is counted.
    assert_eq!(m.trackers, vec!["http://tracker.postman.i2p/announce"]);
    assert_eq!(m.skipped_trackers, 1);
}

/// A link can carry as many `tr=` values as a file can carry URLs, and each
/// kept one costs the same lookup and announce.
#[test]
fn caps_kept_trackers() {
    let mut uri = "magnet:?xt=urn:btih:0123456789abcdef0123456789abcdef01234567".to_owned();
    for i in 0..MAX_TRACKERS + 4 {
        uri.push_str("&tr=http%3A%2F%2Ft");
        uri.push_str(&i.to_string());
        uri.push_str(".i2p%2Fannounce");
    }
    let m = Magnet::parse(&uri).unwrap();
    assert_eq!(m.trackers.len(), MAX_TRACKERS);
    assert_eq!(m.trackers[0], "http://t0.i2p/announce");
    assert_eq!(
        m.trackers[MAX_TRACKERS - 1],
        format!("http://t{}.i2p/announce", MAX_TRACKERS - 1)
    );
    assert_eq!(m.skipped_trackers, 4);
}

#[test]
fn parses_base32_infohash() {
    // base32 of 20 zero bytes = 32 'a's (uppercase in the wild).
    let uri = format!("magnet:?xt=urn:btih:{}", "A".repeat(32));
    let m = Magnet::parse(&uri).unwrap();
    assert_eq!(m.info_hash, [0u8; 20]);
}

#[test]
fn hex_and_base32_agree() {
    let hex = "magnet:?xt=urn:btih:ffffffffffffffffffffffffffffffffffffffff";
    let b32 = format!("magnet:?xt=urn:btih:{}", "7".repeat(32)); // base32 all-ones
    let a = Magnet::parse(hex).unwrap().info_hash;
    let b = Magnet::parse(&b32).unwrap().info_hash;
    assert_eq!(a, [0xFF; 20]);
    assert_eq!(b, [0xFF; 20]);
}

/// A link naming two torrents is refused, while the same hash spelled twice
/// (hex and base32 of it, say) is one torrent and fine.
#[test]
fn conflicting_info_hashes_are_refused() {
    let a = "0123456789abcdef0123456789abcdef01234567";
    let b = "ffffffffffffffffffffffffffffffffffffffff";
    assert_eq!(
        Magnet::parse(&format!("magnet:?xt=urn:btih:{a}&xt=urn:btih:{b}")),
        Err(Error::ConflictingInfoHash)
    );
    let same = Magnet::parse(&format!(
        "magnet:?xt=urn:btih:{b}&xt=urn:btih:{}",
        "7".repeat(32)
    ))
    .expect("one hash, two spellings");
    assert_eq!(same.info_hash, [0xFF; 20]);
}

#[test]
fn rejects_bad_input() {
    assert_eq!(Magnet::parse("http://x"), Err(Error::NotMagnet));
    assert_eq!(Magnet::parse("magnet:?dn=x"), Err(Error::NoInfoHash));
    assert_eq!(Magnet::parse("magnet:?xt=urn:btih:tooshort"), Err(Error::BadInfoHash));
    assert_eq!(
        Magnet::parse("magnet:?xt=urn:btih:zzzz456789abcdef0123456789abcdef01234567"),
        Err(Error::BadInfoHash)
    );
}

#[test]
fn synthesized_torrent_parses_with_same_hash_and_trackers() {
    // A minimal real info dict via the bencode encoder.
    let mut info = Dict::new();
    info.insert(b"length".to_vec(), Value::Int(16384));
    info.insert(b"name".to_vec(), Value::Bytes(b"demo".to_vec()));
    info.insert(b"piece length".to_vec(), Value::Int(16384));
    info.insert(b"pieces".to_vec(), Value::Bytes(vec![0u8; 20]));
    let raw_info = bencode::encode(&Value::Dict(info));

    let trackers = vec!["http://tracker.i2p/announce".to_owned()];
    let bytes = torrent_bytes(&raw_info, &trackers);
    let meta = MetaInfo::parse(&bytes).unwrap();
    assert_eq!(&meta.raw_info[..], &raw_info[..]);
    assert_eq!(meta.trackers, vec![trackers.clone()]);

    // Trackerless magnets synthesize too.
    let bare = torrent_bytes(&raw_info, &vec![]);
    let meta2 = MetaInfo::parse(&bare).unwrap();
    assert_eq!(meta2.info_hash, meta.info_hash);
    assert!(meta2.trackers.is_empty());
}

#[test]
fn a_mixed_base32_hash_decodes() {
    // 32 symbols of base32 for the bytes 0, 1, .. 19.
    let m = Magnet::parse("magnet:?xt=urn:btih:AAAQEAYEAUDAOCAJBIFQYDIOB4IBCEQT").unwrap();
    let expected: Vec<u8> = (0..20).collect();
    assert_eq!(m.info_hash.to_vec(), expected);
    assert!(!Error::BadInfoHash.message().is_empty());
}

#[test]
fn a_name_that_is_not_text_is_replaced_not_refused() {
    let hash = "ffffffffffffffffffffffffffffffffffffffff";
    let m = Magnet::parse(&format!("magnet:?xt=urn:btih:{hash}&dn=a%FFb%C3%A9")).unwrap();
    assert_eq!(m.display_name.as_deref(), Some("a\u{FFFD}b\u{E9}"));
}

#[test]
fn a_made_torrent_is_what_its_info_dict_says() {
    let mut info = Dict::new();
    info.insert(b"length".to_vec(), Value::Int(16384));
    info.insert(b"name".to_vec(), Value::Bytes(b"demo".to_vec()));
    info.insert(b"piece length".to_vec(), Value::Int(16384));
    info.insert(b"pieces".to_vec(), Value::Bytes(vec![0u8; 20]));
    let raw_info = bencode::encode(&Value::Dict(info));
    let alone = MetaInfo::from_info_dict(&raw_info).unwrap();
    let trackers: Vec<String> =
        (0..MAX_TRACKERS).map(|i| format!("http://t{i}.i2p/announce")).collect();
    let made = MetaInfo::parse(&torrent_bytes(&raw_info, &trackers)).unwrap();
    assert_eq!(made.raw_info, raw_info);
    assert_eq!(made.info_hash, alone.info_hash);
    assert_eq!(made.name, alone.name);
    assert_eq!(made.pieces, alone.pieces);
    assert_eq!(made.files, alone.files);
    let tiers: Vec<Vec<String>> = trackers.iter().map(|t| vec![t.clone()]).collect();
    assert_eq!(made.trackers, tiers);
    assert_eq!(made.skipped_trackers, 0);
}
