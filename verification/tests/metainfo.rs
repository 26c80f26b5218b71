use clove_core::bencode::{self, encode, Dict, Value};
use clove_core::metainfo::{
    is_i2p_tracker, Error, FileEntry, InfoHash, MetaInfo, TrackerUrl, MAX_COMPONENT_BYTES,
    MAX_FILES, MAX_PATH_BYTES, MAX_PIECES, MAX_TRACKERS, MIN_PIECE_LENGTH,
};
use clove_core::wire::MAX_MESSAGE_LEN;
use sha1::{Digest, Sha1};

fn bval(s: &str) -> Value {
    Value::Bytes(s.as_bytes().to_vec())
}

fn dict(entries: Vec<(&str, Value)>) -> Value {
    let mut map = Dict::new();
    for (k, v) in entries {
        map.insert(k.as_bytes().to_vec(), v);
    }
    Value::Dict(map)
}

/// A minimal valid single-file torrent: 5 bytes, one piece.
fn single_file(extra_root: Vec<(&str, Value)>) -> Vec<u8> {
    let info = dict(vec![
        ("name", bval("hello.txt")),
        ("piece length", Value::Int(i64::from(MIN_PIECE_LENGTH))),
        ("pieces", Value::Bytes(vec![0xab; 20])),
        ("length", Value::Int(5)),
    ]);
    let mut root = vec![("info", info)];
    root.extend(extra_root);
    encode(&dict(root))
}

#[test]
fn parses_single_file() {
    let input = single_file(vec![(
        "announce",
        bval("http://tracker2.postman.i2p/announce.php"),
    )]);
    let t = MetaInfo::parse(&input).unwrap();
    assert_eq!(t.name, "hello.txt");
    assert_eq!(t.total_length, 5);
    assert_eq!(t.pieces.len(), 1);
    assert_eq!(
        t.files,
        vec![FileEntry {
            path: vec!["hello.txt".into()],
            length: 5
        }]
    );
    assert_eq!(
        t.trackers,
        vec![vec!["http://tracker2.postman.i2p/announce.php".to_owned()]]
    );
    assert_eq!(t.skipped_trackers, 0);
    assert!(!t.private);
    assert_eq!(t.info_hash.to_hex().len(), 40);
}

#[test]
fn info_hash_covers_raw_bytes() {
    // Same info dict, different outer keys: identical hash.
    let a = MetaInfo::parse(&single_file(vec![])).unwrap();
    let b = MetaInfo::parse(&single_file(vec![("comment", bval("x"))])).unwrap();
    assert_eq!(a.info_hash, b.info_hash);

    // The hash is SHA-1 over the exact `info` bytes as they sit in the
    // input, which for a non-canonical torrent (unsorted keys, `info`
    // ahead of `announce`, an unsorted key order inside `info` too) are
    // not the bytes a re-encode would produce. Written by hand so that
    // the encoder cannot have canonicalised them first.
    let raw_info = b"d6:pieces20:\x01\x01\x01\x01\x01\x01\x01\x01\x01\x01\
                     \x01\x01\x01\x01\x01\x01\x01\x01\x01\x01\
                     12:piece lengthi16384e4:name9:hello.txt6:lengthi5ee";
    let mut input = b"d4:info".to_vec();
    input.extend_from_slice(raw_info);
    input.extend_from_slice(b"8:announce21:http://t.i2p/announcee");
    let t = MetaInfo::parse(&input).expect("a non-canonical torrent parses");
    assert_eq!(&t.raw_info[..], &raw_info[..]);
    assert_eq!(t.info_hash.0, <[u8; 20]>::from(Sha1::digest(raw_info)));
    assert_ne!(
        &bencode::encode(&bencode::decode(raw_info).unwrap())[..],
        &raw_info[..],
        "the input has to be non-canonical for this to prove anything"
    );
}

#[test]
fn parses_multi_file_and_checks_totals() {
    let piece_len = i64::from(MIN_PIECE_LENGTH);
    let files = Value::List(vec![
        dict(vec![
            ("length", Value::Int(i64::from(MIN_PIECE_LENGTH))),
            ("path", Value::List(vec![bval("sub"), bval("a.bin")])),
        ]),
        dict(vec![
            ("length", Value::Int(3)),
            ("path", Value::List(vec![bval("b.bin")])),
        ]),
    ]);
    let info = dict(vec![
        ("name", bval("album")),
        ("piece length", Value::Int(piece_len)),
        ("pieces", Value::Bytes(vec![0u8; 40])),
        ("files", files),
    ]);
    let input = encode(&dict(vec![("info", info)]));
    let t = MetaInfo::parse(&input).unwrap();
    assert_eq!(t.total_length, u64::from(MIN_PIECE_LENGTH) + 3);
    assert_eq!(t.files[0].path, vec!["album", "sub", "a.bin"]);
    assert_eq!(t.files[1].path, vec!["album", "b.bin"]);
}

#[test]
fn i2p_tracker_filter() {
    assert!(is_i2p_tracker("http://tracker2.postman.i2p/announce.php"));
    assert!(is_i2p_tracker(
        "http://mb5ir7klpc2tj6ha3xhmrs3mseqvanauciuoiamx24mmomvkhaua.b32.i2p/a"
    ));
    assert!(is_i2p_tracker("http://opentracker.dg2.i2p:80/announce"));
    assert!(is_i2p_tracker("http://TRACKER.EXAMPLE.I2P/announce"));

    // https is not ours to speak: no TLS stack, and the announcer would
    // reject the URL later anyway. Dropped at parse time instead.
    assert!(!is_i2p_tracker("https://tracker.example.i2p/announce"));
    assert!(!is_i2p_tracker("http://tracker.example.org/announce"));
    assert!(!is_i2p_tracker("udp://tracker.example.i2p/announce"));
    assert!(!is_i2p_tracker("http://1.2.3.4:6969/announce"));
    assert!(!is_i2p_tracker("http://evil.example@host.i2p/announce"));
    assert!(!is_i2p_tracker("http://example.i2p.example.org/announce"));
    assert!(!is_i2p_tracker("example.i2p/announce"));
}

#[test]
fn filters_and_counts_non_i2p_trackers() {
    let tiers = Value::List(vec![
        Value::List(vec![
            bval("http://tracker.example.org/announce"),
            bval("http://good.i2p/announce"),
        ]),
        Value::List(vec![bval("udp://other.example.org/announce")]),
    ]);
    let input = single_file(vec![("announce-list", tiers)]);
    let t = MetaInfo::parse(&input).unwrap();
    assert_eq!(
        t.trackers,
        vec![vec!["http://good.i2p/announce".to_owned()]]
    );
    assert_eq!(t.skipped_trackers, 2);
}

/// Every kept URL is a naming lookup and an announce per cycle; a
/// torrent does not get to make that fifty thousand of each.
#[test]
fn caps_kept_trackers_across_tiers() {
    let tier = |from: usize, n: usize| {
        Value::List(
            (from..from + n)
                .map(|i| bval(&format!("http://t{i}.i2p/announce")))
                .collect(),
        )
    };
    let tiers = Value::List(vec![tier(0, 10), tier(10, 10), tier(20, 10)]);
    let input = single_file(vec![("announce-list", tiers)]);
    let t = MetaInfo::parse(&input).unwrap();
    let kept: usize = t.trackers.iter().map(Vec::len).sum();
    assert_eq!(kept, MAX_TRACKERS);
    // The first tier whole, the second cut, the third gone: the cap
    // counts across tiers, not per tier.
    assert_eq!(t.trackers.len(), 2);
    assert_eq!(t.trackers[0].len(), 10);
    assert_eq!(t.trackers[1].len(), MAX_TRACKERS - 10);
    assert_eq!(t.trackers[1][0], "http://t10.i2p/announce");
    assert_eq!(t.skipped_trackers, 30 - MAX_TRACKERS);

    // Exactly the cap is kept whole, and a clearnet URL does not use up
    // a slot: it was never a candidate.
    let mut at_cap = vec![tier(0, MAX_TRACKERS)];
    at_cap.push(Value::List(vec![bval("http://tracker.example.org/a")]));
    let input = single_file(vec![("announce-list", Value::List(at_cap))]);
    let t = MetaInfo::parse(&input).unwrap();
    assert_eq!(t.trackers.iter().map(Vec::len).sum::<usize>(), MAX_TRACKERS);
    assert_eq!(t.skipped_trackers, 1);
}

#[test]
fn tracker_less_torrent_is_fine() {
    let t = MetaInfo::parse(&single_file(vec![])).unwrap();
    assert!(t.trackers.is_empty());
}

#[test]
fn rejects_colliding_file_paths() {
    let piece_len = i64::from(MIN_PIECE_LENGTH);
    let file = |len: i64, parts: Vec<&str>| {
        dict(vec![
            ("length", Value::Int(len)),
            (
                "path",
                Value::List(parts.into_iter().map(bval).collect::<Vec<_>>()),
            ),
        ])
    };
    let torrent = |files: Vec<Value>| {
        let total: i64 = piece_len;
        let _ = total;
        encode(&dict(vec![(
            "info",
            dict(vec![
                ("name", bval("album")),
                ("piece length", Value::Int(piece_len)),
                ("pieces", Value::Bytes(vec![0u8; 20])),
                ("files", Value::List(files)),
            ]),
        )]))
    };

    // Two entries naming one file: their writes would alias, and the
    // pieces over them could never verify.
    let dup = torrent(vec![
        file(piece_len - 10, vec!["same.bin"]),
        file(10, vec!["same.bin"]),
    ]);
    assert!(
        matches!(MetaInfo::parse(&dup), Err(Error::Invalid(_))),
        "duplicate file paths were accepted"
    );

    // A file where another entry wants a directory.
    let shadow = torrent(vec![
        file(piece_len - 10, vec!["a"]),
        file(10, vec!["a", "b"]),
    ]);
    assert!(
        matches!(MetaInfo::parse(&shadow), Err(Error::Invalid(_))),
        "a file path shadowing a directory was accepted"
    );
    // Order must not matter.
    let shadow_rev = torrent(vec![
        file(10, vec!["a", "b"]),
        file(piece_len - 10, vec!["a"]),
    ]);
    assert!(matches!(
        MetaInfo::parse(&shadow_rev),
        Err(Error::Invalid(_))
    ));

    // Names that merely share a prefix are fine, and so are same-named
    // files in different directories.
    let ok = torrent(vec![
        file(piece_len - 30, vec!["a"]),
        file(10, vec!["ab"]),
        file(10, vec!["d", "a"]),
        file(10, vec!["e", "a"]),
    ]);
    MetaInfo::parse(&ok).expect("distinct paths that share prefixes are legal");
}

/// The bytes of a multi-file torrent with `count` one-byte files, written
/// directly rather than through the encoder: a hundred thousand `Value`s
/// is a slow way to spell a test input.
fn many_files(count: usize) -> Vec<u8> {
    let total = u64::try_from(count).unwrap();
    let pieces = total.div_ceil(u64::from(MIN_PIECE_LENGTH));
    let mut out = Vec::new();
    out.extend_from_slice(b"d4:infod5:filesl");
    for i in 0..count {
        let name = format!("f{i}");
        out.extend_from_slice(format!("d6:lengthi1e4:pathl{}:{name}ee", name.len()).as_bytes());
    }
    out.extend_from_slice(
        format!("e4:name5:album12:piece lengthi{MIN_PIECE_LENGTH}e6:pieces{}:", pieces * 20)
            .as_bytes(),
    );
    out.resize(out.len() + usize::try_from(pieces * 20).unwrap(), 0);
    out.extend_from_slice(b"ee");
    out
}

/// Every file is an open descriptor for as long as the torrent is hosted,
/// so the count is bounded here rather than discovered at `EMFILE`.
#[test]
fn caps_the_number_of_files() {
    assert_eq!(
        MetaInfo::parse(&many_files(MAX_FILES + 1)).err(),
        Some(Error::Invalid("too many files"))
    );
    // The cap itself is a torrent, not a refusal.
    let at_cap = MetaInfo::parse(&many_files(MAX_FILES)).expect("a torrent at the file cap");
    assert_eq!(at_cap.files.len(), MAX_FILES);
}

/// More pieces than a `bitfield` message can carry is a torrent that could
/// never exchange one, and is refused on the count the lengths imply,
/// before the hash list is consulted, so the reason given is the cap.
#[test]
fn caps_the_number_of_pieces_at_what_a_bitfield_can_carry() {
    let piece_len = i64::from(MIN_PIECE_LENGTH);
    let torrent = |pieces: u32| {
        encode(&dict(vec![(
            "info",
            dict(vec![
                ("name", bval("huge.bin")),
                ("piece length", Value::Int(piece_len)),
                // A short hash list on purpose: the cap has to fire on
                // the arithmetic, not after a 160 MiB string is checked.
                ("pieces", Value::Bytes(vec![0u8; 20])),
                ("length", Value::Int(i64::from(pieces) * piece_len)),
            ]),
        )]))
    };
    assert_eq!(
        MetaInfo::parse(&torrent(MAX_PIECES + 1)).err(),
        Some(Error::Invalid(
            "more pieces than a bitfield message can carry"
        ))
    );
    // At the cap the count is legal and the complaint is the ordinary one.
    assert_eq!(
        MetaInfo::parse(&torrent(MAX_PIECES)).err(),
        Some(Error::Invalid("piece count disagrees with total length"))
    );
    // The cap is what the wire can carry: an id byte and a bit per piece.
    assert_eq!(1 + MAX_PIECES.div_ceil(8), MAX_MESSAGE_LEN);
}

/// `A.txt` and `a.txt` are one file on a case-insensitive volume, which
/// is exactly the aliasing the distinct-path check exists to refuse.
#[test]
fn rejects_paths_that_collide_up_to_case() {
    let piece_len = i64::from(MIN_PIECE_LENGTH);
    let file = |len: i64, parts: Vec<&str>| {
        dict(vec![
            ("length", Value::Int(len)),
            (
                "path",
                Value::List(parts.into_iter().map(bval).collect::<Vec<_>>()),
            ),
        ])
    };
    let torrent = |files: Vec<Value>| {
        encode(&dict(vec![(
            "info",
            dict(vec![
                ("name", bval("album")),
                ("piece length", Value::Int(piece_len)),
                ("pieces", Value::Bytes(vec![0u8; 20])),
                ("files", Value::List(files)),
            ]),
        )]))
    };
    for (a, b) in [
        (vec!["A.txt"], vec!["a.txt"]),
        (vec!["Dir", "x"], vec!["dir", "x"]),
        (vec!["Ärger.txt"], vec!["ärger.txt"]),
        // A file where another entry wants a directory, up to case.
        (vec!["A"], vec!["a", "b"]),
    ] {
        let input = torrent(vec![file(piece_len - 10, a.clone()), file(10, b.clone())]);
        assert!(
            matches!(MetaInfo::parse(&input), Err(Error::Invalid(_))),
            "{a:?} and {b:?} were both accepted"
        );
    }
    // Different names that merely share letters are still distinct.
    let ok = torrent(vec![file(piece_len - 10, vec!["ab"]), file(10, vec!["ba"])]);
    MetaInfo::parse(&ok).expect("distinct names");
}

/// A component longer than a filename, or a path longer than a path,
/// is refused at the torrent rather than as ENAMETOOLONG at the first
/// block written.
#[test]
fn rejects_over_long_components_and_paths() {
    let piece_len = i64::from(MIN_PIECE_LENGTH);
    let file = |parts: Vec<String>| {
        dict(vec![
            ("length", Value::Int(piece_len)),
            (
                "path",
                Value::List(parts.iter().map(|p| bval(p)).collect::<Vec<_>>()),
            ),
        ])
    };
    let torrent = |name: &str, files: Vec<Value>| {
        encode(&dict(vec![(
            "info",
            dict(vec![
                ("name", bval(name)),
                ("piece length", Value::Int(piece_len)),
                ("pieces", Value::Bytes(vec![0u8; 20])),
                ("files", Value::List(files)),
            ]),
        )]))
    };

    let long = "x".repeat(MAX_COMPONENT_BYTES + 1);
    let fits = "x".repeat(MAX_COMPONENT_BYTES);
    assert_eq!(
        MetaInfo::parse(&torrent("album", vec![file(vec![long.clone()])])).err(),
        Some(Error::Invalid(
            "path component longer than a filename can be"
        ))
    );
    // The name is a component too.
    assert_eq!(
        MetaInfo::parse(&torrent(&long, vec![file(vec!["a".into()])])).err(),
        Some(Error::Invalid(
            "path component longer than a filename can be"
        ))
    );
    MetaInfo::parse(&torrent("album", vec![file(vec![fits.clone()])]))
        .expect("a component at the limit");
    // Bytes, not characters: a multibyte name is measured as the
    // filesystem measures it.
    let wide = "é".repeat(MAX_COMPONENT_BYTES / 2 + 1);
    assert!(wide.len() > MAX_COMPONENT_BYTES);
    assert!(MetaInfo::parse(&torrent("album", vec![file(vec![wide])])).is_err());

    // Every component fits, the path does not.
    let deep: Vec<String> = (0..=MAX_PATH_BYTES / MAX_COMPONENT_BYTES)
        .map(|_| fits.clone())
        .collect();
    assert_eq!(
        MetaInfo::parse(&torrent("album", vec![file(deep)])).err(),
        Some(Error::Invalid("file path longer than a path can be"))
    );
}

#[test]
fn rejects_structural_garbage() {
    // Each case mutates the minimal torrent in one hostile way.
    let cases: Vec<Value> = vec![
        // missing info
        dict(vec![("announce", bval("http://t.i2p/a"))]),
        // piece length too small
        dict(vec![(
            "info",
            dict(vec![
                ("name", bval("x")),
                ("piece length", Value::Int(1024)),
                ("pieces", Value::Bytes(vec![0; 20])),
                ("length", Value::Int(5)),
            ]),
        )]),
        // pieces not a multiple of 20
        dict(vec![(
            "info",
            dict(vec![
                ("name", bval("x")),
                ("piece length", Value::Int(i64::from(MIN_PIECE_LENGTH))),
                ("pieces", Value::Bytes(vec![0; 19])),
                ("length", Value::Int(5)),
            ]),
        )]),
        // piece count disagrees with length
        dict(vec![(
            "info",
            dict(vec![
                ("name", bval("x")),
                ("piece length", Value::Int(i64::from(MIN_PIECE_LENGTH))),
                ("pieces", Value::Bytes(vec![0; 40])),
                ("length", Value::Int(5)),
            ]),
        )]),
        // path traversal
        dict(vec![(
            "info",
            dict(vec![
                ("name", bval("x")),
                ("piece length", Value::Int(i64::from(MIN_PIECE_LENGTH))),
                ("pieces", Value::Bytes(vec![0; 20])),
                (
                    "files",
                    Value::List(vec![dict(vec![
                        ("length", Value::Int(5)),
                        ("path", Value::List(vec![bval(".."), bval("etc")])),
                    ])]),
                ),
            ]),
        )]),
        // name with a separator
        dict(vec![(
            "info",
            dict(vec![
                ("name", bval("a/b")),
                ("piece length", Value::Int(i64::from(MIN_PIECE_LENGTH))),
                ("pieces", Value::Bytes(vec![0; 20])),
                ("length", Value::Int(5)),
            ]),
        )]),
        // negative length
        dict(vec![(
            "info",
            dict(vec![
                ("name", bval("x")),
                ("piece length", Value::Int(i64::from(MIN_PIECE_LENGTH))),
                ("pieces", Value::Bytes(vec![0; 20])),
                ("length", Value::Int(-5)),
            ]),
        )]),
    ];
    for (i, case) in cases.iter().enumerate() {
        let input = encode(case);
        assert!(
            matches!(MetaInfo::parse(&input), Err(Error::Invalid(_))),
            "case {i} was accepted"
        );
    }
    assert!(matches!(
        MetaInfo::parse(b"not bencode"),
        Err(Error::Bencode(_))
    ));
}

#[test]
fn priorities_follow_the_files() {
    let each = i64::from(MIN_PIECE_LENGTH);
    let file = |name: &str, len: i64| {
        dict(vec![("length", Value::Int(len)), ("path", Value::List(vec![bval(name)]))])
    };
    let info = dict(vec![
        ("name", bval("album")),
        ("piece length", Value::Int(each)),
        ("pieces", Value::Bytes(vec![0u8; 60])),
        // The middle file ends half way into the last piece.
        ("files", Value::List(vec![file("a", each), file("b", each + 10), file("c", 20)])),
    ]);
    let t = MetaInfo::parse(&encode(&dict(vec![("info", info)]))).unwrap();
    assert_eq!(t.pieces.len(), 3);
    // A piece that two files share takes the higher priority.
    assert_eq!(t.piece_priorities(&[1, 0, 2]), vec![1, 0, 2]);
    assert_eq!(t.piece_priorities(&[0, 2, 1]), vec![0, 2, 2]);
    assert_eq!(t.piece_priorities(&[0, 0, 0]), vec![0, 0, 0]);
}

#[test]
fn an_info_dict_alone_is_a_torrent() {
    let whole = MetaInfo::parse(&single_file(vec![])).unwrap();
    let alone = MetaInfo::from_info_dict(&whole.raw_info).unwrap();
    assert_eq!(alone.info_hash, whole.info_hash);
    assert_eq!(alone.name, "hello.txt");
    assert!(alone.trackers.is_empty());
    assert_eq!(InfoHash([0xA5; 20]).to_hex(), "a5".repeat(20));
}

#[test]
fn a_tracker_url_is_taken_apart() {
    let u = TrackerUrl::parse("http://OpenTracker.dg2.I2P:80/announce?x=1").unwrap();
    assert_eq!(u.host, "opentracker.dg2.i2p");
    assert_eq!(u.authority, "OpenTracker.dg2.I2P:80");
    assert_eq!(u.path_and_query, "/announce?x=1");
    let u = TrackerUrl::parse("http://t.i2p").unwrap();
    assert_eq!(u.path_and_query, "/");
    assert!(TrackerUrl::parse("https://t.i2p/").is_none());
}

#[test]
fn the_refusal_says_why() {
    let e = MetaInfo::parse(b"d8:announce1:xe").err().unwrap();
    assert_eq!(e, Error::Invalid("missing info dictionary"));
    assert!(e.message().contains("missing info dictionary"));
}

#[test]
fn a_query_ends_the_authority() {
    // The host ends at the first slash or question mark, whichever comes first.
    assert!(TrackerUrl::parse("http://evil.example?.i2p/announce").is_none());
    assert!(!is_i2p_tracker("http://evil.example?.i2p/announce"));
    let u = TrackerUrl::parse("http://t.i2p?x=/y").unwrap();
    assert_eq!(u.host, "t.i2p");
    assert_eq!(u.authority, "t.i2p");
    assert_eq!(u.path_and_query, "/?x=/y");
    let u = TrackerUrl::parse("http://t.i2p/a?b?c").unwrap();
    assert_eq!(u.path_and_query, "/a?b?c");
}

#[test]
fn a_url_holds_no_control_character_or_white_space() {
    for c in ['\0', '\t', ' ', '\u{7f}', '\u{85}', '\u{9f}', '\u{a0}', '\u{1680}', '\u{2028}', '\u{3000}'] {
        assert!(TrackerUrl::parse(&format!("http://t.i2p/a{c}b")).is_none(), "{c:?}");
        assert!(TrackerUrl::parse(&format!("http://t{c}.i2p/a")).is_none(), "{c:?}");
    }
    assert!(TrackerUrl::parse("http://t.i2p/caf\u{e9}").is_some());
}

#[test]
fn a_percent_escape_is_complete_wherever_it_stands() {
    for url in ["http://t.i2p/%", "http://t.i2p/a?b=%4", "http://t.i2p/%zz", "http://t%4.i2p/", "http://t%zz.i2p"] {
        assert!(TrackerUrl::parse(url).is_none(), "{url}");
    }
    assert!(TrackerUrl::parse("http://t.i2p/%41?x=%c3%A9").is_some());
}

#[test]
fn an_info_dict_is_taken_whole_or_not_at_all() {
    let whole = MetaInfo::parse(&single_file(vec![])).unwrap();
    let alone = MetaInfo::from_info_dict(&whole.raw_info).unwrap();
    assert_eq!(alone.raw_info, whole.raw_info);
    assert_eq!(alone.info_hash.0, <[u8; 20]>::from(Sha1::digest(&whole.raw_info)));
    assert_eq!(alone.skipped_trackers, 0);
    // Bytes after the dictionary, even if they continue the torrent.
    let mut more = whole.raw_info.clone();
    more.extend_from_slice(b"8:announce14:http://t.i2p/a");
    match MetaInfo::from_info_dict(&more) {
        Err(Error::Bencode(e)) => {
            assert_eq!(e.kind, bencode::ErrorKind::TrailingData);
            assert_eq!(e.offset, whole.raw_info.len());
        }
        _ => panic!("took bytes after the dictionary"),
    }
    let mut closed = whole.raw_info.clone();
    closed.push(b'e');
    assert!(MetaInfo::from_info_dict(&closed).is_err());
    assert!(MetaInfo::from_info_dict(&whole.raw_info[..whole.raw_info.len() - 1]).is_err());
}
