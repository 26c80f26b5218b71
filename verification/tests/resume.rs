use clove_core::resume::{bitfield_len, Error, Resume, VERSION};

fn sample() -> Resume {
    Resume {
        info_hash: [7; 20],
        num_pieces: 10,
        have: vec![0b1010_1010, 0b1100_0000],
        verified: vec![0b1010_1010, 0b1000_0000],
        priorities: vec![1, 0, 2],
        uploaded: 12345,
        downloaded: 67890,
        trackers: vec![vec!["http://t.i2p/a".into()], vec!["http://u.i2p/a".into()]],
        paused: true,
        sequential: true,
    }
}

fn without(encoded: &[u8], needle: &[u8]) -> Vec<u8> {
    let pos = encoded.windows(needle.len()).position(|w| w == needle).unwrap();
    let mut stripped = encoded[..pos].to_vec();
    stripped.extend_from_slice(&encoded[pos + needle.len()..]);
    stripped
}

#[test]
fn resume_round_trips() {
    let r = sample();
    assert_eq!(Resume::decode(&r.encode()).unwrap(), r);
}

#[test]
fn paused_round_trips_both_ways() {
    for paused in [false, true] {
        let mut r = sample();
        r.paused = paused;
        assert_eq!(Resume::decode(&r.encode()).unwrap().paused, paused);
    }
}

#[test]
fn a_file_without_paused_reads_as_not_paused() {
    // Strip the `paused` entry to simulate a v1 file.
    let mut r = sample();
    r.paused = false;
    let stripped = without(&r.encode(), b"6:pausedi0e");
    assert!(!Resume::decode(&stripped).unwrap().paused);
}

#[test]
fn a_file_without_sequential_reads_as_rarest_first() {
    // Strip the `sequential` entry to simulate a v2 file.
    let mut r = sample();
    r.sequential = false;
    let stripped = without(&r.encode(), b"10:sequentiali0e");
    assert!(!Resume::decode(&stripped).unwrap().sequential);
}

#[test]
fn refuses_the_future_cleanly() {
    let mut r = sample().encode();
    // Bump the version int in place past the current VERSION (3 -> 4).
    let pos = r.windows(9).position(|w| w == b"7:version").map(|p| p + 10);
    let pos = pos.unwrap();
    assert_eq!(r[pos], b'3');
    r[pos] = b'4';
    match Resume::decode(&r) {
        Err(Error::FutureVersion(4)) => {}
        other => panic!("expected FutureVersion, got {other:?}"),
    }
}

#[test]
fn refuses_unknown_keys() {
    // Splice an extra key into an otherwise valid file.
    let valid = sample().encode();
    let mut evil = b"d5:extrai1e".to_vec();
    evil.extend_from_slice(&valid[1..]);
    assert_eq!(
        Resume::decode(&evil),
        Err(Error::Invalid("unknown key: version discipline violated"))
    );
}

#[test]
fn validates_bitfields() {
    // Wrong length.
    let mut r = sample();
    r.have = vec![0xFF];
    assert!(matches!(Resume::decode(&r.encode()), Err(Error::Invalid(_))));

    // Stray bit past num_pieces (10 pieces -> 6 trailing bits must be 0).
    let mut r = sample();
    r.verified = vec![0xFF, 0b1100_0001];
    assert!(matches!(Resume::decode(&r.encode()), Err(Error::Invalid(_))));
}

#[test]
fn validates_fields() {
    let mut r = sample();
    r.priorities = vec![3];
    assert!(matches!(Resume::decode(&r.encode()), Err(Error::Invalid(_))));

    for garbage in [&b""[..], b"le", b"d1:ai1ee", b"i42e"] {
        assert!(Resume::decode(garbage).is_err(), "accepted {garbage:?}");
    }
}

#[test]
fn truncation_or_flips_never_pass() {
    // Paranoia sweep: no prefix of a valid file decodes.
    let valid = sample().encode();
    for cut in 0..valid.len() {
        assert!(Resume::decode(&valid[..cut]).is_err(), "prefix {cut} decoded");
    }
}

#[test]
fn the_messages_say_what_to_do() {
    assert_eq!(bitfield_len(10), 2);
    assert_eq!(VERSION, 3);
    assert!(Error::FutureVersion(-4).message().contains("-4"));
    assert!(Error::Invalid("bad").message().contains("bad"));
}

#[test]
fn only_a_consistent_state_is_read_back() {
    let mut r = sample();
    r.num_pieces = 0;
    r.have = vec![];
    r.verified = vec![];
    assert!(matches!(Resume::decode(&r.encode()), Err(Error::Invalid(_))));

    // Verified but not held.
    let mut r = sample();
    r.verified = vec![0b0100_0000, 0];
    assert!(matches!(Resume::decode(&r.encode()), Err(Error::Invalid(_))));

    let mut r = sample();
    r.verified = vec![0, 0];
    r.trackers = vec![vec![], vec!["caf\u{e9}".to_owned()]];
    assert_eq!(Resume::decode(&r.encode()).unwrap(), r.clone());
}

#[test]
fn a_counter_past_the_format_comes_back_at_its_limit() {
    let mut r = sample();
    r.uploaded = u64::MAX;
    let back = Resume::decode(&r.encode()).unwrap();
    assert_eq!(back.uploaded, i64::MAX as u64);
    assert_eq!(back.downloaded, r.downloaded);
}
