use clove_core::metadata::{
    Error, MetadataAssembler, MetadataMessage, MetadataRequestBudget, MAX_METADATA_SIZE,
    METADATA_PIECE_LEN, METADATA_REQUEST_LIMIT,
};
use sha1::{Digest, Sha1};

#[test]
fn message_round_trips() {
    for msg in [
        MetadataMessage::Request { piece: 3 },
        MetadataMessage::Reject { piece: 7 },
        MetadataMessage::Data { piece: 0, total_size: 100, data: vec![9; 50] },
    ] {
        assert_eq!(MetadataMessage::parse(&msg.encode()).unwrap(), msg);
    }
}

#[test]
fn data_message_separates_header_from_bytes() {
    let msg = MetadataMessage::Data { piece: 1, total_size: 20000, data: vec![0xAB; 3616] };
    let encoded = msg.encode();
    // The trailing raw bytes are exactly the piece data.
    assert!(encoded.ends_with(&[0xAB; 3616]));
    assert_eq!(MetadataMessage::parse(&encoded).unwrap(), msg);
}

#[test]
fn rejects_oversized_piece_and_garbage() {
    let msg = MetadataMessage::Data {
        piece: 0,
        total_size: 999_999,
        data: vec![0; METADATA_PIECE_LEN + 1],
    };
    assert_eq!(MetadataMessage::parse(&msg.encode()), Err(Error::PieceTooLarge));
    assert_eq!(MetadataMessage::parse(b"garbage"), Err(Error::Malformed));
}

/// A peer gets its budget, then a refusal until the window turns over; asking
/// while refused does not push the window out.
#[test]
fn request_budget_limits_a_peer_per_window() {
    let window: u64 = 10_000;
    let mut budget = MetadataRequestBudget::new(3, window);
    let t0: u64 = 5_000_000;
    assert_eq!(budget.remaining(), 3);
    assert!(budget.allow(t0));
    assert!(budget.allow(t0 + 1_000));
    assert!(budget.allow(t0 + 2_000));
    assert_eq!(budget.remaining(), 0);
    // Spent: refused for the rest of the window, however often asked.
    for s in 3..10 {
        assert!(!budget.allow(t0 + s * 1_000), "at +{s}s");
    }
    // The window turns over from its start, not from the last refusal.
    assert!(budget.allow(t0 + window));
    assert_eq!(budget.remaining(), 2);
    // A long silence starts a fresh window rather than carrying debt.
    assert!(budget.allow(t0 + window * 5));
    assert_eq!(budget.remaining(), 2);

    // The default is what a honest fetch never notices: every piece of the
    // largest allowed blob, once, fits in a few windows.
    let mut default = MetadataRequestBudget::default();
    let served = (0..=METADATA_REQUEST_LIMIT).filter(|_| default.allow(t0)).count();
    assert_eq!(served, usize::try_from(METADATA_REQUEST_LIMIT).unwrap());
    assert!(
        MAX_METADATA_SIZE / METADATA_PIECE_LEN
            <= usize::try_from(METADATA_REQUEST_LIMIT).unwrap() * 4
    );
}

#[test]
fn assembler_rejects_absurd_size() {
    assert_eq!(MetadataAssembler::new(0).err(), Some(Error::BadSize));
    assert_eq!(MetadataAssembler::new(MAX_METADATA_SIZE + 1).err(), Some(Error::BadSize));
}

#[test]
fn assembles_and_verifies() {
    // Two-piece metadata: 16384 + 100 bytes.
    let mut info: Vec<u8> =
        (0..METADATA_PIECE_LEN).map(|i| u8::try_from(i % 256).unwrap_or(0)).collect();
    info.extend(std::iter::repeat(0xEE).take(100));
    let hash: [u8; 20] = Sha1::digest(&info).into();

    let mut parts = MetadataAssembler::new(info.len()).unwrap();
    assert_eq!(parts.num_pieces(), 2);
    assert_eq!(parts.missing(), vec![0, 1]);

    parts.add_piece(1, &info[METADATA_PIECE_LEN..]).unwrap();
    assert!(!parts.is_complete());
    assert_eq!(parts.missing(), vec![0]);
    parts.add_piece(0, &info[..METADATA_PIECE_LEN]).unwrap();
    assert!(parts.is_complete());

    assert_eq!(parts.finish(hash), Some(info.clone()));
    // Wrong hash -> refused, even though complete.
    assert_eq!(parts.finish([0; 20]), None);
}

#[test]
fn assembler_rejects_bad_pieces() {
    let mut parts = MetadataAssembler::new(200).unwrap();
    assert_eq!(parts.add_piece(5, &[0; 200]), Err(Error::BadPiece)); // OOB index
    // A huge index is out of range, not an offset that wrapped into range.
    for huge in [1 << 18, u32::MAX / 2, u32::MAX] {
        assert_eq!(parts.piece_len(huge), 0, "index {huge}");
        assert_eq!(parts.add_piece(huge, &[]), Err(Error::BadPiece));
    }
    assert_eq!(parts.add_piece(0, &[0; 199]), Err(Error::BadPiece)); // wrong length
    assert!(parts.add_piece(0, &[0; 200]).is_ok());
}

#[test]
fn a_piece_is_kept_as_it_first_arrived() {
    let mut parts = MetadataAssembler::new(4).unwrap();
    parts.add_piece(0, b"good").unwrap();
    parts.add_piece(0, b"evil").unwrap();
    let hash: [u8; 20] = Sha1::digest(b"good").into();
    assert_eq!(parts.finish(hash), Some(b"good".to_vec()));
}
