use clove_core::wire::{
    declared_length, read_frame, read_frame_into, write_message, BlockRequest, Error, Extensions,
    FrameError, FrameSource, Handshake, HandshakeError, Message, BLOCK_LEN, HANDSHAKE_LEN,
    ID_CHOKE, ID_EXTENDED, ID_HAVE, ID_PIECE, ID_REQUEST, MAX_MESSAGE_LEN,
};

fn roundtrip(msg: &Message) {
    let frame = msg.encode();
    // First four bytes are the body length.
    let declared = u32::from_be_bytes([frame[0], frame[1], frame[2], frame[3]]);
    assert_eq!(declared as usize, frame.len() - 4, "length prefix for {msg:?}");
    let parsed = Message::parse(&frame[4..]).unwrap();
    assert_eq!(&parsed, msg);
}

#[test]
fn all_messages_round_trip() {
    let block = BlockRequest { index: 3, begin: 16384, length: BLOCK_LEN };
    for msg in [
        Message::KeepAlive,
        Message::Choke,
        Message::Unchoke,
        Message::Interested,
        Message::NotInterested,
        Message::Have(42),
        Message::Bitfield(vec![0xAB, 0xCD]),
        Message::Request(block),
        Message::Piece { index: 1, begin: 0, block: vec![9; 100] },
        Message::Cancel(block),
        Message::HaveAll,
        Message::HaveNone,
        Message::SuggestPiece(7),
        Message::RejectRequest(block),
        Message::AllowedFast(7),
        Message::Extended { id: 0, payload: b"d1:md6:ut_pexi1eee".to_vec() },
    ] {
        roundtrip(&msg);
    }
}

#[test]
fn keep_alive_is_empty_frame() {
    assert_eq!(Message::KeepAlive.encode(), vec![0, 0, 0, 0]);
    assert_eq!(Message::parse(&[]).unwrap(), Message::KeepAlive);
}

#[test]
fn rejects_malformed_bodies() {
    assert_eq!(Message::parse(&[ID_CHOKE, 0]), Err(Error::BadLength));
    assert_eq!(Message::parse(&[ID_HAVE, 0, 0]), Err(Error::BadLength));
    assert_eq!(Message::parse(&[ID_REQUEST, 0, 0]), Err(Error::BadLength));
    assert_eq!(Message::parse(&[ID_EXTENDED]), Err(Error::BadLength));
    assert_eq!(Message::parse(&[99]), Err(Error::UnknownId(99)));
}

#[test]
fn rejects_oversized_blocks() {
    // request with length = BLOCK_LEN + 1
    let mut body = vec![ID_REQUEST];
    body.extend_from_slice(&1u32.to_be_bytes());
    body.extend_from_slice(&0u32.to_be_bytes());
    body.extend_from_slice(&(BLOCK_LEN + 1).to_be_bytes());
    assert_eq!(Message::parse(&body), Err(Error::BlockTooLarge));

    // piece with an oversized block
    let mut body = vec![ID_PIECE];
    body.extend_from_slice(&0u32.to_be_bytes());
    body.extend_from_slice(&0u32.to_be_bytes());
    body.extend(vec![0u8; BLOCK_LEN as usize + 1]);
    assert_eq!(Message::parse(&body), Err(Error::BlockTooLarge));
}

#[test]
fn handshake_round_trip_with_extensions() {
    let hs = Handshake {
        info_hash: [1; 20],
        peer_id: *b"-CV0001-abcdefghijkl",
        extensions: Extensions { extended: true, fast: true },
    };
    let encoded = hs.encode();
    assert_eq!(encoded.len(), HANDSHAKE_LEN);
    assert_eq!(Handshake::parse(&encoded).unwrap(), hs);

    // No extensions.
    let plain = Handshake { extensions: Extensions::default(), ..hs };
    assert_eq!(Handshake::parse(&plain.encode()).unwrap(), plain);
}

#[test]
fn handshake_rejects_wrong_protocol() {
    let mut buf = [0u8; HANDSHAKE_LEN];
    buf[0] = 19;
    buf[1..20].copy_from_slice(b"NotTorrent protocol");
    assert_eq!(Handshake::parse(&buf), Err(HandshakeError::BadProtocol));
}

#[test]
fn framing_over_a_reader() {
    let mut buf = Vec::new();
    write_message(&mut buf, &Message::Have(5));
    write_message(&mut buf, &Message::Piece { index: 0, begin: 0, block: vec![1, 2, 3] });

    let mut cursor = FrameSource::new(buf);
    let f1 = read_frame(&mut cursor, MAX_MESSAGE_LEN).unwrap();
    assert_eq!(Message::parse(&f1).unwrap(), Message::Have(5));
    let f2 = read_frame(&mut cursor, MAX_MESSAGE_LEN).unwrap();
    assert_eq!(
        Message::parse(&f2).unwrap(),
        Message::Piece { index: 0, begin: 0, block: vec![1, 2, 3] }
    );
}

/// A peer's reader keeps one buffer for the life of the connection, so a long
/// frame followed by a short one must leave nothing of the long one behind.
#[test]
fn a_reused_frame_buffer_carries_nothing_between_messages() {
    let mut buf = Vec::new();
    write_message(&mut buf, &Message::Piece { index: 7, begin: 0, block: vec![0xAB; 4096] });
    write_message(&mut buf, &Message::Have(5));
    write_message(&mut buf, &Message::KeepAlive);
    write_message(&mut buf, &Message::Interested);

    let mut cursor = FrameSource::new(buf);
    let mut body = Vec::new();
    let expected = [
        Message::Piece { index: 7, begin: 0, block: vec![0xAB; 4096] },
        Message::Have(5),
        Message::KeepAlive,
        Message::Interested,
    ];
    for want in expected {
        read_frame_into(&mut cursor, MAX_MESSAGE_LEN, &mut body).unwrap();
        assert_eq!(Message::parse(&body).unwrap(), want);
    }
    // And the stream is exhausted, not merely re-reading the last buffer.
    assert!(read_frame_into(&mut cursor, MAX_MESSAGE_LEN, &mut body).is_err());
}

#[test]
fn framing_rejects_oversized_declared_length() {
    let mut evil = Vec::new();
    evil.extend_from_slice(&(5000u32).to_be_bytes());
    let mut cursor = FrameSource::new(evil);
    let err = read_frame(&mut cursor, 100).unwrap_err();
    assert_eq!(err, FrameError::Oversized);
}

#[test]
fn a_frame_that_is_not_all_there_is_truncated() {
    let mut cursor = FrameSource::new(vec![0, 0, 0, 5, 4]);
    assert_eq!(read_frame(&mut cursor, MAX_MESSAGE_LEN), Err(FrameError::Truncated));
    assert_eq!(declared_length(&[0, 0, 1, 2], MAX_MESSAGE_LEN), Ok(258));
}

#[test]
fn errors_say_what_was_wrong() {
    assert_eq!(Error::UnknownId(99).message(), "wire: unknown message id 99");
    assert_eq!(Error::BadLength.message(), "wire: message body has the wrong length");
    assert_eq!(HandshakeError::BadProtocol.message(), "wire: not a BitTorrent handshake");
}
