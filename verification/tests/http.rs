use clove_core::http::{
    percent_decode, percent_encode, read_response, response_settled, Error, Request,
    MAX_HEADER_BYTES,
};

#[test]
fn encodes_a_get() {
    let req = Request {
        method: "GET",
        target: "/announce?x=1",
        host: "tracker.i2p",
        headers: &[("User-Agent", "clove/0.1")],
    };
    let s = String::from_utf8(req.encode().unwrap()).unwrap();
    assert_eq!(
        s,
        "GET /announce?x=1 HTTP/1.1\r\nHost: tracker.i2p\r\nUser-Agent: clove/0.1\r\nConnection: close\r\n\r\n"
    );
}

#[test]
fn reads_content_length_response() {
    let raw = b"HTTP/1.1 200 OK\r\nContent-Length: 5\r\nContent-Type: text/plain\r\n\r\nhello";
    let resp = read_response(raw, 1024).unwrap();
    assert_eq!(resp.status, 200);
    assert_eq!(resp.body, b"hello");
    assert_eq!(resp.header("content-type"), Some("text/plain"));
    assert_eq!(resp.header("CONTENT-TYPE"), Some("text/plain"));
}

#[test]
fn reads_close_delimited_response() {
    let raw = b"HTTP/1.1 200 OK\r\nContent-Type: x\r\n\r\nbencoded-body-here";
    let resp = read_response(raw, 1024).unwrap();
    assert_eq!(resp.body, b"bencoded-body-here");
}

#[test]
fn rejects_bad_and_oversized() {
    // Non-HTTP.
    assert!(matches!(read_response(b"garbage\r\n\r\n", 1024), Err(Error::BadResponse(_))));

    // Content-Length beyond max_body.
    let raw = b"HTTP/1.1 200 OK\r\nContent-Length: 9999\r\n\r\n";
    assert!(matches!(read_response(raw, 16), Err(Error::BodyTooLarge)));

    // Head with no terminator, hitting EOF.
    assert!(matches!(
        read_response(b"HTTP/1.1 200 OK\r\nX: y", 1024),
        Err(Error::BadResponse(_))
    ));
}

#[test]
fn percent_encoding_matches_spec() {
    assert_eq!(percent_encode(b"AZaz09-_.~"), "AZaz09-_.~");
    assert_eq!(percent_encode(&[0x00, 0xFF, b' ', b'/']), "%00%FF%20%2F");
    // A realistic 20-byte info_hash of zeros.
    assert_eq!(percent_encode(&[0u8; 3]), "%00%00%00");
}

#[test]
fn percent_decode_round_trips_and_passes_plus() {
    assert_eq!(percent_decode("hello%20world"), b"hello world");
    assert_eq!(percent_decode("a+b"), b"a+b"); // '+' is literal
    assert_eq!(percent_decode(&percent_encode(&[0u8, 0xFF, b'/'])), vec![0, 0xFF, b'/']);
    assert_eq!(percent_decode("%zz"), b"%zz"); // invalid escape passes through
}

#[test]
fn a_request_never_grows_a_line() {
    let req = Request {
        method: "GET",
        target: "/a\r\nX-Evil: 1",
        host: "tracker.i2p",
        headers: &[],
    };
    assert!(req.encode().is_none());
    let req = Request { target: "/a", ..req };
    assert_eq!(
        req.encode().unwrap(),
        b"GET /a HTTP/1.1\r\nHost: tracker.i2p\r\nConnection: close\r\n\r\n".to_vec()
    );
    let req = Request { method: "GET\n", ..req };
    assert!(req.encode().is_none());
    let req = Request { method: "GET", headers: &[("X\r", "1")], ..req };
    assert!(req.encode().is_none());
}

#[test]
fn reads_a_chunked_response() {
    let raw = b"HTTP/1.1 200 OK\r\nTransfer-Encoding: chunked\r\n\r\n4\r\nspam\r\n3;x=y\r\nham\r\n0\r\n\r\n";
    let resp = read_response(raw, 1024).unwrap();
    assert_eq!(resp.body, b"spamham");
    assert!(matches!(read_response(raw, 5), Err(Error::BodyTooLarge)));
    assert!(matches!(
        read_response(
            b"HTTP/1.1 200 OK\r\nTransfer-Encoding: gzip\r\n\r\nx",
            1024
        ),
        Err(Error::BadResponse(_))
    ));
}

#[test]
fn a_settled_response_does_not_change() {
    let head = b"HTTP/1.1 200 OK\r\nContent-Length: 5\r\n\r\nhel".to_vec();
    assert!(!response_settled(&head, 1024));
    let mut whole = head.clone();
    whole.extend_from_slice(b"lo");
    assert!(response_settled(&whole, 1024));
    let mut more = whole.clone();
    more.extend_from_slice(b"trailing");
    assert_eq!(read_response(&whole, 1024).unwrap().body, read_response(&more, 1024).unwrap().body);
    // A body that the stream ends is never settled before it ends, unless it is
    // too large already.
    assert!(!response_settled(b"HTTP/1.1 200 OK\r\n\r\nhello", 1024));
    assert!(response_settled(b"HTTP/1.1 200 OK\r\n\r\nhello", 4));
    assert!(matches!(
        read_response(b"HTTP/1.1 200 OK\r\n\r\nhello", 4),
        Err(Error::BodyTooLarge)
    ));
}

#[test]
fn a_short_body_is_truncated() {
    let raw = b"HTTP/1.1 200 OK\r\nContent-Length: 9\r\n\r\nhello";
    assert!(matches!(read_response(raw, 1024), Err(Error::Truncated)));
    let mut long = b"HTTP/1.1 200 OK\r\nX: ".to_vec();
    long.extend(vec![b'y'; MAX_HEADER_BYTES + 1]);
    long.extend_from_slice(b"\r\n\r\n");
    assert!(read_response(&long, 1024).is_err());
    assert!(!Error::Truncated.message().is_empty());
}
