use clove_core::bencode::{encode, Dict, Value};
use clove_core::dest::DestHash;
use clove_core::http::{self, Request};
use clove_core::metainfo::is_i2p_tracker;
use clove_core::tracker::{
    announced_url, build_announce, describe_page, find_title, find_words, parse_response, read_announce, redact_ip_param, AnnounceParams,
    AnnounceState, Error, Event, MAX_TRACKER_TEXT, PREVIEW_LEN, USER_AGENT,
};

fn params() -> AnnounceParams<'static> {
    AnnounceParams {
        info_hash: [0xAB; 20],
        peer_id: *b"-CV0001-abcdefghijkl",
        uploaded: 100,
        downloaded: 200,
        left: 300,
        event: Event::Started,
        numwant: 50,
        our_dest_b64: "MYDESTb64",
    }
}

#[test]
fn builds_announce_preserving_existing_query() {
    let (host, req) =
        build_announce("http://tracker.postman.i2p/announce.php?x=1", &params()).unwrap();
    assert_eq!(host, "tracker.postman.i2p");
    let s = String::from_utf8(req).unwrap();
    assert!(s.starts_with("GET /announce.php?x=1&info_hash="));
    assert!(s.contains("&compact=1"));
    assert!(s.contains("&ip=MYDESTb64"));
    assert!(s.contains("&event=started"));
    assert!(s.contains("Host: tracker.postman.i2p\r\n"));
    // info_hash of 0xAB bytes percent-encodes to %AB repeated.
    assert!(s.contains(&format!("info_hash={}", "%AB".repeat(20))));
}

#[test]
fn periodic_event_has_no_event_param() {
    let mut p = params();
    p.event = Event::Periodic;
    let (_, req) = build_announce("http://t.i2p/a", &p).unwrap();
    let s = String::from_utf8(req).unwrap();
    assert!(!s.contains("event="));
    assert!(s.starts_with("GET /a?info_hash="));
}

#[test]
fn rejects_non_i2p_url() {
    assert!(matches!(
        build_announce("udp://t.i2p/a", &params()),
        Err(Error::BadUrl)
    ));
}

fn dict(entries: Vec<(&str, Value)>) -> Value {
    let mut map = Dict::new();
    for (k, v) in entries {
        map.insert(k.as_bytes().to_vec(), v);
    }
    Value::Dict(map)
}

#[test]
fn parses_compact_response() {
    let mut peers = Vec::new();
    peers.extend_from_slice(&[0x11; 32]);
    peers.extend_from_slice(&[0x22; 32]);
    let body = encode(&dict(vec![
        ("interval", Value::Int(1800)),
        ("min interval", Value::Int(900)),
        ("peers", Value::Bytes(peers)),
    ]));
    let resp = parse_response(&body).unwrap();
    assert_eq!(resp.interval, 1800);
    assert_eq!(resp.min_interval, Some(900));
    assert_eq!(resp.peers, vec![DestHash([0x11; 32]), DestHash([0x22; 32])]);
}

#[test]
fn rejects_misaligned_compact_peers() {
    let body = encode(&dict(vec![
        ("interval", Value::Int(60)),
        ("peers", Value::Bytes(vec![0u8; 33])),
    ]));
    assert!(matches!(parse_response(&body), Err(Error::BadResponse(_))));
}

#[test]
fn surfaces_tracker_failure() {
    let body = encode(&dict(vec![(
        "failure reason",
        Value::Bytes(b"torrent not registered".to_vec()),
    )]));
    match parse_response(&body) {
        Err(Error::TrackerFailure(r)) => assert_eq!(r, "torrent not registered"),
        other => panic!("expected TrackerFailure, got {other:?}"),
    }
}

#[test]
fn empty_peers_is_valid() {
    let body = encode(&dict(vec![("interval", Value::Int(1800))]));
    let resp = parse_response(&body).unwrap();
    assert!(resp.peers.is_empty());
}

#[test]
fn state_machine_timing_and_events() {
    let mut st = AnnounceState::new();
    assert!(st.due(0));
    assert_eq!(st.next_event(false), Event::Started);

    // Success at t=0 with a 1800s interval -> next due at 1800.
    st.on_success(0, 1800, Event::Started);
    assert!(!st.due(1799));
    assert!(st.due(1800));
    assert_eq!(st.next_event(false), Event::Periodic);
    assert_eq!(st.next_event(true), Event::Completed);

    // A tiny interval is floored to MIN_ANNOUNCE_INTERVAL.
    st.on_success(2000, 5, Event::Periodic);
    assert!(!st.due(2000 + 59));
    assert!(st.due(2000 + 60));
}

#[test]
fn completed_is_reported_once_and_only_once() {
    // A tracker counts a snatch per `completed` event, so a seeding torrent
    // that reports it on every periodic announce inflates the count for as
    // long as it stays up.
    let mut st = AnnounceState::new();
    assert_eq!(st.next_event(false), Event::Started);
    st.on_success(0, 60, Event::Started);

    assert_eq!(st.next_event(true), Event::Completed);
    st.on_success(60, 60, Event::Completed);
    assert_eq!(
        st.next_event(true),
        Event::Periodic,
        "completed was reported twice"
    );
    st.on_success(120, 60, Event::Periodic);
    assert_eq!(st.next_event(true), Event::Periodic);

    // A torrent that completes later still gets its one report.
    let mut later = AnnounceState::new();
    later.on_success(0, 60, Event::Started);
    assert_eq!(later.next_event(false), Event::Periodic);
    later.on_success(60, 60, Event::Periodic);
    assert_eq!(later.next_event(true), Event::Completed);
}

#[test]
fn build_announce_refuses_what_the_filter_drops() {
    // The property that keeps the two in step: anything metainfo keeps,
    // the announcer can build; anything it drops, the announcer refuses.
    for url in [
        "http://tracker.postman.i2p/announce.php",
        "http://opentracker.dg2.i2p:80/announce",
        "http://x.b32.i2p/a?x=1",
    ] {
        assert!(is_i2p_tracker(url), "{url}");
        build_announce(url, &params()).expect(url);
    }
    for url in [
        "https://tracker.example.i2p/announce",
        "http://tracker.example.org/announce",
        "udp://tracker.example.i2p/announce",
        "http://1.2.3.4:6969/announce",
        "http://evil@host.i2p/announce",
        "not a url",
        // Fragments, ports that are none, and hosts with empty labels.
        "http://tracker.i2p#frag/announce",
        "http://tracker.i2p/announce#frag",
        "http://tracker.i2p:/announce",
        "http://tracker.i2p:0/announce",
        "http://tracker.i2p:99999/announce",
        "http://tracker.i2p:80x/announce",
        "http://.i2p/announce",
        "http://a..i2p/announce",
        // Control characters anywhere: the path is written into a request
        // line verbatim and into a log line after that.
        "http://tracker.i2p/announce\r\nX-Evil: 1",
        "http://tracker.i2p/announce\nX-Evil: 1",
        "http://track\rer.i2p/announce",
        "http://tracker.i2p/ann ounce",
        // A percent escape that is not one.
        "http://tracker.i2p/announce?x=%zz",
        "http://tracker.i2p/announce?x=%4",
    ] {
        assert!(!is_i2p_tracker(url), "{url}");
        assert!(
            matches!(build_announce(url, &params()), Err(Error::BadUrl)),
            "{url} was built into an announce"
        );
    }
}

/// A query with no path is a query, not a hostname.
#[test]
fn a_query_with_no_path_is_not_part_of_the_hostname() {
    let (host, request) = build_announce("http://tracker.i2p?x=1", &params()).expect("built");
    assert_eq!(host, "tracker.i2p");
    let text = String::from_utf8(request).expect("ascii");
    assert!(text.starts_with("GET /?x=1&info_hash="), "{text}");
    assert!(text.contains("Host: tracker.i2p\r\n"), "{text}");
}

/// The dial gets the host; the `Host` header gets the authority.
///
/// A port is meaningful to HTTP and meaningless to SAM naming, which
/// resolves a name to a destination.
#[test]
fn a_port_reaches_the_host_header_but_never_the_naming_lookup() {
    let (host, request) =
        build_announce("http://opentracker.dg2.i2p:80/announce", &params()).expect("built");
    assert_eq!(host, "opentracker.dg2.i2p", "the port must not be dialed");
    let text = String::from_utf8(request).expect("ascii");
    assert!(text.contains("Host: opentracker.dg2.i2p:80\r\n"), "{text}");
}

/// Nothing a `.torrent` can say puts an extra line in the request we send.
///
/// Belt and braces, because the two halves fail independently: the URL is
/// refused at parse time, and the encoder refuses the request even if
/// something else built one.
#[test]
fn a_torrent_cannot_inject_a_header_into_our_announce() {
    assert!(matches!(
        build_announce("http://t.i2p/a\r\nX-Evil: 1", &params()),
        Err(Error::BadUrl)
    ));
    assert!(
        Request {
            method: "GET",
            target: "/a\r\nX-Evil: 1",
            host: "t.i2p",
            headers: &[],
        }
        .encode()
        .is_none(),
        "the encoder must refuse a target that breaks the message"
    );
    assert!(
        Request {
            method: "GET",
            target: "/a",
            host: "t.i2p\r\nX-Evil: 1",
            headers: &[],
        }
        .encode()
        .is_none(),
        "and a host that does"
    );
    assert!(
        Request {
            method: "GET",
            target: "/a",
            host: "t.i2p",
            headers: &[("X", "1\r\nX-Evil: 1")],
        }
        .encode()
        .is_none(),
        "and a header value that does"
    );
}

/// A tracker does not get to write our log for us.
#[test]
fn a_tracker_failure_message_cannot_forge_a_log_line() {
    let body = encode(&dict(vec![(
        "failure reason",
        Value::Bytes(b"nope\r\ncloved: everything is fine\x1b[2J".to_vec()),
    )]));
    let Err(Error::TrackerFailure(text)) = parse_response(&body) else {
        panic!("a failure reason must surface as one");
    };
    assert!(
        !text.contains('\n') && !text.contains('\r') && !text.contains('\x1b'),
        "control characters survived: {text:?}"
    );
    assert!(
        text.starts_with("nope"),
        "the message is still readable: {text}"
    );

    // And a tracker cannot decide how much of the log it occupies.
    let long = encode(&dict(vec![(
        "failure reason",
        Value::Bytes(vec![b'x'; 10_000]),
    )]));
    let Err(Error::TrackerFailure(text)) = parse_response(&long) else {
        panic!("expected a failure reason");
    };
    assert!(
        text.chars().count() <= MAX_TRACKER_TEXT + 1,
        "{}",
        text.len()
    );
}

#[test]
fn failure_backoff_grows_and_caps() {
    let mut st = AnnounceState::new();
    st.on_failure(0);
    assert!(st.due(30) && !st.due(29)); // 30s
    st.on_failure(30);
    assert!(st.due(30 + 60) && !st.due(30 + 59)); // 60s
    // Many failures cap at max_backoff (30 min).
    for t in 0..20 {
        st.on_failure(t);
    }
    assert!(st.due(20 + 30 * 60));
}

/// What gets logged when a tracker refuses an announce must be the URL that was
/// actually sent: every parameter an operator might bisect, except the one that
/// is our own identity.
#[test]
fn the_announced_url_is_reassembled_from_the_wire() {
    let (host, request) =
        build_announce("http://tracker2.postman.i2p/announce.php", &params()).unwrap();
    let url = announced_url(&host, &request);
    assert!(url.starts_with("http://tracker2.postman.i2p/announce.php?info_hash="));
    assert!(
        !url.contains("MYDESTb64"),
        "our destination must not reach a log: {url}"
    );
    assert!(url.contains("&ip=<redacted>"), "{url}");
    // Everything else survives, or the line stops being worth logging.
    assert!(url.contains("&compact=1"), "{url}");
    assert!(url.contains("&event=started"), "{url}");
    assert!(
        url.contains(&format!("info_hash={}", "%AB".repeat(20))),
        "{url}"
    );
    assert!(
        !url.contains("HTTP/1.1"),
        "the version is not part of it: {url}"
    );
    assert!(
        !url.contains('\r') && !url.contains('\n'),
        "one line: {url}"
    );

    // Garbage in, something harmless out.
    assert_eq!(announced_url("h", b""), "http://h/");
    assert_eq!(announced_url("h", b"GET"), "http://h/");
    assert_eq!(announced_url("h", &[0xff, 0xfe]), "http://h/");
}

#[test]
fn announce_over_a_chunked_stream() {
    let mut peers = Vec::new();
    peers.extend_from_slice(&[0x77; 32]);
    peers.extend_from_slice(&[0x88; 32]);
    let body = encode(&dict(vec![
        ("interval", Value::Int(1800)),
        ("peers", Value::Bytes(peers)),
    ]));

    // Two chunks, split at an arbitrary byte, as a webserver would.
    let split = body.len() / 2;
    let mut raw = b"HTTP/1.1 200 OK\r\nTransfer-Encoding: chunked\r\n\r\n".to_vec();
    for part in [&body[..split], &body[split..]] {
        raw.extend_from_slice(format!("{:x}\r\n", part.len()).as_bytes());
        raw.extend_from_slice(part);
        raw.extend_from_slice(b"\r\n");
    }
    raw.extend_from_slice(b"0\r\n\r\n");

    let response = read_announce(&raw).expect("chunked announce");
    assert_eq!(response.interval, 1800);
    assert_eq!(response.peers.len(), 2);
}

/// `completed` is owed the moment a download finishes, not whenever the
/// tracker's interval next comes round, and `completion_due` is the only
/// automatic thing allowed to say so.
#[test]
fn finishing_brings_the_completion_announce_forward_exactly_once() {
    let mut st = AnnounceState::new();
    // Nothing to bring forward before the first announce: there is no
    // `completed` without a `started`.
    st.completion_due();
    assert_eq!(st.next_event(false), Event::Started);
    st.on_success(1_000, 1_800, Event::Started);
    assert!(!st.due(1_100), "the tracker asked for half an hour");

    // Finishing overrides that, once.
    st.completion_due();
    assert!(st.due(1_100), "a finished download waited out the interval");
    assert_eq!(st.next_event(true), Event::Completed);
    st.on_success(1_100, 1_800, Event::Completed);

    // And never again: the snatch has been reported, so this cannot become
    // a way to bypass the interval a second time.
    assert!(!st.due(1_200));
    st.completion_due();
    assert!(!st.due(1_200), "completion_due fired twice");
    assert_eq!(st.next_event(true), Event::Periodic);
}

/// A client that already held the file has no download to report. Sending
/// one has the tracker count a snatch that never happened.
#[test]
fn a_torrent_that_was_already_complete_reports_no_snatch() {
    let mut already = AnnounceState::already_complete();
    assert_eq!(already.next_event(true), Event::Started, "still says hello");
    already.on_success(0, 60, Event::Started);
    assert_eq!(
        already.next_event(true),
        Event::Periodic,
        "a resumed seed reported a download it never did"
    );
    already.completion_due();
    assert!(
        !already.due(1),
        "and cannot bring an announce forward either"
    );

    // The contrast: a torrent that finished while we watched does report.
    let mut earned = AnnounceState::new();
    earned.on_success(0, 60, Event::Started);
    assert_eq!(earned.next_event(true), Event::Completed);
}

#[test]
fn a_non_bencode_body_reports_what_it_actually_was() {
    let html = b"<html><head><title>500 Internal Server Error</title></head>";
    let Err(e) = parse_response(html) else {
        panic!("HTML is not a valid announce response");
    };
    let text = e.message();
    assert!(
        text.contains("HTML page") && text.contains("500 Internal Server Error"),
        "the error must identify the page, got: {text}"
    );

    let page = "<!DOCTYPE html>\n<html>\n<head>\n<style type=\"text/css\">\n:root{\n\
         --border_table:inset 0 0 0 1px rgba(255,255,255,.3);\n\
         --postman:url(\"data:image/svg+xml,%3Csvg xmlns='http://www.w3.org/2000/svg'\
         %3E%3Cpath fill='%23ffe1b2' d='M19.2 27.4c-1.4-.4-2.4.4-2.4 2 0 2 2 7 4 4z'\
         /%3E%3C/svg%3E\");\n}\n</style>\n<title>Postman's Tracker</title>\n</head>\n\
         <body>\n<h1>Welcome</h1>\n<p>Torrent index and tracker.</p>\n</body>\n</html>";
    let Err(styled) = parse_response(page.as_bytes()) else {
        panic!("a web page is not a valid announce response");
    };
    let text = styled.message();
    assert!(
        text.contains("Postman's Tracker"),
        "the title identifies the page, and must survive the stylesheet: {text}"
    );
    assert!(
        text.contains("Welcome") && text.contains("Torrent index"),
        "the page's visible words must come through: {text}"
    );
    assert!(
        !text.contains("--border_table") && !text.contains("image/svg"),
        "the stylesheet is the noise this exists to remove: {text}"
    );

    // A tracker answering 200 with a web page says so in its content type, and
    // that is what separates "the tracker is broken" from "this is not the
    // tracker".
    let raw = b"HTTP/1.1 200 OK\r\nContent-Type: text/html\r\nContent-Length: 6\r\n\r\n<html>";
    let Err(served_a_page) = read_announce(raw) else {
        panic!("a web page is not an announce response");
    };
    assert!(
        served_a_page.message().contains("text/html"),
        "the content type must reach the operator: {}",
        served_a_page.message()
    );

    // Bounded, and control bytes never reach the terminal.
    let Err(long) = parse_response(&[0x1b; 4096]) else {
        panic!("escape bytes are not a valid announce response");
    };
    let text = long.message();
    assert!(!text.contains('\u{1b}'), "control bytes must be scrubbed");
    // Bounded by PREVIEW_LEN, not by a number written twice.
    assert!(
        text.len() < PREVIEW_LEN + 128,
        "the preview must stay bounded: {} chars",
        text.len()
    );

    // An empty body is its own diagnosis and says so.
    let Err(empty) = parse_response(b"") else {
        panic!("an empty body is not a valid announce response");
    };
    assert!(empty.message().contains("empty"));
}

#[test]
fn announce_over_a_stream() {
    // A canned tracker: responds to any request with a compact reply.
    let mut peers = Vec::new();
    peers.extend_from_slice(&[0x77; 32]);
    let resp_body = encode(&dict(vec![
        ("interval", Value::Int(1800)),
        ("peers", Value::Bytes(peers)),
    ]));
    let mut raw = format!(
        "HTTP/1.1 200 OK\r\nContent-Length: {}\r\n\r\n",
        resp_body.len()
    )
    .into_bytes();
    raw.extend_from_slice(&resp_body);

    let (_host, request) = build_announce("http://t.i2p/announce", &params()).unwrap();
    let resp = read_announce(&raw).unwrap();
    assert_eq!(resp.peers, vec![DestHash([0x77; 32])]);
    assert!(request.starts_with(b"GET /announce?"));
}

/// The `ip` parameter carries our destination and must not survive into a
/// log line; everything an operator would bisect must.
#[test]
fn only_the_ip_parameter_is_redacted() {
    assert_eq!(
        redact_ip_param("/announce?info_hash=%AB&ip=SECRET&event=started"),
        "/announce?info_hash=%AB&ip=<redacted>&event=started"
    );
    // First and last positions, not just the middle.
    assert_eq!(redact_ip_param("/a?ip=SECRET"), "/a?ip=<redacted>");
    assert_eq!(redact_ip_param("/a?ip=SECRET&x=1"), "/a?ip=<redacted>&x=1");
    // A parameter that merely ends in those letters keeps its value, and a
    // target with no query is untouched.
    assert_eq!(redact_ip_param("/a?skip=1&zip=2"), "/a?skip=1&zip=2");
    assert_eq!(redact_ip_param("/announce"), "/announce");
    // An `ip` with `=` in its value (percent-encoding leaves padding) still
    // loses all of it.
    assert_eq!(
        redact_ip_param("/a?ip=AA%3D%3D&x=1"),
        "/a?ip=<redacted>&x=1"
    );
}

#[test]
fn destinations_in_a_list_are_kept_for_hashing() {
    let entry = |dest: &str| dict(vec![("ip", Value::Bytes(dest.as_bytes().to_vec()))]);
    let body = encode(&dict(vec![
        ("interval", Value::Int(1800)),
        ("peers", Value::List(vec![entry("AAAA.i2p"), entry("BBBB")])),
    ]));
    let mut resp = parse_response(&body).unwrap();
    assert!(resp.peers.is_empty());
    assert_eq!(resp.destinations.len(), 2);
    // Those that do not hash are dropped.
    resp.add_hashed(&vec![Some(DestHash([9; 32])), None]);
    assert_eq!(resp.peers, vec![DestHash([9; 32])]);
}

#[test]
fn a_refused_announce_is_told_apart() {
    let raw = b"HTTP/1.1 503 Busy\r\nContent-Length: 0\r\n\r\n";
    let e = read_announce(raw).unwrap_err();
    assert_eq!(e, Error::HttpStatus(503));
    assert_eq!(e.message(), "tracker: HTTP status 503");
    let e = read_announce(b"HTTP/1.1 200 OK\r\nContent-Length: 10\r\n\r\nabc").unwrap_err();
    assert_eq!(e, Error::Http(http::Error::Truncated));
    assert_eq!(Error::BadUrl.message(), "tracker: unparseable announce URL");
}

#[test]
fn a_preview_quotes_what_was_sent() {
    // The quotes and the escape are those of the standard debug form.
    let e = parse_response(b"say \"hi\"").unwrap_err();
    assert!(e.message().contains("\"say \\\"hi\\\"\""), "{}", e.message());
}

#[test]
fn an_operator_can_force_an_announce() {
    let mut st = AnnounceState::new();
    st.on_success(1_000, 1_800, Event::Started);
    assert!(!st.due(1_001));
    st.make_due();
    assert!(st.due(1_001));
    assert_eq!(st.next_event(false), Event::Periodic);
}

#[test]
fn two_destinations_are_logged_alike() {
    let mut p = params();
    let (host, one) = build_announce("http://t.i2p/a?k=v", &p).unwrap();
    p.our_dest_b64 = "another~destination=";
    let (_, two) = build_announce("http://t.i2p/a?k=v", &p).unwrap();
    assert_ne!(one, two);
    assert_eq!(announced_url(&host, &one), announced_url(&host, &two));
    assert!(String::from_utf8(one).unwrap().contains(USER_AGENT));
    assert_eq!(Event::Stopped.query_value(), Some("stopped"));
    assert_eq!(Event::Periodic.query_value(), None);
}

#[test]
fn a_page_is_described_by_its_title_and_words() {
    let page: Vec<char> = "<html><head><title> A\n B </title></head><body>x <i>y</i>  z</body>"
        .chars()
        .collect();
    assert_eq!(find_title(&page).as_deref(), Some("A B"));
    assert_eq!(find_words(&page).as_deref(), Some("x y z"));
    let bare: Vec<char> = "<html></html>".chars().collect();
    assert_eq!(find_title(&bare), None);
    assert_eq!(find_words(&bare), None);
    assert_eq!(
        describe_page(&Some("'A'".to_owned()), &Some("'x'".to_owned())),
        "HTML page titled 'A'; text begins 'x'"
    );
    assert_eq!(describe_page(&None, &None), "HTML page");
}

#[test]
fn the_logged_url_is_one_word() {
    let (host, request) =
        build_announce("http://t.i2p/a?ip=mine&x=1", &params()).unwrap();
    let url = announced_url(&host, &request);
    assert!(url.starts_with("http://t.i2p/a?ip=<redacted>&x=1&info_hash="), "{url}");
    assert!(url.contains("&ip=<redacted>&event=started"), "{url}");
    assert!(!url.contains(' ') && !url.contains('\r') && !url.contains('\n'), "{url}");
    assert!(!url.contains("HTTP/1.1"), "{url}");
    // Named by the path itself, it is of the URL.
    let (host, request) = build_announce("http://t.i2p/HTTP/1.1", &params()).unwrap();
    assert_eq!(announced_url(&host, &request).matches("HTTP/1.1").count(), 1);
}
