use base64::Engine as _;
use newt::transport::token::{
    client_body, site_body, split_endpoint, token_data, token_of, token_request,
};
use newt::transport::ws::{
    check_upgrade, encode_frame, head_step, new_upgrade_request, read_step, upgrade_request,
    write_frame, Frame, HeadStep, Inbox, ReadStep, Received, MAX_FRAME,
};
use serde_json::Value;

#[test]
fn splits_endpoints() {
    let (s, hp, h, p) = split_endpoint("https://app.example.com").unwrap();
    assert_eq!(
        (s.as_str(), hp.as_str(), h.as_str(), p),
        ("https", "app.example.com:443", "app.example.com", 443)
    );
    let (_, _, h, p) = split_endpoint("http://1.2.3.4:8080").unwrap();
    assert_eq!((h.as_str(), p), ("1.2.3.4", 8080));
}

#[test]
fn endpoints_at_the_edges() {
    let (s, hp, h, p) = split_endpoint("host").unwrap();
    assert_eq!((s.as_str(), hp.as_str(), h.as_str(), p), ("https", "host:443", "host", 443));
    let (s, hp, _, p) = split_endpoint("http://host///").unwrap();
    assert_eq!((s.as_str(), hp.as_str(), p), ("http", "host:80", 80));
    // No host before the colon, or no port behind it: the whole is the host.
    assert_eq!(split_endpoint(":90").unwrap().1, ":90:443");
    assert_eq!(split_endpoint("h:x").unwrap().1, "h:x:443");
    assert_eq!(split_endpoint("h:65536").unwrap().3, 443);
    assert_eq!(split_endpoint("ftp://h").unwrap_err(), "unsupported scheme");
    assert_eq!(split_endpoint("://h").unwrap_err(), "unsupported scheme");
    // What was split reads back from its parts.
    let (s, hp, h, p) = split_endpoint("https://a.b:8443/").unwrap();
    assert_eq!(split_endpoint(&format!("{s}://{hp}")).unwrap(), (s, hp, h, p));
}

#[test]
fn token_request_is_complete() {
    let body = site_body("id\u{e9}", "se\"cret");
    let req = token_request("newt", "h:443", &body);
    let expected = "POST /api/v1/auth/newt/get-token HTTP/1.1\r\nHost: h:443\r\n\
        Content-Type: application/json\r\nX-CSRF-Token: x-csrf-protection\r\n\
        Content-Length: 37\r\nConnection: close\r\n\r\n\
        {\"newtId\":\"id\u{e9}\",\"secret\":\"se\\\"cret\"}";
    assert_eq!(req, expected);
    assert_eq!(
        client_body("i", "s", "u", "o").to_string(),
        r#"{"olmId":"i","orgId":"o","secret":"s","userToken":"u"}"#
    );
}

#[test]
fn token_is_read_out_of_the_response() {
    let raw = b"HTTP/1.1 200 OK\r\nX: y\r\n\r\n  {\"data\":{\"token\":\"jwt\",\"n\":1}}\r\n";
    let data = token_data(raw).unwrap();
    assert_eq!(data["n"], 1);
    assert_eq!(token_of(&data).unwrap(), "jwt");
    // Without a blank line the whole response is the body.
    assert_eq!(token_data(b"{\"data\":7}").unwrap(), Value::from(7));
    assert_eq!(token_data(b"{}").unwrap(), Value::Null);
    assert_eq!(token_of(&Value::Null).unwrap_err(), "no token in response");
    assert_eq!(token_of(&token_data(b"{\"data\":{\"token\":5}}").unwrap()).unwrap_err(),
        "no token in response");
    assert!(token_data(b"\r\n\r\nnope").unwrap_err().starts_with("token json: "));
    // Bytes that are no UTF-8 are replaced, not refused.
    let v = token_data(b"{\"data\":{\"token\":\"a\xff\"}}").unwrap();
    assert_eq!(token_of(&v).unwrap(), "a\u{fffd}");
}

#[test]
fn upgrade_request_is_complete() {
    let req = upgrade_request("tok", "olm", "h:1", [0u8; 16]);
    assert_eq!(
        req,
        "GET /api/v1/ws?token=tok&clientType=olm HTTP/1.1\r\nHost: h:1\r\nUpgrade: websocket\r\n\
         Connection: Upgrade\r\nSec-WebSocket-Key: AAAAAAAAAAAAAAAAAAAAAA==\r\n\
         Sec-WebSocket-Version: 13\r\n\r\n"
    );
}

#[test]
fn upgrade_keys_are_fresh() {
    let key = |req: String| {
        let (_, rest) = req.split_once("Sec-WebSocket-Key: ").unwrap();
        rest.split_once("\r\n").unwrap().0.to_string()
    };
    let a = key(new_upgrade_request("t", "newt", "h"));
    let b = key(new_upgrade_request("t", "newt", "h"));
    let decode = |s: &str| base64::engine::general_purpose::STANDARD.decode(s).unwrap();
    assert_eq!(decode(&a).len(), 16);
    assert_ne!(a, b);
}

#[test]
fn response_head_ends_at_the_blank_line() {
    assert_eq!(head_step(b""), HeadStep::More);
    assert_eq!(head_step(b"\r\n\r"), HeadStep::More);
    assert_eq!(head_step(b"HTTP/1.1 101 X\r\n\r\n"), HeadStep::Complete);
    assert_eq!(head_step(&[b'a'; 8192]), HeadStep::More);
    assert_eq!(head_step(&[b'a'; 8193]), HeadStep::TooLarge);
}

#[test]
fn only_switching_protocols_upgrades() {
    assert!(check_upgrade(b"HTTP/1.1 101 Switching Protocols\r\nA: b\r\n\r\n").is_ok());
    assert!(check_upgrade(b"HTTP/1.1 101").is_ok());
    assert_eq!(
        check_upgrade(b"HTTP/1.1 403 Forbidden\r\n\r\n").unwrap_err(),
        "websocket upgrade failed: HTTP/1.1 403 Forbidden"
    );
    assert_eq!(check_upgrade(b"HTTP/1.1 10").unwrap_err(), "websocket upgrade failed: HTTP/1.1 10");
    assert_eq!(
        check_upgrade(b"\xc3\xa9\xff\r").unwrap_err(),
        "websocket upgrade failed: \u{e9}\u{fffd}"
    );
}

fn complete(bytes: &[u8]) -> Frame {
    match read_step(bytes) {
        ReadStep::Complete(f) => f,
        other => panic!("{other:?}"),
    }
}

#[test]
fn frames_are_masked_and_framed_by_length() {
    let f = encode_frame(1, b"Hello", [0x37, 0xfa, 0x21, 0x3d]);
    assert_eq!(f, [0x81, 0x85, 0x37, 0xfa, 0x21, 0x3d, 0x7f, 0x9f, 0x4d, 0x51, 0x58]);
    let mid = encode_frame(2, &[7u8; 126], [0; 4]);
    assert_eq!(mid[..4], [0x82, 0xfe, 0, 126]);
    assert_eq!(mid.len(), 8 + 126);
    let big = encode_frame(2, &vec![7u8; 65536], [0; 4]);
    assert_eq!(big[..10], [0x82, 0xff, 0, 0, 0, 0, 0, 1, 0, 0]);
}

#[test]
fn frames_read_back_what_was_written() {
    for len in [0usize, 1, 125, 126, 127, 65535, 65536, 70000] {
        let payload: Vec<u8> = (0..len).map(|i| (i * 31 % 256) as u8).collect();
        let f = complete(&encode_frame(0xA, &payload, [1, 2, 3, 255]));
        assert!(f.fin);
        assert_eq!(f.opcode, 0xA);
        assert_eq!(f.payload, payload);
        let fresh = write_frame(1, &payload);
        assert_eq!(complete(&fresh).payload, payload);
    }
    assert_ne!(write_frame(1, &[0u8; 64]), write_frame(1, &[0u8; 64]));
}

#[test]
fn reading_asks_for_what_is_missing() {
    assert!(matches!(read_step(&[]), ReadStep::Need(2)));
    assert!(matches!(read_step(&[0x81]), ReadStep::Need(1)));
    assert!(matches!(read_step(&[0x81, 126]), ReadStep::Need(2)));
    assert!(matches!(read_step(&[0x81, 127, 0]), ReadStep::Need(7)));
    assert!(matches!(read_step(&[0x81, 0x83]), ReadStep::Need(4)));
    assert!(matches!(read_step(&[0x81, 0x83, 1, 2, 3, 4]), ReadStep::Need(3)));
    let f = complete(&[0x01, 2, b'h', b'i']);
    assert!(!f.fin);
    assert_eq!(f.payload, b"hi");
}

#[test]
fn huge_frames_are_refused() {
    let mut head = vec![0x82u8, 127];
    head.extend_from_slice(&(MAX_FRAME + 1).to_be_bytes());
    assert!(matches!(read_step(&head), ReadStep::TooLarge));
    let mut head = vec![0x82u8, 127];
    head.extend_from_slice(&MAX_FRAME.to_be_bytes());
    assert!(matches!(read_step(&head), ReadStep::Need(n) if n == MAX_FRAME as usize));
}

fn frame(fin: bool, opcode: u8, payload: &[u8]) -> Frame {
    Frame { fin, opcode, payload: payload.to_vec() }
}

#[test]
fn fragments_are_reassembled_between_pings() {
    let mut inbox = Inbox::new();
    assert!(matches!(inbox.receive(frame(false, 1, b"he")), Received::Skip));
    assert!(matches!(inbox.receive(frame(true, 9, b"p")), Received::Ping(p) if p == b"p"));
    assert!(matches!(inbox.receive(frame(false, 0, b"l")), Received::Skip));
    assert!(matches!(inbox.receive(frame(true, 10, b"")), Received::Skip));
    assert!(matches!(inbox.receive(frame(true, 0, b"lo")), Received::Text(m) if m == b"hello"));
    assert!(matches!(inbox.receive(frame(true, 1, b"next")), Received::Text(m) if m == b"next"));
}

#[test]
fn other_frames_are_skipped_or_end_it() {
    let mut inbox = Inbox::new();
    assert!(matches!(inbox.receive(frame(true, 2, b"bin")), Received::Skip));
    assert!(matches!(inbox.receive(frame(true, 0, b"stray")), Received::Skip));
    // A new text frame starts a message over.
    assert!(matches!(inbox.receive(frame(false, 1, b"old")), Received::Skip));
    assert!(matches!(inbox.receive(frame(true, 1, b"new")), Received::Text(m) if m == b"new"));
    assert!(matches!(inbox.receive(frame(true, 8, b"")), Received::Closed));
    assert!(matches!(inbox.receive(frame(true, 3, b"")), Received::UnknownOpcode));
}
