use ship_server::handshake::{bad_request_response, upgrade_response, HandshakeAnswer, HandshakeReader, HsPhase};

const RFC_KEY: [u8; 16] = *b"the sample nonce";

fn request(lines: &[&str]) -> Vec<u8> {
    let mut s = String::from("GET /chat HTTP/1.1\r\n");
    for l in lines {
        s.push_str(l);
        s.push_str("\r\n");
    }
    s.push_str("\r\n");
    s.into_bytes()
}

fn expected_upgrade() -> Vec<u8> {
    b"HTTP/1.1 101 Upgrade\r\nUpgrade: websocket\r\nConnection: Upgrade\r\nSec-Websocket-Accept: s3pPLMBiTxaQ9kYGzzhZRbK+xOo=\r\n\r\n".to_vec()
}

#[test]
fn upgrade_response_matches_rfc_example() {
    assert_eq!(upgrade_response(&RFC_KEY), expected_upgrade());
}

#[test]
fn bad_request_response_bytes() {
    assert_eq!(bad_request_response(), b"HTTP/1.1 400 Bad Request\r\n\r\n".to_vec());
}

#[test]
fn full_request_is_accepted() {
    let bytes = request(&[
        "Host: example.com",
        "Upgrade: websocket",
        "Connection: keep-alive, Upgrade",
        "Sec-WebSocket-Key: dGhlIHNhbXBsZSBub25jZQ==",
        "Sec-WebSocket-Version: 13",
    ]);
    let reader = HandshakeReader::from_bytes(&bytes);
    assert!(reader.is_finished());
    assert_eq!(reader.phase(), HsPhase::Done);
    match reader.answer() {
        HandshakeAnswer::Accept(b) => assert_eq!(b, expected_upgrade()),
        _ => panic!("expected the upgrade"),
    }
}

#[test]
fn request_without_key_gets_bad_request() {
    let bytes = request(&["Upgrade: websocket", "Connection: Upgrade", "Sec-WebSocket-Version: 13"]);
    let reader = HandshakeReader::from_bytes(&bytes);
    match reader.answer() {
        HandshakeAnswer::Reject(b) => assert_eq!(b, bad_request_response()),
        _ => panic!("expected a rejection"),
    }
}

#[test]
fn key_that_is_not_base64_ends_the_headers() {
    let bytes = request(&[
        "Upgrade: websocket",
        "Connection: Upgrade",
        "Sec-WebSocket-Key: not base64!",
        "Sec-WebSocket-Version: 13",
    ]);
    let reader = HandshakeReader::from_bytes(&bytes);
    assert_eq!(reader.phase(), HsPhase::Done);
    assert!(matches!(reader.answer(), HandshakeAnswer::Reject(_)));
}

#[test]
fn key_of_the_wrong_length_ends_the_headers() {
    let bytes = request(&[
        "Upgrade: websocket",
        "Connection: Upgrade",
        "Sec-WebSocket-Key: AAAA",
        "Sec-WebSocket-Version: 13",
    ]);
    let reader = HandshakeReader::from_bytes(&bytes);
    assert!(matches!(reader.answer(), HandshakeAnswer::Reject(_)));
}

#[test]
fn post_request_is_dropped() {
    let reader = HandshakeReader::from_bytes(b"POST / HTTP/1.1\r\n\r\n");
    assert_eq!(reader.phase(), HsPhase::Refused);
    assert!(matches!(reader.answer(), HandshakeAnswer::Drop));
}

#[test]
fn wrong_version_is_dropped() {
    let bytes = request(&["Sec-WebSocket-Version: 12"]);
    let reader = HandshakeReader::from_bytes(&bytes);
    assert_eq!(reader.phase(), HsPhase::Refused);
    assert!(matches!(reader.answer(), HandshakeAnswer::Drop));
}

#[test]
fn connection_without_upgrade_is_dropped() {
    let bytes = request(&["Connection: keep-alive"]);
    let reader = HandshakeReader::from_bytes(&bytes);
    assert_eq!(reader.phase(), HsPhase::Refused);
}

#[test]
fn upgrade_to_something_else_is_dropped() {
    let bytes = request(&["Upgrade: h2c"]);
    assert_eq!(HandshakeReader::from_bytes(&bytes).phase(), HsPhase::Refused);
}

#[test]
fn overlong_value_is_dropped() {
    let long = format!("Upgrade: {}", "w".repeat(45));
    let bytes = request(&[long.as_str()]);
    assert_eq!(HandshakeReader::from_bytes(&bytes).phase(), HsPhase::Refused);
}

#[test]
fn unfinished_request_gets_no_answer() {
    let reader = HandshakeReader::from_bytes(b"GET / HTTP/1.1\r\nUpgrade: web");
    assert!(!reader.is_finished());
    assert!(matches!(reader.answer(), HandshakeAnswer::Drop));
}

#[test]
fn header_names_are_case_insensitive() {
    let bytes = request(&[
        "UPGRADE: WebSocket",
        "CONNECTION: UPGRADE",
        "SEC-WEBSOCKET-KEY: dGhlIHNhbXBsZSBub25jZQ==",
        "SEC-WEBSOCKET-VERSION: 13",
    ]);
    let reader = HandshakeReader::from_bytes(&bytes);
    assert!(matches!(reader.answer(), HandshakeAnswer::Accept(_)));
}

#[test]
fn bytes_after_the_headers_change_nothing() {
    let bytes = request(&["Sec-WebSocket-Version: 13"]);
    let mut reader = HandshakeReader::from_bytes(&bytes);
    assert_eq!(reader.phase(), HsPhase::Done);
    for b in b"GARBAGE\r\n" {
        reader.feed(*b);
    }
    assert_eq!(reader.phase(), HsPhase::Done);
    assert!(matches!(reader.answer(), HandshakeAnswer::Reject(_)));
}

#[test]
fn feeding_byte_by_byte_equals_from_bytes() {
    let bytes = request(&["Upgrade: websocket"]);
    let mut reader = HandshakeReader::new();
    for b in &bytes {
        reader.feed(*b);
    }
    assert_eq!(reader.phase(), HandshakeReader::from_bytes(&bytes).phase());
}
