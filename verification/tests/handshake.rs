use wstcp::handshake::{process_handshake, HandshakeOutcome, MAX_HEADER_BYTES};

const SAMPLE_REQUEST: &str = "GET /chat HTTP/1.1\r\nHost: server.example.com\r\nUpgrade: websocket\r\nConnection: Upgrade\r\nSec-WebSocket-Key: dGhlIHNhbXBsZSBub25jZQ==\r\nSec-WebSocket-Version: 13\r\n\r\n";

fn run(request: &str) -> HandshakeOutcome {
    let buf: Vec<u8> = request.as_bytes().to_vec();
    process_handshake(&buf)
}

#[test]
fn sample_key_yields_sample_accept() {
    match run(SAMPLE_REQUEST) {
        HandshakeOutcome::Accepted { response, consumed } => {
            assert_eq!(consumed, SAMPLE_REQUEST.len());
            let text = String::from_utf8(response).unwrap();
            assert_eq!(
                text,
                "HTTP/1.1 101 Switching Protocols\r\nUpgrade: websocket\r\nConnection: Upgrade\r\nSec-WebSocket-Accept: s3pPLMBiTxaQ9kYGzzhZRbK+xOo=\r\n\r\n"
            );
        },
        _ => panic!("expected acceptance"),
    }
}

#[test]
fn header_case_variants_accepted() {
    for (conn, upg) in [
        ("connection: upgrade", "upgrade: websocket"),
        ("CONNECTION: UPGRADE", "UPGRADE: WEBSOCKET"),
        ("Connection: Upgrade", "Upgrade: websocket"),
    ] {
        let req = format!(
            "GET / HTTP/1.1\r\nHost: h\r\n{}\r\n{}\r\nSec-WebSocket-Key: dGhlIHNhbXBsZSBub25jZQ==\r\nSec-WebSocket-Version: 13\r\n\r\n",
            conn, upg
        );
        assert!(
            matches!(run(&req), HandshakeOutcome::Accepted { .. }),
            "rejected variant: {}",
            conn
        );
    }
}

#[test]
fn connection_token_list_accepted() {
    let req = "GET / HTTP/1.1\r\nHost: h\r\nUpgrade: websocket\r\nConnection: keep-alive, Upgrade\r\nSec-WebSocket-Key: dGhlIHNhbXBsZSBub25jZQ==\r\nSec-WebSocket-Version: 13\r\n\r\n";
    assert!(matches!(run(req), HandshakeOutcome::Accepted { .. }));
}

#[test]
fn bytes_after_terminator_not_consumed() {
    let mut buf: Vec<u8> = SAMPLE_REQUEST.as_bytes().to_vec();
    buf.extend_from_slice(&[0x82, 0x85, 1, 2, 3, 4, 0, 0, 0, 0, 0]);
    match process_handshake(&buf) {
        HandshakeOutcome::Accepted { consumed, .. } => {
            assert_eq!(consumed, SAMPLE_REQUEST.len());
        },
        _ => panic!("expected acceptance"),
    }
}

#[test]
fn incomplete_without_terminator() {
    assert!(matches!(
        run("GET / HTTP/1.1\r\nHost: h\r\n"),
        HandshakeOutcome::Incomplete
    ));
}

#[test]
fn oversized_header_rejected() {
    let mut req = String::from("GET / HTTP/1.1\r\n");
    while req.len() < MAX_HEADER_BYTES {
        req.push_str("X-Filler: aaaaaaaaaaaaaaaaaaaaaaaaaaaaaaaa\r\n");
    }
    match run(&req) {
        HandshakeOutcome::Rejected { response } => {
            let text = String::from_utf8(response).unwrap();
            assert!(text.starts_with("HTTP/1.1 400 Bad Request\r\n"));
        },
        _ => panic!("expected rejection"),
    }
}

#[test]
fn wrong_version_gets_426() {
    let req = "GET / HTTP/1.1\r\nHost: h\r\nUpgrade: websocket\r\nConnection: Upgrade\r\nSec-WebSocket-Key: dGhlIHNhbXBsZSBub25jZQ==\r\nSec-WebSocket-Version: 12\r\n\r\n";
    match run(req) {
        HandshakeOutcome::Rejected { response } => {
            let text = String::from_utf8(response).unwrap();
            assert!(text.starts_with("HTTP/1.1 426 Upgrade Required\r\n"));
        },
        _ => panic!("expected rejection"),
    }
}

#[test]
fn missing_key_gets_400() {
    let req =
        "GET / HTTP/1.1\r\nHost: h\r\nUpgrade: websocket\r\nConnection: Upgrade\r\nSec-WebSocket-Version: 13\r\n\r\n";
    match run(req) {
        HandshakeOutcome::Rejected { response } => {
            let text = String::from_utf8(response).unwrap();
            assert!(text.starts_with("HTTP/1.1 400 Bad Request\r\n"));
        },
        _ => panic!("expected rejection"),
    }
}

#[test]
fn wrong_method_gets_400() {
    let req = "POST / HTTP/1.1\r\nHost: h\r\nUpgrade: websocket\r\nConnection: Upgrade\r\nSec-WebSocket-Key: dGhlIHNhbXBsZSBub25jZQ==\r\nSec-WebSocket-Version: 13\r\n\r\n";
    assert!(matches!(run(req), HandshakeOutcome::Rejected { .. }));
}

#[test]
fn missing_host_gets_400() {
    let req = "GET / HTTP/1.1\r\nUpgrade: websocket\r\nConnection: Upgrade\r\nSec-WebSocket-Key: dGhlIHNhbXBsZSBub25jZQ==\r\nSec-WebSocket-Version: 13\r\n\r\n";
    assert!(matches!(run(req), HandshakeOutcome::Rejected { .. }));
}

#[test]
fn http_10_rejected() {
    let req = "GET / HTTP/1.0\r\nHost: h\r\nUpgrade: websocket\r\nConnection: Upgrade\r\nSec-WebSocket-Key: dGhlIHNhbXBsZSBub25jZQ==\r\nSec-WebSocket-Version: 13\r\n\r\n";
    assert!(matches!(run(req), HandshakeOutcome::Rejected { .. }));
}

#[test]
fn non_base64_key_rejected() {
    // 24 characters, but not the shape of 16 base64-encoded bytes
    for key in ["************************", "dGhlIHNhbXBsZSBub25jZQ=x", "dGhlIHNhbXBsZSBub25jZQAA"] {
        let req = format!(
            "GET / HTTP/1.1\r\nHost: h\r\nUpgrade: websocket\r\nConnection: Upgrade\r\nSec-WebSocket-Key: {}\r\nSec-WebSocket-Version: 13\r\n\r\n",
            key
        );
        match run(&req) {
            HandshakeOutcome::Rejected { response } => {
                let text = String::from_utf8(response).unwrap();
                assert!(text.starts_with("HTTP/1.1 400 Bad Request\r\n"));
            },
            _ => panic!("accepted a malformed key: {}", key),
        }
    }
}

#[test]
fn wrong_length_key_rejected() {
    let req = "GET / HTTP/1.1\r\nHost: h\r\nUpgrade: websocket\r\nConnection: Upgrade\r\nSec-WebSocket-Key: c2hvcnQ=\r\nSec-WebSocket-Version: 13\r\n\r\n";
    assert!(matches!(run(req), HandshakeOutcome::Rejected { .. }));
}
