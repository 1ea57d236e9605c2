use wstcp::channel::{Phase, ProxyChannel};
use wstcp::server::{server_step, AcceptEvent, ServerAction};

const SAMPLE_REQUEST: &str = "GET /chat HTTP/1.1\r\nHost: server.example.com\r\nUpgrade: websocket\r\nConnection: Upgrade\r\nSec-WebSocket-Key: dGhlIHNhbXBsZSBub25jZQ==\r\nSec-WebSocket-Version: 13\r\n\r\n";

/// A masked client frame, as a browser would send it.
fn masked(opcode: u8, fin: bool, payload: &[u8]) -> Vec<u8> {
    let key = [0x11u8, 0x22, 0x33, 0x44];
    let mut out: Vec<u8> = Vec::new();
    out.push(if fin { 0x80 | opcode } else { opcode });
    assert!(payload.len() <= 125);
    out.push(0x80 | payload.len() as u8);
    out.extend_from_slice(&key);
    for (i, b) in payload.iter().enumerate() {
        out.push(*b ^ key[i % 4]);
    }
    out
}

/// Runs the handshake and enters the relay.
fn relaying_channel() -> ProxyChannel {
    let mut ch = ProxyChannel::new();
    ch.feed_client(&SAMPLE_REQUEST.as_bytes().to_vec());
    ch.handshake_step();
    assert_eq!(ch.phase, Phase::Connecting);
    let response = ch.take_client_output();
    assert!(String::from_utf8(response).unwrap().starts_with("HTTP/1.1 101 "));
    ch.on_backend_connected();
    assert_eq!(ch.phase, Phase::Relaying);
    ch
}

#[test]
fn happy_path() {
    let mut ch = relaying_channel();
    ch.feed_client(&masked(0x02, true, b"hello"));
    ch.pump_ws_to_tcp();
    assert_eq!(ch.take_backend_output(), b"hello".to_vec());
    ch.feed_backend(&b"world".to_vec());
    ch.pump_tcp_to_ws();
    let mut expect = vec![0x82, 5];
    expect.extend_from_slice(b"world");
    assert_eq!(ch.take_client_output(), expect);
}

#[test]
fn fragmentation_merges_into_byte_stream() {
    let mut ch = relaying_channel();
    ch.feed_client(&masked(0x02, false, b"AB"));
    ch.feed_client(&masked(0x00, true, b"CD"));
    ch.pump_ws_to_tcp();
    assert_eq!(ch.take_backend_output(), b"ABCD".to_vec());
    assert_eq!(ch.phase, Phase::Relaying);
}

#[test]
fn lone_continuation_is_protocol_error() {
    let mut ch = relaying_channel();
    ch.feed_client(&masked(0x00, true, b"CD"));
    ch.pump_ws_to_tcp();
    assert_eq!(ch.phase, Phase::ClosingWs);
    // close 1002, no data reaches the backend
    assert_eq!(ch.take_client_output(), vec![0x88, 2, 0x03, 0xEA]);
    assert_eq!(ch.take_backend_output(), Vec::<u8>::new());
}

#[test]
fn ping_gets_pong_and_no_backend_bytes() {
    let mut ch = relaying_channel();
    ch.feed_client(&masked(0x09, true, b"x"));
    ch.pump_ws_to_tcp();
    assert_eq!(ch.take_backend_output(), Vec::<u8>::new());
    assert_eq!(ch.take_client_output(), vec![0x8A, 1, b'x']);
}

#[test]
fn second_ping_replaces_pending_pong() {
    let mut ch = relaying_channel();
    ch.feed_client(&masked(0x09, true, b"a"));
    ch.feed_client(&masked(0x09, true, b"b"));
    ch.pump_ws_to_tcp();
    assert_eq!(ch.take_client_output(), vec![0x8A, 1, b'b']);
}

#[test]
fn unmasked_frame_is_protocol_error() {
    let mut ch = relaying_channel();
    // an unmasked binary frame, which a client must never send
    ch.feed_client(&vec![0x82, 3, b'b', b'a', b'd']);
    ch.pump_ws_to_tcp();
    assert_eq!(ch.phase, Phase::ClosingWs);
    assert!(ch.ws_read_eof);
    // close 1002 goes to the client; the payload never reaches the backend
    assert_eq!(ch.take_client_output(), vec![0x88, 2, 0x03, 0xEA]);
    assert_eq!(ch.take_backend_output(), Vec::<u8>::new());
    // the backend side shuts down and the channel drains
    let (_, shut_tcp, _) = ch.poll_shutdown();
    assert!(shut_tcp);
    ch.on_backend_eof();
    let (_, _, done) = ch.poll_shutdown();
    assert!(done);
    assert_eq!(ch.phase, Phase::Drained);
    assert!(!ch.ws_open && !ch.tcp_open);
}

#[test]
fn backend_down_sends_close_1011() {
    let mut ch = ProxyChannel::new();
    ch.feed_client(&SAMPLE_REQUEST.as_bytes().to_vec());
    ch.handshake_step();
    let response = ch.take_client_output();
    assert!(String::from_utf8(response).unwrap().starts_with("HTTP/1.1 101 "));
    ch.on_backend_connect_failed();
    assert_eq!(ch.phase, Phase::ClosingWs);
    let mut expect = vec![0x88, (2 + 19) as u8, 0x03, 0xF3];
    expect.extend_from_slice(b"backend unreachable");
    assert_eq!(ch.take_client_output(), expect);
    let (shut_ws, _, _) = ch.poll_shutdown();
    assert!(shut_ws);
    let (_, _, done) = ch.poll_shutdown();
    assert!(done);
    assert_eq!(ch.phase, Phase::Drained);
    assert!(!ch.ws_open && !ch.tcp_open);
}

#[test]
fn client_close_echoed_and_backend_half_closed() {
    let mut ch = relaying_channel();
    ch.feed_client(&masked(0x02, true, b"tail"));
    // close with status 1000
    ch.feed_client(&masked(0x08, true, &[0x03, 0xE8]));
    ch.pump_ws_to_tcp();
    // all preceding payload bytes reach the backend
    assert_eq!(ch.take_backend_output(), b"tail".to_vec());
    assert_eq!(ch.phase, Phase::ClosingWs);
    assert!(ch.ws_read_eof);
    // the close is echoed with the same status and is the last frame
    assert_eq!(ch.take_client_output(), vec![0x88, 2, 0x03, 0xE8]);
    let (shut_ws, shut_tcp, _) = ch.poll_shutdown();
    assert!(shut_ws && shut_tcp);
    ch.on_backend_eof();
    let (_, _, done) = ch.poll_shutdown();
    assert!(done);
    assert_eq!(ch.phase, Phase::Drained);
}

#[test]
fn backend_half_close_keeps_client_draining() {
    let mut ch = relaying_channel();
    // backend is done sending: close 1000 goes to the client
    ch.on_backend_eof();
    assert_eq!(ch.take_client_output(), vec![0x88, 2, 0x03, 0xE8]);
    // client bytes still drain into the backend write buffer
    ch.feed_client(&masked(0x02, true, b"late"));
    ch.pump_ws_to_tcp();
    assert_eq!(ch.take_backend_output(), b"late".to_vec());
    assert_eq!(ch.phase, Phase::Relaying);
}

#[test]
fn no_frames_after_close() {
    let mut ch = relaying_channel();
    ch.on_backend_eof();
    let _ = ch.take_client_output();
    // backend bytes arriving after the close are dropped, pings are ignored
    ch.feed_backend(&b"dropped".to_vec());
    ch.pump_tcp_to_ws();
    ch.feed_client(&masked(0x09, true, b"p"));
    ch.pump_ws_to_tcp();
    assert_eq!(ch.take_client_output(), Vec::<u8>::new());
}

#[test]
fn handshake_leftover_parsed_as_first_frame() {
    let mut ch = ProxyChannel::new();
    let mut bytes = SAMPLE_REQUEST.as_bytes().to_vec();
    bytes.extend_from_slice(&masked(0x02, true, b"early"));
    ch.feed_client(&bytes);
    ch.handshake_step();
    let _ = ch.take_client_output();
    ch.on_backend_connected();
    ch.pump_ws_to_tcp();
    assert_eq!(ch.take_backend_output(), b"early".to_vec());
}

#[test]
fn handshake_reject_drains() {
    let mut ch = ProxyChannel::new();
    ch.feed_client(&b"GET / HTTP/1.1\r\nHost: h\r\n\r\n".to_vec());
    ch.handshake_step();
    assert_eq!(ch.phase, Phase::ClosingWs);
    let out = ch.take_client_output();
    assert!(String::from_utf8(out).unwrap().starts_with("HTTP/1.1 400 Bad Request\r\n"));
    let (shut_ws, _, _) = ch.poll_shutdown();
    assert!(shut_ws);
    let (_, _, done) = ch.poll_shutdown();
    assert!(done);
    assert_eq!(ch.phase, Phase::Drained);
}

#[test]
fn cancellation_drains_and_is_idempotent() {
    let mut ch = relaying_channel();
    ch.feed_client(&masked(0x02, true, b"x"));
    ch.on_cancelled();
    assert_eq!(ch.phase, Phase::Drained);
    assert!(!ch.ws_open && !ch.tcp_open);
    ch.on_cancelled();
    assert_eq!(ch.phase, Phase::Drained);
}

#[test]
fn partial_frame_waits_for_more() {
    let mut ch = relaying_channel();
    let frame = masked(0x02, true, b"split");
    ch.feed_client(&frame[..4].to_vec());
    ch.pump_ws_to_tcp();
    assert_eq!(ch.take_backend_output(), Vec::<u8>::new());
    ch.feed_client(&frame[4..].to_vec());
    ch.pump_ws_to_tcp();
    assert_eq!(ch.take_backend_output(), b"split".to_vec());
}

#[test]
fn accept_loop_policy() {
    assert_eq!(server_step(AcceptEvent::Cancelled), ServerAction::Stop);
    assert_eq!(server_step(AcceptEvent::Connection), ServerAction::Spawn);
    assert_eq!(server_step(AcceptEvent::TransientError), ServerAction::Continue);
    assert_eq!(server_step(AcceptEvent::FatalError), ServerAction::Fail);
}
