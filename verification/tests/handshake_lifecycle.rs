use ws_engine::handshake::{
    accept_token, extract_key, handshake_response, is_upgrade_request, HandshakeError,
};
use ws_engine::lifecycle::{ping_due, step, Action, ConnState, Event};

const SAMPLE_REQUEST: &[u8] = b"GET /chat HTTP/1.1\r\n\
Host: server.example.com\r\n\
Upgrade: websocket\r\n\
Connection: Upgrade\r\n\
Sec-WebSocket-Key: dGhlIHNhbXBsZSBub25jZQ==\r\n\
Sec-WebSocket-Version: 13\r\n\r\n";

fn expected_response() -> Vec<u8> {
    b"HTTP/1.1 101 Switching Protocols\r\n\
Upgrade: websocket\r\n\
Connection: Upgrade\r\n\
Sec-WebSocket-Accept: s3pPLMBiTxaQ9kYGzzhZRbK+xOo=\r\n\r\n"
        .to_vec()
}

#[test]
fn accept_token_protocol_example() {
    assert_eq!(
        accept_token(b"dGhlIHNhbXBsZSBub25jZQ=="),
        b"s3pPLMBiTxaQ9kYGzzhZRbK+xOo=".to_vec()
    );
}

#[test]
fn extracts_and_trims_key() {
    assert_eq!(
        extract_key(SAMPLE_REQUEST).unwrap(),
        b"dGhlIHNhbXBsZSBub25jZQ==".to_vec()
    );
    // trailing carriage return and spaces around the value are trimmed
    let padded = b"GET / HTTP/1.1\r\nSec-WebSocket-Key:   abc123==  \r\n\r\n";
    assert_eq!(extract_key(padded).unwrap(), b"abc123==".to_vec());
}

#[test]
fn key_lookup_is_exact_prefix_match() {
    // lower-case header name is not recognised by this design
    let lower = b"GET / HTTP/1.1\r\nsec-websocket-key: abc\r\n\r\n";
    assert_eq!(extract_key(lower).unwrap_err(), HandshakeError::MissingKey);
    // the header name must start the line
    let indented = b"GET / HTTP/1.1\r\nX-Sec-WebSocket-Key: abc\r\n\r\n";
    assert_eq!(extract_key(indented).unwrap_err(), HandshakeError::MissingKey);
}

#[test]
fn missing_key_is_a_recoverable_error() {
    let req = b"GET / HTTP/1.1\r\nHost: x\r\n\r\n";
    assert_eq!(extract_key(req).unwrap_err(), HandshakeError::MissingKey);
    assert_eq!(handshake_response(req).unwrap_err(), HandshakeError::MissingKey);
}

#[test]
fn builds_switching_protocols_response() {
    assert_eq!(handshake_response(SAMPLE_REQUEST).unwrap(), expected_response());
}

#[test]
fn method_prefix_check() {
    assert!(is_upgrade_request(SAMPLE_REQUEST));
    assert!(is_upgrade_request(b"GET"));
    assert!(!is_upgrade_request(b"POST / HTTP/1.1\r\n"));
    assert!(!is_upgrade_request(b"GE"));
    assert!(!is_upgrade_request(b""));
}

#[test]
fn handshake_upgrades_on_valid_request() {
    let (state, action) = step(
        ConnState::Handshaking,
        Event::BytesRead(SAMPLE_REQUEST.to_vec()),
    );
    assert_eq!(state, ConnState::Open);
    match action {
        Action::SendResponse(resp) => assert_eq!(resp, expected_response()),
        _ => panic!("expected the upgrade response"),
    }
}

#[test]
fn handshake_aborts_on_non_get() {
    let (state, action) = step(
        ConnState::Handshaking,
        Event::BytesRead(b"POST / HTTP/1.1\r\n\r\n".to_vec()),
    );
    assert_eq!(state, ConnState::Closed);
    assert!(matches!(action, Action::Ignore));
}

#[test]
fn handshake_aborts_on_missing_key() {
    let (state, action) = step(
        ConnState::Handshaking,
        Event::BytesRead(b"GET / HTTP/1.1\r\nHost: x\r\n\r\n".to_vec()),
    );
    assert_eq!(state, ConnState::Closed);
    assert!(matches!(action, Action::Ignore));
}

#[test]
fn open_sends_keepalive_ping() {
    let (state, action) = step(ConnState::Open, Event::PingDue);
    assert_eq!(state, ConnState::Open);
    assert!(matches!(action, Action::SendPing));
}

#[test]
fn open_answers_ping_with_pong() {
    let (state, action) = step(ConnState::Open, Event::BytesRead(vec![0x89, 0x80, 0, 0, 0, 0]));
    assert_eq!(state, ConnState::Open);
    assert!(matches!(action, Action::SendPong));
}

#[test]
fn open_ignores_pong_and_idle_reads() {
    let (state, action) = step(ConnState::Open, Event::BytesRead(vec![0x8A, 0x80, 0, 0, 0, 0]));
    assert_eq!(state, ConnState::Open);
    assert!(matches!(action, Action::Ignore));
    let (state, action) = step(ConnState::Open, Event::NoData);
    assert_eq!(state, ConnState::Open);
    assert!(matches!(action, Action::Ignore));
}

#[test]
fn open_delivers_data_payload() {
    let (state, action) = step(
        ConnState::Open,
        Event::BytesRead(vec![0x81, 0x82, 0x00, 0x00, 0x00, 0x00, 0x48, 0x69]),
    );
    assert_eq!(state, ConnState::Open);
    match action {
        Action::Deliver(p) => assert_eq!(p, b"Hi".to_vec()),
        _ => panic!("expected the payload to be delivered"),
    }
}

#[test]
fn close_frame_closes_and_stays_closed() {
    let (state, action) = step(ConnState::Open, Event::BytesRead(vec![0x88, 0x80, 0, 0, 0, 0]));
    assert_eq!(state, ConnState::Closed);
    assert!(matches!(action, Action::Ignore));
    // closed is terminal: later events ask for nothing
    let (state, action) = step(state, Event::PingDue);
    assert_eq!(state, ConnState::Closed);
    assert!(matches!(action, Action::Ignore));
    let (state, action) = step(state, Event::BytesRead(vec![0x89, 0x80, 0, 0, 0, 0]));
    assert_eq!(state, ConnState::Closed);
    assert!(matches!(action, Action::Ignore));
}

#[test]
fn malformed_frame_closes_connection() {
    let (state, action) = step(ConnState::Open, Event::BytesRead(vec![0x81, 0x02, 0x48, 0x69]));
    assert_eq!(state, ConnState::Closed);
    assert!(matches!(action, Action::Ignore));
}

#[test]
fn read_and_write_errors_close_connection() {
    let (state, _) = step(ConnState::Open, Event::ReadError);
    assert_eq!(state, ConnState::Closed);
    let (state, _) = step(ConnState::Open, Event::WriteError);
    assert_eq!(state, ConnState::Closed);
    let (state, _) = step(ConnState::Handshaking, Event::ReadError);
    assert_eq!(state, ConnState::Closed);
}

#[test]
fn keepalive_interval_is_five_seconds() {
    assert!(!ping_due(0));
    assert!(!ping_due(5000));
    assert!(ping_due(5001));
    assert!(ping_due(60000));
}
