use websocket_server::frame::{DecodeError, OpCode, decode};
use websocket_server::socket_client::{ClientState, Interest};
use websocket_server::socket_server::{ReadOutcome, WebSocketServer};

fn masked_frame(b0: u8, payload: &[u8], mask: [u8; 4]) -> Vec<u8> {
    assert!(payload.len() < 126);
    let mut bytes = vec![b0, 0x80 | payload.len() as u8];
    bytes.extend_from_slice(&mask);
    for (i, b) in payload.iter().enumerate() {
        bytes.push(b ^ mask[i % 4]);
    }
    bytes
}

fn sample_headers() -> Vec<(Vec<u8>, Vec<u8>)> {
    vec![(b"Sec-WebSocket-Key".to_vec(), b"dGhlIHNhbXBsZSBub25jZQ==".to_vec())]
}

fn open_session(server: &mut WebSocketServer) -> usize {
    let token = server.accept_client();
    assert!(server.upgrade_client(token, sample_headers()));
    let response = server.client_write(token).expect("present").expect("key present");
    assert!(response.starts_with(b"HTTP/1.1 101 Switching Protocols\r\n"));
    assert_eq!(server.client_state(token), Some(ClientState::Connected));
    token
}

#[test]
fn tokens_are_fresh_and_never_zero() {
    let mut server = WebSocketServer::new();
    let first = server.accept_client();
    let second = server.accept_client();
    assert_ne!(first, 0);
    assert_ne!(second, 0);
    assert_ne!(first, second);
    assert_eq!(server.client_state(first), Some(ClientState::AwaitingHandshake));
    assert_eq!(server.client_interest(second), Some(Interest::Readable));
}

#[test]
fn full_session_reaches_the_open_state() {
    let mut server = WebSocketServer::new();
    let token = open_session(&mut server);
    assert_eq!(server.client_interest(token), Some(Interest::Readable));
}

#[test]
fn ping_round_through_the_table() {
    let mut server = WebSocketServer::new();
    let token = open_session(&mut server);
    let ping = masked_frame(0x89, b"sup", [3, 1, 4, 1]);
    match server.client_read(token, &ping) {
        ReadOutcome::Consumed(n) => assert_eq!(n, ping.len()),
        other => panic!("expected Consumed, got {:?}", other),
    }
    assert_eq!(server.client_interest(token), Some(Interest::Writable));
    let flushed = server.client_write(token).expect("present").expect("no handshake owed");
    let (frame, used) = decode(&flushed, false).expect("pong out");
    assert_eq!(used, flushed.len());
    assert_eq!(frame.opcode, OpCode::Pong);
    assert_eq!(frame.payload, b"sup".to_vec());
}

#[test]
fn close_removes_only_after_the_reply_was_flushed() {
    let mut server = WebSocketServer::new();
    let token = open_session(&mut server);
    let close = masked_frame(0x88, b"", [1, 2, 3, 4]);
    assert!(matches!(server.client_read(token, &close), ReadOutcome::Consumed(_)));
    // The close reply is queued but the connection is still in the table.
    assert_eq!(server.client_state(token), Some(ClientState::Connected));
    let flushed = server.client_write(token).expect("still present").expect("frames out");
    let (frame, _) = decode(&flushed, false).expect("close reply out");
    assert_eq!(frame.opcode, OpCode::ConnectionClose);
    assert_eq!(server.client_state(token), Some(ClientState::Closing));
    assert_eq!(server.client_interest(token), Some(Interest::Hup));
    // Only now does the sweep remove it.
    server.remove_client(token);
    assert_eq!(server.client_state(token), None);
}

#[test]
fn transport_errors_tear_the_connection_down() {
    let mut server = WebSocketServer::new();
    let token = open_session(&mut server);
    // The caller saw a socket error: the connection goes at once ...
    server.remove_client(token);
    assert_eq!(server.client_state(token), None);
    assert_eq!(server.client_interest(token), None);
    // ... and later events for its token are ignored.
    let ping = masked_frame(0x89, b"late", [1, 2, 3, 4]);
    assert_eq!(server.client_read(token, &ping), ReadOutcome::NoClient);
    assert!(server.client_write(token).is_none());
    assert!(!server.upgrade_client(token, sample_headers()));
}

#[test]
fn malformed_frames_drop_the_connection() {
    let mut server = WebSocketServer::new();
    let token = open_session(&mut server);
    let reserved = masked_frame(0x83, b"x", [1, 2, 3, 4]);
    assert_eq!(
        server.client_read(token, &reserved),
        ReadOutcome::Dropped(DecodeError::InvalidOpcode)
    );
    assert_eq!(server.client_state(token), None);
}

#[test]
fn short_reads_leave_the_connection_waiting() {
    let mut server = WebSocketServer::new();
    let token = open_session(&mut server);
    assert_eq!(server.client_read(token, &vec![0x89u8]), ReadOutcome::Incomplete);
    assert_eq!(server.client_state(token), Some(ClientState::Connected));
}

#[test]
fn reads_before_the_open_state_do_nothing() {
    let mut server = WebSocketServer::new();
    let token = server.accept_client();
    let ping = masked_frame(0x89, b"early", [1, 2, 3, 4]);
    assert_eq!(server.client_read(token, &ping), ReadOutcome::NotOpen);
    assert_eq!(server.client_state(token), Some(ClientState::AwaitingHandshake));
}

#[test]
fn one_bad_client_does_not_touch_the_others() {
    let mut server = WebSocketServer::new();
    let good = open_session(&mut server);
    let bad = open_session(&mut server);
    let reserved = masked_frame(0x83, b"x", [1, 2, 3, 4]);
    assert!(matches!(server.client_read(bad, &reserved), ReadOutcome::Dropped(_)));
    assert_eq!(server.client_state(bad), None);
    assert_eq!(server.client_state(good), Some(ClientState::Connected));
    let ping = masked_frame(0x89, b"ok", [5, 6, 7, 8]);
    assert!(matches!(server.client_read(good, &ping), ReadOutcome::Consumed(_)));
}
