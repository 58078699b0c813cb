use websocket_server::frame::{DecodeError, OpCode, decode};
use websocket_server::socket_client::{ClientState, HandshakeError, Interest, WebSocketClient};

fn masked_frame(b0: u8, payload: &[u8], mask: [u8; 4]) -> Vec<u8> {
    assert!(payload.len() < 126);
    let mut bytes = vec![b0, 0x80 | payload.len() as u8];
    bytes.extend_from_slice(&mask);
    for (i, b) in payload.iter().enumerate() {
        bytes.push(b ^ mask[i % 4]);
    }
    bytes
}

fn sample_headers() -> Vec<(Vec<u8>, Vec<u8>)> {
    vec![
        (b"Host".to_vec(), b"example".to_vec()),
        (b"Sec-WebSocket-Key".to_vec(), b"dGhlIHNhbXBsZSBub25jZQ==".to_vec()),
        (b"Upgrade".to_vec(), b"websocket".to_vec()),
    ]
}

fn open_client() -> WebSocketClient {
    let mut client = WebSocketClient::new();
    client.on_upgrade_detected(sample_headers());
    client.write().expect("handshake response must build");
    assert_eq!(client.state, ClientState::Connected);
    client
}

#[test]
fn fresh_client_awaits_handshake() {
    let client = WebSocketClient::new();
    assert_eq!(client.state, ClientState::AwaitingHandshake);
    assert_eq!(client.interest, Interest::Readable);
}

#[test]
fn upgrade_owes_the_response() {
    let mut client = WebSocketClient::new();
    client.on_upgrade_detected(sample_headers());
    assert_eq!(client.state, ClientState::HandshakeResponse);
    assert_eq!(client.interest, Interest::Writable);
    let value = client.header(&b"Sec-WebSocket-Key".to_vec());
    assert_eq!(value, Some(b"dGhlIHNhbXBsZSBub25jZQ==".to_vec()));
    assert_eq!(client.header(&b"Absent".to_vec()), None);
}

#[test]
fn handshake_write_opens_the_connection() {
    let mut client = WebSocketClient::new();
    client.on_upgrade_detected(sample_headers());
    let response = client.write().expect("key is present");
    let expected = b"HTTP/1.1 101 Switching Protocols\r\nConnection: Upgrade\r\n\
Sec-WebSocket-Accept: s3pPLMBiTxaQ9kYGzzhZRbK+xOo=\r\nUpgrade: websocket\r\n\r\n"
        .to_vec();
    assert_eq!(response, expected);
    assert_eq!(client.state, ClientState::Connected);
    assert_eq!(client.interest, Interest::Readable);
}

#[test]
fn handshake_write_without_key_fails() {
    let mut client = WebSocketClient::new();
    client.on_upgrade_detected(vec![(b"Host".to_vec(), b"example".to_vec())]);
    assert_eq!(client.write(), Err(HandshakeError::MissingKey));
    assert_eq!(client.state, ClientState::HandshakeResponse);
}

#[test]
fn ping_is_answered_with_one_mirroring_pong() {
    let mut client = open_client();
    let ping = masked_frame(0x89, b"tick", [9, 8, 7, 6]);
    let consumed = client.read(&ping).expect("ping must decode");
    assert_eq!(consumed, ping.len());
    assert_eq!(client.interest, Interest::Writable);
    let flushed = client.write().expect("flush");
    let (frame, consumed) = decode(&flushed, false).expect("one pong frame");
    assert_eq!(consumed, flushed.len(), "exactly one frame was enqueued");
    assert_eq!(frame.opcode, OpCode::Pong);
    assert_eq!(frame.payload, b"tick".to_vec());
    assert_eq!(client.state, ClientState::Connected);
    assert_eq!(client.interest, Interest::Readable);
}

#[test]
fn text_is_answered_with_the_echo_reply() {
    let mut client = open_client();
    let text = masked_frame(0x81, b"anyone there?", [1, 2, 3, 4]);
    client.read(&text).expect("text must decode");
    let flushed = client.write().expect("flush");
    let (frame, consumed) = decode(&flushed, false).expect("one text frame");
    assert_eq!(consumed, flushed.len());
    assert_eq!(frame.opcode, OpCode::TextFrame);
    assert_eq!(frame.payload, b"Hi there!".to_vec());
}

#[test]
fn close_reply_is_flushed_then_the_session_closes() {
    let mut client = open_client();
    let close = masked_frame(0x88, b"bye", [5, 5, 5, 5]);
    client.read(&close).expect("close must decode");
    assert_eq!(client.state, ClientState::Connected, "not torn down before the flush");
    let flushed = client.write().expect("flush");
    let (frame, consumed) = decode(&flushed, false).expect("one close frame");
    assert_eq!(consumed, flushed.len());
    assert_eq!(frame.opcode, OpCode::ConnectionClose);
    assert_eq!(frame.payload, b"bye".to_vec());
    assert_eq!(client.state, ClientState::Closing);
    assert_eq!(client.interest, Interest::Hup);
}

#[test]
fn binary_frames_produce_no_reply() {
    let mut client = open_client();
    let binary = masked_frame(0x82, b"\x00\x01", [1, 2, 3, 4]);
    client.read(&binary).expect("binary must decode");
    // Nothing was enqueued, so the connection keeps reading.
    assert_eq!(client.interest, Interest::Readable);
    let flushed = client.write().expect("flush");
    assert!(flushed.is_empty());
    assert_eq!(client.state, ClientState::Connected);
    assert_eq!(client.interest, Interest::Readable);
}

#[test]
fn replies_are_flushed_in_fifo_order() {
    let mut client = open_client();
    client.read(&masked_frame(0x89, b"one", [1, 1, 1, 1])).expect("first ping");
    client.read(&masked_frame(0x81, b"hi", [2, 2, 2, 2])).expect("then text");
    let flushed = client.write().expect("flush");
    let (first, used) = decode(&flushed, false).expect("first frame");
    assert_eq!(first.opcode, OpCode::Pong);
    assert_eq!(first.payload, b"one".to_vec());
    let rest: Vec<u8> = flushed[used..].to_vec();
    let (second, used) = decode(&rest, false).expect("second frame");
    assert_eq!(second.opcode, OpCode::TextFrame);
    assert_eq!(used, rest.len());
}

#[test]
fn malformed_frames_report_their_error() {
    let mut client = open_client();
    let reserved = masked_frame(0x83, b"x", [1, 2, 3, 4]);
    assert_eq!(client.read(&reserved), Err(DecodeError::InvalidOpcode));
    let unmasked = vec![0x81u8, 2, b'h', b'i'];
    assert_eq!(client.read(&unmasked), Err(DecodeError::MissingMask));
    assert_eq!(client.read(&vec![0x81u8]), Err(DecodeError::Truncated));
}
