use websocket_server::handshake::{build_handshake_response, derive_accept_key};

#[test]
fn accept_key_matches_published_vector() {
    let key = b"dGhlIHNhbXBsZSBub25jZQ==".to_vec();
    let accept = derive_accept_key(&key);
    assert_eq!(accept, b"s3pPLMBiTxaQ9kYGzzhZRbK+xOo=".to_vec());
}

#[test]
fn accept_key_is_deterministic() {
    let key = b"x3JJHMbDL1EzLkh9GBhXDw==".to_vec();
    let first = derive_accept_key(&key);
    let second = derive_accept_key(&key);
    assert_eq!(first, second);
}

#[test]
fn response_has_the_fixed_format() {
    let key = b"dGhlIHNhbXBsZSBub25jZQ==".to_vec();
    let response = build_handshake_response(&key);
    let expected = b"HTTP/1.1 101 Switching Protocols\r\nConnection: Upgrade\r\n\
Sec-WebSocket-Accept: s3pPLMBiTxaQ9kYGzzhZRbK+xOo=\r\nUpgrade: websocket\r\n\r\n"
        .to_vec();
    assert_eq!(response, expected);
}
