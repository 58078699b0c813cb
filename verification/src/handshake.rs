//! Handshake key derivation: the accept token is the standard base64
//! encoding of the SHA-1 digest of the client key concatenated with the
//! protocol's magic constant, and the fixed-format 101 response carries it.
use crate::frame::append_slice;
use rustc_serialize::base64::{STANDARD, ToBase64};
use sha1::{Digest, Sha1};
use vstd::prelude::*;
use vstd::string::StringSliceAdditionalSpecFns;

verus! {

/// The SHA-1 digest of a byte sequence, named but not written out: the
/// trusted wrapper below ties it to the outside implementation.
pub uninterp spec fn sha1_of(data: Seq<u8>) -> Seq<u8>;

/// The standard (RFC 4648, padded) base64 encoding of a byte sequence,
/// named but not written out: the trusted wrapper below ties it to the
/// outside implementation.
pub uninterp spec fn base64_of(data: Seq<u8>) -> Seq<u8>;

/// The fixed magic constant every WebSocket handshake appends to the key.
pub open spec fn magic_bytes() -> Seq<u8> {
    "258EAFA5-E914-47DA-95CA-C5AB0DC85B11".spec_bytes()
}

/// What `derive_accept_key` computes: base64 of the SHA-1 digest of the
/// client key followed by the magic constant.
pub open spec fn accept_key_of(key: Seq<u8>) -> Seq<u8> {
    base64_of(sha1_of(key + magic_bytes()))
}

/// Relies on sha1::Sha1 (via the Digest trait): the SHA-1 digest is a
/// function of the input bytes alone and is always 20 bytes long.
#[verifier::external_body]
fn sha1_digest(data: &Vec<u8>) -> (r: Vec<u8>)
    ensures
        r@ == sha1_of(data@),
        r@.len() == 20,
{
    let mut hasher = Sha1::new();
    hasher.update(data.as_slice());
    hasher.finalize().to_vec()
}

/// Relies on rustc_serialize's ToBase64 for [u8] with the STANDARD config:
/// RFC 4648 base64 ('+', '/', '=' padding, no line wrap), a function of the
/// input bytes alone; the encoding is pure ASCII, returned here as bytes.
/// With padding and no wrapping, every three input bytes (rounded up)
/// become exactly four output characters.
#[verifier::external_body]
fn base64_encode(data: &Vec<u8>) -> (r: Vec<u8>)
    ensures
        r@ == base64_of(data@),
        r@.len() == 4 * ((data@.len() + 2) / 3),
{
    data.as_slice().to_base64(STANDARD).into_bytes()
}

/// Derives the handshake accept token from the client-supplied key bytes:
/// base64 over a 20-byte digest, so always 28 characters.
pub fn derive_accept_key(key: &Vec<u8>) -> (r: Vec<u8>)
    ensures
        r@ == accept_key_of(key@),
        r@.len() == 28,
{
    let mut input: Vec<u8> = Vec::new();
    append_slice(&mut input, key.as_slice());
    append_slice(&mut input, "258EAFA5-E914-47DA-95CA-C5AB0DC85B11".as_bytes());
    proof {
        assert(input@ =~= key@ + magic_bytes());
    }
    let digest = sha1_digest(&input);
    base64_encode(&digest)
}

/// Law: the accept key is a function of the client key alone — two
/// derivations from equal keys always agree.
pub proof fn lemma_accept_key_deterministic(k1: Seq<u8>, k2: Seq<u8>)
    requires
        k1 == k2,
    ensures
        accept_key_of(k1) == accept_key_of(k2),
{
}

/// Everything of the 101 response before the accept key.
pub open spec fn response_prefix() -> Seq<u8> {
    "HTTP/1.1 101 Switching Protocols\r\nConnection: Upgrade\r\nSec-WebSocket-Accept: ".spec_bytes()
}

/// Everything of the 101 response after the accept key.
pub open spec fn response_suffix() -> Seq<u8> {
    "\r\nUpgrade: websocket\r\n\r\n".spec_bytes()
}

/// The exact bytes of the 101 Switching Protocols response that carries
/// the given accept key.
pub open spec fn handshake_response_bytes(accept: Seq<u8>) -> Seq<u8> {
    response_prefix() + accept + response_suffix()
}

/// Builds the full 101 response for a client key.
pub fn build_handshake_response(key: &Vec<u8>) -> (r: Vec<u8>)
    ensures
        r@ == handshake_response_bytes(accept_key_of(key@)),
{
    let accept = derive_accept_key(key);
    let mut r: Vec<u8> = Vec::new();
    append_slice(
        &mut r,
        "HTTP/1.1 101 Switching Protocols\r\nConnection: Upgrade\r\nSec-WebSocket-Accept: ".as_bytes(),
    );
    append_slice(&mut r, accept.as_slice());
    append_slice(&mut r, "\r\nUpgrade: websocket\r\n\r\n".as_bytes());
    proof {
        assert(r@ =~= handshake_response_bytes(accept_key_of(key@)));
    }
    r
}

} // verus!
