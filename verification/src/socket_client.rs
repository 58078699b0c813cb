//! Per-connection protocol state machine: handshake states, interest
//! bookkeeping, the per-opcode frame handler and the outgoing frame queue.
use crate::frame::{
    DecodeError, FrameView, OpCode, WebSocketFrame, decode, frame_bytes, parse_frame,
};
use crate::handshake::{accept_key_of, build_handshake_response, handshake_response_bytes};
use vstd::prelude::*;
use vstd::string::StringSliceAdditionalSpecFns;

verus! {

broadcast use vstd::std_specs::vec::group_vec_axioms;

/// Where a connection stands in its life: handshake in, handshake response
/// owed, data phase, or tear-down after a close frame was flushed.
#[derive(Clone, Copy, PartialEq, Eq, Structural, Debug)]
pub enum ClientState {
    AwaitingHandshake,
    HandshakeResponse,
    Connected,
    Closing,
}

/// The readiness events a connection currently needs from the reactor.
#[derive(Clone, Copy, PartialEq, Eq, Structural, Debug)]
pub enum Interest {
    Readable,
    Writable,
    Hup,
}

/// Why a handshake response could not be produced.
#[derive(Clone, Copy, PartialEq, Eq, Structural, Debug)]
pub enum HandshakeError {
    /// No Sec-WebSocket-Key header was captured during the handshake.
    MissingKey,
}

/// One connection's protocol state, apart from its socket, which the
/// caller owns and drives.
pub struct WebSocketClient {
    pub state: ClientState,
    pub interest: Interest,
    pub headers: Vec<(Vec<u8>, Vec<u8>)>,
    pub outgoing: Vec<WebSocketFrame>,
}

/// The mathematical value of a connection.
#[verifier::ext_equal]
pub ghost struct ClientView {
    pub state: ClientState,
    pub interest: Interest,
    pub headers: Seq<(Seq<u8>, Seq<u8>)>,
    pub outgoing: Seq<FrameView>,
}

/// Header pairs as byte sequences.
pub open spec fn headers_view(h: Seq<(Vec<u8>, Vec<u8>)>) -> Seq<(Seq<u8>, Seq<u8>)> {
    Seq::new(h.len(), |i: int| (h[i].0@, h[i].1@))
}

/// Frames as frame values.
pub open spec fn frames_of(s: Seq<WebSocketFrame>) -> Seq<FrameView> {
    Seq::new(s.len(), |i: int| s[i]@)
}

impl View for WebSocketClient {
    type V = ClientView;

    open spec fn view(&self) -> ClientView {
        ClientView {
            state: self.state,
            interest: self.interest,
            headers: headers_view(self.headers@),
            outgoing: frames_of(self.outgoing@),
        }
    }
}

/// The value of the first header with the given name, if any.
pub open spec fn header_lookup(h: Seq<(Seq<u8>, Seq<u8>)>, name: Seq<u8>) -> Option<Seq<u8>>
    decreases h.len(),
{
    if h.len() == 0 {
        None
    } else if h[0].0 == name {
        Some(h[0].1)
    } else {
        header_lookup(h.subrange(1, h.len() as int), name)
    }
}

/// The one header the handshake response needs.
pub open spec fn sec_key_name() -> Seq<u8> {
    "Sec-WebSocket-Key".spec_bytes()
}

/// The fixed text frame this minimal design answers a text frame with.
pub open spec fn text_reply() -> FrameView {
    FrameView { fin: true, opcode: OpCode::TextFrame, payload: "Hi there!".spec_bytes() }
}

/// What the per-opcode handler enqueues for one decoded frame: the echo
/// reply for text, a payload-mirroring pong for a ping, a payload-mirroring
/// close reply for a close, and nothing for the rest.
pub open spec fn reply_frames(f: FrameView) -> Seq<FrameView> {
    match f.opcode {
        OpCode::TextFrame => seq![text_reply()],
        OpCode::Ping => seq![FrameView { fin: true, opcode: OpCode::Pong, payload: f.payload }],
        OpCode::ConnectionClose => seq![
            FrameView { fin: true, opcode: OpCode::ConnectionClose, payload: f.payload },
        ],
        _ => Seq::empty(),
    }
}

/// Whether some queued frame terminates the session once flushed.
pub open spec fn has_close(s: Seq<FrameView>) -> bool {
    exists|i: int| 0 <= i < s.len() && s[i].opcode == OpCode::ConnectionClose
}

/// The wire bytes of a frame queue, flushed in FIFO order.
pub open spec fn encode_all(s: Seq<FrameView>) -> Seq<u8>
    decreases s.len(),
{
    if s.len() == 0 {
        Seq::empty()
    } else {
        encode_all(s.drop_last()) + frame_bytes(s.last())
    }
}

/// A fresh connection: awaiting its handshake, interested in reading,
/// nothing captured and nothing queued.
pub open spec fn initial_client() -> ClientView {
    ClientView {
        state: ClientState::AwaitingHandshake,
        interest: Interest::Readable,
        headers: Seq::empty(),
        outgoing: Seq::empty(),
    }
}

/// Upgrade detected: the captured headers are handed over, the response is
/// owed, and interest flips to writing.
pub open spec fn client_after_upgrade(c: ClientView, hs: Seq<(Seq<u8>, Seq<u8>)>) -> ClientView {
    ClientView {
        state: ClientState::HandshakeResponse,
        interest: Interest::Writable,
        headers: hs,
        outgoing: c.outgoing,
    }
}

/// One decoded frame handled in the data phase: replies are appended in
/// order, and interest flips to writing only while the queue then holds
/// something; with nothing pending the connection keeps reading.
pub open spec fn client_after_frame(c: ClientView, f: FrameView) -> ClientView {
    ClientView {
        state: ClientState::Connected,
        interest: if c.outgoing.len() + reply_frames(f).len() > 0 {
            Interest::Writable
        } else {
            Interest::Readable
        },
        headers: c.headers,
        outgoing: c.outgoing + reply_frames(f),
    }
}

/// The queue flushed: it empties, and the connection either returns to
/// reading or, when a close reply went out, moves to Closing and asks only
/// for hang-up.
pub open spec fn client_after_flush(c: ClientView) -> ClientView {
    ClientView {
        state: if has_close(c.outgoing) {
            ClientState::Closing
        } else {
            ClientState::Connected
        },
        interest: if has_close(c.outgoing) {
            Interest::Hup
        } else {
            Interest::Readable
        },
        headers: c.headers,
        outgoing: Seq::empty(),
    }
}

/// The handshake response written: the connection opens and reads again.
pub open spec fn after_handshake_write(c: ClientView) -> ClientView {
    ClientView {
        state: ClientState::Connected,
        interest: Interest::Readable,
        headers: c.headers,
        outgoing: c.outgoing,
    }
}

/// How one writable event changes a connection, state by state.
pub open spec fn client_after_write(c: ClientView) -> ClientView {
    match c.state {
        ClientState::HandshakeResponse => match header_lookup(c.headers, sec_key_name()) {
            Some(_) => after_handshake_write(c),
            None => c,
        },
        ClientState::Connected => client_after_flush(c),
        _ => c,
    }
}

/// What one writable event puts on the wire, state by state.
pub open spec fn write_output(c: ClientView) -> Result<Seq<u8>, HandshakeError> {
    match c.state {
        ClientState::HandshakeResponse => match header_lookup(c.headers, sec_key_name()) {
            Some(k) => Ok(handshake_response_bytes(accept_key_of(k))),
            None => Err(HandshakeError::MissingKey),
        },
        ClientState::Connected => Ok(encode_all(c.outgoing)),
        _ => Ok(Seq::empty()),
    }
}

/// Byte-vector equality.
pub fn bytes_eq(a: &Vec<u8>, b: &Vec<u8>) -> (r: bool)
    ensures
        r == (a@ == b@),
{
    if a.len() != b.len() {
        return false;
    }
    let mut i: usize = 0;
    while i < a.len()
        invariant
            i <= a@.len(),
            a@.len() == b@.len(),
            forall|j: int| 0 <= j < i as int ==> a@[j] == b@[j],
        decreases a@.len() - i,
    {
        if a[i] != b[i] {
            return false;
        }
        i = i + 1;
    }
    proof {
        assert(a@ =~= b@);
    }
    true
}

impl WebSocketClient {
    /// A fresh connection, as the reactor creates one on accept.
    pub fn new() -> (c: WebSocketClient)
        ensures
            c@ == initial_client(),
    {
        let c = WebSocketClient {
            state: ClientState::AwaitingHandshake,
            interest: Interest::Readable,
            headers: Vec::new(),
            outgoing: Vec::new(),
        };
        proof {
            assert(c@ =~~= initial_client());
        }
        c
    }

    /// The value of the first captured header with the given name.
    pub fn header(&self, name: &Vec<u8>) -> (r: Option<Vec<u8>>)
        ensures
            match r {
                Some(v) => header_lookup(self@.headers, name@) == Some(v@),
                None => header_lookup(self@.headers, name@) is None,
            },
    {
        let ghost hv = headers_view(self.headers@);
        let mut i: usize = 0;
        proof {
            assert(hv.subrange(0, hv.len() as int) =~= hv);
        }
        while i < self.headers.len()
            invariant
                i <= self.headers@.len(),
                hv == headers_view(self.headers@),
                header_lookup(hv, name@) == header_lookup(
                    hv.subrange(i as int, hv.len() as int),
                    name@,
                ),
            decreases self.headers@.len() - i,
        {
            let ghost tail = hv.subrange(i as int, hv.len() as int);
            proof {
                assert(tail[0] == hv[i as int]);
                assert(tail.subrange(1, tail.len() as int) =~= hv.subrange(
                    i as int + 1,
                    hv.len() as int,
                ));
            }
            if bytes_eq(&self.headers[i].0, name) {
                let v = vstd::slice::slice_to_vec(self.headers[i].1.as_slice());
                return Some(v);
            }
            i = i + 1;
        }
        proof {
            assert(hv.subrange(hv.len() as int, hv.len() as int) =~= Seq::<(Seq<u8>,
            Seq<u8>)>::empty());
        }
        None
    }

    /// The handshake parser reported an upgrade: take the captured headers,
    /// owe the response, flip interest to writing.
    pub fn on_upgrade_detected(&mut self, headers: Vec<(Vec<u8>, Vec<u8>)>)
        requires
            old(self).state == ClientState::AwaitingHandshake,
        ensures
            final(self)@ == client_after_upgrade(old(self)@, headers_view(headers@)),
    {
        self.headers = headers;
        self.state = ClientState::HandshakeResponse;
        self.interest = Interest::Writable;
        proof {
            assert(self@ =~~= client_after_upgrade(old(self)@, headers_view(self.headers@)));
        }
    }

    /// One readable event in the data phase: decode a single client frame
    /// from the received bytes, handle it by opcode, and flip interest to
    /// writing if that left frames pending, back to reading otherwise.
    /// Truncated input changes nothing and asks the caller to wait for
    /// more bytes; a malformed frame changes nothing and is the caller's
    /// cue to drop the connection.
    pub fn read(&mut self, buf: &Vec<u8>) -> (r: Result<usize, DecodeError>)
        requires
            old(self).state == ClientState::Connected,
        ensures
            match parse_frame(buf@, true) {
                Ok(p) => (r matches Ok(n) && n as int == p.1) && final(self)@
                    == client_after_frame(old(self)@, p.0),
                Err(e) => r == Err::<usize, DecodeError>(e) && *final(self) == *old(self),
            },
    {
        match decode(buf, true) {
            Err(e) => Err(e),
            Ok((frame, n)) => {
                match frame.get_opcode() {
                    OpCode::TextFrame => {
                        self.outgoing.push(WebSocketFrame::from_text("Hi there!"));
                    },
                    OpCode::Ping => {
                        self.outgoing.push(WebSocketFrame::pong(&frame));
                    },
                    OpCode::ConnectionClose => {
                        self.outgoing.push(WebSocketFrame::close_from(&frame));
                    },
                    _ => {},
                }
                if self.outgoing.len() == 0 {
                    self.interest = Interest::Readable;
                } else {
                    self.interest = Interest::Writable;
                }
                proof {
                    assert(self@ =~~= client_after_frame(old(self)@, frame@));
                }
                Ok(n)
            },
        }
    }

    /// One writable event: in HandshakeResponse produce the 101 response
    /// from the captured key and open the connection; in Connected flush
    /// the queue in FIFO order, then close or read again; elsewhere do
    /// nothing. The returned bytes are what the caller must send.
    pub fn write(&mut self) -> (r: Result<Vec<u8>, HandshakeError>)
        ensures
            final(self)@ == client_after_write(old(self)@),
            match (r, write_output(old(self)@)) {
                (Ok(v), Ok(s)) => v@ == s,
                (Err(e1), Err(e2)) => e1 == e2,
                _ => false,
            },
    {
        match self.state {
            ClientState::HandshakeResponse => {
                let name = vstd::slice::slice_to_vec("Sec-WebSocket-Key".as_bytes());
                match self.header(&name) {
                    Some(key) => {
                        let response = build_handshake_response(&key);
                        self.state = ClientState::Connected;
                        self.interest = Interest::Readable;
                        proof {
                            assert(self@ =~~= client_after_write(old(self)@));
                        }
                        Ok(response)
                    },
                    None => {
                        proof {
                            assert(self@ =~~= client_after_write(old(self)@));
                        }
                        Err(HandshakeError::MissingKey)
                    },
                }
            },
            ClientState::Connected => {
                let ghost fs = frames_of(self.outgoing@);
                let mut out: Vec<u8> = Vec::new();
                let mut close = false;
                let mut i: usize = 0;
                proof {
                    assert(fs.subrange(0, 0) =~= Seq::<FrameView>::empty());
                }
                while i < self.outgoing.len()
                    invariant
                        i <= self.outgoing@.len(),
                        fs == frames_of(self.outgoing@),
                        self.state == ClientState::Connected,
                        out@ == encode_all(fs.subrange(0, i as int)),
                        close == has_close(fs.subrange(0, i as int)),
                    decreases self.outgoing@.len() - i,
                {
                    let bytes = self.outgoing[i].write();
                    crate::frame::append_slice(&mut out, bytes.as_slice());
                    if self.outgoing[i].is_close() {
                        close = true;
                    }
                    i = i + 1;
                    proof {
                        lemma_close_prefix_extend(fs, i as int - 1);
                        assert(fs.subrange(0, i as int).drop_last() =~= fs.subrange(
                            0,
                            i as int - 1,
                        ));
                        assert(fs.subrange(0, i as int).last() == fs[i as int - 1]);
                    }
                }
                proof {
                    assert(fs.subrange(0, fs.len() as int) =~= fs);
                }
                self.outgoing.clear();
                if close {
                    self.state = ClientState::Closing;
                    self.interest = Interest::Hup;
                } else {
                    self.interest = Interest::Readable;
                }
                proof {
                    assert(self@ =~~= client_after_write(old(self)@));
                }
                Ok(out)
            },
            _ => {
                proof {
                    assert(self@ =~~= client_after_write(old(self)@));
                }
                Ok(Vec::new())
            },
        }
    }
}

/// Extending a queue prefix by one frame has a close exactly when the
/// prefix had one or the new frame is a close.
proof fn lemma_close_prefix_extend(s: Seq<FrameView>, i: int)
    requires
        0 <= i < s.len(),
    ensures
        has_close(s.subrange(0, i + 1)) == (has_close(s.subrange(0, i)) || s[i].opcode
            == OpCode::ConnectionClose),
{
    let pre = s.subrange(0, i);
    let post = s.subrange(0, i + 1);
    if has_close(pre) {
        let j = choose|j: int| 0 <= j < pre.len() && pre[j].opcode == OpCode::ConnectionClose;
        assert(post[j].opcode == OpCode::ConnectionClose);
    }
    if s[i].opcode == OpCode::ConnectionClose {
        assert(post[i].opcode == OpCode::ConnectionClose);
    }
    if has_close(post) {
        let j = choose|j: int| 0 <= j < post.len() && post[j].opcode == OpCode::ConnectionClose;
        if j < i {
            assert(pre[j].opcode == OpCode::ConnectionClose);
        }
    }
}

/// Law: a connection in the open state that receives a ping enqueues
/// exactly one frame — a pong whose payload equals the ping's — and it
/// stands ahead of anything enqueued later, the earlier queue kept intact.
pub proof fn lemma_ping_enqueues_pong(c: ClientView, f: FrameView)
    requires
        c.state == ClientState::Connected,
        f.opcode == OpCode::Ping,
    ensures
        client_after_frame(c, f).outgoing.len() == c.outgoing.len() + 1,
        client_after_frame(c, f).outgoing.last().opcode == OpCode::Pong,
        client_after_frame(c, f).outgoing.last().payload == f.payload,
        client_after_frame(c, f).outgoing.subrange(0, c.outgoing.len() as int) == c.outgoing,
{
    assert(client_after_frame(c, f).outgoing.subrange(0, c.outgoing.len() as int)
        =~= c.outgoing);
}

/// Law: a close frame received in the open state enqueues a close reply
/// while the connection itself stays in place; only flushing that queue
/// moves it to Closing — the reply bytes are produced by the same flush —
/// after which removal from the table follows.
pub proof fn lemma_close_reply_before_removal(c: ClientView, f: FrameView)
    requires
        c.state == ClientState::Connected,
        f.opcode == OpCode::ConnectionClose,
    ensures
        client_after_frame(c, f).state == ClientState::Connected,
        has_close(client_after_frame(c, f).outgoing),
        client_after_flush(client_after_frame(c, f)).state == ClientState::Closing,
        client_after_flush(client_after_frame(c, f)).interest == Interest::Hup,
        client_after_flush(client_after_frame(c, f)).outgoing.len() == 0,
{
    let q = client_after_frame(c, f).outgoing;
    assert(q[c.outgoing.len() as int].opcode == OpCode::ConnectionClose);
}

/// Law: a fresh connection that completes its upgrade with a captured
/// Sec-WebSocket-Key and then handles one writable event emits exactly the
/// fixed-format 101 response carrying the accept key derived from that
/// key, and ends open with interest back on reading.
pub proof fn lemma_handshake_round(hs: Seq<(Seq<u8>, Seq<u8>)>, k: Seq<u8>)
    requires
        header_lookup(hs, sec_key_name()) == Some(k),
    ensures
        ({
            let c1 = client_after_upgrade(initial_client(), hs);
            &&& c1.state == ClientState::HandshakeResponse
            &&& c1.interest == Interest::Writable
            &&& write_output(c1) == Ok::<Seq<u8>, HandshakeError>(
                handshake_response_bytes(accept_key_of(k)),
            )
            &&& client_after_write(c1).state == ClientState::Connected
            &&& client_after_write(c1).interest == Interest::Readable
        }),
{
}

/// The interest set a connection must keep registered, state by state:
/// reading while the handshake or data frames are awaited, writing exactly
/// while a response or queued frames are pending, hang-up once the session
/// closed. Frames queue up only in the data phase.
pub open spec fn interest_consistent(c: ClientView) -> bool {
    match c.state {
        ClientState::AwaitingHandshake => c.interest == Interest::Readable && c.outgoing.len()
            == 0,
        ClientState::HandshakeResponse => c.interest == Interest::Writable && c.outgoing.len()
            == 0,
        ClientState::Connected => c.interest == (if c.outgoing.len() == 0 {
            Interest::Readable
        } else {
            Interest::Writable
        }),
        ClientState::Closing => c.interest == Interest::Hup && c.outgoing.len() == 0,
    }
}

/// Law: a fresh connection's interest matches its state, and every
/// transition — upgrade from the handshake, frame handling in the data
/// phase, a writable event anywhere — keeps the interest exactly what the
/// new state requires: writable only while something is pending.
pub proof fn lemma_interest_tracks_state(c: ClientView, hs: Seq<(Seq<u8>, Seq<u8>)>, f: FrameView)
    ensures
        interest_consistent(initial_client()),
        c.state == ClientState::AwaitingHandshake && interest_consistent(c)
            ==> interest_consistent(client_after_upgrade(c, hs)),
        c.state == ClientState::Connected ==> interest_consistent(client_after_frame(c, f)),
        interest_consistent(c) ==> interest_consistent(client_after_write(c)),
{
}


} // verus!
