//! The connection table a reactor dispatches into: an arena keyed by the
//! numeric token under which each connection's socket is registered.
//! Token 0 is the listener's and is never assigned; tokens grow
//! monotonically and are never reused, so a slot outlives its connection
//! as a tombstone.
use crate::frame::{DecodeError, FrameView, parse_frame};
use crate::socket_client::{
    ClientState, ClientView, HandshakeError, Interest, WebSocketClient, client_after_frame,
    client_after_upgrade, client_after_write, headers_view, initial_client, write_output,
};
use vstd::prelude::*;

verus! {

broadcast use vstd::std_specs::vec::group_vec_axioms;

/// What handling a readable event for a token came to.
#[derive(Clone, Copy, PartialEq, Eq, Structural, Debug)]
pub enum ReadOutcome {
    /// No connection lives under this token; the event is ignored.
    NoClient,
    /// The connection is not in the data phase; nothing was consumed.
    NotOpen,
    /// One frame was decoded and handled; this many bytes were consumed.
    Consumed(usize),
    /// The buffer does not yet hold a whole frame; wait for more bytes.
    Incomplete,
    /// The frame was malformed and the connection was removed.
    Dropped(DecodeError),
}

/// The listening socket's table of live connections.
pub struct WebSocketServer {
    pub token_counter: usize,
    pub clients: Vec<Option<WebSocketClient>>,
}

impl WebSocketServer {
    /// The token allocator and the arena agree: the next token is always
    /// one past the last slot's.
    pub open spec fn wf(self) -> bool {
        self.token_counter as int == self.clients@.len() + 1
    }

    /// Whether a connection lives under this token.
    pub open spec fn has_token(self, t: usize) -> bool {
        2 <= t as int && t as int - 2 < self.clients@.len() && self.clients@[t as int - 2]
            is Some
    }

    /// The connection under this token.
    pub open spec fn client_at(self, t: usize) -> ClientView
        recommends
            self.has_token(t),
    {
        self.clients@[t as int - 2]->Some_0@
    }

    /// An empty table; the counter starts past the listener's token 0.
    pub fn new() -> (s: WebSocketServer)
        ensures
            s.wf(),
            s.token_counter == 1,
            forall|t: usize| !s.has_token(t),
    {
        WebSocketServer { token_counter: 1, clients: Vec::new() }
    }

    /// A connection was accepted: allocate a fresh token, never 0 and never
    /// one used before, and house a fresh connection under it.
    pub fn accept_client(&mut self) -> (t: usize)
        requires
            old(self).wf(),
            old(self).token_counter < usize::MAX,
        ensures
            final(self).wf(),
            t as int == old(self).token_counter + 1,
            final(self).token_counter == t,
            t >= 2,
            !old(self).has_token(t),
            final(self).has_token(t),
            final(self).client_at(t) == initial_client(),
            forall|u: usize| u != t ==> final(self).has_token(u) == old(self).has_token(u),
            forall|u: usize|
                u != t && old(self).has_token(u) ==> final(self).client_at(u) == old(self).client_at(u),
    {
        self.token_counter = self.token_counter + 1;
        let t = self.token_counter;
        self.clients.push(Some(WebSocketClient::new()));
        t
    }

    /// Tears a connection down; events for its token are ignored from here
    /// on. Removal is the only way a token leaves the table.
    pub fn remove_client(&mut self, t: usize)
        requires
            old(self).wf(),
        ensures
            final(self).wf(),
            final(self).token_counter == old(self).token_counter,
            !final(self).has_token(t),
            forall|u: usize| u != t ==> final(self).has_token(u) == old(self).has_token(u),
            forall|u: usize|
                u != t && old(self).has_token(u) ==> final(self).client_at(u) == old(self).client_at(u),
    {
        if t >= 2 && t - 2 < self.clients.len() {
            let idx = t - 2;
            self.clients[idx] = None;
        }
    }

    /// The readiness events the connection under this token currently
    /// needs, for re-registration after each event.
    pub fn client_interest(&self, t: usize) -> (r: Option<Interest>)
        ensures
            match r {
                Some(x) => self.has_token(t) && x == self.client_at(t).interest,
                None => !self.has_token(t),
            },
    {
        if t >= 2 && t - 2 < self.clients.len() {
            match &self.clients[t - 2] {
                Some(c) => Some(c.interest),
                None => None,
            }
        } else {
            None
        }
    }

    /// Where the connection under this token stands.
    pub fn client_state(&self, t: usize) -> (r: Option<ClientState>)
        ensures
            match r {
                Some(x) => self.has_token(t) && x == self.client_at(t).state,
                None => !self.has_token(t),
            },
    {
        if t >= 2 && t - 2 < self.clients.len() {
            match &self.clients[t - 2] {
                Some(c) => Some(c.state),
                None => None,
            }
        } else {
            None
        }
    }

    /// The handshake parser reported an upgrade for this token: hand the
    /// captured headers over and owe the response.
    pub fn upgrade_client(&mut self, t: usize, headers: Vec<(Vec<u8>, Vec<u8>)>) -> (ok: bool)
        requires
            old(self).wf(),
        ensures
            final(self).wf(),
            final(self).token_counter == old(self).token_counter,
            forall|u: usize| u != t ==> final(self).has_token(u) == old(self).has_token(u),
            forall|u: usize|
                u != t && old(self).has_token(u) ==> final(self).client_at(u) == old(self).client_at(u),
            ok == (old(self).has_token(t) && old(self).client_at(t).state
                == ClientState::AwaitingHandshake),
            ok ==> final(self).has_token(t) && final(self).client_at(t) == client_after_upgrade(
                old(self).client_at(t),
                headers_view(headers@),
            ),
            !ok ==> final(self).has_token(t) == old(self).has_token(t) && (old(self).has_token(t)
                ==> final(self).client_at(t) == old(self).client_at(t)),
    {
        if t < 2 || t - 2 >= self.clients.len() {
            return false;
        }
        let idx = t - 2;
        let slot = self.clients.remove(idx);
        match slot {
            None => {
                self.clients.insert(idx, None);
                proof {
                    assert(self.clients@ =~= old(self).clients@);
                }
                false
            },
            Some(mut c) => {
                if c.state == ClientState::AwaitingHandshake {
                    c.on_upgrade_detected(headers);
                    self.clients.insert(idx, Some(c));
                    proof {
                        assert(self.clients@ =~= old(self).clients@.update(
                            idx as int,
                            Some(c),
                        ));
                    }
                    true
                } else {
                    self.clients.insert(idx, Some(c));
                    proof {
                        assert(self.clients@ =~= old(self).clients@);
                    }
                    false
                }
            },
        }
    }

    /// One readable event in the data phase for this token: decode and
    /// handle one frame. A malformed frame removes the connection, as a
    /// malformed peer is terminal; a short buffer leaves everything as it
    /// was.
    pub fn client_read(&mut self, t: usize, buf: &Vec<u8>) -> (r: ReadOutcome)
        requires
            old(self).wf(),
        ensures
            final(self).wf(),
            final(self).token_counter == old(self).token_counter,
            forall|u: usize| u != t ==> final(self).has_token(u) == old(self).has_token(u),
            forall|u: usize|
                u != t && old(self).has_token(u) ==> final(self).client_at(u) == old(self).client_at(u),
            match r {
                ReadOutcome::NoClient => !old(self).has_token(t) && !final(self).has_token(t),
                ReadOutcome::NotOpen => old(self).has_token(t) && old(self).client_at(t).state
                    != ClientState::Connected && final(self).has_token(t) && final(self).client_at(t) == old(self).client_at(t),
                ReadOutcome::Incomplete => old(self).has_token(t) && old(self).client_at(t).state
                    == ClientState::Connected && parse_frame(buf@, true) == Err::<
                    (FrameView, int),
                    DecodeError,
                >(DecodeError::Truncated) && final(self).has_token(t) && final(self).client_at(t)
                    == old(self).client_at(t),
                ReadOutcome::Dropped(e) => old(self).has_token(t) && old(self).client_at(t).state
                    == ClientState::Connected && parse_frame(buf@, true) == Err::<
                    (FrameView, int),
                    DecodeError,
                >(e) && e != DecodeError::Truncated && !final(self).has_token(t),
                ReadOutcome::Consumed(n) => old(self).has_token(t) && old(self).client_at(t).state
                    == ClientState::Connected && (parse_frame(buf@, true) matches Ok(p) && p.1
                    == n as int && final(self).has_token(t) && final(self).client_at(t)
                    == client_after_frame(old(self).client_at(t), p.0)),
            },
    {
        if t < 2 || t - 2 >= self.clients.len() {
            return ReadOutcome::NoClient;
        }
        let idx = t - 2;
        let slot = self.clients.remove(idx);
        match slot {
            None => {
                self.clients.insert(idx, None);
                proof {
                    assert(self.clients@ =~= old(self).clients@);
                }
                ReadOutcome::NoClient
            },
            Some(mut c) => {
                if c.state == ClientState::Connected {
                    match c.read(buf) {
                        Ok(n) => {
                            self.clients.insert(idx, Some(c));
                            proof {
                                assert(self.clients@ =~= old(self).clients@.update(
                                    idx as int,
                                    Some(c),
                                ));
                            }
                            ReadOutcome::Consumed(n)
                        },
                        Err(DecodeError::Truncated) => {
                            self.clients.insert(idx, Some(c));
                            proof {
                                assert(self.clients@ =~= old(self).clients@);
                            }
                            ReadOutcome::Incomplete
                        },
                        Err(e) => {
                            self.clients.insert(idx, None);
                            proof {
                                assert(self.clients@ =~= old(self).clients@.update(
                                    idx as int,
                                    None,
                                ));
                            }
                            ReadOutcome::Dropped(e)
                        },
                    }
                } else {
                    self.clients.insert(idx, Some(c));
                    proof {
                        assert(self.clients@ =~= old(self).clients@);
                    }
                    ReadOutcome::NotOpen
                }
            },
        }
    }

    /// One writable event for this token: the connection produces the
    /// bytes to send — handshake response or queued frames — and moves on.
    pub fn client_write(&mut self, t: usize) -> (r: Option<Result<Vec<u8>, HandshakeError>>)
        requires
            old(self).wf(),
        ensures
            final(self).wf(),
            final(self).token_counter == old(self).token_counter,
            forall|u: usize| u != t ==> final(self).has_token(u) == old(self).has_token(u),
            forall|u: usize|
                u != t && old(self).has_token(u) ==> final(self).client_at(u) == old(self).client_at(u),
            match r {
                None => !old(self).has_token(t) && !final(self).has_token(t),
                Some(res) => old(self).has_token(t) && final(self).has_token(t) && final(self).client_at(t) == client_after_write(old(self).client_at(t)) && (match (
                    res,
                    write_output(old(self).client_at(t)),
                ) {
                    (Ok(v), Ok(s)) => v@ == s,
                    (Err(e1), Err(e2)) => e1 == e2,
                    _ => false,
                }),
            },
    {
        if t < 2 || t - 2 >= self.clients.len() {
            return None;
        }
        let idx = t - 2;
        let slot = self.clients.remove(idx);
        match slot {
            None => {
                self.clients.insert(idx, None);
                proof {
                    assert(self.clients@ =~= old(self).clients@);
                }
                None
            },
            Some(mut c) => {
                let res = c.write();
                self.clients.insert(idx, Some(c));
                proof {
                    assert(self.clients@ =~= old(self).clients@.update(idx as int, Some(c)));
                }
                Some(res)
            },
        }
    }
}

} // verus!
