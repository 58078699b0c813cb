//! Core of a WebSocket server: the frame codec, the handshake key
//! derivation, the per-connection protocol state machine and the connection
//! table that a readiness-driven reactor dispatches into.
pub mod frame;
pub mod handshake;
pub mod socket_client;
pub mod socket_server;
