//! Verified core of a real-time position-sharing relay.
//!
//! Clients report their 2D coordinates over an unreliable datagram
//! transport; the server accepts a client on an explicit connect message,
//! tracks their liveness with time-decayed counters, stores the latest
//! position each client reported, and periodically broadcasts the set of
//! all other live positions back to every live client.
//!
//! This crate holds the parts of that system worth proving: the wire
//! codec (`codec`), the session table with its liveness invariant
//! (`table`), the server's event dispatcher and broadcast engine
//! (`server`), and the client-side state machine (`client`).
//! Socket I/O, timers and terminal rendering are left to the embedding
//! program.

pub mod client;
pub mod codec;
pub mod player;
pub mod server;
pub mod table;
