//! An in-memory key-value server core that speaks a RESP-style wire protocol and
//! replicates writes from a master to its replicas.
//!
//! The crate holds the decisions of the server: the value codec, the command
//! dispatcher with its replication-offset accounting, the replica fan-out, the
//! quorum wait and the replica bootstrap handshake. Sockets, timers and tasks
//! live with the caller, which performs the actions these functions return and
//! hands back what happened.

pub mod broadcast;
pub mod config;
pub mod handler;
pub mod handshake;
pub mod protocol;
pub mod state;
pub mod store;
