//! An in-memory key-value server core: the wire codec, the command
//! recogniser, a sharded store with per-key expiry, the leader's request
//! dispatcher and the follower's side of replication.
pub mod cmd;
pub mod config;
pub mod frame;
pub mod replication;
pub mod server;
pub mod store;
pub mod text;
