//! A witness node core for a decentralized-identifier protocol.
//!
//! Identifiers are established and governed by append-only, hash-chained
//! event logs. This crate holds the verified core of such a node: the
//! key-state fold that validates and folds signed events into the current
//! key state (`process`), the append-only per-identifier event log store
//! (`store`), the wire codec for signed event streams (`codec`), the digest
//! mapping under which data is announced in a distributed directory
//! (`directory`), the resolution state machine that orders local lookup,
//! directory lookup and remote fetch (`resolve`), and the witness address
//! registry (`witness`). The digest and signature primitives are consumed
//! through trusted wrappers over outside crates (`crypto`); transport, the
//! directory's own network protocol and all other I/O live outside this
//! crate and drive it through plain values.

pub mod codec;
pub mod crypto;
pub mod directory;
pub mod event;
pub mod laws;
pub mod process;
pub mod resolve;
pub mod store;
pub mod witness;
