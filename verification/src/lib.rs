//! Snapshot chains, snapshot packs, guest memory regions, and the token check
//! and audit trail of the daemon that serves them.
//!
//! Everything here works on plain values. Files, sockets and mappings belong to
//! the program around this library.

pub mod assembly;
pub mod audit;
pub mod auth;
pub mod calendar;
pub mod chain;
pub mod digest;
pub mod json;
pub mod listing;
pub mod manifest;
pub mod mapped_copy;
pub mod memfd;
pub mod pack;
pub mod path;
pub mod relocate;
pub mod roundtrip;
pub mod sequence;
pub mod sizes;
pub mod snapshot;
pub mod text;
pub mod transfer;
pub mod unpack;
