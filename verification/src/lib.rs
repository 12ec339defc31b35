//! A small recursive DNS resolver library: wire-format message codec with
//! name compression, a TTL-aware cache, and the decision logic of the
//! iterative resolution walk.

pub mod cache;
pub mod client;
pub mod compression;
pub mod domain;
pub mod header;
pub mod message;
pub mod qtype;
pub mod query;
pub mod resource;
pub mod server;
pub mod wire;
