//! An authoritative DNS server library: a bit-exact wire codec for DNS
//! messages, a label-pattern zone matcher, a resolution engine that
//! assembles answer/authority/additional sections from configured zones,
//! a TTL-aware response cache, and a configuration builder.
//!
//! Network and file I/O live outside this crate; the library works on
//! plain values (bytes, strings, records) and every function is verified
//! against its contract.

pub mod cache;
pub mod config;
pub mod protocol;
pub mod record_type;
pub mod regex;
pub mod server;
pub mod ttl;
