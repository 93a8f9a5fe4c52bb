//! A self-expiring blocklist for a host firewall.
//!
//! The library holds the registry of blocked addresses, the rules that decide
//! when a block is installed, renewed and revoked, and the reading of the
//! packet filter's rule table. It performs no input or output itself: callers
//! hand it datagrams, clock readings and table listings, and carry out the
//! firewall commands it returns.

pub mod config;
pub mod text;
pub mod order;
pub mod cache;
pub mod listing;
pub mod handles;
pub mod sweep;
pub mod command;
pub mod ingest;
pub mod bootstrap;
pub mod laws;
