//! Verified core of an Electrum-style address-indexing server for the
//! Bitcoin blockchain: chain tracking, a script-hash history index, a
//! mempool mirror, status-hash computation, Merkle branch construction,
//! and the request dispatcher that serves wallet clients.

pub mod types;
pub mod digest;
pub mod encode;
pub mod chain;
pub mod merkle;
pub mod index;
pub mod order;
pub mod mempool;
pub mod status;
pub mod cache;
pub mod tracker;
pub mod electrum;
pub mod server;
