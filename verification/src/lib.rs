//! Synchronization and replay engine for an archival observer node of an
//! account-based blockchain.
//!
//! The crate holds the four pieces that carry the ordering and consistency
//! logic of such a node: the height- and hash-addressable block store
//! ([`db`]), the single-request protocol client ([`client`]), the bootstrap
//! orchestrator ([`main_loop`]), and the multi-branch ancestor replay
//! engine ([`bootstrap`]). Network transport, durability of the store and
//! the cryptographic batch-apply collaborator stay outside; they meet the
//! library through plain values.

pub mod block;
pub mod catch;
pub mod bootstrap;
pub mod client;
pub mod codec;
pub mod db;
pub mod digest;
pub mod inspect;
pub mod main_loop;
pub mod server;
