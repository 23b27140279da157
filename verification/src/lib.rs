//! A subnet-local service-discovery authority's core: a keyed catalog of
//! services discovered over multicast DNS, a single-writer cache actor
//! that serializes every mutation and republishes a change-detection
//! fingerprint only after a real change, the deterministic fingerprint
//! protocol itself, and the discovery multiplexer's conversion and dedup
//! rules. Each public operation carries a contract stating its exact
//! effect on the catalog model.

pub mod advertise;
pub mod api;
pub mod browser;
pub mod cache_manager;
pub mod config;
pub mod db;
pub mod encoding;
pub mod hash;
pub mod protocol;
pub mod types;
