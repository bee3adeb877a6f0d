//! Verified core of a transparent DNS-based traffic steering resolver.
//!
//! The library holds the decisions of the resolver: how policies are keyed,
//! how the configuration is patched and migrated, which interface carries a
//! policy when links fail, how fake IPs are handed out from a pool, and how
//! overlapping subnets with priorities resolve into disjoint routing entries.
pub mod api;
pub mod config;
pub mod dns;
pub mod domains;
pub mod failover;
pub mod geo;
pub mod lists;
pub mod fake_ip;
pub mod health;
pub mod net;
pub mod nft;
pub mod ping;
pub mod policy;
pub mod sweep;
pub mod sync;
pub mod text;
