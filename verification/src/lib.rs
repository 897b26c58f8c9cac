//! Engine for ephemeral voice "party" groups in a chat server: a verified
//! command parser, occupancy tracker, bounded caches, cleanup queue with
//! two-phase sweep, and the decision logic that drives remote channel
//! management.
pub mod caches;
pub mod command;
pub mod engine;
pub mod extern_caches;
pub mod listing;
pub mod numbers;
pub mod occupancy;
pub mod plan;
pub mod ratelimit;
pub mod roles;
