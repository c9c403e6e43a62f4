//! Finds AMM pools that swapped within a block range and reconciles the
//! reserves each pool reports against the balances its tokens credit to it.

pub mod address;
pub mod chunks;
pub mod discovery;
pub mod enrich;
pub mod map;
pub mod reconcile;
pub mod types;
