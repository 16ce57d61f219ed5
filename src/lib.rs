//! The hot path of a streaming RPC gateway: a fastest-wins block
//! multiplexer, a cache of address lookup tables with its snapshot format,
//! a recent-blockhash window and the tracking of sent transactions.

pub mod multiplex;
pub mod pubkey;
pub mod snapshot;
pub mod alt_store;
pub mod block_info;
pub mod tx_tracker;
pub mod percentiles;
