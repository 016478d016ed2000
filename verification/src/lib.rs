//! Core rules of a block-producing node: the pending-transaction pool, the
//! decisions of the block producer, per-subscriber transaction status
//! tracking, and the query cost table.

pub mod clock;
pub mod codecs;
pub mod coins;
pub mod config;
pub mod costs;
pub mod importer;
pub mod producer;
pub mod schema;
pub mod tx_status;
pub mod txpool;
