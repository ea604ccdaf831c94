//! Client core for a partitioned, replicated log-based messaging cluster.
//!
//! The crate covers broker address handling, topic administration, message
//! production with per-message delivery reports, and a consumer-group engine
//! with partition rebalancing and offset commits. The cluster itself is
//! modelled as an in-memory value so that every operation of the client core
//! can be stated and proved as a contract.

pub mod admin;
pub mod cli;
pub mod cluster;
pub mod consumer;
pub mod errors;
pub mod facade;
pub mod message;
pub mod models;
pub mod producer;
pub mod pull;
pub mod push;
