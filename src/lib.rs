//! Characterises how a NAT maps a client's UDP source port, from probes that the client
//! sends to known server ports: the per-peer probe store, its eviction, the Alpha and Beta
//! classifiers and the query over both stores, along with payload decoding and a small
//! STUN encoder.

pub mod alpha;
pub mod attribute;
pub mod beta;
pub mod classify;
pub mod config;
pub mod errors;
pub mod message;
pub mod net;
pub mod payload;
pub mod query;
pub mod record;
pub mod store;
