//! Peer-to-peer networking core for a beacon-chain node: signed peer records,
//! XOR-distance discovery, a gossip mesh with deduplicated forwarding, and a
//! correlated request/response protocol, multiplexed into one event stream.

pub mod bytes_util;
pub mod distance;
pub mod hex_codec;
pub mod identity;
pub mod messages;
pub mod discovery;
pub mod service;
pub mod rpc;
pub mod gossip;
