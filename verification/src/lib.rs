//! A peer-to-peer file-sharing engine: a Kademlia-style distributed hash
//! table combined with a chunked file transfer protocol.
//!
//! The crate holds the verified core: XOR-distance arithmetic, the framed
//! wire codec, the bucket-tree routing table, the DHT state, the iterative
//! lookup engine, and the torrent metadata / chunk layout logic. Network and
//! disk I/O live outside, handing plain values in and out.

pub mod bucket_tree;
pub mod chunk;
pub mod chunk_pieces;
pub mod client;
pub mod codec;
pub mod dht;
pub mod div;
pub mod file_chunk;
pub mod file_sharing;
pub mod lookup;
pub mod math;
pub mod peer_node;
pub mod protocol;
pub mod raw_array;
pub mod routing_table;
pub mod server;
pub mod torrent;

use vstd::prelude::*;

verus! {

} // verus!
