use vstd::prelude::*;
use vstd::string::StringSliceAdditionalSpecFns;
use sha2::{Digest, Sha256};
use crate::query::AggregationType;

verus! {

/// The SHA-256 digest of a byte string.
pub uninterp spec fn sha256_of(data: Seq<u8>) -> Seq<u8>;

/// Relies on sha2's `Sha256::digest` (through the `Digest` trait): the SHA-256
/// digest of `data`, whose output size is 32 bytes.
#[verifier::external_body]
fn sha256(data: &[u8]) -> (r: Vec<u8>)
    ensures
        r@ == sha256_of(data@),
        r@.len() == 32,
{
    Sha256::digest(data).to_vec()
}

/// The number in the first eight bytes of `s`, big-endian.
pub open spec fn read_be8(s: Seq<u8>) -> u64 {
    ((s[0] as u64) << 56u64) | ((s[1] as u64) << 48u64) | ((s[2] as u64) << 40u64) | ((s[3] as u64)
        << 32u64) | ((s[4] as u64) << 24u64) | ((s[5] as u64) << 16u64) | ((s[6] as u64) << 8u64)
        | (s[7] as u64)
}

/// The shard hash of a digest: its first eight bytes, big-endian.
pub fn shard_hash(digest: &Vec<u8>) -> (r: u64)
    requires
        digest@.len() >= 8,
    ensures
        r == read_be8(digest@),
{
    ((digest[0] as u64) << 56u64) | ((digest[1] as u64) << 48u64) | ((digest[2] as u64) << 40u64)
        | ((digest[3] as u64) << 32u64) | ((digest[4] as u64) << 24u64) | ((digest[5] as u64)
        << 16u64) | ((digest[6] as u64) << 8u64) | (digest[7] as u64)
}

/// A series and its place on the hash ring.
#[derive(Debug, Clone)]
pub struct ShardKey {
    pub series: String,
    pub hash: u64,
}

impl ShardKey {
    /// Places a series on the ring by the SHA-256 digest of its UTF-8 bytes.
    pub fn new(series: &str) -> (r: ShardKey)
        ensures
            r.series@ == series@,
            r.hash == read_be8(sha256_of(series.spec_bytes())),
    {
        let digest = sha256(series.as_bytes());
        ShardKey { series: series.to_owned(), hash: shard_hash(&digest) }
    }
}

/// The health of a cluster node.
#[derive(Debug, Clone, Copy, PartialEq, Eq, Structural)]
pub enum NodeStatus {
    Healthy,
    Degraded,
    Unreachable,
    Joining,
    Leaving,
}

/// Bytes a node has received and sent.
#[derive(Debug, Clone, Copy, PartialEq, Eq, Structural)]
pub struct NetworkIO {
    pub bytes_in: u64,
    pub bytes_out: u64,
}

/// A replica's answer to a replicated write.
#[derive(Debug, Clone)]
pub struct ReplicationResponse {
    pub success: bool,
    pub error: Option<String>,
    pub node_id: u32,
}

/// A summary of the cluster as one node sees it.
#[derive(Debug, Clone, Copy, PartialEq, Eq, Structural)]
pub struct ClusterStatus {
    pub local_node_id: u32,
    pub total_nodes: usize,
    pub healthy_nodes: usize,
    pub ring_initialized: bool,
    pub replication_factor: usize,
}

/// A range query sent to another node.
#[derive(Debug, Clone)]
pub struct QueryRequest {
    pub series: String,
    pub start_time: u64,
    pub end_time: u64,
    pub aggregation: Option<AggregationType>,
    pub request_id: String,
}

} // verus!
