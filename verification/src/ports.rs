//! The two narrow storage interfaces the engine is written against. Each
//! adapter (a filesystem, a cloud object store) implements them.
use crate::error::Result;
use crate::types::{PartitionState, SegmentMetadata, TopicConfig};
use vstd::prelude::*;

verus! {

/// Durable, immutable objects addressed by key.
pub trait ObjectStore: Send + Sync {
    /// Stores `bytes` under `key`, refusing to overwrite an existing object.
    fn put_if_absent(&self, key: &str, bytes: &[u8]) -> Result<()>;

    /// The bytes stored under `key`.
    fn get(&self, key: &str) -> Result<Vec<u8>>;

    /// At most `length` bytes of the object under `key`, from `offset` on.
    fn get_range(&self, key: &str, offset: u64, length: usize) -> Result<Vec<u8>>;
}

/// The metadata that makes objects visible: topics, partition offsets and
/// the segment list of each partition.
pub trait ManifestStore: Send + Sync {
    /// Records a new topic and the initial state of its partitions.
    fn create_topic(&self, config: TopicConfig) -> Result<()>;

    /// The configuration of `topic`.
    fn topic(&self, topic: &str) -> Result<TopicConfig>;

    /// The current state of one partition.
    fn partition_state(&self, topic: &str, partition_id: u32) -> Result<PartitionState>;

    /// Appends `segment` and moves the partition from `expected` to `next`,
    /// failing if the partition is no longer in state `expected`.
    fn commit_segment(
        &self,
        expected: &PartitionState,
        next: &PartitionState,
        segment: SegmentMetadata,
    ) -> Result<()>;

    /// The segment of the partition that holds `offset`.
    fn find_segment(&self, topic: &str, partition_id: u32, offset: u64) -> Result<SegmentMetadata>;
}

} // verus!
