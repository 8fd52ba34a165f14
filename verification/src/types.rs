use vstd::prelude::*;

verus! {

/// A topic and the number of partitions it was created with.
#[derive(Clone, Debug, PartialEq, Eq)]
pub struct TopicConfig {
    pub name: String,
    pub partitions: u32,
}

/// The contents of a [`TopicConfig`].
pub struct TopicConfigView {
    pub name: Seq<char>,
    pub partitions: u32,
}

impl View for TopicConfig {
    type V = TopicConfigView;

    open spec fn view(&self) -> TopicConfigView {
        TopicConfigView { name: self.name@, partitions: self.partitions }
    }
}

/// The offsets of one partition of a topic, as the manifest records them.
#[derive(Clone, Debug, PartialEq, Eq)]
pub struct PartitionState {
    pub topic: String,
    pub partition_id: u32,
    pub log_start_offset: u64,
    pub high_watermark: u64,
    pub next_offset: u64,
}

/// The contents of a [`PartitionState`].
pub struct PartitionStateView {
    pub topic: Seq<char>,
    pub partition_id: u32,
    pub log_start_offset: u64,
    pub high_watermark: u64,
    pub next_offset: u64,
}

impl View for PartitionState {
    type V = PartitionStateView;

    open spec fn view(&self) -> PartitionStateView {
        PartitionStateView {
            topic: self.topic@,
            partition_id: self.partition_id,
            log_start_offset: self.log_start_offset,
            high_watermark: self.high_watermark,
            next_offset: self.next_offset,
        }
    }
}

/// The manifest entry for one segment object and its sparse index.
#[derive(Clone, Debug, PartialEq, Eq)]
pub struct SegmentMetadata {
    pub topic: String,
    pub partition_id: u32,
    pub start_offset: u64,
    pub end_offset: u64,
    pub object_key: String,
    pub index_key: String,
    pub size_bytes: u64,
    pub record_count: u64,
}

/// The contents of a [`SegmentMetadata`].
pub struct SegmentMetadataView {
    pub topic: Seq<char>,
    pub partition_id: u32,
    pub start_offset: u64,
    pub end_offset: u64,
    pub object_key: Seq<char>,
    pub index_key: Seq<char>,
    pub size_bytes: u64,
    pub record_count: u64,
}

impl View for SegmentMetadata {
    type V = SegmentMetadataView;

    open spec fn view(&self) -> SegmentMetadataView {
        SegmentMetadataView {
            topic: self.topic@,
            partition_id: self.partition_id,
            start_offset: self.start_offset,
            end_offset: self.end_offset,
            object_key: self.object_key@,
            index_key: self.index_key@,
            size_bytes: self.size_bytes,
            record_count: self.record_count,
        }
    }
}

/// A record as a producer hands it in: a key and a value, both raw bytes.
#[derive(Clone, Debug, PartialEq, Eq)]
pub struct Record {
    pub key: Vec<u8>,
    pub value: Vec<u8>,
}

/// The contents of a [`Record`].
pub struct RecordView {
    pub key: Seq<u8>,
    pub value: Seq<u8>,
}

impl View for Record {
    type V = RecordView;

    open spec fn view(&self) -> RecordView {
        RecordView { key: self.key@, value: self.value@ }
    }
}

/// The contents of a sequence of records.
pub open spec fn record_views(records: Seq<Record>) -> Seq<RecordView> {
    records.map_values(|r: Record| r@)
}

impl Record {
    /// A record whose key and value are what `key.into()` and `value.into()` give.
    pub fn new<K: Into<Vec<u8>>, V: Into<Vec<u8>>>(key: K, value: V) -> (r: Record)
        ensures
            call_ensures(K::into, (key,), r.key),
            call_ensures(V::into, (value,), r.value),
    {
        Record { key: key.into(), value: value.into() }
    }
}

/// A batch of records for one partition of one topic.
#[derive(Clone, Debug, PartialEq, Eq)]
pub struct ProduceRequest {
    pub topic: String,
    pub partition_id: u32,
    pub records: Vec<Record>,
}

/// Where a produced batch landed: the offsets of its first and last records.
#[derive(Clone, Debug, PartialEq, Eq)]
pub struct ProduceResponse {
    pub topic: String,
    pub partition_id: u32,
    pub base_offset: u64,
    pub last_offset: u64,
}

/// A read of at most `max_records` records from `offset` on.
#[derive(Clone, Debug, PartialEq, Eq)]
pub struct FetchRequest {
    pub topic: String,
    pub partition_id: u32,
    pub offset: u64,
    pub max_records: usize,
}

/// The records a fetch returned.
#[derive(Clone, Debug, PartialEq, Eq)]
pub struct FetchResponse {
    pub topic: String,
    pub partition_id: u32,
    pub records: Vec<FetchedRecord>,
}

/// A record read back from a segment, with the offset it was stored at.
#[derive(Clone, Debug, PartialEq, Eq)]
pub struct FetchedRecord {
    pub offset: u64,
    pub key: Vec<u8>,
    pub value: Vec<u8>,
}

/// The contents of a [`FetchedRecord`].
pub struct FetchedView {
    pub offset: u64,
    pub key: Seq<u8>,
    pub value: Seq<u8>,
}

impl View for FetchedRecord {
    type V = FetchedView;

    open spec fn view(&self) -> FetchedView {
        FetchedView { offset: self.offset, key: self.key@, value: self.value@ }
    }
}

/// The contents of a sequence of fetched records.
pub open spec fn fetched_views(records: Seq<FetchedRecord>) -> Seq<FetchedView> {
    records.map_values(|r: FetchedRecord| r@)
}

} // verus!
