//! A verified core for an object-store-backed append log: the segment
//! codec, the produce and fetch logic of the log engine, the text formats
//! and rules of the manifest store, and the command line of the log tool.

pub mod cli;
pub mod engine;
pub mod error;
pub mod manifest;
pub mod ports;
pub mod segment;
pub mod text;
pub mod types;

pub use engine::LogEngine;
pub use error::{LogError, Result};
pub use ports::{ManifestStore, ObjectStore};
pub use segment::{decode_segment, encode_segment, encode_sparse_index};
pub use types::{
    FetchRequest, FetchResponse, FetchedRecord, PartitionState, ProduceRequest, ProduceResponse,
    Record, SegmentMetadata, TopicConfig,
};
