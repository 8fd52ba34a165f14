use metrics_log::engine::{check_partition, plan_segment, select_from, topic_config};
use metrics_log::manifest::{
    check_expected_state, find_segment_in, format_partition_state, format_segment_line,
    format_topic_config, initial_partition_state, parse_topic_config, read_partition_state,
    validate_name,
};
use metrics_log::{
    FetchRequest, FetchedRecord, LogEngine, LogError, ManifestStore, ObjectStore, PartitionState,
    ProduceRequest, Record, Result, SegmentMetadata, TopicConfig,
};
use std::collections::HashMap;
use std::sync::Mutex;

#[derive(Default)]
struct MemoryObjects {
    objects: Mutex<HashMap<String, Vec<u8>>>,
}

impl ObjectStore for MemoryObjects {
    fn put_if_absent(&self, key: &str, bytes: &[u8]) -> Result<()> {
        let mut objects = self.objects.lock().unwrap();
        if objects.contains_key(key) {
            return Err(LogError::Conflict(format!("object already exists: {key}")));
        }
        objects.insert(key.to_string(), bytes.to_vec());
        Ok(())
    }

    fn get(&self, key: &str) -> Result<Vec<u8>> {
        self.objects
            .lock()
            .unwrap()
            .get(key)
            .cloned()
            .ok_or_else(|| LogError::NotFound(format!("object not found: {key}")))
    }

    fn get_range(&self, key: &str, offset: u64, length: usize) -> Result<Vec<u8>> {
        let bytes = self.get(key)?;
        let start = (offset as usize).min(bytes.len());
        let end = start.saturating_add(length).min(bytes.len());
        Ok(bytes[start..end].to_vec())
    }
}

#[derive(Default)]
struct MemoryManifests {
    files: Mutex<HashMap<String, String>>,
}

impl MemoryManifests {
    fn read(&self, path: &str) -> Result<String> {
        self.files
            .lock()
            .unwrap()
            .get(path)
            .cloned()
            .ok_or_else(|| LogError::NotFound(format!("metadata file not found: {path}")))
    }

    fn write(&self, path: String, text: String) {
        self.files.lock().unwrap().insert(path, text);
    }
}

impl ManifestStore for MemoryManifests {
    fn create_topic(&self, config: TopicConfig) -> Result<()> {
        validate_name(&config.name)?;
        self.write(format!("{}/topic", config.name), format_topic_config(&config));
        for partition_id in 0..config.partitions {
            let state = initial_partition_state(&config.name, partition_id);
            self.write(
                format!("{}/state/{partition_id}", config.name),
                format_partition_state(&state),
            );
            self.write(format!("{}/segments/{partition_id}", config.name), String::new());
        }
        Ok(())
    }

    fn topic(&self, topic: &str) -> Result<TopicConfig> {
        parse_topic_config(&self.read(&format!("{topic}/topic"))?, topic)
    }

    fn partition_state(&self, topic: &str, partition_id: u32) -> Result<PartitionState> {
        let path = format!("{topic}/state/{partition_id}");
        read_partition_state(&self.read(&path)?, &path)
    }

    fn commit_segment(
        &self,
        expected: &PartitionState,
        next: &PartitionState,
        segment: SegmentMetadata,
    ) -> Result<()> {
        let current = self.partition_state(&expected.topic, expected.partition_id)?;
        check_expected_state(&current, expected)?;
        let path = format!("{}/segments/{}", segment.topic, segment.partition_id);
        let mut list = self.read(&path)?;
        list.push_str(&format_segment_line(&segment));
        self.write(path, list);
        self.write(
            format!("{}/state/{}", next.topic, next.partition_id),
            format_partition_state(next),
        );
        Ok(())
    }

    fn find_segment(&self, topic: &str, partition_id: u32, offset: u64) -> Result<SegmentMetadata> {
        let text = self.read(&format!("{topic}/segments/{partition_id}"))?;
        find_segment_in(&text, topic, partition_id, offset)
    }
}

fn engine() -> LogEngine<MemoryObjects, MemoryManifests> {
    LogEngine::new(MemoryObjects::default(), MemoryManifests::default())
}

fn invalid_argument<T: std::fmt::Debug>(result: Result<T>) -> String {
    match result {
        Err(LogError::InvalidArgument(message)) => message,
        other => panic!("expected an invalid argument error, got {:?}", other),
    }
}

fn produce(topic: &str, partition_id: u32, records: Vec<Record>) -> ProduceRequest {
    ProduceRequest { topic: topic.to_string(), partition_id, records }
}

fn fetch(topic: &str, partition_id: u32, offset: u64, max_records: usize) -> FetchRequest {
    FetchRequest { topic: topic.to_string(), partition_id, offset, max_records }
}

#[test]
fn memory_stores_produce_and_fetch_records() {
    let engine = engine();
    engine.create_topic("metrics_raw", 1).unwrap();
    let produced = engine
        .produce(produce(
            "metrics_raw",
            0,
            vec![Record::new("series-a", "sample-1"), Record::new("series-a", "sample-2")],
        ))
        .unwrap();
    assert_eq!(produced.base_offset, 0);
    assert_eq!(produced.last_offset, 1);
    assert_eq!(produced.topic, "metrics_raw");
    assert_eq!(produced.partition_id, 0);

    let fetched = engine.fetch(fetch("metrics_raw", 0, 1, 10)).unwrap();
    assert_eq!(fetched.records.len(), 1);
    assert_eq!(fetched.records[0].offset, 1);
    assert_eq!(fetched.records[0].key, b"series-a");
    assert_eq!(fetched.records[0].value, b"sample-2");
}

#[test]
fn later_batches_continue_the_offsets() {
    let engine = engine();
    engine.create_topic("t", 2).unwrap();
    engine.produce(produce("t", 1, vec![Record::new("a", "1"), Record::new("b", "2")])).unwrap();
    let second = engine
        .produce(produce("t", 1, vec![Record::new("c", "3"), Record::new("d", "4"), Record::new("e", "5")]))
        .unwrap();
    assert_eq!(second.base_offset, 2);
    assert_eq!(second.last_offset, 4);
    let other = engine.produce(produce("t", 0, vec![Record::new("x", "y")])).unwrap();
    assert_eq!(other.base_offset, 0);

    let fetched = engine.fetch(fetch("t", 1, 3, 1)).unwrap();
    assert_eq!(fetched.records.len(), 1);
    assert_eq!(fetched.records[0].offset, 3);
    assert_eq!(fetched.records[0].key, b"d");

    let first = engine.fetch(fetch("t", 1, 0, 10)).unwrap();
    let offsets: Vec<u64> = first.records.iter().map(|r| r.offset).collect();
    assert_eq!(offsets, vec![0, 1]);

    match engine.fetch(fetch("t", 1, 5, 10)) {
        Err(LogError::NotFound(message)) => {
            assert_eq!(message, "no segment for t/1 at offset 5")
        }
        other => panic!("unexpected {:?}", other),
    }
}

#[test]
fn produce_refuses_bad_requests() {
    let engine = engine();
    engine.create_topic("metrics_raw", 1).unwrap();
    assert_eq!(
        invalid_argument(engine.produce(produce("metrics_raw", 0, vec![]))),
        "produce request must include at least one record"
    );
    assert_eq!(
        invalid_argument(engine.produce(produce("metrics_raw", 5, vec![Record::new("k", "v")]))),
        "partition 5 is outside topic metrics_raw partition count 1"
    );
    match engine.produce(produce("missing", 0, vec![Record::new("k", "v")])) {
        Err(LogError::NotFound(_)) => {}
        other => panic!("unexpected {:?}", other),
    }
}

#[test]
fn topics_need_a_partition_and_a_valid_name() {
    let engine = engine();
    assert_eq!(
        invalid_argument(engine.create_topic("metrics_raw", 0)),
        "topic must have at least one partition"
    );
    assert_eq!(
        invalid_argument(engine.create_topic("bad name", 1)),
        "invalid name \"bad name\"; use ascii letters, numbers, '-' or '_'"
    );
}

#[test]
fn fetch_needs_a_positive_limit() {
    let engine = engine();
    assert_eq!(
        invalid_argument(engine.fetch(fetch("t", 0, 0, 0))),
        "fetch max_records must be greater than zero"
    );
}

fn state(next_offset: u64) -> PartitionState {
    PartitionState {
        topic: "metrics_raw".to_string(),
        partition_id: 3,
        log_start_offset: 0,
        high_watermark: next_offset,
        next_offset,
    }
}

#[test]
fn a_plan_holds_everything_a_produce_writes() {
    let request = produce("metrics_raw", 3, vec![Record::new("a", "1"), Record::new("b", "2")]);
    let plan = match plan_segment(&request, &state(40)) {
        Ok(plan) => plan,
        Err(e) => panic!("unexpected {:?}", e),
    };
    assert_eq!(
        plan.object_key,
        "logs/topic=metrics_raw/partition=000003/segment-00000000000000000040.log"
    );
    assert_eq!(
        plan.index_key,
        "logs/topic=metrics_raw/partition=000003/index-00000000000000000040.idx"
    );
    assert_eq!(plan.segment.start_offset, 40);
    assert_eq!(plan.segment.end_offset, 41);
    assert_eq!(plan.segment.record_count, 2);
    assert_eq!(plan.segment.size_bytes, plan.segment_bytes.len() as u64);
    assert_eq!(plan.segment.object_key, plan.object_key);
    assert_eq!(plan.next.next_offset, 42);
    assert_eq!(plan.next.high_watermark, 42);
    assert_eq!(plan.response.base_offset, 40);
    assert_eq!(plan.response.last_offset, 41);
    let decoded = metrics_log::decode_segment(&plan.segment_bytes).unwrap();
    assert_eq!(decoded[1].offset, 41);
    assert_eq!(decoded[1].value, b"2");
    assert_eq!(plan.index_bytes, metrics_log::encode_sparse_index(40, 0));
}

#[test]
fn a_plan_refuses_offsets_past_u64() {
    let request = produce("metrics_raw", 3, vec![Record::new("a", "1"), Record::new("b", "2")]);
    match plan_segment(&request, &state(u64::MAX - 1)) {
        Err(LogError::InvalidArgument(message)) => {
            assert_eq!(message, "produce request would overflow the partition offsets")
        }
        Err(e) => panic!("unexpected {:?}", e),
        Ok(_) => panic!("expected an error"),
    }
    assert!(plan_segment(&request, &state(u64::MAX - 2)).is_ok());
}

#[test]
fn partition_range_is_checked() {
    let request = produce("metrics_raw", 2, vec![Record::new("a", "1")]);
    let topic = TopicConfig { name: "metrics_raw".to_string(), partitions: 2 };
    assert_eq!(
        invalid_argument(check_partition(&request, &topic)),
        "partition 2 is outside topic metrics_raw partition count 2"
    );
    let wider = TopicConfig { name: "metrics_raw".to_string(), partitions: 3 };
    assert!(check_partition(&request, &wider).is_ok());
}

fn fetched(offset: u64) -> FetchedRecord {
    FetchedRecord { offset, key: vec![offset as u8], value: vec![] }
}

#[test]
fn selection_keeps_later_records_up_to_the_limit() {
    let records = vec![fetched(5), fetched(6), fetched(7), fetched(8)];
    let offsets: Vec<u64> = select_from(records.clone(), 6, 2).iter().map(|r| r.offset).collect();
    assert_eq!(offsets, vec![6, 7]);
    let offsets: Vec<u64> = select_from(records.clone(), 0, 10).iter().map(|r| r.offset).collect();
    assert_eq!(offsets, vec![5, 6, 7, 8]);
    assert!(select_from(records, 9, 10).is_empty());
}

#[test]
fn a_stale_commit_is_a_conflict() {
    let manifests = MemoryManifests::default();
    manifests
        .create_topic(TopicConfig { name: "metrics_raw".to_string(), partitions: 1 })
        .unwrap();
    let current = manifests.partition_state("metrics_raw", 0).unwrap();
    let mut stale = current.clone();
    stale.next_offset = 9;
    let segment = SegmentMetadata {
        topic: "metrics_raw".to_string(),
        partition_id: 0,
        start_offset: 0,
        end_offset: 0,
        object_key: "o".to_string(),
        index_key: "i".to_string(),
        size_bytes: 1,
        record_count: 1,
    };
    match manifests.commit_segment(&stale, &current, segment) {
        Err(LogError::Conflict(message)) => {
            assert_eq!(message, "partition state changed for metrics_raw/0")
        }
        other => panic!("unexpected {:?}", other),
    }
}

#[test]
fn each_batch_gets_its_own_keys() {
    let request = produce("metrics_raw", 3, vec![Record::new("a", "1")]);
    let first = plan_segment(&request, &state(9)).unwrap();
    let second = plan_segment(&request, &state(10)).unwrap();
    assert_ne!(first.object_key, second.object_key);
    assert_ne!(first.index_key, second.index_key);
    assert_ne!(first.object_key, first.index_key);
}

#[test]
fn a_fetch_inside_a_batch_reads_its_tail() {
    let request = produce(
        "metrics_raw",
        3,
        vec![Record::new("a", "1"), Record::new("b", "2"), Record::new("c", "3")],
    );
    let plan = plan_segment(&request, &state(100)).unwrap();
    let decoded = metrics_log::decode_segment(&plan.segment_bytes).unwrap();
    let tail = select_from(decoded, 101, 1);
    assert_eq!(tail.len(), 1);
    assert_eq!(tail[0].offset, 101);
    assert_eq!(tail[0].key, b"b");
}

#[test]
fn a_topic_config_takes_the_name_as_given() {
    let config = topic_config("metrics_raw", 4);
    assert_eq!(config.name, "metrics_raw");
    assert_eq!(config.partitions, 4);
    let owned = topic_config(String::from("other"), 1);
    assert_eq!(owned.name, "other");
}

#[test]
fn batches_planned_one_after_another_continue_the_offsets() {
    let first_request = produce("metrics_raw", 3, vec![Record::new("a", "1"), Record::new("b", "2")]);
    let first = plan_segment(&first_request, &state(0)).unwrap();
    let second_request = produce("metrics_raw", 3, vec![Record::new("c", "3")]);
    let second = plan_segment(&second_request, &first.next).unwrap();
    assert_eq!(second.response.base_offset, first.response.last_offset + 1);
    assert_eq!(second.response.last_offset, 2);
    assert_eq!(second.next.next_offset, 3);
    assert_eq!(second.next.high_watermark, 3);
}
