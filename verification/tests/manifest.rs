use metrics_log::manifest::{
    check_expected_state, find_segment_in, format_partition_state, format_segment_line,
    format_topic_config, initial_partition_state, parse_segment, parse_topic_config, parse_u32,
    parse_u64, partition_file_name, read_partition_state, validate_name,
};
use metrics_log::{LogError, PartitionState, SegmentMetadata, TopicConfig};

fn store_message<T: std::fmt::Debug>(result: metrics_log::Result<T>) -> String {
    match result {
        Err(LogError::Store(message)) => message,
        other => panic!("expected a store error, got {:?}", other),
    }
}

fn segment(start: u64, end: u64) -> SegmentMetadata {
    SegmentMetadata {
        topic: "metrics_raw".to_string(),
        partition_id: 0,
        start_offset: start,
        end_offset: end,
        object_key: format!("seg-{start}"),
        index_key: format!("idx-{start}"),
        size_bytes: 100,
        record_count: end - start + 1,
    }
}

#[test]
fn names_are_ascii_words() {
    assert!(validate_name("metrics_raw-2").is_ok());
    for bad in ["", "a b", "a|b", "é", "a/b"] {
        match validate_name(bad) {
            Err(LogError::InvalidArgument(message)) => assert_eq!(
                message,
                format!("invalid name {bad:?}; use ascii letters, numbers, '-' or '_'")
            ),
            other => panic!("unexpected {:?}", other),
        }
    }
}

#[test]
fn topic_file_round_trips() {
    let config = TopicConfig { name: "metrics_raw".to_string(), partitions: 12 };
    let text = format_topic_config(&config);
    assert_eq!(text, "metrics_raw|12\n");
    assert_eq!(parse_topic_config(&text, "metrics_raw").unwrap(), config);
    assert_eq!(
        store_message(parse_topic_config("a|b|c\n", "t")),
        "invalid topic metadata for t"
    );
    assert_eq!(
        store_message(parse_topic_config("t|x\n", "t")),
        "invalid partition count: x"
    );
}

#[test]
fn partition_state_file_round_trips() {
    let state = PartitionState {
        topic: "metrics_raw".to_string(),
        partition_id: 4,
        log_start_offset: 1,
        high_watermark: 20,
        next_offset: 20,
    };
    let text = format_partition_state(&state);
    assert_eq!(text, "metrics_raw|4|1|20|20\n");
    assert_eq!(read_partition_state(&text, "p").unwrap(), state);
    assert_eq!(
        store_message(read_partition_state("a|1|2\n", "dir/000001.txt")),
        "invalid partition metadata: dir/000001.txt"
    );
    assert_eq!(
        store_message(read_partition_state("a|1|2|zz|4\n", "p")),
        "invalid high watermark: zz"
    );
    let fresh = initial_partition_state("t", 3);
    assert_eq!(format_partition_state(&fresh), "t|3|0|0|0\n");
}

#[test]
fn segment_line_round_trips() {
    let entry = segment(10, 19);
    let line = format_segment_line(&entry);
    assert_eq!(line, "metrics_raw|0|10|19|seg-10|idx-10|100|10\n");
    assert_eq!(parse_segment(line.trim_end()).unwrap(), entry);
    assert_eq!(store_message(parse_segment("a|b")), "invalid segment metadata");
    assert_eq!(
        store_message(parse_segment("t|0|1|x|o|i|2|3")),
        "invalid end offset: x"
    );
}

#[test]
fn the_segment_holding_an_offset_is_found() {
    let mut list = String::new();
    list.push_str(&format_segment_line(&segment(0, 4)));
    list.push_str("   \n");
    list.push_str(&format_segment_line(&segment(5, 9)));
    let found = find_segment_in(&list, "metrics_raw", 0, 7).unwrap();
    assert_eq!(found, segment(5, 9));
    assert_eq!(find_segment_in(&list, "metrics_raw", 0, 0).unwrap(), segment(0, 4));
    match find_segment_in(&list, "metrics_raw", 0, 10) {
        Err(LogError::NotFound(message)) => {
            assert_eq!(message, "no segment for metrics_raw/0 at offset 10")
        }
        other => panic!("unexpected {:?}", other),
    }
    let broken = format!("{}garbage\n", format_segment_line(&segment(0, 4)));
    assert_eq!(
        store_message(find_segment_in(&broken, "metrics_raw", 0, 9)),
        "invalid segment metadata"
    );
    assert_eq!(find_segment_in(&broken, "metrics_raw", 0, 3).unwrap(), segment(0, 4));
}

#[test]
fn commits_need_the_expected_state() {
    let state = initial_partition_state("t", 0);
    assert!(check_expected_state(&state, &state.clone()).is_ok());
    let mut moved = state.clone();
    moved.next_offset = 3;
    match check_expected_state(&moved, &state) {
        Err(LogError::Conflict(message)) => assert_eq!(message, "partition state changed for t/0"),
        other => panic!("unexpected {:?}", other),
    }
}

#[test]
fn numbers_in_metadata_files() {
    assert_eq!(parse_u32("17", "partition id").unwrap(), 17);
    assert_eq!(parse_u64("18446744073709551615", "next offset").unwrap(), u64::MAX);
    assert_eq!(store_message(parse_u32("4294967296", "partition id")), "invalid partition id: 4294967296");
    assert_eq!(store_message(parse_u64("", "size bytes")), "invalid size bytes: ");
    assert_eq!(partition_file_name(7), "000007.txt");
    assert_eq!(partition_file_name(1234567), "1234567.txt");
}

#[test]
fn the_first_covering_segment_wins() {
    let mut list = String::new();
    list.push_str(&format_segment_line(&segment(0, 9)));
    list.push_str(&format_segment_line(&segment(5, 14)));
    assert_eq!(find_segment_in(&list, "metrics_raw", 0, 7).unwrap(), segment(0, 9));
    assert_eq!(find_segment_in(&list, "metrics_raw", 0, 12).unwrap(), segment(5, 14));
    let crlf = list.replace('\n', "\r\n");
    assert_eq!(find_segment_in(&crlf, "metrics_raw", 0, 12).unwrap(), segment(5, 14));
}

#[test]
fn a_created_topic_and_its_new_partitions_read_back() {
    let config = TopicConfig { name: "metrics_raw".to_string(), partitions: 3 };
    assert!(validate_name(&config.name).is_ok());
    assert_eq!(parse_topic_config(&format_topic_config(&config), &config.name).unwrap(), config);
    for p in 0..3 {
        let fresh = initial_partition_state(&config.name, p);
        let back = read_partition_state(&format_partition_state(&fresh), "p").unwrap();
        assert_eq!(back, fresh);
        assert_eq!((back.log_start_offset, back.high_watermark, back.next_offset), (0, 0, 0));
    }
}
