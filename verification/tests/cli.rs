use metrics_log::cli::{
    parse_invocation, parse_u32, parse_u64, parse_usize, required_arg, unknown_command, Command,
};
use metrics_log::LogError;

fn args(list: &[&str]) -> Vec<String> {
    list.iter().map(|s| s.to_string()).collect()
}

fn invalid(result: metrics_log::Result<impl std::fmt::Debug>) -> String {
    match result {
        Err(LogError::InvalidArgument(message)) => message,
        other => panic!("expected an invalid argument error, got {:?}", other),
    }
}

#[test]
fn create_topic_command_line() {
    let inv = parse_invocation(&args(&["--root", "/tmp/demo", "create-topic", "metrics_raw", "1"]))
        .unwrap();
    assert_eq!(inv.root, "/tmp/demo");
    match inv.command {
        Command::CreateTopic { topic, partitions } => {
            assert_eq!(topic, "metrics_raw");
            assert_eq!(partitions, 1);
        }
        _ => panic!("wrong command"),
    }
}

#[test]
fn produce_and_fetch_command_lines() {
    let inv = parse_invocation(&args(&[
        "--root", "/r", "produce", "metrics_raw", "0", "series_a", "sample_1",
    ]))
    .unwrap();
    match inv.command {
        Command::Produce { topic, partition_id, key, value } => {
            assert_eq!((topic.as_str(), partition_id), ("metrics_raw", 0));
            assert_eq!((key.as_str(), value.as_str()), ("series_a", "sample_1"));
        }
        _ => panic!("wrong command"),
    }
    let inv = parse_invocation(&args(&["--root", "/r", "fetch", "metrics_raw", "0", "0", "10"]))
        .unwrap();
    match inv.command {
        Command::Fetch { topic, partition_id, offset, max_records } => {
            assert_eq!(topic, "metrics_raw");
            assert_eq!((partition_id, offset, max_records), (0, 0, 10));
        }
        _ => panic!("wrong command"),
    }
}

#[test]
fn the_root_is_optional() {
    for flag in ["--help", "help", "-h"] {
        let inv = parse_invocation(&args(&[flag])).unwrap();
        assert_eq!(inv.root, ".metrics-log");
        assert!(matches!(inv.command, Command::Help));
    }
    let inv = parse_invocation(&args(&["create-topic", "t", "1"])).unwrap();
    assert_eq!(inv.root, ".metrics-log");
    match inv.command {
        Command::CreateTopic { topic, partitions } => {
            assert_eq!(topic, "t");
            assert_eq!(partitions, 1);
        }
        _ => panic!("wrong command"),
    }
    let inv = parse_invocation(&args(&["frobnicate"])).unwrap();
    match inv.command {
        Command::Unknown(name) => assert_eq!(name, "frobnicate"),
        _ => panic!("wrong command"),
    }
}

#[test]
fn command_line_errors() {
    assert_eq!(invalid(parse_invocation(&args(&[]))), "missing argument: command");
    assert_eq!(invalid(parse_invocation(&args(&["--root"]))), "missing argument: root");
    assert_eq!(
        invalid(parse_invocation(&args(&["--root", "r", "produce", "t", "x"]))),
        "invalid partition: x"
    );
    assert_eq!(
        invalid(parse_invocation(&args(&["--root", "r", "produce", "t", "0", "k"]))),
        "missing argument: value"
    );
    assert_eq!(
        invalid(parse_invocation(&args(&["--root", "r", "fetch", "t", "0", "0"]))),
        "missing argument: max_records"
    );
    assert_eq!(
        invalid(parse_invocation(&args(&["--root", "r", "create-topic", "t", "-1"]))),
        "invalid partitions: -1"
    );
    match unknown_command("frobnicate") {
        LogError::InvalidArgument(message) => assert_eq!(message, "unknown command: frobnicate"),
        other => panic!("unexpected {:?}", other),
    }
}

#[test]
fn argument_helpers() {
    assert_eq!(required_arg(Some("v".to_string()), "name").unwrap(), "v");
    assert_eq!(invalid(required_arg(None, "topic")), "missing argument: topic");
    assert_eq!(parse_u32("12", "partition").unwrap(), 12);
    assert_eq!(invalid(parse_u64("1.5", "offset")), "invalid offset: 1.5");
    assert_eq!(parse_usize("+3", "max_records").unwrap(), 3);
}

#[test]
fn errors_describe_themselves() {
    assert_eq!(LogError::Conflict("x".to_string()).describe(), "conflict: x");
    assert_eq!(LogError::CorruptSegment("y".to_string()).describe(), "corrupt segment: y");
    assert_eq!(LogError::InvalidArgument("z".to_string()).describe(), "invalid argument: z");
    assert_eq!(LogError::NotFound("w".to_string()).describe(), "not found: w");
    assert_eq!(LogError::Store("v".to_string()).describe(), "store error: v");
    let io = std::io::Error::new(std::io::ErrorKind::Other, "disk gone");
    assert_eq!(LogError::from(io).describe(), "io error: disk gone");
}
