//! The command line of the log tool: `[--root PATH] COMMAND ARGS...`.
use crate::error::{LogError, Result};
use crate::text::{chars_of, parse_unsigned, parse_unsigned_chars};
use vstd::prelude::*;
use vstd::string::*;

verus! {

/// What the tool is asked to do.
#[derive(Debug)]
pub enum Command {
    CreateTopic { topic: String, partitions: u32 },
    Produce { topic: String, partition_id: u32, key: String, value: String },
    Fetch { topic: String, partition_id: u32, offset: u64, max_records: usize },
    Help,
    Unknown(String),
}

/// The contents of a [`Command`].
pub enum CommandView {
    CreateTopic { topic: Seq<char>, partitions: u32 },
    Produce { topic: Seq<char>, partition_id: u32, key: Seq<char>, value: Seq<char> },
    Fetch { topic: Seq<char>, partition_id: u32, offset: u64, max_records: usize },
    Help,
    Unknown(Seq<char>),
}

impl View for Command {
    type V = CommandView;

    open spec fn view(&self) -> CommandView {
        match self {
            Command::CreateTopic { topic, partitions } => CommandView::CreateTopic {
                topic: topic@,
                partitions: *partitions,
            },
            Command::Produce { topic, partition_id, key, value } => CommandView::Produce {
                topic: topic@,
                partition_id: *partition_id,
                key: key@,
                value: value@,
            },
            Command::Fetch { topic, partition_id, offset, max_records } => CommandView::Fetch {
                topic: topic@,
                partition_id: *partition_id,
                offset: *offset,
                max_records: *max_records,
            },
            Command::Help => CommandView::Help,
            Command::Unknown(name) => CommandView::Unknown(name@),
        }
    }
}

/// A whole command line: the storage root and the command.
#[derive(Debug)]
pub struct Invocation {
    pub root: String,
    pub command: Command,
}

/// The message for an argument that is missing.
pub open spec fn missing_message(name: Seq<char>) -> Seq<char> {
    "missing argument: "@ + name
}

/// The message for an argument that does not parse.
pub open spec fn invalid_message(field: Seq<char>, value: Seq<char>) -> Seq<char> {
    "invalid "@ + field + ": "@ + value
}

/// The argument `name`, taken from the next position of the command line.
pub fn required_arg(next: Option<String>, name: &str) -> (r: Result<String>)
    ensures
        match next {
            Some(v) => r matches Ok(s) && s@ == v@,
            None => r matches Err(LogError::InvalidArgument(m)) && m@ == missing_message(name@),
        },
{
    match next {
        Some(v) => Ok(v),
        None => Err(LogError::InvalidArgument(String::from_str("missing argument: ").concat(name))),
    }
}

fn invalid_error(field: &str, value: &str) -> (e: LogError)
    ensures
        e matches LogError::InvalidArgument(m) && m@ == invalid_message(field@, value@),
{
    let mut m = String::from_str("invalid ");
    m.append(field);
    m.append(": ");
    m.append(value);
    LogError::InvalidArgument(m)
}

/// Parses a u32 argument.
pub fn parse_u32(value: &str, field: &str) -> (r: Result<u32>)
    ensures
        match parse_unsigned(value@, u32::MAX as nat) {
            Some(n) => r == Ok::<u32, LogError>(n as u32),
            None => r matches Err(LogError::InvalidArgument(m)) && m@ == invalid_message(
                field@,
                value@,
            ),
        },
{
    let cs = chars_of(value);
    match parse_unsigned_chars(cs.as_slice(), 0xffff_ffffu64) {
        Some(n) => Ok(n as u32),
        None => Err(invalid_error(field, value)),
    }
}

/// Parses a u64 argument.
pub fn parse_u64(value: &str, field: &str) -> (r: Result<u64>)
    ensures
        match parse_unsigned(value@, u64::MAX as nat) {
            Some(n) => r == Ok::<u64, LogError>(n as u64),
            None => r matches Err(LogError::InvalidArgument(m)) && m@ == invalid_message(
                field@,
                value@,
            ),
        },
{
    let cs = chars_of(value);
    match parse_unsigned_chars(cs.as_slice(), 0xffff_ffff_ffff_ffffu64) {
        Some(n) => Ok(n),
        None => Err(invalid_error(field, value)),
    }
}

/// Parses a usize argument.
pub fn parse_usize(value: &str, field: &str) -> (r: Result<usize>)
    ensures
        match parse_unsigned(value@, usize::MAX as nat) {
            Some(n) => r == Ok::<usize, LogError>(n as usize),
            None => r matches Err(LogError::InvalidArgument(m)) && m@ == invalid_message(
                field@,
                value@,
            ),
        },
{
    let cs = chars_of(value);
    match parse_unsigned_chars(cs.as_slice(), usize::MAX as u64) {
        Some(n) => Ok(n as usize),
        None => Err(invalid_error(field, value)),
    }
}

/// The argument at position `i`, if there is one.
pub open spec fn arg_at(args: Seq<Seq<char>>, i: int) -> Option<Seq<char>> {
    if 0 <= i < args.len() {
        Some(args[i])
    } else {
        None
    }
}

/// The argument at `i`, required under the name `name`.
pub open spec fn spec_required(args: Seq<Seq<char>>, i: int, name: Seq<char>) -> std::result::Result<
    Seq<char>,
    Seq<char>,
> {
    match arg_at(args, i) {
        Some(v) => Ok(v),
        None => Err(missing_message(name)),
    }
}

/// The number argument at `i`, required under the name `name` and no larger
/// than `max`.
pub open spec fn spec_required_number(
    args: Seq<Seq<char>>,
    i: int,
    name: Seq<char>,
    max: nat,
) -> std::result::Result<nat, Seq<char>> {
    match spec_required(args, i, name) {
        Err(m) => Err(m),
        Ok(v) => match parse_unsigned(v, max) {
            Some(n) => Ok(n),
            None => Err(invalid_message(name, v)),
        },
    }
}

/// The command named `name`, with its arguments from position `p` on.
pub open spec fn spec_command(args: Seq<Seq<char>>, name: Seq<char>, p: int) -> std::result::Result<
    CommandView,
    Seq<char>,
> {
    if name == "create-topic"@ {
        match spec_required(args, p, "topic"@) {
            Err(m) => Err(m),
            Ok(topic) => match spec_required_number(args, p + 1, "partitions"@, u32::MAX as nat) {
                Err(m) => Err(m),
                Ok(n) => Ok(CommandView::CreateTopic { topic, partitions: n as u32 }),
            },
        }
    } else if name == "produce"@ {
        match spec_required(args, p, "topic"@) {
            Err(m) => Err(m),
            Ok(topic) => match spec_required_number(args, p + 1, "partition"@, u32::MAX as nat) {
                Err(m) => Err(m),
                Ok(partition) => match spec_required(args, p + 2, "key"@) {
                    Err(m) => Err(m),
                    Ok(key) => match spec_required(args, p + 3, "value"@) {
                        Err(m) => Err(m),
                        Ok(value) => Ok(
                            CommandView::Produce {
                                topic,
                                partition_id: partition as u32,
                                key,
                                value,
                            },
                        ),
                    },
                },
            },
        }
    } else if name == "fetch"@ {
        match spec_required(args, p, "topic"@) {
            Err(m) => Err(m),
            Ok(topic) => match spec_required_number(args, p + 1, "partition"@, u32::MAX as nat) {
                Err(m) => Err(m),
                Ok(partition) => match spec_required_number(args, p + 2, "offset"@, u64::MAX as nat) {
                    Err(m) => Err(m),
                    Ok(offset) => match spec_required_number(
                        args,
                        p + 3,
                        "max_records"@,
                        usize::MAX as nat,
                    ) {
                        Err(m) => Err(m),
                        Ok(max_records) => Ok(
                            CommandView::Fetch {
                                topic,
                                partition_id: partition as u32,
                                offset: offset as u64,
                                max_records: max_records as usize,
                            },
                        ),
                    },
                },
            },
        }
    } else if name == "help"@ || name == "--help"@ || name == "-h"@ {
        Ok(CommandView::Help)
    } else {
        Ok(CommandView::Unknown(name))
    }
}

/// What the command line `args` (without the program name) asks for: the
/// root, and the command. `--root PATH` is optional: a first argument
/// `--root` takes the next one as the root and the command follows it;
/// otherwise the root is `.metrics-log` and the first argument is the
/// command.
pub open spec fn spec_invocation(args: Seq<Seq<char>>) -> std::result::Result<
    (Seq<char>, CommandView),
    Seq<char>,
> {
    let has_root = args.len() > 0 && args[0] == "--root"@;
    let root = if has_root {
        spec_required(args, 1, "root"@)
    } else {
        Ok(".metrics-log"@)
    };
    let c = if has_root {
        2int
    } else {
        0int
    };
    match root {
        Err(m) => Err(m),
        Ok(root) => match spec_required(args, c, "command"@) {
            Err(m) => Err(m),
            Ok(name) => match spec_command(args, name, c + 1) {
                Err(m) => Err(m),
                Ok(command) => Ok((root, command)),
            },
        },
    }
}

/// The character sequences held by `args`.
pub open spec fn arg_views(args: Seq<String>) -> Seq<Seq<char>> {
    args.map_values(|a: String| a@)
}

fn arg(args: &Vec<String>, i: usize) -> (r: Option<String>)
    ensures
        match arg_at(arg_views(args@), i as int) {
            Some(v) => r matches Some(s) && s@ == v,
            None => r is None,
        },
{
    if i < args.len() {
        Some(args[i].clone())
    } else {
        None
    }
}

fn required_at(args: &Vec<String>, i: usize, name: &str) -> (r: Result<String>)
    ensures
        match spec_required(arg_views(args@), i as int, name@) {
            Ok(v) => r matches Ok(s) && s@ == v,
            Err(m) => r matches Err(LogError::InvalidArgument(e)) && e@ == m,
        },
{
    required_arg(arg(args, i), name)
}

fn is_literal(s: &String, lit: &str) -> (b: bool)
    ensures
        b == (s@ == lit@),
{
    *s == String::from_str(lit)
}

/// `r` reports what the spec result `s` says: the value, or an
/// invalid-argument error with the message.
pub open spec fn arg_reports<T>(r: Result<T>, s: std::result::Result<T, Seq<char>>) -> bool {
    match s {
        Ok(v) => r == Ok::<T, LogError>(v),
        Err(m) => r matches Err(LogError::InvalidArgument(e)) && e@ == m,
    }
}

#[verifier::spinoff_prover]
fn parse_command(args: &Vec<String>, name: &String, p: usize) -> (r: Result<Command>)
    requires
        p <= 3,
    ensures
        match spec_command(arg_views(args@), name@, p as int) {
            Ok(v) => r matches Ok(c) && c@ == v,
            Err(m) => r matches Err(LogError::InvalidArgument(e)) && e@ == m,
        },
{
    if is_literal(name, "create-topic") {
        let topic = match required_at(args, p, "topic") {
            Ok(v) => v,
            Err(e) => return Err(e),
        };
        let raw = match required_at(args, p + 1, "partitions") {
            Ok(v) => v,
            Err(e) => return Err(e),
        };
        let partitions = match parse_u32(raw.as_str(), "partitions") {
            Ok(n) => n,
            Err(e) => return Err(e),
        };
        Ok(Command::CreateTopic { topic, partitions })
    } else if is_literal(name, "produce") {
        let topic = match required_at(args, p, "topic") {
            Ok(v) => v,
            Err(e) => return Err(e),
        };
        let raw = match required_at(args, p + 1, "partition") {
            Ok(v) => v,
            Err(e) => return Err(e),
        };
        let partition_id = match parse_u32(raw.as_str(), "partition") {
            Ok(n) => n,
            Err(e) => return Err(e),
        };
        let key = match required_at(args, p + 2, "key") {
            Ok(v) => v,
            Err(e) => return Err(e),
        };
        let value = match required_at(args, p + 3, "value") {
            Ok(v) => v,
            Err(e) => return Err(e),
        };
        Ok(Command::Produce { topic, partition_id, key, value })
    } else if is_literal(name, "fetch") {
        let topic = match required_at(args, p, "topic") {
            Ok(v) => v,
            Err(e) => return Err(e),
        };
        let raw = match required_at(args, p + 1, "partition") {
            Ok(v) => v,
            Err(e) => return Err(e),
        };
        let partition_id = match parse_u32(raw.as_str(), "partition") {
            Ok(n) => n,
            Err(e) => return Err(e),
        };
        let raw = match required_at(args, p + 2, "offset") {
            Ok(v) => v,
            Err(e) => return Err(e),
        };
        let offset = match parse_u64(raw.as_str(), "offset") {
            Ok(n) => n,
            Err(e) => return Err(e),
        };
        let raw = match required_at(args, p + 3, "max_records") {
            Ok(v) => v,
            Err(e) => return Err(e),
        };
        let max_records = match parse_usize(raw.as_str(), "max_records") {
            Ok(n) => n,
            Err(e) => return Err(e),
        };
        Ok(Command::Fetch { topic, partition_id, offset, max_records })
    } else if is_literal(name, "help") || is_literal(name, "--help") || is_literal(name, "-h") {
        Ok(Command::Help)
    } else {
        Ok(Command::Unknown(name.clone()))
    }
}

/// Reads the command line `args` (without the program name).
pub fn parse_invocation(args: &Vec<String>) -> (r: Result<Invocation>)
    ensures
        match spec_invocation(arg_views(args@)) {
            Ok((root, command)) => r matches Ok(inv) && inv.root@ == root && inv.command@
                == command,
            Err(m) => r matches Err(LogError::InvalidArgument(e)) && e@ == m,
        },
{
    let has_root = args.len() > 0 && is_literal(&args[0], "--root");
    let root = if has_root {
        match required_at(args, 1, "root") {
            Ok(v) => v,
            Err(e) => return Err(e),
        }
    } else {
        String::from_str(".metrics-log")
    };
    let c: usize = if has_root {
        2
    } else {
        0
    };
    let name = match required_at(args, c, "command") {
        Ok(v) => v,
        Err(e) => return Err(e),
    };
    let command = match parse_command(args, &name, c + 1) {
        Ok(command) => command,
        Err(e) => return Err(e),
    };
    Ok(Invocation { root, command })
}

/// The error the tool ends with for a command it does not know.
pub fn unknown_command(name: &str) -> (e: LogError)
    ensures
        e matches LogError::InvalidArgument(m) && m@ == "unknown command: "@ + name@,
{
    LogError::InvalidArgument(String::from_str("unknown command: ").concat(name))
}

proof fn lemma_command_names_differ()
    ensures
        "fetch"@ != "create-topic"@,
        "fetch"@ != "produce"@,
        "produce"@ != "create-topic"@,
        "fetch"@ != "--root"@,
        "produce"@ != "--root"@,
        "create-topic"@ != "--root"@,
{
    reveal_strlit("fetch");
    reveal_strlit("produce");
    reveal_strlit("create-topic");
    reveal_strlit("--root");
    assert("fetch"@[0] != "create-topic"@[0]);
    assert("fetch"@[0] != "produce"@[0]);
    assert("produce"@[0] != "create-topic"@[0]);
    assert("fetch"@[0] != "--root"@[0]);
    assert("produce"@[0] != "--root"@[0]);
    assert("create-topic"@[0] != "--root"@[0]);
}

/// `fetch TOPIC PARTITION OFFSET MAX_RECORDS`, with or without `--root PATH`
/// in front: the partition is the number right after the topic, the offset
/// the next one, and the record limit the last.
pub proof fn lemma_fetch_command_line(
    root: Seq<char>,
    topic: Seq<char>,
    partition: Seq<char>,
    offset: Seq<char>,
    max_records: Seq<char>,
    p: nat,
    o: nat,
    m: nat,
)
    requires
        parse_unsigned(partition, u32::MAX as nat) == Some(p),
        parse_unsigned(offset, u64::MAX as nat) == Some(o),
        parse_unsigned(max_records, usize::MAX as nat) == Some(m),
    ensures
        ({
            let command = CommandView::Fetch {
                topic,
                partition_id: p as u32,
                offset: o as u64,
                max_records: m as usize,
            };
            &&& spec_invocation(seq!["--root"@, root, "fetch"@, topic, partition, offset, max_records])
                == Ok::<(Seq<char>, CommandView), Seq<char>>((root, command))
            &&& spec_invocation(seq!["fetch"@, topic, partition, offset, max_records]) == Ok::<
                (Seq<char>, CommandView),
                Seq<char>,
            >((".metrics-log"@, command))
        }),
{
    lemma_command_names_differ();
}

/// `produce TOPIC PARTITION KEY VALUE`, with or without `--root PATH` in
/// front: the partition is the number right after the topic, then come the
/// key and the value.
pub proof fn lemma_produce_command_line(
    root: Seq<char>,
    topic: Seq<char>,
    partition: Seq<char>,
    key: Seq<char>,
    value: Seq<char>,
    p: nat,
)
    requires
        parse_unsigned(partition, u32::MAX as nat) == Some(p),
    ensures
        ({
            let command = CommandView::Produce { topic, partition_id: p as u32, key, value };
            &&& spec_invocation(seq!["--root"@, root, "produce"@, topic, partition, key, value])
                == Ok::<(Seq<char>, CommandView), Seq<char>>((root, command))
            &&& spec_invocation(seq!["produce"@, topic, partition, key, value]) == Ok::<
                (Seq<char>, CommandView),
                Seq<char>,
            >((".metrics-log"@, command))
        }),
{
    lemma_command_names_differ();
}

/// `create-topic TOPIC PARTITIONS`, with or without `--root PATH` in front.
pub proof fn lemma_create_topic_command_line(
    root: Seq<char>,
    topic: Seq<char>,
    partitions: Seq<char>,
    n: nat,
)
    requires
        parse_unsigned(partitions, u32::MAX as nat) == Some(n),
    ensures
        ({
            let command = CommandView::CreateTopic { topic, partitions: n as u32 };
            &&& spec_invocation(seq!["--root"@, root, "create-topic"@, topic, partitions]) == Ok::<
                (Seq<char>, CommandView),
                Seq<char>,
            >((root, command))
            &&& spec_invocation(seq!["create-topic"@, topic, partitions]) == Ok::<
                (Seq<char>, CommandView),
                Seq<char>,
            >((".metrics-log"@, command))
        }),
{
    lemma_command_names_differ();
}

} // verus!
