//! The text formats of the manifest store: the topic file, the partition
//! state files and the segment list, one `|`-separated record per line, and
//! the rules that decide what the store accepts.
use crate::error::{LogError, Result};
use crate::text::{
    char_seqs, chars_of, decimal, is_digit, is_whitespace, join_on, lemma_decimal_digits,
    lemma_join_avoids, lemma_parse_decimal, lemma_split_append_plain, lemma_split_join,
    lemma_split_push_sep, lemma_trim_end_newline, lemma_trim_keeps_nonblank, lines, lines_of,
    parse_unsigned, parse_unsigned_chars, push_decimal, push_zero_padded, split_chars, split_on,
    string_of, strip_cr, trim, trim_chars, trim_end, trim_end_chars, zero_padded,
};
use crate::types::{
    PartitionState, PartitionStateView, SegmentMetadata, SegmentMetadataView, TopicConfig,
    TopicConfigView,
};
use vstd::prelude::*;
use vstd::string::*;

verus! {

/// `c` may stand in a topic name: an ASCII letter or digit, `-` or `_`.
pub open spec fn is_name_char(c: char) -> bool {
    ||| 'a' <= c && c <= 'z'
    ||| 'A' <= c && c <= 'Z'
    ||| '0' <= c && c <= '9'
    ||| c == '-'
    ||| c == '_'
}

/// `name` is a non-empty run of name characters.
pub open spec fn valid_name(name: Seq<char>) -> bool {
    name.len() > 0 && forall|i: int| 0 <= i < name.len() ==> is_name_char(#[trigger] name[i])
}

/// What `{:?}` prints for a string: the string quoted, with its special
/// characters escaped.
pub uninterp spec fn debug_text(s: Seq<char>) -> Seq<char>;

/// The `Debug` form of `s`, made by `format!("{s:?}")` (std's `Debug` for
/// `str`). Trusted: the contract only names the result `debug_text(s@)`, a
/// function of the characters of `s` alone; what that text is (the string in
/// double quotes, with std's escapes) is left unsaid.
#[verifier::external_body]
fn debug_quoted(s: &str) -> (t: String)
    ensures
        t@ == debug_text(s@),
{
    format!("{s:?}")
}

/// The message that refuses an invalid name.
pub open spec fn invalid_name_message(name: Seq<char>) -> Seq<char> {
    "invalid name "@ + debug_text(name) + "; use ascii letters, numbers, '-' or '_'"@
}

fn name_char(c: char) -> (b: bool)
    ensures
        b == is_name_char(c),
{
    ('a' <= c && c <= 'z') || ('A' <= c && c <= 'Z') || ('0' <= c && c <= '9') || c == '-' || c
        == '_'
}

/// Accepts a topic name made of ASCII letters, digits, `-` and `_`.
pub fn validate_name(name: &str) -> (r: Result<()>)
    ensures
        valid_name(name@) ==> r is Ok,
        !valid_name(name@) ==> (r matches Err(LogError::InvalidArgument(m)) && m@
            == invalid_name_message(name@)),
{
    let cs = chars_of(name);
    let mut ok = cs.len() > 0;
    let mut i: usize = 0;
    while i < cs.len()
        invariant
            cs@ == name@,
            0 <= i <= cs@.len(),
            ok == (cs@.len() > 0 && forall|j: int| 0 <= j < i ==> is_name_char(#[trigger] cs@[j])),
        decreases cs@.len() - i,
    {
        if !name_char(cs[i]) {
            ok = false;
        }
        i = i + 1;
    }
    if !ok {
        let mut m = String::from_str("invalid name ");
        let quoted = debug_quoted(name);
        m.append(quoted.as_str());
        m.append("; use ascii letters, numbers, '-' or '_'");
        return Err(LogError::InvalidArgument(m));
    }
    Ok(())
}

/// The message that refuses a field that does not parse.
pub open spec fn invalid_field_message(field: Seq<char>, value: Seq<char>) -> Seq<char> {
    "invalid "@ + field + ": "@ + value
}

/// Parses a decimal u32 field of a metadata file.
pub fn parse_u32(value: &str, field: &str) -> (r: Result<u32>)
    ensures
        match parse_unsigned(value@, u32::MAX as nat) {
            Some(n) => r == Ok::<u32, LogError>(n as u32),
            None => r matches Err(LogError::Store(m)) && m@ == invalid_field_message(
                field@,
                value@,
            ),
        },
{
    let cs = chars_of(value);
    match parse_unsigned_chars(cs.as_slice(), 0xffff_ffffu64) {
        Some(n) => Ok(n as u32),
        None => Err(LogError::Store(field_error(field, value))),
    }
}

/// Parses a decimal u64 field of a metadata file.
pub fn parse_u64(value: &str, field: &str) -> (r: Result<u64>)
    ensures
        match parse_unsigned(value@, u64::MAX as nat) {
            Some(n) => r == Ok::<u64, LogError>(n as u64),
            None => r matches Err(LogError::Store(m)) && m@ == invalid_field_message(
                field@,
                value@,
            ),
        },
{
    let cs = chars_of(value);
    match parse_unsigned_chars(cs.as_slice(), 0xffff_ffff_ffff_ffffu64) {
        Some(n) => Ok(n),
        None => Err(LogError::Store(field_error(field, value))),
    }
}

fn field_error(field: &str, value: &str) -> (m: String)
    ensures
        m@ == invalid_field_message(field@, value@),
{
    let mut m = String::from_str("invalid ");
    m.append(field);
    m.append(": ");
    m.append(value);
    m
}

fn field_u32(value: &Vec<char>, field: &str) -> (r: Result<u32>)
    ensures
        match parse_unsigned(value@, u32::MAX as nat) {
            Some(n) => r == Ok::<u32, LogError>(n as u32),
            None => r matches Err(LogError::Store(m)) && m@ == invalid_field_message(
                field@,
                value@,
            ),
        },
{
    let s = string_of(value.as_slice());
    parse_u32(s.as_str(), field)
}

fn field_u64(value: &Vec<char>, field: &str) -> (r: Result<u64>)
    ensures
        match parse_unsigned(value@, u64::MAX as nat) {
            Some(n) => r == Ok::<u64, LogError>(n as u64),
            None => r matches Err(LogError::Store(m)) && m@ == invalid_field_message(
                field@,
                value@,
            ),
        },
{
    let s = string_of(value.as_slice());
    parse_u64(s.as_str(), field)
}

/// `r` reports what the spec result `s` says: the value, or a store error
/// with the message.
pub open spec fn store_reports<T: View>(
    r: Result<T>,
    s: std::result::Result<T::V, Seq<char>>,
) -> bool {
    match s {
        Ok(v) => r matches Ok(x) && x@ == v,
        Err(m) => r matches Err(LogError::Store(e)) && e@ == m,
    }
}

/// The topic file: the name and the partition count, then a line feed.
pub open spec fn topic_config_text(config: TopicConfigView) -> Seq<char> {
    config.name + "|"@ + decimal(config.partitions as nat) + "\n"@
}

/// What the topic file `text` of `topic` says.
pub open spec fn spec_parse_topic_config(text: Seq<char>, topic: Seq<char>) -> std::result::Result<
    TopicConfigView,
    Seq<char>,
> {
    let fields = split_on(trim_end(text), '|');
    if fields.len() != 2 {
        Err("invalid topic metadata for "@ + topic)
    } else {
        match parse_unsigned(fields[1], u32::MAX as nat) {
            None => Err(invalid_field_message("partition count"@, fields[1])),
            Some(n) => Ok(TopicConfigView { name: fields[0], partitions: n as u32 }),
        }
    }
}

/// Writes the topic file of `config`.
pub fn format_topic_config(config: &TopicConfig) -> (text: String)
    ensures
        text@ == topic_config_text(config@),
{
    let mut s = config.name.clone();
    s.append("|");
    push_decimal(&mut s, config.partitions as u64);
    s.append("\n");
    s
}

/// Reads the topic file `text` of `topic`.
pub fn parse_topic_config(text: &str, topic: &str) -> (r: Result<TopicConfig>)
    ensures
        store_reports(r, spec_parse_topic_config(text@, topic@)),
{
    let cs = chars_of(text);
    let trimmed = trim_end_chars(cs.as_slice());
    let fields = split_chars(trimmed.as_slice(), '|');
    if fields.len() != 2 {
        let mut m = String::from_str("invalid topic metadata for ");
        m.append(topic);
        return Err(LogError::Store(m));
    }
    assert(fields@[1]@ == split_on(trim_end(text@), '|')[1]);
    let partitions = match field_u32(&fields[1], "partition count") {
        Ok(n) => n,
        Err(e) => return Err(e),
    };
    let name = string_of(fields[0].as_slice());
    assert(fields@[0]@ == split_on(trim_end(text@), '|')[0]);
    Ok(TopicConfig { name, partitions })
}

/// The state file of a partition: its topic, id and three offsets, then a
/// line feed.
pub open spec fn partition_state_text(state: PartitionStateView) -> Seq<char> {
    state.topic + "|"@ + decimal(state.partition_id as nat) + "|"@ + decimal(
        state.log_start_offset as nat,
    ) + "|"@ + decimal(state.high_watermark as nat) + "|"@ + decimal(state.next_offset as nat)
        + "\n"@
}

/// What the state file `text` says; `source` names the file in the error.
pub open spec fn spec_parse_partition_state(text: Seq<char>, source: Seq<char>) -> std::result::Result<
    PartitionStateView,
    Seq<char>,
> {
    let fields = split_on(trim_end(text), '|');
    if fields.len() != 5 {
        Err("invalid partition metadata: "@ + source)
    } else {
        match parse_unsigned(fields[1], u32::MAX as nat) {
            None => Err(invalid_field_message("partition id"@, fields[1])),
            Some(partition_id) => match parse_unsigned(fields[2], u64::MAX as nat) {
                None => Err(invalid_field_message("log start offset"@, fields[2])),
                Some(log_start_offset) => match parse_unsigned(fields[3], u64::MAX as nat) {
                    None => Err(invalid_field_message("high watermark"@, fields[3])),
                    Some(high_watermark) => match parse_unsigned(fields[4], u64::MAX as nat) {
                        None => Err(invalid_field_message("next offset"@, fields[4])),
                        Some(next_offset) => Ok(
                            PartitionStateView {
                                topic: fields[0],
                                partition_id: partition_id as u32,
                                log_start_offset: log_start_offset as u64,
                                high_watermark: high_watermark as u64,
                                next_offset: next_offset as u64,
                            },
                        ),
                    },
                },
            },
        }
    }
}

/// Writes the state file of a partition.
pub fn format_partition_state(state: &PartitionState) -> (text: String)
    ensures
        text@ == partition_state_text(state@),
{
    let mut s = state.topic.clone();
    s.append("|");
    push_decimal(&mut s, state.partition_id as u64);
    s.append("|");
    push_decimal(&mut s, state.log_start_offset);
    s.append("|");
    push_decimal(&mut s, state.high_watermark);
    s.append("|");
    push_decimal(&mut s, state.next_offset);
    s.append("\n");
    s
}

/// Reads the state file `text` of a partition; `source` names the file.
#[verifier::spinoff_prover]
pub fn read_partition_state(text: &str, source: &str) -> (r: Result<PartitionState>)
    ensures
        store_reports(r, spec_parse_partition_state(text@, source@)),
{
    let cs = chars_of(text);
    let trimmed = trim_end_chars(cs.as_slice());
    let fields = split_chars(trimmed.as_slice(), '|');
    let ghost fs = split_on(trim_end(text@), '|');
    if fields.len() != 5 {
        let mut m = String::from_str("invalid partition metadata: ");
        m.append(source);
        return Err(LogError::Store(m));
    }
    assert(fields@[1]@ == fs[1] && fields@[2]@ == fs[2] && fields@[3]@ == fs[3] && fields@[4]@
        == fs[4] && fields@[0]@ == fs[0]);
    let partition_id = match field_u32(&fields[1], "partition id") {
        Ok(n) => n,
        Err(e) => return Err(e),
    };
    let log_start_offset = match field_u64(&fields[2], "log start offset") {
        Ok(n) => n,
        Err(e) => return Err(e),
    };
    let high_watermark = match field_u64(&fields[3], "high watermark") {
        Ok(n) => n,
        Err(e) => return Err(e),
    };
    let next_offset = match field_u64(&fields[4], "next offset") {
        Ok(n) => n,
        Err(e) => return Err(e),
    };
    let topic = string_of(fields[0].as_slice());
    Ok(PartitionState { topic, partition_id, log_start_offset, high_watermark, next_offset })
}

/// The state every partition of a new topic starts in: all offsets zero.
pub fn initial_partition_state(topic: &str, partition_id: u32) -> (state: PartitionState)
    ensures
        state@ == (PartitionStateView {
            topic: topic@,
            partition_id,
            log_start_offset: 0,
            high_watermark: 0,
            next_offset: 0,
        }),
{
    PartitionState {
        topic: String::from_str(topic),
        partition_id,
        log_start_offset: 0,
        high_watermark: 0,
        next_offset: 0,
    }
}

/// The file name that holds a partition's state, and its segment list, in
/// their directories: the id padded to six digits, then `.txt`.
pub fn partition_file_name(partition_id: u32) -> (name: String)
    ensures
        name@ == zero_padded(partition_id as nat, 6) + ".txt"@,
{
    let mut s = String::new();
    push_zero_padded(&mut s, partition_id as u64, 6);
    s.append(".txt");
    s
}

/// The message that refuses a commit against a partition that moved on.
pub open spec fn state_changed_message(expected: PartitionStateView) -> Seq<char> {
    "partition state changed for "@ + expected.topic + "/"@ + decimal(
        expected.partition_id as nat,
    )
}

/// Accepts a commit only while the partition is still in the state the
/// committer read.
pub fn check_expected_state(current: &PartitionState, expected: &PartitionState) -> (r: Result<()>)
    ensures
        current@ == expected@ ==> r is Ok,
        current@ != expected@ ==> (r matches Err(LogError::Conflict(m)) && m@
            == state_changed_message(expected@)),
{
    let same = current.topic == expected.topic && current.partition_id == expected.partition_id
        && current.log_start_offset == expected.log_start_offset && current.high_watermark
        == expected.high_watermark && current.next_offset == expected.next_offset;
    if !same {
        let mut m = String::from_str("partition state changed for ");
        m.append(expected.topic.as_str());
        m.append("/");
        push_decimal(&mut m, expected.partition_id as u64);
        return Err(LogError::Conflict(m));
    }
    Ok(())
}

/// One line of the segment list: the eight fields of the entry, without
/// the line feed.
pub open spec fn segment_line_text(segment: SegmentMetadataView) -> Seq<char> {
    segment.topic + "|"@ + decimal(segment.partition_id as nat) + "|"@ + decimal(
        segment.start_offset as nat,
    ) + "|"@ + decimal(segment.end_offset as nat) + "|"@ + segment.object_key + "|"@
        + segment.index_key + "|"@ + decimal(segment.size_bytes as nat) + "|"@ + decimal(
        segment.record_count as nat,
    )
}

/// What one line of the segment list says.
pub open spec fn spec_parse_segment(line: Seq<char>) -> std::result::Result<
    SegmentMetadataView,
    Seq<char>,
> {
    let f = split_on(line, '|');
    if f.len() != 8 {
        Err("invalid segment metadata"@)
    } else {
        match parse_unsigned(f[1], u32::MAX as nat) {
            None => Err(invalid_field_message("partition id"@, f[1])),
            Some(partition_id) => match parse_unsigned(f[2], u64::MAX as nat) {
                None => Err(invalid_field_message("start offset"@, f[2])),
                Some(start_offset) => match parse_unsigned(f[3], u64::MAX as nat) {
                    None => Err(invalid_field_message("end offset"@, f[3])),
                    Some(end_offset) => match parse_unsigned(f[6], u64::MAX as nat) {
                        None => Err(invalid_field_message("size bytes"@, f[6])),
                        Some(size_bytes) => match parse_unsigned(f[7], u64::MAX as nat) {
                            None => Err(invalid_field_message("record count"@, f[7])),
                            Some(record_count) => Ok(
                                SegmentMetadataView {
                                    topic: f[0],
                                    partition_id: partition_id as u32,
                                    start_offset: start_offset as u64,
                                    end_offset: end_offset as u64,
                                    object_key: f[4],
                                    index_key: f[5],
                                    size_bytes: size_bytes as u64,
                                    record_count: record_count as u64,
                                },
                            ),
                        },
                    },
                },
            },
        }
    }
}

/// Writes the line of the segment list for `segment`, line feed included.
pub fn format_segment_line(segment: &SegmentMetadata) -> (text: String)
    ensures
        text@ == segment_line_text(segment@) + "\n"@,
{
    let mut s = segment.topic.clone();
    s.append("|");
    push_decimal(&mut s, segment.partition_id as u64);
    s.append("|");
    push_decimal(&mut s, segment.start_offset);
    s.append("|");
    push_decimal(&mut s, segment.end_offset);
    s.append("|");
    s.append(segment.object_key.as_str());
    s.append("|");
    s.append(segment.index_key.as_str());
    s.append("|");
    push_decimal(&mut s, segment.size_bytes);
    s.append("|");
    push_decimal(&mut s, segment.record_count);
    s.append("\n");
    s
}

/// Reads one line of the segment list.
pub fn parse_segment(line: &str) -> (r: Result<SegmentMetadata>)
    ensures
        store_reports(r, spec_parse_segment(line@)),
{
    let cs = chars_of(line);
    parse_segment_chars(&cs)
}

#[verifier::spinoff_prover]
fn parse_segment_chars(line: &Vec<char>) -> (r: Result<SegmentMetadata>)
    ensures
        store_reports(r, spec_parse_segment(line@)),
{
    let f = split_chars(line.as_slice(), '|');
    let ghost fs = split_on(line@, '|');
    if f.len() != 8 {
        return Err(LogError::Store(String::from_str("invalid segment metadata")));
    }
    assert(forall|i: int| 0 <= i < 8 ==> #[trigger] f@[i]@ == fs[i]);
    let partition_id = match field_u32(&f[1], "partition id") {
        Ok(n) => n,
        Err(e) => return Err(e),
    };
    let start_offset = match field_u64(&f[2], "start offset") {
        Ok(n) => n,
        Err(e) => return Err(e),
    };
    let end_offset = match field_u64(&f[3], "end offset") {
        Ok(n) => n,
        Err(e) => return Err(e),
    };
    let size_bytes = match field_u64(&f[6], "size bytes") {
        Ok(n) => n,
        Err(e) => return Err(e),
    };
    let record_count = match field_u64(&f[7], "record count") {
        Ok(n) => n,
        Err(e) => return Err(e),
    };
    assert(f@[0]@ == fs[0] && f@[4]@ == fs[4] && f@[5]@ == fs[5]);
    Ok(
        SegmentMetadata {
            topic: string_of(f[0].as_slice()),
            partition_id,
            start_offset,
            end_offset,
            object_key: string_of(f[4].as_slice()),
            index_key: string_of(f[5].as_slice()),
            size_bytes,
            record_count,
        },
    )
}

/// The message when no segment holds the offset.
pub open spec fn no_segment_message(topic: Seq<char>, partition_id: u32, offset: u64) -> Seq<char> {
    "no segment for "@ + topic + "/"@ + decimal(partition_id as nat) + " at offset "@ + decimal(
        offset as nat,
    )
}

/// Looks through the lines `ls` of a segment list, from the first, for the
/// entry that holds `offset`, skipping blank lines: the entry, none, or the
/// message of the first line that does not parse.
pub open spec fn spec_find_segment(ls: Seq<Seq<char>>, offset: u64) -> std::result::Result<
    Option<SegmentMetadataView>,
    Seq<char>,
>
    decreases ls.len(),
{
    if ls.len() == 0 {
        Ok(None)
    } else if trim(ls[0]).len() == 0 {
        spec_find_segment(ls.drop_first(), offset)
    } else {
        match spec_parse_segment(ls[0]) {
            Err(m) => Err(m),
            Ok(s) => if s.start_offset <= offset && offset <= s.end_offset {
                Ok(Some(s))
            } else {
                spec_find_segment(ls.drop_first(), offset)
            },
        }
    }
}

/// Finds, in the segment list `text` of `topic`/`partition_id`, the entry
/// that holds `offset`.
#[verifier::spinoff_prover]
pub fn find_segment_in(text: &str, topic: &str, partition_id: u32, offset: u64) -> (r: Result<
    SegmentMetadata,
>)
    ensures
        match spec_find_segment(lines(text@), offset) {
            Ok(Some(s)) => r matches Ok(x) && x@ == s,
            Ok(None) => r matches Err(LogError::NotFound(m)) && m@ == no_segment_message(
                topic@,
                partition_id,
                offset,
            ),
            Err(m) => r matches Err(LogError::Store(e)) && e@ == m,
        },
{
    let cs = chars_of(text);
    let ls = lines_of(cs.as_slice());
    let ghost all = char_seqs(ls@);
    let mut i: usize = 0;
    assert(all.skip(0) =~= all);
    while i < ls.len()
        invariant
            all == char_seqs(ls@),
            all == lines(text@),
            0 <= i <= ls@.len(),
            spec_find_segment(all, offset) == spec_find_segment(all.skip(i as int), offset),
        decreases ls@.len() - i,
    {
        let line = &ls[i];
        assert(all.skip(i as int)[0] == line@);
        assert(all.skip(i as int).drop_first() =~= all.skip(i + 1));
        let trimmed = trim_chars(line.as_slice());
        if trimmed.len() != 0 {
            let segment = match parse_segment_chars(line) {
                Ok(s) => s,
                Err(e) => return Err(e),
            };
            if segment.start_offset <= offset && offset <= segment.end_offset {
                return Ok(segment);
            }
        }
        i = i + 1;
    }
    assert(all.skip(i as int) =~= Seq::<Seq<char>>::empty());
    let mut m = String::from_str("no segment for ");
    m.append(topic);
    m.append("/");
    push_decimal(&mut m, partition_id as u64);
    m.append(" at offset ");
    push_decimal(&mut m, offset);
    Err(LogError::NotFound(m))
}

/// The decimal form of `n` holds no `|` and no line feed, and ends in a
/// digit.
proof fn lemma_decimal_plain(n: nat)
    ensures
        !decimal(n).contains('|'),
        !decimal(n).contains('\n'),
        decimal(n).len() > 0,
        !is_whitespace(decimal(n).last()),
{
    lemma_decimal_digits(n);
    let d = decimal(n);
    if d.contains('|') {
        let j = choose|j: int| 0 <= j < d.len() && d[j] == '|';
        assert(is_digit(d[j]));
    }
    if d.contains('\n') {
        let j = choose|j: int| 0 <= j < d.len() && d[j] == '\n';
        assert(is_digit(d[j]));
    }
    assert(is_digit(d[d.len() - 1]));
}

/// Reading back a topic file gives the configuration it was written from,
/// whenever the name holds no `|`.
#[verifier::spinoff_prover]
pub proof fn lemma_topic_config_round_trip(config: TopicConfigView, topic: Seq<char>)
    requires
        !config.name.contains('|'),
    ensures
        spec_parse_topic_config(topic_config_text(config), topic) == Ok::<
            TopicConfigView,
            Seq<char>,
        >(config),
{
    reveal_strlit("|");
    reveal_strlit("\n");
    let d = decimal(config.partitions as nat);
    lemma_decimal_plain(config.partitions as nat);
    lemma_parse_decimal(config.partitions as nat, u32::MAX as nat);
    let fields = seq![config.name, d];
    reveal_with_fuel(join_on, 3);
    let joined = join_on(fields, '|');
    assert(joined =~= config.name + "|"@ + d);
    assert(joined.last() == d.last());
    assert(topic_config_text(config) =~= joined + "\n"@);
    lemma_trim_end_newline(joined);
    lemma_split_join(fields, '|');
}

/// Reading back a partition's state file gives the state it was written
/// from, whenever the topic holds no `|`.
#[verifier::spinoff_prover]
pub proof fn lemma_partition_state_round_trip(state: PartitionStateView, source: Seq<char>)
    requires
        !state.topic.contains('|'),
    ensures
        spec_parse_partition_state(partition_state_text(state), source) == Ok::<
            PartitionStateView,
            Seq<char>,
        >(state),
{
    reveal_strlit("|");
    reveal_strlit("\n");
    let d1 = decimal(state.partition_id as nat);
    let d2 = decimal(state.log_start_offset as nat);
    let d3 = decimal(state.high_watermark as nat);
    let d4 = decimal(state.next_offset as nat);
    lemma_decimal_plain(state.partition_id as nat);
    lemma_decimal_plain(state.log_start_offset as nat);
    lemma_decimal_plain(state.high_watermark as nat);
    lemma_decimal_plain(state.next_offset as nat);
    lemma_parse_decimal(state.partition_id as nat, u32::MAX as nat);
    lemma_parse_decimal(state.log_start_offset as nat, u64::MAX as nat);
    lemma_parse_decimal(state.high_watermark as nat, u64::MAX as nat);
    lemma_parse_decimal(state.next_offset as nat, u64::MAX as nat);
    let fields = seq![state.topic, d1, d2, d3, d4];
    reveal_with_fuel(join_on, 6);
    let joined = join_on(fields, '|');
    assert(joined =~= state.topic + "|"@ + d1 + "|"@ + d2 + "|"@ + d3 + "|"@ + d4);
    assert(joined.last() == d4.last());
    assert(partition_state_text(state) =~= joined + "\n"@);
    lemma_trim_end_newline(joined);
    assert forall|i: int| 0 <= i < fields.len() implies !(#[trigger] fields[i]).contains('|') by {}
    lemma_split_join(fields, '|');
}

/// Reading back a line of the segment list gives the entry it was written
/// from, whenever the topic and the keys hold no `|`.
#[verifier::spinoff_prover]
pub proof fn lemma_segment_line_round_trip(segment: SegmentMetadataView)
    requires
        !segment.topic.contains('|'),
        !segment.object_key.contains('|'),
        !segment.index_key.contains('|'),
    ensures
        spec_parse_segment(segment_line_text(segment)) == Ok::<SegmentMetadataView, Seq<char>>(
            segment,
        ),
{
    reveal_strlit("|");
    let d1 = decimal(segment.partition_id as nat);
    let d2 = decimal(segment.start_offset as nat);
    let d3 = decimal(segment.end_offset as nat);
    let d6 = decimal(segment.size_bytes as nat);
    let d7 = decimal(segment.record_count as nat);
    lemma_decimal_plain(segment.partition_id as nat);
    lemma_decimal_plain(segment.start_offset as nat);
    lemma_decimal_plain(segment.end_offset as nat);
    lemma_decimal_plain(segment.size_bytes as nat);
    lemma_decimal_plain(segment.record_count as nat);
    lemma_parse_decimal(segment.partition_id as nat, u32::MAX as nat);
    lemma_parse_decimal(segment.start_offset as nat, u64::MAX as nat);
    lemma_parse_decimal(segment.end_offset as nat, u64::MAX as nat);
    lemma_parse_decimal(segment.size_bytes as nat, u64::MAX as nat);
    lemma_parse_decimal(segment.record_count as nat, u64::MAX as nat);
    let fields = seq![
        segment.topic,
        d1,
        d2,
        d3,
        segment.object_key,
        segment.index_key,
        d6,
        d7,
    ];
    reveal_with_fuel(join_on, 9);
    assert(join_on(fields, '|') =~= segment_line_text(segment));
    assert forall|i: int| 0 <= i < fields.len() implies !(#[trigger] fields[i]).contains('|') by {}
    lemma_split_join(fields, '|');
}

/// The segment list that holds `entries`, one line each, in commit order.
pub open spec fn segment_list_text(entries: Seq<SegmentMetadataView>) -> Seq<char>
    decreases entries.len(),
{
    if entries.len() == 0 {
        Seq::empty()
    } else {
        segment_list_text(entries.drop_last()) + segment_line_text(entries.last()) + "\n"@
    }
}

/// The first of `entries` that holds `offset`.
pub open spec fn first_covering(entries: Seq<SegmentMetadataView>, offset: u64) -> Option<
    SegmentMetadataView,
>
    decreases entries.len(),
{
    if entries.len() == 0 {
        None
    } else if entries[0].start_offset <= offset && offset <= entries[0].end_offset {
        Some(entries[0])
    } else {
        first_covering(entries.drop_first(), offset)
    }
}

/// The text fields of `e` hold no `|` and no line feed.
pub open spec fn plain_entry(e: SegmentMetadataView) -> bool {
    &&& !e.topic.contains('|')
    &&& !e.object_key.contains('|')
    &&& !e.index_key.contains('|')
    &&& !e.topic.contains('\n')
    &&& !e.object_key.contains('\n')
    &&& !e.index_key.contains('\n')
}

/// The lines of the segment list, one per entry.
pub open spec fn segment_lines(entries: Seq<SegmentMetadataView>) -> Seq<Seq<char>> {
    entries.map_values(|e: SegmentMetadataView| segment_line_text(e))
}

proof fn lemma_segment_line_no_newline(e: SegmentMetadataView)
    requires
        plain_entry(e),
    ensures
        !segment_line_text(e).contains('\n'),
{
    lemma_decimal_plain(e.partition_id as nat);
    lemma_decimal_plain(e.start_offset as nat);
    lemma_decimal_plain(e.end_offset as nat);
    lemma_decimal_plain(e.size_bytes as nat);
    lemma_decimal_plain(e.record_count as nat);
    let fields = seq![
        e.topic,
        decimal(e.partition_id as nat),
        decimal(e.start_offset as nat),
        decimal(e.end_offset as nat),
        e.object_key,
        e.index_key,
        decimal(e.size_bytes as nat),
        decimal(e.record_count as nat),
    ];
    reveal_strlit("|");
    reveal_with_fuel(join_on, 9);
    assert(join_on(fields, '|') =~= segment_line_text(e));
    assert forall|i: int| 0 <= i < fields.len() implies !(#[trigger] fields[i]).contains('\n') by {}
    lemma_join_avoids(fields, '|', '\n');
}

proof fn lemma_segment_line_ends_in_digit(e: SegmentMetadataView)
    ensures
        segment_line_text(e).len() > 0,
        is_digit(segment_line_text(e).last()),
{
    let d = decimal(e.record_count as nat);
    lemma_decimal_digits(e.record_count as nat);
    let line = segment_line_text(e);
    assert(line.last() == d.last());
    assert(is_digit(d[d.len() - 1]));
}

#[verifier::spinoff_prover]
proof fn lemma_segment_line_plain(e: SegmentMetadataView)
    requires
        plain_entry(e),
    ensures
        !segment_line_text(e).contains('\n'),
        segment_line_text(e).len() > 0,
        !is_whitespace(segment_line_text(e).last()),
        segment_line_text(e).last() != '\r',
        trim(segment_line_text(e)).len() > 0,
        spec_parse_segment(segment_line_text(e)) == Ok::<SegmentMetadataView, Seq<char>>(e),
{
    lemma_segment_line_round_trip(e);
    lemma_segment_line_no_newline(e);
    lemma_segment_line_ends_in_digit(e);
    lemma_trim_keeps_nonblank(segment_line_text(e));
}

#[verifier::spinoff_prover]
proof fn lemma_split_segment_list(entries: Seq<SegmentMetadataView>)
    requires
        forall|i: int| 0 <= i < entries.len() ==> plain_entry(#[trigger] entries[i]),
    ensures
        split_on(segment_list_text(entries), '\n') == segment_lines(entries).push(
            Seq::<char>::empty(),
        ),
    decreases entries.len(),
{
    reveal_strlit("\n");
    if entries.len() == 0 {
        assert(split_on(Seq::<char>::empty(), '\n') =~= seq![Seq::<char>::empty()]);
        assert(segment_lines(entries).push(Seq::<char>::empty()) =~= seq![Seq::<char>::empty()]);
    } else {
        let init = entries.drop_last();
        let last = entries.last();
        assert forall|i: int| 0 <= i < init.len() implies plain_entry(#[trigger] init[i]) by {
            assert(init[i] == entries[i]);
        }
        assert(plain_entry(last)) by {
            assert(last == entries[entries.len() - 1]);
        }
        lemma_split_segment_list(init);
        lemma_segment_line_plain(last);
        let before = segment_list_text(init);
        let line = segment_line_text(last);
        lemma_split_append_plain(before, line, '\n');
        lemma_split_push_sep(before + line, '\n');
        assert(segment_list_text(entries) =~= (before + line).push('\n'));
        let prev = segment_lines(init).push(Seq::<char>::empty());
        assert(prev.last() + line =~= line);
        assert(prev.update(prev.len() - 1, line) =~= segment_lines(entries));
    }
}

#[verifier::spinoff_prover]
proof fn lemma_find_over_lines(entries: Seq<SegmentMetadataView>, offset: u64)
    requires
        forall|i: int| 0 <= i < entries.len() ==> plain_entry(#[trigger] entries[i]),
    ensures
        spec_find_segment(segment_lines(entries), offset) == Ok::<
            Option<SegmentMetadataView>,
            Seq<char>,
        >(first_covering(entries, offset)),
    decreases entries.len(),
{
    if entries.len() > 0 {
        let rest = entries.drop_first();
        assert forall|i: int| 0 <= i < rest.len() implies plain_entry(#[trigger] rest[i]) by {
            assert(rest[i] == entries[i + 1]);
        }
        assert(plain_entry(entries[0]));
        lemma_segment_line_plain(entries[0]);
        lemma_find_over_lines(rest, offset);
        assert(segment_lines(entries).drop_first() =~= segment_lines(rest));
        assert(segment_lines(entries)[0] == segment_line_text(entries[0]));
    }
}

/// The manifest finds, for an offset, the first committed segment whose
/// range holds it: reading a segment list written by `format_segment_line`
/// looks at the entries in commit order and stops at the first that covers
/// the offset, whenever no text field holds a `|` or a line feed.
pub proof fn lemma_find_in_segment_list(entries: Seq<SegmentMetadataView>, offset: u64)
    requires
        forall|i: int| 0 <= i < entries.len() ==> plain_entry(#[trigger] entries[i]),
    ensures
        spec_find_segment(lines(segment_list_text(entries)), offset) == Ok::<
            Option<SegmentMetadataView>,
            Seq<char>,
        >(first_covering(entries, offset)),
{
    lemma_split_segment_list(entries);
    let parts = split_on(segment_list_text(entries), '\n');
    let ls = segment_lines(entries);
    assert forall|i: int| 0 <= i < ls.len() implies strip_cr(#[trigger] ls[i]) == ls[i] by {
        assert(plain_entry(entries[i]));
        lemma_segment_line_plain(entries[i]);
    }
    assert(lines(segment_list_text(entries)) =~= ls);
    lemma_find_over_lines(entries, offset);
}

/// A valid topic name holds no `|` and no line feed, so the manifest's
/// round trips hold for every topic the store accepts.
pub proof fn lemma_valid_name_is_plain(name: Seq<char>)
    requires
        valid_name(name),
    ensures
        !name.contains('|'),
        !name.contains('\n'),
{
    if name.contains('|') {
        let j = choose|j: int| 0 <= j < name.len() && name[j] == '|';
        assert(is_name_char(name[j]));
    }
    if name.contains('\n') {
        let j = choose|j: int| 0 <= j < name.len() && name[j] == '\n';
        assert(is_name_char(name[j]));
    }
}

/// A new partition's state file reads back as the initial state: topic and
/// id as created, every offset zero.
pub proof fn lemma_new_partition_reads_back(topic: Seq<char>, partition_id: u32, source: Seq<char>)
    requires
        valid_name(topic),
    ensures
        ({
            let state = PartitionStateView {
                topic,
                partition_id,
                log_start_offset: 0,
                high_watermark: 0,
                next_offset: 0,
            };
            spec_parse_partition_state(partition_state_text(state), source) == Ok::<
                PartitionStateView,
                Seq<char>,
            >(state)
        }),
{
    lemma_valid_name_is_plain(topic);
    lemma_partition_state_round_trip(
        PartitionStateView {
            topic,
            partition_id,
            log_start_offset: 0,
            high_watermark: 0,
            next_offset: 0,
        },
        source,
    );
}

/// A created topic's file reads back as the configuration it was created
/// with.
pub proof fn lemma_created_topic_reads_back(config: TopicConfigView)
    requires
        valid_name(config.name),
    ensures
        spec_parse_topic_config(topic_config_text(config), config.name) == Ok::<
            TopicConfigView,
            Seq<char>,
        >(config),
{
    lemma_valid_name_is_plain(config.name);
    lemma_topic_config_round_trip(config, config.name);
}

/// The names the manifest accepts are exactly the non-empty ones made of
/// ASCII lower-case letters `a`-`z`, upper-case letters `A`-`Z`, digits
/// `0`-`9`, `-` and `_`.
pub proof fn lemma_name_rule(name: Seq<char>)
    ensures
        valid_name(name) <==> (name.len() > 0 && forall|i: int|
            0 <= i < name.len() ==> {
                let c = #[trigger] name[i];
                ||| 'a' <= c <= 'z'
                ||| 'A' <= c <= 'Z'
                ||| '0' <= c <= '9'
                ||| c == '-'
                ||| c == '_'
            }),
{
}

/// Every one-character name that is an ASCII letter of either case or a
/// digit is accepted; so are `-` and `_`.
pub proof fn lemma_single_character_names(c: char)
    requires
        ('a' <= c <= 'z') || ('A' <= c <= 'Z') || ('0' <= c <= '9') || c == '-' || c == '_',
    ensures
        valid_name(seq![c]),
{
    lemma_name_rule(seq![c]);
}

} // verus!
