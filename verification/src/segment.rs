//! The segment object format and its sparse index.
//!
//! A segment is `mlogseg1`, the base offset (u64, little endian), the
//! record count (u32), and then for each record its key length (u32),
//! its value length (u32), its key bytes and its value bytes.
use crate::error::{LogError, Result};
use crate::types::{record_views, FetchedRecord, FetchedView, Record, RecordView, fetched_views};
use vstd::bytes::*;
use vstd::prelude::*;
use vstd::slice::*;
use vstd::string::*;

verus! {

/// The eight bytes `mlogseg1` that open every segment.
pub open spec fn segment_magic() -> Seq<u8> {
    seq![0x6du8, 0x6cu8, 0x6fu8, 0x67u8, 0x73u8, 0x65u8, 0x67u8, 0x31u8]
}

/// The eight bytes `mlogidx1` that open every sparse index.
pub open spec fn index_magic() -> Seq<u8> {
    seq![0x6du8, 0x6cu8, 0x6fu8, 0x67u8, 0x69u8, 0x64u8, 0x78u8, 0x31u8]
}

/// The bytes of one record in a segment.
pub open spec fn spec_record_bytes(r: RecordView) -> Seq<u8> {
    spec_u32_to_le_bytes(r.key.len() as u32) + spec_u32_to_le_bytes(r.value.len() as u32) + r.key
        + r.value
}

/// The bytes of a run of records, one after the other.
pub open spec fn spec_records_bytes(rs: Seq<RecordView>) -> Seq<u8>
    decreases rs.len(),
{
    if rs.len() == 0 {
        Seq::empty()
    } else {
        spec_records_bytes(rs.drop_last()) + spec_record_bytes(rs.last())
    }
}

/// The segment that holds `rs` from offset `base` on. The count field keeps
/// the low 32 bits of the number of records.
pub open spec fn spec_encode_segment(base: u64, rs: Seq<RecordView>) -> Seq<u8> {
    segment_magic() + spec_u64_to_le_bytes(base) + spec_u32_to_le_bytes(rs.len() as u32)
        + spec_records_bytes(rs)
}

/// The name of the first field, in record order and key before value, that
/// is longer than a u32 can count.
pub open spec fn oversized_field(rs: Seq<RecordView>) -> Option<Seq<char>>
    decreases rs.len(),
{
    if rs.len() == 0 {
        None
    } else {
        match oversized_field(rs.drop_last()) {
            Some(f) => Some(f),
            None => if rs.last().key.len() > u32::MAX {
                Some("record key"@)
            } else if rs.last().value.len() > u32::MAX {
                Some("record value"@)
            } else {
                None
            },
        }
    }
}

/// The sparse index that maps `base` to the byte position `position`.
pub open spec fn spec_encode_sparse_index(base: u64, position: u64) -> Seq<u8> {
    index_magic() + spec_u64_to_le_bytes(base) + spec_u64_to_le_bytes(position)
}

/// The ways a segment can fail to decode.
pub enum SegmentFault {
    BadMagic,
    Truncated,
    CursorOverflow,
    OffsetOverflow,
    TrailingBytes,
}

/// The message a [`SegmentFault`] is reported with.
pub open spec fn fault_message(f: SegmentFault) -> Seq<char> {
    match f {
        SegmentFault::BadMagic => "bad segment magic"@,
        SegmentFault::Truncated => "segment ended unexpectedly"@,
        SegmentFault::CursorOverflow => "segment cursor overflowed"@,
        SegmentFault::OffsetOverflow => "record offset overflowed"@,
        SegmentFault::TrailingBytes => "segment has trailing bytes"@,
    }
}

/// `e` is the corrupt-segment error that reports `f`.
pub open spec fn reports_fault(e: LogError, f: SegmentFault) -> bool {
    e matches LogError::CorruptSegment(m) && m@ == fault_message(f)
}

/// Moving a cursor at `pos` over `n` more bytes of a buffer of `len` bytes:
/// the new position, or why it cannot move.
pub open spec fn spec_advance(len: int, pos: int, n: int) -> std::result::Result<int, SegmentFault> {
    if pos + n > usize::MAX {
        Err(SegmentFault::CursorOverflow)
    } else if pos + n > len {
        Err(SegmentFault::Truncated)
    } else {
        Ok(pos + n)
    }
}

/// The little-endian u32 at `pos`.
pub open spec fn spec_u32_at(bytes: Seq<u8>, pos: int) -> u32 {
    spec_u32_from_le_bytes(bytes.subrange(pos, pos + 4))
}

/// The little-endian u64 at `pos`.
pub open spec fn spec_u64_at(bytes: Seq<u8>, pos: int) -> u64 {
    spec_u64_from_le_bytes(bytes.subrange(pos, pos + 8))
}

/// Reads the record at `pos`, to be given the offset `offset`: the record
/// and the position after it.
pub open spec fn spec_parse_record(bytes: Seq<u8>, pos: int, offset: int) -> std::result::Result<
    (FetchedView, int),
    SegmentFault,
> {
    let len = bytes.len() as int;
    match spec_advance(len, pos, 4) {
        Err(f) => Err(f),
        Ok(p1) => match spec_advance(len, p1, 4) {
            Err(f) => Err(f),
            Ok(p2) => {
                let key_len = spec_u32_at(bytes, pos) as int;
                let value_len = spec_u32_at(bytes, p1) as int;
                match spec_advance(len, p2, key_len) {
                    Err(f) => Err(f),
                    Ok(p3) => match spec_advance(len, p3, value_len) {
                        Err(f) => Err(f),
                        Ok(p4) => if offset > u64::MAX {
                            Err(SegmentFault::OffsetOverflow)
                        } else {
                            Ok(
                                (
                                    FetchedView {
                                        offset: offset as u64,
                                        key: bytes.subrange(p2, p3),
                                        value: bytes.subrange(p3, p4),
                                    },
                                    p4,
                                ),
                            )
                        },
                    },
                }
            },
        },
    }
}

/// Reads the records with indexes `index..count` from `pos` on: the records
/// and the position after the last of them.
pub open spec fn spec_parse_records(
    bytes: Seq<u8>,
    pos: int,
    base: u64,
    index: int,
    count: int,
) -> std::result::Result<(Seq<FetchedView>, int), SegmentFault>
    decreases count - index,
{
    if index >= count {
        Ok((Seq::empty(), pos))
    } else {
        match spec_parse_record(bytes, pos, base + index) {
            Err(f) => Err(f),
            Ok((r, p)) => match spec_parse_records(bytes, p, base, index + 1, count) {
                Err(f) => Err(f),
                Ok((rs, q)) => Ok((seq![r] + rs, q)),
            },
        }
    }
}

/// What a segment decodes to: its records, each with its offset, or the
/// first fault met reading it from the front.
pub open spec fn spec_decode_segment(bytes: Seq<u8>) -> std::result::Result<
    Seq<FetchedView>,
    SegmentFault,
> {
    let len = bytes.len() as int;
    match spec_advance(len, 0, 8) {
        Err(f) => Err(f),
        Ok(p0) => if bytes.subrange(0, 8) != segment_magic() {
            Err(SegmentFault::BadMagic)
        } else {
            match spec_advance(len, p0, 8) {
                Err(f) => Err(f),
                Ok(p1) => match spec_advance(len, p1, 4) {
                    Err(f) => Err(f),
                    Ok(p2) => finish_decode(
                        spec_parse_records(
                            bytes,
                            p2,
                            spec_u64_at(bytes, p0),
                            0,
                            spec_u32_at(bytes, p1) as int,
                        ),
                        len,
                    ),
                },
            }
        },
    }
}

/// What a segment decodes to once its records parsed to `r`: trailing bytes
/// after the last record are a fault.
pub open spec fn finish_decode(
    r: std::result::Result<(Seq<FetchedView>, int), SegmentFault>,
    len: int,
) -> std::result::Result<Seq<FetchedView>, SegmentFault> {
    match r {
        Err(f) => Err(f),
        Ok((rs, end)) => if end != len {
            Err(SegmentFault::TrailingBytes)
        } else {
            Ok(rs)
        },
    }
}

/// `acc` in front of what a run of records parsed to.
pub open spec fn after_parsed(
    acc: Seq<FetchedView>,
    r: std::result::Result<(Seq<FetchedView>, int), SegmentFault>,
) -> std::result::Result<(Seq<FetchedView>, int), SegmentFault> {
    match r {
        Ok((rs, q)) => Ok((acc + rs, q)),
        Err(f) => Err(f),
    }
}

/// A corrupt-segment error that reports `f`.
fn fault_error(f: SegmentFault) -> (e: LogError)
    ensures
        reports_fault(e, f),
{
    let m = match f {
        SegmentFault::BadMagic => String::from_str("bad segment magic"),
        SegmentFault::Truncated => String::from_str("segment ended unexpectedly"),
        SegmentFault::CursorOverflow => String::from_str("segment cursor overflowed"),
        SegmentFault::OffsetOverflow => String::from_str("record offset overflowed"),
        SegmentFault::TrailingBytes => String::from_str("segment has trailing bytes"),
    };
    LogError::CorruptSegment(m)
}

fn segment_magic_bytes() -> (v: Vec<u8>)
    ensures
        v@ == segment_magic(),
{
    let mut v: Vec<u8> = Vec::new();
    v.push(0x6d);
    v.push(0x6c);
    v.push(0x6f);
    v.push(0x67);
    v.push(0x73);
    v.push(0x65);
    v.push(0x67);
    v.push(0x31);
    assert(v@ =~= segment_magic());
    v
}

fn index_magic_bytes() -> (v: Vec<u8>)
    ensures
        v@ == index_magic(),
{
    let mut v: Vec<u8> = Vec::new();
    v.push(0x6d);
    v.push(0x6c);
    v.push(0x6f);
    v.push(0x67);
    v.push(0x69);
    v.push(0x64);
    v.push(0x78);
    v.push(0x31);
    assert(v@ =~= index_magic());
    v
}

/// Refuses a field of `len` bytes that a u32 cannot count.
fn checked_len(len: usize, field: &str) -> (r: Result<()>)
    ensures
        len <= u32::MAX ==> r is Ok,
        len > u32::MAX ==> (r matches Err(LogError::InvalidArgument(m)) && m@ == field@
            + " is too large"@),
{
    if len > 0xffff_ffffusize {
        return Err(LogError::InvalidArgument(String::from_str(field).concat(" is too large")));
    }
    Ok(())
}

/// Encodes `records` as a segment whose first record has offset `base_offset`.
/// An empty batch, and a key or value longer than a u32 can count, are refused.
#[verifier::spinoff_prover]
pub fn encode_segment(base_offset: u64, records: &[Record]) -> (r: Result<Vec<u8>>)
    ensures
        records@.len() == 0 ==> (r matches Err(LogError::InvalidArgument(m)) && m@
            == "cannot encode an empty segment"@),
        records@.len() > 0 ==> match oversized_field(record_views(records@)) {
            Some(field) => r matches Err(LogError::InvalidArgument(m)) && m@ == field
                + " is too large"@,
            None => r matches Ok(b) && b@ == spec_encode_segment(
                base_offset,
                record_views(records@),
            ),
        },
{
    if records.len() == 0 {
        return Err(LogError::invalid_argument("cannot encode an empty segment"));
    }
    let ghost rs = record_views(records@);
    let mut bytes = segment_magic_bytes();
    let mut base_bytes = u64_to_le_bytes(base_offset);
    bytes.append(&mut base_bytes);
    let mut count_bytes = u32_to_le_bytes(records.len() as u32);
    bytes.append(&mut count_bytes);
    let ghost header = bytes@;
    assert(header == segment_magic() + spec_u64_to_le_bytes(base_offset) + spec_u32_to_le_bytes(
        rs.len() as u32,
    ));
    let mut i: usize = 0;
    while i < records.len()
        invariant
            0 <= i <= records@.len(),
            rs == record_views(records@),
            header == segment_magic() + spec_u64_to_le_bytes(base_offset) + spec_u32_to_le_bytes(
                rs.len() as u32,
            ),
            oversized_field(rs.take(i as int)) is None,
            bytes@ == header + spec_records_bytes(rs.take(i as int)),
        decreases records@.len() - i,
    {
        let record = &records[i];
        assert(rs.take(i + 1).drop_last() =~= rs.take(i as int));
        assert(rs.take(i + 1).last() == record@);
        match checked_len(record.key.len(), "record key") {
            Ok(()) => {},
            Err(e) => {
                proof {
                    lemma_oversized_prefix(rs, i + 1);
                }
                return Err(e);
            },
        }
        match checked_len(record.value.len(), "record value") {
            Ok(()) => {},
            Err(e) => {
                proof {
                    lemma_oversized_prefix(rs, i + 1);
                }
                return Err(e);
            },
        }
        let mut key_len = u32_to_le_bytes(record.key.len() as u32);
        let mut value_len = u32_to_le_bytes(record.value.len() as u32);
        let mut key = slice_to_vec(record.key.as_slice());
        let mut value = slice_to_vec(record.value.as_slice());
        bytes.append(&mut key_len);
        bytes.append(&mut value_len);
        bytes.append(&mut key);
        bytes.append(&mut value);
        assert(bytes@ =~= header + spec_records_bytes(rs.take(i + 1)));
        i = i + 1;
    }
    assert(rs.take(rs.len() as int) =~= rs);
    Ok(bytes)
}

/// When a prefix of `rs` has an oversized field, that field is the first of
/// `rs` as well.
proof fn lemma_oversized_prefix(rs: Seq<RecordView>, n: int)
    requires
        0 <= n <= rs.len(),
        oversized_field(rs.take(n)) is Some,
    ensures
        oversized_field(rs) == oversized_field(rs.take(n)),
    decreases rs.len() - n,
{
    if n < rs.len() {
        assert(rs.take(n + 1).drop_last() =~= rs.take(n));
        lemma_oversized_prefix(rs, n + 1);
    } else {
        assert(rs.take(n) =~= rs);
    }
}

/// Encodes the sparse index entry that maps `base_offset` to `byte_position`.
pub fn encode_sparse_index(base_offset: u64, byte_position: u64) -> (v: Vec<u8>)
    ensures
        v@ == spec_encode_sparse_index(base_offset, byte_position),
{
    let mut bytes = index_magic_bytes();
    let mut base = u64_to_le_bytes(base_offset);
    let mut position = u64_to_le_bytes(byte_position);
    bytes.append(&mut base);
    bytes.append(&mut position);
    bytes
}

/// A read position in a segment's bytes.
struct Cursor<'a> {
    bytes: &'a [u8],
    position: usize,
}

impl<'a> Cursor<'a> {
    /// The cursor never stands past the end of its bytes.
    spec fn wf(&self) -> bool {
        self.position <= self.bytes@.len()
    }

    fn new(bytes: &'a [u8]) -> (c: Self)
        ensures
            c.bytes@ == bytes@,
            c.position == 0,
    {
        Cursor { bytes, position: 0 }
    }

    /// How many bytes are left after the cursor.
    fn remaining(&self) -> (n: usize)
        ensures
            n == if self.position <= self.bytes@.len() {
                self.bytes@.len() - self.position
            } else {
                0
            },
    {
        self.bytes.len().saturating_sub(self.position)
    }

    /// Takes the next `length` bytes.
    fn bytes(&mut self, length: usize) -> (r: Result<&'a [u8]>)
        requires
            old(self).wf(),
        ensures
            final(self).bytes@ == old(self).bytes@,
            final(self).wf(),
            match spec_advance(old(self).bytes@.len() as int, old(self).position as int, length as int) {
                Ok(end) => r matches Ok(chunk) && chunk@ == old(self).bytes@.subrange(
                    old(self).position as int,
                    end,
                ) && final(self).position == end,
                Err(f) => r matches Err(e) && reports_fault(e, f) && final(self).position == old(
                    self,
                ).position,
            },
    {
        let end = match self.position.checked_add(length) {
            Some(end) => end,
            None => return Err(fault_error(SegmentFault::CursorOverflow)),
        };
        if end > self.bytes.len() {
            return Err(fault_error(SegmentFault::Truncated));
        }
        let chunk = slice_subrange(self.bytes, self.position, end);
        self.position = end;
        Ok(chunk)
    }

    /// Takes the next bytes, which must be `expected`.
    fn expect(&mut self, expected: &[u8]) -> (r: Result<()>)
        requires
            old(self).wf(),
        ensures
            final(self).bytes@ == old(self).bytes@,
            final(self).wf(),
            match spec_advance(old(self).bytes@.len() as int, old(self).position as int, expected@.len() as int) {
                Ok(end) => if old(self).bytes@.subrange(old(self).position as int, end) == expected@ {
                    r is Ok && final(self).position == end
                } else {
                    r matches Err(e) && reports_fault(e, SegmentFault::BadMagic)
                },
                Err(f) => r matches Err(e) && reports_fault(e, f) && final(self).position == old(
                    self,
                ).position,
            },
    {
        let actual = match self.bytes(expected.len()) {
            Ok(chunk) => chunk,
            Err(e) => return Err(e),
        };
        let mut i: usize = 0;
        while i < expected.len()
            invariant
                self.bytes@ == old(self).bytes@,
                self.wf(),
                self.position == old(self).position + expected@.len(),
                actual@ == old(self).bytes@.subrange(
                    old(self).position as int,
                    old(self).position + expected@.len(),
                ),
                actual@.len() == expected@.len(),
                0 <= i <= expected@.len(),
                forall|j: int| 0 <= j < i ==> actual@[j] == expected@[j],
            decreases expected@.len() - i,
        {
            if actual[i] != expected[i] {
                assert(actual@ != expected@);
                return Err(fault_error(SegmentFault::BadMagic));
            }
            i = i + 1;
        }
        assert(actual@ =~= expected@);
        Ok(())
    }

    /// Takes the next four bytes as a little-endian u32.
    fn u32(&mut self) -> (r: Result<u32>)
        requires
            old(self).wf(),
        ensures
            final(self).bytes@ == old(self).bytes@,
            final(self).wf(),
            match spec_advance(old(self).bytes@.len() as int, old(self).position as int, 4) {
                Ok(end) => r == Ok::<u32, LogError>(spec_u32_at(old(self).bytes@, old(self).position as int))
                    && final(self).position == end,
                Err(f) => r matches Err(e) && reports_fault(e, f) && final(self).position == old(
                    self,
                ).position,
            },
    {
        let chunk = match self.bytes(4) {
            Ok(chunk) => chunk,
            Err(e) => return Err(e),
        };
        Ok(u32_from_le_bytes(chunk))
    }

    /// Takes the next eight bytes as a little-endian u64.
    fn u64(&mut self) -> (r: Result<u64>)
        requires
            old(self).wf(),
        ensures
            final(self).bytes@ == old(self).bytes@,
            final(self).wf(),
            match spec_advance(old(self).bytes@.len() as int, old(self).position as int, 8) {
                Ok(end) => r == Ok::<u64, LogError>(spec_u64_at(old(self).bytes@, old(self).position as int))
                    && final(self).position == end,
                Err(f) => r matches Err(e) && reports_fault(e, f) && final(self).position == old(
                    self,
                ).position,
            },
    {
        let chunk = match self.bytes(8) {
            Ok(chunk) => chunk,
            Err(e) => return Err(e),
        };
        Ok(u64_from_le_bytes(chunk))
    }
}

/// `r` is what decoding reports when the segment decodes to `s`.
pub open spec fn decode_reports(
    r: Result<Vec<FetchedRecord>>,
    s: std::result::Result<Seq<FetchedView>, SegmentFault>,
) -> bool {
    match s {
        Ok(rs) => r matches Ok(records) && fetched_views(records@) == rs,
        Err(f) => r matches Err(e) && reports_fault(e, f),
    }
}

/// Decodes a segment into its records, each with its offset.
#[verifier::spinoff_prover]
pub fn decode_segment(bytes: &[u8]) -> (r: Result<Vec<FetchedRecord>>)
    ensures
        decode_reports(r, spec_decode_segment(bytes@)),
{
    let ghost b = bytes@;
    let mut cursor = Cursor::new(bytes);
    let magic = segment_magic_bytes();
    match cursor.expect(magic.as_slice()) {
        Ok(()) => {},
        Err(e) => return Err(e),
    }
    let base_offset = match cursor.u64() {
        Ok(v) => v,
        Err(e) => return Err(e),
    };
    let count32 = match cursor.u32() {
        Ok(v) => v,
        Err(e) => return Err(e),
    };
    let count = count32 as usize;
    let ghost start = cursor.position as int;
    assert(start == 20);
    assert(spec_decode_segment(b) == finish_decode(
        spec_parse_records(b, start, base_offset, 0, count as int),
        b.len() as int,
    ));
    let mut records: Vec<FetchedRecord> = Vec::new();
    let mut index: usize = 0;
    while index < count
        invariant
            cursor.bytes@ == b,
            cursor.wf(),
            b == bytes@,
            start == 20,
            count == count32,
            0 <= index <= count,
            base_offset == spec_u64_at(b, 8),
            count32 == spec_u32_at(b, 16),
            spec_decode_segment(b) == finish_decode(
                spec_parse_records(b, start, base_offset, 0, count as int),
                b.len() as int,
            ),
            after_parsed(
                fetched_views(records@),
                spec_parse_records(b, cursor.position as int, base_offset, index as int, count as int),
            ) == spec_parse_records(b, start, base_offset, 0, count as int),
        decreases count - index,
    {
        let ghost pos = cursor.position as int;
        let ghost acc = fetched_views(records@);
        let key_len = match cursor.u32() {
            Ok(v) => v as usize,
            Err(e) => {
                assert(spec_parse_record(b, pos, base_offset + index) is Err);
                return Err(e);
            },
        };
        let value_len = match cursor.u32() {
            Ok(v) => v as usize,
            Err(e) => {
                assert(spec_parse_record(b, pos, base_offset + index) is Err);
                return Err(e);
            },
        };
        let ghost p2 = cursor.position as int;
        assert(key_len == spec_u32_at(b, pos));
        let key_bytes = match cursor.bytes(key_len) {
            Ok(chunk) => chunk,
            Err(e) => {
                assert(spec_advance(b.len() as int, p2, key_len as int) is Err);
                assert(spec_parse_record(b, pos, base_offset + index) is Err);
                return Err(e);
            },
        };
        let value_bytes = match cursor.bytes(value_len) {
            Ok(chunk) => chunk,
            Err(e) => return Err(e),
        };
        let offset = match base_offset.checked_add(index as u64) {
            Some(o) => o,
            None => return Err(fault_error(SegmentFault::OffsetOverflow)),
        };
        let record = FetchedRecord {
            offset,
            key: slice_to_vec(key_bytes),
            value: slice_to_vec(value_bytes),
        };
        records.push(record);
        proof {
            let parsed = spec_parse_record(b, pos, base_offset + index);
            assert(parsed matches Ok((r, p)) && r == record@ && p == cursor.position);
            assert(fetched_views(records@) =~= acc + seq![record@]);
            let rest = spec_parse_records(b, cursor.position as int, base_offset, index + 1, count as int);
            match rest {
                Ok((rs, q)) => {
                    assert(acc + seq![record@] + rs =~= acc + (seq![record@] + rs));
                },
                Err(_) => {},
            }
        }
        index = index + 1;
    }
    if cursor.remaining() != 0 {
        return Err(fault_error(SegmentFault::TrailingBytes));
    }
    assert(fetched_views(records@) =~= Seq::<FetchedView>::empty() + fetched_views(records@));
    Ok(records)
}

/// The records `rs` as a segment based at `base` holds them: the record at
/// index `i` gets offset `base + i`.
pub open spec fn stored_views(rs: Seq<RecordView>, base: int) -> Seq<FetchedView> {
    Seq::new(
        rs.len(),
        |i: int| FetchedView { offset: (base + i) as u64, key: rs[i].key, value: rs[i].value },
    )
}

/// Every key and value of `rs` has a length a u32 can count.
pub open spec fn fields_fit(rs: Seq<RecordView>) -> bool {
    forall|i: int|
        0 <= i < rs.len() ==> #[trigger] rs[i].key.len() <= u32::MAX && rs[i].value.len()
            <= u32::MAX
}

/// A segment based at `base` can hold `rs`: the count, every length and every
/// offset fit their fields, and the whole segment fits in memory.
pub open spec fn segment_can_hold(base: u64, rs: Seq<RecordView>) -> bool {
    &&& rs.len() <= u32::MAX
    &&& fields_fit(rs)
    &&& base + rs.len() <= u64::MAX + 1
    &&& spec_encode_segment(base, rs).len() <= usize::MAX
}

proof fn lemma_records_bytes_cons(x: RecordView, s: Seq<RecordView>)
    ensures
        spec_records_bytes(seq![x] + s) == spec_record_bytes(x) + spec_records_bytes(s),
    decreases s.len(),
{
    if s.len() == 0 {
        assert(seq![x] + s =~= seq![x]);
        assert(seq![x].drop_last() =~= Seq::<RecordView>::empty());
        assert(spec_records_bytes(Seq::<RecordView>::empty()) =~= Seq::<u8>::empty());
        assert(seq![x].last() == x);
        assert(spec_records_bytes(seq![x]) =~= Seq::<u8>::empty() + spec_record_bytes(x));
        assert(spec_records_bytes(seq![x]) =~= spec_record_bytes(x));
        assert(spec_records_bytes(s) =~= Seq::<u8>::empty());
        assert(spec_record_bytes(x) + spec_records_bytes(s) =~= spec_record_bytes(x));
    } else {
        lemma_records_bytes_cons(x, s.drop_last());
        assert((seq![x] + s).drop_last() =~= seq![x] + s.drop_last());
        assert((seq![x] + s).last() == s.last());
        assert(spec_record_bytes(x) + spec_records_bytes(s.drop_last()) + spec_record_bytes(
            s.last(),
        ) =~= spec_record_bytes(x) + (spec_records_bytes(s.drop_last()) + spec_record_bytes(
            s.last(),
        )));
    }
}

#[verifier::spinoff_prover]
proof fn lemma_parse_encoded_records(
    bytes: Seq<u8>,
    p: int,
    base: u64,
    i: int,
    rs: Seq<RecordView>,
)
    requires
        0 <= p,
        0 <= i,
        p + spec_records_bytes(rs).len() <= bytes.len() <= usize::MAX,
        bytes.subrange(p, p + spec_records_bytes(rs).len()) == spec_records_bytes(rs),
        fields_fit(rs),
        base + i + rs.len() <= u64::MAX + 1,
    ensures
        spec_parse_records(bytes, p, base, i, i + rs.len()) == Ok::<
            (Seq<FetchedView>, int),
            SegmentFault,
        >((stored_views(rs, base + i), p + spec_records_bytes(rs).len())),
    decreases rs.len(),
{
    if rs.len() == 0 {
        assert(stored_views(rs, base + i) =~= Seq::<FetchedView>::empty());
        assert(spec_records_bytes(rs) =~= Seq::<u8>::empty());
    } else {
        let x = rs[0];
        let rest = rs.drop_first();
        assert(rs =~= seq![x] + rest);
        lemma_records_bytes_cons(x, rest);
        let rec = spec_record_bytes(x);
        let all = spec_records_bytes(rs);
        assert(all == rec + spec_records_bytes(rest));
        let kl = x.key.len();
        let vl = x.value.len();
        assert(x.key.len() <= u32::MAX && x.value.len() <= u32::MAX);
        lemma_auto_spec_u32_to_from_le_bytes();
        let klb = spec_u32_to_le_bytes(kl as u32);
        let vlb = spec_u32_to_le_bytes(vl as u32);
        assert(rec == klb + vlb + x.key + x.value);
        assert(rec.len() == 8 + kl + vl);
        assert(bytes.subrange(p, p + 4) =~= klb) by {
            assert forall|j: int| 0 <= j < 4 implies bytes.subrange(p, p + 4)[j] == klb[j] by {
                assert(bytes.subrange(p, p + all.len())[j] == all[j]);
                assert(all[j] == rec[j]);
            }
        }
        assert(bytes.subrange(p + 4, p + 8) =~= vlb) by {
            assert forall|j: int| 0 <= j < 4 implies bytes.subrange(p + 4, p + 8)[j] == vlb[j] by {
                assert(bytes.subrange(p, p + all.len())[4 + j] == all[4 + j]);
                assert(all[4 + j] == rec[4 + j]);
            }
        }
        assert(bytes.subrange(p + 8, p + 8 + kl) =~= x.key) by {
            assert forall|j: int| 0 <= j < kl implies bytes.subrange(p + 8, p + 8 + kl)[j]
                == x.key[j] by {
                assert(bytes.subrange(p, p + all.len())[8 + j] == all[8 + j]);
                assert(all[8 + j] == rec[8 + j]);
            }
        }
        assert(bytes.subrange(p + 8 + kl, p + 8 + kl + vl) =~= x.value) by {
            assert forall|j: int| 0 <= j < vl implies bytes.subrange(p + 8 + kl, p + 8 + kl + vl)[j]
                == x.value[j] by {
                assert(bytes.subrange(p, p + all.len())[8 + kl + j] == all[8 + kl + j]);
                assert(all[8 + kl + j] == rec[8 + kl + j]);
            }
        }
        assert(spec_u32_at(bytes, p) == kl);
        assert(spec_u32_at(bytes, p + 4) == vl);
        let q = p + rec.len();
        let view = FetchedView { offset: (base + i) as u64, key: x.key, value: x.value };
        assert(spec_parse_record(bytes, p, base + i) == Ok::<(FetchedView, int), SegmentFault>(
            (view, q),
        ));
        let rest_bytes = spec_records_bytes(rest);
        assert(bytes.subrange(q, q + rest_bytes.len()) =~= rest_bytes) by {
            assert forall|j: int| 0 <= j < rest_bytes.len() implies bytes.subrange(
                q,
                q + rest_bytes.len(),
            )[j] == rest_bytes[j] by {
                assert(bytes.subrange(p, p + all.len())[rec.len() + j] == all[rec.len() + j]);
            }
        }
        assert(fields_fit(rest)) by {
            assert forall|j: int| 0 <= j < rest.len() implies #[trigger] rest[j].key.len()
                <= u32::MAX && rest[j].value.len() <= u32::MAX by {
                assert(rest[j] == rs[j + 1]);
            }
        }
        lemma_parse_encoded_records(bytes, q, base, i + 1, rest);
        assert(seq![view] + stored_views(rest, base + i + 1) =~= stored_views(rs, base + i));
    }
}

/// Decoding a segment gives back the records it was encoded from, the one
/// at index `i` with offset `base + i`, whenever the segment can hold them.
#[verifier::spinoff_prover]
pub proof fn lemma_segment_round_trip(base: u64, rs: Seq<RecordView>)
    requires
        segment_can_hold(base, rs),
    ensures
        spec_decode_segment(spec_encode_segment(base, rs)) == Ok::<Seq<FetchedView>, SegmentFault>(
            stored_views(rs, base as int),
        ),
{
    let bytes = spec_encode_segment(base, rs);
    let body = spec_records_bytes(rs);
    lemma_auto_spec_u32_to_from_le_bytes();
    lemma_auto_spec_u64_to_from_le_bytes();
    let bb = spec_u64_to_le_bytes(base);
    let cb = spec_u32_to_le_bytes(rs.len() as u32);
    assert(bytes.len() == 20 + body.len());
    assert(bytes.subrange(0, 8) =~= segment_magic());
    assert(bytes.subrange(8, 16) =~= bb);
    assert(bytes.subrange(16, 20) =~= cb);
    assert(spec_u64_at(bytes, 8) == base);
    assert(spec_u32_at(bytes, 16) == rs.len());
    assert(bytes.subrange(20, 20 + body.len() as int) =~= body);
    lemma_parse_encoded_records(bytes, 20, base, 0, rs);
    assert(stored_views(rs, base + 0) =~= stored_views(rs, base as int));
}

/// The keys and values of fetched records, as records to encode.
pub open spec fn fetched_to_records(vs: Seq<FetchedView>) -> Seq<RecordView> {
    vs.map_values(|v: FetchedView| RecordView { key: v.key, value: v.value })
}

proof fn lemma_u32_bytes_at(bytes: Seq<u8>, p: int)
    requires
        0 <= p,
        p + 4 <= bytes.len(),
    ensures
        bytes.subrange(p, p + 4) == spec_u32_to_le_bytes(spec_u32_at(bytes, p)),
{
    lemma_auto_spec_u32_to_from_le_bytes();
    assert(bytes.subrange(p, p + 4).len() == 4);
}

/// What a run of records parsed from lies in the bytes as their encoding,
/// each record with the next offset.
#[verifier::spinoff_prover]
proof fn lemma_parsed_records_are_encoded(
    bytes: Seq<u8>,
    p: int,
    base: u64,
    i: int,
    count: int,
)
    requires
        0 <= p <= bytes.len(),
        p <= usize::MAX,
        0 <= i <= count,
        spec_parse_records(bytes, p, base, i, count) is Ok,
    ensures
        ({
            let (vs, q) = spec_parse_records(bytes, p, base, i, count)->Ok_0;
            &&& p <= q <= bytes.len()
            &&& q <= usize::MAX
            &&& vs.len() == count - i
            &&& bytes.subrange(p, q) == spec_records_bytes(fetched_to_records(vs))
            &&& fields_fit(fetched_to_records(vs))
            &&& forall|j: int| 0 <= j < vs.len() ==> #[trigger] vs[j].offset == base + i + j
        }),
    decreases count - i,
{
    let (vs, q) = spec_parse_records(bytes, p, base, i, count)->Ok_0;
    if i == count {
        assert(vs =~= Seq::<FetchedView>::empty());
        assert(fetched_to_records(vs) =~= Seq::<RecordView>::empty());
        assert(bytes.subrange(p, q) =~= Seq::<u8>::empty());
        assert(spec_records_bytes(Seq::<RecordView>::empty()) =~= Seq::<u8>::empty());
    } else {
        let (r, p4) = spec_parse_record(bytes, p, base + i)->Ok_0;
        lemma_parsed_records_are_encoded(bytes, p4, base, i + 1, count);
        let (rest, q2) = spec_parse_records(bytes, p4, base, i + 1, count)->Ok_0;
        assert(vs == seq![r] + rest);
        assert(q2 == q);
        let kl = spec_u32_at(bytes, p);
        let vl = spec_u32_at(bytes, p + 4);
        lemma_u32_bytes_at(bytes, p);
        lemma_u32_bytes_at(bytes, p + 4);
        let x = RecordView { key: r.key, value: r.value };
        assert(r.key.len() == kl && r.value.len() == vl);
        assert(bytes.subrange(p, p4) =~= spec_record_bytes(x)) by {
            assert(bytes.subrange(p, p4) =~= bytes.subrange(p, p + 4) + bytes.subrange(p + 4, p + 8)
                + bytes.subrange(p + 8, p + 8 + kl) + bytes.subrange(p + 8 + kl, p4));
        }
        let xs = fetched_to_records(vs);
        let rest_xs = fetched_to_records(rest);
        assert(xs =~= seq![x] + rest_xs);
        lemma_records_bytes_cons(x, rest_xs);
        assert(bytes.subrange(p, q) =~= bytes.subrange(p, p4) + bytes.subrange(p4, q));
        assert(fields_fit(xs)) by {
            assert forall|j: int| 0 <= j < xs.len() implies #[trigger] xs[j].key.len() <= u32::MAX
                && xs[j].value.len() <= u32::MAX by {
                if j > 0 {
                    assert(xs[j] == rest_xs[j - 1]);
                }
            }
        }
        assert forall|j: int| 0 <= j < vs.len() implies #[trigger] vs[j].offset == base + i + j by {
            if j > 0 {
                assert(vs[j] == rest[j - 1]);
            }
        }
    }
}

/// A segment has one byte form: whatever decodes is exactly the encoding of
/// the records it decodes to, based at the offset stored in its header (the
/// first record's offset, when there is one). No input byte is ignored, and
/// `encode_segment` of those records at that offset gives the bytes back.
pub proof fn lemma_decoded_segment_is_canonical(bytes: Seq<u8>)
    requires
        spec_decode_segment(bytes) is Ok,
    ensures
        ({
            let vs = spec_decode_segment(bytes)->Ok_0;
            &&& bytes == spec_encode_segment(spec_u64_at(bytes, 8), fetched_to_records(vs))
            &&& vs.len() > 0 ==> vs[0].offset == spec_u64_at(bytes, 8)
            &&& segment_can_hold(spec_u64_at(bytes, 8), fetched_to_records(vs))
            &&& oversized_field(fetched_to_records(vs)) is None
        }),
{
    let vs = spec_decode_segment(bytes)->Ok_0;
    let base = spec_u64_at(bytes, 8);
    let count = spec_u32_at(bytes, 16) as int;
    let len = bytes.len() as int;
    assert(len >= 20);
    assert(bytes.subrange(0, 8) == segment_magic());
    let parsed = spec_parse_records(bytes, 20, base, 0, count);
    assert(parsed is Ok && parsed->Ok_0.0 == vs && parsed->Ok_0.1 == len);
    lemma_parsed_records_are_encoded(bytes, 20, base, 0, count);
    lemma_u32_bytes_at(bytes, 16);
    lemma_auto_spec_u64_to_from_le_bytes();
    assert(bytes.subrange(8, 16).len() == 8);
    assert(spec_u64_to_le_bytes(spec_u64_from_le_bytes(bytes.subrange(8, 16))) == bytes.subrange(
        8,
        16,
    ));
    let rs = fetched_to_records(vs);
    assert(rs.len() == count);
    assert(bytes.subrange(20, len) == spec_records_bytes(rs));
    assert(bytes =~= bytes.subrange(0, 8) + bytes.subrange(8, 16) + bytes.subrange(16, 20)
        + bytes.subrange(20, len));
    assert(bytes == spec_encode_segment(base, rs));
    if vs.len() > 0 {
        assert(vs[0].offset == base + 0 + 0);
        assert(vs[rs.len() - 1].offset == base + 0 + (rs.len() - 1));
    }
    assert(segment_can_hold(base, rs));
    lemma_fitting_fields_not_oversized(rs);
}

/// A batch whose keys and values all fit a u32 length has no oversized field.
pub proof fn lemma_fitting_fields_not_oversized(rs: Seq<RecordView>)
    requires
        fields_fit(rs),
    ensures
        oversized_field(rs) is None,
    decreases rs.len(),
{
    if rs.len() > 0 {
        let p = rs.drop_last();
        assert(fields_fit(p)) by {
            assert forall|i: int| 0 <= i < p.len() implies #[trigger] p[i].key.len() <= u32::MAX
                && p[i].value.len() <= u32::MAX by {
                assert(p[i] == rs[i]);
            }
        }
        lemma_fitting_fields_not_oversized(p);
        assert(rs.last() == rs[rs.len() - 1]);
    }
}

proof fn lemma_prefix_subrange(a: Seq<u8>, b: Seq<u8>, x: int, y: int)
    requires
        0 <= x <= y <= a.len() <= b.len(),
        b.subrange(0, a.len() as int) == a,
    ensures
        b.subrange(x, y) == a.subrange(x, y),
{
    assert forall|j: int| 0 <= j < y - x implies #[trigger] b.subrange(x, y)[j] == a.subrange(
        x,
        y,
    )[j] by {
        assert(b.subrange(0, a.len() as int)[x + j] == a[x + j]);
    }
    assert(b.subrange(x, y) =~= a.subrange(x, y));
}

proof fn lemma_parse_records_extends(
    a: Seq<u8>,
    b: Seq<u8>,
    p: int,
    base: u64,
    i: int,
    count: int,
)
    requires
        0 <= p <= a.len(),
        a.len() <= b.len() <= usize::MAX,
        b.subrange(0, a.len() as int) == a,
        spec_parse_records(a, p, base, i, count) is Ok,
    ensures
        spec_parse_records(b, p, base, i, count) == spec_parse_records(a, p, base, i, count),
    decreases count - i,
{
    if i < count {
        let (r, p4) = spec_parse_record(a, p, base + i)->Ok_0;
        let kl = spec_u32_at(a, p) as int;
        assert(p4 <= a.len());
        lemma_prefix_subrange(a, b, p, p + 4);
        lemma_prefix_subrange(a, b, p + 4, p + 8);
        lemma_prefix_subrange(a, b, p + 8, p + 8 + kl);
        lemma_prefix_subrange(a, b, p + 8 + kl, p4);
        assert(spec_parse_record(b, p, base + i) == spec_parse_record(a, p, base + i));
        lemma_parse_records_extends(a, b, p4, base, i + 1, count);
    }
}

/// Bytes after a whole segment are refused: a valid encoding followed by
/// anything more does not decode.
pub proof fn lemma_trailing_bytes_refused(base: u64, rs: Seq<RecordView>, extra: Seq<u8>)
    requires
        segment_can_hold(base, rs),
        extra.len() > 0,
        spec_encode_segment(base, rs).len() + extra.len() <= usize::MAX,
    ensures
        spec_decode_segment(spec_encode_segment(base, rs) + extra) == Err::<
            Seq<FetchedView>,
            SegmentFault,
        >(SegmentFault::TrailingBytes),
{
    let enc = spec_encode_segment(base, rs);
    let bytes = enc + extra;
    lemma_segment_round_trip(base, rs);
    lemma_decoded_segment_is_canonical(enc);
    assert(bytes.subrange(0, enc.len() as int) =~= enc);
    assert(bytes.subrange(0, 8) =~= enc.subrange(0, 8));
    assert(bytes.subrange(8, 16) =~= enc.subrange(8, 16));
    assert(bytes.subrange(16, 20) =~= enc.subrange(16, 20));
    let count = spec_u32_at(enc, 16) as int;
    lemma_parse_records_extends(enc, bytes, 20, base, 0, count);
}

/// A cut-short segment is never taken for a shorter list of records: no
/// proper prefix of a valid encoding decodes.
pub proof fn lemma_truncated_segment_refused(base: u64, rs: Seq<RecordView>, k: int)
    requires
        segment_can_hold(base, rs),
        0 <= k < spec_encode_segment(base, rs).len(),
    ensures
        spec_decode_segment(spec_encode_segment(base, rs).take(k)) is Err,
{
    let enc = spec_encode_segment(base, rs);
    let cut = enc.take(k);
    if spec_decode_segment(cut) is Ok {
        lemma_segment_round_trip(base, rs);
        lemma_decoded_segment_is_canonical(enc);
        assert(cut.subrange(8, 16) =~= enc.subrange(8, 16));
        assert(cut.subrange(16, 20) =~= enc.subrange(16, 20));
        assert(enc.subrange(0, cut.len() as int) =~= cut);
        let count = spec_u32_at(cut, 16) as int;
        lemma_parse_records_extends(cut, enc, 20, spec_u64_at(cut, 8), 0, count);
        assert(false);
    }
}

} // verus!
