//! The log engine: produce writes a batch as one immutable segment object
//! and commits it through the manifest; fetch finds the segment that holds
//! an offset and reads records back from it.
use crate::error::{LogError, Result};
use crate::ports::{ManifestStore, ObjectStore};
use crate::segment::{
    decode_segment, encode_segment, encode_sparse_index, fields_fit, lemma_segment_round_trip,
    oversized_field, segment_can_hold, spec_decode_segment, spec_encode_segment,
    spec_encode_sparse_index, stored_views,
};
use crate::text::{
    decimal, lemma_parse_zero_padded, lemma_zero_padded_u64_len, push_decimal, push_zero_padded,
    zero_padded,
};
use crate::types::{
    RecordView, fetched_views, record_views, FetchRequest, FetchResponse, FetchedRecord, FetchedView,
    PartitionState, ProduceRequest, ProduceResponse, SegmentMetadata, TopicConfig,
};
use vstd::prelude::*;
use vstd::string::*;

verus! {

/// The object key of the segment of `topic`/`partition_id` based at `base_offset`.
pub open spec fn segment_key_text(topic: Seq<char>, partition_id: u32, base_offset: u64) -> Seq<
    char,
> {
    "logs/topic="@ + topic + "/partition="@ + zero_padded(partition_id as nat, 6) + "/segment-"@
        + zero_padded(base_offset as nat, 20) + ".log"@
}

/// The object key of the sparse index of that segment.
pub open spec fn index_key_text(topic: Seq<char>, partition_id: u32, base_offset: u64) -> Seq<
    char,
> {
    "logs/topic="@ + topic + "/partition="@ + zero_padded(partition_id as nat, 6) + "/index-"@
        + zero_padded(base_offset as nat, 20) + ".idx"@
}

fn partition_prefix(topic: &str, partition_id: u32) -> (s: String)
    ensures
        s@ == "logs/topic="@ + topic@ + "/partition="@ + zero_padded(partition_id as nat, 6),
{
    let mut s = String::from_str("logs/topic=");
    s.append(topic);
    s.append("/partition=");
    push_zero_padded(&mut s, partition_id as u64, 6);
    s
}

/// The key under which the segment based at `base_offset` is stored.
fn segment_key(topic: &str, partition_id: u32, base_offset: u64) -> (key: String)
    ensures
        key@ == segment_key_text(topic@, partition_id, base_offset),
{
    let mut s = partition_prefix(topic, partition_id);
    s.append("/segment-");
    push_zero_padded(&mut s, base_offset, 20);
    s.append(".log");
    s
}

/// The key under which that segment's sparse index is stored.
fn index_key(topic: &str, partition_id: u32, base_offset: u64) -> (key: String)
    ensures
        key@ == index_key_text(topic@, partition_id, base_offset),
{
    let mut s = partition_prefix(topic, partition_id);
    s.append("/index-");
    push_zero_padded(&mut s, base_offset, 20);
    s.append(".idx");
    s
}

/// The message that refuses a partition a topic does not have.
pub open spec fn partition_outside_message(partition_id: u32, topic: Seq<char>, partitions: u32) -> Seq<
    char,
> {
    "partition "@ + decimal(partition_id as nat) + " is outside topic "@ + topic
        + " partition count "@ + decimal(partitions as nat)
}

/// Refuses a produce to a partition that `topic` does not have.
pub fn check_partition(request: &ProduceRequest, topic: &TopicConfig) -> (r: Result<()>)
    ensures
        request.partition_id < topic.partitions ==> r is Ok,
        request.partition_id >= topic.partitions ==> (r matches Err(LogError::InvalidArgument(m))
            && m@ == partition_outside_message(
            request.partition_id,
            request.topic@,
            topic.partitions,
        )),
{
    if request.partition_id >= topic.partitions {
        let mut m = String::from_str("partition ");
        push_decimal(&mut m, request.partition_id as u64);
        m.append(" is outside topic ");
        m.append(request.topic.as_str());
        m.append(" partition count ");
        push_decimal(&mut m, topic.partitions as u64);
        return Err(LogError::InvalidArgument(m));
    }
    Ok(())
}

/// Everything a produce writes: the two objects, the manifest entry, the
/// partition's next state, and the answer to the producer.
#[derive(Debug)]
pub struct ProducePlan {
    pub object_key: String,
    pub index_key: String,
    pub segment_bytes: Vec<u8>,
    pub index_bytes: Vec<u8>,
    pub segment: SegmentMetadata,
    pub next: PartitionState,
    pub response: ProduceResponse,
}

/// The message that refuses a batch whose offsets would run past u64.
pub open spec fn offsets_overflow_message() -> Seq<char> {
    "produce request would overflow the partition offsets"@
}

/// `plan` is what producing `request` onto a partition in state `current`
/// writes: the batch gets the offsets from `current.next_offset` on, and the
/// partition's next offset and high watermark move past its last record.
pub open spec fn is_produce_plan(
    plan: ProducePlan,
    request: ProduceRequest,
    current: PartitionState,
) -> bool {
    let base = current.next_offset;
    let n = request.records@.len();
    let last = base + n - 1;
    &&& n > 0
    &&& base + n <= u64::MAX
    &&& oversized_field(record_views(request.records@)) is None
    &&& plan.segment_bytes@.len() <= usize::MAX
    &&& plan.object_key@ == segment_key_text(request.topic@, request.partition_id, base)
    &&& plan.index_key@ == index_key_text(request.topic@, request.partition_id, base)
    &&& plan.segment_bytes@ == spec_encode_segment(base, record_views(request.records@))
    &&& plan.index_bytes@ == spec_encode_sparse_index(base, 0)
    &&& plan.segment.topic@ == request.topic@
    &&& plan.segment.partition_id == request.partition_id
    &&& plan.segment.start_offset == base
    &&& plan.segment.end_offset == last
    &&& plan.segment.object_key@ == plan.object_key@
    &&& plan.segment.index_key@ == plan.index_key@
    &&& plan.segment.size_bytes == plan.segment_bytes@.len()
    &&& plan.segment.record_count == n
    &&& plan.next.topic@ == current.topic@
    &&& plan.next.partition_id == current.partition_id
    &&& plan.next.log_start_offset == current.log_start_offset
    &&& plan.next.high_watermark == last + 1
    &&& plan.next.next_offset == last + 1
    &&& plan.response.topic@ == request.topic@
    &&& plan.response.partition_id == request.partition_id
    &&& plan.response.base_offset == base
    &&& plan.response.last_offset == last
}

/// Plans the produce of a non-empty batch onto a partition in state
/// `current`. A batch whose offsets would run past u64, or that holds a key
/// or value longer than a u32 can count, is refused.
#[verifier::spinoff_prover]
pub fn plan_segment(request: &ProduceRequest, current: &PartitionState) -> (r: Result<ProducePlan>)
    requires
        request.records@.len() > 0,
    ensures
        current.next_offset + request.records@.len() > u64::MAX ==> (r matches Err(
            LogError::InvalidArgument(m),
        ) && m@ == offsets_overflow_message()),
        current.next_offset + request.records@.len() <= u64::MAX ==> match oversized_field(
            record_views(request.records@),
        ) {
            Some(field) => r matches Err(LogError::InvalidArgument(m)) && m@ == field
                + " is too large"@,
            None => r matches Ok(plan) && is_produce_plan(plan, *request, *current),
        },
{
    let count = request.records.len() as u64;
    let base_offset = current.next_offset;
    if count > u64::MAX - base_offset {
        return Err(LogError::invalid_argument("produce request would overflow the partition offsets"));
    }
    let last_offset = base_offset + count - 1;
    let object_key = segment_key(request.topic.as_str(), request.partition_id, base_offset);
    let index_key = index_key(request.topic.as_str(), request.partition_id, base_offset);
    let segment_bytes = match encode_segment(base_offset, request.records.as_slice()) {
        Ok(bytes) => bytes,
        Err(e) => return Err(e),
    };
    let index_bytes = encode_sparse_index(base_offset, 0);
    let segment = SegmentMetadata {
        topic: request.topic.clone(),
        partition_id: request.partition_id,
        start_offset: base_offset,
        end_offset: last_offset,
        object_key: object_key.clone(),
        index_key: index_key.clone(),
        size_bytes: segment_bytes.len() as u64,
        record_count: count,
    };
    let next = PartitionState {
        topic: current.topic.clone(),
        partition_id: current.partition_id,
        log_start_offset: current.log_start_offset,
        high_watermark: last_offset + 1,
        next_offset: last_offset + 1,
    };
    let response = ProduceResponse {
        topic: request.topic.clone(),
        partition_id: request.partition_id,
        base_offset,
        last_offset,
    };
    Ok(ProducePlan { object_key, index_key, segment_bytes, index_bytes, segment, next, response })
}

/// Holds of the records at `offset` or later.
pub open spec fn at_or_after(offset: u64) -> spec_fn(FetchedView) -> bool {
    |r: FetchedView| r.offset >= offset
}

/// The records of a segment a fetch from `offset` returns: those at
/// `offset` or later, at most `max` of them, in order.
pub open spec fn select_records(rs: Seq<FetchedView>, offset: u64, max: nat) -> Seq<FetchedView> {
    let kept = rs.filter(at_or_after(offset));
    if kept.len() <= max {
        kept
    } else {
        kept.take(max as int)
    }
}

/// Keeps the records at `offset` or later, at most `max_records` of them.
#[verifier::spinoff_prover]
pub fn select_from(records: Vec<FetchedRecord>, offset: u64, max_records: usize) -> (out: Vec<
    FetchedRecord,
>)
    ensures
        fetched_views(out@) == select_records(fetched_views(records@), offset, max_records as nat),
{
    let ghost all = fetched_views(records@);
    let ghost pred = at_or_after(offset);
    let mut out: Vec<FetchedRecord> = Vec::new();
    let mut kept: usize = 0;
    for record in it: records.into_iter()
        invariant
            it.seq() == records@,
            all == fetched_views(records@),
            pred == at_or_after(offset),
            kept == out@.len(),
            fetched_views(out@) == select_records(
                all.take(it.index() as int),
                offset,
                max_records as nat,
            ),
    {
        let ghost i = it.index() as int;
        let ghost before = fetched_views(out@);
        let ghost k = all.take(i).filter(pred);
        proof {
            assert(all.take(i + 1) =~= all.take(i).push(record@));
            all.take(i).lemma_filter_push(record@, pred);

            assert(all.take(i + 1).filter(pred) == if pred(record@) {
                k.push(record@)
            } else {
                k
            });
        }
        proof {
            assert(before.len() == kept);
            if k.len() > max_records {
                assert(before.len() == max_records);
            }
        }
        if record.offset >= offset && kept < max_records {
            assert(k.len() < max_records);
            out.push(record);
            kept = kept + 1;
            assert(fetched_views(out@) =~= before.push(record@));
        } else {
            assert(fetched_views(out@) =~= before);
            proof {
                if record.offset >= offset {
                    assert(k.len() >= max_records);
                    assert(k.push(record@).take(max_records as int) =~= k.take(
                        max_records as int,
                    ));
                    if k.len() == max_records {
                        assert(k.take(max_records as int) =~= k);
                    }
                }
            }
        }
    }
    proof {
        assert(all.take(records@.len() as int) =~= all);
    }
    out
}

proof fn lemma_no_oversized_fits(rs: Seq<RecordView>)
    requires
        oversized_field(rs) is None,
    ensures
        fields_fit(rs),
    decreases rs.len(),
{
    if rs.len() > 0 {
        let p = rs.drop_last();
        lemma_no_oversized_fits(p);
        assert forall|i: int| 0 <= i < rs.len() implies #[trigger] rs[i].key.len() <= u32::MAX
            && rs[i].value.len() <= u32::MAX by {
            if i < p.len() {
                assert(rs[i] == p[i]);
            }
        }
    }
}

proof fn lemma_filter_stored(rs: Seq<RecordView>, base: int, offset: u64, k: int)
    requires
        0 <= k <= rs.len(),
        0 <= base,
        base + rs.len() <= u64::MAX + 1,
        base <= offset,
    ensures
        stored_views(rs, base).take(k).filter(at_or_after(offset)) == stored_views(rs, base).subrange(
            if offset - base < k {
                offset - base
            } else {
                k
            },
            k,
        ),
    decreases k,
{
    let all = stored_views(rs, base);
    let p = at_or_after(offset);
    if k == 0 {
        reveal(Seq::filter);
        assert(all.take(0) =~= Seq::<FetchedView>::empty());
        assert(all.subrange(0, 0) =~= Seq::<FetchedView>::empty());
    } else {
        lemma_filter_stored(rs, base, offset, k - 1);
        assert(all.take(k) =~= all.take(k - 1).push(all[k - 1]));
        all.take(k - 1).lemma_filter_push(all[k - 1], p);
        assert(all[k - 1].offset == base + k - 1);
        if offset - base < k {
            if offset - base < k - 1 {
                assert(all.subrange(offset - base, k - 1).push(all[k - 1]) =~= all.subrange(
                    offset - base,
                    k,
                ));
            } else {
                assert(all.subrange(k - 1, k - 1).push(all[k - 1]) =~= all.subrange(k - 1, k));
            }
        } else {
            assert(all.subrange(k - 1, k - 1) =~= all.subrange(k, k));
        }
    }
}

/// What a produce writes, a fetch reads back: the segment of a produce plan
/// decodes to the batch, the record at index `i` with offset `base + i`, and a
/// fetch from any offset the segment's manifest entry covers returns the
/// batch's records from that offset on, at most `max` of them. (A batch of
/// more than `u32::MAX` records is left out: the count field keeps only the
/// low 32 bits of its length.)
#[verifier::spinoff_prover]
pub proof fn lemma_produce_then_fetch(
    plan: ProducePlan,
    request: ProduceRequest,
    current: PartitionState,
    offset: u64,
    max: nat,
)
    requires
        is_produce_plan(plan, request, current),
        request.records@.len() <= u32::MAX,
        plan.segment.start_offset <= offset <= plan.segment.end_offset,
    ensures
        spec_decode_segment(plan.segment_bytes@) == Ok::<Seq<FetchedView>, crate::segment::SegmentFault>(
            stored_views(record_views(request.records@), current.next_offset as int),
        ),
        ({
            let stored = stored_views(record_views(request.records@), current.next_offset as int);
            let from = offset - current.next_offset;
            let rest = stored.subrange(from, stored.len() as int);
            select_records(stored, offset, max) == if rest.len() <= max {
                rest
            } else {
                rest.take(max as int)
            }
        }),
{
    let rs = record_views(request.records@);
    let base = current.next_offset;
    lemma_no_oversized_fits(rs);
    assert(segment_can_hold(base, rs));
    lemma_segment_round_trip(base, rs);
    let stored = stored_views(rs, base as int);
    lemma_filter_stored(rs, base as int, offset, rs.len() as int);
    assert(stored.take(rs.len() as int) =~= stored);
}

/// A fetch never returns more than it was asked for, nor a record before the
/// offset it was asked from.
pub proof fn lemma_select_bounds(rs: Seq<FetchedView>, offset: u64, max: nat)
    ensures
        select_records(rs, offset, max).len() <= max,
        forall|i: int|
            0 <= i < select_records(rs, offset, max).len() ==> #[trigger] select_records(
                rs,
                offset,
                max,
            )[i].offset >= offset,
{
    let kept = rs.filter(at_or_after(offset));
    assert forall|i: int| 0 <= i < kept.len() implies #[trigger] kept[i].offset >= offset by {
        rs.lemma_filter_pred(at_or_after(offset), i);
    }
}

/// Every batch of a partition is stored under its own keys: segments (and
/// sparse indexes) of the same partition based at different offsets never
/// share a key, so `put_if_absent` never meets an earlier batch's object.
#[verifier::spinoff_prover]
pub proof fn lemma_keys_distinct(topic: Seq<char>, partition_id: u32, a: u64, b: u64)
    requires
        a != b,
    ensures
        segment_key_text(topic, partition_id, a) != segment_key_text(topic, partition_id, b),
        index_key_text(topic, partition_id, a) != index_key_text(topic, partition_id, b),
{
    let prefix = "logs/topic="@ + topic + "/partition="@ + zero_padded(partition_id as nat, 6);
    let pa = zero_padded(a as nat, 20);
    let pb = zero_padded(b as nat, 20);
    lemma_zero_padded_u64_len(a as nat);
    lemma_zero_padded_u64_len(b as nat);
    lemma_parse_zero_padded(a as nat, 20, u64::MAX as nat);
    lemma_parse_zero_padded(b as nat, 20, u64::MAX as nat);
    reveal_strlit("/segment-");
    reveal_strlit("/index-");
    let start_seg: int = prefix.len() as int + 9;
    let start_idx: int = prefix.len() as int + 7;
    let ka = segment_key_text(topic, partition_id, a);
    let kb = segment_key_text(topic, partition_id, b);
    assert(ka =~= prefix + "/segment-"@ + pa + ".log"@);
    assert(kb =~= prefix + "/segment-"@ + pb + ".log"@);
    assert(ka.subrange(start_seg, start_seg + 20) =~= pa);
    assert(kb.subrange(start_seg, start_seg + 20) =~= pb);
    let ia = index_key_text(topic, partition_id, a);
    let ib = index_key_text(topic, partition_id, b);
    assert(ia =~= prefix + "/index-"@ + pa + ".idx"@);
    assert(ib =~= prefix + "/index-"@ + pb + ".idx"@);
    assert(ia.subrange(start_idx, start_idx + 20) =~= pa);
    assert(ib.subrange(start_idx, start_idx + 20) =~= pb);
}

/// The configuration a new topic is created with: the name `name.into()`
/// gives, and `partitions` partitions.
pub fn topic_config<N: Into<String>>(name: N, partitions: u32) -> (c: TopicConfig)
    ensures
        call_ensures(N::into, (name,), c.name),
        c.partitions == partitions,
{
    TopicConfig { name: name.into(), partitions }
}

/// Offsets continue across produces: a batch planned on the state the
/// previous batch left starts right after that batch's last record, and the
/// partition's next offset and high watermark move past the new batch; the
/// partition's topic, id and start offset stay as they were.
pub proof fn lemma_offsets_continue(
    first: ProducePlan,
    first_request: ProduceRequest,
    start: PartitionState,
    second: ProducePlan,
    second_request: ProduceRequest,
)
    requires
        is_produce_plan(first, first_request, start),
        is_produce_plan(second, second_request, first.next),
    ensures
        second.response.base_offset == first.response.last_offset + 1,
        second.response.last_offset == first.response.last_offset + second_request.records@.len(),
        second.next.next_offset == second.response.last_offset + 1,
        second.next.high_watermark == second.next.next_offset,
        second.next@.topic == start@.topic,
        second.next.partition_id == start.partition_id,
        second.next.log_start_offset == start.log_start_offset,
{
}

/// A topic creation handed the manifest store a configuration named by
/// `name.into()` with exactly `partitions` partitions, and answers with the
/// store's answer `r`.
pub open spec fn created_through<M: ManifestStore, N: Into<String>>(
    manifests: M,
    name: N,
    partitions: u32,
    r: Result<()>,
) -> bool {
    exists|c: TopicConfig|
        #[trigger] call_ensures(M::create_topic, (&manifests, c), r) && c.partitions == partitions
            && call_ensures(N::into, (name,), c.name)
}

/// A produce of `request` that answered `response` went through the stores
/// as planned: the manifest gave the topic (which has the partition) and
/// the partition's state `current`; `plan` is the plan for that state; the
/// segment and its index were stored under the plan's keys; and the manifest
/// accepted the commit of the plan's entry and next state against `current`.
pub open spec fn produce_wrote<O: ObjectStore, M: ManifestStore>(
    objects: O,
    manifests: M,
    request: ProduceRequest,
    response: ProduceResponse,
    current: PartitionState,
    plan: ProducePlan,
) -> bool {
    &&& is_produce_plan(plan, request, current)
    &&& response == plan.response
    &&& exists|topic: &str, config: TopicConfig|
        #![trigger call_ensures(M::topic, (&manifests, topic), Ok::<TopicConfig, LogError>(config))]
        call_ensures(M::topic, (&manifests, topic), Ok::<TopicConfig, LogError>(config))
            && topic@ == request.topic@ && request.partition_id < config.partitions
            && call_ensures(
            M::partition_state,
            (&manifests, topic, request.partition_id),
            Ok::<PartitionState, LogError>(current),
        )
    &&& exists|key: &str, bytes: &[u8], answer: Result<()>|
        #[trigger] call_ensures(O::put_if_absent, (&objects, key, bytes), answer) && answer is Ok
            && key@ == plan.object_key@ && bytes@ == plan.segment_bytes@
    &&& exists|key: &str, bytes: &[u8], answer: Result<()>|
        #[trigger] call_ensures(O::put_if_absent, (&objects, key, bytes), answer) && answer is Ok
            && key@ == plan.index_key@ && bytes@ == plan.index_bytes@
    &&& exists|answer: Result<()>|
        #[trigger] call_ensures(
            M::commit_segment,
            (&manifests, &current, &plan.next, plan.segment),
            answer,
        ) && answer is Ok
}

/// A produce of `request` answered `response` after going through the
/// stores as planned, for some partition state and plan.
pub open spec fn produced_through<O: ObjectStore, M: ManifestStore>(
    objects: O,
    manifests: M,
    request: ProduceRequest,
    response: ProduceResponse,
) -> bool {
    exists|current: PartitionState, plan: ProducePlan|
        #[trigger] produce_wrote(objects, manifests, request, response, current, plan)
}

/// A fetch of `request` answered `response` out of a segment the manifest
/// found and the bytes the object store held for it.
pub open spec fn fetched_through<O: ObjectStore, M: ManifestStore>(
    objects: O,
    manifests: M,
    request: FetchRequest,
    response: FetchResponse,
) -> bool {
    exists|segment: SegmentMetadata, bytes: Vec<u8>|
        #[trigger] fetch_read(objects, manifests, request, response, segment, bytes)
}

/// A fetch of `request` that answered `response` read the stores: the
/// manifest found `segment` for the partition and offset, the object store
/// gave `bytes` under that segment's object key, and the response holds the
/// records those bytes decode to at or after the offset, at most
/// `max_records` of them.
pub open spec fn fetch_read<O: ObjectStore, M: ManifestStore>(
    objects: O,
    manifests: M,
    request: FetchRequest,
    response: FetchResponse,
    segment: SegmentMetadata,
    bytes: Vec<u8>,
) -> bool {
    &&& response.topic@ == request.topic@
    &&& response.partition_id == request.partition_id
    &&& exists|topic: &str|
        #[trigger] call_ensures(
            M::find_segment,
            (&manifests, topic, request.partition_id, request.offset),
            Ok::<SegmentMetadata, LogError>(segment),
        ) && topic@ == request.topic@
    &&& exists|key: &str|
        #[trigger] call_ensures(O::get, (&objects, key), Ok::<Vec<u8>, LogError>(bytes))
            && key@ == segment.object_key@
    &&& spec_decode_segment(bytes@) matches Ok(rs) && fetched_views(response.records@)
        == select_records(rs, request.offset, request.max_records as nat)
}

/// A fetch answers with the records of the object the manifest pointed it
/// to: when that object holds a batch encoded from offset `base`, a fetch
/// from `base` with a limit no smaller than the batch returns the whole
/// batch, the record at index `i` with offset `base + i`.
pub proof fn lemma_fetch_reads_whole_batch<O: ObjectStore, M: ManifestStore>(
    objects: O,
    manifests: M,
    request: FetchRequest,
    response: FetchResponse,
    segment: SegmentMetadata,
    bytes: Vec<u8>,
    base: u64,
    batch: Seq<RecordView>,
)
    requires
        fetch_read(objects, manifests, request, response, segment, bytes),
        bytes@ == spec_encode_segment(base, batch),
        segment_can_hold(base, batch),
        request.offset == base,
        request.max_records >= batch.len(),
    ensures
        fetched_views(response.records@) == stored_views(batch, base as int),
        response.records@.len() == batch.len(),
{
    lemma_segment_round_trip(base, batch);
    let stored = stored_views(batch, base as int);
    lemma_filter_stored(batch, base as int, base, batch.len() as int);
    assert(stored.take(batch.len() as int) =~= stored);
    assert(stored.subrange(0, batch.len() as int) =~= stored);
    if batch.len() == 0 {
        assert(stored.subrange(batch.len() as int, batch.len() as int) =~= stored);
    }
}

/// The produce of `request` answered `response` having read the partition
/// state `current` from the manifest (for the topic named `topic`), stored
/// the batch's segment object under the entry's key, and committed `next`
/// and `entry` against `current`, where `next` puts the partition's next
/// offset and high watermark right after the batch's last record and
/// `entry` covers exactly the batch's offsets.
pub open spec fn committed_advance<O: ObjectStore, M: ManifestStore>(
    objects: O,
    manifests: M,
    request: ProduceRequest,
    response: ProduceResponse,
    topic: &str,
    current: PartitionState,
    next: PartitionState,
    entry: SegmentMetadata,
) -> bool {
    &&& topic@ == request.topic@
    &&& call_ensures(
        M::partition_state,
        (&manifests, topic, request.partition_id),
        Ok::<PartitionState, LogError>(current),
    )
    &&& exists|answer: Result<()>|
        #[trigger] call_ensures(M::commit_segment, (&manifests, &current, &next, entry), answer)
            && answer is Ok
    &&& response.base_offset == current.next_offset
    &&& response.last_offset + 1 == current.next_offset + request.records@.len()
    &&& next.next_offset == response.last_offset + 1
    &&& next.high_watermark == response.last_offset + 1
    &&& next@.topic == current@.topic
    &&& next.partition_id == current.partition_id
    &&& next.log_start_offset == current.log_start_offset
    &&& entry.start_offset == response.base_offset
    &&& entry.end_offset == response.last_offset
    &&& entry.record_count == request.records@.len()
    &&& exists|key: &str, bytes: &[u8], answer: Result<()>|
        #[trigger] call_ensures(O::put_if_absent, (&objects, key, bytes), answer) && answer is Ok
            && key@ == entry.object_key@ && bytes@ == spec_encode_segment(
            response.base_offset,
            record_views(request.records@),
        )
}

/// A produce that succeeded committed, against the partition state the
/// manifest gave it, a next state whose offset and high watermark both sit
/// right after the batch's last record; the batch starts at that state's
/// next offset, and the manifest entry and the stored segment object cover
/// exactly the batch's offsets.
pub proof fn lemma_produce_commits_advanced_state<O: ObjectStore, M: ManifestStore>(
    objects: O,
    manifests: M,
    request: ProduceRequest,
    response: ProduceResponse,
)
    requires
        produced_through(objects, manifests, request, response),
    ensures
        exists|topic: &str, current: PartitionState, next: PartitionState, entry: SegmentMetadata|
            #[trigger] committed_advance(
                objects,
                manifests,
                request,
                response,
                topic,
                current,
                next,
                entry,
            ),
{
    let (current, plan) = choose|current: PartitionState, plan: ProducePlan|
        #[trigger] produce_wrote(objects, manifests, request, response, current, plan);
    let (topic, config) = choose|topic: &str, config: TopicConfig|
        #![trigger call_ensures(M::topic, (&manifests, topic), Ok::<TopicConfig, LogError>(config))]
        call_ensures(M::topic, (&manifests, topic), Ok::<TopicConfig, LogError>(config))
            && topic@ == request.topic@ && request.partition_id < config.partitions
            && call_ensures(
            M::partition_state,
            (&manifests, topic, request.partition_id),
            Ok::<PartitionState, LogError>(current),
        );
    assert(committed_advance(
        objects,
        manifests,
        request,
        response,
        topic,
        current,
        plan.next,
        plan.segment,
    ));
}

/// What a produce wrote, a fetch through the same stores reads back: when
/// the manifest finds the entry the produce committed and the object store
/// hands back the bytes the produce stored, a fetch from the batch's base
/// offset with a limit no smaller than the batch returns the whole batch.
/// (A batch of more than `u32::MAX` records is left out: the count field
/// keeps only the low 32 bits of its length.)
pub proof fn lemma_produce_then_fetch_through_stores<O: ObjectStore, M: ManifestStore>(
    objects: O,
    manifests: M,
    produced: ProduceRequest,
    answer: ProduceResponse,
    current: PartitionState,
    plan: ProducePlan,
    request: FetchRequest,
    response: FetchResponse,
    segment: SegmentMetadata,
    bytes: Vec<u8>,
)
    requires
        produce_wrote(objects, manifests, produced, answer, current, plan),
        fetch_read(objects, manifests, request, response, segment, bytes),
        segment@ == plan.segment@,
        bytes@ == plan.segment_bytes@,
        produced.records@.len() <= u32::MAX,
        request.offset == answer.base_offset,
        request.max_records >= produced.records@.len(),
    ensures
        fetched_views(response.records@) == stored_views(
            record_views(produced.records@),
            answer.base_offset as int,
        ),
{
    let rs = record_views(produced.records@);
    lemma_no_oversized_fits(rs);
    assert(segment_can_hold(current.next_offset, rs));
    lemma_fetch_reads_whole_batch(
        objects,
        manifests,
        request,
        response,
        segment,
        bytes,
        current.next_offset,
        rs,
    );
}

/// The manifest store is handed the partition count as given: when the
/// store accepts exactly the configurations with `k` partitions, creating a
/// topic succeeds exactly when it asks for `k` partitions.
pub proof fn lemma_create_topic_hands_count<M: ManifestStore, N: Into<String>>(
    manifests: M,
    name: N,
    partitions: u32,
    r: Result<()>,
    k: u32,
)
    requires
        partitions > 0,
        created_through(manifests, name, partitions, r),
        forall|c: TopicConfig, x: Result<()>|
            #[trigger] call_ensures(M::create_topic, (&manifests, c), x) ==> (x is Ok <==> c.partitions
                == k),
    ensures
        r is Ok <==> partitions == k,
{
    let c = choose|c: TopicConfig|
        #[trigger] call_ensures(M::create_topic, (&manifests, c), r) && c.partitions == partitions
            && call_ensures(N::into, (name,), c.name);
    assert(call_ensures(M::create_topic, (&manifests, c), r));
}

/// A log engine over an object store and a manifest store.
pub struct LogEngine<O, M> {
    objects: O,
    manifests: M,
}

impl<O: ObjectStore, M: ManifestStore> LogEngine<O, M> {
    /// The object store the engine writes segments to.
    pub closed spec fn object_store(&self) -> O {
        self.objects
    }

    /// The manifest store the engine commits segments through.
    pub closed spec fn manifest_store(&self) -> M {
        self.manifests
    }

    /// An engine over `objects` and `manifests`.
    pub fn new(objects: O, manifests: M) -> (engine: Self)
        ensures
            engine.object_store() == objects,
            engine.manifest_store() == manifests,
    {
        LogEngine { objects, manifests }
    }

    /// Creates a topic with `partitions` partitions; a topic needs at least one.
    pub fn create_topic<N: Into<String>>(&self, name: N, partitions: u32) -> (r: Result<()>)
        ensures
            partitions == 0 ==> (r matches Err(LogError::InvalidArgument(m)) && m@
                == "topic must have at least one partition"@),
            r is Ok ==> partitions > 0,
            partitions > 0 ==> created_through(self.manifest_store(), name, partitions, r),
    {
        if partitions == 0 {
            return Err(LogError::invalid_argument("topic must have at least one partition"));
        }
        let config = topic_config(name, partitions);
        let ghost handed = config;
        let r = self.manifests.create_topic(config);
        assert(call_ensures(M::create_topic, (&self.manifest_store(), handed), r));
        r
    }

    /// Appends a batch of records to a partition as one new segment and
    /// answers with the offsets the batch was given.
    pub fn produce(&self, request: ProduceRequest) -> (r: Result<ProduceResponse>)
        ensures
            request.records@.len() == 0 ==> (r matches Err(LogError::InvalidArgument(m)) && m@
                == "produce request must include at least one record"@),
            r matches Ok(response) ==> exists|current: PartitionState, plan: ProducePlan|
                is_produce_plan(plan, request, current) && response == plan.response,
            r matches Ok(response) ==> produced_through(
                self.object_store(),
                self.manifest_store(),
                request,
                response,
            ),
    {
        let ghost asked = request;
        if request.records.len() == 0 {
            return Err(
                LogError::invalid_argument("produce request must include at least one record"),
            );
        }
        let t = request.topic.as_str();
        let looked_up = self.manifests.topic(t);
        let ghost looked = looked_up;
        let topic = match looked_up {
            Ok(topic) => topic,
            Err(e) => return Err(e),
        };
        match check_partition(&request, &topic) {
            Ok(()) => {},
            Err(e) => return Err(e),
        }
        let state_answer = self.manifests.partition_state(t, request.partition_id);
        let ghost stated = state_answer;
        let current = match state_answer {
            Ok(state) => state,
            Err(e) => return Err(e),
        };
        let plan = match plan_segment(&request, &current) {
            Ok(plan) => plan,
            Err(e) => return Err(e),
        };
        let ghost planned = plan;
        let object_key = plan.object_key.as_str();
        let segment_bytes = plan.segment_bytes.as_slice();
        let put_segment = self.objects.put_if_absent(object_key, segment_bytes);
        let ghost segment_put = put_segment;
        match put_segment {
            Ok(()) => {
                assert(segment_put is Ok);
            },
            Err(e) => return Err(e),
        }
        let index_key = plan.index_key.as_str();
        let index_bytes = plan.index_bytes.as_slice();
        let put_index = self.objects.put_if_absent(index_key, index_bytes);
        let ghost index_put = put_index;
        match put_index {
            Ok(()) => {
                assert(index_put is Ok);
            },
            Err(e) => return Err(e),
        }
        let committed = self.manifests.commit_segment(&current, &plan.next, plan.segment);
        let ghost commit_answer = committed;
        match committed {
            Ok(()) => {
                assert(commit_answer is Ok);
            },
            Err(e) => return Err(e),
        }
        proof {
            assert(call_ensures(M::topic, (&self.manifest_store(), t), looked));
            assert(call_ensures(
                M::partition_state,
                (&self.manifest_store(), t, request.partition_id),
                stated,
            ));
            assert(call_ensures(
                O::put_if_absent,
                (&self.object_store(), object_key, segment_bytes),
                segment_put,
            ));
            assert(call_ensures(
                O::put_if_absent,
                (&self.object_store(), index_key, index_bytes),
                index_put,
            ));
            assert(call_ensures(
                M::commit_segment,
                (&self.manifest_store(), &current, &planned.next, planned.segment),
                commit_answer,
            ));
            assert(is_produce_plan(planned, asked, current));
            assert(looked is Ok);
            assert(request.partition_id < looked->Ok_0.partitions);
            assert(exists|topic: &str, config: TopicConfig|
                #![trigger call_ensures(M::topic, (&self.manifest_store(), topic), Ok::<TopicConfig, LogError>(config))]
                call_ensures(M::topic, (&self.manifest_store(), topic), Ok::<TopicConfig, LogError>(config))
                    && topic@ == request.topic@ && request.partition_id < config.partitions
                    && call_ensures(
                    M::partition_state,
                    (&self.manifest_store(), topic, request.partition_id),
                    Ok::<PartitionState, LogError>(current),
                ));
            assert(object_key@ == planned.object_key@ && segment_bytes@ == planned.segment_bytes@);
            assert(index_key@ == planned.index_key@ && index_bytes@ == planned.index_bytes@);
            assert(produce_wrote(
                self.object_store(),
                self.manifest_store(),
                asked,
                planned.response,
                current,
                planned,
            ));
        }
        assert(produced_through(self.object_store(), self.manifest_store(), request, planned.response));
        assert(plan.response == planned.response);
        Ok(plan.response)
    }

    /// Reads at most `max_records` records of a partition from `offset` on,
    /// out of the segment that holds `offset`.
    pub fn fetch(&self, request: FetchRequest) -> (r: Result<FetchResponse>)
        ensures
            request.max_records == 0 ==> (r matches Err(LogError::InvalidArgument(m)) && m@
                == "fetch max_records must be greater than zero"@),
            r matches Ok(response) ==> {
                &&& response.topic@ == request.topic@
                &&& response.partition_id == request.partition_id
                &&& exists|bytes: Seq<u8>|
                    #[trigger] spec_decode_segment(bytes) matches Ok(rs) && fetched_views(response.records@)
                        == select_records(rs, request.offset, request.max_records as nat)
            },
            r matches Ok(response) ==> fetched_through(
                self.object_store(),
                self.manifest_store(),
                request,
                response,
            ),
    {
        let ghost asked = request;
        if request.max_records == 0 {
            return Err(LogError::invalid_argument("fetch max_records must be greater than zero"));
        }
        let t = request.topic.as_str();
        let found = self.manifests.find_segment(t, request.partition_id, request.offset);
        let ghost found_answer = found;
        let segment = match found {
            Ok(segment) => segment,
            Err(e) => return Err(e),
        };
        let key = segment.object_key.as_str();
        let got = self.objects.get(key);
        let ghost got_answer = got;
        let bytes = match got {
            Ok(bytes) => bytes,
            Err(e) => return Err(e),
        };
        let decoded = match decode_segment(bytes.as_slice()) {
            Ok(records) => records,
            Err(e) => return Err(e),
        };
        let ghost rs = fetched_views(decoded@);
        let records = select_from(decoded, request.offset, request.max_records);
        assert(spec_decode_segment(bytes@) matches Ok(d) && d == rs);
        proof {
            assert(call_ensures(
                M::find_segment,
                (&self.manifest_store(), t, request.partition_id, request.offset),
                found_answer,
            ));
            assert(call_ensures(O::get, (&self.object_store(), key), got_answer));
        }
        let response = FetchResponse {
            topic: request.topic,
            partition_id: request.partition_id,
            records,
        };
        assert(fetch_read(
            self.object_store(),
            self.manifest_store(),
            request,
            response,
            segment,
            bytes,
        ));
        assert(exists|s: SegmentMetadata, b: Vec<u8>|
            #[trigger] fetch_read(
                self.object_store(),
                self.manifest_store(),
                asked,
                response,
                s,
                b,
            ));
        Ok(response)
    }
}

} // verus!
