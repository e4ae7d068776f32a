//! Requests between nodes: moving streams from shard to shard.
//!
//! These name their shard: while a stream is drained, its route already leads to
//! where it goes.

use vstd::prelude::*;

use crate::append::{
    AppendOutcome, ExpectedVersion, NewEvent, bad_event_id, proto_to_expected_version,
};
use crate::event::{Hlc, StoredEvent, show, shows};
use crate::ids::{big_endian, parse_id};
use crate::ownership::{
    ChangeReceipt, OwnerMatch, OwnershipApply, OwnershipChange, OwnershipError, error_status,
};
use crate::read::{ReadEventsResponse, StreamMeta, not_here, shard_not_here};
use crate::route_table::{ProtoRouteTable, RouteTable, table_to_proto, writes_table};
use crate::rpc_support::{WriteError, client_write_to_status, write_failure};
use crate::status::{Code, Status, StatusView, says};
use crate::text::{decimal_wide, join2, join3};

verus! {

/// Most events in one message of a stream that is read in pieces.
pub const CHUNK: usize = 200;

/// Asks to give a stream to a shard.
#[derive(Debug)]
pub struct SetStreamShardRequest {
    pub stream_id: String,
    pub shard_id: u64,
    pub expected_shard_id: u64,
    pub expected_generation: u64,
    pub operation_id: Vec<u8>,
}

/// What is wrong with a request to move a stream.
pub open spec fn move_fault(req: SetStreamShardRequest) -> Option<StatusView> {
    if req.stream_id@.len() == 0 {
        Some(says(Code::InvalidArgument, "stream_id 不能为空"@))
    } else if req.operation_id@.len() != 16 {
        Some(says(Code::InvalidArgument, "operation_id 必须是 16 字节 UUID"@))
    } else {
        None
    }
}

/// Reads a request to move a stream.  Generation 0 stands for a stream without an
/// owner, which is adopted; any other is the owner that the caller saw.
pub fn move_change(req: SetStreamShardRequest) -> (r: Result<OwnershipChange, Status>)
    ensures
        match r {
            Ok(change) => move_fault(req) is None && if req.expected_generation == 0 {
                change == (OwnershipChange::AdoptOrphan {
                    stream: req.stream_id,
                    source_shard: req.expected_shard_id,
                    target_shard: req.shard_id,
                })
            } else {
                change == (OwnershipChange::Move {
                    stream: req.stream_id,
                    expected: OwnerMatch {
                        shard_id: req.expected_shard_id,
                        generation: req.expected_generation,
                    },
                    target_shard: req.shard_id,
                    operation_id: big_endian(req.operation_id@) as u128,
                })
            },
            Err(s) => move_fault(req) == Some(s@),
        },
{
    if req.stream_id.as_str().is_empty() {
        return Err(Status::of(Code::InvalidArgument, "stream_id 不能为空"));
    }
    let operation_id: u128 = match parse_id(&req.operation_id) {
        Some(id) => id,
        None => return Err(Status::of(Code::InvalidArgument, "operation_id 必须是 16 字节 UUID")),
    };
    if req.expected_generation == 0 {
        return Ok(
            OwnershipChange::AdoptOrphan {
                stream: req.stream_id,
                source_shard: req.expected_shard_id,
                target_shard: req.shard_id,
            },
        );
    }
    Ok(
        OwnershipChange::Move {
            stream: req.stream_id,
            expected: OwnerMatch {
                shard_id: req.expected_shard_id,
                generation: req.expected_generation,
            },
            target_shard: req.shard_id,
            operation_id,
        },
    )
}

/// Admits a request to a shard that it names.
pub fn admit_shard(shard_id: u64, here: bool) -> (r: Result<(), Status>)
    ensures
        match r {
            Ok(_) => here,
            Err(s) => !here && s@ == not_here(shard_id),
        },
{
    if here {
        Ok(())
    } else {
        Err(shard_not_here(shard_id))
    }
}

/// An event that is copied from another shard.
#[derive(Debug)]
pub struct MigratedEvent {
    pub event_id: Vec<u8>,
    pub event_type: String,
    pub data: Vec<u8>,
    pub metadata: Vec<u8>,
    pub hlc: Option<Hlc>,
}

/// Asks to copy an event to a shard.
#[derive(Debug)]
pub struct AppendMigratedRequest {
    pub shard_id: u64,
    pub stream_id: String,
    /// What the stream is expected to be at; `None` if the request does not say.
    pub expected_version: Option<Option<ExpectedVersion>>,
    pub event: Option<MigratedEvent>,
}

/// The write of one copied event, which keeps the time of its first write.
#[derive(Debug)]
pub struct MigratedAppend {
    pub stream_id: String,
    pub expected: ExpectedVersion,
    pub event: NewEvent,
    pub hlc: Hlc,
}

/// What is wrong with a request to copy an event.
pub open spec fn migrated_fault(req: AppendMigratedRequest) -> Option<StatusView> {
    if req.stream_id@.len() == 0 {
        Some(says(Code::InvalidArgument, "stream_id 不能为空"@))
    } else {
        match req.event {
            None => Some(says(Code::InvalidArgument, "event 不能为空"@)),
            Some(e) => if e.hlc is None {
                Some(says(Code::InvalidArgument, "event.hlc 不能为空"@))
            } else if req.expected_version is None {
                Some(says(Code::InvalidArgument, "expected_version 不能为空"@))
            } else if e.event_id@.len() != 16 {
                Some(bad_event_id(e.event_id@.len()))
            } else {
                None
            },
        }
    }
}

/// Builds the write of a copied event.
pub fn migrated_append(req: AppendMigratedRequest) -> (r: Result<MigratedAppend, Status>)
    ensures
        match r {
            Ok(a) => {
                &&& migrated_fault(req) is None
                &&& a.stream_id == req.stream_id
                &&& a.expected == (match req.expected_version->Some_0 {
                    Some(k) => k,
                    None => ExpectedVersion::Any,
                })
                &&& a.event.event_id == big_endian(req.event->Some_0.event_id@)
                &&& a.event.event_type == req.event->Some_0.event_type
                &&& a.event.data == req.event->Some_0.data
                &&& a.event.metadata == req.event->Some_0.metadata
                &&& Some(a.hlc) == req.event->Some_0.hlc
            },
            Err(s) => migrated_fault(req) == Some(s@),
        },
{
    if req.stream_id.as_str().is_empty() {
        return Err(Status::of(Code::InvalidArgument, "stream_id 不能为空"));
    }
    let e = match req.event {
        Some(e) => e,
        None => return Err(Status::of(Code::InvalidArgument, "event 不能为空")),
    };
    let hlc = match e.hlc {
        Some(hlc) => hlc,
        None => return Err(Status::of(Code::InvalidArgument, "event.hlc 不能为空")),
    };
    let expected = match req.expected_version {
        Some(kind) => proto_to_expected_version(kind),
        None => return Err(Status::of(Code::InvalidArgument, "expected_version 不能为空")),
    };
    let event_id: u128 = match parse_id(&e.event_id) {
        Some(id) => id,
        None => {
            let n = decimal_wide(e.event_id.len() as u128);
            return Err(
                Status::new(
                    Code::InvalidArgument,
                    join3("event_id 必须是 16 字节 UUID，实际 ", n.as_str(), " 字节"),
                ),
            );
        },
    };
    Ok(
        MigratedAppend {
            stream_id: req.stream_id,
            expected,
            event: NewEvent {
                event_id,
                event_type: e.event_type,
                data: e.data,
                metadata: e.metadata,
            },
            hlc,
        },
    )
}

/// The reply to a copied event.
#[derive(Clone, Copy, Debug, PartialEq, Eq, Structural)]
pub struct AppendMigratedResponse {
    pub shard_id: u64,
    pub next_expected_version: u64,
    pub first_position: u64,
    pub last_position: u64,
}

/// The reply to the write of a copied event; `shown` is the answer as it is printed.
pub fn migrated_reply(
    shard_id: u64,
    outcome: Result<AppendOutcome, WriteError>,
    shown: &str,
) -> (r: Result<AppendMigratedResponse, Status>)
    ensures
        match outcome {
            Ok(
                AppendOutcome::AppendOk { next_expected_version, first_position, last_position },
            ) => r == Ok::<AppendMigratedResponse, Status>(
                AppendMigratedResponse {
                    shard_id,
                    next_expected_version,
                    first_position,
                    last_position,
                },
            ),
            Ok(AppendOutcome::OptimisticConflict { actual_version }) => r matches Err(s) && s@
                == says(
                Code::FailedPrecondition,
                "optimistic conflict: actual_version="@ + actual_version@,
            ),
            Ok(_) => r matches Err(s) && s@ == says(
                Code::Internal,
                "迁移写入返回意外结果: "@ + shown@,
            ),
            Err(e) => r matches Err(s) && s@ == write_failure(e),
        },
{
    match outcome {
        Ok(AppendOutcome::AppendOk { next_expected_version, first_position, last_position }) => Ok(
            AppendMigratedResponse {
                shard_id,
                next_expected_version,
                first_position,
                last_position,
            },
        ),
        Ok(AppendOutcome::OptimisticConflict { actual_version }) => Err(
            Status::new(
                Code::FailedPrecondition,
                join2("optimistic conflict: actual_version=", actual_version.as_str()),
            ),
        ),
        Ok(_) => Err(Status::new(Code::Internal, join2("迁移写入返回意外结果: ", shown))),
        Err(e) => Err(client_write_to_status(e)),
    }
}

/// Admits the removal of a stream from a shard.
pub fn check_delete(stream_id: &str) -> (r: Result<(), Status>)
    ensures
        match r {
            Ok(_) => stream_id@.len() > 0,
            Err(s) => stream_id@.len() == 0 && s@ == says(
                Code::InvalidArgument,
                "stream_id 不能为空"@,
            ),
        },
{
    if stream_id.is_empty() {
        Err(Status::of(Code::InvalidArgument, "stream_id 不能为空"))
    } else {
        Ok(())
    }
}

/// The message holds the stored events from `first` on, a full piece or all that is
/// left.
pub open spec fn is_chunk(
    m: ReadEventsResponse,
    stored: Seq<StoredEvent>,
    first: int,
    shard_id: u64,
) -> bool {
    &&& m.next_positions@.len() == 0
    &&& m.events@.len() == (if stored.len() - first < CHUNK {
        stored.len() - first
    } else {
        CHUNK as int
    })
    &&& forall|i: int|
        0 <= i < m.events@.len() ==> shows((#[trigger] m.events@[i])@, stored[first + i], shard_id)
}

/// Reads a stream of a shard in pieces: in order, nothing left out, no piece empty.
pub fn read_chunks(shard_id: u64, read: Result<Vec<StoredEvent>, String>) -> (r: Result<
    Vec<ReadEventsResponse>,
    Status,
>)
    ensures
        match read {
            Ok(stored) => r matches Ok(out) && (out@.len() - 1) * CHUNK < stored@.len()
                <= out@.len() * CHUNK && forall|k: int|
                0 <= k < out@.len() ==> is_chunk(
                    #[trigger] out@[k],
                    stored@,
                    k * CHUNK,
                    shard_id,
                ),
            Err(e) => r matches Err(s) && s@ == says(
                Code::Internal,
                "read_stream_events 失败: "@ + e@,
            ),
        },
{
    let stored = match read {
        Ok(stored) => stored,
        Err(e) => return Err(
            Status::new(Code::Internal, join2("read_stream_events 失败: ", e.as_str())),
        ),
    };
    let mut out: Vec<ReadEventsResponse> = Vec::new();
    let mut piece = ReadEventsResponse { events: Vec::new(), next_positions: Vec::new() };
    let ghost all = stored@;
    for s in it: stored
        invariant
            it.seq() == stored@,
            all == stored@,
            piece.events@.len() < CHUNK,
            piece.next_positions@.len() == 0,
            it.index() == out@.len() * CHUNK + piece.events@.len(),
            forall|i: int|
                0 <= i < piece.events@.len() ==> shows(
                    (#[trigger] piece.events@[i])@,
                    all[out@.len() * CHUNK + i],
                    shard_id,
                ),
            forall|k: int|
                0 <= k < out@.len() ==> is_chunk(#[trigger] out@[k], all, k * CHUNK, shard_id),
    {
        let ghost n = it.index() as int;
        assert(s == all[n]);
        let e = show(s, shard_id);
        piece.events.push(e);
        if piece.events.len() == CHUNK {
            let ghost full = piece;
            let ghost was = out@;
            proof {
                assert(is_chunk(full, all, was.len() * CHUNK, shard_id));
            }
            out.push(piece);
            piece = ReadEventsResponse { events: Vec::new(), next_positions: Vec::new() };
        }
    }
    if piece.events.len() > 0 {
        proof {
            assert(is_chunk(piece, all, out@.len() * CHUNK, shard_id));
        }
        out.push(piece);
    }
    Ok(out)
}

/// The events of the messages, one after the other.
pub open spec fn chunk_events(chunks: Seq<ReadEventsResponse>) -> Seq<crate::event::EventView>
    decreases chunks.len(),
{
    if chunks.len() == 0 {
        Seq::empty()
    } else {
        chunk_events(chunks.drop_last()) + crate::event::event_views(chunks.last().events@)
    }
}

/// The pieces that a stream is read in hold, one after the other, exactly the stored
/// events, in order.
pub proof fn law_chunks_lose_nothing(
    chunks: Seq<ReadEventsResponse>,
    stored: Seq<StoredEvent>,
    shard_id: u64,
)
    requires
        (chunks.len() - 1) * CHUNK < stored.len() <= chunks.len() * CHUNK,
        forall|k: int|
            0 <= k < chunks.len() ==> is_chunk(#[trigger] chunks[k], stored, k * CHUNK, shard_id),
    ensures
        chunk_events(chunks).len() == stored.len(),
        forall|i: int|
            0 <= i < stored.len() ==> shows(
                #[trigger] chunk_events(chunks)[i],
                stored[i],
                shard_id,
            ),
{
    lemma_chunks(chunks, stored, shard_id);
}

proof fn lemma_chunks(chunks: Seq<ReadEventsResponse>, stored: Seq<StoredEvent>, shard_id: u64)
    requires
        (chunks.len() - 1) * CHUNK < stored.len(),
        forall|k: int|
            0 <= k < chunks.len() ==> is_chunk(#[trigger] chunks[k], stored, k * CHUNK, shard_id),
    ensures
        chunk_events(chunks).len() == (if stored.len() < chunks.len() * CHUNK {
            stored.len() as int
        } else {
            chunks.len() * CHUNK
        }),
        forall|i: int|
            0 <= i < chunk_events(chunks).len() ==> shows(
                #[trigger] chunk_events(chunks)[i],
                stored[i],
                shard_id,
            ),
    decreases chunks.len(),
{
    if chunks.len() > 0 {
        let rest = chunks.drop_last();
        assert forall|k: int| 0 <= k < rest.len() implies is_chunk(
            #[trigger] rest[k],
            stored,
            k * CHUNK,
            shard_id,
        ) by {
            assert(rest[k] == chunks[k]);
        }
        lemma_chunks(rest, stored, shard_id);
        let n = (chunks.len() - 1) * CHUNK;
        let last = chunks[chunks.len() - 1];
        assert(is_chunk(last, stored, n, shard_id));
        let all = chunk_events(chunks);
        assert forall|i: int| 0 <= i < all.len() implies shows(
            #[trigger] all[i],
            stored[i],
            shard_id,
        ) by {
            if i < n {
                assert(all[i] == chunk_events(rest)[i]);
            } else {
                assert(all[i] == last.events@[i - n]@);
            }
        }
    }
}

/// The reply about a stream of a shard that the request names.
pub fn stream_meta_from_shard(shard_id: u64, read: Result<Option<u64>, String>) -> (r: Result<
    StreamMeta,
    Status,
>)
    ensures
        match read {
            Ok(version) => r == Ok::<StreamMeta, Status>(
                StreamMeta {
                    shard_id,
                    exists: version is Some,
                    current_version: match version {
                        Some(v) => v,
                        None => 0,
                    },
                },
            ),
            Err(e) => r matches Err(s) && s@ == says(
                Code::Internal,
                "read_stream_meta 失败: "@ + e@,
            ),
        },
{
    match read {
        Ok(Some(v)) => Ok(StreamMeta { shard_id, exists: true, current_version: v }),
        Ok(None) => Ok(StreamMeta { shard_id, exists: false, current_version: 0 }),
        Err(e) => Err(Status::new(Code::Internal, join2("read_stream_meta 失败: ", e.as_str()))),
    }
}

/// The names of the streams of a shard, from the names and versions in its store.
pub fn list_streams(read: Result<Vec<(String, u64)>, String>) -> (r: Result<Vec<String>, Status>)
    ensures
        match read {
            Ok(v) => r matches Ok(out) && out@ == v@.map_values(|p: (String, u64)| p.0),
            Err(e) => r matches Err(s) && s@ == says(Code::Internal, "list_streams 失败: "@ + e@),
        },
{
    let all = match read {
        Ok(v) => v,
        Err(e) => return Err(
            Status::new(Code::Internal, join2("list_streams 失败: ", e.as_str())),
        ),
    };
    let mut out: Vec<String> = Vec::new();
    for p in it: all
        invariant
            it.seq() == all@,
            out@.len() == it.index(),
            forall|i: int| 0 <= i < out@.len() ==> #[trigger] out@[i] == all@[i].0,
    {
        out.push(p.0);
    }
    assert(out@ =~= all@.map_values(|p: (String, u64)| p.0));
    Ok(out)
}

/// Admits a request to install a fence.
pub fn check_fence(stream_id: &str, generation: u64) -> (r: Result<(), Status>)
    ensures
        match r {
            Ok(_) => stream_id@.len() > 0 && generation > 0,
            Err(s) => (stream_id@.len() == 0 || generation == 0) && s@ == says(
                Code::InvalidArgument,
                "stream_id 不能为空且 generation 必须大于 0"@,
            ),
        },
{
    if stream_id.is_empty() || generation == 0 {
        Err(Status::of(Code::InvalidArgument, "stream_id 不能为空且 generation 必须大于 0"))
    } else {
        Ok(())
    }
}

/// The reply to a fence: the highest generation that the shard has seen.  What else
/// the shard answers is printed.
pub fn fence_reply(outcome: Result<Result<u64, String>, WriteError>) -> (r: Result<u64, Status>)
    ensures
        match outcome {
            Ok(Ok(generation)) => r == Ok::<u64, Status>(generation),
            Ok(Err(shown)) => r matches Err(s) && s@ == says(
                Code::Internal,
                "数据 Shard 返回意外 fencing 结果: "@ + shown@,
            ),
            Err(e) => r matches Err(s) && s@ == write_failure(e),
        },
{
    match outcome {
        Ok(Ok(generation)) => Ok(generation),
        Ok(Err(shown)) => Err(
            Status::new(
                Code::Internal,
                join2("数据 Shard 返回意外 fencing 结果: ", shown.as_str()),
            ),
        ),
        Err(e) => Err(client_write_to_status(e)),
    }
}

/// The reply to a change of ownership that the control shard was asked to commit.
/// What else the shard answers is printed.
pub fn commit_reply(outcome: Result<Result<OwnershipApply, String>, WriteError>) -> (r: Result<
    OwnershipApply,
    Status,
>)
    ensures
        match outcome {
            Ok(Ok(applied)) => r == Ok::<OwnershipApply, Status>(applied),
            Ok(Err(shown)) => r matches Err(s) && s@ == says(
                Code::Internal,
                "控制 Shard 返回意外结果: "@ + shown@,
            ),
            Err(e) => r matches Err(s) && s@ == write_failure(e),
        },
{
    match outcome {
        Ok(Ok(applied)) => Ok(applied),
        Ok(Err(shown)) => Err(
            Status::new(Code::Internal, join2("控制 Shard 返回意外结果: ", shown.as_str())),
        ),
        Err(e) => Err(client_write_to_status(e)),
    }
}

/// Admits a table that another node pushes: there must be one.  What it says decides
/// nothing; the node takes the projection from the control shard anew.
pub fn admit_push(table: Option<ProtoRouteTable>) -> (r: Result<ProtoRouteTable, Status>)
    ensures
        match table {
            Some(t) => r == Ok::<ProtoRouteTable, Status>(t),
            None => r matches Err(s) && s@ == says(Code::InvalidArgument, "table 不能为空"@),
        },
{
    match table {
        Some(t) => Ok(t),
        None => Err(Status::of(Code::InvalidArgument, "table 不能为空")),
    }
}

/// The reply to a pushed table, from what came of taking the projection anew.
pub fn push_reply(refreshed: Result<ChangeReceipt, OwnershipError>) -> (r: Result<(), Status>)
    ensures
        match refreshed {
            Ok(_) => r is Ok,
            Err(e) => r matches Err(s) && s@ == error_status(e),
        },
{
    match refreshed {
        Ok(_) => Ok(()),
        Err(e) => Err(e.into_status()),
    }
}

/// The reply to a move of a stream, from what came of the change: the table after it.
pub fn set_stream_shard_reply(
    changed: Result<ChangeReceipt, OwnershipError>,
    table: &RouteTable,
) -> (r: Result<ProtoRouteTable, Status>)
    requires
        table.wf(),
    ensures
        match changed {
            Ok(_) => r matches Ok(p) && writes_table(p, *table),
            Err(e) => r matches Err(s) && s@ == error_status(e),
        },
{
    match changed {
        Ok(_) => Ok(table_to_proto(table)),
        Err(e) => Err(e.into_status()),
    }
}

/// The reply to a recount: the table after it, once it could be written.
pub fn recount_reply(table: &RouteTable, persisted: Result<(), String>) -> (r: Result<
    ProtoRouteTable,
    Status,
>)
    requires
        table.wf(),
    ensures
        match persisted {
            Ok(_) => r matches Ok(p) && writes_table(p, *table),
            Err(e) => r matches Err(s) && s@ == says(Code::Internal, "recount 失败: "@ + e@),
        },
{
    match persisted {
        Ok(_) => Ok(table_to_proto(table)),
        Err(e) => Err(Status::new(Code::Internal, join2("recount 失败: ", e.as_str()))),
    }
}

/// Takes the command of a commit of ownership, once its bytes have been read.
pub fn commit_command<C>(read: Result<C, String>) -> (r: Result<C, Status>)
    ensures
        match read {
            Ok(command) => r == Ok::<C, Status>(command),
            Err(e) => r matches Err(s) && s@ == says(
                Code::InvalidArgument,
                "归属命令解码失败: "@ + e@,
            ),
        },
{
    match read {
        Ok(command) => Ok(command),
        Err(e) => Err(Status::new(Code::InvalidArgument, join2("归属命令解码失败: ", e.as_str()))),
    }
}

/// Goes on with what the control shard decided, once its table was published on this
/// node.
pub fn commit_published(applied: OwnershipApply, published: Result<(), String>) -> (r: Result<
    OwnershipApply,
    Status,
>)
    ensures
        match published {
            Ok(_) => r == Ok::<OwnershipApply, Status>(applied),
            Err(e) => r matches Err(s) && s@ == says(
                Code::Internal,
                "发布归属投影失败: "@ + e@,
            ),
        },
{
    match published {
        Ok(_) => Ok(applied),
        Err(e) => Err(Status::new(Code::Internal, join2("发布归属投影失败: ", e.as_str()))),
    }
}

/// The reply to a commit of ownership: the bytes of what was decided.
pub fn commit_payload(written: Result<Vec<u8>, String>) -> (r: Result<Vec<u8>, Status>)
    ensures
        match written {
            Ok(bytes) => r == Ok::<Vec<u8>, Status>(bytes),
            Err(e) => r matches Err(s) && s@ == says(
                Code::Internal,
                "归属结果编码失败: "@ + e@,
            ),
        },
{
    match written {
        Ok(bytes) => Ok(bytes),
        Err(e) => Err(Status::new(Code::Internal, join2("归属结果编码失败: ", e.as_str()))),
    }
}


/// A stream is moved from the owner that the request expects, or adopted where it expects
/// none; the request needs the stream's name and an operation of sixteen bytes.
pub proof fn law_stream_is_moved_or_adopted(
    req: SetStreamShardRequest,
    r: Result<OwnershipChange, Status>,
)
    requires
        call_ensures(move_change, (req,), r),
    ensures
        r is Ok <==> req.stream_id@.len() > 0 && req.operation_id@.len() == 16,
        r matches Err(s) ==> s@.code == Code::InvalidArgument,
        r matches Ok(c) ==> if req.expected_generation == 0 {
            c matches OwnershipChange::AdoptOrphan { stream, source_shard, target_shard }
                && stream@ == req.stream_id@ && source_shard == req.expected_shard_id
                && target_shard == req.shard_id
        } else {
            c matches OwnershipChange::Move { stream, expected, target_shard, operation_id }
                && stream@ == req.stream_id@ && expected.shard_id == req.expected_shard_id
                && expected.generation == req.expected_generation && target_shard
                == req.shard_id && operation_id == big_endian(req.operation_id@) as u128
        },
{
}

/// A migrated event is written with its own clock, and as it is; a request without a
/// stream, an event, a clock, an expected version or an id of sixteen bytes is refused.
pub proof fn law_migrated_event_keeps_its_clock(
    req: AppendMigratedRequest,
    r: Result<MigratedAppend, Status>,
)
    requires
        call_ensures(migrated_append, (req,), r),
    ensures
        r is Ok <==> req.stream_id@.len() > 0 && req.expected_version is Some && (
        req.event matches Some(e) && e.hlc is Some && e.event_id@.len() == 16),
        r matches Err(s) ==> s@.code == Code::InvalidArgument,
        r matches Ok(a) ==> {
            let e = req.event->0;
            &&& a.stream_id@ == req.stream_id@
            &&& Some(a.hlc) == e.hlc
            &&& a.event.event_id == big_endian(e.event_id@)
            &&& a.event.event_type@ == e.event_type@ && a.event.data@ == e.data@
                && a.event.metadata@ == e.metadata@
            &&& req.expected_version->0 matches Some(k) ==> a.expected == k
            &&& req.expected_version->0 is None ==> a.expected is Any
        },
{
}

/// A stream is read out in messages of two hundred events, the last one with what is left,
/// in order and without gaps.
pub proof fn law_stream_is_read_out_in_chunks(
    shard_id: u64,
    stored: Vec<StoredEvent>,
    out: Vec<ReadEventsResponse>,
    i: int,
)
    requires
        call_ensures(
            read_chunks,
            (shard_id, Ok::<Vec<StoredEvent>, String>(stored)),
            Ok::<Vec<ReadEventsResponse>, Status>(out),
        ),
        0 <= i < stored@.len(),
    ensures
        0 <= i / 200 < out@.len(),
        i % 200 < out@[i / 200].events@.len() <= 200,
        out@[i / 200].events@[i % 200].stream_id@ == stored@[i].stream_id@,
        out@[i / 200].events@[i % 200].version == stored@[i].version,
        out@[i / 200].events@[i % 200].data@ == stored@[i].data@,
        out@[i / 200].events@[i % 200].position == stored@[i].position,
        out@[i / 200].events@[i % 200].shard_id == shard_id,
{
    let k = i / 200;
    assert(is_chunk(out@[k], stored@, k * CHUNK, shard_id));
    let m = out@[k];
    assert(i == k * 200 + i % 200);
    assert(shows(m.events@[i % 200]@, stored@[k * CHUNK + i % 200], shard_id));
}


/// Requests that name no stream, no generation or no table are refused, and no others; a
/// shard that is elsewhere is to be asked elsewhere.
pub proof fn law_empty_requests_are_refused(
    stream_id: &str,
    generation: u64,
    deleted: Result<(), Status>,
    fenced: Result<(), Status>,
    table: Option<ProtoRouteTable>,
    pushed: Result<ProtoRouteTable, Status>,
    shard_id: u64,
    here: bool,
    admitted: Result<(), Status>,
)
    requires
        call_ensures(check_delete, (stream_id,), deleted),
        call_ensures(check_fence, (stream_id, generation), fenced),
        call_ensures(admit_push, (table,), pushed),
        call_ensures(admit_shard, (shard_id, here), admitted),
    ensures
        deleted is Err <==> stream_id@.len() == 0,
        fenced is Err <==> stream_id@.len() == 0 || generation == 0,
        pushed is Ok <==> table is Some,
        pushed matches Ok(t) ==> table == Some(t),
        admitted is Ok <==> here,
        deleted matches Err(s) ==> s@.code == Code::InvalidArgument,
        fenced matches Err(s) ==> s@.code == Code::InvalidArgument,
        pushed matches Err(s) ==> s@.code == Code::InvalidArgument,
        admitted matches Err(s) ==> s@.code == Code::Unavailable,
{
}

/// An append that was carried over is told with the positions it got; one that met another
/// version is refused as such.
pub proof fn law_carried_over_append_is_told(
    shard_id: u64,
    outcome: Result<AppendOutcome, WriteError>,
    shown: &str,
    r: Result<AppendMigratedResponse, Status>,
)
    requires
        call_ensures(migrated_reply, (shard_id, outcome, shown), r),
    ensures
        r is Ok <==> (outcome matches Ok(o) && o is AppendOk),
        outcome matches Ok(
            AppendOutcome::AppendOk { next_expected_version, first_position, last_position },
        ) ==> (r matches Ok(x) && x.shard_id == shard_id && x.next_expected_version
            == next_expected_version && x.first_position == first_position && x.last_position
            == last_position),
        outcome matches Ok(AppendOutcome::OptimisticConflict { .. }) ==> (r matches Err(s)
            && s@.code == Code::FailedPrecondition),
{
}

/// A shard tells of a stream whether it has it and at which version, and lists all its
/// streams in its order.
pub proof fn law_shard_tells_of_its_streams(
    shard_id: u64,
    read: Result<Option<u64>, String>,
    meta: Result<StreamMeta, Status>,
    listed: Vec<(String, u64)>,
    names: Vec<String>,
    i: int,
)
    requires
        call_ensures(stream_meta_from_shard, (shard_id, read), meta),
        call_ensures(
            list_streams,
            (Ok::<Vec<(String, u64)>, String>(listed),),
            Ok::<Vec<String>, Status>(names),
        ),
        0 <= i < listed@.len(),
    ensures
        meta is Ok <==> read is Ok,
        read matches Ok(version) ==> (meta matches Ok(m) && m.shard_id == shard_id && (m.exists
            <==> version is Some) && (version matches Some(v) ==> m.current_version == v)),
        names@.len() == listed@.len(),
        names@[i] == listed@[i].0,
{
}

/// What was fenced, committed or published is told as it is; what failed on the way is
/// the server's fault.
pub proof fn law_ownership_answers_are_handed_on(
    fenced: Result<Result<u64, String>, WriteError>,
    f: Result<u64, Status>,
    committed: Result<Result<OwnershipApply, String>, WriteError>,
    c: Result<OwnershipApply, Status>,
    applied: OwnershipApply,
    published: Result<(), String>,
    p: Result<OwnershipApply, Status>,
)
    requires
        call_ensures(fence_reply, (fenced,), f),
        call_ensures(commit_reply, (committed,), c),
        call_ensures(commit_published, (applied, published), p),
    ensures
        f is Ok <==> (fenced matches Ok(x) && x is Ok),
        f matches Ok(g) ==> fenced == Ok::<Result<u64, String>, WriteError>(Ok::<u64, String>(g)),
        c is Ok <==> (committed matches Ok(x) && x is Ok),
        c matches Ok(a) ==> committed == Ok::<Result<OwnershipApply, String>, WriteError>(
            Ok::<OwnershipApply, String>(a),
        ),
        p is Ok <==> published is Ok,
        p matches Ok(a) ==> a == applied,
        p matches Err(s) ==> s@.code == Code::Internal,
        fenced matches Ok(x) ==> (f matches Err(s) ==> s@.code == Code::Internal),
        committed matches Ok(x) ==> (c matches Err(s) ==> s@.code == Code::Internal),
{
}

/// A table is shown only after the change to it went through.
pub proof fn law_table_is_shown_once_changed(
    changed: Result<ChangeReceipt, OwnershipError>,
    persisted: Result<(), String>,
    table: RouteTable,
    moved: Result<ProtoRouteTable, Status>,
    recounted: Result<ProtoRouteTable, Status>,
    pushed: Result<(), Status>,
)
    requires
        call_ensures(set_stream_shard_reply, (changed, &table), moved),
        call_ensures(recount_reply, (&table, persisted), recounted),
        call_ensures(push_reply, (changed,), pushed),
    ensures
        moved is Ok <==> changed is Ok,
        pushed is Ok <==> changed is Ok,
        recounted is Ok <==> persisted is Ok,
        moved matches Ok(p) ==> p.version == table.version && p.streams@.len()
            == table.streams.entries@.len() && p.shard_stream_counts@
            == table.shard_stream_counts.entries@,
        recounted matches Ok(p) ==> p.version == table.version && p.shard_stream_counts@
            == table.shard_stream_counts.entries@,
{
}

} // verus!
