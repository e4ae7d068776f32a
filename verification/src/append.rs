//! Appending events to a stream.

use vstd::prelude::*;

use crate::config::LimitsSection;
use crate::event::Hlc;
use crate::ids::{big_endian, parse_id};
use crate::rpc_support::{WriteError, client_write_to_status, write_failure};
use crate::status::{Code, Status, StatusView, says};
use crate::text::{decimal, decimal_text, decimal_wide, join2, join3, join5};

verus! {

/// An event as a client sends it.
#[derive(Debug)]
pub struct NewEventRequest {
    pub event_id: Vec<u8>,
    pub event_type: String,
    pub data: Vec<u8>,
    pub metadata: Vec<u8>,
}

/// An event to be stored.
#[derive(Debug)]
pub struct NewEvent {
    pub event_id: u128,
    pub event_type: String,
    pub data: Vec<u8>,
    pub metadata: Vec<u8>,
}

/// What the writer expects of the stream.
#[derive(Clone, Copy, Debug, PartialEq, Eq, Structural)]
pub enum ExpectedVersion {
    Any,
    NoStream,
    StreamExists,
    Exact(u64),
}

/// An expectation without a kind expects nothing.
pub fn proto_to_expected_version(kind: Option<ExpectedVersion>) -> (e: ExpectedVersion)
    ensures
        e == (match kind {
            Some(k) => k,
            None => ExpectedVersion::Any,
        }),
{
    match kind {
        Some(k) => k,
        None => ExpectedVersion::Any,
    }
}

/// Bytes that count against the limit of one event.
pub open spec fn payload(e: NewEventRequest) -> nat {
    e.data@.len() + e.metadata@.len()
}

/// The reply to a request that is too large as a whole.
pub open spec fn request_too_large(bytes: nat, limit: u64) -> StatusView {
    says(
        Code::FailedPrecondition,
        "append payload too large: request "@ + decimal_text(bytes) + " bytes exceeds limit "@
            + decimal_text(limit as nat) + " bytes"@,
    )
}

/// The reply to a request with an event that is too large.
pub open spec fn event_too_large(bytes: nat, limit: u64) -> StatusView {
    says(
        Code::FailedPrecondition,
        "append payload too large: single event data+metadata "@ + decimal_text(bytes)
            + " bytes exceeds limit "@ + decimal_text(limit as nat) + " bytes"@,
    )
}

/// Checks the sizes before anything else is done: first the whole request as
/// encoded (`encoded_len` bytes), then event by event.
pub fn check_append(limits: &LimitsSection, encoded_len: u64, events: &Vec<NewEventRequest>) -> (r:
    Result<(), Status>)
    ensures
        r is Ok <==> (encoded_len <= limits.max_append_batch_bytes && forall|i: int|
            0 <= i < events@.len() ==> #[trigger] payload(events@[i]) <= limits.max_event_bytes),
        r matches Err(s) ==> if encoded_len > limits.max_append_batch_bytes {
            s@ == request_too_large(encoded_len as nat, limits.max_append_batch_bytes)
        } else {
            exists|i: int|
                {
                    &&& 0 <= i < events@.len()
                    &&& #[trigger] payload(events@[i]) > limits.max_event_bytes
                    &&& forall|j: int|
                        0 <= j < i ==> #[trigger] payload(events@[j]) <= limits.max_event_bytes
                    &&& s@ == event_too_large(payload(events@[i]), limits.max_event_bytes)
                }
        },
{
    if encoded_len > limits.max_append_batch_bytes {
        let n = decimal(encoded_len);
        let m = decimal(limits.max_append_batch_bytes);
        return Err(
            Status::new(
                Code::FailedPrecondition,
                join5(
                    "append payload too large: request ",
                    n.as_str(),
                    " bytes exceeds limit ",
                    m.as_str(),
                    " bytes",
                ),
            ),
        );
    }
    let mut i: usize = 0;
    while i < events.len()
        invariant
            i <= events@.len(),
            encoded_len <= limits.max_append_batch_bytes,
            forall|j: int|
                0 <= j < i ==> #[trigger] payload(events@[j]) <= limits.max_event_bytes,
        decreases events@.len() - i,
    {
        let n: u128 = events[i].data.len() as u128 + events[i].metadata.len() as u128;
        assert(n == payload(events@[i as int]));
        if n > limits.max_event_bytes as u128 {
            let t = decimal_wide(n);
            let m = decimal(limits.max_event_bytes);
            return Err(
                Status::new(
                    Code::FailedPrecondition,
                    join5(
                        "append payload too large: single event data+metadata ",
                        t.as_str(),
                        " bytes exceeds limit ",
                        m.as_str(),
                        " bytes",
                    ),
                ),
            );
        }
        i += 1;
    }
    Ok(())
}

/// The write that is handed to the consensus engine.
#[derive(Debug)]
pub struct AppendCommand {
    pub stream_id: String,
    pub ownership_generation: u64,
    pub expected_version: ExpectedVersion,
    pub events: Vec<NewEvent>,
    pub hlc: Hlc,
}

/// `e` stores what `r` asks for.
pub open spec fn stores(e: NewEvent, r: NewEventRequest) -> bool {
    &&& r.event_id@.len() == 16
    &&& e.event_id == big_endian(r.event_id@)
    &&& e.event_type == r.event_type
    &&& e.data == r.data
    &&& e.metadata == r.metadata
}

/// The reply to an event identifier that is not sixteen bytes long.
pub open spec fn bad_event_id(len: nat) -> StatusView {
    says(
        Code::InvalidArgument,
        "event_id 必须是 16 字节 UUID，实际 "@ + decimal_text(len) + " 字节"@,
    )
}

/// Turns the events of a request into events to be stored.  An identifier of the
/// wrong length is refused: replacing it would defeat the recognition of retries.
pub fn new_events(requested: Vec<NewEventRequest>) -> (r: Result<Vec<NewEvent>, Status>)
    ensures
        r is Ok <==> forall|i: int|
            0 <= i < requested@.len() ==> #[trigger] requested@[i].event_id@.len() == 16,
        match r {
            Ok(events) => events@.len() == requested@.len() && forall|i: int|
                0 <= i < events@.len() ==> stores(#[trigger] events@[i], requested@[i]),
            Err(s) => exists|i: int|
                {
                    &&& 0 <= i < requested@.len()
                    &&& #[trigger] requested@[i].event_id@.len() != 16
                    &&& forall|j: int|
                        0 <= j < i ==> #[trigger] requested@[j].event_id@.len() == 16
                    &&& s@ == bad_event_id(requested@[i].event_id@.len())
                },
        },
{
    let mut events: Vec<NewEvent> = Vec::new();
    for e in it: requested
        invariant
            it.seq() == requested@,
            events@.len() == it.index(),
            forall|i: int|
                0 <= i < it.index() ==> stores(#[trigger] events@[i], requested@[i]),
            forall|i: int|
                0 <= i < it.index() ==> #[trigger] requested@[i].event_id@.len() == 16,
    {
        assert(e == requested@[it.index() as int]);
        match parse_id(&e.event_id) {
            Some(event_id) => {
                events.push(
                    NewEvent {
                        event_id,
                        event_type: e.event_type,
                        data: e.data,
                        metadata: e.metadata,
                    },
                );
            },
            None => {
                let n = decimal_wide(e.event_id.len() as u128);
                return Err(
                    Status::new(
                        Code::InvalidArgument,
                        join3("event_id 必须是 16 字节 UUID，实际 ", n.as_str(), " 字节"),
                    ),
                );
            },
        }
    }
    Ok(events)
}

/// Builds the write once the owner of the stream is known.  `expected` is the
/// expectation of the request, `None` if it is missing.
pub fn append_command(
    stream_id: String,
    generation: u64,
    expected: Option<Option<ExpectedVersion>>,
    requested: Vec<NewEventRequest>,
    hlc: Hlc,
) -> (r: Result<AppendCommand, Status>)
    ensures
        r is Ok <==> (expected is Some && forall|i: int|
            0 <= i < requested@.len() ==> #[trigger] requested@[i].event_id@.len() == 16),
        match r {
            Ok(c) => {
                &&& c.stream_id == stream_id
                &&& c.ownership_generation == generation
                &&& expected matches Some(kind) && c.expected_version == (match kind {
                    Some(k) => k,
                    None => ExpectedVersion::Any,
                })
                &&& c.events@.len() == requested@.len()
                &&& forall|i: int|
                    0 <= i < c.events@.len() ==> stores(#[trigger] c.events@[i], requested@[i])
                &&& c.hlc == hlc
            },
            Err(s) => if expected is None {
                s@ == says(Code::InvalidArgument, "expected_version is required"@)
            } else {
                exists|i: int|
                    {
                        &&& 0 <= i < requested@.len()
                        &&& #[trigger] requested@[i].event_id@.len() != 16
                        &&& forall|j: int|
                            0 <= j < i ==> #[trigger] requested@[j].event_id@.len() == 16
                        &&& s@ == bad_event_id(requested@[i].event_id@.len())
                    }
            },
        },
{
    match expected {
        None => Err(Status::of(Code::InvalidArgument, "expected_version is required")),
        Some(kind) => {
            let expected_version = proto_to_expected_version(kind);
            match new_events(requested) {
                Ok(events) => Ok(
                    AppendCommand {
                        stream_id,
                        ownership_generation: generation,
                        expected_version,
                        events,
                        hlc,
                    },
                ),
                Err(s) => Err(s),
            }
        },
    }
}

impl AppendCommand {
    /// The same write under the owner's new generation.
    pub fn retarget(self, generation: u64) -> (c: AppendCommand)
        ensures
            c == (AppendCommand { ownership_generation: generation, ..self }),
    {
        AppendCommand {
            stream_id: self.stream_id,
            ownership_generation: generation,
            expected_version: self.expected_version,
            events: self.events,
            hlc: self.hlc,
        }
    }
}

/// What a shard answers to an append.
#[derive(Debug)]
pub enum AppendOutcome {
    AppendOk { next_expected_version: u64, first_position: u64, last_position: u64 },
    /// The expectation failed; the version as the storage writes it.
    OptimisticConflict { actual_version: String },
    /// The shard has seen a later owner of the stream.
    OwnershipFenced { current_generation: u64 },
    /// Any other answer, as it is printed.
    Other(String),
}

/// The reply to a successful append.
#[derive(Clone, Copy, Debug, PartialEq, Eq, Structural)]
pub struct AppendResponse {
    pub shard_id: u64,
    pub next_expected_version: u64,
    pub first_position: u64,
    pub last_position: u64,
}

/// The reply to an append that the shard refused; none if it did not.
pub open spec fn append_refusal(outcome: AppendOutcome) -> Option<StatusView> {
    match outcome {
        AppendOutcome::AppendOk { .. } => None,
        AppendOutcome::OptimisticConflict { actual_version } => Some(
            says(
                Code::FailedPrecondition,
                "optimistic conflict: actual_version="@ + actual_version@,
            ),
        ),
        AppendOutcome::OwnershipFenced { current_generation } => Some(
            says(
                Code::Unavailable,
                "stream ownership generation advanced to "@ + decimal_text(
                    current_generation as nat,
                ) + "; retry"@,
            ),
        ),
        AppendOutcome::Other(text) => Some(
            says(Code::Internal, "append 返回意外结果: "@ + text@),
        ),
    }
}

/// Maps a shard's answer to the reply.
pub fn append_reply(shard_id: u64, outcome: AppendOutcome) -> (r: Result<AppendResponse, Status>)
    ensures
        match outcome {
            AppendOutcome::AppendOk { next_expected_version, first_position, last_position } => r
                == Ok::<AppendResponse, Status>(
                AppendResponse { shard_id, next_expected_version, first_position, last_position },
            ),
            _ => r matches Err(s) && append_refusal(outcome) == Some(s@),
        },
{
    match outcome {
        AppendOutcome::AppendOk { next_expected_version, first_position, last_position } => Ok(
            AppendResponse { shard_id, next_expected_version, first_position, last_position },
        ),
        AppendOutcome::OptimisticConflict { actual_version } => Err(
            Status::new(
                Code::FailedPrecondition,
                join2("optimistic conflict: actual_version=", actual_version.as_str()),
            ),
        ),
        AppendOutcome::OwnershipFenced { current_generation } => {
            let g = decimal(current_generation);
            Err(
                Status::new(
                    Code::Unavailable,
                    join3("stream ownership generation advanced to ", g.as_str(), "; retry"),
                ),
            )
        },
        AppendOutcome::Other(text) => Err(
            Status::new(Code::Internal, join2("append 返回意外结果: ", text.as_str())),
        ),
    }
}

/// An append on its way: the write, and whether it was already sent again under a
/// newer owner.
#[derive(Debug)]
pub struct AppendFlow {
    pub command: AppendCommand,
    pub retried: bool,
}

/// What follows the answer to a write.
#[derive(Debug)]
pub enum AppendStep {
    /// Look up the owner anew, beyond the generation that was tried, then send the
    /// write once more.
    Recover { flow: AppendFlow, attempted_generation: u64 },
    /// The reply.
    Done(Result<AppendResponse, Status>),
}

impl AppendFlow {
    /// The first sending of a write.
    pub fn begin(command: AppendCommand) -> (f: AppendFlow)
        ensures
            f == (AppendFlow { command, retried: false }),
    {
        AppendFlow { command, retried: false }
    }

    /// Goes on after shard `shard_id` answered.  Only a write that was fenced off is
    /// sent again, and only once.
    pub fn on_answer(self, shard_id: u64, answer: Result<AppendOutcome, WriteError>) -> (step:
        AppendStep)
        ensures
            match answer {
                Err(e) => step matches AppendStep::Done(Err(s)) && s@ == write_failure(e),
                Ok(AppendOutcome::OwnershipFenced { .. }) if !self.retried => step == (
                AppendStep::Recover {
                    flow: self,
                    attempted_generation: self.command.ownership_generation,
                }),
                Ok(
                    AppendOutcome::AppendOk {
                        next_expected_version,
                        first_position,
                        last_position,
                    },
                ) => step == AppendStep::Done(
                    Ok(
                        AppendResponse {
                            shard_id,
                            next_expected_version,
                            first_position,
                            last_position,
                        },
                    ),
                ),
                Ok(outcome) => step matches AppendStep::Done(Err(s)) && append_refusal(
                    outcome,
                ) == Some(s@),
            },
    {
        match answer {
            Err(e) => AppendStep::Done(Err(client_write_to_status(e))),
            Ok(outcome) => {
                let fenced = match &outcome {
                    AppendOutcome::OwnershipFenced { .. } => true,
                    _ => false,
                };
                if fenced && !self.retried {
                    let attempted_generation: u64 = self.command.ownership_generation;
                    AppendStep::Recover { flow: self, attempted_generation }
                } else {
                    AppendStep::Done(append_reply(shard_id, outcome))
                }
            },
        }
    }

    /// The second sending: the same write under the owner's new generation.
    pub fn resume(self, generation: u64) -> (f: AppendFlow)
        ensures
            f == (AppendFlow {
                command: AppendCommand { ownership_generation: generation, ..self.command },
                retried: true,
            }),
    {
        AppendFlow { command: self.command.retarget(generation), retried: true }
    }
}

/// The reply to a request that creates a stream.
#[derive(Debug)]
pub struct CreateStreamResponse {
    pub shard_id: u64,
    pub leader_addr: String,
    pub exists: bool,
}

/// Refuses to create a stream without a name.
pub fn check_create_stream(stream_id: &str) -> (r: Result<(), Status>)
    ensures
        r is Ok <==> stream_id@.len() > 0,
        r matches Err(s) ==> s@ == says(Code::InvalidArgument, "stream_id 不能为空"@),
{
    if stream_id.is_empty() {
        Err(Status::of(Code::InvalidArgument, "stream_id 不能为空"))
    } else {
        Ok(())
    }
}

/// The reply once the owner is known.  The leader is a hint: its address is empty
/// where none was found.
pub fn create_stream_reply(shard_id: u64, created_now: bool, leader: Option<(u64, String)>) -> (r:
    CreateStreamResponse)
    ensures
        r.shard_id == shard_id,
        r.exists == !created_now,
        r.leader_addr@ == (match leader {
            Some((_, addr)) => addr@,
            None => Seq::empty(),
        }),
{
    let leader_addr = match leader {
        Some((_, addr)) => addr,
        None => String::new(),
    };
    CreateStreamResponse { shard_id, leader_addr, exists: !created_now }
}


/// An append is admitted where the whole request and each of its events stay within their
/// limits; what is too large is refused as such.
pub proof fn law_append_stays_within_the_limits(
    limits: LimitsSection,
    encoded_len: u64,
    events: Vec<NewEventRequest>,
    r: Result<(), Status>,
)
    requires
        call_ensures(check_append, (&limits, encoded_len, &events), r),
    ensures
        r is Ok ==> encoded_len <= limits.max_append_batch_bytes,
        encoded_len > limits.max_append_batch_bytes ==> (r matches Err(s) && s@.code
            == Code::FailedPrecondition && s@.message == "append payload too large: request "@
            + decimal_text(encoded_len as nat) + " bytes exceeds limit "@ + decimal_text(
            limits.max_append_batch_bytes as nat,
        ) + " bytes"@),
        r matches Err(s) ==> s@.code == Code::FailedPrecondition,
        r is Ok ==> forall|i: int|
            0 <= i < events@.len() ==> (#[trigger] events@[i]).data@.len()
                + events@[i].metadata@.len() <= limits.max_event_bytes,
        encoded_len <= limits.max_append_batch_bytes && (forall|i: int|
            0 <= i < events@.len() ==> (#[trigger] events@[i]).data@.len()
                + events@[i].metadata@.len() <= limits.max_event_bytes) ==> r is Ok,
{
    if r is Ok {
        assert forall|i: int| 0 <= i < events@.len() implies (#[trigger] events@[i]).data@.len()
            + events@[i].metadata@.len() <= limits.max_event_bytes by {
            assert(payload(events@[i]) <= limits.max_event_bytes);
        }
    }
}

/// An event is stored with all that the request says of it.
pub proof fn law_event_is_stored_as_requested(e: NewEvent, r: NewEventRequest)
    requires
        stores(e, r),
    ensures
        r.event_id@.len() == 16,
        e.event_id == big_endian(r.event_id@),
        e.event_type@ == r.event_type@,
        e.data@ == r.data@,
        e.metadata@ == r.metadata@,
{
}

/// A command carries the stream, its generation and the clock, and expects what the
/// request expects; a request that does not say what it expects is refused, and an
/// expectation of no kind stands for any version.
pub proof fn law_command_carries_the_request(
    stream_id: String,
    generation: u64,
    expected: Option<Option<ExpectedVersion>>,
    requested: Vec<NewEventRequest>,
    hlc: Hlc,
    r: Result<AppendCommand, Status>,
)
    requires
        call_ensures(append_command, (stream_id, generation, expected, requested, hlc), r),
    ensures
        r is Ok <==> expected is Some && forall|i: int|
            0 <= i < requested@.len() ==> (#[trigger] requested@[i]).event_id@.len() == 16,
        r matches Err(s) ==> s@.code == Code::InvalidArgument,
        r matches Ok(c) ==> {
            &&& c.stream_id@ == stream_id@ && c.ownership_generation == generation && c.hlc == hlc
            &&& expected == Some(None::<ExpectedVersion>) ==> c.expected_version is Any
            &&& expected matches Some(Some(k)) ==> c.expected_version == k
            &&& c.events@.len() == requested@.len()
            &&& forall|i: int|
                0 <= i < c.events@.len() ==> (#[trigger] c.events@[i]).data@ == requested@[i].data@
                    && c.events@[i].metadata@ == requested@[i].metadata@
                    && c.events@[i].event_type@ == requested@[i].event_type@
                    && c.events@[i].event_id == big_endian(requested@[i].event_id@)
        },
{
}

/// The outcomes of an append have their codes.
pub proof fn law_append_outcomes_have_their_codes(
    shard_id: u64,
    outcome: AppendOutcome,
    r: Result<AppendResponse, Status>,
)
    requires
        call_ensures(append_reply, (shard_id, outcome), r),
    ensures
        r is Ok <==> outcome is AppendOk,
        r matches Ok(a) ==> a.shard_id == shard_id && a.next_expected_version
            == outcome->next_expected_version && a.first_position == outcome->first_position
            && a.last_position == outcome->last_position,
        r matches Err(s) ==> s@.code == (match outcome {
            AppendOutcome::OptimisticConflict { .. } => Code::FailedPrecondition,
            AppendOutcome::OwnershipFenced { .. } => Code::Unavailable,
            _ => Code::Internal,
        }),
        outcome matches AppendOutcome::OptimisticConflict { actual_version } ==> r->Err_0@.message
            == "optimistic conflict: actual_version="@ + actual_version@,
{
}

/// An append that meets a newer generation of its stream's ownership recovers once, from
/// the generation that it tried, and is then sent as it was under the new one; a second
/// time it is refused.
pub proof fn law_append_recovers_once(
    flow: AppendFlow,
    shard_id: u64,
    current_generation: u64,
    step: AppendStep,
    generation: u64,
    again: AppendFlow,
    second: AppendStep,
)
    requires
        !flow.retried,
        call_ensures(
            AppendFlow::on_answer,
            (
                flow,
                shard_id,
                Ok::<AppendOutcome, WriteError>(
                    AppendOutcome::OwnershipFenced { current_generation },
                ),
            ),
            step,
        ),
        call_ensures(AppendFlow::resume, (flow, generation), again),
        call_ensures(
            AppendFlow::on_answer,
            (
                again,
                shard_id,
                Ok::<AppendOutcome, WriteError>(
                    AppendOutcome::OwnershipFenced { current_generation },
                ),
            ),
            second,
        ),
    ensures
        step == (AppendStep::Recover {
            flow,
            attempted_generation: flow.command.ownership_generation,
        }),
        again.retried,
        again.command.ownership_generation == generation,
        again.command.stream_id@ == flow.command.stream_id@ && again.command.events@
            == flow.command.events@ && again.command.expected_version
            == flow.command.expected_version && again.command.hlc == flow.command.hlc,
        second matches AppendStep::Done(Err(s)) && s@.code == Code::Unavailable,
{
}


/// The events of a request are stored in its order, each as it is given; one whose number
/// is no number refuses them all. A request that expects nothing is met by any version.
pub proof fn law_events_are_taken_as_given(
    requested: Vec<NewEventRequest>,
    r: Result<Vec<NewEvent>, Status>,
    i: int,
    kind: Option<ExpectedVersion>,
    e: ExpectedVersion,
)
    requires
        call_ensures(new_events, (requested,), r),
        call_ensures(proto_to_expected_version, (kind,), e),
        0 <= i < requested@.len(),
    ensures
        requested@[i].event_id@.len() != 16 ==> (r matches Err(s) && s@.code
            == Code::InvalidArgument),
        r matches Ok(events) ==> events@.len() == requested@.len(),
        r matches Ok(events) ==> events@[i].event_type@ == requested@[i].event_type@
            && events@[i].data@ == requested@[i].data@ && events@[i].metadata@
            == requested@[i].metadata@,
        kind is None ==> e == ExpectedVersion::Any,
        kind matches Some(k) ==> e == k,
{
    if let Ok(events) = r {
        assert(stores(events@[i], requested@[i]));
    }
}

/// An append sent again under another generation is the same append.
pub proof fn law_append_sent_again_is_the_same(
    command: AppendCommand,
    generation: u64,
    again: AppendCommand,
)
    requires
        call_ensures(AppendCommand::retarget, (command, generation), again),
    ensures
        again.ownership_generation == generation,
        again.stream_id == command.stream_id,
        again.expected_version == command.expected_version,
        again.events == command.events,
        again.hlc == command.hlc,
{
}

/// A stream needs a name; the reply says where the stream is, who leads there, and whether
/// it was there before.
pub proof fn law_created_stream_is_told_of(
    stream_id: &str,
    admitted: Result<(), Status>,
    shard_id: u64,
    created_now: bool,
    leader: Option<(u64, String)>,
    r: CreateStreamResponse,
)
    requires
        call_ensures(check_create_stream, (stream_id,), admitted),
        call_ensures(create_stream_reply, (shard_id, created_now, leader), r),
    ensures
        admitted is Err <==> stream_id@.len() == 0,
        r.shard_id == shard_id,
        r.exists <==> !created_now,
        leader matches Some((_, addr)) ==> r.leader_addr@ == addr@,
        leader is None ==> r.leader_addr@.len() == 0,
{
}


/// Whatever else a shard answers is the reply: the versions and positions of what it
/// stored, or the refusal.
pub proof fn law_answer_of_the_shard_is_the_reply(
    flow: AppendFlow,
    shard_id: u64,
    answer: Result<AppendOutcome, WriteError>,
    step: AppendStep,
)
    requires
        call_ensures(AppendFlow::on_answer, (flow, shard_id, answer), step),
    ensures
        step is Recover <==> !flow.retried && (answer matches Ok(o) && o is OwnershipFenced),
        answer matches Ok(
            AppendOutcome::AppendOk { next_expected_version, first_position, last_position },
        ) ==> (step matches AppendStep::Done(Ok(a)) && a.shard_id == shard_id
            && a.next_expected_version == next_expected_version && a.first_position
            == first_position && a.last_position == last_position),
        answer matches Ok(AppendOutcome::OptimisticConflict { actual_version }) ==> (
        step matches AppendStep::Done(Err(s)) && s@.code == Code::FailedPrecondition && s@.message
            == "optimistic conflict: actual_version="@ + actual_version@),
        answer is Err ==> (step matches AppendStep::Done(r) && r is Err),
{
}

} // verus!
