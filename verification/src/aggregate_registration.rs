//! Registering an aggregate type: it is created, every partition is fenced at its shard,
//! and only then is it activated.
//!
//! Each stage names what is to be done next; the answer leads to the stage behind it.

use vstd::prelude::*;

use crate::aggregate_groups::{operation_fault, parse_operation_id};
use crate::aggregate_tokens::{AggregateTypeId, TypeView};
use crate::aggregate_types::{
    AggregateCatalog, AggregateTypeDefinition, AggregateTypeInfo, AggregateTypeRef,
    AggregateTypeStatus, CatalogOutcome, EVENT_PARTITION_COUNT, has_each_once, is_entry,
    is_of_type, lists_types, proto_aggregate_type, shows_type, spread_partitions, type_activated,
    type_created, type_fault,
};
use crate::event::copy_bytes;
use crate::ids::big_endian;
use crate::status::{Code, Status, StatusView, says};

verus! {

/// What is registered, and by which operation.
#[derive(Debug)]
pub struct Registration {
    pub aggregate_type: AggregateTypeId,
    pub operation_id: u128,
}

/// What a registration does next.
#[derive(Debug)]
pub enum RegisterStage {
    /// Create the type in the catalog; partition `i` goes to shard `placements[i]`, and the
    /// hash of names is seeded with the bytes of the operation.
    Create { registration: Registration, placements: Vec<u64>, seed: Vec<u8> },
    /// Install the generation of the partition that stands at `at` at its shard.
    Fence { registration: Registration, definition: AggregateTypeDefinition, at: usize },
    /// Activate the type in the catalog.
    Activate(Registration),
    Done(Result<AggregateTypeInfo, Status>),
}

/// A generation to install.
#[derive(Clone, Copy, Debug, PartialEq, Eq, Structural)]
pub struct PartitionFence {
    pub partition_id: u16,
    pub shard_id: u64,
    pub generation: u64,
}

/// Why a request for a registration is refused.
pub open spec fn register_fault(
    value: Option<AggregateTypeRef>,
    verdict: Result<(), String>,
    operation_id: Seq<u8>,
) -> Option<StatusView> {
    match type_fault(value, verdict) {
        Some(fault) => Some(fault),
        None => operation_fault(operation_id),
    }
}

/// The stage is the first of a registration: the request is refused, or the type is to be
/// created with its partitions round the shards in turn.
pub open spec fn begins(
    stage: RegisterStage,
    value: Option<AggregateTypeRef>,
    verdict: Result<(), String>,
    operation_id: Seq<u8>,
    all_shards: Seq<u64>,
) -> bool {
    match register_fault(value, verdict, operation_id) {
        Some(fault) => stage matches RegisterStage::Done(Err(s)) && s@ == fault,
        None => {
            &&& stage matches RegisterStage::Create { registration, placements, seed }
            &&& seed@ == operation_id
            &&& registration.aggregate_type.business_space == value->0.business_space
            &&& registration.aggregate_type.aggregate_type == value->0.aggregate_type
            &&& registration.operation_id == big_endian(operation_id)
            &&& placements@.len() == EVENT_PARTITION_COUNT
            &&& forall|i: int|
                0 <= i < placements@.len() ==> #[trigger] placements@[i] == all_shards[i
                    % all_shards.len() as int]
        },
    }
}

/// Begins a registration.  `verdict` says whether the name is one that a type can have.
pub fn register(
    value: Option<AggregateTypeRef>,
    verdict: Result<(), String>,
    operation_id: &Vec<u8>,
    all_shards: &Vec<u64>,
) -> (stage: RegisterStage)
    requires
        all_shards@.len() > 0,
    ensures
        begins(stage, value, verdict, operation_id@, all_shards@),
{
    let aggregate_type = match proto_aggregate_type(value, verdict) {
        Ok(id) => id,
        Err(s) => return RegisterStage::Done(Err(s)),
    };
    let seed = copy_bytes(operation_id);
    let operation_id: u128 = match parse_operation_id(operation_id) {
        Ok(id) => id,
        Err(s) => return RegisterStage::Done(Err(s)),
    };
    RegisterStage::Create {
        registration: Registration { aggregate_type, operation_id },
        placements: spread_partitions(all_shards),
        seed,
    }
}

/// The stage in which the partition at `at` is fenced; activation, if there is none.
pub open spec fn fencing(
    registration: Registration,
    definition: AggregateTypeDefinition,
    at: int,
) -> RegisterStage {
    if at < definition.placements.entries@.len() {
        RegisterStage::Fence { registration, definition, at: at as usize }
    } else {
        RegisterStage::Activate(registration)
    }
}

/// Why a type is not created.
pub open spec fn creation_fault(outcome: CatalogOutcome) -> Option<StatusView> {
    match outcome {
        CatalogOutcome::AggregateType(_) => None,
        CatalogOutcome::Conflict { reason } => Some(says(Code::AlreadyExists, reason@)),
        CatalogOutcome::Invalid { reason } => Some(says(Code::InvalidArgument, reason@)),
        CatalogOutcome::NotFound => Some(
            says(Code::Internal, "注册聚合类型返回 NotFound"@),
        ),
    }
}

/// Goes on after the type was created, or was not.
pub fn on_type_created(registration: Registration, answer: Result<CatalogOutcome, Status>) -> (stage:
    RegisterStage)
    ensures
        match answer {
            Err(s) => stage == RegisterStage::Done(Err(s)),
            Ok(outcome) => match creation_fault(outcome) {
                Some(fault) => stage matches RegisterStage::Done(Err(s)) && s@ == fault,
                None => stage == fencing(registration, outcome->AggregateType_0, 0),
            },
        },
{
    let outcome = match answer {
        Ok(outcome) => outcome,
        Err(s) => return RegisterStage::Done(Err(s)),
    };
    match type_created(outcome) {
        Err(s) => RegisterStage::Done(Err(s)),
        Ok(definition) => if definition.placements.entries.len() > 0 {
            RegisterStage::Fence { registration, definition, at: 0 }
        } else {
            RegisterStage::Activate(registration)
        },
    }
}

/// The generation that is installed in a stage.
pub fn fence_at(definition: &AggregateTypeDefinition, at: usize) -> (f: PartitionFence)
    requires
        definition.wf(),
        at < definition.placements.entries@.len(),
    ensures
        f.partition_id == definition.placements.key(at as int),
        f.shard_id == definition.placements.entries@[at as int].1.shard_id,
        f.generation == definition.placements.entries@[at as int].1.generation,
{
    proof {
        definition.placements.lemma_entry(at as int);
        assert(definition.placements.key(at as int) <= u16::MAX);
    }
    let entry = &definition.placements.entries[at];
    PartitionFence {
        partition_id: entry.0 as u16,
        shard_id: entry.1.shard_id,
        generation: entry.1.generation,
    }
}

/// Goes on after a partition was fenced, or was not.
pub fn on_partition_fenced(
    registration: Registration,
    definition: AggregateTypeDefinition,
    at: usize,
    answer: Result<u64, Status>,
) -> (stage: RegisterStage)
    requires
        at < definition.placements.entries@.len(),
    ensures
        stage == (match answer {
            Err(s) => RegisterStage::Done(Err(s)),
            Ok(_) => fencing(registration, definition, at + 1),
        }),
{
    let total: usize = definition.placements.entries.len();
    match answer {
        Err(s) => RegisterStage::Done(Err(s)),
        Ok(_) => if total - at > 1 {
            RegisterStage::Fence { registration, definition, at: at + 1 }
        } else {
            RegisterStage::Activate(registration)
        },
    }
}

/// Why a type is not activated.
pub open spec fn activation_fault(outcome: CatalogOutcome) -> Option<StatusView> {
    match outcome {
        CatalogOutcome::AggregateType(_) => None,
        CatalogOutcome::Conflict { reason } => Some(says(Code::FailedPrecondition, reason@)),
        CatalogOutcome::Invalid { reason } => Some(says(Code::InvalidArgument, reason@)),
        CatalogOutcome::NotFound => Some(says(Code::NotFound, "聚合类型不存在"@)),
    }
}

/// The stage is the last of a registration: it shows the active type, or says why there
/// is none.
pub open spec fn ends(stage: RegisterStage, answer: Result<(CatalogOutcome, u64), Status>) -> bool {
    match answer {
        Err(s) => stage == RegisterStage::Done(Err(s)),
        Ok((outcome, revision)) => match activation_fault(outcome) {
            Some(fault) => stage matches RegisterStage::Done(Err(s)) && s@ == fault,
            None => stage matches RegisterStage::Done(Ok(i)) && shows_type(
                i,
                outcome->AggregateType_0,
                revision,
            ),
        },
    }
}

/// Goes on after the type was activated, or was not; with the outcome comes the revision
/// of the catalog.
pub fn on_type_activated(answer: Result<(CatalogOutcome, u64), Status>) -> (stage: RegisterStage)
    ensures
        ends(stage, answer),
{
    match answer {
        Err(s) => RegisterStage::Done(Err(s)),
        Ok((outcome, revision)) => RegisterStage::Done(type_activated(outcome, revision)),
    }
}

/// The stage after these answers to fences, from the first on.
pub open spec fn stage_after_fences(
    registration: Registration,
    definition: AggregateTypeDefinition,
    answers: Seq<Result<u64, Status>>,
) -> RegisterStage
    decreases answers.len(),
{
    if answers.len() == 0 {
        fencing(registration, definition, 0)
    } else {
        match stage_after_fences(registration, definition, answers.drop_last()) {
            RegisterStage::Fence { registration: r, definition: d, at } => match answers.last() {
                Err(s) => RegisterStage::Done(Err(s)),
                Ok(_) => fencing(r, d, at + 1),
            },
            other => other,
        }
    }
}

/// The stages up to `at` are as many as the answers, and all of these were good.
proof fn lemma_fencing(
    registration: Registration,
    definition: AggregateTypeDefinition,
    answers: Seq<Result<u64, Status>>,
)
    requires
        definition.placements.entries@.len() <= usize::MAX,
    ensures
        ({
            let total = definition.placements.entries@.len();
            match stage_after_fences(registration, definition, answers) {
                RegisterStage::Fence { registration: r, definition: d, at } => r == registration
                    && d == definition && at == answers.len() && at < total && forall|i: int|
                    0 <= i < answers.len() ==> #[trigger] answers[i] is Ok,
                RegisterStage::Activate(r) => r == registration && answers.len() >= total
                    && forall|i: int| 0 <= i < total ==> #[trigger] answers[i] is Ok,
                _ => true,
            }
        }),
    decreases answers.len(),
{
    if answers.len() > 0 {
        let rest = answers.drop_last();
        lemma_fencing(registration, definition, rest);
        assert forall|i: int| 0 <= i < rest.len() implies rest[i] == #[trigger] answers[i] by {}
    }
}

/// A type is activated only when every partition was fenced at its shard, each with a
/// good answer; and it is then the type that was registered.
pub proof fn law_activation_follows_every_fence(
    registration: Registration,
    definition: AggregateTypeDefinition,
    answers: Seq<Result<u64, Status>>,
)
    requires
        definition.placements.entries@.len() <= usize::MAX,
        stage_after_fences(registration, definition, answers) is Activate,
    ensures
        stage_after_fences(registration, definition, answers) == RegisterStage::Activate(
            registration,
        ),
        answers.len() >= definition.placements.entries@.len(),
        forall|i: int|
            0 <= i < definition.placements.entries@.len() ==> #[trigger] answers[i] is Ok,
{
    lemma_fencing(registration, definition, answers);
}

proof fn lemma_all_fenced(
    registration: Registration,
    definition: AggregateTypeDefinition,
    answers: Seq<Result<u64, Status>>,
)
    requires
        definition.placements.entries@.len() <= usize::MAX,
        answers.len() <= definition.placements.entries@.len(),
        forall|i: int| 0 <= i < answers.len() ==> #[trigger] answers[i] is Ok,
    ensures
        stage_after_fences(registration, definition, answers) == fencing(
            registration,
            definition,
            answers.len() as int,
        ),
    decreases answers.len(),
{
    if answers.len() > 0 {
        let rest = answers.drop_last();
        assert forall|i: int| 0 <= i < rest.len() implies #[trigger] rest[i] is Ok by {
            assert(rest[i] == answers[i]);
        }
        lemma_all_fenced(registration, definition, rest);
        assert(answers[answers.len() - 1] is Ok);
    }
}

/// The catalog placed the partitions as it was asked: partition `i` on shard
/// `placements[i]`.
pub open spec fn places_as_asked(d: AggregateTypeDefinition, placements: Seq<u64>) -> bool {
    &&& d.placements.entries@.len() == placements.len()
    &&& forall|i: int|
        0 <= i < placements.len() ==> (#[trigger] d.placements.entries@[i]).0 == i
            && d.placements.entries@[i].1.shard_id == placements[i]
}

/// A new type of which the catalog places the partitions as it is asked: partition `p`
/// is fenced on shard `p` round the shards in turn, for every one of the partitions;
/// when all answers to the fences are good, and only then, the type is activated; and
/// the reply shows what the catalog made active.
pub proof fn law_registration_spreads_fences_and_activates(
    stage: RegisterStage,
    value: Option<AggregateTypeRef>,
    verdict: Result<(), String>,
    operation_id: Seq<u8>,
    all_shards: Seq<u64>,
    created: AggregateTypeDefinition,
    answers: Seq<Result<u64, Status>>,
    active: AggregateTypeDefinition,
    revision: u64,
    last: RegisterStage,
)
    requires
        all_shards.len() > 0,
        begins(stage, value, verdict, operation_id, all_shards),
        stage is Create,
        places_as_asked(created, stage->placements@),
        answers.len() == EVENT_PARTITION_COUNT,
        active.partition_count == EVENT_PARTITION_COUNT,
        active.status == AggregateTypeStatus::Active,
        ends(last, Ok((CatalogOutcome::AggregateType(active), revision))),
    ensures
        created.placements.entries@.len() == EVENT_PARTITION_COUNT,
        forall|p: int|
            0 <= p < EVENT_PARTITION_COUNT ==> (#[trigger] created.placements.entries@[p]).0 == p
                && created.placements.entries@[p].1.shard_id == all_shards[p
                % all_shards.len() as int],
        stage_after_fences(stage->Create_registration, created, answers) is Activate <==> forall|
            p: int,
        |
            0 <= p < EVENT_PARTITION_COUNT ==> #[trigger] answers[p] is Ok,
        last matches RegisterStage::Done(Ok(i)) && i.partition_count == EVENT_PARTITION_COUNT
            && i.status == AggregateTypeStatus::Active && i.catalog_revision == revision,
{
    let registration = stage->Create_registration;
    if stage_after_fences(registration, created, answers) is Activate {
        law_activation_follows_every_fence(registration, created, answers);
    }
    if forall|p: int| 0 <= p < EVENT_PARTITION_COUNT ==> #[trigger] answers[p] is Ok {
        lemma_all_fenced(registration, created, answers);
    }
}

/// One run of a registration from its first stage to its last: what the catalog created,
/// what the fences were answered, what the catalog made active, and its revision then.
pub struct RegistrationRun {
    pub first: RegisterStage,
    pub created: AggregateTypeDefinition,
    pub answers: Seq<Result<u64, Status>>,
    pub active: AggregateTypeDefinition,
    pub revision: u64,
    pub last: RegisterStage,
}

/// The run is one of this request where every leader can be reached: the catalog has the
/// type with its partitions as asked, all fences are installed, and the catalog makes the
/// type active.
pub open spec fn runs_well(
    run: RegistrationRun,
    value: Option<AggregateTypeRef>,
    verdict: Result<(), String>,
    operation_id: Seq<u8>,
    all_shards: Seq<u64>,
) -> bool {
    &&& begins(run.first, value, verdict, operation_id, all_shards)
    &&& run.first is Create
    &&& places_as_asked(run.created, run.first->placements@)
    &&& run.answers.len() == EVENT_PARTITION_COUNT
    &&& forall|p: int| 0 <= p < run.answers.len() ==> #[trigger] run.answers[p] is Ok
    &&& run.active.id@ == run.first->Create_registration.aggregate_type@
    &&& run.active.partition_count == EVENT_PARTITION_COUNT
    &&& run.active.status == AggregateTypeStatus::Active
    &&& ends(run.last, Ok((CatalogOutcome::AggregateType(run.active), run.revision)))
}

/// The run reaches activation by way of every fence, and its reply shows the type active
/// and with all its partitions.
pub open spec fn registers(run: RegistrationRun, id: TypeView) -> bool {
    &&& stage_after_fences(run.first->Create_registration, run.created, run.answers) is Activate
    &&& run.last matches RegisterStage::Done(Ok(i))
    &&& is_of_type(i, id)
    &&& i.partition_count == EVENT_PARTITION_COUNT
    &&& i.status == AggregateTypeStatus::Active
}

/// A type that is registered twice by one operation, with a catalog that has no type
/// twice: both requests register it, and a list of the catalog shows it once.
pub proof fn law_registration_can_be_repeated(
    first: RegistrationRun,
    second: RegistrationRun,
    value: Option<AggregateTypeRef>,
    verdict: Result<(), String>,
    operation_id: Seq<u8>,
    all_shards: Seq<u64>,
    catalog: AggregateCatalog,
    place: int,
    shown: Seq<AggregateTypeInfo>,
)
    requires
        all_shards.len() > 0,
        runs_well(first, value, verdict, operation_id, all_shards),
        runs_well(second, value, verdict, operation_id, all_shards),
        has_each_once(catalog),
        is_entry(catalog, second.active.id@, place),
        lists_types(shown, catalog),
    ensures
        registers(first, second.active.id@),
        registers(second, second.active.id@),
        forall|k: int|
            0 <= k < shown.len() ==> (is_of_type(#[trigger] shown[k], second.active.id@) <==> k
                == place),
{
    law_repeated_registration_asks_the_same(
        first.first,
        second.first,
        value,
        verdict,
        operation_id,
        all_shards,
    );
    lemma_registers(first, value, verdict, operation_id, all_shards);
    lemma_registers(second, value, verdict, operation_id, all_shards);
    assert forall|k: int| 0 <= k < shown.len() implies (is_of_type(
        #[trigger] shown[k],
        second.active.id@,
    ) <==> k == place) by {
        let entry = catalog.aggregate_types@[k];
        assert(shows_type(shown[k], entry, catalog.revision));
        assert(catalog.aggregate_types@[place].id@ == second.active.id@);
        if is_of_type(shown[k], second.active.id@) {
            assert(entry.id@ =~= second.active.id@);
        }
    }
}

proof fn lemma_registers(
    run: RegistrationRun,
    value: Option<AggregateTypeRef>,
    verdict: Result<(), String>,
    operation_id: Seq<u8>,
    all_shards: Seq<u64>,
)
    requires
        all_shards.len() > 0,
        runs_well(run, value, verdict, operation_id, all_shards),
    ensures
        registers(run, run.active.id@),
{
    law_registration_spreads_fences_and_activates(
        run.first,
        value,
        verdict,
        operation_id,
        all_shards,
        run.created,
        run.answers,
        run.active,
        run.revision,
        run.last,
    );
}

/// A registration that is asked for twice asks the catalog for the same both times: the
/// same type, by the same operation, with the same places.
pub proof fn law_repeated_registration_asks_the_same(
    first: RegisterStage,
    second: RegisterStage,
    value: Option<AggregateTypeRef>,
    verdict: Result<(), String>,
    operation_id: Seq<u8>,
    all_shards: Seq<u64>,
)
    requires
        begins(first, value, verdict, operation_id, all_shards),
        begins(second, value, verdict, operation_id, all_shards),
        first is Create,
    ensures
        second is Create,
        second->Create_registration == first->Create_registration,
        second->placements@ == first->placements@,
        second->seed@ == first->seed@,
{
    assert(second->placements@ =~= first->placements@);
}


/// A registration begins by creating the type where its name and the operation's sixteen
/// bytes are accepted, with its partitions spread over all shards; else it is refused.
pub proof fn law_registration_begins_with_the_partitions_spread(
    value: Option<AggregateTypeRef>,
    verdict: Result<(), String>,
    operation_id: Vec<u8>,
    all_shards: Vec<u64>,
    stage: RegisterStage,
    i: int,
)
    requires
        all_shards@.len() > 0,
        call_ensures(register, (value, verdict, &operation_id, &all_shards), stage),
    ensures
        stage is Create <==> value is Some && verdict is Ok && operation_id@.len() == 16,
        !(stage is Create) ==> (stage matches RegisterStage::Done(Err(s)) && s@.code
            == Code::InvalidArgument),
        stage matches RegisterStage::Create { registration, placements, seed } ==> {
            &&& registration.aggregate_type.business_space@ == value->0.business_space@
            &&& registration.aggregate_type.aggregate_type@ == value->0.aggregate_type@
            &&& registration.operation_id == big_endian(operation_id@)
            &&& seed@ == operation_id@
            &&& placements@.len() == 256
            &&& 0 <= i < 256 && i < all_shards@.len() ==> placements@[i] == all_shards@[i]
            &&& 0 <= i && i + all_shards@.len() < 256 ==> placements@[i + all_shards@.len()]
                == placements@[i]
        },
{
    if let RegisterStage::Create { registration, placements, seed } = stage {
        let n = all_shards@.len() as int;
        if 0 <= i < 256 {
            assert(placements@[i] == all_shards@[i % n]);
            if i < n {
                assert(i % n == i) by (nonlinear_arith)
                    requires
                        0 <= i < n,
                ;
            }
        }
        if 0 <= i && i + n < 256 {
            assert(placements@[i + n] == all_shards@[(i + n) % n]);
            assert((i + n) % n == i % n) by (nonlinear_arith)
                requires
                    0 <= i,
                    0 < n,
            ;
        }
    }
}

/// A type that was created has its partitions fenced one after the other, beginning with
/// the first, each where it is placed; after the last one the type is activated.
pub proof fn law_partitions_are_fenced_in_turn(
    registration: Registration,
    definition: AggregateTypeDefinition,
    at: usize,
    generation: u64,
    first: RegisterStage,
    next: RegisterStage,
)
    requires
        at < definition.placements.entries@.len(),
        call_ensures(
            on_type_created,
            (
                registration,
                Ok::<CatalogOutcome, Status>(CatalogOutcome::AggregateType(definition)),
            ),
            first,
        ),
        call_ensures(
            on_partition_fenced,
            (registration, definition, at, Ok::<u64, Status>(generation)),
            next,
        ),
    ensures
        first == (RegisterStage::Fence { registration, definition, at: 0 }),
        at + 1 < definition.placements.entries@.len() ==> next == (RegisterStage::Fence {
            registration,
            definition,
            at: (at + 1) as usize,
        }),
        at + 1 == definition.placements.entries@.len() ==> next == RegisterStage::Activate(
            registration,
        ),
{
}

/// A refusal anywhere ends the registration with it.
pub proof fn law_refusal_ends_the_registration(
    registration: Registration,
    definition: AggregateTypeDefinition,
    at: usize,
    s: Status,
    created: RegisterStage,
    fenced: RegisterStage,
    activated: RegisterStage,
)
    requires
        call_ensures(on_type_created, (registration, Err::<CatalogOutcome, Status>(s)), created),
        call_ensures(
            on_partition_fenced,
            (registration, definition, at, Err::<u64, Status>(s)),
            fenced,
        ),
        call_ensures(on_type_activated, (Err::<(CatalogOutcome, u64), Status>(s),), activated),
    ensures
        created == RegisterStage::Done(Err(s)),
        fenced == RegisterStage::Done(Err(s)),
        activated == RegisterStage::Done(Err(s)),
{
}

/// The outcomes of the catalog have their codes, in a creation and in an activation.
pub proof fn law_catalog_outcomes_have_their_codes(
    registration: Registration,
    outcome: CatalogOutcome,
    revision: u64,
    created: RegisterStage,
    activated: RegisterStage,
)
    requires
        call_ensures(
            on_type_created,
            (registration, Ok::<CatalogOutcome, Status>(outcome)),
            created,
        ),
        call_ensures(
            on_type_activated,
            (Ok::<(CatalogOutcome, u64), Status>((outcome, revision)),),
            activated,
        ),
    ensures
        outcome is Conflict ==> (created matches RegisterStage::Done(Err(s)) && s@.code
            == Code::AlreadyExists) && (activated matches RegisterStage::Done(Err(s)) && s@.code
            == Code::FailedPrecondition),
        outcome is Invalid ==> (created matches RegisterStage::Done(Err(s)) && s@.code
            == Code::InvalidArgument) && (activated matches RegisterStage::Done(Err(s)) && s@.code
            == Code::InvalidArgument),
        outcome is NotFound ==> (created matches RegisterStage::Done(Err(s)) && s@.code
            == Code::Internal) && (activated matches RegisterStage::Done(Err(s)) && s@.code
            == Code::NotFound),
        outcome matches CatalogOutcome::AggregateType(d) ==> (activated matches RegisterStage::Done(
            Ok(i),
        ) && i.aggregate_type.business_space@ == d.id.business_space@
            && i.aggregate_type.aggregate_type@ == d.id.aggregate_type@ && i.status == d.status
            && i.partition_count == d.partition_count && i.catalog_revision == revision),
{
}


/// Each partition is fenced at the shard and in the generation that it is placed at.
pub proof fn law_partition_is_fenced_where_it_is_placed(
    definition: AggregateTypeDefinition,
    at: usize,
    f: PartitionFence,
)
    requires
        definition.wf(),
        at < definition.placements.entries@.len(),
        call_ensures(fence_at, (&definition, at), f),
    ensures
        definition.placements@.dom().contains(f.partition_id as u64),
        f.shard_id == definition.placements@[f.partition_id as u64].shard_id,
        f.generation == definition.placements@[f.partition_id as u64].generation,
        f.partition_id == definition.placements.entries@[at as int].0,
{
    definition.placements.lemma_entry(at as int);
    assert(definition.placements@.dom().contains(definition.placements.key(at as int)));
}

} // verus!
