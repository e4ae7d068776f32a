//! Aggregate types: what the catalog says of them, and what is shown.

use vstd::prelude::*;

use crate::aggregate_tokens::{AggregateTypeId, TypeView};
use crate::maps::IdMap;
use crate::order::{distinct, lists};
use crate::status::{Code, Status, StatusView, says};
use crate::text::join3;

verus! {

/// How many partitions an aggregate type has.
pub const EVENT_PARTITION_COUNT: u16 = 256;

/// Whether an aggregate type can be used.
#[derive(Clone, Copy, Debug, PartialEq, Eq, Structural)]
pub enum AggregateTypeStatus {
    Registering,
    Active,
}

/// Where a partition is.
#[derive(Clone, Copy, Debug, PartialEq, Eq, Structural)]
pub struct Placement {
    pub shard_id: u64,
    pub generation: u64,
    /// The shard that the partition moves to, while it does.
    pub moving_to: Option<u64>,
}

/// What the catalog says of an aggregate type.
#[derive(Debug)]
pub struct AggregateTypeDefinition {
    pub id: AggregateTypeId,
    pub partition_count: u16,
    pub status: AggregateTypeStatus,
    /// Where each partition is, by its number.
    pub placements: IdMap<Placement>,
}

impl AggregateTypeDefinition {
    pub open spec fn wf(&self) -> bool {
        self.placements.wf() && forall|k: u64| #[trigger]
            self.placements@.dom().contains(k) ==> k <= u16::MAX
    }
}

/// The name of an aggregate type in a request.
#[derive(Debug)]
pub struct AggregateTypeRef {
    pub business_space: String,
    pub aggregate_type: String,
}

/// What is wrong with the name of an aggregate type in a request; `verdict` says what the
/// rules on names have against it.
pub open spec fn type_fault(
    value: Option<AggregateTypeRef>,
    verdict: Result<(), String>,
) -> Option<StatusView> {
    match (value, verdict) {
        (None, _) => Some(says(Code::InvalidArgument, "aggregate_type 必填"@)),
        (Some(_), Err(e)) => Some(says(Code::InvalidArgument, e@)),
        (Some(_), Ok(_)) => None,
    }
}

/// Reads the name of an aggregate type.  `verdict` says what the rules on names have
/// against it.
pub fn proto_aggregate_type(value: Option<AggregateTypeRef>, verdict: Result<(), String>) -> (r:
    Result<AggregateTypeId, Status>)
    ensures
        match r {
            Ok(id) => type_fault(value, verdict) is None && id.business_space
                == value->0.business_space && id.aggregate_type == value->0.aggregate_type,
            Err(s) => type_fault(value, verdict) == Some(s@),
        },
{
    match value {
        None => Err(Status::of(Code::InvalidArgument, "aggregate_type 必填")),
        Some(v) => match verdict {
            Ok(_) => Ok(
                AggregateTypeId {
                    business_space: v.business_space,
                    aggregate_type: v.aggregate_type,
                },
            ),
            Err(e) => Err(Status::new(Code::InvalidArgument, e)),
        },
    }
}

/// Shows the name of an aggregate type.
pub fn aggregate_type_to_proto(aggregate_type: &AggregateTypeId) -> (r: AggregateTypeRef)
    ensures
        r.business_space@ == aggregate_type@.space,
        r.aggregate_type@ == aggregate_type@.kind,
{
    AggregateTypeRef {
        business_space: aggregate_type.business_space.clone(),
        aggregate_type: aggregate_type.aggregate_type.clone(),
    }
}

/// What is shown of an aggregate type.
#[derive(Debug)]
pub struct AggregateTypeInfo {
    pub aggregate_type: AggregateTypeRef,
    pub partition_count: u32,
    pub hash_algorithm: String,
    pub status: AggregateTypeStatus,
    pub catalog_revision: u64,
}

/// `i` shows the aggregate type.
pub open spec fn shows_type(
    i: AggregateTypeInfo,
    d: AggregateTypeDefinition,
    catalog_revision: u64,
) -> bool {
    &&& i.aggregate_type.business_space@ == d.id@.space
    &&& i.aggregate_type.aggregate_type@ == d.id@.kind
    &&& i.partition_count == d.partition_count
    &&& i.hash_algorithm@ == "xxh3-v1"@
    &&& i.status == d.status
    &&& i.catalog_revision == catalog_revision
}

/// Shows an aggregate type.
pub fn aggregate_type_info(d: &AggregateTypeDefinition, catalog_revision: u64) -> (i:
    AggregateTypeInfo)
    ensures
        shows_type(i, *d, catalog_revision),
{
    AggregateTypeInfo {
        aggregate_type: aggregate_type_to_proto(&d.id),
        partition_count: d.partition_count as u32,
        hash_algorithm: String::from_str("xxh3-v1"),
        status: d.status,
        catalog_revision,
    }
}

/// The aggregate types there are, each once.
#[derive(Debug)]
pub struct AggregateCatalog {
    pub revision: u64,
    pub aggregate_types: Vec<AggregateTypeDefinition>,
}

/// The place of an aggregate type in the catalog.
pub open spec fn catalog_place(c: AggregateCatalog, id: TypeView) -> Option<int> {
    if exists|i: int| is_entry(c, id, i) {
        Some(choose|i: int| is_entry(c, id, i))
    } else {
        None
    }
}

/// The catalog's entry number `i` is the first of the aggregate type.
pub open spec fn is_entry(c: AggregateCatalog, id: TypeView, i: int) -> bool {
    &&& 0 <= i < c.aggregate_types@.len()
    &&& c.aggregate_types@[i].id@ == id
    &&& forall|j: int| 0 <= j < i ==> (#[trigger] c.aggregate_types@[j]).id@ != id
}

/// The list shows each entry of the catalog, in its order.
pub open spec fn lists_types(out: Seq<AggregateTypeInfo>, c: AggregateCatalog) -> bool {
    &&& out.len() == c.aggregate_types@.len()
    &&& forall|i: int|
        0 <= i < out.len() ==> shows_type(#[trigger] out[i], c.aggregate_types@[i], c.revision)
}

/// The catalog has no aggregate type twice.
pub open spec fn has_each_once(c: AggregateCatalog) -> bool {
    forall|i: int, j: int|
        0 <= i < j < c.aggregate_types@.len() ==> (#[trigger] c.aggregate_types@[i]).id@ != (
        #[trigger] c.aggregate_types@[j]).id@
}

/// What is shown is of the aggregate type.
pub open spec fn is_of_type(i: AggregateTypeInfo, id: TypeView) -> bool {
    i.aggregate_type.business_space@ == id.space && i.aggregate_type.aggregate_type@ == id.kind
}

impl AggregateCatalog {
    /// Finds an aggregate type.
    pub fn find(&self, id: &AggregateTypeId) -> (r: Option<usize>)
        ensures
            match r {
                Some(i) => catalog_place(*self, id@) == Some(i as int) && is_entry(
                    *self,
                    id@,
                    i as int,
                ),
                None => catalog_place(*self, id@) is None && forall|i: int|
                    0 <= i < self.aggregate_types@.len() ==> (
                    #[trigger] self.aggregate_types@[i]).id@ != id@,
            },
    {
        let mut i: usize = 0;
        while i < self.aggregate_types.len()
            invariant
                i <= self.aggregate_types@.len(),
                forall|j: int| 0 <= j < i ==> (#[trigger] self.aggregate_types@[j]).id@ != id@,
            decreases self.aggregate_types@.len() - i,
        {
            if self.aggregate_types[i].id.same(id) {
                proof {
                    let me = *self;
                    assert(is_entry(me, id@, i as int));
                    let k = choose|k: int| is_entry(me, id@, k);
                    assert(is_entry(me, id@, k));
                    if k < i {
                        assert(me.aggregate_types@[k].id@ != id@);
                    }
                    if i < k {
                        assert(me.aggregate_types@[i as int].id@ != id@);
                    }
                }
                return Some(i);
            }
            i += 1;
        }
        None
    }

    /// Finds an aggregate type that a request is about.
    pub fn get(&self, id: &AggregateTypeId) -> (r: Result<usize, Status>)
        ensures
            match r {
                Ok(i) => is_entry(*self, id@, i as int),
                Err(s) => catalog_place(*self, id@) is None && s@ == says(
                    Code::NotFound,
                    "聚合类型不存在"@,
                ),
            },
    {
        match self.find(id) {
            Some(i) => Ok(i),
            None => Err(Status::of(Code::NotFound, "聚合类型不存在")),
        }
    }

    /// Finds an aggregate type that has to be active; `shown` is its name as it is shown.
    pub fn require_active(&self, id: &AggregateTypeId, shown: &str) -> (r: Result<usize, Status>)
        ensures
            match r {
                Ok(i) => is_entry(*self, id@, i as int) && self.aggregate_types@[i as int].status
                    == AggregateTypeStatus::Active,
                Err(s) => match catalog_place(*self, id@) {
                    None => s@ == says(
                        Code::NotFound,
                        "聚合类型 "@ + shown@ + " 不存在"@,
                    ),
                    Some(i) => self.aggregate_types@[i].status != AggregateTypeStatus::Active && s@
                        == says(
                        Code::Unavailable,
                        "聚合类型 "@ + shown@ + " 尚未激活，请重试"@,
                    ),
                },
            },
    {
        match self.find(id) {
            None => {
                Err(Status::new(Code::NotFound, join3("聚合类型 ", shown, " 不存在")))
            },
            Some(i) => {
                if self.aggregate_types[i].status != AggregateTypeStatus::Active {
                        return Err(
                        Status::new(
                            Code::Unavailable,
                            join3("聚合类型 ", shown, " 尚未激活，请重试"),
                        ),
                    );
                }
                Ok(i)
            },
        }
    }

    /// Shows all aggregate types.
    pub fn list(&self) -> (out: Vec<AggregateTypeInfo>)
        ensures
            lists_types(out@, *self),
    {
        let mut out: Vec<AggregateTypeInfo> = Vec::new();
        let mut i: usize = 0;
        while i < self.aggregate_types.len()
            invariant
                i <= self.aggregate_types@.len(),
                out@.len() == i,
                forall|k: int|
                    0 <= k < i ==> shows_type(
                        #[trigger] out@[k],
                        self.aggregate_types@[k],
                        self.revision,
                    ),
            decreases self.aggregate_types@.len() - i,
        {
            out.push(aggregate_type_info(&self.aggregate_types[i], self.revision));
            i += 1;
        }
        out
    }

    /// Counts the aggregate types.
    pub fn status(&self) -> (s: AggregateStoreStatus)
        ensures
            ({
                let registering = registering(self.aggregate_types@);
                &&& s.catalog_revision == self.revision
                &&& s.aggregate_type_count == self.aggregate_types@.len() as u32
                &&& s.registering_aggregate_type_count == registering as u32
                &&& s.active_aggregate_type_count == (self.aggregate_types@.len()
                    - registering) as u32
            }),
    {
        let mut n: usize = 0;
        let mut i: usize = 0;
        proof {
            assert(self.aggregate_types@.take(0) =~= Seq::<AggregateTypeDefinition>::empty());
        }
        while i < self.aggregate_types.len()
            invariant
                i <= self.aggregate_types@.len(),
                n <= i,
                n == registering(self.aggregate_types@.take(i as int)),
            decreases self.aggregate_types@.len() - i,
        {
            proof {
                let all = self.aggregate_types@;
                assert(all.take(i + 1).drop_last() =~= all.take(i as int));
                assert(all.take(i + 1).last() == all[i as int]);
            }
            if self.aggregate_types[i].status == AggregateTypeStatus::Registering {
                n += 1;
            }
            i += 1;
        }
        proof {
            assert(self.aggregate_types@.take(self.aggregate_types@.len() as int)
                =~= self.aggregate_types@);
        }
        AggregateStoreStatus {
            catalog_revision: self.revision,
            aggregate_type_count: self.aggregate_types.len() as u32,
            registering_aggregate_type_count: n as u32,
            active_aggregate_type_count: (self.aggregate_types.len() - n) as u32,
        }
    }
}

/// How many of the aggregate types are being registered.
pub open spec fn registering(s: Seq<AggregateTypeDefinition>) -> nat
    decreases s.len(),
{
    if s.len() == 0 {
        0
    } else {
        registering(s.drop_last()) + if s.last().status == AggregateTypeStatus::Registering {
            1nat
        } else {
            0nat
        }
    }
}

/// How many aggregate types there are.
#[derive(Clone, Copy, Debug, PartialEq, Eq, Structural)]
pub struct AggregateStoreStatus {
    pub catalog_revision: u64,
    pub aggregate_type_count: u32,
    pub registering_aggregate_type_count: u32,
    pub active_aggregate_type_count: u32,
}

/// What is shown of a partition.
#[derive(Clone, Copy, Debug, PartialEq, Eq, Structural)]
pub struct AggregatePartitionInfo {
    pub partition_id: u32,
    pub shard_id: u64,
    pub generation: u64,
    pub moving: bool,
    pub target_shard_id: u64,
}

/// What is shown of the partition with this number and place.
pub open spec fn partition_info(partition: u64, p: Placement) -> AggregatePartitionInfo {
    AggregatePartitionInfo {
        partition_id: partition as u32,
        shard_id: p.shard_id,
        generation: p.generation,
        moving: p.moving_to is Some,
        target_shard_id: match p.moving_to {
            Some(s) => s,
            None => 0,
        },
    }
}

/// Shows the partitions of an aggregate type, in ascending order.
pub fn list_partitions(d: &AggregateTypeDefinition) -> (out: Vec<AggregatePartitionInfo>)
    ensures
        out@.len() == d.placements.entries@.len(),
        forall|i: int|
            0 <= i < out@.len() ==> #[trigger] out@[i] == partition_info(
                d.placements.entries@[i].0,
                d.placements.entries@[i].1,
            ),
{
    let mut out: Vec<AggregatePartitionInfo> = Vec::new();
    let mut i: usize = 0;
    while i < d.placements.entries.len()
        invariant
            i <= d.placements.entries@.len(),
            out@.len() == i,
            forall|k: int|
                0 <= k < i ==> #[trigger] out@[k] == partition_info(
                    d.placements.entries@[k].0,
                    d.placements.entries@[k].1,
                ),
        decreases d.placements.entries@.len() - i,
    {
        let p = d.placements.entries[i].1;
        out.push(
            AggregatePartitionInfo {
                partition_id: d.placements.entries[i].0 as u32,
                shard_id: p.shard_id,
                generation: p.generation,
                moving: p.moving_to.is_some(),
                target_shard_id: match p.moving_to {
                    Some(s) => s,
                    None => 0,
                },
            },
        );
        i += 1;
    }
    out
}

/// The partitions on a shard, in ascending order.
pub open spec fn partitions_on(entries: Seq<(u64, Placement)>, shard: u64) -> Seq<u16>
    decreases entries.len(),
{
    if entries.len() == 0 {
        Seq::empty()
    } else {
        let rest = partitions_on(entries.drop_last(), shard);
        if entries.last().1.shard_id == shard {
            rest.push(entries.last().0 as u16)
        } else {
            rest
        }
    }
}

/// The shards that have partitions.
pub open spec fn shards_with(entries: Seq<(u64, Placement)>) -> Set<u64> {
    entries.map_values(|e: (u64, Placement)| e.1.shard_id).to_set()
}

/// Groups the partitions of an aggregate type by shard, shards in ascending order.
pub fn partitions_by_shard(d: &AggregateTypeDefinition) -> (groups: Vec<(u64, Vec<u16>)>)
    ensures
        lists(
            groups@.map_values(|g: (u64, Vec<u16>)| g.0),
            shards_with(d.placements.entries@),
        ),
        forall|i: int|
            0 <= i < groups@.len() ==> (#[trigger] groups@[i]).1@ == partitions_on(
                d.placements.entries@,
                groups@[i].0,
            ),
{
    let ghost entries = d.placements.entries@;
    let mut ids: Vec<u64> = Vec::new();
    let mut i: usize = 0;
    while i < d.placements.entries.len()
        invariant
            i <= entries.len(),
            entries == d.placements.entries@,
            ids@.len() == i,
            forall|k: int| 0 <= k < i ==> #[trigger] ids@[k] == entries[k].1.shard_id,
        decreases entries.len() - i,
    {
        ids.push(d.placements.entries[i].1.shard_id);
        i += 1;
    }
    assert(ids@ =~= entries.map_values(|e: (u64, Placement)| e.1.shard_id));
    let shards = distinct(&ids);
    let mut groups: Vec<(u64, Vec<u16>)> = Vec::new();
    let mut k: usize = 0;
    while k < shards.len()
        invariant
            k <= shards@.len(),
            entries == d.placements.entries@,
            groups@.len() == k,
            forall|j: int| 0 <= j < k ==> (#[trigger] groups@[j]).0 == shards@[j],
            forall|j: int|
                0 <= j < k ==> (#[trigger] groups@[j]).1@ == partitions_on(entries, shards@[j]),
        decreases shards@.len() - k,
    {
        let shard = shards[k];
        let mut out: Vec<u16> = Vec::new();
        let mut n: usize = 0;
        proof {
            assert(entries.take(0) =~= Seq::<(u64, Placement)>::empty());
        }
        while n < d.placements.entries.len()
            invariant
                n <= entries.len(),
                entries == d.placements.entries@,
                out@ == partitions_on(entries.take(n as int), shard),
            decreases entries.len() - n,
        {
            proof {
                assert(entries.take(n + 1).drop_last() =~= entries.take(n as int));
                assert(entries.take(n + 1).last() == entries[n as int]);
            }
            if d.placements.entries[n].1.shard_id == shard {
                out.push(d.placements.entries[n].0 as u16);
            }
            n += 1;
        }
        proof {
            assert(entries.take(entries.len() as int) =~= entries);
        }
        groups.push((shard, out));
        k += 1;
    }
    assert(groups@.map_values(|g: (u64, Vec<u16>)| g.0) =~= shards@);
    groups
}

/// The partitions of a group of [`partitions_by_shard`] are partitions of the type.
pub proof fn lemma_partitions_on(entries: Seq<(u64, Placement)>, shard: u64, i: int)
    requires
        0 <= i < partitions_on(entries, shard).len(),
    ensures
        exists|k: int|
            0 <= k < entries.len() && (#[trigger] entries[k]).1.shard_id == shard
                && entries[k].0 as u16 == partitions_on(entries, shard)[i],
    decreases entries.len(),
{
    let rest = partitions_on(entries.drop_last(), shard);
    if i < rest.len() {
        lemma_partitions_on(entries.drop_last(), shard, i);
        let k = choose|k: int|
            0 <= k < entries.drop_last().len() && (
            #[trigger] entries.drop_last()[k]).1.shard_id == shard && entries.drop_last()[k].0
                as u16 == rest[i];
        assert(entries[k] == entries.drop_last()[k]);
    } else {
        assert(entries[entries.len() - 1] == entries.last());
    }
}

/// Where the partitions of a new aggregate type go: round the shards in turn.
pub fn spread_partitions(all_shards: &Vec<u64>) -> (out: Vec<u64>)
    requires
        all_shards@.len() > 0,
    ensures
        out@.len() == EVENT_PARTITION_COUNT,
        forall|i: int|
            0 <= i < out@.len() ==> #[trigger] out@[i] == all_shards@[i % all_shards@.len() as int],
{
    let mut out: Vec<u64> = Vec::new();
    let mut i: usize = 0;
    while i < EVENT_PARTITION_COUNT as usize
        invariant
            i <= EVENT_PARTITION_COUNT,
            all_shards@.len() > 0,
            out@.len() == i,
            forall|k: int|
                0 <= k < i ==> #[trigger] out@[k] == all_shards@[k % all_shards@.len() as int],
        decreases EVENT_PARTITION_COUNT - i,
    {
        let n: usize = all_shards.len();
        out.push(all_shards[i % n]);
        i += 1;
    }
    out
}

/// What the catalog makes of a command.
#[derive(Debug)]
pub enum CatalogOutcome {
    AggregateType(AggregateTypeDefinition),
    Conflict { reason: String },
    Invalid { reason: String },
    NotFound,
}

/// Takes what came of the first step of a registration.
pub fn type_created(outcome: CatalogOutcome) -> (r: Result<AggregateTypeDefinition, Status>)
    ensures
        match outcome {
            CatalogOutcome::AggregateType(d) => r == Ok::<AggregateTypeDefinition, Status>(d),
            CatalogOutcome::Conflict { reason } => r matches Err(s) && s@ == says(
                Code::AlreadyExists,
                reason@,
            ),
            CatalogOutcome::Invalid { reason } => r matches Err(s) && s@ == says(
                Code::InvalidArgument,
                reason@,
            ),
            CatalogOutcome::NotFound => r matches Err(s) && s@ == says(
                Code::Internal,
                "注册聚合类型返回 NotFound"@,
            ),
        },
{
    match outcome {
        CatalogOutcome::AggregateType(d) => Ok(d),
        CatalogOutcome::Conflict { reason } => Err(Status::new(Code::AlreadyExists, reason)),
        CatalogOutcome::Invalid { reason } => Err(Status::new(Code::InvalidArgument, reason)),
        CatalogOutcome::NotFound => Err(Status::of(Code::Internal, "注册聚合类型返回 NotFound")),
    }
}

/// Takes what came of the last step of a registration, at this revision of the catalog.
pub fn type_activated(outcome: CatalogOutcome, revision: u64) -> (r: Result<
    AggregateTypeInfo,
    Status,
>)
    ensures
        match outcome {
            CatalogOutcome::AggregateType(d) => r matches Ok(i) && shows_type(i, d, revision),
            CatalogOutcome::Conflict { reason } => r matches Err(s) && s@ == says(
                Code::FailedPrecondition,
                reason@,
            ),
            CatalogOutcome::Invalid { reason } => r matches Err(s) && s@ == says(
                Code::InvalidArgument,
                reason@,
            ),
            CatalogOutcome::NotFound => r matches Err(s) && s@ == says(
                Code::NotFound,
                "聚合类型不存在"@,
            ),
        },
{
    match outcome {
        CatalogOutcome::AggregateType(d) => Ok(aggregate_type_info(&d, revision)),
        CatalogOutcome::Conflict { reason } => Err(Status::new(Code::FailedPrecondition, reason)),
        CatalogOutcome::Invalid { reason } => Err(Status::new(Code::InvalidArgument, reason)),
        CatalogOutcome::NotFound => Err(Status::of(Code::NotFound, "聚合类型不存在")),
    }
}


/// A partition stands in the list of a shard exactly where an entry places it there.
pub proof fn lemma_is_on(entries: Seq<(u64, Placement)>, shard: u64, partition: u16)
    ensures
        partitions_on(entries, shard).contains(partition) <==> exists|k: int|
            0 <= k < entries.len() && (#[trigger] entries[k]).0 as u16 == partition
                && entries[k].1.shard_id == shard,
    decreases entries.len(),
{
    let now = partitions_on(entries, shard);
    if now.contains(partition) {
        let i = choose|i: int| 0 <= i < now.len() && now[i] == partition;
        lemma_partitions_on(entries, shard, i);
    }
    if entries.len() > 0 {
        let rest = entries.drop_last();
        let was = partitions_on(rest, shard);
        lemma_is_on(rest, shard, partition);
        if exists|k: int|
            0 <= k < entries.len() && (#[trigger] entries[k]).0 as u16 == partition
                && entries[k].1.shard_id == shard {
            let k = choose|k: int|
                0 <= k < entries.len() && (#[trigger] entries[k]).0 as u16 == partition
                    && entries[k].1.shard_id == shard;
            if k < rest.len() {
                assert(rest[k] == entries[k]);
                let m = choose|m: int| 0 <= m < was.len() && was[m] == partition;
                assert(now[m] == partition);
            } else {
                assert(now[was.len() as int] == partition);
            }
        }
    }
}

/// The shards that a list of groups names are those that hold a partition, in rising order.
pub proof fn lemma_groups_name_shards(entries: Seq<(u64, Placement)>, ids: Seq<u64>, shard: u64)
    requires
        lists(ids, shards_with(entries)),
    ensures
        ids.contains(shard) <==> exists|k: int|
            0 <= k < entries.len() && (#[trigger] entries[k]).1.shard_id == shard,
{
    let all = entries.map_values(|e: (u64, Placement)| e.1.shard_id);
    if ids.contains(shard) {
        assert(all.contains(shard));
        let k = choose|k: int| 0 <= k < all.len() && all[k] == shard;
        assert(entries[k].1.shard_id == shard);
    }
    if exists|k: int| 0 <= k < entries.len() && (#[trigger] entries[k]).1.shard_id == shard {
        let k = choose|k: int| 0 <= k < entries.len() && (#[trigger] entries[k]).1.shard_id == shard;
        assert(all[k] == shard);
        assert(all.contains(shard));
    }
}

/// Every partition of a type stands in the group of the shard it is placed on and in no
/// other, and each shard has one group.
pub proof fn law_partitions_are_grouped_by_their_shard(
    d: AggregateTypeDefinition,
    groups: Vec<(u64, Vec<u16>)>,
    shard: u64,
    partition: u16,
)
    requires
        d.wf(),
        call_ensures(partitions_by_shard, (&d,), groups),
    ensures
        forall|i: int, j: int| 0 <= i < j < groups@.len() ==> groups@[i].0 < groups@[j].0,
        (exists|i: int|
            0 <= i < groups@.len() && (#[trigger] groups@[i]).0 == shard && groups@[i].1@.contains(
                partition,
            )) <==> d.placements@.dom().contains(partition as u64)
            && d.placements@[partition as u64].shard_id == shard,
{
    let entries = d.placements.entries@;
    let ids = groups@.map_values(|g: (u64, Vec<u16>)| g.0);
    assert forall|i: int, j: int| 0 <= i < j < groups@.len() implies groups@[i].0
        < groups@[j].0 by {
        assert(ids[i] < ids[j]);
    }
    lemma_is_on(entries, shard, partition);
    lemma_groups_name_shards(entries, ids, shard);
    if exists|i: int|
        0 <= i < groups@.len() && (#[trigger] groups@[i]).0 == shard && groups@[i].1@.contains(
            partition,
        ) {
        let k = choose|k: int|
            0 <= k < entries.len() && (#[trigger] entries[k]).0 as u16 == partition
                && entries[k].1.shard_id == shard;
        d.placements.lemma_entry(k);
        assert(d.placements@.dom().contains(entries[k].0));
    }
    if d.placements@.dom().contains(partition as u64)
        && d.placements@[partition as u64].shard_id == shard {
        let k = d.placements.index(partition as u64);
        assert(0 <= k < entries.len() && d.placements.key(k) == partition as u64);
        assert(entries[k].0 == partition as u64);
        let i = choose|i: int| 0 <= i < ids.len() && ids[i] == shard;
        assert(groups@[i].0 == shard);
    }
}

/// The partitions of a new type go round the shards: the first ones to each shard in
/// turn, and then over again.
pub proof fn law_partitions_go_round_the_shards(all_shards: Vec<u64>, out: Vec<u64>, i: int)
    requires
        all_shards@.len() > 0,
        call_ensures(spread_partitions, (&all_shards,), out),
        0 <= i < 256,
    ensures
        out@.len() == 256,
        i < all_shards@.len() ==> out@[i] == all_shards@[i],
        i + all_shards@.len() < 256 ==> out@[i + all_shards@.len()] == out@[i],
{
    let n = all_shards@.len() as int;
    assert(out@[i] == all_shards@[i % n]);
    if i < n {
        assert(i % n == i) by (nonlinear_arith)
            requires
                0 <= i < n,
        ;
    }
    if i + n < 256 {
        assert(out@[i + n] == all_shards@[(i + n) % n]);
        assert((i + n) % n == i % n) by (nonlinear_arith)
            requires
                0 <= i,
                0 < n,
        ;
    }
}

/// A partition is shown with its number, where it is and whether it moves, and where to.
pub proof fn law_partition_is_shown_as_placed(
    d: AggregateTypeDefinition,
    out: Vec<AggregatePartitionInfo>,
    i: int,
)
    requires
        d.wf(),
        call_ensures(list_partitions, (&d,), out),
        0 <= i < d.placements.entries@.len(),
    ensures
        out@.len() == d.placements.entries@.len(),
        out@[i].partition_id == d.placements.entries@[i].0,
        out@[i].shard_id == d.placements.entries@[i].1.shard_id,
        out@[i].generation == d.placements.entries@[i].1.generation,
        out@[i].moving <==> d.placements.entries@[i].1.moving_to is Some,
        d.placements.entries@[i].1.moving_to matches Some(s) ==> out@[i].target_shard_id == s,
        d.placements.entries@[i].1.moving_to is None ==> out@[i].target_shard_id == 0,
{
    d.placements.lemma_entry(i);
    assert(d.placements@.dom().contains(d.placements.entries@[i].0));
}

/// A type is shown under its name, with its partitions, its state and the revision of the
/// catalog.
pub proof fn law_type_is_shown_as_it_is(
    d: AggregateTypeDefinition,
    catalog_revision: u64,
    i: AggregateTypeInfo,
)
    requires
        call_ensures(aggregate_type_info, (&d, catalog_revision), i),
    ensures
        i.aggregate_type.business_space@ == d.id.business_space@,
        i.aggregate_type.aggregate_type@ == d.id.aggregate_type@,
        i.partition_count == d.partition_count,
        i.hash_algorithm@ == "xxh3-v1"@,
        i.status == d.status,
        i.catalog_revision == catalog_revision,
{
}

/// A name that is given and that the rules accept is read as it is; every other is
/// refused as a bad argument, with what the rules say.
pub proof fn law_type_name_is_read_or_refused(
    value: Option<AggregateTypeRef>,
    verdict: Result<(), String>,
    r: Result<AggregateTypeId, Status>,
)
    requires
        call_ensures(proto_aggregate_type, (value, verdict), r),
    ensures
        r is Ok <==> value is Some && verdict is Ok,
        r matches Ok(id) ==> id.business_space@ == value->0.business_space@
            && id.aggregate_type@ == value->0.aggregate_type@,
        r matches Err(s) ==> s@.code == Code::InvalidArgument,
        r matches Err(s) ==> (value is Some ==> (verdict matches Err(e) && s@.message == e@)),
        r matches Err(s) ==> (value is None ==> s@.message == "aggregate_type 必填"@),
{
}

/// Two names are the same.
pub open spec fn same_name(a: AggregateTypeId, b: AggregateTypeId) -> bool {
    a.business_space@ == b.business_space@ && a.aggregate_type@ == b.aggregate_type@
}

/// A type is found in the catalog exactly where it stands there, at its first place.
pub proof fn law_types_are_found_by_name(c: AggregateCatalog, id: AggregateTypeId)
    ensures
        catalog_place(c, id@) is Some <==> exists|j: int|
            0 <= j < c.aggregate_types@.len() && same_name(
                (#[trigger] c.aggregate_types@[j]).id,
                id,
            ),
        catalog_place(c, id@) matches Some(i) ==> 0 <= i < c.aggregate_types@.len() && same_name(
            c.aggregate_types@[i].id,
            id,
        ) && forall|j: int|
            0 <= j < i ==> !same_name((#[trigger] c.aggregate_types@[j]).id, id),
        forall|i: int|
            is_entry(c, id@, i) <==> catalog_place(c, id@) == Some(i),
{
    assert forall|j: int| 0 <= j < c.aggregate_types@.len() implies (same_name(
        (#[trigger] c.aggregate_types@[j]).id,
        id,
    ) <==> c.aggregate_types@[j].id@ == id@) by {}
    if exists|j: int|
        0 <= j < c.aggregate_types@.len() && same_name((#[trigger] c.aggregate_types@[j]).id, id) {
        let j = choose|j: int|
            0 <= j < c.aggregate_types@.len() && same_name(
                (#[trigger] c.aggregate_types@[j]).id,
                id,
            );
        lemma_first_entry(c, id@, j);
    }
    assert forall|i: int| is_entry(c, id@, i) <==> catalog_place(c, id@) == Some(i) by {
        if is_entry(c, id@, i) {
            let k = choose|k: int| is_entry(c, id@, k);
            assert(is_entry(c, id@, k));
            if k < i {
                assert(c.aggregate_types@[k].id@ != id@);
            } else if i < k {
                assert(c.aggregate_types@[i].id@ != id@);
            }
        }
    }
}

proof fn lemma_first_entry(c: AggregateCatalog, id: TypeView, j: int)
    requires
        0 <= j < c.aggregate_types@.len(),
        c.aggregate_types@[j].id@ == id,
    ensures
        exists|i: int| is_entry(c, id, i),
    decreases j,
{
    if forall|k: int| 0 <= k < j ==> (#[trigger] c.aggregate_types@[k]).id@ != id {
        assert(is_entry(c, id, j));
    } else {
        let k = choose|k: int| 0 <= k < j && (#[trigger] c.aggregate_types@[k]).id@ == id;
        lemma_first_entry(c, id, k);
    }
}

/// Only an active type is used: one that is not in the catalog is not found, one that is
/// being registered is not there yet.
pub proof fn law_only_active_types_are_used(
    c: AggregateCatalog,
    id: AggregateTypeId,
    shown: &str,
    got: Result<usize, Status>,
    active: Result<usize, Status>,
)
    requires
        call_ensures(AggregateCatalog::get, (&c, &id), got),
        call_ensures(AggregateCatalog::require_active, (&c, &id, shown), active),
    ensures
        match catalog_place(c, id@) {
            None => (got matches Err(s) && s@.code == Code::NotFound) && (active matches Err(s)
                && s@.code == Code::NotFound),
            Some(i) => (got matches Ok(m) && m == i) && if c.aggregate_types@[i].status
                == AggregateTypeStatus::Active {
                active matches Ok(m) && m == i
            } else {
                active matches Err(s) && s@.code == Code::Unavailable
            },
        },
{
    law_types_are_found_by_name(c, id);
    if let Ok(m) = got {
        assert(is_entry(c, id@, m as int));
    }
    if let Ok(m) = active {
        assert(is_entry(c, id@, m as int));
    }
}

proof fn lemma_registering(s: Seq<AggregateTypeDefinition>)
    ensures
        registering(s) == s.filter(
            |d: AggregateTypeDefinition| d.status == AggregateTypeStatus::Registering,
        ).len(),
        registering(s) <= s.len(),
    decreases s.len(),
{
    reveal(Seq::filter);
    if s.len() > 0 {
        lemma_registering(s.drop_last());
    }
}

/// The status counts the types, those that are being registered, and the others; the list
/// shows every type of the catalog, in its order.
pub proof fn law_status_counts_and_list_shows_every_type(
    c: AggregateCatalog,
    s: AggregateStoreStatus,
    out: Vec<AggregateTypeInfo>,
)
    requires
        c.aggregate_types@.len() <= u32::MAX,
        call_ensures(AggregateCatalog::status, (&c,), s),
        call_ensures(AggregateCatalog::list, (&c,), out),
    ensures
        s.catalog_revision == c.revision,
        s.aggregate_type_count == c.aggregate_types@.len(),
        s.registering_aggregate_type_count == c.aggregate_types@.filter(
            |d: AggregateTypeDefinition| d.status == AggregateTypeStatus::Registering,
        ).len(),
        s.active_aggregate_type_count + s.registering_aggregate_type_count
            == s.aggregate_type_count,
        out@.len() == c.aggregate_types@.len(),
        forall|i: int|
            0 <= i < out@.len() ==> {
                let d = c.aggregate_types@[i];
                let shown = #[trigger] out@[i];
                &&& shown.aggregate_type.business_space@ == d.id.business_space@
                &&& shown.aggregate_type.aggregate_type@ == d.id.aggregate_type@
                &&& shown.partition_count == d.partition_count
                &&& shown.status == d.status
                &&& shown.catalog_revision == c.revision
            },
{
    lemma_registering(c.aggregate_types@);
}


/// A type that was registered or activated is told of; one that is there already, wrong or
/// missing is refused as such.
pub proof fn law_catalog_outcomes_have_their_codes(
    outcome: CatalogOutcome,
    revision: u64,
    created: Result<AggregateTypeDefinition, Status>,
    activated: Result<AggregateTypeInfo, Status>,
)
    requires
        call_ensures(type_created, (outcome,), created),
        call_ensures(type_activated, (outcome, revision), activated),
    ensures
        created is Ok <==> outcome is AggregateType,
        activated is Ok <==> outcome is AggregateType,
        created matches Ok(d) ==> outcome == CatalogOutcome::AggregateType(d),
        outcome is Conflict ==> (created matches Err(s) && s@.code == Code::AlreadyExists),
        outcome is Conflict ==> (activated matches Err(s) && s@.code == Code::FailedPrecondition),
        outcome is Invalid ==> (created matches Err(s) && s@.code == Code::InvalidArgument),
        outcome is Invalid ==> (activated matches Err(s) && s@.code == Code::InvalidArgument),
        outcome is NotFound ==> (created matches Err(s) && s@.code == Code::Internal),
        outcome is NotFound ==> (activated matches Err(s) && s@.code == Code::NotFound),
{
}

/// A type is named by its space and its kind.
pub proof fn law_type_is_named_by_space_and_kind(
    aggregate_type: AggregateTypeId,
    r: AggregateTypeRef,
)
    requires
        call_ensures(aggregate_type_to_proto, (&aggregate_type,), r),
    ensures
        r.business_space@ == aggregate_type.business_space@,
        r.aggregate_type@ == aggregate_type.aggregate_type@,
{
}

} // verus!
