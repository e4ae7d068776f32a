//! Named consumer groups over streams: what they hold, and how they are set up.

use vstd::prelude::*;

use crate::maps::TextMap;
use crate::text::{
    copy_texts, distinct_texts, holds_text, same_texts, text_views, texts_increase,
};
use crate::status::{Code, Status, says};
use crate::versions::VersionMap;

verus! {

/// What a group consumes.
#[derive(Debug)]
pub enum PersistentTarget {
    /// These streams, in ascending order.
    Streams(Vec<String>),
    /// Every stream.
    All,
}

/// Contents of a [`PersistentTarget`].
pub enum TargetView {
    Streams(Seq<Seq<char>>),
    All,
}

impl View for PersistentTarget {
    type V = TargetView;

    open spec fn view(&self) -> TargetView {
        match self {
            PersistentTarget::Streams(s) => TargetView::Streams(text_views(s@)),
            PersistentTarget::All => TargetView::All,
        }
    }
}

/// The stream is part of the target.
pub open spec fn covers(t: TargetView, stream: Seq<char>) -> bool {
    match t {
        TargetView::Streams(s) => s.contains(stream),
        TargetView::All => true,
    }
}

impl PersistentTarget {
    pub open spec fn wf(&self) -> bool {
        self matches PersistentTarget::Streams(s) ==> texts_increase(text_views(s@))
    }

    /// True if the stream is part of the target.
    pub fn contains(&self, stream: &str) -> (r: bool)
        ensures
            r == covers(self@, stream@),
    {
        match self {
            PersistentTarget::Streams(s) => holds_text(s, stream),
            PersistentTarget::All => true,
        }
    }

    /// True if both targets are the same.
    pub fn same(&self, other: &PersistentTarget) -> (r: bool)
        ensures
            r == (self@ == other@),
    {
        match (self, other) {
            (PersistentTarget::All, PersistentTarget::All) => true,
            (PersistentTarget::Streams(a), PersistentTarget::Streams(b)) => same_texts(a, b),
            _ => false,
        }
    }

    /// A copy of the target.
    pub fn copy(&self) -> (t: PersistentTarget)
        ensures
            t@ == self@,
            self.wf() ==> t.wf(),
    {
        match self {
            PersistentTarget::All => PersistentTarget::All,
            PersistentTarget::Streams(s) => PersistentTarget::Streams(copy_texts(s)),
        }
    }
}

/// The target that a request asks for.
#[derive(Debug)]
pub enum TargetRequest {
    Streams(Vec<String>),
    All,
}

fn drop_empty(names: Vec<String>) -> (out: Vec<String>)
    ensures
        forall|x: Seq<char>| #[trigger]
            text_views(out@).contains(x) <==> (text_views(names@).contains(x) && x.len() > 0),
{
    let mut out: Vec<String> = Vec::new();
    for s in it: names
        invariant
            it.seq() == names@,
            forall|x: Seq<char>| #[trigger]
                text_views(out@).contains(x) <==> (text_views(
                    names@.take(it.index() as int),
                ).contains(x) && x.len() > 0),
    {
        let ghost n = it.index() as int;
        let ghost was = text_views(names@.take(n));
        let ghost now = text_views(names@.take(n + 1));
        let ghost t = s@;
        let ghost before = text_views(out@);
        proof {
            assert(now =~= was.push(t));
            assert(now[n] == t);
            assert forall|x: Seq<char>| #[trigger] now.contains(x) <==> (was.contains(x) || x
                == t) by {
                if now.contains(x) {
                    let i = choose|i: int| 0 <= i < now.len() && now[i] == x;
                    if i < n {
                        assert(was[i] == x);
                    }
                }
                if was.contains(x) {
                    let i = choose|i: int| 0 <= i < was.len() && was[i] == x;
                    assert(now[i] == x);
                }
            }
        }
        if !s.as_str().is_empty() {
            out.push(s);
            proof {
                let after = text_views(out@);
                assert(after =~= before.push(t));
                assert(after[before.len() as int] == t);
                assert forall|x: Seq<char>| #[trigger] after.contains(x) <==> (before.contains(x)
                    || x == t) by {
                    if after.contains(x) {
                        let i = choose|i: int| 0 <= i < after.len() && after[i] == x;
                        if i < before.len() {
                            assert(before[i] == x);
                        }
                    }
                    if before.contains(x) {
                        let i = choose|i: int| 0 <= i < before.len() && before[i] == x;
                        assert(after[i] == x);
                    }
                }
            }
        }
    }
    proof {
        assert(names@.take(names@.len() as int) =~= names@);
    }
    out
}

/// Reads the target of a request: names are taken once, empty ones are dropped, and
/// none may be left over.
pub fn parse_target(target: Option<TargetRequest>) -> (r: Result<PersistentTarget, Status>)
    ensures
        match target {
            None => r matches Err(s) && s@ == says(Code::InvalidArgument, "target is required"@),
            Some(TargetRequest::All) => r == Ok::<PersistentTarget, Status>(PersistentTarget::All),
            Some(TargetRequest::Streams(names)) => if exists|x: Seq<char>|
                text_views(names@).contains(x) && x.len() > 0 {
                r matches Ok(PersistentTarget::Streams(s)) && texts_increase(text_views(s@))
                    && forall|x: Seq<char>| #[trigger]
                    text_views(s@).contains(x) <==> (text_views(names@).contains(x) && x.len() > 0)
            } else {
                r matches Err(s) && s@ == says(Code::InvalidArgument, "Streams 目标不能为空"@)
            },
        },
{
    match target {
        None => Err(Status::of(Code::InvalidArgument, "target is required")),
        Some(TargetRequest::All) => Ok(PersistentTarget::All),
        Some(TargetRequest::Streams(names)) => {
            let ghost wanted = text_views(names@);
            let some = drop_empty(names);
            let streams = distinct_texts(some);
            if streams.is_empty() {
                proof {
                    if exists|x: Seq<char>| wanted.contains(x) && x.len() > 0 {
                        let x = choose|x: Seq<char>| wanted.contains(x) && x.len() > 0;
                        assert(text_views(some@).contains(x));
                        assert(text_views(streams@).contains(x));
                    }
                }
                return Err(Status::of(Code::InvalidArgument, "Streams 目标不能为空"));
            }
            proof {
                let x = text_views(streams@)[0];
                assert(text_views(streams@).contains(x));
                assert(text_views(some@).contains(x));
                assert(wanted.contains(x) && x.len() > 0);
            }
            Ok(PersistentTarget::Streams(streams))
        },
    }
}

/// How a group delivers.
#[derive(Clone, Copy, Debug, PartialEq, Eq, Structural)]
pub struct PersistentSettings {
    pub max_unacked_per_consumer: u32,
    pub max_unacked_per_group: u32,
    pub ack_timeout_ms: u64,
    pub max_retries: u32,
    pub retry_min_ms: u64,
    pub retry_max_ms: u64,
}

/// A number of a request, or its default where the request leaves it at 0.
pub open spec fn or_default(n: u64, default: u64) -> u64 {
    if n == 0 {
        default
    } else {
        n
    }
}

/// The settings of a request: where it does not say, or says 0, the default stands.
pub open spec fn filled(settings: Option<PersistentSettings>, defaults: PersistentSettings) ->
    PersistentSettings {
    match settings {
        None => defaults,
        Some(s) => PersistentSettings {
            max_unacked_per_consumer: or_default(
                s.max_unacked_per_consumer as u64,
                defaults.max_unacked_per_consumer as u64,
            ) as u32,
            max_unacked_per_group: or_default(
                s.max_unacked_per_group as u64,
                defaults.max_unacked_per_group as u64,
            ) as u32,
            ack_timeout_ms: or_default(s.ack_timeout_ms, defaults.ack_timeout_ms),
            max_retries: or_default(s.max_retries as u64, defaults.max_retries as u64) as u32,
            retry_min_ms: or_default(s.retry_min_ms, defaults.retry_min_ms),
            retry_max_ms: or_default(s.retry_max_ms, defaults.retry_max_ms),
        },
    }
}

/// Reads the settings of a request: what is missing or 0 has its default.
pub fn fill_settings(settings: Option<PersistentSettings>, defaults: &PersistentSettings) -> (r:
    PersistentSettings)
    ensures
        r == filled(settings, *defaults),
{
    match settings {
        None => *defaults,
        Some(s) => PersistentSettings {
            max_unacked_per_consumer: if s.max_unacked_per_consumer == 0 {
                defaults.max_unacked_per_consumer
            } else {
                s.max_unacked_per_consumer
            },
            max_unacked_per_group: if s.max_unacked_per_group == 0 {
                defaults.max_unacked_per_group
            } else {
                s.max_unacked_per_group
            },
            ack_timeout_ms: if s.ack_timeout_ms == 0 {
                defaults.ack_timeout_ms
            } else {
                s.ack_timeout_ms
            },
            max_retries: if s.max_retries == 0 {
                defaults.max_retries
            } else {
                s.max_retries
            },
            retry_min_ms: if s.retry_min_ms == 0 {
                defaults.retry_min_ms
            } else {
                s.retry_min_ms
            },
            retry_max_ms: if s.retry_max_ms == 0 {
                defaults.retry_max_ms
            } else {
                s.retry_max_ms
            },
        },
    }
}

/// The settings of a request once the rules on settings were asked about them;
/// `verdict` says what they have against them.
pub fn parse_settings(
    settings: Option<PersistentSettings>,
    defaults: &PersistentSettings,
    verdict: Result<(), String>,
) -> (r: Result<PersistentSettings, Status>)
    ensures
        match verdict {
            Ok(_) => r == Ok::<PersistentSettings, Status>(filled(settings, *defaults)),
            Err(e) => r matches Err(s) && s@ == says(Code::InvalidArgument, e@),
        },
{
    match verdict {
        Ok(_) => Ok(fill_settings(settings, defaults)),
        Err(e) => Err(Status::new(Code::InvalidArgument, e)),
    }
}

/// A stream's lease: while it lasts only this consumer gets the stream's events.
#[derive(Debug)]
pub struct Lease {
    pub consumer_id: String,
    pub deadline_ms: u64,
}

/// How far a group is in one stream.
#[derive(Debug)]
pub struct StreamProgress {
    pub next_version: u64,
    pub ownership_generation: u64,
    /// Versions beyond the next one that are already settled.
    pub resolved_gaps: Vec<u64>,
    pub lease: Option<Lease>,
}

/// The progress is new: nothing is settled beyond the next version, nobody holds it.
pub open spec fn is_fresh(p: StreamProgress, next_version: u64, generation: u64) -> bool {
    &&& p.next_version == next_version
    &&& p.ownership_generation == generation
    &&& p.resolved_gaps@.len() == 0
    &&& p.lease is None
}

impl StreamProgress {
    /// New progress.
    pub fn new(next_version: u64, generation: u64) -> (p: StreamProgress)
        ensures
            is_fresh(p, next_version, generation),
    {
        StreamProgress {
            next_version,
            ownership_generation: generation,
            resolved_gaps: Vec::new(),
            lease: None,
        }
    }
}

/// An event that is to be delivered again.
#[derive(Clone, Copy, Debug, PartialEq, Eq, Structural)]
pub struct PendingRetry {
    pub not_before_ms: u64,
    pub replayed: bool,
}

/// An event that a consumer has been given.
#[derive(Debug)]
pub struct Delivery {
    pub delivery_id: u128,
    pub stream_id: String,
    pub version: u64,
    pub consumer_id: String,
    pub deadline_ms: u64,
    pub attempt: u32,
    pub group_epoch: u64,
    pub replayed: bool,
}

/// An event that was set aside.
#[derive(Debug)]
pub struct Parked {
    pub parked_id: u128,
    pub stream_id: String,
    pub version: u64,
    pub attempts: u32,
    pub reason: String,
    pub parked_at_ms: u64,
}

/// A consumer group.
#[derive(Debug)]
pub struct PersistentGroup {
    pub name: String,
    pub revision: u64,
    pub epoch: u64,
    pub target: PersistentTarget,
    pub settings: PersistentSettings,
    /// Progress by stream.
    pub progress: TextMap<StreamProgress>,
    /// Events to be delivered again.
    pub pending_retries: VersionMap<PendingRetry>,
    pub deliveries: Vec<Delivery>,
    /// Events set aside, in ascending order of their ids.
    pub parked: Vec<Parked>,
    /// The stream that the last scan ended with.
    pub scan_after: Option<String>,
}

impl PersistentGroup {
    pub open spec fn wf(&self) -> bool {
        self.target.wf() && self.progress.wf() && self.pending_retries.wf()
    }
}

/// What is shown of a group.
#[derive(Debug)]
pub struct PersistentSubscriptionInfo {
    pub name: String,
    pub revision: u64,
    pub epoch: u64,
    pub target: PersistentTarget,
    pub settings: PersistentSettings,
    pub stream_count: u64,
    pub active_delivery_count: u64,
    pub parked_count: u64,
}

/// Shows a group.
pub fn group_info(group: &PersistentGroup) -> (i: PersistentSubscriptionInfo)
    ensures
        i.name@ == group.name@,
        i.revision == group.revision,
        i.epoch == group.epoch,
        i.target@ == group.target@,
        i.settings == group.settings,
        i.stream_count == group.progress.entries@.len(),
        i.active_delivery_count == group.deliveries@.len(),
        i.parked_count == group.parked@.len(),
{
    PersistentSubscriptionInfo {
        name: group.name.clone(),
        revision: group.revision,
        epoch: group.epoch,
        target: group.target.copy(),
        settings: group.settings,
        stream_count: group.progress.entries.len() as u64,
        active_delivery_count: group.deliveries.len() as u64,
        parked_count: group.parked.len() as u64,
    }
}


/// A setting that is given and is not 0 is used; every other has its default.
pub proof fn law_settings_fall_back_one_by_one(
    settings: Option<PersistentSettings>,
    defaults: PersistentSettings,
    r: PersistentSettings,
)
    requires
        call_ensures(fill_settings, (settings, &defaults), r),
    ensures
        settings is None ==> r == defaults,
        settings matches Some(s) ==> {
            &&& r.max_unacked_per_consumer == (if s.max_unacked_per_consumer > 0 {
                s.max_unacked_per_consumer
            } else {
                defaults.max_unacked_per_consumer
            })
            &&& r.max_unacked_per_group == (if s.max_unacked_per_group > 0 {
                s.max_unacked_per_group
            } else {
                defaults.max_unacked_per_group
            })
            &&& r.ack_timeout_ms == (if s.ack_timeout_ms > 0 {
                s.ack_timeout_ms
            } else {
                defaults.ack_timeout_ms
            })
            &&& r.max_retries == (if s.max_retries > 0 {
                s.max_retries
            } else {
                defaults.max_retries
            })
            &&& r.retry_min_ms == (if s.retry_min_ms > 0 {
                s.retry_min_ms
            } else {
                defaults.retry_min_ms
            })
            &&& r.retry_max_ms == (if s.retry_max_ms > 0 {
                s.retry_max_ms
            } else {
                defaults.retry_max_ms
            })
        },
{
}

/// Settings that the rules refuse are refused with what the rules say.
pub proof fn law_refused_settings_are_refused(
    settings: Option<PersistentSettings>,
    defaults: PersistentSettings,
    verdict: Result<(), String>,
    r: Result<PersistentSettings, Status>,
)
    requires
        call_ensures(parse_settings, (settings, &defaults, verdict), r),
    ensures
        r is Ok <==> verdict is Ok,
        r matches Ok(s) ==> forall|f: PersistentSettings| #[trigger]
            call_ensures(fill_settings, (settings, &defaults), f) ==> s == f,
        r matches Err(s) ==> s@.code == Code::InvalidArgument && (verdict matches Err(e)
            && s@.message == e@),
{
}

/// A group of all streams takes every stream; one of named streams takes those.
pub proof fn law_target_takes_what_it_names(t: PersistentTarget, stream: &str, r: bool)
    requires
        call_ensures(PersistentTarget::contains, (&t, stream), r),
    ensures
        t is All ==> r,
        t matches PersistentTarget::Streams(names) ==> (r <==> exists|i: int|
            0 <= i < names@.len() && (#[trigger] names@[i])@ == stream@),
{
    if let PersistentTarget::Streams(names) = t {
        let views = text_views(names@);
        if r {
            let i = choose|i: int| 0 <= i < views.len() && views[i] == stream@;
            assert(names@[i]@ == stream@);
        }
        if exists|i: int| 0 <= i < names@.len() && (#[trigger] names@[i])@ == stream@ {
            let i = choose|i: int| 0 <= i < names@.len() && (#[trigger] names@[i])@ == stream@;
            assert(views[i] == stream@);
        }
    }
}

/// A stream that a group begins with has nothing settled and no holder.
pub proof fn law_new_progress_is_untouched(next_version: u64, generation: u64, p: StreamProgress)
    requires
        call_ensures(StreamProgress::new, (next_version, generation), p),
    ensures
        p.next_version == next_version,
        p.ownership_generation == generation,
        p.resolved_gaps@.len() == 0,
        p.lease is None,
{
}

/// A target of streams names each stream that was given once, in order, but for empty
/// names; without any such stream, or without a target, the request is refused.
pub proof fn law_target_names_what_was_given(
    target: Option<TargetRequest>,
    r: Result<PersistentTarget, Status>,
    x: Seq<char>,
)
    requires
        call_ensures(parse_target, (target,), r),
    ensures
        target is None ==> (r matches Err(s) && s@.code == Code::InvalidArgument),
        target matches Some(TargetRequest::All) ==> (r matches Ok(t) && t is All),
        target matches Some(TargetRequest::Streams(names)) ==> match r {
            Err(s) => s@.code == Code::InvalidArgument && forall|i: int|
                0 <= i < names@.len() ==> (#[trigger] names@[i])@.len() == 0,
            Ok(t) => t matches PersistentTarget::Streams(kept) && (text_views(kept@).contains(x)
                <==> text_views(names@).contains(x) && x.len() > 0),
        },
{
    if let Some(TargetRequest::Streams(names)) = target {
        if r is Err {
            assert forall|i: int| 0 <= i < names@.len() implies (#[trigger] names@[i])@.len()
                == 0 by {
                let y = names@[i]@;
                assert(text_views(names@)[i] == y);
                assert(text_views(names@).contains(y));
            }
        }
    }
}

} // verus!
