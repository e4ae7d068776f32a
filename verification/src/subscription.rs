//! Subscriptions: one shard's stream of events, and many shards' streams seen as
//! one.

use std::collections::BTreeSet;

use vstd::prelude::*;

use crate::event::{
    Event, StoredEvent, SubscriptionEvent, projects, public_subscription_event, show, shows,
};
use crate::maps::TextMap;
use crate::order::{distinct, lists};
use crate::read::{not_here, shard_not_here};
use crate::status::{Code, Status, says};
use crate::text::{distinct_texts, holds_text, text_views, texts_increase};

verus! {

/// What one source tells the aggregation.
#[derive(Debug)]
pub enum SourceMessage {
    Event(Event),
    /// The source has shown its history.
    CaughtUp(u64),
    /// The source has ended; later events may be missing.
    Degraded(u64),
}

/// What a subscriber is told.
#[derive(Debug)]
pub enum SubscribePayload {
    Event(SubscriptionEvent),
    CaughtUp,
    Degraded,
}

/// How far a subscription over several sources has come.
pub struct Phase {
    /// Sources that are still showing their history.
    pub pending: Set<u64>,
    pub caught_up: bool,
    pub degraded: bool,
}

/// The phase after a message.
pub open spec fn phase_after(p: Phase, m: SourceMessage) -> Phase {
    match m {
        SourceMessage::Event(_) => p,
        SourceMessage::CaughtUp(s) => Phase {
            pending: p.pending.remove(s),
            caught_up: p.caught_up || p.pending.remove(s) =~= Set::empty(),
            degraded: p.degraded,
        },
        SourceMessage::Degraded(_) => Phase { degraded: true, ..p },
    }
}

/// The message completes the history of the last source.
pub open spec fn announces_caught_up(p: Phase, m: SourceMessage) -> bool {
    m matches SourceMessage::CaughtUp(s) && !p.caught_up && p.pending.remove(s) =~= Set::empty()
}

/// The message is the first to report a gap.
pub open spec fn announces_degraded(p: Phase, m: SourceMessage) -> bool {
    m is Degraded && !p.degraded
}

/// Turns a source's message into what the subscriber is told, if anything: every
/// event, one notice when all sources have caught up, one notice when the first
/// source fails.
pub fn aggregate_source_message(
    message: SourceMessage,
    pending_catch_up: &mut BTreeSet<u64>,
    caught_up: &mut bool,
    degraded: &mut bool,
) -> (r: Option<SubscribePayload>)
    ensures
        ({
            let before = Phase {
                pending: old(pending_catch_up)@,
                caught_up: *old(caught_up),
                degraded: *old(degraded),
            };
            let after = Phase {
                pending: final(pending_catch_up)@,
                caught_up: *final(caught_up),
                degraded: *final(degraded),
            };
            &&& after == phase_after(before, message)
            &&& match message {
                SourceMessage::Event(e) => r matches Some(SubscribePayload::Event(p)) && projects(
                    p,
                    e,
                ),
                SourceMessage::CaughtUp(_) => if announces_caught_up(before, message) {
                    r == Some(SubscribePayload::CaughtUp)
                } else {
                    r is None
                },
                SourceMessage::Degraded(_) => if announces_degraded(before, message) {
                    r == Some(SubscribePayload::Degraded)
                } else {
                    r is None
                },
            }
        }),
{
    broadcast use vstd::std_specs::btree::group_btree_axioms;

    match message {
        SourceMessage::Event(event) => Some(
            SubscribePayload::Event(public_subscription_event(event)),
        ),
        SourceMessage::CaughtUp(source) => {
            pending_catch_up.remove(&source);
            if !pending_catch_up.is_empty() || *caught_up {
                return None;
            }
            *caught_up = true;
            Some(SubscribePayload::CaughtUp)
        },
        SourceMessage::Degraded(_) => {
            if *degraded {
                None
            } else {
                *degraded = true;
                Some(SubscribePayload::Degraded)
            }
        },
    }
}

/// The phase after all these messages.
pub open spec fn phase_after_all(p: Phase, ms: Seq<SourceMessage>) -> Phase
    decreases ms.len(),
{
    if ms.len() == 0 {
        p
    } else {
        phase_after(phase_after_all(p, ms.drop_last()), ms.last())
    }
}

proof fn lemma_phase_grows(p: Phase, ms: Seq<SourceMessage>, i: int, j: int)
    requires
        0 <= i <= j <= ms.len(),
    ensures
        phase_after_all(p, ms.take(i)).caught_up ==> phase_after_all(p, ms.take(j)).caught_up,
        phase_after_all(p, ms.take(i)).degraded ==> phase_after_all(p, ms.take(j)).degraded,
    decreases j - i,
{
    if i < j {
        lemma_phase_grows(p, ms, i, j - 1);
        assert(ms.take(j).drop_last() =~= ms.take(j - 1));
    }
}

/// A subscriber hears once, at most, that it has caught up, and once that events
/// may be missing.
pub proof fn law_announced_at_most_once(p: Phase, ms: Seq<SourceMessage>, i: int, j: int)
    requires
        0 <= i < j < ms.len(),
    ensures
        !(announces_caught_up(phase_after_all(p, ms.take(i)), ms[i]) && announces_caught_up(
            phase_after_all(p, ms.take(j)),
            ms[j],
        )),
        !(announces_degraded(phase_after_all(p, ms.take(i)), ms[i]) && announces_degraded(
            phase_after_all(p, ms.take(j)),
            ms[j],
        )),
{
    assert(ms.take(i + 1).drop_last() =~= ms.take(i));
    lemma_phase_grows(p, ms, i + 1, j);
}

/// A subscriber hears that it has caught up only after every source has shown its
/// history.
pub proof fn law_caught_up_waits_for_every_source(
    p: Phase,
    ms: Seq<SourceMessage>,
    i: int,
    source: u64,
)
    requires
        0 <= i < ms.len(),
        announces_caught_up(phase_after_all(p, ms.take(i)), ms[i]),
        p.pending.contains(source),
    ensures
        exists|k: int| 0 <= k <= i && #[trigger] ms[k] == SourceMessage::CaughtUp(source),
{
    if !(exists|k: int| 0 <= k <= i && #[trigger] ms[k] == SourceMessage::CaughtUp(source)) {
        lemma_still_pending(p, ms, i, source);
        let at = phase_after_all(p, ms.take(i));
        assert(ms[i] != SourceMessage::CaughtUp(source));
        let s = ms[i]->CaughtUp_0;
        assert(at.pending.remove(s).contains(source));
    }
}

proof fn lemma_still_pending(p: Phase, ms: Seq<SourceMessage>, n: int, source: u64)
    requires
        0 <= n <= ms.len(),
        p.pending.contains(source),
        forall|k: int| 0 <= k < n ==> #[trigger] ms[k] != SourceMessage::CaughtUp(source),
    ensures
        phase_after_all(p, ms.take(n)).pending.contains(source),
    decreases n,
{
    if n > 0 {
        lemma_still_pending(p, ms, n - 1, source);
        assert(ms.take(n).drop_last() =~= ms.take(n - 1));
        assert(ms[n - 1] != SourceMessage::CaughtUp(source));
    }
}

/// One item of a source's stream.
#[derive(Debug)]
pub enum SourceItem {
    Event(Event),
    CaughtUp,
}

/// What a source's item means for the aggregation, and whether the source goes on.
/// The end of the stream, and an item without content, end the source; that is
/// reported, since events may be missing from there on.
pub fn forward_item(shard_id: u64, item: Option<SourceItem>) -> (r: (SourceMessage, bool))
    ensures
        r == (match item {
            Some(SourceItem::Event(e)) => (SourceMessage::Event(e), true),
            Some(SourceItem::CaughtUp) => (SourceMessage::CaughtUp(shard_id), true),
            None => (SourceMessage::Degraded(shard_id), false),
        }),
{
    match item {
        Some(SourceItem::Event(e)) => (SourceMessage::Event(e), true),
        Some(SourceItem::CaughtUp) => (SourceMessage::CaughtUp(shard_id), true),
        None => (SourceMessage::Degraded(shard_id), false),
    }
}

/// What a client subscribes to.
#[derive(Debug)]
pub enum SubscribeTarget {
    Streams(Vec<String>),
    All,
}

/// How a subscription is set up.
#[derive(Debug)]
pub enum SubscribePlan {
    /// Find the shard of each of these streams, then group them.
    Route(Vec<String>),
    /// Subscribe to these groups.
    Groups(Vec<(u64, Vec<String>)>),
}

/// Decides how to set up a subscription: the named streams, each once; or all
/// streams of every shard.
pub fn plan_subscription(target: Option<SubscribeTarget>, all_shards: &Vec<u64>) -> (r: Result<
    SubscribePlan,
    Status,
>)
    ensures
        match target {
            None => r matches Err(s) && s@ == says(Code::InvalidArgument, "target is required"@),
            Some(SubscribeTarget::Streams(names)) => if names@.len() == 0 {
                r matches Err(s) && s@ == says(
                    Code::InvalidArgument,
                    "stream_ids cannot be empty"@,
                )
            } else {
                r matches Ok(SubscribePlan::Route(streams)) && texts_increase(text_views(streams@))
                    && forall|x: Seq<char>| #[trigger]
                    text_views(streams@).contains(x) <==> text_views(names@).contains(x)
            },
            Some(SubscribeTarget::All) => r matches Ok(SubscribePlan::Groups(groups))
                && groups@.len() == all_shards@.len() && forall|i: int|
                0 <= i < groups@.len() ==> (#[trigger] groups@[i]).0 == all_shards@[i]
                    && groups@[i].1@.len() == 0,
        },
{
    match target {
        None => Err(Status::of(Code::InvalidArgument, "target is required")),
        Some(SubscribeTarget::Streams(names)) => if names.is_empty() {
            Err(Status::of(Code::InvalidArgument, "stream_ids cannot be empty"))
        } else {
            Ok(SubscribePlan::Route(distinct_texts(names)))
        },
        Some(SubscribeTarget::All) => {
            let mut groups: Vec<(u64, Vec<String>)> = Vec::new();
            let mut i: usize = 0;
            while i < all_shards.len()
                invariant
                    i <= all_shards@.len(),
                    groups@.len() == i,
                    forall|k: int|
                        0 <= k < i ==> (#[trigger] groups@[k]).0 == all_shards@[k]
                            && groups@[k].1@.len() == 0,
                decreases all_shards@.len() - i,
            {
                groups.push((all_shards[i], Vec::new()));
                i += 1;
            }
            Ok(SubscribePlan::Groups(groups))
        },
    }
}

/// The streams that are routed to a shard, in the order in which they were routed.
pub open spec fn streams_on(routed: Seq<(String, u64)>, shard_id: u64) -> Seq<Seq<char>>
    decreases routed.len(),
{
    if routed.len() == 0 {
        Seq::empty()
    } else {
        let rest = streams_on(routed.drop_last(), shard_id);
        if routed.last().1 == shard_id {
            rest.push(routed.last().0@)
        } else {
            rest
        }
    }
}

/// The shards that streams are routed to.
pub open spec fn shards_of(routed: Seq<(String, u64)>) -> Set<u64> {
    routed.map_values(|p: (String, u64)| p.1).to_set()
}

/// Groups routed streams by shard, shards in ascending order.
pub fn group_streams(routed: &Vec<(String, u64)>) -> (groups: Vec<(u64, Vec<String>)>)
    ensures
        lists(groups@.map_values(|g: (u64, Vec<String>)| g.0), shards_of(routed@)),
        forall|i: int|
            0 <= i < groups@.len() ==> text_views((#[trigger] groups@[i]).1@) == streams_on(
                routed@,
                groups@[i].0,
            ),
{
    let mut ids: Vec<u64> = Vec::new();
    let mut i: usize = 0;
    while i < routed.len()
        invariant
            i <= routed@.len(),
            ids@.len() == i,
            forall|k: int| 0 <= k < i ==> #[trigger] ids@[k] == routed@[k].1,
        decreases routed@.len() - i,
    {
        ids.push(routed[i].1);
        i += 1;
    }
    assert(ids@ =~= routed@.map_values(|p: (String, u64)| p.1));
    let shards = distinct(&ids);
    let mut groups: Vec<(u64, Vec<String>)> = Vec::new();
    let mut k: usize = 0;
    while k < shards.len()
        invariant
            k <= shards@.len(),
            groups@.len() == k,
            forall|j: int| 0 <= j < k ==> (#[trigger] groups@[j]).0 == shards@[j],
            forall|j: int|
                0 <= j < k ==> text_views((#[trigger] groups@[j]).1@) == streams_on(
                    routed@,
                    shards@[j],
                ),
        decreases shards@.len() - k,
    {
        let shard = shards[k];
        let mut names: Vec<String> = Vec::new();
        let mut n: usize = 0;
        proof {
            assert(text_views(names@) =~= streams_on(routed@.take(0), shard));
        }
        while n < routed.len()
            invariant
                n <= routed@.len(),
                text_views(names@) == streams_on(routed@.take(n as int), shard),
            decreases routed@.len() - n,
        {
            proof {
                assert(routed@.take(n + 1).drop_last() =~= routed@.take(n as int));
            }
            if routed[n].1 == shard {
                let ghost was = names@;
                let name = routed[n].0.clone();
                names.push(name);
                assert(text_views(names@) =~= text_views(was).push(name@));
            }
            n += 1;
        }
        proof {
            assert(routed@.take(routed@.len() as int) =~= routed@);
        }
        groups.push((shard, names));
        k += 1;
    }
    assert(groups@.map_values(|g: (u64, Vec<String>)| g.0) =~= shards@);
    groups
}

/// Whether this node may serve a shard's stream to another node: `None` if the
/// shard is not here, else whether it leads here.
pub fn admit_internal(shard_id: u64, leads: Option<bool>) -> (r: Result<(), Status>)
    ensures
        r is Ok <==> leads == Some(true),
        r matches Err(s) ==> s@ == (if leads is None {
            not_here(shard_id)
        } else {
            says(Code::Unavailable, "internal subscription source unavailable"@)
        }),
{
    match leads {
        Some(true) => Ok(()),
        Some(false) => Err(
            Status::of(Code::Unavailable, "internal subscription source unavailable"),
        ),
        None => Err(shard_not_here(shard_id)),
    }
}

/// A subscription to one shard: first the history, then what is committed from
/// there on.  The commit feed is joined before the history is read, so an event can
/// arrive on both ways; the versions seen tell it apart.
#[derive(Debug)]
pub struct LocalSubscription {
    pub shard_id: u64,
    /// The streams asked for; none means all.
    pub streams: Vec<String>,
    /// Last version seen of each stream.
    pub seen: TextMap<u64>,
    /// The history was shown, and that it ends there was said.
    pub caught_up: bool,
}

/// An event of this stream and version is shown: the stream is asked for, and the
/// version is beyond what was seen.
pub open spec fn is_new(
    streams: Seq<Seq<char>>,
    seen: Map<Seq<char>, u64>,
    stream: Seq<char>,
    version: u64,
) -> bool {
    &&& streams.len() == 0 || streams.contains(stream)
    &&& seen.dom().contains(stream) ==> version > seen[stream]
}

/// The versions seen after this history.
pub open spec fn seen_after(seen: Map<Seq<char>, u64>, history: Seq<StoredEvent>) -> Map<
    Seq<char>,
    u64,
>
    decreases history.len(),
{
    if history.len() == 0 {
        seen
    } else {
        seen_after(seen, history.drop_last()).insert(
            history.last().stream_id@,
            history.last().version,
        )
    }
}

/// What reads of a store gave, one after the other; a read that failed gave nothing.
pub open spec fn all_stored(reads: Seq<Result<Vec<StoredEvent>, String>>) -> Seq<StoredEvent>
    decreases reads.len(),
{
    if reads.len() == 0 {
        Seq::empty()
    } else {
        all_stored(reads.drop_last()) + match reads.last() {
            Ok(events) => events@,
            Err(_) => Seq::empty(),
        }
    }
}

/// Puts the history together: one read of the whole shard, or one of each stream that
/// was asked for.
pub fn stored_history(reads: Vec<Result<Vec<StoredEvent>, String>>) -> (history: Vec<StoredEvent>)
    ensures
        history@ == all_stored(reads@),
{
    let mut history: Vec<StoredEvent> = Vec::new();
    proof {
        assert(reads@.take(0) =~= Seq::empty());
    }
    for read in it: reads
        invariant
            it.seq() == reads@,
            history@ == all_stored(reads@.take(it.index() as int)),
    {
        proof {
            let n = it.index() as int;
            assert(reads@[n] == read);
            assert(reads@.take(n + 1).drop_last() =~= reads@.take(n));
            assert(reads@.take(n + 1).last() == read);
        }
        match read {
            Ok(events) => {
                let mut events = events;
                history.append(&mut events);
            },
            Err(_) => {},
        }
    }
    proof {
        assert(reads@.take(reads@.len() as int) =~= reads@);
    }
    history
}

impl LocalSubscription {
    pub open spec fn wf(&self) -> bool {
        self.seen.wf() && texts_increase(text_views(self.streams@))
    }

    /// A subscription to these streams of the shard (none: to all).
    pub fn new(shard_id: u64, stream_ids: Vec<String>) -> (s: LocalSubscription)
        ensures
            s.wf(),
            s.shard_id == shard_id,
            forall|x: Seq<char>| #[trigger]
                text_views(s.streams@).contains(x) <==> text_views(stream_ids@).contains(x),
            s.seen@ == Map::<Seq<char>, u64>::empty(),
            !s.caught_up,
    {
        LocalSubscription {
            shard_id,
            streams: distinct_texts(stream_ids),
            seen: TextMap::new(),
            caught_up: false,
        }
    }

    /// Shows the history, all of it and in its order, and says that it ends there.
    pub fn history(&mut self, history: Vec<StoredEvent>) -> (items: Vec<SourceItem>)
        requires
            old(self).wf(),
            !old(self).caught_up,
        ensures
            final(self).wf(),
            final(self).shard_id == old(self).shard_id,
            final(self).streams == old(self).streams,
            final(self).seen@ == seen_after(old(self).seen@, history@),
            final(self).caught_up,
            items@.len() == history@.len() + 1,
            forall|i: int|
                0 <= i < history@.len() ==> (#[trigger] items@[i] matches SourceItem::Event(e)
                    && shows(e@, history@[i], old(self).shard_id)),
            items@.last() is CaughtUp,
    {
        let mut items: Vec<SourceItem> = Vec::new();
        proof {
            assert(history@.take(0) =~= Seq::<StoredEvent>::empty());
        }
        for e in it: history
            invariant
                it.seq() == history@,
                self.wf(),
                self.shard_id == old(self).shard_id,
                self.streams == old(self).streams,
                self.seen@ == seen_after(old(self).seen@, history@.take(it.index() as int)),
                items@.len() == it.index(),
                forall|i: int|
                    0 <= i < it.index() ==> (#[trigger] items@[i] matches SourceItem::Event(e)
                        && shows(e@, history@[i], old(self).shard_id)),
        {
            proof {
                let n = it.index() as int;
                assert(history@.take(n + 1).drop_last() =~= history@.take(n));
            }
            self.seen.insert(e.stream_id.clone(), e.version);
            items.push(SourceItem::Event(show(e, self.shard_id)));
        }
        proof {
            assert(history@.take(history@.len() as int) =~= history@);
        }
        items.push(SourceItem::CaughtUp);
        self.caught_up = true;
        items
    }

    /// Shows a committed event if it is new.  This begins where the history has ended.
    pub fn live(&mut self, e: StoredEvent) -> (r: Option<Event>)
        requires
            old(self).wf(),
            old(self).caught_up,
        ensures
            final(self).wf(),
            final(self).shard_id == old(self).shard_id,
            final(self).streams == old(self).streams,
            final(self).caught_up,
            if is_new(text_views(old(self).streams@), old(self).seen@, e.stream_id@, e.version) {
                &&& r matches Some(event) && shows(event@, e, old(self).shard_id)
                &&& final(self).seen@ == old(self).seen@.insert(e.stream_id@, e.version)
            } else {
                r is None && final(self).seen == old(self).seen
            },
    {
        if !self.streams.is_empty() && !holds_text(&self.streams, e.stream_id.as_str()) {
            return None;
        }
        let old_news = match self.seen.get(e.stream_id.as_str()) {
            Some(version) => e.version <= *version,
            None => false,
        };
        if old_news {
            return None;
        }
        self.seen.insert(e.stream_id.clone(), e.version);
        Some(show(e, self.shard_id))
    }
}

/// The versions seen after these committed events (stream and version each).
pub open spec fn seen_live(
    streams: Seq<Seq<char>>,
    seen: Map<Seq<char>, u64>,
    feed: Seq<(Seq<char>, u64)>,
) -> Map<Seq<char>, u64>
    decreases feed.len(),
{
    if feed.len() == 0 {
        seen
    } else {
        let before = seen_live(streams, seen, feed.drop_last());
        let (stream, version) = feed.last();
        if is_new(streams, before, stream, version) {
            before.insert(stream, version)
        } else {
            before
        }
    }
}

proof fn lemma_seen_grows(
    streams: Seq<Seq<char>>,
    seen: Map<Seq<char>, u64>,
    feed: Seq<(Seq<char>, u64)>,
    i: int,
    j: int,
    stream: Seq<char>,
)
    requires
        0 <= i <= j <= feed.len(),
        seen_live(streams, seen, feed.take(i)).dom().contains(stream),
    ensures
        seen_live(streams, seen, feed.take(j)).dom().contains(stream),
        seen_live(streams, seen, feed.take(i))[stream] <= seen_live(
            streams,
            seen,
            feed.take(j),
        )[stream],
    decreases j - i,
{
    if i < j {
        lemma_seen_grows(streams, seen, feed, i, j - 1, stream);
        assert(feed.take(j).drop_last() =~= feed.take(j - 1));
    }
}

/// A subscriber sees the committed events of a stream in ascending versions, none
/// twice, and none that the history already showed.
pub proof fn law_live_versions_increase(
    streams: Seq<Seq<char>>,
    seen: Map<Seq<char>, u64>,
    feed: Seq<(Seq<char>, u64)>,
    i: int,
    j: int,
)
    requires
        0 <= i < j < feed.len(),
        feed[i].0 == feed[j].0,
        is_new(streams, seen_live(streams, seen, feed.take(i)), feed[i].0, feed[i].1),
        is_new(streams, seen_live(streams, seen, feed.take(j)), feed[j].0, feed[j].1),
    ensures
        feed[i].1 < feed[j].1,
        seen.dom().contains(feed[i].0) ==> seen[feed[i].0] < feed[i].1,
{
    assert(feed.take(i + 1).drop_last() =~= feed.take(i));
    lemma_seen_grows(streams, seen, feed, i + 1, j, feed[i].0);
    if seen.dom().contains(feed[i].0) {
        assert(feed.take(0) =~= Seq::empty());
        lemma_seen_grows(streams, seen, feed, 0, i, feed[i].0);
    }
}

/// What a subscription to one shard sends: an event of a stream with its version, or
/// that the history ends.
pub enum Sent {
    Event(Seq<char>, u64),
    CaughtUp,
}

/// What is sent of these committed events (stream and version each).
pub open spec fn sent_live(
    streams: Seq<Seq<char>>,
    seen: Map<Seq<char>, u64>,
    feed: Seq<(Seq<char>, u64)>,
) -> Seq<Sent>
    decreases feed.len(),
{
    if feed.len() == 0 {
        Seq::empty()
    } else {
        let before = sent_live(streams, seen, feed.drop_last());
        let (stream, version) = feed.last();
        if is_new(streams, seen_live(streams, seen, feed.drop_last()), stream, version) {
            before.push(Sent::Event(stream, version))
        } else {
            before
        }
    }
}

/// All that a subscription sends for this history and these committed events.
pub open spec fn sent_all(
    streams: Seq<Seq<char>>,
    history: Seq<StoredEvent>,
    feed: Seq<(Seq<char>, u64)>,
) -> Seq<Sent> {
    history.map_values(|e: StoredEvent| Sent::Event(e.stream_id@, e.version)).push(Sent::CaughtUp)
        + sent_live(streams, seen_after(Map::empty(), history), feed)
}

/// The versions of each stream rise.
pub open spec fn versions_rise(events: Seq<StoredEvent>) -> bool {
    forall|i: int, j: int|
        0 <= i < j < events.len() && (#[trigger] events[i]).stream_id@ == (
        #[trigger] events[j]).stream_id@ ==> events[i].version < events[j].version
}

proof fn lemma_seen_after_holds(history: Seq<StoredEvent>, i: int)
    requires
        versions_rise(history),
        0 <= i < history.len(),
    ensures
        seen_after(Map::empty(), history).dom().contains(history[i].stream_id@),
        seen_after(Map::empty(), history)[history[i].stream_id@] >= history[i].version,
    decreases history.len(),
{
    let rest = history.drop_last();
    let last = history.last();
    if i < rest.len() {
        assert(versions_rise(rest)) by {
            assert forall|a: int, b: int|
                0 <= a < b < rest.len() && (#[trigger] rest[a]).stream_id@ == (
                #[trigger] rest[b]).stream_id@ implies rest[a].version < rest[b].version by {
                assert(history[a] == rest[a] && history[b] == rest[b]);
            }
        }
        lemma_seen_after_holds(rest, i);
        assert(rest[i] == history[i]);
        if history[i].stream_id@ == last.stream_id@ {
            assert(history[i].version < history[rest.len() as int].version);
        }
    }
}

proof fn lemma_sent_live(
    streams: Seq<Seq<char>>,
    seen: Map<Seq<char>, u64>,
    feed: Seq<(Seq<char>, u64)>,
)
    ensures
        forall|a: int|
            0 <= a < sent_live(streams, seen, feed).len() ==> {
                &&& #[trigger] sent_live(streams, seen, feed)[a] matches Sent::Event(x, v)
                &&& streams.len() == 0 || streams.contains(x)
                &&& seen.dom().contains(x) ==> v > seen[x]
                &&& seen_live(streams, seen, feed).dom().contains(x)
                &&& seen_live(streams, seen, feed)[x] >= v
            },
        forall|a: int, b: int|
            0 <= a < b < sent_live(streams, seen, feed).len() ==> {
                let x = #[trigger] sent_live(streams, seen, feed)[a];
                let y = #[trigger] sent_live(streams, seen, feed)[b];
                x->Event_0 == y->Event_0 ==> x->Event_1 < y->Event_1
            },
        forall|x: Seq<char>| #[trigger]
            seen.dom().contains(x) ==> seen_live(streams, seen, feed).dom().contains(x)
                && seen_live(streams, seen, feed)[x] >= seen[x],
    decreases feed.len(),
{
    if feed.len() > 0 {
        lemma_sent_live(streams, seen, feed.drop_last());
        let before = sent_live(streams, seen, feed.drop_last());
        let now = sent_live(streams, seen, feed);
        assert forall|a: int| 0 <= a < before.len() implies now[a] == #[trigger] before[a] by {}
        assert forall|a: int, b: int| 0 <= a < b < now.len() implies ({
            let x = #[trigger] now[a];
            let y = #[trigger] now[b];
            x->Event_0 == y->Event_0 ==> x->Event_1 < y->Event_1
        }) by {
            assert(now[a] == before[a]);
            if b < before.len() {
                assert(now[b] == before[b]);
            }
        }
    }
}

/// A subscription to one shard sends the history, all of it and in its order; then,
/// exactly once, that the history ends; then committed events of the streams that were
/// asked for.  The versions of a stream rise all the way, so no event is sent twice,
/// also if it was both stored and committed while the history was read.
pub proof fn law_history_then_caught_up_then_live(
    streams: Seq<Seq<char>>,
    history: Seq<StoredEvent>,
    feed: Seq<(Seq<char>, u64)>,
)
    requires
        versions_rise(history),
    ensures
        ({
            let out = sent_all(streams, history, feed);
            &&& out.len() > history.len()
            &&& forall|a: int|
                0 <= a < history.len() ==> #[trigger] out[a] == Sent::Event(
                    history[a].stream_id@,
                    history[a].version,
                )
            &&& forall|a: int|
                0 <= a < out.len() ==> (#[trigger] out[a] is CaughtUp <==> a == history.len())
            &&& forall|a: int|
                history.len() < a < out.len() ==> (#[trigger] out[a] matches Sent::Event(x, _) && (
                streams.len() == 0 || streams.contains(x)))
            &&& forall|a: int, b: int|
                0 <= a < b < out.len() ==> (#[trigger] out[a] matches Sent::Event(x, v) ==> (
                #[trigger] out[b] matches Sent::Event(y, w) ==> (x == y ==> v < w)))
        }),
{
    let out = sent_all(streams, history, feed);
    let seen = seen_after(Map::empty(), history);
    let live = sent_live(streams, seen, feed);
    let h = history.len() as int;
    lemma_sent_live(streams, seen, feed);
    assert forall|a: int| h < a < out.len() implies #[trigger] out[a] == live[a - h - 1] by {}
    assert forall|a: int, b: int| 0 <= a < b < out.len() implies (
    #[trigger] out[a] matches Sent::Event(x, v) ==> (#[trigger] out[b] matches Sent::Event(y, w)
        ==> (x == y ==> v < w))) by {
        if a < h && b < h {
            assert(history[a].stream_id@ == history[b].stream_id@ ==> history[a].version
                < history[b].version);
        } else if a < h && b > h {
            lemma_seen_after_holds(history, a);
            assert(out[b] == live[b - h - 1]);
        } else if a > h {
            assert(out[a] == live[a - h - 1]);
            assert(out[b] == live[b - h - 1]);
        }
    }
}


/// A committed event is sent exactly where it is wanted and new: no stream was named or
/// its stream was, and its version is beyond the last one seen of its stream, or its
/// stream was never seen.  What is sent is that event, and from there on its version is
/// the last one seen.
pub proof fn law_live_sends_exactly_the_wanted_new_events(
    this: &mut LocalSubscription,
    e: StoredEvent,
    r: Option<Event>,
)
    requires
        call_ensures(LocalSubscription::live, (this, e), r),
    ensures
        r is Some <==> (old(this).streams@.len() == 0 || exists|i: int|
            0 <= i < old(this).streams@.len() && (#[trigger] old(this).streams@[i])@
                == e.stream_id@) && (!old(this).seen@.dom().contains(e.stream_id@)
            || old(this).seen@[e.stream_id@] < e.version),
        r matches Some(event) ==> {
            &&& event.stream_id@ == e.stream_id@ && event.version == e.version
            &&& event.event_type@ == e.event_type@ && event.data@ == e.data@
            &&& event.metadata@ == e.metadata@ && event.hlc == Some(e.hlc)
            &&& event.position == e.position && event.shard_id == old(this).shard_id
            &&& final(this).seen@.dom().contains(e.stream_id@)
            &&& final(this).seen@[e.stream_id@] == e.version
        },
        forall|x: Seq<char>|
            x != e.stream_id@ || r is None ==> (#[trigger] final(this).seen@.dom().contains(x)
                <==> old(this).seen@.dom().contains(x)) && (old(this).seen@.dom().contains(x)
                ==> final(this).seen@[x] == old(this).seen@[x]),
        final(this).streams@ == old(this).streams@,
        final(this).shard_id == old(this).shard_id,
{
    let names = text_views(old(this).streams@);
    if names.contains(e.stream_id@) {
        let i = choose|i: int| 0 <= i < names.len() && names[i] == e.stream_id@;
        assert(old(this).streams@[i]@ == e.stream_id@);
    }
    if exists|i: int|
        0 <= i < old(this).streams@.len() && (#[trigger] old(this).streams@[i])@ == e.stream_id@ {
        let i = choose|i: int|
            0 <= i < old(this).streams@.len() && (#[trigger] old(this).streams@[i])@
                == e.stream_id@;
        assert(names[i] == e.stream_id@);
    }
}

proof fn lemma_seen_after_is_below(history: Seq<StoredEvent>, x: Seq<char>, v: u64)
    requires
        forall|k: int|
            0 <= k < history.len() && (#[trigger] history[k]).stream_id@ == x ==> history[k].version
                < v,
    ensures
        seen_after(Map::empty(), history).dom().contains(x) ==> seen_after(
            Map::empty(),
            history,
        )[x] < v,
    decreases history.len(),
{
    if history.len() > 0 {
        let rest = history.drop_last();
        assert forall|k: int|
            0 <= k < rest.len() && (#[trigger] rest[k]).stream_id@ == x implies rest[k].version
            < v by {
            assert(rest[k] == history[k]);
        }
        lemma_seen_after_is_below(rest, x, v);
        assert(history.last() == history[history.len() - 1]);
    }
}

proof fn lemma_seen_live_is_below(
    streams: Seq<Seq<char>>,
    seen: Map<Seq<char>, u64>,
    feed: Seq<(Seq<char>, u64)>,
    x: Seq<char>,
    v: u64,
)
    requires
        seen.dom().contains(x) ==> seen[x] < v,
        forall|k: int| 0 <= k < feed.len() && (#[trigger] feed[k]).0 == x ==> feed[k].1 < v,
    ensures
        seen_live(streams, seen, feed).dom().contains(x) ==> seen_live(streams, seen, feed)[x] < v,
    decreases feed.len(),
{
    if feed.len() > 0 {
        let rest = feed.drop_last();
        assert forall|k: int| 0 <= k < rest.len() && (#[trigger] rest[k]).0 == x implies rest[k].1
            < v by {
            assert(rest[k] == feed[k]);
        }
        lemma_seen_live_is_below(streams, seen, rest, x, v);
        assert(feed.last() == feed[feed.len() - 1]);
    }
}

proof fn lemma_sent_stays(
    streams: Seq<Seq<char>>,
    seen: Map<Seq<char>, u64>,
    feed: Seq<(Seq<char>, u64)>,
    i: int,
    s: Sent,
)
    requires
        0 <= i <= feed.len(),
        sent_live(streams, seen, feed.take(i)).contains(s),
    ensures
        sent_live(streams, seen, feed).contains(s),
    decreases feed.len() - i,
{
    if i == feed.len() {
        assert(feed.take(i) =~= feed);
    } else {
        let was = sent_live(streams, seen, feed.take(i));
        let now = sent_live(streams, seen, feed.take(i + 1));
        assert(feed.take(i + 1).drop_last() =~= feed.take(i));
        let k = choose|k: int| 0 <= k < was.len() && was[k] == s;
        assert(now[k] == s);
        lemma_sent_stays(streams, seen, feed, i + 1, s);
    }
}

/// The live part is complete: with no streams named, or with the event's stream among
/// those named, every committed event whose version is beyond all that the history and
/// the earlier committed events showed of its stream is sent.
pub proof fn law_every_wanted_new_event_is_sent(
    streams: Seq<Seq<char>>,
    history: Seq<StoredEvent>,
    feed: Seq<(Seq<char>, u64)>,
    i: int,
)
    requires
        0 <= i < feed.len(),
        streams.len() == 0 || streams.contains(feed[i].0),
        forall|k: int|
            0 <= k < history.len() && (#[trigger] history[k]).stream_id@ == feed[i].0
                ==> history[k].version < feed[i].1,
        forall|k: int|
            0 <= k < i && (#[trigger] feed[k]).0 == feed[i].0 ==> feed[k].1 < feed[i].1,
    ensures
        sent_all(streams, history, feed).contains(Sent::Event(feed[i].0, feed[i].1)),
{
    let (x, v) = feed[i];
    let seen = seen_after(Map::empty(), history);
    let before = feed.take(i);
    lemma_seen_after_is_below(history, x, v);
    assert forall|k: int| 0 <= k < before.len() && (#[trigger] before[k]).0 == x implies before[k].1
        < v by {
        assert(before[k] == feed[k]);
    }
    lemma_seen_live_is_below(streams, seen, before, x, v);
    let upto = feed.take(i + 1);
    assert(upto.drop_last() =~= before);
    assert(upto.last() == feed[i]);
    let sent = sent_live(streams, seen, upto);
    assert(sent.last() == Sent::Event(x, v));
    assert(sent[sent.len() - 1] == Sent::Event(x, v));
    lemma_sent_stays(streams, seen, feed, i + 1, Sent::Event(x, v));
    let live = sent_live(streams, seen, feed);
    let k = choose|k: int| 0 <= k < live.len() && live[k] == Sent::Event(x, v);
    let all = sent_all(streams, history, feed);
    assert(all[history.len() + 1 + k] == live[k]);
}

/// After the history, the last version seen of a stream is that of its last event there;
/// of a stream without an event there, what was seen before stays.
pub proof fn law_history_leaves_the_last_versions(
    this: &mut LocalSubscription,
    history: Vec<StoredEvent>,
    items: Vec<SourceItem>,
    x: Seq<char>,
)
    requires
        call_ensures(LocalSubscription::history, (this, history), items),
    ensures
        (forall|i: int| 0 <= i < history@.len() ==> (#[trigger] history@[i]).stream_id@ != x) ==> (
        final(this).seen@.dom().contains(x) <==> old(this).seen@.dom().contains(x)) && (
        old(this).seen@.dom().contains(x) ==> final(this).seen@[x] == old(this).seen@[x]),
        forall|i: int|
            0 <= i < history@.len() && (#[trigger] history@[i]).stream_id@ == x && (forall|j: int|
                i < j < history@.len() ==> (#[trigger] history@[j]).stream_id@ != x)
                ==> final(this).seen@.dom().contains(x) && final(this).seen@[x]
                == history@[i].version,
        items@.len() == history@.len() + 1,
        items@.last() is CaughtUp,
        forall|i: int|
            0 <= i < history@.len() ==> (#[trigger] items@[i] matches SourceItem::Event(e)
                && e.stream_id@ == history@[i].stream_id@ && e.version == history@[i].version
                && e.data@ == history@[i].data@ && e.metadata@ == history@[i].metadata@
                && e.event_type@ == history@[i].event_type@ && e.hlc == Some(history@[i].hlc)
                && e.position == history@[i].position && e.shard_id == old(this).shard_id),
        final(this).caught_up,
{
    lemma_last_seen(old(this).seen@, history@, x);
}

proof fn lemma_last_seen(seen: Map<Seq<char>, u64>, history: Seq<StoredEvent>, x: Seq<char>)
    ensures
        (forall|i: int| 0 <= i < history.len() ==> (#[trigger] history[i]).stream_id@ != x) ==> (
        seen_after(seen, history).dom().contains(x) <==> seen.dom().contains(x)) && (
        seen.dom().contains(x) ==> seen_after(seen, history)[x] == seen[x]),
        forall|i: int|
            0 <= i < history.len() && (#[trigger] history[i]).stream_id@ == x && (forall|j: int|
                i < j < history.len() ==> (#[trigger] history[j]).stream_id@ != x) ==> seen_after(
                seen,
                history,
            ).dom().contains(x) && seen_after(seen, history)[x] == history[i].version,
    decreases history.len(),
{
    if history.len() > 0 {
        let rest = history.drop_last();
        let n = history.len() - 1;
        lemma_last_seen(seen, rest, x);
        assert(history.last() == history[n]);
        if forall|i: int| 0 <= i < history.len() ==> (#[trigger] history[i]).stream_id@ != x {
            assert forall|i: int| 0 <= i < rest.len() implies (#[trigger] rest[i]).stream_id@
                != x by {
                assert(rest[i] == history[i]);
            }
        }
        assert forall|i: int|
            0 <= i < history.len() && (#[trigger] history[i]).stream_id@ == x && (forall|j: int|
                i < j < history.len() ==> (#[trigger] history[j]).stream_id@ != x) implies seen_after(
            seen,
            history,
        ).dom().contains(x) && seen_after(seen, history)[x] == history[i].version by {
            if i < n {
                assert(rest[i] == history[i]);
                assert forall|j: int| i < j < rest.len() implies (#[trigger] rest[j]).stream_id@
                    != x by {
                    assert(rest[j] == history[j]);
                }
            }
        }
    }
}

/// A source that has shown its history is waited for no longer.  The subscriber is told
/// that all is caught up when the last one has, and was not told before; that sources
/// are missing when the first one ends.  Every event is passed on as it is.
pub proof fn law_sources_are_told_as_one(
    message: SourceMessage,
    pending: &mut BTreeSet<u64>,
    caught_up: &mut bool,
    degraded: &mut bool,
    r: Option<SubscribePayload>,
)
    requires
        call_ensures(aggregate_source_message, (message, pending, caught_up, degraded), r),
    ensures
        match message {
            SourceMessage::Event(e) => {
                &&& r matches Some(SubscribePayload::Event(p))
                &&& p.stream_id@ == e.stream_id@ && p.version == e.version
                &&& p.event_id@ == e.event_id@ && p.event_type@ == e.event_type@
                &&& p.data@ == e.data@ && p.metadata@ == e.metadata@ && p.hlc == e.hlc
                &&& final(pending)@ == old(pending)@
                &&& *final(caught_up) == *old(caught_up) && *final(degraded) == *old(degraded)
            },
            SourceMessage::CaughtUp(source) => {
                let others = exists|s: u64| s != source && #[trigger] old(pending)@.contains(s);
                &&& forall|s: u64| #[trigger]
                    final(pending)@.contains(s) <==> old(pending)@.contains(s) && s != source
                &&& *final(caught_up) <==> *old(caught_up) || !others
                &&& *final(degraded) == *old(degraded)
                &&& if *old(caught_up) || others {
                    r is None
                } else {
                    r == Some(SubscribePayload::CaughtUp)
                }
            },
            SourceMessage::Degraded(_) => {
                &&& final(pending)@ == old(pending)@
                &&& *final(caught_up) == *old(caught_up) && *final(degraded)
                &&& if *old(degraded) {
                    r is None
                } else {
                    r == Some(SubscribePayload::Degraded)
                }
            },
        },
{
    if let SourceMessage::CaughtUp(source) = message {
        let left = old(pending)@.remove(source);
        if left =~= Set::empty() {
            assert forall|s: u64| s != source implies !#[trigger] old(pending)@.contains(s) by {
                assert(!left.contains(s));
            }
        } else {
            let s = choose|s: u64| #[trigger] left.contains(s);
            assert(left.contains(s));
            assert(old(pending)@.contains(s) && s != source);
        }
    }
}

proof fn lemma_streams_on(routed: Seq<(String, u64)>, shard: u64, x: Seq<char>)
    ensures
        streams_on(routed, shard).contains(x) <==> exists|k: int|
            0 <= k < routed.len() && (#[trigger] routed[k]).0@ == x && routed[k].1 == shard,
    decreases routed.len(),
{
    if routed.len() > 0 {
        let rest = routed.drop_last();
        let n = routed.len() - 1;
        let was = streams_on(rest, shard);
        let now = streams_on(routed, shard);
        lemma_streams_on(rest, shard, x);
        assert(routed.last() == routed[n]);
        if was.contains(x) {
            let k = choose|k: int|
                0 <= k < rest.len() && (#[trigger] rest[k]).0@ == x && rest[k].1 == shard;
            assert(routed[k] == rest[k]);
            let m = choose|m: int| 0 <= m < was.len() && was[m] == x;
            assert(now[m] == x);
        }
        if now.contains(x) && !was.contains(x) {
            let m = choose|m: int| 0 <= m < now.len() && now[m] == x;
            if m < was.len() {
                assert(was[m] == x);
            }
            assert(routed[n].0@ == x && routed[n].1 == shard);
        }
        if exists|k: int|
            0 <= k < routed.len() && (#[trigger] routed[k]).0@ == x && routed[k].1 == shard {
            let k = choose|k: int|
                0 <= k < routed.len() && (#[trigger] routed[k]).0@ == x && routed[k].1 == shard;
            if k < n {
                assert(rest[k] == routed[k]);
            } else {
                assert(now[was.len() as int] == x);
            }
        }
    } else {
        assert(streams_on(routed, shard) =~= Seq::<Seq<char>>::empty());
    }
}

/// Every routed stream is asked of the shard it is routed to, no shard is asked for a
/// stream that is not routed there, and each shard is asked once.
pub proof fn law_streams_are_asked_where_they_are_routed(
    routed: Vec<(String, u64)>,
    groups: Vec<(u64, Vec<String>)>,
    shard: u64,
    stream: Seq<char>,
)
    requires
        call_ensures(group_streams, (&routed,), groups),
    ensures
        forall|i: int, j: int| 0 <= i < j < groups@.len() ==> groups@[i].0 < groups@[j].0,
        (exists|k: int|
            0 <= k < routed@.len() && (#[trigger] routed@[k]).0@ == stream && routed@[k].1
                == shard) <==> (exists|i: int|
            0 <= i < groups@.len() && (#[trigger] groups@[i]).0 == shard && exists|m: int|
                0 <= m < groups@[i].1@.len() && (#[trigger] groups@[i].1@[m])@ == stream),
{
    let ids = groups@.map_values(|g: (u64, Vec<String>)| g.0);
    assert forall|i: int, j: int| 0 <= i < j < groups@.len() implies groups@[i].0
        < groups@[j].0 by {
        assert(ids[i] < ids[j]);
    }
    let shards = routed@.map_values(|p: (String, u64)| p.1);
    lemma_streams_on(routed@, shard, stream);
    if exists|k: int|
        0 <= k < routed@.len() && (#[trigger] routed@[k]).0@ == stream && routed@[k].1 == shard {
        let k = choose|k: int|
            0 <= k < routed@.len() && (#[trigger] routed@[k]).0@ == stream && routed@[k].1 == shard;
        assert(shards[k] == shard);
        assert(shards_of(routed@).contains(shard));
        assert(ids.contains(shard));
        let i = choose|i: int| 0 <= i < ids.len() && ids[i] == shard;
        assert(groups@[i].0 == shard);
        let names = text_views(groups@[i].1@);
        assert(names.contains(stream));
        let m = choose|m: int| 0 <= m < names.len() && names[m] == stream;
        assert(groups@[i].1@[m]@ == stream);
    }
    if exists|i: int|
        0 <= i < groups@.len() && (#[trigger] groups@[i]).0 == shard && exists|m: int|
            0 <= m < groups@[i].1@.len() && (#[trigger] groups@[i].1@[m])@ == stream {
        let i = choose|i: int|
            0 <= i < groups@.len() && (#[trigger] groups@[i]).0 == shard && exists|m: int|
                0 <= m < groups@[i].1@.len() && (#[trigger] groups@[i].1@[m])@ == stream;
        let m = choose|m: int|
            0 <= m < groups@[i].1@.len() && (#[trigger] groups@[i].1@[m])@ == stream;
        assert(text_views(groups@[i].1@)[m] == stream);
        assert(streams_on(routed@, shard).contains(stream));
    }
}

/// The history holds what every read that succeeded gave, and nothing else.
pub proof fn law_history_holds_every_read(
    reads: Vec<Result<Vec<StoredEvent>, String>>,
    history: Vec<StoredEvent>,
    e: StoredEvent,
)
    requires
        call_ensures(stored_history, (reads,), history),
    ensures
        history@.contains(e) <==> exists|i: int|
            0 <= i < reads@.len() && (#[trigger] reads@[i] matches Ok(v) && v@.contains(e)),
        reads@.len() > 0 && (forall|i: int| 1 <= i < reads@.len() ==> #[trigger] reads@[i] is Err)
            ==> (reads@[0] matches Ok(v) ==> history@ == v@),
{
    lemma_all_stored(reads@, e);
    if reads@.len() > 0 && (forall|i: int|
        1 <= i < reads@.len() ==> #[trigger] reads@[i] is Err) && reads@[0] is Ok {
        lemma_one_read(reads@);
    }
}

proof fn lemma_one_read(reads: Seq<Result<Vec<StoredEvent>, String>>)
    requires
        reads.len() > 0,
        reads[0] is Ok,
        forall|i: int| 1 <= i < reads.len() ==> #[trigger] reads[i] is Err,
    ensures
        all_stored(reads) == reads[0]->Ok_0@,
    decreases reads.len(),
{
    let rest = reads.drop_last();
    if reads.len() > 1 {
        assert forall|i: int| 1 <= i < rest.len() implies #[trigger] rest[i] is Err by {
            assert(reads[i] is Err);
        }
        assert(rest[0] == reads[0]);
        lemma_one_read(rest);
        assert(reads[reads.len() - 1] is Err);
        assert(all_stored(reads) =~= all_stored(rest));
    } else {
        assert(rest =~= Seq::empty());
        assert(all_stored(rest) =~= Seq::empty());
        assert(all_stored(reads) =~= reads[0]->Ok_0@);
    }
}

proof fn lemma_all_stored(reads: Seq<Result<Vec<StoredEvent>, String>>, e: StoredEvent)
    ensures
        all_stored(reads).contains(e) <==> exists|i: int|
            0 <= i < reads.len() && (#[trigger] reads[i] matches Ok(v) && v@.contains(e)),
    decreases reads.len(),
{
    if reads.len() > 0 {
        let rest = reads.drop_last();
        let n = reads.len() - 1;
        lemma_all_stored(rest, e);
        assert(reads.last() == reads[n]);
        let was = all_stored(rest);
        let more = match reads.last() {
            Ok(events) => events@,
            Err(_) => Seq::empty(),
        };
        let now = all_stored(reads);
        assert(now == was + more);
        if was.contains(e) {
            let i = choose|i: int|
                0 <= i < rest.len() && (#[trigger] rest[i] matches Ok(v) && v@.contains(e));
            assert(reads[i] == rest[i]);
            let k = choose|k: int| 0 <= k < was.len() && was[k] == e;
            assert(now[k] == e);
        }
        if more.contains(e) {
            let k = choose|k: int| 0 <= k < more.len() && more[k] == e;
            assert(now[was.len() + k] == e);
            assert(reads[n] matches Ok(v) && v@.contains(e));
        }
        if now.contains(e) && !was.contains(e) {
            let k = choose|k: int| 0 <= k < now.len() && now[k] == e;
            if k < was.len() {
                assert(was[k] == e);
            }
            assert(more[k - was.len()] == e);
            assert(more.contains(e));
        }
        if exists|i: int|
            0 <= i < reads.len() && (#[trigger] reads[i] matches Ok(v) && v@.contains(e)) {
            let i = choose|i: int|
                0 <= i < reads.len() && (#[trigger] reads[i] matches Ok(v) && v@.contains(e));
            if i < n {
                assert(rest[i] == reads[i]);
            }
        }
    } else {
        assert(all_stored(reads) =~= Seq::<StoredEvent>::empty());
    }
}


/// A subscription to everything asks every shard for all its streams; one to streams
/// follows each of those named once; one to nothing is refused.
pub proof fn law_subscription_covers_its_target(
    target: Option<SubscribeTarget>,
    all_shards: Vec<u64>,
    r: Result<SubscribePlan, Status>,
    k: int,
    name: Seq<char>,
)
    requires
        call_ensures(plan_subscription, (target, &all_shards), r),
    ensures
        target is None ==> (r matches Err(s) && s@.code == Code::InvalidArgument),
        target matches Some(SubscribeTarget::Streams(names)) ==> {
            &&& names@.len() == 0 ==> (r matches Err(s) && s@.code == Code::InvalidArgument)
            &&& names@.len() > 0 ==> (r matches Ok(SubscribePlan::Route(streams)) && (
            text_views(streams@).contains(name) <==> text_views(names@).contains(name)))
        },
        target is Some && target->0 is All ==> (r matches Ok(SubscribePlan::Groups(groups))
            && groups@.len() == all_shards@.len() && (0 <= k < groups@.len() ==> groups@[k].0
            == all_shards@[k] && groups@[k].1@.len() == 0)),
{
}

/// Only the leader of a shard answers for it; what a source sends is handed on, and its end
/// is told as a loss of the shard.
pub proof fn law_source_is_the_leader_and_its_end_is_told(
    shard_id: u64,
    leads: Option<bool>,
    admitted: Result<(), Status>,
    item: Option<SourceItem>,
    handed: (SourceMessage, bool),
)
    requires
        call_ensures(admit_internal, (shard_id, leads), admitted),
        call_ensures(forward_item, (shard_id, item), handed),
    ensures
        admitted is Ok <==> leads == Some(true),
        admitted matches Err(s) ==> s@.code == Code::Unavailable,
        handed.1 <==> item is Some,
        item is None ==> handed.0 == SourceMessage::Degraded(shard_id),
        item matches Some(SourceItem::Event(e)) ==> handed.0 == SourceMessage::Event(e),
        item matches Some(SourceItem::CaughtUp) ==> handed.0 == SourceMessage::CaughtUp(shard_id),
{
}

} // verus!
