//! Reading candidate events for a consumer group from one shard.
//!
//! The shard's storage is read stream by stream.  Between the reads the reader
//! here decides whether and how much to read next, and when the batch is full.

use vstd::prelude::*;

use crate::event::Event;
use crate::read::{not_here, shard_not_here};
use crate::status::{Code, Status, says};
use crate::text::join2;

verus! {

/// Most events of one batch.
pub const MAX_FETCH_EVENTS: u32 = 1000;

/// Most bytes of one batch (7 MiB).
pub const MAX_FETCH_BYTES: u64 = 7340032;

/// Where reading goes on in one stream.
#[derive(Debug)]
pub struct PersistentCursor {
    pub stream_id: String,
    pub from_version: u64,
    /// Most events to read of this stream; 0: no limit of its own.
    pub max_count: u32,
}

/// Contents of a [`PersistentCursor`].
#[verifier::ext_equal]
pub struct CursorView {
    pub stream: Seq<char>,
    pub from_version: u64,
    pub max_count: u32,
}

impl View for PersistentCursor {
    type V = CursorView;

    open spec fn view(&self) -> CursorView {
        CursorView {
            stream: self.stream_id@,
            from_version: self.from_version,
            max_count: self.max_count,
        }
    }
}

/// Contents of a list of cursors.
pub open spec fn cursor_views(v: Seq<PersistentCursor>) -> Seq<CursorView> {
    v.map_values(|c: PersistentCursor| c@)
}

/// The end of one stream.
#[derive(Debug)]
pub struct PersistentHead {
    pub stream_id: String,
    pub exists: bool,
    pub current_version: u64,
}

/// What to do about the stream of a cursor.
#[derive(Clone, Copy, Debug, PartialEq, Eq, Structural)]
pub enum Visit {
    /// Nothing to read of this stream; go on with the next.
    Skip,
    /// The batch is full; no further stream is looked at.
    Stop,
    /// Read up to `count` events from `from_version` on.
    Read { from_version: u64, count: u32 },
}

/// A batch in the making.
#[derive(Debug)]
pub struct BatchReader {
    pub max_events: u32,
    pub max_bytes: u64,
    pub heads: Vec<PersistentHead>,
    pub events: Vec<Event>,
    pub used_bytes: u64,
}

/// Sum that stays at the largest number.
pub open spec fn capped_sum(a: u64, b: u64) -> u64 {
    if a + b > u64::MAX {
        u64::MAX
    } else {
        (a + b) as u64
    }
}

/// What a batch that holds `have` events of `used` bytes takes of further events
/// of these sizes: how many, the bytes then used, and whether it is full.
///
/// The first event always fits; a later one must keep the batch within the bytes
/// (0: no limit).  The batch is full at `max_events`.
pub open spec fn absorbs(
    have: nat,
    used: u64,
    sizes: Seq<u64>,
    max_events: u32,
    max_bytes: u64,
) -> (nat, u64, bool)
    decreases sizes.len(),
{
    if sizes.len() == 0 {
        (0, used, false)
    } else {
        let sum = capped_sum(used, sizes[0]);
        if have > 0 && max_bytes != 0 && sum > max_bytes {
            (0, used, true)
        } else if have + 1 >= max_events {
            (1, sum, true)
        } else {
            let (n, total, full) = absorbs(have + 1, sum, sizes.skip(1), max_events, max_bytes);
            (n + 1, total, full)
        }
    }
}

impl BatchReader {
    /// The batch keeps to its limits.
    pub open spec fn wf(&self) -> bool {
        &&& self.events@.len() <= self.max_events
        &&& self.events@.len() > 1 && self.max_bytes != 0 ==> self.used_bytes <= self.max_bytes
    }

    /// An empty batch with these limits.
    pub fn new(max_events: u32, max_bytes: u64) -> (b: BatchReader)
        ensures
            b.wf(),
            b.max_events == max_events,
            b.max_bytes == max_bytes,
            b.heads@.len() == 0,
            b.events@.len() == 0,
            b.used_bytes == 0,
    {
        BatchReader {
            max_events,
            max_bytes,
            heads: Vec::new(),
            events: Vec::new(),
            used_bytes: 0,
        }
    }

    /// Notes the end of the cursor's stream (`head`: its current version, if it
    /// exists) and decides what to read of it.  A batch of 0 events reads heads
    /// only.
    pub fn visit(&mut self, cursor: &PersistentCursor, head: Option<u64>) -> (v: Visit)
        requires
            old(self).wf(),
        ensures
            final(self).wf(),
            final(self).max_events == old(self).max_events,
            final(self).max_bytes == old(self).max_bytes,
            final(self).events == old(self).events,
            final(self).used_bytes == old(self).used_bytes,
            final(self).heads@.len() == old(self).heads@.len() + 1,
            forall|i: int|
                0 <= i < old(self).heads@.len() ==> #[trigger] final(self).heads@[i] == old(self).heads@[i],
            final(self).heads@.last().stream_id@ == cursor.stream_id@,
            final(self).heads@.last().exists == (head is Some),
            final(self).heads@.last().current_version == (match head {
                Some(x) => x,
                None => 0,
            }),
            v == ({
                let left = old(self).max_events - old(self).events@.len();
                if old(self).max_events == 0 || head is None {
                    Visit::Skip
                } else if left == 0 {
                    Visit::Stop
                } else {
                    Visit::Read {
                        from_version: cursor.from_version,
                        count: if cursor.max_count == 0 || left < cursor.max_count {
                            left as u32
                        } else {
                            cursor.max_count
                        },
                    }
                }
            }),
    {
        let current_version: u64 = match head {
            Some(x) => x,
            None => 0,
        };
        self.heads.push(
            PersistentHead {
                stream_id: cursor.stream_id.clone(),
                exists: head.is_some(),
                current_version,
            },
        );
        if self.max_events == 0 || head.is_none() {
            return Visit::Skip;
        }
        let remaining: u32 = self.max_events - self.events.len() as u32;
        if remaining == 0 {
            return Visit::Stop;
        }
        let count: u32 = if cursor.max_count == 0 {
            remaining
        } else if cursor.max_count < remaining {
            cursor.max_count
        } else {
            remaining
        };
        Visit::Read { from_version: cursor.from_version, count }
    }

    /// Takes events that were read, each with its encoded size, as far as they
    /// fit; true if the batch is full, so that reading ends.
    pub fn absorb(&mut self, read: Vec<(Event, u64)>) -> (full: bool)
        requires
            old(self).wf(),
            old(self).events@.len() < old(self).max_events,
        ensures
            final(self).wf(),
            final(self).max_events == old(self).max_events,
            final(self).max_bytes == old(self).max_bytes,
            final(self).heads == old(self).heads,
            ({
                let (n, used, is_full) = absorbs(
                    old(self).events@.len(),
                    old(self).used_bytes,
                    read@.map_values(|p: (Event, u64)| p.1),
                    old(self).max_events,
                    old(self).max_bytes,
                );
                &&& n <= read@.len()
                &&& final(self).events@ == old(self).events@ + read@.map_values(
                    |p: (Event, u64)| p.0,
                ).take(n as int)
                &&& final(self).used_bytes == used
                &&& full == is_full
            }),
    {
        let ghost sizes = read@.map_values(|p: (Event, u64)| p.1);
        let ghost fresh = read@.map_values(|p: (Event, u64)| p.0);
        let ghost start = self.events@;
        let ghost goal = absorbs(
            start.len(),
            self.used_bytes,
            sizes,
            self.max_events,
            self.max_bytes,
        );
        proof {
            assert(sizes.skip(0) =~= sizes);
            assert(fresh.take(0) =~= Seq::<Event>::empty());
            assert(start + fresh.take(0) =~= start);
        }
        for pair in it: read
            invariant
                it.seq() == read@,
                sizes == read@.map_values(|p: (Event, u64)| p.1),
                fresh == read@.map_values(|p: (Event, u64)| p.0),
                self.wf(),
                self.events@.len() < self.max_events,
                self.max_events == old(self).max_events,
                self.max_bytes == old(self).max_bytes,
                self.heads == old(self).heads,
                start == old(self).events@,
                self.events@ == start + fresh.take(it.index() as int),
                ({
                    let (n, used, is_full) = absorbs(
                        self.events@.len(),
                        self.used_bytes,
                        sizes.skip(it.index() as int),
                        self.max_events,
                        self.max_bytes,
                    );
                    goal == (n + it.index() as nat, used, is_full)
                }),
                goal == absorbs(
                    start.len(),
                    old(self).used_bytes,
                    sizes,
                    old(self).max_events,
                    old(self).max_bytes,
                ),
        {
            let ghost k = it.index() as int;
            let (event, bytes) = pair;
            let sum = self.used_bytes.saturating_add(bytes);
            proof {
                assert(sizes.skip(k)[0] == bytes);
                assert(sizes.skip(k).skip(1) =~= sizes.skip(k + 1));
                assert(fresh.take(k + 1) =~= fresh.take(k).push(event));
                assert(start + fresh.take(k + 1) =~= (start + fresh.take(k)).push(event));
            }
            if !self.events.is_empty() && self.max_bytes != 0 && sum > self.max_bytes {
                return true;
            }
            self.used_bytes = sum;
            self.events.push(event);
            if self.events.len() as u32 >= self.max_events {
                return true;
            }
        }
        proof {
            assert(sizes.skip(sizes.len() as int).len() == 0);
        }
        false
    }
}

/// Whether this node may read a batch of this size from the shard: `None` if the
/// shard is not here, else whether it leads here.
pub fn admit_batch(shard_id: u64, leads: Option<bool>, max_events: u32, max_bytes: u64) -> (r:
    Result<(), Status>)
    ensures
        r is Ok <==> (leads == Some(true) && max_events <= MAX_FETCH_EVENTS && max_bytes
            <= MAX_FETCH_BYTES),
        r matches Err(s) ==> s@ == (if leads is None {
            not_here(shard_id)
        } else if leads == Some(false) {
            says(Code::Unavailable, "persistent subscription source is not leader"@)
        } else if max_events > MAX_FETCH_EVENTS {
            says(Code::InvalidArgument, "max_events exceeds 1000"@)
        } else {
            says(Code::InvalidArgument, "max_bytes exceeds 7 MiB"@)
        }),
{
    match leads {
        None => return Err(shard_not_here(shard_id)),
        Some(false) => return Err(
            Status::of(Code::Unavailable, "persistent subscription source is not leader"),
        ),
        Some(true) => {},
    }
    if max_events > MAX_FETCH_EVENTS {
        return Err(Status::of(Code::InvalidArgument, "max_events exceeds 1000"));
    }
    if max_bytes > MAX_FETCH_BYTES {
        return Err(Status::of(Code::InvalidArgument, "max_bytes exceeds 7 MiB"));
    }
    Ok(())
}

/// The reply where the storage could not say where a stream ends.
pub fn head_failure(error: &str) -> (s: Status)
    ensures
        s@ == says(Code::Internal, "读取持久化订阅 head 失败: "@ + error@),
{
    Status::new(Code::Internal, join2("读取持久化订阅 head 失败: ", error))
}

/// The reply where the storage could not read a stream.
pub fn events_failure(error: &str) -> (s: Status)
    ensures
        s@ == says(Code::Internal, "读取持久化订阅事件失败: "@ + error@),
{
    Status::new(Code::Internal, join2("读取持久化订阅事件失败: ", error))
}


/// The first `n` sizes together.
pub open spec fn sum_of_first(sizes: Seq<u64>, n: int) -> nat
    decreases n,
{
    if n <= 0 {
        0
    } else {
        sum_of_first(sizes, n - 1) + sizes[n - 1] as nat
    }
}

proof fn lemma_sum_of_rest(sizes: Seq<u64>, n: int)
    requires
        1 <= n <= sizes.len(),
    ensures
        sum_of_first(sizes, n) == sizes[0] + sum_of_first(sizes.skip(1), n - 1),
    decreases n,
{
    if n > 1 {
        lemma_sum_of_rest(sizes, n - 1);
        assert(sizes.skip(1)[n - 2] == sizes[n - 1]);
    } else {
        assert(sum_of_first(sizes, 0) == 0);
        assert(sum_of_first(sizes.skip(1), 0) == 0);
    }
}

proof fn lemma_absorbs(have: nat, used: u64, sizes: Seq<u64>, max_events: u32, max_bytes: u64)
    requires
        have < max_events,
    ensures
        ({
            let (n, total, full) = absorbs(have, used, sizes, max_events, max_bytes);
            &&& n <= sizes.len() && have + n <= max_events
            &&& used + sum_of_first(sizes, n as int) <= u64::MAX ==> total == used + sum_of_first(
                sizes,
                n as int,
            )
            &&& used + sum_of_first(sizes, n as int) > u64::MAX ==> total == u64::MAX
            &&& !full ==> n == sizes.len() && have + n < max_events
            &&& full ==> have + n == max_events || (n < sizes.len() && have + n > 0 && max_bytes
                > 0 && total + sizes[n as int] > max_bytes)
            &&& max_bytes > 0 && n > 0 && have + n > 1 ==> total <= max_bytes
        }),
    decreases sizes.len(),
{
    assert(sum_of_first(sizes, 0) == 0);
    if sizes.len() > 0 {
        let sum = capped_sum(used, sizes[0]);
        let rest = sizes.skip(1);
        if have > 0 && max_bytes != 0 && sum > max_bytes {
        } else if have + 1 >= max_events {
            lemma_sum_of_rest(sizes, 1);
            assert(sum_of_first(rest, 0) == 0);
        } else {
            lemma_absorbs(have + 1, sum, rest, max_events, max_bytes);
            let (n, total, full) = absorbs(have + 1, sum, rest, max_events, max_bytes);
            lemma_sum_of_rest(sizes, n as int + 1);
            if n < rest.len() {
                assert(rest[n as int] == sizes[n as int + 1]);
            }
            if n == 0 {
                assert(sum_of_first(rest, 0) == 0);
            }
        }
    }
}

/// The first `n` events were taken in, and no more.
pub open spec fn is_filled_by(
    was: BatchReader,
    now: BatchReader,
    read: Seq<(Event, u64)>,
    full: bool,
    n: int,
) -> bool {
    let sizes = read.map_values(|p: (Event, u64)| p.1);
    &&& 0 <= n <= read.len()
    &&& now.events@.len() == was.events@.len() + n
    &&& forall|i: int| 0 <= i < was.events@.len() ==> #[trigger] now.events@[i] == was.events@[i]
    &&& forall|i: int| 0 <= i < n ==> #[trigger] now.events@[was.events@.len() + i] == read[i].0
    &&& was.used_bytes + sum_of_first(sizes, n) <= u64::MAX ==> now.used_bytes == was.used_bytes
        + sum_of_first(sizes, n)
    &&& was.used_bytes + sum_of_first(sizes, n) > u64::MAX ==> now.used_bytes == u64::MAX
    &&& !full ==> n == read.len() && now.events@.len() < was.max_events
    &&& full ==> now.events@.len() == was.max_events || (n < read.len() && now.events@.len() > 0
        && was.max_bytes > 0 && now.used_bytes + read[n].1 > was.max_bytes)
    &&& was.max_bytes > 0 && n > 0 && now.events@.len() > 1 ==> now.used_bytes <= was.max_bytes
}

/// A batch takes in what is read from the front, until it holds as many events as it may
/// or the next one would break its limit of bytes; a batch always takes one event, however
/// large, and where no limit of bytes is set only the number counts.
pub proof fn law_batch_fills_up_to_its_limits(
    this: &mut BatchReader,
    read: Vec<(Event, u64)>,
    full: bool,
)
    requires
        old(this).events@.len() < old(this).max_events,
        call_ensures(BatchReader::absorb, (this, read), full),
    ensures
        exists|n: int| #[trigger] is_filled_by(*old(this), *final(this), read@, full, n),
        final(this).heads@ == old(this).heads@,
{
    let sizes = read@.map_values(|p: (Event, u64)| p.1);
    lemma_absorbs(
        old(this).events@.len(),
        old(this).used_bytes,
        sizes,
        old(this).max_events,
        old(this).max_bytes,
    );
    let (n, used, is_full) = absorbs(
        old(this).events@.len(),
        old(this).used_bytes,
        sizes,
        old(this).max_events,
        old(this).max_bytes,
    );
    let events = read@.map_values(|p: (Event, u64)| p.0);
    assert forall|i: int| 0 <= i < n implies #[trigger] final(this).events@[old(this).events@.len() + i] == read@[i].0 by {
        assert(events.take(n as int)[i] == read@[i].0);
    }
    assert(is_filled_by(*old(this), *final(this), read@, full, n as int));
}

/// A batch notes the head of every stream that it visits; it reads the stream, from where
/// the cursor is and for no more than there is room for, where the stream exists, events
/// are asked for at all and there is room; where there is no room it stops.
pub proof fn law_batch_reads_what_there_is_room_for(
    this: &mut BatchReader,
    cursor: PersistentCursor,
    head: Option<u64>,
    v: Visit,
)
    requires
        old(this).events@.len() <= old(this).max_events,
        call_ensures(BatchReader::visit, (this, &cursor, head), v),
    ensures
        final(this).events@ == old(this).events@,
        final(this).used_bytes == old(this).used_bytes,
        final(this).heads@.len() == old(this).heads@.len() + 1,
        final(this).heads@.last().stream_id@ == cursor.stream_id@,
        final(this).heads@.last().exists <==> head is Some,
        head matches Some(h) ==> final(this).heads@.last().current_version == h,
        match v {
            Visit::Skip => head is None || old(this).max_events == 0,
            Visit::Stop => head is Some && old(this).max_events > 0 && old(this).events@.len()
                == old(this).max_events,
            Visit::Read { from_version, count } => {
                let left = old(this).max_events - old(this).events@.len();
                &&& head is Some && left > 0
                &&& from_version == cursor.from_version
                &&& count <= left && (cursor.max_count == 0 || count <= cursor.max_count)
                &&& count == left || (count == cursor.max_count && cursor.max_count > 0)
            },
        },
{
}

/// A batch is read only on the shard's leader, for no more than a thousand events and
/// seven mebibytes.
pub proof fn law_batch_is_admitted_on_the_leader_within_limits(
    shard_id: u64,
    leads: Option<bool>,
    max_events: u32,
    max_bytes: u64,
    r: Result<(), Status>,
)
    requires
        call_ensures(admit_batch, (shard_id, leads, max_events, max_bytes), r),
    ensures
        r is Ok <==> leads == Some(true) && max_events <= 1000 && max_bytes <= 7 * 1024 * 1024,
        r matches Err(s) ==> (leads != Some(true) ==> s@.code == Code::Unavailable),
        r matches Err(s) ==> (leads == Some(true) ==> s@.code == Code::InvalidArgument),
{
    if let Some(b) = leads {
        assert(b || leads == Some(false));
    }
}

} // verus!
