//! Many first writes to one stream at the same time.
//!
//! The calls take turns in any order.  The control shard decides one question after the
//! other, and the calls for one stream fence one after the other.

use vstd::prelude::*;

use crate::ownership::{
    AppendStage, AppendTarget, Committed, OwnershipOutcome, Purpose, StreamOwnership,
    begins_append, confirm_stage, follows_bootstrap, follows_ensure, follows_fence, is_confirmed,
};
use crate::route_table::{Owner, RouteTableView, owner_in};

verus! {

/// A node, the table of the control shard, the calls that ask for a write target of one
/// stream with the stage that each has reached (none: it has not begun), and how many
/// fences were installed.
pub struct World {
    pub node: StreamOwnership,
    pub control: RouteTableView,
    pub calls: Seq<Option<AppendStage>>,
    pub installs: nat,
}

/// A turn of a call: what the control shard answered, if it was asked, and the stage that
/// the call reaches.
pub struct Turn {
    pub call: int,
    pub answer: Option<Committed>,
    pub stage: AppendStage,
}

/// The control shard answers with its table, and the node could write it.
pub open spec fn shows_table(c: Committed, control: RouteTableView) -> bool {
    c.persisted is Ok && (c.applied matches Ok(a) && a.table@ == control)
}

/// The control shard names the owner of the stream: the one that it has, or a new one if
/// it has none.
pub open spec fn names_owner(
    c: Committed,
    stream: Seq<char>,
    before: RouteTableView,
    after: RouteTableView,
) -> bool {
    &&& shows_table(c, after)
    &&& c.applied->Ok_0.outcome matches OwnershipOutcome::Owner { owner, created }
    &&& owner_in(after, stream) == Some(owner)
    &&& match owner_in(before, stream) {
        Some(known) => owner == known && !created,
        None => created,
    }
}

/// The call takes its turn.  A call that is to fence looks first whether the owner was
/// confirmed meanwhile; the owner's shard has seen no later owner.
pub open spec fn takes_turn(w: World, v: World, stream: Seq<char>, turn: Turn) -> bool {
    &&& 0 <= turn.call < w.calls.len()
    &&& v.calls == w.calls.update(turn.call, Some(turn.stage))
    &&& match w.calls[turn.call] {
        None => begins_append(w.node, stream, turn.stage) && v.node == w.node && v.control
            == w.control && v.installs == w.installs,
        Some(AppendStage::Bootstrap) => {
            &&& turn.answer matches Some(c)
            &&& shows_table(c, w.control)
            &&& follows_bootstrap(w.node, v.node, stream, c, turn.stage)
            &&& v.control == w.control && v.installs == w.installs
        },
        Some(AppendStage::Ensure { last }) => {
            &&& turn.answer matches Some(c)
            &&& names_owner(c, stream, w.control, v.control)
            &&& follows_ensure(w.node, v.node, stream, Purpose::Append, last, c, turn.stage)
            &&& v.installs == w.installs
        },
        Some(AppendStage::Fence { owner, created, last }) => {
            &&& v.control == w.control
            &&& if is_confirmed(w.node.confirmed_fences@, stream, owner) {
                &&& turn.stage == confirm_stage(
                    w.node.confirmed_fences@,
                    stream,
                    owner,
                    created,
                    last,
                )
                &&& v.node == w.node && v.installs == w.installs
            } else {
                &&& follows_fence(
                    w.node,
                    v.node,
                    stream,
                    Purpose::Append,
                    AppendTarget { owner, created_now: created },
                    last,
                    Ok(owner.generation),
                    turn.stage,
                )
                &&& v.installs == w.installs + 1
            }
        },
        Some(AppendStage::Done(_)) => false,
    }
}

/// Nobody knows the stream, and no call has begun.
pub open spec fn is_before_first(w: World, stream: Seq<char>) -> bool {
    &&& stream.len() > 0
    &&& owner_in(w.control, stream) is None
    &&& owner_in(w.node.route_table.mem@, stream) is None
    &&& !w.node.confirmed_fences@.dom().contains(stream)
    &&& forall|i: int| 0 <= i < w.calls.len() ==> (#[trigger] w.calls[i]) is None
    &&& w.installs == 0
}

/// The turns lead through these worlds.
pub open spec fn is_course(worlds: Seq<World>, turns: Seq<Turn>, stream: Seq<char>) -> bool {
    &&& worlds.len() == turns.len() + 1
    &&& forall|t: int|
        0 <= t < turns.len() ==> takes_turn(worlds[t], worlds[t + 1], stream, #[trigger] turns[t])
}

/// No owner has been named yet: the calls are on their way to ask for one.
spec fn is_unnamed(w: World, stream: Seq<char>) -> bool {
    &&& owner_in(w.control, stream) is None
    &&& owner_in(w.node.route_table.mem@, stream) is None
    &&& !w.node.confirmed_fences@.dom().contains(stream)
    &&& w.installs == 0
    &&& forall|i: int|
        0 <= i < w.calls.len() ==> match #[trigger] w.calls[i] {
            None => true,
            Some(AppendStage::Bootstrap) => true,
            Some(AppendStage::Ensure { last }) => w.node.initialized && !last,
            _ => false,
        }
}

/// The owner has been named, to the call `first` as a new one; it is confirmed once a
/// fence was installed, and no call is done before.
spec fn is_named(w: World, stream: Seq<char>, owner: Owner, first: int) -> bool {
    &&& owner_in(w.control, stream) == Some(owner)
    &&& owner_in(w.node.route_table.mem@, stream) == Some(owner)
    &&& w.node.initialized
    &&& if w.installs == 0 {
        !w.node.confirmed_fences@.dom().contains(stream)
    } else {
        w.installs == 1 && is_confirmed(w.node.confirmed_fences@, stream, owner)
    }
    &&& 0 <= first < w.calls.len()
    &&& w.calls[first] is Some
    &&& forall|i: int|
        0 <= i < w.calls.len() ==> match #[trigger] w.calls[i] {
            None => true,
            Some(AppendStage::Bootstrap) => i != first,
            Some(AppendStage::Ensure { last }) => i != first && !last,
            Some(AppendStage::Fence { owner: o, created, last }) => o == owner && created == (i
                == first) && !last,
            Some(AppendStage::Done(r)) => w.installs == 1 && r == Ok::<
                AppendTarget,
                crate::ownership::OwnershipError,
            >(AppendTarget { owner, created_now: i == first }),
        }
}

/// A turn keeps to it that no owner, or one owner, has been named.
proof fn lemma_turn(w: World, v: World, stream: Seq<char>, turn: Turn)
    requires
        stream.len() > 0,
        takes_turn(w, v, stream, turn),
        is_unnamed(w, stream) || exists|owner: Owner, first: int| is_named(w, stream, owner, first),
    ensures
        is_unnamed(v, stream) || exists|owner: Owner, first: int| is_named(v, stream, owner, first),
{
    let i = turn.call;
    assert(v.calls[i] == Some(turn.stage));
    assert forall|k: int| 0 <= k < w.calls.len() && k != i implies v.calls[k] == #[trigger] w.calls[
        k
    ] by {}
    if is_unnamed(w, stream) {
        match w.calls[i] {
            Some(AppendStage::Ensure { last }) => {
                let owner = owner_in(v.control, stream)->0;
                assert(is_named(v, stream, owner, i));
            },
            _ => {
                assert(is_unnamed(v, stream));
            },
        }
    } else {
        let (owner, first) = choose|owner: Owner, first: int| is_named(w, stream, owner, first);
        assert(is_named(v, stream, owner, first));
    }
}

/// However many calls ask at the same time for a write target of a stream that nobody
/// knows, and in whatever order they take their turns: when all are done, all have the
/// same owner, exactly one is told that it created the stream, and exactly one fence was
/// installed, which confirmed that owner.
pub proof fn law_first_append_creates_and_fences_once(
    worlds: Seq<World>,
    turns: Seq<Turn>,
    stream: Seq<char>,
) -> (r: (Owner, int))
    requires
        is_course(worlds, turns, stream),
        is_before_first(worlds[0], stream),
        worlds.last().calls.len() > 0,
        forall|i: int|
            0 <= i < worlds.last().calls.len() ==> (#[trigger] worlds.last().calls[i] matches Some(
                AppendStage::Done(_),
            )),
    ensures
        0 <= r.1 < worlds.last().calls.len(),
        forall|i: int|
            0 <= i < worlds.last().calls.len() ==> #[trigger] worlds.last().calls[i] == Some(
                AppendStage::Done(Ok(AppendTarget { owner: r.0, created_now: i == r.1 })),
            ),
        worlds.last().installs == 1,
        is_confirmed(worlds.last().node.confirmed_fences@, stream, r.0),
        owner_in(worlds.last().control, stream) == Some(r.0),
{
    let end = worlds.last();
    lemma_course(worlds, turns, stream, turns.len() as int);
    assert(worlds[turns.len() as int] == end);
    assert(end.calls[0] is Some);
    let (owner, first) = choose|owner: Owner, first: int| is_named(end, stream, owner, first);
    (owner, first)
}

proof fn lemma_course(worlds: Seq<World>, turns: Seq<Turn>, stream: Seq<char>, n: int)
    requires
        is_course(worlds, turns, stream),
        is_before_first(worlds[0], stream),
        0 <= n <= turns.len(),
    ensures
        is_unnamed(worlds[n], stream) || exists|owner: Owner, first: int|
            is_named(worlds[n], stream, owner, first),
    decreases n,
{
    if n == 0 {
        assert(is_unnamed(worlds[0], stream));
    } else {
        lemma_course(worlds, turns, stream, n - 1);
        assert(takes_turn(worlds[n - 1], worlds[n], stream, turns[n - 1]));
        lemma_turn(worlds[n - 1], worlds[n], stream, turns[n - 1]);
    }
}

} // verus!
