//! Asking for a decision on ownership: this node's shard first, then other nodes, until
//! one takes it.

use vstd::prelude::*;

use crate::maps::IdMap;
use crate::ownership::{
    OwnershipError, candidate_texts, candidates, commit_failure, error_text, fence_failure,
    forward_node_id, pointed_to,
};
use crate::rpc_support::WriteError;
use crate::text::{decimal_text, text_views};

verus! {

/// What is asked for.
#[derive(Clone, Copy, Debug, PartialEq, Eq, Structural)]
pub enum Asked {
    /// A commit, of the control shard.
    Commit,
    /// A fence, of a data shard.
    Fence { shard_id: u64 },
}

/// What this node's own shard says.
#[derive(Debug)]
pub enum LocalAnswer<T> {
    /// The shard is not here.
    NotHere,
    /// It took the request.
    Answered(Result<T, OwnershipError>),
    /// It could not write; with the error as it is printed.
    Refused { error: WriteError, shown: String },
}

/// An attempt at other nodes: their addresses, which of them is asked now, and the last
/// error so far.
#[derive(Debug)]
pub struct Attempt {
    pub asked: Asked,
    pub addresses: Vec<String>,
    pub at: usize,
    pub last_error: Option<String>,
}

/// What an attempt does next.
#[derive(Debug)]
pub enum AttemptStep<T> {
    /// Ask the node at the attempt's address.
    Try(Attempt),
    Done(Result<T, OwnershipError>),
}

/// The text, if there is one.
pub open spec fn some_text(t: Option<String>) -> Option<Seq<char>> {
    match t {
        Some(t) => Some(t@),
        None => None,
    }
}

/// The error where nobody took the request: the last error, or that there is no leader.
pub open spec fn is_failure(e: OwnershipError, asked: Asked, last: Option<Seq<char>>) -> bool {
    e matches OwnershipError::Unavailable(m) && m@ == (match last {
        Some(text) => text,
        None => match asked {
            Asked::Commit => "找不到控制 Shard leader"@,
            Asked::Fence { shard_id } => "找不到 Shard "@ + decimal_text(shard_id as nat)
                + " leader"@,
        },
    })
}

/// Address number `at` of these is asked next; if there is none, nobody took the request.
pub open spec fn asks_next<T>(
    step: AttemptStep<T>,
    asked: Asked,
    addresses: Seq<Seq<char>>,
    at: int,
    last: Option<Seq<char>>,
) -> bool {
    if at < addresses.len() {
        step matches AttemptStep::Try(a) && a.asked == asked && text_views(a.addresses@)
            == addresses && a.at == at && some_text(a.last_error) == last
    } else {
        step matches AttemptStep::Done(Err(e)) && is_failure(e, asked, last)
    }
}

/// The step follows the answer of the node that was asked: a success ends the attempt, and
/// the error of a failure is kept.
pub open spec fn follows_answer<T>(
    a: Attempt,
    answer: Result<T, OwnershipError>,
    step: AttemptStep<T>,
) -> bool {
    match answer {
        Ok(t) => step == AttemptStep::Done(Ok::<T, OwnershipError>(t)),
        Err(e) => asks_next(
            step,
            a.asked,
            text_views(a.addresses@),
            a.at + 1,
            Some(error_text(e)),
        ),
    }
}

fn next_step<T>(asked: Asked, addresses: Vec<String>, at: usize, last_error: Option<String>) -> (step:
    AttemptStep<T>)
    requires
        at <= addresses@.len(),
    ensures
        asks_next(step, asked, text_views(addresses@), at as int, some_text(last_error)),
{
    if at < addresses.len() {
        AttemptStep::Try(Attempt { asked, addresses, at, last_error })
    } else {
        let e = match asked {
            Asked::Commit => commit_failure(last_error),
            Asked::Fence { shard_id } => fence_failure(shard_id, last_error),
        };
        AttemptStep::Done(Err(e))
    }
}

impl Attempt {
    pub open spec fn wf(&self) -> bool {
        self.at < self.addresses@.len()
    }

    /// Begins with what this node's own shard says.  Where it took the request, that ends
    /// it.  Else other nodes are asked: first the leader that the shard points to, if its
    /// address is known, then all.
    pub fn begin<T>(asked: Asked, local: LocalAnswer<T>, peer_addrs: &IdMap<String>) -> (step:
        AttemptStep<T>)
        requires
            peer_addrs.wf(),
        ensures
            match local {
                LocalAnswer::Answered(r) => step == AttemptStep::Done(r),
                LocalAnswer::Refused { error, shown } => asks_next(
                    step,
                    asked,
                    candidate_texts(*peer_addrs, pointed_to(error)),
                    0,
                    Some(shown@),
                ),
                LocalAnswer::NotHere => asks_next(
                    step,
                    asked,
                    candidate_texts(*peer_addrs, None),
                    0,
                    None,
                ),
            },
    {
        match local {
            LocalAnswer::Answered(r) => AttemptStep::Done(r),
            LocalAnswer::Refused { error, shown } => {
                let preferred = forward_node_id(&error);
                next_step(asked, candidates(peer_addrs, preferred), 0, Some(shown))
            },
            LocalAnswer::NotHere => next_step(asked, candidates(peer_addrs, None), 0, None),
        }
    }

    /// The address that is asked now.
    pub fn address(&self) -> (addr: &str)
        requires
            self.wf(),
        ensures
            addr@ == text_views(self.addresses@)[self.at as int],
    {
        self.addresses[self.at].as_str()
    }

    /// Goes on after the node at the address answered.
    pub fn on_answer<T>(self, answer: Result<T, OwnershipError>) -> (step: AttemptStep<T>)
        requires
            self.wf(),
        ensures
            follows_answer(self, answer, step),
    {
        match answer {
            Ok(t) => AttemptStep::Done(Ok(t)),
            Err(e) => {
                let text = e.message();
                let total: usize = self.addresses.len();
                assert(self.at < total);
                next_step(self.asked, self.addresses, self.at + 1, Some(text))
            },
        }
    }
}

/// The last error, after these answers.
pub open spec fn last_error_of<T>(
    last: Option<Seq<char>>,
    answers: Seq<Result<T, OwnershipError>>,
) -> Option<Seq<char>> {
    if answers.len() == 0 {
        last
    } else {
        match answers.last() {
            Ok(_) => None,
            Err(e) => Some(error_text(e)),
        }
    }
}

/// The addresses are asked in their order, each once; the first success ends the attempt
/// and is its outcome; and it fails only when all have been asked and none succeeded, with
/// the last error.
#[verifier::spinoff_prover]
#[verifier::rlimit(60)]
pub proof fn law_first_success_wins<T>(
    asked: Asked,
    addresses: Seq<Seq<char>>,
    last: Option<Seq<char>>,
    steps: Seq<AttemptStep<T>>,
    answers: Seq<Result<T, OwnershipError>>,
)
    requires
        steps.len() == answers.len() + 1,
        asks_next(steps[0], asked, addresses, 0, last),
        forall|t: int|
            0 <= t < answers.len() ==> (#[trigger] steps[t] matches AttemptStep::Try(a)
                && follows_answer(a, answers[t], steps[t + 1])),
    ensures
        forall|t: int|
            0 <= t < answers.len() ==> asks_next(
                #[trigger] steps[t],
                asked,
                addresses,
                t,
                last_error_of(last, answers.take(t)),
            ),
        forall|t: int| 0 <= t < answers.len() - 1 ==> #[trigger] answers[t] is Err,
        match steps.last() {
            AttemptStep::Try(_) => answers.len() < addresses.len() && forall|t: int|
                0 <= t < answers.len() ==> #[trigger] answers[t] is Err,
            AttemptStep::Done(Ok(x)) => answers.len() > 0 && answers.last() == Ok::<
                T,
                OwnershipError,
            >(x),
            AttemptStep::Done(Err(e)) => {
                &&& answers.len() == addresses.len()
                &&& forall|t: int| 0 <= t < answers.len() ==> #[trigger] answers[t] is Err
                &&& is_failure(e, asked, last_error_of(last, answers))
            },
        },
    decreases answers.len(),
{
    if answers.len() > 0 {
        let n = answers.len() - 1;
        let (s, a) = (steps.drop_last(), answers.drop_last());
        assert forall|t: int| 0 <= t < a.len() implies (
        #[trigger] s[t] matches AttemptStep::Try(x) && follows_answer(x, a[t], s[t + 1])) by {
            assert(s[t] == steps[t] && s[t + 1] == steps[t + 1] && a[t] == answers[t]);
        }
        law_first_success_wins(asked, addresses, last, s, a);
        assert(steps[n] is Try);
        assert(s.last() == steps[n]);
        assert forall|t: int| 0 <= t < n implies #[trigger] answers[t] is Err by {
            assert(a[t] == answers[t]);
        }
        assert(answers.take(n) =~= a);
        if n > 0 {
            assert(steps[n - 1] is Try);
            assert(s[n - 1] == steps[n - 1]);
            assert(a.take(n - 1) =~= answers.take(n - 1));
            assert(follows_answer(steps[n - 1]->Try_0, answers[n - 1], steps[n]));
            assert(a.last() == answers[n - 1]);
        }
        assert(asks_next(steps[n], asked, addresses, n, last_error_of(last, a)));
        assert forall|t: int| 0 <= t < answers.len() implies asks_next(
            #[trigger] steps[t],
            asked,
            addresses,
            t,
            last_error_of(last, answers.take(t)),
        ) by {
            if t < n {
                assert(s[t] == steps[t]);
                assert(a.take(t) =~= answers.take(t));
            }
        }
    }
}


/// Where this node answers, that is the answer.  Else the node that was pointed to is
/// tried first, if it is known, and then all that are known, by their numbers; where none
/// is known the request fails, with what this node said.
pub proof fn law_pointed_to_node_is_tried_first<T>(
    asked: Asked,
    local: LocalAnswer<T>,
    peer_addrs: IdMap<String>,
    step: AttemptStep<T>,
)
    requires
        call_ensures(Attempt::begin::<T>, (asked, local, &peer_addrs), step),
    ensures
        local matches LocalAnswer::Answered(r) ==> step == AttemptStep::Done(r),
        !(local is Answered) && peer_addrs.entries@.len() == 0 && (forall|k: u64|
            !#[trigger] peer_addrs@.dom().contains(k)) ==> (step matches AttemptStep::Done(Err(e))
            && e is Unavailable),
        local matches LocalAnswer::Refused {
            error: WriteError::ForwardToLeader { leader_id: Some(id), leader_addr },
            shown,
        } ==> (peer_addrs@.dom().contains(id) ==> (step matches AttemptStep::Try(a) && a.at == 0
            && a.addresses@.len() == peer_addrs.entries@.len() + 1 && a.addresses@[0]@
            == peer_addrs@[id]@ && forall|i: int|
            0 <= i < peer_addrs.entries@.len() ==> (#[trigger] a.addresses@[i + 1])@
                == peer_addrs.entries@[i].1@)),
        local is NotHere && peer_addrs.entries@.len() > 0 ==> (step matches AttemptStep::Try(a)
            && a.at == 0 && a.last_error is None && a.addresses@.len()
            == peer_addrs.entries@.len() && forall|i: int|
            0 <= i < peer_addrs.entries@.len() ==> (#[trigger] a.addresses@[i])@
                == peer_addrs.entries@[i].1@),
{
    let entries = peer_addrs.entries@;
    match local {
        LocalAnswer::Refused {
            error: WriteError::ForwardToLeader { leader_id: Some(id), leader_addr },
            shown,
        } => {
            if peer_addrs@.dom().contains(id) {
                let texts = candidate_texts(peer_addrs, Some(id));
                assert(texts.len() == entries.len() + 1);
                if let AttemptStep::Try(a) = step {
                    let views = text_views(a.addresses@);
                    assert(views == texts);
                    assert(views.len() == a.addresses@.len());
                    assert(a.addresses@[0]@ == views[0]);
                    assert forall|i: int| 0 <= i < entries.len() implies (
                    #[trigger] a.addresses@[i + 1])@ == entries[i].1@ by {
                        assert(views[i + 1] == a.addresses@[i + 1]@);
                        assert(texts[i + 1] == entries[i].1@);
                    }
                }
            }
        },
        LocalAnswer::NotHere => {
            let texts = candidate_texts(peer_addrs, None);
            assert(texts.len() == entries.len());
            if entries.len() > 0 {
                if let AttemptStep::Try(a) = step {
                    let views = text_views(a.addresses@);
                    assert(views == texts);
                    assert(views.len() == a.addresses@.len());
                    assert forall|i: int| 0 <= i < entries.len() implies (
                    #[trigger] a.addresses@[i])@ == entries[i].1@ by {
                        assert(views[i] == a.addresses@[i]@);
                        assert(texts[i] == entries[i].1@);
                    }
                }
            }
        },
        _ => {},
    }
}

/// The first success is the answer; after a failure the next address is tried, and after
/// the last one the request fails with what the last one said.
pub proof fn law_addresses_are_tried_in_turn<T>(
    a: Attempt,
    answer: Result<T, OwnershipError>,
    step: AttemptStep<T>,
)
    requires
        a.at < a.addresses@.len(),
        call_ensures(Attempt::on_answer::<T>, (a, answer), step),
    ensures
        answer matches Ok(t) ==> step == AttemptStep::Done(Ok::<T, OwnershipError>(t)),
        answer is Err && a.at + 1 < a.addresses@.len() ==> (step matches AttemptStep::Try(n)
            && n.at == a.at + 1 && n.addresses@.len() == a.addresses@.len() && n.asked == a.asked
            && n.addresses@[n.at as int]@ == a.addresses@[n.at as int]@ && n.last_error is Some),
        answer matches Err(e) ==> (a.at + 1 == a.addresses@.len() ==> (step matches AttemptStep::Done(
            Err(OwnershipError::Unavailable(m)),
        ) && m@ == error_text(e))),
{
    assert(text_views(a.addresses@).len() == a.addresses@.len());
    if let AttemptStep::Try(n) = step {
        let was = text_views(a.addresses@);
        let now = text_views(n.addresses@);
        assert(now.len() == n.addresses@.len());
        if answer is Err && a.at + 1 < a.addresses@.len() {
            assert(now == was);
            assert(was[n.at as int] == a.addresses@[n.at as int]@);
            assert(now[n.at as int] == n.addresses@[n.at as int]@);
        }
    }
}

} // verus!
