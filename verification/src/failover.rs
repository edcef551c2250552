//! Finding the leader among a shard's replicas.
//!
//! A call starts at the replica last known to lead. One that is not the leader, fails or does not
//! answer has the call sent elsewhere, a bounded number of times.

use crate::message::{Status, StatusView};
use crate::router::{RouterError, RouterFault};
use vstd::prelude::*;

verus! {

/// How often a connection to a replica is tried.
pub const CONNECT_MAX_ATTEMPTS: u32 = 10;

/// How long to wait between two tries, in milliseconds.
pub const CONNECT_RETRY_DELAY_MS: u64 = 500;

/// How many replicas of a shard one call is sent to at most, one after the other: one attempt per
/// replica and one to follow a hint received on the last.
pub const MAX_LEADER_ATTEMPTS: usize = 4;

/// What to do after a connection could not be made.
#[derive(Debug, Clone, Copy, PartialEq, Eq, Structural)]
pub enum ConnectStep {
    /// Wait, in milliseconds, and try again.
    RetryAfter(u64),
    GiveUp,
}

/// What to do after `failed` tries to connect to one replica, all of which failed.
pub fn connect_with_retry(failed: u32) -> (r: ConnectStep)
    ensures
        r == (if failed < CONNECT_MAX_ATTEMPTS {
            ConnectStep::RetryAfter(CONNECT_RETRY_DELAY_MS)
        } else {
            ConnectStep::GiveUp
        }),
{
    if failed < CONNECT_MAX_ATTEMPTS {
        ConnectStep::RetryAfter(CONNECT_RETRY_DELAY_MS)
    } else {
        ConnectStep::GiveUp
    }
}

/// How long one attempt of a search may take, in microseconds, in a set of `replicas`: a share of
/// the deadline for each replica that the call may have to try, so that one that does not answer
/// leaves time for the others, and a lone replica has all of it.
pub open spec fn attempt_share(deadline_ms: int, replicas: int) -> int {
    let tries = if replicas < MAX_LEADER_ATTEMPTS {
        replicas
    } else {
        MAX_LEADER_ATTEMPTS as int
    };
    let share = deadline_ms * 1000 / tries;
    if share < u64::MAX {
        share
    } else {
        u64::MAX as int
    }
}

/// One call to a shard, on its way from replica to replica.
#[derive(Debug, PartialEq, Eq)]
pub struct LeaderCall {
    /// The replica that the call is sent to next.
    pub idx: usize,
    /// How many attempts have failed.
    pub failed: usize,
    /// The last failure that a replica reported.
    pub last_err: Option<Status>,
}

/// A [`LeaderCall`] as mathematical values.
pub struct CallView {
    pub idx: int,
    pub failed: int,
    pub last_err: Option<StatusView>,
}

impl View for LeaderCall {
    type V = CallView;

    open spec fn view(&self) -> CallView {
        CallView {
            idx: self.idx as int,
            failed: self.failed as int,
            last_err: match self.last_err {
                Some(status) => Some(status@),
                None => None,
            },
        }
    }
}

/// What to do after an attempt.
#[derive(Debug, PartialEq, Eq)]
pub enum LeaderStep {
    /// The reply is the leader's: the call is done.
    Done,
    /// Send the call again.
    Retry(LeaderCall),
    GiveUp(RouterError),
}

/// A [`LeaderStep`] as mathematical values.
pub enum StepView {
    Done,
    Retry(CallView),
    GiveUp(RouterFault),
}

impl View for LeaderStep {
    type V = StepView;

    open spec fn view(&self) -> StepView {
        match self {
            LeaderStep::Done => StepView::Done,
            LeaderStep::Retry(call) => StepView::Retry(call@),
            LeaderStep::GiveUp(err) => StepView::GiveUp(err@),
        }
    }
}

/// The replica after another, in a set of `n`.
pub open spec fn next_replica(idx: int, n: int) -> int {
    (idx + 1) % n
}

/// Where an address stands first, or the number of addresses where it does not occur.
pub open spec fn place_of(addrs: Seq<Seq<char>>, addr: Seq<char>) -> int
    decreases addrs.len(),
{
    if addrs.len() == 0 || addrs[0] == addr {
        0
    } else {
        1 + place_of(addrs.skip(1), addr)
    }
}

/// The replica that a hint leads to: the one at the address, else the next.
pub open spec fn hinted(addrs: Seq<Seq<char>>, idx: int, hint: Seq<char>) -> int {
    let place = place_of(addrs, hint);
    if place < addrs.len() {
        place
    } else {
        next_replica(idx, addrs.len() as int)
    }
}

/// What to do after an attempt that did not reach the leader: go on at `idx` while attempts are
/// left; else give up with the last failure reported.
pub open spec fn moved_on(call: CallView, idx: int, last_err: Option<StatusView>) -> StepView {
    if call.failed + 1 < MAX_LEADER_ATTEMPTS {
        StepView::Retry(CallView { idx, failed: call.failed + 1, last_err })
    } else {
        StepView::GiveUp(
            match last_err {
                Some(status) => RouterFault::Rpc(status),
                None => RouterFault::ShardUnreachable,
            },
        )
    }
}

fn following(idx: usize, n: usize) -> (r: usize)
    requires
        idx < n,
    ensures
        r == next_replica(idx as int, n as int),
        r < n,
{
    if idx + 1 == n {
        assert(next_replica(idx as int, n as int) == 0) by {
            vstd::arithmetic::div_mod::lemma_mod_self_0(n as int);
        }
        0
    } else {
        assert(next_replica(idx as int, n as int) == idx + 1) by {
            vstd::arithmetic::div_mod::lemma_small_mod((idx + 1) as nat, n as nat);
        }
        idx + 1
    }
}

/// What comes of sending a call to a replica.
pub enum EventView {
    /// A reply, with the leader's address or, where the replica leads itself, an empty hint.
    Replied(Seq<char>),
    /// A failure.
    Failed(StatusView),
    /// Nothing, in the time that an attempt has.
    TimedOut,
}

/// The replica guessed to lead after an event.
pub open spec fn guess(addrs: Seq<Seq<char>>, call: CallView, event: EventView) -> int {
    match event {
        EventView::Replied(hint) => if hint.len() == 0 {
            call.idx
        } else {
            hinted(addrs, call.idx, hint)
        },
        _ => next_replica(call.idx, addrs.len() as int),
    }
}

/// What to do after an event.
pub open spec fn stepped(addrs: Seq<Seq<char>>, call: CallView, event: EventView) -> StepView {
    let idx = guess(addrs, call, event);
    match event {
        EventView::Replied(hint) => if hint.len() == 0 {
            StepView::Done
        } else {
            moved_on(call, idx, call.last_err)
        },
        EventView::Failed(status) => moved_on(call, idx, Some(status)),
        EventView::TimedOut => moved_on(call, idx, call.last_err),
    }
}

proof fn lemma_place_of(addrs: Seq<Seq<char>>, addr: Seq<char>, at: int)
    requires
        0 <= at <= addrs.len(),
        forall|i: int| 0 <= i < at ==> addrs[i] != addr,
        at == addrs.len() || addrs[at] == addr,
    ensures
        place_of(addrs, addr) == at,
    decreases at,
{
    if at > 0 {
        assert forall|i: int| 0 <= i < at - 1 implies addrs.skip(1)[i] != addr by {
            assert(addrs.skip(1)[i] == addrs[i + 1]);
        }
        lemma_place_of(addrs.skip(1), addr, at - 1);
    }
}

/// The replicas of one shard, with a guess at which of them leads. A wrong guess costs an
/// attempt, never a wrong answer.
pub struct ShardReplicaSet {
    pub addrs: Vec<String>,
    pub leader_hint: usize,
}

impl ShardReplicaSet {
    /// The replica to ask for its status after `asked` others did not answer: each in turn, the
    /// first one first.
    pub fn next_to_ask(&self, asked: usize) -> (r: Option<usize>)
        ensures
            r == (if asked < self.addrs@.len() {
                Some(asked)
            } else {
                None
            }),
    {
        if asked < self.addrs.len() {
            Some(asked)
        } else {
            None
        }
    }

    /// How long one attempt of a search may take, in microseconds.
    pub fn attempt_timeout_us(&self, deadline_ms: u64) -> (r: u64)
        requires
            self.addrs.len() > 0,
        ensures
            r == attempt_share(deadline_ms as int, self.addrs@.len() as int),
    {
        let n: usize = self.addrs.len();
        let tries: usize = if n < MAX_LEADER_ATTEMPTS {
            n
        } else {
            MAX_LEADER_ATTEMPTS
        };
        let share: u128 = deadline_ms as u128 * 1000 / tries as u128;
        if share < u64::MAX as u128 {
            share as u64
        } else {
            u64::MAX
        }
    }

    /// Starts a call, at the replica last guessed to lead.
    pub fn begin(&self) -> (r: LeaderCall)
        requires
            self.addrs.len() > 0,
        ensures
            r@ == (CallView {
                idx: self.leader_hint as int % self.addrs.len() as int,
                failed: 0,
                last_err: None,
            }),
            r.idx < self.addrs.len(),
    {
        LeaderCall { idx: self.leader_hint % self.addrs.len(), failed: 0, last_err: None }
    }

    /// Goes on at another replica, or gives up. The guess moves along, so that a call cut short
    /// later does not have the next one start over.
    fn advance(&mut self, idx: usize, failed: usize, last_err: Option<Status>) -> (r: LeaderStep)
        requires
            failed < MAX_LEADER_ATTEMPTS,
        ensures
            final(self).addrs == old(self).addrs,
            final(self).leader_hint == idx,
            r@ == moved_on(
                CallView { idx: 0, failed: failed as int, last_err: None },
                idx as int,
                match last_err {
                    Some(status) => Some(status@),
                    None => None,
                },
            ),
    {
        self.leader_hint = idx;
        if failed + 1 < MAX_LEADER_ATTEMPTS {
            LeaderStep::Retry(LeaderCall { idx, failed: failed + 1, last_err })
        } else {
            match last_err {
                Some(status) => LeaderStep::GiveUp(RouterError::Rpc(status)),
                None => LeaderStep::GiveUp(RouterError::ShardUnreachable),
            }
        }
    }

    /// A replica replied, with the leader's address or, where it leads itself, an empty hint.
    pub fn replied(&mut self, call: LeaderCall, hint: &String) -> (r: LeaderStep)
        requires
            call.idx < old(self).addrs.len(),
            call.failed < MAX_LEADER_ATTEMPTS,
        ensures
            final(self).addrs == old(self).addrs,
            final(self).leader_hint < final(self).addrs.len(),
            r@ == stepped(
                crate::text::views(old(self).addrs@),
                call@,
                EventView::Replied(hint@),
            ),
            final(self).leader_hint == guess(
                crate::text::views(old(self).addrs@),
                call@,
                EventView::Replied(hint@),
            ),
    {
        let n: usize = self.addrs.len();
        if hint.as_str().is_empty() {
            self.leader_hint = call.idx;
            return LeaderStep::Done;
        }
        let ghost addrs = crate::text::views(self.addrs@);
        let mut next: usize = n;
        for i in 0..n
            invariant_except_break
                next == n,
                forall|j: int| 0 <= j < i ==> addrs[j] != hint@,
            invariant
                n == self.addrs.len(),
                *self == *old(self),
                addrs == crate::text::views(self.addrs@),
            ensures
                next <= n,
                forall|j: int| 0 <= j < next ==> addrs[j] != hint@,
                next == n || addrs[next as int] == hint@,
        {
            if self.addrs[i] == *hint {
                next = i;
                break;
            }
        }
        proof {
            lemma_place_of(addrs, hint@, next as int);
        }
        if next == n {
            next = following(call.idx, n);
        }
        self.advance(next, call.failed, call.last_err)
    }

    /// A replica reported a failure.
    pub fn failed(&mut self, call: LeaderCall, status: Status) -> (r: LeaderStep)
        requires
            call.idx < old(self).addrs.len(),
            call.failed < MAX_LEADER_ATTEMPTS,
        ensures
            final(self).addrs == old(self).addrs,
            final(self).leader_hint < final(self).addrs.len(),
            r@ == stepped(crate::text::views(old(self).addrs@), call@, EventView::Failed(status@)),
            final(self).leader_hint == guess(
                crate::text::views(old(self).addrs@),
                call@,
                EventView::Failed(status@),
            ),
    {
        let next: usize = following(call.idx, self.addrs.len());
        self.advance(next, call.failed, Some(status))
    }

    /// A replica did not answer in the time that an attempt has.
    pub fn timed_out(&mut self, call: LeaderCall) -> (r: LeaderStep)
        requires
            call.idx < old(self).addrs.len(),
            call.failed < MAX_LEADER_ATTEMPTS,
        ensures
            final(self).addrs == old(self).addrs,
            final(self).leader_hint < final(self).addrs.len(),
            r@ == stepped(crate::text::views(old(self).addrs@), call@, EventView::TimedOut),
            final(self).leader_hint == guess(
                crate::text::views(old(self).addrs@),
                call@,
                EventView::TimedOut,
            ),
    {
        let next: usize = following(call.idx, self.addrs.len());
        self.advance(next, call.failed, call.last_err)
    }
}

/// Where a call stands after events, the first of which is the outcome of its next attempt.
/// Events after the call has ended change nothing.
pub open spec fn after(addrs: Seq<Seq<char>>, call: CallView, events: Seq<EventView>) -> StepView
    decreases events.len(),
{
    if events.len() == 0 {
        StepView::Retry(call)
    } else {
        match after(addrs, call, events.drop_last()) {
            StepView::Retry(next) => stepped(addrs, next, events.last()),
            ended => ended,
        }
    }
}

/// The last failure that replicas reported among events.
pub open spec fn last_failure(events: Seq<EventView>) -> Option<StatusView>
    decreases events.len(),
{
    if events.len() == 0 {
        None
    } else {
        match events.last() {
            EventView::Failed(status) => Some(status),
            _ => last_failure(events.drop_last()),
        }
    }
}

/// Whether an event is the leader's reply.
pub open spec fn from_leader(event: EventView) -> bool {
    event matches EventView::Replied(hint) && hint.len() == 0
}

/// A call ends after a bounded number of attempts. While no leader has replied it goes on for
/// `MAX_LEADER_ATTEMPTS` attempts and then fails, with the last failure that a replica reported or,
/// where none did, with that no replica answered.
pub proof fn calls_are_bounded(addrs: Seq<Seq<char>>, call: CallView, events: Seq<EventView>)
    requires
        call.failed == 0,
        call.last_err is None,
        forall|i: int| 0 <= i < events.len() ==> !from_leader(#[trigger] events[i]),
    ensures
        events.len() < MAX_LEADER_ATTEMPTS ==> (after(addrs, call, events) matches StepView::Retry(
            next,
        ) && next.failed == events.len() && next.last_err == last_failure(events)),
        events.len() == MAX_LEADER_ATTEMPTS ==> after(addrs, call, events) == StepView::GiveUp(
            match last_failure(events) {
                Some(status) => RouterFault::Rpc(status),
                None => RouterFault::ShardUnreachable,
            },
        ),
        events.len() > MAX_LEADER_ATTEMPTS ==> after(addrs, call, events) is GiveUp,
    decreases events.len(),
{
    if events.len() > 0 {
        let before = events.drop_last();
        assert forall|i: int| 0 <= i < before.len() implies !from_leader(
            #[trigger] before[i],
        ) by {
            assert(before[i] == events[i]);
        }
        calls_are_bounded(addrs, call, before);
        assert(!from_leader(events[events.len() - 1]));
    }
}

/// A reply from the leader ends a call, whichever replica was tried before.
pub proof fn leader_reply_ends_the_call(
    addrs: Seq<Seq<char>>,
    call: CallView,
    events: Seq<EventView>,
    reply: EventView,
)
    requires
        call.failed == 0,
        call.last_err is None,
        events.len() < MAX_LEADER_ATTEMPTS,
        forall|i: int| 0 <= i < events.len() ==> !from_leader(#[trigger] events[i]),
        from_leader(reply),
    ensures
        after(addrs, call, events.push(reply)) == StepView::Done,
{
    calls_are_bounded(addrs, call, events);
    assert(events.push(reply).drop_last() =~= events);
}

/// Whether an event can come from a replica of a group with a known leader: the leader answers,
/// and every other replica fails, does not answer, or names the leader.
pub open spec fn fits_group(
    addrs: Seq<Seq<char>>,
    leader: int,
    replica: int,
    event: EventView,
) -> bool {
    if replica == leader {
        from_leader(event)
    } else {
        match event {
            EventView::Replied(hint) => hint == addrs[leader],
            _ => true,
        }
    }
}

/// Whether each event can come from the replica that the call is at by then.
pub open spec fn from_group(
    addrs: Seq<Seq<char>>,
    call: CallView,
    leader: int,
    events: Seq<EventView>,
) -> bool {
    forall|i: int|
        0 <= i < events.len() ==> match #[trigger] after(addrs, call, events.take(i)) {
            StepView::Retry(next) => fits_group(addrs, leader, next.idx, events[i]),
            _ => true,
        }
}

proof fn lemma_ended(addrs: Seq<Seq<char>>, call: CallView, events: Seq<EventView>, n: int)
    requires
        0 <= n <= events.len(),
        !(after(addrs, call, events.take(n)) is Retry),
    ensures
        after(addrs, call, events) == after(addrs, call, events.take(n)),
    decreases events.len() - n,
{
    if n == events.len() {
        assert(events.take(n) =~= events);
    } else {
        assert(events.take(n + 1).drop_last() =~= events.take(n));
        lemma_ended(addrs, call, events, n + 1);
    }
}

/// Attempt by attempt, a call is at the leader or has walked on by one replica each time.
proof fn lemma_towards_leader(
    addrs: Seq<Seq<char>>,
    call: CallView,
    leader: int,
    events: Seq<EventView>,
    n: int,
) -> (at: int)
    requires
        0 < addrs.len() <= MAX_LEADER_ATTEMPTS,
        0 <= leader < addrs.len(),
        addrs[leader].len() > 0,
        forall|i: int| 0 <= i < leader ==> addrs[i] != addrs[leader],
        0 <= call.idx < addrs.len(),
        call.failed == 0,
        from_group(addrs, call, leader, events),
        0 <= n < addrs.len(),
        n <= events.len(),
    ensures
        0 <= at <= n,
        after(addrs, call, events.take(at)) matches StepView::Retry(next) && next.failed == at && (
        next.idx == leader || at == n && next.idx == (call.idx + n) % addrs.len() as int),
    decreases n,
{
    let len = addrs.len() as int;
    if n == 0 {
        assert(events.take(0) =~= Seq::<EventView>::empty());
        vstd::arithmetic::div_mod::lemma_small_mod(call.idx as nat, len as nat);
        0
    } else {
        let at = lemma_towards_leader(addrs, call, leader, events, n - 1);
        let next = after(addrs, call, events.take(at))->Retry_0;
        if next.idx == leader {
            at
        } else {
            assert(at == n - 1);
            assert(fits_group(addrs, leader, next.idx, events[at]));
            assert(events.take(n).drop_last() =~= events.take(at));
            assert(events.take(n).last() == events[at]);
            lemma_place_of(addrs, addrs[leader], leader);
            vstd::arithmetic::div_mod::lemma_add_mod_noop_right(1, call.idx + at, len);
            n
        }
    }
}

/// A call reaches the leader: in a group of no more replicas than a call has attempts, where the
/// leader has an address of its own and every other replica fails, does not answer or names the
/// leader, a call ends with the leader's reply after at most as many attempts as there are
/// replicas, and the leader is where the next call starts.
pub proof fn calls_reach_the_leader(
    addrs: Seq<Seq<char>>,
    call: CallView,
    leader: int,
    events: Seq<EventView>,
) -> (at: int)
    requires
        0 < addrs.len() <= MAX_LEADER_ATTEMPTS,
        0 <= leader < addrs.len(),
        addrs[leader].len() > 0,
        forall|i: int| 0 <= i < leader ==> addrs[i] != addrs[leader],
        0 <= call.idx < addrs.len(),
        call.failed == 0,
        from_group(addrs, call, leader, events),
        events.len() >= addrs.len(),
    ensures
        after(addrs, call, events) == StepView::Done,
        0 <= at < addrs.len(),
        from_leader(events[at]),
        after(addrs, call, events.take(at)) matches StepView::Retry(next) && next.idx == leader
            && stepped(addrs, next, events[at]) == StepView::Done && guess(addrs, next, events[at])
            == leader,
        leader % addrs.len() as int == leader,
{
    let len = addrs.len() as int;
    let far = (leader - call.idx) % len;
    vstd::arithmetic::div_mod::lemma_mod_bound(leader - call.idx, len);
    let at = lemma_towards_leader(addrs, call, leader, events, far);
    vstd::arithmetic::div_mod::lemma_add_mod_noop_right(call.idx, leader - call.idx, len);
    vstd::arithmetic::div_mod::lemma_small_mod(leader as nat, len as nat);
    let next = after(addrs, call, events.take(at))->Retry_0;
    assert(next.idx == leader);
    assert(fits_group(addrs, leader, next.idx, events[at]));
    assert(events.take(at + 1).drop_last() =~= events.take(at));
    assert(events.take(at + 1).last() == events[at]);
    lemma_ended(addrs, call, events, at + 1);
    at
}

proof fn lemma_walk(addrs: Seq<Seq<char>>, call: CallView, events: Seq<EventView>)
    requires
        addrs.len() > 0,
        0 <= call.idx < addrs.len(),
        call.failed == 0,
        events.len() < MAX_LEADER_ATTEMPTS,
        forall|i: int| 0 <= i < events.len() ==> !((#[trigger] events[i]) is Replied),
    ensures
        after(addrs, call, events) matches StepView::Retry(next) && next.idx == (call.idx
            + events.len()) % addrs.len() as int && next.failed == events.len(),
    decreases events.len(),
{
    let n = addrs.len() as int;
    if events.len() == 0 {
        vstd::arithmetic::div_mod::lemma_small_mod(call.idx as nat, n as nat);
    } else {
        let before = events.drop_last();
        assert forall|i: int| 0 <= i < before.len() implies !((
        #[trigger] before[i]) is Replied) by {
            assert(before[i] == events[i]);
        }
        lemma_walk(addrs, call, before);
        assert(!(events[events.len() - 1] is Replied));
        vstd::arithmetic::div_mod::lemma_add_mod_noop_right(1, call.idx + before.len(), n);
    }
}

/// Replicas that hang or fail are skipped: where a set has no more replicas than a call has
/// attempts, a call is sent to the one healthy replica after fewer attempts than there are
/// replicas, whatever the others' failures. The time those attempts may take stays within the
/// deadline, and the next call starts at the replica that answered.
pub proof fn unresponsive_replicas_are_skipped(
    addrs: Seq<Seq<char>>,
    call: CallView,
    healthy: int,
    failures: Seq<EventView>,
    deadline_ms: int,
)
    requires
        0 < addrs.len() <= MAX_LEADER_ATTEMPTS,
        0 <= call.idx < addrs.len(),
        0 <= healthy < addrs.len(),
        call.failed == 0,
        failures.len() == (healthy - call.idx) % addrs.len() as int,
        forall|i: int| 0 <= i < failures.len() ==> !((#[trigger] failures[i]) is Replied),
        deadline_ms > 0,
    ensures
        failures.len() < addrs.len(),
        failures.len() * attempt_share(deadline_ms, addrs.len() as int) < deadline_ms * 1000,
        after(addrs, call, failures) matches StepView::Retry(next) && {
            &&& next.idx == healthy
            &&& stepped(addrs, next, EventView::Replied(Seq::empty())) == StepView::Done
            &&& guess(addrs, next, EventView::Replied(Seq::empty())) % addrs.len() as int == healthy
        },
{
    let n = addrs.len() as int;
    vstd::arithmetic::div_mod::lemma_mod_bound(healthy - call.idx, n);
    lemma_walk(addrs, call, failures);
    vstd::arithmetic::div_mod::lemma_add_mod_noop_right(call.idx, healthy - call.idx, n);
    vstd::arithmetic::div_mod::lemma_small_mod(healthy as nat, n as nat);
    let share = deadline_ms * 1000 / n;
    vstd::arithmetic::div_mod::lemma_fundamental_div_mod(deadline_ms * 1000, n);
    vstd::arithmetic::div_mod::lemma_mod_bound(deadline_ms * 1000, n);
    vstd::arithmetic::div_mod::lemma_div_pos_is_pos(deadline_ms * 1000, n);
    let m = failures.len() as int;
    let a = attempt_share(deadline_ms, n);
    assert(m * a <= m * share && m * share <= (n - 1) * share) by (nonlinear_arith)
        requires
            0 <= m <= n - 1,
            0 <= a <= share,
    ;
    assert((n - 1) * share == n * share - share) by (nonlinear_arith);
    if share == 0 {
        assert(m * share == 0) by (nonlinear_arith)
            requires
                share == 0,
        ;
    }
}

/// Nothing of a call or of a step is left out of what it is taken to hold.
pub proof fn calls_show_everything(call: LeaderCall, error: RouterError)
    ensures
        call@.idx == call.idx,
        call@.failed == call.failed,
        call@.last_err is Some <==> call.last_err is Some,
        call.last_err matches Some(status) ==> call@.last_err == Some(status@),
        LeaderStep::Done@ is Done,
        LeaderStep::Retry(call)@ == StepView::Retry(call@),
        LeaderStep::GiveUp(error)@ == StepView::GiveUp(error@),
{
}

/// The replicas are tried in a ring: after each comes the one that stands next, and the first after
/// the last.
pub proof fn replicas_are_tried_in_a_ring(idx: int, n: int)
    requires
        0 <= idx < n,
    ensures
        idx + 1 < n ==> next_replica(idx, n) == idx + 1,
        idx + 1 == n ==> next_replica(idx, n) == 0,
{
    if idx + 1 < n {
        vstd::arithmetic::div_mod::lemma_small_mod((idx + 1) as nat, n as nat);
    } else {
        vstd::arithmetic::div_mod::lemma_mod_self_0(n);
    }
}

/// An address is found where it stands first.
pub proof fn addresses_are_found_where_they_stand_first(addrs: Seq<Seq<char>>, addr: Seq<char>)
    ensures
        0 <= place_of(addrs, addr) <= addrs.len(),
        forall|i: int| 0 <= i < place_of(addrs, addr) ==> #[trigger] addrs[i] != addr,
        place_of(addrs, addr) < addrs.len() ==> addrs[place_of(addrs, addr)] == addr,
    decreases addrs.len(),
{
    if addrs.len() > 0 && addrs[0] != addr {
        let rest = addrs.skip(1);
        addresses_are_found_where_they_stand_first(rest, addr);
        assert forall|i: int| 0 <= i < place_of(addrs, addr) implies #[trigger] addrs[i] != addr by {
            if i > 0 {
                assert(rest[i - 1] == addrs[i]);
            }
        }
        if place_of(rest, addr) < rest.len() {
            assert(rest[place_of(rest, addr)] == addrs[place_of(addrs, addr)]);
        }
    }
}

/// What comes of an attempt. The leader's own reply ends the call and is where the next call starts.
/// A hint sends the call to the first replica with that address; a hint that names none, a failure
/// and silence send it to the next one; the guess goes along. Four attempts are made in all, and
/// after the fourth the call fails with the last failure reported, or, where none was, with that no
/// replica answered.
pub proof fn attempts_lead_on(
    addrs: Seq<Seq<char>>,
    call: CallView,
    event: EventView,
    at: int,
)
    requires
        0 <= call.idx < addrs.len(),
    ensures
        ({
            let next = if call.idx + 1 < addrs.len() {
                call.idx + 1
            } else {
                0
            };
            let err = match event {
                EventView::Failed(status) => Some(status),
                _ => call.last_err,
            };
            let to = guess(addrs, call, event);
            &&& 0 <= to < addrs.len()
            &&& event matches EventView::Replied(hint) ==> {
                &&& hint.len() == 0 ==> to == call.idx && stepped(addrs, call, event) is Done
                &&& hint.len() > 0 && 0 <= at < addrs.len() && addrs[at] == hint && (forall|i: int|
                    0 <= i < at ==> #[trigger] addrs[i] != hint) ==> to == at
                &&& hint.len() > 0 && (forall|i: int|
                    0 <= i < addrs.len() ==> #[trigger] addrs[i] != hint) ==> to == next
            }
            &&& !(event is Replied) ==> to == next
            &&& !(event matches EventView::Replied(hint) && hint.len() == 0) ==> {
                &&& call.failed + 1 < 4 ==> stepped(addrs, call, event) == StepView::Retry(
                    CallView { idx: to, failed: call.failed + 1, last_err: err },
                )
                &&& call.failed + 1 >= 4 ==> match err {
                    Some(status) => stepped(addrs, call, event) == StepView::GiveUp(
                        RouterFault::Rpc(status),
                    ),
                    None => stepped(addrs, call, event) == StepView::GiveUp(
                        RouterFault::ShardUnreachable,
                    ),
                }
            }
        }),
{
    replicas_are_tried_in_a_ring(call.idx, addrs.len() as int);
    if let EventView::Replied(hint) = event {
        addresses_are_found_where_they_stand_first(addrs, hint);
        let place = place_of(addrs, hint);
        if 0 <= at < addrs.len() && addrs[at] == hint && (forall|i: int|
            0 <= i < at ==> #[trigger] addrs[i] != hint) {
            assert(place == at) by {
                if place < at {
                    assert(addrs[place] != hint);
                } else if at < place {
                    assert(addrs[at] != hint);
                }
            }
        }
        if place < addrs.len() {
            assert(addrs[place] == hint);
        }
    }
}

/// The attempts that a call may need share the deadline equally, to the microsecond: as many as
/// there are replicas, or four where there are more. A lone replica has all of it.
pub proof fn attempts_share_the_deadline(deadline_ms: int, replicas: int)
    requires
        0 <= deadline_ms <= 18_446_744_073_709_551,
        0 < replicas,
    ensures
        replicas == 1 ==> attempt_share(deadline_ms, replicas) == deadline_ms * 1000,
        replicas <= 4 ==> attempt_share(deadline_ms, replicas) * replicas <= deadline_ms * 1000 < (
        attempt_share(deadline_ms, replicas) + 1) * replicas,
        replicas > 4 ==> attempt_share(deadline_ms, replicas) == attempt_share(deadline_ms, 4),
{
    if replicas <= 4 {
        let all = deadline_ms * 1000;
        let share = all / replicas;
        vstd::arithmetic::div_mod::lemma_fundamental_div_mod(all, replicas);
        vstd::arithmetic::div_mod::lemma_mod_bound(all, replicas);
        vstd::arithmetic::div_mod::lemma_div_pos_is_pos(all, replicas);
        assert(share <= all) by (nonlinear_arith)
            requires
                all == replicas * share + all % replicas,
                0 <= all % replicas,
                replicas >= 1,
                share >= 0,
        ;
        assert(share * replicas <= all < (share + 1) * replicas) by (nonlinear_arith)
            requires
                all == replicas * share + all % replicas,
                0 <= all % replicas < replicas,
        ;
    }
}

} // verus!
