//! A replicated map from keys to numbers: the smallest state machine that exercises the log, its
//! application and snapshots, and the wait for a new leader after the old one is gone.

use crate::address::NodeId;
use crate::log::{Entry, LogId, Payload};
use crate::raft::{snapshot_id, StoredMembership};
use std::collections::BTreeMap;
use vstd::prelude::*;

verus! {

/// A replicated change of the map.
#[derive(Debug)]
pub enum Command {
    Put { key: String, value: u64 },
}

/// What applying an entry answers: the value that was set, if one was.
#[derive(Debug, Clone, Copy, PartialEq, Eq, Structural)]
pub struct CommandResponse {
    pub value: Option<u64>,
}

/// The state of a replica, as mathematical values.
#[verifier::ext_equal]
pub struct MapView<M> {
    pub data: Map<Seq<char>, u64>,
    pub last_applied: Option<LogId>,
    pub last_membership: StoredMembership<M>,
}

/// The state after one entry.
pub open spec fn stepped<M>(state: MapView<M>, entry: Entry<Command, M>) -> MapView<M> {
    MapView {
        data: match entry.payload {
            Payload::Normal(Command::Put { key, value }) => state.data.insert(key@, value),
            _ => state.data,
        },
        last_applied: Some(entry.log_id),
        last_membership: match entry.payload {
            Payload::Membership(membership) => StoredMembership {
                log_id: Some(entry.log_id),
                membership: Some(membership),
            },
            _ => state.last_membership,
        },
    }
}

/// The state after entries, applied in order.
pub open spec fn applied<M>(state: MapView<M>, entries: Seq<Entry<Command, M>>) -> MapView<M>
    decreases entries.len(),
{
    if entries.len() == 0 {
        state
    } else {
        stepped(applied(state, entries.drop_last()), entries.last())
    }
}

/// The answer to an entry.
pub open spec fn answer<M>(entry: Entry<Command, M>) -> CommandResponse {
    CommandResponse {
        value: match entry.payload {
            Payload::Normal(Command::Put { key, value }) => Some(value),
            _ => None,
        },
    }
}

/// Pairs as a map. A later pair replaces an earlier one with the same key.
pub open spec fn pairs_map(pairs: Seq<(String, u64)>) -> Map<Seq<char>, u64>
    decreases pairs.len(),
{
    if pairs.len() == 0 {
        Map::empty()
    } else {
        pairs_map(pairs.drop_last()).insert(pairs.last().0@, pairs.last().1)
    }
}

/// Whether no two pairs share a key.
pub open spec fn keys_differ(pairs: Seq<(String, u64)>) -> bool {
    forall|i: int, j: int|
        0 <= i < j < pairs.len() ==> (#[trigger] pairs[i]).0@ != (#[trigger] pairs[j]).0@
}

proof fn lemma_pairs_map(pairs: Seq<(String, u64)>)
    requires
        keys_differ(pairs),
    ensures
        forall|i: int|
            0 <= i < pairs.len() ==> pairs_map(pairs).contains_key((#[trigger] pairs[i]).0@)
                && pairs_map(pairs)[pairs[i].0@] == pairs[i].1,
        forall|key: Seq<char>| #[trigger]
            pairs_map(pairs).contains_key(key) ==> exists|i: int|
                0 <= i < pairs.len() && (#[trigger] pairs[i]).0@ == key,
    decreases pairs.len(),
{
    if pairs.len() > 0 {
        let first = pairs.drop_last();
        let last = pairs.len() - 1;
        lemma_pairs_map(first);
        assert forall|i: int| 0 <= i < pairs.len() implies pairs_map(pairs).contains_key(
            (#[trigger] pairs[i]).0@,
        ) && pairs_map(pairs)[pairs[i].0@] == pairs[i].1 by {
            if i < last {
                assert(first[i] == pairs[i]);
                assert(pairs[i].0@ != pairs[last].0@);
            }
        }
        assert forall|key: Seq<char>| #[trigger] pairs_map(pairs).contains_key(key) implies exists|
            i: int,
        | 0 <= i < pairs.len() && (#[trigger] pairs[i]).0@ == key by {
            if key == pairs[last].0@ {
            } else {
                assert(pairs_map(first).contains_key(key));
                let i = choose|i: int| 0 <= i < first.len() && (#[trigger] first[i]).0@ == key;
                assert(first[i].0@ == key);
                assert(pairs[i].0@ == key);
            }
        }
    }
}

/// An error of serde_json.
#[verifier::external_type_specification]
#[verifier::external_body]
pub struct ExJsonError(serde_json::Error);

/// Why a snapshot cannot be written or read.
#[derive(Debug)]
pub struct SnapshotError {
    pub source: serde_json::Error,
}

/// The JSON object that serde_json writes for a map, its keys in order.
pub uninterp spec fn object_of(data: Map<Seq<char>, u64>) -> Seq<u8>;

/// The map that serde_json reads from a JSON object whose values are unsigned 64-bit numbers, if
/// the bytes are one.
pub uninterp spec fn object_in(bytes: Seq<u8>) -> Option<Map<Seq<char>, u64>>;

/// Writes pairs, whose keys differ, as a JSON object: `serde_json::to_vec` of a map with the pairs'
/// keys and values.
/// Writing a map with string keys and number values to memory does not fail, and reading what was
/// written gives the map back.
#[verifier::external_body]
fn write_object(pairs: &Vec<(String, u64)>) -> (r: Result<Vec<u8>, serde_json::Error>)
    requires
        keys_differ(pairs@),
    ensures
        r is Ok,
        r->Ok_0@ == object_of(pairs_map(pairs@)),
        object_in(r->Ok_0@) == Some(pairs_map(pairs@)),
{
    let map: BTreeMap<String, u64> = pairs.iter().cloned().collect();
    serde_json::to_vec(&map)
}

/// Reads a JSON object: `serde_json::from_slice` into a map from strings to unsigned 64-bit
/// numbers, handed out as pairs, each key once.
#[verifier::external_body]
fn read_object(bytes: &[u8]) -> (r: Result<Vec<(String, u64)>, serde_json::Error>)
    ensures
        object_in(bytes@) == (match r {
            Ok(pairs) => Some(pairs_map(pairs@)),
            Err(_) => None,
        }),
        r is Ok ==> keys_differ(r->Ok_0@),
{
    let map: BTreeMap<String, u64> = serde_json::from_slice(bytes)?;
    Ok(map.into_iter().collect())
}

/// A snapshot of a replica: how far it had applied the log, the membership then in force, the
/// snapshot's name, and the map as a JSON object.
pub struct MapSnapshot<'a, M> {
    pub last_log_id: Option<LogId>,
    pub last_membership: &'a StoredMembership<M>,
    pub snapshot_id: String,
    pub data: Vec<u8>,
}

/// One replica's state.
pub struct StateMachineStore<M> {
    data: Vec<(String, u64)>,
    last_applied_log: Option<LogId>,
    last_membership: StoredMembership<M>,
}

impl<M> View for StateMachineStore<M> {
    type V = MapView<M>;

    closed spec fn view(&self) -> MapView<M> {
        MapView {
            data: pairs_map(self.data@),
            last_applied: self.last_applied_log,
            last_membership: self.last_membership,
        }
    }
}

impl<M> StateMachineStore<M> {
    /// Keys are unique.
    pub closed spec fn wf(&self) -> bool {
        keys_differ(self.data@)
    }

    /// An empty map, with nothing applied.
    pub fn new() -> (r: Self)
        ensures
            r.wf(),
            r@ == (MapView::<M> {
                data: Map::empty(),
                last_applied: None,
                last_membership: StoredMembership { log_id: None, membership: None },
            }),
    {
        StateMachineStore {
            data: Vec::new(),
            last_applied_log: None,
            last_membership: StoredMembership { log_id: None, membership: None },
        }
    }

    /// Where a key's pair stands, or the number of pairs where it has none.
    fn position(&self, key: &String) -> (at: usize)
        requires
            self.wf(),
        ensures
            at <= self.data.len(),
            at < self.data.len() ==> self.data@[at as int].0@ == key@,
            self@.data.contains_key(key@) <==> at < self.data.len(),
            at < self.data.len() ==> self@.data[key@] == self.data@[at as int].1,
    {
        proof {
            lemma_pairs_map(self.data@);
        }
        let n: usize = self.data.len();
        for i in 0..n
            invariant
                n == self.data.len(),
                forall|j: int| 0 <= j < i ==> (#[trigger] self.data@[j]).0@ != key@,
                forall|i: int|
                    0 <= i < n ==> pairs_map(self.data@).contains_key(
                        (#[trigger] self.data@[i]).0@,
                    ) && pairs_map(self.data@)[self.data@[i].0@] == self.data@[i].1,
        {
            if self.data[i].0 == *key {
                return i;
            }
        }
        n
    }

    /// The value of a key.
    pub fn get(&self, key: &String) -> (r: Option<u64>)
        requires
            self.wf(),
        ensures
            r == (if self@.data.contains_key(key@) {
                Some(self@.data[key@])
            } else {
                None
            }),
    {
        let at: usize = self.position(key);
        if at < self.data.len() {
            Some(self.data[at].1)
        } else {
            None
        }
    }

    /// Sets a key's value.
    fn set(&mut self, key: String, value: u64)
        requires
            old(self).wf(),
        ensures
            final(self).wf(),
            final(self)@ == (MapView { data: old(self)@.data.insert(key@, value), ..old(self)@ }),
    {
        let at: usize = self.position(&key);
        let ghost before = self.data@;
        let ghost want = self@.data.insert(key@, value);
        let ghost name = key@;
        proof {
            lemma_pairs_map(before);
        }
        if at < self.data.len() {
            self.data.set(at, (key, value));
        } else {
            self.data.push((key, value));
        }
        proof {
            let now = self.data@;
            assert forall|i: int, j: int| 0 <= i < j < now.len() implies (#[trigger] now[i]).0@ != (
            #[trigger] now[j]).0@ by {
                if at == before.len() {
                    assert(before[i] == now[i]);
                    assert(pairs_map(before).contains_key(before[i].0@));
                } else {
                    assert(before[i].0@ != before[j].0@);
                }
            }
            lemma_pairs_map(now);
            let got = pairs_map(now);
            assert forall|k: Seq<char>| #[trigger] got.contains_key(k) implies want.contains_key(k)
                && got[k] == want[k] by {
                let i = choose|i: int| 0 <= i < now.len() && (#[trigger] now[i]).0@ == k;
                assert(now[i].0@ == k);
                if i != at {
                    assert(before[i] == now[i]);
                    if at < before.len() {
                        assert(k != name) by {
                            if i < at {
                                assert(before[i].0@ != before[at as int].0@);
                            } else {
                                assert(before[at as int].0@ != before[i].0@);
                            }
                        }
                    } else {
                        assert(pairs_map(before).contains_key(before[i].0@));
                    }
                }
            }
            assert forall|k: Seq<char>| #[trigger] want.contains_key(k) implies got.contains_key(
                k,
            ) by {
                if k == name {
                    assert(now[at as int].0@ == name);
                } else {
                    assert(pairs_map(before).contains_key(k));
                    let i = choose|i: int| 0 <= i < before.len() && (#[trigger] before[i]).0@ == k;
                    assert(before[i].0@ == k);
                    assert(now[i] == before[i]);
                }
            }
            assert(got =~= want);
        }
    }

    /// How far the log is applied, and the membership in force.
    pub fn applied_state(&self) -> (r: (Option<LogId>, &StoredMembership<M>))
        ensures
            r.0 == self@.last_applied,
            *r.1 == self@.last_membership,
    {
        (self.last_applied_log, &self.last_membership)
    }

    /// Applies committed entries in order and answers each.
    pub fn apply(&mut self, entries: Vec<Entry<Command, M>>) -> (r: Vec<CommandResponse>)
        requires
            old(self).wf(),
        ensures
            final(self).wf(),
            final(self)@ == applied(old(self)@, entries@),
            r@ == Seq::new(entries@.len(), |i: int| answer(entries@[i])),
    {
        let ghost start = *self;
        let ghost all = entries@;
        let mut r: Vec<CommandResponse> = Vec::new();
        for entry in it: entries
            invariant
                it.seq() == all,
                self.wf(),
                self@ == applied(start@, all.take(it.index())),
                r@ =~= Seq::new(it.index() as nat, |i: int| answer(all[i])),
        {
            assert(all.take(it.index() + 1).drop_last() =~= all.take(it.index()));
            let log_id = entry.log_id;
            self.last_applied_log = Some(log_id);
            match entry.payload {
                Payload::Blank => {
                    r.push(CommandResponse { value: None });
                },
                Payload::Normal(Command::Put { key, value }) => {
                    self.set(key, value);
                    r.push(CommandResponse { value: Some(value) });
                },
                Payload::Membership(membership) => {
                    self.last_membership = StoredMembership {
                        log_id: Some(log_id),
                        membership: Some(membership),
                    };
                    r.push(CommandResponse { value: None });
                },
            }
        }
        assert(all.take(all.len() as int) =~= all);
        r
    }

    /// A snapshot of the machine.
    pub fn build_snapshot(&self) -> (r: Result<MapSnapshot<'_, M>, SnapshotError>)
        requires
            self.wf(),
        ensures
            r matches Ok(snapshot) && {
                &&& snapshot.last_log_id == self@.last_applied
                &&& *snapshot.last_membership == self@.last_membership
                &&& snapshot.snapshot_id@ == crate::raft::snapshot_text(
                    crate::raft::id_parts(self@.last_applied),
                )
                &&& snapshot.data@ == object_of(self@.data)
                &&& object_in(snapshot.data@) == Some(self@.data)
            },
    {
        match write_object(&self.data) {
            Ok(data) => Ok(
                MapSnapshot {
                    last_log_id: self.last_applied_log,
                    last_membership: &self.last_membership,
                    snapshot_id: snapshot_id(self.last_applied_log),
                    data,
                },
            ),
            Err(source) => Err(SnapshotError { source }),
        }
    }

    /// Replaces the machine's state by that of a snapshot, whose map is a JSON object. Bytes that
    /// are none leave the machine as it is.
    pub fn install_snapshot(
        &mut self,
        last_log_id: Option<LogId>,
        last_membership: StoredMembership<M>,
        data: &[u8],
    ) -> (r: Result<(), SnapshotError>)
        requires
            old(self).wf(),
        ensures
            final(self).wf(),
            match object_in(data@) {
                Some(map) => r is Ok && final(self)@ == (MapView {
                    data: map,
                    last_applied: last_log_id,
                    last_membership,
                }),
                None => r is Err && final(self)@ == old(self)@,
            },
    {
        match read_object(data) {
            Ok(pairs) => {
                self.restore(last_log_id, last_membership, pairs);
                Ok(())
            },
            Err(source) => Err(SnapshotError { source }),
        }
    }

    /// Replaces the machine's state. A later pair replaces an earlier one with the same key.
    pub fn restore(
        &mut self,
        last_log_id: Option<LogId>,
        last_membership: StoredMembership<M>,
        data: Vec<(String, u64)>,
    )
        requires
            old(self).wf(),
        ensures
            final(self).wf(),
            final(self)@ == (MapView {
                data: pairs_map(data@),
                last_applied: last_log_id,
                last_membership,
            }),
    {
        let ghost all = data@;
        self.data = Vec::new();
        self.last_applied_log = last_log_id;
        self.last_membership = last_membership;
        for pair in it: data
            invariant
                it.seq() == all,
                self.wf(),
                self@ == (MapView {
                    data: pairs_map(all.take(it.index())),
                    last_applied: last_log_id,
                    last_membership,
                }),
        {
            assert(all.take(it.index() + 1).drop_last() =~= all.take(it.index()));
            self.set(pair.0, pair.1);
        }
        assert(all.take(all.len() as int) =~= all);
    }
}

/// What a poll for a new leader comes to.
#[derive(Debug, Clone, Copy, PartialEq, Eq, Structural)]
pub enum LeaderPoll {
    /// A leader other than the old one is known.
    Elected(NodeId),
    /// None is, and the deadline has passed.
    TimedOut,
    /// None is yet.
    Again,
}

/// Decides on one poll for a leader other than `old_leader`. That some leader is known is not
/// enough: right after a leader is gone, its id is still the last one known.
pub fn wait_for_leader_change(
    current_leader: Option<NodeId>,
    old_leader: Option<NodeId>,
    deadline_passed: bool,
) -> (r: LeaderPoll)
    ensures
        r == (if current_leader is Some && current_leader != old_leader {
            LeaderPoll::Elected(current_leader->Some_0)
        } else if deadline_passed {
            LeaderPoll::TimedOut
        } else {
            LeaderPoll::Again
        }),
{
    if let Some(leader) = current_leader {
        let same = match old_leader {
            Some(old) => old == leader,
            None => false,
        };
        if !same {
            return LeaderPoll::Elected(leader);
        }
    }
    if deadline_passed {
        LeaderPoll::TimedOut
    } else {
        LeaderPoll::Again
    }
}

/// Of the pairs with one key the last counts, and a key that no pair has is not in the map.
pub proof fn last_pairs_count(pairs: Seq<(String, u64)>, key: Seq<char>, i: int)
    ensures
        0 <= i < pairs.len() && pairs[i].0@ == key && (forall|j: int|
            i < j < pairs.len() ==> (#[trigger] pairs[j]).0@ != key) ==> pairs_map(
            pairs,
        ).contains_key(key) && pairs_map(pairs)[key] == pairs[i].1,
        (forall|j: int| 0 <= j < pairs.len() ==> (#[trigger] pairs[j]).0@ != key) ==> !pairs_map(
            pairs,
        ).contains_key(key),
    decreases pairs.len(),
{
    if pairs.len() > 0 {
        let before = pairs.drop_last();
        let last = pairs.len() - 1;
        last_pairs_count(before, key, i);
        assert(pairs[last] == pairs.last());
        assert forall|j: int| 0 <= j < before.len() implies before[j] == pairs[j] by {}
        if (0 <= i < last && pairs[i].0@ == key && forall|j: int|
            i < j < pairs.len() ==> (#[trigger] pairs[j]).0@ != key) {
            assert(pairs[last].0@ != key);
            assert(forall|j: int| i < j < before.len() ==> (#[trigger] before[j]).0@ != key);
        }
        if forall|j: int| 0 <= j < pairs.len() ==> (#[trigger] pairs[j]).0@ != key {
            assert(pairs[last].0@ != key);
            assert(forall|j: int| 0 <= j < before.len() ==> (#[trigger] before[j]).0@ != key);
        }
    }
}

/// Entries take effect one by one, in order: a command sets its key to its value and nothing else,
/// and is answered with the value; a membership entry sets the membership; every entry is
/// remembered as the last applied.
pub proof fn entries_take_effect_one_by_one<M>(
    state: MapView<M>,
    entries: Seq<Entry<Command, M>>,
    entry: Entry<Command, M>,
    other: Seq<char>,
)
    ensures
        applied(state, Seq::empty()) == state,
        ({
            let before = applied(state, entries);
            let after = applied(state, entries.push(entry));
            &&& after.last_applied == Some(entry.log_id)
            &&& match entry.payload {
                Payload::Membership(m) => after.last_membership == (StoredMembership {
                    log_id: Some(entry.log_id),
                    membership: Some(m),
                }) && after.data == before.data && answer(entry).value is None,
                Payload::Normal(Command::Put { key, value }) => {
                    &&& after.last_membership == before.last_membership
                    &&& after.data.contains_key(key@)
                    &&& after.data[key@] == value
                    &&& other != key@ ==> after.data.contains_key(other)
                        == before.data.contains_key(other) && (before.data.contains_key(other)
                        ==> after.data[other] == before.data[other])
                    &&& answer(entry).value == Some(value)
                },
                Payload::Blank => after.last_membership == before.last_membership && after.data
                    == before.data && answer(entry).value is None,
            }
        }),
{
    assert(entries.push(entry).drop_last() =~= entries);
    assert(entries.push(entry).last() == entry);
}

} // verus!
