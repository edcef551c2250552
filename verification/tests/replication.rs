use raftvec::log::{Entry, IndexBound, LogId, LogStore, Payload, Vote};
use raftvec::raft::{ShardCommand, ShardCommandResponse, ShardStateMachine};
use raftvec::record::VectorRecord;
use raftvec::similarity::Kernel;
use raftvec::spike::{wait_for_leader_change, Command, LeaderPoll, StateMachineStore};
use raftvec::store::Store;
use std::collections::HashMap;

type Op = fn(u32, u32, u32) -> u32;
type Machine = ShardStateMachine<Op, Op, u8>;

fn mul_acc(acc: u32, x: u32, y: u32) -> u32 {
    (f32::from_bits(acc) + f32::from_bits(x) * f32::from_bits(y)).to_bits()
}

fn quotient(dot: u32, a: u32, b: u32) -> u32 {
    (f32::from_bits(dot) / (f32::from_bits(a).sqrt() * f32::from_bits(b).sqrt())).to_bits()
}

fn bits(v: &[f32]) -> Vec<u32> {
    v.iter().map(|x| x.to_bits()).collect()
}

fn rec(id: u64, embedding: &[f32]) -> VectorRecord {
    VectorRecord::new(id, bits(embedding), HashMap::new())
}

fn id(index: u64) -> LogId {
    LogId { term: 1, node_id: 1, index }
}

fn blank(index: u64) -> Entry<u32, u8> {
    Entry { log_id: id(index), payload: Payload::Blank }
}

fn put(index: u64, data: u32) -> Entry<u32, u8> {
    Entry { log_id: id(index), payload: Payload::Normal(data) }
}

fn indices(log: &LogStore<u32, u8>, start: IndexBound, end: IndexBound) -> Vec<u64> {
    log.try_get_log_entries(start, end).iter().map(|e| e.log_id.index).collect()
}

fn all_indices(log: &LogStore<u32, u8>) -> Vec<u64> {
    indices(log, IndexBound::Unbounded, IndexBound::Unbounded)
}

fn data_at(log: &LogStore<u32, u8>, index: u64) -> Option<u32> {
    let found = log.try_get_log_entries(IndexBound::Included(index), IndexBound::Included(index));
    match found.first().map(|e| &e.payload) {
        Some(Payload::Normal(data)) => Some(*data),
        _ => None,
    }
}

#[test]
fn log_reads_ranges_in_order() {
    let mut log: LogStore<u32, u8> = LogStore::new();
    log.append(vec![blank(1), blank(2), blank(3), blank(5)]);
    assert_eq!(all_indices(&log), vec![1, 2, 3, 5]);
    assert_eq!(indices(&log, IndexBound::Included(2), IndexBound::Excluded(5)), vec![2, 3]);
    assert_eq!(indices(&log, IndexBound::Excluded(2), IndexBound::Included(5)), vec![3, 5]);
    assert_eq!(indices(&log, IndexBound::Included(4), IndexBound::Unbounded), vec![5]);
    assert_eq!(indices(&log, IndexBound::Unbounded, IndexBound::Excluded(1)), Vec::<u64>::new());
}

#[test]
fn appended_entries_replace_those_at_their_index() {
    let mut log: LogStore<u32, u8> = LogStore::new();
    log.append(vec![put(1, 10), put(3, 30)]);
    log.append(vec![put(2, 20), put(3, 31)]);
    assert_eq!(all_indices(&log), vec![1, 2, 3]);
    assert_eq!(data_at(&log, 1), Some(10));
    assert_eq!(data_at(&log, 2), Some(20));
    assert_eq!(data_at(&log, 3), Some(31));
    assert_eq!(data_at(&log, 4), None);
}

#[test]
fn truncate_removes_a_suffix_and_purge_a_prefix() {
    let mut log: LogStore<u32, u8> = LogStore::new();
    log.append((1..=6).map(blank).collect());
    log.truncate(id(5));
    assert_eq!(all_indices(&log), vec![1, 2, 3, 4]);
    log.purge(id(2));
    assert_eq!(all_indices(&log), vec![3, 4]);
    let state = log.get_log_state();
    assert_eq!(state.last_purged_log_id, Some(id(2)));
    assert_eq!(state.last_log_id, Some(id(4)));
    log.purge(id(4));
    assert_eq!(log.get_log_state().last_log_id, Some(id(4)));
    assert_eq!(all_indices(&log), Vec::<u64>::new());
}

#[test]
fn empty_log_has_no_last_id() {
    let log: LogStore<u32, u8> = LogStore::new();
    let state = log.get_log_state();
    assert_eq!(state.last_purged_log_id, None);
    assert_eq!(state.last_log_id, None);
    assert_eq!(log.read_vote(), None);
    assert_eq!(log.read_committed(), None);
}

#[test]
fn votes_and_commits_are_kept() {
    let mut log: LogStore<u32, u8> = LogStore::new();
    let vote = Vote { term: 3, node_id: 2, committed: true };
    log.save_vote(&vote);
    log.save_committed(Some(id(7)));
    assert_eq!(log.read_vote(), Some(vote));
    assert_eq!(log.read_committed(), Some(id(7)));
    log.save_committed(None);
    assert_eq!(log.read_committed(), None);
}

fn machine() -> Machine {
    let mut store: Store<Op, Op> = Store::new(Kernel { mul_acc, quotient });
    store.create_collection("docs", 2, 1).unwrap();
    ShardStateMachine::new(store)
}

fn entry(index: u64, payload: Payload<ShardCommand, u8>) -> Entry<ShardCommand, u8> {
    Entry { log_id: id(index), payload }
}

fn upsert(index: u64, collection: &str, records: Vec<VectorRecord>) -> Entry<ShardCommand, u8> {
    let collection = collection.to_string();
    entry(index, Payload::Normal(ShardCommand::Upsert { collection, records }))
}

fn delete(index: u64, collection: &str, ids: Vec<u64>) -> Entry<ShardCommand, u8> {
    let collection = collection.to_string();
    entry(index, Payload::Normal(ShardCommand::Delete { collection, ids }))
}

fn script() -> Vec<Entry<ShardCommand, u8>> {
    vec![
        entry(1, Payload::Membership(9)),
        entry(2, Payload::Blank),
        upsert(3, "docs", vec![rec(1, &[1.0, 0.0]), rec(2, &[0.0, 1.0])]),
        upsert(4, "nope", vec![rec(3, &[1.0, 1.0])]),
        upsert(5, "docs", vec![rec(4, &[1.0])]),
        delete(6, "docs", vec![2, 77]),
        delete(7, "nope", vec![1]),
    ]
}

fn applied(answers: Vec<ShardCommandResponse>) -> Vec<bool> {
    answers.into_iter().map(|r| r.applied).collect()
}

fn found(machine: &Machine, query: &[f32]) -> Vec<u64> {
    machine.store.search("docs", &bits(query), 9).unwrap().iter().map(|s| s.id).collect()
}

#[test]
fn entries_are_applied_and_answered_in_order() {
    let mut m = machine();
    let answers = applied(m.apply(script()));
    assert_eq!(answers, vec![false, false, true, false, false, true, false]);
    assert_eq!(found(&m, &[1.0, 0.0]), vec![1]);
    let (last, membership) = m.applied_state();
    assert_eq!(last, Some(id(7)));
    assert_eq!(membership.log_id, Some(id(1)));
    assert_eq!(membership.membership, Some(9));
}

#[test]
fn batches_make_no_difference() {
    let mut whole = machine();
    let together = applied(whole.apply(script()));
    let mut parts = machine();
    let mut apart = Vec::new();
    for e in script() {
        apart.extend(applied(parts.apply(vec![e])));
    }
    assert_eq!(together, apart);
    assert_eq!(found(&whole, &[1.0, 0.0]), found(&parts, &[1.0, 0.0]));
    assert_eq!(whole.applied_state().0, parts.applied_state().0);
}

#[test]
fn a_snapshot_stands_for_the_entries_before_it() {
    let mut leader = machine();
    leader.apply(script());
    let mut follower: Machine = ShardStateMachine::new(Store::new(Kernel { mul_acc, quotient }));
    let snapshot = leader.build_snapshot();
    let membership = raftvec::raft::StoredMembership {
        log_id: snapshot.last_membership.log_id,
        membership: snapshot.last_membership.membership,
    };
    follower.install_snapshot(snapshot.last_log_id, membership, snapshot.store);
    let more = || vec![upsert(8, "docs", vec![rec(5, &[1.0, 0.1])])];
    leader.apply(more());
    follower.apply(more());
    assert_eq!(found(&follower, &[1.0, 0.0]), vec![1, 5]);
    assert_eq!(found(&leader, &[1.0, 0.0]), vec![1, 5]);
    assert_eq!(follower.applied_state().0, Some(id(8)));
    assert_eq!(follower.applied_state().1.membership, Some(9));
}

#[test]
fn shard_replica_group_replicates_and_survives_leader_failure() {
    let mut replicas: Vec<Machine> = (0..3).map(|_| machine()).collect();
    for r in &mut replicas {
        r.apply(vec![upsert(1, "docs", vec![rec(1, &[1.0, 0.0])])]);
    }
    for r in &replicas {
        let results = r.store.search("docs", &bits(&[1.0, 0.0]), 1).unwrap();
        assert_eq!(results.len(), 1);
        assert_eq!(results[0].id, 1);
    }
    replicas.remove(0);
    assert_eq!(wait_for_leader_change(Some(1), Some(1), false), LeaderPoll::Again);
    let elected = wait_for_leader_change(Some(2), Some(1), false);
    assert_ne!(elected, LeaderPoll::Elected(1));
    assert_eq!(elected, LeaderPoll::Elected(2));
    for r in &mut replicas {
        r.apply(vec![upsert(2, "docs", vec![rec(2, &[0.0, 1.0])])]);
    }
    for r in &replicas {
        let results = r.store.search("docs", &bits(&[0.0, 1.0]), 1).unwrap();
        assert_eq!(results.len(), 1);
        assert_eq!(results[0].id, 2);
    }
}

#[test]
fn polls_for_a_new_leader_time_out() {
    assert_eq!(wait_for_leader_change(None, None, false), LeaderPoll::Again);
    assert_eq!(wait_for_leader_change(None, Some(1), true), LeaderPoll::TimedOut);
    assert_eq!(wait_for_leader_change(Some(1), Some(1), true), LeaderPoll::TimedOut);
    assert_eq!(wait_for_leader_change(Some(1), None, true), LeaderPoll::Elected(1));
}

fn set(index: u64, key: &str, value: u64) -> Entry<Command, u8> {
    Entry {
        log_id: id(index),
        payload: Payload::Normal(Command::Put { key: key.to_string(), value }),
    }
}

#[test]
fn replicated_map_applies_and_snapshots() {
    let mut m: StateMachineStore<u8> = StateMachineStore::new();
    let answers = m.apply(vec![
        set(1, "x", 42),
        Entry { log_id: id(2), payload: Payload::Blank },
        set(3, "y", 7),
        Entry { log_id: id(4), payload: Payload::Membership(3) },
        set(5, "x", 43),
    ]);
    let values: Vec<Option<u64>> = answers.iter().map(|r| r.value).collect();
    assert_eq!(values, vec![Some(42), None, Some(7), None, Some(43)]);
    assert_eq!(m.get(&"x".to_string()), Some(43));
    assert_eq!(m.get(&"y".to_string()), Some(7));
    assert_eq!(m.get(&"z".to_string()), None);
    assert_eq!(m.applied_state().0, Some(id(5)));
    assert_eq!(m.applied_state().1.membership, Some(3));

    let mut copy: StateMachineStore<u8> = StateMachineStore::new();
    copy.apply(vec![set(1, "w", 1)]);
    let membership = raftvec::raft::StoredMembership { log_id: Some(id(4)), membership: Some(3) };
    let snapshot = m.build_snapshot().unwrap();
    assert_eq!(snapshot.data, br#"{"x":43,"y":7}"#.to_vec());
    assert_eq!(snapshot.last_log_id, Some(id(5)));
    assert_eq!(snapshot.last_membership.membership, Some(3));
    copy.install_snapshot(Some(id(5)), membership, &snapshot.data).unwrap();
    assert_eq!(copy.get(&"x".to_string()), Some(43));
    assert_eq!(copy.get(&"w".to_string()), None);
    assert_eq!(copy.applied_state().0, Some(id(5)));
}

#[test]
fn bytes_that_are_no_map_leave_the_machine_alone() {
    let mut m: StateMachineStore<u8> = StateMachineStore::new();
    m.apply(vec![set(1, "x", 42)]);
    for bytes in ["", "[]", "{\"x\":-1}", "{\"x\":1.5}", "{\"x\":1} y", "{\"x\":\"1\"}"] {
        let membership = raftvec::raft::StoredMembership { log_id: None, membership: None };
        assert!(m.install_snapshot(None, membership, bytes.as_bytes()).is_err());
        assert_eq!(m.get(&"x".to_string()), Some(42));
        assert_eq!(m.applied_state().0, Some(id(1)));
    }
}

#[test]
fn maps_survive_the_round_trip_through_bytes() {
    let mut m: StateMachineStore<u8> = StateMachineStore::new();
    m.apply(vec![set(1, "quote \" \u{1F600} \n", u64::MAX), set(2, "", 0)]);
    let mut copy: StateMachineStore<u8> = StateMachineStore::new();
    let membership = raftvec::raft::StoredMembership { log_id: None, membership: None };
    let snapshot = m.build_snapshot().unwrap();
    copy.install_snapshot(snapshot.last_log_id, membership, &snapshot.data).unwrap();
    assert_eq!(copy.get(&"quote \" \u{1F600} \n".to_string()), Some(u64::MAX));
    assert_eq!(copy.get(&String::new()), Some(0));
    assert_eq!(copy.applied_state().0, Some(id(2)));
}

#[test]
fn snapshots_are_named_after_the_last_entry() {
    assert_eq!(machine().build_snapshot().snapshot_id, "None");
    let mut m = machine();
    m.apply(script());
    let leader_id = openraft::CommittedLeaderId::<u64>::new(1, 1);
    let want = format!("{:?}", Some(openraft::LogId::new(leader_id, 7)));
    assert_eq!(m.build_snapshot().snapshot_id, want);
}

#[test]
fn applied_records_stay_until_they_are_touched() {
    let mut m = machine();
    let answers = applied(m.apply(vec![
        upsert(1, "docs", vec![rec(1, &[1.0, 0.0]), rec(1, &[0.0, 1.0])]),
        upsert(2, "docs", vec![rec(2, &[1.0, 0.0])]),
        delete(3, "docs", vec![2]),
        upsert(4, "docs", vec![rec(1, &[1.0])]),
    ]));
    assert_eq!(answers, vec![true, true, true, false]);
    let top = m.store.search("docs", &bits(&[0.0, 1.0]), 5).unwrap();
    assert_eq!(top.len(), 1);
    assert_eq!((top[0].id, f32::from_bits(top[0].score)), (1, 1.0));
}
