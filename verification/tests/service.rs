use rand::rngs::StdRng;
use rand::{Rng, SeedableRng};
use raftvec::aggregator::AggregatorService;
use raftvec::failover::{
    connect_with_retry, ConnectStep, LeaderCall, LeaderStep, ShardReplicaSet, CONNECT_MAX_ATTEMPTS,
    MAX_LEADER_ATTEMPTS,
};
use raftvec::gather::{cluster_status, created, gather, merge_scored_records, tally};
use raftvec::message::{
    ClusterStatusResponse, Code, CreateCollectionRequest, DeleteRequest, InsertRequest,
    InsertResponse, ScoredRecord, SearchRequest, SearchResponse, Status,
};
use raftvec::node::{Admission, Leadership, NodeService, WriteError};
use raftvec::raft::{ShardCommand, ShardCommandResponse, ShardStateMachine};
use raftvec::record::VectorRecord;
use raftvec::router::{RouterError, ShardRouter};
use raftvec::similarity::Kernel;
use raftvec::store::Store;
use std::collections::{BTreeMap, HashMap};

type Op = fn(u32, u32, u32) -> u32;

fn mul_acc(acc: u32, x: u32, y: u32) -> u32 {
    (f32::from_bits(acc) + f32::from_bits(x) * f32::from_bits(y)).to_bits()
}

fn quotient(dot: u32, a: u32, b: u32) -> u32 {
    (f32::from_bits(dot) / (f32::from_bits(a).sqrt() * f32::from_bits(b).sqrt())).to_bits()
}

fn new_store() -> Store<Op, Op> {
    Store::new(Kernel { mul_acc, quotient })
}

fn bits(v: &[f32]) -> Vec<u32> {
    v.iter().map(|x| x.to_bits()).collect()
}

fn rec(id: u64, embedding: &[f32]) -> VectorRecord {
    VectorRecord::new(id, bits(embedding), HashMap::new())
}

fn random_vector(rng: &mut StdRng, dim: usize) -> Vec<f32> {
    (0..dim).map(|_| rng.gen_range(-1.0..1.0)).collect()
}

fn request(collection: &str, query: &[f32], k: u32) -> SearchRequest {
    SearchRequest { collection: collection.to_string(), query_vector: bits(query), k }
}

const SHARD_COUNT: usize = 4;

struct Cluster {
    router: ShardRouter,
    shards: Vec<ShardStateMachine<Op, Op, ()>>,
    node: NodeService,
}

impl Cluster {
    fn new() -> Self {
        let addrs = (0..SHARD_COUNT).map(|s| vec![format!("http://shard-{s}")]).collect();
        Cluster {
            router: ShardRouter::new(addrs, 5000),
            shards: (0..SHARD_COUNT).map(|_| ShardStateMachine::new(new_store())).collect(),
            node: NodeService::new(1),
        }
    }

    fn create_collection(&mut self, name: &str, dim: u32) -> Result<(), RouterError> {
        let calls = self.router.create_collection(name, dim);
        let mut results = Vec::new();
        for (shard, _, request) in calls {
            let reply = self.node.create_collection(&mut self.shards[shard].store, request);
            results.push(reply.map(|_| ()));
        }
        created(results)
    }

    fn apply(&mut self, shard: usize, command: ShardCommand) -> ShardCommandResponse {
        let log_id = raftvec::log::LogId { term: 1, node_id: 1, index: 1 };
        let payload = raftvec::log::Payload::Normal(command);
        self.shards[shard].apply(vec![raftvec::log::Entry { log_id, payload }])[0]
    }

    fn insert(&mut self, collection: &str, records: Vec<VectorRecord>) -> Result<u32, RouterError> {
        let mut results = Vec::new();
        for (shard, request) in self.router.insert(collection, records) {
            let (command, count) = NodeService::insert_command(request);
            let response = self.apply(shard, command);
            let reply = NodeService::insert_reply(count, Ok(response));
            results.push(reply.map(|r| r.inserted).map_err(RouterError::Rpc));
        }
        tally(results)
    }

    fn delete(&mut self, collection: &str, ids: Vec<u64>) -> Result<u32, RouterError> {
        let mut results = Vec::new();
        for (shard, request) in self.router.delete(collection, ids) {
            let (command, count) = NodeService::delete_command(request);
            let response = self.apply(shard, command);
            let reply = NodeService::delete_reply(count, Ok(response));
            results.push(reply.map(|r| r.deleted).map_err(RouterError::Rpc));
        }
        tally(results)
    }

    fn search(&self, collection: &str, query: &[f32], k: u32) -> (Vec<ScoredRecord>, u32, u32) {
        let requests = self.router.search(collection, &bits(query), k);
        let responses = requests
            .into_iter()
            .zip(&self.shards)
            .map(|(request, shard)| self.node.search(&shard.store, &Ok(()), request).ok())
            .collect();
        gather(responses, k)
    }
}

#[test]
fn sharded_cluster_matches_oracle_on_random_corpus() {
    let dim = 24;
    let n = 5_000u64;
    let k = 10;

    let mut cluster = Cluster::new();
    let mut oracle = new_store();
    oracle.create_collection("docs", dim, 1).unwrap();
    cluster.create_collection("docs", dim as u32).unwrap();

    let mut rng = StdRng::seed_from_u64(123);
    let mut cluster_records = Vec::with_capacity(n as usize);
    let mut core_records = Vec::with_capacity(n as usize);
    for id in 0..n {
        let emb = random_vector(&mut rng, dim);
        cluster_records.push(rec(id, &emb));
        core_records.push(rec(id, &emb));
    }

    oracle.insert("docs", core_records).unwrap();
    let inserted = cluster.insert("docs", cluster_records).unwrap();
    assert_eq!(inserted, n as u32);

    for _ in 0..15 {
        let query = random_vector(&mut rng, dim);
        let (cluster_results, shards_queried, shards_failed) = cluster.search("docs", &query, k);
        assert_eq!(shards_queried, SHARD_COUNT as u32);
        assert_eq!(shards_failed, 0, "no shard should fail in a healthy cluster");

        let oracle_results = oracle.search("docs", &bits(&query), k as usize).unwrap();

        assert_eq!(cluster_results.len(), oracle_results.len());
        for (c, o) in cluster_results.iter().zip(oracle_results.iter()) {
            assert_eq!(c.id, o.id, "ranked id mismatch");
            assert_eq!(c.score, o.score, "score mismatch for id {}", c.id);
        }
    }
}

#[test]
fn sharded_cluster_matches_oracle_after_deletes() {
    let dim = 16;
    let n = 2_000u64;
    let k = 5;

    let mut cluster = Cluster::new();
    let mut oracle = new_store();
    oracle.create_collection("docs", dim, 1).unwrap();
    cluster.create_collection("docs", dim as u32).unwrap();

    let mut rng = StdRng::seed_from_u64(456);
    let mut cluster_records = Vec::with_capacity(n as usize);
    let mut core_records = Vec::with_capacity(n as usize);
    for id in 0..n {
        let emb = random_vector(&mut rng, dim);
        cluster_records.push(rec(id, &emb));
        core_records.push(rec(id, &emb));
    }
    oracle.insert("docs", core_records).unwrap();
    cluster.insert("docs", cluster_records).unwrap();

    let deleted_ids: Vec<u64> = (0..n).step_by(3).collect();
    oracle.delete("docs", &deleted_ids).unwrap();
    cluster.delete("docs", deleted_ids).unwrap();

    for _ in 0..10 {
        let query = random_vector(&mut rng, dim);
        let (cluster_results, _, shards_failed) = cluster.search("docs", &query, k);
        assert_eq!(shards_failed, 0);

        let oracle_results = oracle.search("docs", &bits(&query), k as usize).unwrap();

        assert_eq!(cluster_results.len(), oracle_results.len());
        for (c, o) in cluster_results.iter().zip(oracle_results.iter()) {
            assert_eq!(c.id, o.id);
            assert_eq!(c.score, o.score);
        }
    }
}

#[test]
fn sharded_cluster_ties_break_the_same_way_as_the_oracle() {
    let dim = 4;
    let mut cluster = Cluster::new();
    let mut oracle = new_store();
    oracle.create_collection("docs", dim, 1).unwrap();
    cluster.create_collection("docs", dim as u32).unwrap();

    let ids = [0u64, 1, 2, 3, 4, 5, 6, 7, 8, 9, 10, 11];
    let embedding = vec![1.0, 0.0, 0.0, 0.0];
    oracle.insert("docs", ids.iter().map(|&id| rec(id, &embedding)).collect()).unwrap();
    cluster.insert("docs", ids.iter().map(|&id| rec(id, &embedding)).collect()).unwrap();

    let query = vec![1.0, 0.0, 0.0, 0.0];
    let k = ids.len() as u32;
    let (cluster_results, _, shards_failed) = cluster.search("docs", &query, k);
    assert_eq!(shards_failed, 0);
    let oracle_results = oracle.search("docs", &bits(&query), k as usize).unwrap();

    let cluster_ids: Vec<u64> = cluster_results.iter().map(|r| r.id).collect();
    let oracle_ids: Vec<u64> = oracle_results.iter().map(|r| r.id).collect();
    assert_eq!(cluster_ids, oracle_ids, "tie-break order must match the single-node oracle exactly");
}

#[test]
fn a_failing_shard_degrades_the_search() {
    let mut cluster = Cluster::new();
    cluster.create_collection("docs", 1).unwrap();
    cluster.insert("docs", (0..12).map(|id| rec(id, &[1.0])).collect()).unwrap();
    let requests = cluster.router.search("docs", &bits(&[1.0]), 12);
    let responses = requests
        .into_iter()
        .enumerate()
        .map(|(s, request)| {
            if s == 0 {
                None
            } else {
                cluster.node.search(&cluster.shards[s].store, &Ok(()), request).ok()
            }
        })
        .collect();
    let (results, queried, failed) = gather(responses, 12);
    assert_eq!((queried, failed), (4, 1));
    let mut ids: Vec<u64> = results.iter().map(|r| r.id).collect();
    ids.sort();
    if usize::BITS == 64 {
        assert_eq!(ids, vec![1, 2, 3, 4, 5, 6, 7, 8]);
    }
    let reply = AggregatorService::search_reply((results, queried, failed));
    assert_eq!(AggregatorService::search_label(reply.shards_failed), "degraded");
    assert_eq!(AggregatorService::search_label(0), "ok");
    assert_eq!(reply.leader_hint, "");
}

#[test]
fn inserts_reach_only_the_shards_of_their_records() {
    let addrs = (0..4).map(|s| vec![format!("{s}")]).collect();
    let router = ShardRouter::new(addrs, 1000);
    assert_eq!(router.shard_count(), 4);
    if usize::BITS == 64 {
        let calls = router.insert("docs", (0..6).map(|id| rec(id, &[1.0])).collect());
        let plan: Vec<(usize, Vec<u64>)> = calls
            .iter()
            .map(|(s, r)| (*s, r.records.iter().map(|x| x.id).collect()))
            .collect();
        assert_eq!(plan, vec![(0, vec![0]), (2, vec![3, 4, 5]), (3, vec![1, 2])]);
        let calls = router.delete("docs", vec![11, 7, 0]);
        let plan: Vec<(usize, Vec<u64>)> = calls.into_iter().map(|(s, r)| (s, r.ids)).collect();
        assert_eq!(plan, vec![(0, vec![11, 0]), (1, vec![7])]);
    }
    assert!(router.insert("docs", vec![]).is_empty());
    let empty = ShardRouter::new(vec![], 1000);
    assert!(empty.delete("docs", vec![]).is_empty());
    let groups = router.group_by_shard(vec!["a", "bbb"], |s: &&str| s.len() as u64);
    assert_eq!(groups.iter().map(|g| g.len()).sum::<usize>(), 2);
}

#[test]
fn creating_a_collection_reaches_every_replica() {
    let addrs = vec![vec!["a".to_string(), "b".to_string()], vec![], vec!["c".to_string()]];
    let router = ShardRouter::new(addrs, 1000);
    let calls = router.create_collection("docs", 8);
    let targets: Vec<(usize, usize)> = calls.iter().map(|c| (c.0, c.1)).collect();
    assert_eq!(targets, vec![(0, 0), (0, 1), (2, 0)]);
    for (_, _, request) in calls {
        assert_eq!(request.name, "docs");
        assert_eq!(request.dim, 8);
        assert_eq!(request.shard_count, 3);
    }
    assert_eq!(created(vec![Ok(()), Ok(())]), Ok(()));
    let first = Status::new(Code::AlreadyExists, "one".to_string());
    let second = Status::new(Code::Internal, "two".to_string());
    let want = Status::new(Code::AlreadyExists, "one".to_string());
    assert_eq!(created(vec![Ok(()), Err(first), Err(second)]), Err(RouterError::Rpc(want)));
}

#[test]
fn counts_are_summed_or_the_first_failure_wins() {
    assert_eq!(tally(vec![]), Ok(0));
    assert_eq!(tally(vec![Ok(3), Ok(4)]), Ok(7));
    assert_eq!(tally(vec![Ok(u32::MAX), Ok(3)]), Ok(2));
    let rpc = RouterError::Rpc(Status::new(Code::Internal, "x".to_string()));
    assert_eq!(
        tally(vec![Ok(1), Err(RouterError::ShardUnreachable), Err(rpc)]),
        Err(RouterError::ShardUnreachable)
    );
}

fn result(id: u64, score: f32, title: &str) -> ScoredRecord {
    let mut metadata = HashMap::new();
    if !title.is_empty() {
        metadata.insert("title".to_string(), title.to_string());
    }
    ScoredRecord { id, score: score.to_bits(), metadata }
}

#[test]
fn merged_results_carry_their_metadata() {
    let merged = merge_scored_records(
        vec![
            vec![result(1, 0.9, "one"), result(2, 0.3, "two")],
            vec![],
            vec![result(3, 0.8, "three"), result(4, 0.1, "four")],
        ],
        3,
    );
    assert_eq!(merged, vec![result(1, 0.9, "one"), result(3, 0.8, "three"), result(2, 0.3, "two")]);
}

#[test]
fn an_id_from_two_shards_carries_its_last_metadata_once() {
    let merged =
        merge_scored_records(vec![vec![result(1, 0.9, "a")], vec![result(1, 0.5, "b")]], 5);
    assert_eq!(merged, vec![result(1, 0.9, "b"), result(1, 0.5, "")]);
}

#[test]
fn cluster_status_joins_the_replies() {
    let reply = |names: &[&str], vector_count: u32| {
        Some(ClusterStatusResponse {
            collections: names.iter().map(|n| n.to_string()).collect(),
            vector_count,
        })
    };
    let (mut names, total) =
        cluster_status(vec![reply(&["a", "b"], 3), None, reply(&["b", "c"], 4)]);
    names.sort();
    assert_eq!(names, vec!["a", "b", "c"]);
    assert_eq!(total, 7);
    let joined = AggregatorService::cluster_status_reply((names, total));
    assert_eq!(joined.vector_count, 7);
    assert_eq!(joined.collections.len(), 3);
}

fn replicas(n: usize) -> ShardReplicaSet {
    ShardReplicaSet { addrs: (0..n).map(|i| format!("http://r{i}")).collect(), leader_hint: 0 }
}

fn retried(step: LeaderStep) -> LeaderCall {
    match step {
        LeaderStep::Retry(call) => call,
        other => panic!("expected another attempt, got {other:?}"),
    }
}

#[test]
fn search_skips_an_unresponsive_replica_instead_of_burning_the_whole_deadline() {
    let addrs = vec![vec!["http://hanging".to_string(), "http://healthy".to_string()]];
    let mut router = ShardRouter::new(addrs, 2000);
    let attempt_timeout = router.shards[0].attempt_timeout_us(router.deadline_ms) / 1000;
    assert_eq!(attempt_timeout, 1000);
    for attempt in 1..=3 {
        let mut elapsed = 0;
        let shard = &mut router.shards[0];
        let mut call = shard.begin();
        let answer = loop {
            if call.idx == 0 {
                elapsed += attempt_timeout;
                call = retried(shard.timed_out(call));
            } else {
                assert_eq!(shard.replied(call, &String::new()), LeaderStep::Done);
                break SearchResponse {
                    results: vec![result(42, 1.0, "")],
                    shards_queried: 1,
                    shards_failed: 0,
                    leader_hint: String::new(),
                };
            }
        };
        let (results, shards_queried, shards_failed) = gather(vec![Some(answer)], 1);
        assert_eq!(shards_queried, 1);
        assert_eq!(shards_failed, 0);
        assert_eq!(results.len(), 1, "attempt {attempt}: expected the healthy replica's result");
        assert!(elapsed < 2000);
        if attempt > 1 {
            assert_eq!(elapsed, 0);
        }
    }
}

#[test]
fn calls_follow_hints_to_the_leader() {
    let mut shard = replicas(3);
    let call = shard.begin();
    assert_eq!(call.idx, 0);
    let call = retried(shard.replied(call, &"http://r2".to_string()));
    assert_eq!(call.idx, 2);
    assert_eq!(shard.leader_hint, 2);
    let call = retried(shard.replied(call, &"http://elsewhere".to_string()));
    assert_eq!(call.idx, 0);
    assert_eq!(shard.replied(call, &String::new()), LeaderStep::Done);
    assert_eq!(shard.leader_hint, 0);
}

#[test]
fn calls_give_up_after_their_attempts() {
    let mut shard = replicas(3);
    let mut call = shard.begin();
    for i in 1..MAX_LEADER_ATTEMPTS {
        let status = Status::new(Code::Unavailable, format!("down {i}"));
        call = retried(shard.failed(call, status));
        assert_eq!(call.idx, i % 3);
    }
    let last = Status::new(Code::Unavailable, "down 3".to_string());
    assert_eq!(shard.timed_out(call), LeaderStep::GiveUp(RouterError::Rpc(last)));

    let mut call = shard.begin();
    for _ in 1..MAX_LEADER_ATTEMPTS {
        call = retried(shard.timed_out(call));
    }
    assert_eq!(shard.timed_out(call), LeaderStep::GiveUp(RouterError::ShardUnreachable));
}

#[test]
fn connections_are_tried_ten_times() {
    assert_eq!(CONNECT_MAX_ATTEMPTS, 10);
    for failed in 1..10 {
        assert_eq!(connect_with_retry(failed), ConnectStep::RetryAfter(500));
    }
    assert_eq!(connect_with_retry(10), ConnectStep::GiveUp);
}

#[test]
fn routing_errors_are_reported() {
    let connect = RouterError::Connect { addr: "http://a".to_string(), source: "no".to_string() };
    let status = connect.into_status();
    assert_eq!(status.code, Code::Unavailable);
    assert_eq!(status.message, "failed to connect to shard replica at http://a: no");
    let status = AggregatorService::insert_reply(Err(RouterError::ShardUnreachable)).unwrap_err();
    assert_eq!(status.code, Code::Unavailable);
    assert_eq!(status.message, "no replica of this shard responded");
    let rpc = RouterError::Rpc(Status::new(Code::DataLoss, "gone".to_string()));
    let status = AggregatorService::delete_reply(Err(rpc)).unwrap_err();
    assert_eq!(status, Status::new(Code::DataLoss, "gone".to_string()));
    assert_eq!(AggregatorService::insert_reply(Ok(5)).unwrap().inserted, 5);
    assert_eq!(AggregatorService::delete_reply(Ok(6)).unwrap().deleted, 6);
    assert!(AggregatorService::create_collection_reply(Ok(())).unwrap().created);
}

#[test]
fn leadership_comes_from_the_membership() {
    let node = NodeService::new(2);
    let mut members = BTreeMap::new();
    members.insert(1u64, "http://one".to_string());
    members.insert(2u64, "http://two".to_string());
    assert_eq!(node.leadership(Some(2), &members), Leadership::IAmLeader);
    assert_eq!(
        node.leadership(Some(1), &members),
        Leadership::Redirect("http://one".to_string())
    );
    assert_eq!(node.leadership(Some(3), &members), Leadership::Unknown);
    assert_eq!(node.leadership(None, &members), Leadership::Unknown);
}

#[test]
fn only_a_believed_leader_goes_on_with_a_search() {
    assert_eq!(NodeService::admit_search(Leadership::IAmLeader), Admission::Confirm);
    match NodeService::admit_search(Leadership::Unknown) {
        Admission::Refuse(status) => {
            assert_eq!(status.code, Code::Unavailable);
            assert_eq!(status.message, "no leader currently known for this shard");
        }
        other => panic!("{other:?}"),
    }
    match NodeService::admit_search(Leadership::Redirect("http://x".to_string())) {
        Admission::Reply(reply) => {
            assert_eq!(reply.leader_hint, "http://x");
            assert!(reply.results.is_empty());
            assert_eq!((reply.shards_queried, reply.shards_failed), (0, 0));
        }
        other => panic!("{other:?}"),
    }
}

#[test]
fn isolated_former_leader_refuses_reads_after_losing_quorum() {
    let mut store = new_store();
    store.create_collection("docs", 4, 1).unwrap();
    store.insert("docs", vec![rec(1, &[1.0, 0.0, 0.0, 0.0])]).unwrap();
    let node = NodeService::new(1);
    let query = [1.0, 0.0, 0.0, 0.0];
    let status = node
        .search(&store, &Err("not enough votes".to_string()), request("docs", &query, 1))
        .unwrap_err();
    assert_eq!(status.code, Code::Unavailable);
    assert_eq!(
        status.message,
        "cannot confirm current leadership (lost quorum?): not enough votes"
    );
    let reply = node.search(&store, &Ok(()), request("docs", &query, 1)).unwrap();
    assert_eq!(reply.results.len(), 1);
}

#[test]
fn searches_reply_with_metadata_or_the_stores_refusal() {
    let node = NodeService::new(1);
    let mut store = new_store();
    let create = |name: &str| CreateCollectionRequest {
        name: name.to_string(),
        dim: 2,
        shard_count: 1,
    };
    assert!(node.create_collection(&mut store, create("docs")).unwrap().created);
    let status = node.create_collection(&mut store, create("docs")).unwrap_err();
    assert_eq!(
        status,
        Status::new(Code::AlreadyExists, "collection 'docs' already exists".to_string())
    );
    let mut metadata = HashMap::new();
    metadata.insert("title".to_string(), "first".to_string());
    let titled = VectorRecord::new(1, bits(&[1.0, 0.0]), metadata);
    store.insert("docs", vec![titled, rec(2, &[0.0, 1.0])]).unwrap();

    let reply = node.search(&store, &Ok(()), request("docs", &[1.0, 0.0], 5)).unwrap();
    assert_eq!(reply.results, vec![result(1, 1.0, "first"), result(2, 0.0, "")]);
    assert_eq!((reply.shards_queried, reply.shards_failed), (1, 0));
    assert_eq!(reply.leader_hint, "");

    let status = node.search(&store, &Ok(()), request("nope", &[1.0], 5)).unwrap_err();
    assert_eq!(status, Status::new(Code::NotFound, "collection 'nope' not found".to_string()));
    let status = node.search(&store, &Ok(()), request("docs", &[1.0], 5)).unwrap_err();
    assert_eq!(status.code, Code::InvalidArgument);
    assert_eq!(status.message, "embedding has dimension 1, expected 2");
    assert_eq!(node.cluster_status(&store).vector_count, 2);
}

#[test]
fn writes_become_commands_and_their_outcomes_replies() {
    let (command, count) = NodeService::insert_command(InsertRequest {
        collection: "docs".to_string(),
        records: vec![rec(1, &[1.0]), rec(2, &[1.0])],
    });
    assert_eq!(count, 2);
    assert!(matches!(command, ShardCommand::Upsert { ref records, .. } if records.len() == 2));
    let (command, count) =
        NodeService::delete_command(DeleteRequest { collection: "docs".to_string(), ids: vec![7] });
    assert_eq!(count, 1);
    assert!(matches!(command, ShardCommand::Delete { ref ids, .. } if *ids == vec![7]));

    assert_eq!(
        NodeService::insert_reply(2, Ok(ShardCommandResponse { applied: true })),
        Ok(InsertResponse { inserted: 2, leader_hint: String::new() })
    );
    let forward = || WriteError::ForwardToLeader { leader_addr: Some("http://l".to_string()) };
    assert_eq!(
        NodeService::insert_reply(2, Err(forward())),
        Ok(InsertResponse { inserted: 0, leader_hint: "http://l".to_string() })
    );
    let reply = NodeService::delete_reply(1, Err(forward())).unwrap();
    assert_eq!((reply.deleted, reply.leader_hint.as_str()), (0, "http://l"));
    let lost = WriteError::ForwardToLeader { leader_addr: None };
    let status = NodeService::delete_reply(1, Err(lost)).unwrap_err();
    assert_eq!(status.code, Code::Unavailable);
    let other = WriteError::Other("fatal".to_string());
    let status = NodeService::write_error_to_hint(other).unwrap_err();
    assert_eq!(status, Status::new(Code::Internal, "fatal".to_string()));
}

#[test]
fn status_is_asked_of_each_replica_in_turn() {
    let shard = replicas(2);
    assert_eq!(shard.next_to_ask(0), Some(0));
    assert_eq!(shard.next_to_ask(1), Some(1));
    assert_eq!(shard.next_to_ask(2), None);
}

#[test]
fn refused_inserts_are_not_acknowledged() {
    let mut cluster = Cluster::new();
    assert_eq!(cluster.insert("nope", vec![rec(1, &[1.0])]), Ok(0));
    assert_eq!(cluster.delete("nope", vec![1]), Ok(1));
    cluster.create_collection("docs", 1).unwrap();
    assert_eq!(cluster.insert("docs", vec![rec(1, &[1.0, 2.0])]), Ok(0));
    assert_eq!(cluster.insert("docs", vec![rec(1, &[1.0])]), Ok(1));
    assert_eq!(cluster.delete("docs", vec![1, 2]), Ok(2));
    assert_eq!(
        NodeService::insert_reply(3, Ok(ShardCommandResponse { applied: false })),
        Ok(InsertResponse { inserted: 0, leader_hint: String::new() })
    );
    let reply = NodeService::delete_reply(3, Ok(ShardCommandResponse { applied: false })).unwrap();
    assert_eq!((reply.deleted, reply.leader_hint.as_str()), (3, ""));
    assert!(cluster.search("docs", &[1.0], 5).0.is_empty());
}

#[test]
fn attempts_share_the_deadline_among_the_replicas() {
    assert_eq!(replicas(1).attempt_timeout_us(2000), 2_000_000);
    assert_eq!(replicas(2).attempt_timeout_us(2000), 1_000_000);
    assert_eq!(replicas(3).attempt_timeout_us(2000), 666_666);
    assert_eq!(replicas(4).attempt_timeout_us(1), 250);
    assert_eq!(replicas(9).attempt_timeout_us(1), 250);
    assert_eq!(replicas(3).attempt_timeout_us(0), 0);
    assert_eq!(replicas(1).attempt_timeout_us(u64::MAX), u64::MAX);
}

#[test]
fn failures_and_redirects_lead_to_the_leader() {
    for start in 0..4 {
        for leader in 0..4 {
            for pattern in 0..8u32 {
                let mut shard = replicas(4);
                shard.leader_hint = start;
                let hint = format!("http://r{leader}");
                let mut call = shard.begin();
                let mut attempts = 1;
                while call.idx != leader {
                    let step = match (pattern >> attempts.min(3)) & 1 {
                        0 => shard.replied(call, &hint),
                        _ if attempts % 2 == 0 => shard.timed_out(call),
                        _ => shard.failed(call, Status::new(Code::Unavailable, String::new())),
                    };
                    call = retried(step);
                    attempts += 1;
                }
                assert!(attempts <= 4);
                assert_eq!(shard.replied(call, &String::new()), LeaderStep::Done);
                assert_eq!(shard.begin().idx, leader);
            }
        }
    }
}
