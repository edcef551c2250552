use rand::rngs::StdRng;
use rand::{Rng, SeedableRng};
use raftvec::record::{ScoredId, VectorRecord};
use raftvec::similarity::{cosine_similarity, Kernel};
use raftvec::store::{CollectionSnapshot, Store, StoreError, StoreSnapshot};
use std::collections::HashMap;

type Op = fn(u32, u32, u32) -> u32;

fn mul_acc(acc: u32, x: u32, y: u32) -> u32 {
    (f32::from_bits(acc) + f32::from_bits(x) * f32::from_bits(y)).to_bits()
}

fn quotient(dot: u32, a: u32, b: u32) -> u32 {
    (f32::from_bits(dot) / (f32::from_bits(a).sqrt() * f32::from_bits(b).sqrt())).to_bits()
}

fn kernel() -> Kernel<Op, Op> {
    Kernel { mul_acc, quotient }
}

fn bits(v: &[f32]) -> Vec<u32> {
    v.iter().map(|x| x.to_bits()).collect()
}

fn new_store() -> Store<Op, Op> {
    Store::new(kernel())
}

fn rec(id: u64, embedding: &[f32]) -> VectorRecord {
    VectorRecord::new(id, bits(embedding), HashMap::new())
}

fn titled(id: u64, embedding: &[f32], title: &str) -> VectorRecord {
    let mut metadata = HashMap::new();
    metadata.insert("title".to_string(), title.to_string());
    VectorRecord::new(id, bits(embedding), metadata)
}

fn random_vector(rng: &mut StdRng, dim: usize) -> Vec<f32> {
    (0..dim).map(|_| rng.gen_range(-1.0..1.0)).collect()
}

#[test]
fn insert_then_search_finds_exact_match() {
    let mut store = new_store();
    store.create_collection("docs", 2, 1).unwrap();
    store.insert("docs", vec![rec(1, &[1.0, 0.0]), rec(2, &[0.0, 1.0])]).unwrap();

    let results = store.search("docs", &bits(&[1.0, 0.0]), 1).unwrap();
    assert_eq!(results[0].id, 1);
}

#[test]
fn dimension_mismatch_rejected() {
    let mut store = new_store();
    store.create_collection("docs", 3, 1).unwrap();
    let err = store.insert("docs", vec![rec(1, &[1.0, 0.0])]).unwrap_err();
    assert_eq!(err, StoreError::DimensionMismatch { expected: 3, actual: 2 });
}

#[test]
fn delete_removes_from_search_results() {
    let mut store = new_store();
    store.create_collection("docs", 2, 1).unwrap();
    store.insert("docs", vec![rec(1, &[1.0, 0.0])]).unwrap();
    assert_eq!(store.delete("docs", &[1]).unwrap(), 1);
    let results = store.search("docs", &bits(&[1.0, 0.0]), 5).unwrap();
    assert!(results.is_empty());
}

#[test]
fn duplicate_collection_rejected() {
    let mut store = new_store();
    store.create_collection("docs", 2, 1).unwrap();
    let err = store.create_collection("docs", 2, 1).unwrap_err();
    assert_eq!(err, StoreError::CollectionExists("docs".to_string()));
}

#[test]
fn unknown_collection_errors_on_search() {
    let store = new_store();
    let err = store.search("nope", &bits(&[1.0]), 1).unwrap_err();
    assert_eq!(err, StoreError::CollectionNotFound("nope".to_string()));
}

#[test]
fn snapshot_restore_round_trip_preserves_data() {
    let mut store = new_store();
    store.create_collection("docs", 2, 3).unwrap();
    store.insert("docs", vec![rec(1, &[1.0, 0.0]), rec(2, &[0.0, 1.0])]).unwrap();

    let snapshot = store.snapshot();

    let mut restored = new_store();
    restored.restore(snapshot);

    let results = restored.search("docs", &bits(&[1.0, 0.0]), 2).unwrap();
    assert_eq!(results.len(), 2);
    assert_eq!(results[0].id, 1);
    let (names, count) = restored.cluster_status();
    assert_eq!(names, vec!["docs".to_string()]);
    assert_eq!(count, 2);
}

fn oracle_search(records: &[(u64, Vec<f32>)], query: &[f32], k: usize) -> Vec<(u64, f32)> {
    let mut scored: Vec<(u64, f32)> = records
        .iter()
        .map(|(id, emb)| {
            (*id, f32::from_bits(cosine_similarity(&bits(emb), &bits(query), &kernel())))
        })
        .collect();
    scored.sort_by(|a, b| b.1.total_cmp(&a.1).then_with(|| a.0.cmp(&b.0)));
    scored.truncate(k);
    scored
}

fn assert_matches_oracle(actual: &[ScoredId], expected: &[(u64, f32)]) {
    assert_eq!(
        actual.len(),
        expected.len(),
        "result count mismatch: got {}, expected {}",
        actual.len(),
        expected.len()
    );
    for (a, e) in actual.iter().zip(expected.iter()) {
        assert_eq!(a.id, e.0, "ranked id mismatch");
        let score = f32::from_bits(a.score);
        assert!(
            (score - e.1).abs() < 1e-5,
            "score mismatch for id {}: got {}, expected {}",
            a.id,
            score,
            e.1
        );
    }
}

#[test]
fn store_search_matches_oracle_on_random_corpus() {
    let mut rng = StdRng::seed_from_u64(42);
    let dim = 32;
    let n = 5_000u64;
    let k = 10;

    let mut store = new_store();
    store.create_collection("docs", dim, 1).unwrap();

    let mut reference: Vec<(u64, Vec<f32>)> = Vec::with_capacity(n as usize);
    let mut records = Vec::with_capacity(n as usize);
    for id in 0..n {
        let emb = random_vector(&mut rng, dim);
        records.push(rec(id, &emb));
        reference.push((id, emb));
    }
    store.insert("docs", records).unwrap();

    for _ in 0..20 {
        let query = random_vector(&mut rng, dim);
        let expected = oracle_search(&reference, &query, k);
        let actual = store.search("docs", &bits(&query), k).unwrap();
        assert_matches_oracle(&actual, &expected);
    }
}

#[test]
fn store_search_matches_oracle_after_deletes() {
    let mut rng = StdRng::seed_from_u64(7);
    let dim = 16;
    let n = 2_000u64;
    let k = 5;

    let mut store = new_store();
    store.create_collection("docs", dim, 1).unwrap();

    let mut reference: Vec<(u64, Vec<f32>)> = Vec::with_capacity(n as usize);
    let mut records = Vec::with_capacity(n as usize);
    for id in 0..n {
        let emb = random_vector(&mut rng, dim);
        records.push(rec(id, &emb));
        reference.push((id, emb));
    }
    store.insert("docs", records).unwrap();

    let deleted_ids: Vec<u64> = (0..n).step_by(3).collect();
    store.delete("docs", &deleted_ids).unwrap();
    reference.retain(|(id, _)| !deleted_ids.contains(id));

    for _ in 0..10 {
        let query = random_vector(&mut rng, dim);
        let expected = oracle_search(&reference, &query, k);
        let actual = store.search("docs", &bits(&query), k).unwrap();
        assert_matches_oracle(&actual, &expected);
    }
}

#[test]
fn store_search_matches_oracle_with_duplicate_scores() {
    let mut store = new_store();
    store.create_collection("docs", 2, 1).unwrap();

    let reference: Vec<(u64, Vec<f32>)> =
        vec![(3, vec![1.0, 0.0]), (1, vec![1.0, 0.0]), (2, vec![1.0, 0.0])];
    let records: Vec<VectorRecord> = reference.iter().map(|(id, emb)| rec(*id, emb)).collect();
    store.insert("docs", records).unwrap();

    let query = vec![1.0, 0.0];
    let expected = oracle_search(&reference, &query, 3);
    let actual = store.search("docs", &bits(&query), 3).unwrap();
    assert_matches_oracle(&actual, &expected);
    assert_eq!(actual.iter().map(|s| s.id).collect::<Vec<_>>(), vec![1, 2, 3]);
}

#[test]
fn refused_insert_writes_nothing() {
    let mut store = new_store();
    store.create_collection("docs", 2, 1).unwrap();
    let err = store
        .insert("docs", vec![rec(1, &[1.0, 0.0]), rec(2, &[1.0]), rec(3, &[])])
        .unwrap_err();
    assert_eq!(err, StoreError::DimensionMismatch { expected: 2, actual: 1 });
    assert_eq!(store.cluster_status().1, 0);
    let err = store.insert("other", vec![]).unwrap_err();
    assert_eq!(err, StoreError::CollectionNotFound("other".to_string()));
}

#[test]
fn last_write_of_an_id_is_read_back() {
    let mut store = new_store();
    store.create_collection("docs", 1, 0).unwrap();
    let batch = || vec![titled(1, &[1.0], "a"), titled(2, &[2.0], "b"), titled(1, &[3.0], "c")];
    assert_eq!(store.insert("docs", batch()).unwrap(), 3);
    assert_eq!(store.get_metadata("docs", 1).unwrap()["title"], "c");
    assert_eq!(store.get_metadata("docs", 2).unwrap()["title"], "b");
    assert_eq!(store.get_metadata("docs", 3), None);
    assert_eq!(store.get_metadata("nope", 1), None);
    assert_eq!(store.cluster_status(), (vec!["docs".to_string()], 2));

    assert_eq!(store.insert("docs", batch()).unwrap(), 3);
    assert_eq!(store.cluster_status().1, 2);
    assert_eq!(store.get_metadata("docs", 1).unwrap()["title"], "c");
}

#[test]
fn deletes_count_what_was_there() {
    let mut store = new_store();
    store.create_collection("docs", 1, 1).unwrap();
    store.create_collection("more", 1, 1).unwrap();
    store.insert("docs", vec![rec(1, &[1.0]), rec(2, &[1.0]), rec(3, &[1.0])]).unwrap();
    store.insert("more", vec![rec(1, &[1.0])]).unwrap();
    assert_eq!(store.delete("docs", &[1, 1, 9, 3]).unwrap(), 2);
    assert_eq!(store.delete("docs", &[1, 1, 9, 3]).unwrap(), 0);
    assert_eq!(store.cluster_status().1, 2);
    let left = store.search("docs", &bits(&[1.0]), 9).unwrap();
    assert_eq!(left.iter().map(|s| s.id).collect::<Vec<_>>(), vec![2]);
    let err = store.delete("nope", &[1]).unwrap_err();
    assert_eq!(err, StoreError::CollectionNotFound("nope".to_string()));
}

#[test]
fn search_checks_the_query_dimension() {
    let mut store = new_store();
    store.create_collection("docs", 2, 1).unwrap();
    let err = store.search("docs", &bits(&[1.0, 2.0, 3.0]), 1).unwrap_err();
    assert_eq!(err, StoreError::DimensionMismatch { expected: 2, actual: 3 });
}

#[test]
fn a_shard_count_of_zero_counts_as_one() {
    let mut store = new_store();
    store.create_collection("docs", 2, 0).unwrap();
    store.create_collection("more", 2, 5).unwrap();
    let snapshot = store.snapshot();
    let counts: HashMap<String, u32> =
        snapshot.collections.iter().map(|c| (c.name.clone(), c.shard_count)).collect();
    assert_eq!(counts["docs"], 1);
    assert_eq!(counts["more"], 5);
}

#[test]
fn restore_replaces_everything() {
    let mut store = new_store();
    store.create_collection("old", 2, 1).unwrap();
    let snap = |title: &str| CollectionSnapshot {
        name: "docs".to_string(),
        dim: 1,
        shard_count: 2,
        vectors: vec![titled(1, &[1.0], title), titled(1, &[2.0], "later")],
    };
    store.restore(StoreSnapshot { collections: vec![snap("x")] });
    assert_eq!(store.cluster_status(), (vec!["docs".to_string()], 1));
    assert_eq!(store.get_metadata("docs", 1).unwrap()["title"], "later");
    store.restore(StoreSnapshot::default());
    assert_eq!(store.cluster_status(), (vec![], 0));
}

#[test]
fn error_messages_name_what_was_refused() {
    assert_eq!(
        StoreError::CollectionExists("a".to_string()).message(),
        "collection 'a' already exists"
    );
    assert_eq!(
        StoreError::CollectionNotFound("b".to_string()).message(),
        "collection 'b' not found"
    );
    assert_eq!(
        StoreError::DimensionMismatch { expected: 384, actual: 10 }.message(),
        "embedding has dimension 10, expected 384"
    );
    assert_eq!(
        StoreError::DimensionMismatch { expected: 0, actual: usize::MAX }.message(),
        format!("embedding has dimension {}, expected 0", usize::MAX)
    );
}

#[test]
fn restored_stores_answer_as_their_source() {
    let mut source = new_store();
    source.create_collection("docs", 2, 3).unwrap();
    source.create_collection("empty", 1, 1).unwrap();
    let records = (0..50).map(|i| titled(i, &[i as f32 - 20.0, 3.0], &format!("t{i}"))).collect();
    source.insert("docs", records).unwrap();

    let mut target = new_store();
    target.create_collection("docs", 5, 1).unwrap();
    target.create_collection("gone", 1, 1).unwrap();
    target.insert("gone", vec![rec(1, &[1.0])]).unwrap();
    target.restore(source.snapshot());

    for name in ["docs", "empty", "gone"] {
        for query in [&[1.0, 2.0][..], &[1.0][..]] {
            for k in [0, 3, 100] {
                assert_eq!(
                    target.search(name, &bits(query), k),
                    source.search(name, &bits(query), k)
                );
            }
        }
        for id in [0, 49, 50] {
            assert_eq!(target.get_metadata(name, id), source.get_metadata(name, id));
        }
    }
    let (mut names, total) = target.cluster_status();
    names.sort();
    assert_eq!((names, total), (vec!["docs".to_string(), "empty".to_string()], 50));
    let err = target.insert("docs", vec![rec(1, &[1.0])]).unwrap_err();
    assert_eq!(err, StoreError::DimensionMismatch { expected: 2, actual: 1 });
}
