use raftvec::record::{ScoredId, VectorRecord};
use raftvec::search::brute_force_top_k;
use raftvec::sharding::shard_id;
use raftvec::similarity::{cosine_from_norm_sq, cosine_similarity, norm_sq, Kernel};
use raftvec::topk::{bounded_top_k, merge_top_k, TopK};
use std::cmp::Ordering;
use std::collections::HashMap;

type Op = fn(u32, u32, u32) -> u32;

fn mul_acc(acc: u32, x: u32, y: u32) -> u32 {
    (f32::from_bits(acc) + f32::from_bits(x) * f32::from_bits(y)).to_bits()
}

fn quotient(dot: u32, a: u32, b: u32) -> u32 {
    (f32::from_bits(dot) / (f32::from_bits(a).sqrt() * f32::from_bits(b).sqrt())).to_bits()
}

fn kernel() -> Kernel<Op, Op> {
    Kernel { mul_acc, quotient }
}

fn bits(v: &[f32]) -> Vec<u32> {
    v.iter().map(|x| x.to_bits()).collect()
}

fn sid(id: u64, score: f32) -> ScoredId {
    ScoredId { id, score: score.to_bits() }
}

fn rec(id: u64, embedding: &[f32]) -> VectorRecord {
    VectorRecord::new(id, bits(embedding), HashMap::new())
}

fn cosine(a: &[f32], b: &[f32]) -> f32 {
    f32::from_bits(cosine_similarity(&bits(a), &bits(b), &kernel()))
}

#[test]
fn identical_vectors_score_one() {
    let v = vec![1.0, 2.0, 3.0];
    assert!((cosine(&v, &v) - 1.0).abs() < 1e-6);
}

#[test]
fn orthogonal_vectors_score_zero() {
    let a = vec![1.0, 0.0];
    let b = vec![0.0, 1.0];
    assert!(cosine(&a, &b).abs() < 1e-6);
}

#[test]
fn opposite_vectors_score_negative_one() {
    let a = vec![1.0, 0.0];
    let b = vec![-1.0, 0.0];
    assert!((cosine(&a, &b) - (-1.0)).abs() < 1e-6);
}

#[test]
fn zero_vector_scores_zero() {
    let a = vec![0.0, 0.0];
    let b = vec![1.0, 1.0];
    assert_eq!(cosine(&a, &b), 0.0);
}

#[test]
fn scale_invariant() {
    let a = vec![1.0, 2.0, 3.0];
    let b = vec![2.0, 4.0, 6.0];
    assert!((cosine(&a, &b) - 1.0).abs() < 1e-6);
}

#[test]
fn squared_norm_is_the_sum_of_squares() {
    assert_eq!(f32::from_bits(norm_sq(&bits(&[3.0, 4.0]), &kernel())), 25.0);
    assert_eq!(norm_sq(&[], &kernel()), 0);
}

#[test]
fn cached_norms_of_either_zero_score_zero() {
    let a = bits(&[1.0, 1.0]);
    let one = 1.0f32.to_bits();
    assert_eq!(cosine_from_norm_sq(&a, &a, 0.0f32.to_bits(), one, &kernel()), 0);
    assert_eq!(cosine_from_norm_sq(&a, &a, one, (-0.0f32).to_bits(), &kernel()), 0);
}

#[test]
fn cosine_from_norms_is_the_quotient() {
    let r = cosine_from_norm_sq(
        &bits(&[3.0, 4.0]),
        &bits(&[4.0, 3.0]),
        25.0f32.to_bits(),
        25.0f32.to_bits(),
        &kernel(),
    );
    assert_eq!(f32::from_bits(r), 0.96);
}

#[test]
fn longer_vector_is_cut_off() {
    let r = cosine_from_norm_sq(
        &bits(&[2.0, 7.0]),
        &bits(&[3.0]),
        4.0f32.to_bits(),
        9.0f32.to_bits(),
        &kernel(),
    );
    assert_eq!(f32::from_bits(r), 1.0);
}

#[test]
fn returns_k_best_sorted_descending() {
    let items = vec![sid(1, 0.1), sid(2, 0.9), sid(3, 0.5), sid(4, 0.7)];
    let top2 = bounded_top_k(items, 2);
    assert_eq!(top2, vec![sid(2, 0.9), sid(4, 0.7)]);
}

#[test]
fn k_larger_than_input_returns_all() {
    let items = vec![sid(1, 0.1), sid(2, 0.9)];
    let top = bounded_top_k(items, 10);
    assert_eq!(top.len(), 2);
}

#[test]
fn k_zero_returns_empty() {
    let items = vec![sid(1, 0.1)];
    assert!(bounded_top_k(items, 0).is_empty());
}

#[test]
fn ties_break_by_lower_id_first() {
    let items = vec![sid(5, 0.5), sid(2, 0.5), sid(8, 0.5)];
    let top = bounded_top_k(items, 3);
    assert_eq!(top, vec![sid(2, 0.5), sid(5, 0.5), sid(8, 0.5)]);
}

#[test]
fn merge_of_disjoint_shard_results_matches_single_scan() {
    let shard_a = vec![sid(1, 0.9), sid(2, 0.3)];
    let shard_b = vec![sid(3, 0.8), sid(4, 0.1)];
    let merged = merge_top_k(vec![shard_a, shard_b], 2);
    assert_eq!(merged, vec![sid(1, 0.9), sid(3, 0.8)]);
}

#[test]
fn merged_heaps_keep_the_best_of_both() {
    let mut a = TopK::new(3);
    let mut b = TopK::new(3);
    for i in 0..20u64 {
        a.push(sid(i, i as f32));
        b.push(sid(100 + i, i as f32 + 0.5));
    }
    let top = a.merge(b).into_sorted_vec();
    assert_eq!(top, vec![sid(119, 19.5), sid(19, 19.0), sid(118, 18.5)]);
}

#[test]
fn heap_sorts_every_order_of_its_input() {
    for step in [1u64, 7, 11, 13, 17] {
        let mut top = TopK::new(40);
        for i in 0..40u64 {
            let id = (i * step) % 41;
            top.push(sid(id, (id % 5) as f32));
        }
        let sorted = top.into_sorted_vec();
        assert_eq!(sorted.len(), 40);
        for pair in sorted.windows(2) {
            assert_ne!(pair[0].cmp(&pair[1]), Ordering::Less);
        }
    }
}

#[test]
fn scores_order_as_floating_point_totals() {
    let scores = [
        -f32::NAN,
        f32::NEG_INFINITY,
        -2.5,
        -1.0e-40,
        -0.0,
        0.0,
        1.0e-40,
        0.5,
        f32::INFINITY,
        f32::NAN,
    ];
    for a in scores {
        for b in scores {
            let (x, y) = (sid(1, a), sid(1, b));
            assert_eq!(x.cmp(&y), a.total_cmp(&b), "{a} against {b}");
            assert_eq!(x.partial_cmp(&y), Some(a.total_cmp(&b)));
            assert_eq!(x.ranks_above(&y), a.total_cmp(&b) == Ordering::Greater);
            assert_eq!(x == y, a == b, "{a} == {b}");
        }
    }
    assert_eq!(sid(1, 0.5).cmp(&sid(2, 0.5)), Ordering::Greater);
    assert_eq!(sid(2, 0.5).cmp(&sid(1, 0.5)), Ordering::Less);
    assert_eq!(sid(2, 0.5).cmp(&sid(2, 0.5)), Ordering::Equal);
}

#[test]
fn finds_exact_match_first() {
    let records = [rec(1, &[1.0, 0.0]), rec(2, &[0.0, 1.0]), rec(3, &[0.9, 0.1])];
    let refs: Vec<(&VectorRecord, u32)> =
        records.iter().map(|r| (r, norm_sq(&r.embedding, &kernel()))).collect();
    let top = brute_force_top_k(&refs, &bits(&[1.0, 0.0]), 2, &kernel());
    assert_eq!(top[0].id, 1);
    assert!((f32::from_bits(top[0].score) - 1.0).abs() < 1e-6);
}

#[test]
fn cached_norm_scan_is_bit_identical_to_direct_cosine() {
    let records: Vec<VectorRecord> = (0..100u64)
        .map(|i| {
            let embedding: Vec<f32> = (0..64).map(|j| ((i * 64 + j) as f32).sin()).collect();
            rec(i, &embedding)
        })
        .collect();
    let query: Vec<f32> = (0..64).map(|j| (j as f32).cos()).collect();
    let query = bits(&query);
    let refs: Vec<(&VectorRecord, u32)> =
        records.iter().map(|r| (r, norm_sq(&r.embedding, &kernel()))).collect();

    let top = brute_force_top_k(&refs, &query, 100, &kernel());
    assert_eq!(top.len(), 100);
    for scored in top {
        let direct = cosine_similarity(&records[scored.id as usize].embedding, &query, &kernel());
        assert_eq!(scored.score, direct);
    }
}

#[test]
fn parallel_scan_equals_a_sequential_sort() {
    let records: Vec<VectorRecord> = (0..3000u64)
        .map(|i| rec(i, &[((i * 37) % 101) as f32, ((i * 53) % 89) as f32 + 1.0]))
        .collect();
    let query = bits(&[2.0, 5.0]);
    let refs: Vec<(&VectorRecord, u32)> =
        records.iter().map(|r| (r, norm_sq(&r.embedding, &kernel()))).collect();
    let mut want: Vec<ScoredId> = records
        .iter()
        .map(|r| ScoredId {
            id: r.id,
            score: cosine_similarity(&r.embedding, &query, &kernel()),
        })
        .collect();
    want.sort_by(|a, b| b.cmp(a));
    for k in [0usize, 1, 10, 2999, 3000, 5000] {
        let got = brute_force_top_k(&refs, &query, k, &kernel());
        assert_eq!(got, want[..k.min(3000)].to_vec());
    }
    assert!(brute_force_top_k(&[], &query, 5, &kernel()).is_empty());
}

#[test]
fn deterministic_for_same_id() {
    assert_eq!(shard_id(42, 4), shard_id(42, 4));
}

#[test]
fn always_in_range() {
    for id in 0..10_000u64 {
        assert!(shard_id(id, 7) < 7);
    }
}

#[test]
#[should_panic]
fn zero_shards_panics() {
    shard_id(1, 0);
}

#[test]
fn roughly_balanced_across_shards() {
    let shard_count = 4u32;
    let n = 100_000u64;
    let mut counts: HashMap<u32, u64> = HashMap::new();
    for id in 0..n {
        *counts.entry(shard_id(id, shard_count)).or_insert(0) += 1;
    }
    let expected = n / shard_count as u64;
    for shard in 0..shard_count {
        let count = *counts.get(&shard).unwrap_or(&0);
        let deviation = (count as f64 - expected as f64).abs() / expected as f64;
        assert!(deviation < 0.10, "shard {shard} skewed: {count} vs expected {expected}");
    }
}

#[test]
fn shards_follow_the_fx_hash() {
    if usize::BITS == 64 {
        let shards: Vec<u32> = (0..12u64).map(|id| shard_id(id, 4)).collect();
        assert_eq!(shards, vec![0, 3, 3, 2, 2, 2, 1, 1, 1, 0, 0, 0]);
        for id in [0u64, 1, 2, 77, 1 << 40, u64::MAX] {
            let hash = id.wrapping_mul(0xf135_7aea_2e62_a9c5).rotate_left(26);
            assert_eq!(shard_id(id, u32::MAX) as u64, hash % u32::MAX as u64);
        }
    }
}

#[test]
fn records_keep_what_they_are_made_of() {
    let mut metadata = HashMap::new();
    metadata.insert("title".to_string(), "a".to_string());
    let record = VectorRecord::new(7, bits(&[1.5]), metadata.clone());
    let copy = record.clone();
    assert_eq!(copy.id, 7);
    assert_eq!(copy.embedding, vec![1.5f32.to_bits()]);
    assert_eq!(copy.metadata, metadata);
}

#[test]
fn scan_order_makes_no_difference() {
    let records: Vec<VectorRecord> = (0..500u64)
        .map(|i| rec(i, &[(i % 7) as f32, (i % 3) as f32, 1.0]))
        .collect();
    let query = bits(&[1.0, 2.0, 3.0]);
    let refs: Vec<(&VectorRecord, u32)> =
        records.iter().map(|r| (r, norm_sq(&r.embedding, &kernel()))).collect();
    let want = brute_force_top_k(&refs, &query, 40, &kernel());
    let reversed: Vec<(&VectorRecord, u32)> = refs.iter().rev().cloned().collect();
    let strided: Vec<(&VectorRecord, u32)> = (0..500).map(|i| refs[(i * 147) % 500]).collect();
    assert_eq!(brute_force_top_k(&reversed, &query, 40, &kernel()), want);
    assert_eq!(brute_force_top_k(&strided, &query, 40, &kernel()), want);
    let direct = records
        .iter()
        .map(|r| ScoredId {
            id: r.id,
            score: cosine_similarity(&r.embedding, &query, &kernel()),
        })
        .collect();
    assert_eq!(bounded_top_k(direct, 40), want);
}

#[test]
fn similarity_is_the_same_both_ways() {
    let vectors: Vec<Vec<u32>> = (0..20)
        .map(|i| bits(&[(i as f32).sin(), (i as f32 * 1.7).cos(), i as f32 - 9.5]))
        .collect();
    for a in &vectors {
        for b in &vectors {
            assert_eq!(cosine_similarity(a, b, &kernel()), cosine_similarity(b, a, &kernel()));
        }
    }
}

#[test]
fn any_run_of_ids_spreads_evenly_over_four_shards() {
    for lo in [0u64, 12_345, 1 << 31] {
        let n = 25_000u64;
        let mut counts = [0u64; 4];
        for id in lo..lo + n {
            counts[shard_id(id, 4) as usize] += 1;
        }
        for count in counts {
            assert!(9 * n < 40 * count && 40 * count < 11 * n, "{counts:?}");
        }
    }
}
