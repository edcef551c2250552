//! Exact parallel scans.

use crate::record::{RecordView, ScoredId, VectorRecord};
use crate::similarity::{cosine_from_norm_sq, norm_sq, Kernel};
use crate::topk::TopK;
use rayon::iter::{IntoParallelRefIterator, ParallelIterator};
use vstd::prelude::*;

verus! {

/// Whether an invariant of fold states holds of the identity for no items, is kept when one of
/// `items` is folded in, and is kept when two states are merged.
pub open spec fn inductive<'a, T: 'a, A, I: Fn() -> A, F: Fn(A, &'a T) -> A, M: Fn(A, A) -> A>(
    inv: spec_fn(Seq<T>, A) -> bool,
    items: Seq<T>,
    identity: I,
    fold: F,
    merge: M,
) -> bool {
    &&& forall|z: A| #[trigger] call_ensures(identity, (), z) ==> inv(Seq::empty(), z)
    &&& forall|seen: Seq<T>, state: A, item: &'a T, next: A| #[trigger]
        inv(seen, state) && items.contains(*item) && #[trigger] call_ensures(
            fold,
            (state, item),
            next,
        ) ==> inv(seen.push(*item), next)
    &&& forall|left: Seq<T>, a: A, right: Seq<T>, b: A, both: A| #[trigger]
        inv(left, a) && #[trigger] inv(right, b) && #[trigger] call_ensures(merge, (a, b), both)
            ==> inv(left + right, both)
}

/// Folds a slice in parallel: `par_iter().fold(..).reduce(..)` of rayon.
///
/// rayon cuts the slice into contiguous pieces, folds each from an identity in order, and merges
/// the states of neighbouring pieces, the earlier one first; how it cuts depends on the machine.
/// So whatever holds of the identity for no items, is kept by every fold step and is kept by every
/// merge holds of the result for the whole slice, in order.
#[verifier::external_body]
fn par_fold_reduce<'a, T, A, I, F, M>(items: &'a [T], identity: I, fold: F, merge: M) -> (r: A)
    where
        T: Sync + 'a,
        A: Send,
        I: Fn() -> A + Sync + Send,
        F: Fn(A, &'a T) -> A + Sync + Send,
        M: Fn(A, A) -> A + Sync + Send,
    requires
        call_requires(identity, ()),
        forall|state: A, item: &'a T| #[trigger] call_requires(fold, (state, item)),
        forall|a: A, b: A| #[trigger] call_requires(merge, (a, b)),
    ensures
        forall|inv: spec_fn(Seq<T>, A) -> bool|
            inductive(inv, items@, identity, fold, merge) ==> #[trigger] inv(items@, r),
{
    items.par_iter().fold(&identity, &fold).reduce(&identity, &merge)
}

/// Whether `scores` can be the scores of records, each with its cached squared norm, against a
/// query.
pub open spec fn are_scores<A: Fn(u32, u32, u32) -> u32, Q: Fn(u32, u32, u32) -> u32>(
    kernel: Kernel<A, Q>,
    records: Seq<(&VectorRecord, u32)>,
    query: Seq<u32>,
    query_norm_sq: u32,
    scores: Seq<u32>,
) -> bool {
    &&& scores.len() == records.len()
    &&& forall|i: int|
        0 <= i < records.len() ==> crate::similarity::is_cosine(
            kernel,
            (#[trigger] records[i]).0.embedding@,
            query,
            records[i].1,
            query_norm_sq,
            scores[i],
        )
}

/// Records' ids with their scores.
pub open spec fn scored(records: Seq<(&VectorRecord, u32)>, scores: Seq<u32>) -> Seq<ScoredId> {
    Seq::new(records.len(), |i: int| ScoredId { id: records[i].0.id, score: scores[i] })
}

/// Whether `r` is the exact top `k` of records by their scores against a query, best first.
pub open spec fn is_scan<A: Fn(u32, u32, u32) -> u32, Q: Fn(u32, u32, u32) -> u32>(
    r: Seq<ScoredId>,
    kernel: Kernel<A, Q>,
    records: Seq<(&VectorRecord, u32)>,
    query: Seq<u32>,
    k: nat,
) -> bool {
    exists|query_norm_sq: u32, scores: Seq<u32>| #[trigger]
        crate::similarity::is_norm_sq(kernel, query, query_norm_sq) && #[trigger] are_scores(
            kernel,
            records,
            query,
            query_norm_sq,
            scores,
        ) && crate::ranking::is_top_k(r, scored(records, scores).to_multiset(), k)
}

/// Whether `top` holds the best `k` of the records seen, by their scores.
pub open spec fn ranks_seen<A: Fn(u32, u32, u32) -> u32, Q: Fn(u32, u32, u32) -> u32>(
    kernel: Kernel<A, Q>,
    seen: Seq<(&VectorRecord, u32)>,
    query: Seq<u32>,
    query_norm_sq: u32,
    k: usize,
    top: TopK,
) -> bool {
    &&& top.limit() == k
    &&& exists|scores: Seq<u32>| #[trigger]
        are_scores(kernel, seen, query, query_norm_sq, scores) && crate::ranking::is_best(
            top@,
            scored(seen, scores).to_multiset(),
            k as nat,
        )
}

proof fn lemma_none_seen<A: Fn(u32, u32, u32) -> u32, Q: Fn(u32, u32, u32) -> u32>(
    kernel: Kernel<A, Q>,
    query: Seq<u32>,
    query_norm_sq: u32,
    k: usize,
    top: TopK,
)
    requires
        top.limit() == k,
        top@ == vstd::multiset::Multiset::<ScoredId>::empty(),
    ensures
        ranks_seen(kernel, Seq::empty(), query, query_norm_sq, k, top),
{
    broadcast use vstd::multiset::group_multiset_axioms;

    let none = Seq::<(&VectorRecord, u32)>::empty();
    let scores = Seq::<u32>::empty();
    assert(are_scores(kernel, none, query, query_norm_sq, scores));
    let all = scored(none, scores);
    all.to_multiset_ensures();
    assert(all.to_multiset().len() == 0);
    vstd::multiset::lemma_multiset_empty_len(all.to_multiset());
    crate::ranking::lemma_best_of_few(top@, k as nat);
}

proof fn lemma_one_more<'a, A: Fn(u32, u32, u32) -> u32, Q: Fn(u32, u32, u32) -> u32>(
    kernel: Kernel<A, Q>,
    seen: Seq<(&'a VectorRecord, u32)>,
    query: Seq<u32>,
    query_norm_sq: u32,
    k: usize,
    top: TopK,
    item: (&'a VectorRecord, u32),
    score: u32,
    next: TopK,
)
    requires
        ranks_seen(kernel, seen, query, query_norm_sq, k, top),
        crate::similarity::is_cosine(
            kernel,
            item.0.embedding@,
            query,
            item.1,
            query_norm_sq,
            score,
        ),
        crate::ranking::is_best(
            next@,
            top@.insert(ScoredId { id: item.0.id, score }),
            k as nat,
        ),
        next.limit() == k,
    ensures
        ranks_seen(kernel, seen.push(item), query, query_norm_sq, k, next),
{
    broadcast use vstd::multiset::group_multiset_axioms;

    let scores = choose|scores: Seq<u32>| #[trigger]
        are_scores(kernel, seen, query, query_norm_sq, scores) && crate::ranking::is_best(
            top@,
            scored(seen, scores).to_multiset(),
            k as nat,
        );
    let new = ScoredId { id: item.0.id, score };
    let all = scored(seen, scores);
    let one = vstd::multiset::Multiset::<ScoredId>::singleton(new);
    assert(top@.insert(new) =~= top@.add(one));
    crate::ranking::lemma_best_through_part(next@, top@, all.to_multiset(), one, k as nat);
    assert(scored(seen.push(item), scores.push(score)) =~= all.push(new));
    vstd::seq_lib::to_multiset_build(all, new);
    assert(all.push(new).to_multiset() =~= all.to_multiset().add(one));
    assert(are_scores(kernel, seen.push(item), query, query_norm_sq, scores.push(score)));
}

proof fn lemma_both_seen<'a, A: Fn(u32, u32, u32) -> u32, Q: Fn(u32, u32, u32) -> u32>(
    kernel: Kernel<A, Q>,
    left: Seq<(&'a VectorRecord, u32)>,
    right: Seq<(&'a VectorRecord, u32)>,
    query: Seq<u32>,
    query_norm_sq: u32,
    k: usize,
    a: TopK,
    b: TopK,
    both: TopK,
)
    requires
        ranks_seen(kernel, left, query, query_norm_sq, k, a),
        ranks_seen(kernel, right, query, query_norm_sq, k, b),
        crate::ranking::is_best(both@, a@.add(b@), k as nat),
        both.limit() == k,
    ensures
        ranks_seen(kernel, left + right, query, query_norm_sq, k, both),
{
    let x = choose|scores: Seq<u32>| #[trigger]
        are_scores(kernel, left, query, query_norm_sq, scores) && crate::ranking::is_best(
            a@,
            scored(left, scores).to_multiset(),
            k as nat,
        );
    let y = choose|scores: Seq<u32>| #[trigger]
        are_scores(kernel, right, query, query_norm_sq, scores) && crate::ranking::is_best(
            b@,
            scored(right, scores).to_multiset(),
            k as nat,
        );
    crate::ranking::best_of_parts(
        both@,
        a@,
        scored(left, x).to_multiset(),
        b@,
        scored(right, y).to_multiset(),
        k as nat,
    );
    assert(scored(left + right, x + y) =~= scored(left, x) + scored(right, y));
    vstd::seq_lib::lemma_multiset_commutative(scored(left, x), scored(right, y));
    assert(are_scores(kernel, left + right, query, query_norm_sq, x + y));
}

/// The exact top `k` of records by their cosine similarity to a query, best first. Each record
/// comes with its cached squared norm.
///
/// Workers fold pieces of the records into bounded heaps, which are merged.
pub fn brute_force_top_k<A, Q>(
    records: &[(&VectorRecord, u32)],
    query: &[u32],
    k: usize,
    kernel: &Kernel<A, Q>,
) -> (r: Vec<ScoredId>)
    where
        A: Fn(u32, u32, u32) -> u32 + Sync + Send,
        Q: Fn(u32, u32, u32) -> u32 + Sync + Send,
    requires
        crate::similarity::total(*kernel),
    ensures
        is_scan(r@, *kernel, records@, query@, k as nat),
{
    let query_norm_sq: u32 = norm_sq(query, kernel);
    let identity = || -> (top: TopK)
        ensures
            top@ == vstd::multiset::Multiset::<ScoredId>::empty(),
            top.limit() == k,
        { TopK::new(k) };
    let fold = |top: TopK, entry: &(&VectorRecord, u32)| -> (next: TopK)
        ensures
            next.limit() == top.limit(),
            exists|score: u32|
                crate::similarity::is_cosine(
                    *kernel,
                    entry.0.embedding@,
                    query@,
                    entry.1,
                    query_norm_sq,
                    score,
                ) && #[trigger] crate::ranking::is_best(
                    next@,
                    top@.insert(ScoredId { id: entry.0.id, score }),
                    top.limit(),
                ),
        {
            let mut next = top;
            let score: u32 = cosine_from_norm_sq(
                entry.0.embedding.as_slice(),
                query,
                entry.1,
                query_norm_sq,
                kernel,
            );
            next.push(ScoredId { id: entry.0.id, score });
            next
        };
    let merge = |a: TopK, b: TopK| -> (both: TopK)
        ensures
            both.limit() == a.limit(),
            crate::ranking::is_best(both@, a@.add(b@), a.limit()),
        { a.merge(b) };
    let top = par_fold_reduce(records, identity, fold, merge);
    proof {
        let inv = |seen: Seq<(&VectorRecord, u32)>, state: TopK|
            ranks_seen(*kernel, seen, query@, query_norm_sq, k, state);
        assert forall|z: TopK| #[trigger] call_ensures(identity, (), z) implies inv(
            Seq::empty(),
            z,
        ) by {
            lemma_none_seen(*kernel, query@, query_norm_sq, k, z);
        }
        assert forall|
            seen: Seq<(&VectorRecord, u32)>,
            state: TopK,
            item: &(&VectorRecord, u32),
            next: TopK,
        | #[trigger]
            inv(seen, state) && records@.contains(*item) && #[trigger] call_ensures(
                fold,
                (state, item),
                next,
            ) implies inv(seen.push(*item), next) by {
            let score = choose|score: u32|
                crate::similarity::is_cosine(
                    *kernel,
                    item.0.embedding@,
                    query@,
                    item.1,
                    query_norm_sq,
                    score,
                ) && #[trigger] crate::ranking::is_best(
                    next@,
                    state@.insert(ScoredId { id: item.0.id, score }),
                    state.limit(),
                );
            lemma_one_more(*kernel, seen, query@, query_norm_sq, k, state, *item, score, next);
        }
        assert forall|
            left: Seq<(&VectorRecord, u32)>,
            a: TopK,
            right: Seq<(&VectorRecord, u32)>,
            b: TopK,
            both: TopK,
        | #[trigger]
            inv(left, a) && #[trigger] inv(right, b) && #[trigger] call_ensures(
                merge,
                (a, b),
                both,
            ) implies inv(left + right, both) by {
            lemma_both_seen(*kernel, left, right, query@, query_norm_sq, k, a, b, both);
        }
        assert(inductive(inv, records@, identity, fold, merge));
        assert(inv(records@, top));
    }
    top.into_sorted_vec()
}

/// Records as mathematical values, each with its cached squared norm.
pub open spec fn entry_views(records: Seq<(&VectorRecord, u32)>) -> Seq<(RecordView, u32)> {
    Seq::new(records.len(), |i: int| (records[i].0@, records[i].1))
}

/// The scored id of a record, where the kernel's operations have one result.
spec fn score_of<A: Fn(u32, u32, u32) -> u32, Q: Fn(u32, u32, u32) -> u32>(
    kernel: Kernel<A, Q>,
    query: Seq<u32>,
    query_norm_sq: u32,
    entry: (RecordView, u32),
) -> ScoredId {
    ScoredId {
        id: entry.0.id,
        score: choose|score: u32|
            crate::similarity::is_cosine(
                kernel,
                entry.0.embedding,
                query,
                entry.1,
                query_norm_sq,
                score,
            ),
    }
}

proof fn lemma_scored<A: Fn(u32, u32, u32) -> u32, Q: Fn(u32, u32, u32) -> u32>(
    kernel: Kernel<A, Q>,
    records: Seq<(&VectorRecord, u32)>,
    query: Seq<u32>,
    query_norm_sq: u32,
    scores: Seq<u32>,
)
    requires
        crate::similarity::functional(kernel),
        are_scores(kernel, records, query, query_norm_sq, scores),
    ensures
        scored(records, scores) == entry_views(records).map_values(
            |e: (RecordView, u32)| score_of(kernel, query, query_norm_sq, e),
        ),
{
    let f = |e: (RecordView, u32)| score_of(kernel, query, query_norm_sq, e);
    let views = entry_views(records);
    assert forall|i: int| 0 <= i < records.len() implies scored(records, scores)[i]
        == views.map_values(f)[i] by {
        let e = views[i];
        assert(crate::similarity::is_cosine(
            kernel,
            records[i].0.embedding@,
            query,
            records[i].1,
            query_norm_sq,
            scores[i],
        ));
        crate::similarity::cosine_is_unique(
            kernel,
            e.0.embedding,
            query,
            e.1,
            query_norm_sq,
            scores[i],
            f(e).score,
        );
    }
    assert(scored(records, scores) =~= views.map_values(f));
}

proof fn lemma_mapped<S, T>(a: Seq<S>, b: Seq<S>, f: spec_fn(S) -> T)
    requires
        a.to_multiset() == b.to_multiset(),
    ensures
        a.map_values(f).to_multiset() == b.map_values(f).to_multiset(),
    decreases a.len(),
{
    broadcast use vstd::seq_lib::group_to_multiset_ensures;
    broadcast use vstd::multiset::group_multiset_axioms;

    assert(a.to_multiset().len() == a.len());
    assert(b.to_multiset().len() == b.len());
    if a.len() == 0 {
        assert(a =~= b);
    } else {
        let last: int = a.len() - 1;
        assert(a.contains(a[last]));
        assert(b.to_multiset().count(a[last]) > 0);
        assert(b.contains(a[last]));
        let j = choose|j: int| 0 <= j < b.len() && b[j] == a[last];
        vstd::seq_lib::to_multiset_remove(a, last);
        vstd::seq_lib::to_multiset_remove(b, j);
        lemma_mapped(a.remove(last), b.remove(j), f);
        let fa = a.map_values(f);
        let fb = b.map_values(f);
        assert(a.remove(last).map_values(f) =~= fa.remove(last));
        assert(b.remove(j).map_values(f) =~= fb.remove(j));
        vstd::seq_lib::to_multiset_remove(fa, last);
        vstd::seq_lib::to_multiset_remove(fb, j);
        assert(fa[last] == fb[j]);
        assert(fa.contains(fa[last]));
        assert(fb.contains(fb[j]));
        assert(fa.to_multiset() =~= fa.remove(last).to_multiset().insert(fa[last]));
        assert(fb.to_multiset() =~= fb.remove(j).to_multiset().insert(fb[j]));
    }
}

/// The order of a scan does not matter: where the kernel's operations are functions, two lists of
/// the same records with the same cached norms give the same result, id for id and bit for bit,
/// whatever their order and however the scans are split.
pub proof fn scan_order_does_not_matter<
    A: Fn(u32, u32, u32) -> u32,
    Q: Fn(u32, u32, u32) -> u32,
>(
    one: Seq<ScoredId>,
    other: Seq<ScoredId>,
    kernel: Kernel<A, Q>,
    records: Seq<(&VectorRecord, u32)>,
    permuted: Seq<(&VectorRecord, u32)>,
    query: Seq<u32>,
    k: nat,
)
    requires
        crate::similarity::functional(kernel),
        entry_views(records).to_multiset() == entry_views(permuted).to_multiset(),
        is_scan(one, kernel, records, query, k),
        is_scan(other, kernel, permuted, query, k),
    ensures
        one == other,
{
    let (an, a) = choose|n: u32, scores: Seq<u32>| #[trigger]
        crate::similarity::is_norm_sq(kernel, query, n) && #[trigger] are_scores(
            kernel,
            records,
            query,
            n,
            scores,
        ) && crate::ranking::is_top_k(one, scored(records, scores).to_multiset(), k);
    let (bn, b) = choose|n: u32, scores: Seq<u32>| #[trigger]
        crate::similarity::is_norm_sq(kernel, query, n) && #[trigger] are_scores(
            kernel,
            permuted,
            query,
            n,
            scores,
        ) && crate::ranking::is_top_k(other, scored(permuted, scores).to_multiset(), k);
    crate::similarity::dot_is_unique(kernel, query, query, an, bn);
    lemma_scored(kernel, records, query, an, a);
    lemma_scored(kernel, permuted, query, an, b);
    lemma_mapped(
        entry_views(records),
        entry_views(permuted),
        |e: (RecordView, u32)| score_of(kernel, query, an, e),
    );
    crate::ranking::top_k_is_unique(one, other, scored(records, a).to_multiset(), k);
}

/// A scan with cached norms is the ranking by direct similarities: where the kernel's operations
/// are functions and every cached norm is its record's, the result is, id for id and bit for bit,
/// the top `k` of the records' similarities to the query.
pub proof fn scan_ranks_by_similarity<
    A: Fn(u32, u32, u32) -> u32,
    Q: Fn(u32, u32, u32) -> u32,
>(
    scan: Seq<ScoredId>,
    ranked: Seq<ScoredId>,
    kernel: Kernel<A, Q>,
    records: Seq<(&VectorRecord, u32)>,
    query: Seq<u32>,
    direct: Seq<u32>,
    k: nat,
)
    requires
        crate::similarity::functional(kernel),
        forall|i: int|
            0 <= i < records.len() ==> crate::similarity::is_norm_sq(
                kernel,
                (#[trigger] records[i]).0.embedding@,
                records[i].1,
            ),
        direct.len() == records.len(),
        forall|i: int|
            0 <= i < records.len() ==> crate::similarity::is_similarity(
                kernel,
                (#[trigger] records[i]).0.embedding@,
                query,
                direct[i],
            ),
        is_scan(scan, kernel, records, query, k),
        crate::ranking::is_top_k(ranked, scored(records, direct).to_multiset(), k),
    ensures
        scan == ranked,
{
    let (n, scores) = choose|n: u32, scores: Seq<u32>| #[trigger]
        crate::similarity::is_norm_sq(kernel, query, n) && #[trigger] are_scores(
            kernel,
            records,
            query,
            n,
            scores,
        ) && crate::ranking::is_top_k(scan, scored(records, scores).to_multiset(), k);
    assert forall|i: int| 0 <= i < records.len() implies scores[i] == direct[i] by {
        let e = records[i];
        crate::similarity::cached_norms_change_nothing(
            kernel,
            e.0.embedding@,
            query,
            e.1,
            n,
            scores[i],
            direct[i],
        );
    }
    assert(scores =~= direct);
    crate::ranking::top_k_is_unique(scan, ranked, scored(records, direct).to_multiset(), k);
}

/// A scan is the head of the ranking of all records: score every record directly, sort, best first,
/// and take the first `k`, or all where there are fewer. This holds where the kernel's operations
/// are functions and every cached norm is its record's.
pub proof fn scan_is_the_head_of_the_ranking<
    A: Fn(u32, u32, u32) -> u32,
    Q: Fn(u32, u32, u32) -> u32,
>(
    scan: Seq<ScoredId>,
    kernel: Kernel<A, Q>,
    records: Seq<(&VectorRecord, u32)>,
    query: Seq<u32>,
    direct: Seq<u32>,
    ranking: Seq<ScoredId>,
    k: nat,
)
    requires
        crate::similarity::functional(kernel),
        forall|i: int|
            0 <= i < records.len() ==> crate::similarity::is_norm_sq(
                kernel,
                (#[trigger] records[i]).0.embedding@,
                records[i].1,
            ),
        direct.len() == records.len(),
        forall|i: int|
            0 <= i < records.len() ==> crate::similarity::is_similarity(
                kernel,
                (#[trigger] records[i]).0.embedding@,
                query,
                direct[i],
            ),
        is_scan(scan, kernel, records, query, k),
        ranking.to_multiset() == Seq::new(
            records.len(),
            |i: int| ScoredId { id: records[i].0.id, score: direct[i] },
        ).to_multiset(),
        forall|i: int, j: int|
            0 <= i < j < ranking.len() ==> !crate::record::outranks(
                #[trigger] ranking[j],
                #[trigger] ranking[i],
            ),
    ensures
        scan == ranking.take(
            if k < records.len() {
                k as int
            } else {
                records.len() as int
            },
        ),
{
    let listed = Seq::new(
        records.len(),
        |i: int| ScoredId { id: records[i].0.id, score: direct[i] },
    );
    assert(listed =~= scored(records, direct));
    ranking.to_multiset_ensures();
    listed.to_multiset_ensures();
    let (n, scores) = choose|n: u32, scores: Seq<u32>| #[trigger]
        crate::similarity::is_norm_sq(kernel, query, n) && #[trigger] are_scores(
            kernel,
            records,
            query,
            n,
            scores,
        ) && crate::ranking::is_top_k(scan, scored(records, scores).to_multiset(), k);
    assert forall|i: int| 0 <= i < records.len() implies scores[i] == direct[i] by {
        let e = records[i];
        crate::similarity::cached_norms_change_nothing(
            kernel,
            e.0.embedding@,
            query,
            e.1,
            n,
            scores[i],
            direct[i],
        );
    }
    assert(scores =~= direct);
    crate::ranking::top_k_is_the_head_of_the_ranking(ranking, scan.to_multiset(), scan, k);
}

/// A scan scores every record with the norm it comes with and ranks all of them: its results are as
/// many as asked for, or as there are records, and each is a record with a score of its own.
pub proof fn scans_miss_nothing<A: Fn(u32, u32, u32) -> u32, Q: Fn(u32, u32, u32) -> u32>(
    scan: Seq<ScoredId>,
    kernel: Kernel<A, Q>,
    records: Seq<(&VectorRecord, u32)>,
    query: Seq<u32>,
    k: nat,
)
    requires
        is_scan(scan, kernel, records, query, k),
    ensures
        scan.len() == if k < records.len() {
            k
        } else {
            records.len()
        },
        exists|query_norm_sq: u32, scores: Seq<u32>|
            #![trigger crate::similarity::is_dot(kernel, query, query, query_norm_sq), scores.len()]
            {
                &&& crate::similarity::is_dot(kernel, query, query, query_norm_sq)
                &&& scores.len() == records.len()
                &&& forall|i: int|
                    0 <= i < records.len() ==> crate::similarity::is_cosine(
                        kernel,
                        (#[trigger] records[i]).0.embedding@,
                        query,
                        records[i].1,
                        query_norm_sq,
                        scores[i],
                    )
                &&& crate::ranking::is_top_k(
                    scan,
                    Seq::new(
                        records.len(),
                        |i: int| ScoredId { id: records[i].0.id, score: scores[i] },
                    ).to_multiset(),
                    k,
                )
            },
{
    let (n, scores) = choose|n: u32, scores: Seq<u32>| #[trigger]
        crate::similarity::is_norm_sq(kernel, query, n) && #[trigger] are_scores(
            kernel,
            records,
            query,
            n,
            scores,
        ) && crate::ranking::is_top_k(scan, scored(records, scores).to_multiset(), k);
    let listed = Seq::new(
        records.len(),
        |i: int| ScoredId { id: records[i].0.id, score: scores[i] },
    );
    assert(listed =~= scored(records, scores));
    listed.to_multiset_ensures();
    scan.to_multiset_ensures();
    assert(crate::similarity::is_dot(kernel, query, query, n));
    assert(scores.len() == records.len());
}

} // verus!
