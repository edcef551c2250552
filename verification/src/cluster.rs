//! What the shards of a cluster hold and answer together: what one node would.

use crate::collection::{
    answers, creation, deletion, insertion, lemma_all_fit, similarities, upserted, CollectionView,
    StoreFault,
};
use crate::message::{ClusterStatusResponse, ResultView, SearchResponse};
use crate::node::are_results;
use crate::record::{RecordView, ScoredId};
use crate::router::{grouped, RouterError};
use crate::sharding::shard_of;
use crate::similarity::Kernel;
use vstd::prelude::*;

verus! {

/// The part of a collection that belongs to one shard.
pub open spec fn slice(records: Map<u64, RecordView>, shard_count: u32, shard: int) -> Map<
    u64,
    RecordView,
> {
    Map::new(
        |id: u64| records.contains_key(id) && shard_of(id, shard_count) == shard,
        |id: u64| records[id],
    )
}

/// The ids of records.
pub open spec fn view_ids(records: Seq<RecordView>) -> Seq<u64> {
    Seq::new(records.len(), |i: int| records[i].id)
}

/// Shards that each hold their part of a collection still do after an insert, each having written
/// the records that the router sent it.
pub proof fn inserts_keep_the_parts(
    records: Map<u64, RecordView>,
    new: Seq<RecordView>,
    shard_count: u32,
    shard: int,
)
    ensures
        upserted(
            slice(records, shard_count, shard),
            grouped(new, view_ids(new), shard_count, shard),
        ) == slice(upserted(records, new), shard_count, shard),
    decreases new.len(),
{
    let whole = slice(upserted(records, new), shard_count, shard);
    if new.len() == 0 {
        assert(whole =~= slice(records, shard_count, shard));
    } else {
        let before = new.drop_last();
        let last = new.last();
        inserts_keep_the_parts(records, before, shard_count, shard);
        assert(view_ids(new).drop_last() =~= view_ids(before));
        let group = grouped(before, view_ids(before), shard_count, shard);
        let part = slice(upserted(records, before), shard_count, shard);
        if shard_of(last.id, shard_count) == shard {
            assert(group.push(last).drop_last() =~= group);
            assert(whole =~= part.insert(last.id, last));
        } else {
            assert(whole =~= part);
        }
    }
}

/// The records that the router sends to a shard, seen as mathematical values, are the shard's
/// share of all records seen so.
pub proof fn groups_of_records(
    records: Seq<crate::record::VectorRecord>,
    shard_count: u32,
    shard: int,
)
    ensures
        crate::collection::record_views(
            grouped(records, crate::router::ids_of(records), shard_count, shard),
        ) == grouped(
            crate::collection::record_views(records),
            view_ids(crate::collection::record_views(records)),
            shard_count,
            shard,
        ),
    decreases records.len(),
{
    let views = crate::collection::record_views(records);
    let keys = crate::router::ids_of(records);
    let group = grouped(records, keys, shard_count, shard);
    let right = grouped(views, view_ids(views), shard_count, shard);
    if records.len() == 0 {
        assert(crate::collection::record_views(group) =~= right);
    } else {
        let before = records.drop_last();
        groups_of_records(before, shard_count, shard);
        assert(keys.drop_last() =~= crate::router::ids_of(before));
        assert(views.drop_last() =~= crate::collection::record_views(before));
        assert(view_ids(views).drop_last() =~= view_ids(views.drop_last()));
        let sent = grouped(before, crate::router::ids_of(before), shard_count, shard);
        assert(crate::collection::record_views(sent.push(records.last()))
            =~= crate::collection::record_views(sent).push(records.last()@));
    }
}

proof fn lemma_grouped_ids(ids: Seq<u64>, shard_count: u32, shard: int, id: u64)
    ensures
        grouped(ids, ids, shard_count, shard).contains(id) <==> ids.contains(id) && shard_of(
            id,
            shard_count,
        ) == shard,
    decreases ids.len(),
{
    if ids.len() > 0 {
        let before = ids.drop_last();
        let last = ids.last();
        lemma_grouped_ids(before, shard_count, shard, id);
        let group = grouped(before, before, shard_count, shard);
        assert(ids =~= before.push(last));
        assert(ids.contains(id) <==> before.contains(id) || id == last) by {
            lemma_pushed(before, last, id);
        }
        lemma_pushed(group, last, id);
    }
}

proof fn lemma_pushed(list: Seq<u64>, last: u64, x: u64)
    ensures
        list.push(last).contains(x) <==> list.contains(x) || x == last,
{
    let longer = list.push(last);
    if list.contains(x) {
        let i = choose|i: int| 0 <= i < list.len() && list[i] == x;
        assert(longer[i] == x);
    }
    if x == last {
        assert(longer[list.len() as int] == x);
    }
    if longer.contains(x) {
        let i = choose|i: int| 0 <= i < longer.len() && longer[i] == x;
        if i < list.len() {
            assert(list[i] == x);
        }
    }
}

/// Shards that each hold their part of a collection still do after a delete, each having deleted
/// the ids that the router sent it.
pub proof fn deletes_keep_the_parts(
    records: Map<u64, RecordView>,
    ids: Seq<u64>,
    shard_count: u32,
    shard: int,
)
    ensures
        slice(records, shard_count, shard).remove_keys(
            grouped(ids, ids, shard_count, shard).to_set(),
        ) == slice(records.remove_keys(ids.to_set()), shard_count, shard),
{
    let left = slice(records, shard_count, shard).remove_keys(
        grouped(ids, ids, shard_count, shard).to_set(),
    );
    let right = slice(records.remove_keys(ids.to_set()), shard_count, shard);
    assert forall|id: u64| left.dom().contains(id) == right.dom().contains(id) by {
        lemma_grouped_ids(ids, shard_count, shard, id);
    }
    assert(left =~= right);
}

/// What one shard of a cluster holds where the cluster holds what a store does: of every
/// collection its part.
pub open spec fn part_of(
    store: Map<Seq<char>, CollectionView>,
    shard_count: u32,
    shard: int,
) -> Map<Seq<char>, CollectionView> {
    Map::new(
        |name: Seq<char>| store.contains_key(name),
        |name: Seq<char>|
            CollectionView { records: slice(store[name].records, shard_count, shard), ..store[name] },
    )
}

proof fn lemma_grouped_from<T>(
    items: Seq<T>,
    keys: Seq<u64>,
    shard_count: u32,
    shard: int,
    j: int,
)
    requires
        0 <= j < grouped(items, keys, shard_count, shard).len(),
    ensures
        exists|i: int|
            0 <= i < items.len() && (#[trigger] items[i]) == grouped(
                items,
                keys,
                shard_count,
                shard,
            )[j],
    decreases items.len(),
{
    let group = grouped(items, keys, shard_count, shard);
    let before = grouped(items.drop_last(), keys.drop_last(), shard_count, shard);
    if j < before.len() {
        lemma_grouped_from(items.drop_last(), keys.drop_last(), shard_count, shard, j);
        let i = choose|i: int|
            0 <= i < items.len() - 1 && (#[trigger] items.drop_last()[i]) == before[j];
        assert(items[i] == group[j]);
    } else {
        assert(items[items.len() - 1] == group[j]);
    }
}

/// A cluster keeps step with one node: where a node takes a request, every shard takes its share
/// of the request, and the shards then hold what the node holds, each its part. This goes for
/// creating a collection, which every shard is sent whole, for an insert and for a delete.
pub proof fn cluster_keeps_step(
    store: Map<Seq<char>, CollectionView>,
    name: Seq<char>,
    dim: int,
    records: Seq<RecordView>,
    ids: Seq<u64>,
    shard_count: u32,
    shard: int,
)
    ensures
        creation(store, name, dim, shard_count) matches Ok(after) ==> creation(
            part_of(store, shard_count, shard),
            name,
            dim,
            shard_count,
        ) == Ok::<Map<Seq<char>, CollectionView>, StoreFault>(part_of(after, shard_count, shard)),
        insertion(store, name, records) matches Ok(after) ==> insertion(
            part_of(store, shard_count, shard),
            name,
            grouped(records, view_ids(records), shard_count, shard),
        ) == Ok::<Map<Seq<char>, CollectionView>, StoreFault>(part_of(after, shard_count, shard)),
        deletion(store, name, ids.to_set()) matches Ok(after) ==> deletion(
            part_of(store, shard_count, shard),
            name,
            grouped(ids, ids, shard_count, shard).to_set(),
        ) == Ok::<Map<Seq<char>, CollectionView>, StoreFault>(part_of(after, shard_count, shard)),
{
    let part = part_of(store, shard_count, shard);
    if let Ok(after) = creation(store, name, dim, shard_count) {
        let got = creation(part, name, dim, shard_count)->Ok_0;
        assert(slice(Map::empty(), shard_count, shard) =~= Map::<u64, RecordView>::empty());
        assert(got =~= part_of(after, shard_count, shard));
    }
    if let Ok(after) = insertion(store, name, records) {
        let coll = store[name];
        let group = grouped(records, view_ids(records), shard_count, shard);
        lemma_all_fit(records, coll.dim);
        assert forall|j: int| 0 <= j < group.len() implies (#[trigger] group[j]).embedding.len()
            == coll.dim by {
            lemma_grouped_from(records, view_ids(records), shard_count, shard, j);
            let i = choose|i: int| 0 <= i < records.len() && (#[trigger] records[i]) == group[j];
            assert(records[i].embedding.len() == coll.dim);
        }
        lemma_all_fit(group, coll.dim);
        inserts_keep_the_parts(coll.records, records, shard_count, shard);
        let got = insertion(part, name, group)->Ok_0;
        assert(got =~= part_of(after, shard_count, shard));
    }
    if let Ok(after) = deletion(store, name, ids.to_set()) {
        deletes_keep_the_parts(store[name].records, ids, shard_count, shard);
        let got = deletion(part, name, grouped(ids, ids, shard_count, shard).to_set())->Ok_0;
        assert(got =~= part_of(after, shard_count, shard));
    }
}

/// Every record of a collection is in the part of exactly one shard.
pub proof fn parts_are_disjoint_and_complete(
    records: Map<u64, RecordView>,
    shard_count: u32,
    id: u64,
    shard: int,
)
    requires
        shard_count > 0,
        records.contains_key(id),
    ensures
        0 <= shard_of(id, shard_count) < shard_count,
        slice(records, shard_count, shard).contains_key(id) <==> shard == shard_of(
            id,
            shard_count,
        ),
        slice(records, shard_count, shard_of(id, shard_count))[id] == records[id],
{
    vstd::arithmetic::div_mod::lemma_mod_bound(crate::sharding::fx(id), shard_count as int);
}

/// The part of a collection that belongs to some shards.
pub open spec fn parts_held(
    records: Map<u64, RecordView>,
    shard_count: u32,
    shards: Seq<int>,
) -> Map<u64, RecordView> {
    Map::new(
        |id: u64| records.contains_key(id) && shards.contains(shard_of(id, shard_count)),
        |id: u64| records[id],
    )
}

/// The scored ids of parts together, where each part's ids belong to its shard.
proof fn lemma_union_of_parts(
    parts: Seq<Map<u64, u32>>,
    shards: Seq<int>,
    shard_count: u32,
    n: int,
    x: ScoredId,
)
    requires
        shards.no_duplicates(),
        shards.len() == parts.len(),
        0 <= n <= parts.len(),
        forall|i: int| 0 <= i < parts.len() ==> (#[trigger] parts[i]).dom().finite(),
        forall|i: int, id: u64|
            0 <= i < parts.len() && #[trigger] parts[i].contains_key(id) ==> shard_of(
                id,
                shard_count,
            ) == shards[i],
    ensures
        forall|i: int|
            0 <= i < n && (#[trigger] shards[i]) == shard_of(x.id, shard_count)
                ==> crate::ranking::union_of(
                Seq::new(n as nat, |i: int| crate::ranking::scored_ids(parts[i])),
            ).count(x) == crate::ranking::scored_ids(parts[i]).count(x),
        (forall|i: int| 0 <= i < n ==> (#[trigger] shards[i]) != shard_of(x.id, shard_count))
            ==> crate::ranking::union_of(
            Seq::new(n as nat, |i: int| crate::ranking::scored_ids(parts[i])),
        ).count(x) == 0,
    decreases n,
{
    broadcast use vstd::multiset::group_multiset_axioms;

    let all = Seq::new(n as nat, |i: int| crate::ranking::scored_ids(parts[i]));
    if n > 0 {
        lemma_union_of_parts(parts, shards, shard_count, n - 1, x);
        assert(all.drop_last() =~= Seq::new(
            (n - 1) as nat,
            |i: int| crate::ranking::scored_ids(parts[i]),
        ));
        crate::ranking::lemma_scored_ids(parts[n - 1], x);
        assert(crate::ranking::union_of(all).count(x) == crate::ranking::union_of(
            all.drop_last(),
        ).count(x) + crate::ranking::scored_ids(parts[n - 1]).count(x));
        if shards[n - 1] != shard_of(x.id, shard_count) {
            assert(crate::ranking::scored_ids(parts[n - 1]).count(x) == 0);
        }
    }
}

/// The scores that one shard's answer rests on.
spec fn scores_of<A: Fn(u32, u32, u32) -> u32, Q: Fn(u32, u32, u32) -> u32>(
    top: Seq<ScoredId>,
    kernel: Kernel<A, Q>,
    records: Map<u64, RecordView>,
    query: Seq<u32>,
    k: nat,
) -> Map<u64, u32> {
    choose|scores: Map<u64, u32>| #[trigger]
        similarities(kernel, records, query, scores) && crate::ranking::is_top_k(
            top,
            crate::ranking::scored_ids(scores),
            k,
        )
}

/// The shards that answer are answered for exactly: whichever shards those are, where each of them
/// answers from its part of a collection, the merged answer is the exact top `k` of their parts
/// together.
pub proof fn survivors_answer_for_their_parts<
    A: Fn(u32, u32, u32) -> u32,
    Q: Fn(u32, u32, u32) -> u32,
>(
    merged: Seq<ScoredId>,
    tops: Seq<Seq<ScoredId>>,
    shards: Seq<int>,
    kernel: Kernel<A, Q>,
    records: Map<u64, RecordView>,
    shard_count: u32,
    query: Seq<u32>,
    k: nat,
)
    requires
        records.dom().finite(),
        shards.no_duplicates(),
        tops.len() == shards.len(),
        forall|i: int|
            0 <= i < shards.len() ==> answers(
                #[trigger] tops[i],
                kernel,
                slice(records, shard_count, shards[i]),
                query,
                k,
            ),
        crate::ranking::is_top_k(
            merged,
            crate::ranking::union_of(crate::ranking::as_multisets(tops)),
            k,
        ),
    ensures
        answers(merged, kernel, parts_held(records, shard_count, shards), query, k),
{
    let n = shards.len();
    let held = parts_held(records, shard_count, shards);
    let part = |i: int| slice(records, shard_count, shards[i]);
    let parts = Seq::new(n, |i: int| scores_of(tops[i], kernel, part(i), query, k));
    assert forall|i: int| 0 <= i < n implies {
        &&& similarities(kernel, part(i), query, #[trigger] parts[i])
        &&& crate::ranking::is_top_k(tops[i], crate::ranking::scored_ids(parts[i]), k)
        &&& parts[i].dom().finite()
    } by {
        assert(answers(tops[i], kernel, part(i), query, k));
        assert(part(i).dom().subset_of(records.dom()));
        vstd::set_lib::lemma_set_subset_finite(records.dom(), part(i).dom());
    }
    assert forall|i: int, id: u64|
        0 <= i < parts.len() && #[trigger] parts[i].contains_key(id) implies shard_of(
        id,
        shard_count,
    ) == shards[i] by {
        assert(parts[i].dom().contains(id));
        assert(part(i).dom().contains(id));
    }
    let place = |id: u64|
        choose|i: int| 0 <= i < n && (#[trigger] shards[i]) == shard_of(id, shard_count);
    let scores = Map::new(|id: u64| held.contains_key(id), |id: u64| parts[place(id)][id]);
    assert(scores.dom() =~= held.dom());
    assert(held.dom().subset_of(records.dom()));
    vstd::set_lib::lemma_set_subset_finite(records.dom(), held.dom());
    assert forall|id: u64| #[trigger] held.contains_key(id) implies {
        &&& 0 <= place(id) < n
        &&& shards[place(id)] == shard_of(id, shard_count)
        &&& part(place(id)).contains_key(id)
    } by {
        let i = choose|i: int| 0 <= i < n && shards[i] == shard_of(id, shard_count);
        assert(shards[i] == shard_of(id, shard_count));
    }
    assert forall|id: u64| #[trigger]
        held.contains_key(id) implies crate::similarity::is_similarity(
        kernel,
        held[id].embedding,
        query,
        scores[id],
    ) by {
        let i = place(id);
        assert(similarities(kernel, part(i), query, parts[i]));
        assert(part(i).contains_key(id));
    }
    assert(similarities(kernel, held, query, scores));
    let lists = Seq::new(n, |i: int| crate::ranking::scored_ids(parts[i]));
    assert forall|x: ScoredId|
        crate::ranking::union_of(lists).count(x) == crate::ranking::scored_ids(scores).count(x) by {
        lemma_union_of_parts(parts, shards, shard_count, n as int, x);
        crate::ranking::lemma_scored_ids(scores, x);
        if shards.contains(shard_of(x.id, shard_count)) {
            let i = place(x.id);
            let j = choose|j: int| 0 <= j < n && shards[j] == shard_of(x.id, shard_count);
            assert(shards[j] == shard_of(x.id, shard_count));
            assert(0 <= i < n && shards[i] == shard_of(x.id, shard_count));
            crate::ranking::lemma_scored_ids(parts[i], x);
            assert(similarities(kernel, part(i), query, parts[i]));
            assert(parts[i].dom().contains(x.id) <==> part(i).dom().contains(x.id));
        } else {
            assert forall|i: int| 0 <= i < n implies (#[trigger] shards[i]) != shard_of(
                x.id,
                shard_count,
            ) by {
                assert(shards.contains(shards[i]));
            }
        }
    }
    assert(crate::ranking::union_of(lists) =~= crate::ranking::scored_ids(scores));
    assert forall|i: int| 0 <= i < lists.len() implies crate::ranking::is_top_k(
        #[trigger] tops[i],
        lists[i],
        k,
    ) by {
        assert(similarities(kernel, part(i), query, parts[i]));
    }
    crate::ranking::merge_is_exact(merged, tops, lists, k);
}

/// A cluster answers as one node does: where every shard answers from its part of a collection,
/// the merged answer is the exact top `k` of the whole collection.
pub proof fn cluster_answers_as_one_node<
    A: Fn(u32, u32, u32) -> u32,
    Q: Fn(u32, u32, u32) -> u32,
>(
    merged: Seq<ScoredId>,
    tops: Seq<Seq<ScoredId>>,
    kernel: Kernel<A, Q>,
    records: Map<u64, RecordView>,
    shard_count: u32,
    query: Seq<u32>,
    k: nat,
)
    requires
        shard_count > 0,
        records.dom().finite(),
        tops.len() == shard_count,
        forall|s: int|
            0 <= s < shard_count ==> answers(
                #[trigger] tops[s],
                kernel,
                slice(records, shard_count, s),
                query,
                k,
            ),
        crate::ranking::is_top_k(
            merged,
            crate::ranking::union_of(crate::ranking::as_multisets(tops)),
            k,
        ),
    ensures
        answers(merged, kernel, records, query, k),
{
    let shards = Seq::new(shard_count as nat, |s: int| s);
    survivors_answer_for_their_parts(
        merged,
        tops,
        shards,
        kernel,
        records,
        shard_count,
        query,
        k,
    );
    assert forall|id: u64| #[trigger] records.contains_key(id) implies shards.contains(
        shard_of(id, shard_count),
    ) by {
        parts_are_disjoint_and_complete(records, shard_count, id, 0);
        assert(shards[shard_of(id, shard_count)] == shard_of(id, shard_count));
    }
    assert(parts_held(records, shard_count, shards) =~= records);
}

/// The cluster and the oracle agree: where the kernel's operations are functions, the merged
/// answer of the shards is, id for id and bit for bit, the answer of one node that holds the whole
/// collection.
pub proof fn cluster_matches_the_oracle<
    A: Fn(u32, u32, u32) -> u32,
    Q: Fn(u32, u32, u32) -> u32,
>(
    merged: Seq<ScoredId>,
    tops: Seq<Seq<ScoredId>>,
    oracle: Seq<ScoredId>,
    kernel: Kernel<A, Q>,
    records: Map<u64, RecordView>,
    shard_count: u32,
    query: Seq<u32>,
    k: nat,
)
    requires
        crate::similarity::functional(kernel),
        shard_count > 0,
        records.dom().finite(),
        tops.len() == shard_count,
        forall|s: int|
            0 <= s < shard_count ==> answers(
                #[trigger] tops[s],
                kernel,
                slice(records, shard_count, s),
                query,
                k,
            ),
        crate::ranking::is_top_k(
            merged,
            crate::ranking::union_of(crate::ranking::as_multisets(tops)),
            k,
        ),
        answers(oracle, kernel, records, query, k),
    ensures
        merged == oracle,
{
    cluster_answers_as_one_node(merged, tops, kernel, records, shard_count, query, k);
    crate::collection::answers_are_determined(merged, oracle, kernel, records, query, k);
}

proof fn lemma_in_some_part(lists: Seq<Seq<ScoredId>>, x: ScoredId)
    requires
        crate::ranking::union_of(crate::ranking::as_multisets(lists)).count(x) > 0,
    ensures
        exists|s: int| 0 <= s < lists.len() && (#[trigger] lists[s]).contains(x),
    decreases lists.len(),
{
    broadcast use vstd::multiset::group_multiset_axioms;
    broadcast use vstd::seq_lib::group_to_multiset_ensures;

    let all = crate::ranking::as_multisets(lists);
    if lists.len() > 0 {
        let before = lists.drop_last();
        assert(all.drop_last() =~= crate::ranking::as_multisets(before));
        if lists.last().to_multiset().count(x) > 0 {
            assert(lists[lists.len() - 1].contains(x));
        } else {
            lemma_in_some_part(before, x);
            let s = choose|s: int| 0 <= s < before.len() && (#[trigger] before[s]).contains(x);
            assert(lists[s].contains(x));
        }
    }
}

/// Where every result for an id carries the same metadata, that is what is noted for the id.
proof fn lemma_noted(
    metadata: Map<u64, Map<String, String>>,
    results: Seq<ResultView>,
    id: u64,
    want: Map<String, String>,
)
    requires
        metadata.contains_key(id) ==> metadata[id] == want,
        forall|i: int|
            0 <= i < results.len() && (#[trigger] results[i]).id == id ==> results[i].metadata
                == want,
    ensures
        crate::gather::noted(metadata, results).contains_key(id) ==> crate::gather::noted(
            metadata,
            results,
        )[id] == want,
        metadata.contains_key(id) ==> crate::gather::noted(metadata, results).contains_key(id),
        forall|i: int|
            0 <= i < results.len() && (#[trigger] results[i]).id == id ==> crate::gather::noted(
                metadata,
                results,
            ).contains_key(id),
    decreases results.len(),
{
    if results.len() > 0 {
        let before = results.drop_last();
        assert forall|i: int|
            0 <= i < before.len() && (#[trigger] before[i]).id == id implies before[i].metadata
            == want by {
            assert(results[i] == before[i]);
        }
        lemma_noted(metadata, before, id, want);
        assert(results[results.len() - 1] == results.last());
        assert forall|i: int|
            0 <= i < results.len() && (
            #[trigger] results[i]).id == id implies crate::gather::noted(
            metadata,
            results,
        ).contains_key(id) by {
            if i < before.len() {
                assert(before[i] == results[i]);
            }
        }
    }
}

proof fn lemma_noted_all(
    lists: Seq<Seq<ResultView>>,
    id: u64,
    want: Map<String, String>,
)
    requires
        forall|s: int, i: int|
            0 <= s < lists.len() && 0 <= i < lists[s].len() && (#[trigger] lists[s][i]).id == id
                ==> lists[s][i].metadata == want,
    ensures
        crate::gather::noted_all(lists).contains_key(id) ==> crate::gather::noted_all(lists)[id]
            == want,
        forall|s: int, i: int|
            0 <= s < lists.len() && 0 <= i < lists[s].len() && (#[trigger] lists[s][i]).id == id
                ==> crate::gather::noted_all(lists).contains_key(id),
    decreases lists.len(),
{
    if lists.len() > 0 {
        let before = lists.drop_last();
        let last = lists.last();
        assert forall|s: int, i: int|
            0 <= s < before.len() && 0 <= i < before[s].len() && (#[trigger] before[s][i]).id
                == id implies before[s][i].metadata == want by {
            assert(lists[s][i] == before[s][i]);
        }
        lemma_noted_all(before, id, want);
        assert forall|i: int|
            0 <= i < last.len() && (#[trigger] last[i]).id == id implies last[i].metadata
            == want by {
            assert(lists[lists.len() - 1][i] == last[i]);
        }
        lemma_noted(crate::gather::noted_all(before), last, id, want);
        assert forall|s: int, i: int|
            0 <= s < lists.len() && 0 <= i < lists[s].len() && (#[trigger] lists[s][i]).id
                == id implies crate::gather::noted_all(lists).contains_key(id) by {
            if s < before.len() {
                assert(before[s][i] == lists[s][i]);
            } else {
                assert(last[i] == lists[s][i]);
            }
        }
    }
}

/// A search of a healthy cluster gives what a search of one node would: where every shard answers
/// from its part of a collection, the merged results are the exact top `k` of the whole
/// collection, each with its own metadata.
pub proof fn cluster_results_are_one_nodes<
    A: Fn(u32, u32, u32) -> u32,
    Q: Fn(u32, u32, u32) -> u32,
>(
    merged: Seq<ResultView>,
    lists: Seq<Seq<ResultView>>,
    kernel: Kernel<A, Q>,
    records: Map<u64, RecordView>,
    shard_count: u32,
    query: Seq<u32>,
    k: nat,
)
    requires
        shard_count > 0,
        records.dom().finite(),
        lists.len() == shard_count,
        forall|s: int|
            0 <= s < shard_count ==> are_results(
                #[trigger] lists[s],
                kernel,
                slice(records, shard_count, s),
                query,
                k,
            ),
        crate::gather::is_merge(merged, lists, k),
    ensures
        are_results(merged, kernel, records, query, k),
{
    broadcast use vstd::seq_lib::group_to_multiset_ensures;

    let tops = crate::gather::ranked_lists(lists);
    let top = crate::message::ranked(merged);
    assert forall|s: int| 0 <= s < shard_count implies answers(
        #[trigger] tops[s],
        kernel,
        slice(records, shard_count, s),
        query,
        k,
    ) by {
        assert(are_results(lists[s], kernel, slice(records, shard_count, s), query, k));
    }
    cluster_answers_as_one_node(top, tops, kernel, records, shard_count, query, k);
    crate::collection::answers_come_from_the_collection(top, kernel, records, query, k);
    assert forall|i: int| 0 <= i < merged.len() implies (#[trigger] merged[i]).metadata
        == crate::node::held_metadata(records, merged[i].id) by {
        let id = merged[i].id;
        let want = records[id].metadata;
        assert(top[i].id == id);
        assert forall|s: int, j: int|
            0 <= s < lists.len() && 0 <= j < lists[s].len() && (#[trigger] lists[s][j]).id
                == id implies lists[s][j].metadata == want by {
            let part = slice(records, shard_count, s);
            assert(are_results(lists[s], kernel, part, query, k));
            assert(part.dom().subset_of(records.dom()));
            vstd::set_lib::lemma_set_subset_finite(records.dom(), part.dom());
            crate::collection::answers_come_from_the_collection(tops[s], kernel, part, query, k);
            assert(tops[s][j].id == id);
            assert(part.contains_key(id));
        }
        lemma_noted_all(lists, id, want);
        assert(top.contains(top[i]));
        assert(top.to_multiset().count(top[i]) > 0);
        lemma_in_some_part(tops, top[i]);
        let s = choose|s: int| 0 <= s < tops.len() && (#[trigger] tops[s]).contains(top[i]);
        assert(tops[s].contains(top[i]));
        let j = choose|j: int| 0 <= j < tops[s].len() && tops[s][j] == top[i];
        assert(lists[s][j].id == id);
        assert(!crate::gather::occurs(merged, i, id)) by {
            if crate::gather::occurs(merged, i, id) {
                let m = choose|m: int| 0 <= m < i && (#[trigger] merged[m]).id == id;
                assert(top[m].id == top[i].id);
            }
        }
        assert(merged[i].metadata == crate::gather::carried(
            crate::gather::noted_all(lists),
            merged,
            i,
        ));
    }
}

/// How many items the first shards have between them.
spec fn grouped_below<T>(items: Seq<T>, keys: Seq<u64>, shard_count: u32, n: int) -> int
    decreases n,
{
    if n <= 0 {
        0
    } else {
        grouped_below(items, keys, shard_count, n - 1) + grouped(
            items,
            keys,
            shard_count,
            n - 1,
        ).len()
    }
}

proof fn lemma_grouped_below<T>(items: Seq<T>, keys: Seq<u64>, shard_count: u32, n: int)
    requires
        items.len() > 0,
        0 <= n <= shard_count,
        0 <= shard_of(keys.last(), shard_count) < shard_count,
    ensures
        grouped_below(items, keys, shard_count, n) == grouped_below(
            items.drop_last(),
            keys.drop_last(),
            shard_count,
            n,
        ) + if shard_of(keys.last(), shard_count) < n {
            1int
        } else {
            0int
        },
    decreases n,
{
    if n > 0 {
        lemma_grouped_below(items, keys, shard_count, n - 1);
    }
}

proof fn lemma_groups_have_all<T>(items: Seq<T>, keys: Seq<u64>, shard_count: u32)
    requires
        shard_count > 0,
        keys.len() == items.len(),
    ensures
        grouped_below(items, keys, shard_count, shard_count as int) == items.len(),
    decreases items.len(),
{
    if items.len() == 0 {
        lemma_no_groups(items, keys, shard_count, shard_count as int);
    } else {
        vstd::arithmetic::div_mod::lemma_mod_bound(
            crate::sharding::fx(keys.last()),
            shard_count as int,
        );
        lemma_grouped_below(items, keys, shard_count, shard_count as int);
        lemma_groups_have_all(items.drop_last(), keys.drop_last(), shard_count);
    }
}

proof fn lemma_no_groups<T>(items: Seq<T>, keys: Seq<u64>, shard_count: u32, n: int)
    requires
        items.len() == 0,
    ensures
        grouped_below(items, keys, shard_count, n) == 0,
    decreases n,
{
    if n > 0 {
        lemma_no_groups(items, keys, shard_count, n - 1);
    }
}

/// How many items the first calls hand over.
pub open spec fn handed_over<T>(calls: Seq<(usize, Seq<T>)>, n: int) -> int
    decreases n,
{
    if n <= 0 {
        0
    } else {
        handed_over(calls, n - 1) + calls[n - 1].1.len()
    }
}

/// Shards that are not called have nothing.
proof fn lemma_gap<T>(
    calls: Seq<(usize, Seq<T>)>,
    items: Seq<T>,
    keys: Seq<u64>,
    shard_count: u32,
    from: int,
    to: int,
)
    requires
        crate::router::routed(calls, items, keys, shard_count),
        0 <= from <= to <= shard_count,
        forall|i: int| 0 <= i < calls.len() ==> !(from <= (#[trigger] calls[i]).0 < to),
    ensures
        grouped_below(items, keys, shard_count, to) == grouped_below(
            items,
            keys,
            shard_count,
            from,
        ),
    decreases to - from,
{
    if from < to {
        let shard = to - 1;
        if grouped(items, keys, shard_count, shard).len() > 0 {
            let i = choose|i: int| 0 <= i < calls.len() && (#[trigger] calls[i]).0 == shard;
            assert(calls[i].0 == shard);
        }
        lemma_gap(calls, items, keys, shard_count, from, to - 1);
    }
}

proof fn lemma_handed_over<T>(
    calls: Seq<(usize, Seq<T>)>,
    items: Seq<T>,
    keys: Seq<u64>,
    shard_count: u32,
    n: int,
)
    requires
        crate::router::routed(calls, items, keys, shard_count),
        0 <= n <= calls.len(),
    ensures
        handed_over(calls, n) == grouped_below(
            items,
            keys,
            shard_count,
            if n == 0 {
                0
            } else {
                calls[n - 1].0 + 1
            },
        ),
    decreases n,
{
    if n > 0 {
        lemma_handed_over(calls, items, keys, shard_count, n - 1);
        let from = if n == 1 {
            0
        } else {
            calls[n - 2].0 + 1
        };
        let to = calls[n - 1].0 as int;
        assert(calls[n - 1].0 < shard_count);
        assert(from <= to) by {
            if n > 1 {
                assert(calls[n - 2].0 < calls[n - 1].0);
            }
        }
        assert forall|i: int| 0 <= i < calls.len() implies !(from <= (#[trigger] calls[i]).0
            < to) by {
            if i < n - 2 {
                assert(calls[i].0 < calls[n - 2].0);
            } else if i > n - 1 {
                assert(calls[n - 1].0 < calls[i].0);
            }
        }
        lemma_gap(calls, items, keys, shard_count, from, to);
        assert(calls[n - 1].1 == grouped(items, keys, shard_count, to));
    }
}

/// A routed request hands over every item, once.
pub proof fn calls_hand_over_everything<T>(
    calls: Seq<(usize, Seq<T>)>,
    items: Seq<T>,
    keys: Seq<u64>,
    shard_count: u32,
)
    requires
        shard_count > 0,
        keys.len() == items.len(),
        crate::router::routed(calls, items, keys, shard_count),
    ensures
        handed_over(calls, calls.len() as int) == items.len(),
{
    let n = calls.len() as int;
    lemma_handed_over(calls, items, keys, shard_count, n);
    lemma_groups_have_all(items, keys, shard_count);
    let from = if n == 0 {
        0
    } else {
        calls[n - 1].0 + 1
    };
    if n > 0 {
        assert(calls[n - 1].0 < shard_count);
    }
    assert forall|i: int| 0 <= i < calls.len() implies !(from <= (#[trigger] calls[i]).0
        < shard_count) by {
        if i < n - 1 {
            assert(calls[i].0 < calls[n - 1].0);
        }
    }
    lemma_gap(calls, items, keys, shard_count, from, shard_count as int);
}

proof fn lemma_counts_bounded<T>(
    calls: Seq<(usize, Seq<T>)>,
    results: Seq<Result<u32, RouterError>>,
    n: int,
)
    requires
        0 <= n <= calls.len(),
        results.len() == calls.len(),
        forall|i: int|
            0 <= i < calls.len() ==> ((#[trigger] results[i]) matches Ok(count) && count
                <= calls[i].1.len()),
    ensures
        crate::gather::sum_counts(results.take(n)) <= handed_over(calls, n),
        crate::gather::sum_counts(results.take(n)) == handed_over(calls, n) ==> forall|i: int|
            0 <= i < n ==> ((#[trigger] results[i]) matches Ok(count) && count
                == calls[i].1.len()),
    decreases n,
{
    if n > 0 {
        lemma_counts_bounded(calls, results, n - 1);
        assert(results.take(n).drop_last() =~= results.take(n - 1));
        assert(results.take(n).last() == results[n - 1]);
        assert(results[n - 1] is Ok);
    } else {
        assert(results.take(n) =~= Seq::empty());
    }
}

/// A request that is acknowledged in full is acknowledged by every shard that has a share in it:
/// where the shards' counts come to the number of items, each shard counted all that it was handed.
/// Each of them has then stored its records, or holds none of its ids.
pub proof fn full_counts_come_from_every_shard<T>(
    calls: Seq<(usize, Seq<T>)>,
    items: Seq<T>,
    keys: Seq<u64>,
    shard_count: u32,
    results: Seq<Result<u32, RouterError>>,
)
    requires
        shard_count > 0,
        keys.len() == items.len(),
        items.len() < 0x1_0000_0000,
        crate::router::routed(calls, items, keys, shard_count),
        results.len() == calls.len(),
        forall|i: int|
            0 <= i < calls.len() ==> ((#[trigger] results[i]) matches Ok(count) && count
                <= calls[i].1.len()),
        crate::gather::sum_counts(results) % 0x1_0000_0000 == items.len(),
    ensures
        forall|i: int|
            0 <= i < calls.len() ==> ((#[trigger] results[i]) matches Ok(count) && count
                == calls[i].1.len() && count > 0),
{
    let n = calls.len() as int;
    calls_hand_over_everything(calls, items, keys, shard_count);
    lemma_counts_bounded(calls, results, n);
    assert(results.take(n) =~= results);
    assert forall|i: int| 0 <= i < calls.len() implies ((#[trigger] results[i]) matches Ok(count)
        && count == calls[i].1.len() && count > 0) by {
        assert(calls[i].1.len() > 0);
    }
}

/// A request that changes what is held.
pub enum Request {
    Create { name: Seq<char>, dim: int, shard_count: u32 },
    Insert { name: Seq<char>, records: Seq<RecordView> },
    Delete { name: Seq<char>, ids: Seq<u64> },
}

/// The store after a request. A refused one changes nothing.
pub open spec fn asked(
    store: Map<Seq<char>, CollectionView>,
    request: Request,
) -> Map<Seq<char>, CollectionView> {
    let outcome = match request {
        Request::Create { name, dim, shard_count } => creation(store, name, dim, shard_count),
        Request::Insert { name, records } => insertion(store, name, records),
        Request::Delete { name, ids } => deletion(store, name, ids.to_set()),
    };
    match outcome {
        Ok(after) => after,
        Err(_) => store,
    }
}

/// The store after requests, from an empty one.
pub open spec fn asked_all(history: Seq<Request>) -> Map<Seq<char>, CollectionView>
    decreases history.len(),
{
    if history.len() == 0 {
        Map::empty()
    } else {
        asked(asked_all(history.drop_last()), history.last())
    }
}

/// A shard's share of a request: all of a creation, with the cluster's number of shards, and of the
/// rest what the router sends it. A share without records or ids changes nothing.
pub open spec fn share_of(request: Request, shard_count: u32, shard: int) -> Request {
    match request {
        Request::Create { name, dim, .. } => Request::Create { name, dim, shard_count },
        Request::Insert { name, records } => Request::Insert {
            name,
            records: grouped(records, view_ids(records), shard_count, shard),
        },
        Request::Delete { name, ids } => Request::Delete {
            name,
            ids: grouped(ids, ids, shard_count, shard),
        },
    }
}

/// A shard's share of requests.
pub open spec fn shares(history: Seq<Request>, shard_count: u32, shard: int) -> Seq<Request> {
    Seq::new(history.len(), |i: int| share_of(history[i], shard_count, shard))
}

/// Whether no insert hands a collection an embedding of another dimension.
pub open spec fn fitting(history: Seq<Request>) -> bool {
    forall|i: int|
        0 <= i < history.len() ==> ((#[trigger] history[i]) matches Request::Insert {
            name,
            records,
        } ==> !(insertion(asked_all(history.take(i)), name, records) matches Err(
            StoreFault::DimensionMismatch { .. },
        )))
}

/// Whether a shard holds its part of what a store holds.
pub open spec fn holds_part(
    part: Map<Seq<char>, CollectionView>,
    whole: Map<Seq<char>, CollectionView>,
    shard_count: u32,
    shard: int,
) -> bool {
    &&& part.dom() == whole.dom()
    &&& forall|name: Seq<char>| #[trigger]
        whole.contains_key(name) ==> part[name].dim == whole[name].dim && part[name].records
            == slice(whole[name].records, shard_count, shard)
}

proof fn lemma_step_kept(
    part: Map<Seq<char>, CollectionView>,
    whole: Map<Seq<char>, CollectionView>,
    request: Request,
    shard_count: u32,
    shard: int,
)
    requires
        holds_part(part, whole, shard_count, shard),
        request matches Request::Insert { name, records } ==> !(insertion(
            whole,
            name,
            records,
        ) matches Err(StoreFault::DimensionMismatch { .. })),
    ensures
        holds_part(
            asked(part, share_of(request, shard_count, shard)),
            asked(whole, request),
            shard_count,
            shard,
        ),
{
    let after_part = asked(part, share_of(request, shard_count, shard));
    let after = asked(whole, request);
    match request {
        Request::Create { name, dim, shard_count: n } => {
            assert(part.dom().contains(name) == whole.dom().contains(name));
            assert(slice(Map::empty(), shard_count, shard) =~= Map::<u64, RecordView>::empty());
        },
        Request::Insert { name, records } => {
            assert(part.dom().contains(name) == whole.dom().contains(name));
            if whole.contains_key(name) {
                let dim = whole[name].dim;
                let group = grouped(records, view_ids(records), shard_count, shard);
                lemma_all_fit(records, dim);
                assert forall|j: int| 0 <= j < group.len() implies (
                #[trigger] group[j]).embedding.len() == dim by {
                    lemma_grouped_from(records, view_ids(records), shard_count, shard, j);
                    let i = choose|i: int|
                        0 <= i < records.len() && (#[trigger] records[i]) == group[j];
                    assert(records[i].embedding.len() == dim);
                }
                lemma_all_fit(group, dim);
                inserts_keep_the_parts(whole[name].records, records, shard_count, shard);
            }
        },
        Request::Delete { name, ids } => {
            assert(part.dom().contains(name) == whole.dom().contains(name));
            if whole.contains_key(name) {
                deletes_keep_the_parts(whole[name].records, ids, shard_count, shard);
            }
        },
    }
    assert(after_part.dom() =~= after.dom());
    assert forall|n: Seq<char>| #[trigger] after.contains_key(n) implies after_part[n].dim
        == after[n].dim && after_part[n].records == slice(
        after[n].records,
        shard_count,
        shard,
    ) by {
        if whole.contains_key(n) {
            assert(part[n].dim == whole[n].dim);
        }
    }
}

/// A cluster keeps step through any history: after the same requests, in which no insert hands a
/// collection an embedding of another dimension, every shard holds its part of what one store
/// holds.
pub proof fn cluster_keeps_step_through_any_history(
    history: Seq<Request>,
    shard_count: u32,
    shard: int,
)
    requires
        fitting(history),
    ensures
        holds_part(
            asked_all(shares(history, shard_count, shard)),
            asked_all(history),
            shard_count,
            shard,
        ),
    decreases history.len(),
{
    let sent = shares(history, shard_count, shard);
    if history.len() > 0 {
        let before = history.drop_last();
        assert forall|i: int| 0 <= i < before.len() implies ((
        #[trigger] before[i]) matches Request::Insert { name, records } ==> !(insertion(
            asked_all(before.take(i)),
            name,
            records,
        ) matches Err(StoreFault::DimensionMismatch { .. }))) by {
            assert(history[i] == before[i]);
            assert(before.take(i) =~= history.take(i));
        }
        cluster_keeps_step_through_any_history(before, shard_count, shard);
        assert(sent.drop_last() =~= shares(before, shard_count, shard));
        let last = history.len() - 1;
        assert(history.take(last) =~= before);
        assert(history[last] == history.last());
        lemma_step_kept(
            asked_all(sent.drop_last()),
            asked_all(before),
            history.last(),
            shard_count,
            shard,
        );
    }
}

proof fn lemma_upserted_finite(records: Map<u64, RecordView>, new: Seq<RecordView>)
    requires
        records.dom().finite(),
    ensures
        upserted(records, new).dom().finite(),
    decreases new.len(),
{
    if new.len() > 0 {
        lemma_upserted_finite(records, new.drop_last());
    }
}

proof fn lemma_history_finite(history: Seq<Request>, name: Seq<char>)
    requires
        asked_all(history).contains_key(name),
    ensures
        asked_all(history)[name].records.dom().finite(),
    decreases history.len(),
{
    if history.len() > 0 {
        let before = asked_all(history.drop_last());
        if before.contains_key(name) {
            lemma_history_finite(history.drop_last(), name);
            match history.last() {
                Request::Insert { name: n, records } => {
                    lemma_upserted_finite(before[name].records, records);
                },
                Request::Delete { name: n, ids } => {
                    let after = before[name].records.remove_keys(ids.to_set());
                    assert(after.dom().subset_of(before[name].records.dom()));
                    vstd::set_lib::lemma_set_subset_finite(
                        before[name].records.dom(),
                        after.dom(),
                    );
                },
                _ => {},
            }
        }
    }
}

proof fn lemma_all_answered(responses: Seq<Option<SearchResponse>>)
    requires
        forall|i: int| 0 <= i < responses.len() ==> (#[trigger] responses[i]) is Some,
    ensures
        crate::gather::answered(responses).len() == responses.len(),
        forall|i: int|
            0 <= i < responses.len() ==> #[trigger] crate::gather::answered(responses)[i]
                == crate::message::result_views(responses[i]->Some_0.results@),
    decreases responses.len(),
{
    if responses.len() > 0 {
        let before = responses.drop_last();
        assert forall|i: int| 0 <= i < before.len() implies (#[trigger] before[i]) is Some by {
            assert(responses[i] == before[i]);
        }
        lemma_all_answered(before);
        assert(responses[responses.len() - 1] is Some);
        let all = crate::gather::answered(responses);
        assert forall|i: int| 0 <= i < responses.len() implies #[trigger] all[i]
            == crate::message::result_views(responses[i]->Some_0.results@) by {
            if i < before.len() {
                assert(all[i] == crate::gather::answered(before)[i]);
            }
        }
    }
}

/// The cluster answers as one store does, through any history: give both the same requests, in
/// which no insert hands a collection an embedding of another dimension. Where every shard then
/// answers a search from what it holds, the gathered results are those of the one store: the same
/// ids with the same scores, bit for bit and in the same order, ties included, each with its
/// metadata. Every shard counts as queried and none as failed. The kernel's operations are taken to
/// be functions.
pub proof fn cluster_answers_as_one_store_after_any_history<
    A: Fn(u32, u32, u32) -> u32,
    Q: Fn(u32, u32, u32) -> u32,
>(
    history: Seq<Request>,
    shard_count: u32,
    name: Seq<char>,
    kernel: Kernel<A, Q>,
    query: Seq<u32>,
    k: nat,
    responses: Seq<Option<SearchResponse>>,
    gathered: (Seq<ResultView>, u32, u32),
    oracle: Seq<ScoredId>,
)
    requires
        crate::similarity::functional(kernel),
        fitting(history),
        asked_all(history).contains_key(name),
        shard_count > 0,
        responses.len() == shard_count,
        forall|s: int|
            0 <= s < shard_count ==> ((#[trigger] responses[s]) matches Some(response)
                && are_results(
                crate::message::result_views(response.results@),
                kernel,
                asked_all(shares(history, shard_count, s))[name].records,
                query,
                k,
            )),
        crate::gather::is_merge(gathered.0, crate::gather::answered(responses), k),
        gathered.1 == responses.len() % 0x1_0000_0000,
        gathered.2 == (responses.len() - crate::gather::answered(responses).len())
            % 0x1_0000_0000,
        answers(oracle, kernel, asked_all(history)[name].records, query, k),
    ensures
        crate::message::ranked(gathered.0) == oracle,
        are_results(gathered.0, kernel, asked_all(history)[name].records, query, k),
        gathered.1 == shard_count,
        gathered.2 == 0,
{
    let records = asked_all(history)[name].records;
    let lists = crate::gather::answered(responses);
    assert forall|i: int| 0 <= i < responses.len() implies (#[trigger] responses[i]) is Some by {}
    lemma_all_answered(responses);
    lemma_history_finite(history, name);
    assert forall|s: int| 0 <= s < shard_count implies are_results(
        #[trigger] lists[s],
        kernel,
        slice(records, shard_count, s),
        query,
        k,
    ) by {
        cluster_keeps_step_through_any_history(history, shard_count, s);
        assert(responses[s] is Some);
    }
    cluster_results_are_one_nodes(
        gathered.0,
        lists,
        kernel,
        records,
        shard_count,
        query,
        k,
    );
    crate::collection::answers_are_determined(
        crate::message::ranked(gathered.0),
        oracle,
        kernel,
        records,
        query,
        k,
    );
}

/// What the first shards of a cluster hold between them.
spec fn held_below(
    store: Map<Seq<char>, CollectionView>,
    shard_count: u32,
    n: int,
) -> Map<Seq<char>, CollectionView> {
    Map::new(
        |name: Seq<char>| store.contains_key(name),
        |name: Seq<char>|
            CollectionView { records: records_below(store[name].records, shard_count, n), ..store[name] },
    )
}

spec fn records_below(records: Map<u64, RecordView>, shard_count: u32, n: int) -> Map<
    u64,
    RecordView,
> {
    Map::new(
        |id: u64| records.contains_key(id) && shard_of(id, shard_count) < n,
        |id: u64| records[id],
    )
}

proof fn lemma_total_below(
    store: Map<Seq<char>, CollectionView>,
    names: Seq<Seq<char>>,
    shard_count: u32,
    n: int,
)
    requires
        0 <= n,
        forall|i: int|
            0 <= i < names.len() ==> store.contains_key(#[trigger] names[i])
                && store[names[i]].records.dom().finite(),
    ensures
        crate::collection::total_vectors(held_below(store, shard_count, n + 1), names)
            == crate::collection::total_vectors(held_below(store, shard_count, n), names)
            + crate::collection::total_vectors(part_of(store, shard_count, n), names),
    decreases names.len(),
{
    if names.len() > 0 {
        let before = names.drop_last();
        let name = names.last();
        assert(names[names.len() - 1] == name);
        assert forall|i: int| 0 <= i < before.len() implies store.contains_key(
            #[trigger] before[i],
        ) && store[before[i]].records.dom().finite() by {
            assert(before[i] == names[i]);
        }
        lemma_total_below(store, before, shard_count, n);
        let records = store[name].records;
        let low = records_below(records, shard_count, n).dom();
        let here = slice(records, shard_count, n).dom();
        vstd::set_lib::lemma_set_subset_finite(records.dom(), low);
        vstd::set_lib::lemma_set_subset_finite(records.dom(), here);
        assert(low.disjoint(here));
        vstd::set_lib::lemma_set_disjoint_lens(low, here);
        assert(records_below(records, shard_count, n + 1).dom() =~= low + here);
    }
}

proof fn lemma_total_of_shards(
    store: Map<Seq<char>, CollectionView>,
    names: Seq<Seq<char>>,
    shard_count: u32,
    replies: Seq<Option<ClusterStatusResponse>>,
    n: int,
)
    requires
        shard_count > 0,
        0 <= n <= replies.len(),
        names.no_duplicates(),
        names.to_set() == store.dom(),
        forall|name: Seq<char>| #[trigger]
            store.contains_key(name) ==> store[name].records.dom().finite(),
        forall|s: int|
            0 <= s < replies.len() ==> ((#[trigger] replies[s]) matches Some(reply)
                && crate::store::is_status(
                part_of(store, shard_count, s),
                (reply.collections, reply.vector_count),
            )),
    ensures
        crate::gather::vectors_in(replies.take(n)) % 0x1_0000_0000
            == crate::collection::total_vectors(held_below(store, shard_count, n), names)
            % 0x1_0000_0000,
    decreases n,
{
    assert forall|i: int| 0 <= i < names.len() implies store.contains_key(#[trigger] names[i])
        && store[names[i]].records.dom().finite() by {
        assert(names.to_set().contains(names[i]));
    }
    if n == 0 {
        assert(replies.take(0) =~= Seq::empty());
        lemma_nothing_below(store, names, shard_count);
    } else {
        lemma_total_of_shards(store, names, shard_count, replies, n - 1);
        lemma_total_below(store, names, shard_count, n - 1);
        let reply = replies[n - 1]->Some_0;
        assert(replies[n - 1] is Some);
        crate::gather::statuses_add_up(replies.take(n - 1), reply, Seq::empty());
        assert(replies.take(n) =~= replies.take(n - 1).push(Some(reply)));
        let part = part_of(store, shard_count, n - 1);
        let told = crate::text::views(reply.collections@);
        assert(part.dom() =~= store.dom());
        crate::collection::totals_are_unordered(part, told, names);
    }
}

proof fn lemma_nothing_below(
    store: Map<Seq<char>, CollectionView>,
    names: Seq<Seq<char>>,
    shard_count: u32,
)
    requires
        shard_count > 0,
        forall|i: int| 0 <= i < names.len() ==> store.contains_key(#[trigger] names[i]),
    ensures
        crate::collection::total_vectors(held_below(store, shard_count, 0), names) == 0,
    decreases names.len(),
{
    if names.len() > 0 {
        let name = names.last();
        assert(names[names.len() - 1] == name);
        assert forall|i: int| 0 <= i < names.drop_last().len() implies store.contains_key(
            #[trigger] names.drop_last()[i],
        ) by {
            assert(names[i] == names.drop_last()[i]);
        }
        lemma_nothing_below(store, names.drop_last(), shard_count);
        let records = store[name].records;
        assert forall|id: u64| !records_below(records, shard_count, 0).dom().contains(id) by {
            crate::sharding::shards_are_residues_of_the_hash(id, shard_count);
        }
        assert(records_below(records, shard_count, 0).dom() =~= Set::empty());
    }
}

/// The cluster's status is that of one store: where every shard replies with the status of its part
/// of what a store holds, the names are the store's and the vectors counted are the store's, modulo
/// `2^32`.
pub proof fn status_counts_the_whole_cluster(
    store: Map<Seq<char>, CollectionView>,
    names: Seq<Seq<char>>,
    shard_count: u32,
    replies: Seq<Option<ClusterStatusResponse>>,
    name: Seq<char>,
)
    requires
        shard_count > 0,
        replies.len() == shard_count,
        names.no_duplicates(),
        names.to_set() == store.dom(),
        forall|n: Seq<char>| #[trigger]
            store.contains_key(n) ==> store[n].records.dom().finite(),
        forall|s: int|
            0 <= s < shard_count ==> ((#[trigger] replies[s]) matches Some(reply)
                && crate::store::is_status(
                part_of(store, shard_count, s),
                (reply.collections, reply.vector_count),
            )),
    ensures
        crate::gather::vectors_in(replies) % 0x1_0000_0000 == crate::collection::total_vectors(
            store,
            names,
        ) % 0x1_0000_0000,
        crate::gather::names_in(replies).contains(name) <==> store.contains_key(name),
{
    let n = shard_count as int;
    lemma_total_of_shards(store, names, shard_count, replies, n);
    assert(replies.take(n) =~= replies);
    let whole = held_below(store, shard_count, n);
    assert forall|m: Seq<char>| #[trigger] whole.contains_key(m) implies whole[m] == store[m] by {
        assert forall|id: u64| #[trigger]
            store[m].records.contains_key(id) implies shard_of(id, shard_count) < n by {
            crate::sharding::shards_are_residues_of_the_hash(id, shard_count);
        }
        assert(whole[m].records =~= store[m].records);
    }
    assert(whole =~= store);
    let first = replies[0]->Some_0;
    crate::gather::statuses_add_up(replies, first, name);
    assert(replies[0] is Some);
    if store.contains_key(name) {
        crate::store::status_names_and_counts_everything(
            part_of(store, shard_count, 0),
            (first.collections, first.vector_count),
            name,
        );
        assert(part_of(store, shard_count, 0).contains_key(name));
        let j = choose|j: int|
            0 <= j < first.collections@.len() && (#[trigger] first.collections@[j])@ == name;
        assert(first.collections@[j]@ == name);
        assert(replies[0]->Some_0.collections@[j]@ == name);
    }
    if crate::gather::names_in(replies).contains(name) {
        let (i, j) = choose|i: int, j: int|
            0 <= i < replies.len() && (replies[i] matches Some(told) && 0 <= j
                < told.collections@.len() && #[trigger] replies[i]->Some_0.collections@[j]@
                == name);
        let told = replies[i]->Some_0;
        assert(replies[i] is Some);
        crate::store::status_names_and_counts_everything(
            part_of(store, shard_count, i),
            (told.collections, told.vector_count),
            name,
        );
        assert(told.collections@[j]@ == name);
        assert(part_of(store, shard_count, i).contains_key(name));
    }
}

} // verus!
