//! What collections hold and how requests change them, as mathematical values.

use crate::record::{RecordView, ScoredId, VectorRecord};
use crate::similarity::Kernel;
use vstd::prelude::*;

verus! {

/// A [`StoreError`](crate::store::StoreError) as mathematical values.
pub enum StoreFault {
    CollectionExists(Seq<char>),
    CollectionNotFound(Seq<char>),
    DimensionMismatch { expected: int, actual: int },
}

/// The text of a refusal.
pub open spec fn fault_text(fault: StoreFault) -> Seq<char> {
    match fault {
        StoreFault::CollectionExists(name) => "collection '"@ + name + "' already exists"@,
        StoreFault::CollectionNotFound(name) => "collection '"@ + name + "' not found"@,
        StoreFault::DimensionMismatch { expected, actual } => "embedding has dimension "@
            + crate::text::decimal(actual as nat) + ", expected "@ + crate::text::decimal(
            expected as nat,
        ),
    }
}

/// What a collection holds, as mathematical values.
#[verifier::ext_equal]
pub struct CollectionView {
    pub dim: int,
    pub shard_count: u32,
    pub records: Map<u64, RecordView>,
}

/// The views of records in a list.
pub open spec fn record_views(records: Seq<VectorRecord>) -> Seq<RecordView> {
    Seq::new(records.len(), |i: int| records[i]@)
}

/// Records by id after others were written in order, each in place of one with the same id.
pub open spec fn upserted(records: Map<u64, RecordView>, new: Seq<RecordView>) -> Map<
    u64,
    RecordView,
>
    decreases new.len(),
{
    if new.len() == 0 {
        records
    } else {
        upserted(records, new.drop_last()).insert(new.last().id, new.last())
    }
}

/// Where in a list the first record stands whose embedding has not `dim` elements; the list's
/// length where all have.
pub open spec fn first_misfit(records: Seq<RecordView>, dim: int) -> int
    decreases records.len(),
{
    if records.len() == 0 {
        0
    } else {
        let before = first_misfit(records.drop_last(), dim);
        if before < records.len() - 1 || records.last().embedding.len() != dim {
            before
        } else {
            records.len() as int
        }
    }
}

/// The store after a collection was created, or why it was not. A collection has at least one
/// shard.
pub open spec fn creation(
    store: Map<Seq<char>, CollectionView>,
    name: Seq<char>,
    dim: int,
    shard_count: u32,
) -> Result<Map<Seq<char>, CollectionView>, StoreFault> {
    if store.contains_key(name) {
        Err(StoreFault::CollectionExists(name))
    } else {
        Ok(
            store.insert(
                name,
                CollectionView {
                    dim,
                    shard_count: if shard_count == 0 {
                        1
                    } else {
                        shard_count
                    },
                    records: Map::empty(),
                },
            ),
        )
    }
}

/// The store after records were written to a collection, or why none was.
pub open spec fn insertion(
    store: Map<Seq<char>, CollectionView>,
    name: Seq<char>,
    records: Seq<RecordView>,
) -> Result<Map<Seq<char>, CollectionView>, StoreFault> {
    if !store.contains_key(name) {
        Err(StoreFault::CollectionNotFound(name))
    } else {
        let coll = store[name];
        let misfit = first_misfit(records, coll.dim);
        if misfit < records.len() {
            Err(
                StoreFault::DimensionMismatch {
                    expected: coll.dim,
                    actual: records[misfit].embedding.len() as int,
                },
            )
        } else {
            Ok(
                store.insert(
                    name,
                    CollectionView { records: upserted(coll.records, records), ..coll },
                ),
            )
        }
    }
}

/// The store after ids were deleted from a collection, or why none was.
pub open spec fn deletion(
    store: Map<Seq<char>, CollectionView>,
    name: Seq<char>,
    ids: Set<u64>,
) -> Result<Map<Seq<char>, CollectionView>, StoreFault> {
    if !store.contains_key(name) {
        Err(StoreFault::CollectionNotFound(name))
    } else {
        let coll = store[name];
        Ok(
            store.insert(
                name,
                CollectionView { records: coll.records.remove_keys(ids), ..coll },
            ),
        )
    }
}

/// Why a query of `len` elements cannot be answered from a collection, if it cannot.
pub open spec fn query_fault(
    store: Map<Seq<char>, CollectionView>,
    name: Seq<char>,
    len: nat,
) -> Option<StoreFault> {
    if !store.contains_key(name) {
        Some(StoreFault::CollectionNotFound(name))
    } else if len != store[name].dim {
        Some(StoreFault::DimensionMismatch { expected: store[name].dim, actual: len as int })
    } else {
        None
    }
}

/// Whether `scores` can be the similarities of records to a query.
pub open spec fn similarities<A: Fn(u32, u32, u32) -> u32, Q: Fn(u32, u32, u32) -> u32>(
    kernel: Kernel<A, Q>,
    records: Map<u64, RecordView>,
    query: Seq<u32>,
    scores: Map<u64, u32>,
) -> bool {
    &&& scores.dom() == records.dom()
    &&& forall|id: u64| #[trigger]
        records.contains_key(id) ==> crate::similarity::is_similarity(
            kernel,
            records[id].embedding,
            query,
            scores[id],
        )
}

/// Whether `top` is the exact top `k` of records by their similarity to a query.
pub open spec fn answers<A: Fn(u32, u32, u32) -> u32, Q: Fn(u32, u32, u32) -> u32>(
    top: Seq<ScoredId>,
    kernel: Kernel<A, Q>,
    records: Map<u64, RecordView>,
    query: Seq<u32>,
    k: nat,
) -> bool {
    exists|scores: Map<u64, u32>| #[trigger]
        similarities(kernel, records, query, scores) && crate::ranking::is_top_k(
            top,
            crate::ranking::scored_ids(scores),
            k,
        )
}

/// Whether no two records share an id.
pub open spec fn ids_differ(records: Seq<RecordView>) -> bool {
    forall|i: int, j: int|
        0 <= i < j < records.len() ==> (#[trigger] records[i]).id != (#[trigger] records[j]).id
}

/// The number of vectors in the named collections.
pub open spec fn total_vectors(store: Map<Seq<char>, CollectionView>, names: Seq<Seq<char>>) -> nat
    decreases names.len(),
{
    if names.len() == 0 {
        0
    } else {
        total_vectors(store, names.drop_last()) + store[names.last()].records.dom().len()
    }
}

/// Records of different ids, written to an empty collection, are all there.
pub proof fn lemma_upserted_once(records: Seq<RecordView>)
    requires
        ids_differ(records),
    ensures
        forall|i: int|
            0 <= i < records.len() ==> upserted(Map::empty(), records).contains_key(
                (#[trigger] records[i]).id,
            ) && upserted(Map::empty(), records)[records[i].id] == records[i],
        forall|id: u64| #[trigger]
            upserted(Map::empty(), records).contains_key(id) ==> exists|i: int|
                0 <= i < records.len() && (#[trigger] records[i]).id == id,
    decreases records.len(),
{
    if records.len() > 0 {
        let first = records.drop_last();
        lemma_upserted_once(first);
        let all = upserted(Map::empty(), records);
        assert forall|i: int| 0 <= i < records.len() implies all.contains_key(
            (#[trigger] records[i]).id,
        ) && all[records[i].id] == records[i] by {
            if i < first.len() {
                assert(first[i] == records[i]);
                assert(records[i].id != records[records.len() - 1].id);
            }
        }
        assert forall|id: u64| #[trigger] all.contains_key(id) implies exists|i: int|
            0 <= i < records.len() && (#[trigger] records[i]).id == id by {
            if id == records.last().id {
                assert(records[records.len() - 1].id == id);
            } else {
                assert(upserted(Map::empty(), first).contains_key(id));
                let i = choose|i: int| 0 <= i < first.len() && (#[trigger] first[i]).id == id;
                assert(first[i].id == id);
                assert(records[i].id == id);
            }
        }
    }
}

/// What comes after the first misfit does not matter.
pub proof fn lemma_misfit_stays(records: Seq<RecordView>, dim: int, n: int)
    requires
        0 <= n <= records.len(),
        first_misfit(records.take(n), dim) < n,
    ensures
        first_misfit(records, dim) == first_misfit(records.take(n), dim),
    decreases records.len() - n,
{
    if n == records.len() {
        assert(records.take(n) =~= records);
    } else {
        assert(records.take(n + 1).drop_last() =~= records.take(n));
        lemma_misfit_stays(records, dim, n + 1);
    }
}

/// The last record with an id.
pub open spec fn last_with(records: Seq<RecordView>, id: u64) -> Option<RecordView>
    decreases records.len(),
{
    if records.len() == 0 {
        None
    } else if records.last().id == id {
        Some(records.last())
    } else {
        last_with(records.drop_last(), id)
    }
}

/// What is read is what was written last: after records were written, an id among theirs holds the
/// last of them with that id, and every other id what it held before.
pub proof fn writes_are_read_back(records: Map<u64, RecordView>, new: Seq<RecordView>, id: u64)
    ensures
        match last_with(new, id) {
            Some(record) => upserted(records, new).contains_key(id) && upserted(records, new)[id]
                == record && record.id == id,
            None => upserted(records, new).contains_key(id) == records.contains_key(id) && (
            records.contains_key(id) ==> upserted(records, new)[id] == records[id]),
        },
    decreases new.len(),
{
    if new.len() > 0 {
        writes_are_read_back(records, new.drop_last(), id);
    }
}

/// Writing the same records again changes nothing.
pub proof fn inserts_are_idempotent(
    store: Map<Seq<char>, CollectionView>,
    name: Seq<char>,
    records: Seq<RecordView>,
)
    requires
        insertion(store, name, records) is Ok,
    ensures
        insertion(insertion(store, name, records)->Ok_0, name, records) == insertion(
            store,
            name,
            records,
        ),
{
    let before = store[name].records;
    let once = upserted(before, records);
    let twice = upserted(once, records);
    assert forall|id: u64| #[trigger] twice.dom().contains(id) == once.dom().contains(id) by {
        writes_are_read_back(before, records, id);
        writes_are_read_back(once, records, id);
    }
    assert forall|id: u64| #[trigger] once.dom().contains(id) implies twice[id] == once[id] by {
        writes_are_read_back(before, records, id);
        writes_are_read_back(once, records, id);
    }
    assert(twice =~= once);
    let after = insertion(store, name, records)->Ok_0;
    assert(after.insert(name, CollectionView { records: twice, ..after[name] }) =~= after);
}

/// A deleted id is gone, every other id holds what it held, and deleting again deletes nothing.
pub proof fn deletes_are_final(
    store: Map<Seq<char>, CollectionView>,
    name: Seq<char>,
    ids: Set<u64>,
    id: u64,
)
    requires
        deletion(store, name, ids) is Ok,
    ensures
        ({
            let before = store[name].records;
            let after = deletion(store, name, ids)->Ok_0;
            let held = after[name].records;
            &&& ids.contains(id) ==> !held.contains_key(id)
            &&& !ids.contains(id) ==> held.contains_key(id) == before.contains_key(id) && (
            before.contains_key(id) ==> held[id] == before[id])
            &&& held.dom().intersect(ids) == Set::<u64>::empty()
            &&& deletion(after, name, ids) == Ok::<Map<Seq<char>, CollectionView>, StoreFault>(
                after,
            )
        }),
{
    let after = deletion(store, name, ids)->Ok_0;
    let held = after[name].records;
    assert(held.dom().intersect(ids) =~= Set::<u64>::empty());
    assert(held.remove_keys(ids) =~= held);
    assert(after.insert(name, CollectionView { records: held, ..after[name] }) =~= after);
}

/// A request to one collection leaves every other as it is.
pub proof fn collections_are_apart(
    store: Map<Seq<char>, CollectionView>,
    name: Seq<char>,
    other: Seq<char>,
    records: Seq<RecordView>,
    ids: Set<u64>,
    dim: int,
    shard_count: u32,
)
    requires
        other != name,
    ensures
        match creation(store, name, dim, shard_count) {
            Ok(after) => after.contains_key(other) == store.contains_key(other) && after[other]
                == store[other],
            Err(_) => true,
        },
        match insertion(store, name, records) {
            Ok(after) => after.contains_key(other) == store.contains_key(other) && after[other]
                == store[other],
            Err(_) => true,
        },
        match deletion(store, name, ids) {
            Ok(after) => after.contains_key(other) == store.contains_key(other) && after[other]
                == store[other],
            Err(_) => true,
        },
{
}

/// Embeddings have their collection's dimension, in every collection.
pub open spec fn fits(store: Map<Seq<char>, CollectionView>) -> bool {
    forall|name: Seq<char>, id: u64|
        #![trigger store[name].records.contains_key(id)]
        store.contains_key(name) && store[name].records.contains_key(id) ==> {
            &&& store[name].records[id].embedding.len() == store[name].dim
            &&& store[name].records[id].id == id
        }
}

proof fn lemma_misfit_bound(records: Seq<RecordView>, dim: int)
    ensures
        0 <= first_misfit(records, dim) <= records.len(),
    decreases records.len(),
{
    if records.len() > 0 {
        lemma_misfit_bound(records.drop_last(), dim);
    }
}

/// A list has no misfit where every embedding has the dimension, and only there.
pub proof fn lemma_all_fit(records: Seq<RecordView>, dim: int)
    ensures
        first_misfit(records, dim) >= records.len() <==> forall|i: int|
            0 <= i < records.len() ==> (#[trigger] records[i]).embedding.len() == dim,
    decreases records.len(),
{
    if records.len() > 0 {
        let before = records.drop_last();
        lemma_misfit_bound(before, dim);
        lemma_all_fit(before, dim);
        assert(forall|i: int| 0 <= i < before.len() ==> before[i] == records[i]);
        if forall|i: int| 0 <= i < records.len() ==> (#[trigger] records[i]).embedding.len() == dim {
            assert forall|i: int| 0 <= i < before.len() implies (
            #[trigger] before[i]).embedding.len() == dim by {
                assert(records[i].embedding.len() == dim);
            }
            assert(records[records.len() - 1].embedding.len() == dim);
        }
        if first_misfit(records, dim) >= records.len() {
            assert forall|i: int| 0 <= i < records.len() implies (
            #[trigger] records[i]).embedding.len() == dim by {
                if i < before.len() {
                    assert(before[i].embedding.len() == dim);
                }
            }
        }
    }
}

proof fn lemma_last_with(records: Seq<RecordView>, id: u64)
    ensures
        last_with(records, id) matches Some(record) ==> exists|i: int|
            0 <= i < records.len() && (#[trigger] records[i]) == record,
    decreases records.len(),
{
    if records.len() > 0 && records.last().id != id {
        lemma_last_with(records.drop_last(), id);
        if let Some(record) = last_with(records, id) {
            let i = choose|i: int|
                0 <= i < records.len() - 1 && (#[trigger] records.drop_last()[i]) == record;
            assert(records[i] == record);
        }
    } else if records.len() > 0 {
        assert(records[records.len() - 1] == records.last());
    }
}

/// No request makes a collection hold a vector of another dimension than its own.
pub proof fn dimensions_are_kept(
    store: Map<Seq<char>, CollectionView>,
    name: Seq<char>,
    records: Seq<RecordView>,
    ids: Set<u64>,
    dim: int,
    shard_count: u32,
)
    requires
        fits(store),
    ensures
        creation(store, name, dim, shard_count) matches Ok(after) ==> fits(after),
        insertion(store, name, records) matches Ok(after) ==> fits(after),
        deletion(store, name, ids) matches Ok(after) ==> fits(after),
{
    if let Ok(after) = insertion(store, name, records) {
        let coll = store[name];
        lemma_misfit_bound(records, coll.dim);
        assert forall|n: Seq<char>, id: u64|
            #![trigger after[n].records.contains_key(id)]
            after.contains_key(n) && after[n].records.contains_key(id) implies {
            &&& after[n].records[id].embedding.len() == after[n].dim
            &&& after[n].records[id].id == id
        } by {
            if n == name {
                writes_are_read_back(coll.records, records, id);
                lemma_last_with(records, id);
                if let Some(record) = last_with(records, id) {
                    let i = choose|i: int| 0 <= i < records.len() && (#[trigger] records[i]) == record;
                    lemma_all_fit(records, coll.dim);
                } else {
                    assert(store[name].records.contains_key(id));
                }
            } else {
                assert(store[n].records.contains_key(id));
            }
        }
    }
    if let Ok(after) = deletion(store, name, ids) {
        assert forall|n: Seq<char>, id: u64|
            #![trigger after[n].records.contains_key(id)]
            after.contains_key(n) && after[n].records.contains_key(id) implies {
            &&& after[n].records[id].embedding.len() == after[n].dim
            &&& after[n].records[id].id == id
        } by {
            assert(store[n].records.contains_key(id));
        }
    }
    if let Ok(after) = creation(store, name, dim, shard_count) {
        assert forall|n: Seq<char>, id: u64|
            #![trigger after[n].records.contains_key(id)]
            after.contains_key(n) && after[n].records.contains_key(id) implies {
            &&& after[n].records[id].embedding.len() == after[n].dim
            &&& after[n].records[id].id == id
        } by {
            if n != name {
                assert(store[n].records.contains_key(id));
            }
        }
    }
}

/// A search has one answer where the kernel's operations have one result: whatever computes it,
/// and whenever, the same records give the same ids and the same scores in the same order.
pub proof fn answers_are_determined<
    A: Fn(u32, u32, u32) -> u32,
    Q: Fn(u32, u32, u32) -> u32,
>(
    one: Seq<ScoredId>,
    other: Seq<ScoredId>,
    kernel: Kernel<A, Q>,
    records: Map<u64, RecordView>,
    query: Seq<u32>,
    k: nat,
)
    requires
        crate::similarity::functional(kernel),
        answers(one, kernel, records, query, k),
        answers(other, kernel, records, query, k),
    ensures
        one == other,
{
    let a = choose|scores: Map<u64, u32>| #[trigger]
        similarities(kernel, records, query, scores) && crate::ranking::is_top_k(
            one,
            crate::ranking::scored_ids(scores),
            k,
        );
    let b = choose|scores: Map<u64, u32>| #[trigger]
        similarities(kernel, records, query, scores) && crate::ranking::is_top_k(
            other,
            crate::ranking::scored_ids(scores),
            k,
        );
    assert forall|id: u64| #[trigger] records.contains_key(id) implies a[id] == b[id] by {
        crate::similarity::similarity_is_unique(
            kernel,
            records[id].embedding,
            query,
            a[id],
            b[id],
        );
    }
    assert(a =~= b) by {
        assert forall|id: u64| a.dom().contains(id) implies a[id] == b[id] by {
            assert(records.contains_key(id));
        }
    }
    crate::ranking::top_k_is_unique(one, other, crate::ranking::scored_ids(a), k);
}

/// A search answers from the collection: every result is a record that the collection holds, no
/// record comes twice, there are `k` results or, where the collection holds fewer records, all of
/// them.
pub proof fn answers_come_from_the_collection<
    A: Fn(u32, u32, u32) -> u32,
    Q: Fn(u32, u32, u32) -> u32,
>(
    top: Seq<ScoredId>,
    kernel: Kernel<A, Q>,
    records: Map<u64, RecordView>,
    query: Seq<u32>,
    k: nat,
)
    requires
        records.dom().finite(),
        answers(top, kernel, records, query, k),
    ensures
        top.len() == crate::ranking::at_most(k, records.dom().len()),
        forall|i: int|
            0 <= i < top.len() ==> records.contains_key((#[trigger] top[i]).id)
                && crate::similarity::is_similarity(
                kernel,
                records[top[i].id].embedding,
                query,
                top[i].score,
            ),
        forall|i: int, j: int|
            0 <= i < j < top.len() ==> (#[trigger] top[i]).id != (#[trigger] top[j]).id,
        records.dom().len() <= k ==> forall|id: u64| #[trigger]
            records.contains_key(id) ==> exists|i: int|
                0 <= i < top.len() && (#[trigger] top[i]).id == id,
{
    broadcast use vstd::multiset::group_multiset_axioms;
    broadcast use vstd::seq_lib::group_to_multiset_ensures;

    let scores = choose|scores: Map<u64, u32>| #[trigger]
        similarities(kernel, records, query, scores) && crate::ranking::is_top_k(
            top,
            crate::ranking::scored_ids(scores),
            k,
        );
    let all = crate::ranking::scored_ids(scores);
    crate::ranking::lemma_scored_ids_len(scores);
    assert(top.to_multiset().len() == top.len());
    assert forall|i: int| 0 <= i < top.len() implies records.contains_key((#[trigger] top[i]).id)
        && scores[top[i].id] == top[i].score by {
        assert(top.contains(top[i]));
        assert(top.to_multiset().count(top[i]) > 0);
        assert(all.count(top[i]) > 0);
        crate::ranking::lemma_scored_ids(scores, top[i]);
        assert(records.dom().contains(top[i].id));
    }
    assert forall|i: int, j: int| 0 <= i < j < top.len() implies (#[trigger] top[i]).id != (
    #[trigger] top[j]).id by {
        if top[i].id == top[j].id {
            assert(top[i] == top[j]);
            crate::ranking::lemma_scored_ids(scores, top[i]);
            crate::ranking::lemma_count_of_two(top, i, j);
            assert(top.to_multiset().count(top[i]) <= all.count(top[i]));
        }
    }
    if records.dom().len() <= k {
        crate::ranking::lemma_subset_len(top.to_multiset(), all);
        assert forall|id: u64| #[trigger] records.contains_key(id) implies exists|i: int|
            0 <= i < top.len() && (#[trigger] top[i]).id == id by {
            let x = ScoredId { id, score: scores[id] };
            assert(scores.dom().contains(id));
            crate::ranking::lemma_scored_ids(scores, x);
            assert(top.to_multiset().count(x) > 0);
            assert(top.contains(x));
            let i = choose|i: int| 0 <= i < top.len() && top[i] == x;
            assert(top[i].id == id);
        }
    }
}

proof fn lemma_total_without(
    store: Map<Seq<char>, CollectionView>,
    names: Seq<Seq<char>>,
    j: int,
)
    requires
        0 <= j < names.len(),
    ensures
        total_vectors(store, names) == total_vectors(store, names.remove(j))
            + store[names[j]].records.dom().len(),
    decreases names.len(),
{
    let last = names.len() - 1;
    if j == last {
        assert(names.remove(j) =~= names.drop_last());
    } else {
        lemma_total_without(store, names.drop_last(), j);
        assert(names.remove(j).drop_last() =~= names.drop_last().remove(j));
        assert(names.remove(j).last() == names.last());
    }
}

/// The number of vectors does not depend on the order in which the collections are named.
pub proof fn totals_are_unordered(
    store: Map<Seq<char>, CollectionView>,
    one: Seq<Seq<char>>,
    other: Seq<Seq<char>>,
)
    requires
        one.no_duplicates(),
        other.no_duplicates(),
        one.to_set() == other.to_set(),
    ensures
        total_vectors(store, one) == total_vectors(store, other),
    decreases one.len(),
{
    if one.len() == 0 {
        if other.len() > 0 {
            assert(other.to_set().contains(other[0]));
            assert(one.contains(other[0]));
        }
    } else {
        let name = one.last();
        assert(one[one.len() - 1] == name);
        assert(one.to_set().contains(name));
        assert(other.contains(name));
        let j = choose|j: int| 0 <= j < other.len() && other[j] == name;
        let a = one.drop_last();
        let b = other.remove(j);
        assert forall|i: int, k: int| 0 <= i < b.len() && 0 <= k < b.len() && i != k implies b[i]
            != b[k] by {
            let p = if i < j {
                i
            } else {
                i + 1
            };
            let q = if k < j {
                k
            } else {
                k + 1
            };
            assert(other[p] == b[i] && other[q] == b[k]);
        }
        assert forall|x: Seq<char>| a.contains(x) == b.contains(x) by {
            if a.contains(x) {
                let i = choose|i: int| 0 <= i < a.len() && a[i] == x;
                assert(one[i] == x);
                assert(one.to_set().contains(x));
                assert(other.contains(x));
                let p = choose|p: int| 0 <= p < other.len() && other[p] == x;
                assert(x != name);
                assert(b[if p < j {
                    p
                } else {
                    p - 1
                }] == x);
            }
            if b.contains(x) {
                let i = choose|i: int| 0 <= i < b.len() && b[i] == x;
                let p = if i < j {
                    i
                } else {
                    i + 1
                };
                assert(other[p] == x);
                assert(other.to_set().contains(x));
                assert(one.contains(x));
                let q = choose|q: int| 0 <= q < one.len() && one[q] == x;
                assert(q != one.len() - 1);
                assert(a[q] == x);
            }
        }
        assert(a.to_set() =~= b.to_set());
        totals_are_unordered(store, a, b);
        lemma_total_without(store, other, j);
    }
}

/// Every record of a list is shown.
pub proof fn listed_records_are_shown(records: Seq<VectorRecord>, i: int)
    requires
        0 <= i < records.len(),
    ensures
        record_views(records).len() == records.len(),
        record_views(records)[i] == records[i]@,
{
}

/// Of the records written with one id the last stays, in place of what was held before; an id that
/// none of them has keeps what it held.
pub proof fn last_records_stay(
    records: Map<u64, RecordView>,
    new: Seq<RecordView>,
    id: u64,
    i: int,
)
    ensures
        0 <= i < new.len() && new[i].id == id && (forall|j: int|
            i < j < new.len() ==> (#[trigger] new[j]).id != id) ==> upserted(
            records,
            new,
        ).contains_key(id) && upserted(records, new)[id] == new[i],
        (forall|j: int| 0 <= j < new.len() ==> (#[trigger] new[j]).id != id) ==> upserted(
            records,
            new,
        ).contains_key(id) == records.contains_key(id) && (records.contains_key(id) ==> upserted(
            records,
            new,
        )[id] == records[id]),
    decreases new.len(),
{
    if new.len() > 0 {
        let before = new.drop_last();
        let last = new.len() - 1;
        last_records_stay(records, before, id, i);
        assert(new[last] == new.last());
        assert forall|j: int| 0 <= j < before.len() implies before[j] == new[j] by {}
        if (0 <= i < last && new[i].id == id && forall|j: int|
            i < j < new.len() ==> (#[trigger] new[j]).id != id) {
            assert(new[last].id != id);
            assert(forall|j: int| i < j < before.len() ==> (#[trigger] before[j]).id != id);
        }
        if forall|j: int| 0 <= j < new.len() ==> (#[trigger] new[j]).id != id {
            assert(new[last].id != id);
            assert(forall|j: int| 0 <= j < before.len() ==> (#[trigger] before[j]).id != id);
        }
    }
}

/// The misfit reported is the first: every record before it has the dimension, and it has not.
pub proof fn the_first_misfit_is_found(records: Seq<RecordView>, dim: int)
    ensures
        0 <= first_misfit(records, dim) <= records.len(),
        forall|i: int|
            0 <= i < first_misfit(records, dim) ==> (#[trigger] records[i]).embedding.len() == dim,
        first_misfit(records, dim) < records.len() ==> records[first_misfit(
            records,
            dim,
        )].embedding.len() != dim,
    decreases records.len(),
{
    if records.len() > 0 {
        let before = records.drop_last();
        the_first_misfit_is_found(before, dim);
        lemma_all_fit(before, dim);
        assert(records[records.len() - 1] == records.last());
        assert forall|i: int| 0 <= i < first_misfit(records, dim) implies (
        #[trigger] records[i]).embedding.len() == dim by {
            if i < before.len() {
                assert(before[i] == records[i]);
            }
        }
        let f = first_misfit(records, dim);
        if f < before.len() {
            assert(before[f] == records[f]);
        }
    }
}

/// Creating a collection is refused exactly where its name is taken. Else the store has the
/// collection besides what it had, without records, with the dimension asked for and the number of
/// shards asked for, or one shard where none was asked for.
pub proof fn creations_do_what_they_say(
    store: Map<Seq<char>, CollectionView>,
    name: Seq<char>,
    dim: int,
    shard_count: u32,
    other: Seq<char>,
    id: u64,
)
    ensures
        match creation(store, name, dim, shard_count) {
            Err(fault) => store.contains_key(name) && fault == StoreFault::CollectionExists(name),
            Ok(after) => {
                &&& !store.contains_key(name)
                &&& after.contains_key(name)
                &&& after[name].dim == dim
                &&& after[name].shard_count >= 1
                &&& shard_count >= 1 ==> after[name].shard_count == shard_count
                &&& shard_count == 0 ==> after[name].shard_count == 1
                &&& !after[name].records.contains_key(id)
                &&& other != name ==> after.contains_key(other) == store.contains_key(other) && (
                store.contains_key(other) ==> after[other] == store[other])
            },
        },
{
}

/// An insert is refused exactly where there is no such collection or an embedding is not of its
/// dimension, the first such one being reported. Else each record is held, the last of those with
/// one id, and nothing else has changed.
pub proof fn inserts_do_what_they_say(
    store: Map<Seq<char>, CollectionView>,
    name: Seq<char>,
    records: Seq<RecordView>,
    other: Seq<char>,
    id: u64,
    i: int,
)
    ensures
        match insertion(store, name, records) {
            Err(StoreFault::CollectionNotFound(missing)) => missing == name
                && !store.contains_key(name),
            Err(StoreFault::DimensionMismatch { expected, actual }) => {
                &&& store.contains_key(name)
                &&& expected == store[name].dim
                &&& actual != expected
                &&& exists|j: int|
                    0 <= j < records.len() && (#[trigger] records[j]).embedding.len() == actual && (
                    forall|m: int|
                        0 <= m < j ==> (#[trigger] records[m]).embedding.len() == expected)
            },
            Err(_) => false,
            Ok(after) => {
                &&& store.contains_key(name)
                &&& forall|j: int|
                    0 <= j < records.len() ==> (#[trigger] records[j]).embedding.len()
                        == store[name].dim
                &&& after.contains_key(name)
                &&& after[name].dim == store[name].dim
                &&& after[name].shard_count == store[name].shard_count
                &&& 0 <= i < records.len() && records[i].id == id && (forall|j: int|
                    i < j < records.len() ==> (#[trigger] records[j]).id != id)
                    ==> after[name].records.contains_key(id) && after[name].records[id]
                    == records[i]
                &&& (forall|j: int| 0 <= j < records.len() ==> (#[trigger] records[j]).id != id)
                    ==> after[name].records.contains_key(id) == store[name].records.contains_key(id)
                    && (store[name].records.contains_key(id) ==> after[name].records[id]
                    == store[name].records[id])
                &&& other != name ==> after.contains_key(other) == store.contains_key(other) && (
                store.contains_key(other) ==> after[other] == store[other])
            },
        },
{
    if store.contains_key(name) {
        let dim = store[name].dim;
        the_first_misfit_is_found(records, dim);
        last_records_stay(store[name].records, records, id, i);
        let f = first_misfit(records, dim);
        if f < records.len() {
            assert(records[f].embedding.len() != dim);
        }
    }
}

/// A delete is refused exactly where there is no such collection. Else the ids are not held, and
/// nothing else has changed.
pub proof fn deletes_do_what_they_say(
    store: Map<Seq<char>, CollectionView>,
    name: Seq<char>,
    ids: Set<u64>,
    other: Seq<char>,
    id: u64,
)
    ensures
        match deletion(store, name, ids) {
            Err(fault) => !store.contains_key(name) && fault == StoreFault::CollectionNotFound(
                name,
            ),
            Ok(after) => {
                &&& store.contains_key(name)
                &&& after.contains_key(name)
                &&& after[name].dim == store[name].dim
                &&& after[name].shard_count == store[name].shard_count
                &&& after[name].records.contains_key(id) <==> store[name].records.contains_key(id)
                    && !ids.contains(id)
                &&& after[name].records.contains_key(id) ==> after[name].records[id]
                    == store[name].records[id]
                &&& other != name ==> after.contains_key(other) == store.contains_key(other) && (
                store.contains_key(other) ==> after[other] == store[other])
            },
        },
{
}

/// A query is refused exactly where there is no such collection or it is not of its dimension.
pub proof fn queries_are_refused_where_they_do_not_fit(
    store: Map<Seq<char>, CollectionView>,
    name: Seq<char>,
    len: nat,
)
    ensures
        match query_fault(store, name, len) {
            None => store.contains_key(name) && store[name].dim == len,
            Some(StoreFault::CollectionNotFound(missing)) => missing == name
                && !store.contains_key(name),
            Some(StoreFault::DimensionMismatch { expected, actual }) => store.contains_key(name)
                && expected == store[name].dim && actual == len && actual != expected,
            Some(_) => false,
        },
{
}

/// A refusal names the collection, or both dimensions, in full.
pub proof fn refusals_name_what_was_refused(name: Seq<char>, expected: nat, actual: nat)
    ensures
        fault_text(StoreFault::CollectionExists(name)) == "collection '"@ + name
            + "' already exists"@,
        fault_text(StoreFault::CollectionNotFound(name)) == "collection '"@ + name
            + "' not found"@,
        fault_text(
            StoreFault::DimensionMismatch { expected: expected as int, actual: actual as int },
        ) == "embedding has dimension "@ + crate::text::decimal(actual) + ", expected "@
            + crate::text::decimal(expected),
{
}

/// Every collection named adds all its records to the total.
pub proof fn totals_add_up(
    store: Map<Seq<char>, CollectionView>,
    names: Seq<Seq<char>>,
    name: Seq<char>,
)
    ensures
        total_vectors(store, Seq::empty()) == 0,
        total_vectors(store, names.push(name)) == total_vectors(store, names)
            + store[name].records.dom().len(),
{
    assert(names.push(name).drop_last() =~= names);
}

/// An answer is the head of the ranking of all records held: list every id once with its
/// similarity, best first, and take the first `k`, or all where there are fewer. The kernel's
/// operations are taken to be functions.
pub proof fn answers_are_the_head_of_the_ranking<
    A: Fn(u32, u32, u32) -> u32,
    Q: Fn(u32, u32, u32) -> u32,
>(
    top: Seq<ScoredId>,
    kernel: Kernel<A, Q>,
    records: Map<u64, RecordView>,
    query: Seq<u32>,
    ranking: Seq<ScoredId>,
    k: nat,
)
    requires
        crate::similarity::functional(kernel),
        records.dom().finite(),
        answers(top, kernel, records, query, k),
        forall|i: int, j: int|
            0 <= i < j < ranking.len() ==> !crate::record::outranks(
                #[trigger] ranking[j],
                #[trigger] ranking[i],
            ) && ranking[i].id != ranking[j].id,
        forall|i: int|
            0 <= i < ranking.len() ==> records.contains_key((#[trigger] ranking[i]).id)
                && crate::similarity::is_similarity(
                kernel,
                records[ranking[i].id].embedding,
                query,
                ranking[i].score,
            ),
        forall|id: u64| #[trigger]
            records.contains_key(id) ==> exists|i: int|
                0 <= i < ranking.len() && (#[trigger] ranking[i]).id == id,
    ensures
        top == ranking.take(
            if k < ranking.len() {
                k as int
            } else {
                ranking.len() as int
            },
        ),
        top.len() == if k < records.dom().len() {
            k
        } else {
            records.dom().len()
        },
{
    let scores = choose|scores: Map<u64, u32>| #[trigger]
        similarities(kernel, records, query, scores) && crate::ranking::is_top_k(
            top,
            crate::ranking::scored_ids(scores),
            k,
        );
    assert forall|i: int| 0 <= i < ranking.len() implies scores.contains_key(
        (#[trigger] ranking[i]).id,
    ) && scores[ranking[i].id] == ranking[i].score by {
        let id = ranking[i].id;
        assert(records.contains_key(id));
        assert(records.dom().contains(id));
        crate::similarity::similarity_is_unique(
            kernel,
            records[id].embedding,
            query,
            scores[id],
            ranking[i].score,
        );
    }
    assert forall|id: u64| #[trigger] scores.contains_key(id) implies exists|i: int|
        0 <= i < ranking.len() && (#[trigger] ranking[i]).id == id by {
        assert(scores.dom().contains(id));
        assert(records.contains_key(id));
    }
    crate::ranking::lemma_scored_list(ranking, scores);
    crate::ranking::top_k_is_the_head_of_the_ranking(ranking, top.to_multiset(), top, k);
    answers_are_as_many_as_asked_for(top, kernel, records, query, k);
}

/// An answer has `k` results or, where fewer records are held, as many as those.
pub proof fn answers_are_as_many_as_asked_for<
    A: Fn(u32, u32, u32) -> u32,
    Q: Fn(u32, u32, u32) -> u32,
>(
    top: Seq<ScoredId>,
    kernel: Kernel<A, Q>,
    records: Map<u64, RecordView>,
    query: Seq<u32>,
    k: nat,
)
    requires
        records.dom().finite(),
        answers(top, kernel, records, query, k),
    ensures
        top.len() == if k < records.dom().len() {
            k
        } else {
            records.dom().len()
        },
{
    answers_come_from_the_collection(top, kernel, records, query, k);
}

} // verus!
