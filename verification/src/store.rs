//! The vectors of one node, by collection.

use crate::collection::{
    answers, creation, deletion, fault_text, first_misfit, ids_differ, insertion, lemma_misfit_stays,
    lemma_upserted_once, query_fault, record_views, similarities, total_vectors, upserted,
    CollectionView, StoreFault,
};
use crate::record::{RecordView, ScoredId, VectorRecord};
use crate::search::brute_force_top_k;
use crate::similarity::{norm_sq, Kernel};
use std::collections::HashMap;
use vstd::prelude::*;

verus! {

/// Why a store refuses a request.
#[derive(Debug, PartialEq, Eq)]
pub enum StoreError {
    CollectionExists(String),
    CollectionNotFound(String),
    DimensionMismatch { expected: usize, actual: usize },
}

impl View for StoreError {
    type V = StoreFault;

    open spec fn view(&self) -> StoreFault {
        match self {
            StoreError::CollectionExists(name) => StoreFault::CollectionExists(name@),
            StoreError::CollectionNotFound(name) => StoreFault::CollectionNotFound(name@),
            StoreError::DimensionMismatch { expected, actual } => StoreFault::DimensionMismatch {
                expected: *expected as int,
                actual: *actual as int,
            },
        }
    }
}

impl StoreError {
    /// The error as a sentence.
    pub fn message(&self) -> (r: String)
        ensures
            r@ == fault_text(self@),
    {
        match self {
            StoreError::CollectionExists(name) => crate::text::joined3(
                "collection '",
                name.as_str(),
                "' already exists",
            ),
            StoreError::CollectionNotFound(name) => crate::text::joined3(
                "collection '",
                name.as_str(),
                "' not found",
            ),
            StoreError::DimensionMismatch { expected, actual } => {
                let actual_text = crate::text::decimal_text(*actual as u64);
                let expected_text = crate::text::decimal_text(*expected as u64);
                let head = crate::text::joined3(
                    "embedding has dimension ",
                    actual_text.as_str(),
                    ", expected ",
                );
                crate::text::joined(head.as_str(), expected_text.as_str())
            },
        }
    }
}

/// Whether `r` is what a search of a store comes to.
pub open spec fn is_search<A: Fn(u32, u32, u32) -> u32, Q: Fn(u32, u32, u32) -> u32>(
    store: Map<Seq<char>, CollectionView>,
    kernel: Kernel<A, Q>,
    name: Seq<char>,
    query: Seq<u32>,
    k: nat,
    r: Result<Vec<ScoredId>, StoreError>,
) -> bool {
    match (r, query_fault(store, name, query.len())) {
        (Ok(top), None) => answers(top@, kernel, store[name].records, query, k),
        (Err(e), Some(fault)) => e@ == fault,
        _ => false,
    }
}

/// Whether `r` is the metadata that a store holds for an id.
pub open spec fn is_metadata(
    store: Map<Seq<char>, CollectionView>,
    name: Seq<char>,
    id: u64,
    r: Option<HashMap<String, String>>,
) -> bool {
    match r {
        Some(metadata) => {
            &&& store.contains_key(name)
            &&& store[name].records.contains_key(id)
            &&& metadata@ == store[name].records[id].metadata
        },
        None => !(store.contains_key(name) && store[name].records.contains_key(id)),
    }
}

/// Whether `r` names the collections of a store, each once, with the number of vectors in all of
/// them, modulo `2^32`.
pub open spec fn is_status(store: Map<Seq<char>, CollectionView>, r: (Vec<String>, u32)) -> bool {
    let names = crate::text::views(r.0@);
    &&& names.no_duplicates()
    &&& names.to_set() == store.dom()
    &&& r.1 == total_vectors(store, names) % 0x1_0000_0000
}

/// One collection in a snapshot.
#[derive(Debug)]
pub struct CollectionSnapshot {
    pub name: String,
    pub dim: usize,
    pub shard_count: u32,
    pub vectors: Vec<VectorRecord>,
}

/// Everything that a store holds.
#[derive(Debug, Default)]
pub struct StoreSnapshot {
    pub collections: Vec<CollectionSnapshot>,
}

/// The collection that restoring a snapshot of it gives. A later record replaces an earlier one
/// with the same id.
pub open spec fn restored_collection(snap: CollectionSnapshot) -> CollectionView {
    CollectionView {
        dim: snap.dim as int,
        shard_count: snap.shard_count,
        records: upserted(Map::empty(), record_views(snap.vectors@)),
    }
}

/// The store that restoring a snapshot gives. A later collection replaces an earlier one with the
/// same name.
pub open spec fn restored(collections: Seq<CollectionSnapshot>) -> Map<Seq<char>, CollectionView>
    decreases collections.len(),
{
    if collections.len() == 0 {
        Map::empty()
    } else {
        restored(collections.drop_last()).insert(
            collections.last().name@,
            restored_collection(collections.last()),
        )
    }
}

/// Whether no collection, and in none of them a record, comes twice.
pub open spec fn each_once(collections: Seq<CollectionSnapshot>) -> bool {
    &&& forall|i: int, j: int|
        0 <= i < j < collections.len() ==> (#[trigger] collections[i]).name@ != (
        #[trigger] collections[j]).name@
    &&& forall|i: int|
        0 <= i < collections.len() ==> ids_differ(
            record_views((#[trigger] collections[i]).vectors@),
        )
}

/// A record with its squared norm, computed once when it is written.
struct StoredVector {
    record: VectorRecord,
    norm_sq: u32,
}

struct Collection {
    name: String,
    dim: usize,
    shard_count: u32,
    vectors: HashMap<u64, StoredVector>,
}

spec fn stored_records(vectors: Map<u64, StoredVector>) -> Map<u64, RecordView> {
    Map::new(|id: u64| vectors.contains_key(id), |id: u64| vectors[id].record@)
}

/// Whether every vector is kept under its record's id, with its squared norm.
spec fn vectors_wf<A: Fn(u32, u32, u32) -> u32, Q>(
    kernel: Kernel<A, Q>,
    vectors: Map<u64, StoredVector>,
) -> bool {
    forall|id: u64| #[trigger]
        vectors.contains_key(id) ==> vectors[id].record.id == id && crate::similarity::is_norm_sq(
            kernel,
            vectors[id].record.embedding@,
            vectors[id].norm_sq,
        )
}

impl View for Collection {
    type V = CollectionView;

    closed spec fn view(&self) -> CollectionView {
        CollectionView {
            dim: self.dim as int,
            shard_count: self.shard_count,
            records: stored_records(self.vectors@),
        }
    }
}

/// Whether some collection has a name.
spec fn holds_name(collections: Seq<Collection>, name: Seq<char>) -> bool {
    exists|i: int| 0 <= i < collections.len() && (#[trigger] collections[i]).name@ == name
}

/// The collections by name.
spec fn by_name(collections: Seq<Collection>) -> Map<Seq<char>, CollectionView> {
    Map::new(
        |name: Seq<char>| holds_name(collections, name),
        |name: Seq<char>|
            collections[choose|i: int|
                0 <= i < collections.len() && (#[trigger] collections[i]).name@ == name]@,
    )
}

/// Whether no two collections share a name.
spec fn names_differ(collections: Seq<Collection>) -> bool {
    forall|i: int, j: int|
        0 <= i < j < collections.len() ==> (#[trigger] collections[i]).name@ != (
        #[trigger] collections[j]).name@
}

proof fn lemma_by_name(collections: Seq<Collection>, i: int)
    requires
        names_differ(collections),
        0 <= i < collections.len(),
    ensures
        by_name(collections).contains_key(collections[i].name@),
        by_name(collections)[collections[i].name@] == collections[i]@,
{
    let name = collections[i].name@;
    assert(holds_name(collections, name));
    let j = choose|j: int|
        0 <= j < collections.len() && (#[trigger] collections[j]).name@ == name;
    assert(collections[j].name@ == name);
    assert(i == j);
}

proof fn lemma_name_added(collections: Seq<Collection>, new: Collection)
    requires
        names_differ(collections),
        !holds_name(collections, new.name@),
    ensures
        names_differ(collections.push(new)),
        by_name(collections.push(new)) == by_name(collections).insert(new.name@, new@),
{
    let after = collections.push(new);
    let want = by_name(collections).insert(new.name@, new@);
    assert forall|i: int, j: int| 0 <= i < j < after.len() implies (#[trigger] after[i]).name@ != (
    #[trigger] after[j]).name@ by {
        assert(after[i] == collections[i]);
    }
    lemma_by_name(after, after.len() - 1);
    assert forall|name: Seq<char>| #[trigger] by_name(after).contains_key(name) implies want.contains_key(
        name,
    ) && by_name(after)[name] == want[name] by {
        let i = choose|i: int| 0 <= i < after.len() && (#[trigger] after[i]).name@ == name;
        assert(after[i].name@ == name);
        lemma_by_name(after, i);
        if i < collections.len() {
            lemma_by_name(collections, i);
        }
    }
    assert forall|name: Seq<char>| #[trigger] want.contains_key(name) implies by_name(
        after,
    ).contains_key(name) by {
        if name != new.name@ {
            let i = choose|i: int|
                0 <= i < collections.len() && (#[trigger] collections[i]).name@ == name;
            assert(collections[i].name@ == name);
            assert(after[i] == collections[i]);
            lemma_by_name(after, i);
        }
    }
    assert(by_name(after) =~= want);
}

proof fn lemma_collection_changed(before: Seq<Collection>, i: int, new: Collection)
    requires
        names_differ(before),
        0 <= i < before.len(),
        new.name@ == before[i].name@,
    ensures
        names_differ(before.update(i, new)),
        by_name(before.update(i, new)) == by_name(before).insert(new.name@, new@),
{
    let after = before.update(i, new);
    let want = by_name(before).insert(new.name@, new@);
    assert forall|a: int, b: int| 0 <= a < b < after.len() implies (#[trigger] after[a]).name@ != (
    #[trigger] after[b]).name@ by {
        assert(before[a].name@ != before[b].name@);
    }
    assert forall|name: Seq<char>| #[trigger] by_name(after).contains_key(name) implies want.contains_key(
        name,
    ) && by_name(after)[name] == want[name] by {
        let j = choose|j: int| 0 <= j < after.len() && (#[trigger] after[j]).name@ == name;
        assert(after[j].name@ == name);
        lemma_by_name(after, j);
        lemma_by_name(before, j);
        if j != i {
            assert(before[j].name@ != before[i].name@);
        }
    }
    assert forall|name: Seq<char>| #[trigger] want.contains_key(name) implies by_name(
        after,
    ).contains_key(name) by {
        let j = if name == new.name@ {
            i
        } else {
            choose|j: int| 0 <= j < before.len() && (#[trigger] before[j]).name@ == name
        };
        assert(before[j].name@ == name);
        lemma_by_name(after, j);
    }
    assert(by_name(after) =~= want);
}

impl Collection {
    /// Writes records in order, each in place of one with the same id.
    fn upsert_all<A: Fn(u32, u32, u32) -> u32, Q: Fn(u32, u32, u32) -> u32>(
        &mut self,
        records: Vec<VectorRecord>,
        kernel: &Kernel<A, Q>,
    )
        requires
            crate::similarity::total(*kernel),
            vectors_wf(*kernel, old(self).vectors@),
        ensures
            vectors_wf(*kernel, final(self).vectors@),
            final(self).name == old(self).name,
            final(self)@ == (CollectionView {
                records: upserted(old(self)@.records, record_views(records@)),
                ..old(self)@
            }),
    {
        broadcast use vstd::std_specs::hash::group_hash_axioms;

        let ghost start = *self;
        let ghost all = record_views(records@);
        let ghost list = records@;
        for record in it: records
            invariant
                it.seq() == list,
                all == record_views(list),
                crate::similarity::total(*kernel),
                vectors_wf(*kernel, self.vectors@),
                self.name == start.name,
                self.dim == start.dim,
                self.shard_count == start.shard_count,
                self@.records == upserted(start@.records, all.take(it.index())),
        {
            let ghost view = record@;
            let ghost before = self.vectors@;
            let norm: u32 = norm_sq(record.embedding.as_slice(), kernel);
            self.vectors.insert(record.id, StoredVector { record, norm_sq: norm });
            proof {
                assert(all.take(it.index() + 1).drop_last() =~= all.take(it.index()));
                assert(stored_records(self.vectors@) =~= stored_records(before).insert(
                    view.id,
                    view,
                ));
            }
        }
        assert(all.take(all.len() as int) =~= all);
    }

    /// The records with their squared norms, in some order.
    fn entries(&self) -> (r: Vec<(&VectorRecord, u32)>)
        requires
            forall|id: u64| #[trigger]
                self.vectors@.contains_key(id) ==> self.vectors@[id].record.id == id,
        ensures
            forall|j: int|
                0 <= j < r.len() ==> {
                    let entry = #[trigger] r@[j];
                    &&& self.vectors@.contains_key(entry.0.id)
                    &&& self.vectors@[entry.0.id].record == *entry.0
                    &&& self.vectors@[entry.0.id].norm_sq == entry.1
                },
            forall|i: int, j: int|
                0 <= i < j < r.len() ==> (#[trigger] r@[i]).0.id != (#[trigger] r@[j]).0.id,
            forall|id: u64| #[trigger]
                self.vectors@.contains_key(id) ==> exists|j: int|
                    0 <= j < r.len() && (#[trigger] r@[j]).0.id == id,
    {
        broadcast use vstd::std_specs::hash::group_hash_axioms;

        let mut r: Vec<(&VectorRecord, u32)> = Vec::new();
        let ghost mut walked: Seq<(&u64, &StoredVector)> = Seq::empty();
        for entry in it: self.vectors.iter()
            invariant
                walked =~= it.seq().take(it.index()),
                it.index() == it.seq().len() ==> walked =~= it.seq(),
                it.seq().no_duplicates(),
                forall|j: int|
                    0 <= j < it.seq().len() ==> self.vectors@.contains_key(
                        *(#[trigger] it.seq()[j]).0,
                    ) && self.vectors@[*it.seq()[j].0] == *it.seq()[j].1,
                forall|id: u64| #[trigger]
                    self.vectors@.contains_key(id) ==> it.seq().contains(
                        (&id, &self.vectors@[id]),
                    ),
                r.len() == it.index(),
                forall|j: int|
                    0 <= j < r.len() ==> *(#[trigger] r@[j]).0 == walked[j].1.record && r@[j].1
                        == walked[j].1.norm_sq,
        {
            r.push((&entry.1.record, entry.1.norm_sq));
            proof {
                walked = walked.push(entry);
            }
        }
        assert forall|id: u64| #[trigger] self.vectors@.contains_key(id) implies exists|j: int|
            0 <= j < r.len() && (#[trigger] r@[j]).0.id == id by {
            assert(walked.contains((&id, &self.vectors@[id])));
            let j = choose|j: int|
                0 <= j < walked.len() && walked[j] == (&id, &self.vectors@[id]);
            assert(r@[j].0.id == id);
        }
        r
    }

    /// Copies of the records, in some order.
    fn records(&self) -> (r: Vec<VectorRecord>)
        requires
            forall|id: u64| #[trigger]
                self.vectors@.contains_key(id) ==> self.vectors@[id].record.id == id,
        ensures
            ids_differ(record_views(r@)),
            upserted(Map::empty(), record_views(r@)) == self@.records,
    {
        let entries = self.entries();
        let n: usize = entries.len();
        let mut r: Vec<VectorRecord> = Vec::new();
        for i in 0..n
            invariant
                n == entries.len(),
                r.len() == i,
                forall|j: int| 0 <= j < i ==> (#[trigger] r@[j])@ == entries@[j].0@,
        {
            r.push(entries[i].0.clone());
        }
        proof {
            let views = record_views(r@);
            assert forall|i: int, j: int| 0 <= i < j < views.len() implies (#[trigger] views[i]).id
                != (#[trigger] views[j]).id by {
                assert(views[i].id == entries@[i].0.id);
                assert(views[j].id == entries@[j].0.id);
            }
            lemma_upserted_once(views);
            let all = upserted(Map::empty(), views);
            assert forall|id: u64| #[trigger] all.contains_key(id) implies self@.records.contains_key(
                id,
            ) && all[id] == self@.records[id] by {
                let i = choose|i: int| 0 <= i < views.len() && (#[trigger] views[i]).id == id;
                assert(views[i].id == id);
                assert(views[i] == entries@[i].0@);
            }
            assert forall|id: u64| #[trigger] self@.records.contains_key(id) implies all.contains_key(
                id,
            ) by {
                assert(self.vectors@.contains_key(id));
                let j = choose|j: int|
                    0 <= j < entries.len() && (#[trigger] entries@[j]).0.id == id;
                assert(views[j].id == id);
            }
            assert(all =~= self@.records);
        }
        r
    }

    /// Deletes ids and counts those that were there.
    fn remove_all(&mut self, ids: &[u64]) -> (deleted: usize)
        ensures
            final(self).vectors@.submap_of(old(self).vectors@),
            final(self).name == old(self).name,
            final(self)@ == (CollectionView {
                records: old(self)@.records.remove_keys(ids@.to_set()),
                ..old(self)@
            }),
            deleted == old(self)@.records.dom().intersect(ids@.to_set()).len(),
    {
        broadcast use vstd::std_specs::hash::group_hash_axioms;

        let ghost start = *self;
        let ghost held = start@.records;
        let mut deleted: usize = 0;
        assert(held.dom() =~= start.vectors@.dom());
        assert(held.remove_keys(ids@.take(0).to_set()) =~= held);
        assert(held.dom().intersect(ids@.take(0).to_set()) =~= Set::<u64>::empty());
        for i in 0..ids.len()
            invariant
                held == start@.records,
                held.dom().finite(),
                self.vectors@.submap_of(start.vectors@),
                self.name == start.name,
                self.dim == start.dim,
                self.shard_count == start.shard_count,
                self@.records == held.remove_keys(ids@.take(i as int).to_set()),
                deleted == held.dom().intersect(ids@.take(i as int).to_set()).len(),
                deleted <= i,
        {
            let id: u64 = ids[i];
            let ghost before = self.vectors@;
            let ghost seen = ids@.take(i as int).to_set();
            proof {
                assert(ids@.take(i + 1) =~= ids@.take(i as int).push(id));
                assert(ids@.take(i + 1).to_set() =~= seen.insert(id)) by {
                    assert(ids@.take(i + 1)[i as int] == id);
                    assert forall|x: u64| seen.contains(x) implies ids@.take(
                        i + 1,
                    ).to_set().contains(x) by {
                        let j = choose|j: int| 0 <= j < i && ids@.take(i as int)[j] == x;
                        assert(ids@.take(i + 1)[j] == x);
                    }
                }
                assert(stored_records(before).dom() =~= before.dom());
            }
            if self.vectors.remove(&id).is_some() {
                assert(held.dom().intersect(seen.insert(id)) =~= held.dom().intersect(
                    seen,
                ).insert(id));
                deleted += 1;
            } else {
                assert(held.dom().intersect(seen.insert(id)) =~= held.dom().intersect(seen));
            }
            assert(self.vectors@ == before.remove(id));
            assert(stored_records(self.vectors@) =~= stored_records(before).remove(id));
            assert(held.remove_keys(seen).remove(id) =~= held.remove_keys(seen.insert(id)));
        }
        assert(ids@.take(ids@.len() as int) =~= ids@);
        deleted
    }
}

/// The collections of a node, in memory.
pub struct Store<A, Q> {
    collections: Vec<Collection>,
    kernel: Kernel<A, Q>,
}

impl<A, Q> View for Store<A, Q> {
    type V = Map<Seq<char>, CollectionView>;

    closed spec fn view(&self) -> Map<Seq<char>, CollectionView> {
        by_name(self.collections@)
    }
}

impl<A: Fn(u32, u32, u32) -> u32, Q: Fn(u32, u32, u32) -> u32> Store<A, Q> {
    /// Names are unique, every vector is kept under its record's id with its squared norm, and
    /// the kernel takes every input.
    pub closed spec fn wf(&self) -> bool {
        &&& names_differ(self.collections@)
        &&& forall|i: int|
            0 <= i < self.collections.len() ==> vectors_wf(
                self.kernel,
                (#[trigger] self.collections@[i]).vectors@,
            )
        &&& crate::similarity::total(self.kernel)
    }

    /// The floating point operations that scores are computed with.
    pub closed spec fn kernel(&self) -> Kernel<A, Q> {
        self.kernel
    }

    /// A store holds finitely many records, and they are kept under their ids.
    pub proof fn records_are_finite(&self, name: Seq<char>)
        requires
            self.wf(),
            self@.contains_key(name),
        ensures
            self@[name].records.dom().finite(),
            forall|id: u64| #[trigger]
                self@[name].records.contains_key(id) ==> self@[name].records[id].id == id,
    {
        broadcast use vstd::std_specs::hash::group_hash_axioms;

        let i = choose|i: int|
            0 <= i < self.collections@.len() && (#[trigger] self.collections@[i]).name@ == name;
        assert(self.collections@[i].name@ == name);
        lemma_by_name(self.collections@, i);
        let coll = self.collections@[i];
        assert(vectors_wf(self.kernel, coll.vectors@));
        assert(coll@.records.dom() =~= coll.vectors@.dom());
    }

    /// A store without collections.
    pub fn new(kernel: Kernel<A, Q>) -> (r: Self)
        requires
            crate::similarity::total(kernel),
        ensures
            r.wf(),
            r.kernel() == kernel,
            r@ == Map::<Seq<char>, CollectionView>::empty(),
    {
        let r = Store { collections: Vec::new(), kernel };
        assert(r@ =~= Map::<Seq<char>, CollectionView>::empty());
        r
    }

    /// Where a collection stands.
    fn find(&self, name: &str) -> (r: Option<usize>)
        requires
            self.wf(),
        ensures
            match r {
                Some(i) => {
                    &&& i < self.collections.len()
                    &&& self.collections@[i as int].name@ == name@
                    &&& self@.contains_key(name@)
                    &&& self@[name@] == self.collections@[i as int]@
                },
                None => !self@.contains_key(name@),
            },
    {
        let wanted: String = name.to_owned();
        let n: usize = self.collections.len();
        for i in 0..n
            invariant
                n == self.collections.len(),
                self.wf(),
                wanted@ == name@,
                forall|j: int| 0 <= j < i ==> (#[trigger] self.collections@[j]).name@ != name@,
        {
            if self.collections[i].name == wanted {
                proof {
                    lemma_by_name(self.collections@, i as int);
                }
                return Some(i);
            }
        }
        None
    }

    /// Creates an empty collection for embeddings of `dim` elements. A shard count of zero counts
    /// as one.
    pub fn create_collection(&mut self, name: &str, dim: usize, shard_count: u32) -> (r: Result<
        (),
        StoreError,
    >)
        requires
            old(self).wf(),
        ensures
            final(self).wf(),
            final(self).kernel() == old(self).kernel(),
            match (r, creation(old(self)@, name@, dim as int, shard_count)) {
                (Ok(()), Ok(after)) => final(self)@ == after,
                (Err(e), Err(fault)) => e@ == fault && final(self)@ == old(self)@,
                _ => false,
            },
    {
        match self.find(name) {
            Some(_) => Err(StoreError::CollectionExists(name.to_owned())),
            None => {
                let new = Collection {
                    name: name.to_owned(),
                    dim,
                    shard_count: if shard_count == 0 {
                        1
                    } else {
                        shard_count
                    },
                    vectors: HashMap::new(),
                };
                proof {
                    lemma_name_added(self.collections@, new);
                    assert(new@.records =~= Map::<u64, RecordView>::empty());
                }
                self.collections.push(new);
                Ok(())
            },
        }
    }

    /// Writes records to a collection, each in place of one with the same id, and gives their
    /// number. Where one does not have the collection's dimension, none is written.
    pub fn insert(&mut self, collection: &str, records: Vec<VectorRecord>) -> (r: Result<
        usize,
        StoreError,
    >)
        requires
            old(self).wf(),
        ensures
            final(self).wf(),
            final(self).kernel() == old(self).kernel(),
            match (r, insertion(old(self)@, collection@, record_views(records@))) {
                (Ok(count), Ok(after)) => count == records.len() && final(self)@ == after,
                (Err(e), Err(fault)) => e@ == fault && final(self)@ == old(self)@,
                _ => false,
            },
    {
        let at: usize = match self.find(collection) {
            Some(at) => at,
            None => {
                return Err(StoreError::CollectionNotFound(collection.to_owned()));
            },
        };
        let dim: usize = self.collections[at].dim;
        let count: usize = records.len();
        let ghost views = record_views(records@);
        assert(views.take(0) =~= Seq::<RecordView>::empty());
        for i in 0..count
            invariant
                count == records.len(),
                *self == *old(self),
                self.wf(),
                self@.contains_key(collection@),
                self@[collection@].dim == dim,
                views == record_views(records@),
                first_misfit(views.take(i as int), dim as int) == i,
        {
            assert(views.take(i + 1).drop_last() =~= views.take(i as int));
            if records[i].embedding.len() != dim {
                proof {
                    lemma_misfit_stays(views, dim as int, i + 1);
                }
                return Err(
                    StoreError::DimensionMismatch {
                        expected: dim,
                        actual: records[i].embedding.len(),
                    },
                );
            }
        }
        assert(views.take(count as int) =~= views);
        let ghost before = self.collections@;
        self.collections[at].upsert_all(records, &self.kernel);
        proof {
            let new = self.collections@[at as int];
            assert(self.collections@ =~= before.update(at as int, new));
            lemma_collection_changed(before, at as int, new);
        }
        Ok(count)
    }

    /// Deletes ids from a collection and gives the number of those that it held.
    pub fn delete(&mut self, collection: &str, ids: &[u64]) -> (r: Result<usize, StoreError>)
        requires
            old(self).wf(),
        ensures
            final(self).wf(),
            final(self).kernel() == old(self).kernel(),
            match (r, deletion(old(self)@, collection@, ids@.to_set())) {
                (Ok(deleted), Ok(after)) => {
                    &&& deleted == old(self)@[collection@].records.dom().intersect(
                        ids@.to_set(),
                    ).len()
                    &&& final(self)@ == after
                },
                (Err(e), Err(fault)) => e@ == fault && final(self)@ == old(self)@,
                _ => false,
            },
    {
        match self.find(collection) {
            Some(at) => {
                let ghost before = self.collections@;
                let deleted: usize = self.collections[at].remove_all(ids);
                proof {
                    let new = self.collections@[at as int];
                    let was = before[at as int];
                    assert(self.collections@ =~= before.update(at as int, new));
                    lemma_collection_changed(before, at as int, new);
                    assert forall|id: u64| #[trigger]
                        new.vectors@.contains_key(id) implies was.vectors@.contains_key(id)
                        && new.vectors@[id] == was.vectors@[id] by {
                        assert(new.vectors@.dom().contains(id));
                    }
                    assert(vectors_wf(self.kernel, was.vectors@));
                }
                Ok(deleted)
            },
            None => Err(StoreError::CollectionNotFound(collection.to_owned())),
        }
    }

    /// The exact top `k` of a collection by cosine similarity to a query, best first.
    pub fn search(&self, collection: &str, query: &[u32], k: usize) -> (r: Result<
        Vec<ScoredId>,
        StoreError,
    >)
        where
            A: Sync + Send,
            Q: Sync + Send,
        requires
            self.wf(),
        ensures
            is_search(self@, self.kernel(), collection@, query@, k as nat, r),
            r matches Ok(top) ==> top@.len() == (if k < self@[collection@].records.dom().len() {
                k as nat
            } else {
                self@[collection@].records.dom().len()
            }),
    {
        broadcast use vstd::std_specs::hash::group_hash_axioms;

        let at: usize = match self.find(collection) {
            Some(at) => at,
            None => {
                return Err(StoreError::CollectionNotFound(collection.to_owned()));
            },
        };
        let coll = &self.collections[at];
        if query.len() != coll.dim {
            return Err(
                StoreError::DimensionMismatch { expected: coll.dim, actual: query.len() },
            );
        }
        assert(vectors_wf(self.kernel, coll.vectors@));
        let records = coll.entries();
        let top = brute_force_top_k(records.as_slice(), query, k, &self.kernel);
        proof {
            let held = coll@.records;
            let (qn, scores) = choose|qn: u32, scores: Seq<u32>| #[trigger]
                crate::similarity::is_norm_sq(self.kernel, query@, qn)
                    && #[trigger] crate::search::are_scores(
                    self.kernel,
                    records@,
                    query@,
                    qn,
                    scores,
                ) && crate::ranking::is_top_k(
                    top@,
                    crate::search::scored(records@, scores).to_multiset(),
                    k as nat,
                );
            let place = |id: u64|
                choose|j: int| 0 <= j < records.len() && (#[trigger] records@[j]).0.id == id;
            let by_id = Map::new(|id: u64| held.contains_key(id), |id: u64| scores[place(id)]);
            assert(by_id.dom() =~= held.dom());
            assert(held.dom() =~= coll.vectors@.dom());
            let list = crate::search::scored(records@, scores);
            assert forall|id: u64| #[trigger] held.contains_key(id) implies {
                &&& 0 <= place(id) < records.len()
                &&& records@[place(id)].0.id == id
                &&& list[place(id)].id == id
            } by {
                assert(coll.vectors@.contains_key(id));
            }
            assert forall|i: int| 0 <= i < list.len() implies by_id.contains_key(
                (#[trigger] list[i]).id,
            ) && by_id[list[i].id] == list[i].score by {
                assert(list[i].id == records@[i].0.id);
                let j = place(list[i].id);
                assert(held.contains_key(list[i].id));
                assert(i == j);
            }
            crate::ranking::lemma_scored_list(list, by_id);
            assert forall|id: u64| #[trigger]
                held.contains_key(id) implies crate::similarity::is_similarity(
                self.kernel,
                held[id].embedding,
                query@,
                by_id[id],
            ) by {
                let entry = records@[place(id)];
                assert(coll.vectors@.contains_key(id));
                assert(crate::similarity::is_norm_sq(
                    self.kernel,
                    held[id].embedding,
                    entry.1,
                ));
            }
            assert(similarities(self.kernel, held, query@, by_id));
            crate::collection::answers_are_as_many_as_asked_for(
                top@,
                self.kernel,
                held,
                query@,
                k as nat,
            );
        }
        Ok(top)
    }

    /// The metadata of a record, where the collection holds it.
    pub fn get_metadata(&self, collection: &str, id: u64) -> (r: Option<HashMap<String, String>>)
        requires
            self.wf(),
        ensures
            is_metadata(self@, collection@, id, r),
    {
        broadcast use vstd::std_specs::hash::group_hash_axioms;

        match self.find(collection) {
            Some(at) => match self.collections[at].vectors.get(&id) {
                Some(stored) => Some(stored.record.metadata.clone()),
                None => None,
            },
            None => None,
        }
    }

    /// The collections' names, and the number of vectors in all of them, modulo `2^32`.
    pub fn cluster_status(&self) -> (r: (Vec<String>, u32))
        requires
            self.wf(),
        ensures
            is_status(self@, r),
    {
        broadcast use vstd::std_specs::hash::group_hash_axioms;

        let mut names: Vec<String> = Vec::new();
        let mut total: u32 = 0;
        let n: usize = self.collections.len();
        assert(crate::text::views(names@) =~= Seq::<Seq<char>>::empty());
        for i in 0..n
            invariant
                n == self.collections.len(),
                self.wf(),
                names.len() == i,
                forall|j: int|
                    0 <= j < i ==> (#[trigger] names@[j])@ == self.collections@[j].name@,
                total == total_vectors(self@, crate::text::views(names@)) % 0x1_0000_0000,
        {
            let coll = &self.collections[i];
            let ghost before = crate::text::views(names@);
            names.push(coll.name.clone());
            let len: usize = coll.vectors.len();
            let count: u32 = (len as u64 % 0x1_0000_0000u64) as u32;
            total = total.wrapping_add(count);
            proof {
                lemma_by_name(self.collections@, i as int);
                let after = crate::text::views(names@);
                assert(after.drop_last() =~= before);
                assert(after.last() == coll.name@);
                assert(coll@.records.dom() =~= coll.vectors@.dom());
            }
        }
        proof {
            let views = crate::text::views(names@);
            assert forall|i: int, j: int| 0 <= i < views.len() && 0 <= j < views.len() && i != j implies
                views[i] != views[j] by {
                assert(views[i] == self.collections@[i].name@);
                assert(views[j] == self.collections@[j].name@);
            }
            assert forall|name: Seq<char>| #[trigger] self@.contains_key(name) implies views.contains(name) by {
                let i = choose|i: int|
                    0 <= i < self.collections@.len() && (#[trigger] self.collections@[i]).name@
                        == name;
                assert(self.collections@[i].name@ == name);
                assert(views[i] == name);
            }
            assert forall|name: Seq<char>| #[trigger] views.contains(name) implies self@.contains_key(name) by {
                let i = choose|i: int| 0 <= i < views.len() && views[i] == name;
                lemma_by_name(self.collections@, i);
                assert(views[i] == self.collections@[i].name@);
            }
            assert(views.to_set() =~= self@.dom());
        }
        (names, total)
    }

    /// Everything that the store holds, for a replica that lags behind or is new. Squared norms
    /// are left out: restoring computes them again.
    pub fn snapshot(&self) -> (r: StoreSnapshot)
        requires
            self.wf(),
        ensures
            restored(r.collections@) == self@,
            each_once(r.collections@),
    {
        let mut collections: Vec<CollectionSnapshot> = Vec::new();
        let n: usize = self.collections.len();
        assert(by_name(self.collections@.take(0)) =~= Map::<Seq<char>, CollectionView>::empty());
        for i in 0..n
            invariant
                n == self.collections.len(),
                self.wf(),
                collections.len() == i,
                restored(collections@) == by_name(self.collections@.take(i as int)),
                names_differ(self.collections@.take(i as int)),
                forall|j: int|
                    0 <= j < i ==> (#[trigger] collections@[j]).name@ == self.collections@[j].name@
                        && ids_differ(record_views(collections@[j].vectors@)),
        {
            let ghost before = collections@;
            let coll = &self.collections[i];
            assert(vectors_wf(self.kernel, coll.vectors@));
            let vectors = coll.records();
            collections.push(
                CollectionSnapshot {
                    name: coll.name.clone(),
                    dim: coll.dim,
                    shard_count: coll.shard_count,
                    vectors,
                },
            );
            proof {
                let seen = self.collections@.take(i as int);
                assert(collections@.drop_last() =~= before);
                assert(self.collections@.take(i + 1) =~= seen.push(*coll));
                assert forall|j: int| 0 <= j < seen.len() implies (#[trigger] seen[j]).name@
                    != coll.name@ by {
                    assert(seen[j] == self.collections@[j]);
                }
                lemma_name_added(seen, *coll);
            }
        }
        assert(self.collections@.take(n as int) =~= self.collections@);
        StoreSnapshot { collections }
    }

    /// Replaces everything that the store holds by what a snapshot holds.
    pub fn restore(&mut self, snapshot: StoreSnapshot)
        requires
            old(self).wf(),
        ensures
            final(self).wf(),
            final(self).kernel() == old(self).kernel(),
            final(self)@ == restored(snapshot.collections@),
    {
        let ghost kernel = self.kernel;
        let ghost all = snapshot.collections@;
        self.collections.clear();
        assert(self@ =~= Map::<Seq<char>, CollectionView>::empty());
        for snap in it: snapshot.collections
            invariant
                it.seq() == all,
                self.wf(),
                self.kernel == kernel,
                self@ == restored(all.take(it.index())),
        {
            let ghost view = restored_collection(snap);
            let found = self.find(snap.name.as_str());
            let mut new = Collection {
                name: snap.name,
                dim: snap.dim,
                shard_count: snap.shard_count,
                vectors: HashMap::new(),
            };
            assert(new@.records =~= Map::<u64, RecordView>::empty());
            new.upsert_all(snap.vectors, &self.kernel);
            assert(new@ == view);
            assert(all.take(it.index() + 1).drop_last() =~= all.take(it.index()));
            let ghost before = self.collections@;
            match found {
                Some(at) => {
                    proof {
                        lemma_collection_changed(before, at as int, new);
                    }
                    self.collections.set(at, new);
                },
                None => {
                    proof {
                        lemma_name_added(before, new);
                    }
                    self.collections.push(new);
                },
            }
        }
        assert(all.take(all.len() as int) =~= all);
    }
}

/// A restored store is the store that the snapshot was taken of: it holds the same collections and
/// records and nothing else, so it takes and refuses the same requests. Every search of it has the
/// same outcome, bit for bit where the kernel's operations are functions, every id the same
/// metadata, and the status the same names and the same number of vectors.
pub proof fn restored_stores_answer_alike<
    A: Fn(u32, u32, u32) -> u32,
    Q: Fn(u32, u32, u32) -> u32,
>(
    source: Store<A, Q>,
    snapshot: StoreSnapshot,
    target: Store<A, Q>,
    name: Seq<char>,
    query: Seq<u32>,
    k: nat,
    id: u64,
    searches: (Result<Vec<ScoredId>, StoreError>, Result<Vec<ScoredId>, StoreError>),
    metadata: (Option<HashMap<String, String>>, Option<HashMap<String, String>>),
    statuses: ((Vec<String>, u32), (Vec<String>, u32)),
)
    requires
        restored(snapshot.collections@) == source@,
        target@ == restored(snapshot.collections@),
        target.kernel() == source.kernel(),
        is_search(source@, source.kernel(), name, query, k, searches.0),
        is_search(target@, target.kernel(), name, query, k, searches.1),
        is_metadata(source@, name, id, metadata.0),
        is_metadata(target@, name, id, metadata.1),
        is_status(source@, statuses.0),
        is_status(target@, statuses.1),
    ensures
        target@ == source@,
        match searches {
            (Ok(a), Ok(b)) => crate::similarity::functional(source.kernel()) ==> a@ == b@,
            (Err(a), Err(b)) => a@ == b@,
            _ => false,
        },
        match metadata {
            (Some(a), Some(b)) => a@ == b@,
            (None, None) => true,
            _ => false,
        },
        crate::text::views(statuses.0.0@).to_set() == crate::text::views(
            statuses.1.0@,
        ).to_set(),
        statuses.0.1 == statuses.1.1,
{
    if crate::similarity::functional(source.kernel()) {
        if let (Ok(a), Ok(b)) = searches {
            crate::collection::answers_are_determined(
                a@,
                b@,
                source.kernel(),
                source@[name].records,
                query,
                k,
            );
        }
    }
    crate::collection::totals_are_unordered(
        source@,
        crate::text::views(statuses.0.0@),
        crate::text::views(statuses.1.0@),
    );
}

/// Nothing of a refusal is left out of what it is taken to say.
pub proof fn errors_show_everything(name: String, expected: usize, actual: usize)
    ensures
        StoreError::CollectionExists(name)@ == StoreFault::CollectionExists(name@),
        StoreError::CollectionNotFound(name)@ == StoreFault::CollectionNotFound(name@),
        (StoreError::DimensionMismatch { expected, actual })@ == (StoreFault::DimensionMismatch {
            expected: expected as int,
            actual: actual as int,
        }),
{
}

/// A search succeeds exactly where the collection exists and has the query's dimension. It then
/// answers from all of its records, with as many results as asked for, or as there are records.
pub proof fn searches_do_what_they_say<
    A: Fn(u32, u32, u32) -> u32,
    Q: Fn(u32, u32, u32) -> u32,
>(
    store: Map<Seq<char>, CollectionView>,
    kernel: Kernel<A, Q>,
    name: Seq<char>,
    query: Seq<u32>,
    k: nat,
    r: Result<Vec<ScoredId>, StoreError>,
)
    requires
        is_search(store, kernel, name, query, k, r),
    ensures
        r is Ok <==> store.contains_key(name) && store[name].dim == query.len(),
        r matches Ok(top) ==> answers(top@, kernel, store[name].records, query, k),
        r matches Ok(top) ==> store[name].records.dom().finite() ==> top@.len() == (if k
            < store[name].records.dom().len() {
            k
        } else {
            store[name].records.dom().len()
        }),
        r matches Err(e) ==> (match e@ {
            StoreFault::CollectionNotFound(missing) => missing == name && !store.contains_key(name),
            StoreFault::DimensionMismatch { expected, actual } => store.contains_key(name)
                && expected == store[name].dim && actual == query.len(),
            _ => false,
        }),
{
    crate::collection::queries_are_refused_where_they_do_not_fit(store, name, query.len());
    if let Ok(top) = r {
        if store[name].records.dom().finite() {
            crate::collection::answers_are_as_many_as_asked_for(
                top@,
                kernel,
                store[name].records,
                query,
                k,
            );
        }
    }
}

/// Metadata is found exactly where the record is held, and is the record's.
pub proof fn metadata_is_the_records(
    store: Map<Seq<char>, CollectionView>,
    name: Seq<char>,
    id: u64,
    r: Option<HashMap<String, String>>,
)
    requires
        is_metadata(store, name, id, r),
    ensures
        r is Some <==> store.contains_key(name) && store[name].records.contains_key(id),
        r matches Some(metadata) ==> metadata@ == store[name].records[id].metadata,
{
}

/// The status names every collection, once, and no other, and counts the records of each.
pub proof fn status_names_and_counts_everything(
    store: Map<Seq<char>, CollectionView>,
    r: (Vec<String>, u32),
    name: Seq<char>,
)
    requires
        is_status(store, r),
    ensures
        store.contains_key(name) <==> exists|i: int| 0 <= i < r.0@.len() && (#[trigger] r.0@[i])@ == name,
        forall|i: int, j: int|
            0 <= i < j < r.0@.len() ==> (#[trigger] r.0@[i])@ != (#[trigger] r.0@[j])@,
        r.1 == total_vectors(store, Seq::new(r.0@.len(), |i: int| r.0@[i]@)) % 0x1_0000_0000,
{
    let names = crate::text::views(r.0@);
    assert(names =~= Seq::new(r.0@.len(), |i: int| r.0@[i]@));
    assert(store.contains_key(name) <==> names.to_set().contains(name));
    if names.contains(name) {
        let i = choose|i: int| 0 <= i < names.len() && names[i] == name;
        assert(r.0@[i]@ == name);
    }
    if exists|i: int| 0 <= i < r.0@.len() && (#[trigger] r.0@[i])@ == name {
        let i = choose|i: int| 0 <= i < r.0@.len() && (#[trigger] r.0@[i])@ == name;
        assert(names[i] == name);
    }
    assert forall|i: int, j: int| 0 <= i < j < r.0@.len() implies (#[trigger] r.0@[i])@ != (
    #[trigger] r.0@[j])@ by {
        assert(names[i] != names[j]);
    }
}

/// A restored store has what the snapshot has: the last collection of each name, with its dimension
/// and its number of shards, and in it the last vector of each id; and nothing else.
pub proof fn restored_stores_have_what_was_saved(
    collections: Seq<CollectionSnapshot>,
    c: int,
    v: int,
    name: Seq<char>,
    id: u64,
)
    ensures
        restored(collections).contains_key(name) <==> exists|i: int|
            0 <= i < collections.len() && (#[trigger] collections[i]).name@ == name,
        0 <= c < collections.len() && collections[c].name@ == name && (forall|i: int|
            c < i < collections.len() ==> (#[trigger] collections[i]).name@ != name) ==> {
            let held = restored(collections)[name];
            let saved = collections[c];
            &&& held.dim == saved.dim
            &&& held.shard_count == saved.shard_count
            &&& 0 <= v < saved.vectors@.len() && saved.vectors@[v].id == id && (forall|j: int|
                v < j < saved.vectors@.len() ==> (#[trigger] saved.vectors@[j]).id != id)
                ==> held.records.contains_key(id) && held.records[id].embedding
                == saved.vectors@[v].embedding@ && held.records[id].metadata
                == saved.vectors@[v].metadata@ && held.records[id].id == id
            &&& (forall|j: int|
                0 <= j < saved.vectors@.len() ==> (#[trigger] saved.vectors@[j]).id != id)
                ==> !held.records.contains_key(id)
        },
    decreases collections.len(),
{
    if collections.len() > 0 {
        let before = collections.drop_last();
        let last = collections.len() - 1;
        restored_stores_have_what_was_saved(before, c, v, name, id);
        assert(collections[last] == collections.last());
        assert forall|i: int| 0 <= i < before.len() implies before[i] == collections[i] by {}
        if restored(collections).contains_key(name) {
            if collections[last].name@ != name {
                assert(restored(before).contains_key(name));
                let i = choose|i: int| 0 <= i < before.len() && (#[trigger] before[i]).name@ == name;
                assert(before[i].name@ == name);
                assert(collections[i].name@ == name);
            }
        }
        if exists|i: int| 0 <= i < collections.len() && (#[trigger] collections[i]).name@ == name {
            let i = choose|i: int|
                0 <= i < collections.len() && (#[trigger] collections[i]).name@ == name;
            if i < last {
                assert(before[i].name@ == name);
            }
        }
        if (0 <= c < collections.len() && collections[c].name@ == name && forall|i: int|
            c < i < collections.len() ==> (#[trigger] collections[i]).name@ != name) {
            let saved = collections[c];
            let views = record_views(saved.vectors@);
            crate::collection::last_records_stay(Map::empty(), views, id, v);
            assert(forall|j: int| 0 <= j < views.len() ==> views[j].id == saved.vectors@[j].id);
            if c < last {
                assert(collections[last].name@ != name);
                assert(forall|i: int|
                    c < i < before.len() ==> (#[trigger] before[i]).name@ != name);
            } else {
                assert(restored(collections)[name] == restored_collection(saved));
                if forall|j: int|
                    0 <= j < saved.vectors@.len() ==> (#[trigger] saved.vectors@[j]).id != id {
                    assert(forall|j: int| 0 <= j < views.len() ==> (#[trigger] views[j]).id != id);
                }
                if forall|j: int|
                    v < j < saved.vectors@.len() ==> (#[trigger] saved.vectors@[j]).id != id {
                    assert(0 <= v ==> forall|j: int|
                        v < j < views.len() ==> (#[trigger] views[j]).id != id);
                }
            }
        }
    }
}

} // verus!
