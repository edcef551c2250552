//! The requests of one replica: what it replies, given what the consensus layer says.
//!
//! Vectors change only through committed log entries; a request to change them becomes a
//! [`ShardCommand`], and its outcome becomes a reply. A search is answered only by a replica that
//! believes it leads and has had that confirmed by a quorum.

use crate::address::NodeId;
use crate::collection::{last_with, StoreFault};
use crate::log::{Entry, Payload};
use crate::message::{
    ClusterStatusResponse, Code, CreateCollectionRequest, CreateCollectionResponse, DeleteRequest,
    DeleteResponse, InsertRequest, InsertResponse, ScoredRecord, SearchRequest, SearchResponse,
    Status, StatusView,
};
use crate::raft::{
    answer, applied, stepped, touches, CommandView, MachineView, ShardCommand, ShardCommandResponse,
};
use crate::record::RecordView;
use crate::store::{Store, StoreError};
use std::collections::{BTreeMap, HashMap};
use vstd::prelude::*;

verus! {

/// Who leads, as far as a replica knows.
#[derive(Debug, PartialEq, Eq)]
pub enum Leadership {
    IAmLeader,
    /// Another replica does, at this address.
    Redirect(String),
    Unknown,
}

/// A [`Leadership`] as mathematical values.
pub enum LeadershipView {
    IAmLeader,
    Redirect(Seq<char>),
    Unknown,
}

impl View for Leadership {
    type V = LeadershipView;

    open spec fn view(&self) -> LeadershipView {
        match self {
            Leadership::IAmLeader => LeadershipView::IAmLeader,
            Leadership::Redirect(addr) => LeadershipView::Redirect(addr@),
            Leadership::Unknown => LeadershipView::Unknown,
        }
    }
}

/// Why a write did not go through.
#[derive(Debug, PartialEq, Eq)]
pub enum WriteError {
    /// Another replica leads, at this address if that is known.
    ForwardToLeader { leader_addr: Option<String> },
    /// Anything else, in words.
    Other(String),
}

/// The failure of a call for which no leader is known.
pub open spec fn no_leader() -> StatusView {
    StatusView {
        code: Code::Unavailable,
        message: "no leader currently known for this shard"@,
    }
}

fn no_leader_status() -> (r: Status)
    ensures
        r@ == no_leader(),
{
    Status::new(Code::Unavailable, "no leader currently known for this shard".to_owned())
}

/// The failure that a refusal of the store is reported as.
pub open spec fn fault_status(fault: StoreFault) -> StatusView {
    StatusView {
        code: match fault {
            StoreFault::CollectionExists(_) => Code::AlreadyExists,
            StoreFault::CollectionNotFound(_) => Code::NotFound,
            StoreFault::DimensionMismatch { .. } => Code::InvalidArgument,
        },
        message: crate::collection::fault_text(fault),
    }
}

impl StoreError {
    /// The failure that the error is reported as.
    pub fn to_status(&self) -> (r: Status)
        ensures
            r@ == fault_status(self@),
    {
        let code = match self {
            StoreError::CollectionExists(_) => Code::AlreadyExists,
            StoreError::CollectionNotFound(_) => Code::NotFound,
            StoreError::DimensionMismatch { .. } => Code::InvalidArgument,
        };
        Status::new(code, self.message())
    }
}

/// The leader's address to hand back after a failed write, or the failure where there is none.
pub open spec fn hint_of(err: WriteError) -> Result<Seq<char>, StatusView> {
    match err {
        WriteError::ForwardToLeader { leader_addr: Some(addr) } => Ok(addr@),
        WriteError::ForwardToLeader { leader_addr: None } => Err(no_leader()),
        WriteError::Other(text) => Err(StatusView { code: Code::Internal, message: text@ }),
    }
}

/// Whether `r` replies to an insert of `count` records whose command came to `outcome`: the count where
/// the state machine applied it and zero where it did not; the leader's address, with zero, where
/// another replica leads; else the failure.
pub open spec fn is_insert_reply(
    count: u32,
    outcome: Result<ShardCommandResponse, WriteError>,
    r: Result<InsertResponse, Status>,
) -> bool {
    match outcome {
        Ok(response) => r matches Ok(reply) && reply.leader_hint@.len() == 0 && reply.inserted == (
        if response.applied {
            count
        } else {
            0
        }),
        Err(err) => match hint_of(err) {
            Ok(addr) => r matches Ok(reply) && reply.inserted == 0 && reply.leader_hint@ == addr,
            Err(want) => r matches Err(status) && status@ == want,
        },
    }
}

/// Whether `r` replies to a delete of `count` ids whose command came to `outcome`: the count where
/// it was committed; the leader's address, with zero, where another replica leads; else the
/// failure.
pub open spec fn is_delete_reply(
    count: u32,
    outcome: Result<ShardCommandResponse, WriteError>,
    r: Result<DeleteResponse, Status>,
) -> bool {
    match outcome {
        Ok(_) => r matches Ok(reply) && reply.leader_hint@.len() == 0 && reply.deleted == count,
        Err(err) => match hint_of(err) {
            Ok(addr) => r matches Ok(reply) && reply.deleted == 0 && reply.leader_hint@ == addr,
            Err(want) => r matches Err(status) && status@ == want,
        },
    }
}

/// What a replica does first about a search.
#[derive(Debug, PartialEq, Eq)]
pub enum Admission {
    /// It replies at once.
    Reply(SearchResponse),
    /// It fails at once.
    Refuse(Status),
    /// It has a quorum confirm that it leads, and goes on with the outcome.
    Confirm,
}

/// One replica of one shard.
pub struct NodeService {
    pub node_id: NodeId,
}

impl NodeService {
    pub fn new(node_id: NodeId) -> (r: Self)
        ensures
            r.node_id == node_id,
    {
        NodeService { node_id }
    }

    /// Who leads: the leader that the consensus layer knows of, by its address in the membership.
    pub fn leadership(
        &self,
        current_leader: Option<NodeId>,
        members: &BTreeMap<NodeId, String>,
    ) -> (r: Leadership)
        ensures
            r@ == match current_leader {
                Some(id) => if id == self.node_id {
                    LeadershipView::IAmLeader
                } else if members@.contains_key(id) {
                    LeadershipView::Redirect(members@[id]@)
                } else {
                    LeadershipView::Unknown
                },
                None => LeadershipView::Unknown,
            },
    {
        broadcast use vstd::std_specs::btree::group_btree_axioms;

        match current_leader {
            Some(id) => if id == self.node_id {
                Leadership::IAmLeader
            } else {
                match members.get(&id) {
                    Some(addr) => Leadership::Redirect(addr.clone()),
                    None => Leadership::Unknown,
                }
            },
            None => Leadership::Unknown,
        }
    }

    /// The leader's address to hand back after a failed write, or the failure where there is
    /// none.
    pub fn write_error_to_hint(err: WriteError) -> (r: Result<String, Status>)
        ensures
            match (r, hint_of(err)) {
                (Ok(hint), Ok(addr)) => hint@ == addr,
                (Err(status), Err(want)) => status@ == want,
                _ => false,
            },
    {
        match err {
            WriteError::ForwardToLeader { leader_addr: Some(addr) } => Ok(addr),
            WriteError::ForwardToLeader { leader_addr: None } => Err(no_leader_status()),
            WriteError::Other(text) => Err(Status::new(Code::Internal, text)),
        }
    }

    /// Creates a collection in this replica's store.
    pub fn create_collection<A: Fn(u32, u32, u32) -> u32, Q: Fn(u32, u32, u32) -> u32>(
        &self,
        store: &mut Store<A, Q>,
        request: CreateCollectionRequest,
    ) -> (r: Result<CreateCollectionResponse, Status>)
        requires
            old(store).wf(),
        ensures
            final(store).wf(),
            final(store).kernel() == old(store).kernel(),
            match (
                r,
                crate::collection::creation(
                    old(store)@,
                    request.name@,
                    request.dim as int,
                    request.shard_count,
                ),
            ) {
                (Ok(reply), Ok(after)) => reply.created && final(store)@ == after,
                (Err(status), Err(fault)) => {
                    &&& status@ == fault_status(fault)
                    &&& final(store)@ == old(store)@
                },
                _ => false,
            },
    {
        match store.create_collection(
            request.name.as_str(),
            request.dim as usize,
            request.shard_count,
        ) {
            Ok(()) => Ok(CreateCollectionResponse { created: true }),
            Err(e) => Err(e.to_status()),
        }
    }

    /// The command that an insert replicates, and the number of records it is to report, modulo
    /// `2^32`.
    pub fn insert_command(request: InsertRequest) -> (r: (ShardCommand, u32))
        ensures
            r.0@ == (CommandView::Upsert {
                collection: request.collection@,
                records: crate::collection::record_views(request.records@),
            }),
            r.1 == request.records@.len() % 0x1_0000_0000,
    {
        let count: u32 = (request.records.len() as u64 % 0x1_0000_0000u64) as u32;
        (ShardCommand::Upsert { collection: request.collection, records: request.records }, count)
    }

    /// The reply to an insert of `count` records, once the outcome of its command is known. A
    /// committed command that the store refused wrote nothing and counts for nothing.
    pub fn insert_reply(count: u32, outcome: Result<ShardCommandResponse, WriteError>) -> (r: Result<
        InsertResponse,
        Status,
    >)
        ensures
            is_insert_reply(count, outcome, r),
    {
        match outcome {
            Ok(response) => {
                let inserted: u32 = if response.applied {
                    count
                } else {
                    0
                };
                Ok(InsertResponse { inserted, leader_hint: String::new() })
            },
            Err(err) => match Self::write_error_to_hint(err) {
                Ok(hint) => Ok(InsertResponse { inserted: 0, leader_hint: hint }),
                Err(status) => Err(status),
            },
        }
    }

    /// The command that a delete replicates, and the number of ids it is to report, modulo
    /// `2^32`.
    pub fn delete_command(request: DeleteRequest) -> (r: (ShardCommand, u32))
        ensures
            r.0@ == (CommandView::Delete {
                collection: request.collection@,
                ids: request.ids@,
            }),
            r.1 == request.ids@.len() % 0x1_0000_0000,
    {
        let count: u32 = (request.ids.len() as u64 % 0x1_0000_0000u64) as u32;
        (ShardCommand::Delete { collection: request.collection, ids: request.ids }, count)
    }

    /// The reply to a delete of `count` ids, once the outcome of its command is known. A committed
    /// command counts in full, also for ids that were not held and for a collection that does not
    /// exist: either way none of the ids is held afterwards.
    pub fn delete_reply(count: u32, outcome: Result<ShardCommandResponse, WriteError>) -> (r: Result<
        DeleteResponse,
        Status,
    >)
        ensures
            is_delete_reply(count, outcome, r),
    {
        match outcome {
            Ok(_) => Ok(DeleteResponse { deleted: count, leader_hint: String::new() }),
            Err(err) => match Self::write_error_to_hint(err) {
                Ok(hint) => Ok(DeleteResponse { deleted: 0, leader_hint: hint }),
                Err(status) => Err(status),
            },
        }
    }

    /// What to do about a search first. Only a replica that believes it leads goes on, and it has
    /// that confirmed: one cut off from the others keeps believing that it leads.
    pub fn admit_search(leadership: Leadership) -> (r: Admission)
        ensures
            match leadership@ {
                LeadershipView::Redirect(addr) => r matches Admission::Reply(reply) && {
                    &&& reply.results@.len() == 0
                    &&& reply.shards_queried == 0
                    &&& reply.shards_failed == 0
                    &&& reply.leader_hint@ == addr
                },
                LeadershipView::Unknown => r matches Admission::Refuse(status) && status@
                    == no_leader(),
                LeadershipView::IAmLeader => r is Confirm,
            },
    {
        match leadership {
            Leadership::Redirect(hint) => Admission::Reply(
                SearchResponse {
                    results: Vec::new(),
                    shards_queried: 0,
                    shards_failed: 0,
                    leader_hint: hint,
                },
            ),
            Leadership::Unknown => Admission::Refuse(no_leader_status()),
            Leadership::IAmLeader => Admission::Confirm,
        }
    }

    /// Answers a search once a quorum has, or has not, confirmed that this replica leads.
    pub fn search<A, Q>(
        &self,
        store: &Store<A, Q>,
        quorum: &Result<(), String>,
        request: SearchRequest,
    ) -> (r: Result<SearchResponse, Status>)
        where
            A: Fn(u32, u32, u32) -> u32 + Sync + Send,
            Q: Fn(u32, u32, u32) -> u32 + Sync + Send,
        requires
            store.wf(),
        ensures
            search_outcome(*store, *quorum, request, r),
            r matches Ok(reply) ==> reply.results@.len() == (if request.k
                < store@[request.collection@].records.dom().len() {
                request.k as nat
            } else {
                store@[request.collection@].records.dom().len()
            }),
    {
        if let Err(e) = quorum {
            return Err(
                Status::new(
                    Code::Unavailable,
                    crate::text::joined(
                        "cannot confirm current leadership (lost quorum?): ",
                        e.as_str(),
                    ),
                ),
            );
        }
        let name = request.collection;
        let top = match store.search(
            name.as_str(),
            request.query_vector.as_slice(),
            request.k as usize,
        ) {
            Ok(top) => top,
            Err(e) => {
                return Err(e.to_status());
            },
        };
        let n: usize = top.len();
        let mut results: Vec<ScoredRecord> = Vec::new();
        for i in 0..n
            invariant
                n == top.len(),
                store.wf(),
                results.len() == i,
                forall|j: int|
                    0 <= j < i ==> {
                        let result = #[trigger] results@[j];
                        &&& result.id == top@[j].id
                        &&& result.score == top@[j].score
                        &&& result.metadata@ == held_metadata(store@[name@].records, result.id)
                    },
                store@.contains_key(name@),
        {
            let metadata = match store.get_metadata(name.as_str(), top[i].id) {
                Some(metadata) => metadata,
                None => HashMap::new(),
            };
            results.push(ScoredRecord { id: top[i].id, score: top[i].score, metadata });
        }
        assert(crate::message::ranked(crate::message::result_views(results@)) =~= top@);
        Ok(
            SearchResponse {
                results,
                shards_queried: 1,
                shards_failed: 0,
                leader_hint: String::new(),
            },
        )
    }

    /// What this replica's store holds.
    pub fn cluster_status<A: Fn(u32, u32, u32) -> u32, Q: Fn(u32, u32, u32) -> u32>(
        &self,
        store: &Store<A, Q>,
    ) -> (r: ClusterStatusResponse)
        requires
            store.wf(),
        ensures
            crate::text::views(r.collections@).no_duplicates(),
            crate::text::views(r.collections@).to_set() == store@.dom(),
            r.vector_count == crate::collection::total_vectors(
                store@,
                crate::text::views(r.collections@),
            ) % 0x1_0000_0000,
    {
        let (collections, vector_count) = store.cluster_status();
        ClusterStatusResponse { collections, vector_count }
    }
}

/// The metadata of a record, none where it is not held.
pub open spec fn held_metadata(
    records: Map<u64, RecordView>,
    id: u64,
) -> Map<String, String> {
    if records.contains_key(id) {
        records[id].metadata
    } else {
        Map::empty()
    }
}

/// Whether `results` are the exact top `k` of records by their similarity to a query, each with
/// its metadata.
pub open spec fn are_results<A: Fn(u32, u32, u32) -> u32, Q: Fn(u32, u32, u32) -> u32>(
    results: Seq<crate::message::ResultView>,
    kernel: crate::similarity::Kernel<A, Q>,
    records: Map<u64, RecordView>,
    query: Seq<u32>,
    k: nat,
) -> bool {
    &&& crate::collection::answers(crate::message::ranked(results), kernel, records, query, k)
    &&& forall|i: int|
        0 <= i < results.len() ==> (#[trigger] results[i]).metadata == held_metadata(
            records,
            results[i].id,
        )
}

/// Whether `r` is what a search comes to, given what the quorum said: a failure where it did not
/// confirm; the store's refusal, reported; or the exact top `k` of the collection, each record
/// with its metadata.
pub open spec fn search_outcome<A: Fn(u32, u32, u32) -> u32, Q: Fn(u32, u32, u32) -> u32>(
    store: Store<A, Q>,
    quorum: Result<(), String>,
    request: SearchRequest,
    r: Result<SearchResponse, Status>,
) -> bool {
    match quorum {
        Err(e) => r matches Err(status) && status@ == (StatusView {
            code: Code::Unavailable,
            message: "cannot confirm current leadership (lost quorum?): "@ + e@,
        }),
        Ok(()) => match crate::collection::query_fault(
            store@,
            request.collection@,
            request.query_vector@.len(),
        ) {
            Some(fault) => r matches Err(status) && status@ == fault_status(fault),
            None => r matches Ok(reply) && {
                &&& are_results(
                    crate::message::result_views(reply.results@),
                    store.kernel(),
                    store@[request.collection@].records,
                    request.query_vector@,
                    request.k as nat,
                )
                &&& reply.shards_queried == 1
                &&& reply.shards_failed == 0
                &&& reply.leader_hint@.len() == 0
            },
        },
    }
}

/// A replica that cannot have its leadership confirmed answers no search, whatever it believes and
/// holds: the request fails as unavailable.
pub proof fn unconfirmed_leaders_answer_nothing<
    A: Fn(u32, u32, u32) -> u32,
    Q: Fn(u32, u32, u32) -> u32,
>(
    store: Store<A, Q>,
    quorum: Result<(), String>,
    request: SearchRequest,
    r: Result<SearchResponse, Status>,
)
    requires
        search_outcome(store, quorum, request, r),
        quorum is Err,
    ensures
        r matches Err(status) && status.code == Code::Unavailable,
{
}

/// An acknowledged write is stored, and stays: where the reply to an insert counts any record, each
/// id among the records holds the last of them with that id once the command is applied. It still
/// does after any further entries, unless one of those writes or deletes it.
pub proof fn acknowledged_writes_are_stored<M>(
    state: MachineView<M>,
    entry: Entry<CommandView, M>,
    collection: Seq<char>,
    records: Seq<RecordView>,
    count: u32,
    outcome: Result<ShardCommandResponse, WriteError>,
    r: Result<InsertResponse, Status>,
    later: Seq<Entry<CommandView, M>>,
    id: u64,
)
    requires
        entry.payload == Payload::<CommandView, M>::Normal(
            CommandView::Upsert { collection, records },
        ),
        outcome matches Ok(response) ==> response == answer(state, entry),
        is_insert_reply(count, outcome, r),
        r matches Ok(reply) && reply.inserted > 0,
        last_with(records, id) is Some,
        forall|i: int| 0 <= i < later.len() ==> !touches(#[trigger] later[i], collection, id),
    ensures
        ({
            let after = applied(stepped(state, entry), later).store;
            &&& after.contains_key(collection)
            &&& after[collection].records.contains_key(id)
            &&& after[collection].records[id] == last_with(records, id)->Some_0
        }),
{
    crate::raft::applied_writes_are_stored(state, entry, collection, records, id);
    crate::raft::records_are_not_lost(stepped(state, entry), later, collection, id);
}

/// An acknowledged delete is carried out, and stays so: where the reply to a delete counts any id,
/// no collection of that name holds one of the ids once the command is applied. None does after any
/// further entries either, unless one of those writes or deletes the id.
pub proof fn acknowledged_deletes_are_carried_out<M>(
    state: MachineView<M>,
    entry: Entry<CommandView, M>,
    collection: Seq<char>,
    ids: Seq<u64>,
    count: u32,
    outcome: Result<ShardCommandResponse, WriteError>,
    r: Result<DeleteResponse, Status>,
    later: Seq<Entry<CommandView, M>>,
    id: u64,
)
    requires
        entry.payload == Payload::<CommandView, M>::Normal(CommandView::Delete { collection, ids }),
        outcome matches Ok(response) ==> response == answer(state, entry),
        is_delete_reply(count, outcome, r),
        r matches Ok(reply) && reply.deleted > 0,
        ids.contains(id),
        forall|i: int| 0 <= i < later.len() ==> !touches(#[trigger] later[i], collection, id),
    ensures
        ({
            let after = applied(stepped(state, entry), later).store;
            &&& after.contains_key(collection) == state.store.contains_key(collection)
            &&& after.contains_key(collection) ==> !after[collection].records.contains_key(id)
        }),
{
    crate::raft::records_do_not_come_back(stepped(state, entry), later, collection, id);
}

/// A refused insert is not acknowledged: where the state machine did not apply its command, the
/// reply counts nothing, and the store is as it was.
pub proof fn refused_inserts_are_not_acknowledged<M>(
    state: MachineView<M>,
    entry: Entry<CommandView, M>,
    count: u32,
    r: Result<InsertResponse, Status>,
)
    requires
        !answer(state, entry).applied,
        is_insert_reply(count, Ok(answer(state, entry)), r),
    ensures
        r matches Ok(reply) && reply.inserted == 0,
        stepped(state, entry).store == state.store,
{
}

/// Who leads is shown with the address in full.
pub proof fn leadership_shows_the_address(addr: String)
    ensures
        Leadership::Redirect(addr)@ == LeadershipView::Redirect(addr@),
        Leadership::IAmLeader@ is IAmLeader,
        Leadership::Unknown@ is Unknown,
{
}

/// A refusal of the store is reported under a code of its own and in its own words.
pub proof fn refusals_are_reported(name: Seq<char>, expected: int, actual: int, fault: StoreFault)
    ensures
        fault_status(StoreFault::CollectionExists(name)).code == Code::AlreadyExists,
        fault_status(StoreFault::CollectionNotFound(name)).code == Code::NotFound,
        fault_status(StoreFault::DimensionMismatch { expected, actual }).code
            == Code::InvalidArgument,
        fault_status(fault).message == crate::collection::fault_text(fault),
{
}

/// A write that another replica has to take is handed back with that replica's address, whole; one
/// for which none is known fails as unavailable, and any other failure as internal, in its own
/// words.
pub proof fn failed_writes_are_handed_back(addr: String, text: String)
    ensures
        hint_of(WriteError::ForwardToLeader { leader_addr: Some(addr) }) == Ok::<
            Seq<char>,
            StatusView,
        >(addr@),
        hint_of(WriteError::ForwardToLeader { leader_addr: None }) matches Err(status)
            && status.code == Code::Unavailable && status.message
            == "no leader currently known for this shard"@,
        hint_of(WriteError::Other(text)) matches Err(status) && status.code == Code::Internal
            && status.message == text@,
        no_leader().code == Code::Unavailable,
        no_leader().message == "no leader currently known for this shard"@,
{
}

/// A reply to a write counts all of it or nothing: an insert where it was applied, a delete where it
/// was committed. Where another replica leads, nothing is counted and its address handed back.
pub proof fn replies_count_all_or_nothing(
    count: u32,
    outcome: Result<ShardCommandResponse, WriteError>,
    inserted: Result<InsertResponse, Status>,
    deleted: Result<DeleteResponse, Status>,
)
    requires
        is_insert_reply(count, outcome, inserted),
        is_delete_reply(count, outcome, deleted),
    ensures
        match outcome {
            Ok(response) => {
                &&& inserted matches Ok(reply) && reply.leader_hint@.len() == 0 && (response.applied
                    ==> reply.inserted == count) && (!response.applied ==> reply.inserted == 0)
                &&& deleted matches Ok(reply) && reply.leader_hint@.len() == 0 && reply.deleted
                    == count
            },
            Err(WriteError::ForwardToLeader { leader_addr: Some(addr) }) => {
                &&& inserted matches Ok(reply) && reply.inserted == 0 && reply.leader_hint@ == addr@
                &&& deleted matches Ok(reply) && reply.deleted == 0 && reply.leader_hint@ == addr@
            },
            Err(WriteError::ForwardToLeader { leader_addr: None }) => {
                &&& inserted matches Err(status) && status.code == Code::Unavailable
                &&& deleted matches Err(status) && status.code == Code::Unavailable
            },
            Err(WriteError::Other(text)) => {
                &&& inserted matches Err(status) && status.code == Code::Internal && status.message@
                    == text@
                &&& deleted matches Err(status) && status.code == Code::Internal && status.message@
                    == text@
            },
        },
{
}

/// Results are answers, each with the metadata of its own record.
pub proof fn results_carry_their_records_metadata<
    A: Fn(u32, u32, u32) -> u32,
    Q: Fn(u32, u32, u32) -> u32,
>(
    results: Seq<crate::message::ResultView>,
    kernel: crate::similarity::Kernel<A, Q>,
    records: Map<u64, RecordView>,
    query: Seq<u32>,
    k: nat,
    i: int,
)
    requires
        records.dom().finite(),
        are_results(results, kernel, records, query, k),
    ensures
        results.len() == if k < records.dom().len() {
            k
        } else {
            records.dom().len()
        },
        crate::collection::answers(
            Seq::new(
                results.len(),
                |j: int| crate::record::ScoredId { id: results[j].id, score: results[j].score },
            ),
            kernel,
            records,
            query,
            k,
        ),
        0 <= i < results.len() ==> records.contains_key(results[i].id) && results[i].metadata
            == records[results[i].id].metadata,
{
    let top = crate::message::ranked(results);
    assert(top =~= Seq::new(
        results.len(),
        |j: int| crate::record::ScoredId { id: results[j].id, score: results[j].score },
    ));
    crate::collection::answers_are_as_many_as_asked_for(top, kernel, records, query, k);
    crate::collection::answers_come_from_the_collection(top, kernel, records, query, k);
    if 0 <= i < results.len() {
        assert(top[i].id == results[i].id);
    }
}

/// A search of a confirmed leader is answered exactly where the collection exists and has the
/// query's dimension. The reply then has as many results as asked for, or as the collection has
/// records; they answer the query from all of its records with the very `k` asked for, each with its
/// record's metadata. Else it fails, as not found or as an invalid argument.
pub proof fn confirmed_leaders_answer_in_full<
    A: Fn(u32, u32, u32) -> u32,
    Q: Fn(u32, u32, u32) -> u32,
>(store: Store<A, Q>, request: SearchRequest, r: Result<SearchResponse, Status>, i: int)
    requires
        store.wf(),
        search_outcome(store, Ok(()), request, r),
    ensures
        r is Ok <==> store@.contains_key(request.collection@) && store@[request.collection@].dim
            == request.query_vector@.len(),
        r matches Ok(reply) ==> {
            let records = store@[request.collection@].records;
            let results = reply.results@;
            &&& results.len() == (if request.k < records.dom().len() {
                request.k as nat
            } else {
                records.dom().len()
            })
            &&& crate::collection::answers(
                Seq::new(
                    results.len(),
                    |j: int|
                        crate::record::ScoredId { id: results[j].id, score: results[j].score },
                ),
                store.kernel(),
                records,
                request.query_vector@,
                request.k as nat,
            )
            &&& 0 <= i < results.len() ==> records.contains_key(results[i].id)
                && results[i].metadata@ == records[results[i].id].metadata
            &&& reply.shards_queried == 1
            &&& reply.shards_failed == 0
            &&& reply.leader_hint@.len() == 0
        },
        r matches Err(status) ==> status.code == (if store@.contains_key(request.collection@) {
            Code::InvalidArgument
        } else {
            Code::NotFound
        }),
{
    let name = request.collection@;
    crate::collection::queries_are_refused_where_they_do_not_fit(
        store@,
        name,
        request.query_vector@.len(),
    );
    if let Ok(reply) = r {
        store.records_are_finite(name);
        let results = crate::message::result_views(reply.results@);
        results_carry_their_records_metadata(
            results,
            store.kernel(),
            store@[name].records,
            request.query_vector@,
            request.k as nat,
            i,
        );
        assert(Seq::new(
            results.len(),
            |j: int| crate::record::ScoredId { id: results[j].id, score: results[j].score },
        ) =~= Seq::new(
            reply.results@.len(),
            |j: int|
                crate::record::ScoredId {
                    id: reply.results@[j].id,
                    score: reply.results@[j].score,
                },
        ));
    }
}

} // verus!
