//! Requests, replies and failures that nodes and clients exchange.

use crate::record::{ScoredId, VectorRecord};
use std::collections::HashMap;
use vstd::prelude::*;

verus! {

/// The kind of a failed call.
#[derive(Debug, Clone, Copy, PartialEq, Eq, Structural)]
pub enum Code {
    Success,
    Cancelled,
    Unknown,
    InvalidArgument,
    DeadlineExceeded,
    NotFound,
    AlreadyExists,
    PermissionDenied,
    ResourceExhausted,
    FailedPrecondition,
    Aborted,
    OutOfRange,
    Unimplemented,
    Internal,
    Unavailable,
    DataLoss,
    Unauthenticated,
}

/// A failed call.
#[derive(Debug, PartialEq, Eq)]
pub struct Status {
    pub code: Code,
    pub message: String,
}

/// A [`Status`] as mathematical values.
pub struct StatusView {
    pub code: Code,
    pub message: Seq<char>,
}

impl View for Status {
    type V = StatusView;

    open spec fn view(&self) -> StatusView {
        StatusView { code: self.code, message: self.message@ }
    }
}

impl Status {
    pub fn new(code: Code, message: String) -> (r: Self)
        ensures
            r@ == (StatusView { code, message: message@ }),
            r == (Status { code, message }),
    {
        Status { code, message }
    }
}

#[derive(Debug)]
pub struct CreateCollectionRequest {
    pub name: String,
    pub dim: u32,
    pub shard_count: u32,
}

#[derive(Debug, Clone, Copy, PartialEq, Eq, Structural)]
pub struct CreateCollectionResponse {
    pub created: bool,
}

#[derive(Debug)]
pub struct InsertRequest {
    pub collection: String,
    pub records: Vec<VectorRecord>,
}

/// The reply to an insert. Where the replica is not the leader, the leader's address is in
/// `leader_hint`; else that is empty.
#[derive(Debug, PartialEq, Eq)]
pub struct InsertResponse {
    pub inserted: u32,
    pub leader_hint: String,
}

#[derive(Debug)]
pub struct DeleteRequest {
    pub collection: String,
    pub ids: Vec<u64>,
}

/// The reply to a delete. Where the replica is not the leader, the leader's address is in
/// `leader_hint`; else that is empty.
#[derive(Debug, PartialEq, Eq)]
pub struct DeleteResponse {
    pub deleted: u32,
    pub leader_hint: String,
}

#[derive(Debug)]
pub struct SearchRequest {
    pub collection: String,
    pub query_vector: Vec<u32>,
    pub k: u32,
}

/// A result of a search: a record's id, its score's bit pattern and its metadata.
#[derive(Debug, PartialEq, Eq)]
pub struct ScoredRecord {
    pub id: u64,
    pub score: u32,
    pub metadata: HashMap<String, String>,
}

/// A [`ScoredRecord`] as mathematical values.
#[verifier::ext_equal]
pub struct ResultView {
    pub id: u64,
    pub score: u32,
    pub metadata: Map<String, String>,
}

impl View for ScoredRecord {
    type V = ResultView;

    open spec fn view(&self) -> ResultView {
        ResultView { id: self.id, score: self.score, metadata: self.metadata@ }
    }
}

/// The views of results in a list.
pub open spec fn result_views(results: Seq<ScoredRecord>) -> Seq<ResultView> {
    Seq::new(results.len(), |i: int| results[i]@)
}

/// Results without their metadata.
pub open spec fn ranked(results: Seq<ResultView>) -> Seq<ScoredId> {
    Seq::new(results.len(), |i: int| ScoredId { id: results[i].id, score: results[i].score })
}

/// The reply to a search. Where the replica is not the leader, the leader's address is in
/// `leader_hint`; else that is empty.
#[derive(Debug, PartialEq, Eq)]
pub struct SearchResponse {
    pub results: Vec<ScoredRecord>,
    pub shards_queried: u32,
    pub shards_failed: u32,
    pub leader_hint: String,
}

#[derive(Debug, PartialEq, Eq)]
pub struct ClusterStatusResponse {
    pub collections: Vec<String>,
    pub vector_count: u32,
}

/// Nothing of a failure or of a result is left out of what it is taken to say.
pub proof fn replies_show_everything(status: Status, result: ScoredRecord)
    ensures
        status@.code == status.code,
        status@.message == status.message@,
        result@.id == result.id,
        result@.score == result.score,
        result@.metadata == result.metadata@,
{
}

/// Every result of a list is shown, and ranked by its own id and score.
pub proof fn results_are_shown_in_order(results: Seq<ScoredRecord>, i: int)
    requires
        0 <= i < results.len(),
    ensures
        result_views(results).len() == results.len(),
        result_views(results)[i] == results[i]@,
        ranked(result_views(results)).len() == results.len(),
        ranked(result_views(results))[i].id == results[i].id,
        ranked(result_views(results))[i].score == results[i].score,
{
}

/// Ranking leaves out a result's metadata and nothing else.
pub proof fn rankings_keep_ids_and_scores(results: Seq<ResultView>, i: int)
    requires
        0 <= i < results.len(),
    ensures
        ranked(results).len() == results.len(),
        ranked(results)[i].id == results[i].id,
        ranked(results)[i].score == results[i].score,
{
}

} // verus!
