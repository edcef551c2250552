//! The replies of the aggregator, which serves clients as a node does and routes what they ask to
//! the shards.

use crate::message::{
    ClusterStatusResponse, CreateCollectionResponse, DeleteResponse, InsertResponse, ScoredRecord,
    SearchResponse, Status,
};
use crate::router::{RouterError, ShardRouter};
use vstd::prelude::*;

verus! {

/// The aggregator. It keeps nothing but its routing.
pub struct AggregatorService {
    pub router: ShardRouter,
}

impl AggregatorService {
    pub fn new(router: ShardRouter) -> (r: Self)
        ensures
            r.router == router,
    {
        AggregatorService { router }
    }

    /// The reply to creating a collection.
    pub fn create_collection_reply(outcome: Result<(), RouterError>) -> (r: Result<
        CreateCollectionResponse,
        Status,
    >)
        ensures
            match outcome {
                Ok(()) => r matches Ok(reply) && reply.created,
                Err(err) => r matches Err(status) && status@ == crate::router::fault_status(err@),
            },
    {
        match outcome {
            Ok(()) => Ok(CreateCollectionResponse { created: true }),
            Err(err) => Err(err.into_status()),
        }
    }

    /// The reply to an insert. The router finds the leaders, so there is nothing to hint at.
    pub fn insert_reply(outcome: Result<u32, RouterError>) -> (r: Result<InsertResponse, Status>)
        ensures
            match outcome {
                Ok(inserted) => r matches Ok(reply) && reply.inserted == inserted
                    && reply.leader_hint@.len() == 0,
                Err(err) => r matches Err(status) && status@ == crate::router::fault_status(err@),
            },
    {
        match outcome {
            Ok(inserted) => Ok(InsertResponse { inserted, leader_hint: String::new() }),
            Err(err) => Err(err.into_status()),
        }
    }

    /// The reply to a delete.
    pub fn delete_reply(outcome: Result<u32, RouterError>) -> (r: Result<DeleteResponse, Status>)
        ensures
            match outcome {
                Ok(deleted) => r matches Ok(reply) && reply.deleted == deleted
                    && reply.leader_hint@.len() == 0,
                Err(err) => r matches Err(status) && status@ == crate::router::fault_status(err@),
            },
    {
        match outcome {
            Ok(deleted) => Ok(DeleteResponse { deleted, leader_hint: String::new() }),
            Err(err) => Err(err.into_status()),
        }
    }

    /// The reply to a search, from what [`gather`](crate::gather::gather) gave.
    pub fn search_reply(gathered: (Vec<ScoredRecord>, u32, u32)) -> (r: SearchResponse)
        ensures
            r.results == gathered.0,
            r.shards_queried == gathered.1,
            r.shards_failed == gathered.2,
            r.leader_hint@.len() == 0,
    {
        SearchResponse {
            results: gathered.0,
            shards_queried: gathered.1,
            shards_failed: gathered.2,
            leader_hint: String::new(),
        }
    }

    /// The label under which a search's duration is recorded, so that searches with incomplete
    /// results are seen apart.
    pub fn search_label(shards_failed: u32) -> (r: &'static str)
        ensures
            r@ == if shards_failed > 0 {
                "degraded"@
            } else {
                "ok"@
            },
    {
        if shards_failed > 0 {
            "degraded"
        } else {
            "ok"
        }
    }

    /// The reply to a status request, from what
    /// [`cluster_status`](crate::gather::cluster_status) gave.
    pub fn cluster_status_reply(gathered: (Vec<String>, u32)) -> (r: ClusterStatusResponse)
        ensures
            r.collections == gathered.0,
            r.vector_count == gathered.1,
    {
        ClusterStatusResponse { collections: gathered.0, vector_count: gathered.1 }
    }
}

} // verus!
