//! Calls between the replicas of a group.

use crate::address::NodeId;
use crate::message::{Code, Status, StatusView};
use std::collections::HashMap;
use vstd::prelude::*;

verus! {

/// How long connecting to a replica may take, in milliseconds. It only matters for one that is
/// gone, which would otherwise hold up every election.
pub const CONNECT_TIMEOUT_MS: u64 = 100;

/// The largest message, in bytes: a batch of entries for a replica that catches up can be large.
pub const MAX_MESSAGE_SIZE: usize = 134_217_728;

/// Connections to other replicas, kept for reuse: connecting anew for every call would take
/// longer than the call.
pub struct Connections<C> {
    clients: HashMap<NodeId, C>,
}

impl<C> View for Connections<C> {
    type V = Map<u64, C>;

    closed spec fn view(&self) -> Map<u64, C> {
        self.clients@
    }
}

impl<C> Connections<C> {
    pub fn new() -> (r: Self)
        ensures
            r@ == Map::<u64, C>::empty(),
    {
        Connections { clients: HashMap::new() }
    }

    /// The connection to a replica, where there is one.
    pub fn get(&self, target: NodeId) -> (r: Option<&C>)
        ensures
            match r {
                Some(client) => self@.contains_key(target) && self@[target] == *client,
                None => !self@.contains_key(target),
            },
    {
        broadcast use vstd::std_specs::hash::group_hash_axioms;

        self.clients.get(&target)
    }

    /// Keeps a connection, in place of one to the same replica.
    pub fn keep(&mut self, target: NodeId, client: C)
        ensures
            final(self)@ == old(self)@.insert(target, client),
    {
        broadcast use vstd::std_specs::hash::group_hash_axioms;

        self.clients.insert(target, client);
    }
}

/// Where a call to another replica failed.
#[derive(Debug, Clone, Copy, PartialEq, Eq, Structural)]
pub enum CallFault {
    /// The request could not be encoded.
    Encode,
    /// No connection could be made.
    Connect,
    /// The call came back with a failure.
    Rpc(Code),
    /// The reply could not be decoded.
    Decode,
    /// The other replica's own consensus layer refused.
    Remote,
}

/// How the consensus layer is to treat a failed call.
#[derive(Debug, Clone, Copy, PartialEq, Eq, Structural)]
pub enum RpcFailure {
    /// The replica cannot be reached: try it again only after a while.
    Unreachable,
    /// The call failed: try again.
    Network,
    /// The replica answered, with an error.
    RemoteError,
}

/// How a failed call is to be treated.
pub fn classify(fault: CallFault) -> (r: RpcFailure)
    ensures
        r == match fault {
            CallFault::Connect | CallFault::Rpc(Code::Unavailable) => RpcFailure::Unreachable,
            CallFault::Remote => RpcFailure::RemoteError,
            _ => RpcFailure::Network,
        },
{
    match fault {
        CallFault::Encode => RpcFailure::Network,
        CallFault::Connect => RpcFailure::Unreachable,
        CallFault::Rpc(code) => if code == Code::Unavailable {
            RpcFailure::Unreachable
        } else {
            RpcFailure::Network
        },
        CallFault::Decode => RpcFailure::Network,
        CallFault::Remote => RpcFailure::RemoteError,
    }
}

/// The failure of a call whose request cannot be decoded, for a reason in words.
pub fn undecodable(reason: &str) -> (r: Status)
    ensures
        r@ == (StatusView {
            code: Code::InvalidArgument,
            message: "bad Raft message payload: "@ + reason@,
        }),
{
    Status::new(Code::InvalidArgument, crate::text::joined("bad Raft message payload: ", reason))
}

/// The failure of a call whose reply cannot be encoded, for a reason in words.
pub fn unencodable(reason: &str) -> (r: Status)
    ensures
        r@ == (StatusView { code: Code::Internal, message: reason@ }),
{
    Status::new(Code::Internal, reason.to_owned())
}

} // verus!
