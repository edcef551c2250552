//! What a replica reports about its group.

use crate::address::NodeId;
use crate::log::LogId;
use vstd::prelude::*;

verus! {

/// How often the number of vectors is reported, in milliseconds.
pub const VECTOR_COUNT_POLL_INTERVAL_MS: u64 = 2000;

/// Counts the elections that a replica sees.
#[derive(Debug, Clone, Copy, PartialEq, Eq, Structural)]
pub struct LeaderWatch {
    pub last_leader: Option<NodeId>,
}

impl LeaderWatch {
    /// Notes the leader now known. It counts as an election where there is one and it is not the
    /// one known before.
    pub fn observe(&mut self, current: Option<NodeId>) -> (elected: bool)
        ensures
            elected == (current is Some && current != old(self).last_leader),
            final(self).last_leader == current,
    {
        let elected = match (current, self.last_leader) {
            (Some(new), Some(old)) => new != old,
            (Some(_), None) => true,
            (None, _) => false,
        };
        self.last_leader = current;
        elected
    }
}

/// How many entries a follower is behind. One that has acknowledged nothing counts from index
/// zero, and one that is ahead is not behind.
pub open spec fn lag(leader_index: u64, follower: Option<LogId>) -> int {
    let index = match follower {
        Some(id) => id.index,
        None => 0,
    };
    if index < leader_index {
        leader_index - index
    } else {
        0
    }
}

/// How many entries each follower is behind. Only a leader knows, and only once it has a log.
pub fn replication_lags(
    last_log_index: Option<u64>,
    replication: Option<Vec<(NodeId, Option<LogId>)>>,
) -> (r: Vec<(NodeId, u64)>)
    ensures
        match (last_log_index, replication) {
            (Some(leader_index), Some(followers)) => {
                &&& r.len() == followers.len()
                &&& forall|i: int|
                    0 <= i < r.len() ==> (#[trigger] r@[i]).0 == followers@[i].0 && r@[i].1 == lag(
                        leader_index,
                        followers@[i].1,
                    )
            },
            _ => r.len() == 0,
        },
{
    let mut r: Vec<(NodeId, u64)> = Vec::new();
    if let Some(leader_index) = last_log_index {
        if let Some(followers) = replication {
            let n: usize = followers.len();
            for i in 0..n
                invariant
                    n == followers.len(),
                    r.len() == i,
                    forall|j: int|
                        0 <= j < i ==> (#[trigger] r@[j]).0 == followers@[j].0 && r@[j].1 == lag(
                            leader_index,
                            followers@[j].1,
                        ),
            {
                let index: u64 = match followers[i].1 {
                    Some(id) => id.index,
                    None => 0,
                };
                r.push((followers[i].0, leader_index.saturating_sub(index)));
            }
        }
    }
    r
}

/// A follower is behind by what it lacks of the leader's index: the two add up to it. One that has
/// acknowledged nothing lacks all of it, and one that is ahead lacks nothing.
pub proof fn lags_make_up_the_leaders_index(leader_index: u64, follower: LogId)
    ensures
        follower.index <= leader_index ==> lag(leader_index, Some(follower)) + follower.index
            == leader_index,
        follower.index > leader_index ==> lag(leader_index, Some(follower)) == 0,
        lag(leader_index, None) == leader_index,
{
}

} // verus!
