//! Routing over a fixed set of shards, each a fixed set of replicas: what goes to which of them.
//!
//! Making the calls is left to the router's user.

use crate::failover::ShardReplicaSet;
use crate::message::{
    Code, CreateCollectionRequest, DeleteRequest, InsertRequest, SearchRequest, Status, StatusView,
};
use crate::record::VectorRecord;
use crate::sharding::shard_id;
use vstd::prelude::*;

verus! {

/// Why a routed call failed.
#[derive(Debug, PartialEq, Eq)]
pub enum RouterError {
    /// No connection to a replica, with the reason in words.
    Connect { addr: String, source: String },
    /// A replica's failure.
    Rpc(Status),
    /// No replica of the shard answered.
    ShardUnreachable,
}

/// A [`RouterError`] as mathematical values.
pub enum RouterFault {
    Connect { addr: Seq<char>, source: Seq<char> },
    Rpc(StatusView),
    ShardUnreachable,
}

impl View for RouterError {
    type V = RouterFault;

    open spec fn view(&self) -> RouterFault {
        match self {
            RouterError::Connect { addr, source } => RouterFault::Connect {
                addr: addr@,
                source: source@,
            },
            RouterError::Rpc(status) => RouterFault::Rpc(status@),
            RouterError::ShardUnreachable => RouterFault::ShardUnreachable,
        }
    }
}

/// The failure that a routing failure is reported as.
pub open spec fn fault_status(fault: RouterFault) -> StatusView {
    match fault {
        RouterFault::Connect { addr, source } => StatusView {
            code: Code::Unavailable,
            message: "failed to connect to shard replica at "@ + addr + ": "@ + source,
        },
        RouterFault::Rpc(status) => status,
        RouterFault::ShardUnreachable => StatusView {
            code: Code::Unavailable,
            message: "no replica of this shard responded"@,
        },
    }
}

impl RouterError {
    /// The failure that the error is reported as.
    pub fn into_status(self) -> (r: Status)
        ensures
            r@ == fault_status(self@),
    {
        match self {
            RouterError::Connect { addr, source } => {
                let head = crate::text::joined3(
                    "failed to connect to shard replica at ",
                    addr.as_str(),
                    ": ",
                );
                Status::new(Code::Unavailable, crate::text::joined(head.as_str(), source.as_str()))
            },
            RouterError::Rpc(status) => status,
            RouterError::ShardUnreachable => Status::new(
                Code::Unavailable,
                "no replica of this shard responded".to_owned(),
            ),
        }
    }
}

/// The items of one shard, in order: those whose key belongs to it.
pub open spec fn grouped<T>(items: Seq<T>, keys: Seq<u64>, shard_count: u32, shard: int) -> Seq<T>
    decreases items.len(),
{
    if items.len() == 0 {
        Seq::empty()
    } else {
        let before = grouped(items.drop_last(), keys.drop_last(), shard_count, shard);
        if crate::sharding::shard_of(keys.last(), shard_count) == shard {
            before.push(items.last())
        } else {
            before
        }
    }
}

/// The ids of records.
pub open spec fn ids_of(records: Seq<VectorRecord>) -> Seq<u64> {
    Seq::new(records.len(), |i: int| records[i].id)
}

/// Whether `calls` hands every shard that has items all of its items, and no other shard any, in
/// the order of the shards.
pub open spec fn routed<T>(
    calls: Seq<(usize, Seq<T>)>,
    items: Seq<T>,
    keys: Seq<u64>,
    shard_count: u32,
) -> bool {
    &&& forall|i: int, j: int|
        0 <= i < j < calls.len() ==> (#[trigger] calls[i]).0 < (#[trigger] calls[j]).0
    &&& forall|i: int|
        0 <= i < calls.len() ==> {
            let (shard, group) = #[trigger] calls[i];
            &&& shard < shard_count
            &&& group.len() > 0
            &&& group == grouped(items, keys, shard_count, shard as int)
        }
    &&& forall|shard: int|
        0 <= shard < shard_count && (#[trigger] grouped(items, keys, shard_count, shard)).len() > 0
            ==> exists|i: int| 0 <= i < calls.len() && (#[trigger] calls[i]).0 == shard
}

/// The parts of calls that are lists, by their views.
pub open spec fn call_views<T>(calls: Seq<(usize, Vec<T>)>) -> Seq<(usize, Seq<T>)> {
    Seq::new(calls.len(), |i: int| (calls[i].0, calls[i].1@))
}

/// The records of insert calls.
pub open spec fn insert_views(calls: Seq<(usize, InsertRequest)>) -> Seq<
    (usize, Seq<VectorRecord>),
> {
    Seq::new(calls.len(), |i: int| (calls[i].0, calls[i].1.records@))
}

/// The ids of delete calls.
pub open spec fn delete_views(calls: Seq<(usize, DeleteRequest)>) -> Seq<(usize, Seq<u64>)> {
    Seq::new(calls.len(), |i: int| (calls[i].0, calls[i].1.ids@))
}

/// The groups that are not empty, with their shards.
fn nonempty<T>(groups: Vec<Vec<T>>) -> (r: Vec<(usize, Vec<T>)>)
    ensures
        forall|i: int, j: int|
            0 <= i < j < r.len() ==> (#[trigger] r@[i]).0 < (#[trigger] r@[j]).0,
        forall|i: int|
            0 <= i < r.len() ==> {
                let call = #[trigger] r@[i];
                &&& call.0 < groups.len()
                &&& call.1@.len() > 0
                &&& call.1 == groups@[call.0 as int]
            },
        forall|shard: int|
            0 <= shard < groups.len() && (#[trigger] groups@[shard])@.len() > 0 ==> exists|i: int|
                0 <= i < r.len() && (#[trigger] r@[i]).0 == shard,
{
    let ghost all = groups@;
    let mut r: Vec<(usize, Vec<T>)> = Vec::new();
    let mut shard: usize = 0;
    let n: usize = groups.len();
    for group in it: groups
        invariant
            it.seq() == all,
            n == all.len(),
            shard == it.index(),
            forall|i: int, j: int|
                0 <= i < j < r.len() ==> (#[trigger] r@[i]).0 < (#[trigger] r@[j]).0,
            forall|i: int|
                0 <= i < r.len() ==> {
                    let call = #[trigger] r@[i];
                    &&& call.0 < shard
                    &&& call.1@.len() > 0
                    &&& call.1 == all[call.0 as int]
                },
            forall|s: int|
                0 <= s < shard && (#[trigger] all[s])@.len() > 0 ==> exists|i: int|
                    0 <= i < r.len() && (#[trigger] r@[i]).0 == s,
    {
        let ghost before = r@;
        if group.len() > 0 {
            r.push((shard, group));
        }
        proof {
            assert forall|s: int| 0 <= s < shard + 1 && (#[trigger] all[s])@.len() > 0 implies exists|
                i: int,
            | 0 <= i < r.len() && (#[trigger] r@[i]).0 == s by {
                if s < shard {
                    let i = choose|i: int| 0 <= i < before.len() && (#[trigger] before[i]).0 == s;
                    assert(before[i].0 == s);
                    assert(r@[i] == before[i]);
                } else {
                    assert(r@[r.len() - 1].0 == s);
                }
            }
        }
        shard += 1;
    }
    r
}

/// A fixed set of shards, numbered from zero, each a fixed set of replicas.
pub struct ShardRouter {
    pub shards: Vec<ShardReplicaSet>,
    /// How long a search may take in a shard, in milliseconds.
    pub deadline_ms: u64,
}

impl ShardRouter {
    /// The number of shards, as [`shard_count`](Self::shard_count) reports it.
    pub open spec fn count(&self) -> u32 {
        (self.shards.len() as int % 0x1_0000_0000) as u32
    }

    /// A router over the replicas of each shard. The first replica of a shard is taken to lead it
    /// until that is found to be otherwise.
    pub fn new(shard_replica_addrs: Vec<Vec<String>>, deadline_ms: u64) -> (r: Self)
        ensures
            r.shards.len() == shard_replica_addrs.len(),
            forall|i: int|
                0 <= i < r.shards.len() ==> (#[trigger] r.shards@[i]).addrs
                    == shard_replica_addrs@[i] && r.shards@[i].leader_hint == 0,
            r.deadline_ms == deadline_ms,
    {
        let ghost all = shard_replica_addrs@;
        let mut shards: Vec<ShardReplicaSet> = Vec::new();
        for addrs in it: shard_replica_addrs
            invariant
                it.seq() == all,
                shards.len() == it.index(),
                forall|i: int|
                    0 <= i < shards.len() ==> (#[trigger] shards@[i]).addrs == all[i]
                        && shards@[i].leader_hint == 0,
        {
            shards.push(ShardReplicaSet { addrs, leader_hint: 0 });
        }
        ShardRouter { shards, deadline_ms }
    }

    /// The number of shards, modulo `2^32`.
    pub fn shard_count(&self) -> (r: u32)
        ensures
            r == self.count(),
            r == self.shards@.len() % 0x1_0000_0000,
    {
        (self.shards.len() as u64 % 0x1_0000_0000u64) as u32
    }

    /// Items by the shard that their key belongs to, each shard's in order.
    pub fn group_by_shard<T, F: Fn(&T) -> u64>(&self, items: Vec<T>, key: F) -> (r: Vec<Vec<T>>)
        requires
            forall|item: &T| #[trigger] call_requires(key, (item,)),
            items.len() > 0 ==> self.count() > 0,
        ensures
            r.len() == self.count(),
            exists|keys: Seq<u64>|
                {
                    &&& #[trigger] keys.len() == items.len()
                    &&& forall|i: int|
                        0 <= i < items.len() ==> call_ensures(
                            key,
                            (&#[trigger] items@[i],),
                            keys[i],
                        )
                    &&& forall|shard: int|
                        0 <= shard < r.len() ==> (#[trigger] r@[shard])@ == grouped(
                            items@,
                            keys,
                            self.count(),
                            shard,
                        )
                },
    {
        let shard_count: u32 = self.shard_count();
        let mut groups: Vec<Vec<T>> = Vec::new();
        for s in 0..shard_count
            invariant
                groups.len() == s,
                forall|shard: int| 0 <= shard < s ==> (#[trigger] groups@[shard])@.len() == 0,
        {
            groups.push(Vec::new());
        }
        let ghost all = items@;
        let ghost mut keys: Seq<u64> = Seq::empty();
        proof {
            assert forall|shard: int| 0 <= shard < shard_count implies (
            #[trigger] groups@[shard])@ =~= grouped(all.take(0), keys, shard_count, shard) by {}
        }
        for item in it: items
            invariant
                it.seq() == all,
                forall|item: &T| #[trigger] call_requires(key, (item,)),
                all.len() > 0 ==> shard_count > 0,
                groups.len() == shard_count,
                keys.len() == it.index(),
                forall|i: int|
                    0 <= i < it.index() ==> call_ensures(key, (&#[trigger] all[i],), keys[i]),
                forall|shard: int|
                    0 <= shard < shard_count ==> (#[trigger] groups@[shard])@ == grouped(
                        all.take(it.index()),
                        keys,
                        shard_count,
                        shard,
                    ),
        {
            let k: u64 = key(&item);
            let shard: usize = shard_id(k, shard_count) as usize;
            let ghost before = groups@;
            groups[shard].push(item);
            proof {
                let now = all.take(it.index() + 1);
                let seen = keys;
                keys = keys.push(k);
                assert(now.drop_last() =~= all.take(it.index()));
                assert(keys.drop_last() =~= seen);
                assert forall|s: int| 0 <= s < shard_count implies (
                #[trigger] groups@[s])@ == grouped(now, keys, shard_count, s) by {
                    assert(before[s]@ == grouped(now.drop_last(), seen, shard_count, s));
                }
            }
        }
        assert(all.take(all.len() as int) =~= all);
        assert(keys.len() == all.len());
        groups
    }

    /// The calls that an insert makes: every record goes to its shard and nowhere else.
    pub fn insert(&self, collection: &str, records: Vec<VectorRecord>) -> (r: Vec<
        (usize, InsertRequest),
    >)
        requires
            records.len() > 0 ==> self.count() > 0,
        ensures
            routed(insert_views(r@), records@, ids_of(records@), self.count()),
            forall|i: int|
                0 <= i < r.len() ==> (#[trigger] r@[i]).1.collection@ == collection@,
    {
        let ghost all = records@;
        let key = |record: &VectorRecord| -> (k: u64)
            ensures
                k == record.id,
            { record.id };
        let groups = self.group_by_shard(records, key);
        let ghost keys = ids_of(all);
        proof {
            let got = choose|keys: Seq<u64>|
                {
                    &&& #[trigger] keys.len() == all.len()
                    &&& forall|i: int|
                        0 <= i < all.len() ==> call_ensures(key, (&#[trigger] all[i],), keys[i])
                    &&& forall|shard: int|
                        0 <= shard < groups.len() ==> (#[trigger] groups@[shard])@ == grouped(
                            all,
                            keys,
                            self.count(),
                            shard,
                        )
                };
            assert(got =~= keys) by {
                assert forall|i: int| 0 <= i < all.len() implies got[i] == keys[i] by {
                    assert(call_ensures(key, (&all[i],), got[i]));
                }
            }
        }
        let ghost grouping = groups@;
        let calls = nonempty(groups);
        let ghost plan = call_views(calls@);
        proof {
            lemma_routed(calls@, grouping, all, keys, self.count());
        }
        let ghost list = calls@;
        let mut r: Vec<(usize, InsertRequest)> = Vec::new();
        for call in it: calls
            invariant
                it.seq() == list,
                r.len() == it.index(),
                forall|i: int|
                    0 <= i < r.len() ==> {
                        &&& (#[trigger] r@[i]).0 == list[i].0
                        &&& r@[i].1.records == list[i].1
                        &&& r@[i].1.collection@ == collection@
                    },
        {
            r.push((call.0, InsertRequest { collection: collection.to_owned(), records: call.1 }));
        }
        assert(insert_views(r@) =~= plan);
        r
    }

    /// The calls that a delete makes: every id goes to its shard and nowhere else.
    pub fn delete(&self, collection: &str, ids: Vec<u64>) -> (r: Vec<(usize, DeleteRequest)>)
        requires
            ids.len() > 0 ==> self.count() > 0,
        ensures
            routed(delete_views(r@), ids@, ids@, self.count()),
            forall|i: int|
                0 <= i < r.len() ==> (#[trigger] r@[i]).1.collection@ == collection@,
    {
        let ghost all = ids@;
        let key = |id: &u64| -> (k: u64)
            ensures
                k == *id,
            { *id };
        let groups = self.group_by_shard(ids, key);
        proof {
            let got = choose|keys: Seq<u64>|
                {
                    &&& #[trigger] keys.len() == all.len()
                    &&& forall|i: int|
                        0 <= i < all.len() ==> call_ensures(key, (&#[trigger] all[i],), keys[i])
                    &&& forall|shard: int|
                        0 <= shard < groups.len() ==> (#[trigger] groups@[shard])@ == grouped(
                            all,
                            keys,
                            self.count(),
                            shard,
                        )
                };
            assert(got =~= all) by {
                assert forall|i: int| 0 <= i < all.len() implies got[i] == all[i] by {
                    assert(call_ensures(key, (&all[i],), got[i]));
                }
            }
        }
        let ghost grouping = groups@;
        let calls = nonempty(groups);
        let ghost plan = call_views(calls@);
        proof {
            lemma_routed(calls@, grouping, all, all, self.count());
        }
        let ghost list = calls@;
        let mut r: Vec<(usize, DeleteRequest)> = Vec::new();
        for call in it: calls
            invariant
                it.seq() == list,
                r.len() == it.index(),
                forall|i: int|
                    0 <= i < r.len() ==> {
                        &&& (#[trigger] r@[i]).0 == list[i].0
                        &&& r@[i].1.ids == list[i].1
                        &&& r@[i].1.collection@ == collection@
                    },
        {
            r.push((call.0, DeleteRequest { collection: collection.to_owned(), ids: call.1 }));
        }
        assert(delete_views(r@) =~= plan);
        r
    }

    /// The calls that creating a collection makes: one to every replica of every shard, in order.
    pub fn create_collection(&self, name: &str, dim: u32) -> (r: Vec<
        (usize, usize, CreateCollectionRequest),
    >)
        ensures
            is_broadcast(r@, self.shards@),
            forall|i: int|
                0 <= i < r.len() ==> {
                    let request = (#[trigger] r@[i]).2;
                    &&& request.name@ == name@
                    &&& request.dim == dim
                    &&& request.shard_count == self.count()
                },
    {
        let shard_count: u32 = self.shard_count();
        let n: usize = self.shards.len();
        let mut r: Vec<(usize, usize, CreateCollectionRequest)> = Vec::new();
        for s in 0..n
            invariant
                n == self.shards.len(),
                shard_count == self.count(),
                is_broadcast(r@, self.shards@.take(s as int)),
                forall|i: int|
                    0 <= i < r.len() ==> {
                        let request = (#[trigger] r@[i]).2;
                        &&& request.name@ == name@
                        &&& request.dim == dim
                        &&& request.shard_count == shard_count
                    },
        {
            let m: usize = self.shards[s].addrs.len();
            let ghost before = r@;
            for a in 0..m
                invariant
                    n == self.shards.len(),
                    s < n,
                    m == self.shards@[s as int].addrs.len(),
                    is_broadcast(before, self.shards@.take(s as int)),
                    r.len() == before.len() + a,
                    forall|i: int| 0 <= i < before.len() ==> #[trigger] r@[i] == before[i],
                    forall|i: int|
                        before.len() <= i < r.len() ==> (#[trigger] r@[i]).0 == s && r@[i].1 == i
                            - before.len(),
                    forall|i: int|
                        0 <= i < r.len() ==> {
                            let request = (#[trigger] r@[i]).2;
                            &&& request.name@ == name@
                            &&& request.dim == dim
                            &&& request.shard_count == shard_count
                        },
            {
                r.push(
                    (s, a, CreateCollectionRequest { name: name.to_owned(), dim, shard_count }),
                );
            }
            proof {
                lemma_broadcast(before, r@, self.shards@, s as int);
            }
        }
        assert(self.shards@.take(n as int) =~= self.shards@);
        r
    }

    /// The calls that a search makes: the same request to every shard.
    pub fn search(&self, collection: &str, query_vector: &Vec<u32>, k: u32) -> (r: Vec<
        SearchRequest,
    >)
        ensures
            r.len() == self.shards.len(),
            forall|i: int|
                0 <= i < r.len() ==> {
                    let request = #[trigger] r@[i];
                    &&& request.collection@ == collection@
                    &&& request.query_vector@ == query_vector@
                    &&& request.k == k
                },
    {
        let n: usize = self.shards.len();
        let mut r: Vec<SearchRequest> = Vec::new();
        for i in 0..n
            invariant
                r.len() == i,
                forall|j: int|
                    0 <= j < i ==> {
                        let request = #[trigger] r@[j];
                        &&& request.collection@ == collection@
                        &&& request.query_vector@ == query_vector@
                        &&& request.k == k
                    },
        {
            let query = query_vector.clone();
            assert(query@ =~= query_vector@);
            r.push(SearchRequest { collection: collection.to_owned(), query_vector: query, k });
        }
        r
    }
}

/// Whether `calls` goes to every replica of every shard, once and in order.
pub open spec fn is_broadcast(
    calls: Seq<(usize, usize, CreateCollectionRequest)>,
    shards: Seq<ShardReplicaSet>,
) -> bool {
    &&& forall|i: int|
        0 <= i < calls.len() ==> (#[trigger] calls[i]).0 < shards.len() && calls[i].1
            < shards[calls[i].0 as int].addrs.len()
    &&& forall|i: int, j: int|
        0 <= i < j < calls.len() ==> (#[trigger] calls[i]).0 < (#[trigger] calls[j]).0
            || calls[i].0 == calls[j].0 && calls[i].1 < calls[j].1
    &&& forall|s: int, a: int|
        0 <= s < shards.len() && 0 <= a < shards[s].addrs.len() ==> #[trigger] is_called(
            calls,
            s,
            a,
        )
}

/// Whether a replica of a shard is called.
pub open spec fn is_called(
    calls: Seq<(usize, usize, CreateCollectionRequest)>,
    shard: int,
    replica: int,
) -> bool {
    exists|i: int|
        0 <= i < calls.len() && (#[trigger] calls[i]).0 == shard && calls[i].1 == replica
}

proof fn lemma_broadcast(
    before: Seq<(usize, usize, CreateCollectionRequest)>,
    after: Seq<(usize, usize, CreateCollectionRequest)>,
    shards: Seq<ShardReplicaSet>,
    s: int,
)
    requires
        0 <= s < shards.len(),
        is_broadcast(before, shards.take(s)),
        after.len() == before.len() + shards[s].addrs.len(),
        forall|i: int| 0 <= i < before.len() ==> #[trigger] after[i] == before[i],
        forall|i: int|
            before.len() <= i < after.len() ==> (#[trigger] after[i]).0 == s && after[i].1 == i
                - before.len(),
    ensures
        is_broadcast(after, shards.take(s + 1)),
{
    let now = shards.take(s + 1);
    let was = shards.take(s);
    assert forall|i: int| 0 <= i < after.len() implies (#[trigger] after[i]).0 < now.len()
        && after[i].1 < now[after[i].0 as int].addrs.len() by {
        if i < before.len() {
            assert(after[i] == before[i]);
            assert(before[i].0 < was.len());
        }
    }
    assert forall|i: int, j: int| 0 <= i < j < after.len() implies (#[trigger] after[i]).0 < (
    #[trigger] after[j]).0 || after[i].0 == after[j].0 && after[i].1 < after[j].1 by {
        if i < before.len() {
            assert(before[i].0 < was.len());
            if j < before.len() {
                assert(after[j] == before[j]);
            }
        }
    }
    assert forall|t: int, a: int|
        0 <= t < now.len() && 0 <= a < now[t].addrs.len() implies #[trigger] is_called(
        after,
        t,
        a,
    ) by {
        if t < s {
            assert(was[t] == now[t]);
            assert(is_called(before, t, a));
            let i = choose|i: int|
                0 <= i < before.len() && (#[trigger] before[i]).0 == t && before[i].1 == a;
            assert(before[i].0 == t);
            assert(after[i].0 == t && after[i].1 == a);
        } else {
            let i = before.len() + a;
            assert(after[i].0 == t && after[i].1 == a);
        }
    }
}

proof fn lemma_routed<T>(
    calls: Seq<(usize, Vec<T>)>,
    groups: Seq<Vec<T>>,
    items: Seq<T>,
    keys: Seq<u64>,
    shard_count: u32,
)
    requires
        groups.len() == shard_count,
        forall|shard: int|
            0 <= shard < groups.len() ==> (#[trigger] groups[shard])@ == grouped(
                items,
                keys,
                shard_count,
                shard,
            ),
        forall|i: int, j: int|
            0 <= i < j < calls.len() ==> (#[trigger] calls[i]).0 < (#[trigger] calls[j]).0,
        forall|i: int|
            0 <= i < calls.len() ==> {
                let call = #[trigger] calls[i];
                &&& call.0 < groups.len()
                &&& call.1@.len() > 0
                &&& call.1 == groups[call.0 as int]
            },
        forall|shard: int|
            0 <= shard < groups.len() && (#[trigger] groups[shard])@.len() > 0 ==> exists|i: int|
                0 <= i < calls.len() && (#[trigger] calls[i]).0 == shard,
    ensures
        routed(call_views(calls), items, keys, shard_count),
{
    let plan = call_views(calls);
    assert forall|i: int, j: int| 0 <= i < j < plan.len() implies (#[trigger] plan[i]).0 < (
    #[trigger] plan[j]).0 by {
        assert(calls[i].0 < calls[j].0);
    }
    assert forall|i: int| 0 <= i < plan.len() implies {
        let (shard, group) = #[trigger] plan[i];
        &&& shard < shard_count
        &&& group.len() > 0
        &&& group == grouped(items, keys, shard_count, shard as int)
    } by {
        assert(calls[i].1 == groups[calls[i].0 as int]);
    }
    assert forall|shard: int|
        0 <= shard < shard_count && (#[trigger] grouped(items, keys, shard_count, shard)).len()
            > 0 implies exists|i: int| 0 <= i < plan.len() && (#[trigger] plan[i]).0 == shard by {
        assert(groups[shard]@.len() > 0);
        let i = choose|i: int| 0 <= i < calls.len() && (#[trigger] calls[i]).0 == shard;
        assert(calls[i].0 == shard);
        assert(plan[i].0 == shard);
    }
}

/// Nothing of a routing failure is left out of what it is taken to say.
pub proof fn failures_show_everything(addr: String, source: String, status: Status)
    ensures
        (RouterError::Connect { addr, source })@ == (RouterFault::Connect {
            addr: addr@,
            source: source@,
        }),
        RouterError::Rpc(status)@ == RouterFault::Rpc(status@),
        RouterError::ShardUnreachable@ is ShardUnreachable,
{
}

/// A replica's failure is reported as it came; a missing connection, with the address and the
/// reason, and a silent shard as unavailable.
pub proof fn failures_are_reported(addr: Seq<char>, source: Seq<char>, status: StatusView)
    ensures
        fault_status(RouterFault::Rpc(status)) == status,
        fault_status(RouterFault::Connect { addr, source }).code == Code::Unavailable,
        fault_status(RouterFault::Connect { addr, source }).message
            == "failed to connect to shard replica at "@ + addr + ": "@ + source,
        fault_status(RouterFault::ShardUnreachable).code == Code::Unavailable,
        fault_status(RouterFault::ShardUnreachable).message
            == "no replica of this shard responded"@,
{
}

/// Items join their shards one by one: each is added, behind those before it, to the one shard that
/// its key's hash is congruent to, and to no other.
pub proof fn items_join_their_shards<T>(
    items: Seq<T>,
    keys: Seq<u64>,
    item: T,
    key: u64,
    shard_count: u32,
    shard: int,
)
    requires
        keys.len() == items.len(),
        0 <= shard < shard_count,
    ensures
        grouped(Seq::<T>::empty(), Seq::empty(), shard_count, shard).len() == 0,
        (crate::sharding::fx(key) - shard) % shard_count as int == 0 ==> grouped(
            items.push(item),
            keys.push(key),
            shard_count,
            shard,
        ) == grouped(items, keys, shard_count, shard).push(item),
        (crate::sharding::fx(key) - shard) % shard_count as int != 0 ==> grouped(
            items.push(item),
            keys.push(key),
            shard_count,
            shard,
        ) == grouped(items, keys, shard_count, shard),
{
    assert(items.push(item).drop_last() =~= items);
    assert(keys.push(key).drop_last() =~= keys);
    lemma_shard_is(key, shard_count, shard);
}

proof fn lemma_shard_is(key: u64, shard_count: u32, shard: int)
    requires
        0 <= shard < shard_count,
    ensures
        crate::sharding::shard_of(key, shard_count) == shard <==> (crate::sharding::fx(key) - shard)
            % shard_count as int == 0,
{
    let n = shard_count as int;
    let h = crate::sharding::fx(key);
    crate::sharding::shards_are_residues_of_the_hash(key, shard_count);
    if (h - shard) % n == 0 {
        let q = (h - shard) / n;
        vstd::arithmetic::div_mod::lemma_fundamental_div_mod(h - shard, n);
        assert(h == q * n + shard) by (nonlinear_arith)
            requires
                h - shard == n * q + 0,
        ;
        vstd::arithmetic::div_mod::lemma_fundamental_div_mod_converse(h, n, q, shard);
    }
}

proof fn lemma_grouped_has<T>(
    items: Seq<T>,
    keys: Seq<u64>,
    shard_count: u32,
    shard: int,
    i: int,
)
    requires
        keys.len() == items.len(),
        0 <= i < items.len(),
        crate::sharding::shard_of(keys[i], shard_count) == shard,
    ensures
        grouped(items, keys, shard_count, shard).contains(items[i]),
    decreases items.len(),
{
    let group = grouped(items, keys, shard_count, shard);
    let before = grouped(items.drop_last(), keys.drop_last(), shard_count, shard);
    if i == items.len() - 1 {
        assert(group.last() == items[i]);
        assert(group[group.len() - 1] == items[i]);
    } else {
        lemma_grouped_has(items.drop_last(), keys.drop_last(), shard_count, shard, i);
        let j = choose|j: int| 0 <= j < before.len() && before[j] == items.drop_last()[i];
        assert(group[j] == items[i]);
    }
}

proof fn lemma_grouped_only<T>(
    items: Seq<T>,
    keys: Seq<u64>,
    shard_count: u32,
    shard: int,
    j: int,
)
    requires
        keys.len() == items.len(),
        0 <= j < grouped(items, keys, shard_count, shard).len(),
    ensures
        exists|i: int|
            0 <= i < items.len() && (#[trigger] items[i]) == grouped(
                items,
                keys,
                shard_count,
                shard,
            )[j] && crate::sharding::shard_of(keys[i], shard_count) == shard,
    decreases items.len(),
{
    let group = grouped(items, keys, shard_count, shard);
    let before = grouped(items.drop_last(), keys.drop_last(), shard_count, shard);
    if j < before.len() {
        lemma_grouped_only(items.drop_last(), keys.drop_last(), shard_count, shard, j);
        let i = choose|i: int|
            0 <= i < items.len() - 1 && (#[trigger] items.drop_last()[i]) == before[j]
                && crate::sharding::shard_of(keys.drop_last()[i], shard_count) == shard;
        assert(items[i] == group[j]);
        assert(keys[i] == keys.drop_last()[i]);
    } else {
        assert(items[items.len() - 1] == group[j]);
    }
}

/// Every item is sent to the shard that its key's hash is congruent to, and whatever a shard is sent
/// is such an item. No shard is called twice, and none for nothing.
pub proof fn items_are_sent_to_their_shards<T>(
    calls: Seq<(usize, Seq<T>)>,
    items: Seq<T>,
    keys: Seq<u64>,
    shard_count: u32,
    i: int,
    c: int,
    j: int,
)
    requires
        shard_count > 0,
        keys.len() == items.len(),
        routed(calls, items, keys, shard_count),
    ensures
        0 <= i < items.len() ==> exists|d: int|
            0 <= d < calls.len() && (crate::sharding::fx(keys[i]) - (#[trigger] calls[d]).0)
                % shard_count as int == 0 && calls[d].1.contains(items[i]),
        0 <= c < calls.len() ==> calls[c].0 < shard_count && calls[c].1.len() > 0,
        0 <= c < calls.len() ==> calls[c].1 == grouped(items, keys, shard_count, calls[c].0 as int),
        0 <= c < calls.len() && 0 <= j < calls[c].1.len() ==> exists|m: int|
            0 <= m < items.len() && (#[trigger] items[m]) == calls[c].1[j] && (crate::sharding::fx(
                keys[m],
            ) - calls[c].0) % shard_count as int == 0,
        forall|d: int, e: int|
            0 <= d < e < calls.len() ==> (#[trigger] calls[d]).0 < (#[trigger] calls[e]).0,
{
    if 0 <= i < items.len() {
        let shard = crate::sharding::shard_of(keys[i], shard_count);
        crate::sharding::shards_are_residues_of_the_hash(keys[i], shard_count);
        lemma_grouped_has(items, keys, shard_count, shard, i);
        assert(grouped(items, keys, shard_count, shard).len() > 0);
        let d = choose|d: int| 0 <= d < calls.len() && (#[trigger] calls[d]).0 == shard;
        assert(calls[d].0 == shard);
    }
    if 0 <= c < calls.len() {
        let call = calls[c];
        assert(call.0 < shard_count);
        if 0 <= j < call.1.len() {
            let shard = call.0 as int;
            lemma_grouped_only(items, keys, shard_count, shard, j);
            let m = choose|m: int|
                0 <= m < items.len() && (#[trigger] items[m]) == call.1[j]
                    && crate::sharding::shard_of(keys[m], shard_count) == shard;
            assert(items[m] == call.1[j]);
            lemma_shard_is(keys[m], shard_count, shard);
        }
    }
}

/// The calls of a request are shown whole: each with its shard and with all that it hands over; and
/// a record is sent by its id.
pub proof fn calls_are_shown_whole(
    inserts: Seq<(usize, InsertRequest)>,
    deletes: Seq<(usize, DeleteRequest)>,
    records: Seq<VectorRecord>,
    i: int,
)
    ensures
        insert_views(inserts).len() == inserts.len(),
        0 <= i < inserts.len() ==> insert_views(inserts)[i].0 == inserts[i].0 && insert_views(
            inserts,
        )[i].1 == inserts[i].1.records@,
        delete_views(deletes).len() == deletes.len(),
        0 <= i < deletes.len() ==> delete_views(deletes)[i].0 == deletes[i].0 && delete_views(
            deletes,
        )[i].1 == deletes[i].1.ids@,
        ids_of(records).len() == records.len(),
        0 <= i < records.len() ==> ids_of(records)[i] == records[i].id,
{
}

/// A creation goes to every replica of every shard, once, and nowhere else.
pub proof fn creations_reach_every_replica(
    calls: Seq<(usize, usize, CreateCollectionRequest)>,
    shards: Seq<ShardReplicaSet>,
    s: int,
    a: int,
)
    requires
        is_broadcast(calls, shards),
    ensures
        (exists|i: int| 0 <= i < calls.len() && (#[trigger] calls[i]).0 == s && calls[i].1 == a)
            <==> 0 <= s < shards.len() && 0 <= a < shards[s].addrs@.len(),
        forall|i: int, j: int|
            0 <= i < j < calls.len() ==> (#[trigger] calls[i]).0 != (#[trigger] calls[j]).0
                || calls[i].1 != calls[j].1,
{
    if 0 <= s < shards.len() && 0 <= a < shards[s].addrs@.len() {
        assert(is_called(calls, s, a));
    }
    if exists|i: int| 0 <= i < calls.len() && (#[trigger] calls[i]).0 == s && calls[i].1 == a {
        let i = choose|i: int|
            0 <= i < calls.len() && (#[trigger] calls[i]).0 == s && calls[i].1 == a;
        assert(calls[i].0 < shards.len());
    }
}

/// Up to `2^32` shards are counted as they are.
pub proof fn shards_are_counted(router: ShardRouter)
    ensures
        router.shards@.len() < 0x1_0000_0000 ==> router.count() == router.shards@.len(),
        (router.shards@.len() - router.count()) % 0x1_0000_0000 == 0,
{
}

} // verus!
