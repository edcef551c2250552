//! What the shards' answers come to together.

use crate::message::{ClusterStatusResponse, ResultView, ScoredRecord, SearchResponse, Status};
use crate::record::ScoredId;
use crate::router::RouterError;
use crate::topk::merge_top_k;
use std::collections::HashMap;
use vstd::prelude::*;

verus! {

/// The results of a shard's answer.
pub open spec fn answer_views(lists: Seq<Vec<ScoredRecord>>) -> Seq<Seq<ResultView>> {
    Seq::new(lists.len(), |i: int| crate::message::result_views(lists[i]@))
}

/// Lists of results without their metadata.
pub open spec fn ranked_lists(lists: Seq<Seq<ResultView>>) -> Seq<Seq<ScoredId>> {
    Seq::new(lists.len(), |i: int| crate::message::ranked(lists[i]))
}

/// The metadata by id after results were noted in order: a later result replaces an earlier one
/// with the same id.
pub open spec fn noted(
    metadata: Map<u64, Map<String, String>>,
    results: Seq<ResultView>,
) -> Map<u64, Map<String, String>>
    decreases results.len(),
{
    if results.len() == 0 {
        metadata
    } else {
        noted(metadata, results.drop_last()).insert(results.last().id, results.last().metadata)
    }
}

/// The metadata by id after the results of all lists were noted.
pub open spec fn noted_all(lists: Seq<Seq<ResultView>>) -> Map<u64, Map<String, String>>
    decreases lists.len(),
{
    if lists.len() == 0 {
        Map::empty()
    } else {
        noted(noted_all(lists.drop_last()), lists.last())
    }
}

/// Whether an id occurs among the first `n` results.
pub open spec fn occurs(results: Seq<ResultView>, n: int, id: u64) -> bool {
    exists|j: int| 0 <= j < n && (#[trigger] results[j]).id == id
}

/// The metadata that the result at `i` carries: what was noted for its id; none where the id has
/// come before.
pub open spec fn carried(
    metadata: Map<u64, Map<String, String>>,
    results: Seq<ResultView>,
    i: int,
) -> Map<String, String> {
    if metadata.contains_key(results[i].id) && !occurs(results, i, results[i].id) {
        metadata[results[i].id]
    } else {
        Map::empty()
    }
}

/// Whether `merged` is the exact top `k` of several shards' results together, with their metadata.
pub open spec fn is_merge(
    merged: Seq<ResultView>,
    lists: Seq<Seq<ResultView>>,
    k: nat,
) -> bool {
    &&& crate::ranking::is_top_k(
        crate::message::ranked(merged),
        crate::ranking::union_of(crate::ranking::as_multisets(ranked_lists(lists))),
        k,
    )
    &&& forall|i: int|
        0 <= i < merged.len() ==> (#[trigger] merged[i]).metadata == carried(
            noted_all(lists),
            merged,
            i,
        )
}

spec fn map_views(metadata: Map<u64, HashMap<String, String>>) -> Map<u64, Map<String, String>> {
    Map::new(|id: u64| metadata.contains_key(id), |id: u64| metadata[id]@)
}

/// Takes the metadata out of a list of results.
fn note(metadata: &mut HashMap<u64, HashMap<String, String>>, list: Vec<ScoredRecord>) -> (r: Vec<
    ScoredId,
>)
    ensures
        r@ == crate::message::ranked(crate::message::result_views(list@)),
        map_views(final(metadata)@) == noted(
            map_views(old(metadata)@),
            crate::message::result_views(list@),
        ),
{
    broadcast use vstd::std_specs::hash::group_hash_axioms;

    let ghost start = map_views(metadata@);
    let ghost all = list@;
    let ghost views = crate::message::result_views(list@);
    let mut r: Vec<ScoredId> = Vec::new();
    for result in it: list
        invariant
            it.seq() == all,
            views == crate::message::result_views(all),
            r.len() == it.index(),
            forall|i: int|
                0 <= i < r.len() ==> (#[trigger] r@[i]) == (ScoredId {
                    id: views[i].id,
                    score: views[i].score,
                }),
            map_views(metadata@) == noted(start, views.take(it.index())),
    {
        let ghost before = metadata@;
        let ghost view = result@;
        r.push(ScoredId { id: result.id, score: result.score });
        metadata.insert(result.id, result.metadata);
        proof {
            assert(views.take(it.index() + 1).drop_last() =~= views.take(it.index()));
            assert(map_views(metadata@) =~= map_views(before).insert(view.id, view.metadata));
        }
    }
    assert(views.take(views.len() as int) =~= views);
    assert(r@ =~= crate::message::ranked(views));
    r
}

proof fn lemma_occurs(results: Seq<ResultView>, last: ResultView, n: int, id: u64)
    requires
        0 <= n <= results.len(),
    ensures
        occurs(results.push(last), n, id) == occurs(results, n, id),
        n == results.len() ==> occurs(results.push(last), n + 1, id) == (occurs(results, n, id)
            || last.id == id),
{
    let longer = results.push(last);
    assert forall|j: int| 0 <= j < n implies longer[j] == results[j] by {}
    if occurs(results, n, id) {
        let j = choose|j: int| 0 <= j < n && (#[trigger] results[j]).id == id;
        assert(results[j].id == id);
        assert(longer[j].id == id);
    }
    if occurs(longer, n, id) {
        let j = choose|j: int| 0 <= j < n && (#[trigger] longer[j]).id == id;
        assert(longer[j].id == id);
        assert(results[j].id == id);
    }
    if n == results.len() {
        if last.id == id {
            assert(longer[n].id == id);
        }
        if occurs(longer, n + 1, id) {
            let j = choose|j: int| 0 <= j < n + 1 && (#[trigger] longer[j]).id == id;
            assert(longer[j].id == id);
            if j < n {
                assert(results[j].id == id);
            }
        }
    }
}

/// The exact top `k` of several shards' results together, best first.
pub fn merge_scored_records(shard_lists: Vec<Vec<ScoredRecord>>, k: usize) -> (r: Vec<ScoredRecord>)
    ensures
        is_merge(crate::message::result_views(r@), answer_views(shard_lists@), k as nat),
{
    broadcast use vstd::std_specs::hash::group_hash_axioms;

    let ghost all = shard_lists@;
    let ghost views = answer_views(shard_lists@);
    let mut metadata: HashMap<u64, HashMap<String, String>> = HashMap::new();
    let mut scored_lists: Vec<Vec<ScoredId>> = Vec::new();
    assert(map_views(metadata@) =~= Map::<u64, Map<String, String>>::empty());
    for list in it: shard_lists
        invariant
            it.seq() == all,
            views == answer_views(all),
            scored_lists.len() == it.index(),
            forall|i: int|
                0 <= i < scored_lists.len() ==> (#[trigger] scored_lists@[i])@ == ranked_lists(
                    views,
                )[i],
            map_views(metadata@) == noted_all(views.take(it.index())),
    {
        let scored = note(&mut metadata, list);
        scored_lists.push(scored);
        assert(views.take(it.index() + 1).drop_last() =~= views.take(it.index()));
    }
    assert(views.take(views.len() as int) =~= views);
    assert(crate::topk::list_views(scored_lists@) =~= ranked_lists(views));
    let top = merge_top_k(scored_lists, k);
    let ghost noted_full = noted_all(views);
    let n: usize = top.len();
    let mut r: Vec<ScoredRecord> = Vec::new();
    for i in 0..n
        invariant
            n == top.len(),
            r.len() == i,
            forall|j: int|
                0 <= j < i ==> {
                    let result = crate::message::result_views(r@)[j];
                    &&& (#[trigger] r@[j]).id == top@[j].id
                    &&& r@[j].score == top@[j].score
                    &&& result.metadata == carried(
                        noted_full,
                        crate::message::result_views(r@),
                        j,
                    )
                },
            forall|id: u64| #[trigger]
                metadata@.contains_key(id) <==> noted_full.contains_key(id) && !occurs(
                    crate::message::result_views(r@),
                    i as int,
                    id,
                ),
            forall|id: u64| #[trigger]
                metadata@.contains_key(id) ==> metadata@[id]@ == noted_full[id],
    {
        let ghost before = crate::message::result_views(r@);
        let ghost held = metadata@;
        let id: u64 = top[i].id;
        let found = match metadata.remove(&id) {
            Some(m) => m,
            None => HashMap::new(),
        };
        let ghost found_view = found@;
        r.push(ScoredRecord { id, score: top[i].score, metadata: found });
        proof {
            let now = crate::message::result_views(r@);
            assert(now =~= before.push(r@[i as int]@));
            assert forall|j: int| 0 <= j < i + 1 implies {
                &&& (#[trigger] r@[j]).id == top@[j].id
                &&& r@[j].score == top@[j].score
                &&& now[j].metadata == carried(noted_full, now, j)
            } by {
                lemma_occurs(before, now[i as int], j, now[j].id);
                if j < i {
                    assert(now[j] == before[j]);
                    assert(before[j].metadata == carried(noted_full, before, j));
                } else {
                    assert(held.contains_key(id) ==> held[id]@ == noted_full[id]);
                }
            }
            assert forall|x: u64| #[trigger]
                metadata@.contains_key(x) <==> noted_full.contains_key(x) && !occurs(
                    now,
                    i + 1,
                    x,
                ) by {
                lemma_occurs(before, now[i as int], i as int, x);
                assert(held.contains_key(x) <==> noted_full.contains_key(x) && !occurs(
                    before,
                    i as int,
                    x,
                ));
                assert(metadata@.contains_key(x) <==> held.contains_key(x) && x != id);
            }
            assert forall|x: u64| #[trigger]
                metadata@.contains_key(x) implies metadata@[x]@ == noted_full[x] by {
                assert(held.contains_key(x));
            }
        }
    }
    assert(crate::message::ranked(crate::message::result_views(r@)) =~= top@);
    r
}

/// The results of the shards that answered, in the order of the shards.
pub open spec fn answered(responses: Seq<Option<SearchResponse>>) -> Seq<Seq<ResultView>>
    decreases responses.len(),
{
    if responses.len() == 0 {
        Seq::empty()
    } else {
        let before = answered(responses.drop_last());
        match responses.last() {
            Some(response) => before.push(crate::message::result_views(response.results@)),
            None => before,
        }
    }
}

/// What the shards' answers to a search come to: the exact top `k` of those that answered, the
/// number of shards, and the number of those that did not answer, both modulo `2^32`. A shard
/// that does not answer makes the result incomplete, which the last number shows; it does not
/// fail the search.
pub fn gather(responses: Vec<Option<SearchResponse>>, k: u32) -> (r: (Vec<ScoredRecord>, u32, u32))
    ensures
        is_merge(crate::message::result_views(r.0@), answered(responses@), k as nat),
        r.1 == responses@.len() % 0x1_0000_0000,
        r.2 == (responses@.len() - answered(responses@).len()) % 0x1_0000_0000,
        r.2 == responses@.filter(|response: Option<SearchResponse>| response is None).len()
            % 0x1_0000_0000,
{
    let ghost all = responses@;
    let shards_queried: u32 = (responses.len() as u64 % 0x1_0000_0000u64) as u32;
    let mut shards_failed: u32 = 0;
    let mut lists: Vec<Vec<ScoredRecord>> = Vec::new();
    assert(answer_views(lists@) =~= answered(all.take(0)));
    for response in it: responses
        invariant
            it.seq() == all,
            answer_views(lists@) == answered(all.take(it.index())),
            lists.len() <= it.index(),
            shards_failed == (it.index() - lists.len()) % 0x1_0000_0000,
    {
        let ghost before = lists@;
        assert(all.take(it.index() + 1).drop_last() =~= all.take(it.index()));
        assert(all[it.index()] == response);
        match response {
            Some(answer) => {
                lists.push(answer.results);
                assert(answer_views(lists@) =~= answer_views(before).push(
                    crate::message::result_views(answer.results@),
                ));
            },
            None => {
                shards_failed = shards_failed.wrapping_add(1);
            },
        }
    }
    assert(all.take(all.len() as int) =~= all);
    proof {
        let _ = every_answer_is_merged(all);
    }
    let merged = merge_scored_records(lists, k as usize);
    (merged, shards_queried, shards_failed)
}

/// The sum of the counts among results.
pub open spec fn sum_counts(results: Seq<Result<u32, RouterError>>) -> nat
    decreases results.len(),
{
    if results.len() == 0 {
        0
    } else {
        sum_counts(results.drop_last()) + match results.last() {
            Ok(count) => count as nat,
            Err(_) => 0,
        }
    }
}

/// What the shards' counts come to: the first failure, or their sum modulo `2^32`.
pub fn tally(results: Vec<Result<u32, RouterError>>) -> (r: Result<u32, RouterError>)
    ensures
        match r {
            Ok(total) => {
                &&& forall|i: int| 0 <= i < results.len() ==> (#[trigger] results@[i]) is Ok
                &&& total == sum_counts(results@) % 0x1_0000_0000
            },
            Err(_) => exists|i: int|
                #![trigger results@[i]]
                0 <= i < results.len() && results@[i] == r && forall|j: int|
                    0 <= j < i ==> (#[trigger] results@[j]) is Ok,
        },
{
    let ghost all = results@;
    let mut total: u32 = 0;
    for result in it: results
        invariant
            it.seq() == all,
            forall|i: int| 0 <= i < it.index() ==> (#[trigger] all[i]) is Ok,
            total == sum_counts(all.take(it.index())) % 0x1_0000_0000,
    {
        assert(all.take(it.index() + 1).drop_last() =~= all.take(it.index()));
        assert(all[it.index()] == result);
        match result {
            Ok(count) => {
                total = total.wrapping_add(count);
            },
            Err(e) => {
                return Err(e);
            },
        }
    }
    assert(all.take(all.len() as int) =~= all);
    Ok(total)
}

/// What the replicas' replies to creating a collection come to: the first failure, or success.
pub fn created(results: Vec<Result<(), Status>>) -> (r: Result<(), RouterError>)
    ensures
        match r {
            Ok(()) => forall|i: int| 0 <= i < results.len() ==> (#[trigger] results@[i]) is Ok,
            Err(e) => exists|i: int|
                #![trigger results@[i]]
                0 <= i < results.len() && e == RouterError::Rpc(results@[i]->Err_0) && results@[i] is Err
                    && forall|j: int| 0 <= j < i ==> (#[trigger] results@[j]) is Ok,
        },
{
    let ghost all = results@;
    for result in it: results
        invariant
            it.seq() == all,
            forall|i: int| 0 <= i < it.index() ==> (#[trigger] all[i]) is Ok,
    {
        assert(all[it.index()] == result);
        if let Err(status) = result {
            return Err(RouterError::Rpc(status));
        }
    }
    Ok(())
}

/// The names that the replies hold.
pub open spec fn names_in(replies: Seq<Option<ClusterStatusResponse>>) -> Set<Seq<char>>
    decreases replies.len(),
{
    if replies.len() == 0 {
        Set::empty()
    } else {
        names_in(replies.drop_last()).union(
            match replies.last() {
                Some(reply) => crate::text::views(reply.collections@).to_set(),
                None => Set::empty(),
            },
        )
    }
}

/// The sum of the replies' vector counts.
pub open spec fn vectors_in(replies: Seq<Option<ClusterStatusResponse>>) -> nat
    decreases replies.len(),
{
    if replies.len() == 0 {
        0
    } else {
        vectors_in(replies.drop_last()) + match replies.last() {
            Some(reply) => reply.vector_count as nat,
            None => 0,
        }
    }
}

/// Adds the names that are not there yet.
fn add_names(names: &mut Vec<String>, new: Vec<String>)
    requires
        crate::text::views(old(names)@).no_duplicates(),
    ensures
        crate::text::views(final(names)@).no_duplicates(),
        crate::text::views(final(names)@).to_set() == crate::text::views(
            old(names)@,
        ).to_set().union(crate::text::views(new@).to_set()),
{
    let ghost start = crate::text::views(names@).to_set();
    let ghost all = new@;
    let ghost views = crate::text::views(new@);
    assert(start.union(views.take(0).to_set()) =~= start);
    for name in it: new
        invariant
            it.seq() == all,
            views == crate::text::views(all),
            crate::text::views(names@).no_duplicates(),
            crate::text::views(names@).to_set() == start.union(views.take(it.index()).to_set()),
    {
        let n: usize = names.len();
        let ghost before = crate::text::views(names@);
        let ghost seen = views.take(it.index());
        let mut known = false;
        for i in 0..n
            invariant
                n == names.len(),
                before == crate::text::views(names@),
                known <==> exists|j: int| 0 <= j < i && (#[trigger] before[j]) == name@,
        {
            if names[i] == name {
                known = true;
                assert(before[i as int] == name@);
            }
        }
        let ghost text = name@;
        proof {
            assert(views.take(it.index() + 1) =~= seen.push(text));
            assert(seen.push(text).to_set() =~= seen.to_set().insert(text)) by {
                assert(seen.push(text).last() == text);
                assert forall|x: Seq<char>| seen.contains(x) implies seen.push(text).contains(
                    x,
                ) by {
                    let p = choose|p: int| 0 <= p < seen.len() && seen[p] == x;
                    assert(seen.push(text)[p] == x);
                }
            }
        }
        if !known {
            names.push(name);
            proof {
                let now = crate::text::views(names@);
                assert(now =~= before.push(text));
                assert(now.to_set() =~= before.to_set().insert(text)) by {
                    assert(now.last() == text);
                    assert forall|x: Seq<char>| before.contains(x) implies now.contains(x) by {
                        let p = choose|p: int| 0 <= p < before.len() && before[p] == x;
                        assert(now[p] == x);
                    }
                }
            }
        } else {
            assert(before.contains(text));
        }
        assert(crate::text::views(names@).to_set() =~= start.union(
            views.take(it.index() + 1).to_set(),
        ));
    }
    assert(views.take(views.len() as int) =~= views);
}

/// What the shards' replies come to, one per shard and none where no replica of it answered: the
/// names of all collections, each once, and the number of vectors, modulo `2^32`.
pub fn cluster_status(replies: Vec<Option<ClusterStatusResponse>>) -> (r: (Vec<String>, u32))
    ensures
        crate::text::views(r.0@).no_duplicates(),
        crate::text::views(r.0@).to_set() == names_in(replies@),
        r.1 == vectors_in(replies@) % 0x1_0000_0000,
{
    let ghost all = replies@;
    let mut names: Vec<String> = Vec::new();
    let mut total: u32 = 0;
    assert(crate::text::views(names@).to_set() =~= Set::<Seq<char>>::empty());
    for reply in it: replies
        invariant
            it.seq() == all,
            crate::text::views(names@).no_duplicates(),
            crate::text::views(names@).to_set() == names_in(all.take(it.index())),
            total == vectors_in(all.take(it.index())) % 0x1_0000_0000,
    {
        assert(all.take(it.index() + 1).drop_last() =~= all.take(it.index()));
        assert(all[it.index()] == reply);
        let ghost before = crate::text::views(names@).to_set();
        if let Some(status) = reply {
            add_names(&mut names, status.collections);
            total = total.wrapping_add(status.vector_count);
        } else {
            assert(before.union(Set::empty()) =~= before);
        }
    }
    assert(all.take(all.len() as int) =~= all);
    (names, total)
}

/// Every shard that answered is merged and every one that did not is counted as failed, whatever
/// the others did. The result says which answered, in order: it lists the places of all answers and
/// of nothing else, and the lists to merge are the results of those answers, one for one. The rest
/// of the shards are just those without an answer.
pub proof fn every_answer_is_merged(responses: Seq<Option<SearchResponse>>) -> (at: Seq<int>)
    ensures
        at.len() == answered(responses).len(),
        forall|a: int, b: int| 0 <= a < b < at.len() ==> #[trigger] at[a] < #[trigger] at[b],
        forall|j: int|
            0 <= j < at.len() ==> 0 <= #[trigger] at[j] < responses.len() && (responses[at[j]] matches Some(
                response,
            ) && answered(responses)[j].len() == response.results@.len() && forall|m: int|
                0 <= m < response.results@.len() ==> #[trigger] answered(responses)[j][m]
                    == response.results@[m]@),
        forall|i: int|
            0 <= i < responses.len() && (#[trigger] responses[i]) is Some ==> at.contains(i),
        responses.len() - answered(responses).len() == responses.filter(
            |response: Option<SearchResponse>| response is None,
        ).len(),
    decreases responses.len(),
{
    reveal(Seq::filter);
    let none = |response: Option<SearchResponse>| response is None;
    if responses.len() == 0 {
        Seq::empty()
    } else {
        let before = responses.drop_last();
        let last = responses.len() - 1;
        let earlier = every_answer_is_merged(before);
        assert(responses[last] == responses.last());
        assert(forall|i: int| 0 <= i < before.len() ==> before[i] == responses[i]);
        let at = if responses.last() is Some {
            earlier.push(last)
        } else {
            earlier
        };
        assert forall|i: int|
            0 <= i < responses.len() && (#[trigger] responses[i]) is Some implies at.contains(i) by {
            if i < last {
                assert(before[i] is Some);
                let j = choose|j: int| 0 <= j < earlier.len() && earlier[j] == i;
                assert(at[j] == i);
            } else {
                assert(at[at.len() - 1] == i);
            }
        }
        assert forall|j: int| 0 <= j < at.len() implies 0 <= #[trigger] at[j] < responses.len() && (
        responses[at[j]] matches Some(response) && answered(responses)[j].len()
            == response.results@.len() && forall|m: int|
            0 <= m < response.results@.len() ==> #[trigger] answered(responses)[j][m]
                == response.results@[m]@) by {
            if j < earlier.len() {
                assert(at[j] == earlier[j]);
                assert(answered(responses)[j] == answered(before)[j]);
                assert(before[earlier[j]] == responses[earlier[j]]);
            }
        }
        at
    }
}

proof fn lemma_noted_last(
    metadata: Map<u64, Map<String, String>>,
    results: Seq<ResultView>,
    id: u64,
    i: int,
)
    ensures
        0 <= i < results.len() && results[i].id == id && (forall|j: int|
            i < j < results.len() ==> (#[trigger] results[j]).id != id) ==> noted(
            metadata,
            results,
        ).contains_key(id) && noted(metadata, results)[id] == results[i].metadata,
        (forall|j: int| 0 <= j < results.len() ==> (#[trigger] results[j]).id != id) ==> noted(
            metadata,
            results,
        ).contains_key(id) == metadata.contains_key(id) && (metadata.contains_key(id) ==> noted(
            metadata,
            results,
        )[id] == metadata[id]),
    decreases results.len(),
{
    if results.len() > 0 {
        let before = results.drop_last();
        let last = results.len() - 1;
        lemma_noted_last(metadata, before, id, i);
        assert(results[last] == results.last());
        assert forall|j: int| 0 <= j < before.len() implies before[j] == results[j] by {}
        if (0 <= i < last && results[i].id == id && forall|j: int|
            i < j < results.len() ==> (#[trigger] results[j]).id != id) {
            assert(results[last].id != id);
            assert(forall|j: int| i < j < before.len() ==> (#[trigger] before[j]).id != id);
        }
        if forall|j: int| 0 <= j < results.len() ==> (#[trigger] results[j]).id != id {
            assert(results[last].id != id);
            assert(forall|j: int| 0 <= j < before.len() ==> (#[trigger] before[j]).id != id);
        }
    }
}

proof fn lemma_noted_all_last(lists: Seq<Seq<ResultView>>, id: u64, s: int, i: int)
    requires
        0 <= s < lists.len(),
        0 <= i < lists[s].len(),
        lists[s][i].id == id,
        forall|j: int| i < j < lists[s].len() ==> (#[trigger] lists[s][j]).id != id,
        forall|t: int, j: int|
            s < t < lists.len() && 0 <= j < lists[t].len() ==> (#[trigger] lists[t][j]).id != id,
    ensures
        noted_all(lists).contains_key(id),
        noted_all(lists)[id] == lists[s][i].metadata,
    decreases lists.len(),
{
    let before = lists.drop_last();
    let last = lists.len() - 1;
    assert(lists[last] == lists.last());
    if s < last {
        assert(before[s] == lists[s]);
        assert forall|t: int, j: int|
            s < t < before.len() && 0 <= j < before[t].len() implies (
        #[trigger] before[t][j]).id != id by {
            assert(lists[t][j].id != id);
        }
        assert forall|j: int| i < j < before[s].len() implies (#[trigger] before[s][j]).id != id by {
            assert(lists[s][j].id != id);
        }
        lemma_noted_all_last(before, id, s, i);
        assert forall|j: int| 0 <= j < lists.last().len() implies (
        #[trigger] lists.last()[j]).id != id by {
            assert(lists[last][j].id != id);
        }
        lemma_noted_last(noted_all(before), lists.last(), id, i);
    } else {
        assert forall|j: int| i < j < lists.last().len() implies (
        #[trigger] lists.last()[j]).id != id by {
            assert(lists[s][j].id != id);
        }
        lemma_noted_last(noted_all(before), lists.last(), id, i);
    }
}

/// Merged results are the head of the ranking of everything that the lists have: put all their
/// results in one list, sort it, best first, and take the first `k`, or all where there are fewer.
pub proof fn merged_results_head_the_ranking(
    merged: Seq<ResultView>,
    lists: Seq<Seq<ResultView>>,
    ranking: Seq<ScoredId>,
    k: nat,
)
    requires
        is_merge(merged, lists, k),
        ranking.to_multiset() == lists.map_values(
            |list: Seq<ResultView>|
                list.map_values(|x: ResultView| ScoredId { id: x.id, score: x.score }),
        ).flatten().to_multiset(),
        forall|i: int, j: int|
            0 <= i < j < ranking.len() ==> !crate::record::outranks(
                #[trigger] ranking[j],
                #[trigger] ranking[i],
            ),
    ensures
        merged.map_values(|x: ResultView| ScoredId { id: x.id, score: x.score }) == ranking.take(
            if k < ranking.len() {
                k as int
            } else {
                ranking.len() as int
            },
        ),
{
    let f = |x: ResultView| ScoredId { id: x.id, score: x.score };
    let g = |list: Seq<ResultView>|
        list.map_values(|x: ResultView| ScoredId { id: x.id, score: x.score });
    let tops = ranked_lists(lists);
    assert forall|s: int| 0 <= s < lists.len() implies lists.map_values(g)[s] == tops[s] by {
        assert(g(lists[s]) =~= tops[s]);
    }
    assert(lists.map_values(g) =~= tops);
    crate::ranking::union_is_of_all_lists(tops);
    let top = crate::message::ranked(merged);
    assert(merged.map_values(f) =~= top);
    crate::ranking::top_k_is_the_head_of_the_ranking(ranking, top.to_multiset(), top, k);
}

/// A merged result has the metadata of the last result with its id, list by list; where its id has
/// come before among the merged ones it has none.
pub proof fn merged_results_have_their_metadata(
    merged: Seq<ResultView>,
    lists: Seq<Seq<ResultView>>,
    k: nat,
    m: int,
    s: int,
    i: int,
)
    requires
        is_merge(merged, lists, k),
        0 <= m < merged.len(),
        0 <= s < lists.len(),
        0 <= i < lists[s].len(),
        lists[s][i].id == merged[m].id,
        forall|j: int| i < j < lists[s].len() ==> (#[trigger] lists[s][j]).id != merged[m].id,
        forall|t: int, j: int|
            s < t < lists.len() && 0 <= j < lists[t].len() ==> (#[trigger] lists[t][j]).id
                != merged[m].id,
    ensures
        (forall|n: int| 0 <= n < m ==> (#[trigger] merged[n]).id != merged[m].id)
            ==> merged[m].metadata == lists[s][i].metadata,
        (exists|n: int| 0 <= n < m && (#[trigger] merged[n]).id == merged[m].id)
            ==> merged[m].metadata == Map::<String, String>::empty(),
{
    let id = merged[m].id;
    lemma_noted_all_last(lists, id, s, i);
    assert(merged[m].metadata == carried(noted_all(lists), merged, m));
    if exists|n: int| 0 <= n < m && (#[trigger] merged[n]).id == id {
        let n = choose|n: int| 0 <= n < m && (#[trigger] merged[n]).id == id;
        assert(merged[n].id == id);
        assert(occurs(merged, m, id));
    }
}

/// Lists are shown whole.
pub proof fn lists_are_shown_whole(lists: Seq<Vec<ScoredRecord>>, i: int, j: int)
    requires
        0 <= i < lists.len(),
    ensures
        answer_views(lists).len() == lists.len(),
        answer_views(lists)[i].len() == lists[i]@.len(),
        0 <= j < lists[i]@.len() ==> answer_views(lists)[i][j] == lists[i]@[j]@,
{
}

/// Counts add up: each shard's count is added in full, and a failure adds nothing.
pub proof fn counts_add_up(
    results: Seq<Result<u32, RouterError>>,
    count: u32,
    error: RouterError,
)
    ensures
        sum_counts(Seq::empty()) == 0,
        sum_counts(results.push(Ok(count))) == sum_counts(results) + count,
        sum_counts(results.push(Err(error))) == sum_counts(results),
{
    assert(results.push(Ok(count)).drop_last() =~= results);
    assert(results.push(Err(error)).drop_last() =~= results);
}

/// A status adds up over all replies: each adds its vectors, whatever collections it names, and a
/// missing one adds nothing. The names are just those that some reply has.
pub proof fn statuses_add_up(
    replies: Seq<Option<ClusterStatusResponse>>,
    reply: ClusterStatusResponse,
    name: Seq<char>,
)
    ensures
        vectors_in(Seq::empty()) == 0,
        vectors_in(replies.push(Some(reply))) == vectors_in(replies) + reply.vector_count,
        vectors_in(replies.push(None)) == vectors_in(replies),
        names_in(replies).contains(name) <==> exists|i: int, j: int|
            0 <= i < replies.len() && (replies[i] matches Some(told) && 0 <= j
                < told.collections@.len() && #[trigger] replies[i]->Some_0.collections@[j]@ == name),
    decreases replies.len(),
{
    assert(replies.push(Some(reply)).drop_last() =~= replies);
    assert(replies.push(None).drop_last() =~= replies);
    if replies.len() > 0 {
        let before = replies.drop_last();
        let last = replies.len() - 1;
        statuses_add_up(before, reply, name);
        assert(replies[last] == replies.last());
        assert(forall|i: int| 0 <= i < before.len() ==> before[i] == replies[i]);
        if names_in(replies).contains(name) {
            if names_in(before).contains(name) {
                let (i, j) = choose|i: int, j: int|
                    0 <= i < before.len() && (before[i] matches Some(told) && 0 <= j
                        < told.collections@.len()
                        && #[trigger] before[i]->Some_0.collections@[j]@ == name);
                assert(replies[i]->Some_0.collections@[j]@ == name);
            } else {
                let told = replies.last()->Some_0;
                let views = crate::text::views(told.collections@);
                assert(views.contains(name));
                let j = choose|j: int| 0 <= j < views.len() && views[j] == name;
                assert(replies[last]->Some_0.collections@[j]@ == name);
            }
        }
        if exists|i: int, j: int|
            0 <= i < replies.len() && (replies[i] matches Some(told) && 0 <= j
                < told.collections@.len() && #[trigger] replies[i]->Some_0.collections@[j]@
                == name) {
            let (i, j) = choose|i: int, j: int|
                0 <= i < replies.len() && (replies[i] matches Some(told) && 0 <= j
                    < told.collections@.len() && #[trigger] replies[i]->Some_0.collections@[j]@
                    == name);
            if i < last {
                assert(before[i]->Some_0.collections@[j]@ == name);
            } else {
                let views = crate::text::views(replies.last()->Some_0.collections@);
                assert(views[j] == name);
                assert(views.contains(name));
            }
        }
    }
}

} // verus!
