//! What the best `k` of a collection of scored ids are, and how they combine.

use crate::record::{outranks, ScoredId};
use vstd::multiset::Multiset;
use vstd::prelude::*;

verus! {

/// The smaller of two counts.
pub open spec fn at_most(k: nat, n: nat) -> nat {
    if k < n {
        k
    } else {
        n
    }
}

/// Whether `kept` is what a ranking of `all` cut off after `k` keeps: as many of `all` as `k`
/// allows, none of them outranked by one that was left out.
pub open spec fn is_best(kept: Multiset<ScoredId>, all: Multiset<ScoredId>, k: nat) -> bool {
    &&& kept.subset_of(all)
    &&& kept.len() == at_most(k, all.len())
    &&& forall|x: ScoredId, y: ScoredId|
        #![trigger kept.count(x), all.count(y)]
        kept.count(x) > 0 && all.count(y) > kept.count(y) ==> !outranks(y, x)
}

/// Whether a sequence runs from the best to the worst.
pub open spec fn best_first(s: Seq<ScoredId>) -> bool {
    forall|i: int, j: int| 0 <= i < j < s.len() ==> !outranks(#[trigger] s[j], #[trigger] s[i])
}

/// Whether `result` is the exact top `k` of `all`, best first.
pub open spec fn is_top_k(result: Seq<ScoredId>, all: Multiset<ScoredId>, k: nat) -> bool {
    &&& best_first(result)
    &&& is_best(result.to_multiset(), all, k)
}

/// A multiset has at least as many elements as one that it includes, and equal numbers only where
/// the two are equal.
pub proof fn lemma_subset_len<V>(a: Multiset<V>, b: Multiset<V>)
    requires
        a.subset_of(b),
    ensures
        a.len() <= b.len(),
        a.len() == b.len() ==> a == b,
{
    broadcast use vstd::multiset::group_multiset_axioms;

    assert(b.sub(a).len() == b.len() - a.len());
    if a.len() == b.len() {
        vstd::multiset::lemma_multiset_empty_len(b.sub(a));
        assert forall|v: V| a.count(v) == b.count(v) by {
            assert(b.sub(a).count(v) == 0);
        }
        assert(a =~= b);
    }
}

/// The best `k` of a collection are one multiset, and no other.
pub proof fn best_is_unique(
    one: Multiset<ScoredId>,
    other: Multiset<ScoredId>,
    all: Multiset<ScoredId>,
    k: nat,
)
    requires
        is_best(one, all, k),
        is_best(other, all, k),
    ensures
        one == other,
{
    if one.subset_of(other) {
        lemma_subset_len(one, other);
    } else if other.subset_of(one) {
        lemma_subset_len(other, one);
    } else {
        let x = choose|x: ScoredId| one.count(x) > other.count(x);
        let y = choose|y: ScoredId| other.count(y) > one.count(y);
        assert(one.count(x) > other.count(x));
        assert(other.count(y) > one.count(y));
        assert(all.count(x) >= one.count(x));
        assert(all.count(y) >= other.count(y));
        assert(!outranks(y, x));
        assert(!outranks(x, y));
    }
}

/// Everything is the best of itself when nothing has to be left out.
pub proof fn lemma_best_of_few(all: Multiset<ScoredId>, k: nat)
    requires
        all.len() <= k,
    ensures
        is_best(all, all, k),
{
}

/// Reducing a part of a collection to its best `k` first does not change the best `k` of the
/// whole.
pub proof fn lemma_best_through_part(
    kept: Multiset<ScoredId>,
    part_kept: Multiset<ScoredId>,
    part: Multiset<ScoredId>,
    rest: Multiset<ScoredId>,
    k: nat,
)
    requires
        is_best(part_kept, part, k),
        is_best(kept, part_kept.add(rest), k),
    ensures
        is_best(kept, part.add(rest), k),
{
    broadcast use vstd::multiset::group_multiset_axioms;

    let reduced = part_kept.add(rest);
    let all = part.add(rest);
    lemma_subset_len(part_kept, part);
    assert(kept.subset_of(all)) by {
        assert forall|v: ScoredId| kept.count(v) <= all.count(v) by {
            assert(kept.count(v) <= reduced.count(v));
            assert(part_kept.count(v) <= part.count(v));
        }
    }
    if part_kept == part {
    } else {
        assert(part_kept.len() == k);
        assert forall|x: ScoredId, y: ScoredId|
            #![trigger kept.count(x), all.count(y)]
            kept.count(x) > 0 && all.count(y) > kept.count(y) implies !outranks(y, x) by {
            if outranks(y, x) {
                if reduced.count(y) > kept.count(y) {
                } else {
                    assert(part.count(y) > part_kept.count(y));
                    // Everything that the part kept ranks no lower than `y`, hence above `x`, so
                    // all of it is in `kept`, with `x` besides.
                    assert forall|z: ScoredId|
                        part_kept.insert(x).count(z) <= kept.count(z) by {
                        assert(part_kept.insert(x).count(z) == part_kept.count(z) + if z == x {
                            1nat
                        } else {
                            0nat
                        });
                        if part_kept.count(z) > 0 {
                            assert(!outranks(y, z));
                            assert(outranks(z, x));
                            if reduced.count(z) > kept.count(z) {
                                assert(!outranks(z, x));
                            }
                            assert(z != x);
                        }
                    }
                    assert(part_kept.insert(x).subset_of(kept));
                    lemma_subset_len(part_kept.insert(x), kept);
                    assert(part_kept.insert(x).len() == k + 1);
                }
            }
        }
    }
}

/// The best `k` of two collections together are the best `k` of what remains when each is first
/// reduced to its own best `k`.
pub proof fn best_of_parts(
    kept: Multiset<ScoredId>,
    left_kept: Multiset<ScoredId>,
    left: Multiset<ScoredId>,
    right_kept: Multiset<ScoredId>,
    right: Multiset<ScoredId>,
    k: nat,
)
    requires
        is_best(left_kept, left, k),
        is_best(right_kept, right, k),
        is_best(kept, left_kept.add(right_kept), k),
    ensures
        is_best(kept, left.add(right), k),
{
    broadcast use vstd::multiset::group_multiset_axioms;

    lemma_best_through_part(kept, left_kept, left, right_kept, k);
    assert(left.add(right_kept) =~= right_kept.add(left));
    lemma_best_through_part(kept, right_kept, right, left, k);
    assert(right.add(left) =~= left.add(right));
}

/// A best-first sequence is determined by the multiset of its elements.
pub proof fn lemma_best_first_unique(a: Seq<ScoredId>, b: Seq<ScoredId>)
    requires
        best_first(a),
        best_first(b),
        a.to_multiset() == b.to_multiset(),
    ensures
        a == b,
    decreases a.len(),
{
    broadcast use vstd::seq_lib::group_to_multiset_ensures;
    broadcast use vstd::multiset::group_multiset_axioms;

    assert(a.to_multiset().len() == a.len());
    assert(b.to_multiset().len() == b.len());
    if a.len() == 0 {
        assert(a =~= b);
    } else {
        let last: int = a.len() - 1;
        assert(a.contains(a[last]));
        assert(b.contains(b[last]));
        assert(b.to_multiset().count(a[last]) > 0);
        assert(a.to_multiset().count(b[last]) > 0);
        assert(b.contains(a[last]));
        assert(a.contains(b[last]));
        let i = choose|i: int| 0 <= i < b.len() && b[i] == a[last];
        let j = choose|j: int| 0 <= j < a.len() && a[j] == b[last];
        assert(a[last] == b[last]);
        assert(a.remove(last) =~= a.drop_last());
        assert(b.remove(last) =~= b.drop_last());
        lemma_best_first_unique(a.drop_last(), b.drop_last());
        assert(a =~= a.drop_last().push(a[last]));
        assert(b =~= b.drop_last().push(b[last]));
    }
}

/// The exact top `k` of a collection is one sequence, and no other.
pub proof fn top_k_is_unique(
    one: Seq<ScoredId>,
    other: Seq<ScoredId>,
    all: Multiset<ScoredId>,
    k: nat,
)
    requires
        is_top_k(one, all, k),
        is_top_k(other, all, k),
    ensures
        one == other,
{
    best_is_unique(one.to_multiset(), other.to_multiset(), all, k);
    lemma_best_first_unique(one, other);
}

/// The union of a sequence of collections.
pub open spec fn union_of(parts: Seq<Multiset<ScoredId>>) -> Multiset<ScoredId>
    decreases parts.len(),
{
    if parts.len() == 0 {
        Multiset::empty()
    } else {
        union_of(parts.drop_last()).add(parts.last())
    }
}

/// Lists of scored ids as collections.
pub open spec fn as_multisets(lists: Seq<Seq<ScoredId>>) -> Seq<Multiset<ScoredId>> {
    Seq::new(lists.len(), |i: int| lists[i].to_multiset())
}

proof fn lemma_merge_reduced(
    kept: Multiset<ScoredId>,
    reduced: Seq<Multiset<ScoredId>>,
    parts: Seq<Multiset<ScoredId>>,
    rest: Multiset<ScoredId>,
    k: nat,
)
    requires
        reduced.len() == parts.len(),
        forall|i: int| 0 <= i < parts.len() ==> is_best(#[trigger] reduced[i], parts[i], k),
        is_best(kept, union_of(reduced).add(rest), k),
    ensures
        is_best(kept, union_of(parts).add(rest), k),
    decreases parts.len(),
{
    broadcast use vstd::multiset::group_multiset_axioms;

    if parts.len() == 0 {
        assert(reduced =~= parts);
    } else {
        let rs = reduced.drop_last();
        let ps = parts.drop_last();
        assert(is_best(reduced.last(), parts.last(), k));
        assert(union_of(reduced).add(rest) =~= reduced.last().add(union_of(rs).add(rest)));
        lemma_best_through_part(kept, reduced.last(), parts.last(), union_of(rs).add(rest), k);
        assert(parts.last().add(union_of(rs).add(rest)) =~= union_of(rs).add(
            parts.last().add(rest),
        ));
        assert forall|i: int| 0 <= i < ps.len() implies is_best(#[trigger] rs[i], ps[i], k) by {
            assert(is_best(reduced[i], parts[i], k));
        }
        lemma_merge_reduced(kept, rs, ps, parts.last().add(rest), k);
        assert(union_of(ps).add(parts.last().add(rest)) =~= union_of(parts).add(rest));
    }
}

/// Merging is exact: where every shard hands in the top `k` of its own part, the top `k` of what
/// was handed in is the top `k` of all the parts together.
pub proof fn merge_is_exact(
    merged: Seq<ScoredId>,
    lists: Seq<Seq<ScoredId>>,
    parts: Seq<Multiset<ScoredId>>,
    k: nat,
)
    requires
        lists.len() == parts.len(),
        forall|i: int| 0 <= i < parts.len() ==> is_top_k(#[trigger] lists[i], parts[i], k),
        is_top_k(merged, union_of(as_multisets(lists)), k),
    ensures
        is_top_k(merged, union_of(parts), k),
{
    broadcast use vstd::multiset::group_multiset_axioms;

    let reduced = as_multisets(lists);
    let none = Multiset::<ScoredId>::empty();
    assert forall|i: int| 0 <= i < parts.len() implies is_best(#[trigger] reduced[i], parts[i], k) by {
        assert(is_top_k(lists[i], parts[i], k));
    }
    assert(union_of(reduced).add(none) =~= union_of(reduced));
    assert(union_of(parts).add(none) =~= union_of(parts));
    lemma_merge_reduced(merged.to_multiset(), reduced, parts, none, k);
}

/// The scored ids of a map from ids to scores.
pub open spec fn scored_ids(scores: Map<u64, u32>) -> Multiset<ScoredId> {
    Multiset::from_set(
        Set::new(|x: ScoredId| scores.contains_key(x.id) && scores[x.id] == x.score),
    )
}

/// Each id of the map comes once, with its score.
pub proof fn lemma_scored_ids(scores: Map<u64, u32>, x: ScoredId)
    requires
        scores.dom().finite(),
    ensures
        scored_ids(scores).count(x) == if scores.contains_key(x.id) && scores[x.id] == x.score {
            1nat
        } else {
            0nat
        },
{
    broadcast use vstd::multiset::group_multiset_axioms;

    let wanted = Set::new(|x: ScoredId| scores.contains_key(x.id) && scores[x.id] == x.score);
    let image = |id: u64| ScoredId { id, score: scores[id] };
    scores.dom().lemma_map_finite(image);
    assert forall|x: ScoredId| wanted.contains(x) implies scores.dom().map(image).contains(x) by {
        assert(scores.dom().contains(x.id) && image(x.id) == x);
    }
    assert forall|x: ScoredId| scores.dom().map(image).contains(x) implies wanted.contains(x) by {}
    assert(wanted =~= scores.dom().map(image));
    let counts = Map::new(|k: ScoredId| wanted.contains(k), |v: ScoredId| 1nat);
    assert(counts.dom() =~= wanted);
}

/// A list with one entry for each id of the map holds the map's scored ids.
pub proof fn lemma_scored_list(list: Seq<ScoredId>, scores: Map<u64, u32>)
    requires
        scores.dom().finite(),
        forall|i: int, j: int|
            0 <= i < j < list.len() ==> (#[trigger] list[i]).id != (#[trigger] list[j]).id,
        forall|i: int|
            0 <= i < list.len() ==> scores.contains_key((#[trigger] list[i]).id)
                && scores[list[i].id] == list[i].score,
        forall|id: u64| #[trigger]
            scores.contains_key(id) ==> exists|i: int|
                0 <= i < list.len() && (#[trigger] list[i]).id == id,
    ensures
        list.to_multiset() == scored_ids(scores),
{
    broadcast use vstd::multiset::group_multiset_axioms;
    broadcast use vstd::seq_lib::group_to_multiset_ensures;

    assert(list.no_duplicates());
    list.lemma_multiset_has_no_duplicates();
    assert forall|x: ScoredId| list.to_multiset().count(x) == scored_ids(scores).count(x) by {
        lemma_scored_ids(scores, x);
        if list.contains(x) {
            let i = choose|i: int| 0 <= i < list.len() && list[i] == x;
            assert(list[i] == x);
            assert(list.to_multiset().contains(x));
        } else if scores.contains_key(x.id) && scores[x.id] == x.score {
            let i = choose|i: int| 0 <= i < list.len() && (#[trigger] list[i]).id == x.id;
            assert(list[i] == x);
        }
    }
    assert(list.to_multiset() =~= scored_ids(scores));
}

/// A map has as many scored ids as it has ids.
pub proof fn lemma_scored_ids_len(scores: Map<u64, u32>)
    requires
        scores.dom().finite(),
    ensures
        scored_ids(scores).len() == scores.dom().len(),
    decreases scores.dom().len(),
{
    broadcast use vstd::multiset::group_multiset_axioms;

    if scores.dom().len() == 0 {
        assert(scores.dom() =~= Set::<u64>::empty());
        assert forall|x: ScoredId| scored_ids(scores).count(x) == 0 by {
            lemma_scored_ids(scores, x);
        }
        assert(scored_ids(scores) =~= Multiset::empty());
    } else {
        let id = scores.dom().choose();
        let rest = scores.remove(id);
        let one = ScoredId { id, score: scores[id] };
        assert(rest.dom() =~= scores.dom().remove(id));
        lemma_scored_ids_len(rest);
        assert forall|x: ScoredId|
            scored_ids(scores).count(x) == scored_ids(rest).insert(one).count(x) by {
            lemma_scored_ids(scores, x);
            lemma_scored_ids(rest, x);
        }
        assert(scored_ids(scores) =~= scored_ids(rest).insert(one));
    }
}

/// What stands at two places of a list counts twice.
pub proof fn lemma_count_of_two<V>(list: Seq<V>, i: int, j: int)
    requires
        0 <= i < j < list.len(),
        list[i] == list[j],
    ensures
        list.to_multiset().count(list[i]) >= 2,
{
    broadcast use vstd::multiset::group_multiset_axioms;
    broadcast use vstd::seq_lib::group_to_multiset_ensures;

    let rest = list.remove(j);
    vstd::seq_lib::to_multiset_remove(list, j);
    assert(rest[i] == list[i]);
    assert(rest.contains(list[i]));
    assert(rest.to_multiset().count(list[i]) > 0);
    assert(list.contains(list[j]));
}

/// The top `k` of a list is the head of its ranking: sort the list, best first, and take the first
/// `k`, or all where there are fewer.
pub proof fn top_k_is_the_head_of_the_ranking(
    ranking: Seq<ScoredId>,
    kept: Multiset<ScoredId>,
    result: Seq<ScoredId>,
    k: nat,
)
    requires
        forall|i: int, j: int|
            0 <= i < j < ranking.len() ==> !outranks(#[trigger] ranking[j], #[trigger] ranking[i]),
    ensures
        is_best(kept, ranking.to_multiset(), k) ==> kept == ranking.take(
            if k < ranking.len() {
                k as int
            } else {
                ranking.len() as int
            },
        ).to_multiset(),
        is_top_k(result, ranking.to_multiset(), k) ==> result == ranking.take(
            if k < ranking.len() {
                k as int
            } else {
                ranking.len() as int
            },
        ),
{
    broadcast use vstd::multiset::group_multiset_axioms;
    broadcast use vstd::seq_lib::group_to_multiset_ensures;

    let m: int = if k < ranking.len() {
        k as int
    } else {
        ranking.len() as int
    };
    let head = ranking.take(m);
    let tail = ranking.skip(m);
    let all = ranking.to_multiset();
    assert(head + tail =~= ranking);
    vstd::seq_lib::lemma_multiset_commutative(head, tail);
    assert(all.len() == ranking.len());
    assert(head.to_multiset().len() == head.len());
    assert forall|x: ScoredId, y: ScoredId|
        #![trigger head.to_multiset().count(x), all.count(y)]
        head.to_multiset().count(x) > 0 && all.count(y) > head.to_multiset().count(
            y,
        ) implies !outranks(y, x) by {
        assert(tail.to_multiset().count(y) > 0);
        assert(head.contains(x));
        assert(tail.contains(y));
        let i = choose|i: int| 0 <= i < head.len() && head[i] == x;
        let j = choose|j: int| 0 <= j < tail.len() && tail[j] == y;
        assert(ranking[i] == x);
        assert(ranking[m + j] == y);
    }
    assert(is_best(head.to_multiset(), all, k));
    if is_best(kept, all, k) {
        best_is_unique(kept, head.to_multiset(), all, k);
    }
    if is_top_k(result, all, k) {
        assert forall|i: int, j: int| 0 <= i < j < head.len() implies !outranks(
            #[trigger] head[j],
            #[trigger] head[i],
        ) by {
            assert(head[j] == ranking[j] && head[i] == ranking[i]);
        }
        top_k_is_unique(result, head, all, k);
    }
}

/// The union of lists has everything that the lists have, as often as they have it: it is what
/// their concatenation has.
pub proof fn union_is_of_all_lists(lists: Seq<Seq<ScoredId>>)
    ensures
        union_of(as_multisets(lists)) == lists.flatten().to_multiset(),
    decreases lists.len(),
{
    broadcast use vstd::multiset::group_multiset_axioms;
    broadcast use vstd::seq_lib::group_to_multiset_ensures;

    lists.lemma_flatten_and_flatten_alt_are_equivalent();
    if lists.len() == 0 {
        assert(lists.flatten() =~= Seq::<ScoredId>::empty());
        assert(lists.flatten().to_multiset() =~= Multiset::empty());
    } else {
        let before = lists.drop_last();
        union_is_of_all_lists(before);
        before.lemma_flatten_and_flatten_alt_are_equivalent();
        assert(as_multisets(lists).drop_last() =~= as_multisets(before));
        assert(lists.flatten() =~= before.flatten() + lists.last());
        vstd::seq_lib::lemma_multiset_commutative(before.flatten(), lists.last());
    }
}

} // verus!
