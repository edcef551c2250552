//! The best `k` of a stream of scored ids, in `O(log k)` per item and `O(k)` space.

use crate::record::ScoredId;
use vstd::multiset::Multiset;
use vstd::prelude::*;

verus! {

/// Where a heap keeps the parent of an element.
spec fn parent(i: int) -> int {
    (i - 1) / 2
}

/// Whether one element may stand below its parent: the parent ranks no higher.
spec fn placed(s: Seq<ScoredId>, i: int) -> bool {
    !crate::record::outranks(s[parent(i)], s[i])
}

/// Whether no parent outranks its child, so that the worst element is at the root.
spec fn heap_ordered(s: Seq<ScoredId>) -> bool {
    forall|i: int| 0 < i < s.len() ==> #[trigger] placed(s, i)
}

/// Whether the children of `i` may stand below the parent of `i`.
spec fn bridged(s: Seq<ScoredId>, i: int) -> bool {
    forall|j: int|
        0 < i && 0 < j < s.len() && parent(j) == i ==> !crate::record::outranks(
            s[parent(i)],
            #[trigger] s[j],
        )
}

spec fn swapped(s: Seq<ScoredId>, i: int, j: int) -> Seq<ScoredId> {
    s.update(i, s[j]).update(j, s[i])
}

proof fn lemma_swapped(s: Seq<ScoredId>, i: int, j: int)
    requires
        0 <= i < s.len(),
        0 <= j < s.len(),
        i != j,
    ensures
        swapped(s, i, j).to_multiset() == s.to_multiset(),
{
    broadcast use vstd::multiset::group_multiset_axioms;
    broadcast use vstd::seq_lib::group_to_multiset_ensures;

    let once = s.update(i, s[j]);
    vstd::seq_lib::to_multiset_update(s, i, s[j]);
    vstd::seq_lib::to_multiset_update(once, j, s[i]);
    assert(s.contains(s[i]));
    assert(s.contains(s[j]));
    assert(s.to_multiset().count(s[i]) > 0);
    assert(s.to_multiset().count(s[j]) > 0);
    assert(swapped(s, i, j).to_multiset() =~= s.to_multiset());
}

/// The root of a heap outranks nothing in it.
proof fn lemma_root_is_worst(s: Seq<ScoredId>, i: int)
    requires
        heap_ordered(s),
        0 <= i < s.len(),
    ensures
        !crate::record::outranks(s[0], s[i]),
    decreases i,
{
    if i > 0 {
        lemma_root_is_worst(s, parent(i));
        assert(placed(s, i));
    }
}

fn swap(heap: &mut Vec<ScoredId>, i: usize, j: usize)
    requires
        i < old(heap).len(),
        j < old(heap).len(),
        i != j,
    ensures
        final(heap)@ == swapped(old(heap)@, i as int, j as int),
        final(heap)@.to_multiset() == old(heap)@.to_multiset(),
{
    proof {
        lemma_swapped(heap@, i as int, j as int);
    }
    let a = heap[i];
    let b = heap[j];
    heap.set(i, b);
    heap.set(j, a);
}

/// Moves the last element up to its place.
fn sift_up(heap: &mut Vec<ScoredId>)
    requires
        old(heap).len() > 0,
        heap_ordered(old(heap)@.drop_last()),
    ensures
        heap_ordered(final(heap)@),
        final(heap)@.to_multiset() == old(heap)@.to_multiset(),
{
    let mut i: usize = heap.len() - 1;
    let ghost all = heap@.to_multiset();
    proof {
        assert forall|j: int| 0 < j < heap@.len() && j != i implies #[trigger] placed(heap@, j) by {
            assert(placed(heap@.drop_last(), j));
        }
    }
    while i > 0
        invariant
            i < heap.len(),
            heap@.to_multiset() == all,
            forall|j: int| 0 < j < heap@.len() && j != i ==> #[trigger] placed(heap@, j),
            bridged(heap@, i as int),
        ensures
            heap_ordered(heap@),
            heap@.to_multiset() == all,
        decreases i,
    {
        let p: usize = (i - 1) / 2;
        let ghost before = heap@;
        if heap[p].ranks_above(&heap[i]) {
            swap(heap, p, i);
            proof {
                let now = heap@;
                assert forall|j: int| 0 < j < now.len() && j != p implies #[trigger] placed(
                    now,
                    j,
                ) by {
                    if j != i {
                        assert(placed(before, j));
                        if parent(j) == i as int {
                            assert(!crate::record::outranks(before[p as int], before[j]));
                        }
                    }
                }
                assert forall|j: int|
                    0 < p && 0 < j < now.len() && parent(j) == p
                        as int implies !crate::record::outranks(
                    now[parent(p as int)],
                    #[trigger] now[j],
                ) by {
                    assert(placed(before, p as int));
                    if j != i {
                        assert(placed(before, j));
                    }
                }
            }
            i = p;
        } else {
            assert(placed(before, i as int));
            break;
        }
    }
}

/// Moves the root down to its place.
fn sift_down(heap: &mut Vec<ScoredId>)
    requires
        forall|j: int| 2 < j < old(heap)@.len() ==> #[trigger] placed(old(heap)@, j),
    ensures
        heap_ordered(final(heap)@),
        final(heap)@.to_multiset() == old(heap)@.to_multiset(),
{
    let mut i: usize = 0;
    let n: usize = heap.len();
    let ghost all = heap@.to_multiset();
    while i < n && i < n - i - 1
        invariant
            n == heap.len(),
            i <= n,
            heap@.to_multiset() == all,
            forall|j: int| 0 < j < n && parent(j) != i ==> #[trigger] placed(heap@, j),
            bridged(heap@, i as int),
        ensures
            heap_ordered(heap@),
            heap@.to_multiset() == all,
        decreases n - i,
    {
        let left: usize = 2 * i + 1;
        let ghost before = heap@;
        let c: usize = if left + 1 < n && heap[left].ranks_above(&heap[left + 1]) {
            left + 1
        } else {
            left
        };
        if heap[i].ranks_above(&heap[c]) {
            swap(heap, i, c);
            proof {
                let now = heap@;
                assert(parent(c as int) == i);
                assert forall|j: int| 0 < j < n && parent(j) != c implies #[trigger] placed(
                    now,
                    j,
                ) by {
                    if parent(j) == i as int {
                        if j != c {
                            assert(now[j] == before[j]);
                        }
                    } else {
                        assert(placed(before, j));
                        if j == i {
                            assert(!crate::record::outranks(
                                before[parent(i as int)],
                                before[c as int],
                            ));
                        }
                    }
                }
                assert forall|j: int|
                    0 < c && 0 < j < now.len() && parent(j) == c
                        as int implies !crate::record::outranks(
                    now[parent(c as int)],
                    #[trigger] now[j],
                ) by {
                    assert(placed(before, j));
                }
            }
            i = c;
        } else {
            proof {
                assert forall|j: int| 0 < j < n implies #[trigger] placed(heap@, j) by {
                    if parent(j) == i as int {
                        assert(j == left || j == left + 1);
                    }
                }
            }
            break;
        }
    }
}

/// Takes the worst element out of a heap.
fn pop_worst(heap: &mut Vec<ScoredId>) -> (worst: ScoredId)
    requires
        old(heap).len() > 0,
        heap_ordered(old(heap)@),
    ensures
        heap_ordered(final(heap)@),
        worst == old(heap)@[0],
        final(heap).len() == old(heap).len() - 1,
        old(heap)@.to_multiset() == final(heap)@.to_multiset().insert(worst),
        forall|x: ScoredId|
            final(heap)@.to_multiset().count(x) > 0 ==> !#[trigger] crate::record::outranks(
                worst,
                x,
            ),
{
    broadcast use vstd::seq_lib::group_to_multiset_ensures;
    broadcast use vstd::multiset::group_multiset_axioms;

    let ghost before = heap@;
    let worst = heap[0];
    let n: usize = heap.len();
    proof {
        assert forall|x: ScoredId|
            before.to_multiset().count(x) > 0 implies !#[trigger] crate::record::outranks(
            worst,
            x,
        ) by {
            assert(before.contains(x));
            let i = choose|i: int| 0 <= i < before.len() && before[i] == x;
            lemma_root_is_worst(before, i);
        }
    }
    if n > 1 {
        swap(heap, 0, n - 1);
    }
    let ghost turned = heap@;
    heap.truncate(n - 1);
    proof {
        assert(turned =~= heap@.push(worst));
        assert(turned.to_multiset() == before.to_multiset());
        assert forall|j: int| 2 < j < heap@.len() implies #[trigger] placed(heap@, j) by {
            assert(placed(before, j));
        }
    }
    let ghost rest = heap@.to_multiset();
    sift_down(heap);
    assert(heap@.to_multiset().len() == rest.len());
    worst
}

/// The best `k` of the items handed in so far.
///
/// The items are a heap with the worst of them at the root, so that a new item either takes the
/// root's place or is dropped at once.
pub struct TopK {
    heap: Vec<ScoredId>,
    k: usize,
}

impl View for TopK {
    type V = Multiset<ScoredId>;

    closed spec fn view(&self) -> Multiset<ScoredId> {
        self.heap@.to_multiset()
    }
}

impl TopK {
    #[verifier::type_invariant]
    spec fn wf(self) -> bool {
        &&& heap_ordered(self.heap@)
        &&& self.heap.len() <= self.k
    }

    /// How many items are kept at most.
    pub closed spec fn limit(&self) -> nat {
        self.k as nat
    }

    /// An empty collection for the best `k` items.
    pub fn new(k: usize) -> (r: Self)
        ensures
            r@ == Multiset::<ScoredId>::empty(),
            r.limit() == k,
    {
        proof {
            Seq::<ScoredId>::empty().to_multiset_ensures();
            vstd::multiset::lemma_multiset_empty_len(Seq::<ScoredId>::empty().to_multiset());
        }
        let heap: Vec<ScoredId> = Vec::new();
        assert(heap@ =~= Seq::<ScoredId>::empty());
        Self { heap, k }
    }

    /// Hands in one item: the best `k` of the items so far and the new one are kept.
    pub fn push(&mut self, item: ScoredId)
        ensures
            crate::ranking::is_best(final(self)@, old(self)@.insert(item), old(self).limit()),
            final(self).limit() == old(self).limit(),
    {
        broadcast use vstd::seq_lib::group_to_multiset_ensures;
        broadcast use vstd::multiset::group_multiset_axioms;

        proof {
            use_type_invariant(&*self);
            assert(self@.len() == self.heap.len());
            assert(self@.insert(item).len() == self@.len() + 1);
        }
        if self.k == 0 {
            return ;
        }
        let mut heap: Vec<ScoredId> = Vec::new();
        std::mem::swap(&mut heap, &mut self.heap);
        let ghost before = heap@;
        if heap.len() < self.k {
            heap.push(item);
            assert(heap@.drop_last() =~= before);
            sift_up(&mut heap);
            assert(heap@.to_multiset() == before.to_multiset().insert(item));
            assert(heap@.len() == heap@.to_multiset().len());
        } else if item.ranks_above(&heap[0]) {
            let worst = pop_worst(&mut heap);
            let ghost popped = heap@;
            heap.push(item);
            assert(heap@.drop_last() =~= popped);
            sift_up(&mut heap);
            proof {
                let all = before.to_multiset().insert(item);
                let kept = heap@.to_multiset();
                assert(kept == popped.to_multiset().insert(item));
                assert(all =~= kept.insert(worst));
                assert(heap@.len() == kept.len());
                assert forall|x: ScoredId, y: ScoredId|
                    #![trigger kept.count(x), all.count(y)]
                    kept.count(x) > 0 && all.count(y) > kept.count(
                        y,
                    ) implies !crate::record::outranks(y, x) by {
                    assert(y == worst);
                    if x != item {
                        assert(popped.to_multiset().count(x) > 0);
                    }
                }
            }
        } else {
            proof {
                let all = before.to_multiset().insert(item);
                let kept = before.to_multiset();
                assert forall|x: ScoredId, y: ScoredId|
                    #![trigger kept.count(x), all.count(y)]
                    kept.count(x) > 0 && all.count(y) > kept.count(
                        y,
                    ) implies !crate::record::outranks(y, x) by {
                    assert(y == item);
                    assert(before.contains(x));
                    let i = choose|i: int| 0 <= i < before.len() && before[i] == x;
                    lemma_root_is_worst(before, i);
                }
            }
        }
        self.heap = heap;
    }

    /// Hands in items one by one.
    fn push_all(&mut self, items: Vec<ScoredId>)
        ensures
            crate::ranking::is_best(
                final(self)@,
                old(self)@.add(items@.to_multiset()),
                old(self).limit(),
            ),
            final(self).limit() == old(self).limit(),
    {
        broadcast use vstd::seq_lib::group_to_multiset_ensures;
        broadcast use vstd::multiset::group_multiset_axioms;

        let ghost start = self@;
        let ghost k = self.limit();
        let ghost all = items@;
        proof {
            use_type_invariant(&*self);
            assert(self@.len() == self.heap.len());
            crate::ranking::lemma_best_of_few(start, k);
            assert(start.add(all.take(0).to_multiset()) =~= start);
        }
        for item in it: items
            invariant
                it.seq() == all,
                self.limit() == k,
                crate::ranking::is_best(self@, start.add(all.take(it.index()).to_multiset()), k),
        {
            let ghost kept = self@;
            let ghost seen = all.take(it.index());
            self.push(item);
            proof {
                let one = Multiset::<ScoredId>::singleton(item);
                assert(kept.insert(item) =~= kept.add(one));
                crate::ranking::lemma_best_through_part(
                    self@,
                    kept,
                    start.add(seen.to_multiset()),
                    one,
                    k,
                );
                assert(all.take(it.index() + 1) =~= seen.push(item));
                vstd::seq_lib::to_multiset_build(seen, item);
                assert(start.add(seen.push(item).to_multiset()) =~= start.add(
                    seen.to_multiset(),
                ).add(one));
            }
        }
        assert(all.take(all.len() as int) =~= all);
    }

    /// The best `k` of what two collections hold, `k` being this collection's.
    pub fn merge(self, other: TopK) -> (r: Self)
        ensures
            crate::ranking::is_best(r@, self@.add(other@), self.limit()),
            r.limit() == self.limit(),
    {
        let mut merged = self;
        merged.push_all(other.heap);
        merged
    }

    /// The items kept, best first.
    pub fn into_sorted_vec(self) -> (r: Vec<ScoredId>)
        ensures
            crate::ranking::best_first(r@),
            r@.to_multiset() == self@,
            r.len() <= self.limit(),
    {
        broadcast use vstd::seq_lib::group_to_multiset_ensures;
        broadcast use vstd::multiset::group_multiset_axioms;

        proof {
            use_type_invariant(&self);
        }
        let ghost all = self@;
        let ghost k = self.limit();
        let mut heap = self.heap;
        let mut rising: Vec<ScoredId> = Vec::new();
        assert(rising@.to_multiset().add(heap@.to_multiset()) =~= all);
        while heap.len() > 0
            invariant
                heap_ordered(heap@),
                rising@.to_multiset().add(heap@.to_multiset()) == all,
                all.len() <= k,
                forall|i: int, j: int|
                    0 <= i < j < rising.len() ==> !crate::record::outranks(
                        #[trigger] rising@[i],
                        #[trigger] rising@[j],
                    ),
                forall|i: int, x: ScoredId|
                    0 <= i < rising.len() && heap@.to_multiset().count(x) > 0
                        ==> !#[trigger] crate::record::outranks(rising@[i], x),
            decreases heap.len(),
        {
            let ghost rest = heap@.to_multiset();
            let ghost taken = rising@;
            let worst = pop_worst(&mut heap);
            assert(rest.count(worst) > 0);
            rising.push(worst);
            proof {
                vstd::seq_lib::to_multiset_build(taken, worst);
            }
            assert(rising@.to_multiset().add(heap@.to_multiset()) =~= taken.to_multiset().add(rest));
        }
        let mut best: Vec<ScoredId> = Vec::new();
        let n: usize = rising.len();
        for i in 0..n
            invariant
                n == rising.len(),
                best.len() == i,
                forall|j: int| 0 <= j < i ==> best@[j] == rising@[n - 1 - j],
        {
            best.push(rising[n - 1 - i]);
        }
        proof {
            assert(best@ =~= rising@.reverse());
            rising@.lemma_reverse_to_multiset();
            assert(heap@.to_multiset() =~= Multiset::empty());
            assert(rising@.to_multiset() =~= all);
            assert(best@.to_multiset().len() == best.len());
        }
        best
    }
}

/// The exact top `k` of a list, best first.
pub fn bounded_top_k(items: Vec<ScoredId>, k: usize) -> (r: Vec<ScoredId>)
    ensures
        crate::ranking::is_top_k(r@, items@.to_multiset(), k as nat),
{
    broadcast use vstd::multiset::group_multiset_axioms;

    let mut top = TopK::new(k);
    assert(top@.add(items@.to_multiset()) =~= items@.to_multiset());
    top.push_all(items);
    top.into_sorted_vec()
}

/// The views of the lists in a list.
pub open spec fn list_views(lists: Seq<Vec<ScoredId>>) -> Seq<Seq<ScoredId>> {
    Seq::new(lists.len(), |i: int| lists[i]@)
}

/// The exact top `k` of several lists together, best first.
///
/// Where each list is the top `k` of one part of a corpus, the result is the top `k` of the whole
/// corpus: see [`merge_is_exact`](crate::ranking::merge_is_exact).
pub fn merge_top_k(lists: Vec<Vec<ScoredId>>, k: usize) -> (r: Vec<ScoredId>)
    ensures
        crate::ranking::is_top_k(
            r@,
            crate::ranking::union_of(crate::ranking::as_multisets(list_views(lists@))),
            k as nat,
        ),
{
    broadcast use vstd::multiset::group_multiset_axioms;

    let ghost parts = crate::ranking::as_multisets(list_views(lists@));
    let ghost all = lists@;
    let mut top = TopK::new(k);
    proof {
        crate::ranking::lemma_best_of_few(top@, k as nat);
        assert(crate::ranking::union_of(parts.take(0)) =~= top@);
    }
    for list in it: lists
        invariant
            it.seq() == all,
            parts == crate::ranking::as_multisets(list_views(all)),
            top.limit() == k,
            crate::ranking::is_best(
                top@,
                crate::ranking::union_of(parts.take(it.index())),
                k as nat,
            ),
    {
        let ghost kept = top@;
        let ghost seen = parts.take(it.index());
        let ghost part = list@.to_multiset();
        top.push_all(list);
        proof {
            crate::ranking::lemma_best_through_part(
                top@,
                kept,
                crate::ranking::union_of(seen),
                part,
                k as nat,
            );
            assert(parts[it.index()] == part);
            assert(parts.take(it.index() + 1).drop_last() =~= seen);
        }
    }
    assert(parts.take(all.len() as int) =~= parts);
    top.into_sorted_vec()
}

/// The lists to merge are the lists handed in, each whole.
pub proof fn lists_are_merged_whole(lists: Seq<Vec<ScoredId>>, i: int)
    requires
        0 <= i < lists.len(),
    ensures
        list_views(lists).len() == lists.len(),
        list_views(lists)[i] == lists[i]@,
{
}

} // verus!
