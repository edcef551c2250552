//! The replicated log of one group, held in memory.

use crate::address::NodeId;
use vstd::prelude::*;

verus! {

/// A position in the log, with the leader under which it was written.
#[derive(Debug, Clone, Copy, PartialEq, Eq, Structural)]
pub struct LogId {
    pub term: u64,
    pub node_id: NodeId,
    pub index: u64,
}

/// A replica's vote: for whom, in which term, and whether a quorum granted it.
#[derive(Debug, Clone, Copy, PartialEq, Eq, Structural)]
pub struct Vote {
    pub term: u64,
    pub node_id: NodeId,
    pub committed: bool,
}

/// What a log entry carries: nothing, a command, or a change of the group's membership.
#[derive(Debug)]
pub enum Payload<D, M> {
    Blank,
    Normal(D),
    Membership(M),
}

/// One log entry.
#[derive(Debug)]
pub struct Entry<D, M> {
    pub log_id: LogId,
    pub payload: Payload<D, M>,
}

/// Where the log begins and ends.
#[derive(Debug, Clone, Copy, PartialEq, Eq, Structural)]
pub struct LogState {
    pub last_purged_log_id: Option<LogId>,
    pub last_log_id: Option<LogId>,
}

/// One end of a range of indices.
#[derive(Debug, Clone, Copy, PartialEq, Eq, Structural)]
pub enum IndexBound {
    Included(u64),
    Excluded(u64),
    Unbounded,
}

/// Whether an index lies at or after the lower end of a range.
pub open spec fn after_start(start: IndexBound, index: u64) -> bool {
    match start {
        IndexBound::Included(i) => i <= index,
        IndexBound::Excluded(i) => i < index,
        IndexBound::Unbounded => true,
    }
}

/// Whether an index lies at or before the upper end of a range.
pub open spec fn before_end(end: IndexBound, index: u64) -> bool {
    match end {
        IndexBound::Included(i) => index <= i,
        IndexBound::Excluded(i) => index < i,
        IndexBound::Unbounded => true,
    }
}

fn is_after_start(start: IndexBound, index: u64) -> (r: bool)
    ensures
        r == after_start(start, index),
{
    match start {
        IndexBound::Included(i) => i <= index,
        IndexBound::Excluded(i) => i < index,
        IndexBound::Unbounded => true,
    }
}

fn is_before_end(end: IndexBound, index: u64) -> (r: bool)
    ensures
        r == before_end(end, index),
{
    match end {
        IndexBound::Included(i) => index <= i,
        IndexBound::Excluded(i) => index < i,
        IndexBound::Unbounded => true,
    }
}

/// Whether indices strictly rise along a sequence of entries.
pub open spec fn rising<D, M>(entries: Seq<Entry<D, M>>) -> bool {
    forall|i: int, j: int|
        0 <= i < j < entries.len() ==> (#[trigger] entries[i]).log_id.index < (
        #[trigger] entries[j]).log_id.index
}

/// Whether some entry has an index.
pub open spec fn holds_index<D, M>(entries: Seq<Entry<D, M>>, index: u64) -> bool {
    exists|i: int| 0 <= i < entries.len() && (#[trigger] entries[i]).log_id.index == index
}

/// The entries by index.
pub open spec fn by_index<D, M>(entries: Seq<Entry<D, M>>) -> Map<u64, Entry<D, M>> {
    Map::new(
        |index: u64| holds_index(entries, index),
        |index: u64|
            entries[choose|i: int|
                0 <= i < entries.len() && (#[trigger] entries[i]).log_id.index == index],
    )
}

/// A log after entries were written to it in order: an entry replaces one of the same index.
pub open spec fn written<D, M>(
    log: Map<u64, Entry<D, M>>,
    entries: Seq<Entry<D, M>>,
) -> Map<u64, Entry<D, M>>
    decreases entries.len(),
{
    if entries.len() == 0 {
        log
    } else {
        written(log, entries.drop_last()).insert(entries.last().log_id.index, entries.last())
    }
}

/// The entries of a log below an index.
pub open spec fn below<D, M>(log: Map<u64, Entry<D, M>>, index: u64) -> Map<u64, Entry<D, M>> {
    Map::new(|i: u64| log.contains_key(i) && i < index, |i: u64| log[i])
}

/// The entries of a log above an index.
pub open spec fn above<D, M>(log: Map<u64, Entry<D, M>>, index: u64) -> Map<u64, Entry<D, M>> {
    Map::new(|i: u64| log.contains_key(i) && i > index, |i: u64| log[i])
}

/// Whether `found` are the entries of a log within a range, in the order of their indices.
pub open spec fn in_range<D, M>(
    found: Seq<&Entry<D, M>>,
    log: Map<u64, Entry<D, M>>,
    start: IndexBound,
    end: IndexBound,
) -> bool {
    &&& forall|i: int, j: int|
        0 <= i < j < found.len() ==> (#[trigger] found[i]).log_id.index < (
        #[trigger] found[j]).log_id.index
    &&& forall|i: int|
        0 <= i < found.len() ==> {
            let e = #[trigger] found[i];
            &&& after_start(start, e.log_id.index)
            &&& before_end(end, e.log_id.index)
            &&& log.contains_key(e.log_id.index)
            &&& log[e.log_id.index] == *e
        }
    &&& forall|index: u64| #[trigger]
        log.contains_key(index) && after_start(start, index) && before_end(end, index) ==> exists|
            i: int,
        |
            0 <= i < found.len() && (#[trigger] found[i]).log_id.index == index
}

/// The id of a log's last entry, or `otherwise` where it has none.
pub open spec fn is_last_id<D, M>(
    last: Option<LogId>,
    log: Map<u64, Entry<D, M>>,
    otherwise: Option<LogId>,
) -> bool {
    if log.dom() =~= Set::<u64>::empty() {
        last == otherwise
    } else {
        &&& last matches Some(id) && log.contains_key(id.index) && log[id.index].log_id == id
        &&& forall|i: u64| #[trigger] log.contains_key(i) ==> i <= last->Some_0.index
    }
}

proof fn lemma_by_index<D, M>(entries: Seq<Entry<D, M>>, i: int)
    requires
        rising(entries),
        0 <= i < entries.len(),
    ensures
        by_index(entries).contains_key(entries[i].log_id.index),
        by_index(entries)[entries[i].log_id.index] == entries[i],
{
    let index = entries[i].log_id.index;
    assert(holds_index(entries, index));
    let j = choose|j: int| 0 <= j < entries.len() && (#[trigger] entries[j]).log_id.index == index;
    assert(entries[j].log_id.index == index);
    if j < i {
        assert(entries[j].log_id.index < entries[i].log_id.index);
    } else if i < j {
        assert(entries[i].log_id.index < entries[j].log_id.index);
    }
}

/// An in-memory log with its purge marker, commit marker and vote.
pub struct LogStore<D, M> {
    entries: Vec<Entry<D, M>>,
    last_purged_log_id: Option<LogId>,
    committed: Option<LogId>,
    vote: Option<Vote>,
}

impl<D, M> LogStore<D, M> {
    /// Indices strictly rise.
    pub closed spec fn wf(&self) -> bool {
        rising(self.entries@)
    }

    /// The entries by index.
    pub closed spec fn log(&self) -> Map<u64, Entry<D, M>> {
        by_index(self.entries@)
    }

    pub closed spec fn spec_last_purged(&self) -> Option<LogId> {
        self.last_purged_log_id
    }

    pub closed spec fn spec_committed(&self) -> Option<LogId> {
        self.committed
    }

    pub closed spec fn spec_vote(&self) -> Option<Vote> {
        self.vote
    }

    /// An empty log.
    pub fn new() -> (r: Self)
        ensures
            r.wf(),
            r.log() == Map::<u64, Entry<D, M>>::empty(),
            r.spec_last_purged() == None::<LogId>,
            r.spec_committed() == None::<LogId>,
            r.spec_vote() == None::<Vote>,
    {
        let r = LogStore {
            entries: Vec::new(),
            last_purged_log_id: None,
            committed: None,
            vote: None,
        };
        assert(r.log() =~= Map::<u64, Entry<D, M>>::empty());
        r
    }

    /// The entries within a range, in the order of their indices.
    pub fn try_get_log_entries(&self, start: IndexBound, end: IndexBound) -> (found: Vec<
        &Entry<D, M>,
    >)
        requires
            self.wf(),
        ensures
            in_range(found@, self.log(), start, end),
    {
        let n: usize = self.entries.len();
        let first: usize = self.position(start);
        let mut found: Vec<&Entry<D, M>> = Vec::new();
        let mut i: usize = first;
        while i < n && is_before_end(end, self.entries[i].log_id.index)
            invariant
                self.wf(),
                n == self.entries.len(),
                first <= i <= n,
                found.len() == i - first,
                forall|j: int| 0 <= j < first ==> !after_start(start, (#[trigger] self.entries@[j]).log_id.index),
                forall|j: int| first <= j < n ==> after_start(start, (#[trigger] self.entries@[j]).log_id.index),
                forall|j: int| 0 <= j < found.len() ==> *(#[trigger] found@[j]) == self.entries@[first + j],
                forall|j: int| first <= j < i ==> before_end(end, (#[trigger] self.entries@[j]).log_id.index),
            decreases n - i,
        {
            found.push(&self.entries[i]);
            i += 1;
        }
        proof {
            let es = self.entries@;
            assert forall|j: int| 0 <= j < found@.len() implies {
                let e = #[trigger] found@[j];
                &&& after_start(start, e.log_id.index)
                &&& before_end(end, e.log_id.index)
                &&& self.log().contains_key(e.log_id.index)
                &&& self.log()[e.log_id.index] == *e
            } by {
                assert(*found@[j] == es[first + j]);
                lemma_by_index(es, first + j);
            }
            assert forall|index: u64| #[trigger]
                self.log().contains_key(index) && after_start(start, index) && before_end(
                    end,
                    index,
                ) implies exists|j: int|
                0 <= j < found@.len() && (#[trigger] found@[j]).log_id.index == index by {
                let p = choose|p: int| 0 <= p < es.len() && (#[trigger] es[p]).log_id.index == index;
                assert(es[p].log_id.index == index);
                assert(p >= first);
                if p >= i {
                    assert(!before_end(end, es[i as int].log_id.index));
                    assert(es[i as int].log_id.index <= es[p].log_id.index);
                }
                assert(found@[p - first].log_id.index == index);
            }
        }
        found
    }

    /// How many entries lie before the start of a range.
    fn position(&self, start: IndexBound) -> (at: usize)
        requires
            self.wf(),
        ensures
            at <= self.entries.len(),
            forall|j: int| 0 <= j < at ==> !after_start(start, (#[trigger] self.entries@[j]).log_id.index),
            forall|j: int|
                at <= j < self.entries.len() ==> after_start(
                    start,
                    (#[trigger] self.entries@[j]).log_id.index,
                ),
    {
        let mut lo: usize = 0;
        let mut hi: usize = self.entries.len();
        while lo < hi
            invariant
                self.wf(),
                lo <= hi <= self.entries.len(),
                forall|j: int| 0 <= j < lo ==> !after_start(start, (#[trigger] self.entries@[j]).log_id.index),
                forall|j: int|
                    hi <= j < self.entries.len() ==> after_start(
                        start,
                        (#[trigger] self.entries@[j]).log_id.index,
                    ),
            decreases hi - lo,
        {
            let mid: usize = lo + (hi - lo) / 2;
            if is_after_start(start, self.entries[mid].log_id.index) {
                assert forall|j: int| mid <= j < self.entries.len() implies after_start(
                    start,
                    (#[trigger] self.entries@[j]).log_id.index,
                ) by {
                    assert(self.entries@[mid as int].log_id.index <= self.entries@[j].log_id.index);
                }
                hi = mid;
            } else {
                assert forall|j: int| 0 <= j <= mid implies !after_start(
                    start,
                    (#[trigger] self.entries@[j]).log_id.index,
                ) by {
                    assert(self.entries@[j].log_id.index <= self.entries@[mid as int].log_id.index);
                }
                lo = mid + 1;
            }
        }
        lo
    }

    /// Where the log begins and ends: the last entry's id, or the purge marker where the log holds
    /// no entry.
    pub fn get_log_state(&self) -> (r: LogState)
        requires
            self.wf(),
        ensures
            r.last_purged_log_id == self.spec_last_purged(),
            is_last_id(r.last_log_id, self.log(), self.spec_last_purged()),
    {
        let n: usize = self.entries.len();
        let last = if n == 0 {
            assert(self.log().dom() =~= Set::<u64>::empty());
            self.last_purged_log_id
        } else {
            proof {
                let es = self.entries@;
                lemma_by_index(es, n - 1);
                assert forall|i: u64| #[trigger] self.log().contains_key(i) implies i <= es[n
                    - 1].log_id.index by {
                    let p = choose|p: int| 0 <= p < es.len() && (#[trigger] es[p]).log_id.index == i;
                    assert(es[p].log_id.index == i);
                }
                assert(self.log().dom().contains(es[n - 1].log_id.index));
            }
            Some(self.entries[n - 1].log_id)
        };
        LogState { last_purged_log_id: self.last_purged_log_id, last_log_id: last }
    }

    pub fn save_committed(&mut self, committed: Option<LogId>)
        requires
            old(self).wf(),
        ensures
            final(self).wf(),
            final(self).spec_committed() == committed,
            final(self).log() == old(self).log(),
            final(self).spec_last_purged() == old(self).spec_last_purged(),
            final(self).spec_vote() == old(self).spec_vote(),
    {
        self.committed = committed;
    }

    pub fn read_committed(&self) -> (r: Option<LogId>)
        ensures
            r == self.spec_committed(),
    {
        self.committed
    }

    pub fn save_vote(&mut self, vote: &Vote)
        requires
            old(self).wf(),
        ensures
            final(self).wf(),
            final(self).spec_vote() == Some(*vote),
            final(self).log() == old(self).log(),
            final(self).spec_last_purged() == old(self).spec_last_purged(),
            final(self).spec_committed() == old(self).spec_committed(),
    {
        self.vote = Some(*vote);
    }

    pub fn read_vote(&self) -> (r: Option<Vote>)
        ensures
            r == self.spec_vote(),
    {
        self.vote
    }

    /// Writes one entry at its index.
    fn write(&mut self, entry: Entry<D, M>)
        requires
            old(self).wf(),
        ensures
            final(self).wf(),
            final(self).log() == old(self).log().insert(entry.log_id.index, entry),
            final(self).spec_last_purged() == old(self).spec_last_purged(),
            final(self).spec_committed() == old(self).spec_committed(),
            final(self).spec_vote() == old(self).spec_vote(),
    {
        let index: u64 = entry.log_id.index;
        let at: usize = self.position(IndexBound::Included(index));
        let ghost before = self.entries@;
        if at < self.entries.len() && self.entries[at].log_id.index == index {
            self.entries.set(at, entry);
        } else {
            self.entries.insert(at, entry);
        }
        proof {
            let es = self.entries@;
            let replaced = es.len() == before.len();
            assert forall|j: int| 0 <= j < before.len() && before[j].log_id.index != index implies {
                &&& holds_index(es, (#[trigger] before[j]).log_id.index)
                &&& by_index(es)[before[j].log_id.index] == before[j]
            } by {
                let k = if replaced || j < at {
                    j
                } else {
                    j + 1
                };
                assert(es[k] == before[j]);
                lemma_by_index(es, k);
            }
            assert(es[at as int] == entry);
            lemma_by_index(es, at as int);
            let want = by_index(before).insert(index, entry);
            assert forall|i: u64| #[trigger] by_index(es).contains_key(i) implies want.contains_key(
                i,
            ) by {
                let k = choose|k: int| 0 <= k < es.len() && (#[trigger] es[k]).log_id.index == i;
                assert(es[k].log_id.index == i);
                if k != at {
                    let j = if replaced || k < at {
                        k
                    } else {
                        k - 1
                    };
                    assert(es[k] == before[j]);
                    assert(holds_index(before, i));
                }
            }
            assert forall|i: u64| #[trigger] want.contains_key(i) implies by_index(es).contains_key(i)
                && by_index(es)[i] == want[i] by {
                if i != index {
                    let j = choose|j: int|
                        0 <= j < before.len() && (#[trigger] before[j]).log_id.index == i;
                    assert(before[j].log_id.index == i);
                    lemma_by_index(before, j);
                    assert(holds_index(es, before[j].log_id.index));
                }
            }
            assert(by_index(es) =~= want);
        }
    }

    /// Writes entries at their indices, in order, each in place of one that was there.
    pub fn append(&mut self, entries: Vec<Entry<D, M>>)
        requires
            old(self).wf(),
        ensures
            final(self).wf(),
            final(self).log() == written(old(self).log(), entries@),
            final(self).spec_last_purged() == old(self).spec_last_purged(),
            final(self).spec_committed() == old(self).spec_committed(),
            final(self).spec_vote() == old(self).spec_vote(),
    {
        let ghost start = *self;
        let ghost all = entries@;
        for entry in it: entries
            invariant
                it.seq() == all,
                self.wf(),
                self.log() == written(start.log(), all.take(it.index())),
                self.spec_last_purged() == start.spec_last_purged(),
                self.spec_committed() == start.spec_committed(),
                self.spec_vote() == start.spec_vote(),
        {
            assert(all.take(it.index() + 1).drop_last() =~= all.take(it.index()));
            self.write(entry);
        }
        assert(all.take(all.len() as int) =~= all);
    }

    /// Removes the entries from an index on.
    pub fn truncate(&mut self, log_id: LogId)
        requires
            old(self).wf(),
        ensures
            final(self).wf(),
            final(self).log() == below(old(self).log(), log_id.index),
            final(self).spec_last_purged() == old(self).spec_last_purged(),
            final(self).spec_committed() == old(self).spec_committed(),
            final(self).spec_vote() == old(self).spec_vote(),
    {
        let at: usize = self.position(IndexBound::Included(log_id.index));
        let ghost before = self.entries@;
        self.entries.truncate(at);
        proof {
            lemma_part(before, self.entries@, 0, at as int);
            assert forall|j: int| 0 <= j < before.len() implies ((#[trigger] before[j]).log_id.index
                < log_id.index <==> j < at) by {}
            assert(self.log() =~= below(by_index(before), log_id.index));
        }
    }

    /// Removes the entries up to and including an index and remembers the last id removed.
    pub fn purge(&mut self, log_id: LogId)
        requires
            old(self).wf(),
        ensures
            final(self).wf(),
            final(self).log() == above(old(self).log(), log_id.index),
            final(self).spec_last_purged() == Some(log_id),
            final(self).spec_committed() == old(self).spec_committed(),
            final(self).spec_vote() == old(self).spec_vote(),
    {
        self.last_purged_log_id = Some(log_id);
        let at: usize = self.position(IndexBound::Excluded(log_id.index));
        let ghost before = self.entries@;
        let kept = self.entries.split_off(at);
        self.entries = kept;
        proof {
            lemma_part(before, self.entries@, at as int, before.len() as int);
            assert forall|j: int| 0 <= j < before.len() implies ((#[trigger] before[j]).log_id.index
                > log_id.index <==> j >= at) by {}
            assert(self.log() =~= above(by_index(before), log_id.index));
        }
    }
}

impl<D, M> Default for LogStore<D, M> {
    /// An empty log.
    fn default() -> (r: Self)
        ensures
            r.wf(),
            r.log() == Map::<u64, Entry<D, M>>::empty(),
            r.spec_last_purged() == None::<LogId>,
            r.spec_committed() == None::<LogId>,
            r.spec_vote() == None::<Vote>,
    {
        Self::new()
    }
}

/// A contiguous part of a log holds, by index, what the whole holds at the part's indices.
proof fn lemma_part<D, M>(whole: Seq<Entry<D, M>>, part: Seq<Entry<D, M>>, from: int, to: int)
    requires
        rising(whole),
        0 <= from <= to <= whole.len(),
        part == whole.subrange(from, to),
    ensures
        rising(part),
        forall|index: u64| #[trigger]
            by_index(part).contains_key(index) ==> by_index(whole).contains_key(index)
                && by_index(part)[index] == by_index(whole)[index] && exists|j: int|
                from <= j < to && (#[trigger] whole[j]).log_id.index == index,
        forall|j: int|
            from <= j < to ==> by_index(part).contains_key((#[trigger] whole[j]).log_id.index),
        forall|index: u64| #[trigger]
            by_index(whole).contains_key(index) ==> exists|j: int|
                0 <= j < whole.len() && (#[trigger] whole[j]).log_id.index == index,
{
    assert(rising(part)) by {
        assert forall|i: int, j: int| 0 <= i < j < part.len() implies (
        #[trigger] part[i]).log_id.index < (#[trigger] part[j]).log_id.index by {
            assert(part[i] == whole[from + i] && part[j] == whole[from + j]);
        }
    }
    assert forall|index: u64| #[trigger] by_index(part).contains_key(index) implies by_index(
        whole,
    ).contains_key(index) && by_index(part)[index] == by_index(whole)[index] && exists|j: int|
        from <= j < to && (#[trigger] whole[j]).log_id.index == index by {
        let p = choose|p: int| 0 <= p < part.len() && (#[trigger] part[p]).log_id.index == index;
        assert(part[p].log_id.index == index);
        assert(part[p] == whole[from + p]);
        lemma_by_index(part, p);
        lemma_by_index(whole, from + p);
    }
    assert forall|j: int| from <= j < to implies by_index(part).contains_key(
        (#[trigger] whole[j]).log_id.index,
    ) by {
        assert(part[j - from] == whole[j]);
        lemma_by_index(part, j - from);
    }
}

/// The last entry written at an index.
pub open spec fn last_at<D, M>(entries: Seq<Entry<D, M>>, index: u64) -> Option<Entry<D, M>>
    decreases entries.len(),
{
    if entries.len() == 0 {
        None
    } else if entries.last().log_id.index == index {
        Some(entries.last())
    } else {
        last_at(entries.drop_last(), index)
    }
}

/// What is read at an index is what was appended there last; every other index keeps its entry.
pub proof fn appended_entries_are_read_back<D, M>(
    log: Map<u64, Entry<D, M>>,
    entries: Seq<Entry<D, M>>,
    index: u64,
)
    ensures
        match last_at(entries, index) {
            Some(entry) => written(log, entries).contains_key(index) && written(log, entries)[index]
                == entry,
            None => written(log, entries).contains_key(index) == log.contains_key(index) && written(
                log,
                entries,
            )[index] == log[index],
        },
    decreases entries.len(),
{
    if entries.len() > 0 {
        appended_entries_are_read_back(log, entries.drop_last(), index);
    }
}

/// Purging does not move the end of the log: the last id stays what it was, also where every
/// entry is purged.
pub proof fn purging_keeps_the_end<D, M>(
    log: Map<u64, Entry<D, M>>,
    last: Option<LogId>,
    purged_before: Option<LogId>,
    purged: LogId,
)
    requires
        is_last_id(last, log, purged_before),
        log.contains_key(purged.index),
        log[purged.index].log_id == purged,
    ensures
        is_last_id(last, above(log, purged.index), Some(purged)),
{
    assert(log.dom().contains(purged.index));
    let end = last->Some_0;
    let rest = above(log, purged.index);
    if purged.index == end.index {
        assert(rest.dom() =~= Set::<u64>::empty());
    } else {
        assert(rest.dom().contains(end.index));
    }
}

/// A replica that truncates its log from an index on and appends other entries there holds those
/// entries, and below the index what it held before.
pub proof fn conflicting_entries_are_replaced<D, M>(
    log: Map<u64, Entry<D, M>>,
    from: u64,
    entries: Seq<Entry<D, M>>,
    index: u64,
)
    requires
        forall|i: int| 0 <= i < entries.len() ==> (#[trigger] entries[i]).log_id.index >= from,
    ensures
        ({
            let after = written(below(log, from), entries);
            &&& index < from ==> after.contains_key(index) == log.contains_key(index) && (
            log.contains_key(index) ==> after[index] == log[index])
            &&& index >= from ==> (after.contains_key(index) <==> last_at(entries, index) is Some)
            &&& last_at(entries, index) matches Some(entry) ==> after[index] == entry
        }),
{
    appended_entries_are_read_back(below(log, from), entries, index);
    lemma_last_at(entries, index);
}

proof fn lemma_last_at<D, M>(entries: Seq<Entry<D, M>>, index: u64)
    ensures
        last_at(entries, index) is Some ==> exists|i: int|
            0 <= i < entries.len() && (#[trigger] entries[i]).log_id.index == index,
    decreases entries.len(),
{
    if entries.len() > 0 {
        if entries.last().log_id.index == index {
            assert(entries[entries.len() - 1].log_id.index == index);
        } else {
            lemma_last_at(entries.drop_last(), index);
            if last_at(entries, index) is Some {
                let i = choose|i: int|
                    0 <= i < entries.len() - 1 && (
                    #[trigger] entries.drop_last()[i]).log_id.index == index;
                assert(entries.drop_last()[i].log_id.index == index);
                assert(entries[i].log_id.index == index);
            }
        }
    }
}

/// Of the entries appended at one index the last stays, in place of what was there; an index that
/// none of them has keeps its entry.
pub proof fn last_entries_stay<D, M>(
    log: Map<u64, Entry<D, M>>,
    entries: Seq<Entry<D, M>>,
    index: u64,
    i: int,
)
    ensures
        0 <= i < entries.len() && entries[i].log_id.index == index && (forall|j: int|
            i < j < entries.len() ==> (#[trigger] entries[j]).log_id.index != index) ==> written(
            log,
            entries,
        ).contains_key(index) && written(log, entries)[index] == entries[i],
        (forall|j: int| 0 <= j < entries.len() ==> (#[trigger] entries[j]).log_id.index != index)
            ==> written(log, entries).contains_key(index) == log.contains_key(index) && (
        log.contains_key(index) ==> written(log, entries)[index] == log[index]),
    decreases entries.len(),
{
    if entries.len() > 0 {
        let before = entries.drop_last();
        let last = entries.len() - 1;
        last_entries_stay(log, before, index, i);
        assert(entries[last] == entries.last());
        assert forall|j: int| 0 <= j < before.len() implies before[j] == entries[j] by {}
        if (0 <= i < last && entries[i].log_id.index == index && forall|j: int|
            i < j < entries.len() ==> (#[trigger] entries[j]).log_id.index != index) {
            assert(entries[last].log_id.index != index);
            assert(forall|j: int|
                i < j < before.len() ==> (#[trigger] before[j]).log_id.index != index);
        }
        if forall|j: int| 0 <= j < entries.len() ==> (#[trigger] entries[j]).log_id.index != index {
            assert(entries[last].log_id.index != index);
            assert(forall|j: int|
                0 <= j < before.len() ==> (#[trigger] before[j]).log_id.index != index);
        }
    }
}

/// Truncating and purging cut a log in two at an index: what lies below it, what lies above it, and
/// the entry at it, each unchanged.
pub proof fn logs_are_cut_at_an_index<D, M>(log: Map<u64, Entry<D, M>>, at: u64, index: u64)
    ensures
        below(log, at).contains_key(index) <==> log.contains_key(index) && index < at,
        above(log, at).contains_key(index) <==> log.contains_key(index) && at < index,
        below(log, at).contains_key(index) ==> below(log, at)[index] == log[index],
        above(log, at).contains_key(index) ==> above(log, at)[index] == log[index],
{
}

/// Reading a range finds each entry in it, once, and no other, in the order of the indices.
pub proof fn ranges_are_read_whole<D, M>(
    found: Seq<&Entry<D, M>>,
    log: Map<u64, Entry<D, M>>,
    start: IndexBound,
    end: IndexBound,
    index: u64,
)
    requires
        in_range(found, log, start, end),
    ensures
        forall|i: int, j: int|
            0 <= i < j < found.len() ==> (#[trigger] found[i]).log_id.index < (
            #[trigger] found[j]).log_id.index,
        forall|i: int|
            0 <= i < found.len() ==> log.contains_key((#[trigger] found[i]).log_id.index)
                && log[found[i].log_id.index] == *found[i],
        (exists|i: int| 0 <= i < found.len() && (#[trigger] found[i]).log_id.index == index) <==> (
        log.contains_key(index) && (match start {
            IndexBound::Included(low) => low <= index,
            IndexBound::Excluded(low) => low < index,
            IndexBound::Unbounded => true,
        }) && (match end {
            IndexBound::Included(high) => index <= high,
            IndexBound::Excluded(high) => index < high,
            IndexBound::Unbounded => true,
        })),
{
    if exists|i: int| 0 <= i < found.len() && (#[trigger] found[i]).log_id.index == index {
        let i = choose|i: int| 0 <= i < found.len() && (#[trigger] found[i]).log_id.index == index;
        assert(found[i].log_id.index == index);
    }
}

/// The last id is that of the entry with the greatest index; a log without entries has the id
/// handed in for that case, and only such a log has.
pub proof fn the_last_id_is_the_greatest<D, M>(
    last: Option<LogId>,
    log: Map<u64, Entry<D, M>>,
    otherwise: Option<LogId>,
    index: u64,
)
    requires
        is_last_id(last, log, otherwise),
    ensures
        log.contains_key(index) ==> (last matches Some(id) && index <= id.index
            && log.contains_key(id.index) && log[id.index].log_id == id),
        (forall|i: u64| !#[trigger] log.contains_key(i)) ==> last == otherwise,
{
    if log.contains_key(index) {
        assert(log.dom().contains(index));
    }
    if forall|i: u64| !#[trigger] log.contains_key(i) {
        assert(log.dom() =~= Set::<u64>::empty());
    }
}

} // verus!
