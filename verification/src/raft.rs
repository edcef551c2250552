//! The replicated state machine of a shard.
//!
//! Every replica of a shard applies the same committed entries to a [`Store`]. Collections are
//! created on every replica outside the log; only changes of vectors are replicated.

use crate::collection::CollectionView;
use crate::log::{Entry, LogId, Payload};
use crate::record::{RecordView, VectorRecord};
use crate::store::{Store, StoreSnapshot};
use vstd::prelude::*;

verus! {

/// A replicated change of a collection's vectors.
#[derive(Debug)]
pub enum ShardCommand {
    Upsert { collection: String, records: Vec<VectorRecord> },
    Delete { collection: String, ids: Vec<u64> },
}

/// A [`ShardCommand`] as mathematical values.
pub enum CommandView {
    Upsert { collection: Seq<char>, records: Seq<RecordView> },
    Delete { collection: Seq<char>, ids: Seq<u64> },
}

impl View for ShardCommand {
    type V = CommandView;

    open spec fn view(&self) -> CommandView {
        match self {
            ShardCommand::Upsert { collection, records } => CommandView::Upsert {
                collection: collection@,
                records: crate::collection::record_views(records@),
            },
            ShardCommand::Delete { collection, ids } => CommandView::Delete {
                collection: collection@,
                ids: ids@,
            },
        }
    }
}

/// What applying an entry answers: whether it held a command that the store took.
#[derive(Debug, Clone, Copy, PartialEq, Eq, Structural)]
pub struct ShardCommandResponse {
    pub applied: bool,
}

/// The membership in force, with the entry that set it. A machine that has seen no membership
/// entry holds neither.
#[derive(Debug)]
pub struct StoredMembership<M> {
    pub log_id: Option<LogId>,
    pub membership: Option<M>,
}

/// The state of a replica, as mathematical values.
#[verifier::ext_equal]
pub struct MachineView<M> {
    pub store: Map<Seq<char>, CollectionView>,
    pub last_applied: Option<LogId>,
    pub last_membership: StoredMembership<M>,
}

/// The store after a command. A command that the store refuses changes nothing.
pub open spec fn commanded(
    store: Map<Seq<char>, CollectionView>,
    command: CommandView,
) -> Map<Seq<char>, CollectionView> {
    let outcome = match command {
        CommandView::Upsert { collection, records } => crate::collection::insertion(
            store,
            collection,
            records,
        ),
        CommandView::Delete { collection, ids } => crate::collection::deletion(
            store,
            collection,
            ids.to_set(),
        ),
    };
    match outcome {
        Ok(after) => after,
        Err(_) => store,
    }
}

/// Whether a store takes a command.
pub open spec fn accepted(store: Map<Seq<char>, CollectionView>, command: CommandView) -> bool {
    match command {
        CommandView::Upsert { collection, records } => crate::collection::insertion(
            store,
            collection,
            records,
        ) is Ok,
        CommandView::Delete { collection, ids } => crate::collection::deletion(
            store,
            collection,
            ids.to_set(),
        ) is Ok,
    }
}

/// Entries with their commands as mathematical values.
pub open spec fn entry_view<M>(entry: Entry<ShardCommand, M>) -> Entry<CommandView, M> {
    Entry {
        log_id: entry.log_id,
        payload: match entry.payload {
            Payload::Blank => Payload::Blank,
            Payload::Normal(command) => Payload::Normal(command@),
            Payload::Membership(membership) => Payload::Membership(membership),
        },
    }
}

/// The views of entries in a list.
pub open spec fn entry_views<M>(entries: Seq<Entry<ShardCommand, M>>) -> Seq<
    Entry<CommandView, M>,
> {
    Seq::new(entries.len(), |i: int| entry_view(entries[i]))
}

/// The state after one entry.
pub open spec fn stepped<M>(state: MachineView<M>, entry: Entry<CommandView, M>) -> MachineView<
    M,
> {
    MachineView {
        store: match entry.payload {
            Payload::Normal(command) => commanded(state.store, command),
            _ => state.store,
        },
        last_applied: Some(entry.log_id),
        last_membership: match entry.payload {
            Payload::Membership(membership) => StoredMembership {
                log_id: Some(entry.log_id),
                membership: Some(membership),
            },
            _ => state.last_membership,
        },
    }
}

/// The answer to one entry.
pub open spec fn answer<M>(
    state: MachineView<M>,
    entry: Entry<CommandView, M>,
) -> ShardCommandResponse {
    ShardCommandResponse {
        applied: match entry.payload {
            Payload::Normal(command) => accepted(state.store, command),
            _ => false,
        },
    }
}

/// The state after entries, applied in order.
pub open spec fn applied<M>(
    state: MachineView<M>,
    entries: Seq<Entry<CommandView, M>>,
) -> MachineView<M>
    decreases entries.len(),
{
    if entries.len() == 0 {
        state
    } else {
        stepped(applied(state, entries.drop_last()), entries.last())
    }
}

/// The answers to entries, applied in order.
pub open spec fn answers<M>(
    state: MachineView<M>,
    entries: Seq<Entry<CommandView, M>>,
) -> Seq<ShardCommandResponse> {
    Seq::new(entries.len(), |i: int| answer(applied(state, entries.take(i)), entries[i]))
}

/// A snapshot of a replica: how far it had applied the log, the membership then in force, the
/// snapshot's name, and everything that its store held.
pub struct MachineSnapshot<'a, M> {
    pub last_log_id: Option<LogId>,
    pub last_membership: &'a StoredMembership<M>,
    pub snapshot_id: String,
    pub store: StoreSnapshot,
}

/// The parts of a log id: term, node and index.
pub open spec fn id_parts(id: Option<LogId>) -> Option<(u64, u64, u64)> {
    match id {
        Some(id) => Some((id.term, id.node_id, id.index)),
        None => None,
    }
}

/// The debug text of an optional log id of openraft, given by term, node and index.
pub uninterp spec fn snapshot_text(last: Option<(u64, u64, u64)>) -> Seq<char>;

/// Formats an optional log id as openraft's `LogId` shows it when debugged. The text depends on
/// term, node and index alone.
#[verifier::external_body]
fn debug_text(last: Option<(u64, u64, u64)>) -> (r: String)
    ensures
        r@ == snapshot_text(last),
{
    let id: Option<openraft::LogId<u64>> = last.map(
        |(term, node_id, index)|
            openraft::LogId::new(openraft::CommittedLeaderId::new(term, node_id), index),
    );
    format!("{id:?}")
}

/// The name of a snapshot taken after an entry.
pub fn snapshot_id(last: Option<LogId>) -> (r: String)
    ensures
        r@ == snapshot_text(id_parts(last)),
{
    match last {
        Some(id) => debug_text(Some((id.term, id.node_id, id.index))),
        None => debug_text(None),
    }
}

/// One replica's state.
pub struct ShardStateMachine<A, Q, M> {
    pub store: Store<A, Q>,
    pub last_applied_log: Option<LogId>,
    pub last_membership: StoredMembership<M>,
}

impl<A, Q, M> View for ShardStateMachine<A, Q, M> {
    type V = MachineView<M>;

    open spec fn view(&self) -> MachineView<M> {
        MachineView {
            store: self.store@,
            last_applied: self.last_applied_log,
            last_membership: self.last_membership,
        }
    }
}

impl<A: Fn(u32, u32, u32) -> u32, Q: Fn(u32, u32, u32) -> u32, M> ShardStateMachine<A, Q, M> {
    pub open spec fn wf(&self) -> bool {
        self.store.wf()
    }

    /// A machine over a store, that has applied nothing.
    pub fn new(store: Store<A, Q>) -> (r: Self)
        requires
            store.wf(),
        ensures
            r.wf(),
            r.store == store,
            r@ == (MachineView::<M> {
                store: store@,
                last_applied: None,
                last_membership: StoredMembership { log_id: None, membership: None },
            }),
    {
        ShardStateMachine {
            store,
            last_applied_log: None,
            last_membership: StoredMembership { log_id: None, membership: None },
        }
    }

    /// How far the log is applied, and the membership in force.
    pub fn applied_state(&self) -> (r: (Option<LogId>, &StoredMembership<M>))
        ensures
            r.0 == self@.last_applied,
            *r.1 == self@.last_membership,
    {
        (self.last_applied_log, &self.last_membership)
    }

    /// Runs a command on the store and tells whether the store took it.
    fn run(&mut self, command: ShardCommand) -> (r: bool)
        requires
            old(self).wf(),
        ensures
            final(self).wf(),
            final(self).store.kernel() == old(self).store.kernel(),
            final(self).store@ == commanded(old(self).store@, command@),
            final(self).last_applied_log == old(self).last_applied_log,
            final(self).last_membership == old(self).last_membership,
            r == accepted(old(self).store@, command@),
    {
        match command {
            ShardCommand::Upsert { collection, records } => {
                self.store.insert(collection.as_str(), records).is_ok()
            },
            ShardCommand::Delete { collection, ids } => {
                self.store.delete(collection.as_str(), ids.as_slice()).is_ok()
            },
        }
    }

    /// Applies committed entries in order and answers each. A command that the store refuses is
    /// answered as not applied, on every replica alike, and changes nothing.
    pub fn apply(&mut self, entries: Vec<Entry<ShardCommand, M>>) -> (r: Vec<ShardCommandResponse>)
        requires
            old(self).wf(),
        ensures
            final(self).wf(),
            final(self).store.kernel() == old(self).store.kernel(),
            final(self)@ == applied(old(self)@, entry_views(entries@)),
            r@ == answers(old(self)@, entry_views(entries@)),
    {
        let ghost start = *self;
        let ghost list = entries@;
        let ghost all = entry_views(entries@);
        let mut r: Vec<ShardCommandResponse> = Vec::new();
        for entry in it: entries
            invariant
                it.seq() == list,
                all == entry_views(list),
                self.wf(),
                self.store.kernel() == start.store.kernel(),
                self@ == applied(start@, all.take(it.index())),
                r.len() == it.index(),
                forall|i: int| 0 <= i < r.len() ==> #[trigger] r@[i] == answers(start@, all)[i],
        {
            assert(all.take(it.index() + 1).drop_last() =~= all.take(it.index()));
            assert(all.take(it.index() + 1).last() == entry_view(entry));
            let log_id = entry.log_id;
            self.last_applied_log = Some(log_id);
            match entry.payload {
                Payload::Blank => {
                    r.push(ShardCommandResponse { applied: false });
                },
                Payload::Normal(command) => {
                    let applied = self.run(command);
                    r.push(ShardCommandResponse { applied });
                },
                Payload::Membership(membership) => {
                    self.last_membership = StoredMembership {
                        log_id: Some(log_id),
                        membership: Some(membership),
                    };
                    r.push(ShardCommandResponse { applied: false });
                },
            }
        }
        assert(all.take(all.len() as int) =~= all);
        assert(r@ =~= answers(start@, all));
        r
    }

    /// A snapshot of the machine.
    pub fn build_snapshot(&self) -> (r: MachineSnapshot<'_, M>)
        requires
            self.wf(),
        ensures
            r.last_log_id == self@.last_applied,
            *r.last_membership == self@.last_membership,
            r.snapshot_id@ == snapshot_text(id_parts(self@.last_applied)),
            crate::store::restored(r.store.collections@) == self@.store,
            crate::store::each_once(r.store.collections@),
    {
        MachineSnapshot {
            last_log_id: self.last_applied_log,
            last_membership: &self.last_membership,
            snapshot_id: snapshot_id(self.last_applied_log),
            store: self.store.snapshot(),
        }
    }

    /// Replaces the machine's state by that of a snapshot.
    pub fn install_snapshot(
        &mut self,
        last_log_id: Option<LogId>,
        last_membership: StoredMembership<M>,
        store: StoreSnapshot,
    )
        requires
            old(self).wf(),
        ensures
            final(self).wf(),
            final(self).store.kernel() == old(self).store.kernel(),
            final(self)@ == (MachineView {
                store: crate::store::restored(store.collections@),
                last_applied: last_log_id,
                last_membership,
            }),
    {
        self.store.restore(store);
        self.last_applied_log = last_log_id;
        self.last_membership = last_membership;
    }
}

/// Batches do not matter: applying two lists of entries one after the other leaves a replica in
/// the state, and gives the answers, that applying them together does. So replicas that start
/// alike and apply the same log agree, however the log reached each of them.
pub proof fn batches_do_not_matter<M>(
    state: MachineView<M>,
    first: Seq<Entry<CommandView, M>>,
    second: Seq<Entry<CommandView, M>>,
)
    ensures
        applied(applied(state, first), second) == applied(state, first + second),
        answers(state, first) + answers(applied(state, first), second) == answers(
            state,
            first + second,
        ),
{
    let both = first + second;
    lemma_applied_in_two(state, first, second);
    let left = answers(state, first) + answers(applied(state, first), second);
    assert forall|i: int| 0 <= i < both.len() implies left[i] == #[trigger] answers(
        state,
        both,
    )[i] by {
        if i < first.len() {
            assert(both.take(i) =~= first.take(i));
        } else {
            let j = i - first.len();
            assert(both.take(i) =~= first + second.take(j));
            lemma_applied_in_two(state, first, second.take(j));
        }
    }
    assert(left =~= answers(state, both));
}

proof fn lemma_applied_in_two<M>(
    state: MachineView<M>,
    first: Seq<Entry<CommandView, M>>,
    second: Seq<Entry<CommandView, M>>,
)
    ensures
        applied(applied(state, first), second) == applied(state, first + second),
    decreases second.len(),
{
    if second.len() == 0 {
        assert(first + second =~= first);
    } else {
        lemma_applied_in_two(state, first, second.drop_last());
        assert((first + second).drop_last() =~= first + second.drop_last());
    }
}

/// Catching up from a snapshot is catching up from the log: a replica that installs a snapshot
/// taken after some entries and then applies the rest is in the state of one that applied them
/// all.
pub proof fn snapshot_stands_for_the_log<M>(
    state: MachineView<M>,
    first: Seq<Entry<CommandView, M>>,
    rest: Seq<Entry<CommandView, M>>,
    last_log_id: Option<LogId>,
    last_membership: StoredMembership<M>,
    store: Seq<crate::store::CollectionSnapshot>,
)
    requires
        last_log_id == applied(state, first).last_applied,
        last_membership == applied(state, first).last_membership,
        crate::store::restored(store) == applied(state, first).store,
    ensures
        applied(
            MachineView {
                store: crate::store::restored(store),
                last_applied: last_log_id,
                last_membership,
            },
            rest,
        ) == applied(state, first + rest),
{
    lemma_applied_in_two(state, first, rest);
}

/// A write that is answered as applied is stored: each id among its records holds the last of them
/// with that id. A command that is not leaves the store as it is.
pub proof fn applied_writes_are_stored<M>(
    state: MachineView<M>,
    entry: Entry<CommandView, M>,
    collection: Seq<char>,
    records: Seq<RecordView>,
    id: u64,
)
    requires
        entry.payload == Payload::<CommandView, M>::Normal(
            CommandView::Upsert { collection, records },
        ),
    ensures
        answer(state, entry).applied && crate::collection::last_with(records, id) is Some
            ==> stepped(state, entry).store.contains_key(collection) && stepped(
            state,
            entry,
        ).store[collection].records.contains_key(id) && stepped(
            state,
            entry,
        ).store[collection].records[id] == crate::collection::last_with(records, id)->Some_0,
        !answer(state, entry).applied ==> stepped(state, entry).store == state.store,
{
    if answer(state, entry).applied {
        crate::collection::writes_are_read_back(state.store[collection].records, records, id);
    }
}

/// Whether an entry writes or deletes a record.
pub open spec fn touches<M>(
    entry: Entry<CommandView, M>,
    collection: Seq<char>,
    id: u64,
) -> bool {
    match entry.payload {
        Payload::Normal(CommandView::Upsert { collection: c, records }) => c == collection
            && crate::collection::last_with(records, id) is Some,
        Payload::Normal(CommandView::Delete { collection: c, ids }) => c == collection
            && ids.contains(id),
        _ => false,
    }
}

/// A stored record is not lost: whatever entries follow, it stays as it is unless one of them
/// writes or deletes it.
pub proof fn records_are_not_lost<M>(
    state: MachineView<M>,
    entries: Seq<Entry<CommandView, M>>,
    collection: Seq<char>,
    id: u64,
)
    requires
        state.store.contains_key(collection),
        state.store[collection].records.contains_key(id),
        forall|i: int| 0 <= i < entries.len() ==> !touches(#[trigger] entries[i], collection, id),
    ensures
        applied(state, entries).store.contains_key(collection),
        applied(state, entries).store[collection].records.contains_key(id),
        applied(state, entries).store[collection].records[id]
            == state.store[collection].records[id],
    decreases entries.len(),
{
    if entries.len() > 0 {
        let before = entries.drop_last();
        let last = entries.last();
        assert forall|i: int| 0 <= i < before.len() implies !touches(
            #[trigger] before[i],
            collection,
            id,
        ) by {
            assert(before[i] == entries[i]);
        }
        records_are_not_lost(state, before, collection, id);
        assert(!touches(entries[entries.len() - 1], collection, id));
        let now = applied(state, before);
        match last.payload {
            Payload::Normal(CommandView::Upsert { collection: c, records }) => {
                if c == collection {
                    crate::collection::writes_are_read_back(
                        now.store[collection].records,
                        records,
                        id,
                    );
                }
            },
            _ => {},
        }
    }
}

/// A record that is not held does not come back: whatever entries follow, its collection exists or
/// not as before and does not hold it, unless one of them writes or deletes it.
pub proof fn records_do_not_come_back<M>(
    state: MachineView<M>,
    entries: Seq<Entry<CommandView, M>>,
    collection: Seq<char>,
    id: u64,
)
    requires
        !(state.store.contains_key(collection)
            && state.store[collection].records.contains_key(id)),
        forall|i: int| 0 <= i < entries.len() ==> !touches(#[trigger] entries[i], collection, id),
    ensures
        applied(state, entries).store.contains_key(collection) == state.store.contains_key(
            collection,
        ),
        !(applied(state, entries).store.contains_key(collection) && applied(
            state,
            entries,
        ).store[collection].records.contains_key(id)),
    decreases entries.len(),
{
    if entries.len() > 0 {
        let before = entries.drop_last();
        let last = entries.last();
        assert forall|i: int| 0 <= i < before.len() implies !touches(
            #[trigger] before[i],
            collection,
            id,
        ) by {
            assert(before[i] == entries[i]);
        }
        records_do_not_come_back(state, before, collection, id);
        assert(!touches(entries[entries.len() - 1], collection, id));
        let now = applied(state, before);
        match last.payload {
            Payload::Normal(CommandView::Upsert { collection: c, records }) => {
                if c == collection {
                    crate::collection::writes_are_read_back(
                        now.store[collection].records,
                        records,
                        id,
                    );
                }
            },
            _ => {},
        }
    }
}

/// Nothing of a command, an entry or a machine is left out of what it is taken to hold.
pub proof fn commands_show_everything<A, Q, M>(
    command: ShardCommand,
    entry: Entry<ShardCommand, M>,
    entries: Seq<Entry<ShardCommand, M>>,
    i: int,
    machine: ShardStateMachine<A, Q, M>,
)
    ensures
        match command {
            ShardCommand::Upsert { collection, records } => {
                command@ matches CommandView::Upsert { collection: c, records: r } && c
                    == collection@ && r.len() == records@.len() && (forall|j: int|
                    0 <= j < r.len() ==> #[trigger] r[j] == records@[j]@)
            },
            ShardCommand::Delete { collection, ids } => {
                command@ matches CommandView::Delete { collection: c, ids: d } && c == collection@
                    && d == ids@
            },
        },
        entry_view(entry).log_id == entry.log_id,
        match entry.payload {
            Payload::Blank => entry_view(entry).payload is Blank,
            Payload::Normal(c) => entry_view(entry).payload == Payload::<CommandView, M>::Normal(
                c@,
            ),
            Payload::Membership(m) => entry_view(entry).payload == Payload::<
                CommandView,
                M,
            >::Membership(m),
        },
        entry_views(entries).len() == entries.len(),
        0 <= i < entries.len() ==> entry_views(entries)[i] == entry_view(entries[i]),
        machine@.store == machine.store@,
        machine@.last_applied == machine.last_applied_log,
        machine@.last_membership == machine.last_membership,
{
}

/// Entries take effect one by one, in order. Each is remembered as the last applied. A membership
/// entry sets the membership and nothing else does. A command that the store takes leaves the store
/// as that request does, and is answered as applied; any other entry leaves the store as it is, and
/// is not.
pub proof fn entries_take_effect_one_by_one<M>(
    state: MachineView<M>,
    entries: Seq<Entry<CommandView, M>>,
    entry: Entry<CommandView, M>,
)
    ensures
        applied(state, Seq::empty()) == state,
        answers(state, Seq::<Entry<CommandView, M>>::empty()).len() == 0,
        ({
            let before = applied(state, entries);
            let after = applied(state, entries.push(entry));
            &&& after.last_applied == Some(entry.log_id)
            &&& match entry.payload {
                Payload::Membership(m) => after.last_membership == (StoredMembership {
                    log_id: Some(entry.log_id),
                    membership: Some(m),
                }),
                _ => after.last_membership == before.last_membership,
            }
            &&& match entry.payload {
                Payload::Normal(CommandView::Upsert { collection, records }) => {
                    match crate::collection::insertion(before.store, collection, records) {
                        Ok(store) => after.store == store,
                        Err(_) => after.store == before.store,
                    }
                },
                Payload::Normal(CommandView::Delete { collection, ids }) => {
                    match crate::collection::deletion(before.store, collection, ids.to_set()) {
                        Ok(store) => after.store == store,
                        Err(_) => after.store == before.store,
                    }
                },
                _ => after.store == before.store,
            }
            &&& answers(state, entries.push(entry)) == answers(state, entries).push(
                ShardCommandResponse {
                    applied: match entry.payload {
                        Payload::Normal(
                            CommandView::Upsert { collection, records },
                        ) => crate::collection::insertion(
                            before.store,
                            collection,
                            records,
                        ) is Ok,
                        Payload::Normal(
                            CommandView::Delete { collection, ids },
                        ) => before.store.contains_key(collection),
                        _ => false,
                    },
                },
            )
        }),
{
    let all = entries.push(entry);
    let before = applied(state, entries);
    assert(all.drop_last() =~= entries);
    assert(all.last() == entry);
    assert(applied(state, all) == stepped(before, entry));
    let want = answers(state, entries).push(answer(before, entry));
    assert forall|i: int| 0 <= i < all.len() implies answers(state, all)[i] == want[i] by {
        if i < entries.len() {
            assert(all.take(i) =~= entries.take(i));
        } else {
            assert(all.take(i) =~= entries);
        }
    }
    assert(answers(state, all) =~= want);
}

/// A log id is known by its term, its node and its index.
pub proof fn log_ids_have_three_parts(id: LogId)
    ensures
        id_parts(None) is None,
        id_parts(Some(id)) == Some((id.term, id.node_id, id.index)),
{
}

} // verus!
