use crate::wal::entries::{
    ChangeEntry, ChangeEntryView, Checkpoint, CheckpointView, LogEntryView, SingleLogEntry,
    Transaction,
};
use crate::wal::calls::{change_calls, op_calls, StoreCall, Watched};
use crate::wal::iterator::{ReadDirection, WalIterator, WalIteratorView};
use crate::wal::reading::{all_encodable, lemma_log_round_trip, log_file};
use crate::wal::model::{clones_keep_view, compares_by_view};
use crate::wal::record::BLOCK_SIZE;
use crate::wal::tids::{
    distinct, lemma_distinct, lemma_with_tid, lemma_without_tid, max_tid, with_tid, without_tid,
    TidSet,
};
use crate::wal::undo_log::{
    abort_entries, checkpoint_head, lemma_start_place, no_marks, start_place,
};
use crate::wal::{
    applied, apply_ops, backward_entries, entries_bytes, entry_views, op_views,
    read_serializable_backwards, staged_entries, used_after, write_entries, KeyView, LogData,
    LogError, LogStore, Progress, RecoverState, RecoverStateView, StoreOp, StoreOpView,
    ValueView,
};
use std::collections::VecDeque;
use vstd::prelude::*;

verus! {

/// The place of the first pair with the key `key`, or the number of pairs
/// where there is none.
pub open spec fn find_key<K, V>(pairs: Seq<(K, V)>, key: K) -> int
    decreases pairs.len(),
{
    if pairs.len() == 0 {
        0
    } else if pairs[0].0 == key {
        0
    } else {
        1 + find_key(pairs.drop_first(), key)
    }
}

/// The pairs with `value` under `key`: in the place of the first pair
/// with that key, or at the end where there is none.
pub open spec fn put<K, V>(pairs: Seq<(K, V)>, key: K, value: V) -> Seq<(K, V)> {
    if find_key(pairs, key) < pairs.len() {
        pairs.update(find_key(pairs, key), (key, value))
    } else {
        pairs.push((key, value))
    }
}

/// The writes of committed transactions, the last write to each key: each
/// key once, in the order in which the keys were first written.
pub open spec fn effective<K, V>(changes: Seq<(u64, K, V)>, committed: Seq<u64>) -> Seq<(K, V)>
    decreases changes.len(),
{
    if changes.len() == 0 {
        Seq::empty()
    } else if committed.contains(changes.last().0) {
        put(effective(changes.drop_last(), committed), changes.last().1, changes.last().2)
    } else {
        effective(changes.drop_last(), committed)
    }
}

/// The first pair with a key is found where no pair before has the key.
pub proof fn lemma_find_key<K, V>(pairs: Seq<(K, V)>, key: K, i: int)
    requires
        0 <= i <= pairs.len(),
        forall|j: int| 0 <= j < i ==> (#[trigger] pairs[j]).0 != key,
        i < pairs.len() ==> pairs[i].0 == key,
    ensures
        find_key(pairs, key) == i,
    decreases pairs.len(),
{
    if pairs.len() > 0 && i > 0 {
        assert(pairs[0].0 != key);
        let rest = pairs.drop_first();
        assert forall|j: int| 0 <= j < i - 1 implies (#[trigger] rest[j]).0 != key by {
            assert(rest[j] == pairs[j + 1]);
        }
        lemma_find_key(rest, key, i - 1);
    }
}

/// Keys and values of the store are compared and copied by their view:
/// the `==` of keys tells whether two keys have the same view, and a
/// clone of a key or of a value has the view of what it was made from.
pub open spec fn by_view<Data: LogData>() -> bool {
    compares_by_view::<Data::Key>() && clones_keep_view::<Data::Key>() && clones_keep_view::<
        Data::Value,
    >()
}

/// The staged writes as mathematical values.
pub open spec fn change_views<Data: LogData>(
    changes: Seq<(u64, Data::Key, Data::Value)>,
) -> Seq<(u64, KeyView<Data>, ValueView<Data>)> {
    Seq::new(changes.len(), |i: int| (changes[i].0, changes[i].1@, changes[i].2@))
}

/// The pairs of key and value as mathematical values.
pub open spec fn pair_views<Data: LogData>(pairs: Seq<(Data::Key, Data::Value)>) -> Seq<
    (KeyView<Data>, ValueView<Data>),
> {
    Seq::new(pairs.len(), |i: int| (pairs[i].0@, pairs[i].1@))
}

/// The writes that a redo log has staged, with the transactions that have
/// committed.
pub struct Changes<Data: LogData> {
    committed_tids: TidSet,
    transaction_changes: Vec<(u64, Data::Key, Data::Value)>,
}

impl<Data: LogData> Changes<Data> {
    /// The transactions that have committed, in the order in which they
    /// did.
    pub closed spec fn committed(&self) -> Seq<u64> {
        self.committed_tids@
    }

    /// The writes, oldest first, each with its transaction.
    pub closed spec fn changes(&self) -> Seq<(u64, KeyView<Data>, ValueView<Data>)> {
        change_views::<Data>(self.transaction_changes@)
    }

    /// No transaction is noted twice as committed.
    pub closed spec fn wf(&self) -> bool {
        self.committed_tids.wf()
    }

    /// No writes and no committed transactions.
    pub fn new() -> (changes: Changes<Data>)
        ensures
            changes.wf(),
            changes.committed() == Seq::<u64>::empty(),
            changes.changes() == Seq::<(u64, KeyView<Data>, ValueView<Data>)>::empty(),
    {
        let changes = Changes { committed_tids: TidSet::new(), transaction_changes: Vec::new() };
        assert(changes.changes() =~= Seq::empty());
        changes
    }

    /// Notes that the transaction has written `val` under `key`.
    pub fn write(&mut self, tid: u64, key: Data::Key, val: Data::Value)
        ensures
            final(self).wf() == old(self).wf(),
            final(self).committed() == old(self).committed(),
            final(self).changes() == old(self).changes().push((tid, key@, val@)),
    {
        self.transaction_changes.push((tid, key, val));
        assert(self.changes() =~= old(self).changes().push((tid, key@, val@)));
    }

    /// Notes that the transaction has committed.
    pub fn commit(&mut self, tid: u64)
        requires
            old(self).wf(),
        ensures
            final(self).wf(),
            final(self).committed() == with_tid(old(self).committed(), tid),
            final(self).changes() == old(self).changes(),
    {
        self.committed_tids.insert(tid);
    }

    /// The writes of committed transactions that a checkpoint must make
    /// durable: for each key the last value written, in copies. The
    /// result is stated for keys whose `==` goes by their view and for
    /// keys and values whose clones keep their view.
    pub fn flush_changes(&self) -> (pairs: Vec<(Data::Key, Data::Value)>)
        ensures
            compares_by_view::<Data::Key>() && clones_keep_view::<Data::Key>()
                && clones_keep_view::<Data::Value>() ==> pair_views::<Data>(pairs@) == effective(
                self.changes(),
                self.committed(),
            ),
    {
        let ghost model = compares_by_view::<Data::Key>() && clones_keep_view::<Data::Key>()
            && clones_keep_view::<Data::Value>();
        let ghost all = self.changes();
        let mut pairs: Vec<(Data::Key, Data::Value)> = Vec::new();
        let mut i: usize = 0;
        assert(all.take(0) =~= Seq::empty());
        assert(pair_views::<Data>(pairs@) =~= Seq::empty());
        while i < self.transaction_changes.len()
            invariant
                i <= self.transaction_changes@.len(),
                all == self.changes(),
                all.len() == self.transaction_changes@.len(),
                model == (compares_by_view::<Data::Key>() && clones_keep_view::<Data::Key>()
                    && clones_keep_view::<Data::Value>()),
                model ==> pair_views::<Data>(pairs@) == effective(
                    all.take(i as int),
                    self.committed(),
                ),
            decreases self.transaction_changes@.len() - i,
        {
            let ghost before = pair_views::<Data>(pairs@);
            let ghost change = all[i as int];
            proof {
                assert(all.take(i + 1).drop_last() =~= all.take(i as int));
                assert(all.take(i + 1).last() == change);
                assert(change == (
                    self.transaction_changes@[i as int].0,
                    self.transaction_changes@[i as int].1@,
                    self.transaction_changes@[i as int].2@,
                ));
            }
            let tid = self.transaction_changes[i].0;
            if self.committed_tids.contains(tid) {
                let mut j: usize = 0;
                let mut found = false;
                while j < pairs.len() && !found
                    invariant
                        j <= pairs@.len(),
                        i < self.transaction_changes@.len(),
                        before == pair_views::<Data>(pairs@),
                        change.1 == self.transaction_changes@[i as int].1@,
                        model == (compares_by_view::<Data::Key>() && clones_keep_view::<
                            Data::Key,
                        >() && clones_keep_view::<Data::Value>()),
                        model ==> forall|k: int| 0 <= k < j ==> (#[trigger] before[k]).0 != change.1,
                        found ==> j < pairs@.len(),
                        model && found ==> before[j as int].0 == change.1,
                    decreases pairs@.len() - j + (if found { 0int } else { 1int }),
                {
                    if pairs[j].0 == self.transaction_changes[i].1 {
                        found = true;
                    } else {
                        j += 1;
                    }
                }
                let key = self.transaction_changes[i].1.clone();
                let value = self.transaction_changes[i].2.clone();
                proof {
                    assert(cloned(self.transaction_changes@[i as int].1, key));
                    assert(cloned(self.transaction_changes@[i as int].2, value));
                    if model {
                        lemma_find_key(before, change.1, j as int);
                        assert(key@ == change.1);
                        assert(value@ == change.2);
                    }
                }
                if found {
                    pairs.remove(j);
                    pairs.insert(j, (key, value));
                    proof {
                        if model {
                            assert(pair_views::<Data>(pairs@) =~= before.update(
                                j as int,
                                (change.1, change.2),
                            ));
                        }
                    }
                } else {
                    pairs.push((key, value));
                    proof {
                        if model {
                            assert(pair_views::<Data>(pairs@) =~= before.push(
                                (change.1, change.2),
                            ));
                        }
                    }
                }
            }
            i += 1;
        }
        assert(all.take(i as int) =~= all);
        pairs
    }
}

/// What a redo recovery knows on its way back through the log.
pub struct RedoScan {
    /// The transactions that were seen to commit.
    pub committed: Seq<u64>,
    /// The transactions that were seen to abort.
    pub aborted: Seq<u64>,
    /// The transactions with a write that were not seen to commit or
    /// abort.
    pub uncommitted: Seq<u64>,
    /// What was seen of checkpoints.
    pub state: RecoverStateView,
}

impl RedoScan {
    /// What a recovery knows before it has read anything.
    pub open spec fn start() -> Self {
        RedoScan {
            committed: Seq::empty(),
            aborted: Seq::empty(),
            uncommitted: Seq::empty(),
            state: RecoverStateView::Fresh,
        }
    }

    /// What the recovery knows after it has read `entry`. A commit and an
    /// abort are noted. A change of a transaction that did neither is
    /// noted as not committed. An end mark before any other mark is
    /// noted. A begin mark that names transactions, read after an end
    /// mark, tells the recovery to read on to the start of each of them.
    pub open spec fn step<K, V>(self, entry: LogEntryView<K, V>) -> Self {
        match entry {
            LogEntryView::Transaction(Transaction::Commit(id)) => RedoScan {
                committed: with_tid(self.committed, id),
                ..self
            },
            LogEntryView::Transaction(Transaction::Abort(id)) => RedoScan {
                aborted: with_tid(self.aborted, id),
                ..self
            },
            LogEntryView::Transaction(Transaction::Start(id)) => match self.state {
                RecoverStateView::Begin(tids) => RedoScan {
                    state: RecoverStateView::Begin(without_tid(tids, id)),
                    ..self
                },
                _ => self,
            },
            LogEntryView::ChangeEntry(entry) => if self.committed.contains(entry.tid)
                || self.aborted.contains(entry.tid) {
                self
            } else {
                RedoScan { uncommitted: with_tid(self.uncommitted, entry.tid), ..self }
            },
            LogEntryView::Checkpoint(CheckpointView::Begin(tids)) => match self.state {
                RecoverStateView::End => if tids.len() == 0 {
                    self
                } else {
                    RedoScan { state: RecoverStateView::Begin(distinct(tids)), ..self }
                },
                _ => self,
            },
            LogEntryView::Checkpoint(CheckpointView::End) => match self.state {
                RecoverStateView::Fresh => RedoScan { state: RecoverStateView::End, ..self },
                _ => self,
            },
            LogEntryView::InsertEntry(_) => self,
        }
    }

    /// Whether the recovery stops reading backward after `entry`: at the
    /// start of the last transaction that a begin mark told it to read on
    /// to, and at a begin mark that names no transaction and comes after
    /// an end mark.
    pub open spec fn stops<K, V>(self, entry: LogEntryView<K, V>) -> bool {
        match entry {
            LogEntryView::Transaction(Transaction::Start(id)) => match self.state {
                RecoverStateView::Begin(tids) => without_tid(tids, id).len() == 0,
                _ => false,
            },
            LogEntryView::Checkpoint(CheckpointView::Begin(tids)) => match self.state {
                RecoverStateView::End => tids.len() == 0,
                _ => false,
            },
            _ => false,
        }
    }

    /// What the recovery knows after the entries, read in this order, as
    /// far as it reads them.
    pub open spec fn replay<K, V>(self, entries: Seq<LogEntryView<K, V>>) -> Self
        decreases entries.len(),
    {
        if entries.len() == 0 {
            self
        } else if self.stops(entries[0]) {
            self.step(entries[0])
        } else {
            self.step(entries[0]).replay(entries.drop_first())
        }
    }

    /// The number of the entries that the recovery reads going backward:
    /// all, or those up to the entry at which it stops.
    pub open spec fn reads<K, V>(self, entries: Seq<LogEntryView<K, V>>) -> nat
        decreases entries.len(),
    {
        if entries.len() == 0 {
            0
        } else if self.stops(entries[0]) {
            1
        } else {
            1 + self.step(entries[0]).reads(entries.drop_first())
        }
    }

    /// The entries that the recovery reads, of the entries of a log as
    /// they come going backward, in the order in which they stand in the
    /// log: the entry at which it stops first, or the first of the log.
    pub open spec fn window<K, V>(self, entries: Seq<LogEntryView<K, V>>) -> Seq<
        LogEntryView<K, V>,
    > {
        entries.take(self.reads(entries) as int).reverse()
    }

    /// The recovery reads no more entries than there are.
    pub proof fn lemma_reads_bound<K, V>(self, entries: Seq<LogEntryView<K, V>>)
        ensures
            self.reads(entries) <= entries.len(),
        decreases entries.len(),
    {
        if entries.len() > 0 && !self.stops(entries[0]) {
            self.step(entries[0]).lemma_reads_bound(entries.drop_first());
        }
    }

    /// The largest id of a transaction that the recovery has noted, 0
    /// where there is none.
    pub open spec fn last_tid(self) -> u64 {
        let a = max_tid(self.committed);
        let b = max_tid(self.uncommitted);
        let c = max_tid(self.aborted);
        if a >= b && a >= c {
            a
        } else if b >= c {
            b
        } else {
            c
        }
    }
}

/// What the store is to do to do again the changes of committed
/// transactions among the entries, in the order of the entries: put each
/// changed value under its key.
pub open spec fn redo_ops<K, V>(committed: Seq<u64>, entries: Seq<LogEntryView<K, V>>) -> Seq<
    StoreOpView<K, V>,
>
    decreases entries.len(),
{
    if entries.len() == 0 {
        Seq::empty()
    } else {
        redo_op(committed, entries[0]) + redo_ops(committed, entries.drop_first())
    }
}

/// What the store is to do for one entry: put the value under the key if
/// the entry is the change of a committed transaction, else nothing.
pub open spec fn redo_op<K, V>(committed: Seq<u64>, entry: LogEntryView<K, V>) -> Seq<
    StoreOpView<K, V>,
> {
    match entry {
        LogEntryView::ChangeEntry(entry) => if committed.contains(entry.tid) {
            seq![StoreOpView::Update(entry.key, entry.value)]
        } else {
            Seq::empty()
        },
        _ => Seq::empty(),
    }
}

/// The state of a redo log.
pub struct RedoLogView<K, V> {
    /// The bytes that the last block of the log file holds.
    pub used: nat,
    /// The entries staged since the last flush, oldest first.
    pub mem_log: Seq<LogEntryView<K, V>>,
    /// The id of the transaction that started last.
    pub last_tid: u64,
    /// The writes since the log was opened, oldest first.
    pub changes: Seq<(u64, K, V)>,
    /// The transactions that have committed since the log was opened.
    pub committed: Seq<u64>,
    /// The transactions that have started and not committed.
    pub active_tids: Seq<u64>,
    /// The calls that the log has made of its store, oldest first.
    pub calls: Seq<StoreCall<K, V>>,
    /// The transaction whose commit entry was handed out and whose commit
    /// is not complete.
    pub committing: Option<u64>,
    /// Whether the begin mark of a checkpoint was handed out and the
    /// checkpoint is not complete.
    pub checkpointing: bool,
}

impl<K, V> RedoLogView<K, V> {
    /// The state after the log has made a call of its store.
    pub open spec fn asked(self, call: StoreCall<K, V>) -> Self {
        RedoLogView { calls: self.calls.push(call), ..self }
    }

    /// The state after the log has made calls of its store.
    pub open spec fn asked_all(self, calls: Seq<StoreCall<K, V>>) -> Self {
        RedoLogView { calls: self.calls + calls, ..self }
    }

    /// Whether `sent` are the mappings that a checkpoint of this state has
    /// the store make durable, one after the other: the last writes of
    /// committed transactions, or, where the store fails, the first of
    /// these up to the one at which it fails. The mappings are told for
    /// keys and values that are compared and copied by their view.
    pub open spec fn checkpoint_sends(self, sent: Seq<(K, V)>, failed: bool, by_view: bool) -> bool {
        let due = effective(self.changes, self.committed);
        if failed {
            sent.len() >= 1 && (by_view ==> sent.len() <= due.len() && sent == due.take(
                sent.len() as int,
            ))
        } else {
            by_view ==> sent == due
        }
    }

    /// The state after the log has had its store do the operations, in
    /// their order, and then has asked it to flush, which the store
    /// could where `flushed`.
    pub open spec fn handed(self, ops: Seq<StoreOpView<K, V>>, flushed: bool) -> Self {
        RedoLogView {
            calls: (self.calls + op_calls(ops)).push(StoreCall::Flush(flushed)),
            ..self
        }
    }

    /// The state after a transaction has started.
    pub open spec fn started(self) -> Self {
        let tid = (self.last_tid + 1) as u64;
        RedoLogView {
            last_tid: tid,
            mem_log: self.mem_log.push(LogEntryView::Transaction(Transaction::Start(tid))),
            active_tids: with_tid(self.active_tids, tid),
            ..self
        }
    }

    /// The state after an active transaction has written `val` under
    /// `key`, where `logged` is the copy of key and value that went into
    /// the log and `kept` the copy that was kept for checkpoints: the
    /// store was had to put the value under the key.
    pub open spec fn written(self, tid: u64, logged: (K, V), kept: (K, V), key: K, val: V) -> Self {
        RedoLogView {
            mem_log: self.mem_log.push(
                LogEntryView::ChangeEntry(
                    ChangeEntryView { tid, key: logged.0, value: logged.1 },
                ),
            ),
            changes: self.changes.push((tid, kept.0, kept.1)),
            calls: self.calls.push(StoreCall::Update(key, val)),
            ..self
        }
    }

    /// The state after the staged entries were handed out for writing.
    pub open spec fn flushed(self, written: nat) -> Self {
        RedoLogView { used: used_after(self.used, written), mem_log: Seq::empty(), ..self }
    }

    /// The state after the commit entry of `tid` was staged.
    pub open spec fn committing(self, tid: u64) -> Self {
        RedoLogView {
            mem_log: self.mem_log.push(LogEntryView::Transaction(Transaction::Commit(tid))),
            committing: Some(tid),
            ..self
        }
    }

    /// The state after the commit of `tid` was completed.
    pub open spec fn committed(self, tid: u64) -> Self {
        RedoLogView {
            active_tids: without_tid(self.active_tids, tid),
            committed: with_tid(self.committed, tid),
            committing: None,
            ..self
        }
    }

    /// The state after the begin mark of a checkpoint was staged.
    pub open spec fn checkpointing(self) -> Self {
        RedoLogView {
            mem_log: self.mem_log.push(
                LogEntryView::Checkpoint(CheckpointView::Begin(self.active_tids)),
            ),
            checkpointing: true,
            ..self
        }
    }

    /// The state after the end mark of a checkpoint was staged.
    pub open spec fn checkpointed(self) -> Self {
        RedoLogView {
            mem_log: self.mem_log.push(LogEntryView::Checkpoint(CheckpointView::End)),
            checkpointing: false,
            ..self
        }
    }
}

/// A write ahead log that keeps the values written, so that the writes of
/// a transaction that committed can be done again.
///
/// The log does no input or output: what it hands back from an operation
/// are the bytes to append to the log file.
pub struct RedoLog<Data: LogData, Store: LogStore<Data>> {
    used: usize,
    mem_log: VecDeque<SingleLogEntry<Data>>,
    last_tid: u64,
    changes: Changes<Data>,
    active_tids: TidSet,
    store: Watched<Data, Store>,
    committing: Option<u64>,
    checkpointing: bool,
}

impl<Data: LogData, Store: LogStore<Data>> View for RedoLog<Data, Store> {
    type V = RedoLogView<KeyView<Data>, ValueView<Data>>;

    closed spec fn view(&self) -> Self::V {
        RedoLogView {
            used: self.used as nat,
            mem_log: entry_views(self.mem_log@),
            last_tid: self.last_tid,
            changes: self.changes.changes(),
            committed: self.changes.committed(),
            active_tids: self.active_tids@,
            calls: self.store.calls(),
            committing: self.committing,
            checkpointing: self.checkpointing,
        }
    }
}

impl<Data: LogData, Store: LogStore<Data>> RedoLog<Data, Store> {
    /// The log is in a state that its methods keep up.
    pub closed spec fn wf(&self) -> bool {
        &&& self.used < BLOCK_SIZE
        &&& self.active_tids.wf()
        &&& self.changes.wf()
    }

    /// The entries staged since the last flush, oldest first.
    pub closed spec fn staged(&self) -> Seq<SingleLogEntry<Data>> {
        self.mem_log@
    }

    /// The staged entries are what the state shows of them, and a sound
    /// log has a sound state.
    pub proof fn lemma_view(&self)
        ensures
            self@.mem_log == entry_views(self.staged()),
            self.wf() ==> self@.used < BLOCK_SIZE && self@.active_tids.no_duplicates()
                && self@.committed.no_duplicates(),
    {
    }

    /// Opens the log on the bytes of its file, `log`, and recovers: has
    /// the store do again the changes of committed transactions, as
    /// `redo_plan` finds them, flushes the store, and stages an abort
    /// entry for each transaction with a change that did not commit. Hands
    /// back the log and the bytes to append to the file. Fails where the
    /// store cannot flush; `recover` says what the store was asked to do in
    /// either case.
    pub fn new(log: &[u8], store: Store) -> (r: Result<(RedoLog<Data, Store>, Vec<u8>), LogError>)
        ensures
            match r {
                Ok((redo_log, bytes)) => {
                    let first = WalIteratorView::start(log@, ReadDirection::Backward);
                    let entries = backward_entries::<Data>(first);
                    let scan = RedoScan::start().replay(entries);
                    let used = log@.len() % (BLOCK_SIZE as nat);
                    &&& redo_log.wf()
                    &&& bytes@ == entries_bytes::<Data>(used, abort_entries(scan.uncommitted))
                    &&& redo_log@ == RedoLogView::<KeyView<Data>, ValueView<Data>> {
                        used: used_after(used, bytes@.len()),
                        mem_log: Seq::empty(),
                        last_tid: scan.last_tid(),
                        changes: Seq::empty(),
                        committed: Seq::empty(),
                        active_tids: Seq::empty(),
                        calls: op_calls(
                            redo_ops(scan.committed, RedoScan::start().window(entries)),
                        ).push(StoreCall::Flush(true)),
                        committing: None,
                        checkpointing: false,
                    }
                },
                Err(e) => e is IoError,
            },
    {
        let mut redo_log = RedoLog {
            used: log.len() % (BLOCK_SIZE as usize),
            mem_log: VecDeque::new(),
            last_tid: 0,
            changes: Changes::new(),
            active_tids: TidSet::new(),
            store: Watched::new(store),
            committing: None,
            checkpointing: false,
        };
        assert(redo_log@.mem_log =~= Seq::empty());
        let ghost entries = backward_entries::<Data>(
            WalIteratorView::start(log@, ReadDirection::Backward),
        );
        let ghost ops = redo_ops(
            RedoScan::start().replay(entries).committed,
            RedoScan::start().window(entries),
        );
        assert(redo_log@.calls + op_calls(ops) =~= op_calls(ops));
        let bytes = redo_log.recover(log)?;
        Ok((redo_log, bytes))
    }

    /// A copy of the entries staged since the last flush, oldest first.
    pub fn entries(&self) -> (entries: Vec<SingleLogEntry<Data>>)
        ensures
            entries@.len() == self.staged().len(),
            forall|i: int|
                0 <= i < entries@.len() ==> cloned::<SingleLogEntry<Data>>(
                    self.staged()[i],
                    #[trigger] entries@[i],
                ),
    {
        staged_entries(&self.mem_log)
    }

    /// The id of the transaction that started last.
    pub fn last_tid(&self) -> (tid: u64)
        ensures
            tid == self@.last_tid,
    {
        self.last_tid
    }

    /// Tells whether the transaction has started and not committed.
    pub fn is_active(&self, tid: u64) -> (r: bool)
        ensures
            r == self@.active_tids.contains(tid),
    {
        self.active_tids.contains(tid)
    }

    /// The store that the log protects.
    pub closed spec fn its_store(&self) -> Store {
        self.store.inner()
    }

    /// The store that the log protects.
    pub fn store(&self) -> (store: &Store)
        ensures
            *store == self.its_store(),
    {
        self.store.store()
    }

    /// Gives up the log for its store.
    pub fn into_store(self) -> (store: Store)
        ensures
            store == self.its_store(),
    {
        self.store.into_store()
    }

    /// Takes a checkpoint, in steps. First stages a begin mark with the
    /// active transactions and hands it back, with all staged entries, as
    /// `More`. Called again, hands back what was staged since as `More`;
    /// with nothing staged, has the store make durable the last write of
    /// committed transactions to each key, stages the end mark and hands
    /// it back as `Done`. Fails, with the checkpoint given up, where and
    /// only where the store cannot make a write durable; the writes behind
    /// that one are not handed to the store.
    pub fn checkpoint(&mut self) -> (r: Result<Progress, LogError>)
        requires
            old(self).wf(),
        ensures
            final(self).wf(),
            !old(self)@.checkpointing ==> (r matches Ok(Progress::More(bytes)) && bytes@
                == entries_bytes::<Data>(old(self)@.used, old(self)@.checkpointing().mem_log)
                && final(self)@ == old(self)@.checkpointing().flushed(bytes@.len())),
            old(self)@.checkpointing && old(self)@.mem_log.len() > 0 ==> (r matches Ok(
                Progress::More(bytes),
            ) && bytes@ == entries_bytes::<Data>(old(self)@.used, old(self)@.mem_log)
                && final(self)@ == old(self)@.flushed(bytes@.len())),
            old(self)@.checkpointing && old(self)@.mem_log.len() == 0 ==> exists|
                sent: Seq<(KeyView<Data>, ValueView<Data>)>,
            |
                #[trigger] old(self)@.checkpoint_sends(sent, r is Err, by_view::<Data>())
                    && match r {
                    Ok(progress) => progress matches Progress::Done(bytes) && bytes@
                        == entries_bytes::<Data>(
                        old(self)@.used,
                        old(self)@.checkpointed().mem_log,
                    ) && final(self)@ == old(self)@.asked_all(
                        change_calls(sent, false),
                    ).checkpointed().flushed(bytes@.len()),
                    Err(e) => e is IoError && final(self)@ == (RedoLogView {
                        checkpointing: false,
                        ..old(self)@.asked_all(change_calls(sent, true))
                    }),
                },
    {
        if !self.checkpointing {
            let transactions = self.active_tids.to_vec();
            // Add begin checkpoint into the log.
            self.stage(SingleLogEntry::Checkpoint(Checkpoint::Begin(transactions)));
            self.checkpointing = true;
            return Ok(Progress::More(self.flush()));
        }
        if self.mem_log.len() > 0 {
            return Ok(Progress::More(self.flush()));
        }
        // Ensure that all changes committed before the begin checkpoint are flushed to disk.
        let mut pairs = self.changes.flush_changes();
        let ghost all = pair_views::<Data>(pairs@);
        let ghost mut done: int = 0;
        proof {
            assert(all.skip(0) =~= all);
            assert(self@.calls + change_calls(all.take(0), false) =~= self@.calls);
        }
        while pairs.len() > 0
            invariant
                self.wf(),
                0 <= done <= all.len(),
                pair_views::<Data>(pairs@) == all.skip(done),
                self@ == old(self)@.asked_all(change_calls(all.take(done), false)),
                by_view::<Data>() ==> all == effective(old(self)@.changes, old(self)@.committed),
                old(self)@.checkpointing,
                old(self)@.mem_log.len() == 0,
            decreases pairs@.len(),
        {
            let ghost before = self@.calls;
            let ghost rest = pairs@;
            let (key, val) = pairs.remove(0);
            proof {
                let views = pair_views::<Data>(rest);
                assert(views.len() == rest.len());
                assert(views[0] == all.skip(done)[0]);
                assert(views[0] == (key@, val@));
                assert(all[done] == (key@, val@));
                assert forall|j: int| 0 <= j < pairs@.len() implies pair_views::<Data>(
                    pairs@,
                )[j] == all.skip(done + 1)[j] by {
                    assert(pairs@[j] == rest[j + 1]);
                    assert(views[j + 1] == all.skip(done)[j + 1]);
                }
                assert(pair_views::<Data>(pairs@) =~= all.skip(done + 1));
            }
            let ghost state = self@;
            let sent = self.store.flush_change(key, val);
            proof {
                let call = StoreCall::FlushChange(all[done].0, all[done].1, sent is Ok);
                assert(self@ == state.asked(call));
                assert(before.push(call) =~= old(self)@.calls + change_calls(
                    all.take(done + 1),
                    sent is Err,
                ));
                assert(self@ == old(self)@.asked_all(
                    change_calls(all.take(done + 1), sent is Err),
                ));
                done = done + 1;
            }
            match sent {
                Err(e) => {
                    self.checkpointing = false;
                    let r = Err(LogError::IoError(e));
                    assert(old(self)@.checkpoint_sends(all.take(done), r is Err, by_view::<Data>())
                        && self@ == (RedoLogView {
                        checkpointing: false,
                        ..old(self)@.asked_all(change_calls(all.take(done), true))
                    }));
                    return r;
                },
                Ok(_) => {},
            }
        }
        proof {
            assert(all.take(done) =~= all);
        }
        // Add end checkpoint to log and flush the log.
        self.stage(SingleLogEntry::Checkpoint(Checkpoint::End));
        self.checkpointing = false;
        let bytes = self.flush();
        let ghost written = bytes@;
        let r = Ok(Progress::Done(bytes));
        assert(old(self)@.checkpoint_sends(all, r is Err, by_view::<Data>()) && written
            == entries_bytes::<Data>(old(self)@.used, old(self)@.checkpointed().mem_log)
            && self@ == old(self)@.asked_all(change_calls(all, false)).checkpointed().flushed(
            written.len(),
        ));
        r
    }

    /// Starts a transaction and returns its id, one more than the last.
    pub fn start(&mut self) -> (tid: u64)
        requires
            old(self).wf(),
            old(self)@.last_tid < u64::MAX,
        ensures
            final(self).wf(),
            tid == old(self)@.last_tid + 1,
            final(self)@ == old(self)@.started(),
    {
        self.last_tid += 1;
        let entry = SingleLogEntry::Transaction(Transaction::Start(self.last_tid));
        self.stage(entry);
        self.active_tids.insert(self.last_tid);
        self.last_tid
    }

    /// Writes `val` under `key` for an active transaction: stages a change
    /// entry with a copy of key and value, keeps another copy for
    /// checkpoints and has the store put `val` under `key`. Does nothing
    /// for a transaction that is not active.
    pub fn write(&mut self, tid: u64, key: Data::Key, val: Data::Value)
        requires
            old(self).wf(),
        ensures
            final(self).wf(),
            !old(self)@.active_tids.contains(tid) ==> final(self)@ == old(self)@,
            old(self)@.active_tids.contains(tid) ==> exists|
                logged: (Data::Key, Data::Value),
                kept: (Data::Key, Data::Value),
            |
                #![trigger cloned(key, logged.0), cloned(key, kept.0)]
                cloned(key, logged.0) && cloned(val, logged.1) && cloned(key, kept.0) && cloned(
                    val,
                    kept.1,
                ) && final(self)@ == old(self)@.written(
                    tid,
                    (logged.0@, logged.1@),
                    (kept.0@, kept.1@),
                    key@,
                    val@,
                ),
    {
        if self.active_tids.contains(tid) {
            let logged_key = key.clone();
            let logged_val = val.clone();
            let kept_key = key.clone();
            let kept_val = val.clone();
            let ghost logged = (logged_key, logged_val);
            let ghost kept = (kept_key, kept_val);
            let entry = SingleLogEntry::ChangeEntry(
                ChangeEntry { tid, key: logged_key, value: logged_val },
            );
            let ghost written = (key@, val@);
            self.changes.write(tid, kept_key, kept_val);
            self.store.update(key, val);
            self.stage(entry);
            assert(cloned(key, logged.0) && cloned(val, logged.1) && cloned(key, kept.0) && cloned(
                val,
                kept.1,
            ) && self@ == old(self)@.written(
                tid,
                (logged.0@, logged.1@),
                (kept.0@, kept.1@),
                written.0,
                written.1,
            ));
        }
    }

    /// Commits an active transaction, in steps. First stages the commit
    /// entry and hands it back, with all staged entries, as `More`: they
    /// must be in the log file before the store is flushed. Called again,
    /// hands back what was staged since as `More`; with nothing staged,
    /// flushes the store, notes the transaction as committed and is
    /// `Done`. Does nothing for a transaction that is not active. Fails,
    /// with the transaction still active, where and only where the store
    /// cannot flush.
    pub fn commit(&mut self, tid: u64) -> (r: Result<Progress, LogError>)
        requires
            old(self).wf(),
        ensures
            final(self).wf(),
            !old(self)@.active_tids.contains(tid) ==> final(self)@ == old(self)@ && (r matches Ok(
                Progress::Done(bytes),
            ) && bytes@.len() == 0),
            old(self)@.active_tids.contains(tid) && old(self)@.committing != Some(tid) ==> (
            r matches Ok(Progress::More(bytes)) && bytes@ == entries_bytes::<Data>(
                old(self)@.used,
                old(self)@.committing(tid).mem_log,
            ) && final(self)@ == old(self)@.committing(tid).flushed(bytes@.len())),
            old(self)@.active_tids.contains(tid) && old(self)@.committing == Some(tid) && old(
                self,
            )@.mem_log.len() > 0 ==> (r matches Ok(Progress::More(bytes)) && bytes@
                == entries_bytes::<Data>(old(self)@.used, old(self)@.mem_log) && final(self)@
                == old(self)@.flushed(bytes@.len())),
            old(self)@.active_tids.contains(tid) && old(self)@.committing == Some(tid) && old(
                self,
            )@.mem_log.len() == 0 ==> match r {
                Ok(progress) => progress matches Progress::Done(bytes) && bytes@.len() == 0
                    && final(self)@ == old(self)@.asked(StoreCall::Flush(true)).committed(tid),
                Err(e) => e is IoError && final(self)@ == (RedoLogView {
                    committing: None,
                    ..old(self)@.asked(StoreCall::Flush(false))
                }),
            },
    {
        if !self.active_tids.contains(tid) {
            return Ok(Progress::Done(Vec::new()));
        }
        let committing = match self.committing {
            Some(other) => other == tid,
            None => false,
        };
        if !committing {
            let entry = SingleLogEntry::Transaction(Transaction::Commit(tid));
            self.stage(entry);
            self.committing = Some(tid);
            return Ok(Progress::More(self.flush()));
        }
        if self.mem_log.len() > 0 {
            return Ok(Progress::More(self.flush()));
        }
        let flushed = self.store.flush();
        self.finish_commit(tid, flushed)
    }

    /// The last step of a commit, after the store was asked to flush:
    /// passes the store's failure on, or notes the transaction as
    /// committed.
    fn finish_commit(&mut self, tid: u64, flushed: Result<(), std::io::Error>) -> (r: Result<
        Progress,
        LogError,
    >)
        requires
            old(self).wf(),
        ensures
            final(self).wf(),
            match flushed {
                Ok(_) => r matches Ok(Progress::Done(bytes)) && bytes@.len() == 0 && final(self)@
                    == old(self)@.committed(tid),
                Err(e) => r matches Err(LogError::IoError(e2)) && e2 == e && final(self)@ == (
                RedoLogView { committing: None, ..old(self)@ }),
            },
    {
        self.committing = None;
        match flushed {
            Err(e) => Err(LogError::IoError(e)),
            Ok(_) => {
                self.active_tids.remove(tid);
                self.changes.commit(tid);
                Ok(Progress::Done(Vec::new()))
            },
        }
    }

    /// Stages an entry.
    fn stage(&mut self, entry: SingleLogEntry<Data>)
        ensures
            final(self)@ == (RedoLogView { mem_log: old(self)@.mem_log.push(entry@), ..old(self)@ }),
            final(self).staged() == old(self).staged().push(entry),
            final(self).wf() == old(self).wf(),
    {
        self.mem_log.push_back(entry);
        assert(entry_views(self.mem_log@) =~= entry_views(old(self).mem_log@).push(entry@));
    }

    /// Hands out the staged entries as the bytes to append to the log
    /// file, and forgets them.
    fn flush(&mut self) -> (bytes: Vec<u8>)
        requires
            old(self).wf(),
        ensures
            final(self).wf(),
            bytes@ == entries_bytes::<Data>(old(self)@.used, old(self)@.mem_log),
            final(self)@ == old(self)@.flushed(bytes@.len()),
    {
        let mut bytes: Vec<u8> = Vec::new();
        self.used = write_entries(&mut bytes, self.used, &self.mem_log);
        self.mem_log.clear();
        assert(bytes@ =~= entries_bytes::<Data>(old(self)@.used, old(self)@.mem_log));
        assert(entry_views(self.mem_log@) =~= Seq::empty());
        bytes
    }

    /// Has the store do again what committed, as `redo_plan` finds it, and
    /// asks the store to flush; then stages the aborts and sets the last
    /// id, unless the store could not flush, which is where and only where
    /// this fails.
    fn recover(&mut self, log: &[u8]) -> (r: Result<Vec<u8>, LogError>)
        requires
            old(self).wf(),
            old(self)@.mem_log.len() == 0,
        ensures
            final(self).wf(),
            match r {
                Ok(bytes) => {
                    let first = WalIteratorView::start(log@, ReadDirection::Backward);
                    let entries = backward_entries::<Data>(first);
                    let scan = RedoScan::start().replay(entries);
                    &&& bytes@ == entries_bytes::<Data>(
                        old(self)@.used,
                        abort_entries(scan.uncommitted),
                    )
                    &&& final(self)@ == RedoLogView {
                        used: used_after(old(self)@.used, bytes@.len()),
                        mem_log: Seq::empty(),
                        last_tid: scan.last_tid(),
                        ..old(self)@.handed(
                            redo_ops(scan.committed, RedoScan::start().window(entries)),
                            true,
                        )
                    }
                },
                Err(e) => {
                    let first = WalIteratorView::start(log@, ReadDirection::Backward);
                    let entries = backward_entries::<Data>(first);
                    let scan = RedoScan::start().replay(entries);
                    e is IoError && final(self)@ == old(self)@.handed(
                        redo_ops(scan.committed, RedoScan::start().window(entries)),
                        false,
                    )
                },
            },
    {
        let plan = redo_plan::<Data>(log);
        apply_ops(&mut self.store, plan.ops);
        // Flush redo store changes first before writing aborts to the log.
        let flushed = self.store.flush();
        self.finish_recover(plan.uncommitted, plan.last_tid, flushed)
    }

    /// The end of a recovery, after the store was asked to flush: passes
    /// the store's failure on, or stages an abort entry for each of the
    /// transactions, sets the last id and hands back the bytes of the
    /// entries.
    fn finish_recover(
        &mut self,
        uncommitted: Vec<u64>,
        last_tid: u64,
        flushed: Result<(), std::io::Error>,
    ) -> (r: Result<Vec<u8>, LogError>)
        requires
            old(self).wf(),
            old(self)@.mem_log.len() == 0,
        ensures
            final(self).wf(),
            match flushed {
                Ok(_) => r matches Ok(bytes) && bytes@ == entries_bytes::<Data>(
                    old(self)@.used,
                    abort_entries(uncommitted@),
                ) && final(self)@ == (RedoLogView {
                    used: used_after(old(self)@.used, bytes@.len()),
                    mem_log: Seq::empty(),
                    last_tid,
                    ..old(self)@
                }),
                Err(e) => r matches Err(LogError::IoError(e2)) && e2 == e && final(self)@ == old(
                    self,
                )@,
            },
    {
        match flushed {
            Err(e) => {
                return Err(LogError::IoError(e));
            },
            Ok(_) => {},
        }
        let mut i: usize = 0;
        assert(self@.mem_log =~= abort_entries(uncommitted@.take(0)));
        while i < uncommitted.len()
            invariant
                i <= uncommitted@.len(),
                self.wf(),
                self@ == (RedoLogView {
                    mem_log: abort_entries(uncommitted@.take(i as int)),
                    ..old(self)@
                }),
            decreases uncommitted@.len() - i,
        {
            self.stage(SingleLogEntry::Transaction(Transaction::Abort(uncommitted[i])));
            assert(self@.mem_log =~= abort_entries(uncommitted@.take(i + 1)));
            assert(self@ == (RedoLogView {
                mem_log: abort_entries(uncommitted@.take(i + 1)),
                ..old(self)@
            }));
            i += 1;
        }
        assert(uncommitted@.take(i as int) =~= uncommitted@);
        // Set the last tid to the largest tid.
        self.last_tid = last_tid;
        let bytes = self.flush();
        Ok(bytes)
    }
}

/// What a redo recovery comes to.
#[derive(Debug, PartialEq)]
pub struct RedoPlan<Data: LogData> {
    /// What the store is to do to do again the changes of committed
    /// transactions, in this order.
    pub ops: Vec<StoreOp<Data>>,
    /// The transactions with a change that did not commit or abort, each
    /// of which gets an abort entry.
    pub uncommitted: Vec<u64>,
    /// The largest id of a transaction that the recovery has noted, 0
    /// where there is none.
    pub last_tid: u64,
}

/// Reads the entries of the log backward, as far as a checkpoint lets the
/// recovery stop, to find which transactions committed, and then goes
/// over the entries that it has read in the order of the log, each once,
/// to find the changes to do again.
pub fn redo_plan<Data: LogData>(log: &[u8]) -> (plan: RedoPlan<Data>)
    ensures
        ({
            let first = WalIteratorView::start(log@, ReadDirection::Backward);
            let entries = backward_entries::<Data>(first);
            let scan = RedoScan::start().replay(entries);
            &&& op_views(plan.ops@) == redo_ops(scan.committed, RedoScan::start().window(entries))
            &&& plan.uncommitted@ == scan.uncommitted
            &&& plan.uncommitted@.no_duplicates()
            &&& plan.last_tid == scan.last_tid()
        }),
{
    let mut committed = TidSet::new();
    let mut uncommitted = TidSet::new();
    let mut aborted = TidSet::new();
    let mut state = RecoverState::Fresh;
    let mut iter = WalIterator::new(log, ReadDirection::Backward);
    proof {
        iter.lemma_view_wf();
    }
    let ghost first = iter@;
    let ghost all = backward_entries::<Data>(first);
    // The entries read, the last of the log first.
    let mut read: Vec<SingleLogEntry<Data>> = Vec::new();
    let mut done = false;
    proof {
        RedoScan::start().lemma_reads_bound(all);
        assert(entry_views(read@) =~= Seq::empty());
        assert(all.take(RedoScan::start().reads(all) as int) =~= entry_views(read@) + all.take(
            RedoScan::start().reads(all) as int,
        ));
    }
    // First pass:
    while !done
        invariant
            iter.wf(),
            iter@.wf(),
            committed.wf(),
            uncommitted.wf(),
            aborted.wf(),
            state.wf(),
            ({
                let now = RedoScan {
                    committed: committed@,
                    aborted: aborted@,
                    uncommitted: uncommitted@,
                    state: state@,
                };
                let rest = backward_entries::<Data>(iter@);
                &&& RedoScan::start().replay(all) == (if done {
                    now
                } else {
                    now.replay(rest)
                })
                &&& all.take(RedoScan::start().reads(all) as int) == (if done {
                    entry_views(read@)
                } else {
                    entry_views(read@) + rest.take(now.reads(rest) as int)
                })
            }),
        decreases
                (if done {
                    0
                } else {
                    1 + iter@.backward_measure()
                }),
    {
        let ghost now = RedoScan {
            committed: committed@,
            aborted: aborted@,
            uncommitted: uncommitted@,
            state: state@,
        };
        let ghost before = iter@;
        let ghost seen = entry_views(read@);
        match read_serializable_backwards::<SingleLogEntry<Data>>(&mut iter) {
            Err(_) => {
                done = true;
                proof {
                    iter.lemma_view_wf();
                    assert(backward_entries::<Data>(before) =~= Seq::empty());
                    assert(seen + backward_entries::<Data>(before).take(0) =~= seen);
                }
            },
            Ok(data) => {
                let ghost entry = data@;
                proof {
                    iter.lemma_view_wf();
                    assert(backward_entries::<Data>(before) =~= seq![entry]
                        + backward_entries::<Data>(iter@));
                    assert(backward_entries::<Data>(before).drop_first()
                        =~= backward_entries::<Data>(iter@));
                    assert(backward_entries::<Data>(before)[0] == entry);
                }
                match &data {
                    SingleLogEntry::Transaction(Transaction::Commit(id)) => {
                        committed.insert(*id);
                    },
                    SingleLogEntry::Transaction(Transaction::Abort(id)) => {
                        aborted.insert(*id);
                    },
                    SingleLogEntry::Transaction(Transaction::Start(id)) => {
                        state = match state {
                            RecoverState::Begin(mut transactions) => {
                                transactions.remove(*id);
                                if transactions.is_empty() {
                                    done = true;
                                }
                                RecoverState::Begin(transactions)
                            },
                            other => other,
                        };
                    },
                    SingleLogEntry::ChangeEntry(entry) => {
                        if !committed.contains(entry.tid) && !aborted.contains(entry.tid) {
                            uncommitted.insert(entry.tid);
                        }
                    },
                    SingleLogEntry::Checkpoint(Checkpoint::Begin(transactions)) => {
                        state = match state {
                            RecoverState::End => {
                                if transactions.len() == 0 {
                                    done = true;
                                    RecoverState::End
                                } else {
                                    RecoverState::Begin(
                                        TidSet::from_slice(transactions.as_slice()),
                                    )
                                }
                            },
                            other => other,
                        };
                    },
                    SingleLogEntry::Checkpoint(Checkpoint::End) => {
                        state = match state {
                            RecoverState::Fresh => RecoverState::End,
                            other => other,
                        };
                    },
                    SingleLogEntry::InsertEntry(_) => {},
                }
                read.push(data);
                proof {
                    let after = RedoScan {
                        committed: committed@,
                        aborted: aborted@,
                        uncommitted: uncommitted@,
                        state: state@,
                    };
                    let rest = backward_entries::<Data>(iter@);
                    assert(after == now.step(entry));
                    assert(done == now.stops(entry));
                    assert(entry_views(read@) =~= seen.push(entry));
                    after.lemma_reads_bound(rest);
                    if done {
                        assert(seen + (seq![entry] + rest).take(1) =~= seen.push(entry));
                    } else {
                        assert(seen + (seq![entry] + rest).take(1 + after.reads(rest) as int)
                            =~= seen.push(entry) + rest.take(after.reads(rest) as int));
                    }
                }
            },
        }
    }
    // Second pass:
    let ghost window = entry_views(read@).reverse();
    let mut ops: Vec<StoreOp<Data>> = Vec::new();
    proof {
        assert(op_views(ops@) =~= Seq::empty());
        assert(redo_ops(committed@, window) =~= op_views(ops@) + redo_ops(committed@, window));
    }
    while read.len() > 0
        invariant
            committed.wf(),
            redo_ops(committed@, window) == op_views(ops@) + redo_ops(
                committed@,
                entry_views(read@).reverse(),
            ),
        decreases read.len(),
    {
        let ghost sofar = op_views(ops@);
        let ghost ahead = entry_views(read@).reverse();
        let popped = read.pop();
        match popped {
            Some(SingleLogEntry::ChangeEntry(entry)) => {
                proof {
                    assert(ahead =~= seq![popped->0@] + entry_views(read@).reverse());
                    assert(ahead.drop_first() =~= entry_views(read@).reverse());
                }
                if committed.contains(entry.tid) {
                    let op = StoreOp::Update(entry.key, entry.value);
                    proof {
                        assert(op_views(ops@.push(op)) =~= op_views(ops@).push(op@));
                    }
                    ops.push(op);
                }
            },
            _ => {
                proof {
                    assert(ahead =~= seq![popped->0@] + entry_views(read@).reverse());
                    assert(ahead.drop_first() =~= entry_views(read@).reverse());
                }
            },
        }
        proof {
            let entry = popped->0@;
            let rest = entry_views(read@).reverse();
            assert(ahead[0] == entry);
            assert(op_views(ops@) =~= sofar + redo_op(committed@, entry));
            assert(sofar + (redo_op(committed@, entry) + redo_ops(committed@, rest))
                =~= op_views(ops@) + redo_ops(committed@, rest));
        }
    }
    proof {
        assert(entry_views(read@).reverse() =~= Seq::empty());
        assert(op_views(ops@) + redo_ops(committed@, entry_views(read@).reverse())
            =~= op_views(ops@));
    }
    // Set the last tid to the largest tid.
    let max_committed = committed.max();
    let max_uncommitted = uncommitted.max();
    let max_aborted = aborted.max();
    let last_tid = if max_committed >= max_uncommitted && max_committed >= max_aborted {
        max_committed
    } else if max_uncommitted >= max_aborted {
        max_uncommitted
    } else {
        max_aborted
    };
    RedoPlan { ops, uncommitted: uncommitted.to_vec(), last_tid }
}

/// A checkpoint bounds the recovery: once the recovery waits for the
/// starts of the transactions of a begin mark, and each of them has its
/// start entry among the first `n` entries to come, what it knows in the
/// end is what it knows after these `n` entries: it reads none behind
/// them.
pub proof fn lemma_checkpoint_bounds_redo<K, V>(
    scan: RedoScan,
    tids: Seq<u64>,
    entries: Seq<LogEntryView<K, V>>,
    n: int,
)
    requires
        scan.state == RecoverStateView::Begin(tids),
        tids.len() > 0,
        0 <= n <= entries.len(),
        forall|i: int| 0 <= i < tids.len() ==> start_place(entries, #[trigger] tids[i]) < n,
    ensures
        scan.replay(entries) == scan.replay(entries.take(n)),
        scan.reads(entries) == scan.reads(entries.take(n)),
        scan.reads(entries) <= n,
    decreases entries.len(),
{
    assert(start_place(entries, tids[0]) < n);
    lemma_start_place(entries, tids[0]);
    let first = entries[0];
    let head = entries.take(n);
    assert(head[0] == first);
    if !scan.stops(first) {
        let next = scan.step(first);
        let rest = entries.drop_first();
        assert(head.drop_first() =~= rest.take(n - 1));
        let left = match first {
            LogEntryView::Transaction(Transaction::Start(id)) => without_tid(tids, id),
            _ => tids,
        };
        assert(next.state == RecoverStateView::Begin(left));
        assert(left.len() > 0);
        assert forall|i: int| 0 <= i < left.len() implies start_place(rest, #[trigger] left[i])
            < n - 1 by {
            let t = left[i];
            assert(left.contains(t));
            if let LogEntryView::Transaction(Transaction::Start(id)) = first {
                lemma_without_tid(tids, id);
                assert(without_tid(tids, id).contains(t));
                assert(t != id);
            }
            assert(tids.contains(t));
            let k = choose|k: int| 0 <= k < tids.len() && tids[k] == t;
            assert(start_place(entries, tids[k]) < n);
            assert(first != LogEntryView::<K, V>::Transaction(Transaction::Start(t)));
        }
        lemma_checkpoint_bounds_redo(next, left, rest, n - 1);
    }
}

/// A matched pair of checkpoint marks bounds the recovery: where the
/// recovery has read an end mark and no begin mark, the next entry is a
/// begin mark, and each of its transactions has its start entry among
/// the first `n` entries to come, the recovery reads none behind these
/// `n` entries.
pub proof fn lemma_checkpoint_pair_bounds_redo<K, V>(
    scan: RedoScan,
    tids: Seq<u64>,
    entries: Seq<LogEntryView<K, V>>,
    n: int,
)
    requires
        scan.state == RecoverStateView::End,
        1 <= n <= entries.len(),
        entries[0] == LogEntryView::<K, V>::Checkpoint(CheckpointView::Begin(tids)),
        forall|i: int| 0 <= i < tids.len() ==> start_place(entries, #[trigger] tids[i]) < n,
    ensures
        scan.replay(entries) == scan.replay(entries.take(n)),
        scan.reads(entries) == scan.reads(entries.take(n)),
        scan.reads(entries) <= n,
{
    let head = entries.take(n);
    assert(head[0] == entries[0]);
    assert(head.drop_first() =~= entries.drop_first().take(n - 1));
    if tids.len() > 0 {
        let next = scan.step(entries[0]);
        let rest = entries.drop_first();
        let left = distinct(tids);
        lemma_distinct(tids);
        assert forall|i: int| 0 <= i < left.len() implies start_place(rest, #[trigger] left[i])
            < n - 1 by {
            let t = left[i];
            assert(left.contains(t));
            assert(tids.contains(t));
            let k = choose|k: int| 0 <= k < tids.len() && tids[k] == t;
            assert(start_place(entries, tids[k]) < n);
        }
        lemma_checkpoint_bounds_redo(next, left, rest, n - 1);
    }
}

/// A recovery that waits for no start reads on through entries without
/// a checkpoint mark, and what it has seen of checkpoints stays.
pub proof fn lemma_reads_on_redo<K, V>(
    scan: RedoScan,
    first: Seq<LogEntryView<K, V>>,
    rest: Seq<LogEntryView<K, V>>,
)
    requires
        !(scan.state is Begin),
        no_marks(first),
    ensures
        scan.replay(first).state == scan.state,
        scan.reads(first) == first.len(),
        scan.replay(first + rest) == scan.replay(first).replay(rest),
        scan.reads(first + rest) == first.len() + scan.replay(first).reads(rest),
    decreases first.len(),
{
    if first.len() == 0 {
        assert(first + rest =~= rest);
    } else {
        let entry = first[0];
        let behind = first.drop_first();
        assert(!(entry is Checkpoint));
        assert(!scan.stops(entry));
        assert((first + rest)[0] == entry);
        assert((first + rest).drop_first() =~= behind + rest);
        assert(no_marks(behind)) by {
            assert forall|i: int| 0 <= i < behind.len() implies !((#[trigger] behind[i])
                is Checkpoint) by {
                assert(behind[i] == first[i + 1]);
            }
        }
        lemma_reads_on_redo(scan.step(entry), behind, rest);
    }
}

/// Checkpoint soundness, from the end of a log. The entries are taken
/// newest first: entries without a checkpoint mark, an end mark,
/// entries without a checkpoint mark, the begin mark, and the older
/// entries, among whose first `n` each transaction of the begin mark
/// has its start entry (`n` is 0 where it names none). The recovery
/// reads none of the entries behind these `n`: the transactions that it
/// notes and the entries whose changes it does again are those of the
/// log without the entries behind them.
pub proof fn lemma_checkpoint_bounds_redo_log<K, V>(
    newest: Seq<LogEntryView<K, V>>,
    between: Seq<LogEntryView<K, V>>,
    tids: Seq<u64>,
    older: Seq<LogEntryView<K, V>>,
    n: int,
)
    requires
        no_marks(newest),
        no_marks(between),
        0 <= n <= older.len(),
        forall|i: int| 0 <= i < tids.len() ==> start_place(older, #[trigger] tids[i]) < n,
    ensures
        ({
            let head = checkpoint_head(newest, between, tids);
            let scan = RedoScan::start();
            &&& scan.reads(head + older) <= head.len() + n
            &&& scan.replay(head + older) == scan.replay(head + older.take(n))
            &&& scan.window(head + older) == scan.window(head + older.take(n))
        }),
{
    let head = checkpoint_head(newest, between, tids);
    let begin = seq![LogEntryView::<K, V>::Checkpoint(CheckpointView::Begin(tids))];
    let end = LogEntryView::<K, V>::Checkpoint(CheckpointView::End);
    let scan = RedoScan::start();
    let at_end = scan.replay(newest).step(end);
    let at_begin = at_end.replay(between);
    let marked = begin + older;
    assert(scan.replay(head + older) == at_begin.replay(marked) && scan.reads(head + older)
        == newest.len() + 1 + between.len() + at_begin.reads(marked) && at_begin.state
        == RecoverStateView::End) by {
        lemma_to_begin_redo(newest, between, tids, older);
    }
    assert(scan.replay(head + older.take(n)) == at_begin.replay(begin + older.take(n))
        && scan.reads(head + older.take(n)) == newest.len() + 1 + between.len()
        + at_begin.reads(begin + older.take(n))) by {
        lemma_to_begin_redo(newest, between, tids, older.take(n));
    }
    assert(marked.take(n + 1) =~= begin + older.take(n));
    assert(marked.drop_first() =~= older);
    assert forall|i: int| 0 <= i < tids.len() implies start_place(marked, #[trigger] tids[i]) < n
        + 1 by {
        assert(start_place(older, tids[i]) < n);
    }
    lemma_checkpoint_pair_bounds_redo(at_begin, tids, marked, n + 1);
    let read = scan.reads(head + older) as int;
    assert(head.len() == newest.len() + 1 + between.len() + 1);
    assert((head + older).take(read) =~= (head + older.take(n)).take(read));
}

/// What a recovery has come to at the begin mark of the checkpoint with
/// which a log ends, going backward.
proof fn lemma_to_begin_redo<K, V>(
    newest: Seq<LogEntryView<K, V>>,
    between: Seq<LogEntryView<K, V>>,
    tids: Seq<u64>,
    older: Seq<LogEntryView<K, V>>,
)
    requires
        no_marks(newest),
        no_marks(between),
    ensures
        ({
            let all = checkpoint_head(newest, between, tids) + older;
            let end = LogEntryView::<K, V>::Checkpoint(CheckpointView::End);
            let marked = seq![LogEntryView::<K, V>::Checkpoint(CheckpointView::Begin(tids))]
                + older;
            let scan = RedoScan::start();
            let at_begin = scan.replay(newest).step(end).replay(between);
            &&& at_begin.state == RecoverStateView::End
            &&& scan.replay(all) == at_begin.replay(marked)
            &&& scan.reads(all) == newest.len() + 1 + between.len() + at_begin.reads(marked)
        }),
{
    let all = checkpoint_head(newest, between, tids) + older;
    let end = LogEntryView::<K, V>::Checkpoint(CheckpointView::End);
    let marked = seq![LogEntryView::<K, V>::Checkpoint(CheckpointView::Begin(tids))] + older;
    let scan = RedoScan::start();
    let ended = seq![end] + (between + marked);
    assert(all =~= newest + ended);
    lemma_reads_on_redo(scan, newest, ended);
    let at_newest = scan.replay(newest);
    assert(ended[0] == end);
    assert(ended.drop_first() =~= between + marked);
    assert(!at_newest.stops(end));
    lemma_reads_on_redo(at_newest.step(end), between, marked);
}

/// A transaction that a recovery has seen to commit stays committed.
pub proof fn lemma_committed_stays<K, V>(scan: RedoScan, entries: Seq<LogEntryView<K, V>>, tid: u64)
    requires
        scan.committed.contains(tid),
    ensures
        scan.replay(entries).committed.contains(tid),
    decreases entries.len(),
{
    if entries.len() > 0 {
        let next = scan.step(entries[0]);
        if let LogEntryView::Transaction(Transaction::Commit(id)) = entries[0] {
            lemma_with_tid(scan.committed, id);
        }
        assert(next.committed.contains(tid));
        if !scan.stops(entries[0]) {
            lemma_committed_stays(next, entries.drop_first(), tid);
        }
    }
}

/// A transaction whose commit entry the recovery reads is committed in
/// the end.
pub proof fn lemma_commit_read<K, V>(
    scan: RedoScan,
    entries: Seq<LogEntryView<K, V>>,
    place: int,
    tid: u64,
)
    requires
        0 <= place < scan.reads(entries),
        place < entries.len(),
        entries[place] == LogEntryView::<K, V>::Transaction(Transaction::Commit(tid)),
    ensures
        scan.replay(entries).committed.contains(tid),
    decreases entries.len(),
{
    let next = scan.step(entries[0]);
    let rest = entries.drop_first();
    if place == 0 {
        lemma_with_tid(scan.committed, tid);
        assert(!scan.stops(entries[0]));
        lemma_committed_stays(next, rest, tid);
    } else {
        assert(rest[place - 1] == entries[place]);
        lemma_commit_read(next, rest, place - 1, tid);
    }
}

/// The entry is a change of a transaction in `committed` to `key`.
pub open spec fn changes_key<K, V>(entry: LogEntryView<K, V>, committed: Seq<u64>, key: K) -> bool {
    match entry {
        LogEntryView::ChangeEntry(entry) => committed.contains(entry.tid) && entry.key == key,
        _ => false,
    }
}

/// What the store is to do goes entry by entry from the end, too.
pub proof fn lemma_redo_ops_last<K, V>(committed: Seq<u64>, entries: Seq<LogEntryView<K, V>>)
    requires
        entries.len() > 0,
    ensures
        redo_ops(committed, entries) == redo_ops(committed, entries.drop_last()) + redo_op(
            committed,
            entries.last(),
        ),
    decreases entries.len(),
{
    let front = entries.drop_last();
    if entries.len() == 1 {
        assert(entries.drop_first() =~= Seq::empty());
        assert(front =~= Seq::empty());
        assert(redo_ops(committed, entries) =~= redo_ops(committed, front) + redo_op(
            committed,
            entries.last(),
        ));
    } else {
        let rest = entries.drop_first();
        lemma_redo_ops_last(committed, rest);
        assert(rest.drop_last() =~= front.drop_first());
        assert(front[0] == entries[0]);
        assert(rest.last() == entries.last());
        assert(redo_ops(committed, entries) =~= redo_ops(committed, front) + redo_op(
            committed,
            entries.last(),
        ));
    }
}

/// Doing operations one after the other is doing the first ones, then
/// the last.
pub proof fn lemma_applied_concat<K, V>(
    store: Map<K, V>,
    first: Seq<StoreOpView<K, V>>,
    second: Seq<StoreOpView<K, V>>,
)
    ensures
        applied(store, first + second) == applied(applied(store, first), second),
    decreases second.len(),
{
    if second.len() == 0 {
        assert(first + second =~= first);
    } else {
        assert((first + second).drop_last() =~= first + second.drop_last());
        assert((first + second).last() == second.last());
        lemma_applied_concat(store, first, second.drop_last());
    }
}

/// Redoing brings back what committed: where the entries that the
/// recovery reads hold the commit entry of a transaction, the recovery
/// sees the transaction as committed; and where they hold a change of
/// the transaction to a key, with no change of a committed transaction
/// to that key behind it, a store that behaves as a map holds the
/// changed value under the key after doing what the recovery hands it.
/// The entries are taken in the order of the log.
pub proof fn lemma_redo_recovery<K, V>(
    tid: u64,
    key: K,
    value: V,
    entries: Seq<LogEntryView<K, V>>,
    place: int,
    commit: int,
    store: Map<K, V>,
)
    requires
        entries.len() - RedoScan::start().reads(entries.reverse()) <= place < entries.len(),
        entries.len() - RedoScan::start().reads(entries.reverse()) <= commit < entries.len(),
        entries[commit] == LogEntryView::<K, V>::Transaction(Transaction::Commit(tid)),
        entries[place] == LogEntryView::ChangeEntry(ChangeEntryView { tid, key, value }),
        forall|j: int|
            place < j < entries.len() ==> !changes_key(
                #[trigger] entries[j],
                RedoScan::start().replay(entries.reverse()).committed,
                key,
            ),
    ensures
        ({
            let committed = RedoScan::start().replay(entries.reverse()).committed;
            let after = applied(
                store,
                redo_ops(committed, RedoScan::start().window(entries.reverse())),
            );
            &&& committed.contains(tid)
            &&& after.contains_key(key)
            &&& after[key] == value
        }),
{
    let first = RedoScan::start();
    let backward = entries.reverse();
    first.lemma_reads_bound(backward);
    assert(backward[entries.len() - 1 - commit] == entries[commit]);
    lemma_commit_read(first, backward, entries.len() - 1 - commit, tid);
    let committed = first.replay(backward).committed;
    let from = entries.len() - first.reads(backward);
    let forward = entries.skip(from);
    assert(first.window(backward) =~= forward);
    assert(forward[place - from] == entries[place]);
    assert forall|j: int| place - from < j < forward.len() implies !changes_key(
        #[trigger] forward[j],
        committed,
        key,
    ) by {
        assert(forward[j] == entries[j + from]);
    }
    lemma_last_change_wins(committed, forward, place - from, store);
}

/// The last change of a committed transaction to a key decides what a
/// store that behaves as a map holds under the key.
proof fn lemma_last_change_wins<K, V>(
    committed: Seq<u64>,
    forward: Seq<LogEntryView<K, V>>,
    place: int,
    store: Map<K, V>,
)
    requires
        0 <= place < forward.len(),
        forward[place] is ChangeEntry,
        committed.contains(forward[place]->ChangeEntry_0.tid),
        forall|j: int|
            place < j < forward.len() ==> !changes_key(
                #[trigger] forward[j],
                committed,
                forward[place]->ChangeEntry_0.key,
            ),
    ensures
        applied(store, redo_ops(committed, forward)).contains_key(
            forward[place]->ChangeEntry_0.key,
        ),
        applied(store, redo_ops(committed, forward))[forward[place]->ChangeEntry_0.key]
            == forward[place]->ChangeEntry_0.value,
    decreases forward.len(),
{
    let key = forward[place]->ChangeEntry_0.key;
    let front = forward.drop_last();
    let last = redo_op(committed, forward.last());
    lemma_redo_ops_last(committed, forward);
    lemma_applied_concat(store, redo_ops(committed, front), last);
    let middle = applied(store, redo_ops(committed, front));
    if last.len() > 0 {
        assert(last.drop_last() =~= Seq::<StoreOpView<K, V>>::empty());
        assert(applied(middle, last.drop_last()) == middle);
    }
    if place < forward.len() - 1 {
        assert(front[place] == forward[place]);
        assert forall|j: int| place < j < front.len() implies !changes_key(
            #[trigger] front[j],
            committed,
            key,
        ) by {
            assert(front[j] == forward[j]);
        }
        lemma_last_change_wins(committed, front, place, store);
        assert(!changes_key(forward[forward.len() - 1], committed, key));
    }
}

/// A recovery that has read no checkpoint mark finds no place to stop
/// among entries without a checkpoint mark: it reads them all.
pub proof fn lemma_no_marks_reads_all<K, V>(scan: RedoScan, entries: Seq<LogEntryView<K, V>>)
    requires
        scan.state == RecoverStateView::Fresh,
        no_marks(entries),
    ensures
        scan.reads(entries) == entries.len(),
        scan.window(entries) == entries.reverse(),
    decreases entries.len(),
{
    if entries.len() > 0 {
        let rest = entries.drop_first();
        assert(!(entries[0] is Checkpoint));
        assert(no_marks(rest)) by {
            assert forall|i: int| 0 <= i < rest.len() implies !((#[trigger] rest[i])
                is Checkpoint) by {
                assert(rest[i] == entries[i + 1]);
            }
        }
        lemma_no_marks_reads_all(scan.step(entries[0]), rest);
    }
    assert(entries.take(entries.len() as int) =~= entries);
}

/// Redo recovery: where the file of a log holds, among the entries that
/// the recovery reads, the commit entry of a transaction and a change
/// of the transaction to a key, with no change of a committed
/// transaction to that key behind it, the recovery that opens the log
/// on this file sees the transaction as committed, and a store that
/// behaves as a map holds the changed value under the key after doing
/// what the recovery hands it. The recovery goes over the newest entries
/// of the log, as many as it reads going backward, in their order.
pub proof fn lemma_redo_recovery_of_log<Data: LogData>(
    tid: u64,
    key: KeyView<Data>,
    value: ValueView<Data>,
    entries: Seq<LogEntryView<KeyView<Data>, ValueView<Data>>>,
    place: int,
    commit: int,
    store: Map<KeyView<Data>, ValueView<Data>>,
)
    requires
        all_encodable::<Data>(entries),
        log_file::<Data>(entries).len() <= u64::MAX,
        entries.len() - RedoScan::start().reads(entries.reverse()) <= place < entries.len(),
        entries.len() - RedoScan::start().reads(entries.reverse()) <= commit < entries.len(),
        entries[commit] == LogEntryView::<KeyView<Data>, ValueView<Data>>::Transaction(
            Transaction::Commit(tid),
        ),
        entries[place] == LogEntryView::ChangeEntry(ChangeEntryView { tid, key, value }),
        forall|j: int|
            place < j < entries.len() ==> !changes_key(
                #[trigger] entries[j],
                RedoScan::start().replay(entries.reverse()).committed,
                key,
            ),
    ensures
        ({
            let first = WalIteratorView::start(
                log_file::<Data>(entries),
                ReadDirection::Backward,
            );
            let read = backward_entries::<Data>(first);
            let scan = RedoScan::start().replay(read);
            let after = applied(store, redo_ops(scan.committed, RedoScan::start().window(read)));
            &&& read == entries.reverse()
            &&& RedoScan::start().window(read) == entries.skip(
                entries.len() - RedoScan::start().reads(read),
            )
            &&& scan.committed.contains(tid)
            &&& after.contains_key(key)
            &&& after[key] == value
        }),
{
    lemma_log_round_trip::<Data>(entries);
    RedoScan::start().lemma_reads_bound(entries.reverse());
    assert(RedoScan::start().window(entries.reverse()) =~= entries.skip(
        entries.len() - RedoScan::start().reads(entries.reverse()),
    ));
    lemma_redo_recovery(tid, key, value, entries, place, commit, store);
}

/// Redo recovery of a log without checkpoints: the recovery reads the
/// whole log, so each change of a transaction with a commit entry in
/// the file, with no change of a committed transaction to the same key
/// behind it, is in the store after the recovery, wherever in the file
/// it stands and however many blocks the file has.
pub proof fn lemma_redo_recovery_without_checkpoint<Data: LogData>(
    tid: u64,
    key: KeyView<Data>,
    value: ValueView<Data>,
    entries: Seq<LogEntryView<KeyView<Data>, ValueView<Data>>>,
    place: int,
    commit: int,
    store: Map<KeyView<Data>, ValueView<Data>>,
)
    requires
        all_encodable::<Data>(entries),
        log_file::<Data>(entries).len() <= u64::MAX,
        no_marks(entries),
        0 <= place < entries.len(),
        0 <= commit < entries.len(),
        entries[commit] == LogEntryView::<KeyView<Data>, ValueView<Data>>::Transaction(
            Transaction::Commit(tid),
        ),
        entries[place] == LogEntryView::ChangeEntry(ChangeEntryView { tid, key, value }),
        forall|j: int|
            place < j < entries.len() ==> !changes_key(
                #[trigger] entries[j],
                RedoScan::start().replay(entries.reverse()).committed,
                key,
            ),
    ensures
        ({
            let first = WalIteratorView::start(
                log_file::<Data>(entries),
                ReadDirection::Backward,
            );
            let read = backward_entries::<Data>(first);
            let scan = RedoScan::start().replay(read);
            let after = applied(store, redo_ops(scan.committed, RedoScan::start().window(read)));
            &&& RedoScan::start().window(read) == entries
            &&& scan.committed.contains(tid)
            &&& after.contains_key(key)
            &&& after[key] == value
        }),
{
    let backward = entries.reverse();
    assert(no_marks(backward)) by {
        assert forall|i: int| 0 <= i < backward.len() implies !((#[trigger] backward[i])
            is Checkpoint) by {
            assert(backward[i] == entries[entries.len() - 1 - i]);
        }
    }
    lemma_no_marks_reads_all(RedoScan::start(), backward);
    assert(backward.reverse() =~= entries);
    lemma_redo_recovery_of_log::<Data>(tid, key, value, entries, place, commit, store);
}

} // verus!
